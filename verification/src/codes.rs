//! The four characters of every box and brand this crate names.

use vstd::prelude::*;

verus! {

pub const FTYP: [u8; 4] = [0x66, 0x74, 0x79, 0x70];

pub const MOOV: [u8; 4] = [0x6d, 0x6f, 0x6f, 0x76];

pub const MVHD: [u8; 4] = [0x6d, 0x76, 0x68, 0x64];

pub const TRAK: [u8; 4] = [0x74, 0x72, 0x61, 0x6b];

pub const TKHD: [u8; 4] = [0x74, 0x6b, 0x68, 0x64];

pub const MDIA: [u8; 4] = [0x6d, 0x64, 0x69, 0x61];

pub const MDHD: [u8; 4] = [0x6d, 0x64, 0x68, 0x64];

pub const HDLR: [u8; 4] = [0x68, 0x64, 0x6c, 0x72];

pub const MINF: [u8; 4] = [0x6d, 0x69, 0x6e, 0x66];

pub const STBL: [u8; 4] = [0x73, 0x74, 0x62, 0x6c];

pub const STSD: [u8; 4] = [0x73, 0x74, 0x73, 0x64];

pub const STTS: [u8; 4] = [0x73, 0x74, 0x74, 0x73];

pub const CTTS: [u8; 4] = [0x63, 0x74, 0x74, 0x73];

pub const STSC: [u8; 4] = [0x73, 0x74, 0x73, 0x63];

pub const STSZ: [u8; 4] = [0x73, 0x74, 0x73, 0x7a];

pub const STZ2: [u8; 4] = [0x73, 0x74, 0x7a, 0x32];

pub const STCO: [u8; 4] = [0x73, 0x74, 0x63, 0x6f];

pub const CO64: [u8; 4] = [0x63, 0x6f, 0x36, 0x34];

pub const STSS: [u8; 4] = [0x73, 0x74, 0x73, 0x73];

pub const EDTS: [u8; 4] = [0x65, 0x64, 0x74, 0x73];

pub const ELST: [u8; 4] = [0x65, 0x6c, 0x73, 0x74];

pub const MVEX: [u8; 4] = [0x6d, 0x76, 0x65, 0x78];

pub const TREX: [u8; 4] = [0x74, 0x72, 0x65, 0x78];

pub const MOOF: [u8; 4] = [0x6d, 0x6f, 0x6f, 0x66];

pub const MFHD: [u8; 4] = [0x6d, 0x66, 0x68, 0x64];

pub const TRAF: [u8; 4] = [0x74, 0x72, 0x61, 0x66];

pub const TFHD: [u8; 4] = [0x74, 0x66, 0x68, 0x64];

pub const TFDT: [u8; 4] = [0x74, 0x66, 0x64, 0x74];

pub const TRUN: [u8; 4] = [0x74, 0x72, 0x75, 0x6e];

pub const MDAT: [u8; 4] = [0x6d, 0x64, 0x61, 0x74];

pub const MFRA: [u8; 4] = [0x6d, 0x66, 0x72, 0x61];

pub const UUID: [u8; 4] = [0x75, 0x75, 0x69, 0x64];

pub const VMHD: [u8; 4] = [0x76, 0x6d, 0x68, 0x64];

pub const SMHD: [u8; 4] = [0x73, 0x6d, 0x68, 0x64];

pub const DINF: [u8; 4] = [0x64, 0x69, 0x6e, 0x66];

pub const DREF: [u8; 4] = [0x64, 0x72, 0x65, 0x66];

pub const URL: [u8; 4] = [0x75, 0x72, 0x6c, 0x20];

pub const VIDE: [u8; 4] = [0x76, 0x69, 0x64, 0x65];

pub const SOUN: [u8; 4] = [0x73, 0x6f, 0x75, 0x6e];

pub const AVC1: [u8; 4] = [0x61, 0x76, 0x63, 0x31];

pub const AVC3: [u8; 4] = [0x61, 0x76, 0x63, 0x33];

pub const HVC1: [u8; 4] = [0x68, 0x76, 0x63, 0x31];

pub const HEV1: [u8; 4] = [0x68, 0x65, 0x76, 0x31];

pub const AV01: [u8; 4] = [0x61, 0x76, 0x30, 0x31];

pub const MP4A: [u8; 4] = [0x6d, 0x70, 0x34, 0x61];

pub const AVC_C: [u8; 4] = [0x61, 0x76, 0x63, 0x43];

pub const HVC_C: [u8; 4] = [0x68, 0x76, 0x63, 0x43];

pub const AV1_C: [u8; 4] = [0x61, 0x76, 0x31, 0x43];

pub const ESDS: [u8; 4] = [0x65, 0x73, 0x64, 0x73];

pub const ISO5: [u8; 4] = [0x69, 0x73, 0x6f, 0x35];

pub const ISOM: [u8; 4] = [0x69, 0x73, 0x6f, 0x6d];

pub const MP41: [u8; 4] = [0x6d, 0x70, 0x34, 0x31];

/// Whether two kinds are the same four characters.
pub fn same(one: &[u8; 4], other: &[u8; 4]) -> (same: bool)
    ensures
        same == (*one == *other),
{
    let same = one[0] == other[0] && one[1] == other[1] && one[2] == other[2] && one[3]
        == other[3];
    assert(same ==> *one =~= *other);
    same
}

} // verus!

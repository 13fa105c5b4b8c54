//! Big-endian numbers, the byte order every field in a box is written in.

use vstd::prelude::*;

verus! {

/// The 16-bit number at `i`.
#[verifier::opaque]
pub open spec fn be16(s: Seq<u8>, i: int) -> u16 {
    (s[i] * 0x100 + s[i + 1]) as u16
}

/// The 24-bit number at `i`.
#[verifier::opaque]
pub open spec fn be24(s: Seq<u8>, i: int) -> u32 {
    (s[i] * 0x1_0000 + s[i + 1] * 0x100 + s[i + 2]) as u32
}

/// The 32-bit number at `i`.
#[verifier::opaque]
pub open spec fn be32(s: Seq<u8>, i: int) -> u32 {
    (s[i] * 0x100_0000 + s[i + 1] * 0x1_0000 + s[i + 2] * 0x100 + s[i + 3]) as u32
}

/// The 64-bit number at `i`.
#[verifier::opaque]
pub open spec fn be64(s: Seq<u8>, i: int) -> u64 {
    (be32(s, i) * 0x1_0000_0000 + be32(s, i + 4)) as u64
}

/// The four bytes at `i`, as a box kind.
pub open spec fn kind_at(s: Seq<u8>, i: int) -> [u8; 4] {
    [s[i], s[i + 1], s[i + 2], s[i + 3]]
}

/// A 32-bit word read as two's complement.
pub open spec fn signed32(v: u32) -> i32 {
    if v < 0x8000_0000 {
        v as i32
    } else {
        (v - 0x1_0000_0000) as i32
    }
}

/// A 64-bit word read as two's complement.
pub open spec fn signed64(v: u64) -> i64 {
    if v < 0x8000_0000_0000_0000 {
        v as i64
    } else {
        (v - 0x1_0000_0000_0000_0000) as i64
    }
}

/// The 32-bit word whose two's complement reading is `v`.
pub open spec fn unsigned32(v: i32) -> u32 {
    if v >= 0 {
        v as u32
    } else {
        (v + 0x1_0000_0000) as u32
    }
}

/// A 16-bit number as two bytes.
#[verifier::opaque]
pub open spec fn enc16(v: u16) -> Seq<u8> {
    seq![(v / 0x100) as u8, (v % 0x100) as u8]
}

/// The low three bytes of a number.
#[verifier::opaque]
pub open spec fn enc24(v: u32) -> Seq<u8> {
    seq![(v / 0x1_0000 % 0x100) as u8, (v / 0x100 % 0x100) as u8, (v % 0x100) as u8]
}

/// A 32-bit number as four bytes.
#[verifier::opaque]
pub open spec fn enc32(v: u32) -> Seq<u8> {
    seq![
        (v / 0x100_0000) as u8,
        (v / 0x1_0000 % 0x100) as u8,
        (v / 0x100 % 0x100) as u8,
        (v % 0x100) as u8,
    ]
}

/// A 64-bit number as eight bytes.
#[verifier::opaque]
pub open spec fn enc64(v: u64) -> Seq<u8> {
    enc32((v / 0x1_0000_0000) as u32) + enc32((v % 0x1_0000_0000) as u32)
}

pub fn get16(data: &[u8], i: usize) -> (v: u16)
    requires
        i + 2 <= data.len(),
    ensures
        v == be16(data@, i as int),
{
    proof {
        reveal(be16);
    }
    data[i] as u16 * 0x100 + data[i + 1] as u16
}

pub fn get24(data: &[u8], i: usize) -> (v: u32)
    requires
        i + 3 <= data.len(),
    ensures
        v == be24(data@, i as int),
        v < 0x100_0000,
{
    proof {
        reveal(be24);
    }
    data[i] as u32 * 0x1_0000 + data[i + 1] as u32 * 0x100 + data[i + 2] as u32
}

pub fn get32(data: &[u8], i: usize) -> (v: u32)
    requires
        i + 4 <= data.len(),
    ensures
        v == be32(data@, i as int),
{
    proof {
        reveal(be32);
    }
    data[i] as u32 * 0x100_0000 + data[i + 1] as u32 * 0x1_0000 + data[i + 2] as u32 * 0x100
        + data[i + 3] as u32
}

pub fn get64(data: &[u8], i: usize) -> (v: u64)
    requires
        i + 8 <= data.len(),
    ensures
        v == be64(data@, i as int),
{
    proof {
        reveal(be64);
    }
    get32(data, i) as u64 * 0x1_0000_0000 + get32(data, i + 4) as u64
}

pub fn get_kind(data: &[u8], i: usize) -> (kind: [u8; 4])
    requires
        i + 4 <= data.len(),
    ensures
        kind == kind_at(data@, i as int),
{
    [data[i], data[i + 1], data[i + 2], data[i + 3]]
}

pub fn as_signed32(v: u32) -> (out: i32)
    ensures
        out == signed32(v),
{
    if v < 0x8000_0000 {
        v as i32
    } else {
        (v as i64 - 0x1_0000_0000) as i32
    }
}

pub fn as_signed64(v: u64) -> (out: i64)
    ensures
        out == signed64(v),
{
    if v < 0x8000_0000_0000_0000 {
        v as i64
    } else {
        (v as i128 - 0x1_0000_0000_0000_0000) as i64
    }
}

pub fn as_unsigned32(v: i32) -> (out: u32)
    ensures
        out == unsigned32(v),
{
    if v >= 0 {
        v as u32
    } else {
        (v as i64 + 0x1_0000_0000) as u32
    }
}

pub fn put16(out: &mut Vec<u8>, v: u16)
    ensures
        final(out)@ == old(out)@ + enc16(v),
{
    proof {
        reveal(enc16);
    }
    let ghost before = out@;
    out.push((v / 0x100) as u8);
    out.push((v % 0x100) as u8);
    assert(out@ =~= before + enc16(v));
}

pub fn put24(out: &mut Vec<u8>, v: u32)
    ensures
        final(out)@ == old(out)@ + enc24(v),
{
    proof {
        reveal(enc24);
    }
    let ghost before = out@;
    out.push((v / 0x1_0000 % 0x100) as u8);
    out.push((v / 0x100 % 0x100) as u8);
    out.push((v % 0x100) as u8);
    assert(out@ =~= before + enc24(v));
}

pub fn put32(out: &mut Vec<u8>, v: u32)
    ensures
        final(out)@ == old(out)@ + enc32(v),
{
    proof {
        reveal(enc32);
    }
    let ghost before = out@;
    out.push((v / 0x100_0000) as u8);
    out.push((v / 0x1_0000 % 0x100) as u8);
    out.push((v / 0x100 % 0x100) as u8);
    out.push((v % 0x100) as u8);
    assert(out@ =~= before + enc32(v));
}

pub fn put64(out: &mut Vec<u8>, v: u64)
    ensures
        final(out)@ == old(out)@ + enc64(v),
{
    proof {
        reveal(enc64);
    }
    let ghost before = out@;
    put32(out, (v / 0x1_0000_0000) as u32);
    put32(out, (v % 0x1_0000_0000) as u32);
    assert(out@ =~= before + enc64(v));
}

/// The bytes of a slice, appended.
pub fn put(out: &mut Vec<u8>, bytes: &[u8])
    ensures
        final(out)@ == old(out)@ + bytes@,
{
    let ghost before = out@;
    out.extend_from_slice(bytes);
    assert(out@ =~= before + bytes@);
}

/// `count` zero bytes.
pub open spec fn zeros(count: nat) -> Seq<u8> {
    Seq::new(count, |i: int| 0u8)
}

/// `count` zero bytes, appended.
pub fn put_zeros(out: &mut Vec<u8>, count: usize)
    ensures
        final(out)@ == old(out)@ + zeros(count as nat),
{
    let ghost before = out@;
    let mut done: usize = 0;
    assert(out@ =~= before + zeros(0));
    while done < count
        invariant
            done <= count,
            out@ == before + zeros(done as nat),
        decreases count - done,
    {
        out.push(0);
        done = done + 1;
        assert(out@ =~= before + zeros(done as nat));
    }
}

pub broadcast proof fn lemma_enc16_len(v: u16)
    ensures
        #[trigger] enc16(v).len() == 2,
{
    reveal(enc16);
}

pub broadcast proof fn lemma_enc24_len(v: u32)
    ensures
        #[trigger] enc24(v).len() == 3,
{
    reveal(enc24);
}

pub broadcast proof fn lemma_enc32_len(v: u32)
    ensures
        #[trigger] enc32(v).len() == 4,
{
    reveal(enc32);
}

pub broadcast proof fn lemma_enc64_len(v: u64)
    ensures
        #[trigger] enc64(v).len() == 8,
{
    reveal(enc32);
    reveal(enc64);
}

/// How many bytes each width takes.
pub broadcast group group_enc_len {
    lemma_enc16_len,
    lemma_enc24_len,
    lemma_enc32_len,
    lemma_enc64_len,
}

/// A sixteen-bit number reads back as it was written.
pub proof fn lemma_enc16(v: u16)
    ensures
        be16(enc16(v), 0) == v,
{
    reveal(be16);
    reveal(enc16);
}

/// A number reads back as the low three bytes of it that were written.
pub proof fn lemma_enc24(v: u32)
    ensures
        be24(enc24(v), 0) == v % 0x100_0000,
{
    reveal(be24);
    reveal(enc24);
}

/// A 32-bit number reads back as it was written.
pub proof fn lemma_enc32(v: u32)
    ensures
        be32(enc32(v), 0) == v,
{
    reveal(be32);
    reveal(enc32);
}

/// A 64-bit number reads back as it was written.
pub proof fn lemma_enc64(v: u64)
    ensures
        be64(enc64(v), 0) == v,
{
    reveal(be64);
    reveal(enc64);
    let high = (v / 0x1_0000_0000) as u32;
    let low = (v % 0x1_0000_0000) as u32;
    lemma_enc32_len(high);
    lemma_enc32(high);
    lemma_enc32(low);
    lemma_same32(enc64(v), 0, enc32(high), 0);
    assert(alike(enc64(v), 4, enc32(low), 0, 4)) by {
        lemma_enc32_len(low);
        assert(enc64(v).subrange(4, 8) =~= enc32(low));
    }
    lemma_same32(enc64(v), 4, enc32(low), 0);
}

/// Whether `count` bytes of `s` at `i` are those of `t` at `j`.
pub open spec fn alike(s: Seq<u8>, i: int, t: Seq<u8>, j: int, count: int) -> bool {
    forall|k: int| 0 <= k < count ==> s[i + k] == #[trigger] t[j + k]
}

pub proof fn lemma_same16(s: Seq<u8>, i: int, t: Seq<u8>, j: int)
    requires
        alike(s, i, t, j, 2),
    ensures
        be16(s, i) == be16(t, j),
{
    reveal(be16);
    assert(s[i + 0] == t[j + 0] && s[i + 1] == t[j + 1]);
}

pub proof fn lemma_same24(s: Seq<u8>, i: int, t: Seq<u8>, j: int)
    requires
        alike(s, i, t, j, 3),
    ensures
        be24(s, i) == be24(t, j),
{
    reveal(be24);
    assert(s[i + 0] == t[j + 0] && s[i + 1] == t[j + 1] && s[i + 2] == t[j + 2]);
}

pub proof fn lemma_same32(s: Seq<u8>, i: int, t: Seq<u8>, j: int)
    requires
        alike(s, i, t, j, 4),
    ensures
        be32(s, i) == be32(t, j),
{
    reveal(be32);
    assert(s[i + 0] == t[j + 0] && s[i + 1] == t[j + 1]);
    assert(s[i + 2] == t[j + 2] && s[i + 3] == t[j + 3]);
}

pub proof fn lemma_same64(s: Seq<u8>, i: int, t: Seq<u8>, j: int)
    requires
        alike(s, i, t, j, 8),
    ensures
        be64(s, i) == be64(t, j),
{
    reveal(be64);
    lemma_same32(s, i, t, j);
    assert forall|k: int| 0 <= k < 4 implies #[trigger] s[i + 4 + k] == t[j + 4 + k] by {
        assert(s[i + (4 + k)] == t[j + (4 + k)]);
    }
    lemma_same32(s, i + 4, t, j + 4);
}

/// Two's complement there and back.
pub proof fn lemma_signed32(v: i32)
    ensures
        signed32(unsigned32(v)) == v,
{
}

/// The bytes of a number count down in worth: each is worth 256 of the next,
/// and the last is worth one.
pub proof fn law_the_first_byte_is_worth_most(s: Seq<u8>, i: int)
    ensures
        be16(s, i) == s[i] * 0x100 + s[i + 1],
        be24(s, i) == s[i] * 0x1_0000 + be16(s, i + 1),
        be32(s, i) == s[i] * 0x100_0000 + be24(s, i + 1),
        be64(s, i) == be32(s, i) * 0x1_0000_0000 + be32(s, i + 4),
{
    reveal(be16);
    reveal(be24);
    reveal(be32);
    reveal(be64);
}

/// A signed number is the unsigned one its bits are, or that less the number
/// of all of them, whichever the sign bit says.
pub proof fn law_a_signed_number(short: u32, long: u64)
    ensures
        short < 0x8000_0000 ==> signed32(short) == short,
        short >= 0x8000_0000 ==> signed32(short) == short - 0x1_0000_0000,
        long < 0x8000_0000_0000_0000 ==> signed64(long) == long,
        long >= 0x8000_0000_0000_0000 ==> signed64(long) == long - 0x1_0000_0000_0000_0000,
        unsigned32(signed32(short)) == short,
{
}

} // verus!

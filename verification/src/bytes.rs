//! Big-endian integer fields of QuickTime atoms.

use byteorder::ByteOrder;
use vstd::prelude::*;
use vstd::slice::slice_subrange;

verus! {

/// The big-endian `u32` whose most significant byte stands at `p`.
pub open spec fn be_u32(s: Seq<u8>, p: int) -> u32 {
    (s[p] as int * 0x100_0000 + s[p + 1] as int * 0x1_0000 + s[p + 2] as int * 0x100 + s[p
        + 3] as int) as u32
}

/// The big-endian `u64` whose most significant byte stands at `p`.
pub open spec fn be_u64(s: Seq<u8>, p: int) -> u64 {
    (be_u32(s, p) as int * 0x1_0000_0000 + be_u32(s, p + 4) as int) as u64
}

/// `byteorder::BigEndian::read_u32`: the first four bytes of `buf`, most
/// significant first. It panics on fewer than four bytes, which `requires` rules out.
#[verifier::external_body]
fn byteorder_read_u32(buf: &[u8]) -> (v: u32)
    requires
        buf@.len() >= 4,
    ensures
        v == be_u32(buf@, 0),
{
    byteorder::BigEndian::read_u32(buf)
}

/// `byteorder::BigEndian::read_u64`: the first eight bytes of `buf`, most
/// significant first. It panics on fewer than eight bytes, which `requires` rules out.
#[verifier::external_body]
fn byteorder_read_u64(buf: &[u8]) -> (v: u64)
    requires
        buf@.len() >= 8,
    ensures
        v == be_u64(buf@, 0),
{
    byteorder::BigEndian::read_u64(buf)
}

/// The big-endian `u32` at byte `pos` of `data`.
pub fn u32_at(data: &[u8], pos: usize) -> (v: u32)
    requires
        pos + 4 <= data@.len(),
    ensures
        v == be_u32(data@, pos as int),
{
    let len: usize = data.len();
    assert(pos + 4 <= len);
    let field = slice_subrange(data, pos, pos + 4);
    let v = byteorder_read_u32(field);
    assert(field@[0] == data@[pos as int] && field@[1] == data@[pos + 1] && field@[2] == data@[pos
        + 2] && field@[3] == data@[pos + 3]);
    v
}

/// The big-endian `u64` at byte `pos` of `data`.
pub fn u64_at(data: &[u8], pos: usize) -> (v: u64)
    requires
        pos + 8 <= data@.len(),
    ensures
        v == be_u64(data@, pos as int),
{
    let len: usize = data.len();
    assert(pos + 8 <= len);
    let field = slice_subrange(data, pos, pos + 8);
    let v = byteorder_read_u64(field);
    assert(forall|k: int| 0 <= k < 8 ==> field@[k] == data@[pos + k]);
    v
}

} // verus!

//! The fixed layout of a container: big-endian words, sectors, and the packed
//! location entries of the first header table.
use vstd::prelude::*;

verus! {

/// Bytes in one sector.
pub const SECTOR_SIZE: usize = 4096;

/// Number of slots in a container (a 32 by 32 grid).
pub const SLOT_COUNT: usize = 1024;

/// Bytes taken by the two header tables (locations, then timestamps).
pub const HEADER_SIZE: usize = 8192;

/// Largest sector count that a location entry can hold (8 bits).
pub const MAX_SECTOR_COUNT: u64 = 255;

/// Sector offsets that a location entry can hold are below this (24 bits).
pub const SECTOR_OFFSET_LIMIT: u64 = 16777216;

/// The big-endian unsigned value of the four bytes of `b` at `at`.
pub open spec fn be32(b: Seq<u8>, at: int) -> nat {
    (b[at] as nat) * 16777216 + (b[at + 1] as nat) * 65536 + (b[at + 2] as nat) * 256
        + (b[at + 3] as nat)
}

/// The four big-endian bytes of `v` (taken modulo 2^32).
pub open spec fn be32_bytes(v: nat) -> Seq<u8> {
    seq![
        (v / 16777216 % 256) as u8,
        (v / 65536 % 256) as u8,
        (v / 256 % 256) as u8,
        (v % 256) as u8,
    ]
}

/// Sectors needed to hold `n` bytes.
pub open spec fn sectors_of(n: nat) -> nat {
    (n + 4095) / 4096
}

/// A location entry: the sector offset in the high 24 bits, the sector count in
/// the low 8 bits.
pub open spec fn packed_location(offset: nat, count: nat) -> nat {
    offset * 256 + count
}

/// The sector offset held by a location entry.
pub open spec fn location_offset(loc: nat) -> nat {
    loc / 256
}

/// The sector count held by a location entry.
pub open spec fn location_count(loc: nat) -> nat {
    loc % 256
}

/// Reading back the bytes that `be32_bytes` wrote gives the value.
pub proof fn lemma_be32_round_trip(v: nat)
    requires
        v < 0x1_0000_0000,
    ensures
        be32(be32_bytes(v), 0) == v,
{
    let b = be32_bytes(v);
    assert(b[0] as nat == v / 16777216 % 256);
    assert(b[1] as nat == v / 65536 % 256);
    assert(b[2] as nat == v / 256 % 256);
    assert(b[3] as nat == v % 256);
    assert(v / 16777216 < 256) by (nonlinear_arith)
        requires v < 0x1_0000_0000;
    assert(v / 16777216 % 256 == v / 16777216) by (nonlinear_arith)
        requires v / 16777216 < 256;
    assert(v == (v / 16777216) * 16777216 + (v / 65536 % 256) * 65536 + (v / 256 % 256) * 256
        + v % 256) by (nonlinear_arith);
}

/// Reads the big-endian `u32` at `at`.
pub fn read_be32(b: &Vec<u8>, at: usize) -> (r: u32)
    requires
        at + 4 <= b@.len(),
    ensures
        r as nat == be32(b@, at as int),
{
    let n = b.len();
    assert(at + 4 <= n);
    let b0 = b[at] as u32;
    let b1 = b[at + 1] as u32;
    let b2 = b[at + 2] as u32;
    let b3 = b[at + 3] as u32;
    assert(b0 * 16777216 + b1 * 65536 + b2 * 256 + b3 <= 0xffff_ffff) by (nonlinear_arith)
        requires b0 <= 255, b1 <= 255, b2 <= 255, b3 <= 255;
    b0 * 16777216 + b1 * 65536 + b2 * 256 + b3
}

/// Appends the four big-endian bytes of `v`.
pub fn push_be32(out: &mut Vec<u8>, v: u32)
    ensures
        final(out)@ == old(out)@ + be32_bytes(v as nat),
{
    out.push((v / 16777216) as u8);
    out.push((v / 65536 % 256) as u8);
    out.push((v / 256 % 256) as u8);
    out.push((v % 256) as u8);
    proof {
        assert(v / 16777216 < 256) by (nonlinear_arith)
            requires v < 0x1_0000_0000;
        assert(v / 16777216 % 256 == v / 16777216) by (nonlinear_arith)
            requires v / 16777216 < 256;
        assert(final(out)@ =~= old(out)@ + be32_bytes(v as nat));
    }
}

/// Sectors needed to hold `n` bytes: `n / 4096` rounded up.
pub fn sectors_for(n: usize) -> (r: u64)
    requires
        n < 0xffff_ffff_ffff_0000,
    ensures
        r as nat == sectors_of(n as nat),
{
    ((n as u64) + 4095) / 4096
}

/// Packs a sector offset and a sector count into a location entry.
pub fn pack_location(offset: u64, count: u64) -> (r: u32)
    requires
        offset < SECTOR_OFFSET_LIMIT,
        count <= MAX_SECTOR_COUNT,
    ensures
        r as nat == packed_location(offset as nat, count as nat),
        location_offset(r as nat) == offset,
        location_count(r as nat) == count,
{
    (offset * 256 + count) as u32
}

} // verus!

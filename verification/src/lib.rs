//! Verified building blocks for a small suite of TCP services: a
//! line-oriented chat relay and a length-prefixed binary frame codec,
//! together with the byte-level helpers the surrounding services share.
//!
//! Everything here is pure logic over plain values: byte records, frames,
//! and room state. The I/O shells that feed bytes in and carry records out
//! live outside this crate.

pub mod connection;
pub mod deserialize;
pub mod echo;
pub mod frames;
pub mod kv;
pub mod linecodec;
pub mod primes;
pub mod room;
pub mod server;
pub mod staging;
pub mod transport;

use vstd::prelude::*;

verus! {

/// Big-endian value of two bytes.
pub open spec fn be16(hi: u8, lo: u8) -> u16 {
    ((hi as u16) * 256 + (lo as u16)) as u16
}

/// Big-endian value of four bytes.
pub open spec fn be32(b0: u8, b1: u8, b2: u8, b3: u8) -> u32 {
    ((be16(b0, b1) as u32) * 65536 + (be16(b2, b3) as u32)) as u32
}

/// The two bytes of a `u16`, most significant first.
pub open spec fn bytes_of_u16(v: u16) -> Seq<u8> {
    seq![(v / 256) as u8, (v % 256) as u8]
}

/// The four bytes of a `u32`, most significant first.
pub open spec fn bytes_of_u32(v: u32) -> Seq<u8> {
    bytes_of_u16((v / 65536) as u16) + bytes_of_u16((v % 65536) as u16)
}

/// A `u16` survives the trip through its two bytes.
pub proof fn lemma_u16_round_trip(v: u16)
    ensures
        bytes_of_u16(v).len() == 2,
        be16(bytes_of_u16(v)[0], bytes_of_u16(v)[1]) == v,
{
}

/// A `u32` survives the trip through its four bytes.
pub proof fn lemma_u32_round_trip(v: u32)
    ensures
        bytes_of_u32(v).len() == 4,
        be32(bytes_of_u32(v)[0], bytes_of_u32(v)[1], bytes_of_u32(v)[2], bytes_of_u32(v)[3]) == v,
{
    let hi = (v / 65536) as u16;
    let lo = (v % 65536) as u16;
    lemma_u16_round_trip(hi);
    lemma_u16_round_trip(lo);
    assert(be32(
        bytes_of_u32(v)[0],
        bytes_of_u32(v)[1],
        bytes_of_u32(v)[2],
        bytes_of_u32(v)[3],
    ) == (hi as u32) * 65536 + (lo as u32));
}

/// Read a `u16` stored big-endian at `i`; `None` when fewer than two bytes remain.
pub open spec fn rd_u16(s: Seq<u8>, i: int) -> Option<(u16, int)> {
    if 0 <= i && i + 2 <= s.len() {
        Some((be16(s[i], s[i + 1]), i + 2))
    } else {
        None
    }
}

/// Read a `u32` stored big-endian at `i`; `None` when fewer than four bytes remain.
pub open spec fn rd_u32(s: Seq<u8>, i: int) -> Option<(u32, int)> {
    if 0 <= i && i + 4 <= s.len() {
        Some((be32(s[i], s[i + 1], s[i + 2], s[i + 3]), i + 4))
    } else {
        None
    }
}

} // verus!

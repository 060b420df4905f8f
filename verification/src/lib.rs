//! A small paged key-value store: a query lexer and parser, a B+ tree index
//! kept in an arena of pages, page and row encodings, and the PostgreSQL wire
//! messages the server exchanges with its clients.

use vstd::prelude::*;

verus! {

/// Version of the file format and the server, packed as `major.minor.patch`.
pub const VERSION: u32 = (0u32 << 24) | (1u32 << 16) | (0u32 << 8);

/// Packs a `(major, minor, patch)` triple into one word: major in the top
/// byte, then minor, then patch, with the low byte left zero.
pub fn encode_version(version: (u32, u32, u32)) -> (r: u32)
    ensures
        r == (version.0 << 24u32) | (version.1 << 16u32) | (version.2 << 8u32),
        version.0 < 256 && version.1 < 256 && version.2 < 256 ==> r == version.0 * 0x100_0000
            + version.1 * 0x1_0000 + version.2 * 0x100,
{
    let r = (version.0 << 24u32) | (version.1 << 16u32) | (version.2 << 8u32);
    let (a, b, c) = version;
    assert(a < 256 && b < 256 && c < 256 ==> (a << 24u32) | (b << 16u32) | (c << 8u32) == a
        * 0x100_0000 + b * 0x1_0000 + c * 0x100) by (bit_vector);
    r
}

} // verus!

pub mod errors;
pub mod query;
pub mod store;
pub mod tcp;

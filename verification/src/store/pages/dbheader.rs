//! The database header at the start of the file: what the file is, how its
//! pages are laid out, and where the tree and the free list begin.

use vstd::prelude::*;
use crate::errors::StoreErr;
use crate::store::pages::page::{PageId, page_with, group_page_id, le64, opt_id, u64_at, push_u64_le, read_u64_le, lemma_u64_at};

verus! {

broadcast use vstd::seq::group_seq_axioms, group_page_id;

/// Bytes of a serialized database header.
pub const DBHEADER_BYTES: usize = 60;

/// The database header.
#[derive(Debug, PartialEq)]
pub struct DbHeader {
    pub magic: [u8; 8],
    pub version: u32,
    pub page_size: usize,
    pub root_page: Option<PageId>,
    pub order: usize,
    pub num_pages: usize,
    pub free_list_head: Option<PageId>,
    pub active_data: Option<PageId>,
}

/// The little-endian bytes of `x`.
pub open spec fn le32(x: u32) -> Seq<u8> {
    seq![x as u8, (x >> 8u32) as u8, (x >> 16u32) as u8, (x >> 24u32) as u8]
}

/// The `u32` stored little-endian at `at`.
pub open spec fn u32_at(p: Seq<u8>, at: int) -> u32 {
    choose|x: u32| le32(x) == p.subrange(at, at + 4)
}

/// The bytes of a database header, field after field.
pub open spec fn db_bytes(h: DbHeader) -> Seq<u8> {
    h.magic@ + le32(h.version) + le64(h.page_size as u64) + le64(opt_id(h.root_page) as u64)
        + le64(h.order as u64) + le64(h.num_pages as u64) + le64(opt_id(h.free_list_head) as u64)
        + le64(opt_id(h.active_data) as u64)
}

/// The page named by the number at `at`, none for 0.
pub open spec fn page_at(p: Seq<u8>, at: int) -> Option<PageId> {
    if u64_at(p, at) as usize == 0 { None } else { Some(page_with(u64_at(p, at) as usize)) }
}

/// The database header that the front of `p` holds.
pub open spec fn db_from(p: Seq<u8>) -> DbHeader {
    DbHeader {
        magic: choose|m: [u8; 8]| m@ == p.subrange(0, 8),
        version: u32_at(p, 8),
        page_size: u64_at(p, 12) as usize,
        root_page: page_at(p, 20),
        order: u64_at(p, 28) as usize,
        num_pages: u64_at(p, 36) as usize,
        free_list_head: page_at(p, 44),
        active_data: page_at(p, 52),
    }
}

/// The number read from four bytes is the one they spell.
pub proof fn lemma_u32_at(p: Seq<u8>, at: int, x: u32)
    requires
        le32(x) == p.subrange(at, at + 4),
    ensures
        u32_at(p, at) == x,
{
    let c = u32_at(p, at);
    assert(le32(c) == p.subrange(at, at + 4));
    assert(le32(c)[0] == le32(x)[0] && le32(c)[1] == le32(x)[1] && le32(c)[2] == le32(x)[2] && le32(c)[3] == le32(x)[3]);
    assert(c == x) by (bit_vector)
        requires
            c as u8 == x as u8, (c >> 8u32) as u8 == (x >> 8u32) as u8,
            (c >> 16u32) as u8 == (x >> 16u32) as u8, (c >> 24u32) as u8 == (x >> 24u32) as u8;
}

pub fn push_u32_le(buf: &mut Vec<u8>, x: u32)
    ensures
        final(buf)@ == old(buf)@ + le32(x),
{
    buf.push(x as u8);
    buf.push((x >> 8u32) as u8);
    buf.push((x >> 16u32) as u8);
    buf.push((x >> 24u32) as u8);
    assert(final(buf)@ =~= old(buf)@ + le32(x));
}

pub fn read_u32_le(b: &[u8], at: usize) -> (r: u32)
    requires
        at + 4 <= b@.len(),
    ensures
        le32(r) == b@.subrange(at as int, at + 4),
{
    let (b0, b1, b2, b3) = (b[at], b[at + 1], b[at + 2], b[at + 3]);
    let r: u32 = (b0 as u32) | ((b1 as u32) << 8u32) | ((b2 as u32) << 16u32) | ((b3 as u32) << 24u32);
    assert(r as u8 == b0 && (r >> 8u32) as u8 == b1 && (r >> 16u32) as u8 == b2 && (r >> 24u32) as u8 == b3) by (bit_vector)
        requires
            r == (b0 as u32) | ((b1 as u32) << 8u32) | ((b2 as u32) << 16u32) | ((b3 as u32) << 24u32);
    assert(le32(r) =~= b@.subrange(at as int, at + 4));
    r
}

pub fn page_number(p: Option<PageId>) -> (r: u64)
    ensures
        r == opt_id(p) as u64,
{
    match p {
        Some(id) => id.get() as u64,
        None => 0,
    }
}

impl DbHeader {
    /// The header's bytes, as they are written at the start of the file.
    pub fn serialize(&self) -> (r: Vec<u8>)
        ensures
            r@ == db_bytes(*self),
            r@.len() == DBHEADER_BYTES,
    {
        let mut buf: Vec<u8> = Vec::new();
        let mut i: usize = 0;
        while i < 8
            invariant
                i <= 8,
                buf@ == self.magic@.subrange(0, i as int),
            decreases 8 - i,
        {
            buf.push(self.magic[i]);
            i = i + 1;
        }
        assert(buf@ =~= self.magic@);
        push_u32_le(&mut buf, self.version);
        push_u64_le(&mut buf, self.page_size as u64);
        push_u64_le(&mut buf, page_number(self.root_page));
        push_u64_le(&mut buf, self.order as u64);
        push_u64_le(&mut buf, self.num_pages as u64);
        push_u64_le(&mut buf, page_number(self.free_list_head));
        push_u64_le(&mut buf, page_number(self.active_data));
        buf
    }

    /// The header that `bytes` begins with, or `IOErr` where they run out
    /// before its last field.
    pub fn deserialize(bytes: &[u8]) -> (r: Result<DbHeader, StoreErr>)
        ensures
            bytes@.len() < DBHEADER_BYTES ==> r matches Err(StoreErr::IOErr),
            bytes@.len() >= DBHEADER_BYTES ==> (r matches Ok(h) && h == db_from(bytes@)),
    {
        if bytes.len() < DBHEADER_BYTES {
            return Err(StoreErr::IOErr);
        }
        let magic: [u8; 8] = [bytes[0], bytes[1], bytes[2], bytes[3], bytes[4], bytes[5], bytes[6], bytes[7]];
        let version = read_u32_le(bytes, 8);
        let page_size = read_u64_le(bytes, 12);
        let root_page = read_u64_le(bytes, 20);
        let order = read_u64_le(bytes, 28);
        let num_pages = read_u64_le(bytes, 36);
        let free_list_head = read_u64_le(bytes, 44);
        let active_data = read_u64_le(bytes, 52);
        proof {
            assert(magic@ =~= bytes@.subrange(0, 8));
            lemma_u32_at(bytes@, 8, version);
            lemma_u64_at(bytes@, 12, page_size);
            lemma_u64_at(bytes@, 20, root_page);
            lemma_u64_at(bytes@, 28, order);
            lemma_u64_at(bytes@, 36, num_pages);
            lemma_u64_at(bytes@, 44, free_list_head);
            lemma_u64_at(bytes@, 52, active_data);
            let m = choose|m: [u8; 8]| m@ == bytes@.subrange(0, 8);
            assert(m@ == magic@);
            assert(m == magic);
        }
        Ok(DbHeader {
            magic,
            version,
            page_size: page_size as usize,
            root_page: PageId::new(root_page as usize),
            order: order as usize,
            num_pages: num_pages as usize,
            free_list_head: PageId::new(free_list_head as usize),
            active_data: PageId::new(active_data as usize),
        })
    }
}

/// Reading back the bytes of a database header gives the header.
pub proof fn lemma_db_roundtrip(h: DbHeader)
    requires
        h.root_page matches Some(p) ==> p@ != 0,
        h.free_list_head matches Some(p) ==> p@ != 0,
        h.active_data matches Some(p) ==> p@ != 0,
    ensures
        db_bytes(h).len() == DBHEADER_BYTES,
        db_from(db_bytes(h)) == h,
{
    let p = db_bytes(h);
    assert(p.subrange(0, 8) =~= h.magic@);
    assert(p.subrange(8, 12) =~= le32(h.version));
    assert(p.subrange(12, 20) =~= le64(h.page_size as u64));
    assert(p.subrange(20, 28) =~= le64(opt_id(h.root_page) as u64));
    assert(p.subrange(28, 36) =~= le64(h.order as u64));
    assert(p.subrange(36, 44) =~= le64(h.num_pages as u64));
    assert(p.subrange(44, 52) =~= le64(opt_id(h.free_list_head) as u64));
    assert(p.subrange(52, 60) =~= le64(opt_id(h.active_data) as u64));
    lemma_u32_at(p, 8, h.version);
    lemma_u64_at(p, 12, h.page_size as u64);
    lemma_u64_at(p, 20, opt_id(h.root_page) as u64);
    lemma_u64_at(p, 28, h.order as u64);
    lemma_u64_at(p, 36, h.num_pages as u64);
    lemma_u64_at(p, 44, opt_id(h.free_list_head) as u64);
    lemma_u64_at(p, 52, opt_id(h.active_data) as u64);
    let m = choose|m: [u8; 8]| m@ == p.subrange(0, 8);
    assert(m@ == h.magic@);
    assert(m == h.magic);
}

} // verus!

//! The header at the start of the database file that the pager opens:
//! what the file is, its page size and count, and the head of its free list.

use vstd::prelude::*;
use crate::errors::StoreErr;
use crate::store::pages::page::{PageId, page_with, group_page_id, le64, opt_id, u64_at, push_u64_le, read_u64_le, lemma_u64_at};
use crate::store::pages::dbheader::{le32, u32_at, lemma_u32_at, push_u32_le, read_u32_le, page_number, page_at};

verus! {

broadcast use vstd::seq::group_seq_axioms, group_page_id;

/// Bytes of a serialized pager header.
pub const FILE_HEADER_BYTES: usize = 36;

/// The bytes that open every database file.
pub const FILE_MAGIC: [u8; 8] = [75u8, 65, 87, 73, 75, 65, 68, 66];

/// The pager's header of the database file.
#[derive(Debug, PartialEq)]
pub struct DbHeader {
    pub magic: [u8; 8],
    pub version: u32,
    pub page_size: usize,
    pub num_pages: usize,
    pub free_list_head: Option<PageId>,
}

/// The bytes of a pager header, field after field.
pub open spec fn file_header_bytes(h: DbHeader) -> Seq<u8> {
    h.magic@ + le32(h.version) + le64(h.page_size as u64) + le64(h.num_pages as u64)
        + le64(opt_id(h.free_list_head) as u64)
}

/// The pager header that the front of `p` holds.
pub open spec fn file_header_from(p: Seq<u8>) -> DbHeader {
    DbHeader {
        magic: choose|m: [u8; 8]| m@ == p.subrange(0, 8),
        version: u32_at(p, 8),
        page_size: u64_at(p, 12) as usize,
        num_pages: u64_at(p, 20) as usize,
        free_list_head: page_at(p, 28),
    }
}

impl DbHeader {
    /// The header's bytes, as they are written at the start of the file.
    pub fn write(&self) -> (r: Vec<u8>)
        ensures
            r@ == file_header_bytes(*self),
            r@.len() == FILE_HEADER_BYTES,
    {
        let mut buf: Vec<u8> = Vec::new();
        let mut i: usize = 0;
        while i < 8
            invariant
                i <= 8,
                buf@ == self.magic@.subrange(0, i as int),
            decreases 8 - i,
        {
            buf.push(self.magic[i]);
            i = i + 1;
        }
        assert(buf@ =~= self.magic@);
        push_u32_le(&mut buf, self.version);
        push_u64_le(&mut buf, self.page_size as u64);
        push_u64_le(&mut buf, self.num_pages as u64);
        push_u64_le(&mut buf, page_number(self.free_list_head));
        buf
    }

    /// The header that `bytes` begins with, or `IOErr` where they run out
    /// before its last field.
    pub fn read(bytes: &[u8]) -> (r: Result<DbHeader, StoreErr>)
        ensures
            bytes@.len() < FILE_HEADER_BYTES ==> r matches Err(StoreErr::IOErr),
            bytes@.len() >= FILE_HEADER_BYTES ==> (r matches Ok(h) && h == file_header_from(bytes@)),
    {
        if bytes.len() < FILE_HEADER_BYTES {
            return Err(StoreErr::IOErr);
        }
        let magic: [u8; 8] = [bytes[0], bytes[1], bytes[2], bytes[3], bytes[4], bytes[5], bytes[6], bytes[7]];
        let version = read_u32_le(bytes, 8);
        let page_size = read_u64_le(bytes, 12);
        let num_pages = read_u64_le(bytes, 20);
        let free_list_head = read_u64_le(bytes, 28);
        proof {
            assert(magic@ =~= bytes@.subrange(0, 8));
            lemma_u32_at(bytes@, 8, version);
            lemma_u64_at(bytes@, 12, page_size);
            lemma_u64_at(bytes@, 20, num_pages);
            lemma_u64_at(bytes@, 28, free_list_head);
            let m = choose|m: [u8; 8]| m@ == bytes@.subrange(0, 8);
            assert(m@ == magic@);
            assert(m == magic);
        }
        Ok(DbHeader {
            magic,
            version,
            page_size: page_size as usize,
            num_pages: num_pages as usize,
            free_list_head: PageId::new(free_list_head as usize),
        })
    }

    /// Whether the header opens with the magic bytes of a database file.
    pub fn is_database(&self) -> (r: bool)
        ensures
            r == (self.magic@ == FILE_MAGIC@),
    {
        let mut i: usize = 0;
        while i < 8
            invariant
                i <= 8,
                forall|j: int| 0 <= j < i ==> self.magic@[j] == FILE_MAGIC@[j],
            decreases 8 - i,
        {
            if self.magic[i] != FILE_MAGIC[i] {
                return false;
            }
            i = i + 1;
        }
        assert(self.magic@ =~= FILE_MAGIC@);
        true
    }
}

/// Reading back the bytes of a pager header gives the header.
pub proof fn lemma_file_header_roundtrip(h: DbHeader)
    requires
        h.free_list_head matches Some(p) ==> p@ != 0,
    ensures
        file_header_bytes(h).len() == FILE_HEADER_BYTES,
        file_header_from(file_header_bytes(h)) == h,
{
    let p = file_header_bytes(h);
    assert(p.subrange(0, 8) =~= h.magic@);
    assert(p.subrange(8, 12) =~= le32(h.version));
    assert(p.subrange(12, 20) =~= le64(h.page_size as u64));
    assert(p.subrange(20, 28) =~= le64(h.num_pages as u64));
    assert(p.subrange(28, 36) =~= le64(opt_id(h.free_list_head) as u64));
    lemma_u32_at(p, 8, h.version);
    lemma_u64_at(p, 12, h.page_size as u64);
    lemma_u64_at(p, 20, h.num_pages as u64);
    lemma_u64_at(p, 28, opt_id(h.free_list_head) as u64);
    let m = choose|m: [u8; 8]| m@ == p.subrange(0, 8);
    assert(m@ == h.magic@);
    assert(m == h.magic);
}

} // verus!

//! The parts that every slotted page shares: its number, its header, and a
//! cursor over its slot directory.

use vstd::prelude::*;
use crate::errors::StoreErr;

verus! {

broadcast use vstd::seq::group_seq_axioms;

/// Bytes of one slot directory entry: offset and length, two bytes each.
pub const SLOT_POINTER_SIZE: usize = 4;
/// Size of one page, in bytes.
pub const PAGE_SIZE: usize = 4096;
/// Bytes of a serialized page header.
pub const PAGEHEADER_SIZE: usize = 30;
/// Bytes of a serialized page number.
pub const PAGEID_SIZE: usize = 8;
/// Bytes of a page left for its slots once the header is written.
pub const PAGE_CAPACITY: usize = 4066;

/// The number of a page, never 0 (page 0 holds the database header).
#[derive(PartialEq, Eq, Clone, Copy, Debug)]
pub struct PageId(usize);

impl View for PageId {
    type V = usize;

    /// The page's number.
    closed spec fn view(&self) -> usize {
        self.0
    }
}

/// The page with number `n`, as spec code names it.
pub closed spec fn page_with(n: usize) -> PageId {
    PageId(n)
}

/// The page with number `n` has number `n`.
pub broadcast proof fn lemma_page_with(n: usize)
    ensures
        #[trigger] page_with(n)@ == n,
{
}

/// A page is the page with its own number.
pub broadcast proof fn lemma_with_own_number(p: PageId)
    ensures
        #[trigger] page_with(p@) == p,
{
}

pub broadcast group group_page_id {
    lemma_page_with,
    lemma_with_own_number,
}

impl PageId {
    /// A page number is never 0.
    #[verifier::type_invariant]
    closed spec fn nonzero(self) -> bool {
        self.0 != 0
    }

    /// The page number `offset`, unless it is 0.
    pub fn new(offset: usize) -> (r: Option<PageId>)
        ensures
            offset == 0 ==> r is None,
            offset != 0 ==> r == Some(page_with(offset)),
    {
        if offset == 0 { None } else { Some(PageId(offset)) }
    }

    /// The page number.
    pub fn get(self) -> (r: usize)
        ensures
            r == self@,
            r != 0,
    {
        proof {
            use_type_invariant(self);
        }
        self.0
    }
}

/// What a page holds.
#[derive(PartialEq, Eq, Clone, Copy, Debug)]
pub enum PageType {
    Free,
    Branch,
    Leaf,
    Data,
    Overflow,
}

/// The byte that stands for a page type.
pub open spec fn pagetype_byte(t: PageType) -> u8 {
    match t {
        PageType::Free => 0,
        PageType::Branch => 1,
        PageType::Leaf => 2,
        PageType::Data => 3,
        PageType::Overflow => 4,
    }
}

impl PageType {
    /// The page type's byte.
    pub fn serialize(&self) -> (r: u8)
        ensures
            r == pagetype_byte(*self),
    {
        match self {
            PageType::Free => 0,
            PageType::Branch => 1,
            PageType::Leaf => 2,
            PageType::Data => 3,
            PageType::Overflow => 4,
        }
    }

    /// The page type that a byte stands for, or `UnknownPagetype`.
    pub fn deserialize(b: u8) -> (r: Result<PageType, StoreErr>)
        ensures
            b <= 4 ==> (r matches Ok(t) && pagetype_byte(t) == b),
            b > 4 ==> (r matches Err(StoreErr::UnknownPagetype(n)) && n == b),
    {
        match b {
            0 => Ok(PageType::Free),
            1 => Ok(PageType::Branch),
            2 => Ok(PageType::Leaf),
            3 => Ok(PageType::Data),
            4 => Ok(PageType::Overflow),
            n => Err(StoreErr::UnknownPagetype(n)),
        }
    }
}

/// The header at the start of every slotted page.
#[derive(PartialEq, Eq, Clone, Copy, Debug)]
pub struct PageHeader {
    pub id: PageId,
    pub pagetype: PageType,
    pub next: Option<PageId>,
    /// Number of entries in the slot directory.
    pub slots: u16,
    /// End of the slot directory.
    pub lower: u16,
    /// Start of the slots' contents.
    pub upper: u16,
}

/// The little-endian bytes of `x`.
pub open spec fn le64(x: u64) -> Seq<u8> {
    seq![x as u8, (x >> 8u64) as u8, (x >> 16u64) as u8, (x >> 24u64) as u8,
        (x >> 32u64) as u8, (x >> 40u64) as u8, (x >> 48u64) as u8, (x >> 56u64) as u8]
}

/// The little-endian bytes of `x`.
pub open spec fn le16(x: u16) -> Seq<u8> {
    seq![x as u8, (x >> 8u16) as u8]
}

/// The number of an optional page, 0 for none.
pub open spec fn opt_id(p: Option<PageId>) -> usize {
    match p {
        Some(id) => id@,
        None => 0,
    }
}

/// The bytes of a header: id, type, next page (eight bytes each), then
/// slots, lower and upper bounds (two bytes each), `PAGEHEADER_SIZE` in all.
pub open spec fn header_bytes(h: PageHeader) -> Seq<u8> {
    le64(h.id@ as u64) + le64(pagetype_byte(h.pagetype) as u64) + le64(opt_id(h.next) as u64) + le16(h.slots)
        + le16(h.lower) + le16(h.upper)
}

/// Appends the little-endian bytes of `x`.
pub fn push_u64_le(buf: &mut Vec<u8>, x: u64)
    ensures
        final(buf)@ == old(buf)@ + le64(x),
{
    buf.push(x as u8);
    buf.push((x >> 8u64) as u8);
    buf.push((x >> 16u64) as u8);
    buf.push((x >> 24u64) as u8);
    buf.push((x >> 32u64) as u8);
    buf.push((x >> 40u64) as u8);
    buf.push((x >> 48u64) as u8);
    buf.push((x >> 56u64) as u8);
    assert(final(buf)@ =~= old(buf)@ + le64(x));
}

/// Appends the little-endian bytes of `x`.
pub fn push_u16_le(buf: &mut Vec<u8>, x: u16)
    ensures
        final(buf)@ == old(buf)@ + le16(x),
{
    buf.push(x as u8);
    buf.push((x >> 8u16) as u8);
    assert(final(buf)@ =~= old(buf)@ + le16(x));
}

/// The `u64` whose little-endian bytes start at `at`.
pub fn read_u64_le(b: &[u8], at: usize) -> (r: u64)
    requires
        at + 8 <= b@.len(),
    ensures
        le64(r) == b@.subrange(at as int, at + 8),
{
    let (b0, b1, b2, b3) = (b[at], b[at + 1], b[at + 2], b[at + 3]);
    let (b4, b5, b6, b7) = (b[at + 4], b[at + 5], b[at + 6], b[at + 7]);
    let r: u64 = (b0 as u64) | ((b1 as u64) << 8u64) | ((b2 as u64) << 16u64) | ((b3 as u64) << 24u64)
        | ((b4 as u64) << 32u64) | ((b5 as u64) << 40u64) | ((b6 as u64) << 48u64) | ((b7 as u64) << 56u64);
    assert(r as u8 == b0 && (r >> 8u64) as u8 == b1 && (r >> 16u64) as u8 == b2 && (r >> 24u64) as u8 == b3
        && (r >> 32u64) as u8 == b4 && (r >> 40u64) as u8 == b5 && (r >> 48u64) as u8 == b6 && (r >> 56u64) as u8 == b7) by (bit_vector)
        requires
            r == (b0 as u64) | ((b1 as u64) << 8u64) | ((b2 as u64) << 16u64) | ((b3 as u64) << 24u64)
                | ((b4 as u64) << 32u64) | ((b5 as u64) << 40u64) | ((b6 as u64) << 48u64) | ((b7 as u64) << 56u64);
    assert(le64(r) =~= b@.subrange(at as int, at + 8));
    r
}

/// The `u16` whose little-endian bytes start at `at`.
pub fn read_u16_le(b: &[u8], at: usize) -> (r: u16)
    requires
        at + 2 <= b@.len(),
    ensures
        le16(r) == b@.subrange(at as int, at + 2),
{
    let (b0, b1) = (b[at], b[at + 1]);
    let r: u16 = (b0 as u16) | ((b1 as u16) << 8u16);
    assert(r as u8 == b0 && (r >> 8u16) as u8 == b1) by (bit_vector)
        requires
            r == (b0 as u16) | ((b1 as u16) << 8u16);
    assert(le16(r) =~= b@.subrange(at as int, at + 2));
    r
}

impl PageHeader {
    /// The header's bytes.
    pub fn serialize(&self) -> (r: Vec<u8>)
        ensures
            r@ == header_bytes(*self),
            r@.len() == PAGEHEADER_SIZE,
    {
        let mut bytes: Vec<u8> = Vec::new();
        push_u64_le(&mut bytes, self.id.get() as u64);
        push_u64_le(&mut bytes, self.pagetype.serialize() as u64);
        let next = match self.next {
            Some(id) => id.get(),
            None => 0,
        };
        push_u64_le(&mut bytes, next as u64);
        push_u16_le(&mut bytes, self.slots);
        push_u16_le(&mut bytes, self.lower);
        push_u16_le(&mut bytes, self.upper);
        bytes
    }

    /// The header read from the front of `bytes`: `IOErr` where the bytes
    /// run out before a field, `UnknownPagetype` for a type that names none.
    pub fn deserialize(bytes: &[u8]) -> (r: Result<PageHeader, StoreErr>)
        requires
            bytes@.len() >= 8 ==> u64_at(bytes@, 0) as usize != 0,
        ensures
            bytes@.len() < 16 ==> r matches Err(StoreErr::IOErr),
            bytes@.len() >= 16 && u64_at(bytes@, 8) > 4 ==> (r matches Err(StoreErr::UnknownPagetype(n)) && n == u64_at(bytes@, 8) as u8),
            bytes@.len() >= 16 && u64_at(bytes@, 8) <= 4 && bytes@.len() < PAGEHEADER_SIZE ==> r matches Err(StoreErr::IOErr),
            bytes@.len() >= PAGEHEADER_SIZE && u64_at(bytes@, 8) <= 4 ==> (r matches Ok(h) && h == header_from(bytes@)),
    {
        if bytes.len() < 8 {
            return Err(StoreErr::IOErr);
        }
        let raw_id = read_u64_le(bytes, 0);
        if bytes.len() < 16 {
            return Err(StoreErr::IOErr);
        }
        let raw_type = read_u64_le(bytes, 8);
        proof {
            lemma_u64_at(bytes@, 0, raw_id);
            lemma_u64_at(bytes@, 8, raw_type);
        }
        if raw_type > 4 {
            return Err(StoreErr::UnknownPagetype(#[verifier::truncate] (raw_type as u8)));
        }
        let pagetype = match PageType::deserialize(raw_type as u8) {
            Ok(t) => t,
            Err(e) => return Err(e),
        };
        if bytes.len() < PAGEHEADER_SIZE {
            return Err(StoreErr::IOErr);
        }
        let raw_next = read_u64_le(bytes, 16);
        let slots = read_u16_le(bytes, 24);
        let lower = read_u16_le(bytes, 26);
        let upper = read_u16_le(bytes, 28);
        proof {
            lemma_u64_at(bytes@, 16, raw_next);
            lemma_u16_at(bytes@, 24, slots);
            lemma_u16_at(bytes@, 26, lower);
            lemma_u16_at(bytes@, 28, upper);
        }
        let id = PageId::new(raw_id as usize).unwrap();
        let next = PageId::new(raw_next as usize);
        Ok(PageHeader { id, pagetype, next, slots, lower, upper })
    }
}

/// The `u64` stored little-endian at `at`.
pub open spec fn u64_at(p: Seq<u8>, at: int) -> u64 {
    choose|x: u64| le64(x) == p.subrange(at, at + 8)
}

/// The `u16` stored little-endian at `at`.
pub open spec fn u16_at(p: Seq<u8>, at: int) -> u16 {
    choose|x: u16| le16(x) == p.subrange(at, at + 2)
}

/// The page type that a byte stands for; `Free` for one that stands for none.
pub open spec fn pagetype_of(b: u8) -> PageType {
    if b == 1 { PageType::Branch }
    else if b == 2 { PageType::Leaf }
    else if b == 3 { PageType::Data }
    else if b == 4 { PageType::Overflow }
    else { PageType::Free }
}

/// The header that the front of `p` holds.
pub open spec fn header_from(p: Seq<u8>) -> PageHeader {
    PageHeader {
        id: page_with(u64_at(p, 0) as usize),
        pagetype: pagetype_of(u64_at(p, 8) as u8),
        next: if u64_at(p, 16) as usize == 0 { None } else { Some(page_with(u64_at(p, 16) as usize)) },
        slots: u16_at(p, 24),
        lower: u16_at(p, 26),
        upper: u16_at(p, 28),
    }
}

/// The number read from eight bytes is the one they spell.
pub proof fn lemma_u64_at(p: Seq<u8>, at: int, x: u64)
    requires
        le64(x) == p.subrange(at, at + 8),
    ensures
        u64_at(p, at) == x,
{
    let c = u64_at(p, at);
    assert(le64(c) == p.subrange(at, at + 8));
    lemma_le64_injective(c, x);
}

/// The number read from two bytes is the one they spell.
pub proof fn lemma_u16_at(p: Seq<u8>, at: int, x: u16)
    requires
        le16(x) == p.subrange(at, at + 2),
    ensures
        u16_at(p, at) == x,
{
    let c = u16_at(p, at);
    assert(le16(c) == p.subrange(at, at + 2));
    assert(le16(c)[0] == le16(x)[0] && le16(c)[1] == le16(x)[1]);
    assert(c == x) by (bit_vector)
        requires
            c as u8 == x as u8, (c >> 8u16) as u8 == (x >> 8u16) as u8;
}

/// Reading back the bytes of a header gives the header: `deserialize`
/// undoes `serialize`.
pub proof fn lemma_header_roundtrip(h: PageHeader)
    requires
        h.id@ != 0,
        h.next matches Some(n) ==> n@ != 0,
    ensures
        header_bytes(h).len() == PAGEHEADER_SIZE,
        u64_at(header_bytes(h), 8) <= 4,
        header_from(header_bytes(h)) == h,
{
    let p = header_bytes(h);
    assert(p.subrange(0, 8) =~= le64(h.id@ as u64));
    assert(p.subrange(8, 16) =~= le64(pagetype_byte(h.pagetype) as u64));
    assert(p.subrange(16, 24) =~= le64(opt_id(h.next) as u64));
    assert(p.subrange(24, 26) =~= le16(h.slots));
    assert(p.subrange(26, 28) =~= le16(h.lower));
    assert(p.subrange(28, 30) =~= le16(h.upper));
    lemma_u64_at(p, 0, h.id@ as u64);
    lemma_u64_at(p, 8, pagetype_byte(h.pagetype) as u64);
    lemma_u64_at(p, 16, opt_id(h.next) as u64);
    lemma_u16_at(p, 24, h.slots);
    lemma_u16_at(p, 26, h.lower);
    lemma_u16_at(p, 28, h.upper);
}

/// Little-endian bytes determine the number.
pub proof fn lemma_le64_injective(x: u64, y: u64)
    requires
        le64(x) == le64(y),
    ensures
        x == y,
{
    assert(le64(x)[0] == le64(y)[0] && le64(x)[1] == le64(y)[1] && le64(x)[2] == le64(y)[2] && le64(x)[3] == le64(y)[3]);
    assert(le64(x)[4] == le64(y)[4] && le64(x)[5] == le64(y)[5] && le64(x)[6] == le64(y)[6] && le64(x)[7] == le64(y)[7]);
    assert(x == y) by (bit_vector)
        requires
            x as u8 == y as u8, (x >> 8u64) as u8 == (y >> 8u64) as u8, (x >> 16u64) as u8 == (y >> 16u64) as u8,
            (x >> 24u64) as u8 == (y >> 24u64) as u8, (x >> 32u64) as u8 == (y >> 32u64) as u8,
            (x >> 40u64) as u8 == (y >> 40u64) as u8, (x >> 48u64) as u8 == (y >> 48u64) as u8,
            (x >> 56u64) as u8 == (y >> 56u64) as u8;
}


/// Bytes of a serialized record id: a page number and a slot.
pub const RID_SIZE: usize = 10;

/// Where a record lives: its page and its slot on that page.
#[derive(PartialEq, Eq, Clone, Copy, Debug)]
pub struct Rid {
    pub page: PageId,
    pub slot: u16,
}

/// A walk over a page's slot directory, from the first entry after the
/// header on.
pub struct PageCursor<'a> {
    pub page: &'a [u8],
    pub pos: usize,
}

impl<'a> PageCursor<'a> {
    /// A cursor at the first directory entry of `page`.
    pub fn new(page: &'a [u8]) -> (r: PageCursor<'a>)
        ensures
            r.page@ == page@,
            r.pos == PAGEHEADER_SIZE,
    {
        PageCursor { page, pos: PAGEHEADER_SIZE }
    }

    /// The contents of the slot that the next directory entry points at,
    /// or `SlotOOB` where they reach past the page. The cursor moves on to
    /// the following entry either way.
    pub fn next(&mut self) -> (r: Result<&'a [u8], StoreErr>)
        requires
            old(self).pos + SLOT_POINTER_SIZE <= old(self).page@.len(),
        ensures
            final(self).page == old(self).page,
            final(self).pos == old(self).pos + SLOT_POINTER_SIZE,
            ({
                let p = old(self).page@;
                let at = old(self).pos as int;
                let offset = slot_field(p, at);
                let len = slot_field(p, at + 2);
                &&& offset + len <= p.len() ==> (r matches Ok(s) && s@ == p.subrange(offset, offset + len))
                &&& offset + len > p.len() ==> (r matches Err(StoreErr::SlotOOB { offset: o, len: l })
                    && o == offset && l == len)
            }),
    {
        let n = self.page.len();
        let offset = read_u16_le(self.page, self.pos) as usize;
        let len = read_u16_le(self.page, self.pos + 2) as usize;
        proof {
            lemma_le16_value(self.page@, self.pos as int);
            lemma_le16_value(self.page@, self.pos + 2);
        }
        self.pos = self.pos + SLOT_POINTER_SIZE;
        if offset + len <= n {
            Ok(vstd::slice::slice_subrange(self.page, offset, offset + len))
        } else {
            Err(StoreErr::SlotOOB { offset, len })
        }
    }
}

/// The `u16` stored little-endian at `at`.
pub open spec fn slot_field(p: Seq<u8>, at: int) -> int {
    p[at] + 256 * p[at + 1]
}

/// A `u16` read from two bytes is the number they spell.
pub proof fn lemma_le16_value(p: Seq<u8>, at: int)
    requires
        0 <= at,
        at + 2 <= p.len(),
    ensures
        forall|x: u16| le16(x) == p.subrange(at, at + 2) ==> x == slot_field(p, at),
{
    assert forall|x: u16| le16(x) == p.subrange(at, at + 2) implies x == slot_field(p, at) by {
        assert(le16(x)[0] == p[at] && le16(x)[1] == p[at + 1]);
        let (b0, b1) = (p[at], p[at + 1]);
        assert(x == (x as u8) as u16 + 256 * ((x >> 8u16) as u8) as u16) by (bit_vector);
    }
}

/// The page types are stored as the bytes 0 to 4: free, branch, leaf,
/// data, overflow; and each of those bytes reads back as its type.
pub proof fn lemma_pagetype_table()
    ensures
        pagetype_byte(PageType::Free) == 0,
        pagetype_byte(PageType::Branch) == 1,
        pagetype_byte(PageType::Leaf) == 2,
        pagetype_byte(PageType::Data) == 3,
        pagetype_byte(PageType::Overflow) == 4,
        pagetype_of(0) == PageType::Free,
        pagetype_of(1) == PageType::Branch,
        pagetype_of(2) == PageType::Leaf,
        pagetype_of(3) == PageType::Data,
        pagetype_of(4) == PageType::Overflow,
{
}

} // verus!

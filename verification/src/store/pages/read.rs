//! Reading pages back from their bytes: the slots that the directory names,
//! and in them the entries of each page type.

use vstd::prelude::*;
use vstd::utf8::*;
use crate::errors::StoreErr;
use crate::query::lexer::string_from_utf8;
use crate::store::pages::page::{PageId, page_with, group_page_id, PageHeader, PageCursor, Rid, slot_field, u64_at, u16_at,
    read_u64_le, read_u16_le, lemma_u64_at, lemma_u16_at, SLOT_POINTER_SIZE};
use crate::store::pages::dbheader::page_at;
use crate::store::pages::leaf::LeafPage;
use crate::store::pages::branch::BranchPage;
use crate::store::pages::data::DataPage;
use crate::store::pages::overflow::OverflowPage;
use crate::store::pages::free::FreePage;

verus! {

broadcast use vstd::seq::group_seq_axioms, group_page_id;

/// How reading a page goes: a result, an error, or a panic of the reader.
pub enum Outcome<T> {
    Done(T),
    Fail(StoreErr),
    Panic,
}

/// The contents of the slot whose directory entry is at `pos` of page `p`:
/// a panic where the entry runs past the page, `SlotOOB` where the slot
/// does.
pub open spec fn slot_at(p: Seq<u8>, pos: int) -> Outcome<Seq<u8>> {
    if pos < 0 || pos + 4 > p.len() {
        Outcome::Panic
    } else {
        let o = slot_field(p, pos);
        let l = slot_field(p, pos + 2);
        if o + l <= p.len() {
            Outcome::Done(p.subrange(o, o + l))
        } else {
            Outcome::Fail(StoreErr::SlotOOB { offset: o as usize, len: l as usize })
        }
    }
}

/// The string stored at `at` of `b`: two length bytes, then that many bytes
/// of UTF-8; `IOErr` where the bytes run out, `DecodeErr` where they are
/// not UTF-8.
pub open spec fn str_at(b: Seq<u8>, at: int) -> Outcome<Seq<char>> {
    if at + 2 > b.len() {
        Outcome::Fail(StoreErr::IOErr)
    } else if at + 2 + u16_at(b, at) > b.len() {
        Outcome::Fail(StoreErr::IOErr)
    } else if !valid_utf8(b.subrange(at + 2, at + 2 + u16_at(b, at))) {
        Outcome::Fail(StoreErr::DecodeErr)
    } else {
        Outcome::Done(decode_utf8(b.subrange(at + 2, at + 2 + u16_at(b, at))))
    }
}

/// A page number read from the first eight bytes of `b`, which must not be
/// 0: `IOErr` where there are fewer, a panic for 0.
pub open spec fn id_at(b: Seq<u8>) -> Outcome<PageId> {
    if b.len() < 8 {
        Outcome::Fail(StoreErr::IOErr)
    } else if u64_at(b, 0) as usize == 0 {
        Outcome::Panic
    } else {
        Outcome::Done(page_with(u64_at(b, 0) as usize))
    }
}

/// The entry of a leaf slot: a record id (page, then slot), then its key.
pub open spec fn leaf_entry(b: Seq<u8>) -> Outcome<(Rid, Seq<char>)> {
    match id_at(b) {
        Outcome::Fail(e) => Outcome::Fail(e),
        Outcome::Panic => Outcome::Panic,
        Outcome::Done(page) => if b.len() < 10 {
            Outcome::Fail(StoreErr::IOErr)
        } else {
            match str_at(b, 10) {
                Outcome::Done(k) => Outcome::Done((Rid { page, slot: u16_at(b, 8) }, k)),
                Outcome::Fail(e) => Outcome::Fail(e),
                Outcome::Panic => Outcome::Panic,
            }
        },
    }
}

/// The entry of a branch slot: a child, then the key after it.
pub open spec fn branch_entry(b: Seq<u8>) -> Outcome<(PageId, Seq<char>)> {
    match id_at(b) {
        Outcome::Fail(e) => Outcome::Fail(e),
        Outcome::Panic => Outcome::Panic,
        Outcome::Done(child) => match str_at(b, 8) {
            Outcome::Done(k) => Outcome::Done((child, k)),
            Outcome::Fail(e) => Outcome::Fail(e),
            Outcome::Panic => Outcome::Panic,
        },
    }
}

/// `x`, then the rest.
pub open spec fn cons<T>(x: T, rest: Outcome<Seq<T>>) -> Outcome<Seq<T>> {
    match rest {
        Outcome::Done(xs) => Outcome::Done(seq![x] + xs),
        Outcome::Fail(e) => Outcome::Fail(e),
        Outcome::Panic => Outcome::Panic,
    }
}

/// The entries of the `n` leaf slots whose directory starts at `pos`.
pub open spec fn leaf_entries(p: Seq<u8>, pos: int, n: nat) -> Outcome<Seq<(Rid, Seq<char>)>>
    decreases n,
{
    if n == 0 {
        Outcome::Done(seq![])
    } else {
        match slot_at(p, pos) {
            Outcome::Fail(e) => Outcome::Fail(e),
            Outcome::Panic => Outcome::Panic,
            Outcome::Done(b) => match leaf_entry(b) {
                Outcome::Fail(e) => Outcome::Fail(e),
                Outcome::Panic => Outcome::Panic,
                Outcome::Done(x) => cons(x, leaf_entries(p, pos + 4, (n - 1) as nat)),
            },
        }
    }
}

/// The entries of the `n` branch slots whose directory starts at `pos`.
pub open spec fn branch_entries(p: Seq<u8>, pos: int, n: nat) -> Outcome<Seq<(PageId, Seq<char>)>>
    decreases n,
{
    if n == 0 {
        Outcome::Done(seq![])
    } else {
        match slot_at(p, pos) {
            Outcome::Fail(e) => Outcome::Fail(e),
            Outcome::Panic => Outcome::Panic,
            Outcome::Done(b) => match branch_entry(b) {
                Outcome::Fail(e) => Outcome::Fail(e),
                Outcome::Panic => Outcome::Panic,
                Outcome::Done(x) => cons(x, branch_entries(p, pos + 4, (n - 1) as nat)),
            },
        }
    }
}

/// The contents of the `n` slots whose directory starts at `pos`.
pub open spec fn raw_entries(p: Seq<u8>, pos: int, n: nat) -> Outcome<Seq<Seq<u8>>>
    decreases n,
{
    if n == 0 {
        Outcome::Done(seq![])
    } else {
        match slot_at(p, pos) {
            Outcome::Fail(e) => Outcome::Fail(e),
            Outcome::Panic => Outcome::Panic,
            Outcome::Done(b) => cons(b, raw_entries(p, pos + 4, (n - 1) as nat)),
        }
    }
}

/// The page number in the slot whose entry is at `pos`, 0 read as none.
pub open spec fn next_at(p: Seq<u8>, pos: int) -> Outcome<Option<PageId>> {
    match slot_at(p, pos) {
        Outcome::Fail(e) => Outcome::Fail(e),
        Outcome::Panic => Outcome::Panic,
        Outcome::Done(b) => if b.len() < 8 { Outcome::Fail(StoreErr::IOErr) } else { Outcome::Done(page_at(b, 0)) },
    }
}

/// A leaf's entries and next leaf, read from `n` slots and one more.
pub open spec fn leaf_read(p: Seq<u8>, pos: int, n: nat) -> Outcome<(Seq<(Rid, Seq<char>)>, Option<PageId>)> {
    match leaf_entries(p, pos, n) {
        Outcome::Fail(e) => Outcome::Fail(e),
        Outcome::Panic => Outcome::Panic,
        Outcome::Done(es) => match next_at(p, pos + 4 * n) {
            Outcome::Fail(e) => Outcome::Fail(e),
            Outcome::Panic => Outcome::Panic,
            Outcome::Done(nx) => Outcome::Done((es, nx)),
        },
    }
}

/// A branch's entries and last child, read from `n` slots and one more.
pub open spec fn branch_read(p: Seq<u8>, pos: int, n: nat) -> Outcome<(Seq<(PageId, Seq<char>)>, PageId)> {
    match branch_entries(p, pos, n) {
        Outcome::Fail(e) => Outcome::Fail(e),
        Outcome::Panic => Outcome::Panic,
        Outcome::Done(es) => match slot_at(p, pos + 4 * n) {
            Outcome::Fail(e) => Outcome::Fail(e),
            Outcome::Panic => Outcome::Panic,
            Outcome::Done(b) => match id_at(b) {
                Outcome::Fail(e) => Outcome::Fail(e),
                Outcome::Panic => Outcome::Panic,
                Outcome::Done(c) => Outcome::Done((es, c)),
            },
        },
    }
}

/// A data page's rows and overflow page, read from `n` slots and one more.
pub open spec fn data_read(p: Seq<u8>, pos: int, n: nat) -> Outcome<(Seq<Seq<u8>>, Option<PageId>)> {
    match raw_entries(p, pos, n) {
        Outcome::Fail(e) => Outcome::Fail(e),
        Outcome::Panic => Outcome::Panic,
        Outcome::Done(rows) => match next_at(p, pos + 4 * n) {
            Outcome::Fail(e) => Outcome::Fail(e),
            Outcome::Panic => Outcome::Panic,
            Outcome::Done(nx) => Outcome::Done((rows, nx)),
        },
    }
}

/// An overflow page's next page and data, from its first two slots.
pub open spec fn overflow_read(p: Seq<u8>, pos: int) -> Outcome<(Option<PageId>, Seq<u8>)> {
    match next_at(p, pos) {
        Outcome::Fail(e) => Outcome::Fail(e),
        Outcome::Panic => Outcome::Panic,
        Outcome::Done(nx) => match slot_at(p, pos + 4) {
            Outcome::Fail(e) => Outcome::Fail(e),
            Outcome::Panic => Outcome::Panic,
            Outcome::Done(d) => Outcome::Done((nx, d)),
        },
    }
}

/// The string at `at` of `b` and the position after it.
pub fn read_str(b: &[u8], at: usize) -> (r: Result<(String, usize), StoreErr>)
    ensures
        match str_at(b@, at as int) {
            Outcome::Done(s) => r matches Ok((t, e)) && t@ == s && e == at + 2 + u16_at(b@, at as int),
            Outcome::Fail(e) => r == Err::<(String, usize), StoreErr>(e),
            Outcome::Panic => false,
        },
{
    let n = b.len();
    if at > n || n - at < 2 {
        return Err(StoreErr::IOErr);
    }
    let l = read_u16_le(b, at) as usize;
    proof {
        lemma_u16_at(b@, at as int, l as u16);
    }
    if l > n - at - 2 {
        return Err(StoreErr::IOErr);
    }
    let bytes = vstd::slice::slice_to_vec(vstd::slice::slice_subrange(b, at + 2, at + 2 + l));
    match string_from_utf8(bytes) {
        Some(s) => Ok((s, at + 2 + l)),
        None => Err(StoreErr::DecodeErr),
    }
}

/// The page number at the front of `b`, which must not be 0.
fn read_id(b: &[u8]) -> (r: Result<PageId, StoreErr>)
    requires
        !(id_at(b@) is Panic),
    ensures
        match id_at(b@) {
            Outcome::Done(id) => r == Ok::<PageId, StoreErr>(id),
            Outcome::Fail(e) => r == Err::<PageId, StoreErr>(e),
            Outcome::Panic => false,
        },
{
    if b.len() < 8 {
        return Err(StoreErr::IOErr);
    }
    let raw = read_u64_le(b, 0);
    proof {
        lemma_u64_at(b@, 0, raw);
    }
    Ok(PageId::new(raw as usize).unwrap())
}

/// The next slot of the cursor, as `slot_at` says.
fn next_slot<'a>(cursor: &mut PageCursor<'a>) -> (r: Result<&'a [u8], StoreErr>)
    requires
        !(slot_at(old(cursor).page@, old(cursor).pos as int) is Panic),
    ensures
        final(cursor).page == old(cursor).page,
        final(cursor).pos == old(cursor).pos + SLOT_POINTER_SIZE,
        match slot_at(old(cursor).page@, old(cursor).pos as int) {
            Outcome::Done(s) => r matches Ok(x) && x@ == s,
            Outcome::Fail(e) => r == Err::<&[u8], StoreErr>(e),
            Outcome::Panic => false,
        },
{
    cursor.next()
}

/// The page number of the next slot of the cursor, 0 read as none.
fn next_page<'a>(cursor: &mut PageCursor<'a>) -> (r: Result<Option<PageId>, StoreErr>)
    requires
        !(next_at(old(cursor).page@, old(cursor).pos as int) is Panic),
    ensures
        final(cursor).page == old(cursor).page,
        final(cursor).pos == old(cursor).pos + SLOT_POINTER_SIZE,
        match next_at(old(cursor).page@, old(cursor).pos as int) {
            Outcome::Done(x) => r == Ok::<Option<PageId>, StoreErr>(x),
            Outcome::Fail(e) => r == Err::<Option<PageId>, StoreErr>(e),
            Outcome::Panic => false,
        },
{
    let b = match next_slot(cursor) {
        Ok(b) => b,
        Err(e) => return Err(e),
    };
    if b.len() < 8 {
        return Err(StoreErr::IOErr);
    }
    let raw = read_u64_le(b, 0);
    proof {
        lemma_u64_at(b@, 0, raw);
    }
    Ok(PageId::new(raw as usize))
}

impl FreePage {
    /// A free page holds nothing but its header.
    pub fn deserialize(header: PageHeader, cursor: &mut PageCursor) -> (r: Result<FreePage, StoreErr>)
        ensures
            r == Ok::<FreePage, StoreErr>(FreePage(header)),
            *final(cursor) == *old(cursor),
    {
        Ok(FreePage(header))
    }
}

impl OverflowPage {
    /// An overflow page from its bytes: the next page in its first slot,
    /// the data in its second.
    pub fn deserialize(header: PageHeader, cursor: &mut PageCursor) -> (r: Result<OverflowPage, StoreErr>)
        requires
            !(overflow_read(old(cursor).page@, old(cursor).pos as int) is Panic),
        ensures
            match overflow_read(old(cursor).page@, old(cursor).pos as int) {
                Outcome::Done((nx, d)) => r matches Ok(o) && o.header == header && o.next == nx && o.data@ == d,
                Outcome::Fail(e) => r matches Err(x) && x == e,
                Outcome::Panic => false,
            },
    {
        let next = match next_page(cursor) {
            Ok(n) => n,
            Err(e) => return Err(e),
        };
        let data = match next_slot(cursor) {
            Ok(d) => vstd::slice::slice_to_vec(d),
            Err(e) => return Err(e),
        };
        Ok(OverflowPage { header, next, data })
    }
}

/// The entries read before, then the rest.
pub open spec fn after_all<T>(pre: Seq<T>, rest: Outcome<Seq<T>>) -> Outcome<Seq<T>> {
    match rest {
        Outcome::Done(xs) => Outcome::Done(pre + xs),
        Outcome::Fail(e) => Outcome::Fail(e),
        Outcome::Panic => Outcome::Panic,
    }
}

pub proof fn lemma_after_cons<T>(pre: Seq<T>, x: T, rest: Outcome<Seq<T>>)
    ensures
        after_all(pre, cons(x, rest)) == after_all(pre.push(x), rest),
{
    match rest {
        Outcome::Done(xs) => {
            assert(pre + (seq![x] + xs) =~= pre.push(x) + xs);
        },
        _ => {},
    }
}

/// The keys of leaf or branch entries.
pub open spec fn entry_keys<T>(es: Seq<(T, Seq<char>)>) -> Seq<Seq<char>> {
    es.map_values(|e: (T, Seq<char>)| e.1)
}

/// The record ids or children of leaf or branch entries.
pub open spec fn entry_ids<T>(es: Seq<(T, Seq<char>)>) -> Seq<T> {
    es.map_values(|e: (T, Seq<char>)| e.0)
}

/// The keys, as character sequences.
pub open spec fn key_views(ks: Seq<String>) -> Seq<Seq<char>> {
    ks.map_values(|k: String| k@)
}

impl LeafPage {
    /// A leaf from its bytes: `slots - 1` entries, each a record id and its
    /// key, then the next leaf's number, 0 for none.
    pub fn deserialize(header: PageHeader, cursor: &mut PageCursor) -> (r: Result<LeafPage, StoreErr>)
        requires
            header.slots >= 1,
            !(leaf_read(old(cursor).page@, old(cursor).pos as int, (header.slots - 1) as nat) is Panic),
        ensures
            match leaf_read(old(cursor).page@, old(cursor).pos as int, (header.slots - 1) as nat) {
                Outcome::Done((es, nx)) => r matches Ok(l) && l.header == header && key_views(l.keys@) == entry_keys(es)
                    && l.rids@ == entry_ids(es) && l.next_leaf == nx,
                Outcome::Fail(e) => r matches Err(x) && x == e,
                Outcome::Panic => false,
            },
    {
        let ghost p = cursor.page@;
        let ghost pos0 = cursor.pos as int;
        let n = header.slots - 1;
        assert(n == (header.slots - 1) as nat);
        let mut keys: Vec<String> = Vec::new();
        let mut rids: Vec<Rid> = Vec::new();
        let ghost mut pre: Seq<(Rid, Seq<char>)> = seq![];
        let mut i: u16 = 0;
        while i < n
            invariant
                p == cursor.page@,
                p == old(cursor).page@,
                pos0 == old(cursor).pos as int,
                n as int == (if header.slots >= 1 { header.slots - 1 } else { 0 }),
                i <= n,
                cursor.pos == pos0 + 4 * i,
                leaf_entries(p, pos0, n as nat) == after_all(pre, leaf_entries(p, cursor.pos as int, (n - i) as nat)),
                !(leaf_entries(p, pos0, n as nat) is Panic),
                key_views(keys@) == entry_keys(pre),
                rids@ == entry_ids(pre),
            decreases n - i,
        {
            let ghost q = cursor.pos as int;
            let ghost m = (n - i) as nat;
            let b = match next_slot(cursor) {
                Ok(b) => b,
                Err(e) => {
                    proof {
                        assert(leaf_entries(p, q, m) == Outcome::<Seq<(Rid, Seq<char>)>>::Fail(e));
                    }
                    return Err(e);
                },
            };
            let page = match read_id(b) {
                Ok(x) => x,
                Err(e) => {
                    proof {
                        assert(leaf_entry(b@) == Outcome::<(Rid, Seq<char>)>::Fail(e));
                        assert(leaf_entries(p, q, m) == Outcome::<Seq<(Rid, Seq<char>)>>::Fail(e));
                    }
                    return Err(e);
                },
            };
            if b.len() < 10 {
                proof {
                    assert(leaf_entry(b@) == Outcome::<(Rid, Seq<char>)>::Fail(StoreErr::IOErr));
                    assert(leaf_entries(p, q, m) == Outcome::<Seq<(Rid, Seq<char>)>>::Fail(StoreErr::IOErr));
                }
                return Err(StoreErr::IOErr);
            }
            let slot = read_u16_le(b, 8);
            proof {
                lemma_u16_at(b@, 8, slot);
            }
            let key = match read_str(b, 10) {
                Ok((k, _)) => k,
                Err(e) => {
                    proof {
                        assert(leaf_entry(b@) == Outcome::<(Rid, Seq<char>)>::Fail(e));
                        assert(leaf_entries(p, q, m) == Outcome::<Seq<(Rid, Seq<char>)>>::Fail(e));
                    }
                    return Err(e);
                },
            };
            let ghost x = (Rid { page, slot }, key@);
            proof {
                lemma_after_cons(pre, x, leaf_entries(p, q + 4, (m - 1) as nat));
            }
            let ghost k0 = keys@;
            let ghost pre0 = pre;
            rids.push(Rid { page, slot });
            keys.push(key);
            proof {
                pre = pre.push(x);
                assert(key_views(keys@) =~= key_views(k0).push(x.1));
                assert(entry_keys(pre) =~= entry_keys(pre0).push(x.1));
                assert(rids@ =~= entry_ids(pre));
            }
            i = i + 1;
        }
        proof {
            assert(pre + Seq::<(Rid, Seq<char>)>::empty() =~= pre);
            assert(leaf_entries(p, pos0, n as nat) == Outcome::Done(pre));
        }
        let next_leaf = match next_page(cursor) {
            Ok(x) => x,
            Err(e) => {
                proof {
                    assert(next_at(p, pos0 + 4 * n) == Outcome::<Option<PageId>>::Fail(e));
                }
                return Err(e);
            },
        };
        Ok(LeafPage { header, keys, rids, next_leaf })
    }
}

impl BranchPage {
    /// A branch from its bytes: `slots - 1` entries, each a child and the
    /// key after it, then the last child.
    pub fn deserialize(header: PageHeader, cursor: &mut PageCursor) -> (r: Result<BranchPage, StoreErr>)
        requires
            header.slots >= 1,
            !(branch_read(old(cursor).page@, old(cursor).pos as int, (header.slots - 1) as nat) is Panic),
        ensures
            match branch_read(old(cursor).page@, old(cursor).pos as int, (header.slots - 1) as nat) {
                Outcome::Done((es, last)) => r matches Ok(b) && b.header == header && key_views(b.keys@) == entry_keys(es)
                    && b.children@ == entry_ids(es).push(last),
                Outcome::Fail(e) => r matches Err(x) && x == e,
                Outcome::Panic => false,
            },
    {
        let ghost p = cursor.page@;
        let ghost pos0 = cursor.pos as int;
        let n = header.slots - 1;
        assert(n == (header.slots - 1) as nat);
        let mut keys: Vec<String> = Vec::new();
        let mut children: Vec<PageId> = Vec::new();
        let ghost mut pre: Seq<(PageId, Seq<char>)> = seq![];
        let mut i: u16 = 0;
        while i < n
            invariant
                p == cursor.page@,
                p == old(cursor).page@,
                pos0 == old(cursor).pos as int,
                n as int == (if header.slots >= 1 { header.slots - 1 } else { 0 }),
                i <= n,
                cursor.pos == pos0 + 4 * i,
                branch_entries(p, pos0, n as nat) == after_all(pre, branch_entries(p, cursor.pos as int, (n - i) as nat)),
                !(branch_entries(p, pos0, n as nat) is Panic),
                key_views(keys@) == entry_keys(pre),
                children@ == entry_ids(pre),
            decreases n - i,
        {
            let ghost q = cursor.pos as int;
            let ghost m = (n - i) as nat;
            let b = match next_slot(cursor) {
                Ok(b) => b,
                Err(e) => {
                    proof {
                        assert(branch_entries(p, q, m) == Outcome::<Seq<(PageId, Seq<char>)>>::Fail(e));
                    }
                    return Err(e);
                },
            };
            let child = match read_id(b) {
                Ok(x) => x,
                Err(e) => {
                    proof {
                        assert(branch_entry(b@) == Outcome::<(PageId, Seq<char>)>::Fail(e));
                        assert(branch_entries(p, q, m) == Outcome::<Seq<(PageId, Seq<char>)>>::Fail(e));
                    }
                    return Err(e);
                },
            };
            let key = match read_str(b, 8) {
                Ok((k, _)) => k,
                Err(e) => {
                    proof {
                        assert(branch_entry(b@) == Outcome::<(PageId, Seq<char>)>::Fail(e));
                        assert(branch_entries(p, q, m) == Outcome::<Seq<(PageId, Seq<char>)>>::Fail(e));
                    }
                    return Err(e);
                },
            };
            let ghost x = (child, key@);
            proof {
                lemma_after_cons(pre, x, branch_entries(p, q + 4, (m - 1) as nat));
            }
            let ghost k0 = keys@;
            let ghost pre0 = pre;
            children.push(child);
            keys.push(key);
            proof {
                pre = pre.push(x);
                assert(key_views(keys@) =~= key_views(k0).push(x.1));
                assert(entry_keys(pre) =~= entry_keys(pre0).push(x.1));
                assert(children@ =~= entry_ids(pre));
            }
            i = i + 1;
        }
        proof {
            assert(pre + Seq::<(PageId, Seq<char>)>::empty() =~= pre);
            assert(branch_entries(p, pos0, n as nat) == Outcome::Done(pre));
        }
        let b = match next_slot(cursor) {
            Ok(b) => b,
            Err(e) => {
                proof {
                    assert(slot_at(p, pos0 + 4 * n) == Outcome::<Seq<u8>>::Fail(e));
                }
                return Err(e);
            },
        };
        let last = match read_id(b) {
            Ok(x) => x,
            Err(e) => {
                proof {
                    assert(id_at(b@) == Outcome::<PageId>::Fail(e));
                }
                return Err(e);
            },
        };
        children.push(last);
        Ok(BranchPage { header, keys, children })
    }
}

impl DataPage {
    /// A data page from its bytes: the rows of `slots - 1` slots, then the
    /// overflow page's number, 0 for none.
    pub fn deserialize(header: PageHeader, cursor: &mut PageCursor) -> (r: Result<DataPage, StoreErr>)
        requires
            !(data_read(old(cursor).page@, old(cursor).pos as int, if header.slots >= 1 { (header.slots - 1) as nat } else { 0 }) is Panic),
        ensures
            match data_read(old(cursor).page@, old(cursor).pos as int, if header.slots >= 1 { (header.slots - 1) as nat } else { 0 }) {
                Outcome::Done((rows, nx)) => r matches Ok(d) && d.header == header
                    && d.data@.map_values(|v: Vec<u8>| v@) == rows && d.overflow == nx,
                Outcome::Fail(e) => r matches Err(x) && x == e,
                Outcome::Panic => false,
            },
    {
        let ghost p = cursor.page@;
        let ghost pos0 = cursor.pos as int;
        let n: u16 = if header.slots >= 1 { header.slots - 1 } else { 0 };
        let mut data: Vec<Vec<u8>> = Vec::new();
        let ghost mut pre: Seq<Seq<u8>> = seq![];
        let mut i: u16 = 0;
        while i < n
            invariant
                p == cursor.page@,
                p == old(cursor).page@,
                pos0 == old(cursor).pos as int,
                n as int == (if header.slots >= 1 { header.slots - 1 } else { 0 }),
                i <= n,
                cursor.pos == pos0 + 4 * i,
                raw_entries(p, pos0, n as nat) == after_all(pre, raw_entries(p, cursor.pos as int, (n - i) as nat)),
                !(raw_entries(p, pos0, n as nat) is Panic),
                data@.map_values(|v: Vec<u8>| v@) == pre,
            decreases n - i,
        {
            let ghost q = cursor.pos as int;
            let ghost m = (n - i) as nat;
            let b = match next_slot(cursor) {
                Ok(b) => b,
                Err(e) => {
                    proof {
                        assert(raw_entries(p, q, m) == Outcome::<Seq<Seq<u8>>>::Fail(e));
                    }
                    return Err(e);
                },
            };
            let row = vstd::slice::slice_to_vec(b);
            proof {
                lemma_after_cons(pre, row@, raw_entries(p, q + 4, (m - 1) as nat));
            }
            data.push(row);
            proof {
                pre = pre.push(b@);
                assert(data@.map_values(|v: Vec<u8>| v@) =~= pre);
            }
            i = i + 1;
        }
        proof {
            assert(pre + Seq::<Seq<u8>>::empty() =~= pre);
            assert(raw_entries(p, pos0, n as nat) == Outcome::Done(pre));
        }
        let overflow = match next_page(cursor) {
            Ok(x) => x,
            Err(e) => {
                proof {
                    assert(next_at(p, pos0 + 4 * n) == Outcome::<Option<PageId>>::Fail(e));
                }
                return Err(e);
            },
        };
        Ok(DataPage { header, data, overflow })
    }
}

} // verus!

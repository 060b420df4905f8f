//! Leaf pages: sorted keys, each with the id of the record it names, and
//! the number of the next leaf.

use vstd::prelude::*;
use vstd::string::StringSliceAdditionalSpecFns;
use crate::errors::UserErr;
use crate::store::keys::sorted;
use crate::store::bptree::{key_bytes, find, route, search_keys, lemma_leaf_insert, lemma_keys_insert, lemma_find_bounds, lemma_route_bounds, lemma_find_at};
use vstd::utf8::encode_utf8_decode_utf8;
use crate::store::pages::page::{PageId, PageType, PageHeader, Rid, RID_SIZE, PAGE_SIZE, PAGEHEADER_SIZE, PAGEID_SIZE, SLOT_POINTER_SIZE};

verus! {

broadcast use vstd::seq::group_seq_axioms;

/// The keys, as bytes.
pub open spec fn keys_of(keys: Seq<String>) -> Seq<Seq<u8>> {
    keys.map_values(|s: String| key_bytes(s))
}

/// Bytes that the slots of the keys `ks` fill, with `per` more bytes beside
/// each key.
pub open spec fn used(ks: Seq<Seq<u8>>, per: int) -> int
    decreases ks.len(),
{
    if ks.len() == 0 {
        0
    } else {
        used(ks.drop_last(), per) + ks.last().len() + per
    }
}

/// The header `h` with its slot count and bounds set for a page whose
/// slots hold the keys `ks`, `per` bytes beside each, and one page number.
pub open spec fn sized(h: PageHeader, ks: Seq<Seq<u8>>, per: int) -> PageHeader {
    PageHeader {
        id: h.id,
        pagetype: h.pagetype,
        next: h.next,
        slots: (ks.len() + 1) as u16,
        lower: (PAGEHEADER_SIZE + (ks.len() + 1) * SLOT_POINTER_SIZE) as u16,
        upper: (PAGE_SIZE - used(ks, per) - PAGEID_SIZE) as u16,
    }
}

/// A bare header of the given type, before sizing.
pub open spec fn blank(id: PageId, t: PageType) -> PageHeader {
    PageHeader { id, pagetype: t, next: None, slots: 0, lower: 0, upper: 0 }
}

/// The slots of a prefix fill no more than those of the whole.
pub proof fn lemma_used_prefix(ks: Seq<Seq<u8>>, per: int, i: int)
    requires
        0 <= i <= ks.len(),
        per >= 0,
    ensures
        used(ks.subrange(0, i), per) <= used(ks, per),
        used(ks.subrange(0, i), per) >= 0,
    decreases ks.len() - i,
{
    if i == ks.len() {
        assert(ks.subrange(0, i) =~= ks);
        lemma_used_count(ks, per);
    } else {
        lemma_used_prefix(ks, per, i + 1);
        lemma_used_count(ks.subrange(0, i), per);
        assert(ks.subrange(0, i + 1).drop_last() =~= ks.subrange(0, i));
    }
}

/// Each key takes at least `per` bytes.
pub proof fn lemma_used_count(ks: Seq<Seq<u8>>, per: int)
    requires
        per >= 0,
    ensures
        used(ks, per) >= ks.len() * per,
        used(ks, per) >= 0,
    decreases ks.len(),
{
    if ks.len() > 0 {
        lemma_used_count(ks.drop_last(), per);
        assert((ks.len() - 1) * per + per == ks.len() * per) by (nonlinear_arith);
        assert(ks.len() * per >= 0) by (nonlinear_arith)
            requires
                per >= 0;
    }
}

/// A key added anywhere adds its bytes.
pub proof fn lemma_used_insert(ks: Seq<Seq<u8>>, i: int, k: Seq<u8>, per: int)
    requires
        0 <= i <= ks.len(),
    ensures
        used(ks.insert(i, k), per) == used(ks, per) + k.len() + per,
    decreases ks.len(),
{
    if i == ks.len() {
        assert(ks.insert(i, k).drop_last() =~= ks);
    } else {
        assert(ks.insert(i, k).drop_last() =~= ks.drop_last().insert(i, k));
        lemma_used_insert(ks.drop_last(), i, k, per);
    }
}

/// A key taken out takes its bytes with it.
pub proof fn lemma_used_remove(ks: Seq<Seq<u8>>, i: int, per: int)
    requires
        0 <= i < ks.len(),
    ensures
        used(ks.remove(i), per) == used(ks, per) - ks[i].len() - per,
{
    assert(ks.remove(i).insert(i, ks[i]) =~= ks);
    lemma_used_insert(ks.remove(i), i, ks[i], per);
}

/// Two runs of keys fill what each fills.
pub proof fn lemma_used_append(a: Seq<Seq<u8>>, b: Seq<Seq<u8>>, per: int)
    ensures
        used(a + b, per) == used(a, per) + used(b, per),
    decreases b.len(),
{
    if b.len() == 0 {
        assert(a + b =~= a);
    } else {
        assert((a + b).drop_last() =~= a + b.drop_last());
        lemma_used_append(a, b.drop_last(), per);
    }
}

pub proof fn lemma_keys_of_append(a: Seq<String>, b: Seq<String>)
    ensures
        keys_of(a + b) == keys_of(a) + keys_of(b),
{
    assert(keys_of(a + b) =~= keys_of(a) + keys_of(b));
}

/// Bytes that the slots of `keys` fill, with `per` more bytes beside each.
pub fn bytes_used(keys: &Vec<String>, per: usize) -> (r: usize)
    requires
        per <= PAGE_SIZE,
        used(keys_of(keys@), per as int) + PAGEID_SIZE <= PAGE_SIZE,
    ensures
        r == used(keys_of(keys@), per as int),
{
    let ghost ks = keys_of(keys@);
    let mut sum: usize = 0;
    let mut i: usize = 0;
    while i < keys.len()
        invariant
            ks == keys_of(keys@),
            per <= PAGE_SIZE,
            used(ks, per as int) + PAGEID_SIZE <= PAGE_SIZE,
            i <= keys@.len(),
            sum == used(ks.subrange(0, i as int), per as int),
        decreases keys@.len() - i,
    {
        proof {
            lemma_used_prefix(ks, per as int, i + 1);
            assert(ks.subrange(0, i + 1).drop_last() =~= ks.subrange(0, i as int));
        }
        let n = keys[i].as_str().len();
        sum = sum + n + per;
        i = i + 1;
    }
    proof {
        assert(ks.subrange(0, i as int) =~= ks);
    }
    sum
}

/// Where a page whose keys `ks` fill up to `mid` bytes, `per` beside each
/// key, is split: at the first key, from `i` on, by which the bytes of the
/// keys so far reach `mid`; at 0 where they never do.
pub open spec fn split_index(ks: Seq<Seq<u8>>, per: int, mid: int, i: int) -> int
    decreases ks.len() - i,
{
    if i < 0 || i >= ks.len() {
        0
    } else if used(ks.subrange(0, i + 1), per) >= mid {
        i
    } else {
        split_index(ks, per, mid, i + 1)
    }
}

pub proof fn lemma_split_index_bounds(ks: Seq<Seq<u8>>, per: int, mid: int, i: int)
    requires
        0 <= i,
    ensures
        0 <= split_index(ks, per, mid, i),
        ks.len() > 0 ==> split_index(ks, per, mid, i) < ks.len(),
    decreases ks.len() - i,
{
    if i < ks.len() && used(ks.subrange(0, i + 1), per) < mid {
        lemma_split_index_bounds(ks, per, mid, i + 1);
    }
}

/// Finds where to split the keys: the first key by which their bytes, `per`
/// beside each, reach `mid`.
pub fn find_split(keys: &Vec<String>, per: usize, mid: usize) -> (r: usize)
    requires
        per <= PAGE_SIZE,
        used(keys_of(keys@), per as int) + PAGEID_SIZE <= PAGE_SIZE,
    ensures
        r == split_index(keys_of(keys@), per as int, mid as int, 0),
        keys@.len() > 0 ==> r < keys@.len(),
        keys@.len() == 0 ==> r == 0,
{
    let ghost ks = keys_of(keys@);
    proof {
        lemma_split_index_bounds(ks, per as int, mid as int, 0);
    }
    let mut num_bytes: usize = 0;
    let mut i: usize = 0;
    while i < keys.len()
        invariant
            ks == keys_of(keys@),
            per <= PAGE_SIZE,
            used(ks, per as int) + PAGEID_SIZE <= PAGE_SIZE,
            i <= ks.len(),
            num_bytes == used(ks.subrange(0, i as int), per as int),
            split_index(ks, per as int, mid as int, i as int) == split_index(ks, per as int, mid as int, 0),
        decreases ks.len() - i,
    {
        proof {
            lemma_used_prefix(ks, per as int, i + 1);
            assert(ks.subrange(0, i + 1).drop_last() =~= ks.subrange(0, i as int));
        }
        num_bytes = num_bytes + keys[i].as_str().len() + per;
        if num_bytes >= mid {
            return i;
        }
        i = i + 1;
    }
    0
}

/// A header sized for keys that fit on a page counts one slot per key and
/// one more: every leaf that `new`, `refresh_header`, `merge`,
/// `borrow_from` or `split` sizes has as many slots as keys plus one.
pub proof fn lemma_sized_slots(h: PageHeader, ks: Seq<Seq<u8>>, per: int)
    requires
        per >= 1,
        used(ks, per) + PAGEID_SIZE <= PAGE_SIZE,
    ensures
        sized(h, ks, per).slots == ks.len() + 1,
        sized(h, ks, per).lower == PAGEHEADER_SIZE + (ks.len() + 1) * SLOT_POINTER_SIZE,
        sized(h, ks, per).upper == PAGE_SIZE - used(ks, per) - PAGEID_SIZE,
{
    lemma_used_count(ks, per);
    assert(ks.len() * per >= ks.len()) by (nonlinear_arith)
        requires
            per >= 1;
}

/// A leaf of the index.
#[derive(Debug, PartialEq)]
pub struct LeafPage {
    pub header: PageHeader,
    pub keys: Vec<String>,
    pub rids: Vec<Rid>,
    pub next_leaf: Option<PageId>,
}

/// What `insert` of `key` with `rid` makes of leaf `a`, as `b`, and
/// answers, as `r`: a key the leaf holds keeps its place, gets `rid` and
/// gives back its old record id, with the header as it was; a new key goes
/// where it sorts, with `rid` beside it, and the header grows by one slot
/// and the bytes of the key and its record id.
pub open spec fn leaf_inserted(a: LeafPage, b: LeafPage, key: &str, rid: Rid, r: Option<Rid>) -> bool {
    let ks = a.key_seq();
    let k = key.spec_bytes();
    let i = find(ks, k);
    let p = route(ks, k);
    &&& i >= 0 ==> {
        &&& r == Some(a.rids@[i])
        &&& b.keys == a.keys
        &&& b.rids@ == a.rids@.update(i, rid)
        &&& b.header == a.header
    }
    &&& i == -1 ==> {
        &&& r is None
        &&& b.key_seq() == ks.insert(p, k)
        &&& b.rids@ == a.rids@.insert(p, rid)
        &&& b.header == (PageHeader {
            slots: (a.header.slots + 1) as u16,
            lower: (a.header.lower + SLOT_POINTER_SIZE) as u16,
            upper: (a.header.upper - RID_SIZE - k.len()) as u16,
            ..a.header
        })
    }
}

/// What `delete` of `key` makes of leaf `a`, as `b`, and answers, as `r`:
/// a key the leaf holds goes, with its record id, which is answered, and
/// the header shrinks by one slot and their bytes; for any other key the
/// leaf stays as it was and `NoRID` names the key.
pub open spec fn leaf_deleted(a: LeafPage, b: LeafPage, key: &str, r: Result<Rid, UserErr>) -> bool {
    let ks = a.key_seq();
    let k = key.spec_bytes();
    let i = find(ks, k);
    &&& i >= 0 ==> {
        &&& r == Ok::<Rid, UserErr>(a.rids@[i])
        &&& b.keys@ == a.keys@.remove(i)
        &&& b.rids@ == a.rids@.remove(i)
        &&& b.header == (PageHeader {
            slots: (a.header.slots - 1) as u16,
            lower: (a.header.lower - SLOT_POINTER_SIZE) as u16,
            upper: (a.header.upper + RID_SIZE + k.len()) as u16,
            ..a.header
        })
    }
    &&& i == -1 ==> {
        &&& r matches Err(UserErr::NoRID(s)) && s@ == key@
        &&& b == a
    }
}

impl LeafPage {
    /// The leaf's keys, as bytes.
    pub open spec fn key_seq(&self) -> Seq<Seq<u8>> {
        keys_of(self.keys@)
    }

    /// The header counts one slot per key and one for the next-leaf number.
    pub open spec fn slots_match(&self) -> bool {
        self.header.slots == self.keys@.len() + 1
    }

    /// The leaf's keys fit on one page, with its next-leaf number.
    pub open spec fn fits(&self) -> bool {
        used(self.key_seq(), RID_SIZE as int) + PAGEID_SIZE <= PAGE_SIZE
    }

    /// A leaf holding `keys` and `rids`, its header sized for them.
    pub fn new(id: PageId, keys: Vec<String>, rids: Vec<Rid>, next_leaf: Option<PageId>) -> (r: LeafPage)
        requires
            used(keys_of(keys@), RID_SIZE as int) + PAGEID_SIZE <= PAGE_SIZE,
        ensures
            r.header == sized(blank(id, PageType::Leaf), keys_of(keys@), RID_SIZE as int),
            r.keys == keys,
            r.rids == rids,
            r.next_leaf == next_leaf,
    {
        proof {
            lemma_used_count(keys_of(keys@), RID_SIZE as int);
        }
        let sum = bytes_used(&keys, RID_SIZE);
        let slots = (keys.len() + 1) as u16;
        let lower = PAGEHEADER_SIZE as u16 + slots * SLOT_POINTER_SIZE as u16;
        let upper = (PAGE_SIZE - sum - PAGEID_SIZE) as u16;
        LeafPage {
            header: PageHeader { id, pagetype: PageType::Leaf, next: None, slots, lower, upper },
            keys,
            rids,
            next_leaf,
        }
    }

    /// The page's header.
    pub fn header(&self) -> (r: &PageHeader)
        ensures
            *r == self.header,
    {
        &self.header
    }

    /// Sets the slot count and bounds for the keys the leaf holds now.
    pub fn refresh_header(&mut self)
        requires
            old(self).fits(),
        ensures
            final(self).header == sized(old(self).header, old(self).key_seq(), RID_SIZE as int),
            final(self).keys == old(self).keys,
            final(self).rids == old(self).rids,
            final(self).next_leaf == old(self).next_leaf,
    {
        proof {
            lemma_used_count(self.key_seq(), RID_SIZE as int);
        }
        let sum = bytes_used(&self.keys, RID_SIZE);
        self.header.slots = self.keys.len() as u16 + 1;
        self.header.lower = PAGEHEADER_SIZE as u16 + self.header.slots * SLOT_POINTER_SIZE as u16;
        self.header.upper = (PAGE_SIZE - sum - PAGEID_SIZE) as u16;
    }

    /// Maps `key` to `rid`. A key already present keeps its place and gets
    /// the new record id, and its old one is returned. A new key goes where
    /// it sorts, and the header grows by one slot.
    pub fn insert(&mut self, key: &str, rid: Rid) -> (r: Option<Rid>)
        requires
            sorted(old(self).key_seq()),
            old(self).rids@.len() == old(self).keys@.len(),
            find(old(self).key_seq(), key.spec_bytes()) == -1 ==> {
                &&& old(self).header.slots < u16::MAX
                &&& old(self).header.lower + SLOT_POINTER_SIZE <= u16::MAX
                &&& old(self).header.upper >= RID_SIZE + key.spec_bytes().len()
            },
        ensures
            sorted(final(self).key_seq()),
            final(self).rids@.len() == final(self).keys@.len(),
            final(self).next_leaf == old(self).next_leaf,
            old(self).slots_match() ==> final(self).slots_match(),
            leaf_inserted(*old(self), *final(self), key, rid, r),
    {
        let ghost ks = self.key_seq();
        let ghost k = key.spec_bytes();
        proof {
            lemma_find_bounds(ks, k);
            lemma_route_bounds(ks, k);
        }
        match search_keys(&self.keys, key.as_bytes()) {
            Ok(i) => {
                let old_rid = self.rids[i];
                self.rids.set(i, rid);
                Some(old_rid)
            },
            Err(i) => {
                self.header.slots = self.header.slots + 1;
                self.header.lower = self.header.lower + SLOT_POINTER_SIZE as u16;
                self.header.upper = self.header.upper - (RID_SIZE + key.len()) as u16;
                self.rids.insert(i, rid);
                let s = key.to_owned();
                proof {
                    lemma_keys_insert(self.keys@, i as int, s);
                    let d = crate::store::pager::PageId(0);
                    lemma_leaf_insert(ks, Seq::new(ks.len(), |j: int| d), k, d, None, None);
                }
                self.keys.insert(i, s);
                None
            },
        }
    }

    /// Takes `key` out and returns its record id, or `NoRID` where the leaf
    /// does not hold it.
    pub fn delete(&mut self, key: &str) -> (r: Result<Rid, UserErr>)
        requires
            sorted(old(self).key_seq()),
            old(self).rids@.len() == old(self).keys@.len(),
            find(old(self).key_seq(), key.spec_bytes()) >= 0 ==> {
                &&& old(self).header.slots >= 1
                &&& old(self).header.lower >= SLOT_POINTER_SIZE
                &&& old(self).header.upper + RID_SIZE + key.spec_bytes().len() <= u16::MAX
            },
        ensures
            final(self).rids@.len() == final(self).keys@.len(),
            final(self).next_leaf == old(self).next_leaf,
            old(self).slots_match() ==> final(self).slots_match(),
            leaf_deleted(*old(self), *final(self), key, r),
    {
        let ghost ks = self.key_seq();
        proof {
            lemma_find_bounds(ks, key.spec_bytes());
        }
        match search_keys(&self.keys, key.as_bytes()) {
            Ok(i) => {
                self.header.slots = self.header.slots - 1;
                self.header.lower = self.header.lower - SLOT_POINTER_SIZE as u16;
                self.header.upper = self.header.upper + (RID_SIZE + key.len()) as u16;
                self.keys.remove(i);
                Ok(self.rids.remove(i))
            },
            Err(_) => Err(UserErr::NoRID(key.to_owned())),
        }
    }

    /// Moves one key and its record id over from a sibling: from a left
    /// sibling its last key goes to the front, and that key is returned;
    /// from a right sibling its first key goes to the back, and the key that
    /// then leads the sibling is returned, as the new separator between the
    /// two. Both headers are then sized anew.
    pub fn borrow_from(&mut self, sibling: &mut LeafPage, from_left: bool) -> (r: String)
        requires
            from_left ==> {
                &&& old(sibling).keys@.len() >= 1
                &&& old(sibling).rids@.len() >= 1
                &&& used(old(self).key_seq(), RID_SIZE as int) + old(sibling).key_seq().last().len() + RID_SIZE + PAGEID_SIZE <= PAGE_SIZE
            },
            !from_left ==> {
                &&& old(sibling).keys@.len() >= 2
                &&& old(sibling).rids@.len() >= 1
                &&& used(old(self).key_seq(), RID_SIZE as int) + old(sibling).key_seq()[0].len() + RID_SIZE + PAGEID_SIZE <= PAGE_SIZE
            },
            old(sibling).fits(),
        ensures
            final(self).next_leaf == old(self).next_leaf,
            final(sibling).next_leaf == old(sibling).next_leaf,
            final(self).header == sized(old(self).header, final(self).key_seq(), RID_SIZE as int),
            final(sibling).header == sized(old(sibling).header, final(sibling).key_seq(), RID_SIZE as int),
            ({
                let sk = old(sibling).key_seq();
                let sr = old(sibling).rids@;
                &&& from_left ==> {
                    &&& key_bytes(r) == sk.last()
                    &&& final(self).key_seq() == seq![sk.last()] + old(self).key_seq()
                    &&& final(self).rids@ == seq![sr.last()] + old(self).rids@
                    &&& final(sibling).key_seq() == sk.drop_last()
                    &&& final(sibling).rids@ == sr.drop_last()
                }
                &&& !from_left ==> {
                    &&& key_bytes(r) == sk[1]
                    &&& final(self).key_seq() == old(self).key_seq().push(sk[0])
                    &&& final(self).rids@ == old(self).rids@.push(sr[0])
                    &&& final(sibling).key_seq() == sk.subrange(1, sk.len() as int)
                    &&& final(sibling).rids@ == sr.subrange(1, sr.len() as int)
                }
            }),
    {
        let ghost sk = sibling.key_seq();
        let ghost mk = self.key_seq();
        let (key, rid) = if from_left {
            let k = sibling.keys.pop().unwrap();
            let d = sibling.rids.pop().unwrap();
            (k, d)
        } else {
            let k = sibling.keys.remove(0);
            let d = sibling.rids.remove(0);
            (k, d)
        };
        proof {
            if from_left {
                assert(keys_of(sibling.keys@) =~= sk.drop_last());
                assert(key_bytes(key) == sk.last());
            } else {
                assert(keys_of(sibling.keys@) =~= sk.subrange(1, sk.len() as int));
                assert(key_bytes(key) == sk[0]);
            }
        }
        if from_left {
            self.keys.insert(0, key.clone());
            self.rids.insert(0, rid);
            proof {
                assert(self.key_seq() =~= seq![sk.last()] + mk);
            }
        } else {
            self.keys.push(key.clone());
            self.rids.push(rid);
            proof {
                assert(self.key_seq() =~= mk.push(sk[0]));
            }
        }
        proof {
            if from_left {
                assert(seq![sk.last()] + mk =~= mk.insert(0, sk.last()));
                lemma_used_insert(mk, 0, sk.last(), RID_SIZE as int);
                assert(sk.drop_last() =~= sk.subrange(0, sk.len() - 1));
                lemma_used_prefix(sk, RID_SIZE as int, sk.len() - 1);
            } else {
                assert(mk.push(sk[0]) =~= mk.insert(mk.len() as int, sk[0]));
                lemma_used_insert(mk, mk.len() as int, sk[0], RID_SIZE as int);
                assert(sk.subrange(1, sk.len() as int) =~= sk.remove(0));
                lemma_used_remove(sk, 0, RID_SIZE as int);
            }
        }
        self.refresh_header();
        sibling.refresh_header();
        if from_left {
            key
        } else {
            proof {
                assert(key_bytes(sibling.keys@[0]) == sk[1]);
            }
            sibling.keys[0].clone()
        }
    }

    /// Appends the keys and record ids of the right neighbour `other`, takes
    /// over its next leaf, and sizes the header anew.
    pub fn merge(&mut self, other: LeafPage)
        requires
            used(old(self).key_seq(), RID_SIZE as int) + used(other.key_seq(), RID_SIZE as int) + PAGEID_SIZE <= PAGE_SIZE,
        ensures
            final(self).keys@ == old(self).keys@ + other.keys@,
            final(self).rids@ == old(self).rids@ + other.rids@,
            final(self).next_leaf == other.next_leaf,
            final(self).header == sized(old(self).header, final(self).key_seq(), RID_SIZE as int),
    {
        let mut other = other;
        proof {
            lemma_keys_of_append(self.keys@, other.keys@);
            lemma_used_append(self.key_seq(), other.key_seq(), RID_SIZE as int);
        }
        self.keys.append(&mut other.keys);
        self.rids.append(&mut other.rids);
        self.next_leaf = other.next_leaf;
        self.refresh_header();
    }

    /// Moves the keys from the split point on, with their record ids, to a
    /// new leaf `new_id`, which takes over this leaf's next leaf and becomes
    /// its next. The split point is the first key by which the keys' bytes
    /// reach half the bytes the page holds, or the first key where none
    /// does. Both headers are sized for their keys.
    pub fn split(&mut self, new_id: PageId) -> (r: LeafPage)
        requires
            old(self).fits(),
            old(self).header.upper + PAGEID_SIZE <= PAGE_SIZE,
            old(self).rids@.len() == old(self).keys@.len(),
        ensures
            ({
                let ks = old(self).keys@;
                let i = split_index(old(self).key_seq(), RID_SIZE as int,
                    (PAGE_SIZE - old(self).header.upper - PAGEID_SIZE) / 2, 0);
                &&& final(self).keys@ == ks.subrange(0, i)
                &&& final(self).rids@ == old(self).rids@.subrange(0, i)
                &&& r.keys@ == ks.subrange(i, ks.len() as int)
                &&& r.rids@ == old(self).rids@.subrange(i, ks.len() as int)
                &&& r.next_leaf == old(self).next_leaf
                &&& final(self).next_leaf == Some(new_id)
                &&& r.header == sized(blank(new_id, PageType::Leaf), r.key_seq(), RID_SIZE as int)
                &&& final(self).header == sized(old(self).header, final(self).key_seq(), RID_SIZE as int)
            }),
    {
        let ghost ks = self.key_seq();
        let slot_mid = (PAGE_SIZE - self.header.upper as usize - PAGEID_SIZE) / 2;
        let slot_idx = find_split(&self.keys, RID_SIZE, slot_mid);
        let ghost n = self.keys@.len();
        let new_keys = self.keys.split_off(slot_idx);
        let new_rids = self.rids.split_off(slot_idx);
        proof {
            assert(keys_of(new_keys@) =~= ks.subrange(slot_idx as int, n as int));
            assert(keys_of(self.keys@) =~= ks.subrange(0, slot_idx as int));
            assert(ks =~= ks.subrange(0, slot_idx as int) + ks.subrange(slot_idx as int, n as int));
            lemma_used_append(ks.subrange(0, slot_idx as int), ks.subrange(slot_idx as int, n as int), RID_SIZE as int);
            lemma_used_count(ks.subrange(0, slot_idx as int), RID_SIZE as int);
            lemma_used_count(ks.subrange(slot_idx as int, n as int), RID_SIZE as int);
        }
        let old_next = self.next_leaf;
        let new_page = LeafPage::new(new_id, new_keys, new_rids, old_next);
        self.next_leaf = Some(new_id);
        self.refresh_header();
        new_page
    }
}

/// Inserting a key that a leaf does not hold, where it fits, and then
/// deleting it gives the leaf back: the same keys, record ids, header and
/// next leaf, and the delete answers the record id that went in.
pub proof fn lemma_insert_then_delete(before: LeafPage, mid: LeafPage, after: LeafPage, key: &str, rid: Rid,
    r1: Option<Rid>, r2: Result<Rid, UserErr>)
    requires
        sorted(before.key_seq()),
        before.rids@.len() == before.keys@.len(),
        find(before.key_seq(), key.spec_bytes()) == -1,
        before.header.slots < u16::MAX,
        before.header.lower + SLOT_POINTER_SIZE <= u16::MAX,
        before.header.upper >= RID_SIZE + key.spec_bytes().len(),
        sorted(mid.key_seq()),
        mid.next_leaf == before.next_leaf,
        leaf_inserted(before, mid, key, rid, r1),
        after.next_leaf == mid.next_leaf,
        leaf_deleted(mid, after, key, r2),
    ensures
        r1 is None,
        r2 == Ok::<Rid, UserErr>(rid),
        after.key_seq() == before.key_seq(),
        after.keys@.map_values(|s: String| s@) == before.keys@.map_values(|s: String| s@),
        after.rids@ == before.rids@,
        after.header == before.header,
        after.next_leaf == before.next_leaf,
{
    let ks = before.key_seq();
    let k = key.spec_bytes();
    let p = route(ks, k);
    lemma_route_bounds(ks, k);
    assert(mid.key_seq()[p] == k);
    lemma_find_at(mid.key_seq(), k, p);
    assert(after.keys@ == mid.keys@.remove(p));
    assert(after.key_seq() =~= mid.key_seq().remove(p));
    assert(ks.insert(p, k).remove(p) =~= ks);
    assert(after.rids@ =~= before.rids@);
    assert(after.keys@.len() == before.keys@.len());
    assert forall|j: int| 0 <= j < after.keys@.len() implies #[trigger] after.keys@[j]@ == before.keys@[j]@ by {
        assert(after.key_seq()[j] == ks[j]);
        assert(key_bytes(after.keys@[j]) == key_bytes(before.keys@[j]));
        encode_utf8_decode_utf8(after.keys@[j]@);
        encode_utf8_decode_utf8(before.keys@[j]@);
    }
    assert(after.keys@.map_values(|s: String| s@) =~= before.keys@.map_values(|s: String| s@));
}

} // verus!

//! Branch pages: separator keys and the children between them.

use vstd::prelude::*;
use crate::store::bptree::key_bytes;
use crate::store::pages::page::{PageId, PageType, PageHeader, PAGE_SIZE, PAGEID_SIZE, SLOT_POINTER_SIZE};
use crate::store::pages::leaf::{keys_of, used, bytes_used, lemma_used_count, lemma_keys_of_append, lemma_used_append, split_index, find_split, lemma_used_prefix};

verus! {

broadcast use vstd::seq::group_seq_axioms;

/// The header of a new branch with children `cs` and keys `ks`.
pub open spec fn branch_header(id: PageId, ks: Seq<Seq<u8>>, n_children: int) -> PageHeader {
    PageHeader {
        id,
        pagetype: PageType::Branch,
        next: None,
        slots: n_children as u16,
        lower: (n_children * SLOT_POINTER_SIZE) as u16,
        upper: (PAGE_SIZE - used(ks, PAGEID_SIZE as int) - PAGEID_SIZE) as u16,
    }
}

/// An inner node of the index.
#[derive(Debug, PartialEq)]
pub struct BranchPage {
    pub header: PageHeader,
    pub keys: Vec<String>,
    pub children: Vec<PageId>,
}

impl BranchPage {
    /// The branch's keys, as bytes.
    pub open spec fn key_seq(&self) -> Seq<Seq<u8>> {
        keys_of(self.keys@)
    }

    /// A branch holding `keys` and `children`, its header sized for them.
    pub fn new(id: PageId, keys: Vec<String>, children: Vec<PageId>) -> (r: BranchPage)
        requires
            used(keys_of(keys@), PAGEID_SIZE as int) + PAGEID_SIZE <= PAGE_SIZE,
            children@.len() * SLOT_POINTER_SIZE <= usize::MAX,
        ensures
            r.header == branch_header(id, keys_of(keys@), children@.len() as int),
            r.keys == keys,
            r.children == children,
    {
        let sum = bytes_used(&keys, PAGEID_SIZE);
        let slots = children.len() as u16;
        let lower = (children.len() * SLOT_POINTER_SIZE) as u16;
        let upper = (PAGE_SIZE - sum - PAGEID_SIZE) as u16;
        BranchPage {
            header: PageHeader { id, pagetype: PageType::Branch, next: None, slots, lower, upper },
            keys,
            children,
        }
    }

    /// Rotates one child over from a sibling through the parent: the
    /// parent's `separator` between the two comes down into this branch,
    /// with the sibling's nearest child, and the sibling's nearest key is
    /// taken out and returned as the parent's new separator. From a left
    /// sibling its last child and key are taken and the separator goes to
    /// the front; from a right sibling its first ones, and the separator
    /// goes to the back. The headers gain and lose one slot and the bytes
    /// of the key that came or went.
    pub fn borrow_from(&mut self, sibling: &mut BranchPage, from_left: bool, separator: String) -> (r: String)
        requires
            old(sibling).keys@.len() >= 1,
            old(sibling).children@.len() >= 1,
            ({
                let k = if from_left { old(sibling).key_seq().last() } else { old(sibling).key_seq()[0] };
                &&& old(self).header.slots < u16::MAX
                &&& old(self).header.lower + SLOT_POINTER_SIZE <= u16::MAX
                &&& old(self).header.upper >= PAGEID_SIZE + key_bytes(separator).len()
                &&& old(sibling).header.slots >= 1
                &&& old(sibling).header.lower >= SLOT_POINTER_SIZE
                &&& old(sibling).header.upper + PAGEID_SIZE + k.len() <= u16::MAX
            }),
        ensures
            ({
                let sk = old(sibling).key_seq();
                let sc = old(sibling).children@;
                let sep = key_bytes(separator);
                let k = if from_left { sk.last() } else { sk[0] };
                &&& key_bytes(r) == k
                &&& from_left ==> {
                    &&& final(self).key_seq() == seq![sep] + old(self).key_seq()
                    &&& final(self).children@ == seq![sc.last()] + old(self).children@
                    &&& final(sibling).key_seq() == sk.drop_last()
                    &&& final(sibling).children@ == sc.drop_last()
                }
                &&& !from_left ==> {
                    &&& final(self).key_seq() == old(self).key_seq().push(sep)
                    &&& final(self).children@ == old(self).children@.push(sc[0])
                    &&& final(sibling).key_seq() == sk.subrange(1, sk.len() as int)
                    &&& final(sibling).children@ == sc.subrange(1, sc.len() as int)
                }
                &&& final(self).header == (PageHeader {
                    slots: (old(self).header.slots + 1) as u16,
                    lower: (old(self).header.lower + SLOT_POINTER_SIZE) as u16,
                    upper: (old(self).header.upper - PAGEID_SIZE - sep.len()) as u16,
                    ..old(self).header
                })
                &&& final(sibling).header == (PageHeader {
                    slots: (old(sibling).header.slots - 1) as u16,
                    lower: (old(sibling).header.lower - SLOT_POINTER_SIZE) as u16,
                    upper: (old(sibling).header.upper + PAGEID_SIZE + k.len()) as u16,
                    ..old(sibling).header
                })
            }),
    {
        let ghost sk = sibling.key_seq();
        let ghost mk = self.key_seq();
        let (key, child) = if from_left {
            let k = sibling.keys.pop().unwrap();
            let c = sibling.children.pop().unwrap();
            (k, c)
        } else {
            let k = sibling.keys.remove(0);
            let c = sibling.children.remove(0);
            (k, c)
        };
        proof {
            if from_left {
                assert(keys_of(sibling.keys@) =~= sk.drop_last());
            } else {
                assert(keys_of(sibling.keys@) =~= sk.subrange(1, sk.len() as int));
            }
        }
        let n = key.as_str().len();
        let m = separator.as_str().len();
        let ghost sep = key_bytes(separator);
        if from_left {
            self.keys.insert(0, separator);
            self.children.insert(0, child);
            proof {
                assert(self.key_seq() =~= seq![sep] + mk);
            }
        } else {
            self.keys.push(separator);
            self.children.push(child);
            proof {
                assert(self.key_seq() =~= mk.push(sep));
            }
        }
        self.header.slots = self.header.slots + 1;
        self.header.lower = self.header.lower + SLOT_POINTER_SIZE as u16;
        self.header.upper = self.header.upper - (PAGEID_SIZE + m) as u16;
        sibling.header.slots = sibling.header.slots - 1;
        sibling.header.lower = sibling.header.lower - SLOT_POINTER_SIZE as u16;
        sibling.header.upper = sibling.header.upper + (PAGEID_SIZE + n) as u16;
        key
    }

    /// Appends the keys and children of the right neighbour `other` and
    /// resets the header: one slot more than children, four bytes of
    /// directory per slot, and an upper bound that starts from one page
    /// number's bytes, so that only a merge that leaves no keys has one.
    pub fn merge(&mut self, other: BranchPage)
        requires
            old(self).keys@.len() + other.keys@.len() == 0,
            old(self).children@.len() + other.children@.len() < u16::MAX,
            (old(self).children@.len() + other.children@.len() + 1) * SLOT_POINTER_SIZE <= u16::MAX,
        ensures
            final(self).keys@ == old(self).keys@ + other.keys@,
            final(self).children@ == old(self).children@ + other.children@,
            final(self).header == (PageHeader {
                slots: (final(self).children@.len() + 1) as u16,
                lower: ((final(self).children@.len() + 1) * SLOT_POINTER_SIZE) as u16,
                upper: 0,
                ..old(self).header
            }),
    {
        let mut other = other;
        proof {
            lemma_keys_of_append(self.keys@, other.keys@);
            lemma_used_append(self.key_seq(), keys_of(other.keys@), PAGEID_SIZE as int);
        }
        self.keys.append(&mut other.keys);
        self.children.append(&mut other.children);
        proof {
            assert(self.key_seq() =~= Seq::<Seq<u8>>::empty());
        }
        let sum = bytes_used(&self.keys, PAGEID_SIZE);
        self.header.slots = self.children.len() as u16 + 1;
        self.header.lower = self.header.slots * SLOT_POINTER_SIZE as u16;
        self.header.upper = (PAGEID_SIZE - sum - PAGEID_SIZE) as u16;
    }

    /// Moves the keys and children from the split point on to a new branch
    /// `new_id`, then takes the last key left here out and returns it with
    /// the new branch. The split point is the first key by which the keys'
    /// bytes reach half the bytes the page holds. This branch's header is
    /// sized for its children and keys; the new one's as `new` sizes it.
    pub fn split(&mut self, new_id: PageId) -> (r: (String, BranchPage))
        requires
            used(old(self).key_seq(), PAGEID_SIZE as int) + PAGEID_SIZE <= PAGE_SIZE,
            old(self).header.upper + PAGEID_SIZE <= PAGE_SIZE,
            old(self).children@.len() == old(self).keys@.len() + 1,
            split_index(old(self).key_seq(), PAGEID_SIZE as int,
                (PAGE_SIZE - old(self).header.upper - PAGEID_SIZE) / 2, 0) > 0,
        ensures
            ({
                let ks = old(self).key_seq();
                let cs = old(self).children@;
                let i = split_index(ks, PAGEID_SIZE as int, (PAGE_SIZE - old(self).header.upper - PAGEID_SIZE) / 2, 0);
                &&& key_bytes(r.0) == ks[i - 1]
                &&& final(self).key_seq() == ks.subrange(0, i - 1)
                &&& final(self).children@ == cs.subrange(0, i)
                &&& r.1.key_seq() == ks.subrange(i, ks.len() as int)
                &&& r.1.children@ == cs.subrange(i, cs.len() as int)
                &&& r.1.header == branch_header(new_id, r.1.key_seq(), cs.len() - i)
                &&& final(self).header == (PageHeader {
                    slots: i as u16,
                    lower: (i * SLOT_POINTER_SIZE) as u16,
                    upper: (PAGE_SIZE - used(ks.subrange(0, i - 1), PAGEID_SIZE as int) - PAGEID_SIZE) as u16,
                    ..old(self).header
                })
            }),
    {
        let ghost ks = self.key_seq();
        let ghost n = self.keys@.len();
        let slot_mid = (PAGE_SIZE - self.header.upper as usize - PAGEID_SIZE) / 2;
        let slot_idx = find_split(&self.keys, PAGEID_SIZE, slot_mid);
        let new_keys = self.keys.split_off(slot_idx);
        let new_children = self.children.split_off(slot_idx);
        proof {
            assert(keys_of(new_keys@) =~= ks.subrange(slot_idx as int, n as int));
            assert(keys_of(self.keys@) =~= ks.subrange(0, slot_idx as int));
            assert(ks =~= ks.subrange(0, slot_idx as int) + ks.subrange(slot_idx as int, n as int));
            lemma_used_append(ks.subrange(0, slot_idx as int), ks.subrange(slot_idx as int, n as int), PAGEID_SIZE as int);
            lemma_used_count(ks.subrange(0, slot_idx as int), PAGEID_SIZE as int);
            lemma_used_count(ks.subrange(slot_idx as int, n as int), PAGEID_SIZE as int);
        }
        let new_page = BranchPage::new(new_id, new_keys, new_children);
        let promoted = self.keys.pop().unwrap();
        proof {
            assert(keys_of(self.keys@) =~= ks.subrange(0, slot_idx - 1));
            assert(ks.subrange(0, slot_idx - 1) =~= ks.subrange(0, slot_idx as int).subrange(0, slot_idx - 1));
            lemma_used_prefix(ks.subrange(0, slot_idx as int), PAGEID_SIZE as int, slot_idx - 1);
        }
        let sum = bytes_used(&self.keys, PAGEID_SIZE);
        self.header.slots = self.children.len() as u16;
        self.header.lower = (self.children.len() * SLOT_POINTER_SIZE) as u16;
        self.header.upper = (PAGE_SIZE - sum - 8) as u16;
        (promoted, new_page)
    }
}

} // verus!

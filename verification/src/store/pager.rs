//! The pager: the pages of the database file as the store knows them, which
//! pages are free, and which changed since the last flush.

use vstd::prelude::*;
use crate::store::value::Value;

verus! {

broadcast use vstd::seq::group_seq_axioms;

/// Size of one page of the database file, in bytes.
pub const PAGE_SIZE: usize = 4096;

/// The bytes that open every database file.
pub const MAGIC: [u8; 8] = [75u8, 65, 87, 73, 75, 65, 68, 66];

/// The number of a page: its offset in the file in units of `PAGE_SIZE`.
/// Page 0 holds the database header.
#[derive(Debug, PartialEq, Eq, Structural)]
pub struct PageId(pub usize);

impl Clone for PageId {
    fn clone(&self) -> (r: PageId)
        ensures
            r == *self,
    {
        PageId(self.0)
    }
}

impl Copy for PageId {}

/// Whether a page holds part of the index or a value.
#[derive(Debug)]
pub enum PageType {
    Index,
    Data,
}

/// The header at the start of every page.
#[derive(Debug)]
pub struct PageHeader {
    pub page_type: PageType,
    pub page_id: PageId,
    pub next_free: Option<PageId>,
    pub next_over: Option<PageId>,
}

/// A node of the B+ tree.
#[derive(Debug)]
pub struct IndexPage {
    pub header: PageHeader,
    pub keys: Vec<String>,
    pub node_type: NodeType,
}

/// What follows the keys of a node: the children of a branch, or the value
/// pages of a leaf and the next leaf.
#[derive(Debug)]
pub enum NodeType {
    Branch { children: Vec<PageId> },
    Leaf { pages: Vec<PageId>, next: Option<PageId> },
}

/// A page that holds one value.
#[derive(Debug)]
pub struct DataPage {
    pub header: PageHeader,
    pub value: Value,
}

/// The header of the database file, in page 0.
#[derive(Debug)]
pub struct DbHeader {
    pub magic: [u8; 8],
    pub version: u32,
    pub page_size: usize,
    pub root_page: Option<PageId>,
    pub order: usize,
    pub num_pages: usize,
    pub free_list_head: Option<PageId>,
}

/// What the pager knows of one page.
#[derive(Debug)]
pub enum Slot {
    /// Allocated or never written: no content yet.
    Empty,
    Index(IndexPage),
    Data(DataPage),
    /// A page on the free list; its header links to the next free page.
    Free(PageHeader),
}

/// The pages of the database: page `i` in slot `i`.
#[derive(Debug)]
pub struct Pager {
    pub slots: Vec<Slot>,
    pub dirty: Vec<bool>,
    pub free_list: Vec<PageId>,
    pub num_pages: usize,
}

pub open spec fn is_index_slot(s: Seq<Slot>, id: int) -> bool {
    0 < id < s.len() && s[id] is Index
}

pub open spec fn is_data_slot(s: Seq<Slot>, id: int) -> bool {
    0 < id < s.len() && s[id] is Data
}

pub open spec fn is_free_slot(s: Seq<Slot>, id: int) -> bool {
    0 < id < s.len() && s[id] is Free
}

/// Every node that `b` holds, `a` holds in the same slot: no node was
/// written in between.
pub open spec fn nodes_kept(a: Seq<Slot>, b: Seq<Slot>) -> bool {
    forall|q: int| #[trigger] is_index_slot(b, q) ==> is_index_slot(a, q) && b[q] == a[q]
}

/// The node in slot `id`.
pub open spec fn node(s: Seq<Slot>, id: int) -> IndexPage {
    s[id]->Index_0
}

/// The header of a fresh index page.
pub open spec fn index_header(id: PageId) -> PageHeader {
    PageHeader { page_type: PageType::Index, page_id: id, next_free: None, next_over: None }
}

impl Pager {
    /// The pages, slot by slot.
    pub open spec fn slots(&self) -> Seq<Slot> {
        self.slots@
    }

    /// The free list, oldest first.
    pub open spec fn free_ids(&self) -> Seq<PageId> {
        self.free_list@
    }

    /// Which pages changed since the last flush.
    pub open spec fn dirty_flags(&self) -> Seq<bool> {
        self.dirty@
    }

    /// The pager's own invariant: one slot per page, page 0 never handed out,
    /// and the free list holds distinct free pages.
    pub open spec fn wf(&self) -> bool {
        &&& self.slots@.len() == self.num_pages
        &&& self.dirty@.len() == self.slots@.len()
        &&& self.num_pages >= 1
        &&& forall|i: int| 0 <= i < self.free_list@.len() ==> is_free_slot(self.slots@, #[trigger] self.free_list@[i].0 as int)
        &&& forall|i: int, j: int| 0 <= i < j < self.free_list@.len() ==> #[trigger] self.free_list@[i].0 != #[trigger] self.free_list@[j].0
    }

    /// A page that is not free is not on the free list.
    pub proof fn lemma_not_on_free_list(&self, id: int)
        requires
            self.wf(),
            0 <= id < self.slots().len(),
            !(self.slots()[id] is Free),
        ensures
            forall|i: int| 0 <= i < self.free_ids().len() ==> #[trigger] self.free_ids()[i].0 != id,
    {
        assert forall|i: int| 0 <= i < self.free_ids().len() implies #[trigger] self.free_ids()[i].0 != id by {
            assert(is_free_slot(self.slots@, self.free_ids()[i].0 as int));
        }
    }

    /// The pages changed since the last call, in increasing order, which
    /// are then marked unchanged: what is to be written back after an
    /// operation.
    pub fn take_dirty(&mut self) -> (r: Vec<PageId>)
        requires
            old(self).wf(),
        ensures
            final(self).wf(),
            final(self).slots() == old(self).slots(),
            final(self).free_ids() == old(self).free_ids(),
            final(self).num_pages == old(self).num_pages,
            final(self).dirty_flags() == Seq::new(old(self).dirty_flags().len(), |i: int| false),
            forall|j: int| 0 <= j < r@.len() ==> old(self).dirty_flags()[#[trigger] r@[j].0 as int] && r@[j].0 < old(self).slots().len(),
            forall|a: int, b: int| 0 <= a < b < r@.len() ==> #[trigger] r@[a].0 < #[trigger] r@[b].0,
            forall|i: int| 0 <= i < old(self).dirty_flags().len() && #[trigger] old(self).dirty_flags()[i] ==> exists|j: int| 0 <= j < r@.len() && r@[j].0 == i,
    {
        let ghost d0 = self.dirty@;
        let n = self.dirty.len();
        let mut out: Vec<PageId> = Vec::new();
        let mut i: usize = 0;
        while i < n
            invariant
                n == d0.len(),
                self.dirty@.len() == n,
                self.slots == old(self).slots,
                self.free_list == old(self).free_list,
                self.num_pages == old(self).num_pages,
                d0 == old(self).dirty@,
                old(self).wf(),
                i <= n,
                forall|k: int| 0 <= k < i ==> !#[trigger] self.dirty@[k],
                forall|k: int| i <= k < n ==> #[trigger] self.dirty@[k] == d0[k],
                forall|j: int| 0 <= j < out@.len() ==> d0[#[trigger] out@[j].0 as int] && out@[j].0 < i,
                forall|a: int, b: int| 0 <= a < b < out@.len() ==> #[trigger] out@[a].0 < #[trigger] out@[b].0,
                forall|k: int| 0 <= k < i && #[trigger] d0[k] ==> exists|j: int| 0 <= j < out@.len() && out@[j].0 == k,
            decreases n - i,
        {
            if self.dirty[i] {
                let ghost o0 = out@;
                assert(d0[i as int]);
                out.push(PageId(i));
                self.dirty.set(i, false);
                proof {
                    assert(out@ == o0.push(PageId(i)));
                    assert forall|j: int| 0 <= j < out@.len() implies d0[#[trigger] out@[j].0 as int] && out@[j].0 < i + 1 by {
                        if j < o0.len() {
                            assert(out@[j] == o0[j]);
                        } else {
                            assert(out@[j] == PageId(i));
                        }
                    }
                    assert forall|a: int, b: int| 0 <= a < b < out@.len() implies #[trigger] out@[a].0 < #[trigger] out@[b].0 by {
                        assert(out@[a] == o0[a]);
                        assert(o0[a].0 < i);
                        if b < o0.len() {
                            assert(out@[b] == o0[b]);
                        } else {
                            assert(out@[b] == PageId(i));
                        }
                    }
                    assert forall|k: int| 0 <= k < i + 1 && #[trigger] d0[k] implies exists|j: int| 0 <= j < out@.len() && out@[j].0 == k by {
                        if k == i {
                            assert(out@[o0.len() as int].0 == k);
                        } else {
                            let j = choose|j: int| 0 <= j < o0.len() && o0[j].0 == k;
                            assert(out@[j] == o0[j]);
                        }
                    }
                }
            }
            i = i + 1;
        }
        assert(self.dirty@ =~= Seq::new(d0.len(), |i: int| false));
        out
    }

    /// A pager for a new, empty database: only the header page.
    pub fn new_empty() -> (r: Pager)
        ensures
            r.wf(),
            r.slots() == seq![Slot::Empty],
            r.free_ids().len() == 0,
            r.num_pages == 1,
    {
        let mut slots = Vec::new();
        slots.push(Slot::Empty);
        let mut dirty = Vec::new();
        dirty.push(false);
        Pager { slots, dirty, free_list: Vec::new(), num_pages: 1 }
    }

    /// The slot of page `id`.
    pub fn slot(&self, id: PageId) -> (r: &Slot)
        requires
            self.wf(),
            id.0 < self.slots().len(),
        ensures
            *r == self.slots()[id.0 as int],
    {
        &self.slots[id.0]
    }

    /// The index page `id`, if that page is one.
    pub fn index_page(&self, id: PageId) -> (r: Option<&IndexPage>)
        requires
            self.wf(),
        ensures
            r is Some <==> is_index_slot(self.slots(), id.0 as int),
            r matches Some(p) ==> *p == node(self.slots(), id.0 as int),
    {
        if id.0 == 0 || id.0 >= self.slots.len() {
            return None;
        }
        match &self.slots[id.0] {
            Slot::Index(p) => Some(p),
            _ => None,
        }
    }

    /// The data page `id`, if that page is one.
    pub fn data_page(&self, id: PageId) -> (r: Option<&DataPage>)
        requires
            self.wf(),
        ensures
            r is Some <==> is_data_slot(self.slots(), id.0 as int),
            r matches Some(p) ==> self.slots()[id.0 as int] == Slot::Data(*p),
    {
        if id.0 == 0 || id.0 >= self.slots.len() {
            return None;
        }
        match &self.slots[id.0] {
            Slot::Data(p) => Some(p),
            _ => None,
        }
    }

    /// Puts `content` in slot `id` and marks the page changed.
    pub fn put_slot(&mut self, id: PageId, content: Slot)
        requires
            old(self).wf(),
            0 < id.0 < old(self).slots().len(),
            forall|i: int| 0 <= i < old(self).free_ids().len() ==> #[trigger] old(self).free_ids()[i].0 != id.0,
            !(content is Free),
        ensures
            final(self).wf(),
            final(self).slots() == old(self).slots().update(id.0 as int, content),
            final(self).free_ids() == old(self).free_ids(),
            final(self).num_pages == old(self).num_pages,
    {
        self.slots.set(id.0, content);
        self.dirty.set(id.0, true);
        proof {
            assert forall|i: int| 0 <= i < self.free_list@.len() implies is_free_slot(self.slots@, #[trigger] self.free_list@[i].0 as int) by {
                assert(is_free_slot(old(self).slots@, self.free_list@[i].0 as int));
                assert(old(self).free_ids()[i].0 != id.0);
            }
        }
    }

    /// Takes the content of slot `id` out, leaving the slot empty.
    pub fn take_slot(&mut self, id: PageId) -> (r: Slot)
        requires
            old(self).wf(),
            0 < id.0 < old(self).slots().len(),
            forall|i: int| 0 <= i < old(self).free_ids().len() ==> #[trigger] old(self).free_ids()[i].0 != id.0,
        ensures
            final(self).wf(),
            r == old(self).slots()[id.0 as int],
            final(self).slots() == old(self).slots().update(id.0 as int, Slot::Empty),
            final(self).free_ids() == old(self).free_ids(),
            final(self).num_pages == old(self).num_pages,
            nodes_kept(old(self).slots(), final(self).slots()),
    {
        let mut content = Slot::Empty;
        self.slots.set_and_swap(id.0, &mut content);
        proof {
            assert forall|i: int| 0 <= i < self.free_list@.len() implies is_free_slot(self.slots@, #[trigger] self.free_list@[i].0 as int) by {
                assert(is_free_slot(old(self).slots@, self.free_list@[i].0 as int));
                assert(old(self).free_ids()[i].0 != id.0);
            }
        }
        content
    }

    /// Hands out a page for new content: the last page put on the free list,
    /// or else a page past the end of the file. A page taken from the free
    /// list leaves the new end of the list with no successor.
    pub fn allocate(&mut self) -> (r: PageId)
        requires
            old(self).wf(),
            old(self).num_pages < usize::MAX,
        ensures
            final(self).wf(),
            0 < r.0 < final(self).slots().len(),
            old(self).free_ids().len() == 0 ==> r.0 == old(self).num_pages && final(self).slots()
                == old(self).slots().push(Slot::Empty) && final(self).num_pages == old(self).num_pages
                + 1,
            old(self).free_ids().len() > 0 ==> r == old(self).free_ids().last() && final(self).num_pages
                == old(self).num_pages && final(self).free_ids() == old(self).free_ids().drop_last(),
            r.0 < old(self).slots().len() ==> old(self).slots()[r.0 as int] is Free,
            final(self).slots().len() >= old(self).slots().len(),
            forall|i: int|
                0 <= i < old(self).slots().len() && !(old(self).slots()[i] is Free) ==> final(self).slots()[i]
                    == old(self).slots()[i],
            forall|i: int| 0 <= i < final(self).free_ids().len() ==> #[trigger] final(self).free_ids()[i].0 != r.0,
            forall|i: int| 0 <= i < old(self).slots().len() && final(self).slots()[i] is Free ==> old(self).slots()[i] is Free,
            final(self).free_ids().len() == 0 || final(self).free_ids().len() < old(self).free_ids().len(),
            old(self).free_ids().len() == 0 ==> final(self).free_ids().len() == 0,
            nodes_kept(old(self).slots(), final(self).slots()),
    {
        if self.free_list.len() == 0 {
            let id = PageId(self.num_pages);
            self.num_pages = self.num_pages + 1;
            self.slots.push(Slot::Empty);
            self.dirty.push(false);
            proof {
                assert forall|i: int| 0 <= i < self.free_list@.len() implies is_free_slot(self.slots@, #[trigger] self.free_list@[i].0 as int) by {
                    assert(is_free_slot(old(self).slots@, self.free_list@[i].0 as int));
                }
            }
            id
        } else {
            let return_id = self.free_list.pop().unwrap();
            proof {
                assert(is_free_slot(old(self).slots@, return_id.0 as int));
            }
            if self.free_list.len() > 0 {
                let tail_id = self.free_list[self.free_list.len() - 1];
                proof {
                    assert(is_free_slot(old(self).slots@, tail_id.0 as int));
                }
                let tail = PageHeader {
                    page_type: PageType::Index,
                    page_id: tail_id,
                    next_free: None,
                    next_over: None,
                };
                self.slots.set(tail_id.0, Slot::Free(tail));
                self.dirty.set(tail_id.0, true);
            }
            proof {
                assert forall|i: int| 0 <= i < self.free_list@.len() implies is_free_slot(self.slots@, #[trigger] self.free_list@[i].0 as int) by {
                    assert(self.free_list@[i] == old(self).free_list@[i]);
                    assert(is_free_slot(old(self).slots@, self.free_list@[i].0 as int));
                }
                assert forall|i: int, j: int| 0 <= i < j < self.free_list@.len() implies #[trigger] self.free_list@[i].0 != #[trigger] self.free_list@[j].0 by {
                    assert(self.free_list@[i] == old(self).free_list@[i]);
                    assert(self.free_list@[j] == old(self).free_list@[j]);
                }
            }
            return_id
        }
    }

    /// Puts page `id` on the free list: it becomes the new end of the list, and
    /// the old end now links to it.
    pub fn free(&mut self, id: PageId)
        requires
            old(self).wf(),
            0 < id.0 < old(self).slots().len(),
            !(old(self).slots()[id.0 as int] is Free),
        ensures
            final(self).wf(),
            final(self).num_pages == old(self).num_pages,
            final(self).slots().len() == old(self).slots().len(),
            final(self).free_ids() == old(self).free_ids().push(id),
            final(self).slots()[id.0 as int] is Free,
            forall|i: int|
                0 <= i < old(self).slots().len() && i != id.0 && !(old(self).slots()[i] is Free) ==> final(self).slots()[i]
                    == old(self).slots()[i],
            nodes_kept(old(self).slots(), final(self).slots()),
    {
        if self.free_list.len() > 0 {
            let prev_id = self.free_list[self.free_list.len() - 1];
            proof {
                assert(is_free_slot(old(self).slots@, prev_id.0 as int));
            }
            let new_header = PageHeader {
                page_type: PageType::Index,
                page_id: prev_id,
                next_free: Some(id),
                next_over: None,
            };
            self.slots.set(prev_id.0, Slot::Free(new_header));
            self.dirty.set(prev_id.0, true);
        }
        let new_tail = PageHeader {
            page_type: PageType::Index,
            page_id: id,
            next_free: None,
            next_over: None,
        };
        self.slots.set(id.0, Slot::Free(new_tail));
        self.dirty.set(id.0, true);
        self.free_list.push(id);
        proof {
            assert forall|i: int| 0 <= i < self.free_list@.len() implies is_free_slot(self.slots@, #[trigger] self.free_list@[i].0 as int) by {
                if i < old(self).free_list@.len() {
                    assert(self.free_list@[i] == old(self).free_list@[i]);
                    assert(is_free_slot(old(self).slots@, self.free_list@[i].0 as int));
                }
            }
            assert forall|i: int, j: int| 0 <= i < j < self.free_list@.len() implies #[trigger] self.free_list@[i].0 != #[trigger] self.free_list@[j].0 by {
                assert(self.free_list@[i] == old(self).free_list@[i]);
                if j < old(self).free_list@.len() {
                    assert(self.free_list@[j] == old(self).free_list@[j]);
                } else {
                    assert(is_free_slot(old(self).slots@, self.free_list@[i].0 as int));
                }
            }
        }
    }
}


/// Freeing a page and then allocating one hands that page back and leaves
/// the free list as it was: `allocate` undoes `free`.
pub proof fn lemma_allocate_after_free(before: Pager, freed: Pager, after: Pager, id: PageId, r: PageId)
    requires
        freed.free_ids() == before.free_ids().push(id),
        freed.free_ids().len() > 0 ==> r == freed.free_ids().last() && after.free_ids() == freed.free_ids().drop_last(),
    ensures
        r == id,
        after.free_ids() == before.free_ids(),
{
    assert(freed.free_ids().drop_last() =~= before.free_ids());
}

/// The header of a fresh data page.
pub open spec fn data_header(id: PageId) -> PageHeader {
    PageHeader { page_type: PageType::Data, page_id: id, next_free: None, next_over: None }
}

impl DataPage {
    /// Allocates a page and writes `val` to it as a data page.
    pub fn new(pager: &mut Pager, val: Value) -> (r: PageId)
        requires
            old(pager).wf(),
            old(pager).num_pages < usize::MAX,
        ensures
            final(pager).wf(),
            0 < r.0 < final(pager).slots().len(),
            final(pager).slots()[r.0 as int] == Slot::Data(DataPage { header: data_header(r), value: val }),
            r.0 < old(pager).slots().len() ==> old(pager).slots()[r.0 as int] is Free,
            final(pager).slots().len() >= old(pager).slots().len(),
            final(pager).num_pages <= old(pager).num_pages + 1,
            forall|i: int|
                0 <= i < old(pager).slots().len() && !(old(pager).slots()[i] is Free) ==> #[trigger] final(pager).slots()[i]
                    == old(pager).slots()[i],
            forall|i: int| 0 <= i < old(pager).slots().len() && #[trigger] final(pager).slots()[i] is Free ==> old(pager).slots()[i] is Free,
            nodes_kept(old(pager).slots(), final(pager).slots()),
    {
        let id = pager.allocate();
        let page = DataPage {
            header: PageHeader { page_type: PageType::Data, page_id: id, next_free: None, next_over: None },
            value: val,
        };
        let ghost mid = pager.slots();
        pager.put_slot(id, Slot::Data(page));
        proof {
            assert forall|q: int| #[trigger] is_index_slot(pager.slots(), q) implies is_index_slot(old(pager).slots(), q)
                && pager.slots()[q] == old(pager).slots()[q] by {
                assert(q != id.0);
                assert(is_index_slot(mid, q));
            }
        }
        id
    }

    /// The page's number.
    pub fn page_id(&self) -> (r: PageId)
        ensures
            r == self.header.page_id,
    {
        self.header.page_id
    }
}

} // verus!

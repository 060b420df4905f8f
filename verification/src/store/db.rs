//! The key-value store that the server runs on: a B+ tree over the pager,
//! with the rules on keys that the server enforces, and the database header
//! that opens and closes its file.

use vstd::prelude::*;
use vstd::string::StringSliceAdditionalSpecFns;
use crate::errors::{UserErr, StoreErr};
use crate::store::value::{Value, ValueV};
use crate::store::bptree::BpTree;
use crate::store::pager::{Pager, PageId, DbHeader, MAGIC, PAGE_SIZE, is_index_slot};
use crate::tcp::translation::{decimal, number_text};
use vstd::string::StringExecFns;

verus! {

/// Order of the tree of a new database.
pub const DEFAULT_ORDER: usize = 150;

/// Longest key, in bytes, that the store takes.
pub const MAX_KEY_LEN: usize = 8;

/// Version of the server's file format, packed as `major.minor.patch`.
pub const SERVER_VERSION: u32 = (0u32 << 24) | (0u32 << 16) | (1u32 << 8);

/// What a check of the tree found wrong.
#[derive(Debug, PartialEq)]
pub enum TreeErr {
    Empty,
    RootTooFewChildren,
    LeafKeysBadSeq,
    BranchInLeafSeq,
    NodeKeySeqErr(PageId),
    KeyChildDesync(PageId),
    KeyCountErr(PageId),
    KeyValueDesync(PageId),
    LeafBadDepth(PageId),
    KeyOOB(PageId),
}

/// The message that tells of a tree error.
pub open spec fn tree_err_text(e: TreeErr) -> Seq<char> {
    match e {
        TreeErr::Empty => "Tree is empy"@,
        TreeErr::RootTooFewChildren => "Less than 2 children in root node"@,
        TreeErr::LeafKeysBadSeq => "Leaf node keys not sorted"@,
        TreeErr::BranchInLeafSeq => "Branch node found at leaf level"@,
        TreeErr::NodeKeySeqErr(id) => "Page "@ + decimal(id.0 as nat) + " has unsorted keys"@,
        TreeErr::KeyChildDesync(id) => "Branch "@ + decimal(id.0 as nat) + " has wrong number of keys or children"@,
        TreeErr::KeyCountErr(id) => "Node "@ + decimal(id.0 as nat) + " is outside min or max number of keys for order"@,
        TreeErr::KeyValueDesync(id) => "Leaf "@ + decimal(id.0 as nat) + " has an unequal number of keys and values"@,
        TreeErr::LeafBadDepth(id) => "Leaf "@ + decimal(id.0 as nat) + " is not at leaf node depth"@,
        TreeErr::KeyOOB(id) => "Node "@ + decimal(id.0 as nat) + " has keys out of bounds defined by parent"@,
    }
}

fn framed(before: &str, id: PageId, after: &str) -> (r: String)
    requires
        id.0 <= u64::MAX,
    ensures
        r@ == before@ + decimal(id.0 as nat) + after@,
{
    let mut s = String::from_str(before);
    let n = number_text(id.0 as u64);
    s.append(n.as_str());
    s.append(after);
    s
}

impl TreeErr {
    /// The message that tells of the error, naming the page where there is
    /// one.
    pub fn message(&self) -> (r: String)
        ensures
            r@ == tree_err_text(*self),
    {
        match self {
            TreeErr::Empty => String::from_str("Tree is empy"),
            TreeErr::RootTooFewChildren => String::from_str("Less than 2 children in root node"),
            TreeErr::LeafKeysBadSeq => String::from_str("Leaf node keys not sorted"),
            TreeErr::BranchInLeafSeq => String::from_str("Branch node found at leaf level"),
            TreeErr::NodeKeySeqErr(id) => framed("Page ", *id, " has unsorted keys"),
            TreeErr::KeyChildDesync(id) => framed("Branch ", *id, " has wrong number of keys or children"),
            TreeErr::KeyCountErr(id) => framed("Node ", *id, " is outside min or max number of keys for order"),
            TreeErr::KeyValueDesync(id) => framed("Leaf ", *id, " has an unequal number of keys and values"),
            TreeErr::LeafBadDepth(id) => framed("Leaf ", *id, " is not at leaf node depth"),
            TreeErr::KeyOOB(id) => framed("Node ", *id, " has keys out of bounds defined by parent"),
        }
    }
}

/// The header that a new database file starts with: no root, the default
/// order, and only the header page.
pub fn new_header() -> (r: DbHeader)
    ensures
        r.magic == MAGIC,
        r.version == SERVER_VERSION,
        r.page_size == PAGE_SIZE,
        r.root_page is None,
        r.order == DEFAULT_ORDER,
        r.num_pages == 1,
        r.free_list_head is None,
{
    DbHeader {
        magic: MAGIC,
        version: SERVER_VERSION,
        page_size: PAGE_SIZE,
        root_page: None,
        order: DEFAULT_ORDER,
        num_pages: 1,
        free_list_head: None,
    }
}

/// Accepts a header read from a file only if it opens with the magic bytes.
pub fn check_header(header: &DbHeader) -> (r: Result<(), StoreErr>)
    ensures
        header.magic@ == MAGIC@ ==> r is Ok,
        header.magic@ != MAGIC@ ==> r matches Err(StoreErr::BadFile),
{
    let mut i: usize = 0;
    while i < 8
        invariant
            i <= 8,
            forall|j: int| 0 <= j < i ==> header.magic@[j] == MAGIC@[j],
        decreases 8 - i,
    {
        if header.magic[i] != MAGIC[i] {
            return Err(StoreErr::BadFile);
        }
        i = i + 1;
    }
    assert(header.magic@ =~= MAGIC@);
    Ok(())
}

/// The store: the tree and the pages it lives in.
pub struct Store {
    pub datamap: BpTree,
    pub pager: Pager,
}

impl Store {
    /// The tree is well formed in the store's pages.
    pub open spec fn wf(&self) -> bool {
        self.datamap.wf(&self.pager)
    }

    /// What the store maps the key `k` to.
    pub open spec fn value_of(&self, k: Seq<u8>) -> Option<ValueV> {
        self.datamap.value_of(&self.pager, k)
    }

    /// A store over an opened pager, with the root and order its header
    /// names.
    pub fn start(pager: Pager, root: Option<PageId>, order: usize) -> (r: Store)
        ensures
            r.pager == pager,
            r.datamap.root == root,
            r.datamap.order == order,
            pager.wf() && root is None && order >= 2 ==> r.wf(),
            root is None && (forall|q: int| !#[trigger] is_index_slot(pager.slots@, q)) ==> r.datamap.balanced(&r.pager),
    {
        Store { datamap: BpTree::new(root, order), pager }
    }

    /// The value stored under `key`: `NoRoot` for an empty store, `NoValue`
    /// when the key is absent.
    pub fn get(&self, key: &str) -> (r: Result<Value, UserErr>)
        requires
            self.wf(),
        ensures
            self.datamap.root is None ==> r matches Err(UserErr::NoRoot),
            self.datamap.root is Some ==> match self.value_of(key.spec_bytes()) {
                Some(v) => r matches Ok(x) && x@ == v,
                None => r matches Err(UserErr::NoValue),
            },
    {
        match self.datamap.get(key, &self.pager) {
            Err(UserErr::NoRID(_)) => Err(UserErr::NoValue),
            other => other,
        }
    }

    /// Stores `val` under `key` and returns the value the key had, or `val`
    /// itself for a new key. A key longer than `MAX_KEY_LEN` bytes is
    /// refused with `LongKey`, and the store is left as it was.
    pub fn put(&mut self, key: &str, val: Value) -> (r: Result<Value, UserErr>)
        requires
            old(self).wf(),
            old(self).pager.num_pages + old(self).datamap.height@ + 4 <= usize::MAX,
        ensures
            final(self).wf(),
            key.len() > MAX_KEY_LEN ==> (r matches Err(UserErr::LongKey)) && *final(self) == *old(self),
            key.len() <= MAX_KEY_LEN ==> {
                &&& final(self).value_of(key.spec_bytes()) == Some(val@)
                &&& forall|k: Seq<u8>| k != key.spec_bytes() ==> #[trigger] final(self).value_of(k) == old(self).value_of(k)
                &&& match old(self).value_of(key.spec_bytes()) {
                    Some(v) => r matches Ok(x) && x@ == v,
                    None => r matches Ok(x) && x@ == val@,
                }
                &&& old(self).datamap.balanced(&old(self).pager) && (old(self).datamap.order % 2 == 1 || old(self).datamap.height@ == 0)
                    ==> final(self).datamap.balanced(&final(self).pager)
            },
    {
        if key.len() > MAX_KEY_LEN {
            return Err(UserErr::LongKey);
        }
        let if_new = val.copy();
        match self.datamap.insert(key, val, &mut self.pager) {
            Ok(Some(x)) => Ok(x),
            Ok(None) => Ok(if_new),
            Err(e) => Err(e),
        }
    }

    /// Removes `key` and returns its value: `NoRoot` for an empty store,
    /// `NoValue` when the key is absent.
    pub fn del(&mut self, key: &str) -> (r: Result<Value, UserErr>)
        requires
            old(self).wf(),
        ensures
            final(self).wf(),
            old(self).datamap.root is None ==> r matches Err(UserErr::NoRoot),
            old(self).datamap.root is Some ==> match old(self).value_of(key.spec_bytes()) {
                Some(v) => r matches Ok(x) && x@ == v,
                None => r matches Err(UserErr::NoValue),
            },
            final(self).value_of(key.spec_bytes()) is None,
            forall|k: Seq<u8>| k != key.spec_bytes() ==> #[trigger] final(self).value_of(k) == old(self).value_of(k),
            old(self).datamap.balanced(&old(self).pager) && (old(self).datamap.order % 2 == 1 || old(self).datamap.height@ <= 1)
                ==> final(self).datamap.balanced(&final(self).pager),
    {
        match self.datamap.remove(key, &mut self.pager) {
            Err(UserErr::NoRID(_)) => Err(UserErr::NoValue),
            other => other,
        }
    }

    /// The header to write when the store closes: the tree's root and order,
    /// the page count, and the oldest free page as the free list's head.
    pub fn exit(&self) -> (r: DbHeader)
        ensures
            r.magic == MAGIC,
            r.version == SERVER_VERSION,
            r.page_size == PAGE_SIZE,
            r.root_page == self.datamap.root,
            r.order == self.datamap.order,
            r.num_pages == self.pager.num_pages,
            r.free_list_head == (if self.pager.free_list@.len() == 0 { None } else { Some(self.pager.free_list@[0]) }),
    {
        let head = if self.pager.free_list.len() == 0 { None } else { Some(self.pager.free_list[0]) };
        DbHeader {
            magic: MAGIC,
            version: SERVER_VERSION,
            page_size: PAGE_SIZE,
            root_page: self.datamap.root,
            order: self.datamap.order,
            num_pages: self.pager.num_pages,
            free_list_head: head,
        }
    }
}

/// A store that holds a value for a key has a root, so a read of that key
/// (`get`) answers with that value: what `put` stored is what `get` gives
/// back, and what `del` removed it answers `NoValue` for.
pub proof fn lemma_read_your_write(s: Store, key: Seq<u8>)
    requires
        s.wf(),
        s.value_of(key) is Some,
    ensures
        s.datamap.root is Some,
{
}

} // verus!

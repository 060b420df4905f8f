//! A check of the tree as the server's tests and console use it: the root
//! has enough children, the keys along the chain of leaves increase, and
//! every node has its keys in order and between the separators above it,
//! as many keys as the order allows, the shape of its kind and its leaves
//! at one depth. The check takes any tree whose pages it can walk and tells
//! what it finds.

use vstd::prelude::*;
use crate::store::keys::{key_lt, lemma_key_order, compare_keys, KeyCmp};
use crate::store::pager::{Slot, PageId, NodeType, Pager, node, is_index_slot};
use crate::store::bptree::{BpTree, keys_capped, keys_floor, root_exempt, node_ok, above_lo, below_hi, node_keys, kids, datas, clo, chi, child_lo, child_hi, wf_node, lemma_wf_branch, lemma_wf_kids};
use crate::store::db::{Store, TreeErr};

verus! {

broadcast use vstd::seq::group_seq_axioms;

/// How a walk along the chain of leaves ends.
pub enum ChainEnd {
    /// The last leaf was reached with the keys in increasing order.
    Done,
    /// A key was not above the one before it.
    BadSeq,
    /// The chain led to a branch.
    BranchIn,
}

/// Keys `i` and `i + 1` of `ks` increase.
pub open spec fn step_ok(ks: Seq<Seq<u8>>, i: int) -> bool {
    key_lt(ks[i], ks[i + 1])
}

/// Each key of `ks` is below the next.
pub open spec fn steps_ok(ks: Seq<Seq<u8>>) -> bool {
    forall|i: int| 0 <= i < ks.len() - 1 ==> #[trigger] step_ok(ks, i)
}

/// The keys `ks` increase, starting above `prev` where there is one.
pub open spec fn keys_increase(prev: Option<Seq<u8>>, ks: Seq<Seq<u8>>) -> bool {
    &&& (prev matches Some(p) ==> (ks.len() > 0 ==> key_lt(p, ks[0])))
    &&& steps_ok(ks)
}

/// The last key seen after the keys `ks`.
pub open spec fn last_key(prev: Option<Seq<u8>>, ks: Seq<Seq<u8>>) -> Option<Seq<u8>> {
    if ks.len() > 0 { Some(ks.last()) } else { prev }
}

/// A bound given as bytes, as a sequence.
pub open spec fn bound(b: Option<&[u8]>) -> Option<Seq<u8>> {
    match b {
        Some(m) => Some(m@),
        None => None,
    }
}

/// Key `k` lies within the bounds a parent sets: a leaf's keys from `lo`
/// on and below `hi`, a branch's keys above `lo` and up to `hi`.
pub open spec fn key_within(k: Seq<u8>, lo: Option<Seq<u8>>, hi: Option<Seq<u8>>, leaf: bool) -> bool {
    &&& (lo matches Some(l) ==> if leaf { !key_lt(k, l) } else { key_lt(l, k) })
    &&& (hi matches Some(m) ==> if leaf { key_lt(k, m) } else { !key_lt(m, k) })
}

/// Every key of `ks` lies within the bounds.
pub open spec fn keys_within(ks: Seq<Seq<u8>>, lo: Option<Seq<u8>>, hi: Option<Seq<u8>>, leaf: bool) -> bool {
    forall|i: int| 0 <= i < ks.len() ==> #[trigger] key_within(ks[i], lo, hi, leaf)
}

/// Every page reached from `id` is a node, every branch among them has a
/// child, and no branch lies `h` levels or more below `id`: the pages
/// that a walk down the tree reads are there, and the walk ends.
pub open spec fn reach_ok(s: Seq<Slot>, id: int, h: nat) -> bool
    decreases h,
{
    &&& is_index_slot(s, id)
    &&& (node(s, id).node_type is Branch ==> {
        &&& h > 0
        &&& kids(node(s, id)).len() > 0
        &&& forall|j: int| 0 <= j < kids(node(s, id)).len() ==> reach_ok(s, #[trigger] kids(node(s, id))[j].0 as int, (h - 1) as nat)
    })
}

/// The leaf reached from `id` by taking the first child, within `h` levels.
pub open spec fn leftmost_leaf(s: Seq<Slot>, id: int, h: nat) -> int
    decreases h,
{
    if h == 0 || node(s, id).node_type is Leaf {
        id
    } else {
        leftmost_leaf(s, kids(node(s, id))[0].0 as int, (h - 1) as nat)
    }
}

/// How many first children lead from `id` to a leaf, within `h` levels.
pub open spec fn leftmost_depth(s: Seq<Slot>, id: int, h: nat) -> nat
    decreases h,
{
    if h == 0 || node(s, id).node_type is Leaf {
        0
    } else {
        1 + leftmost_depth(s, kids(node(s, id))[0].0 as int, (h - 1) as nat)
    }
}

/// Walks the chain of leaves from page `cur` for at most `fuel` pages,
/// with `prev` the last key seen; none where the walk does not end within
/// the fuel or meets a page that is no node.
pub open spec fn chain(s: Seq<Slot>, cur: int, prev: Option<Seq<u8>>, fuel: nat) -> Option<ChainEnd>
    decreases fuel,
{
    if fuel == 0 || !is_index_slot(s, cur) {
        None
    } else {
        match node(s, cur).node_type {
            NodeType::Branch { .. } => Some(ChainEnd::BranchIn),
            NodeType::Leaf { next, .. } => {
                let ks = node_keys(node(s, cur));
                if !keys_increase(prev, ks) {
                    Some(ChainEnd::BadSeq)
                } else {
                    match next {
                        None => Some(ChainEnd::Done),
                        Some(x) => chain(s, x.0 as int, last_key(prev, ks), (fuel - 1) as nat),
                    }
                }
            },
        }
    }
}

/// The chain of leaves from `start`, walked from its start, ends.
pub open spec fn chain_ends(s: Seq<Slot>, start: int) -> bool {
    exists|f: nat| #[trigger] chain(s, start, None, f) is Some
}

/// How the walk along the chain of leaves from `start` ends.
pub open spec fn chain_end(s: Seq<Slot>, start: int) -> ChainEnd {
    chain(s, start, None, choose|f: nat| #[trigger] chain(s, start, None, f) is Some)->0
}

/// What the check of node `id` finds, `depth` levels below the root with
/// the leaves expected at `leaf_depth`, its keys bounded by `lo` and `hi`:
/// keys out of order, keys out of bounds, a node other than the root with
/// fewer keys than half the order or more than one less than it, a branch
/// without one child more than keys, a leaf at another depth, a leaf
/// without one value per key, and else the first thing found under the
/// children in their order.
pub open spec fn check_node(s: Seq<Slot>, root: PageId, order: int, id: PageId, depth: int, leaf_depth: int,
    lo: Option<Seq<u8>>, hi: Option<Seq<u8>>, h: nat) -> Option<TreeErr>
    decreases h, kids(node(s, id.0 as int)).len() + 1,
{
    let p = node(s, id.0 as int);
    let ks = node_keys(p);
    let n = ks.len();
    let leaf = p.node_type is Leaf;
    if !steps_ok(ks) {
        Some(TreeErr::NodeKeySeqErr(id))
    } else if !keys_within(ks, lo, hi, leaf) {
        Some(TreeErr::KeyOOB(id))
    } else if id != root && (n < order / 2 || n > order - 1) {
        Some(TreeErr::KeyCountErr(id))
    } else if !leaf {
        if kids(p).len() != n + 1 {
            Some(TreeErr::KeyChildDesync(id))
        } else {
            check_kids(s, root, order, id, depth, leaf_depth, lo, hi, h, 0)
        }
    } else if depth != leaf_depth {
        Some(TreeErr::LeafBadDepth(id))
    } else if datas(p).len() != n {
        Some(TreeErr::KeyValueDesync(id))
    } else {
        None
    }
}

/// The first thing the check finds under the children of branch `id` from
/// child `j` on.
pub open spec fn check_kids(s: Seq<Slot>, root: PageId, order: int, id: PageId, depth: int, leaf_depth: int,
    lo: Option<Seq<u8>>, hi: Option<Seq<u8>>, h: nat, j: int) -> Option<TreeErr>
    decreases h, kids(node(s, id.0 as int)).len() - j,
{
    let p = node(s, id.0 as int);
    if h == 0 || j < 0 || j >= kids(p).len() {
        None
    } else {
        match check_node(s, root, order, kids(p)[j], depth + 1, leaf_depth,
            clo(node_keys(p), j, lo), chi(node_keys(p), j, hi), (h - 1) as nat) {
            Some(e) => Some(e),
            None => check_kids(s, root, order, id, depth, leaf_depth, lo, hi, h, j + 1),
        }
    }
}

/// The tree from `r` can be walked down within `h` levels, no more than a
/// machine word counts, and the chain of leaves from its leftmost leaf ends.
pub open spec fn walkable(s: Seq<Slot>, r: PageId, h: nat) -> bool {
    &&& h <= usize::MAX
    &&& reach_ok(s, r.0 as int, h)
    &&& chain_ends(s, leftmost_leaf(s, r.0 as int, h))
}

/// A number of levels within which the tree from `r` can be walked.
pub open spec fn walk_levels(s: Seq<Slot>, r: PageId) -> nat {
    choose|h: nat| walkable(s, r, h)
}

/// What the check finds for a tree with root `root` and the given order.
pub open spec fn check_result(s: Seq<Slot>, root: Option<PageId>, order: int) -> Option<TreeErr> {
    match root {
        None => Some(TreeErr::Empty),
        Some(r) => {
            let p = node(s, r.0 as int);
            let h = walk_levels(s, r);
            if p.node_type is Branch && kids(p).len() < 2 {
                Some(TreeErr::RootTooFewChildren)
            } else {
                match chain_end(s, leftmost_leaf(s, r.0 as int, h)) {
                    ChainEnd::BadSeq => Some(TreeErr::LeafKeysBadSeq),
                    ChainEnd::BranchIn => Some(TreeErr::BranchInLeafSeq),
                    ChainEnd::Done => check_node(s, r, order, r, 0, leftmost_depth(s, r.0 as int, h) as int, None, None, h),
                }
            }
        }
    }
}

/// A well-formed subtree of height `h` can be walked down within `h` levels.
pub proof fn lemma_wf_reach(s: Seq<Slot>, id: int, h: nat, lo: Option<Seq<u8>>, hi: Option<Seq<u8>>)
    requires
        wf_node(s, id, h, lo, hi),
    ensures
        reach_ok(s, id, h),
    decreases h,
{
    if h > 0 {
        lemma_wf_branch(s, id, h, lo, hi);
        lemma_wf_kids(s, id, h, lo, hi, 0);
        let p = node(s, id);
        assert forall|j: int| 0 <= j < kids(p).len() implies reach_ok(s, #[trigger] kids(p)[j].0 as int, (h - 1) as nat) by {
            assert(wf_node(s, kids(p)[j].0 as int, (h - 1) as nat, child_lo(p, j, lo), child_hi(p, j, hi)));
            lemma_wf_reach(s, kids(p)[j].0 as int, (h - 1) as nat, child_lo(p, j, lo), child_hi(p, j, hi));
        }
    }
}

/// The check found nothing, or only a node with too few or too many keys.
pub open spec fn fill_only(r: Option<TreeErr>) -> bool {
    r is None || r matches Some(TreeErr::KeyCountErr(_))
}

/// The keys of a well-formed node pass the checks of order and bounds.
proof fn lemma_wf_keys_pass(s: Seq<Slot>, id: int, h: nat, lo: Option<Seq<u8>>, hi: Option<Seq<u8>>)
    requires
        node_ok(s, id, h, lo, hi),
    ensures
        steps_ok(node_keys(node(s, id))),
        keys_within(node_keys(node(s, id)), lo, hi, node(s, id).node_type is Leaf),
{
    let ks = node_keys(node(s, id));
    assert forall|i: int| 0 <= i < ks.len() - 1 implies #[trigger] step_ok(ks, i) by {
        assert(key_lt(ks[i], ks[i + 1]));
    }
    let leaf = node(s, id).node_type is Leaf;
    assert forall|i: int| 0 <= i < ks.len() implies #[trigger] key_within(ks[i], lo, hi, leaf) by {
        assert(above_lo(ks[i], lo) && below_hi(ks[i], hi));
        if let Some(m) = hi {
            lemma_key_order(ks[i], m, m);
        }
        if !leaf {
            if let Some(l) = lo {
                assert(h > 0);
                assert(key_lt(l, ks[0]));
                if i > 0 {
                    assert(key_lt(ks[0], ks[i]));
                    lemma_key_order(l, ks[0], ks[i]);
                }
            }
        }
    }
}

/// On a well-formed subtree whose leaves lie `h` levels down, where the
/// check expects them, the check finds nothing but a node with too few or
/// too many keys.
pub proof fn lemma_wf_node_checks(s: Seq<Slot>, root: PageId, order: int, id: PageId, depth: int, leaf_depth: int,
    lo: Option<Seq<u8>>, hi: Option<Seq<u8>>, h: nat)
    requires
        wf_node(s, id.0 as int, h, lo, hi),
        depth + h == leaf_depth,
    ensures
        fill_only(check_node(s, root, order, id, depth, leaf_depth, lo, hi, h)),
        keys_capped(s, order) && keys_floor(s, order, set![root.0 as int])
            ==> check_node(s, root, order, id, depth, leaf_depth, lo, hi, h) is None,
    decreases h, kids(node(s, id.0 as int)).len() + 1,
{
    lemma_wf_keys_pass(s, id.0 as int, h, lo, hi);
    assert(is_index_slot(s, id.0 as int));
    assert(node_keys(node(s, id.0 as int)).len() == node(s, id.0 as int).keys@.len());
    if h > 0 {
        lemma_wf_kids_check(s, root, order, id, depth, leaf_depth, lo, hi, h, 0);
    }
}

/// The children of a well-formed branch from child `j` on pass the check
/// but for nodes with too few or too many keys.
pub proof fn lemma_wf_kids_check(s: Seq<Slot>, root: PageId, order: int, id: PageId, depth: int, leaf_depth: int,
    lo: Option<Seq<u8>>, hi: Option<Seq<u8>>, h: nat, j: int)
    requires
        h > 0,
        wf_node(s, id.0 as int, h, lo, hi),
        depth + h == leaf_depth,
        0 <= j,
    ensures
        fill_only(check_kids(s, root, order, id, depth, leaf_depth, lo, hi, h, j)),
        keys_capped(s, order) && keys_floor(s, order, set![root.0 as int])
            ==> check_kids(s, root, order, id, depth, leaf_depth, lo, hi, h, j) is None,
    decreases h, kids(node(s, id.0 as int)).len() - j,
{
    let p = node(s, id.0 as int);
    if j < kids(p).len() {
        lemma_wf_branch(s, id.0 as int, h, lo, hi);
        assert(wf_node(s, kids(p)[j].0 as int, (h - 1) as nat, child_lo(p, j, lo), child_hi(p, j, hi)));
        lemma_wf_node_checks(s, root, order, kids(p)[j], depth + 1, leaf_depth,
            clo(node_keys(p), j, lo), chi(node_keys(p), j, hi), (h - 1) as nat);
        lemma_wf_kids_check(s, root, order, id, depth, leaf_depth, lo, hi, h, j + 1);
    }
}

/// The check of a subtree that can be walked within `h1` levels is the
/// same with more levels to spare.
proof fn lemma_check_node_fuel(s: Seq<Slot>, root: PageId, order: int, id: PageId, depth: int, leaf_depth: int,
    lo: Option<Seq<u8>>, hi: Option<Seq<u8>>, h1: nat, h2: nat)
    requires
        reach_ok(s, id.0 as int, h1),
        h1 <= h2,
    ensures
        check_node(s, root, order, id, depth, leaf_depth, lo, hi, h1) == check_node(s, root, order, id, depth, leaf_depth, lo, hi, h2),
    decreases h1, kids(node(s, id.0 as int)).len() + 1,
{
    if node(s, id.0 as int).node_type is Branch {
        lemma_check_kids_fuel(s, root, order, id, depth, leaf_depth, lo, hi, h1, h2, 0);
    }
}

proof fn lemma_check_kids_fuel(s: Seq<Slot>, root: PageId, order: int, id: PageId, depth: int, leaf_depth: int,
    lo: Option<Seq<u8>>, hi: Option<Seq<u8>>, h1: nat, h2: nat, j: int)
    requires
        node(s, id.0 as int).node_type is Branch,
        reach_ok(s, id.0 as int, h1),
        h1 <= h2,
        0 <= j,
    ensures
        check_kids(s, root, order, id, depth, leaf_depth, lo, hi, h1, j) == check_kids(s, root, order, id, depth, leaf_depth, lo, hi, h2, j),
    decreases h1, kids(node(s, id.0 as int)).len() - j,
{
    let p = node(s, id.0 as int);
    if j < kids(p).len() {
        assert(reach_ok(s, kids(p)[j].0 as int, (h1 - 1) as nat));
        lemma_check_node_fuel(s, root, order, kids(p)[j], depth + 1, leaf_depth,
            clo(node_keys(p), j, lo), chi(node_keys(p), j, hi), (h1 - 1) as nat, (h2 - 1) as nat);
        lemma_check_kids_fuel(s, root, order, id, depth, leaf_depth, lo, hi, h1, h2, j + 1);
    }
}

/// The leftmost leaf and its depth do not depend on how many levels spare
/// the walk has.
proof fn lemma_leftmost_fuel(s: Seq<Slot>, id: int, h1: nat, h2: nat)
    requires
        reach_ok(s, id, h1),
        h1 <= h2,
    ensures
        leftmost_leaf(s, id, h1) == leftmost_leaf(s, id, h2),
        leftmost_depth(s, id, h1) == leftmost_depth(s, id, h2),
    decreases h1,
{
    if node(s, id).node_type is Branch {
        let c = kids(node(s, id))[0].0 as int;
        assert(reach_ok(s, c, (h1 - 1) as nat));
        lemma_leftmost_fuel(s, c, (h1 - 1) as nat, (h2 - 1) as nat);
    }
}

/// In a well-formed subtree of height `h` the leftmost leaf lies `h` levels down.
proof fn lemma_wf_leftmost_depth(s: Seq<Slot>, id: int, h: nat, lo: Option<Seq<u8>>, hi: Option<Seq<u8>>)
    requires
        wf_node(s, id, h, lo, hi),
    ensures
        leftmost_depth(s, id, h) == h,
    decreases h,
{
    if h > 0 {
        lemma_wf_branch(s, id, h, lo, hi);
        let p = node(s, id);
        assert(wf_node(s, kids(p)[0].0 as int, (h - 1) as nat, child_lo(p, 0, lo), child_hi(p, 0, hi)));
        lemma_wf_leftmost_depth(s, kids(p)[0].0 as int, (h - 1) as nat, child_lo(p, 0, lo), child_hi(p, 0, hi));
    }
}

impl BpTree {
    /// On a well-formed tree whose chain of leaves, walked from the
    /// leftmost leaf, ends with its keys in order, the check finds nothing
    /// but a node with too few or too many keys for the order, or a root
    /// branch with fewer than two children; and nothing at all on a
    /// balanced tree.
    pub proof fn lemma_check_wf_tree(&self, pager: &Pager)
        requires
            self.wf(pager),
            self.checkable(pager),
            self.root matches Some(r) ==> chain_end(pager.slots@, leftmost_leaf(pager.slots@, r.0 as int, self.height@)) == ChainEnd::Done,
        ensures
            self.root is Some ==> fill_only(check_result(pager.slots@, self.root, self.order as int))
                || check_result(pager.slots@, self.root, self.order as int) == Some(TreeErr::RootTooFewChildren),
            self.root is Some && self.balanced(pager) ==> check_result(pager.slots@, self.root, self.order as int) is None,
    {
        let s = pager.slots@;
        if let Some(r) = self.root {
            let h = self.height@;
            let hw = walk_levels(s, r);
            assert(walkable(s, r, hw));
            lemma_wf_reach(s, r.0 as int, h, None, None);
            lemma_wf_leftmost_depth(s, r.0 as int, h, None, None);
            lemma_wf_node_checks(s, r, self.order as int, r, 0, h as int, None, None, h);
            if h <= hw {
                lemma_leftmost_fuel(s, r.0 as int, h, hw);
                lemma_check_node_fuel(s, r, self.order as int, r, 0, h as int, None, None, h, hw);
            } else {
                lemma_leftmost_fuel(s, r.0 as int, hw, h);
                lemma_check_node_fuel(s, r, self.order as int, r, 0, h as int, None, None, hw, h);
            }
        }
    }
}

/// Whether `a` sorts strictly before `b`.
fn less(a: &[u8], b: &[u8]) -> (r: bool)
    ensures
        r == key_lt(a@, b@),
{
    match compare_keys(a, b) {
        KeyCmp::Less => true,
        _ => false,
    }
}

/// Whether each key is below the next.
fn keys_in_order(keys: &Vec<String>) -> (r: bool)
    ensures
        r == steps_ok(keys@.map_values(|k: String| crate::store::bptree::key_bytes(k))),
{
    let ghost ks = keys@.map_values(|k: String| crate::store::bptree::key_bytes(k));
    let n = keys.len();
    if n == 0 {
        return true;
    }
    let mut i: usize = 0;
    while i < n - 1
        invariant
            n == keys@.len(),
            n > 0,
            ks == keys@.map_values(|k: String| crate::store::bptree::key_bytes(k)),
            i <= n - 1,
            forall|k: int| 0 <= k < i ==> #[trigger] step_ok(ks, k),
        decreases n - i,
    {
        let a = keys[i].as_str().as_bytes();
        let b = keys[i + 1].as_str().as_bytes();
        assert(a@ == ks[i as int] && b@ == ks[i + 1]);
        if !less(a, b) {
            assert(!step_ok(ks, i as int));
            return false;
        }
        i = i + 1;
    }
    true
}

/// Whether every key lies within the bounds for a leaf or a branch.
fn keys_in_bounds(keys: &Vec<String>, lo: Option<&[u8]>, hi: Option<&[u8]>, leaf: bool) -> (r: bool)
    ensures
        r == keys_within(keys@.map_values(|k: String| crate::store::bptree::key_bytes(k)), bound(lo), bound(hi), leaf),
{
    let ghost ks = keys@.map_values(|k: String| crate::store::bptree::key_bytes(k));
    let n = keys.len();
    let mut i: usize = 0;
    while i < n
        invariant
            n == keys@.len(),
            ks == keys@.map_values(|k: String| crate::store::bptree::key_bytes(k)),
            i <= n,
            forall|k: int| 0 <= k < i ==> #[trigger] key_within(ks[k], bound(lo), bound(hi), leaf),
        decreases n - i,
    {
        let key = keys[i].as_str().as_bytes();
        assert(key@ == ks[i as int]);
        if let Some(min) = lo {
            let out = if leaf { less(key, min) } else { !less(min, key) };
            if out {
                assert(!key_within(ks[i as int], bound(lo), bound(hi), leaf));
                return false;
            }
        }
        if let Some(max) = hi {
            let out = if leaf { !less(key, max) } else { less(max, key) };
            if out {
                assert(!key_within(ks[i as int], bound(lo), bound(hi), leaf));
                return false;
            }
        }
        i = i + 1;
    }
    true
}

/// The first thing wrong in the subtree at `idx`, `depth` levels below the
/// root, with the leaves expected at `leaf_depth` and the keys bounded by
/// `min_bound` and `max_bound`, as `check_node` tells it.
fn validate_page(tree: &BpTree, pager: &Pager, idx: PageId, depth: usize, leaf_depth: usize,
    min_bound: Option<&[u8]>, max_bound: Option<&[u8]>, Ghost(h): Ghost<nat>) -> (r: Option<TreeErr>)
    requires
        pager.wf(),
        tree.root is Some,
        tree.order >= 1,
        reach_ok(pager.slots@, idx.0 as int, h),
        depth + h <= usize::MAX,
    ensures
        r == check_node(pager.slots@, tree.root.unwrap(), tree.order as int, idx, depth as int, leaf_depth as int,
            bound(min_bound), bound(max_bound), h),
    decreases h,
{
    let ghost s = pager.slots@;
    let ghost lo = bound(min_bound);
    let ghost hi = bound(max_bound);
    let current = pager.index_page(idx).unwrap();
    let ghost p = *current;
    let ghost ks = node_keys(p);
    let leaf = match &current.node_type {
        NodeType::Leaf { .. } => true,
        NodeType::Branch { .. } => false,
    };
    if !keys_in_order(&current.keys) {
        return Some(TreeErr::NodeKeySeqErr(idx));
    }
    if !keys_in_bounds(&current.keys, min_bound, max_bound, leaf) {
        return Some(TreeErr::KeyOOB(idx));
    }
    let n = current.keys.len();
    assert(ks.len() == n);
    let root = tree.root.unwrap();
    if idx.0 != root.0 && (n < tree.order / 2 || n > tree.order - 1) {
        assert(idx != root);
        return Some(TreeErr::KeyCountErr(idx));
    }
    assert(!(idx != root && (n < tree.order / 2 || n > tree.order - 1)));
    match &current.node_type {
        NodeType::Branch { children } => {
            assert(kids(p) == children@);
            if children.len() == 0 || children.len() - 1 != n {
                return Some(TreeErr::KeyChildDesync(idx));
            }
            let nc = children.len();
            let mut i: usize = 0;
            assert(check_node(s, root, tree.order as int, idx, depth as int, leaf_depth as int, lo, hi, h)
                == check_kids(s, root, tree.order as int, idx, depth as int, leaf_depth as int, lo, hi, h, 0));
            while i < nc
                invariant
                    pager.wf(),
                    s == pager.slots@,
                    p == node(s, idx.0 as int),
                    ks == node_keys(p),
                    p.keys@ == current.keys@,
                    children@ == kids(p),
                    nc == children@.len(),
                    n == ks.len(),
                    nc == n + 1,
                    i <= nc,
                    h > 0,
                    tree.root == Some(root),
                    tree.order >= 1,
                    lo == bound(min_bound),
                    hi == bound(max_bound),
                    depth + h <= usize::MAX,
                    forall|j: int| 0 <= j < nc ==> reach_ok(s, #[trigger] kids(p)[j].0 as int, (h - 1) as nat),
                    check_node(s, root, tree.order as int, idx, depth as int, leaf_depth as int, lo, hi, h)
                        == check_kids(s, root, tree.order as int, idx, depth as int, leaf_depth as int, lo, hi, h, i as int),
                decreases nc - i,
            {
                let child = children[i];
                let new_min: Option<&[u8]> = if i > 0 { Some(current.keys[i - 1].as_str().as_bytes()) } else { min_bound };
                let new_max: Option<&[u8]> = if i < n { Some(current.keys[i].as_str().as_bytes()) } else { max_bound };
                assert(bound(new_min) == clo(ks, i as int, lo));
                assert(bound(new_max) == chi(ks, i as int, hi));
                assert(reach_ok(s, kids(p)[i as int].0 as int, (h - 1) as nat));
                let found = validate_page(tree, pager, child, depth + 1, leaf_depth, new_min, new_max, Ghost((h - 1) as nat));
                if found.is_some() {
                    assert(check_kids(s, root, tree.order as int, idx, depth as int, leaf_depth as int, lo, hi, h, i as int) == found);
                    return found;
                }
                i = i + 1;
            }
            None
        },
        NodeType::Leaf { pages, .. } => {
            assert(datas(p) == pages@);
            if depth != leaf_depth {
                return Some(TreeErr::LeafBadDepth(idx));
            }
            if pages.len() != n {
                return Some(TreeErr::KeyValueDesync(idx));
            }
            None
        },
    }
}

impl BpTree {
    /// The tree can be checked: its pages can be walked and its chain of
    /// leaves ends.
    pub open spec fn checkable(&self, pager: &Pager) -> bool {
        &&& pager.wf()
        &&& self.order >= 1
        &&& (self.root matches Some(r) ==> exists|h: nat| walkable(pager.slots@, r, h))
    }

    /// Checks the tree: `Empty` without a root, `RootTooFewChildren` for a
    /// root branch with fewer than two children, `LeafKeysBadSeq` or
    /// `BranchInLeafSeq` where the chain of leaves from the leftmost leaf
    /// has keys out of order or leads to a branch, and else the first
    /// thing wrong with a node, from the root down and each branch's
    /// children in their order.
    pub fn check(&self, pager: &Pager) -> (r: Option<TreeErr>)
        requires
            self.checkable(pager),
        ensures
            r == check_result(pager.slots@, self.root, self.order as int),
    {
        let ghost s = pager.slots@;
        let root = match self.root {
            None => return Some(TreeErr::Empty),
            Some(r) => r,
        };
        let ghost h = walk_levels(s, root);
        assert(walkable(s, root, h));
        let root_page = pager.index_page(root).unwrap();
        if let NodeType::Branch { children } = &root_page.node_type {
            assert(kids(*root_page) == children@);
            if children.len() < 2 {
                return Some(TreeErr::RootTooFewChildren);
            }
        }
        assert(!(node(s, root.0 as int).node_type is Branch && kids(node(s, root.0 as int)).len() < 2));
        let mut leaf_depth: usize = 0;
        let mut current = root;
        let ghost mut hh: nat = h;
        loop
            invariant
                pager.wf(),
                s == pager.slots@,
                reach_ok(s, current.0 as int, hh),
                leftmost_leaf(s, current.0 as int, hh) == leftmost_leaf(s, root.0 as int, h),
                leaf_depth + leftmost_depth(s, current.0 as int, hh) == leftmost_depth(s, root.0 as int, h),
                leaf_depth + hh == h,
                h <= usize::MAX,
            ensures
                leaf_depth == leftmost_depth(s, root.0 as int, h),
                current.0 as int == leftmost_leaf(s, root.0 as int, h),
            decreases hh,
        {
            let page = pager.index_page(current).unwrap();
            match &page.node_type {
                NodeType::Branch { children } => {
                    assert(kids(*page) == children@);
                    assert(reach_ok(s, kids(*page)[0].0 as int, (hh - 1) as nat));
                    proof {
                        hh = (hh - 1) as nat;
                    }
                    leaf_depth = leaf_depth + 1;
                    current = children[0];
                },
                NodeType::Leaf { .. } => {
                    break;
                },
            }
        }
        let ghost start = current.0 as int;
        assert(chain_ends(s, start));
        let ghost f0: nat = choose|f: nat| #[trigger] chain(s, start, None, f) is Some;
        let ghost mut fuel: nat = f0;
        let ghost mut prev_v: Option<Seq<u8>> = None;
        let mut prev: Option<&[u8]> = None;
        loop
            invariant_except_break
                chain(s, current.0 as int, prev_v, fuel) == chain(s, start, None, f0),
                prev_v == bound(prev),
            invariant
                pager.wf(),
                s == pager.slots@,
                chain(s, start, None, f0) is Some,
                self.root == Some(root),
                !(node(s, root.0 as int).node_type is Branch && kids(node(s, root.0 as int)).len() < 2),
                start == leftmost_leaf(s, root.0 as int, h),
                f0 == choose|f: nat| #[trigger] chain(s, start, None, f) is Some,
                h == walk_levels(s, root),
            ensures
                chain(s, start, None, f0) == Some(ChainEnd::Done),
            decreases fuel,
        {
            let page = pager.index_page(current).unwrap();
            let ghost ks = node_keys(*page);
            let ghost pv0 = prev_v;
            match &page.node_type {
                NodeType::Leaf { next, .. } => {
                    let n = page.keys.len();
                    assert(ks.len() == n);
                    let mut i: usize = 0;
                    let mut ok = true;
                    while i < n
                        invariant_except_break
                            pv0 matches Some(p0) ==> (i > 0 ==> key_lt(p0, ks[0])),
                            forall|k: int| 0 <= k < i - 1 ==> #[trigger] step_ok(ks, k),
                            bound(prev) == (if i == 0 { pv0 } else { Some(ks[i - 1]) }),
                            ok,
                        invariant
                            n == ks.len(),
                            ks == node_keys(*page),
                            i <= n,
                        ensures
                            ok ==> keys_increase(pv0, ks) && bound(prev) == last_key(pv0, ks),
                            !ok ==> !keys_increase(pv0, ks),
                        decreases n - i,
                    {
                        let key = page.keys[i].as_str().as_bytes();
                        assert(key@ == ks[i as int]);
                        if let Some(p) = prev {
                            if !less(p, key) {
                                proof {
                                    if i > 0 {
                                        assert(!step_ok(ks, i - 1));
                                    }
                                }
                                ok = false;
                                break;
                            }
                        }
                        prev = Some(key);
                        i = i + 1;
                    }
                    if !ok {
                        return Some(TreeErr::LeafKeysBadSeq);
                    }
                    match next {
                        Some(x) => {
                            current = *x;
                            proof {
                                fuel = (fuel - 1) as nat;
                                prev_v = last_key(pv0, ks);
                            }
                        },
                        None => break,
                    }
                },
                NodeType::Branch { .. } => {
                    return Some(TreeErr::BranchInLeafSeq);
                },
            }
        }
        validate_page(self, pager, root, 0, leaf_depth, None, None, Ghost(h))
    }

    /// The tree passes the check, or what the check found wrong.
    pub fn validate(&self, pager: &Pager) -> (r: Result<(), TreeErr>)
        requires
            self.checkable(pager),
        ensures
            match check_result(pager.slots@, self.root, self.order as int) {
                None => r is Ok,
                Some(e) => r == Err::<(), TreeErr>(e),
            },
    {
        match self.check(pager) {
            None => Ok(()),
            Some(e) => Err(e),
        }
    }
}

impl Store {
    /// What the check of the store's tree finds wrong, if anything.
    pub fn validate(&self) -> (r: Option<TreeErr>)
        requires
            self.datamap.checkable(&self.pager),
        ensures
            r == check_result(self.pager.slots@, self.datamap.root, self.datamap.order as int),
    {
        self.datamap.check(&self.pager)
    }
}

/// The value pages that the leaves hold along the chain from `cur`, for
/// at most `fuel` pages: `BranchInLeafSeq` where the chain meets a branch,
/// none where it runs out of fuel or meets a page that is no node.
pub open spec fn chain_pages(s: Seq<Slot>, cur: int, fuel: nat) -> Option<Result<Seq<PageId>, TreeErr>>
    decreases fuel,
{
    if fuel == 0 || !is_index_slot(s, cur) {
        None
    } else {
        match node(s, cur).node_type {
            NodeType::Branch { .. } => Some(Err(TreeErr::BranchInLeafSeq)),
            NodeType::Leaf { pages, next } => match next {
                None => Some(Ok(pages@)),
                Some(x) => match chain_pages(s, x.0 as int, (fuel - 1) as nat) {
                    Some(Ok(rest)) => Some(Ok(pages@ + rest)),
                    other => other,
                },
            },
        }
    }
}

/// The tree from `r` can be walked down to its leftmost leaf within `h`
/// levels, and the chain from there ends within `f` pages.
pub open spec fn scannable(s: Seq<Slot>, r: PageId, h: nat, f: nat) -> bool {
    &&& reach_ok(s, r.0 as int, h)
    &&& chain_pages(s, leftmost_leaf(s, r.0 as int, h), f) is Some
}

impl BpTree {
    /// The value pages of the tree in the order of the chain of leaves,
    /// from the leftmost leaf on: none for an empty tree, and
    /// `BranchInLeafSeq` where the chain leads to a branch.
    pub fn scan_rids(&self, pager: &Pager) -> (r: Result<Vec<PageId>, TreeErr>)
        requires
            pager.wf(),
            self.root matches Some(rt) ==> exists|h: nat, f: nat| scannable(pager.slots@, rt, h, f),
        ensures
            self.root is None ==> (r matches Ok(v) && v@.len() == 0),
            self.root matches Some(rt) ==> ({
                let s = pager.slots@;
                let hf = choose|h: nat, f: nat| scannable(s, rt, h, f);
                match chain_pages(s, leftmost_leaf(s, rt.0 as int, hf.0), hf.1) {
                    Some(Ok(ps)) => r matches Ok(v) && v@ == ps,
                    Some(Err(e)) => r == Err::<Vec<PageId>, TreeErr>(e),
                    None => false,
                }
            }),
    {
        let ghost s = pager.slots@;
        let root = match self.root {
            None => return Ok(Vec::new()),
            Some(x) => x,
        };
        let ghost hf = choose|h: nat, f: nat| scannable(s, root, h, f);
        let ghost h = hf.0;
        let ghost f0 = hf.1;
        assert(scannable(s, root, h, f0));
        let mut current = root;
        let ghost mut hh: nat = h;
        loop
            invariant
                pager.wf(),
                s == pager.slots@,
                reach_ok(s, current.0 as int, hh),
                leftmost_leaf(s, current.0 as int, hh) == leftmost_leaf(s, root.0 as int, h),
            ensures
                current.0 as int == leftmost_leaf(s, root.0 as int, h),
            decreases hh,
        {
            let page = pager.index_page(current).unwrap();
            match &page.node_type {
                NodeType::Branch { children } => {
                    assert(kids(*page) == children@);
                    assert(reach_ok(s, kids(*page)[0].0 as int, (hh - 1) as nat));
                    proof {
                        hh = (hh - 1) as nat;
                    }
                    current = children[0];
                },
                NodeType::Leaf { .. } => {
                    break;
                },
            }
        }
        let ghost start = current.0 as int;
        let ghost mut fuel: nat = f0;
        let mut out: Vec<PageId> = Vec::new();
        loop
            invariant_except_break
                chain_pages(s, current.0 as int, fuel) is Some,
                match chain_pages(s, start, f0) {
                    Some(Ok(all)) => chain_pages(s, current.0 as int, fuel) matches Some(Ok(rest)) && all == out@ + rest,
                    other => chain_pages(s, current.0 as int, fuel) == other,
                },
            invariant
                pager.wf(),
                s == pager.slots@,
                chain_pages(s, start, f0) is Some,
                self.root == Some(root),
                start == leftmost_leaf(s, root.0 as int, h),
                hf == choose|h: nat, f: nat| scannable(s, root, h, f),
                h == hf.0,
                f0 == hf.1,
            ensures
                match chain_pages(s, start, f0) {
                    Some(Ok(all)) => all == out@,
                    _ => false,
                },
            decreases fuel,
        {
            let page = pager.index_page(current).unwrap();
            match &page.node_type {
                NodeType::Leaf { pages, next } => {
                    let ghost before = out@;
                    let n = pages.len();
                    let mut i: usize = 0;
                    while i < n
                        invariant
                            n == pages@.len(),
                            i <= n,
                            out@ == before + pages@.subrange(0, i as int),
                        decreases n - i,
                    {
                        out.push(pages[i]);
                        proof {
                            assert(pages@.subrange(0, i + 1) =~= pages@.subrange(0, i as int).push(pages@[i as int]));
                        }
                        i = i + 1;
                    }
                    proof {
                        assert(pages@.subrange(0, n as int) =~= pages@);
                    }
                    match next {
                        Some(x) => {
                            proof {
                                if let Some(Ok(all)) = chain_pages(s, start, f0) {
                                    let rest = chain_pages(s, current.0 as int, fuel)->Some_0->Ok_0;
                                    let rest2 = chain_pages(s, x.0 as int, (fuel - 1) as nat)->Some_0->Ok_0;
                                    assert(rest == pages@ + rest2);
                                    assert(all == out@ + rest2) by {
                                        assert(before + (pages@ + rest2) =~= (before + pages@) + rest2);
                                    }
                                }
                                fuel = (fuel - 1) as nat;
                            }
                            current = *x;
                        },
                        None => {
                            proof {
                                if let Some(Ok(all)) = chain_pages(s, start, f0) {
                                    assert(all =~= out@);
                                }
                            }
                            break;
                        },
                    }
                },
                NodeType::Branch { .. } => {
                    return Err(TreeErr::BranchInLeafSeq);
                },
            }
        }
        Ok(out)
    }
}

} // verus!

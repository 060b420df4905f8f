//! The B+ tree that maps keys to the pages holding their values. Its nodes
//! live in the pager and name each other by page number.

use vstd::prelude::*;
use vstd::utf8::*;
use vstd::string::StringSliceAdditionalSpecFns;
use crate::errors::UserErr;
use crate::store::value::{Value, ValueV};
use crate::store::keys::{key_lt, lemma_key_order, sorted, compare_keys, KeyCmp};
use crate::store::pages::page::{PAGE_CAPACITY, RID_SIZE, SLOT_POINTER_SIZE};
use crate::store::pager::{Slot, PageId, IndexPage, NodeType, DataPage, PageHeader, PageType, Pager, node, is_index_slot, is_data_slot, is_free_slot, index_header, nodes_kept};

verus! {

broadcast use vstd::seq::group_seq_axioms;

/// The bytes of a key.
pub open spec fn key_bytes(s: String) -> Seq<u8> {
    encode_utf8(s@)
}

/// The keys of a node, as bytes.
pub open spec fn node_keys(p: IndexPage) -> Seq<Seq<u8>> {
    p.keys@.map_values(|s: String| key_bytes(s))
}

/// The children of a branch node.
pub open spec fn kids(p: IndexPage) -> Seq<PageId> {
    match p.node_type {
        NodeType::Branch { children } => children@,
        NodeType::Leaf { .. } => seq![],
    }
}

/// The value pages of a leaf node.
pub open spec fn datas(p: IndexPage) -> Seq<PageId> {
    match p.node_type {
        NodeType::Leaf { pages, .. } => pages@,
        NodeType::Branch { .. } => seq![],
    }
}

/// Every node in the pages holds at most `order - 1` keys: no node is
/// left full.
pub open spec fn keys_capped(s: Seq<Slot>, order: int) -> bool {
    forall|q: int| #[trigger] is_index_slot(s, q) ==> node(s, q).keys@.len() <= order - 1
}

/// Pages that gained no node keep their nodes under the cap.
pub proof fn lemma_capped_kept(a: Seq<Slot>, b: Seq<Slot>, order: int)
    requires
        keys_capped(a, order),
        nodes_kept(a, b),
    ensures
        keys_capped(b, order),
{
    assert forall|q: int| #[trigger] is_index_slot(b, q) implies node(b, q).keys@.len() <= order - 1 by {
        assert(is_index_slot(a, q));
    }
}

/// Writing a node under the cap keeps every node under it.
pub proof fn lemma_capped_put(a: Seq<Slot>, id: int, p: IndexPage, order: int)
    requires
        keys_capped(a, order),
        p.keys@.len() <= order - 1,
        0 <= id < a.len(),
    ensures
        keys_capped(a.update(id, Slot::Index(p)), order),
{
    let b = a.update(id, Slot::Index(p));
    assert forall|q: int| #[trigger] is_index_slot(b, q) implies node(b, q).keys@.len() <= order - 1 by {
        if q != id {
            assert(is_index_slot(a, q));
        }
    }
}

/// Pages that differ from `a` only at `x` and `y`, where the nodes have
/// keys under the cap, keep every node under it.
pub proof fn lemma_capped_pair(a: Seq<Slot>, b: Seq<Slot>, x: int, y: int, order: int)
    requires
        keys_capped(a, order),
        a.len() == b.len(),
        forall|q: int| 0 <= q < b.len() && q != x && q != y ==> b[q] == a[q],
        is_index_slot(b, x) ==> node(b, x).keys@.len() <= order - 1,
        is_index_slot(b, y) ==> node(b, y).keys@.len() <= order - 1,
    ensures
        keys_capped(b, order),
{
    assert forall|q: int| #[trigger] is_index_slot(b, q) implies node(b, q).keys@.len() <= order - 1 by {
        if q != x && q != y {
            assert(is_index_slot(a, q));
        }
    }
}

/// Every node but those in `xs` holds at least half the order's keys.
pub open spec fn keys_floor(s: Seq<Slot>, order: int, xs: Set<int>) -> bool {
    forall|q: int| #[trigger] is_index_slot(s, q) && !xs.contains(q) ==> node(s, q).keys@.len() >= order / 2
}

/// Pages that gained no node keep every node at or above the floor.
pub proof fn lemma_floor_kept(a: Seq<Slot>, b: Seq<Slot>, order: int, xs: Set<int>)
    requires
        keys_floor(a, order, xs),
        nodes_kept(a, b),
    ensures
        keys_floor(b, order, xs),
{
    assert forall|q: int| #[trigger] is_index_slot(b, q) && !xs.contains(q) implies node(b, q).keys@.len() >= order / 2 by {
        assert(is_index_slot(a, q));
    }
}

/// Pages that differ from `a` only at `x` and `y`, where the nodes are at
/// or above the floor or exempt, keep every other node at or above it.
pub proof fn lemma_floor_pair(a: Seq<Slot>, b: Seq<Slot>, x: int, y: int, order: int, xs: Set<int>, ys: Set<int>)
    requires
        keys_floor(a, order, xs),
        a.len() == b.len(),
        forall|q: int| 0 <= q < b.len() && q != x && q != y ==> b[q] == a[q],
        is_index_slot(b, x) && !ys.contains(x) ==> node(b, x).keys@.len() >= order / 2,
        is_index_slot(b, y) && !ys.contains(y) ==> node(b, y).keys@.len() >= order / 2,
        xs.subset_of(ys.insert(x).insert(y)),
    ensures
        keys_floor(b, order, ys),
{
    assert forall|q: int| #[trigger] is_index_slot(b, q) && !ys.contains(q) implies node(b, q).keys@.len() >= order / 2 by {
        if q != x && q != y {
            assert(is_index_slot(a, q));
            assert(!xs.contains(q));
        }
    }
}

/// The node that the floor does not bind: the root, where there is one.
pub open spec fn root_exempt(root: Option<PageId>) -> Set<int> {
    match root {
        Some(r) => set![r.0 as int],
        None => Set::empty(),
    }
}

/// A root branch has two children or more.
pub open spec fn root_branches(s: Seq<Slot>, root: Option<PageId>) -> bool {
    root matches Some(r) ==> (node(s, r.0 as int).node_type is Branch ==> kids(node(s, r.0 as int)).len() >= 2)
}

/// Where a search for `k` goes among a branch's children: past every key
/// that is not greater than `k`.
pub open spec fn route(ks: Seq<Seq<u8>>, k: Seq<u8>) -> int
    decreases ks.len(),
{
    if ks.len() == 0 {
        0
    } else if key_lt(k, ks.last()) {
        route(ks.drop_last(), k)
    } else {
        ks.len() as int
    }
}

/// The position of `k` among the keys, or -1.
pub open spec fn find(ks: Seq<Seq<u8>>, k: Seq<u8>) -> int
    decreases ks.len(),
{
    if ks.len() == 0 {
        -1
    } else if ks.last() == k {
        ks.len() - 1
    } else {
        find(ks.drop_last(), k)
    }
}

pub open spec fn above_lo(k: Seq<u8>, lo: Option<Seq<u8>>) -> bool {
    match lo {
        Some(l) => !key_lt(k, l),
        None => true,
    }
}

pub open spec fn below_hi(k: Seq<u8>, hi: Option<Seq<u8>>) -> bool {
    match hi {
        Some(h) => key_lt(k, h),
        None => true,
    }
}

/// The lower bound for the keys under child `j` of a branch with keys `ks`.
pub open spec fn clo(ks: Seq<Seq<u8>>, j: int, lo: Option<Seq<u8>>) -> Option<Seq<u8>> {
    if j == 0 { lo } else { Some(ks[j - 1]) }
}

/// The upper bound for the keys under child `j` of a branch with keys `ks`.
pub open spec fn chi(ks: Seq<Seq<u8>>, j: int, hi: Option<Seq<u8>>) -> Option<Seq<u8>> {
    if j < ks.len() { Some(ks[j]) } else { hi }
}

/// The lower bound for the keys under child `j` of a branch.
pub open spec fn child_lo(p: IndexPage, j: int, lo: Option<Seq<u8>>) -> Option<Seq<u8>> {
    clo(node_keys(p), j, lo)
}

/// The upper bound for the keys under child `j` of a branch.
pub open spec fn child_hi(p: IndexPage, j: int, hi: Option<Seq<u8>>) -> Option<Seq<u8>> {
    chi(node_keys(p), j, hi)
}

/// `k` lies strictly above the bound `lo`.
pub open spec fn strictly_above(k: Seq<u8>, lo: Option<Seq<u8>>) -> bool {
    match lo {
        Some(l) => key_lt(l, k),
        None => true,
    }
}

/// Page `q` is a node of the subtree of height `h` rooted at `id`.
pub open spec fn in_tree(s: Seq<Slot>, id: int, h: nat, q: int) -> bool
    decreases h, kids(node(s, id)).len() + 1,
{
    q == id || (h > 0 && is_index_slot(s, id) && in_kids(s, id, h, q, 0))
}

/// Page `q` is a node of the subtree of one of the children of `id` from
/// child `j` on.
pub open spec fn in_kids(s: Seq<Slot>, id: int, h: nat, q: int, j: int) -> bool
    decreases h, kids(node(s, id)).len() - j,
{
    if h == 0 || j < 0 || j >= kids(node(s, id)).len() {
        false
    } else {
        in_tree(s, kids(node(s, id))[j].0 as int, (h - 1) as nat, q) || in_kids(s, id, h, q, j + 1)
    }
}

/// Value page `d` is named by a leaf of the subtree of height `h` rooted at `id`.
pub open spec fn holds_data(s: Seq<Slot>, id: int, h: nat, d: int) -> bool
    decreases h, kids(node(s, id)).len() + 1,
{
    is_index_slot(s, id) && if h == 0 {
        exists|j: int| 0 <= j < datas(node(s, id)).len() && #[trigger] datas(node(s, id))[j].0 == d
    } else {
        data_in_kids(s, id, h, d, 0)
    }
}

/// Value page `d` is named under one of the children of `id` from child `j` on.
pub open spec fn data_in_kids(s: Seq<Slot>, id: int, h: nat, d: int, j: int) -> bool
    decreases h, kids(node(s, id)).len() - j,
{
    if h == 0 || j < 0 || j >= kids(node(s, id)).len() {
        false
    } else {
        holds_data(s, kids(node(s, id))[j].0 as int, (h - 1) as nat, d) || data_in_kids(s, id, h, d, j + 1)
    }
}

/// The keys and value pages of node `id` are in order and in `[lo, hi)`, and
/// it has the shape of a node at height `h`.
pub open spec fn node_ok(s: Seq<Slot>, id: int, h: nat, lo: Option<Seq<u8>>, hi: Option<Seq<u8>>) -> bool {
    &&& is_index_slot(s, id)
    &&& node(s, id).header.page_id.0 == id
    &&& sorted(node_keys(node(s, id)))
    &&& forall|i: int| 0 <= i < node_keys(node(s, id)).len() ==> above_lo(#[trigger] node_keys(node(s, id))[i], lo)
        && below_hi(node_keys(node(s, id))[i], hi)
    &&& if h == 0 {
        &&& node(s, id).node_type is Leaf
        &&& datas(node(s, id)).len() == node_keys(node(s, id)).len()
        &&& forall|j: int| 0 <= j < datas(node(s, id)).len() ==> is_data_slot(s, #[trigger] datas(node(s, id))[j].0 as int)
        &&& forall|a: int, b: int| 0 <= a < b < datas(node(s, id)).len() ==> #[trigger] datas(node(s, id))[a] != #[trigger] datas(node(s, id))[b]
    } else {
        &&& node(s, id).node_type is Branch
        &&& kids(node(s, id)).len() == node_keys(node(s, id)).len() + 1
        &&& node_keys(node(s, id)).len() > 0 ==> strictly_above(node_keys(node(s, id))[0], lo)
        &&& forall|j: int| 0 <= j < kids(node(s, id)).len() ==> !in_tree(s, #[trigger] kids(node(s, id))[j].0 as int, (h - 1) as nat, id)
        &&& forall|a: int, b: int, q: int| 0 <= a < b < kids(node(s, id)).len() ==> !(#[trigger] in_tree(s, kids(node(s, id))[a].0 as int, (h - 1) as nat, q)
            && #[trigger] in_tree(s, kids(node(s, id))[b].0 as int, (h - 1) as nat, q))
        &&& forall|a: int, b: int, d: int| 0 <= a < b < kids(node(s, id)).len() ==> !(#[trigger] holds_data(s, kids(node(s, id))[a].0 as int, (h - 1) as nat, d)
            && #[trigger] holds_data(s, kids(node(s, id))[b].0 as int, (h - 1) as nat, d))
    }
}

/// The subtree of height `h` rooted at `id` is a well-formed B+ tree whose
/// keys all lie in `[lo, hi)`: keys sorted in every node, every leaf at depth
/// `h`, a branch with one child more than keys and each child's keys between
/// the separators around it, a branch's first separator strictly above its
/// lower bound, no node or value page shared between subtrees.
pub open spec fn wf_node(s: Seq<Slot>, id: int, h: nat, lo: Option<Seq<u8>>, hi: Option<Seq<u8>>) -> bool
    decreases h, kids(node(s, id)).len() + 1,
{
    node_ok(s, id, h, lo, hi) && (h > 0 ==> wf_kids(s, id, h, lo, hi, 0))
}

/// The children of `id` from child `j` on are well-formed.
pub open spec fn wf_kids(s: Seq<Slot>, id: int, h: nat, lo: Option<Seq<u8>>, hi: Option<Seq<u8>>, j: int) -> bool
    decreases h, kids(node(s, id)).len() - j,
{
    if h == 0 || j < 0 || j >= kids(node(s, id)).len() {
        true
    } else {
        wf_node(s, kids(node(s, id))[j].0 as int, (h - 1) as nat, child_lo(node(s, id), j, lo), child_hi(node(s, id), j, hi))
            && wf_kids(s, id, h, lo, hi, j + 1)
    }
}

pub proof fn lemma_in_kids(s: Seq<Slot>, id: int, h: nat, q: int, j: int)
    requires
        h > 0,
        0 <= j,
    ensures
        in_kids(s, id, h, q, j) <==> exists|i: int| j <= i < kids(node(s, id)).len() && #[trigger] in_tree(s, kids(node(s, id))[i].0 as int, (h - 1) as nat, q),
    decreases kids(node(s, id)).len() - j,
{
    if j < kids(node(s, id)).len() {
        lemma_in_kids(s, id, h, q, j + 1);
        if in_tree(s, kids(node(s, id))[j].0 as int, (h - 1) as nat, q) {
        }
    }
}

pub proof fn lemma_data_in_kids(s: Seq<Slot>, id: int, h: nat, d: int, j: int)
    requires
        h > 0,
        0 <= j,
    ensures
        data_in_kids(s, id, h, d, j) <==> exists|i: int| j <= i < kids(node(s, id)).len() && #[trigger] holds_data(s, kids(node(s, id))[i].0 as int, (h - 1) as nat, d),
    decreases kids(node(s, id)).len() - j,
{
    if j < kids(node(s, id)).len() {
        lemma_data_in_kids(s, id, h, d, j + 1);
        if holds_data(s, kids(node(s, id))[j].0 as int, (h - 1) as nat, d) {
        }
    }
}

pub proof fn lemma_wf_kids(s: Seq<Slot>, id: int, h: nat, lo: Option<Seq<u8>>, hi: Option<Seq<u8>>, j: int)
    requires
        h > 0,
        0 <= j,
    ensures
        wf_kids(s, id, h, lo, hi, j) <==> forall|i: int| j <= i < kids(node(s, id)).len() ==> #[trigger] wf_node(s, kids(node(s, id))[i].0 as int, (h - 1) as nat, child_lo(node(s, id), i, lo), child_hi(node(s, id), i, hi)),
    decreases kids(node(s, id)).len() - j,
{
    if j < kids(node(s, id)).len() {
        lemma_wf_kids(s, id, h, lo, hi, j + 1);
        if wf_node(s, kids(node(s, id))[j].0 as int, (h - 1) as nat, child_lo(node(s, id), j, lo), child_hi(node(s, id), j, hi)) {
        }
    }
}

/// In a branch, a page of the subtree is the branch or a page under one of its children.
pub proof fn lemma_in_tree_branch(s: Seq<Slot>, id: int, h: nat, q: int)
    requires
        h > 0,
        is_index_slot(s, id),
    ensures
        in_tree(s, id, h, q) <==> (q == id || exists|i: int| 0 <= i < kids(node(s, id)).len() && #[trigger] in_tree(s, kids(node(s, id))[i].0 as int, (h - 1) as nat, q)),
{
    lemma_in_kids(s, id, h, q, 0);
}

pub proof fn lemma_holds_data_branch(s: Seq<Slot>, id: int, h: nat, d: int)
    requires
        h > 0,
    ensures
        holds_data(s, id, h, d) <==> (is_index_slot(s, id) && exists|i: int| 0 <= i < kids(node(s, id)).len() && #[trigger] holds_data(s, kids(node(s, id))[i].0 as int, (h - 1) as nat, d)),
{
    lemma_data_in_kids(s, id, h, d, 0);
}

/// Well-formedness of a branch, stated child by child.
pub proof fn lemma_wf_branch(s: Seq<Slot>, id: int, h: nat, lo: Option<Seq<u8>>, hi: Option<Seq<u8>>)
    requires
        h > 0,
    ensures
        wf_node(s, id, h, lo, hi) <==> node_ok(s, id, h, lo, hi) && forall|i: int| 0 <= i < kids(node(s, id)).len() ==> #[trigger] wf_node(s, kids(node(s, id))[i].0 as int, (h - 1) as nat, child_lo(node(s, id), i, lo), child_hi(node(s, id), i, hi)),
{
    lemma_wf_kids(s, id, h, lo, hi, 0);
}

/// The value page that the subtree rooted at `id` gives for key `k`, if any.
pub open spec fn lookup(s: Seq<Slot>, id: int, h: nat, k: Seq<u8>) -> Option<PageId>
    decreases h,
{
    if h == 0 {
        let i = find(node_keys(node(s, id)), k);
        if 0 <= i < datas(node(s, id)).len() { Some(datas(node(s, id))[i]) } else { None }
    } else {
        let j = route(node_keys(node(s, id)), k);
        lookup(s, kids(node(s, id))[j].0 as int, (h - 1) as nat, k)
    }
}

pub proof fn lemma_route_char(ks: Seq<Seq<u8>>, k: Seq<u8>, i: int)
    requires
        0 <= i <= ks.len(),
        forall|j: int| 0 <= j < i ==> !key_lt(k, #[trigger] ks[j]),
        forall|j: int| i <= j < ks.len() ==> key_lt(k, #[trigger] ks[j]),
    ensures
        route(ks, k) == i,
    decreases ks.len(),
{
    if ks.len() > 0 {
        if i == ks.len() {
            assert(!key_lt(k, ks[ks.len() - 1]));
        } else {
            assert(key_lt(k, ks[ks.len() - 1]));
            lemma_route_char(ks.drop_last(), k, i);
        }
    }
}

pub proof fn lemma_find_at(ks: Seq<Seq<u8>>, k: Seq<u8>, i: int)
    requires
        sorted(ks),
        0 <= i < ks.len(),
        ks[i] == k,
    ensures
        find(ks, k) == i,
    decreases ks.len(),
{
    if i < ks.len() - 1 {
        let last = ks[ks.len() - 1];
        assert(key_lt(ks[i], last));
        lemma_key_order(k, last, k);
        lemma_find_at(ks.drop_last(), k, i);
    }
}

pub proof fn lemma_find_absent(ks: Seq<Seq<u8>>, k: Seq<u8>)
    requires
        forall|j: int| 0 <= j < ks.len() ==> #[trigger] ks[j] != k,
    ensures
        find(ks, k) == -1,
    decreases ks.len(),
{
    if ks.len() > 0 {
        lemma_find_absent(ks.drop_last(), k);
    }
}

/// Where `key` stands among sorted keys, as `binary_search` reports it:
/// `Ok(i)` when key `i` equals it, else `Err(i)` with `i` the number of keys
/// before it.
pub fn search_keys(keys: &Vec<String>, key: &[u8]) -> (r: Result<usize, usize>)
    requires
        sorted(keys@.map_values(|s: String| key_bytes(s))),
    ensures
        ({
            let ks = keys@.map_values(|s: String| key_bytes(s));
            match r {
                Ok(i) => i < ks.len() && ks[i as int] == key@ && find(ks, key@) == i
                    && route(ks, key@) == i + 1,
                Err(i) => i <= ks.len() && find(ks, key@) == -1 && route(ks, key@) == i,
            }
        }),
{
    let ghost ks = keys@.map_values(|s: String| key_bytes(s));
    let mut lo: usize = 0;
    let mut hi: usize = keys.len();
    while lo < hi
        invariant
            ks == keys@.map_values(|s: String| key_bytes(s)),
            sorted(ks),
            lo <= hi <= ks.len(),
            forall|j: int| 0 <= j < lo ==> key_lt(#[trigger] ks[j], key@),
            forall|j: int| hi <= j < ks.len() ==> key_lt(key@, #[trigger] ks[j]),
        decreases hi - lo,
    {
        let mid = lo + (hi - lo) / 2;
        let probe = keys[mid].as_str().as_bytes();
        proof {
            assert(probe@ == ks[mid as int]);
        }
        match compare_keys(probe, key) {
            KeyCmp::Less => {
                proof {
                    assert forall|j: int| 0 <= j < mid + 1 implies key_lt(#[trigger] ks[j], key@) by {
                        if j < mid {
                            lemma_key_order(ks[j], ks[mid as int], key@);
                        }
                    }
                }
                lo = mid + 1;
            },
            KeyCmp::Greater => {
                proof {
                    assert forall|j: int| mid <= j < ks.len() implies key_lt(key@, #[trigger] ks[j]) by {
                        if j > mid {
                            lemma_key_order(key@, ks[mid as int], ks[j]);
                        }
                    }
                }
                hi = mid;
            },
            KeyCmp::Equal => {
                proof {
                    lemma_find_at(ks, key@, mid as int);
                    assert forall|j: int| 0 <= j < mid + 1 implies !key_lt(key@, #[trigger] ks[j]) by {
                        lemma_key_order(ks[j], key@, key@);
                        if j < mid {
                            lemma_key_order(ks[j], key@, ks[j]);
                        }
                    }
                    assert forall|j: int| mid + 1 <= j < ks.len() implies key_lt(key@, #[trigger] ks[j]) by {
                        assert(key_lt(ks[mid as int], ks[j]));
                    }
                    lemma_route_char(ks, key@, mid + 1);
                }
                return Ok(mid);
            },
        }
    }
    proof {
        assert forall|j: int| 0 <= j < ks.len() implies #[trigger] ks[j] != key@ by {
            lemma_key_order(ks[j], key@, key@);
        }
        lemma_find_absent(ks, key@);
        assert forall|j: int| 0 <= j < lo implies !key_lt(key@, #[trigger] ks[j]) by {
            lemma_key_order(ks[j], key@, key@);
        }
        lemma_route_char(ks, key@, lo as int);
    }
    Err(lo)
}



pub proof fn lemma_route_bounds(ks: Seq<Seq<u8>>, k: Seq<u8>)
    ensures
        0 <= route(ks, k) <= ks.len(),
    decreases ks.len(),
{
    if ks.len() > 0 {
        lemma_route_bounds(ks.drop_last(), k);
    }
}

pub proof fn lemma_find_bounds(ks: Seq<Seq<u8>>, k: Seq<u8>)
    ensures
        -1 <= find(ks, k) < ks.len(),
        find(ks, k) >= 0 ==> ks[find(ks, k)] == k,
        find(ks, k) == -1 ==> forall|j: int| 0 <= j < ks.len() ==> #[trigger] ks[j] != k,
    decreases ks.len(),
{
    if ks.len() > 0 {
        lemma_find_bounds(ks.drop_last(), k);
        if find(ks, k) == -1 {
            assert forall|j: int| 0 <= j < ks.len() implies #[trigger] ks[j] != k by {
                if j < ks.len() - 1 {
                    assert(ks.drop_last()[j] == ks[j]);
                }
            }
        }
    }
}

/// `s2` keeps every node and value page of the subtree rooted at `id` in `s`.
pub open spec fn agree(s: Seq<Slot>, s2: Seq<Slot>, id: int, h: nat) -> bool {
    &&& forall|q: int| #[trigger] in_tree(s, id, h, q) ==> 0 <= q < s.len() && q < s2.len() && s2[q] == s[q]
    &&& forall|d: int| #[trigger] holds_data(s, id, h, d) ==> 0 <= d < s.len() && d < s2.len() && s2[d] == s[d]
}

pub proof fn lemma_in_tree_bounds(s: Seq<Slot>, id: int, h: nat, lo: Option<Seq<u8>>, hi: Option<Seq<u8>>, q: int)
    requires
        wf_node(s, id, h, lo, hi),
        in_tree(s, id, h, q),
    ensures
        is_index_slot(s, q),
    decreases h,
{
    if q != id {
        lemma_in_tree_branch(s, id, h, q);
        lemma_wf_branch(s, id, h, lo, hi);
        let p = node(s, id);
        let j = choose|j: int| 0 <= j < kids(p).len() && #[trigger] in_tree(s, kids(p)[j].0 as int, (h - 1) as nat, q);
        lemma_in_tree_bounds(s, kids(p)[j].0 as int, (h - 1) as nat, child_lo(p, j, lo), child_hi(p, j, hi), q);
    }
}

pub proof fn lemma_holds_data_bounds(s: Seq<Slot>, id: int, h: nat, lo: Option<Seq<u8>>, hi: Option<Seq<u8>>, d: int)
    requires
        wf_node(s, id, h, lo, hi),
        holds_data(s, id, h, d),
    ensures
        is_data_slot(s, d),
    decreases h,
{
    let p = node(s, id);
    if h == 0 {
        let j = choose|j: int| 0 <= j < datas(p).len() && #[trigger] datas(p)[j].0 == d;
        assert(is_data_slot(s, datas(p)[j].0 as int));
    } else {
        lemma_holds_data_branch(s, id, h, d);
        lemma_wf_branch(s, id, h, lo, hi);
        let j = choose|j: int| 0 <= j < kids(p).len() && #[trigger] holds_data(s, kids(p)[j].0 as int, (h - 1) as nat, d);
        lemma_holds_data_bounds(s, kids(p)[j].0 as int, (h - 1) as nat, child_lo(p, j, lo), child_hi(p, j, hi), d);
    }
}

/// Changing pages outside a subtree leaves the subtree, its shape and its
/// lookups as they were.
pub proof fn lemma_frame(s: Seq<Slot>, s2: Seq<Slot>, id: int, h: nat, lo: Option<Seq<u8>>, hi: Option<Seq<u8>>)
    requires
        wf_node(s, id, h, lo, hi),
        agree(s, s2, id, h),
    ensures
        wf_node(s2, id, h, lo, hi),
        forall|q: int| #[trigger] in_tree(s2, id, h, q) == in_tree(s, id, h, q),
        forall|d: int| #[trigger] holds_data(s2, id, h, d) == holds_data(s, id, h, d),
        forall|k: Seq<u8>| #[trigger] lookup(s2, id, h, k) == lookup(s, id, h, k),
    decreases h,
{
    assert(in_tree(s, id, h, id));
    let p = node(s, id);
    assert(node(s2, id) == p);
    if h == 0 {
        assert forall|j: int| 0 <= j < datas(p).len() implies is_data_slot(s2, #[trigger] datas(p)[j].0 as int) by {
            assert(holds_data(s, id, h, datas(p)[j].0 as int));
        }
        assert forall|d: int| #[trigger] holds_data(s2, id, h, d) == holds_data(s, id, h, d) by {}
    } else {
        let hc = (h - 1) as nat;
        lemma_wf_branch(s, id, h, lo, hi);
        assert forall|j: int| 0 <= j < kids(p).len() implies {
            &&& wf_node(s2, #[trigger] kids(p)[j].0 as int, hc, child_lo(p, j, lo), child_hi(p, j, hi))
            &&& forall|q: int| #[trigger] in_tree(s2, kids(p)[j].0 as int, hc, q) == in_tree(s, kids(p)[j].0 as int, hc, q)
            &&& forall|d: int| #[trigger] holds_data(s2, kids(p)[j].0 as int, hc, d) == holds_data(s, kids(p)[j].0 as int, hc, d)
            &&& forall|k: Seq<u8>| #[trigger] lookup(s2, kids(p)[j].0 as int, hc, k) == lookup(s, kids(p)[j].0 as int, hc, k)
        } by {
            let c = kids(p)[j].0 as int;
            assert forall|q: int| #[trigger] in_tree(s, c, hc, q) implies 0 <= q < s.len() && q < s2.len() && s2[q] == s[q] by {
                lemma_in_tree_branch(s, id, h, q);
                assert(in_tree(s, id, h, q));
            }
            assert forall|d: int| #[trigger] holds_data(s, c, hc, d) implies 0 <= d < s.len() && d < s2.len() && s2[d] == s[d] by {
                lemma_holds_data_branch(s, id, h, d);
                assert(holds_data(s, id, h, d));
            }
            lemma_frame(s, s2, c, hc, child_lo(p, j, lo), child_hi(p, j, hi));
        }
        assert forall|q: int| #[trigger] in_tree(s2, id, h, q) == in_tree(s, id, h, q) by {
            lemma_in_tree_branch(s, id, h, q);
            lemma_in_tree_branch(s2, id, h, q);
            if in_tree(s, id, h, q) && q != id {
                let j = choose|j: int| 0 <= j < kids(p).len() && #[trigger] in_tree(s, kids(p)[j].0 as int, hc, q);
                assert(in_tree(s2, kids(p)[j].0 as int, hc, q));
            }
            if in_tree(s2, id, h, q) && q != id {
                let j = choose|j: int| 0 <= j < kids(p).len() && #[trigger] in_tree(s2, kids(p)[j].0 as int, hc, q);
                assert(in_tree(s, kids(p)[j].0 as int, hc, q));
            }
        }
        assert forall|d: int| #[trigger] holds_data(s2, id, h, d) == holds_data(s, id, h, d) by {
            lemma_holds_data_branch(s, id, h, d);
            lemma_holds_data_branch(s2, id, h, d);
            if holds_data(s, id, h, d) {
                let j = choose|j: int| 0 <= j < kids(p).len() && #[trigger] holds_data(s, kids(p)[j].0 as int, hc, d);
                assert(holds_data(s2, kids(p)[j].0 as int, hc, d));
            }
            if holds_data(s2, id, h, d) {
                let j = choose|j: int| 0 <= j < kids(p).len() && #[trigger] holds_data(s2, kids(p)[j].0 as int, hc, d);
                assert(holds_data(s, kids(p)[j].0 as int, hc, d));
            }
        }
        assert forall|k: Seq<u8>| #[trigger] lookup(s2, id, h, k) == lookup(s, id, h, k) by {
            lemma_route_bounds(node_keys(p), k);
            let j = route(node_keys(p), k);
            assert(lookup(s2, kids(p)[j].0 as int, hc, k) == lookup(s, kids(p)[j].0 as int, hc, k));
        }
        lemma_wf_branch(s2, id, h, lo, hi);
    }
}


/// The B+ tree: its root page, its order (a node with `order` keys splits),
/// and the height of its leaves below the root.
pub struct BpTree {
    pub root: Option<PageId>,
    pub order: usize,
    pub height: Ghost<nat>,
}

/// The value page that the tree gives for key `k`, if any.
pub open spec fn tree_lookup(s: Seq<Slot>, root: Option<PageId>, h: nat, k: Seq<u8>) -> Option<PageId> {
    match root {
        None => None,
        Some(r) => lookup(s, r.0 as int, h, k),
    }
}

/// The value stored in page `d`.
pub open spec fn data_value(s: Seq<Slot>, d: PageId) -> ValueV {
    s[d.0 as int]->Data_0.value@
}

impl BpTree {
    /// The tree is well formed in the pager's pages.
    pub open spec fn wf(&self, pager: &Pager) -> bool {
        &&& pager.wf()
        &&& self.order >= 2
        &&& match self.root {
            None => true,
            Some(r) => wf_node(pager.slots@, r.0 as int, self.height@, None, None),
        }
    }

    /// What the tree maps `k` to, as a value page.
    pub open spec fn page_of(&self, pager: &Pager, k: Seq<u8>) -> Option<PageId> {
        tree_lookup(pager.slots@, self.root, self.height@, k)
    }

    /// A tree with the given root and order; a tree without a root is empty.
    pub fn new(root: Option<PageId>, order: usize) -> (r: BpTree)
        ensures
            r.root == root,
            r.order == order,
            r.height@ == 0,
    {
        BpTree { root, order, height: Ghost(0) }
    }

    /// The value stored under `key`: `NoRoot` for an empty tree, `NoRID`
    /// when the key is absent.
    pub fn get(&self, key: &str, pager: &Pager) -> (r: Result<Value, UserErr>)
        requires
            self.wf(pager),
        ensures
            self.root is None ==> r matches Err(UserErr::NoRoot),
            self.root is Some ==> match self.page_of(pager, key.spec_bytes()) {
                None => r matches Err(UserErr::NoRID(x)) && x@ == key@,
                Some(d) => r matches Ok(v) && v@ == data_value(pager.slots@, d),
            },
    {
        let ghost k = key.spec_bytes();
        let ghost s = pager.slots@;
        let kb = key.as_bytes();
        let mut current = match self.root {
            Some(x) => x,
            None => return Err(UserErr::NoRoot),
        };
        let ghost mut h: nat = self.height@;
        let ghost mut lo: Option<Seq<u8>> = None;
        let ghost mut hi: Option<Seq<u8>> = None;

        loop
            invariant
                s == pager.slots@,
                pager.wf(),
                kb@ == k,
                k == key.spec_bytes(),
                self.root is Some,
                wf_node(s, current.0 as int, h, lo, hi),
                self.page_of(pager, k) == lookup(s, current.0 as int, h, k),
            decreases h,
        {
            let page = pager.index_page(current).unwrap();
            proof {
                if h > 0 {
                    lemma_wf_branch(s, current.0 as int, h, lo, hi);
                }
            }
            match &page.node_type {
                NodeType::Branch { children } => {
                    assert(node_keys(*page).len() == page.keys@.len());
                    assert(page.keys@.len() == page.keys.len());
                    let i = match search_keys(&page.keys, kb) {
                        Ok(i) => i + 1,
                        Err(i) => i,
                    };
                    proof {
                        lemma_route_bounds(node_keys(*page), k);
                        let p = *page;
                        lo = child_lo(p, i as int, lo);
                        hi = child_hi(p, i as int, hi);
                        h = (h - 1) as nat;
                    }
                    current = children[i];
                },
                NodeType::Leaf { pages, .. } => {
                    match search_keys(&page.keys, kb) {
                        Ok(i) => {
                            let d = pages[i];
                            proof {
                                assert(h == 0);
                                assert(datas(*page)[i as int] == d);
                                assert(lookup(s, current.0 as int, h, k) == Some(d));
                            }
                            let data = pager.data_page(d).unwrap();
                            let v = data.value.copy();
                            assert(v@ == data_value(s, d));
                            return Ok(v);
                        },
                        Err(_) => return Err(UserErr::NoRID(key.to_owned())),
                    }
                },
            }
        }
    }
}


/// What a leaf with keys `ks` and value pages `ds` gives for key `k`.
pub open spec fn leaf_get(ks: Seq<Seq<u8>>, ds: Seq<PageId>, k: Seq<u8>) -> Option<PageId> {
    let i = find(ks, k);
    if 0 <= i < ds.len() { Some(ds[i]) } else { None }
}

pub open spec fn all_in(ks: Seq<Seq<u8>>, lo: Option<Seq<u8>>, hi: Option<Seq<u8>>) -> bool {
    forall|i: int| 0 <= i < ks.len() ==> above_lo(#[trigger] ks[i], lo) && below_hi(ks[i], hi)
}

/// `leaf_get` reads the value page at the key's position.
pub proof fn lemma_leaf_get(ks: Seq<Seq<u8>>, ds: Seq<PageId>, k: Seq<u8>)
    requires
        sorted(ks),
        ds.len() == ks.len(),
    ensures
        forall|i: int| 0 <= i < ks.len() && ks[i] == k ==> leaf_get(ks, ds, k) == Some(ds[i]),
        (forall|i: int| 0 <= i < ks.len() ==> ks[i] != k) ==> leaf_get(ks, ds, k) is None,
{
    lemma_find_bounds(ks, k);
    assert forall|i: int| 0 <= i < ks.len() && ks[i] == k implies leaf_get(ks, ds, k) == Some(ds[i]) by {
        lemma_find_at(ks, k, i);
    }
}

/// Inserting a new key where the search for it ends keeps the keys sorted
/// and in range, and adds exactly that key.
pub proof fn lemma_leaf_insert(ks: Seq<Seq<u8>>, ds: Seq<PageId>, k: Seq<u8>, d: PageId, lo: Option<Seq<u8>>, hi: Option<Seq<u8>>)
    requires
        sorted(ks),
        ds.len() == ks.len(),
        all_in(ks, lo, hi),
        above_lo(k, lo),
        below_hi(k, hi),
        find(ks, k) == -1,
    ensures
        ({
            let i = route(ks, k);
            let ks2 = ks.insert(i, k);
            let ds2 = ds.insert(i, d);
            &&& 0 <= i <= ks.len()
            &&& sorted(ks2)
            &&& all_in(ks2, lo, hi)
            &&& forall|k2: Seq<u8>| #[trigger] leaf_get(ks2, ds2, k2) == if k2 == k { Some(d) } else { leaf_get(ks, ds, k2) }
        }),
{
    let i = route(ks, k);
    lemma_route_bounds(ks, k);
    lemma_find_bounds(ks, k);
    lemma_route_split(ks, k);
    let ks2 = ks.insert(i, k);
    let ds2 = ds.insert(i, d);
    assert forall|a: int, b: int| 0 <= a < b < ks2.len() implies key_lt(#[trigger] ks2[a], #[trigger] ks2[b]) by {
        if a < i && b == i {
            lemma_key_order(ks[a], k, k);
        } else if a == i && b > i {
            assert(ks2[b] == ks[b - 1]);
            lemma_key_order(k, ks[b - 1], k);
        } else if a < i && b > i {
            assert(ks2[b] == ks[b - 1]);
        } else if a > i {
            assert(ks2[a] == ks[a - 1]);
            assert(ks2[b] == ks[b - 1]);
        }
    }
    assert forall|a: int| 0 <= a < ks2.len() implies above_lo(#[trigger] ks2[a], lo) && below_hi(ks2[a], hi) by {
        if a > i {
            assert(ks2[a] == ks[a - 1]);
        }
    }
    lemma_leaf_get(ks, ds, k);
    assert forall|k2: Seq<u8>| #[trigger] leaf_get(ks2, ds2, k2) == if k2 == k { Some(d) } else { leaf_get(ks, ds, k2) } by {
        lemma_leaf_get(ks2, ds2, k2);
        lemma_leaf_get(ks, ds, k2);
        if k2 == k {
            assert(ks2[i] == k);
        } else {
            if exists|j: int| 0 <= j < ks.len() && ks[j] == k2 {
                let j = choose|j: int| 0 <= j < ks.len() && ks[j] == k2;
                if j < i {
                    assert(ks2[j] == k2);
                } else {
                    assert(ks2[j + 1] == k2);
                }
            } else {
                assert forall|j: int| 0 <= j < ks2.len() implies ks2[j] != k2 by {
                    if j < i {
                        assert(ks2[j] == ks[j]);
                    } else if j > i {
                        assert(ks2[j] == ks[j - 1]);
                    }
                }
            }
        }
    }
}

/// The route of a key splits the keys into those not above it and those above it.
pub proof fn lemma_route_split(ks: Seq<Seq<u8>>, k: Seq<u8>)
    requires
        sorted(ks),
    ensures
        forall|j: int| 0 <= j < route(ks, k) ==> !key_lt(k, #[trigger] ks[j]),
        forall|j: int| route(ks, k) <= j < ks.len() ==> key_lt(k, #[trigger] ks[j]),
    decreases ks.len(),
{
    lemma_route_bounds(ks, k);
    if ks.len() > 0 {
        let last = ks[ks.len() - 1];
        if key_lt(k, last) {
            assert(sorted(ks.drop_last()));
            lemma_route_split(ks.drop_last(), k);
            assert forall|j: int| route(ks, k) <= j < ks.len() implies key_lt(k, #[trigger] ks[j]) by {
                if j < ks.len() - 1 {
                    assert(ks.drop_last()[j] == ks[j]);
                }
            }
            assert forall|j: int| 0 <= j < route(ks, k) implies !key_lt(k, #[trigger] ks[j]) by {
                assert(ks.drop_last()[j] == ks[j]);
            }
        } else {
            assert forall|j: int| 0 <= j < route(ks, k) implies !key_lt(k, #[trigger] ks[j]) by {
                if j < ks.len() - 1 {
                    assert(key_lt(ks[j], last));
                    if key_lt(k, ks[j]) {
                        lemma_key_order(k, ks[j], last);
                    }
                }
            }
        }
    }
}

/// Splitting a leaf's keys at `mid`: each half is sorted, and a key below the
/// first key of the right half is found in the left half as in the whole.
pub proof fn lemma_leaf_split(ks: Seq<Seq<u8>>, ds: Seq<PageId>, mid: int)
    requires
        sorted(ks),
        ds.len() == ks.len(),
        0 < mid < ks.len(),
    ensures
        sorted(ks.subrange(0, mid)),
        sorted(ks.subrange(mid, ks.len() as int)),
        forall|k2: Seq<u8>| key_lt(k2, ks[mid]) ==> #[trigger] leaf_get(ks.subrange(0, mid), ds.subrange(0, mid), k2) == leaf_get(ks, ds, k2),
        forall|k2: Seq<u8>| !key_lt(k2, ks[mid]) ==> #[trigger] leaf_get(ks.subrange(mid, ks.len() as int), ds.subrange(mid, ds.len() as int), k2) == leaf_get(ks, ds, k2),
{
    let l = ks.subrange(0, mid);
    let r = ks.subrange(mid, ks.len() as int);
    let dl = ds.subrange(0, mid);
    let dr = ds.subrange(mid, ds.len() as int);
    assert forall|a: int, b: int| 0 <= a < b < r.len() implies key_lt(#[trigger] r[a], #[trigger] r[b]) by {
        assert(r[a] == ks[a + mid]);
        assert(r[b] == ks[b + mid]);
    }
    assert forall|k2: Seq<u8>| key_lt(k2, ks[mid]) implies #[trigger] leaf_get(l, dl, k2) == leaf_get(ks, ds, k2) by {
        lemma_leaf_get(l, dl, k2);
        lemma_leaf_get(ks, ds, k2);
        if exists|j: int| 0 <= j < ks.len() && ks[j] == k2 {
            let j = choose|j: int| 0 <= j < ks.len() && ks[j] == k2;
            if j >= mid {
                if j > mid {
                    assert(key_lt(ks[mid], ks[j]));
                    lemma_key_order(k2, ks[mid], k2);
                }
                lemma_key_order(k2, k2, k2);
            }
            assert(l[j] == k2);
        }
    }
    assert forall|k2: Seq<u8>| !key_lt(k2, ks[mid]) implies #[trigger] leaf_get(r, dr, k2) == leaf_get(ks, ds, k2) by {
        lemma_leaf_get(r, dr, k2);
        lemma_leaf_get(ks, ds, k2);
        if exists|j: int| 0 <= j < ks.len() && ks[j] == k2 {
            let j = choose|j: int| 0 <= j < ks.len() && ks[j] == k2;
            if j < mid {
                assert(key_lt(ks[j], ks[mid]));
            }
            assert(r[j - mid] == k2);
        } else {
            assert forall|j: int| 0 <= j < r.len() implies r[j] != k2 by {
                assert(r[j] == ks[j + mid]);
            }
        }
    }
}


/// Adding a separator `pk` after child `j` of a branch, where `j` is the route
/// of some key and `pk` lies strictly inside child `j`'s bounds: the keys stay
/// sorted and in range, and bounds and routes shift as expected.
pub proof fn lemma_branch_insert(ks: Seq<Seq<u8>>, j: int, pk: Seq<u8>, lo: Option<Seq<u8>>, hi: Option<Seq<u8>>)
    requires
        sorted(ks),
        all_in(ks, lo, hi),
        0 <= j <= ks.len(),
        strictly_above(pk, clo(ks, j, lo)),
        below_hi(pk, chi(ks, j, hi)),
    ensures
        ({
            let ks2 = ks.insert(j, pk);
            &&& sorted(ks2)
            &&& all_in(ks2, lo, hi)
            &&& forall|i: int| 0 <= i < j ==> clo(ks2, i, lo) == clo(ks, i, lo) && chi(ks2, i, hi) == chi(ks, i, hi)
            &&& clo(ks2, j, lo) == clo(ks, j, lo) && chi(ks2, j, hi) == Some(pk)
            &&& clo(ks2, j + 1, lo) == Some(pk) && chi(ks2, j + 1, hi) == chi(ks, j, hi)
            &&& forall|i: int| j + 1 < i <= ks.len() + 1 ==> clo(ks2, i, lo) == clo(ks, i - 1, lo) && chi(ks2, i, hi) == chi(ks, i - 1, hi)
            &&& forall|k2: Seq<u8>| route(ks, k2) < j ==> #[trigger] route(ks2, k2) == route(ks, k2)
            &&& forall|k2: Seq<u8>| route(ks, k2) > j ==> #[trigger] route(ks2, k2) == route(ks, k2) + 1
            &&& forall|k2: Seq<u8>| route(ks, k2) == j ==> #[trigger] route(ks2, k2) == if key_lt(k2, pk) { j } else { j + 1 }
        }),
{
    let ks2 = ks.insert(j, pk);
    assert forall|a: int, b: int| 0 <= a < b < ks2.len() implies key_lt(#[trigger] ks2[a], #[trigger] ks2[b]) by {
        if a < j && b == j {
            if a < j - 1 {
                lemma_key_order(ks[a], ks[j - 1], pk);
            }
        } else if a == j && b > j {
            assert(ks2[b] == ks[b - 1]);
            if b - 1 > j {
                lemma_key_order(pk, ks[j], ks[b - 1]);
            }
        } else if a < j && b > j {
            assert(ks2[b] == ks[b - 1]);
        } else if a > j {
            assert(ks2[a] == ks[a - 1]);
            assert(ks2[b] == ks[b - 1]);
        }
    }
    assert forall|a: int| 0 <= a < ks2.len() implies above_lo(#[trigger] ks2[a], lo) && below_hi(ks2[a], hi) by {
        if a > j {
            assert(ks2[a] == ks[a - 1]);
        } else if a == j {
            if j > 0 {
                match lo {
                    Some(l) => {
                        lemma_key_order(l, ks[j - 1], pk);
                        if key_lt(pk, l) {
                            lemma_key_order(pk, l, ks[j - 1]);
                            lemma_key_order(ks[j - 1], pk, ks[j - 1]);
                        }
                    },
                    None => {},
                }
            } else {
                match lo {
                    Some(l) => lemma_key_order(l, pk, l),
                    None => {},
                }
            }
            if j < ks.len() {
                match hi {
                    Some(h) => lemma_key_order(pk, ks[j], h),
                    None => {},
                }
            }
        }
    }
    assert forall|k2: Seq<u8>| route(ks, k2) < j implies #[trigger] route(ks2, k2) == route(ks, k2) by {
        lemma_route_split(ks, k2);
        let r = route(ks, k2);
        lemma_route_bounds(ks, k2);
        assert(key_lt(k2, ks[j - 1]));
        assert forall|i: int| r <= i < ks2.len() implies key_lt(k2, #[trigger] ks2[i]) by {
            if i > j {
                assert(ks2[i] == ks[i - 1]);
            } else if i == j {
                lemma_key_order(k2, ks[j - 1], pk);
            }
        }
        lemma_route_char(ks2, k2, r);
    }
    assert forall|k2: Seq<u8>| route(ks, k2) > j implies #[trigger] route(ks2, k2) == route(ks, k2) + 1 by {
        lemma_route_split(ks, k2);
        let r = route(ks, k2);
        lemma_route_bounds(ks, k2);
        assert(!key_lt(k2, ks[j]));
        assert forall|i: int| 0 <= i < r + 1 implies !key_lt(k2, #[trigger] ks2[i]) by {
            if i > j {
                assert(ks2[i] == ks[i - 1]);
            } else if i == j {
                lemma_key_order(pk, ks[j], pk);
                if key_lt(k2, pk) {
                    lemma_key_order(k2, pk, ks[j]);
                }
            }
        }
        assert forall|i: int| r + 1 <= i < ks2.len() implies key_lt(k2, #[trigger] ks2[i]) by {
            assert(ks2[i] == ks[i - 1]);
        }
        lemma_route_char(ks2, k2, r + 1);
    }
    assert forall|k2: Seq<u8>| route(ks, k2) == j implies #[trigger] route(ks2, k2) == if key_lt(k2, pk) { j } else { j + 1 } by {
        lemma_route_split(ks, k2);
        if key_lt(k2, pk) {
            assert forall|i: int| j <= i < ks2.len() implies key_lt(k2, #[trigger] ks2[i]) by {
                if i > j {
                    assert(ks2[i] == ks[i - 1]);
                }
            }
            lemma_route_char(ks2, k2, j);
        } else {
            assert forall|i: int| 0 <= i < j + 1 implies !key_lt(k2, #[trigger] ks2[i]) by {}
            assert forall|i: int| j + 1 <= i < ks2.len() implies key_lt(k2, #[trigger] ks2[i]) by {
                assert(ks2[i] == ks[i - 1]);
            }
            lemma_route_char(ks2, k2, j + 1);
        }
    }
}

/// Splitting a branch's keys around the separator at `mid`.
pub proof fn lemma_branch_split(ks: Seq<Seq<u8>>, mid: int, lo: Option<Seq<u8>>, hi: Option<Seq<u8>>)
    requires
        sorted(ks),
        all_in(ks, lo, hi),
        0 < mid < ks.len(),
    ensures
        ({
            let pk = ks[mid];
            let l = ks.subrange(0, mid);
            let r = ks.subrange(mid + 1, ks.len() as int);
            &&& sorted(l)
            &&& sorted(r)
            &&& all_in(l, lo, Some(pk))
            &&& all_in(r, Some(pk), hi)
            &&& strictly_above(pk, lo)
            &&& below_hi(pk, hi)
            &&& forall|i: int| 0 <= i <= mid ==> clo(l, i, lo) == clo(ks, i, lo) && chi(l, i, Some(pk)) == chi(ks, i, hi)
            &&& forall|i: int| 0 <= i <= r.len() ==> clo(r, i, Some(pk)) == clo(ks, i + mid + 1, lo) && chi(r, i, hi) == chi(ks, i + mid + 1, hi)
            &&& forall|k2: Seq<u8>| key_lt(k2, pk) ==> #[trigger] route(l, k2) == route(ks, k2) && route(ks, k2) <= mid
            &&& forall|k2: Seq<u8>| !key_lt(k2, pk) ==> #[trigger] route(r, k2) == route(ks, k2) - mid - 1 && route(ks, k2) >= mid + 1
        }),
{
    let pk = ks[mid];
    let l = ks.subrange(0, mid);
    let r = ks.subrange(mid + 1, ks.len() as int);
    assert forall|a: int, b: int| 0 <= a < b < r.len() implies key_lt(#[trigger] r[a], #[trigger] r[b]) by {
        assert(r[a] == ks[a + mid + 1]);
        assert(r[b] == ks[b + mid + 1]);
    }
    assert forall|a: int| 0 <= a < r.len() implies above_lo(#[trigger] r[a], Some(pk)) && below_hi(r[a], hi) by {
        assert(r[a] == ks[a + mid + 1]);
        lemma_key_order(r[a], pk, r[a]);
    }
    assert(key_lt(ks[0], pk));
    match lo {
        Some(lb) => {
            if key_lt(pk, lb) {
                lemma_key_order(ks[0], pk, lb);
            }
            lemma_key_order(lb, ks[0], pk);
            if lb == ks[0] {
            } else {
                lemma_key_order(lb, ks[0], lb);
            }
        },
        None => {},
    }
    assert forall|k2: Seq<u8>| key_lt(k2, pk) implies #[trigger] route(l, k2) == route(ks, k2) && route(ks, k2) <= mid by {
        lemma_route_split(ks, k2);
        lemma_route_bounds(ks, k2);
        let rr = route(ks, k2);
        if rr > mid {
            assert(!key_lt(k2, ks[mid]));
        }
        assert forall|i: int| rr <= i < l.len() implies key_lt(k2, #[trigger] l[i]) by {}
        assert forall|i: int| 0 <= i < rr implies !key_lt(k2, #[trigger] l[i]) by {}
        lemma_route_char(l, k2, rr);
    }
    assert forall|k2: Seq<u8>| !key_lt(k2, pk) implies #[trigger] route(r, k2) == route(ks, k2) - mid - 1 && route(ks, k2) >= mid + 1 by {
        lemma_route_split(ks, k2);
        lemma_route_bounds(ks, k2);
        let rr = route(ks, k2);
        if rr <= mid {
            assert(key_lt(k2, ks[mid]));
        }
        assert forall|i: int| rr - mid - 1 <= i < r.len() implies key_lt(k2, #[trigger] r[i]) by {
            assert(r[i] == ks[i + mid + 1]);
        }
        assert forall|i: int| 0 <= i < rr - mid - 1 implies !key_lt(k2, #[trigger] r[i]) by {
            assert(r[i] == ks[i + mid + 1]);
        }
        lemma_route_char(r, k2, rr - mid - 1);
    }
}


/// Page `q` is free in `s` or lies past its end: new content may go there.
pub open spec fn fresh_in(s: Seq<Slot>, q: int) -> bool {
    q >= s.len() || (0 <= q < s.len() && s[q] is Free)
}

/// `s2` differs from `s` only in pages of the subtree at `id` and in free or
/// new pages, and frees no page.
pub open spec fn only_changes(s: Seq<Slot>, s2: Seq<Slot>, id: int, h: nat) -> bool {
    &&& s2.len() >= s.len()
    &&& forall|q: int| 0 <= q < s.len() && !(s[q] is Free) && !in_tree(s, id, h, q) ==> #[trigger] s2[q] == s[q]
    &&& forall|q: int| 0 <= q < s.len() && #[trigger] s2[q] is Free ==> s[q] is Free
}

/// The nodes of the subtree at `nid` in `s2` were nodes of the subtree at `id`
/// in `s`, or fresh pages.
pub open spec fn grows_from(s: Seq<Slot>, s2: Seq<Slot>, id: int, h: nat, nid: int) -> bool {
    forall|q: int| #[trigger] in_tree(s2, nid, h, q) ==> in_tree(s, id, h, q) || fresh_in(s, q)
}

/// The value pages under `nid` in `s2` were under `id` in `s`, or are `d`.
pub open spec fn data_from(s: Seq<Slot>, s2: Seq<Slot>, id: int, h: nat, nid: int, d: int) -> bool {
    forall|e: int| #[trigger] holds_data(s2, nid, h, e) ==> holds_data(s, id, h, e) || e == d
}

/// What inserting `k` with value page `d` into the subtree at `id` leaves: the
/// subtree itself, or, when it split, a left part keeping `id` and a right
/// part at a new page, divided at a separator key.
pub open spec fn insert_done(s: Seq<Slot>, s2: Seq<Slot>, id: int, h: nat, lo: Option<Seq<u8>>,
    hi: Option<Seq<u8>>, k: Seq<u8>, d: PageId, split: Option<(Seq<u8>, PageId)>) -> bool
{
    &&& grows_from(s, s2, id, h, id)
    &&& data_from(s, s2, id, h, id, d.0 as int)
    &&& match split {
        None => {
            &&& wf_node(s2, id, h, lo, hi)
            &&& forall|k2: Seq<u8>| #[trigger] lookup(s2, id, h, k2) == if k2 == k { Some(d) } else { lookup(s, id, h, k2) }
        },
        Some((p, nidp)) => {
            let nid = nidp.0 as int;
            &&& strictly_above(p, lo)
            &&& below_hi(p, hi)
            &&& wf_node(s2, id, h, lo, Some(p))
            &&& wf_node(s2, nid, h, Some(p), hi)
            &&& grows_from(s, s2, id, h, nid)
            &&& data_from(s, s2, id, h, nid, d.0 as int)
            &&& forall|q: int| !(#[trigger] in_tree(s2, id, h, q) && #[trigger] in_tree(s2, nid, h, q))
            &&& forall|e: int| !(#[trigger] holds_data(s2, id, h, e) && #[trigger] holds_data(s2, nid, h, e))
            &&& forall|k2: Seq<u8>|
                #![trigger lookup(s2, id, h, k2)]
                #![trigger lookup(s2, nid, h, k2)]
                (if key_lt(k2, p) { lookup(s2, id, h, k2) } else { lookup(s2, nid, h, k2) }) == if k2 == k { Some(d) } else { lookup(s, id, h, k2) }
        },
    }
}

/// A subtree survives changes to pages that are free, past the end, or `x`,
/// when `x` is not one of its nodes.
pub proof fn lemma_frame_nonfree(s: Seq<Slot>, s2: Seq<Slot>, c: int, h: nat, lo: Option<Seq<u8>>, hi: Option<Seq<u8>>, x: int)
    requires
        wf_node(s, c, h, lo, hi),
        !in_tree(s, c, h, x),
        !holds_data(s, c, h, x),
        s2.len() >= s.len(),
        forall|q: int| 0 <= q < s.len() && q != x && !(s[q] is Free) ==> #[trigger] s2[q] == s[q],
    ensures
        wf_node(s2, c, h, lo, hi),
        forall|q: int| #[trigger] in_tree(s2, c, h, q) == in_tree(s, c, h, q),
        forall|e: int| #[trigger] holds_data(s2, c, h, e) == holds_data(s, c, h, e),
        forall|k: Seq<u8>| #[trigger] lookup(s2, c, h, k) == lookup(s, c, h, k),
{
    assert forall|q: int| #[trigger] in_tree(s, c, h, q) implies 0 <= q < s.len() && q < s2.len() && s2[q] == s[q] by {
        lemma_in_tree_bounds(s, c, h, lo, hi, q);
    }
    assert forall|e: int| #[trigger] holds_data(s, c, h, e) implies 0 <= e < s.len() && e < s2.len() && s2[e] == s[e] by {
        lemma_holds_data_bounds(s, c, h, lo, hi, e);
    }
    lemma_frame(s, s2, c, h, lo, hi);
}


/// Putting a new value page at an existing key.
pub proof fn lemma_leaf_replace(ks: Seq<Seq<u8>>, ds: Seq<PageId>, i: int, k: Seq<u8>, d: PageId)
    requires
        sorted(ks),
        ds.len() == ks.len(),
        0 <= i < ks.len(),
        ks[i] == k,
    ensures
        forall|k2: Seq<u8>| #[trigger] leaf_get(ks, ds.update(i, d), k2) == if k2 == k { Some(d) } else { leaf_get(ks, ds, k2) },
{
    assert forall|k2: Seq<u8>| #[trigger] leaf_get(ks, ds.update(i, d), k2) == if k2 == k { Some(d) } else { leaf_get(ks, ds, k2) } by {
        lemma_leaf_get(ks, ds.update(i, d), k2);
        lemma_leaf_get(ks, ds, k2);
        if k2 != k {
            if exists|j: int| 0 <= j < ks.len() && ks[j] == k2 {
                let j = choose|j: int| 0 <= j < ks.len() && ks[j] == k2;
                assert(j != i);
            }
        }
    }
}

pub proof fn lemma_keys_insert(v: Seq<String>, i: int, x: String)
    requires
        0 <= i <= v.len(),
    ensures
        v.insert(i, x).map_values(|s: String| key_bytes(s)) == v.map_values(|s: String| key_bytes(s)).insert(i, key_bytes(x)),
{
    assert(v.insert(i, x).map_values(|s: String| key_bytes(s)) =~= v.map_values(|s: String| key_bytes(s)).insert(i, key_bytes(x)));
}

pub proof fn lemma_keys_update(v: Seq<String>, i: int, x: String)
    requires
        0 <= i < v.len(),
    ensures
        v.update(i, x).map_values(|s: String| key_bytes(s)) == v.map_values(|s: String| key_bytes(s)).update(i, key_bytes(x)),
{
    assert(v.update(i, x).map_values(|s: String| key_bytes(s)) =~= v.map_values(|s: String| key_bytes(s)).update(i, key_bytes(x)));
}

pub proof fn lemma_keys_subrange(v: Seq<String>, a: int, b: int)
    requires
        0 <= a <= b <= v.len(),
    ensures
        v.subrange(a, b).map_values(|s: String| key_bytes(s)) == v.map_values(|s: String| key_bytes(s)).subrange(a, b),
{
    assert(v.subrange(a, b).map_values(|s: String| key_bytes(s)) =~= v.map_values(|s: String| key_bytes(s)).subrange(a, b));
}

impl IndexPage {
    /// A leaf page with the given keys, value pages and next leaf.
    pub fn new_leaf(id: PageId, keys: Vec<String>, ids: Vec<PageId>, next: Option<PageId>) -> (r: IndexPage)
        ensures
            r.header == index_header(id),
            r.keys == keys,
            r.node_type == (NodeType::Leaf { pages: ids, next }),
    {
        IndexPage {
            header: PageHeader { page_type: PageType::Index, page_id: id, next_free: None, next_over: None },
            keys,
            node_type: NodeType::Leaf { pages: ids, next },
        }
    }

    /// A branch page with the given keys and children.
    pub fn new_branch(id: PageId, keys: Vec<String>, ids: Vec<PageId>) -> (r: IndexPage)
        ensures
            r.header == index_header(id),
            r.keys == keys,
            r.node_type == (NodeType::Branch { children: ids }),
    {
        IndexPage {
            header: PageHeader { page_type: PageType::Index, page_id: id, next_free: None, next_over: None },
            keys,
            node_type: NodeType::Branch { children: ids },
        }
    }

    /// The page's number.
    pub fn page_id(&self) -> (r: PageId)
        ensures
            r == self.header.page_id,
    {
        self.header.page_id
    }
}

/// The split, if any, with its separator as bytes and its new page as a number.
pub open spec fn split_view(r: Option<(String, PageId)>) -> Option<(Seq<u8>, PageId)> {
    match r {
        None => None,
        Some((p, nid)) => Some((key_bytes(p), nid)),
    }
}

impl BpTree {
    /// Inserts `key` with value page `data_id` into the leaf `id`, splitting
    /// the leaf when it reaches the order. Returns the value page the key had
    /// before, and the separator and new page of a split.
    #[verifier::spinoff_prover]
    #[verifier::rlimit(60)]
    fn insert_leaf(&self, pager: &mut Pager, id: PageId, key: &str, data_id: PageId,
        Ghost(lo): Ghost<Option<Seq<u8>>>, Ghost(hi): Ghost<Option<Seq<u8>>>) -> (r: (Option<PageId>, Option<(String, PageId)>))
        requires
            old(pager).wf(),
            self.order >= 2,
            old(pager).num_pages + 2 <= usize::MAX,
            wf_node(old(pager).slots@, id.0 as int, 0, lo, hi),
            above_lo(key.spec_bytes(), lo),
            below_hi(key.spec_bytes(), hi),
            is_data_slot(old(pager).slots@, data_id.0 as int),
            !holds_data(old(pager).slots@, id.0 as int, 0, data_id.0 as int),
        ensures
            final(pager).wf(),
            final(pager).num_pages <= old(pager).num_pages + 1,
            only_changes(old(pager).slots@, final(pager).slots@, id.0 as int, 0),
            r.0 == lookup(old(pager).slots@, id.0 as int, 0, key.spec_bytes()),
            insert_done(old(pager).slots@, final(pager).slots@, id.0 as int, 0, lo, hi, key.spec_bytes(), data_id, split_view(r.1)),
            keys_capped(old(pager).slots@, self.order as int) ==> keys_capped(final(pager).slots@, self.order as int),
            forall|xs: Set<int>| keys_floor(old(pager).slots@, self.order as int, xs) ==> #[trigger] keys_floor(final(pager).slots@, self.order as int, xs),
            is_index_slot(final(pager).slots@, id.0 as int),
            r.1 is Some ==> node(final(pager).slots@, id.0 as int).keys@.len() >= self.order / 2,
            r.1 is None ==> node(final(pager).slots@, id.0 as int).keys@.len() >= node(old(pager).slots@, id.0 as int).keys@.len(),
    {
        let ghost s = pager.slots@;
        let ghost k = key.spec_bytes();
        let kb = key.as_bytes();
        proof {
            pager.lemma_not_on_free_list(id.0 as int);
        }
        let slot = pager.take_slot(id);
        let ghost st = pager.slots@;
        proof {
            if keys_capped(s, self.order as int) {
                lemma_capped_kept(s, st, self.order as int);
                assert(is_index_slot(s, id.0 as int));
            }
        }
        let page = match slot {
            Slot::Index(p) => p,
            _ => {
                proof {
                    assert(false);
                }
                return (None, None);
            },
        };
        let ghost ks = node_keys(page);
        let ghost ds = datas(page);
        let IndexPage { header, mut keys, node_type } = page;
        let (mut pages, next) = match node_type {
            NodeType::Leaf { pages, next } => (pages, next),
            NodeType::Branch { .. } => {
                proof {
                    assert(false);
                }
                return (None, None);
            },
        };
        assert(keys@.len() == keys.len());
        let ghost n0 = keys@.len();
        let replaced;
        let ghost ks2: Seq<Seq<u8>>;
        let ghost ds2: Seq<PageId>;
        match search_keys(&keys, kb) {
            Ok(i) => {
                replaced = Some(pages[i]);
                let ks_new = key.to_owned();
                proof {
                    lemma_keys_update(keys@, i as int, ks_new);
                    lemma_leaf_replace(ks, ds, i as int, k, data_id);
                    ks2 = ks;
                    ds2 = ds.update(i as int, data_id);
                    assert(ks.update(i as int, k) =~= ks);
                    lemma_leaf_get(ks, ds, k);
                }
                keys.set(i, ks_new);
                pages.set(i, data_id);
            },
            Err(i) => {
                replaced = None;
                let ks_new = key.to_owned();
                proof {
                    lemma_keys_insert(keys@, i as int, ks_new);
                    lemma_leaf_insert(ks, ds, k, data_id, lo, hi);
                    ks2 = ks.insert(i as int, k);
                    ds2 = ds.insert(i as int, data_id);
                    lemma_leaf_get(ks, ds, k);
                }
                keys.insert(i, ks_new);
                pages.insert(i, data_id);
            },
        }
        proof {
            assert(keys@.map_values(|s: String| key_bytes(s)) == ks2);
            assert(pages@ == ds2);
            assert forall|a: int, b: int| 0 <= a < b < ds2.len() implies #[trigger] ds2[a] != #[trigger] ds2[b] by {
                if ds2[a] == data_id {
                    if ds.contains(data_id) {
                        let j = choose|j: int| 0 <= j < ds.len() && ds[j] == data_id;
                        assert(holds_data(s, id.0 as int, 0, data_id.0 as int));
                    }
                }
                if ds2[b] == data_id {
                    if ds.contains(data_id) {
                        let j = choose|j: int| 0 <= j < ds.len() && ds[j] == data_id;
                        assert(holds_data(s, id.0 as int, 0, data_id.0 as int));
                    }
                }
            }
            assert forall|j: int| 0 <= j < ds2.len() implies is_data_slot(s, #[trigger] ds2[j].0 as int) by {}
            assert forall|e: int| (exists|j: int| 0 <= j < ds2.len() && #[trigger] ds2[j].0 == e) implies (holds_data(s, id.0 as int, 0, e) || e == data_id.0) by {
                let j = choose|j: int| 0 <= j < ds2.len() && #[trigger] ds2[j].0 == e;
                if e != data_id.0 {
                    assert(ds.contains(ds2[j]));
                    let j0 = choose|j0: int| 0 <= j0 < ds.len() && ds[j0] == ds2[j];
                    assert(datas(node(s, id.0 as int))[j0].0 == e);
                }
            }
        }
        if keys.len() >= self.order {
            let mid = keys.len() / 2 + keys.len() % 2;
            let ghost keys_before_split = keys@;
            let new_keys = keys.split_off(mid);
            let new_pages = pages.split_off(mid);
            let ghost s1 = pager.slots@;
            let new_id = pager.allocate();
            let ghost sa = pager.slots@;
            let promoted = new_keys[0].clone();
            let left = IndexPage { header, keys, node_type: NodeType::Leaf { pages, next: Some(new_id) } };
            let right = IndexPage::new_leaf(new_id, new_keys, new_pages, next);
            proof {
                pager.lemma_not_on_free_list(id.0 as int);
            }
            pager.put_slot(id, Slot::Index(left));
            let ghost sl = pager.slots@;
            pager.put_slot(new_id, Slot::Index(right));
            proof {
                assert forall|xs: Set<int>| keys_floor(s, self.order as int, xs) implies #[trigger] keys_floor(pager.slots@, self.order as int, xs) by {
                    lemma_floor_kept(s, st, self.order as int, xs);
                    lemma_floor_kept(st, sa, self.order as int, xs);
                    lemma_floor_pair(sa, pager.slots@, id.0 as int, new_id.0 as int, self.order as int, xs, xs);
                }
                if keys_capped(s, self.order as int) {
                    assert(keys_before_split.len() <= n0 + 1);
                    assert(n0 <= self.order - 1);
                    lemma_capped_kept(st, sa, self.order as int);
                    lemma_capped_put(sa, id.0 as int, left, self.order as int);
                    lemma_capped_put(sl, new_id.0 as int, right, self.order as int);
                }
            }
            proof {
                let s2 = pager.slots@;
                let pk = ks2[mid as int];
                let nid = new_id.0 as int;
                let lks = ks2.subrange(0, mid as int);
                let rks = ks2.subrange(mid as int, ks2.len() as int);
                let lds = ds2.subrange(0, mid as int);
                let rds = ds2.subrange(mid as int, ds2.len() as int);
                lemma_leaf_split(ks2, ds2, mid as int);
                lemma_keys_subrange(keys_before_split, 0, mid as int);
                lemma_keys_subrange(keys_before_split, mid as int, keys_before_split.len() as int);
                assert(node(s2, id.0 as int) == left);
                assert(node(s2, nid) == right);
                assert(node_keys(left) == lks);
                assert(node_keys(right) == rks);
                assert(datas(left) == lds);
                assert(datas(right) == rds);
                assert(key_bytes(promoted) == pk);
                assert(nid != id.0);
                assert(fresh_in(s, nid));
                assert forall|j: int| 0 <= j < ds2.len() implies is_data_slot(s2, #[trigger] ds2[j].0 as int) by {
                    assert(is_data_slot(s, ds2[j].0 as int));
                }
                assert forall|j: int| 0 <= j < lds.len() implies is_data_slot(s2, #[trigger] lds[j].0 as int) by {
                    assert(lds[j] == ds2[j]);
                }
                assert forall|j: int| 0 <= j < rds.len() implies is_data_slot(s2, #[trigger] rds[j].0 as int) by {
                    assert(rds[j] == ds2[j + mid]);
                }
                assert forall|i: int| 0 <= i < lks.len() implies above_lo(#[trigger] lks[i], lo) && below_hi(lks[i], Some(pk)) by {
                    assert(lks[i] == ks2[i]);
                }
                assert forall|i: int| 0 <= i < rks.len() implies above_lo(#[trigger] rks[i], Some(pk)) && below_hi(rks[i], hi) by {
                    assert(rks[i] == ks2[i + mid]);
                    if i > 0 {
                        lemma_key_order(pk, rks[i], pk);
                    } else {
                        lemma_key_order(pk, pk, pk);
                    }
                }
                assert forall|a: int, b: int| 0 <= a < b < lds.len() implies #[trigger] lds[a] != #[trigger] lds[b] by {
                    assert(lds[a] == ds2[a]);
                    assert(lds[b] == ds2[b]);
                }
                assert forall|a: int, b: int| 0 <= a < b < rds.len() implies #[trigger] rds[a] != #[trigger] rds[b] by {
                    assert(rds[a] == ds2[a + mid]);
                    assert(rds[b] == ds2[b + mid]);
                }
                assert(node_ok(s2, id.0 as int, 0, lo, Some(pk)));
                assert(node_ok(s2, nid, 0, Some(pk), hi));
                assert(wf_node(s2, id.0 as int, 0, lo, Some(pk)));
                assert(wf_node(s2, nid, 0, Some(pk), hi));
                assert(key_lt(ks2[0], pk));
                match lo {
                    Some(l) => {
                        lemma_key_order(l, ks2[0], pk);
                        if l != ks2[0] {
                            lemma_key_order(l, ks2[0], l);
                        }
                    },
                    None => {},
                }
                assert(strictly_above(pk, lo));
                assert forall|k2: Seq<u8>|
                    #![trigger lookup(s2, id.0 as int, 0, k2)]
                    #![trigger lookup(s2, nid, 0, k2)]
                    (if key_lt(k2, pk) { lookup(s2, id.0 as int, 0, k2) } else { lookup(s2, nid, 0, k2) }) == if k2 == k { Some(data_id) } else { lookup(s, id.0 as int, 0, k2) } by {
                    assert(lookup(s2, id.0 as int, 0, k2) == leaf_get(lks, lds, k2));
                    assert(lookup(s2, nid, 0, k2) == leaf_get(rks, rds, k2));
                    assert(lookup(s, id.0 as int, 0, k2) == leaf_get(ks, ds, k2));
                }
                assert forall|e: int| #[trigger] holds_data(s2, id.0 as int, 0, e) implies holds_data(s, id.0 as int, 0, e) || e == data_id.0 by {
                    let j = choose|j: int| 0 <= j < datas(node(s2, id.0 as int)).len() && #[trigger] datas(node(s2, id.0 as int))[j].0 == e;
                    assert(ds2[j].0 == e);
                }
                assert forall|e: int| #[trigger] holds_data(s2, nid, 0, e) implies holds_data(s, id.0 as int, 0, e) || e == data_id.0 by {
                    let j = choose|j: int| 0 <= j < datas(node(s2, nid)).len() && #[trigger] datas(node(s2, nid))[j].0 == e;
                    assert(ds2[j + mid].0 == e);
                }
                assert forall|e: int| !(#[trigger] holds_data(s2, id.0 as int, 0, e) && #[trigger] holds_data(s2, nid, 0, e)) by {
                    if holds_data(s2, id.0 as int, 0, e) && holds_data(s2, nid, 0, e) {
                        let a = choose|j: int| 0 <= j < datas(node(s2, id.0 as int)).len() && #[trigger] datas(node(s2, id.0 as int))[j].0 == e;
                        let b = choose|j: int| 0 <= j < datas(node(s2, nid)).len() && #[trigger] datas(node(s2, nid))[j].0 == e;
                        assert(ds2[a] == ds2[b + mid]);
                    }
                }
                assert forall|q: int| #[trigger] in_tree(s2, nid, 0, q) implies in_tree(s, id.0 as int, 0, q) || fresh_in(s, q) by {}
                assert forall|q: int| 0 <= q < s.len() && !(s[q] is Free) && !in_tree(s, id.0 as int, 0, q) implies #[trigger] s2[q] == s[q] by {}
                assert forall|q: int| 0 <= q < s.len() && #[trigger] s2[q] is Free implies s[q] is Free by {}
            }
            (replaced, Some((promoted, new_id)))
        } else {
            let leaf = IndexPage { header, keys, node_type: NodeType::Leaf { pages, next } };
            proof {
                pager.lemma_not_on_free_list(id.0 as int);
            }
            pager.put_slot(id, Slot::Index(leaf));
            proof {
                if keys_capped(s, self.order as int) {
                    lemma_capped_put(st, id.0 as int, leaf, self.order as int);
                }
                assert forall|xs: Set<int>| keys_floor(s, self.order as int, xs) implies #[trigger] keys_floor(pager.slots@, self.order as int, xs) by {
                    assert(is_index_slot(s, id.0 as int));
                    lemma_floor_kept(s, st, self.order as int, xs);
                    lemma_floor_pair(st, pager.slots@, id.0 as int, id.0 as int, self.order as int, xs, xs);
                }
            }
            proof {
                let s2 = pager.slots@;
                assert(node(s2, id.0 as int) == leaf);
                assert(node_keys(leaf) == ks2);
                assert(datas(leaf) == ds2);
                assert forall|j: int| 0 <= j < ds2.len() implies is_data_slot(s2, #[trigger] ds2[j].0 as int) by {
                    assert(is_data_slot(s, ds2[j].0 as int));
                }
                assert(node_ok(s2, id.0 as int, 0, lo, hi));
                assert(wf_node(s2, id.0 as int, 0, lo, hi));
                assert forall|k2: Seq<u8>| #[trigger] lookup(s2, id.0 as int, 0, k2) == if k2 == k { Some(data_id) } else { lookup(s, id.0 as int, 0, k2) } by {
                    assert(lookup(s2, id.0 as int, 0, k2) == leaf_get(ks2, ds2, k2));
                    assert(lookup(s, id.0 as int, 0, k2) == leaf_get(ks, ds, k2));
                }
                assert forall|e: int| #[trigger] holds_data(s2, id.0 as int, 0, e) implies holds_data(s, id.0 as int, 0, e) || e == data_id.0 by {
                    let j = choose|j: int| 0 <= j < datas(node(s2, id.0 as int)).len() && #[trigger] datas(node(s2, id.0 as int))[j].0 == e;
                    assert(ds2[j].0 == e);
                }
                assert forall|q: int| 0 <= q < s.len() && !(s[q] is Free) && !in_tree(s, id.0 as int, 0, q) implies #[trigger] s2[q] == s[q] by {}
            }
            (replaced, None)
        }
    }
}


/// The children `cs`, with separators `ks`, form the inside of a well-formed
/// branch at height `h + 1` with bounds `[lo, hi)`, none of whose subtrees
/// holds page `x`.
pub open spec fn kids_ok(s: Seq<Slot>, ks: Seq<Seq<u8>>, cs: Seq<PageId>, h: nat, lo: Option<Seq<u8>>, hi: Option<Seq<u8>>, x: int) -> bool {
    &&& cs.len() == ks.len() + 1
    &&& sorted(ks)
    &&& all_in(ks, lo, hi)
    &&& ks.len() > 0 ==> strictly_above(ks[0], lo)
    &&& forall|i: int| 0 <= i < cs.len() ==> wf_node(s, #[trigger] cs[i].0 as int, h, clo(ks, i, lo), chi(ks, i, hi))
    &&& forall|i: int| 0 <= i < cs.len() ==> !in_tree(s, #[trigger] cs[i].0 as int, h, x)
    &&& forall|a: int, b: int, q: int| 0 <= a < b < cs.len() ==> !(#[trigger] in_tree(s, cs[a].0 as int, h, q)
        && #[trigger] in_tree(s, cs[b].0 as int, h, q))
    &&& forall|a: int, b: int, e: int| 0 <= a < b < cs.len() ==> !(#[trigger] holds_data(s, cs[a].0 as int, h, e)
        && #[trigger] holds_data(s, cs[b].0 as int, h, e))
}

/// A branch page at `id` whose children are well formed is well formed.
pub proof fn lemma_branch_from_kids(s: Seq<Slot>, id: int, h: nat, lo: Option<Seq<u8>>, hi: Option<Seq<u8>>)
    requires
        h > 0,
        is_index_slot(s, id),
        node(s, id).header.page_id.0 == id,
        node(s, id).node_type is Branch,
        kids_ok(s, node_keys(node(s, id)), kids(node(s, id)), (h - 1) as nat, lo, hi, id),
    ensures
        wf_node(s, id, h, lo, hi),
        forall|q: int| #[trigger] in_tree(s, id, h, q) <==> (q == id || exists|i: int| 0 <= i < kids(node(s, id)).len() && #[trigger] in_tree(s, kids(node(s, id))[i].0 as int, (h - 1) as nat, q)),
        forall|e: int| #[trigger] holds_data(s, id, h, e) <==> exists|i: int| 0 <= i < kids(node(s, id)).len() && #[trigger] holds_data(s, kids(node(s, id))[i].0 as int, (h - 1) as nat, e),
        forall|k: Seq<u8>| #[trigger] lookup(s, id, h, k) == lookup(s, kids(node(s, id))[route(node_keys(node(s, id)), k)].0 as int, (h - 1) as nat, k),
{
    let p = node(s, id);
    assert(node_ok(s, id, h, lo, hi));
    lemma_wf_branch(s, id, h, lo, hi);
    assert forall|q: int| #[trigger] in_tree(s, id, h, q) <==> (q == id || exists|i: int| 0 <= i < kids(p).len() && #[trigger] in_tree(s, kids(p)[i].0 as int, (h - 1) as nat, q)) by {
        lemma_in_tree_branch(s, id, h, q);
    }
    assert forall|e: int| #[trigger] holds_data(s, id, h, e) <==> exists|i: int| 0 <= i < kids(p).len() && #[trigger] holds_data(s, kids(p)[i].0 as int, (h - 1) as nat, e) by {
        lemma_holds_data_branch(s, id, h, e);
    }
}

/// The inside of a well-formed branch.
pub proof fn lemma_kids_of_branch(s: Seq<Slot>, id: int, h: nat, lo: Option<Seq<u8>>, hi: Option<Seq<u8>>)
    requires
        h > 0,
        wf_node(s, id, h, lo, hi),
    ensures
        kids_ok(s, node_keys(node(s, id)), kids(node(s, id)), (h - 1) as nat, lo, hi, id),
        forall|q: int| #[trigger] in_tree(s, id, h, q) <==> (q == id || exists|i: int| 0 <= i < kids(node(s, id)).len() && #[trigger] in_tree(s, kids(node(s, id))[i].0 as int, (h - 1) as nat, q)),
        forall|e: int| #[trigger] holds_data(s, id, h, e) <==> exists|i: int| 0 <= i < kids(node(s, id)).len() && #[trigger] holds_data(s, kids(node(s, id))[i].0 as int, (h - 1) as nat, e),
{
    lemma_wf_branch(s, id, h, lo, hi);
    assert(node_ok(s, id, h, lo, hi));
    let p = node(s, id);
    let ks = node_keys(p);
    let cs = kids(p);
    assert(all_in(ks, lo, hi));
    assert forall|i: int| 0 <= i < cs.len() implies wf_node(s, #[trigger] cs[i].0 as int, (h - 1) as nat, clo(ks, i, lo), chi(ks, i, hi)) by {
        assert(wf_node(s, cs[i].0 as int, (h - 1) as nat, child_lo(p, i, lo), child_hi(p, i, hi)));
    }
    assert(kids_ok(s, ks, cs, (h - 1) as nat, lo, hi, id));
    lemma_branch_from_kids(s, id, h, lo, hi);
}

/// Children that survive a change of pages which are free, past the end, or `x`.
pub proof fn lemma_kids_frame(s: Seq<Slot>, s2: Seq<Slot>, ks: Seq<Seq<u8>>, cs: Seq<PageId>, h: nat, lo: Option<Seq<u8>>, hi: Option<Seq<u8>>, x: int)
    requires
        kids_ok(s, ks, cs, h, lo, hi, x),
        0 <= x < s.len(),
        s[x] is Index,
        s2.len() >= s.len(),
        forall|q: int| 0 <= q < s.len() && q != x && !(s[q] is Free) ==> #[trigger] s2[q] == s[q],
    ensures
        kids_ok(s2, ks, cs, h, lo, hi, x),
        forall|i: int, q: int| 0 <= i < cs.len() ==> #[trigger] in_tree(s2, cs[i].0 as int, h, q) == in_tree(s, cs[i].0 as int, h, q),
        forall|i: int, e: int| 0 <= i < cs.len() ==> #[trigger] holds_data(s2, cs[i].0 as int, h, e) == holds_data(s, cs[i].0 as int, h, e),
        forall|i: int, k: Seq<u8>| 0 <= i < cs.len() ==> #[trigger] lookup(s2, cs[i].0 as int, h, k) == lookup(s, cs[i].0 as int, h, k),
{
    assert forall|i: int| 0 <= i < cs.len() implies {
        &&& wf_node(s2, #[trigger] cs[i].0 as int, h, clo(ks, i, lo), chi(ks, i, hi))
        &&& forall|q: int| #[trigger] in_tree(s2, cs[i].0 as int, h, q) == in_tree(s, cs[i].0 as int, h, q)
        &&& forall|e: int| #[trigger] holds_data(s2, cs[i].0 as int, h, e) == holds_data(s, cs[i].0 as int, h, e)
        &&& forall|k: Seq<u8>| #[trigger] lookup(s2, cs[i].0 as int, h, k) == lookup(s, cs[i].0 as int, h, k)
    } by {
        if holds_data(s, cs[i].0 as int, h, x) {
            lemma_holds_data_bounds(s, cs[i].0 as int, h, clo(ks, i, lo), chi(ks, i, hi), x);
        }
        lemma_frame_nonfree(s, s2, cs[i].0 as int, h, clo(ks, i, lo), chi(ks, i, hi), x);
    }
}

/// Splitting the inside of a branch at separator `mid`.
pub proof fn lemma_kids_split(s: Seq<Slot>, ks: Seq<Seq<u8>>, cs: Seq<PageId>, h: nat, lo: Option<Seq<u8>>, hi: Option<Seq<u8>>, x: int, mid: int)
    requires
        kids_ok(s, ks, cs, h, lo, hi, x),
        0 < mid < ks.len(),
    ensures
        kids_ok(s, ks.subrange(0, mid), cs.subrange(0, mid + 1), h, lo, Some(ks[mid]), x),
        kids_ok(s, ks.subrange(mid + 1, ks.len() as int), cs.subrange(mid + 1, cs.len() as int), h, Some(ks[mid]), hi, x),
        strictly_above(ks[mid], lo),
        below_hi(ks[mid], hi),
        forall|k: Seq<u8>| key_lt(k, ks[mid]) ==> #[trigger] route(ks.subrange(0, mid), k) == route(ks, k) && route(ks, k) <= mid,
        forall|k: Seq<u8>| !key_lt(k, ks[mid]) ==> #[trigger] route(ks.subrange(mid + 1, ks.len() as int), k) == route(ks, k) - mid - 1 && route(ks, k) >= mid + 1,
{
    lemma_branch_split(ks, mid, lo, hi);
    let l = ks.subrange(0, mid);
    let r = ks.subrange(mid + 1, ks.len() as int);
    let cl = cs.subrange(0, mid + 1);
    let cr = cs.subrange(mid + 1, cs.len() as int);
    assert forall|i: int| 0 <= i < cl.len() implies wf_node(s, #[trigger] cl[i].0 as int, h, clo(l, i, lo), chi(l, i, Some(ks[mid]))) by {
        assert(cl[i] == cs[i]);
    }
    assert forall|i: int| 0 <= i < cl.len() implies !in_tree(s, #[trigger] cl[i].0 as int, h, x) by {
        assert(cl[i] == cs[i]);
    }
    assert forall|a: int, b: int, q: int| 0 <= a < b < cl.len() implies !(#[trigger] in_tree(s, cl[a].0 as int, h, q)
        && #[trigger] in_tree(s, cl[b].0 as int, h, q)) by {
        assert(cl[a] == cs[a]);
        assert(cl[b] == cs[b]);
    }
    assert forall|a: int, b: int, e: int| 0 <= a < b < cl.len() implies !(#[trigger] holds_data(s, cl[a].0 as int, h, e)
        && #[trigger] holds_data(s, cl[b].0 as int, h, e)) by {
        assert(cl[a] == cs[a]);
        assert(cl[b] == cs[b]);
    }
    assert forall|i: int| 0 <= i < cr.len() implies wf_node(s, #[trigger] cr[i].0 as int, h, clo(r, i, Some(ks[mid])), chi(r, i, hi)) by {
        assert(cr[i] == cs[i + mid + 1]);
    }
    assert forall|i: int| 0 <= i < cr.len() implies !in_tree(s, #[trigger] cr[i].0 as int, h, x) by {
        assert(cr[i] == cs[i + mid + 1]);
    }
    assert forall|a: int, b: int, q: int| 0 <= a < b < cr.len() implies !(#[trigger] in_tree(s, cr[a].0 as int, h, q)
        && #[trigger] in_tree(s, cr[b].0 as int, h, q)) by {
        assert(cr[a] == cs[a + mid + 1]);
        assert(cr[b] == cs[b + mid + 1]);
    }
    assert forall|a: int, b: int, e: int| 0 <= a < b < cr.len() implies !(#[trigger] holds_data(s, cr[a].0 as int, h, e)
        && #[trigger] holds_data(s, cr[b].0 as int, h, e)) by {
        assert(cr[a] == cs[a + mid + 1]);
        assert(cr[b] == cs[b + mid + 1]);
    }
}


/// After an insert below child `j` of branch `id`, the other children and
/// the branch page itself are as they were.
pub proof fn lemma_siblings_stable(s: Seq<Slot>, s1: Seq<Slot>, id: int, h: nat, lo: Option<Seq<u8>>, hi: Option<Seq<u8>>, j: int)
    requires
        h > 0,
        wf_node(s, id, h, lo, hi),
        0 <= j < kids(node(s, id)).len(),
        only_changes(s, s1, kids(node(s, id))[j].0 as int, (h - 1) as nat),
    ensures
        is_index_slot(s1, id),
        node(s1, id) == node(s, id),
        forall|i: int| 0 <= i < kids(node(s, id)).len() && i != j ==> {
            &&& wf_node(s1, #[trigger] kids(node(s, id))[i].0 as int, (h - 1) as nat, child_lo(node(s, id), i, lo), child_hi(node(s, id), i, hi))
            &&& forall|q: int| #[trigger] in_tree(s1, kids(node(s, id))[i].0 as int, (h - 1) as nat, q) == in_tree(s, kids(node(s, id))[i].0 as int, (h - 1) as nat, q)
            &&& forall|e: int| #[trigger] holds_data(s1, kids(node(s, id))[i].0 as int, (h - 1) as nat, e) == holds_data(s, kids(node(s, id))[i].0 as int, (h - 1) as nat, e)
            &&& forall|k: Seq<u8>| #[trigger] lookup(s1, kids(node(s, id))[i].0 as int, (h - 1) as nat, k) == lookup(s, kids(node(s, id))[i].0 as int, (h - 1) as nat, k)
        },
{
    let p = node(s, id);
    let cs = kids(p);
    let hc = (h - 1) as nat;
    let c = cs[j].0 as int;
    lemma_kids_of_branch(s, id, h, lo, hi);
    assert(!in_tree(s, c, hc, id));
    assert(s1[id] == s[id]);
    assert forall|i: int| 0 <= i < cs.len() && i != j implies {
        &&& wf_node(s1, #[trigger] cs[i].0 as int, hc, child_lo(p, i, lo), child_hi(p, i, hi))
        &&& forall|q: int| #[trigger] in_tree(s1, cs[i].0 as int, hc, q) == in_tree(s, cs[i].0 as int, hc, q)
        &&& forall|e: int| #[trigger] holds_data(s1, cs[i].0 as int, hc, e) == holds_data(s, cs[i].0 as int, hc, e)
        &&& forall|k: Seq<u8>| #[trigger] lookup(s1, cs[i].0 as int, hc, k) == lookup(s, cs[i].0 as int, hc, k)
    } by {
        let ci = cs[i].0 as int;
        assert(wf_node(s, ci, hc, clo(node_keys(p), i, lo), chi(node_keys(p), i, hi)));
        assert forall|q: int| #[trigger] in_tree(s, ci, hc, q) implies 0 <= q < s.len() && q < s1.len() && s1[q] == s[q] by {
            lemma_in_tree_bounds(s, ci, hc, child_lo(p, i, lo), child_hi(p, i, hi), q);
            if in_tree(s, c, hc, q) {
                if i < j {
                    assert(!(in_tree(s, cs[i].0 as int, hc, q) && in_tree(s, cs[j].0 as int, hc, q)));
                } else {
                    assert(!(in_tree(s, cs[j].0 as int, hc, q) && in_tree(s, cs[i].0 as int, hc, q)));
                }
            }
        }
        assert forall|e: int| #[trigger] holds_data(s, ci, hc, e) implies 0 <= e < s.len() && e < s1.len() && s1[e] == s[e] by {
            lemma_holds_data_bounds(s, ci, hc, child_lo(p, i, lo), child_hi(p, i, hi), e);
            if in_tree(s, c, hc, e) {
                lemma_in_tree_bounds(s, c, hc, child_lo(p, j, lo), child_hi(p, j, hi), e);
            }
        }
        lemma_frame(s, s1, ci, hc, child_lo(p, i, lo), child_hi(p, i, hi));
    }
}


/// The separators of a branch after child `j` reported a split.
pub open spec fn keys_after(ks: Seq<Seq<u8>>, j: int, sp: Option<(Seq<u8>, PageId)>) -> Seq<Seq<u8>> {
    match sp {
        None => ks,
        Some((pk, _)) => ks.insert(j, pk),
    }
}

/// The children of a branch after child `j` reported a split.
pub open spec fn kids_after(cs: Seq<PageId>, j: int, sp: Option<(Seq<u8>, PageId)>) -> Seq<PageId> {
    match sp {
        None => cs,
        Some((_, nid)) => cs.insert(j + 1, nid),
    }
}

/// What the children of branch `id` look like after inserting `k` below the
/// child that `k` routes to.
#[verifier::spinoff_prover]
#[verifier::rlimit(80)]
pub proof fn lemma_kids_after_insert_none(s: Seq<Slot>, s1: Seq<Slot>, id: int, h: nat, lo: Option<Seq<u8>>, hi: Option<Seq<u8>>,
    k: Seq<u8>, d: PageId, sp: Option<(Seq<u8>, PageId)>)
    requires
        h > 0,
        wf_node(s, id, h, lo, hi),
        is_data_slot(s, d.0 as int),
        !holds_data(s, id, h, d.0 as int),
        only_changes(s, s1, kids(node(s, id))[route(node_keys(node(s, id)), k)].0 as int, (h - 1) as nat),
        insert_done(s, s1, kids(node(s, id))[route(node_keys(node(s, id)), k)].0 as int, (h - 1) as nat,
            clo(node_keys(node(s, id)), route(node_keys(node(s, id)), k), lo), chi(node_keys(node(s, id)), route(node_keys(node(s, id)), k), hi), k, d, sp),
        sp is None,
    ensures
        ({
            let p = node(s, id);
            let j = route(node_keys(p), k);
            let ks3 = keys_after(node_keys(p), j, sp);
            let cs3 = kids_after(kids(p), j, sp);
            let hc = (h - 1) as nat;
            &&& is_index_slot(s1, id)
            &&& node(s1, id) == p
            &&& kids_ok(s1, ks3, cs3, hc, lo, hi, id)
            &&& forall|i: int, q: int| 0 <= i < cs3.len() && #[trigger] in_tree(s1, cs3[i].0 as int, hc, q) ==> in_tree(s, id, h, q) || fresh_in(s, q)
            &&& forall|i: int, e: int| 0 <= i < cs3.len() && #[trigger] holds_data(s1, cs3[i].0 as int, hc, e) ==> holds_data(s, id, h, e) || e == d.0
            &&& forall|k2: Seq<u8>| #[trigger] lookup(s1, cs3[route(ks3, k2)].0 as int, hc, k2) == if k2 == k { Some(d) } else { lookup(s, id, h, k2) }
            &&& only_changes(s, s1, id, h)
        }),
{
    let p = node(s, id);
    let ks = node_keys(p);
    let cs = kids(p);
    let j = route(ks, k);
    let hc = (h - 1) as nat;
    let c = cs[j].0 as int;
    let ks3 = keys_after(ks, j, sp);
    let cs3 = kids_after(cs, j, sp);
    lemma_route_bounds(ks, k);
    lemma_kids_of_branch(s, id, h, lo, hi);
    lemma_siblings_stable(s, s1, id, h, lo, hi, j);
    lemma_route_split(ks, k);
    // Nodes of child j's old subtree are nodes of this subtree.
    assert forall|q: int| #[trigger] in_tree(s, c, hc, q) implies in_tree(s, id, h, q) by {
        lemma_in_tree_branch(s, id, h, q);
    }
    assert forall|e: int| #[trigger] holds_data(s, c, hc, e) implies holds_data(s, id, h, e) by {
        lemma_holds_data_branch(s, id, h, e);
    }
    assert(!holds_data(s, c, hc, d.0 as int));
    // Pages of the other children are neither new nor in child j's new subtrees.
    assert forall|i: int, q: int| 0 <= i < cs.len() && i != j && #[trigger] in_tree(s, cs[i].0 as int, hc, q) implies !fresh_in(s, q) && !in_tree(s, c, hc, q) by {
        lemma_in_tree_bounds(s, cs[i].0 as int, hc, clo(ks, i, lo), chi(ks, i, hi), q);
        if i < j {
            assert(!(in_tree(s, cs[i].0 as int, hc, q) && in_tree(s, cs[j].0 as int, hc, q)));
        } else {
            assert(!(in_tree(s, cs[j].0 as int, hc, q) && in_tree(s, cs[i].0 as int, hc, q)));
        }
    }
    assert forall|i: int, e: int| 0 <= i < cs.len() && i != j && #[trigger] holds_data(s, cs[i].0 as int, hc, e) implies e != d.0 && !holds_data(s, c, hc, e) by {
        lemma_holds_data_branch(s, id, h, e);
        if i < j {
            assert(!(holds_data(s, cs[i].0 as int, hc, e) && holds_data(s, cs[j].0 as int, hc, e)));
        } else {
            assert(!(holds_data(s, cs[j].0 as int, hc, e) && holds_data(s, cs[i].0 as int, hc, e)));
        }
    }
    assert(!fresh_in(s, id));
    // The result trees of child j.
    let new_trees = match sp {
        None => seq![c],
        Some((_, nid)) => seq![c, nid.0 as int],
    };
    assert forall|t: int, q: int| 0 <= t < new_trees.len() && #[trigger] in_tree(s1, new_trees[t], hc, q) implies (in_tree(s, c, hc, q) || fresh_in(s, q)) by {}
    assert forall|t: int, e: int| 0 <= t < new_trees.len() && #[trigger] holds_data(s1, new_trees[t], hc, e) implies (holds_data(s, c, hc, e) || e == d.0) by {}
    assert forall|t: int| 0 <= t < new_trees.len() implies !in_tree(s1, #[trigger] new_trees[t], hc, id) by {}
    // Origin of the pages under each new child.
    assert forall|i: int, q: int| 0 <= i < cs3.len() && #[trigger] in_tree(s1, cs3[i].0 as int, hc, q) implies in_tree(s, id, h, q) || fresh_in(s, q) by {
        match sp {
            None => {
                if i != j {
                    lemma_in_tree_branch(s, id, h, q);
                    assert(in_tree(s, cs[i].0 as int, hc, q));
                }
            },
            Some((pk, nid)) => {
                if i < j {
                    assert(cs3[i] == cs[i]);
                    lemma_in_tree_branch(s, id, h, q);
                    assert(in_tree(s, cs[i].0 as int, hc, q));
                } else if i > j + 1 {
                    assert(cs3[i] == cs[i - 1]);
                    lemma_in_tree_branch(s, id, h, q);
                    assert(in_tree(s, cs[i - 1].0 as int, hc, q));
                } else if i == j {
                    assert(cs3[i] == cs[j]);
                } else {
                    assert(cs3[i] == nid);
                }
            },
        }
    }
    assert forall|i: int, e: int| 0 <= i < cs3.len() && #[trigger] holds_data(s1, cs3[i].0 as int, hc, e) implies holds_data(s, id, h, e) || e == d.0 by {
        match sp {
            None => {
                if i != j {
                    lemma_holds_data_branch(s, id, h, e);
                    assert(holds_data(s, cs[i].0 as int, hc, e));
                }
            },
            Some((pk, nid)) => {
                if i < j {
                    assert(cs3[i] == cs[i]);
                    lemma_holds_data_branch(s, id, h, e);
                    assert(holds_data(s, cs[i].0 as int, hc, e));
                } else if i > j + 1 {
                    assert(cs3[i] == cs[i - 1]);
                    lemma_holds_data_branch(s, id, h, e);
                    assert(holds_data(s, cs[i - 1].0 as int, hc, e));
                } else if i == j {
                    assert(cs3[i] == cs[j]);
                } else {
                    assert(cs3[i] == nid);
                }
            },
        }
    }
    // Children and their bounds.
            assert forall|i: int| 0 <= i < cs3.len() implies wf_node(s1, #[trigger] cs3[i].0 as int, hc, clo(ks3, i, lo), chi(ks3, i, hi)) by {
                if i != j {
                    assert(wf_node(s1, cs[i].0 as int, hc, child_lo(p, i, lo), child_hi(p, i, hi)));
                }
            }
            assert forall|i: int| 0 <= i < cs3.len() implies !in_tree(s1, #[trigger] cs3[i].0 as int, hc, id) by {}
            assert forall|a: int, b: int, q: int| 0 <= a < b < cs3.len() implies !(#[trigger] in_tree(s1, cs3[a].0 as int, hc, q)
                && #[trigger] in_tree(s1, cs3[b].0 as int, hc, q)) by {
                if in_tree(s1, cs3[a].0 as int, hc, q) && in_tree(s1, cs3[b].0 as int, hc, q) {
                    if a == j {
                        assert(in_tree(s, cs[b].0 as int, hc, q));
                    } else if b == j {
                        assert(in_tree(s, cs[a].0 as int, hc, q));
                    } else {
                        assert(in_tree(s, cs[a].0 as int, hc, q));
                        assert(in_tree(s, cs[b].0 as int, hc, q));
                    }
                }
            }
            assert forall|a: int, b: int, e: int| 0 <= a < b < cs3.len() implies !(#[trigger] holds_data(s1, cs3[a].0 as int, hc, e)
                && #[trigger] holds_data(s1, cs3[b].0 as int, hc, e)) by {
                if holds_data(s1, cs3[a].0 as int, hc, e) && holds_data(s1, cs3[b].0 as int, hc, e) {
                    if a == j {
                        assert(holds_data(s, cs[b].0 as int, hc, e));
                    } else if b == j {
                        assert(holds_data(s, cs[a].0 as int, hc, e));
                    } else {
                        assert(holds_data(s, cs[a].0 as int, hc, e));
                        assert(holds_data(s, cs[b].0 as int, hc, e));
                    }
                }
            }
            assert(kids_ok(s1, ks3, cs3, hc, lo, hi, id));
            assert forall|k2: Seq<u8>| #[trigger] lookup(s1, cs3[route(ks3, k2)].0 as int, hc, k2) == if k2 == k { Some(d) } else { lookup(s, id, h, k2) } by {
                lemma_route_bounds(ks, k2);
                let r = route(ks, k2);
                if r != j {
                    assert(lookup(s1, cs[r].0 as int, hc, k2) == lookup(s, cs[r].0 as int, hc, k2));
                    lemma_route_split(ks, k2);
                    if k2 == k {
                        assert(r == j);
                    }
                }
            }
        
    assert forall|q: int| 0 <= q < s.len() && !(s[q] is Free) && !in_tree(s, id, h, q) implies #[trigger] s1[q] == s[q] by {}
}


/// Child `route(k)` of branch `id` took `k` and split (`sp` is `Some`).
pub open spec fn child_split(s: Seq<Slot>, s1: Seq<Slot>, id: int, h: nat, lo: Option<Seq<u8>>, hi: Option<Seq<u8>>,
    k: Seq<u8>, d: PageId, sp: Option<(Seq<u8>, PageId)>) -> bool
{
    let p = node(s, id);
    let j = route(node_keys(p), k);
    &&& h > 0
    &&& wf_node(s, id, h, lo, hi)
    &&& is_data_slot(s, d.0 as int)
    &&& !holds_data(s, id, h, d.0 as int)
    &&& only_changes(s, s1, kids(p)[j].0 as int, (h - 1) as nat)
    &&& insert_done(s, s1, kids(p)[j].0 as int, (h - 1) as nat, clo(node_keys(p), j, lo), chi(node_keys(p), j, hi), k, d, sp)
    &&& sp is Some
}

/// What a split below child `j` leaves of the branch and of the other children.
#[verifier::spinoff_prover]
#[verifier::rlimit(40)]
pub proof fn lemma_split_context(s: Seq<Slot>, s1: Seq<Slot>, id: int, h: nat, lo: Option<Seq<u8>>, hi: Option<Seq<u8>>,
    k: Seq<u8>, d: PageId, sp: Option<(Seq<u8>, PageId)>)
    requires
        child_split(s, s1, id, h, lo, hi, k, d, sp),
    ensures
        ({
            let p = node(s, id);
            let ks = node_keys(p);
            let cs = kids(p);
            let j = route(ks, k);
            let hc = (h - 1) as nat;
            let c = cs[j].0 as int;
            &&& 0 <= j <= ks.len()
            &&& is_index_slot(s1, id)
            &&& node(s1, id) == p
            &&& kids_ok(s, ks, cs, hc, lo, hi, id)
            &&& !fresh_in(s, id)
            &&& !holds_data(s, c, hc, d.0 as int)
            &&& forall|q: int| #[trigger] in_tree(s, c, hc, q) ==> in_tree(s, id, h, q)
            &&& forall|e: int| #[trigger] holds_data(s, c, hc, e) ==> holds_data(s, id, h, e)
            &&& forall|i: int, q: int| 0 <= i < cs.len() && i != j && #[trigger] in_tree(s, cs[i].0 as int, hc, q) ==> !fresh_in(s, q) && !in_tree(s, c, hc, q) && in_tree(s, id, h, q)
            &&& forall|i: int, e: int| 0 <= i < cs.len() && i != j && #[trigger] holds_data(s, cs[i].0 as int, hc, e) ==> e != d.0 && !holds_data(s, c, hc, e) && holds_data(s, id, h, e)
            &&& forall|i: int| 0 <= i < cs.len() && i != j ==> {
                &&& wf_node(s1, #[trigger] cs[i].0 as int, hc, clo(ks, i, lo), chi(ks, i, hi))
                &&& forall|q: int| #[trigger] in_tree(s1, cs[i].0 as int, hc, q) == in_tree(s, cs[i].0 as int, hc, q)
                &&& forall|e: int| #[trigger] holds_data(s1, cs[i].0 as int, hc, e) == holds_data(s, cs[i].0 as int, hc, e)
                &&& forall|k2: Seq<u8>| #[trigger] lookup(s1, cs[i].0 as int, hc, k2) == lookup(s, cs[i].0 as int, hc, k2)
            }
            &&& only_changes(s, s1, id, h)
        }),
{
    let p = node(s, id);
    let ks = node_keys(p);
    let cs = kids(p);
    let j = route(ks, k);
    let hc = (h - 1) as nat;
    let c = cs[j].0 as int;
    lemma_route_bounds(ks, k);
    lemma_kids_of_branch(s, id, h, lo, hi);
    lemma_siblings_stable(s, s1, id, h, lo, hi, j);
    assert forall|q: int| #[trigger] in_tree(s, c, hc, q) implies in_tree(s, id, h, q) by {
        lemma_in_tree_branch(s, id, h, q);
    }
    assert forall|e: int| #[trigger] holds_data(s, c, hc, e) implies holds_data(s, id, h, e) by {
        lemma_holds_data_branch(s, id, h, e);
    }
    assert forall|i: int, q: int| 0 <= i < cs.len() && i != j && #[trigger] in_tree(s, cs[i].0 as int, hc, q) implies !fresh_in(s, q) && !in_tree(s, c, hc, q) && in_tree(s, id, h, q) by {
        lemma_in_tree_bounds(s, cs[i].0 as int, hc, clo(ks, i, lo), chi(ks, i, hi), q);
        lemma_in_tree_branch(s, id, h, q);
        if i < j {
            assert(!(in_tree(s, cs[i].0 as int, hc, q) && in_tree(s, cs[j].0 as int, hc, q)));
        } else {
            assert(!(in_tree(s, cs[j].0 as int, hc, q) && in_tree(s, cs[i].0 as int, hc, q)));
        }
    }
    assert forall|i: int, e: int| 0 <= i < cs.len() && i != j && #[trigger] holds_data(s, cs[i].0 as int, hc, e) implies e != d.0 && !holds_data(s, c, hc, e) && holds_data(s, id, h, e) by {
        lemma_holds_data_branch(s, id, h, e);
        if i < j {
            assert(!(holds_data(s, cs[i].0 as int, hc, e) && holds_data(s, cs[j].0 as int, hc, e)));
        } else {
            assert(!(holds_data(s, cs[j].0 as int, hc, e) && holds_data(s, cs[i].0 as int, hc, e)));
        }
    }
    assert(in_tree(s, id, h, id));
    assert forall|q: int| 0 <= q < s.len() && !(s[q] is Free) && !in_tree(s, id, h, q) implies #[trigger] s1[q] == s[q] by {}
}

/// Where the pages under the children of branch `id` come from, after a split below child `j`.
#[verifier::spinoff_prover]
#[verifier::rlimit(40)]
pub proof fn lemma_split_origin(s: Seq<Slot>, s1: Seq<Slot>, id: int, h: nat, lo: Option<Seq<u8>>, hi: Option<Seq<u8>>,
    k: Seq<u8>, d: PageId, sp: Option<(Seq<u8>, PageId)>)
    requires
        child_split(s, s1, id, h, lo, hi, k, d, sp),
    ensures
        ({
            let p = node(s, id);
            let j = route(node_keys(p), k);
            let cs3 = kids_after(kids(p), j, sp);
            let hc = (h - 1) as nat;
            &&& forall|i: int, q: int| 0 <= i < cs3.len() && #[trigger] in_tree(s1, cs3[i].0 as int, hc, q) ==> in_tree(s, id, h, q) || fresh_in(s, q)
            &&& forall|i: int, e: int| 0 <= i < cs3.len() && #[trigger] holds_data(s1, cs3[i].0 as int, hc, e) ==> holds_data(s, id, h, e) || e == d.0
        }),
{
    let p = node(s, id);
    let ks = node_keys(p);
    let cs = kids(p);
    let j = route(ks, k);
    let hc = (h - 1) as nat;
    let c = cs[j].0 as int;
    let cs3 = kids_after(cs, j, sp);
    let (pk, nid) = sp->0;
    lemma_split_context(s, s1, id, h, lo, hi, k, d, sp);
    assert forall|i: int, q: int| 0 <= i < cs3.len() && #[trigger] in_tree(s1, cs3[i].0 as int, hc, q) implies in_tree(s, id, h, q) || fresh_in(s, q) by {
        if i < j {
            assert(cs3[i] == cs[i]);
            assert(in_tree(s, cs[i].0 as int, hc, q));
        } else if i > j + 1 {
            assert(cs3[i] == cs[i - 1]);
            assert(in_tree(s, cs[i - 1].0 as int, hc, q));
        } else if i == j {
            assert(cs3[i] == cs[j]);
        } else {
            assert(cs3[i] == nid);
        }
    }
    assert forall|i: int, e: int| 0 <= i < cs3.len() && #[trigger] holds_data(s1, cs3[i].0 as int, hc, e) implies holds_data(s, id, h, e) || e == d.0 by {
        if i < j {
            assert(cs3[i] == cs[i]);
            assert(holds_data(s, cs[i].0 as int, hc, e));
        } else if i > j + 1 {
            assert(cs3[i] == cs[i - 1]);
            assert(holds_data(s, cs[i - 1].0 as int, hc, e));
        } else if i == j {
            assert(cs3[i] == cs[j]);
        } else {
            assert(cs3[i] == nid);
        }
    }
}

/// After a split below child `j`, each child in the new order is a
/// well-formed subtree between the separators around it.
#[verifier::spinoff_prover]
#[verifier::rlimit(60)]
pub proof fn lemma_split_kids_wf(s: Seq<Slot>, s1: Seq<Slot>, id: int, h: nat, lo: Option<Seq<u8>>, hi: Option<Seq<u8>>,
    k: Seq<u8>, d: PageId, sp: Option<(Seq<u8>, PageId)>)
    requires
        child_split(s, s1, id, h, lo, hi, k, d, sp),
    ensures
        ({
            let p = node(s, id);
            let j = route(node_keys(p), k);
            let ks3 = keys_after(node_keys(p), j, sp);
            let cs3 = kids_after(kids(p), j, sp);
            forall|i: int| 0 <= i < cs3.len() ==> wf_node(s1, #[trigger] cs3[i].0 as int, (h - 1) as nat, clo(ks3, i, lo), chi(ks3, i, hi))
        }),
{
    let p = node(s, id);
    let ks = node_keys(p);
    let cs = kids(p);
    let j = route(ks, k);
    let hc = (h - 1) as nat;
    let ks3 = keys_after(ks, j, sp);
    let cs3 = kids_after(cs, j, sp);
    let (pk, nid) = sp->0;
    lemma_split_context(s, s1, id, h, lo, hi, k, d, sp);
    lemma_branch_insert(ks, j, pk, lo, hi);
    assert forall|i: int| 0 <= i < cs3.len() implies wf_node(s1, #[trigger] cs3[i].0 as int, hc, clo(ks3, i, lo), chi(ks3, i, hi)) by {
        if i < j {
            assert(cs3[i] == cs[i]);
        } else if i > j + 1 {
            assert(cs3[i] == cs[i - 1]);
        } else if i == j {
            assert(cs3[i] == cs[j]);
        } else {
            assert(cs3[i] == nid);
        }
    }
}

/// After a split below child `j`, no child in the new order holds the branch.
#[verifier::spinoff_prover]
#[verifier::rlimit(60)]
pub proof fn lemma_split_kids_apart(s: Seq<Slot>, s1: Seq<Slot>, id: int, h: nat, lo: Option<Seq<u8>>, hi: Option<Seq<u8>>,
    k: Seq<u8>, d: PageId, sp: Option<(Seq<u8>, PageId)>)
    requires
        child_split(s, s1, id, h, lo, hi, k, d, sp),
    ensures
        ({
            let p = node(s, id);
            let j = route(node_keys(p), k);
            let ks3 = keys_after(node_keys(p), j, sp);
            let cs3 = kids_after(kids(p), j, sp);
            forall|i: int| 0 <= i < cs3.len() ==> !in_tree(s1, #[trigger] cs3[i].0 as int, (h - 1) as nat, id)
        }),
{
    let p = node(s, id);
    let ks = node_keys(p);
    let cs = kids(p);
    let j = route(ks, k);
    let hc = (h - 1) as nat;
    let ks3 = keys_after(ks, j, sp);
    let cs3 = kids_after(cs, j, sp);
    let (pk, nid) = sp->0;
    lemma_split_context(s, s1, id, h, lo, hi, k, d, sp);
    lemma_branch_insert(ks, j, pk, lo, hi);
    assert forall|i: int| 0 <= i < cs3.len() implies !in_tree(s1, #[trigger] cs3[i].0 as int, hc, id) by {
        if i < j {
            assert(cs3[i] == cs[i]);
        } else if i > j + 1 {
            assert(cs3[i] == cs[i - 1]);
        } else if i == j {
            assert(cs3[i] == cs[j]);
        } else {
            assert(cs3[i] == nid);
        }
    }
}

/// After a split below child `j`, the separators and children with the new
/// child in place form a well-formed inside of a branch.
#[verifier::spinoff_prover]
#[verifier::rlimit(60)]
pub proof fn lemma_split_kids(s: Seq<Slot>, s1: Seq<Slot>, id: int, h: nat, lo: Option<Seq<u8>>, hi: Option<Seq<u8>>,
    k: Seq<u8>, d: PageId, sp: Option<(Seq<u8>, PageId)>)
    requires
        child_split(s, s1, id, h, lo, hi, k, d, sp),
    ensures
        ({
            let p = node(s, id);
            let j = route(node_keys(p), k);
            kids_ok(s1, keys_after(node_keys(p), j, sp), kids_after(kids(p), j, sp), (h - 1) as nat, lo, hi, id)
        }),
{
    let p = node(s, id);
    let ks = node_keys(p);
    let cs = kids(p);
    let j = route(ks, k);
    let hc = (h - 1) as nat;
    let (pk, nid) = sp->0;
    lemma_split_context(s, s1, id, h, lo, hi, k, d, sp);
    lemma_branch_insert(ks, j, pk, lo, hi);
    lemma_split_kids_wf(s, s1, id, h, lo, hi, k, d, sp);
    lemma_split_kids_apart(s, s1, id, h, lo, hi, k, d, sp);
    lemma_disjoint_after_split(s, s1, cs, j, nid, hc);
    lemma_data_disjoint_after_split(s, s1, cs, j, nid, hc, d.0 as int);
}

/// After a split below child `j`, a search through the new separators finds
/// what the subtree held before, and `k` at `d`.
#[verifier::spinoff_prover]
#[verifier::rlimit(40)]
pub proof fn lemma_split_lookup(s: Seq<Slot>, s1: Seq<Slot>, id: int, h: nat, lo: Option<Seq<u8>>, hi: Option<Seq<u8>>,
    k: Seq<u8>, d: PageId, sp: Option<(Seq<u8>, PageId)>)
    requires
        child_split(s, s1, id, h, lo, hi, k, d, sp),
    ensures
        ({
            let p = node(s, id);
            let j = route(node_keys(p), k);
            let ks3 = keys_after(node_keys(p), j, sp);
            let cs3 = kids_after(kids(p), j, sp);
            forall|k2: Seq<u8>| #[trigger] lookup(s1, cs3[route(ks3, k2)].0 as int, (h - 1) as nat, k2) == if k2 == k { Some(d) } else { lookup(s, id, h, k2) }
        }),
{
    let p = node(s, id);
    let ks = node_keys(p);
    let cs = kids(p);
    let j = route(ks, k);
    let hc = (h - 1) as nat;
    let ks3 = keys_after(ks, j, sp);
    let cs3 = kids_after(cs, j, sp);
    let (pk, nid) = sp->0;
    lemma_split_context(s, s1, id, h, lo, hi, k, d, sp);
    lemma_branch_insert(ks, j, pk, lo, hi);
    lemma_route_split(ks, k);
    assert forall|k2: Seq<u8>| #[trigger] lookup(s1, cs3[route(ks3, k2)].0 as int, hc, k2) == if k2 == k { Some(d) } else { lookup(s, id, h, k2) } by {
        lemma_route_bounds(ks, k2);
        let r = route(ks, k2);
        lemma_route_split(ks, k2);
        assert(lookup(s, id, h, k2) == lookup(s, cs[r].0 as int, hc, k2));
        if r < j {
            assert(cs3[r] == cs[r]);
            if k2 == k {
                assert(r == j);
            }
        } else if r > j {
            assert(cs3[r + 1] == cs[r]);
            if k2 == k {
                assert(r == j);
            }
        } else {
            if key_lt(k2, pk) {
                assert(cs3[j] == cs[j]);
            } else {
                assert(cs3[j + 1] == nid);
            }
        }
    }
}

/// After child `j` split into itself and `nid`, the subtrees of the new list
/// of children share no node.
#[verifier::spinoff_prover]
pub proof fn lemma_disjoint_after_split(s: Seq<Slot>, s1: Seq<Slot>, cs: Seq<PageId>, j: int, nid: PageId, hc: nat)
    requires
        0 <= j < cs.len(),
        forall|a: int, b: int, q: int| 0 <= a < b < cs.len() ==> !(#[trigger] in_tree(s, cs[a].0 as int, hc, q)
            && #[trigger] in_tree(s, cs[b].0 as int, hc, q)),
        forall|i: int, q: int| 0 <= i < cs.len() && i != j ==> #[trigger] in_tree(s1, cs[i].0 as int, hc, q) == in_tree(s, cs[i].0 as int, hc, q),
        forall|i: int, q: int| 0 <= i < cs.len() && i != j && #[trigger] in_tree(s, cs[i].0 as int, hc, q) ==> !fresh_in(s, q) && !in_tree(s, cs[j].0 as int, hc, q),
        forall|q: int| #[trigger] in_tree(s1, cs[j].0 as int, hc, q) ==> in_tree(s, cs[j].0 as int, hc, q) || fresh_in(s, q),
        forall|q: int| #[trigger] in_tree(s1, nid.0 as int, hc, q) ==> in_tree(s, cs[j].0 as int, hc, q) || fresh_in(s, q),
        forall|q: int| !(#[trigger] in_tree(s1, cs[j].0 as int, hc, q) && #[trigger] in_tree(s1, nid.0 as int, hc, q)),
    ensures
        forall|a: int, b: int, q: int| 0 <= a < b < cs.insert(j + 1, nid).len() ==> !(#[trigger] in_tree(s1, cs.insert(j + 1, nid)[a].0 as int, hc, q)
            && #[trigger] in_tree(s1, cs.insert(j + 1, nid)[b].0 as int, hc, q)),
{
    let cs3 = cs.insert(j + 1, nid);
    assert forall|a: int, b: int, q: int| 0 <= a < b < cs3.len() implies !(#[trigger] in_tree(s1, cs3[a].0 as int, hc, q)
        && #[trigger] in_tree(s1, cs3[b].0 as int, hc, q)) by {
        if in_tree(s1, cs3[a].0 as int, hc, q) && in_tree(s1, cs3[b].0 as int, hc, q) {
            let oa = if a <= j { a } else { a - 1 };
            let ob = if b <= j { b } else { b - 1 };
            let na = a == j || a == j + 1;
            let nb = b == j || b == j + 1;
            if na && nb {
                assert(cs3[a] == cs[j]);
                assert(cs3[b] == nid);
            } else if na {
                assert(cs3[b] == cs[ob]);
                assert(in_tree(s, cs[ob].0 as int, hc, q));
                if a == j {
                    assert(cs3[a] == cs[j]);
                } else {
                    assert(cs3[a] == nid);
                }
            } else if nb {
                assert(cs3[a] == cs[oa]);
                assert(in_tree(s, cs[oa].0 as int, hc, q));
                if b == j {
                    assert(cs3[b] == cs[j]);
                } else {
                    assert(cs3[b] == nid);
                }
            } else {
                assert(cs3[a] == cs[oa]);
                assert(cs3[b] == cs[ob]);
                assert(in_tree(s, cs[oa].0 as int, hc, q));
                assert(in_tree(s, cs[ob].0 as int, hc, q));
            }
        }
    }
}

/// After child `j` split into itself and `nid`, the subtrees of the new list
/// of children share no value page.
#[verifier::spinoff_prover]
pub proof fn lemma_data_disjoint_after_split(s: Seq<Slot>, s1: Seq<Slot>, cs: Seq<PageId>, j: int, nid: PageId, hc: nat, d: int)
    requires
        0 <= j < cs.len(),
        forall|a: int, b: int, e: int| 0 <= a < b < cs.len() ==> !(#[trigger] holds_data(s, cs[a].0 as int, hc, e)
            && #[trigger] holds_data(s, cs[b].0 as int, hc, e)),
        forall|i: int, e: int| 0 <= i < cs.len() && i != j ==> #[trigger] holds_data(s1, cs[i].0 as int, hc, e) == holds_data(s, cs[i].0 as int, hc, e),
        forall|i: int, e: int| 0 <= i < cs.len() && i != j && #[trigger] holds_data(s, cs[i].0 as int, hc, e) ==> !holds_data(s, cs[j].0 as int, hc, e),
        forall|i: int, e: int| 0 <= i < cs.len() && i != j && #[trigger] holds_data(s, cs[i].0 as int, hc, e) ==> e != d,
        forall|e: int| #[trigger] holds_data(s1, cs[j].0 as int, hc, e) ==> holds_data(s, cs[j].0 as int, hc, e) || e == d,
        forall|e: int| #[trigger] holds_data(s1, nid.0 as int, hc, e) ==> holds_data(s, cs[j].0 as int, hc, e) || e == d,
        forall|e: int| !(#[trigger] holds_data(s1, cs[j].0 as int, hc, e) && #[trigger] holds_data(s1, nid.0 as int, hc, e)),
    ensures
        forall|a: int, b: int, e: int| 0 <= a < b < cs.insert(j + 1, nid).len() ==> !(#[trigger] holds_data(s1, cs.insert(j + 1, nid)[a].0 as int, hc, e)
            && #[trigger] holds_data(s1, cs.insert(j + 1, nid)[b].0 as int, hc, e)),
{
    let cs3 = cs.insert(j + 1, nid);
    assert forall|a: int, b: int, e: int| 0 <= a < b < cs3.len() implies !(#[trigger] holds_data(s1, cs3[a].0 as int, hc, e)
        && #[trigger] holds_data(s1, cs3[b].0 as int, hc, e)) by {
        if holds_data(s1, cs3[a].0 as int, hc, e) && holds_data(s1, cs3[b].0 as int, hc, e) {
            let oa = if a <= j { a } else { a - 1 };
            let ob = if b <= j { b } else { b - 1 };
            let na = a == j || a == j + 1;
            let nb = b == j || b == j + 1;
            if na && nb {
                assert(cs3[a] == cs[j]);
                assert(cs3[b] == nid);
            } else if na {
                assert(cs3[b] == cs[ob]);
                assert(holds_data(s, cs[ob].0 as int, hc, e));
                if a == j {
                    assert(cs3[a] == cs[j]);
                } else {
                    assert(cs3[a] == nid);
                }
            } else if nb {
                assert(cs3[a] == cs[oa]);
                assert(holds_data(s, cs[oa].0 as int, hc, e));
                if b == j {
                    assert(cs3[b] == cs[j]);
                } else {
                    assert(cs3[b] == nid);
                }
            } else {
                assert(cs3[a] == cs[oa]);
                assert(cs3[b] == cs[ob]);
                assert(holds_data(s, cs[oa].0 as int, hc, e));
                assert(holds_data(s, cs[ob].0 as int, hc, e));
            }
        }
    }
}


/// A separator that lies strictly inside the bounds of child `j` is new to
/// the keys and routes to `j`.
pub proof fn lemma_separator_route(ks: Seq<Seq<u8>>, j: int, pk: Seq<u8>, lo: Option<Seq<u8>>, hi: Option<Seq<u8>>)
    requires
        sorted(ks),
        0 <= j <= ks.len(),
        strictly_above(pk, clo(ks, j, lo)),
        below_hi(pk, chi(ks, j, hi)),
    ensures
        route(ks, pk) == j,
        find(ks, pk) == -1,
{
    assert forall|i: int| 0 <= i < j implies !key_lt(pk, #[trigger] ks[i]) by {
        if i < j - 1 {
            lemma_key_order(ks[i], ks[j - 1], pk);
        }
        lemma_key_order(ks[i], pk, ks[i]);
    }
    assert forall|i: int| j <= i < ks.len() implies key_lt(pk, #[trigger] ks[i]) by {
        if i > j {
            lemma_key_order(pk, ks[j], ks[i]);
        }
    }
    lemma_route_char(ks, pk, j);
    assert forall|i: int| 0 <= i < ks.len() implies #[trigger] ks[i] != pk by {
        lemma_key_order(pk, pk, pk);
    }
    lemma_find_bounds(ks, pk);
}

/// Children none of whose subtrees holds page `y`.
pub proof fn lemma_kids_move_x(s: Seq<Slot>, ks: Seq<Seq<u8>>, cs: Seq<PageId>, h: nat, lo: Option<Seq<u8>>, hi: Option<Seq<u8>>, x: int, y: int)
    requires
        kids_ok(s, ks, cs, h, lo, hi, x),
        forall|i: int| 0 <= i < cs.len() ==> !in_tree(s, #[trigger] cs[i].0 as int, h, y),
    ensures
        kids_ok(s, ks, cs, h, lo, hi, y),
{
}

/// A page that is free or past the end is no node of a well-formed subtree.
pub proof fn lemma_fresh_not_in_kids(s: Seq<Slot>, ks: Seq<Seq<u8>>, cs: Seq<PageId>, h: nat, lo: Option<Seq<u8>>, hi: Option<Seq<u8>>, x: int, y: int)
    requires
        kids_ok(s, ks, cs, h, lo, hi, x),
        fresh_in(s, y),
    ensures
        forall|i: int| 0 <= i < cs.len() ==> !in_tree(s, #[trigger] cs[i].0 as int, h, y),
{
    assert forall|i: int| 0 <= i < cs.len() implies !in_tree(s, #[trigger] cs[i].0 as int, h, y) by {
        if in_tree(s, cs[i].0 as int, h, y) {
            lemma_in_tree_bounds(s, cs[i].0 as int, h, clo(ks, i, lo), chi(ks, i, hi), y);
        }
    }
}

/// What the children of branch `id` hold after an insert of `k` below one of
/// them, against the subtree before it.
pub open spec fn kids_carry(s: Seq<Slot>, s1: Seq<Slot>, id: int, h: nat, ks3: Seq<Seq<u8>>, cs3: Seq<PageId>, k: Seq<u8>, d: PageId) -> bool {
    let hc = (h - 1) as nat;
    &&& forall|i: int, q: int| 0 <= i < cs3.len() && #[trigger] in_tree(s1, cs3[i].0 as int, hc, q) ==> in_tree(s, id, h, q) || fresh_in(s, q)
    &&& forall|i: int, e: int| 0 <= i < cs3.len() && #[trigger] holds_data(s1, cs3[i].0 as int, hc, e) ==> holds_data(s, id, h, e) || e == d.0
    &&& forall|k2: Seq<u8>| #[trigger] lookup(s1, cs3[route(ks3, k2)].0 as int, hc, k2) == if k2 == k { Some(d) } else { lookup(s, id, h, k2) }
}

/// `s2` keeps the pages of `s1` but `x` and free ones.
pub open spec fn kept_but(s1: Seq<Slot>, s2: Seq<Slot>, x: int) -> bool {
    &&& s2.len() >= s1.len()
    &&& forall|q: int| 0 <= q < s1.len() && q != x && !(s1[q] is Free) ==> #[trigger] s2[q] == s1[q]
}

/// Branch `id` is written back with separators `ks3` and children `cs3`, no split.
#[verifier::spinoff_prover]
#[verifier::rlimit(40)]
pub proof fn lemma_branch_done_none(s: Seq<Slot>, s1: Seq<Slot>, s2: Seq<Slot>, id: int, h: nat, lo: Option<Seq<u8>>, hi: Option<Seq<u8>>,
    k: Seq<u8>, d: PageId, ks3: Seq<Seq<u8>>, cs3: Seq<PageId>)
    requires
        h > 0,
        kids_ok(s1, ks3, cs3, (h - 1) as nat, lo, hi, id),
        kids_carry(s, s1, id, h, ks3, cs3, k, d),
        0 <= id < s1.len(),
        s1[id] is Index,
        kept_but(s1, s2, id),
        is_index_slot(s2, id),
        node(s2, id).header.page_id.0 == id,
        node(s2, id).node_type is Branch,
        node_keys(node(s2, id)) == ks3,
        kids(node(s2, id)) == cs3,
    ensures
        insert_done(s, s2, id, h, lo, hi, k, d, None),
{
    let hc = (h - 1) as nat;
    lemma_kids_frame(s1, s2, ks3, cs3, hc, lo, hi, id);
    lemma_branch_from_kids(s2, id, h, lo, hi);
    assert(in_tree(s, id, h, id));
    assert forall|q: int| #[trigger] in_tree(s2, id, h, q) implies in_tree(s, id, h, q) || fresh_in(s, q) by {
        if q != id {
            let i = choose|i: int| 0 <= i < cs3.len() && #[trigger] in_tree(s2, cs3[i].0 as int, hc, q);
            assert(in_tree(s1, cs3[i].0 as int, hc, q));
        }
    }
    assert forall|e: int| #[trigger] holds_data(s2, id, h, e) implies holds_data(s, id, h, e) || e == d.0 by {
        let i = choose|i: int| 0 <= i < cs3.len() && #[trigger] holds_data(s2, cs3[i].0 as int, hc, e);
        assert(holds_data(s1, cs3[i].0 as int, hc, e));
    }
    assert forall|k2: Seq<u8>| #[trigger] lookup(s2, id, h, k2) == if k2 == k { Some(d) } else { lookup(s, id, h, k2) } by {
        lemma_route_bounds(ks3, k2);
        assert(lookup(s2, cs3[route(ks3, k2)].0 as int, hc, k2) == lookup(s1, cs3[route(ks3, k2)].0 as int, hc, k2));
    }
}

/// Branch `id` is written back as its left half, and `nid` takes the right
/// half, around separator `mid`.
#[verifier::spinoff_prover]
#[verifier::rlimit(80)]
pub proof fn lemma_branch_done_split(s: Seq<Slot>, s1: Seq<Slot>, s2: Seq<Slot>, id: int, nid: PageId, h: nat, lo: Option<Seq<u8>>, hi: Option<Seq<u8>>,
    k: Seq<u8>, d: PageId, ks3: Seq<Seq<u8>>, cs3: Seq<PageId>, mid: int)
    requires
        h > 0,
        kids_ok(s1, ks3, cs3, (h - 1) as nat, lo, hi, id),
        kids_carry(s, s1, id, h, ks3, cs3, k, d),
        0 < mid < ks3.len(),
        0 <= id < s1.len(),
        s1[id] is Index,
        nid.0 != id,
        fresh_in(s1, nid.0 as int),
        fresh_in(s, nid.0 as int),
        kept_but(s1, s2, id),
        is_index_slot(s2, id),
        node(s2, id).header.page_id.0 == id,
        node(s2, id).node_type is Branch,
        node_keys(node(s2, id)) == ks3.subrange(0, mid),
        kids(node(s2, id)) == cs3.subrange(0, mid + 1),
        is_index_slot(s2, nid.0 as int),
        node(s2, nid.0 as int).header.page_id == nid,
        node(s2, nid.0 as int).node_type is Branch,
        node_keys(node(s2, nid.0 as int)) == ks3.subrange(mid + 1, ks3.len() as int),
        kids(node(s2, nid.0 as int)) == cs3.subrange(mid + 1, cs3.len() as int),
    ensures
        insert_done(s, s2, id, h, lo, hi, k, d, Some((ks3[mid], nid))),
{
    let hc = (h - 1) as nat;
    let n = nid.0 as int;
    let pk = ks3[mid];
    let l = ks3.subrange(0, mid);
    let r = ks3.subrange(mid + 1, ks3.len() as int);
    let cl = cs3.subrange(0, mid + 1);
    let cr = cs3.subrange(mid + 1, cs3.len() as int);
    lemma_kids_split(s1, ks3, cs3, hc, lo, hi, id, mid);
    lemma_fresh_not_in_kids(s1, ks3, cs3, hc, lo, hi, id, n);
    lemma_kids_frame(s1, s2, l, cl, hc, lo, Some(pk), id);
    lemma_kids_frame(s1, s2, r, cr, hc, Some(pk), hi, id);
    assert forall|i: int| 0 <= i < cr.len() implies !in_tree(s2, #[trigger] cr[i].0 as int, hc, n) by {
        assert(cr[i] == cs3[i + mid + 1]);
    }
    lemma_kids_move_x(s2, r, cr, hc, Some(pk), hi, id, n);
    lemma_branch_from_kids(s2, id, h, lo, Some(pk));
    lemma_branch_from_kids(s2, n, h, Some(pk), hi);
    assert(in_tree(s, id, h, id));
    assert forall|q: int| #[trigger] in_tree(s2, id, h, q) implies in_tree(s, id, h, q) || fresh_in(s, q) by {
        if q != id {
            let i = choose|i: int| 0 <= i < cl.len() && #[trigger] in_tree(s2, cl[i].0 as int, hc, q);
            assert(cl[i] == cs3[i]);
            assert(in_tree(s1, cs3[i].0 as int, hc, q));
        }
    }
    assert forall|q: int| #[trigger] in_tree(s2, n, h, q) implies in_tree(s, id, h, q) || fresh_in(s, q) by {
        if q != n {
            let i = choose|i: int| 0 <= i < cr.len() && #[trigger] in_tree(s2, cr[i].0 as int, hc, q);
            assert(cr[i] == cs3[i + mid + 1]);
            assert(in_tree(s1, cs3[i + mid + 1].0 as int, hc, q));
        }
    }
    assert forall|e: int| #[trigger] holds_data(s2, id, h, e) implies holds_data(s, id, h, e) || e == d.0 by {
        let i = choose|i: int| 0 <= i < cl.len() && #[trigger] holds_data(s2, cl[i].0 as int, hc, e);
        assert(cl[i] == cs3[i]);
        assert(holds_data(s1, cs3[i].0 as int, hc, e));
    }
    assert forall|e: int| #[trigger] holds_data(s2, n, h, e) implies holds_data(s, id, h, e) || e == d.0 by {
        let i = choose|i: int| 0 <= i < cr.len() && #[trigger] holds_data(s2, cr[i].0 as int, hc, e);
        assert(cr[i] == cs3[i + mid + 1]);
        assert(holds_data(s1, cs3[i + mid + 1].0 as int, hc, e));
    }
    assert forall|q: int| !(#[trigger] in_tree(s2, id, h, q) && #[trigger] in_tree(s2, n, h, q)) by {
        if in_tree(s2, id, h, q) && in_tree(s2, n, h, q) {
            if q == id {
                let b = choose|b: int| 0 <= b < cr.len() && #[trigger] in_tree(s2, cr[b].0 as int, hc, q);
                assert(cr[b] == cs3[b + mid + 1]);
            } else if q == n {
                let a = choose|a: int| 0 <= a < cl.len() && #[trigger] in_tree(s2, cl[a].0 as int, hc, q);
                assert(cl[a] == cs3[a]);
            } else {
                let a = choose|a: int| 0 <= a < cl.len() && #[trigger] in_tree(s2, cl[a].0 as int, hc, q);
                let b = choose|b: int| 0 <= b < cr.len() && #[trigger] in_tree(s2, cr[b].0 as int, hc, q);
                assert(cl[a] == cs3[a]);
                assert(cr[b] == cs3[b + mid + 1]);
                assert(in_tree(s1, cs3[a].0 as int, hc, q));
                assert(in_tree(s1, cs3[b + mid + 1].0 as int, hc, q));
            }
        }
    }
    assert forall|e: int| !(#[trigger] holds_data(s2, id, h, e) && #[trigger] holds_data(s2, n, h, e)) by {
        if holds_data(s2, id, h, e) && holds_data(s2, n, h, e) {
            let a = choose|a: int| 0 <= a < cl.len() && #[trigger] holds_data(s2, cl[a].0 as int, hc, e);
            let b = choose|b: int| 0 <= b < cr.len() && #[trigger] holds_data(s2, cr[b].0 as int, hc, e);
            assert(cl[a] == cs3[a]);
            assert(cr[b] == cs3[b + mid + 1]);
            assert(holds_data(s1, cs3[a].0 as int, hc, e));
            assert(holds_data(s1, cs3[b + mid + 1].0 as int, hc, e));
        }
    }
    assert forall|k2: Seq<u8>|
        #![trigger lookup(s2, id, h, k2)]
        #![trigger lookup(s2, n, h, k2)]
        (if key_lt(k2, pk) { lookup(s2, id, h, k2) } else { lookup(s2, n, h, k2) }) == if k2 == k { Some(d) } else { lookup(s, id, h, k2) } by {
        lemma_route_bounds(ks3, k2);
        let rr = route(ks3, k2);
        assert(lookup(s1, cs3[rr].0 as int, hc, k2) == if k2 == k { Some(d) } else { lookup(s, id, h, k2) });
        if key_lt(k2, pk) {
            assert(route(l, k2) == rr);
            assert(cl[rr] == cs3[rr]);
            assert(lookup(s2, cl[rr].0 as int, hc, k2) == lookup(s1, cl[rr].0 as int, hc, k2));
        } else {
            assert(route(r, k2) == rr - mid - 1);
            assert(cr[rr - mid - 1] == cs3[rr]);
            assert(lookup(s2, cr[rr - mid - 1].0 as int, hc, k2) == lookup(s1, cr[rr - mid - 1].0 as int, hc, k2));
        }
    }
}


impl BpTree {
    /// Inserts `key` with value page `data_id` into the subtree of height `h`
    /// at `id`: down to the leaf, then back up, where each node on the way
    /// takes the separator of a child that split and splits itself when it
    /// holds `order` keys. Returns the value page the key had before, and the
    /// separator and new page when `id` split.
    #[verifier::spinoff_prover]
    #[verifier::rlimit(80)]
    fn insert_rec(&self, pager: &mut Pager, id: PageId, key: &str, data_id: PageId,
        Ghost(h): Ghost<nat>, Ghost(lo): Ghost<Option<Seq<u8>>>, Ghost(hi): Ghost<Option<Seq<u8>>>)
        -> (r: (Option<PageId>, Option<(String, PageId)>))
        requires
            old(pager).wf(),
            self.order >= 2,
            old(pager).num_pages + h + 2 <= usize::MAX,
            wf_node(old(pager).slots@, id.0 as int, h, lo, hi),
            above_lo(key.spec_bytes(), lo),
            below_hi(key.spec_bytes(), hi),
            is_data_slot(old(pager).slots@, data_id.0 as int),
            !holds_data(old(pager).slots@, id.0 as int, h, data_id.0 as int),
        ensures
            final(pager).wf(),
            final(pager).num_pages <= old(pager).num_pages + h + 1,
            only_changes(old(pager).slots@, final(pager).slots@, id.0 as int, h),
            r.0 == lookup(old(pager).slots@, id.0 as int, h, key.spec_bytes()),
            insert_done(old(pager).slots@, final(pager).slots@, id.0 as int, h, lo, hi, key.spec_bytes(), data_id, split_view(r.1)),
            keys_capped(old(pager).slots@, self.order as int) ==> keys_capped(final(pager).slots@, self.order as int),
            forall|xs: Set<int>| keys_floor(old(pager).slots@, self.order as int, xs) && (self.order % 2 == 1 || h == 0)
                ==> #[trigger] keys_floor(final(pager).slots@, self.order as int, xs),
            is_index_slot(final(pager).slots@, id.0 as int),
            r.1 is Some ==> node(final(pager).slots@, id.0 as int).keys@.len() >= self.order / 2,
            r.1 is None ==> node(final(pager).slots@, id.0 as int).keys@.len() >= node(old(pager).slots@, id.0 as int).keys@.len(),
        decreases h,
    {
        let ghost s = pager.slots@;
        let ghost k = key.spec_bytes();
        let kb = key.as_bytes();
        let page = pager.index_page(id).unwrap();
        let child = match &page.node_type {
            NodeType::Leaf { .. } => {
                return self.insert_leaf(pager, id, key, data_id, Ghost(lo), Ghost(hi));
            },
            NodeType::Branch { children } => {
                proof {
                    lemma_wf_branch(s, id.0 as int, h, lo, hi);
                }
                assert(node_keys(*page).len() == page.keys@.len());
                assert(page.keys@.len() == page.keys.len());
                let i = match search_keys(&page.keys, kb) {
                    Ok(i) => i + 1,
                    Err(i) => i,
                };
                proof {
                    lemma_route_bounds(node_keys(*page), k);
                }
                children[i]
            },
        };
        let ghost p = node(s, id.0 as int);
        let ghost ks = node_keys(p);
        let ghost cs = kids(p);
        let ghost j = route(ks, k);
        let ghost hc = (h - 1) as nat;
        proof {
            lemma_kids_of_branch(s, id.0 as int, h, lo, hi);
            lemma_route_split(ks, k);
            lemma_route_bounds(ks, k);
            assert(child == cs[j]);
            assert(above_lo(k, clo(ks, j, lo))) by {
                if j > 0 {
                    lemma_key_order(ks[j - 1], k, ks[j - 1]);
                    if ks[j - 1] != k {
                        lemma_key_order(ks[j - 1], k, k);
                    }
                }
            }
            if holds_data(s, child.0 as int, hc, data_id.0 as int) {
                lemma_holds_data_branch(s, id.0 as int, h, data_id.0 as int);
            }
        }
        let (replaced, split) = self.insert_rec(pager, child, key, data_id, Ghost(hc), Ghost(clo(ks, j, lo)), Ghost(chi(ks, j, hi)));
        let ghost s1 = pager.slots@;
        let ghost sp = split_view(split);
        let ghost ks3 = keys_after(ks, j, sp);
        let ghost cs3 = kids_after(cs, j, sp);
        proof {
            if sp is None {
                lemma_kids_after_insert_none(s, s1, id.0 as int, h, lo, hi, k, data_id, sp);
            } else {
                lemma_split_context(s, s1, id.0 as int, h, lo, hi, k, data_id, sp);
                lemma_split_origin(s, s1, id.0 as int, h, lo, hi, k, data_id, sp);
                lemma_split_kids(s, s1, id.0 as int, h, lo, hi, k, data_id, sp);
                lemma_split_lookup(s, s1, id.0 as int, h, lo, hi, k, data_id, sp);
            }
            assert(kids_carry(s, s1, id.0 as int, h, ks3, cs3, k, data_id));
            pager.lemma_not_on_free_list(id.0 as int);
        }
        let up = self.absorb_split(pager, id, split, Ghost(s), Ghost(h), Ghost(lo), Ghost(hi), Ghost(k), Ghost(data_id), Ghost(j));
        (replaced, up)
    }

    /// Puts the separator and new child of a split below child `j` into branch
    /// `id`, and splits the branch when it then holds `order` keys.
    #[verifier::spinoff_prover]
    #[verifier::rlimit(80)]
    fn absorb_split(&self, pager: &mut Pager, id: PageId, split: Option<(String, PageId)>,
        Ghost(s): Ghost<Seq<Slot>>, Ghost(h): Ghost<nat>, Ghost(lo): Ghost<Option<Seq<u8>>>, Ghost(hi): Ghost<Option<Seq<u8>>>,
        Ghost(k): Ghost<Seq<u8>>, Ghost(data_id): Ghost<PageId>, Ghost(j): Ghost<int>) -> (r: Option<(String, PageId)>)
        requires
            old(pager).wf(),
            self.order >= 2,
            old(pager).num_pages < usize::MAX,
            h > 0,
            is_index_slot(old(pager).slots@, id.0 as int),
            node(old(pager).slots@, id.0 as int).header.page_id.0 == id.0,
            node(old(pager).slots@, id.0 as int).node_type is Branch,
            node(old(pager).slots@, id.0 as int) == node(s, id.0 as int),
            sorted(node_keys(node(s, id.0 as int))),
            kids(node(s, id.0 as int)).len() == node_keys(node(s, id.0 as int)).len() + 1,
            0 <= j <= node_keys(node(s, id.0 as int)).len(),
            split matches Some((pk, _)) ==> strictly_above(key_bytes(pk), clo(node_keys(node(s, id.0 as int)), j, lo))
                && below_hi(key_bytes(pk), chi(node_keys(node(s, id.0 as int)), j, hi)),
            kids_ok(old(pager).slots@, keys_after(node_keys(node(s, id.0 as int)), j, split_view(split)),
                kids_after(kids(node(s, id.0 as int)), j, split_view(split)), (h - 1) as nat, lo, hi, id.0 as int),
            kids_carry(s, old(pager).slots@, id.0 as int, h, keys_after(node_keys(node(s, id.0 as int)), j, split_view(split)),
                kids_after(kids(node(s, id.0 as int)), j, split_view(split)), k, data_id),
            only_changes(s, old(pager).slots@, id.0 as int, h),
        ensures
            final(pager).wf(),
            final(pager).num_pages <= old(pager).num_pages + 1,
            only_changes(s, final(pager).slots@, id.0 as int, h),
            insert_done(s, final(pager).slots@, id.0 as int, h, lo, hi, k, data_id, split_view(r)),
            keys_capped(old(pager).slots@, self.order as int) ==> keys_capped(final(pager).slots@, self.order as int),
            forall|xs: Set<int>| keys_floor(old(pager).slots@, self.order as int, xs) && (self.order % 2 == 1 || r is None)
                ==> #[trigger] keys_floor(final(pager).slots@, self.order as int, xs),
            is_index_slot(final(pager).slots@, id.0 as int),
            r is Some ==> node(final(pager).slots@, id.0 as int).keys@.len() >= self.order / 2,
            r is None ==> node(final(pager).slots@, id.0 as int).keys@.len() >= node(old(pager).slots@, id.0 as int).keys@.len(),
    {
        let ghost s1 = pager.slots@;
        let ghost ks = node_keys(node(s, id.0 as int));
        let ghost cs = kids(node(s, id.0 as int));
        let ghost sp = split_view(split);
        let ghost ks3 = keys_after(ks, j, sp);
        let ghost cs3 = kids_after(cs, j, sp);
        proof {
            pager.lemma_not_on_free_list(id.0 as int);
        }
        let slot = pager.take_slot(id);
        let ghost st = pager.slots@;
        proof {
            if keys_capped(s1, self.order as int) {
                lemma_capped_kept(s1, st, self.order as int);
                assert(is_index_slot(s1, id.0 as int));
            }
        }
        let page = match slot {
            Slot::Index(p) => p,
            _ => {
                proof {
                    assert(false);
                }
                return None;
            },
        };
        let IndexPage { header, mut keys, node_type } = page;
        let mut children = match node_type {
            NodeType::Branch { children } => children,
            NodeType::Leaf { .. } => {
                proof {
                    assert(false);
                }
                return None;
            },
        };
        assert(keys@.map_values(|s: String| key_bytes(s)) == ks);
        assert(children@ == cs);
        assert(keys@.len() == keys.len());
        assert(children@.len() == keys.len() + 1);
        let ghost n0 = keys@.len();
        assert(n0 == node(s1, id.0 as int).keys@.len());
        match split {
            Some((promoted, new_child)) => {
                let at = match search_keys(&keys, promoted.as_str().as_bytes()) {
                    Ok(i) => i,
                    Err(i) => i,
                };
                proof {
                    lemma_separator_route(ks, j, key_bytes(promoted), lo, hi);
                    lemma_keys_insert(keys@, at as int, promoted);
                }
                assert(at < children.len());
                let after = at + 1;
                keys.insert(at, promoted);
                children.insert(after, new_child);
            },
            None => {},
        }
        assert(keys@.map_values(|s: String| key_bytes(s)) == ks3);
        assert(children@ == cs3);
        let ghost s1b = pager.slots@;
        if keys.len() >= self.order {
            let mid = keys.len() / 2;
            let ghost keys_before_split = keys@;
            let mut new_keys = keys.split_off(mid);
            let new_children = children.split_off(mid + 1);
            let new_id = pager.allocate();
            let ghost sa = pager.slots@;
            let promoted = new_keys.remove(0);
            let left = IndexPage { header, keys, node_type: NodeType::Branch { children } };
            let right = IndexPage::new_branch(new_id, new_keys, new_children);
            proof {
                pager.lemma_not_on_free_list(id.0 as int);
            }
            pager.put_slot(id, Slot::Index(left));
            let ghost sl = pager.slots@;
            pager.put_slot(new_id, Slot::Index(right));
            proof {
                assert forall|xs: Set<int>| keys_floor(s1, self.order as int, xs) && self.order % 2 == 1
                    implies #[trigger] keys_floor(pager.slots@, self.order as int, xs) by {
                    lemma_floor_kept(s1, st, self.order as int, xs);
                    lemma_floor_kept(st, sa, self.order as int, xs);
                    lemma_floor_pair(sa, pager.slots@, id.0 as int, new_id.0 as int, self.order as int, xs, xs);
                }
                if keys_capped(s1, self.order as int) {
                    assert(keys_before_split.len() <= n0 + 1);
                    lemma_capped_kept(st, sa, self.order as int);
                    lemma_capped_put(sa, id.0 as int, left, self.order as int);
                    lemma_capped_put(sl, new_id.0 as int, right, self.order as int);
                }
            }
            proof {
                let s2 = pager.slots@;
                lemma_keys_subrange(keys_before_split, 0, mid as int);
                lemma_keys_subrange(keys_before_split, mid as int + 1, keys_before_split.len() as int);
                assert(new_keys@ =~= keys_before_split.subrange(mid as int + 1, keys_before_split.len() as int));
                assert(key_bytes(promoted) == ks3[mid as int]);
                assert(node_keys(node(s2, id.0 as int)) == ks3.subrange(0, mid as int));
                assert(node_keys(node(s2, new_id.0 as int)) == ks3.subrange(mid as int + 1, ks3.len() as int));
                assert(fresh_in(s1, new_id.0 as int));
                assert(fresh_in(s, new_id.0 as int));
                assert(kept_but(s1, s2, id.0 as int));
                lemma_branch_done_split(s, s1, s2, id.0 as int, new_id, h, lo, hi, k, data_id, ks3, cs3, mid as int);
                assert forall|q: int| 0 <= q < s.len() && !(s[q] is Free) && !in_tree(s, id.0 as int, h, q) implies #[trigger] s2[q] == s[q] by {
                    assert(in_tree(s, id.0 as int, h, id.0 as int));
                }
                assert forall|q: int| 0 <= q < s.len() && #[trigger] s2[q] is Free implies s[q] is Free by {
                    assert(s1[q] is Free);
                }
            }
            Some((promoted, new_id))
        } else {
            let node_page = IndexPage { header, keys, node_type: NodeType::Branch { children } };
            proof {
                pager.lemma_not_on_free_list(id.0 as int);
            }
            pager.put_slot(id, Slot::Index(node_page));
            proof {
                if keys_capped(s1, self.order as int) {
                    lemma_capped_put(st, id.0 as int, node_page, self.order as int);
                }
                assert forall|xs: Set<int>| keys_floor(s1, self.order as int, xs) implies #[trigger] keys_floor(pager.slots@, self.order as int, xs) by {
                    lemma_floor_kept(s1, st, self.order as int, xs);
                    lemma_floor_pair(st, pager.slots@, id.0 as int, id.0 as int, self.order as int, xs, xs);
                }
            }
            proof {
                let s2 = pager.slots@;
                assert(kept_but(s1, s2, id.0 as int));
                lemma_branch_done_none(s, s1, s2, id.0 as int, h, lo, hi, k, data_id, ks3, cs3);
                assert forall|q: int| 0 <= q < s.len() && !(s[q] is Free) && !in_tree(s, id.0 as int, h, q) implies #[trigger] s2[q] == s[q] by {
                    assert(in_tree(s, id.0 as int, h, id.0 as int));
                }
                assert forall|q: int| 0 <= q < s.len() && #[trigger] s2[q] is Free implies s[q] is Free by {
                    assert(s1[q] is Free);
                }
            }
            None
        }
    }
}


/// The value page that a lookup finds is one the subtree names.
pub proof fn lemma_lookup_holds(s: Seq<Slot>, id: int, h: nat, lo: Option<Seq<u8>>, hi: Option<Seq<u8>>, k: Seq<u8>)
    requires
        wf_node(s, id, h, lo, hi),
    ensures
        lookup(s, id, h, k) matches Some(d) ==> holds_data(s, id, h, d.0 as int) && is_data_slot(s, d.0 as int),
    decreases h,
{
    let p = node(s, id);
    if h == 0 {
        let i = find(node_keys(p), k);
        if 0 <= i < datas(p).len() {
            assert(datas(p)[i].0 == datas(p)[i].0);
            assert(holds_data(s, id, h, datas(p)[i].0 as int));
        }
    } else {
        lemma_wf_branch(s, id, h, lo, hi);
        lemma_route_bounds(node_keys(p), k);
        let j = route(node_keys(p), k);
        lemma_lookup_holds(s, kids(p)[j].0 as int, (h - 1) as nat, child_lo(p, j, lo), child_hi(p, j, hi), k);
        if lookup(s, id, h, k) is Some {
            let d = lookup(s, id, h, k)->0;
            lemma_holds_data_branch(s, id, h, d.0 as int);
        }
    }
}

/// A new root over the two halves of a split root.
#[verifier::spinoff_prover]
pub proof fn lemma_new_root(s: Seq<Slot>, s2: Seq<Slot>, s3: Seq<Slot>, old_root: int, h: nat, k: Seq<u8>, d: PageId, pk: Seq<u8>, nid: PageId, r: int)
    requires
        insert_done(s, s2, old_root, h, None, None, k, d, Some((pk, nid))),
        fresh_in(s2, r),
        r != old_root,
        r != nid.0,
        kept_but(s2, s3, r),
        is_index_slot(s3, r),
        node(s3, r).header.page_id.0 == r,
        node(s3, r).node_type is Branch,
        node_keys(node(s3, r)) == seq![pk],
        kids(node(s3, r)) == seq![PageId(old_root as usize), nid],
        0 <= old_root <= usize::MAX,
    ensures
        wf_node(s3, r, h + 1, None, None),
        forall|k2: Seq<u8>| #[trigger] lookup(s3, r, h + 1, k2) == if k2 == k { Some(d) } else { lookup(s, old_root, h, k2) },
        forall|q: int| #[trigger] in_tree(s3, r, h + 1, q) ==> q == r || in_tree(s, old_root, h, q) || fresh_in(s, q),
{
    let n = nid.0 as int;
    let ks = seq![pk];
    let cs = seq![PageId(old_root as usize), nid];
    assert(cs[0].0 == old_root);
    assert(cs[1] == nid);
    assert(!in_tree(s2, old_root, h, r)) by {
        if in_tree(s2, old_root, h, r) {
            lemma_in_tree_bounds(s2, old_root, h, None, Some(pk), r);
        }
    }
    assert(!in_tree(s2, n, h, r)) by {
        if in_tree(s2, n, h, r) {
            lemma_in_tree_bounds(s2, n, h, Some(pk), None, r);
        }
    }
    assert(!holds_data(s2, old_root, h, r)) by {
        if holds_data(s2, old_root, h, r) {
            lemma_holds_data_bounds(s2, old_root, h, None, Some(pk), r);
        }
    }
    assert(!holds_data(s2, n, h, r)) by {
        if holds_data(s2, n, h, r) {
            lemma_holds_data_bounds(s2, n, h, Some(pk), None, r);
        }
    }
    lemma_frame_nonfree(s2, s3, old_root, h, None, Some(pk), r);
    lemma_frame_nonfree(s2, s3, n, h, Some(pk), None, r);
    assert(kids_ok(s3, ks, cs, h, None, None, r)) by {
        assert(sorted(ks));
        assert(all_in(ks, None, None));
        assert forall|i: int| 0 <= i < cs.len() implies wf_node(s3, #[trigger] cs[i].0 as int, h, clo(ks, i, None), chi(ks, i, None)) by {}
        assert forall|a: int, b: int, q: int| 0 <= a < b < cs.len() implies !(#[trigger] in_tree(s3, cs[a].0 as int, h, q)
            && #[trigger] in_tree(s3, cs[b].0 as int, h, q)) by {}
        assert forall|a: int, b: int, e: int| 0 <= a < b < cs.len() implies !(#[trigger] holds_data(s3, cs[a].0 as int, h, e)
            && #[trigger] holds_data(s3, cs[b].0 as int, h, e)) by {}
    }
    lemma_branch_from_kids(s3, r, h + 1, None, None);
    assert forall|k2: Seq<u8>| #[trigger] lookup(s3, r, h + 1, k2) == if k2 == k { Some(d) } else { lookup(s, old_root, h, k2) } by {
        assert(lookup(s3, r, h + 1, k2) == lookup(s3, cs[route(ks, k2)].0 as int, h, k2));
        if key_lt(k2, pk) {
            assert(route(ks, k2) == 0) by {
                assert(route(ks.drop_last(), k2) == 0);
            }
        } else {
            assert(route(ks, k2) == 1);
        }
    }
    assert forall|q: int| #[trigger] in_tree(s3, r, h + 1, q) implies q == r || in_tree(s, old_root, h, q) || fresh_in(s, q) by {
        if q != r {
            let i = choose|i: int| 0 <= i < cs.len() && #[trigger] in_tree(s3, cs[i].0 as int, h, q);
            if i == 0 {
                assert(in_tree(s2, old_root, h, q));
            } else {
                assert(in_tree(s2, n, h, q));
            }
        }
    }
}

/// The value that the tree stores under key `k`, if any.
pub open spec fn tree_value(s: Seq<Slot>, root: Option<PageId>, h: nat, k: Seq<u8>) -> Option<ValueV> {
    match tree_lookup(s, root, h, k) {
        Some(d) => Some(data_value(s, d)),
        None => None,
    }
}

impl BpTree {
    /// Every node of the tree holds at most one key less than the order,
    /// every node but the root at least half the order, and a root branch
    /// has two children or more.
    pub open spec fn balanced(&self, pager: &Pager) -> bool {
        &&& keys_capped(pager.slots@, self.order as int)
        &&& keys_floor(pager.slots@, self.order as int, root_exempt(self.root))
        &&& root_branches(pager.slots@, self.root)
    }

    /// What the tree maps `k` to.
    pub open spec fn value_of(&self, pager: &Pager, k: Seq<u8>) -> Option<ValueV> {
        tree_value(pager.slots@, self.root, self.height@, k)
    }

    /// Stores `val` under `key`: writes it to a new data page, then enters
    /// the page in the tree, splitting full nodes from the leaf up and
    /// growing a new root when the root splits. An empty tree gets a leaf as
    /// its root. Returns the value the key had before, if any.
    /// Whether the tree holds `key`: `NoRoot` for an empty tree.
    pub fn contains(&self, key: &str, pager: &Pager) -> (r: Result<bool, UserErr>)
        requires
            self.wf(pager),
        ensures
            self.root is None ==> r matches Err(UserErr::NoRoot),
            self.root is Some ==> r == Ok::<bool, UserErr>(self.page_of(pager, key.spec_bytes()) is Some),
    {
        match self.get(key, pager) {
            Ok(_) => Ok(true),
            Err(UserErr::NoRID(_)) => Ok(false),
            Err(e) => Err(e),
        }
    }

    /// Stores `val` under `key`, as `insert_fitting` does, where the key
    /// with a record id and a slot pointer fits in a page; a longer key is
    /// refused with `LongKey` and nothing changes.
    pub fn insert(&mut self, key: &str, val: Value, pager: &mut Pager) -> (r: Result<Option<Value>, UserErr>)
        requires
            old(self).wf(old(pager)),
            old(pager).num_pages + old(self).height@ + 4 <= usize::MAX,
        ensures
            key.len() + RID_SIZE + SLOT_POINTER_SIZE > PAGE_CAPACITY ==> {
                &&& r matches Err(UserErr::LongKey)
                &&& *final(self) == *old(self)
                &&& *final(pager) == *old(pager)
            },
            key.len() + RID_SIZE + SLOT_POINTER_SIZE <= PAGE_CAPACITY ==> {
                &&& final(self).wf(final(pager))
                &&& final(self).order == old(self).order
                &&& final(self).root is Some
                &&& final(self).height@ <= old(self).height@ + 1
                &&& final(pager).num_pages <= old(pager).num_pages + old(self).height@ + 3
                &&& final(self).value_of(final(pager), key.spec_bytes()) == Some(val@)
                &&& forall|k2: Seq<u8>| k2 != key.spec_bytes() ==> #[trigger] final(self).value_of(final(pager), k2) == old(self).value_of(old(pager), k2)
                &&& match old(self).value_of(old(pager), key.spec_bytes()) {
                    Some(v) => r matches Ok(Some(x)) && x@ == v,
                    None => r matches Ok(None),
                }
                &&& keys_capped(old(pager).slots@, old(self).order as int) ==> keys_capped(final(pager).slots@, final(self).order as int)
                &&& keys_floor(old(pager).slots@, old(self).order as int, root_exempt(old(self).root))
                    && (old(self).order % 2 == 1 || old(self).height@ == 0)
                    ==> keys_floor(final(pager).slots@, final(self).order as int, root_exempt(final(self).root))
                &&& root_branches(old(pager).slots@, old(self).root) ==> root_branches(final(pager).slots@, final(self).root)
                &&& old(self).balanced(old(pager)) && (old(self).order % 2 == 1 || old(self).height@ == 0) ==> final(self).balanced(final(pager))
            },
    {
        if key.len() > PAGE_CAPACITY - RID_SIZE - SLOT_POINTER_SIZE {
            return Err(UserErr::LongKey);
        }
        Ok(self.insert_fitting(key, val, pager))
    }

    #[verifier::spinoff_prover]
    #[verifier::rlimit(60)]
    fn insert_fitting(&mut self, key: &str, val: Value, pager: &mut Pager) -> (r: Option<Value>)
        requires
            old(self).wf(old(pager)),
            old(pager).num_pages + old(self).height@ + 4 <= usize::MAX,
        ensures
            final(self).wf(final(pager)),
            final(self).order == old(self).order,
            final(self).root is Some,
            final(self).height@ <= old(self).height@ + 1,
            final(pager).num_pages <= old(pager).num_pages + old(self).height@ + 3,
            final(self).value_of(final(pager), key.spec_bytes()) == Some(val@),
            forall|k2: Seq<u8>| k2 != key.spec_bytes() ==> #[trigger] final(self).value_of(final(pager), k2) == old(self).value_of(old(pager), k2),
            match old(self).value_of(old(pager), key.spec_bytes()) {
                Some(v) => r matches Some(x) && x@ == v,
                None => r is None,
            },
            old(self).order >= 2 && keys_capped(old(pager).slots@, old(self).order as int) ==> keys_capped(final(pager).slots@, final(self).order as int),
            keys_floor(old(pager).slots@, old(self).order as int, root_exempt(old(self).root)) && (old(self).order % 2 == 1 || old(self).height@ == 0)
                ==> keys_floor(final(pager).slots@, final(self).order as int, root_exempt(final(self).root)),
            root_branches(old(pager).slots@, old(self).root) ==> root_branches(final(pager).slots@, final(self).root),
    {
        let ghost s0 = pager.slots@;
        let ghost k = key.spec_bytes();
        let ghost h = self.height@;
        let ghost vv = val@;
        let data_id = DataPage::new(pager, val);
        let ghost s1 = pager.slots@;
        assert(data_value(s1, data_id) == vv);
        proof {
            if keys_capped(s0, self.order as int) {
                lemma_capped_kept(s0, s1, self.order as int);
            }
            if keys_floor(s0, self.order as int, root_exempt(self.root)) {
                lemma_floor_kept(s0, s1, self.order as int, root_exempt(self.root));
            }
        }
        let root = match self.root {
            Some(r) => r,
            None => {
                let new_id = pager.allocate();
                let ghost sa = pager.slots@;
                let mut keys = Vec::new();
                keys.push(key.to_owned());
                let mut ids = Vec::new();
                ids.push(data_id);
                let leaf = IndexPage::new_leaf(new_id, keys, ids, None);
                pager.put_slot(new_id, Slot::Index(leaf));
                proof {
                    if keys_capped(s0, self.order as int) {
                        lemma_capped_kept(s1, sa, self.order as int);
                        lemma_capped_put(sa, new_id.0 as int, leaf, self.order as int);
                    }
                    if keys_floor(s0, self.order as int, Set::empty()) {
                        lemma_floor_kept(s1, sa, self.order as int, Set::empty());
                        lemma_floor_pair(sa, pager.slots@, new_id.0 as int, new_id.0 as int, self.order as int, Set::empty(), set![new_id.0 as int]);
                    }
                }
                self.root = Some(new_id);
                self.height = Ghost(0);
                proof {
                    let s3 = pager.slots@;
                    let p = node(s3, new_id.0 as int);
                    assert(node_keys(p) =~= seq![k]);
                    assert(datas(p) =~= seq![data_id]);
                    assert(node_ok(s3, new_id.0 as int, 0, None, None));
                    assert(find(node_keys(p), k) == 0);
                    assert forall|k2: Seq<u8>| k2 != k implies #[trigger] self.value_of(pager, k2) == old(self).value_of(old(pager), k2) by {
                        assert(find(node_keys(p), k2) == -1) by {
                            assert(find(node_keys(p).drop_last(), k2) == -1);
                        }
                    }
                }
                return None;
            },
        };
        proof {
            assert(!in_tree(s0, root.0 as int, h, data_id.0 as int)) by {
                if in_tree(s0, root.0 as int, h, data_id.0 as int) {
                    lemma_in_tree_bounds(s0, root.0 as int, h, None, None, data_id.0 as int);
                }
            }
            assert(!holds_data(s0, root.0 as int, h, data_id.0 as int)) by {
                if holds_data(s0, root.0 as int, h, data_id.0 as int) {
                    lemma_holds_data_bounds(s0, root.0 as int, h, None, None, data_id.0 as int);
                }
            }
            lemma_frame_nonfree(s0, s1, root.0 as int, h, None, None, data_id.0 as int);
        }
        let (replaced, split) = self.insert_rec(pager, root, key, data_id, Ghost(h), Ghost(None), Ghost(None));
        let ghost s2 = pager.slots@;
        proof {
            lemma_lookup_holds(s0, root.0 as int, h, None, None, k);
        }
        let old_value = match replaced {
            Some(d) => {
                proof {
                    lemma_in_tree_bounds(s0, root.0 as int, h, None, None, root.0 as int);
                    if in_tree(s1, root.0 as int, h, d.0 as int) {
                        lemma_in_tree_bounds(s1, root.0 as int, h, None, None, d.0 as int);
                    }
                }
                let page = pager.data_page(d).unwrap();
                Some(page.value.copy())
            },
            None => None,
        };
        proof {
            assert forall|k2: Seq<u8>| k2 != k implies #[trigger] lookup(s1, root.0 as int, h, k2) == lookup(s0, root.0 as int, h, k2) by {}
        }
        match split {
            None => {
                proof {
                    assert forall|k2: Seq<u8>| k2 != k implies #[trigger] self.value_of(pager, k2) == old(self).value_of(old(pager), k2) by {
                        lemma_lookup_holds(s0, root.0 as int, h, None, None, k2);
                        match lookup(s0, root.0 as int, h, k2) {
                            Some(d2) => {
                                if in_tree(s1, root.0 as int, h, d2.0 as int) {
                                    lemma_in_tree_bounds(s1, root.0 as int, h, None, None, d2.0 as int);
                                }
                            },
                            None => {},
                        }
                    }
                }
                old_value
            },
            Some((promoted, new_id)) => {
                let new_root = pager.allocate();
                let ghost sa = pager.slots@;
                let mut keys = Vec::new();
                keys.push(promoted);
                let mut ids = Vec::new();
                ids.push(root);
                ids.push(new_id);
                let branch = IndexPage::new_branch(new_root, keys, ids);
                proof {
                    assert(is_index_slot(s2, root.0 as int));
                    assert(is_index_slot(s2, new_id.0 as int));
                }
                pager.put_slot(new_root, Slot::Index(branch));
                proof {
                    if keys_capped(s0, self.order as int) {
                        lemma_capped_kept(s2, sa, self.order as int);
                        lemma_capped_put(sa, new_root.0 as int, branch, self.order as int);
                    }
                    let o = self.order as int;
                    if keys_floor(s0, o, set![root.0 as int]) && (o % 2 == 1 || h == 0) {
                        assert(keys_floor(s2, o, set![root.0 as int]));
                        lemma_floor_pair(s2, s2, root.0 as int, root.0 as int, o, set![root.0 as int], Set::empty());
                        lemma_floor_kept(s2, sa, o, Set::empty());
                        lemma_floor_pair(sa, pager.slots@, new_root.0 as int, new_root.0 as int, o, Set::empty(), set![new_root.0 as int]);
                    }
                }
                self.root = Some(new_root);
                self.height = Ghost(h + 1);
                proof {
                    let s3 = pager.slots@;
                    let pk = key_bytes(promoted);
                    assert(node_keys(node(s3, new_root.0 as int)) =~= seq![pk]);
                    assert(kids(node(s3, new_root.0 as int)) =~= seq![root, new_id]);
                    assert(kept_but(s2, s3, new_root.0 as int));
                    lemma_new_root(s1, s2, s3, root.0 as int, h, k, data_id, pk, new_id, new_root.0 as int);
                    assert forall|k2: Seq<u8>| k2 != k implies #[trigger] self.value_of(pager, k2) == old(self).value_of(old(pager), k2) by {
                        lemma_lookup_holds(s0, root.0 as int, h, None, None, k2);
                        match lookup(s0, root.0 as int, h, k2) {
                            Some(d2) => {
                                if in_tree(s1, root.0 as int, h, d2.0 as int) {
                                    lemma_in_tree_bounds(s1, root.0 as int, h, None, None, d2.0 as int);
                                }
                            },
                            None => {},
                        }
                    }
                }
                old_value
            },
        }
    }
}

} // verus!

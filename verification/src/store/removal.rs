//! Removing a key from the B+ tree: the leaf gives up the key and frees its
//! value page, and every node that falls under half the order on the way up
//! borrows from a sibling or merges with one.

use vstd::prelude::*;
use vstd::string::StringSliceAdditionalSpecFns;
use crate::errors::UserErr;
use crate::store::value::{Value, ValueV};
use crate::store::keys::{key_lt, lemma_key_order, sorted};
use crate::store::pager::{Slot, PageId, IndexPage, NodeType, Pager, node, is_index_slot, is_data_slot};
use crate::store::bptree::{keys_capped, lemma_capped_kept, lemma_capped_put, lemma_capped_pair, keys_floor, lemma_floor_kept, lemma_floor_pair, root_exempt, root_branches};
use crate::store::bptree::{BpTree, key_bytes, node_keys, kids, datas, route, find, above_lo, below_hi, clo, chi,
    child_lo, child_hi, in_tree, holds_data, node_ok, wf_node, lookup, leaf_get, all_in, kids_ok, data_value,
    search_keys, lemma_wf_branch, lemma_lookup_holds, tree_lookup, lemma_in_tree_branch, lemma_holds_data_branch, lemma_in_tree_bounds,
    lemma_holds_data_bounds, lemma_frame, lemma_route_bounds, lemma_route_split, lemma_leaf_get, lemma_find_bounds,
    tree_value, lemma_kids_of_branch, lemma_branch_from_kids, lemma_keys_subrange, agree, lemma_leaf_split, strictly_above, lemma_kids_split, lemma_kids_move_x, lemma_route_char, kept_but, lemma_find_at};

verus! {

broadcast use vstd::seq::group_seq_axioms;

/// `s2` differs from `s` only in nodes and value pages of the subtree at
/// `id`, and in free pages.
pub open spec fn rm_frame(s: Seq<Slot>, s2: Seq<Slot>, id: int, h: nat) -> bool {
    &&& s2.len() == s.len()
    &&& forall|q: int| 0 <= q < s.len() && !(s[q] is Free) && !in_tree(s, id, h, q) && !holds_data(s, id, h, q) ==> #[trigger] s2[q] == s[q]
}

/// What removing `k` from the subtree at `id` leaves: a well-formed subtree
/// within the same bounds, made of pages it had, that no longer maps `k`
/// and maps every other key as before.
pub open spec fn rm_done(s: Seq<Slot>, s2: Seq<Slot>, id: int, h: nat, lo: Option<Seq<u8>>, hi: Option<Seq<u8>>, k: Seq<u8>) -> bool {
    &&& wf_node(s2, id, h, lo, hi)
    &&& forall|q: int| #[trigger] in_tree(s2, id, h, q) ==> in_tree(s, id, h, q)
    &&& forall|e: int| #[trigger] holds_data(s2, id, h, e) ==> holds_data(s, id, h, e) && s2[e] == s[e]
    &&& forall|k2: Seq<u8>| #[trigger] lookup(s2, id, h, k2) == if k2 == k { None } else { lookup(s, id, h, k2) }
}

/// No page below `id` in its subtree is exempt from the floor.
pub open spec fn below_exempt_free(s: Seq<Slot>, id: int, h: nat, xs: Set<int>) -> bool {
    forall|q: int| in_tree(s, id, h, q) && q != id ==> !xs.contains(q)
}

/// Branch `id` has a single child.
pub open spec fn lone(s: Seq<Slot>, id: int) -> bool {
    node(s, id).node_type is Branch && kids(node(s, id)).len() == 1
}

/// The free list `b` keeps the free list `a` at its front: pages were only
/// added to it.
pub open spec fn frees_kept(a: Seq<PageId>, b: Seq<PageId>) -> bool {
    &&& a.len() <= b.len()
    &&& forall|i: int| 0 <= i < a.len() ==> #[trigger] b[i] == a[i]
}

/// Page `d` is on the free list `b`.
pub open spec fn on_free_list(b: Seq<PageId>, d: PageId) -> bool {
    exists|i: int| 0 <= i < b.len() && b[i] == d
}

/// Page `d` stays on a free list that keeps its front.
pub proof fn lemma_still_free(a: Seq<PageId>, b: Seq<PageId>, d: PageId)
    requires
        on_free_list(a, d),
        frees_kept(a, b),
    ensures
        on_free_list(b, d),
{
    let i = choose|i: int| 0 <= i < a.len() && a[i] == d;
    assert(b[i] == a[i]);
}

/// Taking out key `i` of a leaf.
pub proof fn lemma_leaf_remove(ks: Seq<Seq<u8>>, ds: Seq<PageId>, i: int, lo: Option<Seq<u8>>, hi: Option<Seq<u8>>)
    requires
        sorted(ks),
        ds.len() == ks.len(),
        all_in(ks, lo, hi),
        0 <= i < ks.len(),
    ensures
        sorted(ks.remove(i)),
        all_in(ks.remove(i), lo, hi),
        forall|k2: Seq<u8>| #[trigger] leaf_get(ks.remove(i), ds.remove(i), k2) == if k2 == ks[i] { None } else { leaf_get(ks, ds, k2) },
{
    let ks2 = ks.remove(i);
    let ds2 = ds.remove(i);
    assert forall|a: int, b: int| 0 <= a < b < ks2.len() implies key_lt(#[trigger] ks2[a], #[trigger] ks2[b]) by {
        if a < i && b >= i {
            assert(ks2[b] == ks[b + 1]);
        } else if a >= i {
            assert(ks2[a] == ks[a + 1]);
            assert(ks2[b] == ks[b + 1]);
        }
    }
    assert forall|a: int| 0 <= a < ks2.len() implies above_lo(#[trigger] ks2[a], lo) && below_hi(ks2[a], hi) by {
        if a >= i {
            assert(ks2[a] == ks[a + 1]);
        }
    }
    assert forall|k2: Seq<u8>| #[trigger] leaf_get(ks2, ds2, k2) == if k2 == ks[i] { None } else { leaf_get(ks, ds, k2) } by {
        lemma_leaf_get(ks2, ds2, k2);
        lemma_leaf_get(ks, ds, k2);
        if k2 == ks[i] {
            assert forall|j: int| 0 <= j < ks2.len() implies ks2[j] != k2 by {
                if j < i {
                    assert(key_lt(ks[j], ks[i]));
                    lemma_key_order(ks[j], ks[i], ks[j]);
                } else {
                    assert(ks2[j] == ks[j + 1]);
                    assert(key_lt(ks[i], ks[j + 1]));
                    lemma_key_order(ks[i], ks[j + 1], ks[i]);
                }
            }
        } else {
            if exists|j: int| 0 <= j < ks.len() && ks[j] == k2 {
                let j = choose|j: int| 0 <= j < ks.len() && ks[j] == k2;
                if j < i {
                    assert(ks2[j] == k2);
                } else {
                    assert(ks2[j - 1] == k2);
                }
            } else {
                assert forall|j: int| 0 <= j < ks2.len() implies ks2[j] != k2 by {
                    if j >= i {
                        assert(ks2[j] == ks[j + 1]);
                    }
                }
            }
        }
    }
}

/// A subtree survives changes to pages that are free, past the end, or in
/// `xs`, when no page of `xs` is one of its nodes or value pages.
pub proof fn lemma_frame_set(s: Seq<Slot>, s2: Seq<Slot>, c: int, h: nat, lo: Option<Seq<u8>>, hi: Option<Seq<u8>>, xs: Set<int>)
    requires
        wf_node(s, c, h, lo, hi),
        forall|x: int| xs.contains(x) ==> !in_tree(s, c, h, x) && !holds_data(s, c, h, x),
        s2.len() >= s.len(),
        forall|q: int| 0 <= q < s.len() && !xs.contains(q) && !(s[q] is Free) ==> #[trigger] s2[q] == s[q],
    ensures
        wf_node(s2, c, h, lo, hi),
        forall|q: int| #[trigger] in_tree(s2, c, h, q) == in_tree(s, c, h, q),
        forall|e: int| #[trigger] holds_data(s2, c, h, e) == holds_data(s, c, h, e),
        forall|k: Seq<u8>| #[trigger] lookup(s2, c, h, k) == lookup(s, c, h, k),
{
    assert forall|q: int| #[trigger] in_tree(s, c, h, q) implies 0 <= q < s.len() && q < s2.len() && s2[q] == s[q] by {
        lemma_in_tree_bounds(s, c, h, lo, hi, q);
    }
    assert forall|e: int| #[trigger] holds_data(s, c, h, e) implies 0 <= e < s.len() && e < s2.len() && s2[e] == s[e] by {
        lemma_holds_data_bounds(s, c, h, lo, hi, e);
    }
    lemma_frame(s, s2, c, h, lo, hi);
}

/// After a removal below child `j` of branch `id`, the branch page and the
/// other children are as they were.
pub proof fn lemma_siblings_stable_rm(s: Seq<Slot>, s1: Seq<Slot>, id: int, h: nat, lo: Option<Seq<u8>>, hi: Option<Seq<u8>>, j: int)
    requires
        h > 0,
        wf_node(s, id, h, lo, hi),
        0 <= j < kids(node(s, id)).len(),
        rm_frame(s, s1, kids(node(s, id))[j].0 as int, (h - 1) as nat),
    ensures
        is_index_slot(s1, id),
        node(s1, id) == node(s, id),
        forall|i: int| 0 <= i < kids(node(s, id)).len() && i != j ==> {
            &&& wf_node(s1, #[trigger] kids(node(s, id))[i].0 as int, (h - 1) as nat, child_lo(node(s, id), i, lo), child_hi(node(s, id), i, hi))
            &&& forall|q: int| #[trigger] in_tree(s1, kids(node(s, id))[i].0 as int, (h - 1) as nat, q) == in_tree(s, kids(node(s, id))[i].0 as int, (h - 1) as nat, q)
            &&& forall|e: int| #[trigger] holds_data(s1, kids(node(s, id))[i].0 as int, (h - 1) as nat, e) == holds_data(s, kids(node(s, id))[i].0 as int, (h - 1) as nat, e)
            &&& forall|k: Seq<u8>| #[trigger] lookup(s1, kids(node(s, id))[i].0 as int, (h - 1) as nat, k) == lookup(s, kids(node(s, id))[i].0 as int, (h - 1) as nat, k)
        },
{
    let p = node(s, id);
    let cs = kids(p);
    let hc = (h - 1) as nat;
    let c = cs[j].0 as int;
    lemma_kids_of_branch(s, id, h, lo, hi);
    assert(!in_tree(s, c, hc, id));
    assert(!holds_data(s, c, hc, id)) by {
        if holds_data(s, c, hc, id) {
            lemma_holds_data_bounds(s, c, hc, child_lo(p, j, lo), child_hi(p, j, hi), id);
        }
    }
    assert(s1[id] == s[id]);
    assert forall|i: int| 0 <= i < cs.len() && i != j implies {
        &&& wf_node(s1, #[trigger] cs[i].0 as int, hc, child_lo(p, i, lo), child_hi(p, i, hi))
        &&& forall|q: int| #[trigger] in_tree(s1, cs[i].0 as int, hc, q) == in_tree(s, cs[i].0 as int, hc, q)
        &&& forall|e: int| #[trigger] holds_data(s1, cs[i].0 as int, hc, e) == holds_data(s, cs[i].0 as int, hc, e)
        &&& forall|k: Seq<u8>| #[trigger] lookup(s1, cs[i].0 as int, hc, k) == lookup(s, cs[i].0 as int, hc, k)
    } by {
        let ci = cs[i].0 as int;
        assert(wf_node(s, ci, hc, clo(node_keys(p), i, lo), chi(node_keys(p), i, hi)));
        assert forall|q: int| #[trigger] in_tree(s, ci, hc, q) implies 0 <= q < s.len() && q < s1.len() && s1[q] == s[q] by {
            lemma_in_tree_bounds(s, ci, hc, child_lo(p, i, lo), child_hi(p, i, hi), q);
            if in_tree(s, c, hc, q) {
                if i < j {
                    assert(!(in_tree(s, cs[i].0 as int, hc, q) && in_tree(s, cs[j].0 as int, hc, q)));
                } else {
                    assert(!(in_tree(s, cs[j].0 as int, hc, q) && in_tree(s, cs[i].0 as int, hc, q)));
                }
            }
            if holds_data(s, c, hc, q) {
                lemma_holds_data_bounds(s, c, hc, child_lo(p, j, lo), child_hi(p, j, hi), q);
            }
        }
        assert forall|e: int| #[trigger] holds_data(s, ci, hc, e) implies 0 <= e < s.len() && e < s1.len() && s1[e] == s[e] by {
            lemma_holds_data_bounds(s, ci, hc, child_lo(p, i, lo), child_hi(p, i, hi), e);
            if in_tree(s, c, hc, e) {
                lemma_in_tree_bounds(s, c, hc, child_lo(p, j, lo), child_hi(p, j, hi), e);
            }
            if holds_data(s, c, hc, e) {
                if i < j {
                    assert(!(holds_data(s, cs[i].0 as int, hc, e) && holds_data(s, cs[j].0 as int, hc, e)));
                } else {
                    assert(!(holds_data(s, cs[j].0 as int, hc, e) && holds_data(s, cs[i].0 as int, hc, e)));
                }
            }
        }
        lemma_frame(s, s1, ci, hc, child_lo(p, i, lo), child_hi(p, i, hi));
    }
}

/// After a removal below child `j` of branch `id`, with the branch page left
/// as it was, the branch holds what it held but `k`.
#[verifier::spinoff_prover]
#[verifier::rlimit(40)]
pub proof fn lemma_rm_branch_same(s: Seq<Slot>, s1: Seq<Slot>, id: int, h: nat, lo: Option<Seq<u8>>, hi: Option<Seq<u8>>, k: Seq<u8>)
    requires
        h > 0,
        wf_node(s, id, h, lo, hi),
        rm_frame(s, s1, kids(node(s, id))[route(node_keys(node(s, id)), k)].0 as int, (h - 1) as nat),
        rm_done(s, s1, kids(node(s, id))[route(node_keys(node(s, id)), k)].0 as int, (h - 1) as nat,
            clo(node_keys(node(s, id)), route(node_keys(node(s, id)), k), lo), chi(node_keys(node(s, id)), route(node_keys(node(s, id)), k), hi), k),
    ensures
        rm_done(s, s1, id, h, lo, hi, k),
        rm_frame(s, s1, id, h),
        is_index_slot(s1, id),
        node(s1, id) == node(s, id),
        kids_ok(s1, node_keys(node(s, id)), kids(node(s, id)), (h - 1) as nat, lo, hi, id),
        rm_carry(s, s1, id, h, node_keys(node(s, id)), kids(node(s, id)), k),
{
    let p = node(s, id);
    let ks = node_keys(p);
    let cs = kids(p);
    let j = route(ks, k);
    let hc = (h - 1) as nat;
    let c = cs[j].0 as int;
    lemma_route_bounds(ks, k);
    lemma_kids_of_branch(s, id, h, lo, hi);
    lemma_siblings_stable_rm(s, s1, id, h, lo, hi, j);
    assert forall|i: int| 0 <= i < cs.len() implies wf_node(s1, #[trigger] cs[i].0 as int, hc, clo(ks, i, lo), chi(ks, i, hi)) by {
        if i != j {
            assert(wf_node(s1, cs[i].0 as int, hc, child_lo(p, i, lo), child_hi(p, i, hi)));
        }
    }
    assert forall|i: int| 0 <= i < cs.len() implies !in_tree(s1, #[trigger] cs[i].0 as int, hc, id) by {
        if i != j {
            assert(in_tree(s1, cs[i].0 as int, hc, id) == in_tree(s, cs[i].0 as int, hc, id));
        }
    }
    assert forall|a: int, b: int, q: int| 0 <= a < b < cs.len() implies !(#[trigger] in_tree(s1, cs[a].0 as int, hc, q)
        && #[trigger] in_tree(s1, cs[b].0 as int, hc, q)) by {
        if in_tree(s1, cs[a].0 as int, hc, q) && in_tree(s1, cs[b].0 as int, hc, q) {
            assert(in_tree(s, cs[a].0 as int, hc, q));
            assert(in_tree(s, cs[b].0 as int, hc, q));
        }
    }
    assert forall|a: int, b: int, e: int| 0 <= a < b < cs.len() implies !(#[trigger] holds_data(s1, cs[a].0 as int, hc, e)
        && #[trigger] holds_data(s1, cs[b].0 as int, hc, e)) by {
        if holds_data(s1, cs[a].0 as int, hc, e) && holds_data(s1, cs[b].0 as int, hc, e) {
            assert(holds_data(s, cs[a].0 as int, hc, e));
            assert(holds_data(s, cs[b].0 as int, hc, e));
        }
    }
    assert(kids_ok(s1, ks, cs, hc, lo, hi, id));
    lemma_branch_from_kids(s1, id, h, lo, hi);
    assert forall|q: int| #[trigger] in_tree(s1, id, h, q) implies in_tree(s, id, h, q) by {
        lemma_in_tree_branch(s, id, h, q);
        if q != id {
            let i = choose|i: int| 0 <= i < cs.len() && #[trigger] in_tree(s1, cs[i].0 as int, hc, q);
            assert(in_tree(s, cs[i].0 as int, hc, q));
        }
    }
    assert forall|e: int| #[trigger] holds_data(s1, id, h, e) implies holds_data(s, id, h, e) by {
        lemma_holds_data_branch(s, id, h, e);
        let i = choose|i: int| 0 <= i < cs.len() && #[trigger] holds_data(s1, cs[i].0 as int, hc, e);
        assert(holds_data(s, cs[i].0 as int, hc, e));
    }
    assert forall|i: int, q: int| 0 <= i < cs.len() && #[trigger] in_tree(s1, cs[i].0 as int, hc, q) implies in_tree(s, id, h, q) by {
        lemma_in_tree_branch(s, id, h, q);
        assert(in_tree(s, cs[i].0 as int, hc, q));
    }
    assert forall|i: int, e: int| 0 <= i < cs.len() && #[trigger] holds_data(s1, cs[i].0 as int, hc, e) implies holds_data(s, id, h, e) && s1[e] == s[e] by {
        lemma_holds_data_branch(s, id, h, e);
        assert(holds_data(s, cs[i].0 as int, hc, e));
        if i != j {
            lemma_holds_data_bounds(s, cs[i].0 as int, hc, clo(ks, i, lo), chi(ks, i, hi), e);
            if in_tree(s, c, hc, e) {
                lemma_in_tree_bounds(s, c, hc, clo(ks, j, lo), chi(ks, j, hi), e);
            }
            if holds_data(s, c, hc, e) {
                if i < j {
                    assert(!(holds_data(s, cs[i].0 as int, hc, e) && holds_data(s, cs[j].0 as int, hc, e)));
                } else {
                    assert(!(holds_data(s, cs[j].0 as int, hc, e) && holds_data(s, cs[i].0 as int, hc, e)));
                }
            }
        }
    }
    assert forall|e: int| #[trigger] holds_data(s1, id, h, e) implies holds_data(s, id, h, e) && s1[e] == s[e] by {
        let i = choose|i: int| 0 <= i < cs.len() && #[trigger] holds_data(s1, cs[i].0 as int, hc, e);
        assert(holds_data(s1, cs[i].0 as int, hc, e));
    }
    assert forall|k2: Seq<u8>| #[trigger] lookup(s1, cs[route(ks, k2)].0 as int, hc, k2) == if k2 == k { None } else { lookup(s, id, h, k2) } by {
        lemma_route_bounds(ks, k2);
    }
    assert forall|q: int| 0 <= q < s.len() && !(s[q] is Free) && !in_tree(s, id, h, q) && !holds_data(s, id, h, q) implies #[trigger] s1[q] == s[q] by {
        lemma_in_tree_branch(s, id, h, q);
        lemma_holds_data_branch(s, id, h, q);
    }
}

/// What the children of branch `id` hold after a removal of `k` below one of
/// them, against the subtree before it.
pub open spec fn rm_carry(s: Seq<Slot>, s1: Seq<Slot>, id: int, h: nat, ks: Seq<Seq<u8>>, cs: Seq<PageId>, k: Seq<u8>) -> bool {
    let hc = (h - 1) as nat;
    &&& forall|i: int, q: int| 0 <= i < cs.len() && #[trigger] in_tree(s1, cs[i].0 as int, hc, q) ==> in_tree(s, id, h, q)
    &&& forall|i: int, e: int| 0 <= i < cs.len() && #[trigger] holds_data(s1, cs[i].0 as int, hc, e) ==> holds_data(s, id, h, e) && s1[e] == s[e]
    &&& forall|k2: Seq<u8>| #[trigger] lookup(s1, cs[route(ks, k2)].0 as int, hc, k2) == if k2 == k { None } else { lookup(s, id, h, k2) }
}


/// Children `x` and `y` of a branch, side by side around separator `sep`,
/// within bounds `[lo, hi)` and sharing no page.
pub open spec fn pair_ok(s: Seq<Slot>, x: int, y: int, h: nat, lo: Option<Seq<u8>>, sep: Seq<u8>, hi: Option<Seq<u8>>) -> bool {
    &&& strictly_above(sep, lo)
    &&& below_hi(sep, hi)
    &&& wf_node(s, x, h, lo, Some(sep))
    &&& wf_node(s, y, h, Some(sep), hi)
    &&& forall|q: int| !(#[trigger] in_tree(s, x, h, q) && #[trigger] in_tree(s, y, h, q))
    &&& forall|e: int| !(#[trigger] holds_data(s, x, h, e) && #[trigger] holds_data(s, y, h, e))
}

/// What the pair `x`, `y` gives for key `k2`.
pub open spec fn pair_lookup(s: Seq<Slot>, x: int, y: int, h: nat, sep: Seq<u8>, k2: Seq<u8>) -> Option<PageId> {
    if key_lt(k2, sep) { lookup(s, x, h, k2) } else { lookup(s, y, h, k2) }
}

/// `s2` keeps the pages of `s1` but those in `xs` and free ones.
pub open spec fn kept_set(s1: Seq<Slot>, s2: Seq<Slot>, xs: Set<int>) -> bool {
    &&& s2.len() == s1.len()
    &&& forall|q: int| 0 <= q < s1.len() && !xs.contains(q) && !(s1[q] is Free) ==> #[trigger] s2[q] == s1[q]
}

/// The keys of a leaf pair, side by side.
pub open spec fn leaf_keys2(s: Seq<Slot>, x: int, y: int) -> Seq<Seq<u8>> {
    node_keys(node(s, x)) + node_keys(node(s, y))
}

/// The value pages of a leaf pair, side by side.
pub open spec fn leaf_datas2(s: Seq<Slot>, x: int, y: int) -> Seq<PageId> {
    datas(node(s, x)) + datas(node(s, y))
}

/// The keys of a branch pair with their separator between them.
pub open spec fn branch_keys2(s: Seq<Slot>, x: int, y: int, sep: Seq<u8>) -> Seq<Seq<u8>> {
    node_keys(node(s, x)) + seq![sep] + node_keys(node(s, y))
}

/// The children of a branch pair, side by side.
pub open spec fn branch_kids2(s: Seq<Slot>, x: int, y: int) -> Seq<PageId> {
    kids(node(s, x)) + kids(node(s, y))
}

/// Keys below `sep` followed by keys from `sep` on, all within `[lo, hi)`.
pub proof fn lemma_keys_join(kx: Seq<Seq<u8>>, ky: Seq<Seq<u8>>, lo: Option<Seq<u8>>, sep: Seq<u8>, hi: Option<Seq<u8>>)
    requires
        sorted(kx),
        sorted(ky),
        all_in(kx, lo, Some(sep)),
        all_in(ky, Some(sep), hi),
        above_lo(sep, lo),
        below_hi(sep, hi),
    ensures
        sorted(kx + ky),
        all_in(kx + ky, lo, hi),
{
    let vk = kx + ky;
    let n = kx.len() as int;
    assert forall|a: int, b: int| 0 <= a < b < vk.len() implies key_lt(#[trigger] vk[a], #[trigger] vk[b]) by {
        if a < n && b >= n {
            lemma_key_order(kx[a], sep, ky[b - n]);
            if sep != ky[b - n] {
                lemma_key_order(sep, ky[b - n], sep);
            }
        }
    }
    assert forall|a: int| 0 <= a < vk.len() implies above_lo(#[trigger] vk[a], lo) && below_hi(vk[a], hi) by {
        if a < n {
            match hi {
                Some(hv) => lemma_key_order(kx[a], sep, hv),
                None => {},
            }
        } else {
            match lo {
                Some(lv) => {
                    lemma_key_order(ky[a - n], sep, lv);
                    lemma_key_order(ky[a - n], lv, sep);
                    if sep != ky[a - n] {
                        lemma_key_order(sep, ky[a - n], sep);
                    }
                    if lv != sep {
                        lemma_key_order(lv, sep, lv);
                    }
                },
                None => {},
            }
        }
    }
}

/// A leaf pair read as one leaf.
#[verifier::spinoff_prover]
pub proof fn lemma_leaf_pair_join(s: Seq<Slot>, x: int, y: int, lo: Option<Seq<u8>>, sep: Seq<u8>, hi: Option<Seq<u8>>)
    requires
        pair_ok(s, x, y, 0, lo, sep, hi),
    ensures
        ({
            let vk = leaf_keys2(s, x, y);
            let vd = leaf_datas2(s, x, y);
            &&& vd.len() == vk.len()
            &&& vk.len() == node_keys(node(s, x)).len() + node_keys(node(s, y)).len()
            &&& sorted(vk)
            &&& all_in(vk, lo, hi)
            &&& forall|i: int| 0 <= i < vd.len() ==> is_data_slot(s, #[trigger] vd[i].0 as int)
            &&& forall|a: int, b: int| 0 <= a < b < vd.len() ==> #[trigger] vd[a] != #[trigger] vd[b]
            &&& forall|i: int| 0 <= i < vd.len() ==> (holds_data(s, x, 0, #[trigger] vd[i].0 as int) || holds_data(s, y, 0, vd[i].0 as int))
            &&& forall|k2: Seq<u8>| #[trigger] pair_lookup(s, x, y, 0, sep, k2) == leaf_get(vk, vd, k2)
        }),
{
    let kx = node_keys(node(s, x));
    let ky = node_keys(node(s, y));
    let dx = datas(node(s, x));
    let dy = datas(node(s, y));
    let vk = kx + ky;
    let vd = dx + dy;
    let n = kx.len() as int;
    match lo {
        Some(l) => lemma_key_order(l, sep, l),
        None => {},
    }
    lemma_keys_join(kx, ky, lo, sep, hi);
    assert forall|i: int| 0 <= i < vd.len() implies (holds_data(s, x, 0, #[trigger] vd[i].0 as int) || holds_data(s, y, 0, vd[i].0 as int)) by {
        if i < n {
            assert(dx[i].0 == vd[i].0);
        } else {
            assert(dy[i - n].0 == vd[i].0);
        }
    }
    assert forall|i: int| 0 <= i < vd.len() implies is_data_slot(s, #[trigger] vd[i].0 as int) by {
        if i < n {
            assert(is_data_slot(s, dx[i].0 as int));
        } else {
            assert(is_data_slot(s, dy[i - n].0 as int));
        }
    }
    assert forall|a: int, b: int| 0 <= a < b < vd.len() implies #[trigger] vd[a] != #[trigger] vd[b] by {
        if a < n && b >= n {
            assert(holds_data(s, x, 0, dx[a].0 as int));
            assert(holds_data(s, y, 0, dy[b - n].0 as int));
            if vd[a] == vd[b] {
                assert(holds_data(s, x, 0, vd[a].0 as int) && holds_data(s, y, 0, vd[a].0 as int));
            }
        } else if a < n {
            assert(vd[a] == dx[a]);
            assert(vd[b] == dx[b]);
        } else {
            assert(vd[a] == dy[a - n]);
            assert(vd[b] == dy[b - n]);
        }
    }
    assert forall|k2: Seq<u8>| #[trigger] pair_lookup(s, x, y, 0, sep, k2) == leaf_get(vk, vd, k2) by {
        lemma_leaf_get(vk, vd, k2);
        lemma_leaf_get(kx, dx, k2);
        lemma_leaf_get(ky, dy, k2);
        if key_lt(k2, sep) {
            if exists|j: int| 0 <= j < kx.len() && kx[j] == k2 {
                let j = choose|j: int| 0 <= j < kx.len() && kx[j] == k2;
                assert(vk[j] == k2);
            } else {
                assert forall|j: int| 0 <= j < vk.len() implies vk[j] != k2 by {
                    if j >= n {
                        assert(above_lo(ky[j - n], Some(sep)));
                        lemma_key_order(k2, sep, k2);
                        if ky[j - n] == k2 {
                            lemma_key_order(k2, sep, sep);
                        }
                    }
                }
            }
        } else {
            if exists|j: int| 0 <= j < ky.len() && ky[j] == k2 {
                let j = choose|j: int| 0 <= j < ky.len() && ky[j] == k2;
                assert(vk[j + n] == k2);
            } else {
                assert forall|j: int| 0 <= j < vk.len() implies vk[j] != k2 by {
                    if j < n {
                        assert(below_hi(kx[j], Some(sep)));
                    } else {
                        assert(vk[j] == ky[j - n]);
                    }
                }
            }
        }
    }
}


/// A leaf pair after keys moved across the separator: the pair keeps its
/// contents, divided at the new separator `vk[m]`.
#[verifier::spinoff_prover]
#[verifier::rlimit(30)]
pub proof fn lemma_leaf_pair_borrow(s1: Seq<Slot>, s2: Seq<Slot>, x: int, y: int, lo: Option<Seq<u8>>, sep: Seq<u8>, hi: Option<Seq<u8>>, m: int)
    requires
        pair_ok(s1, x, y, 0, lo, sep, hi),
        x != y,
        0 < m < leaf_keys2(s1, x, y).len(),
        kept_set(s1, s2, set![x, y]),
        is_index_slot(s2, x),
        node(s2, x).header.page_id.0 == x,
        node(s2, x).node_type is Leaf,
        node_keys(node(s2, x)) == leaf_keys2(s1, x, y).subrange(0, m),
        datas(node(s2, x)) == leaf_datas2(s1, x, y).subrange(0, m),
        is_index_slot(s2, y),
        node(s2, y).header.page_id.0 == y,
        node(s2, y).node_type is Leaf,
        node_keys(node(s2, y)) == leaf_keys2(s1, x, y).subrange(m, leaf_keys2(s1, x, y).len() as int),
        datas(node(s2, y)) == leaf_datas2(s1, x, y).subrange(m, leaf_datas2(s1, x, y).len() as int),
    ensures
        ({
            let sep2 = leaf_keys2(s1, x, y)[m];
            &&& pair_ok(s2, x, y, 0, lo, sep2, hi)
            &&& strictly_above(sep2, lo)
            &&& forall|k2: Seq<u8>| #[trigger] pair_lookup(s2, x, y, 0, sep2, k2) == pair_lookup(s1, x, y, 0, sep, k2)
            &&& forall|q: int| #[trigger] in_tree(s2, x, 0, q) ==> q == x
            &&& forall|q: int| #[trigger] in_tree(s2, y, 0, q) ==> q == y
            &&& forall|e: int| #[trigger] holds_data(s2, x, 0, e) ==> holds_data(s1, x, 0, e) || holds_data(s1, y, 0, e)
            &&& forall|e: int| #[trigger] holds_data(s2, y, 0, e) ==> holds_data(s1, x, 0, e) || holds_data(s1, y, 0, e)
        }),
{
    let vk = leaf_keys2(s1, x, y);
    let vd = leaf_datas2(s1, x, y);
    let sep2 = vk[m];
    let n = vk.len() as int;
    lemma_leaf_pair_join(s1, x, y, lo, sep, hi);
    lemma_leaf_split(vk, vd, m);
    let lk = vk.subrange(0, m);
    let rk = vk.subrange(m, n);
    let ld = vd.subrange(0, m);
    let rd = vd.subrange(m, n);
    assert forall|i: int| 0 <= i < lk.len() implies above_lo(#[trigger] lk[i], lo) && below_hi(lk[i], Some(sep2)) by {
        assert(lk[i] == vk[i]);
    }
    assert forall|i: int| 0 <= i < rk.len() implies above_lo(#[trigger] rk[i], Some(sep2)) && below_hi(rk[i], hi) by {
        assert(rk[i] == vk[i + m]);
        if i > 0 {
            lemma_key_order(sep2, rk[i], sep2);
        } else {
            lemma_key_order(sep2, sep2, sep2);
        }
    }
    assert(key_lt(vk[0], sep2));
    match lo {
        Some(l) => {
            lemma_key_order(l, vk[0], sep2);
            if l != vk[0] {
                lemma_key_order(l, vk[0], l);
            }
        },
        None => {},
    }
    assert forall|i: int| 0 <= i < ld.len() implies is_data_slot(s2, #[trigger] ld[i].0 as int) by {
        assert(ld[i] == vd[i]);
        assert(is_data_slot(s1, vd[i].0 as int));
    }
    assert forall|i: int| 0 <= i < rd.len() implies is_data_slot(s2, #[trigger] rd[i].0 as int) by {
        assert(rd[i] == vd[i + m]);
        assert(is_data_slot(s1, vd[i + m].0 as int));
    }
    assert forall|a: int, b: int| 0 <= a < b < ld.len() implies #[trigger] ld[a] != #[trigger] ld[b] by {
        assert(ld[a] == vd[a]);
        assert(ld[b] == vd[b]);
    }
    assert forall|a: int, b: int| 0 <= a < b < rd.len() implies #[trigger] rd[a] != #[trigger] rd[b] by {
        assert(rd[a] == vd[a + m]);
        assert(rd[b] == vd[b + m]);
    }
    assert(node_ok(s2, x, 0, lo, Some(sep2)));
    assert(node_ok(s2, y, 0, Some(sep2), hi));
    assert(wf_node(s2, x, 0, lo, Some(sep2)));
    assert(wf_node(s2, y, 0, Some(sep2), hi));
    assert forall|e: int| #[trigger] holds_data(s2, x, 0, e) implies holds_data(s1, x, 0, e) || holds_data(s1, y, 0, e) by {
        let i = choose|i: int| 0 <= i < datas(node(s2, x)).len() && #[trigger] datas(node(s2, x))[i].0 == e;
        assert(ld[i] == vd[i]);
        assert(vd[i].0 == e);
    }
    assert forall|e: int| #[trigger] holds_data(s2, y, 0, e) implies holds_data(s1, x, 0, e) || holds_data(s1, y, 0, e) by {
        let i = choose|i: int| 0 <= i < datas(node(s2, y)).len() && #[trigger] datas(node(s2, y))[i].0 == e;
        assert(rd[i] == vd[i + m]);
        assert(vd[i + m].0 == e);
    }
    assert forall|e: int| !(#[trigger] holds_data(s2, x, 0, e) && #[trigger] holds_data(s2, y, 0, e)) by {
        if holds_data(s2, x, 0, e) && holds_data(s2, y, 0, e) {
            let a = choose|i: int| 0 <= i < datas(node(s2, x)).len() && #[trigger] datas(node(s2, x))[i].0 == e;
            let b = choose|i: int| 0 <= i < datas(node(s2, y)).len() && #[trigger] datas(node(s2, y))[i].0 == e;
            assert(ld[a] == vd[a]);
            assert(rd[b] == vd[b + m]);
            assert(vd[a] != vd[b + m]);
        }
    }
    assert forall|k2: Seq<u8>| #[trigger] pair_lookup(s2, x, y, 0, sep2, k2) == pair_lookup(s1, x, y, 0, sep, k2) by {
        assert(pair_lookup(s1, x, y, 0, sep, k2) == leaf_get(vk, vd, k2));
        assert(lookup(s2, x, 0, k2) == leaf_get(lk, ld, k2));
        assert(lookup(s2, y, 0, k2) == leaf_get(rk, rd, k2));
    }
}

/// A leaf pair merged into its left leaf.
#[verifier::spinoff_prover]
#[verifier::rlimit(30)]
pub proof fn lemma_leaf_pair_merge(s1: Seq<Slot>, s2: Seq<Slot>, x: int, y: int, lo: Option<Seq<u8>>, sep: Seq<u8>, hi: Option<Seq<u8>>)
    requires
        pair_ok(s1, x, y, 0, lo, sep, hi),
        x != y,
        kept_set(s1, s2, set![x, y]),
        is_index_slot(s2, x),
        node(s2, x).header.page_id.0 == x,
        node(s2, x).node_type is Leaf,
        node_keys(node(s2, x)) == leaf_keys2(s1, x, y),
        datas(node(s2, x)) == leaf_datas2(s1, x, y),
    ensures
        wf_node(s2, x, 0, lo, hi),
        forall|k2: Seq<u8>| #[trigger] lookup(s2, x, 0, k2) == pair_lookup(s1, x, y, 0, sep, k2),
        forall|q: int| #[trigger] in_tree(s2, x, 0, q) ==> q == x,
        forall|e: int| #[trigger] holds_data(s2, x, 0, e) ==> holds_data(s1, x, 0, e) || holds_data(s1, y, 0, e),
{
    let vk = leaf_keys2(s1, x, y);
    let vd = leaf_datas2(s1, x, y);
    lemma_leaf_pair_join(s1, x, y, lo, sep, hi);
    assert forall|i: int| 0 <= i < vd.len() implies is_data_slot(s2, #[trigger] vd[i].0 as int) by {
        assert(is_data_slot(s1, vd[i].0 as int));
    }
    assert(node_ok(s2, x, 0, lo, hi));
    assert(wf_node(s2, x, 0, lo, hi));
    assert forall|e: int| #[trigger] holds_data(s2, x, 0, e) implies holds_data(s1, x, 0, e) || holds_data(s1, y, 0, e) by {
        let i = choose|i: int| 0 <= i < datas(node(s2, x)).len() && #[trigger] datas(node(s2, x))[i].0 == e;
        assert(vd[i].0 == e);
    }
}


/// A branch pair read as one branch, with the separator between the halves.
#[verifier::spinoff_prover]
#[verifier::rlimit(60)]
pub proof fn lemma_branch_pair_join(s: Seq<Slot>, x: int, y: int, h: nat, lo: Option<Seq<u8>>, sep: Seq<u8>, hi: Option<Seq<u8>>)
    requires
        h > 0,
        pair_ok(s, x, y, h, lo, sep, hi),
    ensures
        ({
            let vk = branch_keys2(s, x, y, sep);
            let vc = branch_kids2(s, x, y);
            let g = (h - 1) as nat;
            let nx = kids(node(s, x)).len() as int;
            &&& vk.len() == node_keys(node(s, x)).len() + 1 + node_keys(node(s, y)).len()
            &&& nx == node_keys(node(s, x)).len() + 1
            &&& vk[nx - 1] == sep
            &&& kids_ok(s, vk, vc, g, lo, hi, x)
            &&& forall|i: int| 0 <= i < vc.len() ==> !in_tree(s, #[trigger] vc[i].0 as int, g, y)
            &&& forall|k2: Seq<u8>| #[trigger] pair_lookup(s, x, y, h, sep, k2) == lookup(s, vc[route(vk, k2)].0 as int, g, k2)
            &&& forall|i: int, q: int| 0 <= i < vc.len() && #[trigger] in_tree(s, vc[i].0 as int, g, q) ==> in_tree(s, x, h, q) || in_tree(s, y, h, q)
            &&& forall|i: int, e: int| 0 <= i < vc.len() && #[trigger] holds_data(s, vc[i].0 as int, g, e) ==> holds_data(s, x, h, e) || holds_data(s, y, h, e)
        }),
{
    let g = (h - 1) as nat;
    let kx = node_keys(node(s, x));
    let ky = node_keys(node(s, y));
    let cx = kids(node(s, x));
    let cy = kids(node(s, y));
    let vk = kx + seq![sep] + ky;
    let vc = cx + cy;
    let nx = cx.len() as int;
    let mid = kx.len() as int;
    lemma_kids_of_branch(s, x, h, lo, Some(sep));
    lemma_kids_of_branch(s, y, h, Some(sep), hi);
    assert(vk[mid] == sep);
    // The keys.
    assert forall|a: int, b: int| 0 <= a < b < vk.len() implies key_lt(#[trigger] vk[a], #[trigger] vk[b]) by {
        if b < mid {
        } else if b == mid {
        } else if a < mid {
            assert(vk[b] == ky[b - mid - 1]);
            lemma_key_order(kx[a], sep, ky[b - mid - 1]);
            if ky[b - mid - 1] != sep {
                if b - mid - 1 > 0 {
                    lemma_key_order(sep, ky[0], ky[b - mid - 1]);
                }
            }
        } else if a == mid {
            assert(vk[b] == ky[b - mid - 1]);
            if b - mid - 1 > 0 {
                lemma_key_order(sep, ky[0], ky[b - mid - 1]);
            }
        } else {
            assert(vk[a] == ky[a - mid - 1]);
            assert(vk[b] == ky[b - mid - 1]);
        }
    }
    assert forall|a: int| 0 <= a < vk.len() implies above_lo(#[trigger] vk[a], lo) && below_hi(vk[a], hi) by {
        if a < mid {
            match hi {
                Some(hv) => lemma_key_order(kx[a], sep, hv),
                None => {},
            }
        } else if a == mid {
            match lo {
                Some(lv) => lemma_key_order(lv, sep, lv),
                None => {},
            }
        } else {
            assert(vk[a] == ky[a - mid - 1]);
            match lo {
                Some(lv) => {
                    lemma_key_order(lv, sep, ky[a - mid - 1]);
                    lemma_key_order(ky[a - mid - 1], lv, sep);
                    if lv != sep {
                        lemma_key_order(lv, sep, lv);
                    }
                    lemma_key_order(sep, ky[a - mid - 1], sep);
                },
                None => {},
            }
        }
    }
    assert(vk.len() > 0 ==> strictly_above(vk[0], lo)) by {
        if mid == 0 {
            assert(node_ok(s, x, h, lo, Some(sep)));
        }
    }
    // The children, their bounds and what they hold.
    assert forall|i: int| 0 <= i < vc.len() implies wf_node(s, #[trigger] vc[i].0 as int, g, clo(vk, i, lo), chi(vk, i, hi)) by {
        if i < nx {
            assert(vc[i] == cx[i]);
            assert(wf_node(s, cx[i].0 as int, g, clo(kx, i, lo), chi(kx, i, Some(sep))));
            if i > 0 {
                assert(vk[i - 1] == kx[i - 1]);
            }
            if i < mid {
                assert(vk[i] == kx[i]);
            }
        } else {
            assert(vc[i] == cy[i - nx]);
            assert(wf_node(s, cy[i - nx].0 as int, g, clo(ky, i - nx, Some(sep)), chi(ky, i - nx, hi)));
            if i - nx > 0 {
                assert(vk[i - 1] == ky[i - nx - 1]);
            }
            if i - nx < ky.len() {
                assert(vk[i] == ky[i - nx]);
            }
        }
    }
    assert forall|i: int, q: int| 0 <= i < vc.len() && #[trigger] in_tree(s, vc[i].0 as int, g, q) implies
        (i < nx ==> in_tree(s, x, h, q)) && (i >= nx ==> in_tree(s, y, h, q)) by {
        if i < nx {
            assert(vc[i] == cx[i]);
        } else {
            assert(vc[i] == cy[i - nx]);
        }
    }
    assert forall|i: int, e: int| 0 <= i < vc.len() && #[trigger] holds_data(s, vc[i].0 as int, g, e) implies
        (i < nx ==> holds_data(s, x, h, e)) && (i >= nx ==> holds_data(s, y, h, e)) by {
        if i < nx {
            assert(vc[i] == cx[i]);
        } else {
            assert(vc[i] == cy[i - nx]);
        }
    }
    assert(in_tree(s, x, h, x));
    assert(in_tree(s, y, h, y));
    assert forall|i: int| 0 <= i < vc.len() implies !in_tree(s, #[trigger] vc[i].0 as int, g, x) && !in_tree(s, vc[i].0 as int, g, y) by {
        if i < nx {
            assert(vc[i] == cx[i]);
        } else {
            assert(vc[i] == cy[i - nx]);
        }
    }
    assert forall|a: int, b: int, q: int| 0 <= a < b < vc.len() implies !(#[trigger] in_tree(s, vc[a].0 as int, g, q)
        && #[trigger] in_tree(s, vc[b].0 as int, g, q)) by {
        if in_tree(s, vc[a].0 as int, g, q) && in_tree(s, vc[b].0 as int, g, q) {
            if a < nx && b < nx {
                assert(vc[a] == cx[a]);
                assert(vc[b] == cx[b]);
            } else if a >= nx {
                assert(vc[a] == cy[a - nx]);
                assert(vc[b] == cy[b - nx]);
            }
        }
    }
    assert forall|a: int, b: int, e: int| 0 <= a < b < vc.len() implies !(#[trigger] holds_data(s, vc[a].0 as int, g, e)
        && #[trigger] holds_data(s, vc[b].0 as int, g, e)) by {
        if holds_data(s, vc[a].0 as int, g, e) && holds_data(s, vc[b].0 as int, g, e) {
            if a < nx && b < nx {
                assert(vc[a] == cx[a]);
                assert(vc[b] == cx[b]);
            } else if a >= nx {
                assert(vc[a] == cy[a - nx]);
                assert(vc[b] == cy[b - nx]);
            }
        }
    }
    assert(kids_ok(s, vk, vc, g, lo, hi, x));
    // Searches.
    assert forall|k2: Seq<u8>| #[trigger] pair_lookup(s, x, y, h, sep, k2) == lookup(s, vc[route(vk, k2)].0 as int, g, k2) by {
        lemma_route_split(vk, k2);
        lemma_route_bounds(vk, k2);
        lemma_route_bounds(kx, k2);
        lemma_route_bounds(ky, k2);
        let r = route(vk, k2);
        if key_lt(k2, sep) {
            assert forall|i: int| 0 <= i < r implies !key_lt(k2, #[trigger] kx[i]) by {
                if r > mid {
                    assert(!key_lt(k2, vk[mid]));
                }
                assert(vk[i] == kx[i]);
            }
            assert forall|i: int| r <= i < kx.len() implies key_lt(k2, #[trigger] kx[i]) by {
                assert(vk[i] == kx[i]);
            }
            if r > mid {
                assert(!key_lt(k2, vk[mid]));
            }
            lemma_route_char(kx, k2, r);
            assert(vc[r] == cx[r]);
        } else {
            assert(r > mid) by {
                if r <= mid {
                    assert(key_lt(k2, vk[mid]));
                }
            }
            assert forall|i: int| 0 <= i < r - mid - 1 implies !key_lt(k2, #[trigger] ky[i]) by {
                assert(vk[i + mid + 1] == ky[i]);
            }
            assert forall|i: int| r - mid - 1 <= i < ky.len() implies key_lt(k2, #[trigger] ky[i]) by {
                assert(vk[i + mid + 1] == ky[i]);
            }
            lemma_route_char(ky, k2, r - mid - 1);
            assert(vc[r] == cy[r - nx]);
        }
    }
}


/// Children that survive changes to pages `x`, `y` and free pages, when no
/// child's subtree holds `x` or `y`.
pub proof fn lemma_kids_frame2(s: Seq<Slot>, s2: Seq<Slot>, ks: Seq<Seq<u8>>, cs: Seq<PageId>, h: nat, lo: Option<Seq<u8>>, hi: Option<Seq<u8>>, x: int, y: int)
    requires
        kids_ok(s, ks, cs, h, lo, hi, x),
        forall|i: int| 0 <= i < cs.len() ==> !in_tree(s, #[trigger] cs[i].0 as int, h, y),
        is_index_slot(s, x),
        is_index_slot(s, y),
        kept_set(s, s2, set![x, y]),
    ensures
        kids_ok(s2, ks, cs, h, lo, hi, x),
        forall|i: int| 0 <= i < cs.len() ==> !in_tree(s2, #[trigger] cs[i].0 as int, h, y),
        forall|i: int, q: int| 0 <= i < cs.len() ==> #[trigger] in_tree(s2, cs[i].0 as int, h, q) == in_tree(s, cs[i].0 as int, h, q),
        forall|i: int, e: int| 0 <= i < cs.len() ==> #[trigger] holds_data(s2, cs[i].0 as int, h, e) == holds_data(s, cs[i].0 as int, h, e),
        forall|i: int, k: Seq<u8>| 0 <= i < cs.len() ==> #[trigger] lookup(s2, cs[i].0 as int, h, k) == lookup(s, cs[i].0 as int, h, k),
{
    assert forall|i: int| 0 <= i < cs.len() implies {
        &&& wf_node(s2, #[trigger] cs[i].0 as int, h, clo(ks, i, lo), chi(ks, i, hi))
        &&& forall|q: int| #[trigger] in_tree(s2, cs[i].0 as int, h, q) == in_tree(s, cs[i].0 as int, h, q)
        &&& forall|e: int| #[trigger] holds_data(s2, cs[i].0 as int, h, e) == holds_data(s, cs[i].0 as int, h, e)
        &&& forall|k: Seq<u8>| #[trigger] lookup(s2, cs[i].0 as int, h, k) == lookup(s, cs[i].0 as int, h, k)
    } by {
        let c = cs[i].0 as int;
        if holds_data(s, c, h, x) {
            lemma_holds_data_bounds(s, c, h, clo(ks, i, lo), chi(ks, i, hi), x);
        }
        if holds_data(s, c, h, y) {
            lemma_holds_data_bounds(s, c, h, clo(ks, i, lo), chi(ks, i, hi), y);
        }
        lemma_frame_set(s, s2, c, h, clo(ks, i, lo), chi(ks, i, hi), set![x, y]);
    }
}

/// A branch pair after children moved across the separator: the pair keeps
/// its contents, divided at the new separator `vk[m]`.
#[verifier::spinoff_prover]
#[verifier::rlimit(60)]
pub proof fn lemma_branch_pair_borrow(s1: Seq<Slot>, s2: Seq<Slot>, x: int, y: int, h: nat, lo: Option<Seq<u8>>, sep: Seq<u8>, hi: Option<Seq<u8>>, m: int)
    requires
        h > 0,
        pair_ok(s1, x, y, h, lo, sep, hi),
        x != y,
        0 < m < branch_keys2(s1, x, y, sep).len(),
        kept_set(s1, s2, set![x, y]),
        is_index_slot(s2, x),
        node(s2, x).header.page_id.0 == x,
        node(s2, x).node_type is Branch,
        node_keys(node(s2, x)) == branch_keys2(s1, x, y, sep).subrange(0, m),
        kids(node(s2, x)) == branch_kids2(s1, x, y).subrange(0, m + 1),
        is_index_slot(s2, y),
        node(s2, y).header.page_id.0 == y,
        node(s2, y).node_type is Branch,
        node_keys(node(s2, y)) == branch_keys2(s1, x, y, sep).subrange(m + 1, branch_keys2(s1, x, y, sep).len() as int),
        kids(node(s2, y)) == branch_kids2(s1, x, y).subrange(m + 1, branch_kids2(s1, x, y).len() as int),
    ensures
        ({
            let sep2 = branch_keys2(s1, x, y, sep)[m];
            &&& pair_ok(s2, x, y, h, lo, sep2, hi)
            &&& forall|k2: Seq<u8>| #[trigger] pair_lookup(s2, x, y, h, sep2, k2) == pair_lookup(s1, x, y, h, sep, k2)
            &&& forall|q: int| #[trigger] in_tree(s2, x, h, q) ==> in_tree(s1, x, h, q) || in_tree(s1, y, h, q)
            &&& forall|q: int| #[trigger] in_tree(s2, y, h, q) ==> in_tree(s1, x, h, q) || in_tree(s1, y, h, q)
            &&& forall|e: int| #[trigger] holds_data(s2, x, h, e) ==> holds_data(s1, x, h, e) || holds_data(s1, y, h, e)
            &&& forall|e: int| #[trigger] holds_data(s2, y, h, e) ==> holds_data(s1, x, h, e) || holds_data(s1, y, h, e)
        }),
{
    let g = (h - 1) as nat;
    let vk = branch_keys2(s1, x, y, sep);
    let vc = branch_kids2(s1, x, y);
    let sep2 = vk[m];
    let lk = vk.subrange(0, m);
    let rk = vk.subrange(m + 1, vk.len() as int);
    let lc = vc.subrange(0, m + 1);
    let rc = vc.subrange(m + 1, vc.len() as int);
    lemma_branch_pair_join(s1, x, y, h, lo, sep, hi);
    lemma_kids_split(s1, vk, vc, g, lo, hi, x, m);
    assert forall|i: int| 0 <= i < lc.len() implies !in_tree(s1, #[trigger] lc[i].0 as int, g, y) by {
        assert(lc[i] == vc[i]);
    }
    assert forall|i: int| 0 <= i < rc.len() implies !in_tree(s1, #[trigger] rc[i].0 as int, g, y) by {
        assert(rc[i] == vc[i + m + 1]);
    }
    assert(is_index_slot(s1, x) && is_index_slot(s1, y));
    lemma_kids_frame2(s1, s2, lk, lc, g, lo, Some(sep2), x, y);
    lemma_kids_frame2(s1, s2, rk, rc, g, Some(sep2), hi, x, y);
    lemma_kids_move_x(s2, rk, rc, g, Some(sep2), hi, x, y);
    lemma_branch_from_kids(s2, x, h, lo, Some(sep2));
    lemma_branch_from_kids(s2, y, h, Some(sep2), hi);
    assert(in_tree(s1, x, h, x));
    assert(in_tree(s1, y, h, y));
    assert forall|q: int| #[trigger] in_tree(s2, x, h, q) implies in_tree(s1, x, h, q) || in_tree(s1, y, h, q) by {
        if q != x {
            let i = choose|i: int| 0 <= i < lc.len() && #[trigger] in_tree(s2, lc[i].0 as int, g, q);
            assert(lc[i] == vc[i]);
            assert(in_tree(s1, vc[i].0 as int, g, q));
        }
    }
    assert forall|q: int| #[trigger] in_tree(s2, y, h, q) implies in_tree(s1, x, h, q) || in_tree(s1, y, h, q) by {
        if q != y {
            let i = choose|i: int| 0 <= i < rc.len() && #[trigger] in_tree(s2, rc[i].0 as int, g, q);
            assert(rc[i] == vc[i + m + 1]);
            assert(in_tree(s1, vc[i + m + 1].0 as int, g, q));
        }
    }
    assert forall|e: int| #[trigger] holds_data(s2, x, h, e) implies holds_data(s1, x, h, e) || holds_data(s1, y, h, e) by {
        let i = choose|i: int| 0 <= i < lc.len() && #[trigger] holds_data(s2, lc[i].0 as int, g, e);
        assert(lc[i] == vc[i]);
        assert(holds_data(s1, vc[i].0 as int, g, e));
    }
    assert forall|e: int| #[trigger] holds_data(s2, y, h, e) implies holds_data(s1, x, h, e) || holds_data(s1, y, h, e) by {
        let i = choose|i: int| 0 <= i < rc.len() && #[trigger] holds_data(s2, rc[i].0 as int, g, e);
        assert(rc[i] == vc[i + m + 1]);
        assert(holds_data(s1, vc[i + m + 1].0 as int, g, e));
    }
    assert forall|q: int| !(#[trigger] in_tree(s2, x, h, q) && #[trigger] in_tree(s2, y, h, q)) by {
        if in_tree(s2, x, h, q) && in_tree(s2, y, h, q) {
            if q == x {
                let b = choose|b: int| 0 <= b < rc.len() && #[trigger] in_tree(s2, rc[b].0 as int, g, q);
            } else if q == y {
                let a = choose|a: int| 0 <= a < lc.len() && #[trigger] in_tree(s2, lc[a].0 as int, g, q);
            } else {
                let a = choose|a: int| 0 <= a < lc.len() && #[trigger] in_tree(s2, lc[a].0 as int, g, q);
                let b = choose|b: int| 0 <= b < rc.len() && #[trigger] in_tree(s2, rc[b].0 as int, g, q);
                assert(lc[a] == vc[a]);
                assert(rc[b] == vc[b + m + 1]);
                assert(in_tree(s1, vc[a].0 as int, g, q));
                assert(in_tree(s1, vc[b + m + 1].0 as int, g, q));
            }
        }
    }
    assert forall|e: int| !(#[trigger] holds_data(s2, x, h, e) && #[trigger] holds_data(s2, y, h, e)) by {
        if holds_data(s2, x, h, e) && holds_data(s2, y, h, e) {
            let a = choose|a: int| 0 <= a < lc.len() && #[trigger] holds_data(s2, lc[a].0 as int, g, e);
            let b = choose|b: int| 0 <= b < rc.len() && #[trigger] holds_data(s2, rc[b].0 as int, g, e);
            assert(lc[a] == vc[a]);
            assert(rc[b] == vc[b + m + 1]);
            assert(holds_data(s1, vc[a].0 as int, g, e));
            assert(holds_data(s1, vc[b + m + 1].0 as int, g, e));
        }
    }
    assert forall|k2: Seq<u8>| #[trigger] pair_lookup(s2, x, y, h, sep2, k2) == pair_lookup(s1, x, y, h, sep, k2) by {
        lemma_route_bounds(vk, k2);
        let r = route(vk, k2);
        if key_lt(k2, sep2) {
            assert(lc[r] == vc[r]);
            assert(lookup(s2, lc[r].0 as int, g, k2) == lookup(s1, lc[r].0 as int, g, k2));
        } else {
            assert(rc[r - m - 1] == vc[r]);
            assert(lookup(s2, rc[r - m - 1].0 as int, g, k2) == lookup(s1, rc[r - m - 1].0 as int, g, k2));
        }
    }
}

/// A branch pair merged into its left branch, with the separator between
/// the halves.
#[verifier::spinoff_prover]
#[verifier::rlimit(40)]
pub proof fn lemma_branch_pair_merge(s1: Seq<Slot>, s2: Seq<Slot>, x: int, y: int, h: nat, lo: Option<Seq<u8>>, sep: Seq<u8>, hi: Option<Seq<u8>>)
    requires
        h > 0,
        pair_ok(s1, x, y, h, lo, sep, hi),
        x != y,
        kept_set(s1, s2, set![x, y]),
        is_index_slot(s2, x),
        node(s2, x).header.page_id.0 == x,
        node(s2, x).node_type is Branch,
        node_keys(node(s2, x)) == branch_keys2(s1, x, y, sep),
        kids(node(s2, x)) == branch_kids2(s1, x, y),
    ensures
        wf_node(s2, x, h, lo, hi),
        forall|k2: Seq<u8>| #[trigger] lookup(s2, x, h, k2) == pair_lookup(s1, x, y, h, sep, k2),
        forall|q: int| #[trigger] in_tree(s2, x, h, q) ==> q != y && (in_tree(s1, x, h, q) || in_tree(s1, y, h, q)),
        forall|e: int| #[trigger] holds_data(s2, x, h, e) ==> holds_data(s1, x, h, e) || holds_data(s1, y, h, e),
{
    let g = (h - 1) as nat;
    let vk = branch_keys2(s1, x, y, sep);
    let vc = branch_kids2(s1, x, y);
    lemma_branch_pair_join(s1, x, y, h, lo, sep, hi);
    assert(is_index_slot(s1, x) && is_index_slot(s1, y));
    lemma_kids_frame2(s1, s2, vk, vc, g, lo, hi, x, y);
    lemma_branch_from_kids(s2, x, h, lo, hi);
    assert(in_tree(s1, x, h, x));
    assert forall|q: int| #[trigger] in_tree(s2, x, h, q) implies q != y && (in_tree(s1, x, h, q) || in_tree(s1, y, h, q)) by {
        if q != x {
            let i = choose|i: int| 0 <= i < vc.len() && #[trigger] in_tree(s2, vc[i].0 as int, g, q);
            assert(in_tree(s1, vc[i].0 as int, g, q));
        }
    }
    assert forall|e: int| #[trigger] holds_data(s2, x, h, e) implies holds_data(s1, x, h, e) || holds_data(s1, y, h, e) by {
        let i = choose|i: int| 0 <= i < vc.len() && #[trigger] holds_data(s2, vc[i].0 as int, g, e);
        assert(holds_data(s1, vc[i].0 as int, g, e));
    }
    assert forall|k2: Seq<u8>| #[trigger] lookup(s2, x, h, k2) == pair_lookup(s1, x, y, h, sep, k2) by {
        lemma_route_bounds(vk, k2);
    }
}


/// Replacing separator `a` by `v`, which lies strictly between its
/// neighbours: searches that went past neither side of `a` go where they went.
pub proof fn lemma_route_update(ks: Seq<Seq<u8>>, a: int, v: Seq<u8>)
    requires
        sorted(ks),
        0 <= a < ks.len(),
        a > 0 ==> key_lt(ks[a - 1], v),
        a + 1 < ks.len() ==> key_lt(v, ks[a + 1]),
    ensures
        sorted(ks.update(a, v)),
        forall|k2: Seq<u8>| #[trigger] route(ks.update(a, v), k2) == if route(ks, k2) < a || route(ks, k2) > a + 1 {
            route(ks, k2)
        } else if key_lt(k2, v) {
            a
        } else {
            a + 1
        },
{
    let ks2 = ks.update(a, v);
    assert forall|i: int, j: int| 0 <= i < j < ks2.len() implies key_lt(#[trigger] ks2[i], #[trigger] ks2[j]) by {
        if i == a && j > a + 1 {
            lemma_key_order(v, ks[a + 1], ks[j]);
        } else if j == a && i < a - 1 {
            lemma_key_order(ks[i], ks[a - 1], v);
        }
    }
    assert forall|k2: Seq<u8>| #[trigger] route(ks2, k2) == if route(ks, k2) < a || route(ks, k2) > a + 1 {
        route(ks, k2)
    } else if key_lt(k2, v) {
        a
    } else {
        a + 1
    } by {
        lemma_route_split(ks, k2);
        lemma_route_bounds(ks, k2);
        let r = route(ks, k2);
        if r < a {
            assert forall|i: int| r <= i < ks2.len() implies key_lt(k2, #[trigger] ks2[i]) by {
                if i == a {
                    lemma_key_order(k2, ks[a - 1], v);
                }
            }
            assert forall|i: int| 0 <= i < r implies !key_lt(k2, #[trigger] ks2[i]) by {}
            lemma_route_char(ks2, k2, r);
        } else if r > a + 1 {
            assert forall|i: int| 0 <= i < r implies !key_lt(k2, #[trigger] ks2[i]) by {
                if i == a {
                    assert(!key_lt(k2, ks[a + 1]));
                    if key_lt(k2, v) {
                        lemma_key_order(k2, v, ks[a + 1]);
                    }
                }
            }
            assert forall|i: int| r <= i < ks2.len() implies key_lt(k2, #[trigger] ks2[i]) by {}
            lemma_route_char(ks2, k2, r);
        } else {
            if key_lt(k2, v) {
                assert forall|i: int| a <= i < ks2.len() implies key_lt(k2, #[trigger] ks2[i]) by {
                    if i > a {
                        lemma_key_order(k2, v, ks[i]);
                    }
                }
                assert forall|i: int| 0 <= i < a implies !key_lt(k2, #[trigger] ks2[i]) by {}
                lemma_route_char(ks2, k2, a);
            } else {
                assert forall|i: int| a + 1 <= i < ks2.len() implies key_lt(k2, #[trigger] ks2[i]) by {
                    if r == a {
                        if i > a {
                            lemma_key_order(k2, ks[a], ks[i]);
                        }
                    }
                }
                assert forall|i: int| 0 <= i < a + 1 implies !key_lt(k2, #[trigger] ks2[i]) by {
                    if i < a {
                        if key_lt(k2, ks[i]) {
                            lemma_key_order(k2, ks[i], v);
                        }
                    }
                }
                lemma_route_char(ks2, k2, a + 1);
            }
        }
    }
}

/// Taking out separator `a`: searches that went to child `a` or `a + 1` go
/// to child `a`, later ones one child earlier.
pub proof fn lemma_route_remove(ks: Seq<Seq<u8>>, a: int)
    requires
        sorted(ks),
        0 <= a < ks.len(),
    ensures
        sorted(ks.remove(a)),
        forall|k2: Seq<u8>| #[trigger] route(ks.remove(a), k2) == if route(ks, k2) <= a { route(ks, k2) } else { route(ks, k2) - 1 },
{
    let ks2 = ks.remove(a);
    assert forall|i: int, j: int| 0 <= i < j < ks2.len() implies key_lt(#[trigger] ks2[i], #[trigger] ks2[j]) by {
        if i >= a {
            assert(ks2[i] == ks[i + 1]);
        }
        if j >= a {
            assert(ks2[j] == ks[j + 1]);
        }
    }
    assert forall|k2: Seq<u8>| #[trigger] route(ks2, k2) == if route(ks, k2) <= a { route(ks, k2) } else { route(ks, k2) - 1 } by {
        lemma_route_split(ks, k2);
        lemma_route_bounds(ks, k2);
        let r = route(ks, k2);
        let r2 = if r <= a { r } else { r - 1 };
        assert forall|i: int| 0 <= i < r2 implies !key_lt(k2, #[trigger] ks2[i]) by {
            if i >= a {
                assert(ks2[i] == ks[i + 1]);
            }
        }
        assert forall|i: int| r2 <= i < ks2.len() implies key_lt(k2, #[trigger] ks2[i]) by {
            if i >= a {
                assert(ks2[i] == ks[i + 1]);
            }
        }
        lemma_route_char(ks2, k2, r2);
    }
}

/// Children `a` and `a + 1` of a well-formed branch inside form a pair.
pub proof fn lemma_pair_of_kids(s: Seq<Slot>, ks: Seq<Seq<u8>>, cs: Seq<PageId>, h: nat, lo: Option<Seq<u8>>, hi: Option<Seq<u8>>, id: int, a: int)
    requires
        kids_ok(s, ks, cs, h, lo, hi, id),
        0 <= a,
        a + 1 < cs.len(),
    ensures
        pair_ok(s, cs[a].0 as int, cs[a + 1].0 as int, h, clo(ks, a, lo), ks[a], chi(ks, a + 1, hi)),
        cs[a].0 != cs[a + 1].0,
        is_index_slot(s, cs[a].0 as int),
        is_index_slot(s, cs[a + 1].0 as int),
        chi(ks, a, hi) == Some(ks[a]),
        clo(ks, a + 1, lo) == Some(ks[a]),
{
    let x = cs[a].0 as int;
    let y = cs[a + 1].0 as int;
    assert(wf_node(s, x, h, clo(ks, a, lo), chi(ks, a, hi)));
    assert(wf_node(s, y, h, clo(ks, a + 1, lo), chi(ks, a + 1, hi)));
    assert(in_tree(s, x, h, x));
    assert(in_tree(s, y, h, y));
    if x == y {
        assert(in_tree(s, cs[a].0 as int, h, x) && in_tree(s, cs[a + 1].0 as int, h, x));
    }
    lemma_in_tree_bounds(s, x, h, clo(ks, a, lo), chi(ks, a, hi), x);
    lemma_in_tree_bounds(s, y, h, clo(ks, a + 1, lo), chi(ks, a + 1, hi), y);
    assert forall|q: int| !(#[trigger] in_tree(s, x, h, q) && #[trigger] in_tree(s, y, h, q)) by {
        assert(!(in_tree(s, cs[a].0 as int, h, q) && in_tree(s, cs[a + 1].0 as int, h, q)));
    }
    assert forall|e: int| !(#[trigger] holds_data(s, x, h, e) && #[trigger] holds_data(s, y, h, e)) by {
        assert(!(holds_data(s, cs[a].0 as int, h, e) && holds_data(s, cs[a + 1].0 as int, h, e)));
    }
}


/// The children of a branch other than the pair `a`, `a + 1` survive changes
/// to the pair and to the branch page.
#[verifier::spinoff_prover]
pub proof fn lemma_others_stable(s1: Seq<Slot>, s2: Seq<Slot>, ks: Seq<Seq<u8>>, cs: Seq<PageId>, h: nat, lo: Option<Seq<u8>>, hi: Option<Seq<u8>>, id: int, a: int)
    requires
        kids_ok(s1, ks, cs, h, lo, hi, id),
        0 <= a,
        a + 1 < cs.len(),
        is_index_slot(s1, id),
        kept_set(s1, s2, set![cs[a].0 as int, cs[a + 1].0 as int, id]),
    ensures
        forall|i: int| 0 <= i < cs.len() && i != a && i != a + 1 ==> {
            &&& wf_node(s2, #[trigger] cs[i].0 as int, h, clo(ks, i, lo), chi(ks, i, hi))
            &&& forall|q: int| #[trigger] in_tree(s2, cs[i].0 as int, h, q) == in_tree(s1, cs[i].0 as int, h, q)
            &&& forall|e: int| #[trigger] holds_data(s2, cs[i].0 as int, h, e) == holds_data(s1, cs[i].0 as int, h, e)
            &&& forall|k: Seq<u8>| #[trigger] lookup(s2, cs[i].0 as int, h, k) == lookup(s1, cs[i].0 as int, h, k)
        },
{
    let x = cs[a].0 as int;
    let y = cs[a + 1].0 as int;
    let xs = set![x, y, id];
    lemma_pair_of_kids(s1, ks, cs, h, lo, hi, id, a);
    assert(in_tree(s1, x, h, x));
    assert(in_tree(s1, y, h, y));
    assert forall|i: int| 0 <= i < cs.len() && i != a && i != a + 1 implies {
        &&& wf_node(s2, #[trigger] cs[i].0 as int, h, clo(ks, i, lo), chi(ks, i, hi))
        &&& forall|q: int| #[trigger] in_tree(s2, cs[i].0 as int, h, q) == in_tree(s1, cs[i].0 as int, h, q)
        &&& forall|e: int| #[trigger] holds_data(s2, cs[i].0 as int, h, e) == holds_data(s1, cs[i].0 as int, h, e)
        &&& forall|k: Seq<u8>| #[trigger] lookup(s2, cs[i].0 as int, h, k) == lookup(s1, cs[i].0 as int, h, k)
    } by {
        let c = cs[i].0 as int;
        assert forall|p: int| xs.contains(p) implies !in_tree(s1, c, h, p) && !holds_data(s1, c, h, p) by {
            if holds_data(s1, c, h, p) {
                lemma_holds_data_bounds(s1, c, h, clo(ks, i, lo), chi(ks, i, hi), p);
            }
            if p == x && in_tree(s1, c, h, p) {
                if i < a {
                    assert(!(in_tree(s1, cs[i].0 as int, h, x) && in_tree(s1, cs[a].0 as int, h, x)));
                } else {
                    assert(!(in_tree(s1, cs[a].0 as int, h, x) && in_tree(s1, cs[i].0 as int, h, x)));
                }
            }
            if p == y && in_tree(s1, c, h, p) {
                if i < a + 1 {
                    assert(!(in_tree(s1, cs[i].0 as int, h, y) && in_tree(s1, cs[a + 1].0 as int, h, y)));
                } else {
                    assert(!(in_tree(s1, cs[a + 1].0 as int, h, y) && in_tree(s1, cs[i].0 as int, h, y)));
                }
            }
        }
        lemma_frame_set(s1, s2, c, h, clo(ks, i, lo), chi(ks, i, hi), xs);
    }
}

/// Branch `id` after the pair `a`, `a + 1` traded keys: the branch, written
/// back with the pair's new separator, holds what it held.
#[verifier::spinoff_prover]
#[verifier::rlimit(80)]
pub proof fn lemma_parent_borrow(s: Seq<Slot>, s1: Seq<Slot>, s2: Seq<Slot>, id: int, h: nat, lo: Option<Seq<u8>>, hi: Option<Seq<u8>>,
    k: Seq<u8>, ks: Seq<Seq<u8>>, cs: Seq<PageId>, a: int, sep2: Seq<u8>)
    requires
        h > 0,
        kids_ok(s1, ks, cs, (h - 1) as nat, lo, hi, id),
        rm_carry(s, s1, id, h, ks, cs, k),
        in_tree(s, id, h, id),
        0 <= a,
        a + 1 < cs.len(),
        is_index_slot(s1, id),
        pair_ok(s2, cs[a].0 as int, cs[a + 1].0 as int, (h - 1) as nat, clo(ks, a, lo), sep2, chi(ks, a + 1, hi)),
        forall|k2: Seq<u8>| #[trigger] pair_lookup(s2, cs[a].0 as int, cs[a + 1].0 as int, (h - 1) as nat, sep2, k2)
            == pair_lookup(s1, cs[a].0 as int, cs[a + 1].0 as int, (h - 1) as nat, ks[a], k2),
        forall|q: int| #[trigger] in_tree(s2, cs[a].0 as int, (h - 1) as nat, q) ==> in_tree(s1, cs[a].0 as int, (h - 1) as nat, q) || in_tree(s1, cs[a + 1].0 as int, (h - 1) as nat, q),
        forall|q: int| #[trigger] in_tree(s2, cs[a + 1].0 as int, (h - 1) as nat, q) ==> in_tree(s1, cs[a].0 as int, (h - 1) as nat, q) || in_tree(s1, cs[a + 1].0 as int, (h - 1) as nat, q),
        forall|e: int| #[trigger] holds_data(s2, cs[a].0 as int, (h - 1) as nat, e) ==> holds_data(s1, cs[a].0 as int, (h - 1) as nat, e) || holds_data(s1, cs[a + 1].0 as int, (h - 1) as nat, e),
        forall|e: int| #[trigger] holds_data(s2, cs[a + 1].0 as int, (h - 1) as nat, e) ==> holds_data(s1, cs[a].0 as int, (h - 1) as nat, e) || holds_data(s1, cs[a + 1].0 as int, (h - 1) as nat, e),
        kept_set(s1, s2, set![cs[a].0 as int, cs[a + 1].0 as int, id]),
        is_index_slot(s2, id),
        node(s2, id).header.page_id.0 == id,
        node(s2, id).node_type is Branch,
        node_keys(node(s2, id)) == ks.update(a, sep2),
        kids(node(s2, id)) == cs,
    ensures
        rm_done(s, s2, id, h, lo, hi, k),
{
    let hc = (h - 1) as nat;
    let x = cs[a].0 as int;
    let y = cs[a + 1].0 as int;
    let ks2 = ks.update(a, sep2);
    let sep = ks[a];
    lemma_pair_of_kids(s1, ks, cs, hc, lo, hi, id, a);
    lemma_others_stable(s1, s2, ks, cs, hc, lo, hi, id, a);
    // The new separators.
    assert(a > 0 ==> key_lt(ks[a - 1], sep2));
    assert(a + 1 < ks.len() ==> key_lt(sep2, ks[a + 1]));
    lemma_route_update(ks, a, sep2);
    assert(all_in(ks2, lo, hi)) by {
        assert forall|i: int| 0 <= i < ks2.len() implies above_lo(#[trigger] ks2[i], lo) && below_hi(ks2[i], hi) by {
            if i == a {
                match lo {
                    Some(l) => {
                        if a > 0 {
                            lemma_key_order(l, ks[a - 1], sep2);
                            if l != ks[a - 1] {
                                lemma_key_order(l, ks[a - 1], l);
                            }
                            lemma_key_order(sep2, l, ks[a - 1]);
                        }
                        lemma_key_order(l, sep2, l);
                    },
                    None => {},
                }
                match hi {
                    Some(hv) => {
                        if a + 1 < ks.len() {
                            lemma_key_order(sep2, ks[a + 1], hv);
                        }
                    },
                    None => {},
                }
            }
        }
    }
    assert(ks2.len() > 0 ==> strictly_above(ks2[0], lo));
    // The children.
    assert forall|i: int| 0 <= i < cs.len() implies wf_node(s2, #[trigger] cs[i].0 as int, hc, clo(ks2, i, lo), chi(ks2, i, hi)) by {
        if i != a && i != a + 1 {
            assert(wf_node(s2, cs[i].0 as int, hc, clo(ks, i, lo), chi(ks, i, hi)));
        }
    }
    assert forall|i: int| 0 <= i < cs.len() implies !in_tree(s2, #[trigger] cs[i].0 as int, hc, id) by {
        if i != a && i != a + 1 {
            assert(in_tree(s2, cs[i].0 as int, hc, id) == in_tree(s1, cs[i].0 as int, hc, id));
        } else if i == a {
            if in_tree(s2, x, hc, id) {
                assert(in_tree(s1, cs[a].0 as int, hc, id) || in_tree(s1, cs[a + 1].0 as int, hc, id));
            }
        } else {
            if in_tree(s2, y, hc, id) {
                assert(in_tree(s1, cs[a].0 as int, hc, id) || in_tree(s1, cs[a + 1].0 as int, hc, id));
            }
        }
    }
    assert forall|i: int, q: int| 0 <= i < cs.len() && #[trigger] in_tree(s2, cs[i].0 as int, hc, q) implies
        (exists|j: int| 0 <= j < cs.len() && (i == a || i == a + 1 ==> j == a || j == a + 1) && (i != a && i != a + 1 ==> j == i) && #[trigger] in_tree(s1, cs[j].0 as int, hc, q)) by {
        if i == a || i == a + 1 {
            if in_tree(s1, cs[a].0 as int, hc, q) {
                assert(in_tree(s1, cs[a].0 as int, hc, q));
            } else {
                assert(in_tree(s1, cs[a + 1].0 as int, hc, q));
            }
        } else {
            assert(in_tree(s1, cs[i].0 as int, hc, q));
        }
    }
    assert forall|i: int, e: int| 0 <= i < cs.len() && #[trigger] holds_data(s2, cs[i].0 as int, hc, e) implies
        (exists|j: int| 0 <= j < cs.len() && (i == a || i == a + 1 ==> j == a || j == a + 1) && (i != a && i != a + 1 ==> j == i) && #[trigger] holds_data(s1, cs[j].0 as int, hc, e)) by {
        if i == a || i == a + 1 {
            if holds_data(s1, cs[a].0 as int, hc, e) {
                assert(holds_data(s1, cs[a].0 as int, hc, e));
            } else {
                assert(holds_data(s1, cs[a + 1].0 as int, hc, e));
            }
        } else {
            assert(holds_data(s1, cs[i].0 as int, hc, e));
        }
    }
    assert forall|b1: int, b2: int, q: int| 0 <= b1 < b2 < cs.len() implies !(#[trigger] in_tree(s2, cs[b1].0 as int, hc, q)
        && #[trigger] in_tree(s2, cs[b2].0 as int, hc, q)) by {
        if in_tree(s2, cs[b1].0 as int, hc, q) && in_tree(s2, cs[b2].0 as int, hc, q) {
            if b1 == a && b2 == a + 1 {
            } else {
                let j1 = choose|j: int| 0 <= j < cs.len() && (b1 == a || b1 == a + 1 ==> j == a || j == a + 1) && (b1 != a && b1 != a + 1 ==> j == b1) && #[trigger] in_tree(s1, cs[j].0 as int, hc, q);
                let j2 = choose|j: int| 0 <= j < cs.len() && (b2 == a || b2 == a + 1 ==> j == a || j == a + 1) && (b2 != a && b2 != a + 1 ==> j == b2) && #[trigger] in_tree(s1, cs[j].0 as int, hc, q);
                if j1 < j2 {
                    assert(!(in_tree(s1, cs[j1].0 as int, hc, q) && in_tree(s1, cs[j2].0 as int, hc, q)));
                } else if j2 < j1 {
                    assert(!(in_tree(s1, cs[j2].0 as int, hc, q) && in_tree(s1, cs[j1].0 as int, hc, q)));
                }
            }
        }
    }
    assert forall|b1: int, b2: int, e: int| 0 <= b1 < b2 < cs.len() implies !(#[trigger] holds_data(s2, cs[b1].0 as int, hc, e)
        && #[trigger] holds_data(s2, cs[b2].0 as int, hc, e)) by {
        if holds_data(s2, cs[b1].0 as int, hc, e) && holds_data(s2, cs[b2].0 as int, hc, e) {
            if b1 == a && b2 == a + 1 {
            } else {
                let j1 = choose|j: int| 0 <= j < cs.len() && (b1 == a || b1 == a + 1 ==> j == a || j == a + 1) && (b1 != a && b1 != a + 1 ==> j == b1) && #[trigger] holds_data(s1, cs[j].0 as int, hc, e);
                let j2 = choose|j: int| 0 <= j < cs.len() && (b2 == a || b2 == a + 1 ==> j == a || j == a + 1) && (b2 != a && b2 != a + 1 ==> j == b2) && #[trigger] holds_data(s1, cs[j].0 as int, hc, e);
                if j1 < j2 {
                    assert(!(holds_data(s1, cs[j1].0 as int, hc, e) && holds_data(s1, cs[j2].0 as int, hc, e)));
                } else if j2 < j1 {
                    assert(!(holds_data(s1, cs[j2].0 as int, hc, e) && holds_data(s1, cs[j1].0 as int, hc, e)));
                }
            }
        }
    }
    assert(kids_ok(s2, ks2, cs, hc, lo, hi, id));
    lemma_branch_from_kids(s2, id, h, lo, hi);
    // What the branch holds.
    assert forall|q: int| #[trigger] in_tree(s2, id, h, q) implies in_tree(s, id, h, q) by {
        if q != id {
            let i = choose|i: int| 0 <= i < cs.len() && #[trigger] in_tree(s2, cs[i].0 as int, hc, q);
            let j = choose|j: int| 0 <= j < cs.len() && (i == a || i == a + 1 ==> j == a || j == a + 1) && (i != a && i != a + 1 ==> j == i) && #[trigger] in_tree(s1, cs[j].0 as int, hc, q);
        }
    }
    assert forall|e: int| #[trigger] holds_data(s2, id, h, e) implies holds_data(s, id, h, e) && s2[e] == s[e] by {
        let i = choose|i: int| 0 <= i < cs.len() && #[trigger] holds_data(s2, cs[i].0 as int, hc, e);
        let j = choose|j: int| 0 <= j < cs.len() && (i == a || i == a + 1 ==> j == a || j == a + 1) && (i != a && i != a + 1 ==> j == i) && #[trigger] holds_data(s1, cs[j].0 as int, hc, e);
        lemma_holds_data_bounds(s1, cs[j].0 as int, hc, clo(ks, j, lo), chi(ks, j, hi), e);
    }
    assert forall|k2: Seq<u8>| #[trigger] lookup(s2, id, h, k2) == if k2 == k { None } else { lookup(s, id, h, k2) } by {
        lemma_route_bounds(ks, k2);
        lemma_route_bounds(ks2, k2);
        let r = route(ks, k2);
        assert(lookup(s1, cs[r].0 as int, hc, k2) == if k2 == k { None } else { lookup(s, id, h, k2) });
        if r < a || r > a + 1 {
            assert(lookup(s2, cs[r].0 as int, hc, k2) == lookup(s1, cs[r].0 as int, hc, k2));
        } else {
            lemma_route_split(ks, k2);
            assert(pair_lookup(s1, x, y, hc, sep, k2) == lookup(s1, cs[r].0 as int, hc, k2));
            assert(pair_lookup(s2, x, y, hc, sep2, k2) == lookup(s2, cs[route(ks2, k2)].0 as int, hc, k2));
        }
    }
}


/// Branch `id` after the pair `a`, `a + 1` merged into child `a`: the branch,
/// written back without separator `a` and child `a + 1`, holds what it held.
#[verifier::spinoff_prover]
#[verifier::rlimit(80)]
pub proof fn lemma_parent_merge(s: Seq<Slot>, s1: Seq<Slot>, s2: Seq<Slot>, id: int, h: nat, lo: Option<Seq<u8>>, hi: Option<Seq<u8>>,
    k: Seq<u8>, ks: Seq<Seq<u8>>, cs: Seq<PageId>, a: int)
    requires
        h > 0,
        kids_ok(s1, ks, cs, (h - 1) as nat, lo, hi, id),
        rm_carry(s, s1, id, h, ks, cs, k),
        in_tree(s, id, h, id),
        0 <= a,
        a + 1 < cs.len(),
        is_index_slot(s1, id),
        wf_node(s2, cs[a].0 as int, (h - 1) as nat, clo(ks, a, lo), chi(ks, a + 1, hi)),
        forall|k2: Seq<u8>| #[trigger] lookup(s2, cs[a].0 as int, (h - 1) as nat, k2)
            == pair_lookup(s1, cs[a].0 as int, cs[a + 1].0 as int, (h - 1) as nat, ks[a], k2),
        forall|q: int| #[trigger] in_tree(s2, cs[a].0 as int, (h - 1) as nat, q) ==> in_tree(s1, cs[a].0 as int, (h - 1) as nat, q) || in_tree(s1, cs[a + 1].0 as int, (h - 1) as nat, q),
        forall|e: int| #[trigger] holds_data(s2, cs[a].0 as int, (h - 1) as nat, e) ==> holds_data(s1, cs[a].0 as int, (h - 1) as nat, e) || holds_data(s1, cs[a + 1].0 as int, (h - 1) as nat, e),
        kept_set(s1, s2, set![cs[a].0 as int, cs[a + 1].0 as int, id]),
        is_index_slot(s2, id),
        node(s2, id).header.page_id.0 == id,
        node(s2, id).node_type is Branch,
        node_keys(node(s2, id)) == ks.remove(a),
        kids(node(s2, id)) == cs.remove(a + 1),
    ensures
        rm_done(s, s2, id, h, lo, hi, k),
{
    let hc = (h - 1) as nat;
    let x = cs[a].0 as int;
    let y = cs[a + 1].0 as int;
    let ks2 = ks.remove(a);
    let cs2 = cs.remove(a + 1);
    let sep = ks[a];
    lemma_pair_of_kids(s1, ks, cs, hc, lo, hi, id, a);
    lemma_others_stable(s1, s2, ks, cs, hc, lo, hi, id, a);
    lemma_route_remove(ks, a);
    // Where each new child was.
    assert forall|i: int| 0 <= i < cs2.len() implies #[trigger] cs2[i] == cs[if i <= a { i } else { i + 1 }] by {}
    assert(all_in(ks2, lo, hi)) by {
        assert forall|i: int| 0 <= i < ks2.len() implies above_lo(#[trigger] ks2[i], lo) && below_hi(ks2[i], hi) by {
            if i >= a {
                assert(ks2[i] == ks[i + 1]);
            }
        }
    }
    assert(ks2.len() > 0 ==> strictly_above(ks2[0], lo)) by {
        if ks2.len() > 0 && a == 0 {
            assert(ks2[0] == ks[1]);
            match lo {
                Some(l) => lemma_key_order(l, ks[0], ks[1]),
                None => {},
            }
        }
    }
    assert forall|i: int| 0 <= i < cs2.len() implies wf_node(s2, #[trigger] cs2[i].0 as int, hc, clo(ks2, i, lo), chi(ks2, i, hi)) by {
        if i < a {
            assert(wf_node(s2, cs[i].0 as int, hc, clo(ks, i, lo), chi(ks, i, hi)));
        } else if i > a {
            assert(cs2[i] == cs[i + 1]);
            assert(wf_node(s2, cs[i + 1].0 as int, hc, clo(ks, i + 1, lo), chi(ks, i + 1, hi)));
            assert(ks2[i - 1] == ks[i]);
            if i < ks2.len() {
                assert(ks2[i] == ks[i + 1]);
            }
        } else {
            if a < ks2.len() {
                assert(ks2[a] == ks[a + 1]);
            }
        }
    }
    // Each new child's pages were under one old child, `a` standing for the pair.
    assert forall|i: int, q: int| 0 <= i < cs2.len() && #[trigger] in_tree(s2, cs2[i].0 as int, hc, q) implies
        (exists|j: int| 0 <= j < cs.len() && (i == a ==> j == a || j == a + 1) && (i < a ==> j == i) && (i > a ==> j == i + 1) && #[trigger] in_tree(s1, cs[j].0 as int, hc, q)) by {
        if i == a {
            if in_tree(s1, cs[a].0 as int, hc, q) {
                assert(in_tree(s1, cs[a].0 as int, hc, q));
            } else {
                assert(in_tree(s1, cs[a + 1].0 as int, hc, q));
            }
        } else if i < a {
            assert(in_tree(s1, cs[i].0 as int, hc, q));
        } else {
            assert(cs2[i] == cs[i + 1]);
            assert(in_tree(s1, cs[i + 1].0 as int, hc, q));
        }
    }
    assert forall|i: int, e: int| 0 <= i < cs2.len() && #[trigger] holds_data(s2, cs2[i].0 as int, hc, e) implies
        (exists|j: int| 0 <= j < cs.len() && (i == a ==> j == a || j == a + 1) && (i < a ==> j == i) && (i > a ==> j == i + 1) && #[trigger] holds_data(s1, cs[j].0 as int, hc, e)) by {
        if i == a {
            if holds_data(s1, cs[a].0 as int, hc, e) {
                assert(holds_data(s1, cs[a].0 as int, hc, e));
            } else {
                assert(holds_data(s1, cs[a + 1].0 as int, hc, e));
            }
        } else if i < a {
            assert(holds_data(s1, cs[i].0 as int, hc, e));
        } else {
            assert(cs2[i] == cs[i + 1]);
            assert(holds_data(s1, cs[i + 1].0 as int, hc, e));
        }
    }
    assert forall|i: int| 0 <= i < cs2.len() implies !in_tree(s2, #[trigger] cs2[i].0 as int, hc, id) by {
        if in_tree(s2, cs2[i].0 as int, hc, id) {
            let j = choose|j: int| 0 <= j < cs.len() && (i == a ==> j == a || j == a + 1) && (i < a ==> j == i) && (i > a ==> j == i + 1) && #[trigger] in_tree(s1, cs[j].0 as int, hc, id);
        }
    }
    assert forall|b1: int, b2: int, q: int| 0 <= b1 < b2 < cs2.len() implies !(#[trigger] in_tree(s2, cs2[b1].0 as int, hc, q)
        && #[trigger] in_tree(s2, cs2[b2].0 as int, hc, q)) by {
        if in_tree(s2, cs2[b1].0 as int, hc, q) && in_tree(s2, cs2[b2].0 as int, hc, q) {
            let j1 = choose|j: int| 0 <= j < cs.len() && (b1 == a ==> j == a || j == a + 1) && (b1 < a ==> j == b1) && (b1 > a ==> j == b1 + 1) && #[trigger] in_tree(s1, cs[j].0 as int, hc, q);
            let j2 = choose|j: int| 0 <= j < cs.len() && (b2 == a ==> j == a || j == a + 1) && (b2 < a ==> j == b2) && (b2 > a ==> j == b2 + 1) && #[trigger] in_tree(s1, cs[j].0 as int, hc, q);
            assert(j1 < j2);
            assert(!(in_tree(s1, cs[j1].0 as int, hc, q) && in_tree(s1, cs[j2].0 as int, hc, q)));
        }
    }
    assert forall|b1: int, b2: int, e: int| 0 <= b1 < b2 < cs2.len() implies !(#[trigger] holds_data(s2, cs2[b1].0 as int, hc, e)
        && #[trigger] holds_data(s2, cs2[b2].0 as int, hc, e)) by {
        if holds_data(s2, cs2[b1].0 as int, hc, e) && holds_data(s2, cs2[b2].0 as int, hc, e) {
            let j1 = choose|j: int| 0 <= j < cs.len() && (b1 == a ==> j == a || j == a + 1) && (b1 < a ==> j == b1) && (b1 > a ==> j == b1 + 1) && #[trigger] holds_data(s1, cs[j].0 as int, hc, e);
            let j2 = choose|j: int| 0 <= j < cs.len() && (b2 == a ==> j == a || j == a + 1) && (b2 < a ==> j == b2) && (b2 > a ==> j == b2 + 1) && #[trigger] holds_data(s1, cs[j].0 as int, hc, e);
            assert(j1 < j2);
            assert(!(holds_data(s1, cs[j1].0 as int, hc, e) && holds_data(s1, cs[j2].0 as int, hc, e)));
        }
    }
    assert(kids_ok(s2, ks2, cs2, hc, lo, hi, id));
    lemma_branch_from_kids(s2, id, h, lo, hi);
    assert forall|q: int| #[trigger] in_tree(s2, id, h, q) implies in_tree(s, id, h, q) by {
        if q != id {
            let i = choose|i: int| 0 <= i < cs2.len() && #[trigger] in_tree(s2, cs2[i].0 as int, hc, q);
            let j = choose|j: int| 0 <= j < cs.len() && (i == a ==> j == a || j == a + 1) && (i < a ==> j == i) && (i > a ==> j == i + 1) && #[trigger] in_tree(s1, cs[j].0 as int, hc, q);
        }
    }
    assert forall|e: int| #[trigger] holds_data(s2, id, h, e) implies holds_data(s, id, h, e) && s2[e] == s[e] by {
        let i = choose|i: int| 0 <= i < cs2.len() && #[trigger] holds_data(s2, cs2[i].0 as int, hc, e);
        let j = choose|j: int| 0 <= j < cs.len() && (i == a ==> j == a || j == a + 1) && (i < a ==> j == i) && (i > a ==> j == i + 1) && #[trigger] holds_data(s1, cs[j].0 as int, hc, e);
        lemma_holds_data_bounds(s1, cs[j].0 as int, hc, clo(ks, j, lo), chi(ks, j, hi), e);
    }
    assert forall|k2: Seq<u8>| #[trigger] lookup(s2, id, h, k2) == if k2 == k { None } else { lookup(s, id, h, k2) } by {
        lemma_route_bounds(ks, k2);
        let r = route(ks, k2);
        assert(lookup(s1, cs[r].0 as int, hc, k2) == if k2 == k { None } else { lookup(s, id, h, k2) });
        if r < a {
            assert(lookup(s2, cs[r].0 as int, hc, k2) == lookup(s1, cs[r].0 as int, hc, k2));
        } else if r > a + 1 {
            assert(cs2[r - 1] == cs[r]);
            assert(lookup(s2, cs[r].0 as int, hc, k2) == lookup(s1, cs[r].0 as int, hc, k2));
        } else {
            lemma_route_split(ks, k2);
            assert(pair_lookup(s1, x, y, hc, sep, k2) == lookup(s1, cs[r].0 as int, hc, k2));
        }
    }
}


/// Branch `id` in `s1`, after a removal below it from the subtree it was in `s`.
pub open spec fn rebal_pre(s: Seq<Slot>, s1: Seq<Slot>, id: int, h: nat, lo: Option<Seq<u8>>, hi: Option<Seq<u8>>, k: Seq<u8>) -> bool {
    let p = node(s1, id);
    &&& h > 0
    &&& is_index_slot(s1, id)
    &&& p.header.page_id.0 == id
    &&& p.node_type is Branch
    &&& kids_ok(s1, node_keys(p), kids(p), (h - 1) as nat, lo, hi, id)
    &&& rm_carry(s, s1, id, h, node_keys(p), kids(p), k)
    &&& in_tree(s, id, h, id)
    &&& rm_frame(s, s1, id, h)
}

/// A pair survives a change to a page `z` outside both subtrees.
pub proof fn lemma_pair_move(s1: Seq<Slot>, s2: Seq<Slot>, x: int, y: int, h: nat, lo: Option<Seq<u8>>, sep: Seq<u8>, hi: Option<Seq<u8>>, z: int)
    requires
        pair_ok(s1, x, y, h, lo, sep, hi),
        !in_tree(s1, x, h, z),
        !in_tree(s1, y, h, z),
        is_index_slot(s1, z),
        kept_set(s1, s2, set![z]),
    ensures
        pair_ok(s2, x, y, h, lo, sep, hi),
        forall|q: int| #[trigger] in_tree(s2, x, h, q) == in_tree(s1, x, h, q),
        forall|q: int| #[trigger] in_tree(s2, y, h, q) == in_tree(s1, y, h, q),
        forall|e: int| #[trigger] holds_data(s2, x, h, e) == holds_data(s1, x, h, e),
        forall|e: int| #[trigger] holds_data(s2, y, h, e) == holds_data(s1, y, h, e),
        forall|k2: Seq<u8>| #[trigger] lookup(s2, x, h, k2) == lookup(s1, x, h, k2),
        forall|k2: Seq<u8>| #[trigger] lookup(s2, y, h, k2) == lookup(s1, y, h, k2),
{
    if holds_data(s1, x, h, z) {
        lemma_holds_data_bounds(s1, x, h, lo, Some(sep), z);
    }
    if holds_data(s1, y, h, z) {
        lemma_holds_data_bounds(s1, y, h, Some(sep), hi, z);
    }
    lemma_frame_set(s1, s2, x, h, lo, Some(sep), set![z]);
    lemma_frame_set(s1, s2, y, h, Some(sep), hi, set![z]);
}

impl BpTree {
    /// Replaces separator `a` of branch `id` by `key`.
    fn set_separator(pager: &mut Pager, id: PageId, a: usize, key: String)
        requires
            old(pager).wf(),
            is_index_slot(old(pager).slots@, id.0 as int),
            node(old(pager).slots@, id.0 as int).node_type is Branch,
            a < node_keys(node(old(pager).slots@, id.0 as int)).len(),
        ensures
            final(pager).wf(),
            final(pager).num_pages == old(pager).num_pages,
            frees_kept(old(pager).free_ids(), final(pager).free_ids()),
            kept_set(old(pager).slots@, final(pager).slots@, set![id.0 as int]),
            is_index_slot(final(pager).slots@, id.0 as int),
            node(final(pager).slots@, id.0 as int).header == node(old(pager).slots@, id.0 as int).header,
            node(final(pager).slots@, id.0 as int).node_type == node(old(pager).slots@, id.0 as int).node_type,
            node_keys(node(final(pager).slots@, id.0 as int)) == node_keys(node(old(pager).slots@, id.0 as int)).update(a as int, key_bytes(key)),
            forall|o: int| keys_capped(old(pager).slots@, o) ==> #[trigger] keys_capped(final(pager).slots@, o),
            forall|o: int, xs: Set<int>| keys_floor(old(pager).slots@, o, xs) ==> #[trigger] keys_floor(final(pager).slots@, o, xs),
    {
        proof {
            pager.lemma_not_on_free_list(id.0 as int);
        }
        let ghost s1 = pager.slots@;
        let slot = pager.take_slot(id);
        let ghost st = pager.slots@;
        let page = match slot {
            Slot::Index(p) => p,
            _ => {
                proof {
                    assert(false);
                }
                return;
            },
        };
        let IndexPage { header, mut keys, node_type } = page;
        proof {
            crate::store::bptree::lemma_keys_update(keys@, a as int, key);
        }
        assert(keys@.len() == keys.len());
        keys.set(a, key);
        let written = IndexPage { header, keys, node_type };
        pager.put_slot(id, Slot::Index(written));
        proof {
            assert forall|o: int| keys_capped(s1, o) implies #[trigger] keys_capped(pager.slots@, o) by {
                assert(is_index_slot(s1, id.0 as int));
                lemma_capped_kept(s1, st, o);
                lemma_capped_put(st, id.0 as int, written, o);
            }
            assert forall|o: int, xs: Set<int>| keys_floor(s1, o, xs) implies #[trigger] keys_floor(pager.slots@, o, xs) by {
                assert(is_index_slot(s1, id.0 as int));
                lemma_floor_pair(s1, pager.slots@, id.0 as int, id.0 as int, o, xs, xs);
            }
        }
    }

    /// Takes separator `a` and child `a + 1` out of branch `id`.
    fn drop_separator(pager: &mut Pager, id: PageId, a: usize)
        requires
            old(pager).wf(),
            is_index_slot(old(pager).slots@, id.0 as int),
            node(old(pager).slots@, id.0 as int).node_type is Branch,
            a < node_keys(node(old(pager).slots@, id.0 as int)).len(),
            kids(node(old(pager).slots@, id.0 as int)).len() == node_keys(node(old(pager).slots@, id.0 as int)).len() + 1,
        ensures
            final(pager).wf(),
            final(pager).num_pages == old(pager).num_pages,
            frees_kept(old(pager).free_ids(), final(pager).free_ids()),
            kept_set(old(pager).slots@, final(pager).slots@, set![id.0 as int]),
            is_index_slot(final(pager).slots@, id.0 as int),
            node(final(pager).slots@, id.0 as int).header == node(old(pager).slots@, id.0 as int).header,
            node(final(pager).slots@, id.0 as int).node_type is Branch,
            node_keys(node(final(pager).slots@, id.0 as int)) == node_keys(node(old(pager).slots@, id.0 as int)).remove(a as int),
            kids(node(final(pager).slots@, id.0 as int)) == kids(node(old(pager).slots@, id.0 as int)).remove(a as int + 1),
            forall|o: int| keys_capped(old(pager).slots@, o) ==> #[trigger] keys_capped(final(pager).slots@, o),
            forall|o: int, xs: Set<int>| keys_floor(old(pager).slots@, o, xs) ==> #[trigger] keys_floor(final(pager).slots@, o, xs.insert(id.0 as int)),
    {
        let ghost s1 = pager.slots@;
        proof {
            pager.lemma_not_on_free_list(id.0 as int);
        }
        let slot = pager.take_slot(id);
        let ghost st = pager.slots@;
        let page = match slot {
            Slot::Index(p) => p,
            _ => {
                proof {
                    assert(false);
                }
                return;
            },
        };
        let IndexPage { header, mut keys, node_type } = page;
        let mut children = match node_type {
            NodeType::Branch { children } => children,
            NodeType::Leaf { .. } => {
                proof {
                    assert(false);
                }
                return;
            },
        };
        assert(keys@.len() == keys.len());
        let ghost before = keys@;
        keys.remove(a);
        children.remove(a + 1);
        proof {
            assert(keys@.map_values(|s: String| key_bytes(s)) =~= before.map_values(|s: String| key_bytes(s)).remove(a as int));
        }
        let written = IndexPage { header, keys, node_type: NodeType::Branch { children } };
        pager.put_slot(id, Slot::Index(written));
        proof {
            assert forall|o: int| keys_capped(s1, o) implies #[trigger] keys_capped(pager.slots@, o) by {
                assert(is_index_slot(s1, id.0 as int));
                lemma_capped_kept(s1, st, o);
                lemma_capped_put(st, id.0 as int, written, o);
            }
            assert forall|o: int, xs: Set<int>| keys_floor(s1, o, xs) implies #[trigger] keys_floor(pager.slots@, o, xs.insert(id.0 as int)) by {
                lemma_floor_pair(s1, pager.slots@, id.0 as int, id.0 as int, o, xs, xs.insert(id.0 as int));
            }
        }
    }
}


/// A branch left as it was after a removal below it holds what it held but `k`.
#[verifier::spinoff_prover]
pub proof fn lemma_rm_from_pre(s: Seq<Slot>, s1: Seq<Slot>, id: int, h: nat, lo: Option<Seq<u8>>, hi: Option<Seq<u8>>, k: Seq<u8>)
    requires
        rebal_pre(s, s1, id, h, lo, hi, k),
    ensures
        rm_done(s, s1, id, h, lo, hi, k),
{
    let hc = (h - 1) as nat;
    let cs = kids(node(s1, id));
    lemma_branch_from_kids(s1, id, h, lo, hi);
    assert forall|q: int| #[trigger] in_tree(s1, id, h, q) implies in_tree(s, id, h, q) by {
        if q != id {
            let i = choose|i: int| 0 <= i < cs.len() && #[trigger] in_tree(s1, cs[i].0 as int, hc, q);
        }
    }
    assert forall|e: int| #[trigger] holds_data(s1, id, h, e) implies holds_data(s, id, h, e) && s1[e] == s[e] by {
        let i = choose|i: int| 0 <= i < cs.len() && #[trigger] holds_data(s1, cs[i].0 as int, hc, e);
    }
    assert forall|k2: Seq<u8>| #[trigger] lookup(s1, id, h, k2) == if k2 == k { None } else { lookup(s, id, h, k2) } by {
        lemma_route_bounds(node_keys(node(s1, id)), k2);
    }
}

impl BpTree {
    /// Takes `key` out of leaf `id` and frees its value page. Returns the
    /// value, and whether the key was there.
    #[verifier::spinoff_prover]
    #[verifier::rlimit(60)]
    fn remove_leaf(&self, pager: &mut Pager, id: PageId, key: &str,
        Ghost(lo): Ghost<Option<Seq<u8>>>, Ghost(hi): Ghost<Option<Seq<u8>>>) -> (r: (Option<Value>, bool))
        requires
            old(pager).wf(),
            wf_node(old(pager).slots@, id.0 as int, 0, lo, hi),
        ensures
            final(pager).wf(),
            final(pager).num_pages == old(pager).num_pages,
            frees_kept(old(pager).free_ids(), final(pager).free_ids()),
            rm_frame(old(pager).slots@, final(pager).slots@, id.0 as int, 0),
            rm_done(old(pager).slots@, final(pager).slots@, id.0 as int, 0, lo, hi, key.spec_bytes()),
            match lookup(old(pager).slots@, id.0 as int, 0, key.spec_bytes()) {
                Some(d) => r.0 matches Some(v) && v@ == data_value(old(pager).slots@, d),
                None => r.0 is None,
            },
            r.1 == r.0 is Some,
            r.0 is None ==> *final(pager) == *old(pager),
            lookup(old(pager).slots@, id.0 as int, 0, key.spec_bytes()) matches Some(d) ==> on_free_list(final(pager).free_ids(), d),
            forall|o: int| keys_capped(old(pager).slots@, o) ==> #[trigger] keys_capped(final(pager).slots@, o),
            forall|o: int, xs: Set<int>| keys_floor(old(pager).slots@, o, xs) ==> #[trigger] keys_floor(final(pager).slots@, o, xs.insert(id.0 as int)),
            is_index_slot(final(pager).slots@, id.0 as int),
            node(final(pager).slots@, id.0 as int).keys@.len() + (if r.1 { 1int } else { 0int }) == node(old(pager).slots@, id.0 as int).keys@.len(),
    {
        let ghost s = pager.slots@;
        let ghost k = key.spec_bytes();
        let kb = key.as_bytes();
        let page = pager.index_page(id).unwrap();
        let i = match search_keys(&page.keys, kb) {
            Ok(i) => i,
            Err(_) => {
                proof {
                    lemma_find_bounds(node_keys(node(s, id.0 as int)), k);
                    assert forall|e: int| #[trigger] holds_data(s, id.0 as int, 0, e) implies holds_data(s, id.0 as int, 0, e) && s[e] == s[e] by {}
                }
                return (None, false);
            },
        };
        let ghost ks = node_keys(node(s, id.0 as int));
        let ghost ds = datas(node(s, id.0 as int));
        proof {
            pager.lemma_not_on_free_list(id.0 as int);
        }
        let slot = pager.take_slot(id);
        let ghost st = pager.slots@;
        let page = match slot {
            Slot::Index(p) => p,
            _ => {
                proof {
                    assert(false);
                }
                return (None, false);
            },
        };
        let IndexPage { header, mut keys, node_type } = page;
        let (mut pages, next) = match node_type {
            NodeType::Leaf { pages, next } => (pages, next),
            NodeType::Branch { .. } => {
                proof {
                    assert(false);
                }
                return (None, false);
            },
        };
        assert(keys@.len() == keys.len());
        let ghost before = keys@;
        keys.remove(i);
        let d = pages.remove(i);
        proof {
            assert(keys@.map_values(|s: String| key_bytes(s)) =~= ks.remove(i as int));
            assert(pages@ =~= ds.remove(i as int));
            assert(ds[i as int] == d);
            assert(is_data_slot(s, d.0 as int));
            lemma_leaf_remove(ks, ds, i as int, lo, hi);
            lemma_leaf_get(ks, ds, k);
        }
        let written = IndexPage { header, keys, node_type: NodeType::Leaf { pages, next } };
        pager.put_slot(id, Slot::Index(written));
        let ghost s1 = pager.slots@;
        proof {
            assert forall|o: int| keys_capped(s, o) implies #[trigger] keys_capped(s1, o) by {
                assert(is_index_slot(s, id.0 as int));
                lemma_capped_kept(s, st, o);
                lemma_capped_put(st, id.0 as int, written, o);
            }
            assert forall|o: int, xs: Set<int>| keys_floor(s, o, xs) implies #[trigger] keys_floor(s1, o, xs.insert(id.0 as int)) by {
                lemma_floor_pair(s, s1, id.0 as int, id.0 as int, o, xs, xs.insert(id.0 as int));
            }
        }
        proof {
            pager.lemma_not_on_free_list(d.0 as int);
        }
        let data = pager.take_slot(d);
        let ghost sd = pager.slots@;
        let value = match data {
            Slot::Data(dp) => dp.value,
            _ => {
                proof {
                    assert(false);
                }
                return (None, false);
            },
        };
        let ghost f1 = pager.free_ids();
        pager.free(d);
        proof {
            assert forall|o: int| keys_capped(s, o) implies #[trigger] keys_capped(pager.slots@, o) by {
                lemma_capped_kept(s1, sd, o);
                lemma_capped_kept(sd, pager.slots@, o);
            }
            assert forall|o: int, xs: Set<int>| keys_floor(s, o, xs) implies #[trigger] keys_floor(pager.slots@, o, xs.insert(id.0 as int)) by {
                assert(keys_floor(s1, o, xs.insert(id.0 as int)));
                lemma_floor_kept(s1, sd, o, xs.insert(id.0 as int));
                lemma_floor_kept(sd, pager.slots@, o, xs.insert(id.0 as int));
            }
        }
        proof {
            assert(lookup(s, id.0 as int, 0, k) == Some(d));
            assert(pager.free_ids()[f1.len() as int] == d);
        }
        proof {
            let s2 = pager.slots@;
            let ks2 = ks.remove(i as int);
            let ds2 = ds.remove(i as int);
            assert(node(s2, id.0 as int) == node(s1, id.0 as int));
            assert(node_keys(node(s2, id.0 as int)) == ks2);
            assert(datas(node(s2, id.0 as int)) == ds2);
            assert forall|j: int| 0 <= j < ds2.len() implies is_data_slot(s2, #[trigger] ds2[j].0 as int) && s2[ds2[j].0 as int] == s[ds2[j].0 as int] by {
                if j < i {
                    assert(ds2[j] == ds[j]);
                    assert(ds[j] != ds[i as int]);
                } else {
                    assert(ds2[j] == ds[j + 1]);
                    assert(ds[i as int] != ds[j + 1]);
                }
                assert(is_data_slot(s, ds2[j].0 as int));
            }
            assert forall|a: int, b: int| 0 <= a < b < ds2.len() implies #[trigger] ds2[a] != #[trigger] ds2[b] by {
                let oa = if a < i { a } else { a + 1 };
                let ob = if b < i { b } else { b + 1 };
                assert(ds2[a] == ds[oa]);
                assert(ds2[b] == ds[ob]);
            }
            assert(node_ok(s2, id.0 as int, 0, lo, hi));
            assert(wf_node(s2, id.0 as int, 0, lo, hi));
            assert forall|e: int| #[trigger] holds_data(s2, id.0 as int, 0, e) implies holds_data(s, id.0 as int, 0, e) && s2[e] == s[e] by {
                let j = choose|j: int| 0 <= j < datas(node(s2, id.0 as int)).len() && #[trigger] datas(node(s2, id.0 as int))[j].0 == e;
                let oj = if j < i { j } else { j + 1 };
                assert(ds2[j] == ds[oj]);
                assert(datas(node(s, id.0 as int))[oj].0 == e);
            }
            assert forall|k2: Seq<u8>| #[trigger] lookup(s2, id.0 as int, 0, k2) == if k2 == k { None } else { lookup(s, id.0 as int, 0, k2) } by {
                assert(lookup(s2, id.0 as int, 0, k2) == leaf_get(ks2, ds2, k2));
                assert(lookup(s, id.0 as int, 0, k2) == leaf_get(ks, ds, k2));
            }
            assert(holds_data(s, id.0 as int, 0, d.0 as int));
            assert forall|q: int| 0 <= q < s.len() && !(s[q] is Free) && !in_tree(s, id.0 as int, 0, q) && !holds_data(s, id.0 as int, 0, q) implies #[trigger] s2[q] == s[q] by {}
        }
        (Some(value), true)
    }
}


/// The keys of a node, as bytes, from the keys as strings.
pub open spec fn keys_of(v: Seq<String>) -> Seq<Seq<u8>> {
    v.map_values(|s: String| key_bytes(s))
}

/// `rm_frame` and `rm_done` carry over from the state before a rebalance
/// of branch `id` that changed only pages of its subtree and free pages.
pub proof fn lemma_frame_through(s: Seq<Slot>, s1: Seq<Slot>, s2: Seq<Slot>, id: int, h: nat, x: int, y: int)
    requires
        rm_frame(s, s1, id, h),
        in_tree(s, id, h, x),
        in_tree(s, id, h, y),
        in_tree(s, id, h, id),
        kept_set(s1, s2, set![x, y, id]),
    ensures
        rm_frame(s, s2, id, h),
{
    assert forall|q: int| 0 <= q < s.len() && !(s[q] is Free) && !in_tree(s, id, h, q) && !holds_data(s, id, h, q) implies #[trigger] s2[q] == s[q] by {
        assert(s1[q] == s[q]);
    }
}

/// What a trade of keys between `x` and `y` leaves in `sm`, against `s1`.
pub open spec fn traded(s1: Seq<Slot>, sm: Seq<Slot>, x: int, y: int, h: nat, lo: Option<Seq<u8>>, sep: Seq<u8>, hi: Option<Seq<u8>>, sep2: Seq<u8>) -> bool {
    &&& pair_ok(sm, x, y, h, lo, sep2, hi)
    &&& forall|k2: Seq<u8>| #[trigger] pair_lookup(sm, x, y, h, sep2, k2) == pair_lookup(s1, x, y, h, sep, k2)
    &&& forall|q: int| #[trigger] in_tree(sm, x, h, q) ==> in_tree(s1, x, h, q) || in_tree(s1, y, h, q)
    &&& forall|q: int| #[trigger] in_tree(sm, y, h, q) ==> in_tree(s1, x, h, q) || in_tree(s1, y, h, q)
    &&& forall|e: int| #[trigger] holds_data(sm, x, h, e) ==> holds_data(s1, x, h, e) || holds_data(s1, y, h, e)
    &&& forall|e: int| #[trigger] holds_data(sm, y, h, e) ==> holds_data(s1, x, h, e) || holds_data(s1, y, h, e)
}

/// A trade carries over a change to a page `z` outside the old pair.
pub proof fn lemma_traded_move(s1: Seq<Slot>, sm: Seq<Slot>, s2: Seq<Slot>, x: int, y: int, h: nat, lo: Option<Seq<u8>>, sep: Seq<u8>, hi: Option<Seq<u8>>, sep2: Seq<u8>, z: int)
    requires
        traded(s1, sm, x, y, h, lo, sep, hi, sep2),
        !in_tree(s1, x, h, z),
        !in_tree(s1, y, h, z),
        is_index_slot(sm, z),
        kept_set(sm, s2, set![z]),
    ensures
        traded(s1, s2, x, y, h, lo, sep, hi, sep2),
{
    lemma_pair_move(sm, s2, x, y, h, lo, sep2, hi, z);
    assert forall|k2: Seq<u8>| #[trigger] pair_lookup(s2, x, y, h, sep2, k2) == pair_lookup(s1, x, y, h, sep, k2) by {
        assert(pair_lookup(sm, x, y, h, sep2, k2) == pair_lookup(s1, x, y, h, sep, k2));
    }
}

/// What merging `y` into `x` leaves in `sm`, against `s1`.
pub open spec fn merged(s1: Seq<Slot>, sm: Seq<Slot>, x: int, y: int, h: nat, lo: Option<Seq<u8>>, sep: Seq<u8>, hi: Option<Seq<u8>>) -> bool {
    &&& wf_node(sm, x, h, lo, hi)
    &&& forall|k2: Seq<u8>| #[trigger] lookup(sm, x, h, k2) == pair_lookup(s1, x, y, h, sep, k2)
    &&& forall|q: int| #[trigger] in_tree(sm, x, h, q) ==> in_tree(s1, x, h, q) || in_tree(s1, y, h, q)
    &&& forall|e: int| #[trigger] holds_data(sm, x, h, e) ==> holds_data(s1, x, h, e) || holds_data(s1, y, h, e)
}

/// A merge carries over a change to a page `z` outside the old pair.
pub proof fn lemma_merged_move(s1: Seq<Slot>, sm: Seq<Slot>, s2: Seq<Slot>, x: int, y: int, h: nat, lo: Option<Seq<u8>>, sep: Seq<u8>, hi: Option<Seq<u8>>, z: int)
    requires
        merged(s1, sm, x, y, h, lo, sep, hi),
        !in_tree(s1, x, h, z),
        !in_tree(s1, y, h, z),
        is_index_slot(sm, z),
        kept_set(sm, s2, set![z]),
    ensures
        merged(s1, s2, x, y, h, lo, sep, hi),
{
    if holds_data(sm, x, h, z) {
        lemma_holds_data_bounds(sm, x, h, lo, hi, z);
    }
    lemma_frame_set(sm, s2, x, h, lo, hi, set![z]);
    assert forall|k2: Seq<u8>| #[trigger] lookup(s2, x, h, k2) == pair_lookup(s1, x, y, h, sep, k2) by {
        assert(lookup(sm, x, h, k2) == pair_lookup(s1, x, y, h, sep, k2));
    }
}

impl BpTree {
    /// Child `a + 1` of branch `id` takes the last key of its left sibling,
    /// child `a`: a leaf takes the key and its value page and the key becomes
    /// the separator; a branch takes the separator and the sibling's last
    /// child, and the sibling's last key becomes the separator.
    #[verifier::spinoff_prover]
    #[verifier::rlimit(100)]
    fn borrow_left(&self, pager: &mut Pager, id: PageId, a: usize,
        Ghost(s): Ghost<Seq<Slot>>, Ghost(h): Ghost<nat>, Ghost(lo): Ghost<Option<Seq<u8>>>, Ghost(hi): Ghost<Option<Seq<u8>>>, Ghost(k): Ghost<Seq<u8>>)
        requires
            old(pager).wf(),
            rebal_pre(s, old(pager).slots@, id.0 as int, h, lo, hi, k),
            a + 1 < kids(node(old(pager).slots@, id.0 as int)).len(),
            node_keys(node(old(pager).slots@, kids(node(old(pager).slots@, id.0 as int))[a as int].0 as int)).len() >= 2,
        ensures
            final(pager).wf(),
            final(pager).num_pages == old(pager).num_pages,
            frees_kept(old(pager).free_ids(), final(pager).free_ids()),
            rm_done(s, final(pager).slots@, id.0 as int, h, lo, hi, k),
            rm_frame(s, final(pager).slots@, id.0 as int, h),
            forall|o: int| keys_capped(old(pager).slots@, o)
                && node(old(pager).slots@, kids(node(old(pager).slots@, id.0 as int))[a + 1].0 as int).keys@.len() + 1 <= o - 1
                ==> #[trigger] keys_capped(final(pager).slots@, o),
            forall|o: int, xs: Set<int>| keys_floor(old(pager).slots@, o, xs.insert(kids(node(old(pager).slots@, id.0 as int))[a + 1].0 as int))
                && node(old(pager).slots@, kids(node(old(pager).slots@, id.0 as int))[a + 1].0 as int).keys@.len() + 1 >= o / 2 && node(old(pager).slots@, kids(node(old(pager).slots@, id.0 as int))[a as int].0 as int).keys@.len() - 1 >= o / 2
                ==> #[trigger] keys_floor(final(pager).slots@, o, xs),
            is_index_slot(final(pager).slots@, id.0 as int),
            node(final(pager).slots@, id.0 as int).keys@.len() == node(old(pager).slots@, id.0 as int).keys@.len(),
    {
        let ghost s1 = pager.slots@;
        let ghost ks = node_keys(node(s1, id.0 as int));
        let ghost cs = kids(node(s1, id.0 as int));
        let ghost hc = (h - 1) as nat;
        let ghost lx = clo(ks, a as int, lo);
        let ghost hy = chi(ks, a as int + 1, hi);
        let ghost sep = ks[a as int];
        let parent = pager.index_page(id).unwrap();
        let (x, y) = match &parent.node_type {
            NodeType::Branch { children } => {
                assert(children@ == cs);
                let n = children.len();
                assert(a + 1 < n);
                (children[a], children[a + 1])
            },
            NodeType::Leaf { .. } => {
                proof {
                    assert(false);
                }
                return;
            },
        };
        assert(parent.keys@.len() == parent.keys.len());
        let sep_old = parent.keys[a].clone();
        proof {
            lemma_pair_of_kids(s1, ks, cs, hc, lo, hi, id.0 as int, a as int);
            pager.lemma_not_on_free_list(x.0 as int);
            pager.lemma_not_on_free_list(y.0 as int);
            assert(in_tree(s1, cs[a as int].0 as int, hc, x.0 as int));
            assert(in_tree(s1, cs[a as int + 1].0 as int, hc, y.0 as int));
        }
        let xs = pager.take_slot(x);
        let ys = pager.take_slot(y);
        let (xp, yp) = match (xs, ys) {
            (Slot::Index(xp), Slot::Index(yp)) => (xp, yp),
            _ => {
                proof {
                    assert(false);
                }
                return;
            },
        };
        let ghost kx = xp.keys@;
        let ghost ky = yp.keys@;
        let IndexPage { header: xh, keys: mut xk, node_type: xt } = xp;
        let IndexPage { header: yh, keys: mut yk, node_type: yt } = yp;
        let ghost m = kx.len() - 1;
        let new_sep = match (xt, yt) {
            (NodeType::Leaf { pages: mut xd, next: xn }, NodeType::Leaf { pages: mut yd, next: yn }) => {
                let ghost dx = xd@;
                let ghost dy = yd@;
                let moved = xk.pop().unwrap();
                let d = xd.pop().unwrap();
                let copy = moved.clone();
                yk.insert(0, copy);
                yd.insert(0, d);
                pager.put_slot(x, Slot::Index(IndexPage { header: xh, keys: xk, node_type: NodeType::Leaf { pages: xd, next: xn } }));
                pager.put_slot(y, Slot::Index(IndexPage { header: yh, keys: yk, node_type: NodeType::Leaf { pages: yd, next: yn } }));
                proof {
                    let sm = pager.slots@;
                    let vk = leaf_keys2(s1, x.0 as int, y.0 as int);
                    let vd = leaf_datas2(s1, x.0 as int, y.0 as int);
                    assert(hc == 0);
                    assert(vk == keys_of(kx) + keys_of(ky));
                    assert(keys_of(xk@) =~= vk.subrange(0, m));
                    assert(keys_of(yk@) =~= vk.subrange(m, vk.len() as int));
                    assert(xd@ =~= vd.subrange(0, m));
                    assert(yd@ =~= vd.subrange(m, vd.len() as int));
                    assert(key_bytes(moved) == vk[m]);
                    lemma_leaf_pair_borrow(s1, sm, x.0 as int, y.0 as int, lx, sep, hy, m);
                    assert(traded(s1, sm, x.0 as int, y.0 as int, hc, lx, sep, hy, key_bytes(moved)));
                }
                moved
            },
            (NodeType::Branch { children: mut xc }, NodeType::Branch { children: mut yc }) => {
                let ghost cx = xc@;
                let ghost cy = yc@;
                let up = xk.pop().unwrap();
                let c = xc.pop().unwrap();
                yk.insert(0, sep_old);
                yc.insert(0, c);
                pager.put_slot(x, Slot::Index(IndexPage { header: xh, keys: xk, node_type: NodeType::Branch { children: xc } }));
                pager.put_slot(y, Slot::Index(IndexPage { header: yh, keys: yk, node_type: NodeType::Branch { children: yc } }));
                proof {
                    let sm = pager.slots@;
                    let vk = branch_keys2(s1, x.0 as int, y.0 as int, sep);
                    let vc = branch_kids2(s1, x.0 as int, y.0 as int);
                    assert(hc > 0);
                    assert(cx.len() == kx.len() + 1);
                    assert(keys_of(xk@) =~= vk.subrange(0, m));
                    assert(keys_of(yk@) =~= vk.subrange(m + 1, vk.len() as int));
                    assert(xc@ =~= vc.subrange(0, m + 1));
                    assert(yc@ =~= vc.subrange(m + 1, vc.len() as int));
                    assert(key_bytes(up) == vk[m]);
                    lemma_branch_pair_borrow(s1, sm, x.0 as int, y.0 as int, hc, lx, sep, hy, m);
                    assert(traded(s1, sm, x.0 as int, y.0 as int, hc, lx, sep, hy, key_bytes(up)));
                }
                up
            },
            _ => {
                proof {
                    assert(false);
                }
                return;
            },
        };
        let ghost sm = pager.slots@;
        let ghost sep2 = key_bytes(new_sep);
        proof {
            assert forall|o: int| keys_capped(s1, o) && ky.len() + 1 <= o - 1 implies #[trigger] keys_capped(sm, o) by {
                assert(is_index_slot(s1, x.0 as int));
                assert(is_index_slot(s1, y.0 as int));
                lemma_capped_pair(s1, sm, x.0 as int, y.0 as int, o);
            }
            assert forall|o: int, xs: Set<int>| keys_floor(s1, o, xs.insert(y.0 as int)) && ky.len() + 1 >= o / 2 && kx.len() - 1 >= o / 2
                implies #[trigger] keys_floor(sm, o, xs) by {
                lemma_floor_pair(s1, sm, x.0 as int, y.0 as int, o, xs.insert(y.0 as int), xs);
            }
        }
        proof {
            assert(traded(s1, sm, x.0 as int, y.0 as int, hc, lx, sep, hy, sep2));
            assert(node(sm, id.0 as int) == node(s1, id.0 as int));
        }
        Self::set_separator(pager, id, a, new_sep);
        proof {
            let s2 = pager.slots@;
            lemma_traded_move(s1, sm, s2, x.0 as int, y.0 as int, hc, lx, sep, hy, sep2, id.0 as int);
            assert(kept_set(s1, s2, set![x.0 as int, y.0 as int, id.0 as int]));
            lemma_parent_borrow(s, s1, s2, id.0 as int, h, lo, hi, k, ks, cs, a as int, sep2);
            lemma_frame_through(s, s1, s2, id.0 as int, h, x.0 as int, y.0 as int);
        }
    }
}


impl BpTree {
    /// Child `a` of branch `id` takes the first key of its right sibling,
    /// child `a + 1`: a leaf takes the key and its value page and the
    /// sibling's new first key becomes the separator; a branch takes the
    /// separator and the sibling's first child, and the sibling's first key
    /// becomes the separator.
    #[verifier::spinoff_prover]
    #[verifier::rlimit(100)]
    fn borrow_right(&self, pager: &mut Pager, id: PageId, a: usize,
        Ghost(s): Ghost<Seq<Slot>>, Ghost(h): Ghost<nat>, Ghost(lo): Ghost<Option<Seq<u8>>>, Ghost(hi): Ghost<Option<Seq<u8>>>, Ghost(k): Ghost<Seq<u8>>)
        requires
            old(pager).wf(),
            rebal_pre(s, old(pager).slots@, id.0 as int, h, lo, hi, k),
            a + 1 < kids(node(old(pager).slots@, id.0 as int)).len(),
            node_keys(node(old(pager).slots@, kids(node(old(pager).slots@, id.0 as int))[a + 1].0 as int)).len() >= 2,
        ensures
            final(pager).wf(),
            final(pager).num_pages == old(pager).num_pages,
            frees_kept(old(pager).free_ids(), final(pager).free_ids()),
            rm_done(s, final(pager).slots@, id.0 as int, h, lo, hi, k),
            rm_frame(s, final(pager).slots@, id.0 as int, h),
            forall|o: int| keys_capped(old(pager).slots@, o)
                && node(old(pager).slots@, kids(node(old(pager).slots@, id.0 as int))[a as int].0 as int).keys@.len() + 1 <= o - 1
                ==> #[trigger] keys_capped(final(pager).slots@, o),
            forall|o: int, xs: Set<int>| keys_floor(old(pager).slots@, o, xs.insert(kids(node(old(pager).slots@, id.0 as int))[a as int].0 as int))
                && node(old(pager).slots@, kids(node(old(pager).slots@, id.0 as int))[a as int].0 as int).keys@.len() + 1 >= o / 2 && node(old(pager).slots@, kids(node(old(pager).slots@, id.0 as int))[a + 1].0 as int).keys@.len() - 1 >= o / 2
                ==> #[trigger] keys_floor(final(pager).slots@, o, xs),
            is_index_slot(final(pager).slots@, id.0 as int),
            node(final(pager).slots@, id.0 as int).keys@.len() == node(old(pager).slots@, id.0 as int).keys@.len(),
    {
        let ghost s1 = pager.slots@;
        let ghost ks = node_keys(node(s1, id.0 as int));
        let ghost cs = kids(node(s1, id.0 as int));
        let ghost hc = (h - 1) as nat;
        let ghost lx = clo(ks, a as int, lo);
        let ghost hy = chi(ks, a as int + 1, hi);
        let ghost sep = ks[a as int];
        let parent = pager.index_page(id).unwrap();
        let (x, y) = match &parent.node_type {
            NodeType::Branch { children } => {
                assert(children@ == cs);
                let n = children.len();
                assert(a + 1 < n);
                (children[a], children[a + 1])
            },
            NodeType::Leaf { .. } => {
                proof {
                    assert(false);
                }
                return;
            },
        };
        assert(parent.keys@.len() == parent.keys.len());
        let sep_old = parent.keys[a].clone();
        proof {
            lemma_pair_of_kids(s1, ks, cs, hc, lo, hi, id.0 as int, a as int);
            pager.lemma_not_on_free_list(x.0 as int);
            pager.lemma_not_on_free_list(y.0 as int);
            assert(in_tree(s1, cs[a as int].0 as int, hc, x.0 as int));
            assert(in_tree(s1, cs[a as int + 1].0 as int, hc, y.0 as int));
        }
        let xs = pager.take_slot(x);
        let ys = pager.take_slot(y);
        let (xp, yp) = match (xs, ys) {
            (Slot::Index(xp), Slot::Index(yp)) => (xp, yp),
            _ => {
                proof {
                    assert(false);
                }
                return;
            },
        };
        let ghost kx = xp.keys@;
        let ghost ky = yp.keys@;
        let IndexPage { header: xh, keys: mut xk, node_type: xt } = xp;
        let IndexPage { header: yh, keys: mut yk, node_type: yt } = yp;
        let ghost m: int = kx.len() as int + 1;
        assert(yk@.len() == yk.len());
        let new_sep = match (xt, yt) {
            (NodeType::Leaf { pages: mut xd, next: xn }, NodeType::Leaf { pages: mut yd, next: yn }) => {
                let ghost dx = xd@;
                let ghost dy = yd@;
                let moved = yk.remove(0);
                let d = yd.remove(0);
                xk.push(moved);
                xd.push(d);
                let first = yk[0].clone();
                pager.put_slot(x, Slot::Index(IndexPage { header: xh, keys: xk, node_type: NodeType::Leaf { pages: xd, next: xn } }));
                pager.put_slot(y, Slot::Index(IndexPage { header: yh, keys: yk, node_type: NodeType::Leaf { pages: yd, next: yn } }));
                proof {
                    let sm = pager.slots@;
                    let vk = leaf_keys2(s1, x.0 as int, y.0 as int);
                    let vd = leaf_datas2(s1, x.0 as int, y.0 as int);
                    assert(hc == 0);
                    assert(vk == keys_of(kx) + keys_of(ky));
                    assert(keys_of(xk@) =~= vk.subrange(0, m));
                    assert(keys_of(yk@) =~= vk.subrange(m, vk.len() as int));
                    assert(xd@ =~= vd.subrange(0, m));
                    assert(yd@ =~= vd.subrange(m, vd.len() as int));
                    assert(key_bytes(first) == vk[m]);
                    lemma_leaf_pair_borrow(s1, sm, x.0 as int, y.0 as int, lx, sep, hy, m);
                    assert(traded(s1, sm, x.0 as int, y.0 as int, hc, lx, sep, hy, key_bytes(first)));
                }
                first
            },
            (NodeType::Branch { children: mut xc }, NodeType::Branch { children: mut yc }) => {
                let ghost cx = xc@;
                let ghost cy = yc@;
                let up = yk.remove(0);
                let c = yc.remove(0);
                xk.push(sep_old);
                xc.push(c);
                pager.put_slot(x, Slot::Index(IndexPage { header: xh, keys: xk, node_type: NodeType::Branch { children: xc } }));
                pager.put_slot(y, Slot::Index(IndexPage { header: yh, keys: yk, node_type: NodeType::Branch { children: yc } }));
                proof {
                    let sm = pager.slots@;
                    let vk = branch_keys2(s1, x.0 as int, y.0 as int, sep);
                    let vc = branch_kids2(s1, x.0 as int, y.0 as int);
                    assert(hc > 0);
                    assert(cx.len() == kx.len() + 1);
                    assert(keys_of(xk@) =~= vk.subrange(0, m));
                    assert(keys_of(yk@) =~= vk.subrange(m + 1, vk.len() as int));
                    assert(xc@ =~= vc.subrange(0, m + 1));
                    assert(yc@ =~= vc.subrange(m + 1, vc.len() as int));
                    assert(key_bytes(up) == vk[m]);
                    lemma_branch_pair_borrow(s1, sm, x.0 as int, y.0 as int, hc, lx, sep, hy, m);
                    assert(traded(s1, sm, x.0 as int, y.0 as int, hc, lx, sep, hy, key_bytes(up)));
                }
                up
            },
            _ => {
                proof {
                    assert(false);
                }
                return;
            },
        };
        let ghost sm = pager.slots@;
        let ghost sep2 = key_bytes(new_sep);
        proof {
            assert forall|o: int| keys_capped(s1, o) && kx.len() + 1 <= o - 1 implies #[trigger] keys_capped(sm, o) by {
                assert(is_index_slot(s1, x.0 as int));
                assert(is_index_slot(s1, y.0 as int));
                lemma_capped_pair(s1, sm, x.0 as int, y.0 as int, o);
            }
            assert forall|o: int, xs: Set<int>| keys_floor(s1, o, xs.insert(x.0 as int)) && kx.len() + 1 >= o / 2 && ky.len() - 1 >= o / 2
                implies #[trigger] keys_floor(sm, o, xs) by {
                lemma_floor_pair(s1, sm, x.0 as int, y.0 as int, o, xs.insert(x.0 as int), xs);
            }
        }
        proof {
            assert(traded(s1, sm, x.0 as int, y.0 as int, hc, lx, sep, hy, sep2));
            assert(node(sm, id.0 as int) == node(s1, id.0 as int));
        }
        Self::set_separator(pager, id, a, new_sep);
        proof {
            let s2 = pager.slots@;
            lemma_traded_move(s1, sm, s2, x.0 as int, y.0 as int, hc, lx, sep, hy, sep2, id.0 as int);
            assert(kept_set(s1, s2, set![x.0 as int, y.0 as int, id.0 as int]));
            lemma_parent_borrow(s, s1, s2, id.0 as int, h, lo, hi, k, ks, cs, a as int, sep2);
            lemma_frame_through(s, s1, s2, id.0 as int, h, x.0 as int, y.0 as int);
        }
    }

    /// Child `a + 1` of branch `id` merges into child `a`, which takes its
    /// keys (a branch takes the separator between them too) and its value
    /// pages or children; the branch drops the separator and child `a + 1`,
    /// whose page is freed.
    #[verifier::spinoff_prover]
    #[verifier::rlimit(100)]
    fn merge_pair(&self, pager: &mut Pager, id: PageId, a: usize,
        Ghost(s): Ghost<Seq<Slot>>, Ghost(h): Ghost<nat>, Ghost(lo): Ghost<Option<Seq<u8>>>, Ghost(hi): Ghost<Option<Seq<u8>>>, Ghost(k): Ghost<Seq<u8>>)
        requires
            old(pager).wf(),
            rebal_pre(s, old(pager).slots@, id.0 as int, h, lo, hi, k),
            a + 1 < kids(node(old(pager).slots@, id.0 as int)).len(),
        ensures
            final(pager).wf(),
            final(pager).num_pages == old(pager).num_pages,
            frees_kept(old(pager).free_ids(), final(pager).free_ids()),
            rm_done(s, final(pager).slots@, id.0 as int, h, lo, hi, k),
            rm_frame(s, final(pager).slots@, id.0 as int, h),
            forall|o: int| keys_capped(old(pager).slots@, o)
                && node(old(pager).slots@, kids(node(old(pager).slots@, id.0 as int))[a as int].0 as int).keys@.len()
                    + node(old(pager).slots@, kids(node(old(pager).slots@, id.0 as int))[a + 1].0 as int).keys@.len()
                    + (if h > 1 { 1int } else { 0int }) <= o - 1
                ==> #[trigger] keys_capped(final(pager).slots@, o),
            forall|o: int, xs: Set<int>| keys_floor(old(pager).slots@, o,
                    xs.insert(kids(node(old(pager).slots@, id.0 as int))[a as int].0 as int).insert(kids(node(old(pager).slots@, id.0 as int))[a + 1].0 as int))
                && node(old(pager).slots@, kids(node(old(pager).slots@, id.0 as int))[a as int].0 as int).keys@.len() + node(old(pager).slots@, kids(node(old(pager).slots@, id.0 as int))[a + 1].0 as int).keys@.len() + (if h > 1 { 1int } else { 0int }) >= o / 2
                ==> #[trigger] keys_floor(final(pager).slots@, o, xs.insert(id.0 as int)),
            is_index_slot(final(pager).slots@, id.0 as int),
            node(final(pager).slots@, id.0 as int).keys@.len() + 1 == node(old(pager).slots@, id.0 as int).keys@.len(),
    {
        let ghost s1 = pager.slots@;
        let ghost ks = node_keys(node(s1, id.0 as int));
        let ghost cs = kids(node(s1, id.0 as int));
        let ghost hc = (h - 1) as nat;
        let ghost lx = clo(ks, a as int, lo);
        let ghost hy = chi(ks, a as int + 1, hi);
        let ghost sep = ks[a as int];
        let parent = pager.index_page(id).unwrap();
        let (x, y) = match &parent.node_type {
            NodeType::Branch { children } => {
                assert(children@ == cs);
                let n = children.len();
                assert(a + 1 < n);
                (children[a], children[a + 1])
            },
            NodeType::Leaf { .. } => {
                proof {
                    assert(false);
                }
                return;
            },
        };
        assert(parent.keys@.len() == parent.keys.len());
        let sep_old = parent.keys[a].clone();
        proof {
            lemma_pair_of_kids(s1, ks, cs, hc, lo, hi, id.0 as int, a as int);
            pager.lemma_not_on_free_list(x.0 as int);
            pager.lemma_not_on_free_list(y.0 as int);
            assert(in_tree(s1, cs[a as int].0 as int, hc, x.0 as int));
            assert(in_tree(s1, cs[a as int + 1].0 as int, hc, y.0 as int));
        }
        let ys = pager.take_slot(y);
        let ghost sy = pager.slots@;
        let yp = match ys {
            Slot::Index(yp) => yp,
            _ => {
                proof {
                    assert(false);
                }
                return;
            },
        };
        pager.free(y);
        let ghost sf = pager.slots@;
        let xs = pager.take_slot(x);
        let ghost sx = pager.slots@;
        let xp = match xs {
            Slot::Index(xp) => xp,
            _ => {
                proof {
                    assert(false);
                }
                return;
            },
        };
        let ghost kx = xp.keys@;
        let ghost ky = yp.keys@;
        let IndexPage { header: xh, keys: mut xk, node_type: xt } = xp;
        let IndexPage { header: _yh, keys: mut yk, node_type: yt } = yp;
        match (xt, yt) {
            (NodeType::Leaf { pages: mut xd, next: _xn }, NodeType::Leaf { pages: mut yd, next: yn }) => {
                xd.append(&mut yd);
                xk.append(&mut yk);
                pager.put_slot(x, Slot::Index(IndexPage { header: xh, keys: xk, node_type: NodeType::Leaf { pages: xd, next: yn } }));
                proof {
                    let sm = pager.slots@;
                    assert(hc == 0);
                    assert(keys_of(xk@) =~= leaf_keys2(s1, x.0 as int, y.0 as int));
                    assert(xd@ =~= leaf_datas2(s1, x.0 as int, y.0 as int));
                    lemma_leaf_pair_merge(s1, sm, x.0 as int, y.0 as int, lx, sep, hy);
                    assert(merged(s1, sm, x.0 as int, y.0 as int, hc, lx, sep, hy));
                }
            },
            (NodeType::Branch { children: mut xc }, NodeType::Branch { children: mut yc }) => {
                xk.push(sep_old);
                xk.append(&mut yk);
                xc.append(&mut yc);
                pager.put_slot(x, Slot::Index(IndexPage { header: xh, keys: xk, node_type: NodeType::Branch { children: xc } }));
                proof {
                    let sm = pager.slots@;
                    assert(hc > 0);
                    assert(keys_of(xk@) =~= branch_keys2(s1, x.0 as int, y.0 as int, sep));
                    assert(xc@ =~= branch_kids2(s1, x.0 as int, y.0 as int));
                    lemma_branch_pair_merge(s1, sm, x.0 as int, y.0 as int, hc, lx, sep, hy);
                    assert(merged(s1, sm, x.0 as int, y.0 as int, hc, lx, sep, hy));
                }
            },
            _ => {
                proof {
                    assert(false);
                }
                return;
            },
        }
        let ghost sm = pager.slots@;
        proof {
            assert forall|o: int| keys_capped(s1, o) && kx.len() + ky.len() + (if h > 1 { 1int } else { 0int }) <= o - 1
                implies #[trigger] keys_capped(sm, o) by {
                lemma_capped_kept(s1, sy, o);
                lemma_capped_kept(sy, sf, o);
                lemma_capped_kept(sf, sx, o);
                lemma_capped_pair(sx, sm, x.0 as int, x.0 as int, o);
            }
            assert forall|o: int, xs: Set<int>| keys_floor(s1, o, xs.insert(x.0 as int).insert(y.0 as int))
                && kx.len() + ky.len() + (if h > 1 { 1int } else { 0int }) >= o / 2
                implies #[trigger] keys_floor(sm, o, xs) by {
                let xy = xs.insert(x.0 as int).insert(y.0 as int);
                lemma_floor_kept(s1, sy, o, xy);
                lemma_floor_kept(sy, sf, o, xy);
                lemma_floor_kept(sf, sx, o, xy);
                lemma_floor_pair(sx, sm, x.0 as int, y.0 as int, o, xy, xs);
            }
        }
        proof {
            assert(merged(s1, sm, x.0 as int, y.0 as int, hc, lx, sep, hy));
            assert(node(sm, id.0 as int) == node(s1, id.0 as int));
            assert(kept_set(s1, sm, set![x.0 as int, y.0 as int]));
        }
        Self::drop_separator(pager, id, a);
        proof {
            let s2 = pager.slots@;
            lemma_merged_move(s1, sm, s2, x.0 as int, y.0 as int, hc, lx, sep, hy, id.0 as int);
            assert(kept_set(s1, s2, set![x.0 as int, y.0 as int, id.0 as int]));
            lemma_parent_merge(s, s1, s2, id.0 as int, h, lo, hi, k, ks, cs, a as int);
            lemma_frame_through(s, s1, s2, id.0 as int, h, x.0 as int, y.0 as int);
        }
    }
}


impl BpTree {
    /// Rebalances child `j` of branch `id`, which fell under half the order:
    /// borrows from the left sibling if it has keys to spare, else from the
    /// right one, else merges with the right sibling, else with the left one.
    #[verifier::spinoff_prover]
    fn rebalance(&self, pager: &mut Pager, id: PageId, j: usize,
        Ghost(s): Ghost<Seq<Slot>>, Ghost(h): Ghost<nat>, Ghost(lo): Ghost<Option<Seq<u8>>>, Ghost(hi): Ghost<Option<Seq<u8>>>, Ghost(k): Ghost<Seq<u8>>)
        requires
            old(pager).wf(),
            self.order >= 2,
            rebal_pre(s, old(pager).slots@, id.0 as int, h, lo, hi, k),
            j < kids(node(old(pager).slots@, id.0 as int)).len(),
        ensures
            final(pager).wf(),
            final(pager).num_pages == old(pager).num_pages,
            frees_kept(old(pager).free_ids(), final(pager).free_ids()),
            rm_done(s, final(pager).slots@, id.0 as int, h, lo, hi, k),
            rm_frame(s, final(pager).slots@, id.0 as int, h),
            keys_capped(old(pager).slots@, self.order as int) && (self.order % 2 == 1 || h == 1)
                && node(old(pager).slots@, kids(node(old(pager).slots@, id.0 as int))[j as int].0 as int).keys@.len() < self.order / 2
                ==> keys_capped(final(pager).slots@, self.order as int),
            kids(node(old(pager).slots@, id.0 as int)).len() < 2 ==> *final(pager) == *old(pager),
            forall|xs: Set<int>| keys_floor(old(pager).slots@, self.order as int, xs.insert(kids(node(old(pager).slots@, id.0 as int))[j as int].0 as int))
                && node(old(pager).slots@, kids(node(old(pager).slots@, id.0 as int))[j as int].0 as int).keys@.len() + 1 >= self.order / 2
                && (j > 0 ==> !xs.contains(kids(node(old(pager).slots@, id.0 as int))[j - 1].0 as int))
                && (j + 1 < kids(node(old(pager).slots@, id.0 as int)).len() ==> !xs.contains(kids(node(old(pager).slots@, id.0 as int))[j + 1].0 as int))
                && kids(node(old(pager).slots@, id.0 as int)).len() >= 2
                ==> #[trigger] keys_floor(final(pager).slots@, self.order as int, xs.insert(id.0 as int)),
            is_index_slot(final(pager).slots@, id.0 as int),
            node(final(pager).slots@, id.0 as int).keys@.len() + 1 >= node(old(pager).slots@, id.0 as int).keys@.len(),
    {
        let ghost s1 = pager.slots@;
        let ghost ks = node_keys(node(s1, id.0 as int));
        let ghost cs = kids(node(s1, id.0 as int));
        let ghost hc = (h - 1) as nat;
        let min_keys = self.order / 2;
        let parent = pager.index_page(id).unwrap();
        let (left, right) = match &parent.node_type {
            NodeType::Branch { children } => {
                assert(children@ == cs);
                let n = children.len();
                let left = if j > 0 { Some(children[j - 1]) } else { None };
                let right = if j + 1 < n { Some(children[j + 1]) } else { None };
                (left, right)
            },
            NodeType::Leaf { .. } => {
                proof {
                    assert(false);
                }
                return;
            },
        };
        proof {
            if j > 0 {
                assert(wf_node(s1, cs[j - 1].0 as int, hc, clo(ks, j - 1, lo), chi(ks, j - 1, hi)));
            }
            if j + 1 < cs.len() {
                assert(wf_node(s1, cs[j + 1].0 as int, hc, clo(ks, j + 1, lo), chi(ks, j + 1, hi)));
            }
        }
        let left_surplus = match left {
            Some(c) => pager.index_page(c).unwrap().keys.len() > min_keys,
            None => false,
        };
        let right_surplus = match right {
            Some(c) => pager.index_page(c).unwrap().keys.len() > min_keys,
            None => false,
        };
        proof {
            if j > 0 {
                lemma_pair_of_kids(s1, ks, cs, hc, lo, hi, id.0 as int, j - 1);
            }
            if j + 1 < cs.len() {
                lemma_pair_of_kids(s1, ks, cs, hc, lo, hi, id.0 as int, j as int);
            }
        }
        proof {
            if j > 0 && !left_surplus {
                assert(node(s1, cs[j - 1].0 as int).keys@.len() <= self.order / 2);
            }
            if j + 1 < cs.len() && !right_surplus {
                assert(node(s1, cs[j + 1].0 as int).keys@.len() <= self.order / 2);
            }
        }
        if left_surplus {
            proof {
                assert(node_keys(node(s1, cs[j - 1].0 as int)).len() == node(s1, cs[j - 1].0 as int).keys.len());
            }
            self.borrow_left(pager, id, j - 1, Ghost(s), Ghost(h), Ghost(lo), Ghost(hi), Ghost(k));
        } else if right_surplus {
            proof {
                assert(node_keys(node(s1, cs[j + 1].0 as int)).len() == node(s1, cs[j + 1].0 as int).keys.len());
            }
            self.borrow_right(pager, id, j, Ghost(s), Ghost(h), Ghost(lo), Ghost(hi), Ghost(k));
        } else if right.is_some() {
            self.merge_pair(pager, id, j, Ghost(s), Ghost(h), Ghost(lo), Ghost(hi), Ghost(k));
        } else if left.is_some() {
            self.merge_pair(pager, id, j - 1, Ghost(s), Ghost(h), Ghost(lo), Ghost(hi), Ghost(k));
        } else {
            proof {
                lemma_rm_from_pre(s, s1, id.0 as int, h, lo, hi, k);
            }
        }
    }

    /// Removes `key` from the subtree of height `h` at `id`. Returns the
    /// value it had, and whether the walk back up goes on to the parent: the
    /// key was found in a leaf, and every node from the leaf up to `id` fell
    /// under half the order and was rebalanced by its parent.
    #[verifier::spinoff_prover]
    #[verifier::rlimit(40)]
    fn remove_rec(&self, pager: &mut Pager, id: PageId, key: &str,
        Ghost(h): Ghost<nat>, Ghost(lo): Ghost<Option<Seq<u8>>>, Ghost(hi): Ghost<Option<Seq<u8>>>) -> (r: (Option<Value>, bool))
        requires
            old(pager).wf(),
            self.order >= 2,
            wf_node(old(pager).slots@, id.0 as int, h, lo, hi),
        ensures
            final(pager).wf(),
            final(pager).num_pages == old(pager).num_pages,
            frees_kept(old(pager).free_ids(), final(pager).free_ids()),
            rm_frame(old(pager).slots@, final(pager).slots@, id.0 as int, h),
            rm_done(old(pager).slots@, final(pager).slots@, id.0 as int, h, lo, hi, key.spec_bytes()),
            match lookup(old(pager).slots@, id.0 as int, h, key.spec_bytes()) {
                Some(d) => r.0 matches Some(v) && v@ == data_value(old(pager).slots@, d),
                None => r.0 is None,
            },
            r.1 ==> r.0 is Some,
            r.0 is None ==> *final(pager) == *old(pager),
            lookup(old(pager).slots@, id.0 as int, h, key.spec_bytes()) matches Some(d) ==> on_free_list(final(pager).free_ids(), d),
            keys_capped(old(pager).slots@, self.order as int) && (self.order % 2 == 1 || h <= 1)
                ==> keys_capped(final(pager).slots@, self.order as int),
            is_index_slot(final(pager).slots@, id.0 as int),
            !r.1 ==> node(final(pager).slots@, id.0 as int).keys@.len() == node(old(pager).slots@, id.0 as int).keys@.len(),
            node(final(pager).slots@, id.0 as int).keys@.len() + 1 >= node(old(pager).slots@, id.0 as int).keys@.len(),
            lone(old(pager).slots@, id.0 as int) ==> node(final(pager).slots@, id.0 as int) == node(old(pager).slots@, id.0 as int),
            forall|xs: Set<int>| keys_floor(old(pager).slots@, self.order as int, xs) && below_exempt_free(old(pager).slots@, id.0 as int, h, xs)
                && (!lone(old(pager).slots@, id.0 as int) || !r.1)
                ==> #[trigger] keys_floor(final(pager).slots@, self.order as int, xs.insert(id.0 as int)),
            forall|xs: Set<int>| keys_floor(old(pager).slots@, self.order as int, xs) && below_exempt_free(old(pager).slots@, id.0 as int, h, xs)
                && lone(old(pager).slots@, id.0 as int)
                ==> #[trigger] keys_floor(final(pager).slots@, self.order as int,
                    xs.insert(id.0 as int).insert(kids(node(old(pager).slots@, id.0 as int))[0].0 as int)),
        decreases h,
    {
        let ghost s = pager.slots@;
        let ghost k = key.spec_bytes();
        let kb = key.as_bytes();
        let page = pager.index_page(id).unwrap();
        let (j, child) = match &page.node_type {
            NodeType::Leaf { .. } => {
                return self.remove_leaf(pager, id, key, Ghost(lo), Ghost(hi));
            },
            NodeType::Branch { children } => {
                proof {
                    lemma_wf_branch(s, id.0 as int, h, lo, hi);
                }
                assert(node_keys(*page).len() == page.keys@.len());
                assert(page.keys@.len() == page.keys.len());
                let i = match search_keys(&page.keys, kb) {
                    Ok(i) => i + 1,
                    Err(i) => i,
                };
                proof {
                    lemma_route_bounds(node_keys(*page), k);
                }
                (i, children[i])
            },
        };
        let ghost p = node(s, id.0 as int);
        let ghost ks = node_keys(p);
        let ghost cs = kids(p);
        let ghost hc = (h - 1) as nat;
        proof {
            lemma_kids_of_branch(s, id.0 as int, h, lo, hi);
            lemma_route_bounds(ks, k);
        }
        let ghost c = cs[j as int].0 as int;
        proof {
            assert(wf_node(s, c, hc, clo(ks, j as int, lo), chi(ks, j as int, hi)));
            assert(!in_tree(s, c, hc, id.0 as int));
            assert forall|xs: Set<int>| keys_floor(s, self.order as int, xs) && below_exempt_free(s, id.0 as int, h, xs)
                implies below_exempt_free(s, c, hc, xs) && !lone(s, c) && !xs.contains(c) by {
                assert forall|q: int| in_tree(s, c, hc, q) && q != c implies !xs.contains(q) by {
                    lemma_in_tree_branch(s, id.0 as int, h, q);
                    assert(in_tree(s, id.0 as int, h, q));
                }
                assert(in_tree(s, cs[j as int].0 as int, hc, c));
                lemma_in_tree_branch(s, id.0 as int, h, c);
                assert(in_tree(s, id.0 as int, h, c));
                lemma_in_tree_bounds(s, c, hc, clo(ks, j as int, lo), chi(ks, j as int, hi), c);
                if hc > 0 {
                    lemma_wf_branch(s, c, hc, clo(ks, j as int, lo), chi(ks, j as int, hi));
                }
            }
        }
        let (found, reached) = self.remove_rec(pager, child, key, Ghost(hc), Ghost(clo(ks, j as int, lo)), Ghost(chi(ks, j as int, hi)));
        let ghost s1 = pager.slots@;
        let ghost f1 = pager.free_ids();
        proof {
            lemma_rm_branch_same(s, s1, id.0 as int, h, lo, hi, k);
            assert(in_tree(s, id.0 as int, h, id.0 as int));
            assert(lookup(s, id.0 as int, h, k) == lookup(s, cs[j as int].0 as int, hc, k));
            assert(s1[id.0 as int] == s[id.0 as int]);
        }
        if !reached {
            proof {
                assert forall|xs: Set<int>| keys_floor(s, self.order as int, xs) && below_exempt_free(s, id.0 as int, h, xs)
                    implies #[trigger] keys_floor(s1, self.order as int, xs.insert(id.0 as int)) by {
                    assert(keys_floor(s1, self.order as int, xs.insert(c)));
                }
                assert forall|xs: Set<int>| keys_floor(s, self.order as int, xs) && below_exempt_free(s, id.0 as int, h, xs)
                    && lone(s, id.0 as int)
                    implies #[trigger] keys_floor(s1, self.order as int, xs.insert(id.0 as int).insert(cs[0].0 as int)) by {
                    assert(keys_floor(s1, self.order as int, xs.insert(c)));
                }
            }
            return (found, false);
        }
        proof {
            assert(wf_node(s1, cs[j as int].0 as int, hc, clo(ks, j as int, lo), chi(ks, j as int, hi)));
        }
        let child_keys = pager.index_page(child).unwrap().keys.len();
        if child_keys >= self.order / 2 {
            proof {
                assert forall|xs: Set<int>| keys_floor(s, self.order as int, xs) && below_exempt_free(s, id.0 as int, h, xs)
                    implies #[trigger] keys_floor(s1, self.order as int, xs.insert(id.0 as int)) by {
                    assert(keys_floor(s1, self.order as int, xs.insert(c)));
                }
                assert forall|xs: Set<int>| keys_floor(s, self.order as int, xs) && below_exempt_free(s, id.0 as int, h, xs)
                    && lone(s, id.0 as int)
                    implies #[trigger] keys_floor(s1, self.order as int, xs.insert(id.0 as int).insert(cs[0].0 as int)) by {
                    assert(keys_floor(s1, self.order as int, xs.insert(c)));
                }
            }
            return (found, false);
        }
        self.rebalance(pager, id, j, Ghost(s), Ghost(h), Ghost(lo), Ghost(hi), Ghost(k));
        proof {
            let o = self.order as int;
            assert forall|xs: Set<int>| keys_floor(s, o, xs) && below_exempt_free(s, id.0 as int, h, xs)
                implies (#[trigger] keys_floor(pager.slots@, o, xs.insert(id.0 as int)) || lone(s, id.0 as int))
                    && (lone(s, id.0 as int) ==> keys_floor(pager.slots@, o, xs.insert(id.0 as int).insert(cs[0].0 as int))) by {
                assert(keys_floor(s1, o, xs.insert(c)));
                assert(node(s, c).keys@.len() >= o / 2);
                if j > 0 {
                    assert(in_tree(s, cs[j - 1].0 as int, hc, cs[j - 1].0 as int));
                    lemma_in_tree_branch(s, id.0 as int, h, cs[j - 1].0 as int);
                    assert(!in_tree(s, cs[j - 1].0 as int, hc, id.0 as int));
                }
                if j + 1 < cs.len() {
                    assert(in_tree(s, cs[j + 1].0 as int, hc, cs[j + 1].0 as int));
                    lemma_in_tree_branch(s, id.0 as int, h, cs[j + 1].0 as int);
                    assert(!in_tree(s, cs[j + 1].0 as int, hc, id.0 as int));
                }
            }
        }
        proof {
            if let Some(d) = lookup(s, id.0 as int, h, k) {
                lemma_still_free(f1, pager.free_ids(), d);
            }
        }
        (found, true)
    }

    /// Removes `key` and returns its value: `NoRoot` for an empty tree,
    /// `NoRID`, naming the key, when the key is absent. Frees the key's
    /// value page, and rebalances the nodes on the way up that fell under
    /// half the order; a root branch left with one child and no key gives
    /// way to that child.
    /// A root leaf that loses its last key is freed and the tree is left
    /// without a root. A failed removal leaves the tree and the pages as
    /// they were.
    #[verifier::spinoff_prover]
    #[verifier::rlimit(40)]
    pub fn remove(&mut self, key: &str, pager: &mut Pager) -> (r: Result<Value, UserErr>)
        requires
            old(self).wf(old(pager)),
        ensures
            final(self).wf(final(pager)),
            final(self).order == old(self).order,
            final(pager).num_pages == old(pager).num_pages,
            frees_kept(old(pager).free_ids(), final(pager).free_ids()),
            old(self).root is None ==> (r matches Err(UserErr::NoRoot)) && final(self).root is None,
            old(self).root is Some ==> match old(self).value_of(old(pager), key.spec_bytes()) {
                Some(v) => r matches Ok(x) && x@ == v,
                None => r matches Err(UserErr::NoRID(x)) && x@ == key@,
            },
            final(self).value_of(final(pager), key.spec_bytes()) is None,
            forall|k2: Seq<u8>| k2 != key.spec_bytes() ==> #[trigger] final(self).value_of(final(pager), k2) == old(self).value_of(old(pager), k2),
            r is Err ==> *final(self) == *old(self) && *final(pager) == *old(pager),
            old(self).page_of(old(pager), key.spec_bytes()) matches Some(d) ==> on_free_list(final(pager).free_ids(), d),
            keys_capped(old(pager).slots@, old(self).order as int) && (old(self).order % 2 == 1 || old(self).height@ <= 1)
                ==> keys_capped(final(pager).slots@, final(self).order as int),
            keys_floor(old(pager).slots@, old(self).order as int, root_exempt(old(self).root))
                ==> keys_floor(final(pager).slots@, final(self).order as int, root_exempt(final(self).root)),
            keys_floor(old(pager).slots@, old(self).order as int, root_exempt(old(self).root)) && root_branches(old(pager).slots@, old(self).root)
                ==> root_branches(final(pager).slots@, final(self).root),
            old(self).balanced(old(pager)) && (old(self).order % 2 == 1 || old(self).height@ <= 1) ==> final(self).balanced(final(pager)),
            final(self).root is None ==> forall|k2: Seq<u8>| #[trigger] final(self).value_of(final(pager), k2) is None,
            r is Ok && old(self).height@ == 0
                && (forall|k2: Seq<u8>| k2 != key.spec_bytes() ==> #[trigger] old(self).value_of(old(pager), k2) is None)
                ==> final(self).root is None,
    {
        let ghost s = pager.slots@;
        let ghost k = key.spec_bytes();
        let ghost h = self.height@;
        let root = match self.root {
            Some(r) => r,
            None => return Err(UserErr::NoRoot),
        };
        let (found, reached) = self.remove_rec(pager, root, key, Ghost(h), Ghost(None), Ghost(None));
        let ghost s2 = pager.slots@;
        let ghost o = self.order as int;
        let ghost rs = set![root.0 as int];
        proof {
            if keys_floor(s, o, rs) {
                assert(below_exempt_free(s, root.0 as int, h, rs));
                if !lone(s, root.0 as int) || !reached {
                    assert(keys_floor(s2, o, rs.insert(root.0 as int)));
                    assert(rs.insert(root.0 as int) =~= rs);
                } else {
                    assert(keys_floor(s2, o, rs.insert(root.0 as int).insert(kids(node(s, root.0 as int))[0].0 as int)));
                }
            }
        }
        if reached {
            let page = pager.index_page(root).unwrap();
            if page.keys.len() == 0 {
                match &page.node_type {
                    NodeType::Branch { children } => {
                        if children.len() == 1 {
                            let only = children[0];
                            proof {
                                assert(h > 0);
                                lemma_wf_branch(s2, root.0 as int, h, None, None);
                                assert(kids(node(s2, root.0 as int))[0] == only);
                                assert(wf_node(s2, only.0 as int, (h - 1) as nat, None, None));
                                assert forall|k2: Seq<u8>| #[trigger] lookup(s2, only.0 as int, (h - 1) as nat, k2) == lookup(s2, root.0 as int, h, k2) by {
                                    assert(route(node_keys(node(s2, root.0 as int)), k2) == 0);
                                }
                            }
                            let ghost f2 = pager.free_ids();
                            let ghost sb = pager.slots@;
                            pager.free(root);
                            proof {
                                let s3 = pager.slots@;
                                let hc = (h - 1) as nat;
                                assert(!in_tree(s2, only.0 as int, hc, root.0 as int));
                                assert forall|q: int| #[trigger] in_tree(s2, only.0 as int, hc, q)
                                    implies 0 <= q < s2.len() && q < s3.len() && s3[q] == s2[q] by {
                                    lemma_in_tree_bounds(s2, only.0 as int, hc, None, None, q);
                                }
                                assert forall|e: int| #[trigger] holds_data(s2, only.0 as int, hc, e)
                                    implies 0 <= e < s2.len() && e < s3.len() && s3[e] == s2[e] by {
                                    lemma_holds_data_bounds(s2, only.0 as int, hc, None, None, e);
                                }
                                lemma_frame(s2, s3, only.0 as int, hc, None, None);
                                assert forall|k2: Seq<u8>| #[trigger] tree_value(s3, Some(only), hc, k2) == tree_value(s2, Some(root), h, k2) by {
                                    lemma_lookup_holds(s2, only.0 as int, hc, None, None, k2);
                                    if let Some(d) = lookup(s2, only.0 as int, hc, k2) {
                                        lemma_holds_data_bounds(s2, only.0 as int, hc, None, None, d.0 as int);
                                    }
                                }
                                if let Some(d) = old(self).page_of(old(pager), k) {
                                    lemma_still_free(f2, pager.free_ids(), d);
                                }
                                if keys_capped(sb, self.order as int) {
                                    lemma_capped_kept(sb, s3, self.order as int);
                                }
                                if keys_floor(s, o, rs) {
                                    let ro = rs.insert(root.0 as int).insert(only.0 as int);
                                    if lone(s, root.0 as int) {
                                        assert(kids(node(s, root.0 as int))[0] == only);
                                        assert(rs.insert(root.0 as int).insert(kids(node(s, root.0 as int))[0].0 as int) == ro);
                                    }
                                    assert(keys_floor(s2, o, ro));
                                    lemma_floor_kept(s2, s3, o, ro);
                                    assert forall|q: int| #[trigger] is_index_slot(s3, q) && !set![only.0 as int].contains(q)
                                        implies node(s3, q).keys@.len() >= o / 2 by {
                                        assert(!ro.contains(q));
                                    }
                                }
                            }
                            self.root = Some(only);
                            self.height = Ghost((h - 1) as nat);
                        }
                    },
                    NodeType::Leaf { .. } => {},
                }
            }
        }
        proof {
            assert forall|k2: Seq<u8>| #[trigger] tree_value(s2, Some(root), h, k2) == if k2 == k { None } else { old(self).value_of(old(pager), k2) } by {
                lemma_lookup_holds(s2, root.0 as int, h, None, None, k2);
            }
            assert forall|k2: Seq<u8>| #[trigger] self.value_of(pager, k2) == if k2 == k { None } else { old(self).value_of(old(pager), k2) } by {
                assert(tree_value(s2, Some(root), h, k2) == if k2 == k { None } else { old(self).value_of(old(pager), k2) });
            }
        }
        if found.is_some() {
            let rt = self.root.unwrap();
            let ghost h2 = self.height@;
            let ghost s3 = pager.slots@;
            let page = pager.index_page(rt).unwrap();
            let empty_leaf = match &page.node_type {
                NodeType::Leaf { .. } => page.keys.len() == 0,
                NodeType::Branch { .. } => false,
            };
            if empty_leaf {
                proof {
                    assert(h2 == 0);
                    assert(node_keys(node(s3, rt.0 as int)).len() == 0);
                    assert forall|k2: Seq<u8>| #[trigger] self.value_of(pager, k2) is None by {
                        assert(find(node_keys(node(s3, rt.0 as int)), k2) == -1);
                    }
                }
                let ghost f2 = pager.free_ids();
                let ghost sb = pager.slots@;
                pager.free(rt);
                proof {
                    if keys_capped(sb, self.order as int) {
                        lemma_capped_kept(sb, pager.slots@, self.order as int);
                    }
                    if keys_floor(sb, o, root_exempt(self.root)) {
                        lemma_floor_kept(sb, pager.slots@, o, root_exempt(self.root));
                        assert forall|q: int| #[trigger] is_index_slot(pager.slots@, q) && !Set::<int>::empty().contains(q)
                            implies node(pager.slots@, q).keys@.len() >= o / 2 by {
                            assert(q != rt.0);
                        }
                    }
                }
                proof {
                    if let Some(d) = old(self).page_of(old(pager), k) {
                        lemma_still_free(f2, pager.free_ids(), d);
                    }
                }
                self.root = None;
                self.height = Ghost(0);
            } else {
                proof {
                    if old(self).height@ == 0 {
                        assert(h2 == 0);
                        let ks = node_keys(node(s3, rt.0 as int));
                        if ks.len() > 0 {
                            lemma_find_at(ks, ks[0], 0);
                            assert(self.value_of(pager, ks[0]) is Some);
                        }
                    }
                }
            }
        }
        match found {
            Some(v) => Ok(v),
            None => Err(UserErr::NoRID(key.to_owned())),
        }
    }
}

} // verus!

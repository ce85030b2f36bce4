//! The dominator tree. On the blocks reachable from the entry, dominance is a
//! partial order whose elements above any one block form a chain; so each
//! reachable block other than the entry has one immediate dominator, and
//! hanging every such block below it gives a tree rooted at the entry. The
//! dominance check visits that tree in preorder.

use vstd::prelude::*;

use crate::dominance::{cfg, dominates, entry_id, reachable, strictly_dominates};
use crate::function::FunctionModel;
use crate::graph::{
    graph, postorder, reach_avoiding, reaches_avoiding,
    dominates_in, first_index_of, reaches, is_idom_in, strictly_dominates_in, is_path, last_index_of, lemma_path_prefix, lemma_path_splice,
};

verus! {

/// Block `d` is the immediate dominator of block `b`: it strictly dominates
/// `b`, and every strict dominator of `b` dominates `d`.
pub open spec fn is_idom(f: FunctionModel, d: usize, b: usize) -> bool {
    is_idom_in(cfg(f), entry_id(f), d, b)
}

/// The immediate dominator of block `b` (meaningful for a reachable block
/// other than the entry).
pub open spec fn idom(f: FunctionModel, b: usize) -> usize {
    choose|d: usize| is_idom(f, d, b)
}

/// The children of block `a` in the dominator tree among the blocks numbered
/// below `m`, in increasing order: the reachable blocks, other than the entry,
/// whose immediate dominator is `a`.
pub open spec fn dom_children(f: FunctionModel, a: usize, m: int) -> Seq<usize>
    decreases m,
{
    if m <= 0 {
        Seq::empty()
    } else {
        let rest = dom_children(f, a, m - 1);
        let c = (m - 1) as usize;
        if reachable(f, c) && c != entry_id(f) && idom(f, c) == a {
            rest.push(c)
        } else {
            rest
        }
    }
}

/// Each listed child of `a` is a reachable block numbered below `m`, other
/// than the entry, whose immediate dominator is `a`.
pub proof fn lemma_children_are_children(f: FunctionModel, a: usize, m: int, i: int)
    requires
        0 <= i < dom_children(f, a, m).len(),
    ensures
        reachable(f, dom_children(f, a, m)[i]),
        dom_children(f, a, m)[i] != entry_id(f),
        idom(f, dom_children(f, a, m)[i]) == a,
        dom_children(f, a, m)[i] < m,
    decreases m,
{
    if m > 0 {
        let rest = dom_children(f, a, m - 1);
        if i < rest.len() {
            lemma_children_are_children(f, a, m - 1, i);
            assert(dom_children(f, a, m)[i] == rest[i]);
        }
    }
}

/// The preorder of the dominator subtree under block `b`, down to `fuel`
/// levels below it: `b`, then the subtrees of its children, the
/// highest-numbered child first.
pub open spec fn preorder_from(f: FunctionModel, b: usize, fuel: nat) -> Seq<usize>
    decreases fuel, 0nat,
{
    if fuel == 0 {
        seq![b]
    } else {
        seq![b] + preorder_list(f, dom_children(f, b, f.blocks.len() as int), (fuel - 1) as nat)
    }
}

/// The preorders of the subtrees under the blocks `cs`, the last of `cs`
/// first.
pub open spec fn preorder_list(f: FunctionModel, cs: Seq<usize>, fuel: nat) -> Seq<usize>
    decreases fuel, cs.len() + 1,
{
    if cs.len() == 0 {
        Seq::empty()
    } else {
        preorder_from(f, cs.last(), fuel) + preorder_list(f, cs.drop_last(), fuel)
    }
}

/// The reachable blocks in preorder of the dominator tree. A tree over `n`
/// blocks is less than `n` levels deep, so `n` levels reach every block.
pub open spec fn dom_preorder(f: FunctionModel) -> Seq<usize> {
    preorder_from(f, entry_id(f), f.blocks.len() as nat)
}

/// What a stack of pending subtrees still has to visit: each entry is a block,
/// a depth bound and a position on the path of open blocks, and the subtree
/// on top of the stack comes first.
pub open spec fn stack_order(f: FunctionModel, st: Seq<(usize, usize, usize)>) -> Seq<usize>
    decreases st.len(),
{
    if st.len() == 0 {
        Seq::empty()
    } else {
        preorder_from(f, st.last().0, st.last().1 as nat) + stack_order(f, st.drop_last())
    }
}

/// The blocks `cs`, each paired with the depth bound `k` and path position `d`.
pub open spec fn with_depth(cs: Seq<usize>, k: usize, d: usize) -> Seq<(usize, usize, usize)> {
    cs.map_values(|c: usize| (c, k, d))
}

/// Pushing the children `cs` onto a stack, each with depth bound `k`, puts
/// their subtrees, the last child's first, ahead of what the stack held.
pub proof fn lemma_stack_push(
    f: FunctionModel,
    st: Seq<(usize, usize, usize)>,
    cs: Seq<usize>,
    k: usize,
    d: usize,
)
    ensures
        stack_order(f, st + with_depth(cs, k, d)) == preorder_list(f, cs, k as nat) + stack_order(f, st),
    decreases cs.len(),
{
    if cs.len() == 0 {
        assert(st + with_depth(cs, k, d) =~= st);
        assert(preorder_list(f, cs, k as nat) =~= Seq::<usize>::empty());
        assert(stack_order(f, st) =~= Seq::<usize>::empty() + stack_order(f, st));
    } else {
        let s2 = st + with_depth(cs, k, d);
        lemma_stack_push(f, st, cs.drop_last(), k, d);
        assert(s2.drop_last() =~= st + with_depth(cs.drop_last(), k, d));
        assert(s2.last() == (cs.last(), k, d));
        assert(stack_order(f, s2) =~= preorder_list(f, cs, k as nat) + stack_order(f, st));
    }
}

/// `path` runs down the dominator tree from the entry: it starts at the
/// entry, and each later block is reachable, is not the entry, and is
/// immediately dominated by the block before it.
pub open spec fn dom_chain(f: FunctionModel, path: Seq<usize>) -> bool {
    &&& path.len() >= 1
    &&& path[0] == entry_id(f)
    &&& forall|i: int|
        1 <= i < path.len() ==> reachable(f, #[trigger] path[i]) && path[i] != entry_id(f) && idom(f, path[i])
            == path[i - 1]
}

/// Every reachable block other than the entry has an immediate dominator.
pub open spec fn idoms_exist(f: FunctionModel) -> bool {
    forall|x: usize| reachable(f, x) && x != entry_id(f) ==> #[trigger] is_idom(f, idom(f, x), x)
}

/// The strict dominators of a reachable block other than the entry are its
/// immediate dominator and that block's strict dominators.
pub proof fn lemma_sdom_step(f: FunctionModel, a: usize, c: usize)
    requires
        idoms_exist(f),
        reachable(f, c),
        c != entry_id(f),
    ensures
        strictly_dominates(f, a, c) <==> (a == idom(f, c) || strictly_dominates(f, a, idom(f, c))),
{
    let d = idom(f, c);
    assert(is_idom(f, idom(f, c), c));
    assert(strictly_dominates_in(cfg(f), entry_id(f), d, c));
    if strictly_dominates(f, a, c) {
        assert(strictly_dominates_in(cfg(f), entry_id(f), a, c));
        assert(dominates(f, a, d));
    }
    if a == d {
    } else if strictly_dominates(f, a, d) {
        lemma_dom_trans(f, a, d, c);
        if a == c {
            lemma_dom_antisym(f, c, d);
        }
    }
}

/// The blocks on a path down the dominator tree whose last block is the
/// immediate dominator of `c` are exactly the strict dominators of `c`.
pub proof fn lemma_chain_sdom(f: FunctionModel, path: Seq<usize>, c: usize)
    requires
        entry_id(f) < f.blocks.len(),
        idoms_exist(f),
        dom_chain(f, path),
        reachable(f, c),
        c != entry_id(f),
        idom(f, c) == path.last(),
    ensures
        forall|a: usize| #[trigger] path.contains(a) <==> strictly_dominates(f, a, c),
    decreases path.len(),
{
    if path.len() == 1 {
        assert forall|a: usize| #[trigger] path.contains(a) <==> strictly_dominates(f, a, c) by {
            lemma_sdom_step(f, a, c);
            if dominates(f, a, entry_id(f)) {
                lemma_entry_dominators(f, a);
            }
            if a == entry_id(f) {
                assert(path[0] == a);
            }
        }
    } else {
        let q = path.drop_last();
        let x = path.last();
        assert(path[path.len() - 1] == x);
        assert(reachable(f, path[path.len() - 1]));
        assert(dom_chain(f, q)) by {
            assert forall|i: int| 1 <= i < q.len() implies reachable(f, #[trigger] q[i]) && q[i] != entry_id(f)
                && idom(f, q[i]) == q[i - 1] by {
                assert(q[i] == path[i]);
                assert(reachable(f, path[i]));
            }
        }
        lemma_chain_sdom(f, q, x);
        assert forall|a: usize| #[trigger] path.contains(a) <==> strictly_dominates(f, a, c) by {
            lemma_sdom_step(f, a, c);
            if path.contains(a) && a != x {
                let i = choose|i: int| 0 <= i < path.len() && path[i] == a;
                assert(q[i] == a);
            }
            if q.contains(a) {
                let i = choose|i: int| 0 <= i < q.len() && q[i] == a;
                assert(path[i] == a);
            }
            if a == x {
                assert(path[path.len() - 1] == a);
            }
        }
    }
}

/// A path down the dominator tree visits no block twice.
pub proof fn lemma_chain_distinct(f: FunctionModel, path: Seq<usize>)
    requires
        entry_id(f) < f.blocks.len(),
        idoms_exist(f),
        dom_chain(f, path),
    ensures
        path.no_duplicates(),
{
    assert forall|i: int, j: int| 0 <= i < path.len() && 0 <= j < path.len() && i != j implies path[i]
        != path[j] by {
        let (lo, hi) = if i < j {
            (i, j)
        } else {
            (j, i)
        };
        let q = path.take(hi);
        assert(reachable(f, path[hi]));
        assert(dom_chain(f, q)) by {
            assert forall|t: int| 1 <= t < q.len() implies reachable(f, #[trigger] q[t]) && q[t] != entry_id(f)
                && idom(f, q[t]) == q[t - 1] by {
                assert(q[t] == path[t]);
                assert(reachable(f, path[t]));
            }
        }
        lemma_chain_sdom(f, q, path[hi]);
        assert(q[lo] == path[lo]);
        assert(q.contains(path[lo]));
    }
}

/// Every node dominates itself.
pub proof fn lemma_g_dom_refl(g: Seq<Seq<usize>>, e: usize, x: usize)
    ensures
        dominates_in(g, e, x, x),
{
    assert forall|p: Seq<usize>| is_path(g, e, p) && p.last() == x implies p.contains(x) by {
        assert(p[p.len() - 1] == x);
    }
}

/// The entry dominates every node.
pub proof fn lemma_g_dom_entry(g: Seq<Seq<usize>>, e: usize, b: usize)
    ensures
        dominates_in(g, e, e, b),
{
    assert forall|p: Seq<usize>| is_path(g, e, p) && p.last() == b implies p.contains(e) by {
        assert(p[0] == e);
    }
}

/// Dominance is transitive.
pub proof fn lemma_g_dom_trans(g: Seq<Seq<usize>>, e: usize, x: usize, y: usize, z: usize)
    requires
        dominates_in(g, e, x, y),
        dominates_in(g, e, y, z),
    ensures
        dominates_in(g, e, x, z),
{
    assert forall|p: Seq<usize>| is_path(g, e, p) && p.last() == z implies p.contains(x) by {
        assert(p.contains(y));
        let i = choose|i: int| 0 <= i < p.len() && p[i] == y;
        lemma_path_prefix(g, e, p, i);
        let q = p.take(i + 1);
        assert(q.contains(x));
        let j = choose|j: int| 0 <= j < q.len() && q[j] == x;
        assert(p[j] == x);
    }
}

/// A node that dominates a reachable node is itself a reachable node.
pub proof fn lemma_g_dominator_reachable(g: Seq<Seq<usize>>, e: usize, x: usize, b: usize)
    requires
        reaches(g, e, b),
        dominates_in(g, e, x, b),
    ensures
        reaches(g, e, x),
        x < g.len(),
{
    let p = choose|p: Seq<usize>| is_path(g, e, p) && p.last() == b;
    assert(p.contains(x));
    let i = choose|i: int| 0 <= i < p.len() && p[i] == x;
    lemma_path_prefix(g, e, p, i);
    assert(p[i] < g.len());
}

/// Two reachable nodes that dominate each other are the same node.
pub proof fn lemma_g_dom_antisym(g: Seq<Seq<usize>>, e: usize, x: usize, y: usize)
    requires
        reaches(g, e, x),
        dominates_in(g, e, x, y),
        dominates_in(g, e, y, x),
    ensures
        x == y,
{
    if x != y {
        let p = choose|p: Seq<usize>| is_path(g, e, p) && p.last() == x;
        assert(p.contains(y));
        let i = first_index_of(p, y);
        lemma_path_prefix(g, e, p, i);
        let q = p.take(i + 1);
        assert(q.contains(x));
        let j = choose|j: int| 0 <= j < q.len() && q[j] == x;
        assert(p[j] == x);
        lemma_path_prefix(g, e, p, j);
        let r = p.take(j + 1);
        assert(r.contains(y));
        let k = choose|k: int| 0 <= k < r.len() && r[k] == y;
        assert(p[k] == y);
    }
}

/// The dominators of a reachable node form a chain: of any two, one
/// dominates the other.
pub proof fn lemma_g_dom_linear(g: Seq<Seq<usize>>, e: usize, x: usize, y: usize, b: usize)
    requires
        reaches(g, e, b),
        dominates_in(g, e, x, b),
        dominates_in(g, e, y, b),
    ensures
        dominates_in(g, e, x, y) || dominates_in(g, e, y, x),
{
    if !dominates_in(g, e, x, y) && !dominates_in(g, e, y, x) {
        let p1 = choose|p: Seq<usize>| !(is_path(g, e, p) && p.last() == y ==> p.contains(x));
        let p2 = choose|p: Seq<usize>| !(is_path(g, e, p) && p.last() == x ==> p.contains(y));
        let s = choose|p: Seq<usize>| is_path(g, e, p) && p.last() == b;
        assert(s.contains(x));
        assert(s.contains(y));
        let ix = last_index_of(s, x);
        let iy = last_index_of(s, y);
        if ix > iy {
            lemma_path_splice(g, e, p2, s, ix);
            let r = p2 + s.subrange(ix + 1, s.len() as int);
            assert(r.contains(y));
            let t = s.subrange(ix + 1, s.len() as int);
            if t.contains(y) {
                let k = choose|k: int| 0 <= k < t.len() && t[k] == y;
                assert(s[ix + 1 + k] == y);
            }
        } else {
            lemma_path_splice(g, e, p1, s, iy);
            let r = p1 + s.subrange(iy + 1, s.len() as int);
            assert(r.contains(x));
            let t = s.subrange(iy + 1, s.len() as int);
            if t.contains(x) {
                let k = choose|k: int| 0 <= k < t.len() && t[k] == x;
                assert(s[iy + 1 + k] == x);
            }
        }
    }
}

/// Every block dominates itself.
pub proof fn lemma_dom_refl(f: FunctionModel, x: usize)
    ensures
        dominates(f, x, x),
{
    lemma_g_dom_refl(cfg(f), entry_id(f), x);
}

/// The entry dominates every block.
pub proof fn lemma_dom_entry(f: FunctionModel, b: usize)
    ensures
        dominates(f, entry_id(f), b),
{
    lemma_g_dom_entry(cfg(f), entry_id(f), b);
}

/// Dominance is transitive.
pub proof fn lemma_dom_trans(f: FunctionModel, x: usize, y: usize, z: usize)
    requires
        dominates(f, x, y),
        dominates(f, y, z),
    ensures
        dominates(f, x, z),
{
    lemma_g_dom_trans(cfg(f), entry_id(f), x, y, z);
}

/// A block that dominates a reachable block is itself a reachable block.
pub proof fn lemma_dominator_reachable(f: FunctionModel, x: usize, b: usize)
    requires
        reachable(f, b),
        dominates(f, x, b),
    ensures
        reachable(f, x),
        x < f.blocks.len(),
{
    lemma_g_dominator_reachable(cfg(f), entry_id(f), x, b);
}

/// A reachable block is a block of the function.
pub proof fn lemma_reachable_in_range(f: FunctionModel, b: usize)
    requires
        reachable(f, b),
    ensures
        b < f.blocks.len(),
{
    lemma_dom_refl(f, b);
    lemma_dominator_reachable(f, b, b);
}

/// The entry is reachable, when it is a block.
pub proof fn lemma_entry_reachable(f: FunctionModel)
    requires
        entry_id(f) < f.blocks.len(),
    ensures
        reachable(f, entry_id(f)),
{
    let p = seq![entry_id(f)];
    assert(is_path(cfg(f), entry_id(f), p));
    assert(p.last() == entry_id(f));
}

/// Only the entry dominates the entry.
pub proof fn lemma_entry_dominators(f: FunctionModel, a: usize)
    requires
        entry_id(f) < f.blocks.len(),
        dominates(f, a, entry_id(f)),
    ensures
        a == entry_id(f),
{
    let p = seq![entry_id(f)];
    assert(is_path(cfg(f), entry_id(f), p));
    assert(p.last() == entry_id(f));
    assert(p.contains(a));
    let i = choose|i: int| 0 <= i < p.len() && p[i] == a;
    assert(p[i] == entry_id(f));
}

/// Two reachable blocks that dominate each other are the same block.
pub proof fn lemma_dom_antisym(f: FunctionModel, x: usize, y: usize)
    requires
        reachable(f, x),
        dominates(f, x, y),
        dominates(f, y, x),
    ensures
        x == y,
{
    lemma_g_dom_antisym(cfg(f), entry_id(f), x, y);
}

/// The dominators of a reachable block form a chain: of any two, one
/// dominates the other.
pub proof fn lemma_dom_linear(f: FunctionModel, x: usize, y: usize, b: usize)
    requires
        reachable(f, b),
        dominates(f, x, b),
        dominates(f, y, b),
    ensures
        dominates(f, x, y) || dominates(f, y, x),
{
    lemma_g_dom_linear(cfg(f), entry_id(f), x, y, b);
}

/// A reachable block has at most one immediate dominator.
pub proof fn lemma_idom_unique(f: FunctionModel, d: usize, b: usize)
    requires
        reachable(f, b),
        is_idom(f, d, b),
    ensures
        idom(f, b) == d,
{
    let d2 = idom(f, b);
    assert(is_idom(f, d2, b));
    assert(strictly_dominates(f, d, b));
    assert(strictly_dominates(f, d2, b));
    lemma_dominator_reachable(f, d, b);
    lemma_dom_antisym(f, d, d2);
}

/// Block `d` lies strictly below `a` and at or above `b` in dominance.
spec fn between(f: FunctionModel, a: usize, d: usize, b: usize) -> bool {
    strictly_dominates(f, a, d) && dominates(f, d, b)
}

/// How many blocks numbered below `m` lie strictly below `a` and at or above
/// `b`.
spec fn count_between(f: FunctionModel, a: usize, b: usize, m: int) -> nat
    decreases m,
{
    if m <= 0 {
        0
    } else {
        count_between(f, a, b, m - 1) + if between(f, a, (m - 1) as usize, b) {
            1nat
        } else {
            0nat
        }
    }
}

proof fn lemma_count_le(f: FunctionModel, a: usize, b: usize, m: int)
    requires
        0 <= m,
    ensures
        count_between(f, a, b, m) <= m,
    decreases m,
{
    if m > 0 {
        lemma_count_le(f, a, b, m - 1);
    }
}

/// Fewer blocks lie between `c` and `b` than between `a` and `b`, when every
/// block between `c` and `b` is between `a` and `b` and some block is only
/// the latter.
proof fn lemma_count_mono(f: FunctionModel, a: usize, c: usize, b: usize, m: int)
    requires
        0 <= m <= usize::MAX,
        forall|d: usize| d < m && #[trigger] between(f, c, d, b) ==> between(f, a, d, b),
    ensures
        count_between(f, c, b, m) <= count_between(f, a, b, m),
        (exists|w: usize| w < m && between(f, a, w, b) && !between(f, c, w, b)) ==> count_between(
            f,
            c,
            b,
            m,
        ) < count_between(f, a, b, m),
    decreases m,
{
    if m > 0 {
        lemma_count_mono(f, a, c, b, m - 1);
        let top = (m - 1) as usize;
        if between(f, c, top, b) {
            assert(between(f, a, top, b));
        }
        if exists|w: usize| w < m && between(f, a, w, b) && !between(f, c, w, b) {
            let w = choose|w: usize| w < m && between(f, a, w, b) && !between(f, c, w, b);
            if w < m - 1 {
                assert(exists|w: usize| w < m - 1 && between(f, a, w, b) && !between(f, c, w, b));
            } else {
                assert(w == top);
            }
        }
    }
}

/// Among the blocks numbered below `m` that lie strictly below `a` and at or
/// above the reachable block `b`, the one nearest `a`: it dominates all the
/// others.
proof fn nearest_below(f: FunctionModel, a: usize, b: usize, m: int) -> (c: usize)
    requires
        reachable(f, b),
        0 <= m <= usize::MAX,
        exists|w: usize| w < m && between(f, a, w, b),
    ensures
        c < m,
        between(f, a, c, b),
        forall|d: usize| d < m && #[trigger] between(f, a, d, b) ==> dominates(f, c, d),
    decreases m,
{
    let top = (m - 1) as usize;
    if exists|w: usize| w < m - 1 && between(f, a, w, b) {
        let c0 = nearest_below(f, a, b, m - 1);
        if between(f, a, top, b) {
            lemma_dom_linear(f, c0, top, b);
            if dominates(f, c0, top) {
                assert forall|d: usize| d < m && #[trigger] between(f, a, d, b) implies dominates(
                    f,
                    c0,
                    d,
                ) by {
                    if d < m - 1 {
                    } else {
                        assert(d == top);
                    }
                }
                c0
            } else {
                assert forall|d: usize| d < m && #[trigger] between(f, a, d, b) implies dominates(
                    f,
                    top,
                    d,
                ) by {
                    if d < m - 1 {
                        lemma_dom_trans(f, top, c0, d);
                    } else {
                        assert(d == top);
                        lemma_dom_refl(f, top);
                    }
                }
                top
            }
        } else {
            assert forall|d: usize| d < m && #[trigger] between(f, a, d, b) implies dominates(
                f,
                c0,
                d,
            ) by {
                if d == top {
                } else {
                    assert(d < m - 1);
                }
            }
            c0
        }
    } else {
        let w = choose|w: usize| w < m && between(f, a, w, b);
        assert(w == top);
        assert forall|d: usize| d < m && #[trigger] between(f, a, d, b) implies dominates(f, top, d) by {
            assert(d == top);
            lemma_dom_refl(f, top);
        }
        top
    }
}

/// A reachable block other than the entry whose immediate dominator is `a`
/// is among `a`'s children.
proof fn lemma_child_listed(f: FunctionModel, a: usize, c: usize, m: int)
    requires
        c < m,
        reachable(f, c),
        c != entry_id(f),
        idom(f, c) == a,
    ensures
        dom_children(f, a, m).contains(c),
    decreases m,
{
    let rest = dom_children(f, a, m - 1);
    if c == m - 1 {
        assert(dom_children(f, a, m) == rest.push(c));
        assert(rest.push(c)[rest.len() as int] == c);
    } else {
        lemma_child_listed(f, a, c, m - 1);
        let j = choose|j: int| 0 <= j < rest.len() && rest[j] == c;
        if reachable(f, (m - 1) as usize) && (m - 1) as usize != entry_id(f) && idom(f, (m - 1) as usize)
            == a {
            assert(rest.push((m - 1) as usize)[j] == c);
        }
    }
}

/// The subtrees under the blocks `cs` include the subtree under each of them.
proof fn lemma_list_contains(f: FunctionModel, cs: Seq<usize>, c: usize, x: usize, k: nat)
    requires
        cs.contains(c),
        preorder_from(f, c, k).contains(x),
    ensures
        preorder_list(f, cs, k).contains(x),
    decreases cs.len(),
{
    let head = preorder_from(f, cs.last(), k);
    let tail = preorder_list(f, cs.drop_last(), k);
    if cs.last() == c {
        let j = choose|j: int| 0 <= j < head.len() && head[j] == x;
        assert((head + tail)[j] == x);
    } else {
        let i = choose|i: int| 0 <= i < cs.len() && cs[i] == c;
        assert(cs.drop_last()[i] == c);
        lemma_list_contains(f, cs.drop_last(), c, x, k);
        let j = choose|j: int| 0 <= j < tail.len() && tail[j] == x;
        assert((head + tail)[head.len() + j] == x);
    }
}

/// A reachable block that `a` dominates lies in the preorder of `a`'s subtree,
/// when the subtree is explored deep enough.
proof fn lemma_in_preorder(f: FunctionModel, a: usize, b: usize, k: nat)
    requires
        entry_id(f) < f.blocks.len(),
        f.blocks.len() <= u32::MAX,
        reachable(f, b),
        dominates(f, a, b),
        count_between(f, a, b, f.blocks.len() as int) <= k,
    ensures
        preorder_from(f, a, k).contains(b),
    decreases k,
{
    let n = f.blocks.len() as int;
    if a == b {
        assert(preorder_from(f, a, k)[0] == a);
    } else {
        lemma_reachable_in_range(f, b);
        lemma_dominator_reachable(f, a, b);
        lemma_dom_refl(f, b);
        assert(between(f, a, b, b));
        let c = nearest_below(f, a, b, n);
        lemma_dominator_reachable(f, c, b);
        assert(is_idom(f, a, c)) by {
            assert forall|e: usize| #[trigger] strictly_dominates_in(cfg(f), entry_id(f), e, c) implies dominates_in(
                cfg(f),
                entry_id(f),
                e,
                a,
            ) by {
                assert(strictly_dominates(f, e, c));
                lemma_dom_trans(f, e, c, b);
                lemma_dom_linear(f, e, a, b);
                if !dominates(f, e, a) {
                    lemma_dominator_reachable(f, e, b);
                    assert(between(f, a, e, b));
                    lemma_dom_antisym(f, c, e);
                }
            }
        }
        lemma_idom_unique(f, a, c);
        if c == entry_id(f) {
            lemma_entry_dominators(f, a);
        }
        lemma_child_listed(f, a, c, n);
        assert forall|d: usize| d < n && #[trigger] between(f, c, d, b) implies between(f, a, d, b) by {
            lemma_dom_trans(f, a, c, d);
            if a == d {
                lemma_dom_antisym(f, a, c);
            }
        }
        assert(between(f, a, c, b) && !between(f, c, c, b));
        lemma_count_mono(f, a, c, b, n);
        lemma_in_preorder(f, c, b, (k - 1) as nat);
        let kids = dom_children(f, a, n);
        lemma_list_contains(f, kids, c, b, (k - 1) as nat);
        let l = preorder_list(f, kids, (k - 1) as nat);
        let j = choose|j: int| 0 <= j < l.len() && l[j] == b;
        assert((seq![a] + l)[j + 1] == b);
    }
}

proof fn lemma_children_reachable(f: FunctionModel, a: usize, m: int)
    ensures
        forall|j: int|
            0 <= j < dom_children(f, a, m).len() ==> reachable(f, #[trigger] dom_children(f, a, m)[j]),
    decreases m,
{
    if m > 0 {
        lemma_children_reachable(f, a, m - 1);
        let rest = dom_children(f, a, m - 1);
        assert forall|j: int| 0 <= j < dom_children(f, a, m).len() implies reachable(
            f,
            #[trigger] dom_children(f, a, m)[j],
        ) by {
            if j < rest.len() {
                assert(dom_children(f, a, m)[j] == rest[j]);
            }
        }
    }
}

proof fn lemma_from_reachable(f: FunctionModel, a: usize, k: nat)
    requires
        reachable(f, a),
    ensures
        forall|j: int|
            0 <= j < preorder_from(f, a, k).len() ==> reachable(f, #[trigger] preorder_from(f, a, k)[j]),
    decreases k, 0nat,
{
    if k > 0 {
        let kids = dom_children(f, a, f.blocks.len() as int);
        lemma_children_reachable(f, a, f.blocks.len() as int);
        lemma_list_reachable(f, kids, (k - 1) as nat);
        let l = preorder_list(f, kids, (k - 1) as nat);
        assert forall|j: int| 0 <= j < preorder_from(f, a, k).len() implies reachable(
            f,
            #[trigger] preorder_from(f, a, k)[j],
        ) by {
            if j > 0 {
                assert(preorder_from(f, a, k)[j] == l[j - 1]);
            }
        }
    }
}

proof fn lemma_list_reachable(f: FunctionModel, cs: Seq<usize>, k: nat)
    requires
        forall|j: int| 0 <= j < cs.len() ==> reachable(f, #[trigger] cs[j]),
    ensures
        forall|j: int|
            0 <= j < preorder_list(f, cs, k).len() ==> reachable(f, #[trigger] preorder_list(f, cs, k)[j]),
    decreases k, cs.len() + 1,
{
    if cs.len() > 0 {
        assert(reachable(f, cs[cs.len() - 1]));
        lemma_from_reachable(f, cs.last(), k);
        lemma_list_reachable(f, cs.drop_last(), k);
        let head = preorder_from(f, cs.last(), k);
        let tail = preorder_list(f, cs.drop_last(), k);
        assert forall|j: int| 0 <= j < preorder_list(f, cs, k).len() implies reachable(
            f,
            #[trigger] preorder_list(f, cs, k)[j],
        ) by {
            if j < head.len() {
                assert(preorder_list(f, cs, k)[j] == head[j]);
            } else {
                assert(preorder_list(f, cs, k)[j] == tail[j - head.len()]);
            }
        }
    }
}

/// The preorder of the dominator tree lists exactly the reachable blocks.
pub proof fn lemma_preorder_covers(f: FunctionModel)
    requires
        entry_id(f) < f.blocks.len(),
        f.blocks.len() <= u32::MAX,
    ensures
        forall|b: usize| #[trigger] dom_preorder(f).contains(b) <==> reachable(f, b),
{
    let n = f.blocks.len() as int;
    lemma_entry_reachable(f);
    lemma_from_reachable(f, entry_id(f), n as nat);
    assert forall|b: usize| #[trigger] dom_preorder(f).contains(b) <==> reachable(f, b) by {
        if dom_preorder(f).contains(b) {
            let j = choose|j: int| 0 <= j < dom_preorder(f).len() && dom_preorder(f)[j] == b;
            assert(reachable(f, dom_preorder(f)[j]));
        }
        if reachable(f, b) {
            lemma_dom_entry(f, b);
            lemma_count_le(f, entry_id(f), b, n);
            lemma_in_preorder(f, entry_id(f), b, n as nat);
        }
    }
}

/// `a` dominates `b` exactly when no path reaches `b` avoiding `a`.
pub proof fn lemma_g_dominates_iff(g: Seq<Seq<usize>>, e: usize, a: usize, b: usize)
    ensures
        dominates_in(g, e, a, b) == !reaches_avoiding(g, e, a, b),
{
    if reaches_avoiding(g, e, a, b) {
        let p = choose|p: Seq<usize>| is_path(g, e, p) && p.last() == b && !p.contains(a);
    }
}

/// Row `a` of the table marks the nodes reached from `entry` without passing
/// `a`, for each of the first `count` nodes `a`.
pub open spec fn avoid_rows_in(g: Seq<Seq<usize>>, entry: usize, rows: Seq<Vec<bool>>, count: int) -> bool {
    &&& rows.len() == count
    &&& forall|a: int|
        0 <= a < count ==> (#[trigger] rows[a])@.len() == g.len() && forall|x: usize|
            x < g.len() ==> (#[trigger] rows[a]@[x as int] == reaches_avoiding(g, entry, a as usize, x))
}

/// For every node `a`, the nodes reached from `entry` without passing `a`:
/// exactly the nodes `a` does not dominate.
pub fn avoid_table(succs: &Vec<Vec<usize>>, entry: usize) -> (rows: Vec<Vec<bool>>)
    requires
        entry < succs.len(),
    ensures
        avoid_rows_in(graph(succs), entry, rows@, succs.len() as int),
{
    let ghost g = graph(succs);
    let n = succs.len();
    let mut rows: Vec<Vec<bool>> = Vec::new();
    let mut a: usize = 0;
    while a < n
        invariant
            g == graph(succs),
            n == succs.len(),
            g.len() == n,
            entry < n,
            a <= n,
            avoid_rows_in(g, entry, rows@, a as int),
        decreases n - a,
    {
        let row = reach_avoiding(succs, entry, a);
        let ghost before = rows@;
        rows.push(row);
        proof {
            assert forall|q: int| 0 <= q < a + 1 implies (#[trigger] rows@[q])@.len() == g.len() && forall|
                x: usize,
            | x < g.len() ==> (#[trigger] rows@[q]@[x as int] == reaches_avoiding(g, entry, q as usize, x)) by {
                if q < a {
                    assert(rows@[q] == before[q]);
                }
            }
        }
        a = a + 1;
    }
    rows
}

/// The immediate dominators, given the nodes reachable from `entry` (in any
/// order without repeats) and the avoid table: for each reachable node other
/// than `entry`, scan the reachable nodes and keep, among its strict
/// dominators, the one every other dominates.
pub fn idoms_from(
    succs: &Vec<Vec<usize>>,
    entry: usize,
    order: &Vec<usize>,
    rows: &Vec<Vec<bool>>,
) -> (idom: Vec<Option<usize>>)
    requires
        entry < succs.len(),
        order@.no_duplicates(),
        forall|j: int| 0 <= j < order@.len() ==> #[trigger] order@[j] < succs.len(),
        forall|b: usize| #[trigger] order@.contains(b) <==> reaches(graph(succs), entry, b),
        avoid_rows_in(graph(succs), entry, rows@, succs.len() as int),
    ensures
        idom@.len() == succs.len(),
        idom@[entry as int] == Some(entry),
        forall|b: usize| b < succs.len() ==> (#[trigger] idom@[b as int] is Some <==> reaches(graph(succs), entry, b)),
        forall|b: usize|
            b < succs.len() && reaches(graph(succs), entry, b) && b != entry ==> is_idom_in(
                graph(succs),
                entry,
                (#[trigger] idom@[b as int]).unwrap(),
                b,
            ),
{
    let ghost g = graph(succs);
    let n = succs.len();
    let mut idom: Vec<Option<usize>> = Vec::new();
    let mut i: usize = 0;
    while i < n
        invariant
            i <= n,
            idom@.len() == i,
            forall|j: int| 0 <= j < i ==> idom@[j] is None,
        decreases n - i,
    {
        idom.push(None);
        i = i + 1;
    }
    idom.set(entry, Some(entry));
    proof {
        lemma_g_dom_entry(g, entry, entry);
        let p = seq![entry];
        assert(is_path(g, entry, p));
        assert(p.last() == entry);
        assert(order@.take(0) =~= Seq::<usize>::empty());
    }
    let m = order.len();
    let mut k: usize = 0;
    while k < m
        invariant
            g == graph(succs),
            n == succs.len(),
            g.len() == n,
            entry < n,
            m == order@.len(),
            order@.no_duplicates(),
            forall|j: int| 0 <= j < order@.len() ==> #[trigger] order@[j] < n,
            forall|b: usize| #[trigger] order@.contains(b) <==> reaches(g, entry, b),
            avoid_rows_in(g, entry, rows@, n as int),
            k <= m,
            idom@.len() == n,
            idom@[entry as int] == Some(entry),
            forall|x: usize|
                x < n ==> (#[trigger] idom@[x as int] is Some <==> (x == entry || order@.take(k as int).contains(x))),
            forall|x: usize|
                x < n && idom@[x as int] is Some && x != entry ==> is_idom_in(g, entry, (#[trigger] idom@[x as int]).unwrap(), x),
        decreases m - k,
    {
        let b = order[k];
        proof {
            assert(order@.contains(order@[k as int]));
            assert(order@.take(k + 1) =~= order@.take(k as int).push(b));
        }
        if b != entry {
            let mut best: usize = entry;
            proof {
                lemma_g_dom_entry(g, entry, b);
            }
            let mut j: usize = 0;
            while j < m
                invariant
                    g == graph(succs),
                    n == succs.len(),
                    g.len() == n,
                    m == order@.len(),
                    forall|q: int| 0 <= q < order@.len() ==> #[trigger] order@[q] < n,
                    forall|x: usize| #[trigger] order@.contains(x) <==> reaches(g, entry, x),
                    avoid_rows_in(g, entry, rows@, n as int),
                    b < n,
                    reaches(g, entry, b),
                    j <= m,
                    best < n,
                    strictly_dominates_in(g, entry, best, b),
                    forall|q: int|
                        0 <= q < j && #[trigger] strictly_dominates_in(g, entry, order@[q], b) ==> dominates_in(
                            g,
                            entry,
                            order@[q],
                            best,
                        ),
                decreases m - j,
            {
                let d = order[j];
                proof {
                    assert(rows@[d as int]@[b as int] == reaches_avoiding(g, entry, d, b));
                    assert(rows@[best as int]@[d as int] == reaches_avoiding(g, entry, best, d));
                    lemma_g_dominates_iff(g, entry, d, b);
                    lemma_g_dominates_iff(g, entry, best, d);
                }
                if d != b && !rows[d][b] && !rows[best][d] {
                    proof {
                        assert forall|q: int|
                            0 <= q < j + 1 && #[trigger] strictly_dominates_in(g, entry, order@[q], b) implies dominates_in(
                            g,
                            entry,
                            order@[q],
                            d,
                        ) by {
                            if q < j {
                                lemma_g_dom_trans(g, entry, order@[q], best, d);
                            } else {
                                lemma_g_dom_refl(g, entry, d);
                            }
                        }
                    }
                    best = d;
                } else {
                    proof {
                        if d != b && !rows@[d as int]@[b as int] {
                            lemma_g_dom_linear(g, entry, best, d, b);
                        }
                    }
                }
                j = j + 1;
            }
            proof {
                assert forall|x: usize| #[trigger] strictly_dominates_in(g, entry, x, b) implies dominates_in(
                    g,
                    entry,
                    x,
                    best,
                ) by {
                    lemma_g_dominator_reachable(g, entry, x, b);
                    assert(order@.contains(x));
                    let q = choose|q: int| 0 <= q < order@.len() && order@[q] == x;
                    assert(strictly_dominates_in(g, entry, order@[q], b));
                }
                assert(is_idom_in(g, entry, best, b));
            }
            idom.set(b, Some(best));
        }
        proof {
            assert forall|x: usize|
                x < n implies (#[trigger] idom@[x as int] is Some <==> (x == entry || order@.take(k + 1).contains(
                x,
            ))) by {
                if order@.take(k + 1).contains(x) && x != b {
                    let q = choose|q: int| 0 <= q < k + 1 && #[trigger] order@.take(k + 1)[q] == x;
                    assert(order@.take(k as int)[q] == x);
                }
                if order@.take(k as int).contains(x) {
                    let q = choose|q: int| 0 <= q < k && #[trigger] order@.take(k as int)[q] == x;
                    assert(order@.take(k + 1)[q] == x);
                }
                if x == b {
                    assert(order@.take(k + 1)[k as int] == b);
                }
            }
        }
        k = k + 1;
    }
    proof {
        assert(order@.take(m as int) =~= order@);
        lemma_g_dom_entry(g, entry, entry);
        let p = seq![entry];
        assert(is_path(g, entry, p));
        assert(p.last() == entry);
        assert(reaches(g, entry, entry));
    }
    idom
}

/// The immediate dominators of a graph: `Some(entry)` for `entry`, `None` for
/// the nodes `entry` does not reach, and for every other reachable node its
/// immediate dominator. The reachable nodes come from [`postorder`], the
/// dominance facts from [`avoid_table`].
///
/// Cost: this is not the iterative Cooper–Harvey–Kennedy algorithm. The avoid
/// table runs one search per node and holds `n * n` booleans, so the whole
/// computation takes `O(n * (n + e))` time and `O(n * n)` memory for `n`
/// nodes and `e` edges.
pub fn compute_idoms(entry: usize, succs: &Vec<Vec<usize>>) -> (idom: Vec<Option<usize>>)
    requires
        entry < succs.len(),
    ensures
        idom@.len() == succs.len(),
        idom@[entry as int] == Some(entry),
        forall|b: usize| b < succs.len() ==> (#[trigger] idom@[b as int] is Some <==> reaches(graph(succs), entry, b)),
        forall|b: usize|
            b < succs.len() && reaches(graph(succs), entry, b) && b != entry ==> is_idom_in(
                graph(succs),
                entry,
                (#[trigger] idom@[b as int]).unwrap(),
                b,
            ),
{
    let order = postorder(succs, entry);
    let rows = avoid_table(succs, entry);
    idoms_from(succs, entry, &order, &rows)
}

} // verus!

//! Paths and reachability over a control-flow graph given as successor lists,
//! and a verified worklist search that finds every node reachable from an
//! entry without passing through a chosen node.

use vstd::prelude::*;

verus! {

/// `p` is a path from `entry` in `g`: it starts at `entry`, stays on nodes of
/// `g`, and each step follows an edge.
pub open spec fn is_path(g: Seq<Seq<usize>>, entry: usize, p: Seq<usize>) -> bool {
    &&& p.len() >= 1
    &&& p[0] == entry
    &&& forall|i: int| 0 <= i < p.len() ==> #[trigger] p[i] < g.len()
    &&& forall|i: int| 0 <= i < p.len() - 1 ==> #[trigger] g[p[i] as int].contains(p[i + 1])
}

/// Some path from `entry` ends at `x`.
pub open spec fn reaches(g: Seq<Seq<usize>>, entry: usize, x: usize) -> bool {
    exists|p: Seq<usize>| is_path(g, entry, p) && p.last() == x
}

/// Every path from `entry` to `b` visits `a`.
pub open spec fn dominates_in(g: Seq<Seq<usize>>, entry: usize, a: usize, b: usize) -> bool {
    forall|p: Seq<usize>| is_path(g, entry, p) && p.last() == b ==> p.contains(a)
}

/// `a` dominates `b` and is not `b`.
pub open spec fn strictly_dominates_in(g: Seq<Seq<usize>>, entry: usize, a: usize, b: usize) -> bool {
    a != b && dominates_in(g, entry, a, b)
}

/// `d` is the immediate dominator of `b`: it strictly dominates `b`, and every
/// strict dominator of `b` dominates `d`.
pub open spec fn is_idom_in(g: Seq<Seq<usize>>, entry: usize, d: usize, b: usize) -> bool {
    &&& strictly_dominates_in(g, entry, d, b)
    &&& forall|x: usize| #[trigger] strictly_dominates_in(g, entry, x, b) ==> dominates_in(g, entry, x, d)
}

/// Some path from `entry` ends at `x` without visiting `d`.
pub open spec fn reaches_avoiding(g: Seq<Seq<usize>>, entry: usize, d: usize, x: usize) -> bool {
    exists|p: Seq<usize>| is_path(g, entry, p) && p.last() == x && !p.contains(d)
}

/// A path from `entry` cut after position `i` is a path from `entry` to `p[i]`.
pub proof fn lemma_path_prefix(g: Seq<Seq<usize>>, entry: usize, p: Seq<usize>, i: int)
    requires
        is_path(g, entry, p),
        0 <= i < p.len(),
    ensures
        is_path(g, entry, p.take(i + 1)),
        p.take(i + 1).last() == p[i],
{
    let q = p.take(i + 1);
    assert forall|j: int| 0 <= j < q.len() implies #[trigger] q[j] < g.len() by {
        assert(q[j] == p[j]);
    }
    assert forall|j: int| 0 <= j < q.len() - 1 implies #[trigger] g[q[j] as int].contains(q[j + 1]) by {
        assert(q[j] == p[j]);
        assert(q[j + 1] == p[j + 1]);
        assert(g[p[j] as int].contains(p[j + 1]));
    }
}

/// A path from `entry` to `s[i]`, followed by what the path `s` visits after
/// position `i`, is a path from `entry` to where `s` ends, and it visits only
/// what those two pieces visit.
pub proof fn lemma_path_splice(g: Seq<Seq<usize>>, entry: usize, p: Seq<usize>, s: Seq<usize>, i: int)
    requires
        is_path(g, entry, p),
        is_path(g, entry, s),
        0 <= i < s.len(),
        p.last() == s[i],
    ensures
        is_path(g, entry, p + s.subrange(i + 1, s.len() as int)),
        (p + s.subrange(i + 1, s.len() as int)).last() == s.last(),
        forall|v: usize|
            #[trigger] (p + s.subrange(i + 1, s.len() as int)).contains(v) ==> p.contains(v)
                || s.subrange(i + 1, s.len() as int).contains(v),
{
    let t = s.subrange(i + 1, s.len() as int);
    let r = p + t;
    assert forall|j: int| 0 <= j < r.len() implies #[trigger] r[j] < g.len() by {
        if j < p.len() {
            assert(r[j] == p[j]);
        } else {
            assert(r[j] == s[i + 1 + j - p.len()]);
        }
    }
    assert forall|j: int| 0 <= j < r.len() - 1 implies #[trigger] g[r[j] as int].contains(r[j + 1]) by {
        if j < p.len() - 1 {
            assert(r[j] == p[j]);
            assert(r[j + 1] == p[j + 1]);
            assert(g[p[j] as int].contains(p[j + 1]));
        } else if j == p.len() - 1 {
            assert(r[j] == s[i]);
            assert(r[j + 1] == s[i + 1]);
            assert(g[s[i] as int].contains(s[i + 1]));
        } else {
            let k = i + 1 + j - p.len();
            assert(r[j] == s[k]);
            assert(r[j + 1] == s[k + 1]);
            assert(g[s[k] as int].contains(s[k + 1]));
        }
    }
    assert(r[0] == p[0]);
    if t.len() == 0 {
        assert(r =~= p);
    } else {
        assert(r.last() == t.last());
    }
    assert forall|v: usize| #[trigger] r.contains(v) implies p.contains(v) || t.contains(v) by {
        let j = choose|j: int| 0 <= j < r.len() && r[j] == v;
        if j < p.len() {
            assert(p[j] == v);
        } else {
            assert(t[j - p.len()] == v);
        }
    }
}

/// The first position at which `v` occurs in `s`.
pub proof fn first_index_of(s: Seq<usize>, v: usize) -> (i: int)
    requires
        s.contains(v),
    ensures
        0 <= i < s.len(),
        s[i] == v,
        forall|j: int| 0 <= j < i ==> s[j] != v,
    decreases s.len(),
{
    if s[0] == v {
        0
    } else {
        let t = s.subrange(1, s.len() as int);
        let w = choose|w: int| 0 <= w < s.len() && s[w] == v;
        assert(t[w - 1] == v);
        let i = first_index_of(t, v);
        assert forall|j: int| 0 <= j < i + 1 implies s[j] != v by {
            if j > 0 {
                assert(s[j] == t[j - 1]);
            }
        }
        i + 1
    }
}

/// The last position at which `v` occurs in `s`.
pub proof fn last_index_of(s: Seq<usize>, v: usize) -> (i: int)
    requires
        s.contains(v),
    ensures
        0 <= i < s.len(),
        s[i] == v,
        forall|j: int| i < j < s.len() ==> s[j] != v,
    decreases s.len(),
{
    if s.last() == v {
        s.len() - 1
    } else {
        let t = s.drop_last();
        let w = choose|w: int| 0 <= w < s.len() && s[w] == v;
        assert(t[w] == v);
        let i = last_index_of(t, v);
        assert forall|j: int| i < j < s.len() implies s[j] != v by {
            if j < s.len() - 1 {
                assert(s[j] == t[j]);
            }
        }
        i
    }
}

/// Every node a successor list names is a node of the graph.
pub open spec fn closed_graph(g: Seq<Seq<usize>>) -> bool {
    forall|a: int, k: int| 0 <= a < g.len() && 0 <= k < g[a].len() ==> #[trigger] g[a][k] < g.len()
}

/// The successor lists held by `succs`.
pub open spec fn graph(succs: &Vec<Vec<usize>>) -> Seq<Seq<usize>> {
    succs@.map_values(|v: Vec<usize>| v@)
}

/// The number of `false` entries.
pub open spec fn count_false(s: Seq<bool>) -> nat
    decreases s.len(),
{
    if s.len() == 0 {
        0
    } else {
        count_false(s.drop_last()) + if s.last() {
            0nat
        } else {
            1nat
        }
    }
}

proof fn lemma_count_false_set(s: Seq<bool>, i: int)
    requires
        0 <= i < s.len(),
        !s[i],
    ensures
        count_false(s.update(i, true)) + 1 == count_false(s),
    decreases s.len(),
{
    if i == s.len() - 1 {
        assert(s.update(i, true).drop_last() =~= s.drop_last());
    } else {
        lemma_count_false_set(s.drop_last(), i);
        assert(s.update(i, true).drop_last() =~= s.drop_last().update(i, true));
    }
}

/// A path that avoids `d` and is closed under the successor relation ends at a
/// marked node, when every marked node's successors other than `d` are marked
/// and the entry is marked unless it is `d`.
proof fn lemma_closed_marks_cover_paths(
    g: Seq<Seq<usize>>,
    entry: usize,
    d: usize,
    marked: Seq<bool>,
    p: Seq<usize>,
)
    requires
        marked.len() == g.len(),
        entry != d ==> entry < g.len() && marked[entry as int],
        forall|y: usize, j: int|
            y < g.len() && marked[y as int] && 0 <= j < g[y as int].len() && g[y as int][j] != d
                && g[y as int][j] < g.len() ==> #[trigger] marked[g[y as int][j] as int],
        is_path(g, entry, p),
        !p.contains(d),
    ensures
        marked[p.last() as int],
    decreases p.len(),
{
    if p.len() == 1 {
        assert(p[0] == entry);
        assert(p.contains(p[0]));
    } else {
        let q = p.drop_last();
        assert forall|i: int| 0 <= i < q.len() - 1 implies #[trigger] g[q[i] as int].contains(
            q[i + 1],
        ) by {
            assert(g[p[i] as int].contains(p[i + 1]));
        }
        assert forall|i: int| 0 <= i < q.len() implies #[trigger] q[i] < g.len() by {
            assert(p[i] < g.len());
        }
        assert(!q.contains(d)) by {
            if q.contains(d) {
                let j = choose|j: int| 0 <= j < q.len() && q[j] == d;
                assert(p[j] == d);
            }
        }
        lemma_closed_marks_cover_paths(g, entry, d, marked, q);
        let x = q.last();
        let i = p.len() - 2;
        assert(g[p[i] as int].contains(p[i + 1]));
        let k = choose|k: int| 0 <= k < g[x as int].len() && g[x as int][k] == p.last();
        assert(p[p.len() - 1] < g.len());
        assert(x < g.len());
        assert(p.contains(p.last()));
    }
}

/// Marks every node that some path from `entry` reaches without visiting `d`.
/// With `d` not a node of the graph this is plain reachability.
pub fn reach_avoiding(succs: &Vec<Vec<usize>>, entry: usize, d: usize) -> (marked: Vec<bool>)
    requires
        entry < succs.len(),
    ensures
        marked@.len() == succs.len(),
        forall|x: usize| x < succs.len() ==> (#[trigger] marked@[x as int] <==> reaches_avoiding(
            graph(succs),
            entry,
            d,
            x,
        )),
{
    let ghost g = graph(succs);
    let n = succs.len();
    let mut marked: Vec<bool> = Vec::new();
    let mut i: usize = 0;
    while i < n
        invariant
            i <= n,
            marked@.len() == i,
            forall|j: int| 0 <= j < i ==> !marked@[j],
        decreases n - i,
    {
        marked.push(false);
        i = i + 1;
    }
    let mut stack: Vec<usize> = Vec::new();
    if entry != d {
        marked.set(entry, true);
        stack.push(entry);
        proof {
            let p = seq![entry];
            assert(is_path(g, entry, p));
            assert(!p.contains(d));
            assert(p.last() == entry);
        }
    }
    while stack.len() > 0
        invariant
            n == succs.len(),
            g == graph(succs),
            g.len() == n,
            entry < n,
            marked@.len() == n,
            entry != d ==> marked@[entry as int],
            stack@.no_duplicates(),
            forall|j: int| 0 <= j < stack@.len() ==> #[trigger] stack@[j] < n && marked@[stack@[j] as int],
            forall|y: usize| y < n && #[trigger] marked@[y as int] ==> reaches_avoiding(g, entry, d, y),
            forall|y: usize, j: int|
                y < n && marked@[y as int] && !stack@.contains(y) && 0 <= j < g[y as int].len()
                    && g[y as int][j] != d && g[y as int][j] < n ==> #[trigger] marked@[g[y as int][j] as int],
        decreases 2 * count_false(marked@) + stack@.len(),
    {
        let ghost measure0 = 2 * count_false(marked@) + stack@.len();
        let ghost old_stack = stack@;
        let x = stack.pop().unwrap();
        proof {
            assert(old_stack[old_stack.len() - 1] == x);
            assert(marked@[x as int]);
            assert forall|y: usize| y != x && !stack@.contains(y) implies !old_stack.contains(y) by {
                if old_stack.contains(y) {
                    let j = choose|j: int| 0 <= j < old_stack.len() && old_stack[j] == y;
                    assert(j < old_stack.len() - 1);
                    assert(stack@[j] == y);
                }
            }
            assert(!stack@.contains(x)) by {
                if stack@.contains(x) {
                    let j = choose|j: int| 0 <= j < stack@.len() && stack@[j] == x;
                }
            }
        }
        let succ = &succs[x];
        let m = succ.len();
        assert(succ@ == g[x as int]);
        let mut k: usize = 0;
        while k < m
            invariant
                n == succs.len(),
                g == graph(succs),
                g.len() == n,
                entry < n,
                    x < n,
                succ@ == g[x as int],
                m == succ@.len(),
                k <= m,
                marked@.len() == n,
                marked@[x as int],
                !stack@.contains(x),
                entry != d ==> marked@[entry as int],
                stack@.no_duplicates(),
                forall|j: int| 0 <= j < stack@.len() ==> #[trigger] stack@[j] < n && marked@[stack@[j] as int],
                forall|y: usize| y < n && #[trigger] marked@[y as int] ==> reaches_avoiding(g, entry, d, y),
                forall|y: usize, j: int|
                    y < n && y != x && marked@[y as int] && !stack@.contains(y) && 0 <= j < g[y as int].len()
                        && g[y as int][j] != d && g[y as int][j] < n ==> #[trigger] marked@[g[y as int][j] as int],
                forall|j: int| 0 <= j < k && g[x as int][j] != d && g[x as int][j] < n ==> #[trigger] marked@[g[x as int][j] as int],
                2 * count_false(marked@) + stack@.len() + 1 <= measure0,
            decreases m - k,
        {
            let s = succ[k];
            assert(g[x as int][k as int] == s);
            if s < n && s != d && !marked[s] {
                proof {
                    lemma_count_false_set(marked@, s as int);
                    assert(reaches_avoiding(g, entry, d, x));
                    let p = choose|p: Seq<usize>|
                        is_path(g, entry, p) && p.last() == x && !p.contains(d);
                    let q = p.push(s);
                    assert forall|i: int| 0 <= i < q.len() - 1 implies #[trigger] g[q[i] as int].contains(
                        q[i + 1],
                    ) by {
                        if i < p.len() - 1 {
                            assert(g[p[i] as int].contains(p[i + 1]));
                        } else {
                            assert(q[i] == p[p.len() - 1]);
                            assert(q[i + 1] == s);
                            assert(g[x as int][k as int] == s);
                        }
                    }
                    assert forall|i: int| 0 <= i < q.len() implies #[trigger] q[i] < g.len() by {
                        if i < p.len() {
                            assert(p[i] < g.len());
                        }
                    }
                    assert(!q.contains(d)) by {
                        if q.contains(d) {
                            let j = choose|j: int| 0 <= j < q.len() && q[j] == d;
                            if j < p.len() {
                                assert(p[j] == d);
                            }
                        }
                    }
                    assert(is_path(g, entry, q));
                    assert(q.last() == s);
                    assert(reaches_avoiding(g, entry, d, s));
                }
                marked.set(s, true);
                let ghost old_stack = stack@;
                stack.push(s);
                proof {
                    assert(!old_stack.contains(s)) by {
                        if old_stack.contains(s) {
                            let j = choose|j: int| 0 <= j < old_stack.len() && old_stack[j] == s;
                        }
                    }
                    assert forall|y: int|
                        0 <= y < n && y != x && marked@[y] && !stack@.contains(y as usize) implies !old_stack.contains(
                        y as usize,
                    ) && y != s by {
                        if old_stack.contains(y as usize) {
                            let j = choose|j: int| 0 <= j < old_stack.len() && old_stack[j] == y as usize;
                            assert(stack@[j] == y as usize);
                        }
                        if y == s as int {
                            assert(stack@[stack@.len() - 1] == s);
                        }
                    }
                    assert(!stack@.contains(x)) by {
                        if stack@.contains(x) {
                            let j = choose|j: int| 0 <= j < stack@.len() && stack@[j] == x;
                            if j < old_stack.len() {
                                assert(old_stack[j] == x);
                            }
                        }
                    }
                }
            }
            k = k + 1;
        }
    }
    proof {
        assert forall|x: usize| x < succs.len() implies (#[trigger] marked@[x as int] <==> reaches_avoiding(
            g,
            entry,
            d,
            x,
        )) by {
            if reaches_avoiding(g, entry, d, x) {
                let p = choose|p: Seq<usize>| is_path(g, entry, p) && p.last() == x && !p.contains(d);
                lemma_closed_marks_cover_paths(g, entry, d, marked@, p);
            }
        }
    }
    marked
}

/// A node one edge beyond a reachable node is reachable.
pub proof fn lemma_reaches_step(g: Seq<Seq<usize>>, entry: usize, x: usize, k: int)
    requires
        reaches(g, entry, x),
        x < g.len(),
        0 <= k < g[x as int].len(),
        g[x as int][k] < g.len(),
    ensures
        reaches(g, entry, g[x as int][k]),
{
    let s = g[x as int][k];
    let p = choose|p: Seq<usize>| is_path(g, entry, p) && p.last() == x;
    let q = p.push(s);
    assert(g[x as int].contains(s));
    assert forall|i: int| 0 <= i < q.len() - 1 implies #[trigger] g[q[i] as int].contains(q[i + 1]) by {
        if i < p.len() - 1 {
            assert(g[p[i] as int].contains(p[i + 1]));
        } else {
            assert(q[i] == p[p.len() - 1]);
        }
    }
    assert forall|i: int| 0 <= i < q.len() implies #[trigger] q[i] < g.len() by {
        if i < p.len() {
            assert(p[i] < g.len());
        }
    }
    assert(q.last() == s);
}

/// How many successors the node on top of a search stack has left to try.
spec fn top_left(g: Seq<Seq<usize>>, st: Seq<(usize, usize)>) -> int {
    if st.len() == 0 {
        0
    } else {
        g[st.last().0 as int].len() - st.last().1
    }
}

/// The depth-first search from node `x`, which `seen` already marks: the
/// marks when it is done, and the nodes it finished, in the order it finished
/// them, `x` last. `fuel` bounds how deep the search may go; the number of
/// nodes is always enough.
pub open spec fn dfs_visit(g: Seq<Seq<usize>>, x: usize, seen: Seq<bool>, fuel: nat) -> (Seq<bool>, Seq<usize>)
    decreases fuel, 1nat, 0nat,
{
    let (s, p) = dfs_succs(g, x, 0, seen, fuel);
    (s, p.push(x))
}

/// The search continuing at successor `i` of node `x`: each successor, in
/// order, that is a node of the graph and not yet seen is marked and searched
/// in turn.
pub open spec fn dfs_succs(g: Seq<Seq<usize>>, x: usize, i: nat, seen: Seq<bool>, fuel: nat) -> (
    Seq<bool>,
    Seq<usize>,
)
    decreases fuel, 0nat, (g[x as int].len() - i) as nat,
{
    if x >= g.len() || i >= g[x as int].len() {
        (seen, Seq::empty())
    } else {
        let s = g[x as int][i as int];
        if s >= g.len() || seen[s as int] {
            dfs_succs(g, x, i + 1, seen, fuel)
        } else if fuel == 0 {
            (seen, Seq::empty())
        } else {
            let (s1, p1) = dfs_visit(g, s, seen.update(s as int, true), (fuel - 1) as nat);
            let (s2, p2) = dfs_succs(g, x, i + 1, s1, fuel);
            (s2, p1 + p2)
        }
    }
}

/// The marks a search from `entry` starts with: `entry` alone.
pub open spec fn dfs_start(n: nat, entry: usize) -> Seq<bool> {
    Seq::new(n, |i: int| i == entry)
}

/// The postorder of the depth-first search from `entry` that tries each
/// node's successors in order and skips successors that are not nodes of the
/// graph: every node after the nodes the search first reached from it, and
/// `entry` last. Empty when `entry` is not a node.
pub open spec fn dfs_postorder(g: Seq<Seq<usize>>, entry: usize) -> Seq<usize> {
    if entry < g.len() {
        dfs_visit(g, entry, dfs_start(g.len(), entry), g.len()).1
    } else {
        Seq::empty()
    }
}

/// What the search still produces from a stack of nodes, each with the index
/// of its next successor to try, given the marks and the nodes finished so far:
/// the node on top continues its search and finishes, then the one below it.
/// The node at stack depth `k` may search `g.len() - k` levels deeper.
spec fn resume(g: Seq<Seq<usize>>, st: Seq<(usize, usize)>, seen: Seq<bool>, post: Seq<usize>) -> Seq<usize>
    decreases st.len(),
{
    if st.len() == 0 {
        post
    } else {
        let top = st.last();
        let fuel = (g.len() - (st.len() - 1)) as nat;
        let (s1, p1) = dfs_succs(g, top.0, top.1 as nat, seen, fuel);
        resume(g, st.drop_last(), s1, post + p1.push(top.0))
    }
}

/// Trying a successor that is not a node, or is already seen, moves on.
proof fn lemma_resume_skip(g: Seq<Seq<usize>>, st: Seq<(usize, usize)>, seen: Seq<bool>, post: Seq<usize>)
    requires
        st.len() >= 1,
        seen.len() == g.len(),
        st.last().0 < g.len(),
        st.last().1 < g[st.last().0 as int].len(),
        st.last().1 + 1 <= usize::MAX,
        g[st.last().0 as int][st.last().1 as int] >= g.len() || seen[g[st.last().0 as int][st.last().1 as int] as int],
    ensures
        resume(g, st, seen, post) == resume(g, st.drop_last().push((st.last().0, (st.last().1 + 1) as usize)), seen, post),
{
    let st2 = st.drop_last().push((st.last().0, (st.last().1 + 1) as usize));
    let b = st.last().0;
    let i = st.last().1;
    let fuel = (g.len() - (st.len() - 1)) as nat;
    assert(st2.drop_last() =~= st.drop_last());
    assert(st2.last() == (b, (i + 1) as usize));
    assert(((i + 1) as usize) as nat == i as nat + 1);
    assert(dfs_succs(g, b, i as nat, seen, fuel) == dfs_succs(g, b, (i as nat + 1) as nat, seen, fuel));
}

/// Trying a successor that is a node not yet seen marks it and searches it.
proof fn lemma_resume_push(g: Seq<Seq<usize>>, st: Seq<(usize, usize)>, seen: Seq<bool>, post: Seq<usize>)
    requires
        st.len() >= 1,
        st.len() < g.len(),
        seen.len() == g.len(),
        st.last().0 < g.len(),
        st.last().1 < g[st.last().0 as int].len(),
        st.last().1 + 1 <= usize::MAX,
        g[st.last().0 as int][st.last().1 as int] < g.len(),
        !seen[g[st.last().0 as int][st.last().1 as int] as int],
    ensures
        resume(g, st, seen, post) == resume(
            g,
            st.drop_last().push((st.last().0, (st.last().1 + 1) as usize)).push(
                (g[st.last().0 as int][st.last().1 as int], 0usize),
            ),
            seen.update(g[st.last().0 as int][st.last().1 as int] as int, true),
            post,
        ),
{
    let b = st.last().0;
    let i = st.last().1;
    let s = g[b as int][i as int];
    let fuel = (g.len() - (st.len() - 1)) as nat;
    let seen2 = seen.update(s as int, true);
    let mid = st.drop_last().push((b, (i + 1) as usize));
    let st2 = mid.push((s, 0usize));
    assert(st2.drop_last() =~= mid);
    assert(st2.last() == (s, 0usize));
    assert(mid.drop_last() =~= st.drop_last());
    assert(mid.last() == (b, (i + 1) as usize));
    assert((g.len() - (st2.len() - 1)) as nat == (fuel - 1) as nat);
    assert((g.len() - (mid.len() - 1)) as nat == fuel);
    assert(((i + 1) as usize) as nat == i as nat + 1);
    let (s1, p1) = dfs_succs(g, s, 0, seen2, (fuel - 1) as nat);
    let (s2, p2) = dfs_succs(g, b, (i + 1) as nat, s1, fuel);
    assert(resume(g, st2, seen2, post) == resume(g, mid, s1, post + p1.push(s)));
    assert(resume(g, mid, s1, post + p1.push(s)) == resume(g, st.drop_last(), s2, post + p1.push(s) + p2.push(b)));
    assert(dfs_visit(g, s, seen2, (fuel - 1) as nat) == (s1, p1.push(s)));
    assert(dfs_succs(g, b, i as nat, seen, fuel) == (s2, p1.push(s) + p2));
    assert(post + p1.push(s) + p2.push(b) =~= post + (p1.push(s) + p2).push(b));
}

/// A node whose successors are all tried finishes.
proof fn lemma_resume_pop(g: Seq<Seq<usize>>, st: Seq<(usize, usize)>, seen: Seq<bool>, post: Seq<usize>)
    requires
        st.len() >= 1,
        st.last().1 >= g[st.last().0 as int].len(),
    ensures
        resume(g, st, seen, post) == resume(g, st.drop_last(), seen, post.push(st.last().0)),
{
    let fuel = (g.len() - (st.len() - 1)) as nat;
    assert(dfs_succs(g, st.last().0, st.last().1 as nat, seen, fuel) == (seen, Seq::<usize>::empty()));
    assert(post + Seq::<usize>::empty().push(st.last().0) =~= post.push(st.last().0));
}

proof fn lemma_count_false_all(n: nat)
    ensures
        count_false(Seq::new(n, |i: int| false)) == n,
    decreases n,
{
    if n > 0 {
        lemma_count_false_all((n - 1) as nat);
        assert(Seq::new(n, |i: int| false).drop_last() =~= Seq::new((n - 1) as nat, |i: int| false));
    }
}

proof fn lemma_count_false_pos(s: Seq<bool>, i: int)
    requires
        0 <= i < s.len(),
        !s[i],
    ensures
        count_false(s) >= 1,
    decreases s.len(),
{
    if i < s.len() - 1 {
        lemma_count_false_pos(s.drop_last(), i);
    }
}

/// The nodes reachable from `entry`, in the postorder of the depth-first
/// search that tries each node's successors in order: a node comes after
/// every node the search first reached from it, and `entry` comes last.
/// Successors that are not nodes of the graph are skipped, and an `entry`
/// that is not a node gives no nodes. The search keeps an explicit stack, so
/// a deep graph cannot overflow the call stack.
#[verifier::rlimit(50)]
pub fn postorder(succs: &Vec<Vec<usize>>, entry: usize) -> (order: Vec<usize>)
    ensures
        order@ == dfs_postorder(graph(succs), entry),
        order@.no_duplicates(),
        forall|j: int| 0 <= j < order@.len() ==> #[trigger] order@[j] < succs.len(),
        forall|b: usize| #[trigger] order@.contains(b) <==> reaches(graph(succs), entry, b),
        entry < succs.len() ==> order@.len() > 0 && order@.last() == entry,
        forall|j: int|
            0 <= j < order@.len() && order@[j] != entry ==> exists|q: int|
                j < q < order@.len() && (#[trigger] graph(succs)[order@[q] as int]).contains(order@[j]),
{
    let ghost g = graph(succs);
    let n = succs.len();
    if entry >= n {
        proof {
            assert forall|b: usize| #[trigger] Seq::<usize>::empty().contains(b) <==> reaches(g, entry, b) by {
                if reaches(g, entry, b) {
                    let p = choose|p: Seq<usize>| is_path(g, entry, p) && p.last() == b;
                    assert(p[0] < g.len());
                }
            }
        }
        return Vec::new();
    }
    let mut visited: Vec<bool> = Vec::new();
    let mut i: usize = 0;
    while i < n
        invariant
            i <= n,
            visited@.len() == i,
            forall|j: int| 0 <= j < i ==> !visited@[j],
        decreases n - i,
    {
        visited.push(false);
        i = i + 1;
    }
    proof {
        assert(visited@ =~= Seq::new(n as nat, |i: int| false));
        lemma_count_false_all(n as nat);
        lemma_count_false_set(visited@, entry as int);
    }
    let mut order: Vec<usize> = Vec::new();
    let mut stack: Vec<(usize, usize)> = Vec::new();
    visited.set(entry, true);
    stack.push((entry, 0));
    proof {
        let p = seq![entry];
        assert(is_path(g, entry, p));
        assert(p.last() == entry);
        assert forall|x: usize|
            x < n && #[trigger] visited@[x as int] implies order@.contains(x) || exists|j: int|
                0 <= j < stack@.len() && (#[trigger] stack@[j]).0 == x by {
            assert(x == entry);
            assert(stack@[0].0 == entry);
        }
        assert(visited@ =~= dfs_start(g.len(), entry));
        assert(stack@.last() == (entry, 0usize));
        assert(stack@.drop_last() =~= Seq::<(usize, usize)>::empty());
        let (s1, p1) = dfs_succs(g, entry, 0, visited@, g.len());
        assert(resume(g, stack@, visited@, order@) == resume(g, Seq::empty(), s1, order@ + p1.push(entry)));
        assert(order@ + p1.push(entry) =~= p1.push(entry));
        assert(dfs_visit(g, entry, visited@, g.len()) == (s1, p1.push(entry)));
        assert(dfs_postorder(g, entry) == p1.push(entry));
    }
    while stack.len() > 0
        invariant
            g == graph(succs),
            n == succs.len(),
            g.len() == n,
            entry < n,
            visited@.len() == n,
            visited@[entry as int],
            forall|x: usize| x < n && #[trigger] visited@[x as int] ==> reaches(g, entry, x),
            order@.no_duplicates(),
            forall|j: int| 0 <= j < order@.len() ==> #[trigger] order@[j] < n && visited@[order@[j] as int],
            forall|j: int|
                0 <= j < stack@.len() ==> (#[trigger] stack@[j]).0 < n && visited@[stack@[j].0 as int]
                    && stack@[j].1 <= g[stack@[j].0 as int].len() && !order@.contains(stack@[j].0),
            forall|j: int, k: int|
                0 <= j < stack@.len() && 0 <= k < stack@.len() && j != k ==> (#[trigger] stack@[j]).0
                    != (#[trigger] stack@[k]).0,
            forall|x: usize|
                x < n && #[trigger] visited@[x as int] ==> order@.contains(x) || exists|j: int|
                    0 <= j < stack@.len() && (#[trigger] stack@[j]).0 == x,
            forall|j: int, k: int|
                0 <= j < order@.len() && 0 <= k < g[order@[j] as int].len() && g[order@[j] as int][k] < n
                    ==> #[trigger] visited@[g[order@[j] as int][k] as int],
            forall|j: int, k: int|
                0 <= j < stack@.len() && 0 <= k < stack@[j].1 && g[stack@[j].0 as int][k] < n
                    ==> #[trigger] visited@[g[stack@[j].0 as int][k] as int],
            stack@.len() > 0 ==> stack@[0].0 == entry,
            stack@.len() == 0 ==> order@.len() > 0 && order@.last() == entry,
            forall|j: int|
                0 < j < stack@.len() ==> (#[trigger] g[stack@[j - 1].0 as int]).contains(stack@[j].0),
            forall|j: int|
                0 <= j < order@.len() && order@[j] != entry ==> (exists|q: int|
                    j < q < order@.len() && (#[trigger] g[order@[q] as int]).contains(order@[j])) || (exists|
                    t: int,
                | 0 <= t < stack@.len() && (#[trigger] g[stack@[t].0 as int]).contains(order@[j])),
            stack@.len() + count_false(visited@) <= n,
            dfs_postorder(g, entry) == resume(g, stack@, visited@, order@),
        decreases count_false(visited@), stack@.len(), top_left(g, stack@),
    {
        let top = stack.len() - 1;
        let (b, i) = stack[top];
        let ghost st0 = stack@;
        let ghost vis0 = visited@;
        let ghost ord0 = order@;
        assert(st0[top as int] == (b, i));
        assert(st0.last() == (b, i));
        let bs = &succs[b];
        assert(bs@ == g[b as int]);
        if i < bs.len() {
            stack.set(top, (b, i + 1));
            let s = bs[i];
            proof {
                assert(g[b as int][i as int] == s);
                assert(stack@.drop_last() =~= st0.drop_last());
                assert(stack@.last() == (b, (i + 1) as usize));
            }
            if s < n && !visited[s] {
                proof {
                    lemma_reaches_step(g, entry, b, i as int);
                    lemma_count_false_pos(visited@, s as int);
                    lemma_count_false_set(visited@, s as int);
                    lemma_resume_push(g, st0, vis0, ord0);
                }
                visited.set(s, true);
                stack.push((s, 0));
                proof {
                    assert(stack@ =~= st0.drop_last().push((b, (i + 1) as usize)).push((s, 0usize)));
                    assert forall|x: usize|
                        x < n && #[trigger] visited@[x as int] implies order@.contains(x) || exists|j: int|
                            0 <= j < stack@.len() && (#[trigger] stack@[j]).0 == x by {
                        if x == s {
                            assert(stack@[stack@.len() - 1].0 == x);
                        } else {
                            assert(vis0[x as int]);
                            if !order@.contains(x) {
                                let j = choose|j: int| 0 <= j < st0.len() && (#[trigger] st0[j]).0 == x;
                                assert(stack@[j].0 == x);
                            }
                        }
                    }
                    assert forall|j: int| 0 <= j < stack@.len() implies (#[trigger] stack@[j]).0 < n
                        && visited@[stack@[j].0 as int] && stack@[j].1 <= g[stack@[j].0 as int].len()
                        && !order@.contains(stack@[j].0) by {
                        if j == stack@.len() - 1 {
                            if order@.contains(s) {
                                let q = choose|q: int| 0 <= q < order@.len() && order@[q] == s;
                                assert(vis0[order@[q] as int]);
                            }
                        } else if j != top {
                            assert(stack@[j] == st0[j]);
                        }
                    }
                    assert forall|j: int, k: int|
                        0 <= j < stack@.len() && 0 <= k < stack@.len() && j != k implies (#[trigger] stack@[j]).0
                            != (#[trigger] stack@[k]).0 by {
                        if j == stack@.len() - 1 && k < stack@.len() - 1 {
                            assert(vis0[st0[k].0 as int]);
                        } else if k == stack@.len() - 1 && j < stack@.len() - 1 {
                            assert(vis0[st0[j].0 as int]);
                        } else {
                            assert(stack@[j].0 == st0[j].0);
                            assert(stack@[k].0 == st0[k].0);
                        }
                    }
                    assert forall|j: int, k: int|
                        0 <= j < stack@.len() && 0 <= k < stack@[j].1 && g[stack@[j].0 as int][k] < n
                            implies #[trigger] visited@[g[stack@[j].0 as int][k] as int] by {
                        if j < stack@.len() - 1 && j != top {
                            assert(stack@[j] == st0[j]);
                        }
                    }
                    assert forall|j: int|
                        0 < j < stack@.len() implies (#[trigger] g[stack@[j - 1].0 as int]).contains(stack@[j].0) by {
                        if j == stack@.len() - 1 {
                            assert(stack@[j - 1].0 == b);
                            assert(g[b as int][i as int] == s);
                        } else {
                            assert(stack@[j].0 == st0[j].0);
                            assert(stack@[j - 1].0 == st0[j - 1].0);
                        }
                    }
                    assert forall|j: int|
                        0 <= j < order@.len() && order@[j] != entry implies (exists|q: int|
                            j < q < order@.len() && (#[trigger] g[order@[q] as int]).contains(order@[j])) || (exists|
                            t: int,
                        | 0 <= t < stack@.len() && (#[trigger] g[stack@[t].0 as int]).contains(order@[j])) by {
                        if !(exists|q: int|
                            j < q < order@.len() && (#[trigger] g[order@[q] as int]).contains(order@[j])) {
                            let t = choose|t: int|
                                0 <= t < st0.len() && (#[trigger] g[st0[t].0 as int]).contains(order@[j]);
                            assert(stack@[t].0 == st0[t].0);
                        }
                    }
                }
            } else {
                proof {
                    lemma_resume_skip(g, st0, vis0, ord0);
                    assert(stack@ =~= st0.drop_last().push((b, (i + 1) as usize)));
                    assert forall|x: usize|
                        x < n && #[trigger] visited@[x as int] implies order@.contains(x) || exists|j: int|
                            0 <= j < stack@.len() && (#[trigger] stack@[j]).0 == x by {
                        if !order@.contains(x) {
                            let j = choose|j: int| 0 <= j < st0.len() && (#[trigger] st0[j]).0 == x;
                            assert(stack@[j].0 == x);
                        }
                    }
                    assert forall|j: int, k: int|
                        0 <= j < stack@.len() && 0 <= k < stack@.len() && j != k implies (#[trigger] stack@[j]).0
                            != (#[trigger] stack@[k]).0 by {
                        assert(stack@[j].0 == st0[j].0);
                        assert(stack@[k].0 == st0[k].0);
                    }
                    assert forall|j: int| 0 <= j < stack@.len() implies (#[trigger] stack@[j]).0 < n
                        && visited@[stack@[j].0 as int] && stack@[j].1 <= g[stack@[j].0 as int].len()
                        && !order@.contains(stack@[j].0) by {
                        if j != top {
                            assert(stack@[j] == st0[j]);
                        }
                    }
                    assert forall|j: int, k: int|
                        0 <= j < stack@.len() && 0 <= k < stack@[j].1 && g[stack@[j].0 as int][k] < n
                            implies #[trigger] visited@[g[stack@[j].0 as int][k] as int] by {
                        if j != top {
                            assert(stack@[j] == st0[j]);
                        }
                    }
                    assert forall|j: int|
                        0 < j < stack@.len() implies (#[trigger] g[stack@[j - 1].0 as int]).contains(stack@[j].0) by {
                        assert(stack@[j].0 == st0[j].0);
                        assert(stack@[j - 1].0 == st0[j - 1].0);
                    }
                    assert forall|j: int|
                        0 <= j < order@.len() && order@[j] != entry implies (exists|q: int|
                            j < q < order@.len() && (#[trigger] g[order@[q] as int]).contains(order@[j])) || (exists|
                            t: int,
                        | 0 <= t < stack@.len() && (#[trigger] g[stack@[t].0 as int]).contains(order@[j])) by {
                        if !(exists|q: int|
                            j < q < order@.len() && (#[trigger] g[order@[q] as int]).contains(order@[j])) {
                            let t = choose|t: int|
                                0 <= t < st0.len() && (#[trigger] g[st0[t].0 as int]).contains(order@[j]);
                            assert(stack@[t].0 == st0[t].0);
                        }
                    }
                }
            }
        } else {
            order.push(b);
            stack.pop();
            proof {
                assert(st0.drop_last() =~= stack@);
                assert forall|j: int| 0 <= j < stack@.len() implies (#[trigger] stack@[j]) == st0[j] by {}
                lemma_resume_pop(g, st0, vis0, ord0);
                assert(!ord0.contains(b));
                assert forall|p: int, q: int| 0 <= p < order@.len() && 0 <= q < order@.len() && p != q implies order@[p]
                    != order@[q] by {
                    if p < ord0.len() && q < ord0.len() {
                        assert(order@[p] == ord0[p] && order@[q] == ord0[q]);
                    } else if p < ord0.len() {
                        assert(order@[p] == ord0[p]);
                        assert(ord0.contains(ord0[p]));
                    } else if q < ord0.len() {
                        assert(order@[q] == ord0[q]);
                        assert(ord0.contains(ord0[q]));
                    }
                }
                assert forall|j: int| 0 <= j < stack@.len() implies (#[trigger] stack@[j]).0 < n && visited@[stack@[j].0 as int]
                    && stack@[j].1 <= g[stack@[j].0 as int].len() && !order@.contains(stack@[j].0) by {
                    assert(stack@[j] == st0[j]);
                    assert(st0[j].0 != b);
                    if order@.contains(stack@[j].0) {
                        let q = choose|q: int| 0 <= q < order@.len() && order@[q] == stack@[j].0;
                        if q < ord0.len() {
                            assert(ord0[q] == stack@[j].0);
                        }
                    }
                }
                assert forall|x: usize|
                    x < n && #[trigger] visited@[x as int] implies order@.contains(x) || exists|j: int|
                        0 <= j < stack@.len() && (#[trigger] stack@[j]).0 == x by {
                    if x == b {
                        assert(order@[ord0.len() as int] == b);
                    } else if ord0.contains(x) {
                        let q = choose|q: int| 0 <= q < ord0.len() && ord0[q] == x;
                        assert(order@[q] == x);
                    } else {
                        let j = choose|j: int| 0 <= j < st0.len() && (#[trigger] st0[j]).0 == x;
                        assert(j != top);
                        assert(stack@[j].0 == x);
                    }
                }
                assert forall|j: int, k: int|
                    0 <= j < order@.len() && 0 <= k < g[order@[j] as int].len() && g[order@[j] as int][k] < n
                        implies #[trigger] visited@[g[order@[j] as int][k] as int] by {
                    if j < ord0.len() {
                        assert(order@[j] == ord0[j]);
                    } else {
                        assert(order@[j] == b);
                    }
                }
                assert forall|j: int|
                    0 < j < stack@.len() implies (#[trigger] g[stack@[j - 1].0 as int]).contains(stack@[j].0) by {
                    assert(stack@[j] == st0[j]);
                    assert(stack@[j - 1] == st0[j - 1]);
                }
                assert forall|j: int|
                    0 <= j < order@.len() && order@[j] != entry implies (exists|q: int|
                        j < q < order@.len() && (#[trigger] g[order@[q] as int]).contains(order@[j])) || (exists|
                        t: int,
                    | 0 <= t < stack@.len() && (#[trigger] g[stack@[t].0 as int]).contains(order@[j])) by {
                    let l = ord0.len() as int;
                    if j == l {
                        assert(order@[j] == b);
                        assert(top != 0);
                        assert(g[st0[top - 1].0 as int].contains(st0[top as int].0));
                        assert(stack@[top - 1] == st0[top - 1]);
                    } else {
                        assert(order@[j] == ord0[j]);
                        if exists|q: int| j < q < ord0.len() && (#[trigger] g[ord0[q] as int]).contains(ord0[j]) {
                            let q = choose|q: int| j < q < ord0.len() && (#[trigger] g[ord0[q] as int]).contains(ord0[j]);
                            assert(order@[q] == ord0[q]);
                        } else {
                            let t = choose|t: int|
                                0 <= t < st0.len() && (#[trigger] g[st0[t].0 as int]).contains(ord0[j]);
                            if t == top {
                                assert(order@[l] == b);
                                assert(g[order@[l] as int].contains(order@[j]));
                            } else {
                                assert(stack@[t] == st0[t]);
                            }
                        }
                    }
                }
                if stack@.len() == 0 {
                    assert(top == 0);
                    assert(order@.last() == b);
                }
            }
        }
    }
    proof {
        assert(resume(g, stack@, visited@, order@) == order@);
        assert forall|b: usize| #[trigger] order@.contains(b) <==> reaches(g, entry, b) by {
            if order@.contains(b) {
                let q = choose|q: int| 0 <= q < order@.len() && order@[q] == b;
                assert(order@[q] < n && visited@[order@[q] as int]);
            }
            if reaches(g, entry, b) {
                let p = choose|p: Seq<usize>| is_path(g, entry, p) && p.last() == b;
                assert(!p.contains(n)) by {
                    if p.contains(n) {
                        let q = choose|q: int| 0 <= q < p.len() && p[q] == n;
                        assert(p[q] < g.len());
                    }
                }
                assert forall|y: usize, j: int|
                    y < g.len() && visited@[y as int] && 0 <= j < g[y as int].len() && g[y as int][j] != n
                        && g[y as int][j] < g.len() implies #[trigger] visited@[g[y as int][j] as int] by {
                    assert(order@.contains(y));
                    let q = choose|q: int| 0 <= q < order@.len() && order@[q] == y;
                    assert(visited@[g[order@[q] as int][j] as int]);
                }
                lemma_closed_marks_cover_paths(g, entry, n, visited@, p);
                assert(p[p.len() - 1] < g.len());
                assert(visited@[b as int]);
            }
        }
    }
    order
}

} // verus!

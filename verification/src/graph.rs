//! Reachability and cycles in directed graphs whose nodes are names. A graph maps each node to
//! the set of nodes it has an edge to.
use vstd::prelude::*;

use crate::names::{string_views, NameSet, StrMap};

verus! {

broadcast use vstd::seq_lib::group_seq_properties;

/// Whether the graph has an edge from `a` to `b`.
pub open spec fn edge(g: Map<Seq<char>, Set<Seq<char>>>, a: Seq<char>, b: Seq<char>) -> bool {
    g.contains_key(a) && g[a].contains(b)
}

/// Whether each node of `p` has an edge to the next one.
pub open spec fn is_walk(g: Map<Seq<char>, Set<Seq<char>>>, p: Seq<Seq<char>>) -> bool
    decreases p.len(),
{
    p.len() <= 1 || (edge(g, p[0], p[1]) && is_walk(g, p.drop_first()))
}

/// Whether a walk of one or more edges leads from `a` to `b`.
pub open spec fn reaches(g: Map<Seq<char>, Set<Seq<char>>>, a: Seq<char>, b: Seq<char>) -> bool {
    exists|p: Seq<Seq<char>>| p.len() >= 2 && p[0] == a && p.last() == b && #[trigger] is_walk(g, p)
}

/// Whether some node reaches itself.
pub open spec fn has_cycle_spec(g: Map<Seq<char>, Set<Seq<char>>>) -> bool {
    exists|a: Seq<char>| #[trigger] reaches(g, a, a)
}

proof fn lemma_same_edges_same_walks(g1: Map<Seq<char>, Set<Seq<char>>>, g2: Map<Seq<char>, Set<Seq<char>>>, p: Seq<Seq<char>>)
    requires
        forall|a: Seq<char>, b: Seq<char>| #[trigger] edge(g1, a, b) == edge(g2, a, b),
    ensures
        is_walk(g1, p) == is_walk(g2, p),
    decreases p.len(),
{
    if p.len() > 1 {
        lemma_same_edges_same_walks(g1, g2, p.drop_first());
        assert(edge(g1, p[0], p[1]) == edge(g2, p[0], p[1]));
    }
}

/// Two graphs with the same edges have the same cycles.
pub proof fn lemma_same_edges_same_cycles(g1: Map<Seq<char>, Set<Seq<char>>>, g2: Map<Seq<char>, Set<Seq<char>>>)
    requires
        forall|a: Seq<char>, b: Seq<char>| #[trigger] edge(g1, a, b) == edge(g2, a, b),
    ensures
        has_cycle_spec(g1) == has_cycle_spec(g2),
{
    if has_cycle_spec(g1) {
        let a = choose|a: Seq<char>| #[trigger] reaches(g1, a, a);
        let p = choose|p: Seq<Seq<char>>| p.len() >= 2 && p[0] == a && p.last() == a && #[trigger] is_walk(g1, p);
        lemma_same_edges_same_walks(g1, g2, p);
        assert(reaches(g2, a, a));
    }
    if has_cycle_spec(g2) {
        let a = choose|a: Seq<char>| #[trigger] reaches(g2, a, a);
        let p = choose|p: Seq<Seq<char>>| p.len() >= 2 && p[0] == a && p.last() == a && #[trigger] is_walk(g2, p);
        lemma_same_edges_same_walks(g1, g2, p);
        assert(reaches(g1, a, a));
    }
}

/// The graph that a map from names to name sets stands for.
pub open spec fn graph_view(g: &StrMap<NameSet>) -> Map<Seq<char>, Set<Seq<char>>> {
    Map::new(|k: Seq<char>| g@.contains_key(k), |k: Seq<char>| g@[k]@)
}

/// The map and each of its sets are well formed.
pub open spec fn graph_wf(g: &StrMap<NameSet>) -> bool {
    &&& g.wf()
    &&& forall|k: Seq<char>| #[trigger] g@.contains_key(k) ==> g@[k].wf()
}

/// Every successor of a member of `r` is a member of `r`.
pub open spec fn closed_under(g: Map<Seq<char>, Set<Seq<char>>>, r: Set<Seq<char>>) -> bool {
    forall|x: Seq<char>, y: Seq<char>| r.contains(x) && #[trigger] edge(g, x, y) ==> r.contains(y)
}

proof fn lemma_walk_push(g: Map<Seq<char>, Set<Seq<char>>>, p: Seq<Seq<char>>, b: Seq<char>)
    requires
        is_walk(g, p),
        p.len() >= 1,
        edge(g, p.last(), b),
    ensures
        is_walk(g, p.push(b)),
    decreases p.len(),
{
    let q = p.push(b);
    if p.len() == 1 {
        assert(q.drop_first() =~= seq![b]);
        assert(q[0] == p.last());
        assert(q[1] == b);
        assert(is_walk(g, q.drop_first()));
    } else {
        assert(edge(g, p[0], p[1]));
        assert(p.drop_first().last() == p.last());
        lemma_walk_push(g, p.drop_first(), b);
        assert(q.drop_first() =~= p.drop_first().push(b));
        assert(q[0] == p[0] && q[1] == p[1]);
    }
}

proof fn lemma_walk_stays(g: Map<Seq<char>, Set<Seq<char>>>, p: Seq<Seq<char>>, r: Set<Seq<char>>)
    requires
        is_walk(g, p),
        p.len() >= 1,
        r.contains(p[0]),
        closed_under(g, r),
    ensures
        r.contains(p.last()),
    decreases p.len(),
{
    if p.len() > 1 {
        assert(edge(g, p[0], p[1]));
        lemma_walk_stays(g, p.drop_first(), r);
    }
}

/// Whatever a closed set holds the successors of `a` of, it holds everything `a` reaches.
proof fn lemma_reaches_in_closed(g: Map<Seq<char>, Set<Seq<char>>>, a: Seq<char>, b: Seq<char>, r: Set<Seq<char>>)
    requires
        reaches(g, a, b),
        closed_under(g, r),
        forall|y: Seq<char>| #[trigger] edge(g, a, y) ==> r.contains(y),
    ensures
        r.contains(b),
{
    let p = choose|p: Seq<Seq<char>>| p.len() >= 2 && p[0] == a && p.last() == b && #[trigger] is_walk(g, p);
    assert(edge(g, p[0], p[1]));
    lemma_walk_stays(g, p.drop_first(), r);
}

/// A walk of one edge.
proof fn lemma_edge_reaches(g: Map<Seq<char>, Set<Seq<char>>>, a: Seq<char>, b: Seq<char>)
    requires
        edge(g, a, b),
    ensures
        reaches(g, a, b),
{
    let p = seq![a, b];
    assert(p.drop_first() =~= seq![b]);
    assert(is_walk(g, p.drop_first()));
    assert(p[0] == a && p[1] == b);
    assert(is_walk(g, p));
}

/// Extending a walk by one edge.
proof fn lemma_reaches_step(g: Map<Seq<char>, Set<Seq<char>>>, a: Seq<char>, b: Seq<char>, c: Seq<char>)
    requires
        reaches(g, a, b),
        edge(g, b, c),
    ensures
        reaches(g, a, c),
{
    let p = choose|p: Seq<Seq<char>>| p.len() >= 2 && p[0] == a && p.last() == b && #[trigger] is_walk(g, p);
    lemma_walk_push(g, p, c);
    assert(p.push(c)[0] == a);
}

/// Every node that some node has an edge to.
fn edge_targets(g: &StrMap<NameSet>) -> (r: NameSet)
    requires
        graph_wf(g),
    ensures
        r.wf(),
        forall|y: Seq<char>| r@.contains(y) <==> exists|x: Seq<char>| #[trigger] edge(graph_view(g), x, y),
{
    let ghost gv = graph_view(g);
    let mut r = NameSet::new();
    let n = g.entry_count();
    let mut i: usize = 0;
    proof {
        g.lemma_dom();
    }
    while i < n
        invariant
            graph_wf(g),
            gv == graph_view(g),
            n == g.key_seq().len(),
            i <= n,
            r.wf(),
            forall|y: Seq<char>| r@.contains(y) <==> exists|k: int| 0 <= k < i && #[trigger] edge(gv, g.key_seq()[k], y),
        decreases n - i,
    {
        let targets = g.value_at(i);
        let m = targets.len();
        let mut j: usize = 0;
        proof {
            targets.lemma_ordered();
        }
        while j < m
            invariant
                graph_wf(g),
                gv == graph_view(g),
                n == g.key_seq().len(),
                i < n,
                targets.wf(),
                g@.contains_key(g.key_seq()[i as int]),
                *targets == g@[g.key_seq()[i as int]],
                m == targets.ordered().len(),
                j <= m,
                r.wf(),
                forall|y: Seq<char>| r@.contains(y) <==> (exists|k: int| 0 <= k < i && #[trigger] edge(gv, g.key_seq()[k], y))
                    || exists|t: int| 0 <= t < j && targets.ordered()[t] == y,
            decreases m - j,
        {
            let y = targets.item_at(j).clone();
            r.insert(y);
            j = j + 1;
        }
        proof {
            targets.lemma_ordered();
            assert forall|y: Seq<char>| r@.contains(y) <==> exists|k: int| 0 <= k < i + 1 && #[trigger] edge(gv, g.key_seq()[k], y) by {
                if r@.contains(y) {
                    if exists|t: int| 0 <= t < j && targets.ordered()[t] == y {
                        let t = choose|t: int| 0 <= t < j && targets.ordered()[t] == y;
                        assert(targets@.contains(y));
                        assert(edge(gv, g.key_seq()[i as int], y));
                    } else {
                        let k = choose|k: int| 0 <= k < i && #[trigger] edge(gv, g.key_seq()[k], y);
                        assert(edge(gv, g.key_seq()[k], y));
                    }
                }
                if exists|k: int| 0 <= k < i + 1 && #[trigger] edge(gv, g.key_seq()[k], y) {
                    let k = choose|k: int| 0 <= k < i + 1 && #[trigger] edge(gv, g.key_seq()[k], y);
                    if k == i {
                        assert(targets@.contains(y));
                        assert(targets.ordered().to_set().contains(y));
                        let t = choose|t: int| 0 <= t < targets.ordered().len() && targets.ordered()[t] == y;
                    }
                }
            }
        }
        i = i + 1;
    }
    proof {
        assert forall|y: Seq<char>| r@.contains(y) <==> exists|x: Seq<char>| #[trigger] edge(graph_view(g), x, y) by {
            if exists|x: Seq<char>| #[trigger] edge(graph_view(g), x, y) {
                let x = choose|x: Seq<char>| #[trigger] edge(graph_view(g), x, y);
                assert(g.key_seq().to_set().contains(x));
                let k = choose|k: int| 0 <= k < g.key_seq().len() && g.key_seq()[k] == x;
                assert(edge(gv, g.key_seq()[k], y));
            }
        }
    }
    r
}

/// Adds every member of `s` to `r`, keeping the order of what `r` held.
fn insert_all(r: &mut NameSet, s: &NameSet)
    requires
        old(r).wf(),
        s.wf(),
    ensures
        final(r).wf(),
        final(r)@ == old(r)@.union(s@),
        final(r).ordered().len() >= old(r).ordered().len(),
        final(r).ordered().subrange(0, old(r).ordered().len() as int) == old(r).ordered(),
{
    let m = s.len();
    let mut j: usize = 0;
    proof {
        s.lemma_ordered();
    }
    while j < m
        invariant
            s.wf(),
            m == s.ordered().len(),
            j <= m,
            r.wf(),
            r@ == old(r)@.union(s.ordered().take(j as int).to_set()),
            r.ordered().len() >= old(r).ordered().len(),
            r.ordered().subrange(0, old(r).ordered().len() as int) == old(r).ordered(),
        decreases m - j,
    {
        let y = s.item_at(j).clone();
        let ghost before = r.ordered();
        r.insert(y);
        assert(r.ordered().subrange(0, old(r).ordered().len() as int) =~= before.subrange(0, old(r).ordered().len() as int));
        assert(s.ordered().take(j + 1) =~= s.ordered().take(j as int).push(y@));
        assert(r@ =~= old(r)@.union(s.ordered().take(j + 1).to_set()));
        j = j + 1;
    }
    proof {
        s.lemma_ordered();
        assert(s.ordered().take(j as int) =~= s.ordered());
    }
}

/// Every node reachable from `start` by one or more edges.
pub fn reachable_from(g: &StrMap<NameSet>, start: &str) -> (r: NameSet)
    requires
        graph_wf(g),
    ensures
        r.wf(),
        forall|x: Seq<char>| r@.contains(x) <==> reaches(graph_view(g), start@, x),
{
    let ghost gv = graph_view(g);
    let all = edge_targets(g);
    let mut r = NameSet::new();
    match g.get(start) {
        Some(succ) => {
            insert_all(&mut r, succ);
        },
        None => {},
    }
    proof {
        assert forall|x: Seq<char>| r@.contains(x) implies reaches(gv, start@, x) && all@.contains(x) by {
            assert(edge(gv, start@, x));
            lemma_edge_reaches(gv, start@, x);
        }
        assert forall|y: Seq<char>| #[trigger] edge(gv, start@, y) implies r@.contains(y) by {}
    }
    let mut idx: usize = 0;
    proof {
        r.lemma_ordered();
        all.lemma_ordered();
    }
    while idx < r.len()
        invariant
            graph_wf(g),
            gv == graph_view(g),
            all.wf(),
            forall|y: Seq<char>| all@.contains(y) <==> exists|x: Seq<char>| #[trigger] edge(gv, x, y),
            r.wf(),
            idx <= r.ordered().len(),
            r@.subset_of(all@),
            forall|x: Seq<char>| r@.contains(x) ==> reaches(gv, start@, x),
            forall|y: Seq<char>| #[trigger] edge(gv, start@, y) ==> r@.contains(y),
            forall|k: int, y: Seq<char>| 0 <= k < idx && #[trigger] edge(gv, r.ordered()[k], y) ==> r@.contains(y),
        decreases all@.len() - r@.len(), r.ordered().len() - idx,
    {
        proof {
            r.lemma_ordered();
            all.lemma_ordered();
            vstd::set_lib::lemma_len_subset(r@, all@);
        }
        let w = r.item_at(idx).clone();
        let ghost before = r.ordered();
        let ghost before_set = r@;
        match g.get(w.as_str()) {
            Some(succ) => {
                insert_all(&mut r, succ);
                proof {
                    assert forall|x: Seq<char>| r@.contains(x) implies reaches(gv, start@, x) && all@.contains(x) by {
                        if !before_set.contains(x) {
                            assert(edge(gv, w@, x));
                            assert(before.contains(w@)) by {
                                assert(before[idx as int] == w@);
                            }
                            lemma_reaches_step(gv, start@, w@, x);
                        }
                    }
                    assert forall|k: int, y: Seq<char>| 0 <= k < idx + 1 && #[trigger] edge(gv, r.ordered()[k], y) implies r@.contains(y) by {
                        assert(r.ordered()[k] == before[k]);
                        if k == idx {
                            assert(before[k] == w@);
                        }
                    }
                }
            },
            None => {
                proof {
                    assert forall|k: int, y: Seq<char>| 0 <= k < idx + 1 && #[trigger] edge(gv, r.ordered()[k], y) implies r@.contains(y) by {
                        if k == idx {
                            assert(r.ordered()[k] == w@);
                        }
                    }
                }
            },
        }
        proof {
            r.lemma_ordered();
            vstd::set_lib::lemma_len_subset(r@, all@);
            if r@.len() == before_set.len() {
                assert(r.ordered().len() == before.len());
            } else {
                vstd::set_lib::lemma_len_subset(before_set, r@);
            }
        }
        idx = idx + 1;
    }
    proof {
        r.lemma_ordered();
        assert(closed_under(gv, r@)) by {
            assert forall|x: Seq<char>, y: Seq<char>| r@.contains(x) && #[trigger] edge(gv, x, y) implies r@.contains(y) by {
                assert(r.ordered().to_set().contains(x));
                let k = choose|k: int| 0 <= k < r.ordered().len() && r.ordered()[k] == x;
                assert(edge(gv, r.ordered()[k], y));
            }
        }
        assert forall|x: Seq<char>| reaches(gv, start@, x) implies r@.contains(x) by {
            lemma_reaches_in_closed(gv, start@, x, r@);
        }
    }
    r
}

/// Whether some node reaches itself by one or more edges.
pub fn graph_has_cycle(g: &StrMap<NameSet>) -> (r: bool)
    requires
        graph_wf(g),
    ensures
        r == has_cycle_spec(graph_view(g)),
{
    let ghost gv = graph_view(g);
    let n = g.entry_count();
    let mut i: usize = 0;
    while i < n
        invariant
            graph_wf(g),
            gv == graph_view(g),
            n == g.key_seq().len(),
            i <= n,
            forall|k: int| 0 <= k < i ==> !reaches(gv, #[trigger] g.key_seq()[k], g.key_seq()[k]),
        decreases n - i,
    {
        let v = g.key_at(i);
        let reach = reachable_from(g, v.as_str());
        if reach.contains(v.as_str()) {
            assert(reaches(gv, g.key_seq()[i as int], g.key_seq()[i as int]));
            return true;
        }
        i = i + 1;
    }
    proof {
        g.lemma_dom();
        assert forall|a: Seq<char>| !#[trigger] reaches(gv, a, a) by {
            if reaches(gv, a, a) {
                let p = choose|p: Seq<Seq<char>>| p.len() >= 2 && p[0] == a && p.last() == a && #[trigger] is_walk(gv, p);
                assert(edge(gv, p[0], p[1]));
                assert(g.key_seq().to_set().contains(a));
                let k = choose|k: int| 0 <= k < g.key_seq().len() && g.key_seq()[k] == a;
                assert(!reaches(gv, g.key_seq()[k], g.key_seq()[k]));
            }
        }
    }
    false
}

/// `order` lists distinct nodes of the graph, and each node's edges lead to nodes listed
/// before it.
pub open spec fn topological_order(g: Map<Seq<char>, Set<Seq<char>>>, order: Seq<Seq<char>>) -> bool {
    &&& order.no_duplicates()
    &&& forall|i: int| 0 <= i < order.len() ==> g.contains_key(#[trigger] order[i])
    &&& forall|i: int, d: Seq<char>| 0 <= i < order.len() && #[trigger] edge(g, order[i], d)
        ==> exists|j: int| 0 <= j < i && order[j] == d
}

/// Every member of `r` has an edge to a member of `r`.
pub open spec fn stuck_set(g: Map<Seq<char>, Set<Seq<char>>>, r: Set<Seq<char>>) -> bool {
    forall|x: Seq<char>| r.contains(x) ==> exists|y: Seq<char>| r.contains(y) && #[trigger] edge(g, x, y)
}

proof fn lemma_walk_subrange(g: Map<Seq<char>, Set<Seq<char>>>, p: Seq<Seq<char>>, i: int, j: int)
    requires
        is_walk(g, p),
        0 <= i <= j <= p.len(),
    ensures
        is_walk(g, p.subrange(i, j)),
    decreases p.len(),
{
    if i > 0 {
        lemma_walk_subrange(g, p.drop_first(), i - 1, j - 1);
        assert(p.drop_first().subrange(i - 1, j - 1) =~= p.subrange(i, j));
    } else if j - i >= 2 {
        let q = p.subrange(0, j);
        assert(q[0] == p[0] && q[1] == p[1]);
        assert(edge(g, p[0], p[1]));
        lemma_walk_subrange(g, p.drop_first(), 0, j - 1);
        assert(p.drop_first().subrange(0, j - 1) =~= q.drop_first());
    }
}

proof fn lemma_build_walk(g: Map<Seq<char>, Set<Seq<char>>>, r: Set<Seq<char>>, start: Seq<char>, n: nat) -> (w: Seq<Seq<char>>)
    requires
        stuck_set(g, r),
        r.contains(start),
        n >= 1,
    ensures
        w.len() == n,
        w[0] == start,
        is_walk(g, w),
        forall|k: int| 0 <= k < w.len() ==> r.contains(#[trigger] w[k]),
    decreases n,
{
    if n == 1 {
        seq![start]
    } else {
        let next = choose|y: Seq<char>| r.contains(y) && #[trigger] edge(g, start, y);
        let rest = lemma_build_walk(g, r, next, (n - 1) as nat);
        let w = seq![start] + rest;
        assert(w.drop_first() =~= rest);
        assert(w[1] == rest[0]);
        assert forall|k: int| 0 <= k < w.len() implies r.contains(#[trigger] w[k]) by {
            if k > 0 {
                assert(w[k] == rest[k - 1]);
            }
        }
        w
    }
}

/// A non-empty finite set from which every member has an edge back into the set holds a
/// cycle.
pub proof fn lemma_stuck_set_has_cycle(g: Map<Seq<char>, Set<Seq<char>>>, r: Set<Seq<char>>)
    requires
        r.finite(),
        r.len() > 0,
        stuck_set(g, r),
    ensures
        has_cycle_spec(g),
{
    let start = r.choose();
    let w = lemma_build_walk(g, r, start, r.len() + 1);
    if w.no_duplicates() {
        w.unique_seq_to_set();
        assert(w.to_set().subset_of(r)) by {
            assert forall|x: Seq<char>| w.to_set().contains(x) implies r.contains(x) by {
                let k = choose|k: int| 0 <= k < w.len() && w[k] == x;
                assert(r.contains(w[k]));
            }
        }
        vstd::set_lib::lemma_len_subset(w.to_set(), r);
        assert(false);
    }
    let (i, j) = choose|i: int, j: int| 0 <= i < w.len() && 0 <= j < w.len() && i != j && w[i] == w[j];
    let (a, b) = if i < j { (i, j) } else { (j, i) };
    lemma_walk_subrange(g, w, a, b + 1);
    let c = w.subrange(a, b + 1);
    assert(c.len() >= 2 && c[0] == w[a] && c.last() == w[b]);
    assert(reaches(g, w[a], w[a]));
}

proof fn lemma_order_position(order: Seq<Seq<char>>, i: int, j: int)
    requires
        order.no_duplicates(),
        0 <= i < order.len(),
        0 <= j < order.len(),
        order[i] == order[j],
    ensures
        i == j,
{
}

proof fn lemma_walk_descends(g: Map<Seq<char>, Set<Seq<char>>>, order: Seq<Seq<char>>, p: Seq<Seq<char>>, i0: int)
    requires
        topological_order(g, order),
        is_walk(g, p),
        p.len() >= 2,
        0 <= i0 < order.len(),
        order[i0] == p[0],
    ensures
        exists|j: int| 0 <= j < i0 && order[j] == p.last(),
    decreases p.len(),
{
    assert(edge(g, p[0], p[1]));
    let j1 = choose|j: int| 0 <= j < i0 && order[j] == p[1];
    if p.len() > 2 {
        lemma_walk_descends(g, order, p.drop_first(), j1);
        let j2 = choose|j: int| 0 <= j < j1 && order[j] == p.drop_first().last();
        assert(p.drop_first().last() == p.last());
    } else {
        assert(p.last() == p[1]);
    }
}

/// A graph whose nodes all appear in a topological order has no cycle.
pub proof fn lemma_order_excludes_cycle(g: Map<Seq<char>, Set<Seq<char>>>, order: Seq<Seq<char>>)
    requires
        topological_order(g, order),
        forall|k: Seq<char>| g.contains_key(k) ==> order.contains(k),
    ensures
        !has_cycle_spec(g),
{
    if has_cycle_spec(g) {
        let a = choose|a: Seq<char>| #[trigger] reaches(g, a, a);
        let p = choose|p: Seq<Seq<char>>| p.len() >= 2 && p[0] == a && p.last() == a && #[trigger] is_walk(g, p);
        assert(edge(g, p[0], p[1]));
        assert(order.contains(a));
        let i0 = choose|i: int| 0 <= i < order.len() && order[i] == a;
        lemma_walk_descends(g, order, p, i0);
        let j = choose|j: int| 0 <= j < i0 && order[j] == p.last();
        lemma_order_position(order, i0, j);
    }
}

/// Whether every member of `s` is in `done`.
fn all_in(s: &NameSet, done: &NameSet) -> (r: bool)
    requires
        s.wf(),
        done.wf(),
    ensures
        r == s@.subset_of(done@),
{
    let n = s.len();
    let mut i: usize = 0;
    proof {
        s.lemma_ordered();
    }
    while i < n
        invariant
            s.wf(),
            done.wf(),
            n == s.ordered().len(),
            i <= n,
            forall|k: int| 0 <= k < i ==> done@.contains(#[trigger] s.ordered()[k]),
        decreases n - i,
    {
        if !done.contains(s.item_at(i).as_str()) {
            proof {
                s.lemma_ordered();
                assert(s@.contains(s.ordered()[i as int]));
            }
            return false;
        }
        i = i + 1;
    }
    proof {
        s.lemma_ordered();
        assert forall|x: Seq<char>| s@.contains(x) implies done@.contains(x) by {
            assert(s.ordered().to_set().contains(x));
            let k = choose|k: int| 0 <= k < s.ordered().len() && s.ordered()[k] == x;
            assert(done@.contains(s.ordered()[k]));
        }
    }
    true
}

/// Orders as many nodes as possible so that each comes after the nodes it has edges to; the
/// nodes left over are those that cannot be ordered so. Every edge must lead to a node of the
/// graph.
pub fn topological_order_of(g: &StrMap<NameSet>) -> (r: (Vec<String>, Vec<String>))
    requires
        graph_wf(g),
        forall|x: Seq<char>, y: Seq<char>| #[trigger] edge(graph_view(g), x, y) ==> graph_view(g).contains_key(y),
    ensures
        topological_order(graph_view(g), string_views(r.0@)),
        string_views(r.1@).no_duplicates(),
        forall|k: Seq<char>| graph_view(g).contains_key(k) <==> string_views(r.0@).contains(k) || string_views(r.1@).contains(k),
        forall|k: Seq<char>| !(string_views(r.0@).contains(k) && string_views(r.1@).contains(k)),
        stuck_set(graph_view(g), string_views(r.1@).to_set()),
{
    let ghost gv = graph_view(g);
    let keys = g.keys();
    let n = keys.len();
    let mut done = NameSet::new();
    let mut order: Vec<String> = Vec::new();
    let mut progress = true;
    proof {
        g.lemma_dom();
        assert(string_views(keys@).len() == keys@.len());
        string_views(keys@).unique_seq_to_set();
    }
    while progress
        invariant
            graph_wf(g),
            gv == graph_view(g),
            forall|x: Seq<char>, y: Seq<char>| #[trigger] edge(gv, x, y) ==> gv.contains_key(y),
            string_views(keys@).to_set() == gv.dom(),
            string_views(keys@).no_duplicates(),
            n == keys@.len(),
            done.wf(),
            done@ == string_views(order@).to_set(),
            topological_order(gv, string_views(order@)),
            order@.len() <= n,
            !progress ==> forall|i: int| 0 <= i < n ==> done@.contains(#[trigger] string_views(keys@)[i])
                || !gv[string_views(keys@)[i]].subset_of(done@),
        decreases n - order@.len(), if progress { 1int } else { 0int },
    {
        let ghost start_len = order@.len();
        progress = false;
        let mut i: usize = 0;
        while i < n
            invariant
                graph_wf(g),
                gv == graph_view(g),
                forall|x: Seq<char>, y: Seq<char>| #[trigger] edge(gv, x, y) ==> gv.contains_key(y),
                string_views(keys@).to_set() == gv.dom(),
                string_views(keys@).no_duplicates(),
                n == keys@.len(),
                i <= n,
                done.wf(),
                done@ == string_views(order@).to_set(),
                topological_order(gv, string_views(order@)),
                order@.len() >= start_len,
                order@.len() <= n,
                progress <==> order@.len() > start_len,
                !progress ==> forall|j: int| 0 <= j < i ==> done@.contains(#[trigger] string_views(keys@)[j])
                    || !gv[string_views(keys@)[j]].subset_of(done@),
            decreases n - i,
        {
            let k = &keys[i];
            assert(string_views(keys@)[i as int] == k@);
            assert(gv.contains_key(k@)) by {
                assert(string_views(keys@).to_set().contains(k@));
            }
            if !done.contains(k.as_str()) {
                let targets = match g.get(k.as_str()) {
                    Some(t) => t,
                    None => {
                        assert(false);
                        return (order, Vec::new());
                    },
                };
                if all_in(targets, &done) {
                    let ghost before = string_views(order@);
                    order.push(k.clone());
                    done.insert(k.clone());
                    proof {
                        let after = string_views(order@);
                        assert(after =~= before.push(k@));
                        assert(!before.contains(k@)) by {
                            assert(!before.to_set().contains(k@));
                        }
                        assert(after.no_duplicates()) by {
                            assert forall|a: int, b: int| 0 <= a < b < after.len() implies after[a] != after[b] by {
                                if b == before.len() {
                                    assert(before.contains(after[a]));
                                }
                            }
                        }
                        assert(done@ =~= after.to_set()) by {
                            assert forall|x: Seq<char>| done@.contains(x) <==> after.to_set().contains(x) by {
                                if after.to_set().contains(x) {
                                    let m = choose|m: int| 0 <= m < after.len() && after[m] == x;
                                    if m < before.len() {
                                        assert(before[m] == x);
                                        assert(before.to_set().contains(x));
                                    }
                                }
                                if done@.contains(x) && x != k@ {
                                    assert(before.to_set().contains(x));
                                    let m = choose|m: int| 0 <= m < before.len() && before[m] == x;
                                    assert(after[m] == x);
                                }
                                if x == k@ {
                                    assert(after[before.len() as int] == x);
                                }
                            }
                        }
                        assert forall|a: int, d: Seq<char>| 0 <= a < after.len() && #[trigger] edge(gv, after[a], d)
                            implies exists|b: int| 0 <= b < a && after[b] == d by {
                            if a == before.len() {
                                assert(targets@.contains(d));
                                assert(before.to_set().contains(d));
                                let b = choose|b: int| 0 <= b < before.len() && before[b] == d;
                                assert(after[b] == d);
                            } else {
                                assert(after[a] == before[a]);
                                let b = choose|b: int| 0 <= b < a && before[b] == d;
                                assert(after[b] == d);
                            }
                        }
                        assert forall|a: int| 0 <= a < after.len() implies gv.contains_key(#[trigger] after[a]) by {
                            if a < before.len() {
                                assert(after[a] == before[a]);
                            }
                        }
                        assert(after.to_set().subset_of(string_views(keys@).to_set()));
                        assert(string_views(keys@).len() == n);
                        string_views(keys@).unique_seq_to_set();
                        after.unique_seq_to_set();
                        vstd::set_lib::lemma_len_subset(after.to_set(), string_views(keys@).to_set());
                    }
                    progress = true;
                }
            }
            i = i + 1;
        }
    }
    let mut stuck: Vec<String> = Vec::new();
    let mut i: usize = 0;
    while i < n
        invariant
            graph_wf(g),
            gv == graph_view(g),
            string_views(keys@).to_set() == gv.dom(),
            string_views(keys@).no_duplicates(),
            n == keys@.len(),
            i <= n,
            done.wf(),
            done@ == string_views(order@).to_set(),
            string_views(stuck@).no_duplicates(),
            string_views(keys@).len() == n,
            forall|x: Seq<char>| #[trigger] string_views(stuck@).contains(x) <==> (exists|j: int| 0 <= j < i
                && #[trigger] string_views(keys@)[j] == x) && !done@.contains(x),
        decreases n - i,
    {
        let ghost before = string_views(stuck@);
        let ghost ks = string_views(keys@);
        assert(ks[i as int] == keys@[i as int]@);
        if !done.contains(keys[i].as_str()) {
            stuck.push(keys[i].clone());
            proof {
                let after = string_views(stuck@);
                assert(after =~= before.push(ks[i as int]));
                assert(!before.contains(ks[i as int])) by {
                    if before.contains(ks[i as int]) {
                        let j = choose|j: int| 0 <= j < i && #[trigger] ks[j] == ks[i as int];
                    }
                }
                assert(after.no_duplicates()) by {
                    assert forall|a: int, b: int| 0 <= a < b < after.len() implies after[a] != after[b] by {
                        if b == before.len() {
                            assert(before.contains(after[a]));
                        }
                    }
                }
                assert forall|x: Seq<char>| #[trigger] after.contains(x) <==> (exists|j: int| 0 <= j < i + 1
                    && #[trigger] ks[j] == x) && !done@.contains(x) by {
                    if after.contains(x) {
                        if x == ks[i as int] {
                            assert(ks[i as int] == x);
                        } else {
                            let m = choose|m: int| 0 <= m < after.len() && after[m] == x;
                            assert(before[m] == x);
                            assert(before.contains(x));
                            let j = choose|j: int| 0 <= j < i && #[trigger] ks[j] == x;
                            assert(ks[j] == x);
                        }
                    }
                    if (exists|j: int| 0 <= j < i + 1 && #[trigger] ks[j] == x) && !done@.contains(x) {
                        let j = choose|j: int| 0 <= j < i + 1 && #[trigger] ks[j] == x;
                        if j == i as int {
                            assert(after[before.len() as int] == x);
                        } else {
                            assert(ks[j] == x);
                            assert(before.contains(x));
                            let m = choose|m: int| 0 <= m < before.len() && before[m] == x;
                            assert(after[m] == x);
                        }
                    }
                }
            }
        } else {
            proof {
                assert forall|x: Seq<char>| #[trigger] before.contains(x) <==> (exists|j: int| 0 <= j < i + 1
                    && #[trigger] ks[j] == x) && !done@.contains(x) by {
                    if (exists|j: int| 0 <= j < i + 1 && #[trigger] ks[j] == x) && !done@.contains(x) {
                        let j = choose|j: int| 0 <= j < i + 1 && #[trigger] ks[j] == x;
                        assert(j < i);
                    }
                }
            }
        }
        i = i + 1;
    }
    proof {
        let ks = string_views(keys@);
        let sv = string_views(stuck@);
        let ov = string_views(order@);
        assert forall|k: Seq<char>| gv.contains_key(k) <==> ov.contains(k) || sv.contains(k) by {
            if gv.contains_key(k) {
                assert(ks.to_set().contains(k));
                let j = choose|j: int| 0 <= j < ks.len() && ks[j] == k;
                if !done@.contains(k) {
                    assert(ks[j] == k);
                    assert(sv.contains(k));
                } else {
                    assert(ov.to_set().contains(k));
                }
            }
            if ov.contains(k) {
                let m = choose|m: int| 0 <= m < ov.len() && ov[m] == k;
                assert(gv.contains_key(ov[m]));
            }
            if sv.contains(k) {
                assert(ks.len() == n);
                let j = choose|j: int| 0 <= j < i && #[trigger] ks[j] == k;
                assert(ks[j] == k);
                assert(ks.contains(k));
                assert(ks.to_set().contains(k));
            }
        }
        assert forall|k: Seq<char>| !(ov.contains(k) && sv.contains(k)) by {
            if ov.contains(k) {
                assert(ov.to_set().contains(k));
            }
        }
        assert forall|x: Seq<char>| sv.to_set().contains(x) implies exists|y: Seq<char>| sv.to_set().contains(y) && #[trigger] edge(gv, x, y) by {
            assert(sv.contains(x));
            let j = choose|j: int| 0 <= j < n && #[trigger] ks[j] == x;
            assert(!done@.contains(ks[j]));
            assert(!gv[ks[j]].subset_of(done@));
            let y = choose|y: Seq<char>| gv[x].contains(y) && !done@.contains(y);
            assert(edge(gv, x, y));
            assert(gv.contains_key(y));
            assert(ks.to_set().contains(y));
            let jy = choose|jy: int| 0 <= jy < ks.len() && ks[jy] == y;
            assert(ks[jy] == y);
            assert(sv.contains(y));
        }
    }
    (order, stuck)
}

} // verus!

//! Undirected graphs given as a sequence of edges: walks, connectivity, and
//! what one more edge does to them.

use vstd::prelude::*;
use vstd::seq_lib::lemma_seq_contains_after_push;

verus! {

/// Some edge of `edges` joins `a` and `b`, in either direction.
pub open spec fn adjacent<T>(edges: Seq<(T, T)>, a: T, b: T) -> bool {
    edges.contains((a, b)) || edges.contains((b, a))
}

/// The `i`-th node of `path` is adjacent to the next one.
pub open spec fn step_ok<T>(edges: Seq<(T, T)>, path: Seq<T>, i: int) -> bool {
    adjacent(edges, path[i], path[i + 1])
}

/// `path` is a walk: it has a node, and each node is adjacent to the next.
pub open spec fn is_walk<T>(edges: Seq<(T, T)>, path: Seq<T>) -> bool {
    &&& path.len() >= 1
    &&& forall|i: int| 0 <= i < path.len() - 1 ==> #[trigger] step_ok(edges, path, i)
}

/// `path` is a walk that starts at `a` and ends at `b`.
pub open spec fn walk_between<T>(edges: Seq<(T, T)>, path: Seq<T>, a: T, b: T) -> bool {
    is_walk(edges, path) && path[0] == a && path.last() == b
}

/// `a` and `b` are joined by a walk. Every node is connected to itself.
pub open spec fn connected<T>(edges: Seq<(T, T)>, a: T, b: T) -> bool {
    exists|path: Seq<T>| #[trigger] walk_between(edges, path, a, b)
}

/// Without its `i`-th edge the graph no longer joins that edge's two ends.
pub open spec fn is_bridge<T>(edges: Seq<(T, T)>, i: int) -> bool {
    !connected(edges.remove(i), edges[i].0, edges[i].1)
}

/// The graph is a forest: every edge is a bridge. This rules out loops at a
/// node and an edge that occurs twice as well as longer cycles.
pub open spec fn acyclic<T>(edges: Seq<(T, T)>) -> bool {
    forall|i: int| 0 <= i < edges.len() ==> #[trigger] is_bridge(edges, i)
}

/// What connectivity becomes once an edge between `p` and `q` is added.
pub open spec fn joined_via<T>(edges: Seq<(T, T)>, p: T, q: T, a: T, b: T) -> bool {
    ||| connected(edges, a, b)
    ||| (connected(edges, a, p) && connected(edges, q, b))
    ||| (connected(edges, a, q) && connected(edges, p, b))
}

/// Every edge of `small` is an edge of `big`.
pub open spec fn subgraph<T>(small: Seq<(T, T)>, big: Seq<(T, T)>) -> bool {
    forall|i: int| 0 <= i < small.len() ==> big.contains(#[trigger] small[i])
}

/// Every node is connected to itself.
pub proof fn lemma_connected_refl<T>(edges: Seq<(T, T)>, a: T)
    ensures
        connected(edges, a, a),
{
    assert(walk_between(edges, seq![a], a, a));
}

/// The two ends of an edge are connected.
pub proof fn lemma_connected_step<T>(edges: Seq<(T, T)>, a: T, b: T)
    requires
        adjacent(edges, a, b),
    ensures
        connected(edges, a, b),
{
    let path = seq![a, b];
    assert forall|i: int| 0 <= i < path.len() - 1 implies #[trigger] step_ok(edges, path, i) by {
        assert(path[0] == a && path[1] == b);
    }
    assert(walk_between(edges, path, a, b));
}

/// A walk can be gone backwards.
pub proof fn lemma_connected_sym<T>(edges: Seq<(T, T)>, a: T, b: T)
    requires
        connected(edges, a, b),
    ensures
        connected(edges, b, a),
{
    let path = choose|path: Seq<T>| #[trigger] walk_between(edges, path, a, b);
    let n = path.len() as int;
    let back = Seq::new(path.len(), |i: int| path[n - 1 - i]);
    assert forall|i: int| 0 <= i < back.len() - 1 implies #[trigger] step_ok(edges, back, i) by {
        assert(step_ok(edges, path, n - 2 - i));
    }
    assert(walk_between(edges, back, b, a));
}

/// A walk to `b` and a walk from `b` make one walk.
pub proof fn lemma_connected_trans<T>(edges: Seq<(T, T)>, a: T, b: T, c: T)
    requires
        connected(edges, a, b),
        connected(edges, b, c),
    ensures
        connected(edges, a, c),
{
    let first = choose|path: Seq<T>| #[trigger] walk_between(edges, path, a, b);
    let second = choose|path: Seq<T>| #[trigger] walk_between(edges, path, b, c);
    let n = first.len() as int;
    let whole = first + second.drop_first();
    assert forall|i: int| 0 <= i < whole.len() - 1 implies #[trigger] step_ok(edges, whole, i) by {
        if i < n - 1 {
            assert(step_ok(edges, first, i));
        } else {
            assert(step_ok(edges, second, i - n + 1));
        }
    }
    assert(walk_between(edges, whole, a, c));
}

/// What a graph connects, every graph with the same edges and more connects.
pub proof fn lemma_connected_mono<T>(small: Seq<(T, T)>, big: Seq<(T, T)>, a: T, b: T)
    requires
        subgraph(small, big),
        connected(small, a, b),
    ensures
        connected(big, a, b),
{
    let path = choose|path: Seq<T>| #[trigger] walk_between(small, path, a, b);
    assert forall|i: int| 0 <= i < path.len() - 1 implies #[trigger] step_ok(big, path, i) by {
        assert(step_ok(small, path, i));
        lemma_adjacent_mono(small, big, path[i], path[i + 1]);
    }
    assert(walk_between(big, path, a, b));
}

/// What is adjacent in a graph is adjacent in every graph with more edges.
pub proof fn lemma_adjacent_mono<T>(small: Seq<(T, T)>, big: Seq<(T, T)>, a: T, b: T)
    requires
        subgraph(small, big),
        adjacent(small, a, b),
    ensures
        adjacent(big, a, b),
{
    if small.contains((a, b)) {
        let i = choose|i: int| 0 <= i < small.len() && small[i] == (a, b);
        assert(big.contains(small[i]));
    } else {
        let i = choose|i: int| 0 <= i < small.len() && small[i] == (b, a);
        assert(big.contains(small[i]));
    }
}

/// A node that no edge touches is connected to itself only.
pub proof fn lemma_untouched_alone<T>(edges: Seq<(T, T)>, a: T, b: T)
    requires
        forall|i: int| 0 <= i < edges.len() ==> (#[trigger] edges[i]).0 != a && edges[i].1 != a,
        connected(edges, a, b),
    ensures
        a == b,
{
    let path = choose|path: Seq<T>| #[trigger] walk_between(edges, path, a, b);
    if path.len() > 1 {
        assert(step_ok(edges, path, 0));
        if edges.contains((a, path[1])) {
            let i = choose|i: int| 0 <= i < edges.len() && edges[i] == (a, path[1]);
            assert(edges[i].0 == a);
        } else {
            let i = choose|i: int| 0 <= i < edges.len() && edges[i] == (path[1], a);
            assert(edges[i].1 == a);
        }
    }
}

/// Dropping an edge leaves a subgraph, and so does adding one.
pub proof fn lemma_subgraph_basics<T>(edges: Seq<(T, T)>, i: int, e: (T, T))
    ensures
        subgraph(edges, edges.push(e)),
        0 <= i < edges.len() ==> subgraph(edges.remove(i), edges),
{
    assert forall|j: int| 0 <= j < edges.len() implies edges.push(e).contains(
        #[trigger] edges[j],
    ) by {
        assert(edges.push(e)[j] == edges[j]);
    }
    if 0 <= i < edges.len() {
        let less = edges.remove(i);
        assert forall|j: int| 0 <= j < less.len() implies edges.contains(#[trigger] less[j]) by {
            if j < i {
                assert(edges[j] == less[j]);
            } else {
                assert(edges[j + 1] == less[j]);
            }
        }
    }
}

proof fn lemma_adjacent_push<T>(edges: Seq<(T, T)>, p: T, q: T, a: T, b: T)
    ensures
        adjacent(edges.push((p, q)), a, b) <==> adjacent(edges, a, b) || (a == p && b == q) || (a
            == q && b == p),
{
    lemma_seq_contains_after_push(edges, (p, q), (a, b));
    lemma_seq_contains_after_push(edges, (p, q), (b, a));
}

proof fn lemma_walk_push<T>(edges: Seq<(T, T)>, p: T, q: T, path: Seq<T>)
    requires
        is_walk(edges.push((p, q)), path),
    ensures
        joined_via(edges, p, q, path[0], path.last()),
    decreases path.len(),
{
    let more = edges.push((p, q));
    let a = path[0];
    let b = path.last();
    if path.len() == 1 {
        lemma_connected_refl(edges, a);
    } else {
        let rest = path.drop_first();
        let x = rest[0];
        assert forall|i: int| 0 <= i < rest.len() - 1 implies #[trigger] step_ok(more, rest, i) by {
            assert(step_ok(more, path, i + 1));
        }
        lemma_walk_push(edges, p, q, rest);
        assert(rest.last() == b);
        assert(step_ok(more, path, 0));
        lemma_adjacent_push(edges, p, q, a, x);
        lemma_connected_refl(edges, a);
        if adjacent(edges, a, x) {
            lemma_connected_step(edges, a, x);
            if connected(edges, x, b) {
                lemma_connected_trans(edges, a, x, b);
            } else if connected(edges, x, p) && connected(edges, q, b) {
                lemma_connected_trans(edges, a, x, p);
            } else {
                lemma_connected_trans(edges, a, x, q);
            }
        }
    }
}

/// With an edge between `p` and `q` added, two nodes are connected exactly
/// when they were before, or when one reached `p` and the other `q`.
pub proof fn lemma_connected_push<T>(edges: Seq<(T, T)>, p: T, q: T, a: T, b: T)
    ensures
        connected(edges.push((p, q)), a, b) <==> joined_via(edges, p, q, a, b),
{
    let more = edges.push((p, q));
    if connected(more, a, b) {
        let path = choose|path: Seq<T>| #[trigger] walk_between(more, path, a, b);
        lemma_walk_push(edges, p, q, path);
    }
    if joined_via(edges, p, q, a, b) {
        lemma_subgraph_basics(edges, 0, (p, q));
        lemma_adjacent_push(edges, p, q, p, q);
        lemma_connected_step(more, p, q);
        if connected(edges, a, b) {
            lemma_connected_mono(edges, more, a, b);
        } else if connected(edges, a, p) && connected(edges, q, b) {
            lemma_connected_mono(edges, more, a, p);
            lemma_connected_mono(edges, more, q, b);
            lemma_connected_trans(more, a, p, q);
            lemma_connected_trans(more, a, q, b);
        } else {
            lemma_connected_mono(edges, more, a, q);
            lemma_connected_mono(edges, more, p, b);
            lemma_connected_sym(more, p, q);
            lemma_connected_trans(more, a, q, p);
            lemma_connected_trans(more, a, p, b);
        }
    }
}

/// In a forest no edge occurs twice.
pub proof fn lemma_acyclic_no_duplicates<T>(edges: Seq<(T, T)>)
    requires
        acyclic(edges),
    ensures
        edges.no_duplicates(),
{
    assert forall|i: int, j: int|
        0 <= i < edges.len() && 0 <= j < edges.len() && i != j implies edges[i] != edges[j] by {
        if edges[i] == edges[j] {
            let less = edges.remove(i);
            let at = if j < i {
                j
            } else {
                j - 1
            };
            assert(less[at] == edges[j]);
            assert(less.contains((edges[i].0, edges[i].1)));
            lemma_connected_step(less, edges[i].0, edges[i].1);
            assert(is_bridge(edges, i));
        }
    }
}

/// A forest stays a forest when an edge joins two of its trees.
pub proof fn lemma_acyclic_push<T>(edges: Seq<(T, T)>, p: T, q: T)
    requires
        acyclic(edges),
        !connected(edges, p, q),
    ensures
        acyclic(edges.push((p, q))),
{
    let more = edges.push((p, q));
    assert forall|i: int| 0 <= i < more.len() implies #[trigger] is_bridge(more, i) by {
        if i == edges.len() {
            assert(more.remove(i) =~= edges);
        } else {
            let less = edges.remove(i);
            let u = edges[i].0;
            let v = edges[i].1;
            assert(more.remove(i) =~= less.push((p, q)));
            assert(is_bridge(edges, i));
            if connected(less.push((p, q)), u, v) {
                lemma_connected_push(less, p, q, u, v);
                lemma_subgraph_basics(edges, i, (p, q));
                assert(edges.contains((u, v)));
                lemma_connected_step(edges, u, v);
                if connected(less, u, p) && connected(less, q, v) {
                    lemma_connected_mono(less, edges, u, p);
                    lemma_connected_mono(less, edges, q, v);
                    lemma_connected_sym(edges, u, p);
                    lemma_connected_trans(edges, p, u, v);
                    lemma_connected_sym(edges, q, v);
                    lemma_connected_trans(edges, p, v, q);
                } else {
                    lemma_connected_mono(less, edges, u, q);
                    lemma_connected_mono(less, edges, p, v);
                    lemma_connected_sym(edges, u, v);
                    lemma_connected_trans(edges, p, v, u);
                    lemma_connected_trans(edges, p, u, q);
                }
                assert(false);
            }
        }
    }
}

} // verus!

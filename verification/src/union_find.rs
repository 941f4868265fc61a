//! A disjoint-set forest over the nodes `0..size`.
//!
//! The view of a forest is its root map: the sequence that gives, for each
//! node, the representative of the set the node belongs to. Two nodes are in
//! one set exactly when the map sends them to the same root.

use crate::graph::{connected, lemma_connected_push, lemma_connected_refl, lemma_untouched_alone};
use vstd::prelude::*;

verus! {

/// Disjoint sets of the nodes `0..size`, each kept as a tree of parent
/// links with the set's representative at the root.
pub struct UnionFind {
    parent: Vec<usize>,
    /// For each node a number that drops along every parent link, so that
    /// chasing parents ends.
    height: Ghost<Seq<nat>>,
}

/// A root map: each node's root is a node, and is its own root.
pub open spec fn valid_roots(roots: Seq<int>) -> bool {
    forall|i: int|
        0 <= i < roots.len() ==> 0 <= #[trigger] roots[i] < roots.len() && roots[roots[i]]
            == roots[i]
}

/// The root map after the sets of `a` and `b` are merged: what had the root
/// of `a` now has the root of `b`, and nothing else moves.
pub open spec fn merge(roots: Seq<int>, a: int, b: int) -> Seq<int> {
    Seq::new(roots.len(), |x: int| if roots[x] == roots[a] { roots[b] } else { roots[x] })
}

/// The root map of `size` singletons after the unions `ops`, in order.
pub open spec fn after_unions(size: nat, ops: Seq<(int, int)>) -> Seq<int>
    decreases ops.len(),
{
    if ops.len() == 0 {
        Seq::new(size, |i: int| i)
    } else {
        merge(after_unions(size, ops.drop_last()), ops.last().0, ops.last().1)
    }
}

spec fn chain_ok(parent: Seq<usize>, height: Seq<nat>) -> bool {
    &&& height.len() == parent.len()
    &&& forall|i: int|
        0 <= i < parent.len() ==> {
            &&& (#[trigger] parent[i]) < parent.len()
            &&& (parent[i] != i ==> height[parent[i] as int] < height[i])
        }
}

spec fn root_of(parent: Seq<usize>, height: Seq<nat>, i: int) -> int
    decreases height[i],
    when chain_ok(parent, height) && 0 <= i < parent.len()
{
    if parent[i] == i {
        i
    } else {
        root_of(parent, height, parent[i] as int)
    }
}

spec fn roots(parent: Seq<usize>, height: Seq<nat>) -> Seq<int> {
    Seq::new(parent.len(), |i: int| root_of(parent, height, i))
}

proof fn lemma_root(parent: Seq<usize>, height: Seq<nat>, i: int)
    requires
        chain_ok(parent, height),
        0 <= i < parent.len(),
    ensures
        0 <= root_of(parent, height, i) < parent.len(),
        parent[root_of(parent, height, i)] == root_of(parent, height, i),
        height[root_of(parent, height, i)] <= height[i],
        parent[i] != i ==> height[root_of(parent, height, i)] < height[i],
        root_of(parent, height, root_of(parent, height, i)) == root_of(parent, height, i),
    decreases height[i],
{
    if parent[i] != i {
        lemma_root(parent, height, parent[i] as int);
    }
}

/// Hanging `x` under a lower node `y` of its own tree moves no root.
proof fn lemma_shortcut(parent: Seq<usize>, height: Seq<nat>, x: int, y: usize, z: int)
    requires
        chain_ok(parent, height),
        0 <= x < parent.len(),
        y < parent.len(),
        height[y as int] < height[x],
        root_of(parent, height, y as int) == root_of(parent, height, x),
        0 <= z < parent.len(),
    ensures
        chain_ok(parent.update(x, y), height),
        root_of(parent.update(x, y), height, z) == root_of(parent, height, z),
    decreases height[z],
{
    lemma_root(parent, height, x);
    if z == x {
        lemma_shortcut(parent, height, x, y, y as int);
    } else if parent[z] != z {
        lemma_shortcut(parent, height, x, y, parent[z] as int);
    }
}

/// The heights after the root `ra` is hung under the root `rb`: the tree of
/// `ra` is lifted above `rb`.
spec fn lifted(parent: Seq<usize>, height: Seq<nat>, ra: int, rb: int) -> Seq<nat> {
    Seq::new(
        parent.len(),
        |z: int|
            if root_of(parent, height, z) == ra {
                height[z] + height[rb] + 1
            } else {
                height[z]
            },
    )
}

/// Hanging the root `ra` under another root `rb` gives the tree of `ra` the
/// root `rb` and moves no other root.
proof fn lemma_link(parent: Seq<usize>, height: Seq<nat>, ra: int, rb: usize, z: int)
    requires
        chain_ok(parent, height),
        0 <= ra < parent.len(),
        rb < parent.len(),
        parent[ra] == ra,
        parent[rb as int] == rb,
        ra != rb,
        0 <= z < parent.len(),
    ensures
        chain_ok(parent.update(ra, rb), lifted(parent, height, ra, rb as int)),
        root_of(parent.update(ra, rb), lifted(parent, height, ra, rb as int), z) == if root_of(
            parent,
            height,
            z,
        ) == ra {
            rb as int
        } else {
            root_of(parent, height, z)
        },
    decreases height[z],
{
    let hung = parent.update(ra, rb);
    let up = lifted(parent, height, ra, rb as int);
    assert(chain_ok(hung, up)) by {
        assert forall|i: int| 0 <= i < hung.len() implies {
            &&& (#[trigger] hung[i]) < hung.len()
            &&& (hung[i] != i ==> up[hung[i] as int] < up[i])
        } by {
            if i != ra && parent[i] != i {
                assert(root_of(parent, height, i) == root_of(parent, height, parent[i] as int));
            }
        }
    }
    if z == ra {
        assert(root_of(hung, up, rb as int) == rb);
    } else if parent[z] != z {
        lemma_link(parent, height, ra, rb, parent[z] as int);
    }
}

impl View for UnionFind {
    type V = Seq<int>;

    closed spec fn view(&self) -> Seq<int> {
        roots(self.parent@, self.height@)
    }
}

impl UnionFind {
    /// The parent links are in range and lead to a root from every node.
    pub closed spec fn wf(&self) -> bool {
        chain_ok(self.parent@, self.height@)
    }

    /// The view of a well-formed forest is a root map.
    pub proof fn lemma_valid_roots(&self)
        requires
            self.wf(),
        ensures
            valid_roots(self@),
    {
        assert forall|i: int| 0 <= i < self@.len() implies 0 <= #[trigger] self@[i] < self@.len()
            && self@[self@[i]] == self@[i] by {
            lemma_root(self.parent@, self.height@, i);
        }
    }

    /// `size` singleton sets: every node is its own root.
    pub fn new(size: usize) -> (sets: UnionFind)
        ensures
            sets.wf(),
            sets@ == Seq::new(size as nat, |i: int| i),
    {
        let mut parent: Vec<usize> = Vec::new();
        let mut i: usize = 0;
        while i < size
            invariant
                i <= size,
                parent@.len() == i,
                forall|j: int| 0 <= j < i ==> parent@[j] == j,
            decreases size - i,
        {
            parent.push(i);
            i += 1;
        }
        let sets = UnionFind { parent, height: Ghost(Seq::new(size as nat, |i: int| 0nat)) };
        assert(sets@ =~= Seq::new(size as nat, |i: int| i));
        sets
    }

    /// The root of `node`'s set. The links passed on the way are shortened;
    /// no set changes.
    pub fn find(&mut self, node: usize) -> (root: usize)
        requires
            old(self).wf(),
            node < old(self)@.len(),
        ensures
            final(self).wf(),
            final(self)@ == old(self)@,
            root == old(self)@[node as int],
    {
        let mut at = node;
        while self.parent[at] != at
            invariant
                self.wf(),
                at < self@.len(),
                self@ == old(self)@,
                self@[at as int] == old(self)@[node as int],
            decreases self.height@[at as int],
        {
            let up = self.parent[at];
            let above = self.parent[up];
            proof {
                let parent = self.parent@;
                let height = self.height@;
                lemma_root(parent, height, up as int);
                assert forall|z: int| 0 <= z < parent.len() implies root_of(
                    parent.update(at as int, above),
                    height,
                    z,
                ) == root_of(parent, height, z) && chain_ok(
                    parent.update(at as int, above),
                    height,
                ) by {
                    lemma_shortcut(parent, height, at as int, above, z);
                }
                assert(roots(parent.update(at as int, above), height) =~= roots(parent, height));
            }
            self.parent.set(at, above);
            at = above;
        }
        at
    }

    /// Merges the sets of `a` and `b`: the root of `b` becomes the root of
    /// both. Nothing changes when they are one set already.
    pub fn union(&mut self, a: usize, b: usize)
        requires
            old(self).wf(),
            a < old(self)@.len(),
            b < old(self)@.len(),
        ensures
            final(self).wf(),
            final(self)@ == merge(old(self)@, a as int, b as int),
    {
        let root_a = self.find(a);
        let root_b = self.find(b);
        proof {
            self.lemma_valid_roots();
        }
        if root_a != root_b {
            let ghost parent = self.parent@;
            let ghost height = self.height@;
            let ghost up = lifted(parent, height, root_a as int, root_b as int);
            proof {
                lemma_root(parent, height, a as int);
                lemma_root(parent, height, b as int);
                assert forall|z: int| 0 <= z < parent.len() implies root_of(
                    parent.update(root_a as int, root_b),
                    up,
                    z,
                ) == merge(old(self)@, a as int, b as int)[z] && chain_ok(
                    parent.update(root_a as int, root_b),
                    up,
                ) by {
                    lemma_link(parent, height, root_a as int, root_b, z);
                }
                lemma_link(parent, height, root_a as int, root_b, root_a as int);
            }
            self.parent.set(root_a, root_b);
            self.height = Ghost(up);
            assert(self@ =~= merge(old(self)@, a as int, b as int));
        } else {
            assert(self@ =~= merge(old(self)@, a as int, b as int));
        }
    }
}

/// Every node named by `ops` is one of the nodes `0..size`.
pub open spec fn ops_in_range(size: nat, ops: Seq<(int, int)>) -> bool {
    forall|i: int|
        0 <= i < ops.len() ==> 0 <= (#[trigger] ops[i]).0 < size && 0 <= ops[i].1 < size
}

/// Merging the sets of `p` and `q` puts two nodes in one set exactly when
/// they were in one set, or one was with `p` and the other with `q`.
pub proof fn lemma_merge_same_set(roots: Seq<int>, p: int, q: int, a: int, b: int)
    requires
        0 <= a < roots.len(),
        0 <= b < roots.len(),
    ensures
        merge(roots, p, q).len() == roots.len(),
        merge(roots, p, q)[a] == merge(roots, p, q)[b] <==> {
            ||| roots[a] == roots[b]
            ||| (roots[a] == roots[p] && roots[q] == roots[b])
            ||| (roots[a] == roots[q] && roots[p] == roots[b])
        },
{
}

/// Starting from singletons, two nodes have the same root after a sequence
/// of unions exactly when the unions, read as edges, join them by a path.
pub proof fn lemma_same_set_iff_connected(size: nat, ops: Seq<(int, int)>, a: int, b: int)
    requires
        ops_in_range(size, ops),
        0 <= a < size,
        0 <= b < size,
    ensures
        after_unions(size, ops).len() == size,
        after_unions(size, ops)[a] == after_unions(size, ops)[b] <==> connected(ops, a, b),
    decreases ops.len(),
{
    if ops.len() == 0 {
        lemma_connected_refl(ops, a);
        if connected(ops, a, b) {
            lemma_untouched_alone(ops, a, b);
        }
    } else {
        let before = ops.drop_last();
        let p = ops.last().0;
        let q = ops.last().1;
        assert(ops =~= before.push((p, q)));
        assert(ops_in_range(size, before)) by {
            assert forall|i: int| 0 <= i < before.len() implies 0 <= (#[trigger] before[i]).0 < size
                && 0 <= before[i].1 < size by {
                assert(before[i] == ops[i]);
            }
        }
        assert(0 <= p < size && 0 <= q < size) by {
            assert(ops[ops.len() - 1] == ops.last());
        }
        lemma_same_set_iff_connected(size, before, a, b);
        lemma_same_set_iff_connected(size, before, a, p);
        lemma_same_set_iff_connected(size, before, q, b);
        lemma_same_set_iff_connected(size, before, a, q);
        lemma_same_set_iff_connected(size, before, p, b);
        lemma_merge_same_set(after_unions(size, before), p, q, a, b);
        lemma_connected_push(before, p, q, a, b);
    }
}

} // verus!

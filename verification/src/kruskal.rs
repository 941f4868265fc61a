//! Kruskal's pass over a sequence of walls, as a specification, and what it
//! guarantees: the opened walls form a spanning tree of the interior cells.

use crate::graph::{
    acyclic, connected, lemma_acyclic_no_duplicates, lemma_acyclic_push, lemma_connected_mono,
    lemma_connected_push, lemma_connected_refl, lemma_connected_step, lemma_connected_sym,
    lemma_connected_trans, lemma_subgraph_basics, lemma_untouched_alone, subgraph,
};
use crate::grid::{
    cell_id, grid_ok, grid_size, in_grid, interior, interior_ids, is_passage,
    lemma_cell_id_bound, lemma_cell_id_injective, lemma_interior_ids_len, Cell, Wall,
};
use crate::union_find::{lemma_merge_same_set, merge, valid_roots};
use vstd::prelude::*;

verus! {

/// The walls that are open after the first `k` walls of `order` were tried:
/// a wall is opened when it is a passage whose two cells the walls opened
/// before it do not connect yet.
pub open spec fn opened(width: int, height: int, order: Seq<Wall>, k: int) -> Seq<Wall>
    decreases k,
{
    if k <= 0 {
        Seq::empty()
    } else {
        let before = opened(width, height, order, k - 1);
        let wall = order[k - 1];
        if is_passage(width, height, wall) && !connected(before, wall.0, wall.1) {
            before.push(wall)
        } else {
            before
        }
    }
}

/// The walls that are open after all of `order` was tried, in the order in
/// which they were opened.
pub open spec fn kruskal(width: int, height: int, order: Seq<Wall>) -> Seq<Wall> {
    opened(width, height, order, order.len() as int)
}

/// Every passage of the grid occurs in `order`.
pub open spec fn tries_all(width: int, height: int, order: Seq<Wall>) -> bool {
    forall|wall: Wall| #[trigger] is_passage(width, height, wall) ==> order.contains(wall)
}

/// All of `walls` are passages.
pub open spec fn all_passages(width: int, height: int, walls: Seq<Wall>) -> bool {
    forall|i: int| 0 <= i < walls.len() ==> is_passage(width, height, #[trigger] walls[i])
}

/// Any two interior cells are joined by a path of open walls.
pub open spec fn spans(width: int, height: int, open: Seq<Wall>) -> bool {
    forall|a: Cell, b: Cell|
        interior(width, height, a) && interior(width, height, b) ==> #[trigger] connected(
            open,
            a,
            b,
        )
}

/// The open walls form a spanning tree of the interior cells: they are
/// passages, no one of them can be closed without parting the two cells it
/// joins, every interior cell is reached from every other, and there is one
/// wall less than there are interior cells.
pub open spec fn spanning_tree(width: int, height: int, open: Seq<Wall>) -> bool {
    &&& all_passages(width, height, open)
    &&& acyclic(open)
    &&& spans(width, height, open)
    &&& width >= 1 && height >= 1 ==> open.len() == width * height - 1
}

/// Both cells of a passage are interior cells.
pub proof fn lemma_passage_ends(width: int, height: int, wall: Wall)
    requires
        grid_ok(width, height),
        is_passage(width, height, wall),
    ensures
        interior(width, height, wall.0),
        interior(width, height, wall.1),
        wall.0 != wall.1,
{
    assert(width + 2 <= grid_size(width, height) && height + 2 <= grid_size(width, height))
        by (nonlinear_arith)
        requires
            0 <= width,
            0 <= height,
    ;
}

/// Only passages are opened, so no open wall touches the frame.
pub proof fn lemma_opened_passages(width: int, height: int, order: Seq<Wall>, k: int)
    ensures
        all_passages(width, height, opened(width, height, order, k)),
    decreases k,
{
    if k > 0 {
        lemma_opened_passages(width, height, order, k - 1);
    }
}

/// Walls that were opened stay open.
pub proof fn lemma_opened_grows(width: int, height: int, order: Seq<Wall>, j: int, k: int)
    requires
        j <= k,
    ensures
        subgraph(opened(width, height, order, j), opened(width, height, order, k)),
    decreases k - j,
{
    let early = opened(width, height, order, j);
    if j < k {
        let before = opened(width, height, order, k - 1);
        let now = opened(width, height, order, k);
        lemma_opened_grows(width, height, order, j, k - 1);
        lemma_subgraph_basics(before, 0, order[k - 1]);
        assert forall|i: int| 0 <= i < early.len() implies now.contains(#[trigger] early[i]) by {
            assert(before.contains(early[i]));
            let at = choose|at: int| 0 <= at < before.len() && before[at] == early[i];
            assert(now.contains(before[at]));
        }
    } else {
        assert forall|i: int| 0 <= i < early.len() implies early.contains(#[trigger] early[i]) by {}
    }
}

/// The open walls never close a cycle: each one is the only connection
/// between its two cells.
pub proof fn lemma_opened_acyclic(width: int, height: int, order: Seq<Wall>, k: int)
    ensures
        acyclic(opened(width, height, order, k)),
    decreases k,
{
    if k > 0 {
        let before = opened(width, height, order, k - 1);
        let wall = order[k - 1];
        lemma_opened_acyclic(width, height, order, k - 1);
        if is_passage(width, height, wall) && !connected(before, wall.0, wall.1) {
            lemma_acyclic_push(before, wall.0, wall.1);
        }
    }
}

/// No wall is opened twice, however often it occurs in the order.
pub proof fn lemma_opened_once(width: int, height: int, order: Seq<Wall>, k: int)
    ensures
        opened(width, height, order, k).no_duplicates(),
{
    lemma_opened_acyclic(width, height, order, k);
    lemma_acyclic_no_duplicates(opened(width, height, order, k));
}

/// Once a passage was tried its two cells are connected, whether it was
/// opened or not.
pub proof fn lemma_tried_connected(width: int, height: int, order: Seq<Wall>, j: int, k: int)
    requires
        0 <= j < k,
        is_passage(width, height, order[j]),
    ensures
        connected(opened(width, height, order, k), order[j].0, order[j].1),
{
    let wall = order[j];
    let before = opened(width, height, order, j);
    let after = opened(width, height, order, j + 1);
    if !connected(before, wall.0, wall.1) {
        assert(after.last() == wall);
        assert(after.contains(wall));
        lemma_connected_step(after, wall.0, wall.1);
    } else {
        assert(after == before);
    }
    lemma_opened_grows(width, height, order, j + 1, k);
    lemma_connected_mono(after, opened(width, height, order, k), wall.0, wall.1);
}

proof fn lemma_reaches_corner(width: int, height: int, order: Seq<Wall>, c: Cell)
    requires
        grid_ok(width, height),
        tries_all(width, height, order),
        interior(width, height, c),
    ensures
        connected(kruskal(width, height, order), (1usize, 1usize), c),
    decreases c.0 + c.1,
{
    let open = kruskal(width, height, order);
    let corner: Cell = (1usize, 1usize);
    if c == corner {
        lemma_connected_refl(open, c);
    } else {
        let from: Cell = if c.0 > 1 {
            ((c.0 - 1) as usize, c.1)
        } else {
            (c.0, (c.1 - 1) as usize)
        };
        let wall: Wall = (from, c);
        assert(is_passage(width, height, wall));
        assert(order.contains(wall));
        let j = choose|j: int| 0 <= j < order.len() && order[j] == wall;
        lemma_tried_connected(width, height, order, j, order.len() as int);
        lemma_reaches_corner(width, height, order, from);
        lemma_connected_trans(open, corner, from, c);
    }
}

/// When every passage was tried, the open walls connect every interior cell
/// with every other.
pub proof fn lemma_kruskal_spans(width: int, height: int, order: Seq<Wall>)
    requires
        grid_ok(width, height),
        tries_all(width, height, order),
    ensures
        spans(width, height, kruskal(width, height, order)),
{
    let open = kruskal(width, height, order);
    let corner: Cell = (1usize, 1usize);
    assert forall|a: Cell, b: Cell|
        interior(width, height, a) && interior(width, height, b) implies #[trigger] connected(
        open,
        a,
        b,
    ) by {
        lemma_reaches_corner(width, height, order, a);
        lemma_reaches_corner(width, height, order, b);
        lemma_connected_sym(open, corner, a);
        lemma_connected_trans(open, a, corner, b);
    }
}

/// The root map of a disjoint-set forest that is told of each wall as it is
/// opened, after the first `k` walls of `order` were tried.
pub open spec fn roots_after(width: int, height: int, order: Seq<Wall>, k: int) -> Seq<int>
    decreases k,
{
    if k <= 0 {
        Seq::new(grid_size(width, height) as nat, |i: int| i)
    } else {
        let before = roots_after(width, height, order, k - 1);
        let wall = order[k - 1];
        if is_passage(width, height, wall) && before[cell_id(width, wall.0)] != before[cell_id(
            width,
            wall.1,
        )] {
            merge(before, cell_id(width, wall.0), cell_id(width, wall.1))
        } else {
            before
        }
    }
}

/// The root map tells which cells the open walls connect: two cells of the
/// grid have one root exactly when a path of open walls joins them. The
/// root of an interior cell is the id of an interior cell.
pub open spec fn tracks(width: int, height: int, roots: Seq<int>, open: Seq<Wall>) -> bool {
    &&& roots.len() == grid_size(width, height)
    &&& valid_roots(roots)
    &&& forall|a: Cell, b: Cell|
        in_grid(width, height, a) && in_grid(width, height, b) ==> (roots[cell_id(width, a)]
            == roots[cell_id(width, b)] <==> #[trigger] connected(open, a, b))
    &&& forall|c: Cell|
        interior(width, height, c) ==> interior_ids(width, height).contains(
            #[trigger] roots[cell_id(width, c)],
        )
}

/// The nodes that are not the root of their set.
pub open spec fn followers(roots: Seq<int>) -> Set<int> {
    Set::new(|i: int| 0 <= i < roots.len() && roots[i] != i)
}

proof fn lemma_no_walls_alone(a: Cell, b: Cell)
    requires
        connected(Seq::<Wall>::empty(), a, b),
    ensures
        a == b,
{
    lemma_untouched_alone(Seq::<Wall>::empty(), a, b);
}

/// Throughout the pass the root map tracks the open walls.
pub proof fn lemma_roots_track(width: int, height: int, order: Seq<Wall>, k: int)
    requires
        grid_ok(width, height),
    ensures
        tracks(
            width,
            height,
            roots_after(width, height, order, k),
            opened(width, height, order, k),
        ),
    decreases k,
{
    let roots = roots_after(width, height, order, k);
    let open = opened(width, height, order, k);
    if k <= 0 {
        assert forall|a: Cell, b: Cell|
            in_grid(width, height, a) && in_grid(width, height, b) implies (roots[cell_id(width, a)]
            == roots[cell_id(width, b)] <==> #[trigger] connected(open, a, b)) by {
            lemma_cell_id_bound(width, height, a);
            lemma_cell_id_bound(width, height, b);
            lemma_connected_refl(open, a);
            if connected(open, a, b) {
                lemma_no_walls_alone(a, b);
            }
            if cell_id(width, a) == cell_id(width, b) {
                lemma_cell_id_injective(width, a, b);
            }
        }
        assert forall|c: Cell| interior(width, height, c) implies interior_ids(
            width,
            height,
        ).contains(#[trigger] roots[cell_id(width, c)]) by {
            lemma_cell_id_bound(width, height, c);
        }
    } else {
        let before = roots_after(width, height, order, k - 1);
        let open_before = opened(width, height, order, k - 1);
        let wall = order[k - 1];
        let p = wall.0;
        let q = wall.1;
        lemma_roots_track(width, height, order, k - 1);
        if is_passage(width, height, wall) {
            lemma_passage_ends(width, height, wall);
            lemma_cell_id_bound(width, height, p);
            lemma_cell_id_bound(width, height, q);
            let ip = cell_id(width, p);
            let iq = cell_id(width, q);
            assert(before[ip] == before[iq] <==> connected(open_before, p, q));
            if before[ip] != before[iq] {
                assert(roots == merge(before, ip, iq));
                assert(open == open_before.push(wall));
                assert(valid_roots(roots)) by {
                    assert forall|i: int| 0 <= i < roots.len() implies 0 <= #[trigger] roots[i]
                        < roots.len() && roots[roots[i]] == roots[i] by {
                        assert(0 <= before[i] < before.len());
                        assert(before[before[i]] == before[i]);
                        assert(before[before[iq]] == before[iq]);
                    }
                }
                assert forall|a: Cell, b: Cell|
                    in_grid(width, height, a) && in_grid(width, height, b) implies (roots[cell_id(
                    width,
                    a,
                )] == roots[cell_id(width, b)] <==> #[trigger] connected(open, a, b)) by {
                    lemma_cell_id_bound(width, height, a);
                    lemma_cell_id_bound(width, height, b);
                    lemma_merge_same_set(before, ip, iq, cell_id(width, a), cell_id(width, b));
                    lemma_connected_push(open_before, p, q, a, b);
                    assert(before[cell_id(width, a)] == before[cell_id(width, b)] <==> connected(
                        open_before,
                        a,
                        b,
                    ));
                    assert(before[cell_id(width, a)] == before[ip] <==> connected(
                        open_before,
                        a,
                        p,
                    ));
                    assert(before[iq] == before[cell_id(width, b)] <==> connected(
                        open_before,
                        q,
                        b,
                    ));
                    assert(before[cell_id(width, a)] == before[iq] <==> connected(
                        open_before,
                        a,
                        q,
                    ));
                    assert(before[ip] == before[cell_id(width, b)] <==> connected(
                        open_before,
                        p,
                        b,
                    ));
                }
                assert forall|c: Cell| interior(width, height, c) implies interior_ids(
                    width,
                    height,
                ).contains(#[trigger] roots[cell_id(width, c)]) by {
                    lemma_cell_id_bound(width, height, c);
                    assert(interior_ids(width, height).contains(before[cell_id(width, c)]));
                    assert(interior_ids(width, height).contains(before[cell_id(width, q)]));
                }
            }
        }
    }
}

/// Each wall that is opened turns one root into a follower: there are as
/// many followers as open walls, all of them interior cells.
proof fn lemma_followers_count(width: int, height: int, order: Seq<Wall>, k: int)
    requires
        grid_ok(width, height),
    ensures
        followers(roots_after(width, height, order, k)).finite(),
        followers(roots_after(width, height, order, k)).subset_of(interior_ids(width, height)),
        followers(roots_after(width, height, order, k)).len() == opened(
            width,
            height,
            order,
            k,
        ).len(),
    decreases k,
{
    let roots = roots_after(width, height, order, k);
    if k <= 0 {
        assert(followers(roots) =~= Set::empty());
    } else {
        let before = roots_after(width, height, order, k - 1);
        let wall = order[k - 1];
        lemma_followers_count(width, height, order, k - 1);
        lemma_roots_track(width, height, order, k - 1);
        lemma_roots_track(width, height, order, k);
        if is_passage(width, height, wall) {
            lemma_passage_ends(width, height, wall);
            lemma_cell_id_bound(width, height, wall.0);
            lemma_cell_id_bound(width, height, wall.1);
            let ip = cell_id(width, wall.0);
            let iq = cell_id(width, wall.1);
            let hung = before[ip];
            assert(before[ip] == before[iq] <==> connected(
                opened(width, height, order, k - 1),
                wall.0,
                wall.1,
            ));
            if before[ip] != before[iq] {
                assert(before[hung] == hung);
                assert(before[before[iq]] == before[iq]);
                assert(interior_ids(width, height).contains(hung));
                assert(followers(roots) =~= followers(before).insert(hung)) by {
                    assert forall|i: int| 0 <= i < roots.len() implies (roots[i] != i <==> (
                    before[i] != i || i == hung)) by {
                        assert(before[before[i]] == before[i]);
                    }
                }
            }
        }
    }
}

/// When every passage was tried and the grid has an interior, there is one
/// open wall less than there are interior cells.
pub proof fn lemma_kruskal_count(width: int, height: int, order: Seq<Wall>)
    requires
        grid_ok(width, height),
        tries_all(width, height, order),
        width >= 1,
        height >= 1,
    ensures
        kruskal(width, height, order).len() == width * height - 1,
{
    let k = order.len() as int;
    let roots = roots_after(width, height, order, k);
    let open = kruskal(width, height, order);
    let ids = interior_ids(width, height);
    let corner: Cell = (1usize, 1usize);
    lemma_followers_count(width, height, order, k);
    lemma_roots_track(width, height, order, k);
    lemma_kruskal_spans(width, height, order);
    lemma_interior_ids_len(width, height);
    lemma_cell_id_bound(width, height, corner);
    let top = roots[cell_id(width, corner)];
    assert(ids.contains(top));
    assert(roots[top] == top);
    assert(followers(roots) =~= ids.remove(top)) by {
        assert forall|i: int| ids.contains(i) && i != top implies followers(roots).contains(i) by {
            let c = choose|c: Cell| interior(width, height, c) && #[trigger] cell_id(width, c) == i;
            lemma_cell_id_bound(width, height, c);
            assert(connected(open, c, corner));
        }
    }
}

/// When every passage was tried, the open walls form a spanning tree of the
/// interior cells.
pub proof fn lemma_kruskal_spanning_tree(width: int, height: int, order: Seq<Wall>)
    requires
        grid_ok(width, height),
        tries_all(width, height, order),
    ensures
        spanning_tree(width, height, kruskal(width, height, order)),
{
    lemma_opened_passages(width, height, order, order.len() as int);
    lemma_opened_acyclic(width, height, order, order.len() as int);
    lemma_kruskal_spans(width, height, order);
    if width >= 1 && height >= 1 {
        lemma_kruskal_count(width, height, order);
    }
}

} // verus!

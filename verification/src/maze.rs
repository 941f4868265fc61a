//! The maze: a grid of weighted cells inside a frame, the walls between the
//! cells, and the walls that were opened.

use crate::grid::{
    cell_id, east, grid_ok, grid_size, in_grid, interior, is_candidate, is_passage,
    lemma_cell_id_bound, lemma_cell_id_injective, lemma_sides_fit, south, Cell, Wall,
};
use crate::graph::{acyclic, connected};
use crate::kruskal::{
    all_passages, kruskal, lemma_kruskal_spanning_tree, lemma_opened_acyclic,
    lemma_opened_once, lemma_opened_passages, lemma_passage_ends, lemma_roots_track, opened, roots_after,
    spanning_tree, tries_all,
};
use crate::union_find::{merge, UnionFind};
use crate::random::{random_between, shuffle};
use vstd::prelude::*;
use vstd::seq_lib::{lemma_seq_contains_after_push, to_multiset_contains, to_multiset_len};

verus! {

/// The weight of a frame cell.
pub const BORDER: u8 = 0;

/// The lightest weight of an interior cell.
pub const LIGHTEST: u8 = 1;

/// The heaviest weight of an interior cell.
pub const HEAVIEST: u8 = 9;

/// The marker of the start cell, the letter S.
pub const START: u8 = 83;

/// The marker of the goal cell, the letter G.
pub const GOAL: u8 = 71;

/// The code of the digit 0: a weight is drawn as the digit that many codes
/// further on.
pub const DIGIT_ZERO: u8 = 48;

/// How a cell is drawn that cannot be walked on.
pub const WALL_GLYPH: char = 'X';

/// A maze: its size, its walls, what each cell holds, and the walls that
/// were opened.
pub struct Maze {
    width: usize,
    height: usize,
    walls: Vec<Wall>,
    stickiness: Vec<u8>,
    open_walls: Vec<Wall>,
}

/// A maze as a mathematical value.
pub ghost struct MazeView {
    pub width: int,
    pub height: int,
    /// The walls the grid was built with, each once, in no particular order.
    pub walls: Seq<Wall>,
    /// What each cell of the grid holds, by cell id.
    pub stickiness: Seq<u8>,
    /// The walls that were opened, in the order in which they were.
    pub open_walls: Seq<Wall>,
}

/// A weight of an interior cell.
pub open spec fn is_weight(v: u8) -> bool {
    LIGHTEST <= v <= HEAVIEST
}

/// What an interior cell may hold: a weight, or one of the two markers.
pub open spec fn is_mark(v: u8) -> bool {
    is_weight(v) || v == START || v == GOAL
}

/// `walls` holds each candidate wall of the grid once, and nothing else.
pub open spec fn is_wall_set(width: int, height: int, walls: Seq<Wall>) -> bool {
    &&& walls.no_duplicates()
    &&& forall|wall: Wall| #[trigger] walls.contains(wall) <==> is_candidate(width, height, wall)
}

/// The place of an interior cell's weight in a list that goes through the
/// interior row by row.
pub open spec fn slot(width: int, c: Cell) -> int {
    (c.1 - 1) * width + (c.0 - 1)
}

/// `cells` holds each interior cell of the grid once, and nothing else.
pub open spec fn is_cell_list(width: int, height: int, cells: Seq<Cell>) -> bool {
    &&& cells.no_duplicates()
    &&& cells.len() == width * height
    &&& forall|c: Cell| #[trigger] cells.contains(c) <==> interior(width, height, c)
}

impl MazeView {
    /// What the cell `c` holds.
    pub open spec fn at(self, c: Cell) -> u8 {
        self.stickiness[cell_id(self.width, c)]
    }

    /// How the cell `c` is drawn: as a wall when it belongs to the frame or
    /// has neither its east nor its south wall open, else as its marker or
    /// as the digit of its weight.
    pub open spec fn glyph(self, c: Cell) -> char {
        let held = self.at(c);
        if held == BORDER || (!self.open_walls.contains((c, east(c)))
            && !self.open_walls.contains((c, south(c)))) {
            WALL_GLYPH
        } else if held == START || held == GOAL {
            held as char
        } else {
            (held + DIGIT_ZERO) as char
        }
    }

    /// The same maze with `open` as its open walls.
    pub open spec fn with_open(self, open: Seq<Wall>) -> MazeView {
        MazeView { open_walls: open, ..self }
    }

    /// The same maze with the markers placed that `cells` asks for: the
    /// start on the last cell of the list and the goal on the one before it,
    /// as far as the list has them.
    pub open spec fn with_markers(self, cells: Seq<Cell>) -> MazeView {
        let last = cells.len() - 1;
        let started = if cells.len() >= 1 {
            self.stickiness.update(cell_id(self.width, cells[last]), START)
        } else {
            self.stickiness
        };
        let done = if cells.len() >= 2 {
            started.update(cell_id(self.width, cells[last - 1]), GOAL)
        } else {
            started
        };
        MazeView { stickiness: done, ..self }
    }

    /// All of `order` are candidate walls of this maze.
    pub open spec fn all_candidates(self, order: Seq<Wall>) -> bool {
        forall|i: int|
            0 <= i < order.len() ==> is_candidate(self.width, self.height, #[trigger] order[i])
    }

    /// The grid fits in memory, the frame holds `BORDER` and the interior
    /// weights or markers, the walls are the candidate walls of the grid,
    /// and only passages are open, none of them twice.
    pub open spec fn wf(self) -> bool {
        &&& grid_ok(self.width, self.height)
        &&& self.stickiness.len() == grid_size(self.width, self.height)
        &&& forall|c: Cell|
            in_grid(self.width, self.height, c) ==> if interior(self.width, self.height, c) {
                is_mark(self.stickiness[#[trigger] cell_id(self.width, c)])
            } else {
                self.stickiness[cell_id(self.width, c)] == BORDER
            }
        &&& is_wall_set(self.width, self.height, self.walls)
        &&& all_passages(self.width, self.height, self.open_walls)
        &&& self.open_walls.no_duplicates()
    }
}

impl View for Maze {
    type V = MazeView;

    closed spec fn view(&self) -> MazeView {
        MazeView {
            width: self.width as int,
            height: self.height as int,
            walls: self.walls@,
            stickiness: self.stickiness@,
            open_walls: self.open_walls@,
        }
    }
}

/// `a` comes before `b` when the interior is read row by row.
spec fn reads_before(a: Cell, b: Cell) -> bool {
    a.1 < b.1 || (a.1 == b.1 && a.0 < b.0)
}

/// The candidate walls of the grid: for each interior cell the wall to the
/// east and the wall to the south.
fn candidate_walls(width: usize, height: usize) -> (walls: Vec<Wall>)
    requires
        grid_ok(width as int, height as int),
    ensures
        is_wall_set(width as int, height as int, walls@),
{
    let mut walls: Vec<Wall> = Vec::new();
    proof {
        lemma_sides_fit(width as int, height as int);
    }
    let mut y: usize = 1;
    while y <= height
        invariant
            1 <= y <= height + 1,
            height + 2 <= usize::MAX,
            width + 2 <= usize::MAX,
            walls@.no_duplicates(),
            forall|wall: Wall| #[trigger]
                walls@.contains(wall) <==> is_candidate(width as int, height as int, wall)
                    && wall.0.1 < y,
        decreases height + 1 - y,
    {
        let mut x: usize = 1;
        while x <= width
            invariant
                1 <= x <= width + 1,
                1 <= y <= height,
                height + 2 <= usize::MAX,
                width + 2 <= usize::MAX,
                walls@.no_duplicates(),
                forall|wall: Wall| #[trigger]
                    walls@.contains(wall) <==> is_candidate(width as int, height as int, wall)
                        && reads_before(wall.0, (x, y)),
            decreases width + 1 - x,
        {
            let ghost before = walls@;
            let to_east: Wall = ((x, y), (x + 1, y));
            let to_south: Wall = ((x, y), (x, y + 1));
            walls.push(to_east);
            walls.push(to_south);
            proof {
                assert(walls@ == before.push(to_east).push(to_south));
                assert forall|wall: Wall| #[trigger]
                    walls@.contains(wall) <==> is_candidate(width as int, height as int, wall)
                        && reads_before(wall.0, ((x + 1) as usize, y)) by {
                    lemma_seq_contains_after_push(before, to_east, wall);
                    lemma_seq_contains_after_push(
                        before.push(to_east),
                        to_south,
                        wall,
                    );
                }
                assert(!before.contains(to_east) && !before.contains(to_south));
                assert(walls@.no_duplicates()) by {
                    lemma_push_fresh(before, to_east);
                    lemma_seq_contains_after_push(before, to_east, to_south);
                    lemma_push_fresh(before.push(to_east), to_south);
                }
            }
            x += 1;
        }
        y += 1;
    }
    walls
}

proof fn lemma_push_fresh<T>(items: Seq<T>, item: T)
    requires
        items.no_duplicates(),
        !items.contains(item),
    ensures
        items.push(item).no_duplicates(),
{
    let more = items.push(item);
    assert forall|i: int, j: int|
        0 <= i < more.len() && 0 <= j < more.len() && i != j implies more[i] != more[j] by {
        if i < items.len() {
            assert(items.contains(items[i]));
        }
        if j < items.len() {
            assert(items.contains(items[j]));
        }
    }
}

proof fn lemma_slot_bound(width: int, height: int, c: Cell)
    requires
        interior(width, height, c),
    ensures
        0 <= slot(width, c) < width * height,
        slot(width, c) + 1 == slot(width, east(c)) || c.0 + 1 > usize::MAX,
        c.0 == width ==> slot(width, c) + 1 == c.1 * width,
{
    assert((c.1 - 1) * width + width <= height * width && 0 <= (c.1 - 1) * width && (c.1 - 1)
        * width + width == c.1 * width && height * width == width * height) by (nonlinear_arith)
        requires
            1 <= c.1 <= height,
            0 <= width,
    ;
}

/// The cell array of the grid: the frame holds `BORDER`, the interior holds
/// `weights`, row by row.
fn laid_out(width: usize, height: usize, weights: &Vec<u8>) -> (cells: Vec<u8>)
    requires
        grid_ok(width as int, height as int),
        weights@.len() == width * height,
    ensures
        cells@.len() == grid_size(width as int, height as int),
        forall|c: Cell|
            in_grid(width as int, height as int, c) ==> #[trigger] cells@[cell_id(width as int, c)]
                == if interior(width as int, height as int, c) {
                weights@[slot(width as int, c)]
            } else {
                BORDER
            },
{
    proof {
        lemma_sides_fit(width as int, height as int);
    }
    let size = (width + 2) * (height + 2);
    let mut cells: Vec<u8> = Vec::new();
    let mut i: usize = 0;
    while i < size
        invariant
            i <= size,
            cells@.len() == i,
            forall|j: int| 0 <= j < i ==> cells@[j] == BORDER,
        decreases size - i,
    {
        cells.push(BORDER);
        i += 1;
    }
    assert forall|c: Cell|
        in_grid(width as int, height as int, c) implies #[trigger] cells@[cell_id(width as int, c)]
        == BORDER by {
        lemma_cell_id_bound(width as int, height as int, c);
    }
    let mut k: usize = 0;
    let mut y: usize = 1;
    while y <= height
        invariant
            1 <= y <= height + 1,
            grid_ok(width as int, height as int),
            height + 2 <= usize::MAX,
            width + 2 <= usize::MAX,
            weights@.len() == width * height,
            cells@.len() == grid_size(width as int, height as int),
            k == (y - 1) * width,
            forall|c: Cell|
                in_grid(width as int, height as int, c) ==> #[trigger] cells@[cell_id(
                    width as int,
                    c,
                )] == if interior(width as int, height as int, c) && c.1 < y {
                    weights@[slot(width as int, c)]
                } else {
                    BORDER
                },
        decreases height + 1 - y,
    {
        let mut x: usize = 1;
        while x <= width
            invariant
                1 <= x <= width + 1,
                1 <= y <= height,
                grid_ok(width as int, height as int),
                height + 2 <= usize::MAX,
                width + 2 <= usize::MAX,
                weights@.len() == width * height,
                cells@.len() == grid_size(width as int, height as int),
                k == slot(width as int, (x, y)),
                forall|c: Cell|
                    in_grid(width as int, height as int, c) ==> #[trigger] cells@[cell_id(
                        width as int,
                        c,
                    )] == if interior(width as int, height as int, c) && reads_before(c, (x, y)) {
                        weights@[slot(width as int, c)]
                    } else {
                        BORDER
                    },
            decreases width + 1 - x,
        {
            proof {
                lemma_cell_id_bound(width as int, height as int, (x, y));
                lemma_slot_bound(width as int, height as int, (x, y));
                lemma_sides_fit(width as int, height as int);
                assert(0 <= y * (width + 2)) by (nonlinear_arith)
                    requires
                        0 <= y,
                        0 <= width,
                ;
            }
            let id = x + y * (width + 2);
            cells.set(id, weights[k]);
            proof {
                assert forall|c: Cell|
                    in_grid(width as int, height as int, c) implies #[trigger] cells@[cell_id(
                    width as int,
                    c,
                )] == if interior(width as int, height as int, c) && reads_before(
                    c,
                    ((x + 1) as usize, y),
                ) {
                    weights@[slot(width as int, c)]
                } else {
                    BORDER
                } by {
                    lemma_cell_id_bound(width as int, height as int, c);
                    if cell_id(width as int, c) == id {
                        lemma_cell_id_injective(width as int, c, (x, y));
                    }
                }
            }
            k += 1;
            x += 1;
        }
        assert(k == y * width) by (nonlinear_arith)
            requires
                k == (y - 1) * width + (x - 1),
                x == width + 1,
        ;
        y += 1;
    }
    cells
}

impl Maze {
    /// A maze of `width` by `height` cells with the given weights, read row
    /// by row, all its walls closed.
    pub fn with_weights(width: usize, height: usize, weights: &Vec<u8>) -> (maze: Maze)
        requires
            grid_ok(width as int, height as int),
            weights@.len() == width * height,
            forall|i: int| 0 <= i < weights@.len() ==> is_weight(#[trigger] weights@[i]),
        ensures
            maze@.wf(),
            maze@.width == width,
            maze@.height == height,
            maze@.open_walls == Seq::<Wall>::empty(),
            forall|c: Cell|
                interior(width as int, height as int, c) ==> #[trigger] maze@.at(c)
                    == weights@[slot(width as int, c)],
    {
        let walls = candidate_walls(width, height);
        let stickiness = laid_out(width, height, weights);
        let maze = Maze { width, height, walls, stickiness, open_walls: Vec::new() };
        proof {
            assert forall|c: Cell| in_grid(width as int, height as int, c) implies if interior(
                width as int,
                height as int,
                c,
            ) {
                is_mark(maze@.stickiness[#[trigger] cell_id(width as int, c)])
            } else {
                maze@.stickiness[cell_id(width as int, c)] == BORDER
            } by {
                if interior(width as int, height as int, c) {
                    lemma_slot_bound(width as int, height as int, c);
                }
            }
        }
        maze
    }

    /// A maze of `width` by `height` cells, each with a random weight from
    /// `LIGHTEST` to `HEAVIEST`, all its walls closed.
    pub fn new(width: usize, height: usize) -> (maze: Maze)
        requires
            grid_ok(width as int, height as int),
        ensures
            maze@.wf(),
            maze@.width == width,
            maze@.height == height,
            maze@.open_walls == Seq::<Wall>::empty(),
            forall|c: Cell|
                interior(width as int, height as int, c) ==> is_weight(#[trigger] maze@.at(c)),
    {
        proof {
            lemma_sides_fit(width as int, height as int);
        }
        let mut rng = rand::thread_rng();
        let count = width * height;
        let mut weights: Vec<u8> = Vec::new();
        let mut i: usize = 0;
        while i < count
            invariant
                i <= count,
                weights@.len() == i,
                forall|j: int| 0 <= j < i ==> is_weight(#[trigger] weights@[j]),
            decreases count - i,
        {
            let drawn = random_between(&mut rng, LIGHTEST, HEAVIEST);
            weights.push(drawn);
            i += 1;
        }
        let maze = Maze::with_weights(width, height, &weights);
        proof {
            assert forall|c: Cell| interior(width as int, height as int, c) implies is_weight(
                #[trigger] maze@.at(c),
            ) by {
                lemma_slot_bound(width as int, height as int, c);
            }
        }
        maze
    }

    /// The id of a cell: its index in the cell array, row by row.
    pub fn cell_to_id(&self, cell: Cell) -> (id: usize)
        requires
            self@.wf(),
            cell_id(self@.width, cell) <= usize::MAX,
        ensures
            id == cell_id(self@.width, cell),
    {
        proof {
            lemma_sides_fit(self@.width, self@.height);
            assert(0 <= cell.1 * (self.width + 2)) by (nonlinear_arith)
                requires
                    0 <= cell.1,
                    0 <= self.width,
            ;
        }
        cell.0 + cell.1 * (self.width + 2)
    }
}

impl Maze {
    /// Tries the walls of `order` one after the other and opens each passage
    /// whose two cells the walls opened so far do not connect.
    pub fn generate_in_order(&mut self, order: &Vec<Wall>)
        requires
            old(self)@.wf(),
            old(self)@.open_walls.len() == 0,
            old(self)@.all_candidates(order@),
        ensures
            final(self)@.wf(),
            final(self)@ == old(self)@.with_open(
                kruskal(old(self)@.width, old(self)@.height, order@),
            ),
            acyclic(final(self)@.open_walls),
            tries_all(old(self)@.width, old(self)@.height, order@) ==> spanning_tree(
                old(self)@.width,
                old(self)@.height,
                final(self)@.open_walls,
            ),
    {
        let ghost width = self@.width;
        let ghost height = self@.height;
        proof {
            lemma_sides_fit(width, height);
        }
        let mut sets = UnionFind::new((self.width + 2) * (self.height + 2));
        assert(sets@ =~= roots_after(width, height, order@, 0));
        assert(self@.open_walls =~= opened(width, height, order@, 0));
        let mut k: usize = 0;
        while k < order.len()
            invariant
                k <= order@.len(),
                self@.wf(),
                self@ == old(self)@.with_open(opened(width, height, order@, k as int)),
                width == self@.width,
                height == self@.height,
                old(self)@.all_candidates(order@),
                sets.wf(),
                sets@ == roots_after(width, height, order@, k as int),
            decreases order@.len() - k,
        {
            let wall = order[k];
            let cell1 = wall.0;
            let cell2 = wall.1;
            let ghost open = self@.open_walls;
            let ghost roots = sets@;
            proof {
                lemma_sides_fit(width, height);
                lemma_roots_track(width, height, order@, k as int);
                lemma_opened_passages(width, height, order@, k + 1);
                lemma_opened_once(width, height, order@, k + 1);
            }
            if cell1.0 == 0 || cell1.1 == 0 || cell2.0 == self.width + 1 || cell2.1 == self.height
                + 1 {
            } else {
                proof {
                    lemma_passage_ends(width, height, wall);
                    lemma_cell_id_bound(width, height, cell1);
                    lemma_cell_id_bound(width, height, cell2);
                    assert(roots[cell_id(width, cell1)] == roots[cell_id(width, cell2)]
                        <==> connected(open, cell1, cell2));
                }
                let id1 = self.cell_to_id(cell1);
                let id2 = self.cell_to_id(cell2);
                let set1 = sets.find(id1);
                let set2 = sets.find(id2);
                if set1 != set2 {
                    self.open_walls.push(wall);
                    sets.union(set1, set2);
                    assert(sets@ =~= merge(roots, id1 as int, id2 as int));
                }
            }
            k += 1;
        }
        proof {
            lemma_opened_acyclic(width, height, order@, order@.len() as int);
            if tries_all(width, height, order@) {
                lemma_kruskal_spanning_tree(width, height, order@);
            }
        }
    }

    /// Tries the walls of the maze in a random order: opens a spanning tree
    /// of the interior cells.
    pub fn generate(&mut self)
        requires
            old(self)@.wf(),
            old(self)@.open_walls.len() == 0,
        ensures
            final(self)@.wf(),
            exists|order: Seq<Wall>|
                order.to_multiset() == old(self)@.walls.to_multiset() && final(self)@ == old(
                    self,
                )@.with_open(#[trigger] kruskal(old(self)@.width, old(self)@.height, order)),
            spanning_tree(old(self)@.width, old(self)@.height, final(self)@.open_walls),
    {
        let mut rng = rand::thread_rng();
        let mut order = self.wall_list();
        shuffle(&mut order, &mut rng);
        proof {
            let walls = self@.walls;
            assert forall|i: int| 0 <= i < order@.len() implies is_candidate(
                self@.width,
                self@.height,
                #[trigger] order@[i],
            ) by {
                assert(order@.contains(order@[i]));
                to_multiset_contains(order@, order@[i]);
                to_multiset_contains(walls, order@[i]);
                assert(walls.contains(order@[i]));
            }
            assert forall|wall: Wall| #[trigger]
                is_passage(self@.width, self@.height, wall) implies order@.contains(
                wall,
            ) by {
                assert(walls.contains(wall));
                to_multiset_contains(order@, wall);
                to_multiset_contains(walls, wall);
            }
        }
        self.generate_in_order(&order);
    }

    /// The walls of the maze, as a list of its own.
    fn wall_list(&self) -> (list: Vec<Wall>)
        ensures
            list@ == self@.walls,
    {
        let mut list: Vec<Wall> = Vec::new();
        let mut i: usize = 0;
        while i < self.walls.len()
            invariant
                i <= self.walls@.len(),
                list@ == self.walls@.subrange(0, i as int),
            decreases self.walls@.len() - i,
        {
            list.push(self.walls[i]);
            i += 1;
            assert(list@ =~= self.walls@.subrange(0, i as int));
        }
        assert(list@ =~= self.walls@);
        list
    }
}

/// A list with the items of a list without repetitions, in another order,
/// has no repetitions either, and holds the same items.
proof fn lemma_reordered<T>(from: Seq<T>, to: Seq<T>)
    requires
        from.no_duplicates(),
        to.to_multiset() == from.to_multiset(),
    ensures
        to.no_duplicates(),
        to.len() == from.len(),
        forall|item: T| #[trigger] to.contains(item) <==> from.contains(item),
{
    from.lemma_multiset_has_no_duplicates();
    to.lemma_multiset_has_no_duplicates_conv();
    to_multiset_len(from);
    to_multiset_len(to);
    assert forall|item: T| #[trigger] to.contains(item) <==> from.contains(item) by {
        to_multiset_contains(from, item);
        to_multiset_contains(to, item);
    }
}

impl Maze {
    /// The interior cells that are not part of the frame, row by row.
    fn non_wall_cells(&self) -> (cells: Vec<Cell>)
        requires
            self@.wf(),
        ensures
            is_cell_list(self@.width, self@.height, cells@),
    {
        let ghost width = self@.width;
        let ghost height = self@.height;
        proof {
            lemma_sides_fit(width, height);
        }
        let mut cells: Vec<Cell> = Vec::new();
        let mut y: usize = 1;
        while y <= self.height
            invariant
                self@.wf(),
                width == self@.width,
                height == self@.height,
                1 <= y <= height + 1,
                height + 2 <= usize::MAX,
                width + 2 <= usize::MAX,
                cells@.no_duplicates(),
                cells@.len() == (y - 1) * width,
                forall|c: Cell| #[trigger]
                    cells@.contains(c) <==> interior(width, height, c) && c.1 < y,
            decreases height + 1 - y,
        {
            let mut x: usize = 1;
            while x <= self.width
                invariant
                    self@.wf(),
                    width == self@.width,
                    height == self@.height,
                    1 <= x <= width + 1,
                    1 <= y <= height,
                    height + 2 <= usize::MAX,
                    width + 2 <= usize::MAX,
                    cells@.no_duplicates(),
                    cells@.len() == slot(width, (x, y)),
                    forall|c: Cell| #[trigger]
                        cells@.contains(c) <==> interior(width, height, c) && reads_before(
                            c,
                            (x, y),
                        ),
                decreases width + 1 - x,
            {
                let ghost before = cells@;
                proof {
                    lemma_cell_id_bound(width, height, (x, y));
                }
                let id = self.cell_to_id((x, y));
                if self.stickiness[id] != BORDER {
                    cells.push((x, y));
                }
                proof {
                    assert(cells@ == before.push((x, y)));
                    lemma_push_fresh(before, (x, y));
                    assert forall|c: Cell| #[trigger]
                        cells@.contains(c) <==> interior(width, height, c) && reads_before(
                            c,
                            ((x + 1) as usize, y),
                        ) by {
                        lemma_seq_contains_after_push(before, (x, y), c);
                    }
                }
                x += 1;
            }
            assert(cells@.len() == y * width) by (nonlinear_arith)
                requires
                    cells@.len() == (y - 1) * width + (x - 1),
                    x == width + 1,
            ;
            y += 1;
        }
        assert(cells@.len() == width * height) by (nonlinear_arith)
            requires
                cells@.len() == (y - 1) * width,
                y == height + 1,
        ;
        cells
    }

    /// Marks the last cell of `cells` as the start and the one before it as
    /// the goal, as far as the list has them. Returns how many markers were
    /// placed.
    pub fn place_markers(&mut self, cells: &Vec<Cell>) -> (placed: usize)
        requires
            old(self)@.wf(),
            forall|i: int|
                0 <= i < cells@.len() ==> interior(
                    old(self)@.width,
                    old(self)@.height,
                    #[trigger] cells@[i],
                ),
        ensures
            final(self)@.wf(),
            final(self)@ == old(self)@.with_markers(cells@),
            placed == if cells@.len() >= 2 {
                2
            } else {
                cells@.len() as int
            },
    {
        let count = cells.len();
        let mut placed: usize = 0;
        if count >= 1 {
            self.mark(cells[count - 1], START);
            placed = 1;
        }
        if count >= 2 {
            self.mark(cells[count - 2], GOAL);
            placed = 2;
        }
        placed
    }

    /// Places the start marker on one interior cell and the goal marker on
    /// another, both picked at random. A maze with a single cell gets the
    /// start only, one without cells gets nothing. Returns how many markers
    /// were placed.
    pub fn add_map(&mut self) -> (placed: usize)
        requires
            old(self)@.wf(),
        ensures
            final(self)@.wf(),
            exists|cells: Seq<Cell>|
                is_cell_list(old(self)@.width, old(self)@.height, cells) && final(self)@
                    == #[trigger] old(self)@.with_markers(cells),
            placed == if old(self)@.width * old(self)@.height >= 2 {
                2
            } else {
                old(self)@.width * old(self)@.height
            },
    {
        let mut rng = rand::thread_rng();
        let mut cells = self.non_wall_cells();
        let ghost listed = cells@;
        shuffle(&mut cells, &mut rng);
        proof {
            lemma_reordered(listed, cells@);
            assert forall|i: int| 0 <= i < cells@.len() implies interior(
                self@.width,
                self@.height,
                #[trigger] cells@[i],
            ) by {
                assert(cells@.contains(cells@[i]));
            }
        }
        self.place_markers(&cells)
    }

    /// Writes `marker` into an interior cell.
    fn mark(&mut self, cell: Cell, marker: u8)
        requires
            old(self)@.wf(),
            interior(old(self)@.width, old(self)@.height, cell),
            is_mark(marker),
        ensures
            final(self)@.wf(),
            final(self)@ == (MazeView {
                stickiness: old(self)@.stickiness.update(cell_id(old(self)@.width, cell), marker),
                ..old(self)@
            }),
    {
        let ghost width = self@.width;
        let ghost height = self@.height;
        proof {
            lemma_cell_id_bound(width, height, cell);
        }
        let id = self.cell_to_id(cell);
        self.stickiness.set(id, marker);
        proof {
            assert forall|c: Cell| in_grid(width, height, c) implies if interior(width, height, c) {
                is_mark(self@.stickiness[#[trigger] cell_id(width, c)])
            } else {
                self@.stickiness[cell_id(width, c)] == BORDER
            } by {
                lemma_cell_id_bound(width, height, c);
                if cell_id(width, c) == id {
                    lemma_cell_id_injective(width, c, cell);
                }
            }
        }
    }
}

impl Maze {
    /// The number of interior columns.
    pub fn width(&self) -> (width: usize)
        ensures
            width == self@.width,
    {
        self.width
    }

    /// The number of interior rows.
    pub fn height(&self) -> (height: usize)
        ensures
            height == self@.height,
    {
        self.height
    }

    /// The walls the grid was built with.
    pub fn walls(&self) -> (walls: &Vec<Wall>)
        ensures
            walls@ == self@.walls,
    {
        &self.walls
    }

    /// The walls that were opened, in the order in which they were.
    pub fn open_walls(&self) -> (open: &Vec<Wall>)
        ensures
            open@ == self@.open_walls,
    {
        &self.open_walls
    }

    /// What the cell holds: `BORDER`, a weight or a marker.
    pub fn stickiness(&self, cell: Cell) -> (held: u8)
        requires
            self@.wf(),
            in_grid(self@.width, self@.height, cell),
        ensures
            held == self@.at(cell),
    {
        proof {
            lemma_cell_id_bound(self@.width, self@.height, cell);
        }
        let id = self.cell_to_id(cell);
        self.stickiness[id]
    }

    /// For each cell id, whether the wall to the east of the cell is open,
    /// and whether the wall to the south is.
    fn open_sides(&self) -> (sides: (Vec<bool>, Vec<bool>))
        requires
            self@.wf(),
        ensures
            sides.0@.len() == grid_size(self@.width, self@.height),
            sides.1@.len() == grid_size(self@.width, self@.height),
            forall|c: Cell|
                in_grid(self@.width, self@.height, c) ==> {
                    &&& sides.0@[#[trigger] cell_id(self@.width, c)] == self@.open_walls.contains(
                        (c, east(c)),
                    )
                    &&& sides.1@[cell_id(self@.width, c)] == self@.open_walls.contains(
                        (c, south(c)),
                    )
                },
    {
        let ghost width = self@.width;
        let ghost height = self@.height;
        let ghost open = self@.open_walls;
        proof {
            lemma_sides_fit(width, height);
        }
        let size = (self.width + 2) * (self.height + 2);
        let mut to_east: Vec<bool> = Vec::new();
        let mut to_south: Vec<bool> = Vec::new();
        let mut i: usize = 0;
        while i < size
            invariant
                i <= size,
                to_east@.len() == i,
                to_south@.len() == i,
                forall|j: int| 0 <= j < i ==> !to_east@[j] && !to_south@[j],
            decreases size - i,
        {
            to_east.push(false);
            to_south.push(false);
            i += 1;
        }
        let mut k: usize = 0;
        assert forall|c: Cell| in_grid(width, height, c) implies {
            &&& to_east@[#[trigger] cell_id(width, c)] == open.take(0).contains((c, east(c)))
            &&& to_south@[cell_id(width, c)] == open.take(0).contains((c, south(c)))
        } by {
            lemma_cell_id_bound(width, height, c);
        }
        while k < self.open_walls.len()
            invariant
                self@.wf(),
                width == self@.width,
                height == self@.height,
                open == self@.open_walls,
                k <= open.len(),
                to_east@.len() == grid_size(width, height),
                to_south@.len() == grid_size(width, height),
                forall|c: Cell|
                    in_grid(width, height, c) ==> {
                        &&& to_east@[#[trigger] cell_id(width, c)] == open.take(k as int).contains(
                            (c, east(c)),
                        )
                        &&& to_south@[cell_id(width, c)] == open.take(k as int).contains(
                            (c, south(c)),
                        )
                    },
            decreases open.len() - k,
        {
            let wall = self.open_walls[k];
            let from = wall.0;
            let ghost east_before = to_east@;
            let ghost south_before = to_south@;
            proof {
                lemma_sides_fit(width, height);
                lemma_passage_ends(width, height, wall);
                lemma_cell_id_bound(width, height, from);
                assert(open.take(k + 1) =~= open.take(k as int).push(wall));
            }
            let id = self.cell_to_id(from);
            if wall.1.1 == from.1 {
                to_east.set(id, true);
            } else {
                to_south.set(id, true);
            }
            proof {
                assert forall|c: Cell| in_grid(width, height, c) implies {
                    &&& to_east@[#[trigger] cell_id(width, c)] == open.take(k + 1).contains(
                        (c, east(c)),
                    )
                    &&& to_south@[cell_id(width, c)] == open.take(k + 1).contains((c, south(c)))
                } by {
                    lemma_cell_id_bound(width, height, c);
                    lemma_seq_contains_after_push(
                        open.take(k as int),
                        wall,
                        (c, east(c)),
                    );
                    lemma_seq_contains_after_push(
                        open.take(k as int),
                        wall,
                        (c, south(c)),
                    );
                    if cell_id(width, c) == id {
                        lemma_cell_id_injective(width, c, from);
                    }
                }
            }
            k += 1;
        }
        assert(open.take(k as int) =~= open);
        (to_east, to_south)
    }

    /// The picture of the maze: one row of glyphs for each row of the grid,
    /// the frame included.
    pub fn render(&self) -> (rows: Vec<Vec<char>>)
        requires
            self@.wf(),
        ensures
            rows@.len() == self@.height + 2,
            forall|y: int| 0 <= y < rows@.len() ==> (#[trigger] rows@[y])@.len() == self@.width + 2,
            forall|c: Cell|
                in_grid(self@.width, self@.height, c) ==> rows@[c.1 as int]@[c.0 as int]
                    == #[trigger] self@.glyph(c),
    {
        let ghost width = self@.width;
        let ghost height = self@.height;
        proof {
            lemma_sides_fit(width, height);
        }
        let sides = self.open_sides();
        let mut rows: Vec<Vec<char>> = Vec::new();
        let mut y: usize = 0;
        while y < self.height + 2
            invariant
                self@.wf(),
                width == self@.width,
                height == self@.height,
                height + 2 <= usize::MAX,
                width + 2 <= usize::MAX,
                y <= height + 2,
                rows@.len() == y,
                sides.0@.len() == grid_size(width, height),
                sides.1@.len() == grid_size(width, height),
                forall|c: Cell|
                    in_grid(width, height, c) ==> {
                        &&& sides.0@[#[trigger] cell_id(width, c)] == self@.open_walls.contains(
                            (c, east(c)),
                        )
                        &&& sides.1@[cell_id(width, c)] == self@.open_walls.contains((c, south(c)))
                    },
                forall|j: int| 0 <= j < y ==> (#[trigger] rows@[j])@.len() == width + 2,
                forall|c: Cell|
                    in_grid(width, height, c) && c.1 < y ==> rows@[c.1 as int]@[c.0 as int]
                        == #[trigger] self@.glyph(c),
            decreases height + 2 - y,
        {
            let mut row: Vec<char> = Vec::new();
            let mut x: usize = 0;
            while x < self.width + 2
                invariant
                    self@.wf(),
                    width == self@.width,
                    height == self@.height,
                    height + 2 <= usize::MAX,
                    width + 2 <= usize::MAX,
                    y < height + 2,
                    x <= width + 2,
                    row@.len() == x,
                    sides.0@.len() == grid_size(width, height),
                    sides.1@.len() == grid_size(width, height),
                    forall|c: Cell|
                        in_grid(width, height, c) ==> {
                            &&& sides.0@[#[trigger] cell_id(width, c)]
                                == self@.open_walls.contains((c, east(c)))
                            &&& sides.1@[cell_id(width, c)] == self@.open_walls.contains(
                                (c, south(c)),
                            )
                        },
                    forall|i: int| 0 <= i < x ==> row@[i] == self@.glyph((i as usize, y)),
                decreases width + 2 - x,
            {
                proof {
                    lemma_cell_id_bound(width, height, (x, y));
                }
                let id = self.cell_to_id((x, y));
                let held = self.stickiness[id];
                let glyph = if held == BORDER || (!sides.0[id] && !sides.1[id]) {
                    WALL_GLYPH
                } else if held == START || held == GOAL {
                    held as char
                } else {
                    (held + DIGIT_ZERO) as char
                };
                row.push(glyph);
                x += 1;
            }
            let ghost above = rows@;
            rows.push(row);
            proof {
                assert forall|c: Cell|
                    in_grid(width, height, c) && c.1 < y + 1 implies rows@[c.1 as int]@[c.0 as int]
                    == #[trigger] self@.glyph(c) by {
                    if c.1 < y {
                        assert(rows@[c.1 as int] == above[c.1 as int]);
                    } else {
                        assert(c == (c.0, y));
                    }
                }
            }
            y += 1;
        }
        rows
    }
}

/// On a maze of at least two cells that carries no marker yet, placing the
/// markers leaves exactly one start and exactly one goal, on two different
/// interior cells: the last cell of the list and the one before it.
pub proof fn lemma_markers_unique(maze: MazeView, cells: Seq<Cell>, c: Cell)
    requires
        maze.wf(),
        forall|d: Cell| interior(maze.width, maze.height, d) ==> is_weight(#[trigger] maze.at(d)),
        is_cell_list(maze.width, maze.height, cells),
        cells.len() >= 2,
        in_grid(maze.width, maze.height, c),
    ensures
        interior(maze.width, maze.height, cells[cells.len() - 1]),
        interior(maze.width, maze.height, cells[cells.len() - 2]),
        cells[cells.len() - 1] != cells[cells.len() - 2],
        maze.with_markers(cells).at(c) == START <==> c == cells[cells.len() - 1],
        maze.with_markers(cells).at(c) == GOAL <==> c == cells[cells.len() - 2],
{
    let start = cells[cells.len() - 1];
    let goal = cells[cells.len() - 2];
    assert(cells.contains(start));
    assert(cells.contains(goal));
    lemma_cell_id_bound(maze.width, maze.height, start);
    lemma_cell_id_bound(maze.width, maze.height, goal);
    lemma_cell_id_bound(maze.width, maze.height, c);
    if cell_id(maze.width, c) == cell_id(maze.width, start) {
        lemma_cell_id_injective(maze.width, c, start);
    }
    if cell_id(maze.width, c) == cell_id(maze.width, goal) {
        lemma_cell_id_injective(maze.width, c, goal);
    }
    if interior(maze.width, maze.height, c) {
        assert(is_weight(maze.at(c)));
    }
}

/// The open walls depend on the size of the grid and on the order in which
/// the walls were tried, and on nothing else: two mazes of one size on which
/// the same order was tried have the same open walls.
pub proof fn lemma_order_decides_walls(first: MazeView, second: MazeView, order: Seq<Wall>)
    requires
        first.width == second.width,
        first.height == second.height,
    ensures
        first.with_open(kruskal(first.width, first.height, order)).open_walls == second.with_open(
            kruskal(second.width, second.height, order),
        ).open_walls,
{
}

} // verus!

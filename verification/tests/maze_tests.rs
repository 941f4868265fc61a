use kruskal_maze::grid::{Cell, Wall};
use kruskal_maze::maze::{Maze, BORDER, GOAL, START, WALL_GLYPH};

fn touches_frame(width: usize, height: usize, wall: Wall) -> bool {
    let (a, b) = wall;
    a.0 == 0 || a.1 == 0 || b.0 == width + 1 || b.1 == height + 1
}

fn interior_cells(width: usize, height: usize) -> Vec<Cell> {
    let mut cells = Vec::new();
    for y in 1..=height {
        for x in 1..=width {
            cells.push((x, y));
        }
    }
    cells
}

/// The cells that a path of `open` walls joins to `from`.
fn reached(open: &[Wall], from: Cell) -> Vec<Cell> {
    let mut seen = vec![from];
    let mut pending = vec![from];
    while let Some(at) = pending.pop() {
        for &(a, b) in open {
            for (here, there) in [(a, b), (b, a)] {
                if here == at && !seen.contains(&there) {
                    seen.push(there);
                    pending.push(there);
                }
            }
        }
    }
    seen
}

fn lines(maze: &Maze) -> Vec<String> {
    maze.render().iter().map(|row| row.iter().collect()).collect()
}

fn count_of(maze: &Maze, marker: u8) -> usize {
    let mut count = 0;
    for y in 0..maze.height() + 2 {
        for x in 0..maze.width() + 2 {
            if maze.stickiness((x, y)) == marker {
                count += 1;
            }
        }
    }
    count
}

fn two_by_two() -> Maze {
    Maze::with_weights(2, 2, &vec![1, 2, 3, 4])
}

fn two_by_two_order() -> Vec<Wall> {
    vec![
        ((1, 1), (2, 1)),
        ((2, 1), (3, 1)),
        ((1, 1), (1, 2)),
        ((2, 1), (2, 2)),
        ((1, 2), (2, 2)),
        ((1, 2), (1, 3)),
        ((2, 2), (3, 2)),
        ((2, 2), (2, 3)),
    ]
}

#[test]
fn new_maze_has_frame_and_weights() {
    let maze = Maze::new(4, 3);
    assert_eq!(maze.width(), 4);
    assert_eq!(maze.height(), 3);
    assert!(maze.open_walls().is_empty());
    for y in 0..5 {
        for x in 0..6 {
            let held = maze.stickiness((x, y));
            if x == 0 || y == 0 || x == 5 || y == 4 {
                assert_eq!(held, BORDER);
            } else {
                assert!((1..=9).contains(&held));
            }
        }
    }
}

#[test]
fn new_maze_draws_different_weights() {
    let maze = Maze::new(10, 10);
    let first = maze.stickiness((1, 1));
    let cells = interior_cells(10, 10);
    assert!(cells.iter().any(|&c| maze.stickiness(c) != first));
}

#[test]
fn walls_go_east_and_south_of_each_interior_cell() {
    let maze = Maze::new(3, 2);
    let walls = maze.walls();
    assert_eq!(walls.len(), 12);
    for &cell in &interior_cells(3, 2) {
        let (x, y) = cell;
        assert_eq!(walls.iter().filter(|&&w| w == (cell, (x + 1, y))).count(), 1);
        assert_eq!(walls.iter().filter(|&&w| w == (cell, (x, y + 1))).count(), 1);
    }
    assert!(walls.contains(&((3, 1), (4, 1))));
    assert!(walls.contains(&((1, 2), (1, 3))));
    assert!(!walls.iter().any(|w| w.0 .0 == 0 || w.0 .1 == 0));
}

#[test]
fn cell_ids_go_row_by_row() {
    let maze = Maze::new(5, 3);
    assert_eq!(maze.cell_to_id((0, 0)), 0);
    assert_eq!(maze.cell_to_id((6, 0)), 6);
    assert_eq!(maze.cell_to_id((0, 1)), 7);
    assert_eq!(maze.cell_to_id((3, 2)), 17);
    assert_eq!(maze.cell_to_id((6, 4)), 34);
}

#[test]
fn with_weights_reads_row_by_row() {
    let maze = Maze::with_weights(3, 2, &vec![1, 2, 3, 4, 5, 6]);
    assert_eq!(maze.stickiness((1, 1)), 1);
    assert_eq!(maze.stickiness((3, 1)), 3);
    assert_eq!(maze.stickiness((1, 2)), 4);
    assert_eq!(maze.stickiness((3, 2)), 6);
    assert_eq!(maze.stickiness((0, 1)), BORDER);
    assert_eq!(maze.stickiness((4, 2)), BORDER);
    assert_eq!(maze.stickiness((2, 3)), BORDER);
}

#[test]
fn generate_opens_one_wall_less_than_cells() {
    for (width, height) in [(1, 1), (1, 4), (5, 1), (2, 2), (3, 5), (10, 10), (17, 6)] {
        let mut maze = Maze::new(width, height);
        maze.generate();
        assert_eq!(maze.open_walls().len(), width * height - 1);
    }
}

#[test]
fn generate_connects_all_interior_cells() {
    for (width, height) in [(1, 1), (1, 4), (5, 1), (2, 2), (3, 5), (10, 10)] {
        let mut maze = Maze::new(width, height);
        maze.generate();
        let seen = reached(maze.open_walls(), (1, 1));
        let cells = interior_cells(width, height);
        assert_eq!(seen.len(), cells.len());
        for cell in cells {
            assert!(seen.contains(&cell));
        }
    }
}

#[test]
fn closing_any_open_wall_parts_its_cells() {
    for (width, height) in [(2, 2), (3, 4), (6, 5)] {
        let mut maze = Maze::new(width, height);
        maze.generate();
        let open = maze.open_walls().clone();
        for at in 0..open.len() {
            let mut rest = open.clone();
            let (a, b) = rest.remove(at);
            assert!(!reached(&rest, a).contains(&b));
        }
    }
}

#[test]
fn open_walls_never_touch_the_frame() {
    for (width, height) in [(1, 1), (2, 3), (8, 8)] {
        let mut maze = Maze::new(width, height);
        maze.generate();
        for &wall in maze.open_walls() {
            assert!(!touches_frame(width, height, wall));
            assert!(maze.walls().contains(&wall));
        }
    }
}

#[test]
fn generate_in_order_opens_what_the_order_says() {
    let mut maze = two_by_two();
    maze.generate_in_order(&two_by_two_order());
    assert_eq!(
        maze.open_walls(),
        &vec![((1, 1), (2, 1)), ((1, 1), (1, 2)), ((2, 1), (2, 2))]
    );
}

#[test]
fn same_order_gives_the_same_open_walls() {
    let mut order = two_by_two_order();
    order.reverse();
    let mut first = two_by_two();
    let mut second = Maze::with_weights(2, 2, &vec![9, 8, 7, 6]);
    first.generate_in_order(&order);
    second.generate_in_order(&order);
    assert_eq!(first.open_walls(), second.open_walls());
    assert_eq!(
        first.open_walls(),
        &vec![((1, 2), (2, 2)), ((2, 1), (2, 2)), ((1, 1), (1, 2))]
    );
}

#[test]
fn generate_in_order_with_no_walls_opens_nothing() {
    let mut maze = two_by_two();
    maze.generate_in_order(&Vec::new());
    assert!(maze.open_walls().is_empty());
}

#[test]
fn generate_tries_the_walls_in_different_orders() {
    let mut results: Vec<Vec<Wall>> = Vec::new();
    for _ in 0..30 {
        let mut maze = Maze::new(5, 5);
        maze.generate();
        results.push(maze.open_walls().clone());
    }
    assert!(results.iter().any(|open| open != &results[0]));
}

#[test]
fn generate_leaves_weights_and_walls_alone() {
    let mut maze = Maze::with_weights(3, 2, &vec![1, 2, 3, 4, 5, 6]);
    let walls = maze.walls().clone();
    maze.generate();
    assert_eq!(maze.walls(), &walls);
    assert_eq!(maze.stickiness((2, 1)), 2);
    assert_eq!(maze.stickiness((3, 2)), 6);
    assert_eq!(maze.stickiness((0, 0)), BORDER);
}

#[test]
fn empty_grid_generates_nothing() {
    for (width, height) in [(0, 0), (0, 3), (4, 0)] {
        let mut maze = Maze::new(width, height);
        assert!(maze.walls().is_empty());
        maze.generate();
        assert!(maze.open_walls().is_empty());
        assert_eq!(maze.add_map(), 0);
        let rows = lines(&maze);
        assert_eq!(rows.len(), height + 2);
        for row in rows {
            assert_eq!(row, "X".repeat(width + 2));
        }
    }
}

#[test]
fn add_map_on_a_single_cell_places_the_start_only() {
    let mut maze = Maze::new(1, 1);
    maze.generate();
    assert_eq!(maze.add_map(), 1);
    assert_eq!(maze.stickiness((1, 1)), START);
    assert_eq!(count_of(&maze, START), 1);
    assert_eq!(count_of(&maze, GOAL), 0);
}

#[test]
fn add_map_places_one_start_and_one_goal() {
    let mut maze = Maze::new(3, 3);
    maze.generate();
    assert_eq!(maze.add_map(), 2);
    assert_eq!(count_of(&maze, START), 1);
    assert_eq!(count_of(&maze, GOAL), 1);
    let cells = interior_cells(3, 3);
    let start = cells.iter().find(|&&c| maze.stickiness(c) == START);
    let goal = cells.iter().find(|&&c| maze.stickiness(c) == GOAL);
    assert!(start.is_some());
    assert!(goal.is_some());
    assert_ne!(start, goal);
    for cell in cells {
        let held = maze.stickiness(cell);
        assert!(held == START || held == GOAL || (1..=9).contains(&held));
    }
}

#[test]
fn add_map_picks_different_cells() {
    let mut starts: Vec<Cell> = Vec::new();
    for _ in 0..30 {
        let mut maze = Maze::new(5, 5);
        maze.add_map();
        let cells = interior_cells(5, 5);
        starts.push(*cells.iter().find(|&&c| maze.stickiness(c) == START).unwrap());
    }
    assert!(starts.iter().any(|start| start != &starts[0]));
}

#[test]
fn place_markers_takes_the_last_two_cells() {
    let mut maze = two_by_two();
    assert_eq!(maze.place_markers(&vec![(1, 1), (2, 2), (2, 1)]), 2);
    assert_eq!(maze.stickiness((2, 1)), START);
    assert_eq!(maze.stickiness((2, 2)), GOAL);
    assert_eq!(maze.stickiness((1, 1)), 1);
    assert_eq!(maze.stickiness((1, 2)), 3);
}

#[test]
fn place_markers_with_one_cell_and_with_none() {
    let mut maze = two_by_two();
    assert_eq!(maze.place_markers(&Vec::new()), 0);
    assert_eq!(count_of(&maze, START), 0);
    assert_eq!(maze.place_markers(&vec![(1, 2)]), 1);
    assert_eq!(maze.stickiness((1, 2)), START);
    assert_eq!(count_of(&maze, GOAL), 0);
}

#[test]
fn render_draws_walls_digits_and_markers() {
    let mut maze = two_by_two();
    assert_eq!(lines(&maze), vec!["XXXX", "XXXX", "XXXX", "XXXX"]);
    maze.generate_in_order(&two_by_two_order());
    assert_eq!(lines(&maze), vec!["XXXX", "X12X", "XXXX", "XXXX"]);
    maze.place_markers(&vec![(2, 2), (2, 1), (1, 1)]);
    assert_eq!(lines(&maze), vec!["XXXX", "XSGX", "XXXX", "XXXX"]);
}

#[test]
fn render_draws_each_weight_as_its_digit() {
    let mut maze = Maze::with_weights(9, 1, &vec![9, 8, 7, 6, 5, 4, 3, 2, 1]);
    let order: Vec<Wall> = maze.walls().clone();
    maze.generate_in_order(&order);
    assert_eq!(lines(&maze), vec!["XXXXXXXXXXX", "X98765432XX", "XXXXXXXXXXX"]);
}

#[test]
fn render_of_five_by_five() {
    let mut maze = Maze::new(5, 5);
    maze.generate();
    let rows = lines(&maze);
    assert_eq!(rows.len(), 7);
    for row in &rows {
        assert!(!row.is_empty());
        assert_eq!(row.chars().count(), 7);
        assert!(row.chars().all(|c| c == WALL_GLYPH || ('1'..='9').contains(&c)));
    }
    assert_eq!(rows[0], "XXXXXXX");
    assert_eq!(rows[6], "XXXXXXX");
}

#[test]
fn render_follows_the_open_walls() {
    let mut maze = Maze::new(6, 4);
    maze.generate();
    maze.add_map();
    let rows = maze.render();
    for y in 0..6 {
        for x in 0..8 {
            let held = maze.stickiness((x, y));
            let open = maze.open_walls();
            let drawn = rows[y][x];
            if held == BORDER
                || (!open.contains(&((x, y), (x + 1, y))) && !open.contains(&((x, y), (x, y + 1))))
            {
                assert_eq!(drawn, 'X');
            } else if held == START {
                assert_eq!(drawn, 'S');
            } else if held == GOAL {
                assert_eq!(drawn, 'G');
            } else {
                assert_eq!(drawn, char::from_digit(held as u32, 10).unwrap());
            }
        }
    }
}

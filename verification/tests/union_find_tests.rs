use kruskal_maze::union_find::UnionFind;

fn same_set(sets: &mut UnionFind, a: usize, b: usize) -> bool {
    sets.find(a) == sets.find(b)
}

/// Whether `unions`, read as edges, join `a` and `b` by a path.
fn joined(size: usize, unions: &[(usize, usize)], a: usize, b: usize) -> bool {
    let mut seen = vec![false; size];
    let mut pending = vec![a];
    seen[a] = true;
    while let Some(at) = pending.pop() {
        for &(p, q) in unions {
            for (from, to) in [(p, q), (q, p)] {
                if from == at && !seen[to] {
                    seen[to] = true;
                    pending.push(to);
                }
            }
        }
    }
    seen[b]
}

#[test]
fn new_sets_are_singletons() {
    let mut sets = UnionFind::new(6);
    for node in 0..6 {
        assert_eq!(sets.find(node), node);
    }
}

#[test]
fn new_with_no_nodes() {
    let _sets = UnionFind::new(0);
}

#[test]
fn union_makes_the_second_root_the_root_of_both() {
    let mut sets = UnionFind::new(4);
    sets.union(0, 1);
    assert_eq!(sets.find(0), 1);
    assert_eq!(sets.find(1), 1);
    assert_eq!(sets.find(2), 2);
    assert_eq!(sets.find(3), 3);
    sets.union(1, 2);
    assert_eq!(sets.find(0), 2);
    assert_eq!(sets.find(1), 2);
    assert_eq!(sets.find(2), 2);
    assert_eq!(sets.find(3), 3);
}

#[test]
fn union_of_one_set_changes_nothing() {
    let mut sets = UnionFind::new(3);
    sets.union(0, 1);
    sets.union(1, 0);
    sets.union(0, 0);
    assert_eq!(sets.find(0), 1);
    assert_eq!(sets.find(1), 1);
    assert_eq!(sets.find(2), 2);
}

#[test]
fn union_is_transitive() {
    let mut sets = UnionFind::new(5);
    sets.union(0, 1);
    sets.union(3, 4);
    assert!(!same_set(&mut sets, 1, 3));
    sets.union(1, 3);
    assert!(same_set(&mut sets, 0, 4));
    assert!(!same_set(&mut sets, 0, 2));
}

#[test]
fn find_keeps_the_sets() {
    let mut sets = UnionFind::new(8);
    for node in 0..7 {
        sets.union(node, node + 1);
    }
    for _ in 0..3 {
        for node in 0..8 {
            assert_eq!(sets.find(node), 7);
        }
    }
}

#[test]
fn find_on_a_long_chain() {
    let size = 50_000;
    let mut sets = UnionFind::new(size);
    for node in 0..size - 1 {
        sets.union(node, node + 1);
    }
    assert_eq!(sets.find(0), size - 1);
    assert_eq!(sets.find(size / 2), size - 1);
}

#[test]
fn same_root_exactly_when_joined_by_unions() {
    let size = 9;
    let unions = [(0, 1), (2, 3), (1, 3), (5, 6), (6, 5), (7, 7), (8, 5)];
    let mut sets = UnionFind::new(size);
    for done in 0..=unions.len() {
        if done > 0 {
            let (a, b) = unions[done - 1];
            sets.union(a, b);
        }
        for a in 0..size {
            for b in 0..size {
                assert_eq!(same_set(&mut sets, a, b), joined(size, &unions[..done], a, b));
            }
        }
    }
}

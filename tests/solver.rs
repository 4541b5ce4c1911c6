use water_sort_puzzle_solver::dfs_solver::Solver as TubeListSolver;
use water_sort_puzzle_solver::graph::all_stats;
use water_sort_puzzle_solver::store::{Node, StateStore};
use water_sort_puzzle_solver::{
    all_same, get_transform, get_tube_stat, is_solved, next_moves, pour, pour_back, BFSSolver,
    DFSSolver, Move, SolutionStep, Solver, TubeStats,
};

/// Plays the moves on a buffer: each pours as much of the top run of
/// `from` as fits on `to`.
fn replay(buf: &[u8], height: usize, steps: &[SolutionStep]) -> Vec<u8> {
    let mut state = buf.to_vec();
    for step in steps {
        let from = &state[step.from * height..(step.from + 1) * height];
        let to = &state[step.to * height..(step.to + 1) * height];
        let from_size = from.iter().take_while(|&&c| c != 0).count();
        let to_size = to.iter().take_while(|&&c| c != 0).count();
        assert!(from_size > 0, "pour from an empty tube");
        let color = from[from_size - 1];
        assert!(to_size == 0 || to[to_size - 1] == color, "pour onto another color");
        let mut run = 0;
        while run < from_size && from[from_size - 1 - run] == color {
            run += 1;
        }
        let amount = run.min(height - to_size);
        assert!(amount > 0, "pour into a full tube");
        for k in 0..amount {
            state[step.from * height + from_size - 1 - k] = 0;
            state[step.to * height + to_size + k] = color;
        }
    }
    state
}

fn solve_bfs(height: usize, colors: usize, tubes: Vec<u8>) -> Option<Vec<SolutionStep>> {
    let mut solver = BFSSolver::new(height, colors, tubes);
    if solver.search() {
        Some(solver.get_solution())
    } else {
        None
    }
}

fn solve_dfs(height: usize, colors: usize, tubes: Vec<u8>) -> Option<Vec<SolutionStep>> {
    let mut solver = DFSSolver::new(height, colors, tubes);
    if solver.search() {
        Some(solver.get_solution())
    } else {
        None
    }
}

#[test]
fn alternating_two_colors_both_solvers_succeed() {
    let tubes = vec![1, 2, 1, 2, 2, 1, 2, 1, 0, 0, 0, 0];
    let bfs = solve_bfs(4, 2, tubes.clone()).expect("breadth-first search finds a solution");
    let dfs = solve_dfs(4, 2, tubes.clone()).expect("depth-first search finds a solution");
    assert!(is_solved(&replay(&tubes, 4, &bfs), 4));
    assert!(is_solved(&replay(&tubes, 4, &dfs), 4));
    assert!(bfs.len() <= dfs.len());
}

#[test]
fn no_empty_tube_and_no_pour_fails() {
    let tubes = vec![1, 2, 2, 1];
    assert!(solve_bfs(2, 2, tubes.clone()).is_none());
    assert!(solve_dfs(2, 2, tubes).is_none());
}

#[test]
fn already_solved_needs_no_moves() {
    let tubes = vec![1, 1, 2, 2, 0, 0];
    assert_eq!(solve_bfs(2, 2, tubes.clone()).map(|s| s.len()), Some(0));
    assert_eq!(solve_dfs(2, 2, tubes).map(|s| s.len()), Some(0));
}

#[test]
fn bfs_never_longer_than_dfs() {
    let puzzles: Vec<(usize, usize, Vec<u8>)> = vec![
        (3, 3, vec![1, 2, 3, 3, 1, 2, 2, 3, 1, 0, 0, 0, 0, 0, 0]),
        (4, 3, vec![1, 2, 3, 1, 2, 3, 1, 2, 3, 1, 2, 3, 0, 0, 0, 0, 0, 0, 0, 0]),
        (2, 3, vec![1, 2, 2, 3, 3, 1, 0, 0, 0, 0]),
    ];
    for (height, colors, tubes) in puzzles {
        let bfs = solve_bfs(height, colors, tubes.clone());
        let dfs = solve_dfs(height, colors, tubes.clone());
        assert_eq!(bfs.is_some(), dfs.is_some());
        if let (Some(b), Some(d)) = (bfs, dfs) {
            assert!(b.len() <= d.len());
            assert!(is_solved(&replay(&tubes, height, &b), height));
            assert!(is_solved(&replay(&tubes, height, &d), height));
        }
    }
}

#[test]
fn moves_are_in_given_tube_numbers() {
    // The empty tube comes first after sorting, so canonical and given
    // numbers differ here.
    let tubes = vec![2, 1, 1, 2, 0, 0];
    let bfs = solve_bfs(2, 2, tubes.clone()).expect("solvable");
    let dfs = solve_dfs(2, 2, tubes.clone()).expect("solvable");
    assert!(is_solved(&replay(&tubes, 2, &bfs), 2));
    assert!(is_solved(&replay(&tubes, 2, &dfs), 2));
    assert_eq!(bfs.len(), 3);
}

#[test]
fn single_merge_is_one_move() {
    let tubes = vec![1, 0, 0, 2, 2, 2, 1, 1, 0];
    let bfs = solve_bfs(3, 2, tubes.clone()).expect("solvable");
    assert_eq!(bfs.len(), 1);
    assert_eq!((bfs[0].from, bfs[0].to), (0, 2));
    let dfs = solve_dfs(3, 2, tubes).expect("solvable");
    assert_eq!(dfs.len(), 1);
}

#[test]
fn canonicalizing_sorted_tubes_is_identity() {
    let sorted = vec![0, 0, 0, 1, 2, 0, 2, 1, 1];
    let (transform, canon) = get_transform(&sorted, 3, 3);
    assert_eq!(transform, vec![0, 1, 2]);
    assert_eq!(canon, sorted);
}

#[test]
fn canonicalizing_twice_is_identity() {
    let tubes = vec![2, 1, 0, 1, 1, 2, 0, 0, 0, 1, 2, 0];
    let (_, canon) = get_transform(&tubes, 3, 4);
    let (transform, again) = get_transform(&canon, 3, 4);
    assert_eq!(transform, vec![0, 1, 2, 3]);
    assert_eq!(again, canon);
}

#[test]
fn canonical_form_sorts_tubes() {
    let tubes = vec![2, 1, 0, 1, 1, 2, 0, 0, 0, 1, 2, 0];
    let (transform, canon) = get_transform(&tubes, 3, 4);
    assert_eq!(transform, vec![2, 1, 3, 0]);
    assert_eq!(canon, vec![0, 0, 0, 1, 1, 2, 1, 2, 0, 2, 1, 0]);
}

#[test]
fn equal_tubes_keep_their_order() {
    let tubes = vec![1, 0, 0, 0, 1, 0];
    let (transform, canon) = get_transform(&tubes, 2, 3);
    assert_eq!(transform, vec![1, 0, 2]);
    assert_eq!(canon, vec![0, 0, 1, 0, 1, 0]);
}

#[test]
fn inverse_permutation_restores_arrangement() {
    let height = 3;
    let tubes = vec![2, 1, 0, 1, 1, 2, 0, 0, 0, 1, 2, 0];
    let (transform, canon) = get_transform(&tubes, height, 4);
    let mut restored = vec![0u8; tubes.len()];
    for (i, &t) in transform.iter().enumerate() {
        restored[t * height..(t + 1) * height]
            .copy_from_slice(&canon[i * height..(i + 1) * height]);
    }
    assert_eq!(restored, tubes);
}

#[test]
fn pour_then_pour_back_restores_buffer() {
    let height = 4;
    let before = vec![1, 2, 2, 0, 3, 2, 0, 0, 0, 0, 0, 0];
    for &(from, to, amount) in &[(0usize, 1usize, 2usize), (0, 1, 1), (0, 2, 2), (1, 0, 1)] {
        let stats = all_stats(&before, height, 3);
        let mut state = before.clone();
        pour(&mut state, height, &stats, from, to, amount);
        assert_ne!(state, before);
        pour_back(&mut state, height, from, to, amount);
        assert_eq!(state, before);
    }
}

#[test]
fn pour_moves_top_run() {
    let height = 4;
    let mut state = vec![1, 2, 2, 0, 3, 2, 0, 0];
    let stats = all_stats(&state, height, 2);
    pour(&mut state, height, &stats, 0, 1, 2);
    assert_eq!(state, vec![1, 0, 0, 0, 3, 2, 2, 2]);
    pour_back(&mut state, height, 0, 1, 2);
    assert_eq!(state, vec![1, 2, 2, 0, 3, 2, 0, 0]);
}

#[test]
fn solved_predicate() {
    assert!(is_solved(&vec![1, 1, 0, 0, 2, 2], 2));
    assert!(is_solved(&vec![0, 0, 0], 3));
    assert!(is_solved(&vec![], 3));
    assert!(!is_solved(&vec![1, 2, 0, 0], 2));
    assert!(!is_solved(&vec![1, 0, 2, 2], 2));
    assert!(!is_solved(&vec![1, 1, 0, 2, 2, 2], 3));
}

#[test]
fn all_same_cases() {
    assert!(all_same(&vec![]));
    assert!(all_same(&vec![3]));
    assert!(all_same(&vec![2, 2, 2]));
    assert!(!all_same(&vec![2, 2, 1]));
    assert!(!all_same(&vec![1, 0]));
}

#[test]
fn tube_stats() {
    let buf = vec![1, 2, 2, 0, 0, 0, 0, 0, 3, 3, 3, 3, 4, 0, 0, 0];
    assert_eq!(
        get_tube_stat(&buf, 4, 0),
        TubeStats { size: 3, color_height: 2, color: 2, simple: false }
    );
    assert_eq!(
        get_tube_stat(&buf, 4, 1),
        TubeStats { size: 0, color_height: 0, color: 0, simple: false }
    );
    assert_eq!(
        get_tube_stat(&buf, 4, 2),
        TubeStats { size: 4, color_height: 4, color: 3, simple: true }
    );
    assert_eq!(
        get_tube_stat(&buf, 4, 3),
        TubeStats { size: 1, color_height: 1, color: 4, simple: true }
    );
}

#[test]
fn forced_merge_comes_alone() {
    // Two single-colored tubes of color 1 that together fill a tube.
    let buf = vec![0, 0, 0, 1, 0, 0, 1, 1, 0, 2, 2, 2];
    let stats = all_stats(&buf, 3, 4);
    let moves = next_moves(&stats, 3);
    assert_eq!(moves, vec![Move { from: 1, to: 2, amount: 1 }]);
}

#[test]
fn forced_completion_comes_alone() {
    // A single-colored tube of 2 and a mixed tube topped by 2 that fills it.
    let buf = vec![0, 0, 0, 1, 1, 0, 1, 2, 2, 2, 0, 0];
    let stats = all_stats(&buf, 3, 4);
    let moves = next_moves(&stats, 3);
    assert_eq!(moves, vec![Move { from: 2, to: 3, amount: 2 }]);
}

#[test]
fn general_moves_in_order() {
    let buf = vec![0, 0, 0, 1, 2, 0, 2, 1, 0];
    let stats = all_stats(&buf, 3, 3);
    let moves = next_moves(&stats, 3);
    assert_eq!(
        moves,
        vec![Move { from: 1, to: 0, amount: 1 }, Move { from: 2, to: 0, amount: 1 }]
    );
}

#[test]
fn pair_moves_limited_by_room() {
    let buf = vec![1, 2, 2, 3, 2, 0];
    let stats = all_stats(&buf, 3, 2);
    let moves = next_moves(&stats, 3);
    assert_eq!(moves, vec![Move { from: 0, to: 1, amount: 1 }]);
}

#[test]
fn search_twice_gives_same_answer() {
    let tubes = vec![1, 2, 1, 2, 2, 1, 2, 1, 0, 0, 0, 0];
    let mut solver = BFSSolver::new(4, 2, tubes.clone());
    assert!(solver.search());
    let first = solver.get_solution();
    assert!(solver.search());
    let second = solver.get_solution();
    assert_eq!(first, second);
    let mut solver = DFSSolver::new(4, 2, tubes);
    assert!(solver.search());
    let first = solver.get_solution();
    assert!(solver.search());
    assert_eq!(first, solver.get_solution());
}

#[test]
fn tube_list_solver() {
    let tubes = vec![vec![2, 1], vec![1, 2], vec![]];
    let mut solver = TubeListSolver::new(2, 2, &tubes);
    assert!(solver.get_solution().is_none());
    assert!(solver.search());
    let steps = solver.get_solution().expect("a solution after a successful search");
    assert!(is_solved(&replay(&[2, 1, 1, 2, 0, 0], 2, &steps), 2));

    let mut stuck = TubeListSolver::new(2, 2, &vec![vec![1, 2], vec![2, 1]]);
    assert!(!stuck.search());
    assert!(stuck.get_solution().is_none());
}

#[test]
fn tube_list_solved_predicate() {
    let solver = TubeListSolver::new(2, 2, &vec![vec![1, 1], vec![2, 2], vec![]]);
    assert!(solver.is_solved(&vec![vec![1, 1], vec![2, 2], vec![]]));
    assert!(!solver.is_solved(&vec![vec![1, 2], vec![2, 1], vec![]]));
    assert!(!solver.is_solved(&vec![vec![1], vec![1, 2, 2]]));
    assert!(!solver.is_solved(&vec![vec![1], vec![2, 2]]));
}

#[test]
fn state_store_lookup_and_insert() {
    let node = |key: Vec<u8>, parent: usize| Node {
        key,
        parent,
        depth: 0,
        from: 0,
        to: 0,
        amount: 0,
        transform: vec![],
    };
    let mut store = StateStore::new();
    assert_eq!(store.len(), 0);
    assert_eq!(store.lookup(&vec![1, 2, 3]), None);
    assert_eq!(store.insert(node(vec![1, 2, 3], 0)), 0);
    assert_eq!(store.insert(node(vec![3, 2, 1], 0)), 1);
    assert_eq!(store.lookup(&vec![1, 2, 3]), Some(0));
    assert_eq!(store.lookup(&vec![3, 2, 1]), Some(1));
    assert_eq!(store.lookup(&vec![2, 2, 2]), None);
    assert_eq!(store.node(1).key, vec![3, 2, 1]);
    assert_eq!(store.len(), 2);
}

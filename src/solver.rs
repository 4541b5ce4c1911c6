use vstd::prelude::*;
use crate::canonical::canon_key;
use crate::graph::{is_route, keys_of, solvable};
use crate::store::{Node, StateStore};
use crate::tube::{solved, well_formed};

verus! {

/// One move of a solution: pour from tube `from` onto tube `to`, both
/// numbered as in the puzzle as given (from zero).
#[derive(Clone, Copy, Debug, PartialEq, Eq, Structural)]
pub struct SolutionStep {
    pub from: usize,
    pub to: usize,
}

/// For each tube of the state of `path[i]`, the tube of the puzzle as given
/// that it stands for.
pub open spec fn running_perm(path: Seq<Node>, n: nat, i: int) -> Seq<usize>
    decreases i + 1,
{
    if i < 0 {
        Seq::new(n, |t: int| t as usize)
    } else {
        let prev = running_perm(path, n, i - 1);
        Seq::new(n, |t: int| prev[path[i].transform@[t] as int])
    }
}

/// The moves of `path`, in the tube numbers of the puzzle as given.
pub open spec fn solution_of(path: Seq<Node>, n: nat) -> Seq<SolutionStep> {
    Seq::new(
        (path.len() - 1) as nat,
        |i: int|
            SolutionStep {
                from: running_perm(path, n, i)[path[i + 1].from as int],
                to: running_perm(path, n, i)[path[i + 1].to as int],
            },
    )
}

/// The node records what `solution_of` reads: a permutation of the `n`
/// tubes, and unless it is the first node of a path, a move between tubes.
pub open spec fn node_ok(nd: Node, n: nat, first: bool) -> bool {
    &&& nd.transform@.len() == n
    &&& forall|t: int| 0 <= t < n ==> #[trigger] nd.transform@[t] < n
    &&& !first ==> nd.from < n && nd.to < n
}

/// The moves along the nodes numbered `path` of `store`, in the tube
/// numbers of the puzzle as given: the first node is the start, and each
/// later node's move is renumbered through the permutations of the nodes
/// before it.
pub fn solution_steps(store: &StateStore, path: &Vec<usize>, n: usize) -> (r: Vec<SolutionStep>)
    requires
        path@.len() >= 1,
        forall|i: int| 0 <= i < path@.len() ==> #[trigger] path@[i] < store.nodes().len(),
        forall|i: int|
            0 <= i < path@.len() ==> node_ok(store.nodes()[#[trigger] path@[i] as int], n as nat, i == 0),
    ensures
        r@ == solution_of(path@.map_values(|id: usize| store.nodes()[id as int]), n as nat),
{
    let ghost nodes = path@.map_values(|id: usize| store.nodes()[id as int]);
    let mut perm: Vec<usize> = Vec::new();
    let mut t: usize = 0;
    while t < n
        invariant
            t <= n,
            perm@ == Seq::new(t as nat, |x: int| x as usize),
        decreases n - t,
    {
        perm.push(t);
        assert(perm@ =~= Seq::new((t + 1) as nat, |x: int| x as usize));
        t += 1;
    }
    let mut steps: Vec<SolutionStep> = Vec::new();
    let mut i: usize = 0;
    while i < path.len()
        invariant
            nodes == path@.map_values(|id: usize| store.nodes()[id as int]),
            1 <= path@.len(),
            forall|j: int| 0 <= j < path@.len() ==> #[trigger] path@[j] < store.nodes().len(),
            forall|j: int|
                0 <= j < path@.len() ==> node_ok(
                    store.nodes()[#[trigger] path@[j] as int],
                    n as nat,
                    j == 0,
                ),
            i <= path@.len(),
            perm@ == running_perm(nodes, n as nat, i - 1),
            steps@.len() == if i == 0 {
                0
            } else {
                i - 1
            },
            forall|j: int| 0 <= j < steps@.len() ==> #[trigger] steps@[j] == solution_of(nodes, n as nat)[j],
        decreases path@.len() - i,
    {
        let nd = store.node(path[i]);
        assert(nodes[i as int] == *nd);
        if i > 0 {
            let step = SolutionStep { from: perm[nd.from], to: perm[nd.to] };
            steps.push(step);
        }
        let mut next: Vec<usize> = Vec::new();
        let mut t: usize = 0;
        while t < n
            invariant
                t <= n,
                perm@.len() == n,
                node_ok(*nd, n as nat, i == 0),
                next@ == Seq::new(t as nat, |x: int| perm@[nd.transform@[x] as int]),
            decreases n - t,
        {
            next.push(perm[nd.transform[t]]);
            assert(next@ =~= Seq::new((t + 1) as nat, |x: int| perm@[nd.transform@[x] as int]));
            t += 1;
        }
        perm = next;
        i += 1;
    }
    assert(steps@ =~= solution_of(nodes, n as nat));
    steps
}

/// A solver of the puzzle: built from a buffer of tubes, it searches once
/// and can then list the moves it found.
pub trait Solver: Sized {
    /// Height of each tube.
    spec fn puzzle_height(&self) -> nat;

    /// Number of tubes.
    spec fn tube_count(&self) -> nat;

    /// The tubes as given.
    spec fn initial(&self) -> Seq<u8>;

    /// The solver's own records are consistent.
    spec fn valid(&self) -> bool;

    /// The last search found a solution.
    spec fn found(&self) -> bool;

    /// The nodes of the solution found, from the start.
    spec fn path(&self) -> Seq<Node>;

    /// Height of each tube.
    fn height(&self) -> (r: usize)
        requires
            self.valid(),
        ensures
            r == self.puzzle_height(),
            r > 0,
    ;

    /// Whether a buffer of tubes of this puzzle's height is solved: every
    /// tube empty or full with one color.
    fn is_solved(&self, state: &Vec<u8>) -> (r: bool)
        requires
            self.valid(),
            state@.len() % self.puzzle_height() == 0,
        ensures
            r == solved(state@, self.puzzle_height(), state@.len() / self.puzzle_height()),
    {
        let height = self.height();
        crate::tube::is_solved(state, height)
    }

    fn new(height: usize, colors: usize, initial_tubes: Vec<u8>) -> (r: Self)
        requires
            height > 0,
            initial_tubes@.len() % (height as nat) == 0,
            well_formed(
                initial_tubes@,
                height as nat,
                initial_tubes@.len() / (height as nat),
            ),
        ensures
            r.valid(),
            r.puzzle_height() == height,
            r.tube_count() == initial_tubes@.len() / (height as nat),
            r.initial() == initial_tubes@,
            !r.found(),
    ;

    /// Searches for a solution; true if one was found, which is exactly
    /// when some route of the search reaches a solved state.
    fn search(&mut self) -> (r: bool)
        requires
            old(self).valid(),
        ensures
            final(self).valid(),
            final(self).puzzle_height() == old(self).puzzle_height(),
            final(self).tube_count() == old(self).tube_count(),
            final(self).initial() == old(self).initial(),
            r == final(self).found(),
            r == solvable(
                canon_key(old(self).initial(), old(self).puzzle_height(), old(self).tube_count()),
                old(self).puzzle_height(),
                old(self).tube_count(),
            ),
            r ==> is_route(
                keys_of(final(self).path()),
                canon_key(old(self).initial(), old(self).puzzle_height(), old(self).tube_count()),
                old(self).puzzle_height(),
                old(self).tube_count(),
            ),
            r ==> solved(
                keys_of(final(self).path()).last(),
                old(self).puzzle_height(),
                old(self).tube_count(),
            ),
    ;

    /// The moves of the solution found, in the tube numbers of the puzzle
    /// as given.
    fn get_solution(&self) -> (r: Vec<SolutionStep>)
        requires
            self.valid(),
            self.found(),
        ensures
            r@.len() + 1 == self.path().len(),
            r@ == solution_of(self.path(), self.tube_count()),
    ;
}

} // verus!

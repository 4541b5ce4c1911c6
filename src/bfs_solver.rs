use vstd::prelude::*;
use vstd::arithmetic::power::pow;
use crate::canonical::{canon_key, get_transform, lemma_div_mod};
use crate::graph::{
    root_ok,
    all_stats, chain_ids, is_route, keys_of, lemma_chain_route, lemma_successors, nodes_ok,
    path_nodes, step_key, successor, successors, tree_ok, lemma_child_ok, child_ok,
};
use crate::moves::{full_amount, next_moves, planned_moves};
use crate::dfs_solver::DFSSolver;
use crate::replay::{lemma_recorded_path_solves, recorded, replay};
use crate::solver::{node_ok, solution_steps, solution_of, SolutionStep, Solver};
use crate::store::{lemma_store_bounded, Node, StateStore};
use crate::tube::{gapless, is_solved, pour_fits, solved, stats_of, tube_of, well_formed};

verus! {

/// Breadth-first search: states are expanded in the order in which they
/// were found, so the first solved state found is one of the fewest moves.
pub struct BFSSolver {
    height: usize,
    colors: usize,
    tubes: usize,
    initial_tubes: Vec<u8>,
    states: StateStore,
    solution: Option<usize>,
}

/// `k` is stored, at a depth no greater than `d`.
pub open spec fn stored_within(store: StateStore, k: Seq<u8>, d: int) -> bool {
    store.ids().contains_key(k) && store.nodes()[store.ids()[k] as int].depth <= d
}

/// Every successor of node `i` is stored, at most one level deeper.
pub open spec fn expanded(store: StateStore, h: nat, n: nat, i: int) -> bool {
    let key = store.nodes()[i].key@;
    forall|k: int|
        0 <= k < successors(key, h, n).len() ==> #[trigger] stored_within(
            store,
            successors(key, h, n)[k],
            store.nodes()[i].depth + 1,
        )
}

/// Depths never decrease along the store.
pub open spec fn depths_ascending(nodes: Seq<Node>) -> bool {
    forall|i: int, j: int|
        0 <= i <= j < nodes.len() ==> #[trigger] nodes[i].depth <= #[trigger] nodes[j].depth
}

/// What holds of the store while node `head` is the next to expand.
pub open spec fn frontier_ok(store: StateStore, start: Seq<u8>, h: nat, n: nat, head: int) -> bool {
    let nodes = store.nodes();
    &&& store.wf()
    &&& nodes_ok(nodes, start, h, n)
    &&& depths_ascending(nodes)
    &&& 0 <= head <= nodes.len()
    &&& head < nodes.len() ==> forall|j: int|
        0 <= j < nodes.len() ==> #[trigger] nodes[j].depth <= nodes[head].depth + 1
    &&& forall|i: int| 0 <= i < head ==> #[trigger] expanded(store, h, n, i)
    &&& forall|i: int| 0 <= i < nodes.len() ==> !solved(#[trigger] nodes[i].key@, h, n)
}

/// Every route from the start reaches, within as many moves as node
/// `head` is deep, only stored states, each stored no deeper than the
/// route had gone.
proof fn lemma_bfs_reach(
    store: StateStore,
    start: Seq<u8>,
    h: nat,
    n: nat,
    head: int,
    p: Seq<Seq<u8>>,
    l: int,
)
    requires
        frontier_ok(store, start, h, n, head),
        head < store.nodes().len(),
        is_route(p, start, h, n),
        0 <= l < p.len(),
        l <= store.nodes()[head].depth,
    ensures
        stored_within(store, p[l], l),
    decreases l,
{
    let nodes = store.nodes();
    if l == 0 {
        assert(store.ids().contains_key(nodes[0].key@));
    } else {
        lemma_bfs_reach(store, start, h, n, head, p, l - 1);
        let id = store.ids()[p[l - 1]] as int;
        if id >= head {
            assert(nodes[head].depth <= nodes[id].depth);
        }
        assert(expanded(store, h, n, id));
        assert(p[l - 1 + 1] == p[l]);
        assert(successors(p[l - 1], h, n).contains(p[l]));
        let k = choose|k: int|
            0 <= k < successors(p[l - 1], h, n).len() && #[trigger] successors(p[l - 1], h, n)[k]
                == p[l];
        assert(stored_within(store, successors(nodes[id].key@, h, n)[k], nodes[id].depth + 1));
    }
}

/// Once every stored state is expanded, every route from the start stays
/// among stored states.
proof fn lemma_bfs_closed(
    store: StateStore,
    start: Seq<u8>,
    h: nat,
    n: nat,
    p: Seq<Seq<u8>>,
    l: int,
)
    requires
        frontier_ok(store, start, h, n, store.nodes().len() as int),
        is_route(p, start, h, n),
        0 <= l < p.len(),
    ensures
        store.ids().contains_key(p[l]),
    decreases l,
{
    let nodes = store.nodes();
    if l == 0 {
        assert(store.ids().contains_key(nodes[0].key@));
    } else {
        lemma_bfs_closed(store, start, h, n, p, l - 1);
        let id = store.ids()[p[l - 1]] as int;
        assert(expanded(store, h, n, id));
        assert(p[l - 1 + 1] == p[l]);
        assert(successors(p[l - 1], h, n).contains(p[l]));
        let k = choose|k: int|
            0 <= k < successors(p[l - 1], h, n).len() && #[trigger] successors(p[l - 1], h, n)[k]
                == p[l];
        assert(stored_within(store, successors(nodes[id].key@, h, n)[k], nodes[id].depth + 1));
    }
}

/// Adding a state keeps what was stored where it was.
proof fn lemma_stored_grows(old_store: StateStore, new_store: StateStore, k: Seq<u8>, d: int)
    requires
        old_store.wf(),
        new_store.ids() == old_store.ids().insert(
            new_store.nodes().last().key@,
            (new_store.nodes().len() - 1) as usize,
        ),
        new_store.nodes() == old_store.nodes().push(new_store.nodes().last()),
        !old_store.ids().contains_key(new_store.nodes().last().key@),
        stored_within(old_store, k, d),
    ensures
        stored_within(new_store, k, d),
{
    assert(k != new_store.nodes().last().key@);
    assert(old_store.ids()[k] < old_store.nodes().len());
}

/// Storing a new successor of node `head`, one level deeper, keeps the
/// search's facts, and keeps every stored state where it was.
proof fn lemma_frontier_insert(
    old_store: StateStore,
    new_store: StateStore,
    start: Seq<u8>,
    h: nat,
    n: nat,
    head: int,
)
    requires
        frontier_ok(old_store, start, h, n, head),
        head < old_store.nodes().len(),
        new_store.wf(),
        new_store.nodes() == old_store.nodes().push(new_store.nodes().last()),
        new_store.ids() == old_store.ids().insert(
            new_store.nodes().last().key@,
            old_store.nodes().len() as usize,
        ),
        !old_store.ids().contains_key(new_store.nodes().last().key@),
        new_store.nodes().len() <= usize::MAX,
        new_store.nodes().last().parent == head,
        new_store.nodes().last().depth == old_store.nodes()[head].depth + 1,
        successors(old_store.nodes()[head].key@, h, n).contains(new_store.nodes().last().key@),
        child_ok(old_store.nodes()[head].key@, new_store.nodes().last(), h, n),
        well_formed(new_store.nodes().last().key@, h, n),
        node_ok(new_store.nodes().last(), n, false),
    ensures
        nodes_ok(new_store.nodes(), start, h, n),
        !solved(new_store.nodes().last().key@, h, n) ==> frontier_ok(new_store, start, h, n, head),
        forall|k: Seq<u8>, d: int|
            stored_within(old_store, k, d) ==> #[trigger] stored_within(new_store, k, d),
{
    let nodes = new_store.nodes();
    let old_nodes = old_store.nodes();
    let id = old_nodes.len() as int;
    let node = nodes.last();
    assert(nodes[id] == node);
    assert forall|k: Seq<u8>, d: int| stored_within(old_store, k, d) implies #[trigger] stored_within(
        new_store,
        k,
        d,
    ) by {
        lemma_stored_grows(old_store, new_store, k, d);
    }
    assert(tree_ok(nodes, start, h, n)) by {
        assert forall|i: int| 0 < i < nodes.len() implies {
            &&& (#[trigger] nodes[i]).parent < i
            &&& nodes[i].depth == nodes[nodes[i].parent as int].depth + 1
            &&& successors(nodes[nodes[i].parent as int].key@, h, n).contains(nodes[i].key@)
            &&& child_ok(nodes[nodes[i].parent as int].key@, nodes[i], h, n)
        } by {
            if i < id {
                assert(nodes[i] == old_nodes[i]);
                assert(nodes[nodes[i].parent as int] == old_nodes[old_nodes[i].parent as int]);
            } else {
                assert(nodes[head] == old_nodes[head]);
            }
        }
        assert(nodes[0] == old_nodes[0]);
    }
    assert forall|i: int| 0 <= i < nodes.len() implies {
        &&& well_formed((#[trigger] nodes[i]).key@, h, n)
        &&& nodes[i].depth <= i
        &&& node_ok(nodes[i], n, i == 0)
    } by {
        if i < id {
            assert(nodes[i] == old_nodes[i]);
        } else {
            assert(old_nodes[head].depth <= head);
        }
    }
    if !solved(node.key@, h, n) {
        assert forall|i: int| 0 <= i < nodes.len() implies #[trigger] nodes[i].depth
            <= nodes[head].depth + 1 by {
            if i < id {
                assert(nodes[i] == old_nodes[i]);
            }
            assert(nodes[head] == old_nodes[head]);
        }
        assert(depths_ascending(nodes)) by {
            assert forall|i: int, j: int| 0 <= i <= j < nodes.len() implies #[trigger] nodes[i].depth
                <= #[trigger] nodes[j].depth by {
                if j < id {
                    assert(nodes[i] == old_nodes[i] && nodes[j] == old_nodes[j]);
                } else if i < id {
                    assert(nodes[i] == old_nodes[i]);
                    assert(nodes[head] == old_nodes[head]);
                    assert(old_nodes[i].depth <= old_nodes[head].depth + 1);
                }
            }
        }
        assert forall|i: int| 0 <= i < head implies #[trigger] expanded(new_store, h, n, i) by {
            assert(expanded(old_store, h, n, i));
            assert(nodes[i] == old_nodes[i]);
            let ki = nodes[i].key@;
            assert forall|j: int|
                0 <= j < successors(ki, h, n).len() implies #[trigger] stored_within(
                new_store,
                successors(ki, h, n)[j],
                nodes[i].depth + 1,
            ) by {
                assert(stored_within(
                    old_store,
                    successors(old_nodes[i].key@, h, n)[j],
                    old_nodes[i].depth + 1,
                ));
            }
        }
        assert forall|i: int| 0 <= i < nodes.len() implies !solved(#[trigger] nodes[i].key@, h, n) by {
            if i < id {
                assert(nodes[i] == old_nodes[i]);
            }
        }
    }
}

impl BFSSolver {
    /// The canonical form of the tubes as given.
    pub open spec fn start(&self) -> Seq<u8> {
        canon_key(self.initial(), self.puzzle_height(), self.tube_count())
    }

    /// No route to a solved state is shorter than the one found.
    pub open spec fn shortest(&self) -> bool {
        forall|p: Seq<Seq<u8>>|
            is_route(p, self.start(), self.puzzle_height(), self.tube_count()) && solved(
                p.last(),
                self.puzzle_height(),
                self.tube_count(),
            ) ==> self.path().len() <= p.len()
    }

    /// Expands node `head`: stores each state that its planned moves reach
    /// and that is not stored yet, one level deeper; stops with true, the
    /// solution recorded, at the first one that is solved.
    #[verifier::rlimit(100)]
    fn expand(&mut self, head: usize, Ghost(init): Ghost<Seq<u8>>, Ghost(start): Ghost<Seq<u8>>) -> (r: bool)
        requires
            old(self).height > 0,
            old(self).initial_tubes@ == init,
            init.len() <= usize::MAX,
            start == canon_key(init, old(self).height as nat, old(self).tubes as nat),
            well_formed(init, old(self).height as nat, old(self).tubes as nat),
            old(self).solution is None,
            root_ok(old(self).states.nodes(), init, old(self).height as nat, old(self).tubes as nat),
            frontier_ok(old(self).states, start, old(self).height as nat, old(self).tubes as nat, head as int),
            head < old(self).states.nodes().len(),
            old(self).states.nodes().len() <= pow(256, (old(self).tubes * old(self).height) as nat),
        ensures
            final(self).height == old(self).height,
            final(self).tubes == old(self).tubes,
            final(self).initial_tubes@ == init,
            r ==> final(self).valid() && final(self).found() && is_route(
                keys_of(final(self).path()),
                start,
                old(self).height as nat,
                old(self).tubes as nat,
            ) && solved(keys_of(final(self).path()).last(), old(self).height as nat, old(self).tubes as nat),
            !r ==> final(self).solution is None,
            !r ==> root_ok(final(self).states.nodes(), init, old(self).height as nat, old(self).tubes as nat),
            !r ==> frontier_ok(final(self).states, start, old(self).height as nat, old(self).tubes as nat, head + 1),
            !r ==> final(self).states.nodes().len() <= pow(256, (old(self).tubes * old(self).height) as nat),
    {
        let height = self.height;
        let n = self.tubes;
        let ghost h = height as nat;
        let ghost bound = pow(256, (n * h) as nat);
        let mut key = self.states.node(head).key.clone();
        let depth = self.states.node(head).depth;
        assert(key@ == self.states.nodes()[head as int].key@);
        let stats = all_stats(&key, height, n);
        let moves = next_moves(&stats, height);
        let ghost succ = successors(key@, h, n as nat);
        proof {
            lemma_successors(key@, h, n as nat);
        }
        let mut k: usize = 0;
        while k < moves.len()
            invariant
                self.height == height,
                self.tubes == n,
                self.initial_tubes@ == init,
                height == old(self).height,
                n == old(self).tubes,
                init == old(self).initial_tubes@,
                h == height,
                h > 0,
                start == canon_key(init, h, n as nat),
                well_formed(init, h, n as nat),
                bound == pow(256, (n * h) as nat),
                self.solution is None,
                init.len() <= usize::MAX,
                root_ok(self.states.nodes(), init, h, n as nat),
                frontier_ok(self.states, start, h, n as nat, head as int),
                head < self.states.nodes().len(),
                key@ == self.states.nodes()[head as int].key@,
                depth == self.states.nodes()[head as int].depth,
                well_formed(key@, h, n as nat),
                stats@ == stats_of(key@, h, n as nat),
                moves@ == planned_moves(stats@, h),
                forall|j: int|
                    0 <= j < moves@.len() ==> pour_fits(
                        stats@,
                        h,
                        (#[trigger] moves@[j]).from as int,
                        moves@[j].to as int,
                        moves@[j].amount as nat,
                    ),
                forall|j: int|
                    0 <= j < moves@.len() ==> (#[trigger] moves@[j]).amount == full_amount(
                        stats@,
                        h,
                        moves@[j].from as int,
                        moves@[j].to as int,
                    ),
                forall|j: int|
                0 <= j < moves@.len() ==> (#[trigger] moves@[j]).amount == full_amount(
                    stats@,
                    h,
                    moves@[j].from as int,
                    moves@[j].to as int,
                ),
            succ == successors(key@, h, n as nat),
                succ.len() == moves@.len(),
                forall|j: int|
                    0 <= j < succ.len() ==> #[trigger] succ[j] == step_key(
                        key@,
                        h,
                        n as nat,
                        moves@[j],
                    ),
                k <= moves@.len(),
                forall|j: int| 0 <= j < k ==> #[trigger] stored_within(self.states, succ[j], depth + 1),
                self.states.nodes().len() <= bound,
            decreases moves@.len() - k,
        {
            let m = moves[k];
            assert(pour_fits(stats@, h, m.from as int, m.to as int, m.amount as nat));
            let (transform, child) = successor(&mut key, height, n, &stats, m);
            assert(child@ == succ[k as int]);
            if self.states.lookup(&child).is_none() {
                proof {
                    lemma_div_mod(n as int, 0, h as int);
                }
                let child_solved = is_solved(&child, height);
                let ghost old_store = self.states;
                let ghost child_key = child@;
                assert(depth <= head);
                proof {
                    if child_solved {
                        assert forall|p: Seq<Seq<u8>>|
                            is_route(p, start, h, n as nat) && solved(p.last(), h, n as nat) implies depth
                            + 2 <= p.len() by {
                            if p.len() <= depth + 1 {
                                lemma_bfs_reach(
                                    old_store,
                                    start,
                                    h,
                                    n as nat,
                                    head as int,
                                    p,
                                    p.len() - 1,
                                );
                                let id = old_store.ids()[p.last()] as int;
                                assert(!solved(old_store.nodes()[id].key@, h, n as nat));
                            }
                        }
                    }
                }
                let id = self.states.insert(
                    Node {
                        key: child,
                        parent: head,
                        depth: depth + 1,
                        from: m.from,
                        to: m.to,
                        amount: m.amount,
                        transform,
                    },
                );
                proof {
                    let node = self.states.nodes().last();
                    assert(node.key@ == child_key);
                    assert(succ.contains(child_key));
                    assert(node_ok(node, n as nat, false));
                    lemma_child_ok(key@, node, h, n as nat, m);
                    lemma_frontier_insert(old_store, self.states, start, h, n as nat, head as int);
                    assert forall|j: int| 0 <= j <= k implies #[trigger] stored_within(
                        self.states,
                        succ[j],
                        depth + 1,
                    ) by {
                        if j < k {
                            assert(stored_within(old_store, succ[j], depth + 1));
                        } else {
                            assert(self.states.ids()[child_key] == id);
                        }
                    }
                    if !child_solved {
                        lemma_store_bounded(self.states, (n * h) as nat);
                    }
                }
                if child_solved {
                    self.solution = Some(id);
                    proof {
                        lemma_chain_route(self.states.nodes(), start, h, n as nat, id as int);
                        let w = keys_of(self.path());
                        assert(is_route(w, start, h, n as nat));
                        assert(solved(w.last(), h, n as nat));
                    }
                    return true;
                }
            } else {
                assert(stored_within(self.states, succ[k as int], depth + 1));
            }
            k += 1;
        }
        proof {
            assert(expanded(self.states, h, n as nat, head as int));
            if head + 1 < self.states.nodes().len() {
                let nodes = self.states.nodes();
                assert(nodes[head as int].depth <= nodes[head + 1].depth);
            }
        }
        false
    }

    /// Playing the moves of the solution found, as `get_solution` lists
    /// them, on the tubes as given leaves every tube empty or full with one
    /// color.
    pub proof fn lemma_solution_solves(&self)
        requires
            self.valid(),
            self.found(),
        ensures
            solved(
                replay(self.initial(), self.puzzle_height(), self.tube_count(), solution_of(self.path(), self.tube_count())),
                self.puzzle_height(),
                self.tube_count(),
            ),
    {
        let id = self.solution->0 as int;
        let nodes = self.states.nodes();
        let h = self.height as nat;
        let n = self.tubes as nat;
        lemma_chain_route(nodes, self.start(), h, n, id);
        let ids = chain_ids(nodes, id);
        let path = path_nodes(nodes, ids);
        assert forall|j: int| 0 < j < path.len() implies child_ok(path[j - 1].key@, #[trigger] path[j], h, n) by {
            assert(nodes[ids[j] as int].parent == ids[j - 1]);
            assert(ids[j] > 0);
        }
        assert(recorded(path, self.initial_tubes@, h, n));
        assert(path.last() == nodes[id]);
        lemma_recorded_path_solves(path, self.initial_tubes@, h, n);
    }

    /// A solution found by breadth-first search has the fewest moves.
    pub proof fn lemma_found_shortest(&self)
        requires
            self.valid(),
            self.found(),
        ensures
            self.shortest(),
    {
        let id = self.solution->0 as int;
        lemma_chain_route(self.states.nodes(), self.start(), self.height as nat, self.tubes as nat, id);
    }
}

impl Solver for BFSSolver {
    closed spec fn puzzle_height(&self) -> nat {
        self.height as nat
    }

    closed spec fn tube_count(&self) -> nat {
        self.tubes as nat
    }

    closed spec fn initial(&self) -> Seq<u8> {
        self.initial_tubes@
    }

    closed spec fn valid(&self) -> bool {
        &&& self.height > 0
        &&& self.initial_tubes@.len() <= usize::MAX
        &&& well_formed(self.initial_tubes@, self.height as nat, self.tubes as nat)
        &&& self.states.wf()
        &&& match self.solution {
            Some(id) => {
                &&& nodes_ok(self.states.nodes(), self.start(), self.height as nat, self.tubes as nat)
                &&& root_ok(self.states.nodes(), self.initial_tubes@, self.height as nat, self.tubes as nat)
                &&& id < self.states.nodes().len()
                &&& solved(self.states.nodes()[id as int].key@, self.height as nat, self.tubes as nat)
                &&& forall|p: Seq<Seq<u8>>|
                    is_route(p, self.start(), self.height as nat, self.tubes as nat) && solved(
                        p.last(),
                        self.height as nat,
                        self.tubes as nat,
                    ) ==> self.states.nodes()[id as int].depth + 1 <= p.len()
            },
            None => true,
        }
    }

    closed spec fn found(&self) -> bool {
        self.solution is Some
    }

    closed spec fn path(&self) -> Seq<Node> {
        match self.solution {
            Some(id) => path_nodes(self.states.nodes(), chain_ids(self.states.nodes(), id as int)),
            None => Seq::empty(),
        }
    }

    fn height(&self) -> (r: usize) {
        self.height
    }

    fn new(height: usize, colors: usize, initial_tubes: Vec<u8>) -> (r: Self) {
        let tubes = initial_tubes.len() / height;
        BFSSolver {
            height,
            colors,
            tubes,
            initial_tubes,
            states: StateStore::new(),
            solution: None,
        }
    }

    #[verifier::rlimit(100)]
    fn search(&mut self) -> (r: bool) {
        let height = self.height;
        let n = self.tubes;
        let ghost h = height as nat;
        let ghost init = self.initial_tubes@;
        let ghost start = canon_key(init, h, n as nat);
        let ghost bound = pow(256, (n * h) as nat);
        self.solution = None;
        self.states = StateStore::new();
        let (transform, key) = get_transform(&self.initial_tubes, height, n);
        proof {
            lemma_div_mod(n as int, 0, h as int);
            assert forall|i: int| 0 <= i < n implies #[trigger] gapless(tube_of(key@, h, i)) by {
                assert(transform@[i] < n);
                assert(gapless(tube_of(init, h, transform@[i] as int)));
            }
            vstd::arithmetic::power::lemma_pow_positive(256, (n * h) as nat);
        }
        let root_solved = is_solved(&key, height);
        self.states.insert(
            Node { key, parent: 0, depth: 0, from: usize::MAX, to: usize::MAX, amount: 0, transform },
        );
        proof {
            let nodes = self.states.nodes();
            assert(nodes[0].key@ == start);
            assert(tree_ok(nodes, start, h, n as nat));
            assert(nodes_ok(nodes, start, h, n as nat));
            assert(root_ok(nodes, init, h, n as nat));
        }
        if root_solved {
            self.solution = Some(0);
            proof {
                let nodes = self.states.nodes();
                assert(chain_ids(nodes, 0) == seq![0usize]);
                let w = keys_of(self.path());
                assert(w =~= seq![start]);
                assert(is_route(w, start, h, n as nat));
                assert(solved(w.last(), h, n as nat));
            }
            return true;
        }
        let mut head: usize = 0;
        while head < self.states.len()
            invariant
                self.height == height,
                self.tubes == n,
                self.initial_tubes@ == init,
                height == old(self).height,
                n == old(self).tubes,
                init == old(self).initial_tubes@,
                h == height,
                h > 0,
                start == canon_key(init, h, n as nat),
                well_formed(init, h, n as nat),
                bound == pow(256, (n * h) as nat),
                self.solution is None,
                init.len() <= usize::MAX,
                root_ok(self.states.nodes(), init, h, n as nat),
                frontier_ok(self.states, start, h, n as nat, head as int),
                self.states.nodes().len() <= bound,
            decreases bound - head,
        {
            if self.expand(head, Ghost(init), Ghost(start)) {
                return true;
            }
            head += 1;
        }
        proof {
            assert forall|p: Seq<Seq<u8>>|
                is_route(p, start, h, n as nat) implies !solved(p.last(), h, n as nat) by {
                lemma_bfs_closed(self.states, start, h, n as nat, p, p.len() - 1);
                let id = self.states.ids()[p.last()] as int;
                assert(!solved(self.states.nodes()[id].key@, h, n as nat));
            }
        }
        false
    }

    fn get_solution(&self) -> (r: Vec<SolutionStep>) {
        let ghost nodes = self.states.nodes();
        let ghost target = chain_ids(nodes, self.solution->0 as int);
        let mut id = match self.solution {
            Some(id) => id,
            None => 0,
        };
        proof {
            lemma_chain_route(nodes, self.start(), self.height as nat, self.tubes as nat, id as int);
        }
        let mut back: Vec<usize> = Vec::new();
        while id > 0
            invariant
                nodes == self.states.nodes(),
                nodes_ok(nodes, self.start(), self.height as nat, self.tubes as nat),
                id < nodes.len(),
                target == chain_ids(nodes, id as int) + back@.reverse(),
            decreases id,
        {
            let parent = self.states.node(id).parent;
            proof {
                assert(chain_ids(nodes, id as int) == chain_ids(nodes, parent as int).push(id));
                assert(back@.push(id).reverse() =~= seq![id].add(back@.reverse()));
                assert(chain_ids(nodes, parent as int) + back@.push(id).reverse() =~= chain_ids(
                    nodes,
                    id as int,
                ) + back@.reverse());
            }
            back.push(id);
            id = parent;
        }
        back.push(0);
        proof {
            assert(back@.reverse() =~= seq![0usize].add(back@.drop_last().reverse()));
            assert(target =~= back@.reverse());
        }
        let mut path: Vec<usize> = Vec::new();
        let mut k: usize = back.len();
        while k > 0
            invariant
                k <= back@.len(),
                path@ == back@.subrange(k as int, back@.len() as int).reverse(),
            decreases k,
        {
            path.push(back[k - 1]);
            assert(path@ =~= back@.subrange(k - 1, back@.len() as int).reverse());
            k -= 1;
        }
        proof {
            assert(back@.subrange(0, back@.len() as int) == back@);
            assert(path@ == target);
            assert forall|i: int| 0 <= i < path@.len() implies node_ok(
                nodes[#[trigger] path@[i] as int],
                self.tubes as nat,
                i == 0,
            ) by {
                assert(path@[i] < nodes.len());
                if i > 0 {
                    assert(path@[i] > 0);
                }
            }
        }
        solution_steps(&self.states, &path, self.tubes)
    }
}

/// On one puzzle, when both searches succeed, the breadth-first solution
/// has no more moves than the depth-first one: both are routes of the same
/// search graph, and breadth-first search returns a shortest one. (Each
/// solver's `get_solution` lists one move fewer than its path has states.)
pub proof fn lemma_bfs_no_longer_than_dfs(b: &BFSSolver, d: &DFSSolver)
    requires
        b.valid(),
        b.found(),
        d.valid(),
        d.found(),
        b.puzzle_height() == d.puzzle_height(),
        b.tube_count() == d.tube_count(),
        b.initial() == d.initial(),
    ensures
        b.path().len() <= d.path().len(),
{
    b.lemma_found_shortest();
    d.lemma_found_route();
    assert(keys_of(d.path()).len() == d.path().len());
}

} // verus!

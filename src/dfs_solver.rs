use vstd::prelude::*;
use vstd::arithmetic::power::pow;
use crate::canonical::{canon_key, get_transform, lemma_div_mod};
use crate::tube::{all_same, uniform};
use crate::graph::{
    root_ok,
    all_stats, child_ok, is_route, keys_of, lemma_successors, nodes_ok, path_nodes, solvable,
    step_key, successor, successors, tree_ok, lemma_child_ok,
};
use crate::moves::{full_amount, next_moves, planned_moves};
use crate::replay::{lemma_recorded_path_solves, recorded, replay};
use crate::solver::{node_ok, solution_steps, solution_of, SolutionStep, Solver as Search};
use crate::Tube;
use crate::store::{lemma_store_bounded, Node, StateStore};
use crate::tube::{gapless, is_solved, pour_fits, solved, stats_of, tube_of, well_formed};

verus! {

/// Depth-first search: follows one route as deep as it goes, backing up
/// when a state has nothing new left to try. Finds a solution when there
/// is one, not always one of the fewest moves.
pub struct DFSSolver {
    height: usize,
    colors: usize,
    tubes: usize,
    initial_tubes: Vec<u8>,
    states: StateStore,
    stack: Vec<usize>,
    found: bool,
}

/// The nodes numbered `stack` follow parent links down from the first node.
pub open spec fn stack_ok(nodes: Seq<Node>, stack: Seq<usize>) -> bool {
    &&& stack.len() >= 1
    &&& stack[0] == 0
    &&& forall|j: int| 0 <= j < stack.len() ==> #[trigger] stack[j] < nodes.len()
    &&& forall|j: int|
        0 < j < stack.len() ==> #[trigger] stack[j] > 0 && nodes[stack[j] as int].parent == stack[j
            - 1]
}

/// Node `i` is not solved and every successor of it is stored.
pub open spec fn done(store: StateStore, h: nat, n: nat, i: int) -> bool {
    let key = store.nodes()[i].key@;
    &&& !solved(key, h, n)
    &&& forall|k: int|
        0 <= k < successors(key, h, n).len() ==> #[trigger] store.ids().contains_key(
            successors(key, h, n)[k],
        )
}

/// Every stored node that is not on the stack is done.
pub open spec fn off_stack_done(store: StateStore, h: nat, n: nat, stack: Seq<usize>) -> bool {
    forall|i: int|
        0 <= i < store.nodes().len() && !stack.contains(i as usize) ==> #[trigger] done(
            store,
            h,
            n,
            i,
        )
}

/// The states of a stack that follows parent links form a route.
proof fn lemma_stack_route(nodes: Seq<Node>, stack: Seq<usize>, start: Seq<u8>, h: nat, n: nat)
    requires
        tree_ok(nodes, start, h, n),
        stack_ok(nodes, stack),
    ensures
        is_route(keys_of(path_nodes(nodes, stack)), start, h, n),
{
    let keys = keys_of(path_nodes(nodes, stack));
    assert forall|i: int| 0 <= i < keys.len() - 1 implies successors(
        #[trigger] keys[i],
        h,
        n,
    ).contains(keys[i + 1]) by {
        let c = stack[i + 1] as int;
        assert(stack[i + 1] > 0);
        assert(nodes[c].parent == stack[i]);
    }
}

/// When every stored node is done, routes from the start never leave the
/// stored states.
proof fn lemma_dfs_closed(
    store: StateStore,
    start: Seq<u8>,
    h: nat,
    n: nat,
    p: Seq<Seq<u8>>,
    l: int,
)
    requires
        store.wf(),
        tree_ok(store.nodes(), start, h, n),
        forall|i: int| 0 <= i < store.nodes().len() ==> #[trigger] done(store, h, n, i),
        is_route(p, start, h, n),
        0 <= l < p.len(),
    ensures
        store.ids().contains_key(p[l]),
    decreases l,
{
    let nodes = store.nodes();
    if l == 0 {
        assert(store.ids().contains_key(nodes[0].key@));
    } else {
        lemma_dfs_closed(store, start, h, n, p, l - 1);
        let id = store.ids()[p[l - 1]] as int;
        assert(done(store, h, n, id));
        assert(p[l - 1 + 1] == p[l]);
        assert(successors(p[l - 1], h, n).contains(p[l]));
        let k = choose|k: int|
            0 <= k < successors(p[l - 1], h, n).len() && #[trigger] successors(p[l - 1], h, n)[k]
                == p[l];
        assert(store.ids().contains_key(successors(nodes[id].key@, h, n)[k]));
    }
}

/// Adding a state to the store keeps every node done that was done.
proof fn lemma_done_grows(old_store: StateStore, new_store: StateStore, h: nat, n: nat, i: int)
    requires
        old_store.wf(),
        new_store.nodes().len() >= old_store.nodes().len(),
        forall|j: int| 0 <= j < old_store.nodes().len() ==> new_store.nodes()[j] == old_store.nodes()[j],
        forall|k: Seq<u8>| old_store.ids().contains_key(k) ==> new_store.ids().contains_key(k),
        0 <= i < old_store.nodes().len(),
        done(old_store, h, n, i),
    ensures
        done(new_store, h, n, i),
{
    let key = old_store.nodes()[i].key@;
    assert(new_store.nodes()[i] == old_store.nodes()[i]);
    assert forall|k: int| 0 <= k < successors(key, h, n).len() implies #[trigger] new_store.ids().contains_key(
        successors(key, h, n)[k],
    ) by {
        assert(old_store.ids().contains_key(successors(key, h, n)[k]));
    }
}

/// Storing a new successor of the node on top of the stack, and pushing
/// it, keeps the facts that exploring relies on.
proof fn lemma_dfs_insert(
    before: StateStore,
    after: StateStore,
    start: Seq<u8>,
    h: nat,
    n: nat,
    stack0: Seq<usize>,
    id: int,
)
    requires
        before.wf(),
        after.wf(),
        nodes_ok(before.nodes(), start, h, n),
        stack_ok(before.nodes(), stack0),
        stack0.last() == id,
        off_stack_done(before, h, n, stack0),
        after.nodes() == before.nodes().push(after.nodes().last()),
        after.ids() == before.ids().insert(after.nodes().last().key@, before.nodes().len() as usize),
        !before.ids().contains_key(after.nodes().last().key@),
        after.nodes().len() <= usize::MAX,
        after.nodes().last().parent == id,
        after.nodes().last().depth == before.nodes()[id].depth + 1,
        successors(before.nodes()[id].key@, h, n).contains(after.nodes().last().key@),
        child_ok(before.nodes()[id].key@, after.nodes().last(), h, n),
        well_formed(after.nodes().last().key@, h, n),
        node_ok(after.nodes().last(), n, false),
    ensures
        nodes_ok(after.nodes(), start, h, n),
        stack_ok(after.nodes(), stack0.push(before.nodes().len() as usize)),
        off_stack_done(after, h, n, stack0.push(before.nodes().len() as usize)),
        forall|q: Seq<u8>| before.ids().contains_key(q) ==> #[trigger] after.ids().contains_key(q),
{
    let nodes = after.nodes();
    let old_nodes = before.nodes();
    let new_id = old_nodes.len() as int;
    assert(nodes[new_id] == nodes.last());
    assert(tree_ok(nodes, start, h, n)) by {
        assert forall|i: int| 0 < i < nodes.len() implies {
            &&& (#[trigger] nodes[i]).parent < i
            &&& nodes[i].depth == nodes[nodes[i].parent as int].depth + 1
            &&& successors(nodes[nodes[i].parent as int].key@, h, n).contains(nodes[i].key@)
            &&& child_ok(nodes[nodes[i].parent as int].key@, nodes[i], h, n)
        } by {
            if i < new_id {
                assert(nodes[i] == old_nodes[i]);
                assert(nodes[nodes[i].parent as int] == old_nodes[old_nodes[i].parent as int]);
            } else {
                assert(nodes[id] == old_nodes[id]);
            }
        }
        assert(nodes[0] == old_nodes[0]);
    }
    assert forall|i: int| 0 <= i < nodes.len() implies {
        &&& well_formed((#[trigger] nodes[i]).key@, h, n)
        &&& nodes[i].depth <= i
        &&& node_ok(nodes[i], n, i == 0)
    } by {
        if i < new_id {
            assert(nodes[i] == old_nodes[i]);
        } else {
            assert(old_nodes[id].depth <= id);
        }
    }
    let st = stack0.push(new_id as usize);
    assert forall|j: int| 0 < j < st.len() implies #[trigger] st[j] > 0 && nodes[st[j] as int].parent
        == st[j - 1] by {
        if j < stack0.len() {
            assert(st[j] == stack0[j]);
            assert(nodes[stack0[j] as int] == old_nodes[stack0[j] as int]);
        }
    }
    assert forall|j: int| 0 <= j < st.len() implies #[trigger] st[j] < nodes.len() by {
        if j < stack0.len() {
            assert(st[j] == stack0[j]);
        }
    }
    assert forall|q: Seq<u8>| before.ids().contains_key(q) implies #[trigger] after.ids().contains_key(q) by {
    }
    assert forall|i: int| 0 <= i < nodes.len() && !st.contains(i as usize) implies #[trigger] done(
        after,
        h,
        n,
        i,
    ) by {
        assert(st[st.len() - 1] == new_id as usize);
        assert(i != new_id);
        if stack0.contains(i as usize) {
            let j = choose|j: int| 0 <= j < stack0.len() && stack0[j] == i as usize;
            assert(st[j] == i as usize);
        }
        assert(done(before, h, n, i));
        lemma_done_grows(before, after, h, n, i);
    }
}

impl DFSSolver {
    /// Playing the moves of the solution found, as `get_solution` lists
    /// them, on the tubes as given leaves every tube empty or full with one
    /// color.
    pub proof fn lemma_solution_solves(&self)
        requires
            self.valid(),
            self.found(),
        ensures
            solved(
                replay(self.initial(), self.puzzle_height(), self.tube_count(), solution_of(self.path(), self.tube_count())),
                self.puzzle_height(),
                self.tube_count(),
            ),
    {
        let nodes = self.states.nodes();
        let h = self.height as nat;
        let n = self.tubes as nat;
        let path = path_nodes(nodes, self.stack@);
        assert forall|j: int| 0 < j < path.len() implies child_ok(path[j - 1].key@, #[trigger] path[j], h, n) by {
            assert(self.stack@[j] > 0);
            assert(nodes[self.stack@[j] as int].parent == self.stack@[j - 1]);
            assert(self.stack@[j] < nodes.len());
        }
        assert(recorded(path, self.initial_tubes@, h, n));
        lemma_recorded_path_solves(path, self.initial_tubes@, h, n);
    }

    /// A solution found by depth-first search is a route from the start to
    /// a solved state.
    pub proof fn lemma_found_route(&self)
        requires
            self.valid(),
            self.found(),
        ensures
            is_route(
                keys_of(self.path()),
                canon_key(self.initial(), self.puzzle_height(), self.tube_count()),
                self.puzzle_height(),
                self.tube_count(),
            ),
            solved(keys_of(self.path()).last(), self.puzzle_height(), self.tube_count()),
    {
        let start = canon_key(self.initial_tubes@, self.height as nat, self.tubes as nat);
        lemma_stack_route(self.states.nodes(), self.stack@, start, self.height as nat, self.tubes as nat);
    }

    /// Explores from node `id`, the top of the stack: true, with the stack
    /// leading to a solved state, if one is reachable through states not
    /// stored yet; otherwise false, with the stack as it was and node `id`
    /// done.
    #[verifier::rlimit(100)]
    fn explore(&mut self, id: usize, Ghost(start): Ghost<Seq<u8>>) -> (r: bool)
        requires
            old(self).height > 0,
            well_formed(old(self).initial_tubes@, old(self).height as nat, old(self).tubes as nat),
            start == canon_key(old(self).initial_tubes@, old(self).height as nat, old(self).tubes as nat),
            old(self).states.wf(),
            nodes_ok(old(self).states.nodes(), start, old(self).height as nat, old(self).tubes as nat),
            stack_ok(old(self).states.nodes(), old(self).stack@),
            old(self).stack@.last() == id,
            off_stack_done(old(self).states, old(self).height as nat, old(self).tubes as nat, old(self).stack@),
            old(self).states.nodes().len() <= pow(256, (old(self).tubes * old(self).height) as nat),
        ensures
            final(self).height == old(self).height,
            final(self).tubes == old(self).tubes,
            final(self).initial_tubes@ == old(self).initial_tubes@,
            final(self).found == old(self).found,
            final(self).states.wf(),
            nodes_ok(final(self).states.nodes(), start, old(self).height as nat, old(self).tubes as nat),
            stack_ok(final(self).states.nodes(), final(self).stack@),
            final(self).states.nodes().len() >= old(self).states.nodes().len(),
            forall|j: int|
                0 <= j < old(self).states.nodes().len() ==> final(self).states.nodes()[j] == old(
                    self,
                ).states.nodes()[j],
            forall|k: Seq<u8>|
                old(self).states.ids().contains_key(k) ==> #[trigger] final(self).states.ids().contains_key(k),
            final(self).states.nodes().len() <= pow(256, (old(self).tubes * old(self).height) as nat),
            r ==> solved(
                final(self).states.nodes()[final(self).stack@.last() as int].key@,
                old(self).height as nat,
                old(self).tubes as nat,
            ),
            !r ==> final(self).stack@ == old(self).stack@,
            !r ==> off_stack_done(
                final(self).states,
                old(self).height as nat,
                old(self).tubes as nat,
                old(self).stack@.drop_last(),
            ),
        decreases pow(256, (old(self).tubes * old(self).height) as nat) - old(self).states.nodes().len(),
    {
        let height = self.height;
        let n = self.tubes;
        let ghost h = height as nat;
        let ghost bound = pow(256, (n * h) as nat);
        let ghost stack0 = self.stack@;
        let ghost entry = self.states;
        let mut key = self.states.node(id).key.clone();
        let depth = self.states.node(id).depth;
        assert(key@ == self.states.nodes()[id as int].key@);
        proof {
            lemma_div_mod(n as int, 0, h as int);
        }
        if is_solved(&key, height) {
            return true;
        }
        let stats = all_stats(&key, height, n);
        let moves = next_moves(&stats, height);
        let ghost succ = successors(key@, h, n as nat);
        proof {
            lemma_successors(key@, h, n as nat);
        }
        let mut k: usize = 0;
        while k < moves.len()
            invariant
                self.height == height,
                self.tubes == n,
                h == height,
                h > 0,
                self.initial_tubes@ == old(self).initial_tubes@,
                height == old(self).height,
                n == old(self).tubes,
                well_formed(self.initial_tubes@, h, n as nat),
                self.found == old(self).found,
                bound == pow(256, (n * h) as nat),
                start == canon_key(self.initial_tubes@, h, n as nat),
                self.states.wf(),
                nodes_ok(self.states.nodes(), start, h, n as nat),
                self.stack@ == stack0,
                stack0 == old(self).stack@,
                stack_ok(self.states.nodes(), stack0),
                stack0.last() == id,
                id < entry.nodes().len(),
                entry == old(self).states,
                self.states.nodes().len() >= entry.nodes().len(),
                forall|j: int| 0 <= j < entry.nodes().len() ==> self.states.nodes()[j] == entry.nodes()[j],
                forall|q: Seq<u8>| entry.ids().contains_key(q) ==> #[trigger] self.states.ids().contains_key(q),
                self.states.nodes().len() <= bound,
                off_stack_done(self.states, h, n as nat, stack0),
                key@ == self.states.nodes()[id as int].key@,
                depth == self.states.nodes()[id as int].depth,
                !solved(key@, h, n as nat),
                well_formed(key@, h, n as nat),
                stats@ == stats_of(key@, h, n as nat),
                moves@ == planned_moves(stats@, h),
                forall|j: int|
                    0 <= j < moves@.len() ==> pour_fits(
                        stats@,
                        h,
                        (#[trigger] moves@[j]).from as int,
                        moves@[j].to as int,
                        moves@[j].amount as nat,
                    ),
                forall|j: int|
                    0 <= j < moves@.len() ==> (#[trigger] moves@[j]).amount == full_amount(
                        stats@,
                        h,
                        moves@[j].from as int,
                        moves@[j].to as int,
                    ),
                succ == successors(key@, h, n as nat),
                succ.len() == moves@.len(),
                forall|j: int|
                    0 <= j < succ.len() ==> #[trigger] succ[j] == step_key(key@, h, n as nat, moves@[j]),
                k <= moves@.len(),
                forall|j: int| 0 <= j < k ==> #[trigger] self.states.ids().contains_key(succ[j]),
            decreases moves@.len() - k,
        {
            let m = moves[k];
            assert(pour_fits(stats@, h, m.from as int, m.to as int, m.amount as nat));
            let (transform, child) = successor(&mut key, height, n, &stats, m);
            assert(child@ == succ[k as int]);
            if self.states.lookup(&child).is_none() {
                let ghost before = self.states;
                let ghost child_key = child@;
                assert(depth <= id);
                let new_id = self.states.insert(
                    Node {
                        key: child,
                        parent: id,
                        depth: depth + 1,
                        from: m.from,
                        to: m.to,
                        amount: m.amount,
                        transform,
                    },
                );
                self.stack.push(new_id);
                proof {
                    assert(self.states.nodes().last().key@ == child_key);
                    assert(succ.contains(child_key));
                    lemma_child_ok(key@, self.states.nodes().last(), h, n as nat, m);
                    lemma_dfs_insert(before, self.states, start, h, n as nat, stack0, id as int);
                    lemma_store_bounded(self.states, (n * h) as nat);
                }
                if self.explore(new_id, Ghost(start)) {
                    return true;
                }
                self.stack.pop();
                proof {
                    assert(self.stack@ =~= stack0);
                    assert(stack0.push(new_id).drop_last() =~= stack0);
                }
            }
            k += 1;
        }
        proof {
            assert(done(self.states, h, n as nat, id as int));
            assert forall|i: int|
                0 <= i < self.states.nodes().len() && !stack0.drop_last().contains(i as usize) implies #[trigger] done(
                self.states,
                h,
                n as nat,
                i,
            ) by {
                if i != id {
                    if stack0.contains(i as usize) {
                        let j = choose|j: int| 0 <= j < stack0.len() && stack0[j] == i as usize;
                        assert(j != stack0.len() - 1);
                        assert(stack0.drop_last()[j] == i as usize);
                    }
                }
            }
        }
        false
    }
}

impl Search for DFSSolver {
    closed spec fn puzzle_height(&self) -> nat {
        self.height as nat
    }

    closed spec fn tube_count(&self) -> nat {
        self.tubes as nat
    }

    closed spec fn initial(&self) -> Seq<u8> {
        self.initial_tubes@
    }

    closed spec fn valid(&self) -> bool {
        &&& self.height > 0
        &&& self.initial_tubes@.len() <= usize::MAX
        &&& well_formed(self.initial_tubes@, self.height as nat, self.tubes as nat)
        &&& self.states.wf()
        &&& self.found ==> {
            let start = canon_key(self.initial_tubes@, self.height as nat, self.tubes as nat);
            &&& nodes_ok(self.states.nodes(), start, self.height as nat, self.tubes as nat)
            &&& root_ok(self.states.nodes(), self.initial_tubes@, self.height as nat, self.tubes as nat)
            &&& stack_ok(self.states.nodes(), self.stack@)
            &&& solved(
                self.states.nodes()[self.stack@.last() as int].key@,
                self.height as nat,
                self.tubes as nat,
            )
        }
    }

    closed spec fn found(&self) -> bool {
        self.found
    }

    closed spec fn path(&self) -> Seq<Node> {
        if self.found {
            path_nodes(self.states.nodes(), self.stack@)
        } else {
            Seq::empty()
        }
    }

    fn height(&self) -> (r: usize) {
        self.height
    }

    fn new(height: usize, colors: usize, initial_tubes: Vec<u8>) -> (r: Self) {
        let tubes = initial_tubes.len() / height;
        DFSSolver {
            height,
            colors,
            tubes,
            initial_tubes,
            states: StateStore::new(),
            stack: Vec::new(),
            found: false,
        }
    }

    fn search(&mut self) -> (r: bool) {
        let height = self.height;
        let n = self.tubes;
        let ghost h = height as nat;
        let ghost init = self.initial_tubes@;
        let ghost start = canon_key(init, h, n as nat);
        self.found = false;
        self.states = StateStore::new();
        self.stack = Vec::new();
        let (transform, key) = get_transform(&self.initial_tubes, height, n);
        proof {
            assert forall|i: int| 0 <= i < n implies #[trigger] gapless(tube_of(key@, h, i)) by {
                assert(transform@[i] < n);
                assert(gapless(tube_of(init, h, transform@[i] as int)));
            }
            vstd::arithmetic::power::lemma_pow_positive(256, (n * h) as nat);
        }
        self.states.insert(
            Node { key, parent: 0, depth: 0, from: usize::MAX, to: usize::MAX, amount: 0, transform },
        );
        self.stack.push(0);
        proof {
            let nodes = self.states.nodes();
            assert(nodes[0].key@ == start);
            assert(tree_ok(nodes, start, h, n as nat));
            assert(nodes_ok(nodes, start, h, n as nat));
            assert(self.stack@ =~= seq![0usize]);
            assert(off_stack_done(self.states, h, n as nat, self.stack@)) by {
                assert forall|i: int| 0 <= i < nodes.len() && !self.stack@.contains(i as usize) implies #[trigger] done(
                    self.states,
                    h,
                    n as nat,
                    i,
                ) by {
                    assert(self.stack@[0] == 0);
                }
            }
        }
        let ghost before = self.states.nodes();
        proof {
            assert(root_ok(before, init, h, n as nat));
        }
        let r = self.explore(0, Ghost(start));
        proof {
            assert(self.states.nodes()[0] == before[0]);
            assert(root_ok(self.states.nodes(), init, h, n as nat));
            if r {
                lemma_stack_route(self.states.nodes(), self.stack@, start, h, n as nat);
                let w = keys_of(path_nodes(self.states.nodes(), self.stack@));
                assert(w.last() == self.states.nodes()[self.stack@.last() as int].key@);
                assert(is_route(w, start, h, n as nat));
            } else {
                assert(seq![0usize].drop_last() =~= Seq::<usize>::empty());
                assert forall|i: int| 0 <= i < self.states.nodes().len() implies #[trigger] done(
                    self.states,
                    h,
                    n as nat,
                    i,
                ) by {
                    assert(!Seq::<usize>::empty().contains(i as usize));
                }
                assert forall|p: Seq<Seq<u8>>|
                    is_route(p, start, h, n as nat) implies !solved(p.last(), h, n as nat) by {
                    lemma_dfs_closed(self.states, start, h, n as nat, p, p.len() - 1);
                    let id = self.states.ids()[p.last()] as int;
                    assert(done(self.states, h, n as nat, id));
                }
            }
        }
        self.found = r;
        r
    }

    fn get_solution(&self) -> (r: Vec<SolutionStep>) {
        proof {
            let nodes = self.states.nodes();
            assert forall|i: int| 0 <= i < self.stack@.len() implies node_ok(
                nodes[#[trigger] self.stack@[i] as int],
                self.tubes as nat,
                i == 0,
            ) by {
                assert(self.stack@[i] < nodes.len());
                if i > 0 {
                    assert(self.stack@[i] > 0);
                }
            }
        }
        solution_steps(&self.states, &self.stack, self.tubes)
    }
}

/// The flat buffer of `tubes`, each padded with empty slots up to height `h`.
pub open spec fn padded(tubes: Seq<Vec<u8>>, h: nat) -> Seq<u8> {
    Seq::new(
        tubes.len() * h,
        |x: int|
            {
                let i = x / (h as int);
                let j = x % (h as int);
                if j < tubes[i]@.len() {
                    tubes[i]@[j]
                } else {
                    0u8
                }
            },
    )
}

/// Each tube fits in height `h` and holds colors only.
pub open spec fn tubes_fit(tubes: Seq<Vec<u8>>, h: nat) -> bool {
    forall|i: int|
        0 <= i < tubes.len() ==> (#[trigger] tubes[i])@.len() <= h && forall|k: int|
            0 <= k < tubes[i]@.len() ==> tubes[i]@[k] != 0
}

/// Every tube is empty, or full to height `h` with one color.
pub open spec fn tubes_solved(tubes: Seq<Vec<u8>>, h: nat) -> bool {
    forall|i: int|
        0 <= i < tubes.len() ==> (#[trigger] tubes[i])@.len() == 0 || (tubes[i]@.len() == h
            && uniform(tubes[i]@))
}

/// Depth-first solver for a puzzle given as a list of tubes, each listing
/// its filled slots from the bottom.
pub struct Solver {
    engine: DFSSolver,
}

impl Solver {
    /// The depth-first search on the padded buffer.
    pub closed spec fn engine(&self) -> DFSSolver {
        self.engine
    }

    pub fn new(height: usize, colors: usize, initial_tubes: &Vec<Tube>) -> (r: Solver)
        requires
            height > 0,
            initial_tubes@.len() * height <= usize::MAX,
            tubes_fit(initial_tubes@, height as nat),
        ensures
            r.engine().valid(),
            r.engine().puzzle_height() == height,
            r.engine().tube_count() == initial_tubes@.len(),
            r.engine().initial() == padded(initial_tubes@, height as nat),
            !r.engine().found(),
    {
        let ghost h = height as nat;
        let ghost tubes = initial_tubes@;
        let n = initial_tubes.len();
        let mut buf: Vec<u8> = Vec::new();
        let mut i: usize = 0;
        while i < n
            invariant
                n == tubes.len(),
                tubes == initial_tubes@,
                h == height,
                h > 0,
                n * h <= usize::MAX,
                tubes_fit(tubes, h),
                i <= n,
                buf@.len() == i * h,
                forall|x: int| 0 <= x < i * h ==> #[trigger] buf@[x] == padded(tubes, h)[x],
            decreases n - i,
        {
            let tube = &initial_tubes[i];
            proof {
                crate::tube::lemma_tube_range(i as int, n as int, h as int);
            }
            let mut k: usize = 0;
            while k < height
                invariant
                    n == tubes.len(),
                    tubes == initial_tubes@,
                    h == height,
                    h > 0,
                    i < n,
                    i * h + h <= n * h,
                    *tube == tubes[i as int],
                    k <= height,
                    buf@.len() == i * h + k,
                    forall|x: int| 0 <= x < i * h + k ==> #[trigger] buf@[x] == padded(tubes, h)[x],
                decreases height - k,
            {
                proof {
                    lemma_div_mod(i as int, k as int, h as int);
                }
                if k < tube.len() {
                    buf.push(tube[k]);
                } else {
                    buf.push(0);
                }
                k += 1;
            }
            proof {
                assert((i + 1) * h == i * h + h) by (nonlinear_arith);
            }
            i += 1;
        }
        proof {
            let p = padded(tubes, h);
            assert(buf@ =~= p);
            lemma_div_mod(n as int, 0, h as int);
            assert forall|t: int| 0 <= t < n implies #[trigger] gapless(tube_of(p, h, t)) by {
                crate::tube::lemma_tube_range(t, n as int, h as int);
                let tt = tube_of(p, h, t);
                assert forall|a: int, b: int| 0 <= a <= b < tt.len() && tt[a] == 0 implies tt[b] == 0 by {
                    lemma_div_mod(t, a, h as int);
                    lemma_div_mod(t, b, h as int);
                    assert(tubes_fit(tubes, h));
                    assert(tubes[t]@.len() <= h);
                }
            }
        }
        Solver { engine: DFSSolver::new(height, colors, buf) }
    }

    /// Whether every tube of `state` is empty, or full with one color.
    pub fn is_solved(&self, state: &Vec<Tube>) -> (r: bool)
        requires
            self.engine().valid(),
        ensures
            r == tubes_solved(state@, self.engine().puzzle_height()),
    {
        let height = self.engine.height();
        let mut i: usize = 0;
        while i < state.len()
            invariant
                height == self.engine().puzzle_height(),
                i <= state@.len(),
                forall|j: int|
                    0 <= j < i ==> (#[trigger] state@[j])@.len() == 0 || (state@[j]@.len() == height
                        && uniform(state@[j]@)),
            decreases state@.len() - i,
        {
            let tube = &state[i];
            if tube.len() != 0 {
                if tube.len() != height || !all_same(tube) {
                    return false;
                }
            }
            i += 1;
        }
        true
    }

    /// Runs the depth-first search; true if it found a solution, which is
    /// exactly when some route of the search reaches a solved state.
    pub fn search(&mut self) -> (r: bool)
        requires
            old(self).engine().valid(),
        ensures
            final(self).engine().valid(),
            final(self).engine().puzzle_height() == old(self).engine().puzzle_height(),
            final(self).engine().tube_count() == old(self).engine().tube_count(),
            final(self).engine().initial() == old(self).engine().initial(),
            r == final(self).engine().found(),
            r == solvable(
                canon_key(
                    old(self).engine().initial(),
                    old(self).engine().puzzle_height(),
                    old(self).engine().tube_count(),
                ),
                old(self).engine().puzzle_height(),
                old(self).engine().tube_count(),
            ),
    {
        self.engine.search()
    }

    /// The moves found by the last search, in the tube numbers of the
    /// puzzle as given; none if it found no solution.
    pub fn get_solution(&self) -> (r: Option<Vec<SolutionStep>>)
        requires
            self.engine().valid(),
        ensures
            r is Some <==> self.engine().found(),
            r is Some ==> r->0@ == solution_of(self.engine().path(), self.engine().tube_count()),
    {
        if self.engine.found {
            Some(self.engine.get_solution())
        } else {
            None
        }
    }
}

} // verus!

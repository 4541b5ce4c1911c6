use vstd::prelude::*;
use crate::canonical::{arrange, canon_key, canon_perm, get_transform, sorts};
use crate::moves::{full_amount, planned_moves, stats_sane, Move};
use crate::solver::node_ok;
use crate::store::Node;
use crate::tube::{
    gapless, get_tube_stat, layout, lemma_pour_effect, lemma_pour_then_pour_back,
    lemma_stat_of_bounds, lemma_tube_range, pour, pour_back, pour_fits, pour_spec, solved,
    stats_of, tube_of, well_formed, TubeStats,
};

verus! {

/// The canonical state reached from `k` by move `m`.
#[verifier::opaque]
pub open spec fn step_key(k: Seq<u8>, h: nat, n: nat, m: Move) -> Seq<u8> {
    canon_key(pour_spec(k, h, stats_of(k, h, n), m.from as int, m.to as int, m.amount as nat), h, n)
}

/// The canonical states that the search goes to from state `k`, in order.
#[verifier::opaque]
pub open spec fn successors(k: Seq<u8>, h: nat, n: nat) -> Seq<Seq<u8>> {
    planned_moves(stats_of(k, h, n), h).map_values(|m: Move| step_key(k, h, n, m))
}

/// `p` starts at `start` and each state in it is a successor of the one before.
pub open spec fn is_route(p: Seq<Seq<u8>>, start: Seq<u8>, h: nat, n: nat) -> bool {
    &&& p.len() >= 1
    &&& p[0] == start
    &&& forall|i: int|
        0 <= i < p.len() - 1 ==> successors(#[trigger] p[i], h, n).contains(p[i + 1])
}

/// Successor `i` of `k` is the state that the `i`-th planned move reaches.
pub proof fn lemma_successors(k: Seq<u8>, h: nat, n: nat)
    ensures
        successors(k, h, n).len() == planned_moves(stats_of(k, h, n), h).len(),
        forall|i: int|
            0 <= i < successors(k, h, n).len() ==> #[trigger] successors(k, h, n)[i] == step_key(
                k,
                h,
                n,
                planned_moves(stats_of(k, h, n), h)[i],
            ),
{
    reveal(successors);
}

/// Some route from `start` ends in a solved state.
pub open spec fn solvable(start: Seq<u8>, h: nat, n: nat) -> bool {
    exists|p: Seq<Seq<u8>>| is_route(p, start, h, n) && solved(p.last(), h, n)
}

/// The canonical states of a sequence of nodes.
pub open spec fn keys_of(path: Seq<Node>) -> Seq<Seq<u8>> {
    path.map_values(|nd: Node| nd.key@)
}

/// The nodes numbered `ids`.
pub open spec fn path_nodes(nodes: Seq<Node>, ids: Seq<usize>) -> Seq<Node> {
    ids.map_values(|i: usize| nodes[i as int])
}

/// The numbers of the nodes along the parent links from the first node to
/// node `id`.
pub open spec fn chain_ids(nodes: Seq<Node>, id: int) -> Seq<usize>
    decreases id,
{
    if id <= 0 || id >= nodes.len() || nodes[id].parent >= id {
        seq![0usize]
    } else {
        chain_ids(nodes, nodes[id].parent as int).push(id as usize)
    }
}

/// Node `nd` was reached from state `par` by one of the moves planned
/// there, pouring all that fits, and records the permutation that sorted
/// the result.
#[verifier::opaque]
pub open spec fn child_ok(par: Seq<u8>, nd: Node, h: nat, n: nat) -> bool {
    let ps = stats_of(par, h, n);
    let m = Move { from: nd.from, to: nd.to, amount: nd.amount };
    &&& pour_fits(ps, h, nd.from as int, nd.to as int, nd.amount as nat)
    &&& nd.amount == full_amount(ps, h, nd.from as int, nd.to as int)
    &&& nd.key@ == step_key(par, h, n, m)
    &&& sorts(pour_spec(par, h, ps, nd.from as int, nd.to as int, nd.amount as nat), h, n, nd.transform@)
}

/// A node made by pouring a fitting, full move `m` from `par` and sorting.
pub proof fn lemma_child_ok(par: Seq<u8>, nd: Node, h: nat, n: nat, m: Move)
    requires
        nd.from == m.from,
        nd.to == m.to,
        nd.amount == m.amount,
        pour_fits(stats_of(par, h, n), h, m.from as int, m.to as int, m.amount as nat),
        m.amount == full_amount(stats_of(par, h, n), h, m.from as int, m.to as int),
        nd.key@ == step_key(par, h, n, m),
        sorts(
            pour_spec(par, h, stats_of(par, h, n), m.from as int, m.to as int, m.amount as nat),
            h,
            n,
            nd.transform@,
        ),
    ensures
        child_ok(par, nd, h, n),
{
    reveal(child_ok);
}

/// The first node is the canonical form of `init`, with the permutation
/// that sorted it.
pub open spec fn root_ok(nodes: Seq<Node>, init: Seq<u8>, h: nat, n: nat) -> bool {
    &&& nodes.len() >= 1
    &&& sorts(init, h, n, nodes[0].transform@)
    &&& nodes[0].key@ == arrange(init, h, nodes[0].transform@)
}

/// Each node but the first was reached by one move from an earlier node,
/// one level deeper; the first is `start`, at depth zero.
pub open spec fn tree_ok(nodes: Seq<Node>, start: Seq<u8>, h: nat, n: nat) -> bool {
    &&& nodes.len() >= 1
    &&& nodes[0].key@ == start
    &&& nodes[0].depth == 0
    &&& forall|i: int|
        0 < i < nodes.len() ==> {
            &&& (#[trigger] nodes[i]).parent < i
            &&& nodes[i].depth == nodes[nodes[i].parent as int].depth + 1
            &&& successors(nodes[nodes[i].parent as int].key@, h, n).contains(nodes[i].key@)
            &&& child_ok(nodes[nodes[i].parent as int].key@, nodes[i], h, n)
        }
}

/// The nodes of a search from `start`: a tree of routes, each node a
/// canonical state of `n` gapless tubes with the records that listing
/// a solution reads.
pub open spec fn nodes_ok(nodes: Seq<Node>, start: Seq<u8>, h: nat, n: nat) -> bool {
    &&& tree_ok(nodes, start, h, n)
    &&& nodes.len() <= usize::MAX
    &&& forall|i: int|
        0 <= i < nodes.len() ==> {
            &&& well_formed((#[trigger] nodes[i]).key@, h, n)
            &&& nodes[i].depth <= i
            &&& node_ok(nodes[i], n, i == 0)
        }
}

/// The chain to a node is a route from the first node, one state longer
/// than the node is deep.
pub proof fn lemma_chain_route(nodes: Seq<Node>, start: Seq<u8>, h: nat, n: nat, id: int)
    requires
        tree_ok(nodes, start, h, n),
        nodes.len() <= usize::MAX,
        0 <= id < nodes.len(),
    ensures
        ({
            let ids = chain_ids(nodes, id);
            &&& is_route(keys_of(path_nodes(nodes, ids)), start, h, n)
            &&& ids.len() == nodes[id].depth + 1
            &&& ids[0] == 0
            &&& ids.last() == id
            &&& forall|j: int| 0 <= j < ids.len() ==> #[trigger] ids[j] < nodes.len()
            &&& forall|j: int| 0 < j < ids.len() ==> #[trigger] ids[j] > 0
            &&& forall|j: int|
                0 < j < ids.len() ==> nodes[(#[trigger] ids[j]) as int].parent == ids[j - 1]
        }),
    decreases id,
{
    if id > 0 {
        let p = nodes[id].parent as int;
        assert(nodes[id].parent < id);
        lemma_chain_route(nodes, start, h, n, p);
        let c = chain_ids(nodes, p);
        let c2 = c.push(id as usize);
        assert(chain_ids(nodes, id) == c2);
        let k = keys_of(path_nodes(nodes, c));
        let k2 = keys_of(path_nodes(nodes, c2));
        assert(c2[c.len() as int] == id);
        assert(k2 =~= k.push(nodes[id].key@));
        assert forall|i: int| 0 <= i < k2.len() - 1 implies successors(
            #[trigger] k2[i],
            h,
            n,
        ).contains(k2[i + 1]) by {
            if i < k.len() - 1 {
                assert(k2[i] == k[i] && k2[i + 1] == k[i + 1]);
                assert(successors(k[i], h, n).contains(k[i + 1]));
            } else {
                assert(k2[i] == nodes[p].key@);
            }
        }
    } else {
        assert(keys_of(path_nodes(nodes, chain_ids(nodes, id))) =~= seq![start]);
    }
}

/// The summaries of all tubes of a buffer.
pub fn all_stats(key: &Vec<u8>, height: usize, tube_count: usize) -> (r: Vec<TubeStats>)
    requires
        layout(key@, height as nat, tube_count as nat),
    ensures
        r@ == stats_of(key@, height as nat, tube_count as nat),
        stats_sane(r@, height as nat),
{
    let ghost h = height as nat;
    let mut stats: Vec<TubeStats> = Vec::new();
    let mut i: usize = 0;
    while i < tube_count
        invariant
            layout(key@, h, tube_count as nat),
            h == height,
            i <= tube_count,
            stats@ == stats_of(key@, h, i as nat),
            stats_sane(stats@, h),
        decreases tube_count - i,
    {
        proof {
            lemma_tube_range(i as int, tube_count as int, h as int);
            lemma_stat_of_bounds(tube_of(key@, h, i as int));
        }
        let st = get_tube_stat(key, height, i);
        stats.push(st);
        assert(stats@ =~= stats_of(key@, h, (i + 1) as nat));
        i += 1;
    }
    stats
}

/// The state reached from canonical state `key` by move `m`: the
/// permutation that canonicalizes the poured buffer, and its canonical form.
/// The move is poured into `key` and poured back, which leaves it as it was.
pub fn successor(
    key: &mut Vec<u8>,
    height: usize,
    tube_count: usize,
    stats: &Vec<TubeStats>,
    m: Move,
) -> (r: (Vec<usize>, Vec<u8>))
    requires
        well_formed(old(key)@, height as nat, tube_count as nat),
        stats@ == stats_of(old(key)@, height as nat, tube_count as nat),
        pour_fits(stats@, height as nat, m.from as int, m.to as int, m.amount as nat),
    ensures
        final(key)@ == old(key)@,
        r.1@ == step_key(old(key)@, height as nat, tube_count as nat, m),
        well_formed(r.1@, height as nat, tube_count as nat),
        r.0@ == canon_perm(
            pour_spec(
                old(key)@,
                height as nat,
                stats@,
                m.from as int,
                m.to as int,
                m.amount as nat,
            ),
            height as nat,
            tube_count as nat,
        ),
        sorts(
            pour_spec(
                old(key)@,
                height as nat,
                stats@,
                m.from as int,
                m.to as int,
                m.amount as nat,
            ),
            height as nat,
            tube_count as nat,
            r.0@,
        ),
{
    let ghost h = height as nat;
    let ghost n = tube_count as nat;
    let ghost before = key@;
    let len = key.len();
    proof {
        lemma_pour_effect(before, h, n, m.from as int, m.to as int, m.amount as nat);
        lemma_pour_then_pour_back(before, h, n, m.from as int, m.to as int, m.amount as nat);
        lemma_tube_range(m.from as int, n as int, h as int);
        lemma_tube_range(m.to as int, n as int, h as int);
    }
    pour(key, height, stats, m.from, m.to, m.amount);
    let r = get_transform(key, height, tube_count);
    proof {
        reveal(step_key);
        assert forall|i: int| 0 <= i < n implies #[trigger] gapless(tube_of(r.1@, h, i)) by {
            assert(tube_of(r.1@, h, i) == tube_of(key@, h, r.0@[i] as int));
            assert(r.0@[i] < n);
        }
    }
    pour_back(key, height, m.from, m.to, m.amount);
    r
}

} // verus!

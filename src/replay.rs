use vstd::prelude::*;
use crate::canonical::{
    arrange, canon_perm, is_permutation, lemma_arrange_tube, lemma_same_tubes, lemma_sorts_unique,
    sorts,
};
use crate::graph::{child_ok, step_key};
use crate::moves::{full_amount, Move};
use crate::solver::{running_perm, solution_of, SolutionStep};
use crate::store::Node;
use crate::tube::{
    layout, lemma_stat_of_bounds, lemma_tube_range, lemma_tubes_apart, pour_spec, solved,
    stats_of, tube_of, uniform, TubeStats,
};

verus! {

/// The buffer after pouring as much of the top run of tube `from` as fits
/// on tube `to`.
pub open spec fn play(buf: Seq<u8>, h: nat, n: nat, from: int, to: int) -> Seq<u8> {
    let s = stats_of(buf, h, n);
    pour_spec(buf, h, s, from, to, full_amount(s, h, from, to))
}

/// The buffer after playing `steps` in order.
pub open spec fn replay(buf: Seq<u8>, h: nat, n: nat, steps: Seq<SolutionStep>) -> Seq<u8>
    decreases steps.len(),
{
    if steps.len() == 0 {
        buf
    } else {
        play(
            replay(buf, h, n, steps.drop_last()),
            h,
            n,
            steps.last().from as int,
            steps.last().to as int,
        )
    }
}

/// A path of nodes whose first node sorted `init`, and each later node
/// was made from the one before it by a move planned there.
pub open spec fn recorded(path: Seq<Node>, init: Seq<u8>, h: nat, n: nat) -> bool {
    &&& path.len() >= 1
    &&& sorts(init, h, n, path[0].transform@)
    &&& path[0].key@ == arrange(init, h, path[0].transform@)
    &&& forall|i: int| 0 < i < path.len() ==> child_ok(path[i - 1].key@, #[trigger] path[i], h, n)
}

/// The permutation that applies `p`, then `t`.
pub open spec fn compose(p: Seq<usize>, t: Seq<usize>, n: nat) -> Seq<usize> {
    Seq::new(n, |k: int| p[t[k] as int])
}

/// Tube `t` of `buf` with `a` units emptied below slot `size`.
pub open spec fn drained(t: Seq<u8>, size: int, a: int) -> Seq<u8> {
    Seq::new(t.len(), |k: int| if size - a <= k < size { 0u8 } else { t[k] })
}

/// Tube `t` of `buf` with `a` units of color `c` added from slot `size`.
pub open spec fn topped(t: Seq<u8>, size: int, a: int, c: u8) -> Seq<u8> {
    Seq::new(t.len(), |k: int| if size <= k < size + a { c } else { t[k] })
}

proof fn lemma_pour_tube(
    buf: Seq<u8>,
    h: nat,
    n: nat,
    s: Seq<TubeStats>,
    f: int,
    t: int,
    a: int,
    i: int,
)
    requires
        layout(buf, h, n),
        0 <= f < n,
        0 <= t < n,
        f != t,
        0 <= i < n,
        0 <= a <= s[f].size,
        s[f].size <= h,
        s[t].size + a <= h,
    ensures
        tube_of(pour_spec(buf, h, s, f, t, a as nat), h, i) == (if i == f {
            drained(tube_of(buf, h, i), s[f].size as int, a)
        } else if i == t {
            topped(tube_of(buf, h, i), s[t].size as int, a, s[f].color)
        } else {
            tube_of(buf, h, i)
        }),
{
    let p = pour_spec(buf, h, s, f, t, a as nat);
    lemma_tube_range(i, n as int, h as int);
    lemma_tube_range(f, n as int, h as int);
    lemma_tube_range(t, n as int, h as int);
    lemma_tubes_apart(f, t, h as int);
    if i != f {
        lemma_tubes_apart(i, f, h as int);
    }
    if i != t {
        lemma_tubes_apart(i, t, h as int);
    }
    let want = if i == f {
        drained(tube_of(buf, h, i), s[f].size as int, a)
    } else if i == t {
        topped(tube_of(buf, h, i), s[t].size as int, a, s[f].color)
    } else {
        tube_of(buf, h, i)
    };
    assert forall|k: int| 0 <= k < h implies #[trigger] tube_of(p, h, i)[k] == want[k] by {
        assert(tube_of(p, h, i)[k] == p[i * h + k]);
    }
    assert(tube_of(p, h, i) =~= want);
}

/// The summary of tube `u` of an arrangement is that of tube `q[u]`.
proof fn lemma_arrange_stats(buf: Seq<u8>, h: nat, n: nat, q: Seq<usize>, u: int)
    requires
        layout(buf, h, n),
        is_permutation(q, n),
        0 <= u < n,
    ensures
        stats_of(arrange(buf, h, q), h, n)[u] == stats_of(buf, h, n)[q[u] as int],
{
    lemma_arrange_tube(buf, h, n, q, u);
}

/// Arranging then arranging again is arranging by the composed permutation.
pub proof fn lemma_arrange_compose(buf: Seq<u8>, h: nat, n: nat, p: Seq<usize>, t: Seq<usize>)
    requires
        layout(buf, h, n),
        n <= usize::MAX,
        is_permutation(p, n),
        is_permutation(t, n),
    ensures
        is_permutation(compose(p, t, n), n),
        arrange(arrange(buf, h, p), h, t) == arrange(buf, h, compose(p, t, n)),
{
    let c = compose(p, t, n);
    assert forall|i: int, j: int| 0 <= i < c.len() && 0 <= j < c.len() && i != j implies c[i]
        != c[j] by {
        assert(t[i] != t[j]);
        assert(p[t[i] as int] != p[t[j] as int]);
    }
    assert forall|k: usize| k < n implies #[trigger] c.contains(k) by {
        assert(p.contains(k));
        let u = choose|u: int| 0 <= u < n && p[u] == k;
        assert(t.contains(u as usize));
        let v = choose|v: int| 0 <= v < n && t[v] == u as usize;
        assert(c[v] == k);
    }
    assert forall|i: int| 0 <= i < n implies #[trigger] c[i] < n by {
        assert(t[i] < n);
    }
    let a = arrange(buf, h, p);
    let left = arrange(a, h, t);
    let right = arrange(buf, h, c);
    assert(layout(a, h, n));
    assert forall|i: int| 0 <= i < n implies #[trigger] tube_of(left, h, i) == tube_of(right, h, i) by {
        lemma_arrange_tube(a, h, n, t, i);
        lemma_arrange_tube(buf, h, n, p, t[i] as int);
        lemma_arrange_tube(buf, h, n, c, i);
    }
    lemma_same_tubes(left, right, h, n);
}

/// Playing a move on an arrangement is arranging the buffer after playing
/// the move between the tubes that the arrangement put there.
pub proof fn lemma_play_arrange(buf: Seq<u8>, h: nat, n: nat, q: Seq<usize>, f: int, t: int)
    requires
        layout(buf, h, n),
        buf.len() <= usize::MAX,
        is_permutation(q, n),
        0 <= f < n,
        0 <= t < n,
        f != t,
    ensures
        play(arrange(buf, h, q), h, n, f, t) == arrange(
            play(buf, h, n, q[f] as int, q[t] as int),
            h,
            q,
        ),
{
    let a = arrange(buf, h, q);
    lemma_arrange_tube(buf, h, n, q, 0);
    let sa = stats_of(a, h, n);
    let sb = stats_of(buf, h, n);
    let qf = q[f] as int;
    let qt = q[t] as int;
    assert(q[f] != q[t]);
    lemma_arrange_stats(buf, h, n, q, f);
    lemma_arrange_stats(buf, h, n, q, t);
    lemma_tube_range(qf, n as int, h as int);
    lemma_tube_range(qt, n as int, h as int);
    lemma_stat_of_bounds(tube_of(buf, h, qf));
    lemma_stat_of_bounds(tube_of(buf, h, qt));
    let amount = full_amount(sb, h, qf, qt);
    assert(full_amount(sa, h, f, t) == amount);
    let left = play(a, h, n, f, t);
    let moved = play(buf, h, n, qf, qt);
    let right = arrange(moved, h, q);
    assert(layout(moved, h, n));
    assert forall|u: int| 0 <= u < n implies #[trigger] tube_of(left, h, u) == tube_of(right, h, u) by {
        lemma_arrange_tube(buf, h, n, q, u);
        lemma_arrange_tube(moved, h, n, q, u);
        lemma_pour_tube(a, h, n, sa, f, t, amount as int, u);
        lemma_pour_tube(buf, h, n, sb, qf, qt, amount as int, q[u] as int);
        if u != f {
            assert(q[u] != q[f]);
        }
        if u != t {
            assert(q[u] != q[t]);
        }
    }
    lemma_arrange_tube(moved, h, n, q, 0);
    lemma_same_tubes(left, right, h, n);
}

/// Along a recorded path, each node's state is the arrangement, by the
/// running permutation, of the buffer after replaying the renumbered moves
/// so far.
proof fn lemma_replay_tracks(path: Seq<Node>, init: Seq<u8>, h: nat, n: nat, i: int)
    requires
        layout(init, h, n),
        init.len() <= usize::MAX,
        recorded(path, init, h, n),
        0 <= i < path.len(),
    ensures
        is_permutation(running_perm(path, n, i), n),
        layout(replay(init, h, n, solution_of(path, n).take(i)), h, n),
        path[i].key@ == arrange(
            replay(init, h, n, solution_of(path, n).take(i)),
            h,
            running_perm(path, n, i),
        ),
    decreases i,
{
    crate::canonical::lemma_count_fits(init, h, n);
    let steps = solution_of(path, n);
    if i == 0 {
        let t0 = path[0].transform@;
        reveal_with_fuel(running_perm, 2);
        assert(running_perm(path, n, 0) =~= t0) by {
            assert forall|k: int| 0 <= k < n implies running_perm(path, n, 0)[k] == t0[k] by {
                assert(t0[k] < n);
            }
        }
        assert(steps.take(0) =~= Seq::<SolutionStep>::empty());
    } else {
        lemma_replay_tracks(path, init, h, n, i - 1);
        let q = running_perm(path, n, i - 1);
        let s = replay(init, h, n, steps.take(i - 1));
        let prev = path[i - 1].key@;
        let nd = path[i];
        assert(child_ok(prev, nd, h, n));
        reveal(child_ok);
        reveal(step_key);
        let ps = stats_of(prev, h, n);
        let f = nd.from as int;
        let t = nd.to as int;
        let m = Move { from: nd.from, to: nd.to, amount: nd.amount };
        let poured = pour_spec(prev, h, ps, f, t, nd.amount as nat);
        assert(poured == play(prev, h, n, f, t));
        lemma_play_arrange(s, h, n, q, f, t);
        let s2 = play(s, h, n, q[f] as int, q[t] as int);
        assert(steps[i - 1] == SolutionStep { from: q[f], to: q[t] });
        assert(steps.take(i).drop_last() =~= steps.take(i - 1));
        assert(steps.take(i).last() == steps[i - 1]);
        assert(replay(init, h, n, steps.take(i)) == s2);
        assert(layout(s2, h, n));
        lemma_sorts_unique(poured, h, n, nd.transform@, canon_perm(poured, h, n));
        assert(nd.key@ == arrange(poured, h, nd.transform@));
        assert(is_permutation(nd.transform@, n));
        lemma_arrange_compose(s2, h, n, q, nd.transform@);
        assert(compose(q, nd.transform@, n) =~= running_perm(path, n, i));
    }
}

/// When an arrangement by a permutation is solved, so is the buffer.
proof fn lemma_solved_arrange(buf: Seq<u8>, h: nat, n: nat, q: Seq<usize>)
    requires
        layout(buf, h, n),
        buf.len() <= usize::MAX,
        is_permutation(q, n),
        solved(arrange(buf, h, q), h, n),
    ensures
        solved(buf, h, n),
{
    assert forall|k: int| 0 <= k < n implies #[trigger] uniform(tube_of(buf, h, k)) by {
        crate::canonical::lemma_count_fits(buf, h, n);
        assert(q.contains(k as usize));
        let u = choose|u: int| 0 <= u < n && q[u] == k as usize;
        lemma_arrange_tube(buf, h, n, q, u);
        assert(uniform(tube_of(arrange(buf, h, q), h, u)));
    }
}

/// Playing the renumbered moves of a recorded path that ends in a solved
/// state, on the buffer the path started from, solves it.
pub proof fn lemma_recorded_path_solves(path: Seq<Node>, init: Seq<u8>, h: nat, n: nat)
    requires
        layout(init, h, n),
        init.len() <= usize::MAX,
        recorded(path, init, h, n),
        solved(path.last().key@, h, n),
    ensures
        solved(replay(init, h, n, solution_of(path, n)), h, n),
{
    let i = path.len() - 1;
    lemma_replay_tracks(path, init, h, n, i);
    assert(solution_of(path, n).take(i) =~= solution_of(path, n));
    lemma_solved_arrange(
        replay(init, h, n, solution_of(path, n)),
        h,
        n,
        running_perm(path, n, i),
    );
}

} // verus!

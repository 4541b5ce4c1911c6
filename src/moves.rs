use vstd::prelude::*;
use crate::tube::{pour_fits, TubeStats};

verus! {

/// A pour of `amount` units from tube `from` onto tube `to`.
#[derive(Clone, Copy, Debug, PartialEq, Eq, Structural)]
pub struct Move {
    pub from: usize,
    pub to: usize,
    pub amount: usize,
}

/// A summary that can describe a tube of height `h`.
pub open spec fn stat_sane(t: TubeStats, h: nat) -> bool {
    &&& t.size <= h
    &&& (t.size == 0 <==> t.color == 0)
    &&& t.size == 0 ==> t.color_height == 0 && !t.simple
    &&& t.size > 0 ==> 1 <= t.color_height <= t.size
    &&& (t.simple <==> t.size > 0 && t.color_height == t.size)
}

/// Summaries that can describe tubes of height `h`.
pub open spec fn stats_sane(s: Seq<TubeStats>, h: nat) -> bool {
    forall|i: int| 0 <= i < s.len() ==> stat_sane(#[trigger] s[i], h)
}

/// Pair `(a, b)` comes before pair `(c, d)`.
pub open spec fn pair_before(a: int, b: int, c: int, d: int) -> bool {
    a < c || (a == c && b < d)
}

/// Two single-colored tubes `i < j` of one color that together come within
/// one unit of a full tube, and whose units all fit in `j`.
pub open spec fn merge_ok(s: Seq<TubeStats>, h: nat, i: int, j: int) -> bool {
    &&& 0 <= i < j < s.len()
    &&& s[i].simple
    &&& s[i].color_height != h
    &&& s[j].simple
    &&& s[i].color == s[j].color
    &&& s[i].color_height + s[j].color_height + 1 >= h
    &&& s[j].size + s[i].color_height <= h
}

/// The first such pair in scan order.
pub open spec fn first_merge(s: Seq<TubeStats>, h: nat, i: int, j: int) -> bool {
    &&& merge_ok(s, h, i, j)
    &&& forall|a: int, b: int| pair_before(a, b, i, j) ==> !#[trigger] merge_ok(s, h, a, b)
}

/// A single-colored, unfinished tube `i` whose color tops tube `j`, where
/// the top run of `j` fills `i` exactly.
pub open spec fn complete_ok(s: Seq<TubeStats>, h: nat, i: int, j: int) -> bool {
    &&& 0 <= i < s.len()
    &&& 0 <= j < s.len()
    &&& i != j
    &&& s[i].simple
    &&& s[i].color_height != h
    &&& !s[j].simple
    &&& s[i].color == s[j].color
    &&& s[i].color_height + s[j].color_height == h
}

/// The first such pair in scan order.
pub open spec fn first_complete(s: Seq<TubeStats>, h: nat, i: int, j: int) -> bool {
    &&& complete_ok(s, h, i, j)
    &&& forall|a: int, b: int| pair_before(a, b, i, j) ==> !#[trigger] complete_ok(s, h, a, b)
}

/// How much of the top run of `x` fits in `y`.
pub open spec fn full_amount(s: Seq<TubeStats>, h: nat, x: int, y: int) -> nat {
    let room = h - s[y].size;
    if s[x].color_height <= room {
        s[x].color_height as nat
    } else {
        room as nat
    }
}

/// Pour as much of the top run of `x` as fits in `y`.
pub open spec fn fill_move(s: Seq<TubeStats>, h: nat, x: int, y: int) -> Move {
    let room = (h - s[y].size) as int;
    let amount = if s[x].color_height <= room {
        s[x].color_height as int
    } else {
        room
    };
    Move { from: x as usize, to: y as usize, amount: amount as usize }
}

/// Pours between two tubes `i < j` with the same top color, each way the
/// receiving tube has room.
pub open spec fn pair_moves(s: Seq<TubeStats>, h: nat, i: int, j: int) -> Seq<Move> {
    if s[j].color_height < h && s[i].color == s[j].color {
        (if s[j].size < h {
            seq![fill_move(s, h, i, j)]
        } else {
            Seq::empty()
        }) + (if s[i].size < h {
            seq![fill_move(s, h, j, i)]
        } else {
            Seq::empty()
        })
    } else {
        Seq::empty()
    }
}

/// The general moves that pair tube `i` with tube `j > i`: none for a
/// finished tube; into the first tube only, when it is empty, the top run
/// of each mixed tube; otherwise the pours of `pair_moves`.
pub open spec fn cell_moves(s: Seq<TubeStats>, h: nat, i: int, j: int) -> Seq<Move> {
    if s[i].color_height == h {
        Seq::empty()
    } else if s[i].color_height == 0 {
        if i == 0 && !s[j].simple && s[j].color_height != 0 {
            seq![Move { from: j as usize, to: i as usize, amount: s[j].color_height }]
        } else {
            Seq::empty()
        }
    } else {
        pair_moves(s, h, i, j)
    }
}

/// The general moves of tube `i` with the tubes `i + 1 .. m`.
pub open spec fn row_moves(s: Seq<TubeStats>, h: nat, i: int, m: int) -> Seq<Move>
    decreases m - i,
{
    if m <= i + 1 {
        Seq::empty()
    } else {
        row_moves(s, h, i, m - 1) + cell_moves(s, h, i, m - 1)
    }
}

/// The general moves of the tubes `0 .. m`, each with every later tube.
pub open spec fn general_moves(s: Seq<TubeStats>, h: nat, m: int) -> Seq<Move>
    decreases m,
{
    if m <= 0 {
        Seq::empty()
    } else {
        general_moves(s, h, m - 1) + row_moves(s, h, m - 1, s.len() as int)
    }
}

/// The moves tried from a state with tube summaries `s`: a single forced
/// merge if there is one, else a single forced completion if there is one,
/// else every general move.
pub open spec fn planned_moves(s: Seq<TubeStats>, h: nat) -> Seq<Move> {
    if exists|i: int, j: int| first_merge(s, h, i, j) {
        let (i, j) = choose|i: int, j: int| first_merge(s, h, i, j);
        seq![Move { from: i as usize, to: j as usize, amount: s[i].color_height }]
    } else if exists|i: int, j: int| first_complete(s, h, i, j) {
        let (i, j) = choose|i: int, j: int| first_complete(s, h, i, j);
        seq![Move { from: j as usize, to: i as usize, amount: s[j].color_height }]
    } else {
        general_moves(s, h, s.len() - 1)
    }
}

/// Whether the planned moves are a single forced one.
pub open spec fn forced(s: Seq<TubeStats>, h: nat) -> bool {
    (exists|i: int, j: int| first_merge(s, h, i, j)) || (exists|i: int, j: int|
        first_complete(s, h, i, j))
}

proof fn lemma_first_merge_unique(s: Seq<TubeStats>, h: nat, i: int, j: int)
    requires
        first_merge(s, h, i, j),
    ensures
        (choose|a: int, b: int| first_merge(s, h, a, b)) == (i, j),
{
    let (a, b) = choose|a: int, b: int| first_merge(s, h, a, b);
    if pair_before(a, b, i, j) {
        assert(!merge_ok(s, h, a, b));
    }
    if pair_before(i, j, a, b) {
        assert(!merge_ok(s, h, i, j));
    }
}

proof fn lemma_first_complete_unique(s: Seq<TubeStats>, h: nat, i: int, j: int)
    requires
        first_complete(s, h, i, j),
    ensures
        (choose|a: int, b: int| first_complete(s, h, a, b)) == (i, j),
{
    let (a, b) = choose|a: int, b: int| first_complete(s, h, a, b);
    if pair_before(a, b, i, j) {
        assert(!complete_ok(s, h, a, b));
    }
    if pair_before(i, j, a, b) {
        assert(!complete_ok(s, h, i, j));
    }
}

/// The forced merge, if any: the first pair of single-colored tubes of one
/// color that together come within one unit of a full tube.
fn find_merge(stats: &Vec<TubeStats>, height: usize) -> (r: Option<(usize, usize)>)
    requires
        stats_sane(stats@, height as nat),
    ensures
        match r {
            Some((i, j)) => first_merge(stats@, height as nat, i as int, j as int),
            None => forall|a: int, b: int| !#[trigger] merge_ok(stats@, height as nat, a, b),
        },
{
    let ghost s = stats@;
    let ghost h = height as nat;
    let n = stats.len();
    let mut i: usize = 0;
    while n > 0 && i < n - 1
        invariant
            s == stats@,
            h == height,
            n == s.len(),
            stats_sane(s, h),
            n == 0 || i < n,
            forall|a: int, b: int| a < i ==> !#[trigger] merge_ok(s, h, a, b),
        decreases n - i,
    {
        let si = stats[i];
        if si.simple && si.color_height != height {
            let mut j: usize = i + 1;
            while j < n
                invariant
                    s == stats@,
                    h == height,
                    n == s.len(),
                    stats_sane(s, h),
                    i + 1 < n,
                    i < j <= n,
                    si == s[i as int],
                    si.simple && si.color_height != height,
                    forall|a: int, b: int| a < i ==> !#[trigger] merge_ok(s, h, a, b),
                    forall|b: int| b < j ==> !#[trigger] merge_ok(s, h, i as int, b),
                decreases n - j,
            {
                let sj = stats[j];
                if sj.simple && si.color == sj.color && sj.color_height >= height
                    - si.color_height - 1 && si.color_height <= height - sj.size {
                    assert(merge_ok(s, h, i as int, j as int));
                    assert forall|a: int, b: int| pair_before(a, b, i as int, j as int) implies !#[trigger] merge_ok(s, h, a, b) by {
                        if a == i {
                            assert(b < j);
                        }
                    }
                    return Some((i, j));
                }
                j += 1;
            }
        }
        i += 1;
    }
    None
}

/// The forced completion, if any: the first single-colored, unfinished tube
/// with a tube whose top run fills it exactly.
fn find_completion(stats: &Vec<TubeStats>, height: usize) -> (r: Option<(usize, usize)>)
    requires
        stats_sane(stats@, height as nat),
    ensures
        match r {
            Some((i, j)) => first_complete(stats@, height as nat, i as int, j as int),
            None => forall|a: int, b: int| !#[trigger] complete_ok(stats@, height as nat, a, b),
        },
{
    let ghost s = stats@;
    let ghost h = height as nat;
    let n = stats.len();
    let mut i: usize = 0;
    while i < n
        invariant
            s == stats@,
            h == height,
            n == s.len(),
            stats_sane(s, h),
            i <= n,
            forall|a: int, b: int| a < i ==> !#[trigger] complete_ok(s, h, a, b),
        decreases n - i,
    {
        let si = stats[i];
        if si.simple && si.color_height != height {
            let mut j: usize = 0;
            while j < n
                invariant
                    s == stats@,
                    h == height,
                    n == s.len(),
                    stats_sane(s, h),
                    i < n,
                    j <= n,
                    si == s[i as int],
                    si.simple && si.color_height != height,
                    forall|a: int, b: int| a < i ==> !#[trigger] complete_ok(s, h, a, b),
                    forall|b: int| b < j ==> !#[trigger] complete_ok(s, h, i as int, b),
                decreases n - j,
            {
                let sj = stats[j];
                if j != i && !sj.simple && si.color == sj.color && sj.color_height == height
                    - si.color_height {
                    assert(complete_ok(s, h, i as int, j as int));
                    assert forall|a: int, b: int| pair_before(a, b, i as int, j as int) implies !#[trigger] complete_ok(s, h, a, b) by {
                        if a == i {
                            assert(b < j);
                        }
                    }
                    return Some((i, j));
                }
                j += 1;
            }
        }
        i += 1;
    }
    None
}

/// The pour of as much of the top run of `x` as fits in `y`.
fn make_fill_move(stats: &Vec<TubeStats>, height: usize, x: usize, y: usize) -> (r: Move)
    requires
        stats_sane(stats@, height as nat),
        x < stats@.len(),
        y < stats@.len(),
    ensures
        r == fill_move(stats@, height as nat, x as int, y as int),
{
    let room = height - stats[y].size;
    let amount = if stats[x].color_height <= room {
        stats[x].color_height
    } else {
        room
    };
    Move { from: x, to: y, amount }
}

/// The moves to try from a state whose tubes have summaries `stats`, in
/// the order in which they are tried. Every one of them fits.
pub fn next_moves(stats: &Vec<TubeStats>, height: usize) -> (r: Vec<Move>)
    requires
        stats_sane(stats@, height as nat),
    ensures
        r@ == planned_moves(stats@, height as nat),
        forall|k: int|
            0 <= k < r@.len() ==> pour_fits(
                stats@,
                height as nat,
                (#[trigger] r@[k]).from as int,
                r@[k].to as int,
                r@[k].amount as nat,
            ),
        forall|k: int|
            0 <= k < r@.len() ==> (#[trigger] r@[k]).amount == full_amount(
                stats@,
                height as nat,
                r@[k].from as int,
                r@[k].to as int,
            ),
{
    let ghost s = stats@;
    let ghost h = height as nat;
    let mut moves: Vec<Move> = Vec::new();
    match find_merge(stats, height) {
        Some((i, j)) => {
            proof {
                lemma_first_merge_unique(s, h, i as int, j as int);
            }
            moves.push(Move { from: i, to: j, amount: stats[i].color_height });
            assert(moves@ =~= planned_moves(s, h));
            return moves;
        },
        None => {},
    }
    assert(!exists|i: int, j: int| first_merge(s, h, i, j));
    match find_completion(stats, height) {
        Some((i, j)) => {
            proof {
                lemma_first_complete_unique(s, h, i as int, j as int);
            }
            moves.push(Move { from: j, to: i, amount: stats[j].color_height });
            assert(moves@ =~= planned_moves(s, h));
            return moves;
        },
        None => {},
    }
    assert(!exists|i: int, j: int| first_complete(s, h, i, j));
    let n = stats.len();
    let mut i: usize = 0;
    while n > 0 && i < n - 1
        invariant
            s == stats@,
            h == height,
            n == s.len(),
            stats_sane(s, h),
            !forced(s, h),
            i <= n,
            n == 0 || i < n,
            moves@ == general_moves(s, h, i as int),
            forall|k: int|
                0 <= k < moves@.len() ==> pour_fits(
                    s,
                    h,
                    (#[trigger] moves@[k]).from as int,
                    moves@[k].to as int,
                    moves@[k].amount as nat,
                ),
            forall|k: int|
                0 <= k < moves@.len() ==> (#[trigger] moves@[k]).amount == full_amount(
                    s,
                    h,
                    moves@[k].from as int,
                    moves@[k].to as int,
                ),
        decreases n - i,
    {
        let si = stats[i];
        let mut j: usize = i + 1;
        while j < n
            invariant
                s == stats@,
                h == height,
                n == s.len(),
                stats_sane(s, h),
                i + 1 < n,
                i < j <= n,
                si == s[i as int],
                moves@ == general_moves(s, h, i as int) + row_moves(s, h, i as int, j as int),
                forall|k: int|
                    0 <= k < moves@.len() ==> pour_fits(
                        s,
                        h,
                        (#[trigger] moves@[k]).from as int,
                        moves@[k].to as int,
                        moves@[k].amount as nat,
                    ),
                forall|k: int|
                    0 <= k < moves@.len() ==> (#[trigger] moves@[k]).amount == full_amount(
                        s,
                        h,
                        moves@[k].from as int,
                        moves@[k].to as int,
                    ),
            decreases n - j,
        {
            let ghost before = moves@;
            let sj = stats[j];
            if si.color_height == height {
            } else if si.color_height == 0 {
                if i == 0 && !sj.simple && sj.color_height != 0 {
                    moves.push(Move { from: j, to: i, amount: sj.color_height });
                }
            } else if sj.color_height < height && si.color == sj.color {
                if sj.size < height {
                    let m = make_fill_move(stats, height, i, j);
                    moves.push(m);
                }
                if si.size < height {
                    let m = make_fill_move(stats, height, j, i);
                    moves.push(m);
                }
            }
            assert(moves@ =~= before + cell_moves(s, h, i as int, j as int));
            assert(general_moves(s, h, i as int) + row_moves(s, h, i as int, j + 1) =~= before
                + cell_moves(s, h, i as int, j as int));
            j += 1;
        }
        assert(general_moves(s, h, i + 1) == general_moves(s, h, i as int) + row_moves(
            s,
            h,
            i as int,
            n as int,
        ));
        i += 1;
    }
    assert(moves@ == general_moves(s, h, s.len() - 1)) by {
        if n == 0 {
            assert(general_moves(s, h, 0) =~= general_moves(s, h, -1));
        }
    }
    assert(moves@ =~= planned_moves(s, h));
    moves
}

} // verus!

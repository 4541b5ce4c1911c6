use vstd::prelude::*;

verus! {

/// Summary of one tube: how many slots are filled, the color on top, how
/// long the run of that color at the top is, and whether the whole filled
/// part is that one color.
#[derive(Clone, Copy, Debug, PartialEq, Eq, Structural)]
pub struct TubeStats {
    pub size: usize,
    pub color_height: usize,
    pub color: u8,
    pub simple: bool,
}

/// The `i`-th tube of a flat buffer whose tubes are `h` slots high.
pub open spec fn tube_of(buf: Seq<u8>, h: nat, i: int) -> Seq<u8> {
    buf.subrange(i * h, i * h + h)
}

/// A tube without gaps: once a slot is empty, every slot above it is empty.
pub open spec fn gapless(t: Seq<u8>) -> bool {
    forall|i: int, j: int| 0 <= i <= j < t.len() && t[i] == 0 ==> t[j] == 0
}

/// A flat buffer of `n` tubes of height `h`.
pub open spec fn layout(buf: Seq<u8>, h: nat, n: nat) -> bool {
    h > 0 && buf.len() == n * h
}

/// A flat buffer of `n` tubes of height `h`, none of which has a gap.
pub open spec fn well_formed(buf: Seq<u8>, h: nat, n: nat) -> bool {
    &&& layout(buf, h, n)
    &&& forall|i: int| 0 <= i < n ==> #[trigger] gapless(tube_of(buf, h, i))
}

/// Number of filled slots: one past the highest non-empty slot.
pub open spec fn fill_level(t: Seq<u8>) -> nat
    decreases t.len(),
{
    if t.len() == 0 {
        0
    } else if t.last() == 0 {
        fill_level(t.drop_last())
    } else {
        t.len()
    }
}

/// Length of the run of equal colors that ends at slot `n - 1`.
pub open spec fn run_below(t: Seq<u8>, n: int) -> nat
    decreases n,
{
    if n <= 0 {
        0
    } else if n >= 2 && t[n - 2] == t[n - 1] {
        1 + run_below(t, n - 1)
    } else {
        1
    }
}

/// The summary of a tube.
pub open spec fn stat_of(t: Seq<u8>) -> TubeStats {
    let size = fill_level(t);
    if size == 0 {
        TubeStats { size: 0, color_height: 0, color: 0, simple: false }
    } else {
        let run = run_below(t, size as int);
        TubeStats {
            size: size as usize,
            color_height: run as usize,
            color: t[size - 1],
            simple: run == size,
        }
    }
}

/// The summaries of the `n` tubes of a flat buffer.
pub open spec fn stats_of(buf: Seq<u8>, h: nat, n: nat) -> Seq<TubeStats> {
    Seq::new(n, |i: int| stat_of(tube_of(buf, h, i)))
}

/// Every slot of the tube holds the same value as its bottom slot.
pub open spec fn uniform(t: Seq<u8>) -> bool {
    forall|k: int| 0 <= k < t.len() ==> #[trigger] t[k] == t[0]
}

/// Every tube is either empty, or full with a single color.
pub open spec fn solved(buf: Seq<u8>, h: nat, n: nat) -> bool {
    forall|i: int| 0 <= i < n ==> #[trigger] uniform(tube_of(buf, h, i))
}

/// The buffer after pouring `amount` units off the top of tube `from` onto
/// tube `to`, given the summaries of the tubes before the pour.
pub open spec fn pour_spec(
    buf: Seq<u8>,
    h: nat,
    stats: Seq<TubeStats>,
    from: int,
    to: int,
    amount: nat,
) -> Seq<u8> {
    let src_top = from * h + stats[from].size;
    let dst_top = to * h + stats[to].size;
    Seq::new(
        buf.len(),
        |x: int|
            if src_top - amount <= x < src_top {
                0u8
            } else if dst_top <= x < dst_top + amount {
                stats[from].color
            } else {
                buf[x]
            },
    )
}

/// The buffer after taking `amount` units off the top of tube `to` and
/// putting them back on tube `from`.
pub open spec fn pour_back_spec(buf: Seq<u8>, h: nat, from: int, to: int, amount: nat) -> Seq<u8> {
    let src = stat_of(tube_of(buf, h, from));
    let dst = stat_of(tube_of(buf, h, to));
    let src_top = from * h + src.size;
    let dst_top = to * h + dst.size;
    Seq::new(
        buf.len(),
        |x: int|
            if src_top <= x < src_top + amount {
                dst.color
            } else if dst_top - amount <= x < dst_top {
                0u8
            } else {
                buf[x]
            },
    )
}

/// A pour that takes no more than the top run of `from` and fits in `to`.
pub open spec fn pour_fits(stats: Seq<TubeStats>, h: nat, from: int, to: int, amount: nat) -> bool {
    &&& 0 <= from < stats.len()
    &&& 0 <= to < stats.len()
    &&& from != to
    &&& amount <= stats[from].color_height
    &&& stats[to].size + amount <= h
}

pub proof fn lemma_tube_range(i: int, n: int, h: int)
    requires
        0 <= i < n,
        h > 0,
    ensures
        0 <= i * h,
        i * h + h <= n * h,
{
    assert(0 <= i * h) by (nonlinear_arith)
        requires
            0 <= i,
            h > 0,
    ;
    assert(i * h + h <= n * h) by (nonlinear_arith)
        requires
            i + 1 <= n,
            h > 0,
    ;
}

pub proof fn lemma_fill_level_bounds(t: Seq<u8>)
    ensures
        fill_level(t) <= t.len(),
        fill_level(t) > 0 ==> t[fill_level(t) - 1] != 0,
        forall|k: int| fill_level(t) <= k < t.len() ==> t[k] == 0,
    decreases t.len(),
{
    if t.len() > 0 && t.last() == 0 {
        lemma_fill_level_bounds(t.drop_last());
        assert forall|k: int| fill_level(t) <= k < t.len() implies t[k] == 0 by {
            if k < t.len() - 1 {
                assert(t.drop_last()[k] == t[k]);
            }
        }
    }
}

/// In a tube without gaps the filled slots are exactly those below the fill level.
pub proof fn lemma_fill_level_gapless(t: Seq<u8>)
    requires
        gapless(t),
    ensures
        fill_level(t) <= t.len(),
        forall|k: int| 0 <= k < fill_level(t) ==> t[k] != 0,
        forall|k: int| fill_level(t) <= k < t.len() ==> t[k] == 0,
{
    lemma_fill_level_bounds(t);
}

/// A fill level is determined by which slots are empty.
pub proof fn lemma_fill_level_of(t: Seq<u8>, n: nat)
    requires
        n <= t.len(),
        forall|k: int| 0 <= k < n ==> t[k] != 0,
        forall|k: int| n <= k < t.len() ==> t[k] == 0,
    ensures
        fill_level(t) == n,
    decreases t.len(),
{
    if t.len() > n {
        lemma_fill_level_of(t.drop_last(), n);
    }
}

pub proof fn lemma_run_below_bounds(t: Seq<u8>, n: int)
    requires
        0 < n <= t.len(),
    ensures
        1 <= run_below(t, n) <= n,
        forall|j: int| n - run_below(t, n) <= j < n ==> #[trigger] t[j] == t[n - 1],
        run_below(t, n) < n ==> t[n - 1 - run_below(t, n)] != t[n - 1],
    decreases n,
{
    if n >= 2 && t[n - 2] == t[n - 1] {
        lemma_run_below_bounds(t, n - 1);
    }
}

/// A run length is determined by where the color changes.
pub proof fn lemma_run_below_of(t: Seq<u8>, n: int, r: int)
    requires
        0 < r <= n <= t.len(),
        forall|j: int| n - r <= j < n ==> #[trigger] t[j] == t[n - 1],
        r < n ==> t[n - 1 - r] != t[n - 1],
    ensures
        run_below(t, n) == r,
    decreases n,
{
    if r > 1 {
        assert(t[n - 2] == t[n - 1]);
        lemma_run_below_of(t, n - 1, r - 1);
    }
}

pub proof fn lemma_stat_of_bounds(t: Seq<u8>)
    requires
        t.len() <= usize::MAX,
    ensures
        stat_of(t).size <= t.len(),
        stat_of(t).size == 0 <==> stat_of(t).color == 0,
        stat_of(t).size == 0 ==> stat_of(t).color_height == 0 && !stat_of(t).simple,
        stat_of(t).size > 0 ==> 1 <= stat_of(t).color_height <= stat_of(t).size,
        stat_of(t).simple <==> stat_of(t).size > 0 && stat_of(t).color_height == stat_of(t).size,
        forall|j: int|
            stat_of(t).size - stat_of(t).color_height <= j < stat_of(t).size ==> #[trigger] t[j]
                == stat_of(t).color,
{
    lemma_fill_level_bounds(t);
    if fill_level(t) > 0 {
        lemma_run_below_bounds(t, fill_level(t) as int);
    }
}

/// A tube without gaps is uniform exactly when it is empty, or full with
/// a single color.
pub proof fn lemma_uniform_iff_empty_or_full(t: Seq<u8>)
    requires
        gapless(t),
        0 < t.len() <= usize::MAX,
    ensures
        uniform(t) <==> (stat_of(t).size == 0 || (stat_of(t).size == t.len()
            && stat_of(t).simple)),
{
    lemma_fill_level_gapless(t);
    lemma_stat_of_bounds(t);
    let n = t.len() as int;
    if uniform(t) {
        if t[0] != 0 {
            assert forall|k: int| 0 <= k < n implies t[k] != 0 by {
                assert(t[k] == t[0]);
            }
            lemma_fill_level_of(t, t.len());
            assert forall|j: int| n - n <= j < n implies #[trigger] t[j] == t[n - 1] by {
                assert(t[j] == t[0]);
                assert(t[n - 1] == t[0]);
            }
            lemma_run_below_of(t, n, n);
        } else {
            assert forall|k: int| 0 <= k < n implies t[k] == 0 by {
                assert(t[k] == t[0]);
            }
            lemma_fill_level_of(t, 0);
        }
    }
    if stat_of(t).size == 0 {
        assert forall|k: int| 0 <= k < n implies #[trigger] t[k] == t[0] by {
            assert(t[k] == 0);
            assert(t[0] == 0);
        }
    }
    if stat_of(t).size == t.len() && stat_of(t).simple {
        assert forall|k: int| 0 <= k < n implies #[trigger] t[k] == t[0] by {
            assert(t[k] == stat_of(t).color);
            assert(t[0] == stat_of(t).color);
        }
    }
}

/// A buffer without gaps is solved exactly when each of its tubes is empty,
/// or full with a single color; a tube of mixed colors, or only partly
/// filled, is not.
pub proof fn lemma_solved_iff(buf: Seq<u8>, h: nat, n: nat)
    requires
        well_formed(buf, h, n),
        buf.len() <= usize::MAX,
    ensures
        solved(buf, h, n) <==> forall|i: int|
            0 <= i < n ==> empty_or_full(#[trigger] tube_of(buf, h, i), h),
{
    assert forall|i: int| 0 <= i < n implies uniform(#[trigger] tube_of(buf, h, i)) == empty_or_full(
        tube_of(buf, h, i),
        h,
    ) by {
        lemma_tube_range(i, n as int, h as int);
        assert(gapless(tube_of(buf, h, i)));
        lemma_uniform_iff_empty_or_full(tube_of(buf, h, i));
    }
}

/// The tube is empty, or filled to height `h` with a single color.
pub open spec fn empty_or_full(t: Seq<u8>, h: nat) -> bool {
    stat_of(t).size == 0 || (stat_of(t).size == h && stat_of(t).simple)
}

/// Summary of tube `index` of a flat buffer: scans down from the top for
/// the first filled slot, then down the run of that slot's color.
pub fn get_tube_stat(buf: &Vec<u8>, height: usize, index: usize) -> (r: TubeStats)
    requires
        height > 0,
        index * height + height <= buf@.len(),
    ensures
        r == stat_of(tube_of(buf@, height as nat, index as int)),
{
    let ghost t = tube_of(buf@, height as nat, index as int);
    let len = buf.len();
    let base = index * height;
    let mut size: usize = height;
    assert(t.subrange(0, height as int) == t);
    while size > 0 && buf[base + size - 1] == 0
        invariant
            base == index * height,
            base + height <= buf@.len(),
            len == buf@.len(),
            t == buf@.subrange(base as int, base + height),
            size <= height,
            fill_level(t) == fill_level(t.subrange(0, size as int)),
        decreases size,
    {
        assert(t.subrange(0, size - 1) == t.subrange(0, size as int).drop_last());
        size -= 1;
    }
    if size == 0 {
        assert(t.subrange(0, 0).len() == 0);
        return TubeStats { size: 0, color_height: 0, color: 0, simple: false };
    }
    assert(fill_level(t) == size) by {
        assert(t.subrange(0, size as int).last() == t[size - 1]);
    }
    let color = buf[base + size - 1];
    let mut color_height: usize = 1;
    while color_height < size && buf[base + size - color_height - 1] == color
        invariant
            base == index * height,
            base + height <= buf@.len(),
            len == buf@.len(),
            t == buf@.subrange(base as int, base + height),
            0 < size <= height,
            fill_level(t) == size,
            color == t[size - 1],
            1 <= color_height <= size,
            forall|j: int| size - color_height <= j < size ==> #[trigger] t[j] == color,
        decreases size - color_height,
    {
        color_height += 1;
    }
    proof {
        lemma_run_below_of(t, size as int, color_height as int);
    }
    TubeStats { size, color_height, color, simple: color_height == size }
}

/// Whether `len` slots starting at `start` all hold the value at `start`.
fn run_is_uniform(buf: &Vec<u8>, start: usize, len: usize) -> (r: bool)
    requires
        start + len <= buf@.len(),
        len > 0,
    ensures
        r == uniform(buf@.subrange(start as int, start + len)),
{
    let ghost t = buf@.subrange(start as int, start + len);
    let total = buf.len();
    let first = buf[start];
    let mut k: usize = 1;
    while k < len
        invariant
            start + len <= buf@.len(),
            total == buf@.len(),
            t == buf@.subrange(start as int, start + len),
            first == t[0],
            1 <= k <= len,
            forall|j: int| 0 <= j < k ==> t[j] == first,
        decreases len - k,
    {
        if buf[start + k] != first {
            assert(t[k as int] != t[0]);
            return false;
        }
        k += 1;
    }
    true
}

/// Whether every slot of the tube holds the same value.
pub fn all_same(tube: &Vec<u8>) -> (r: bool)
    ensures
        r == uniform(tube@),
{
    if tube.len() == 0 {
        return true;
    }
    let r = run_is_uniform(tube, 0, tube.len());
    assert(tube@.subrange(0, tube@.len() as int) == tube@);
    r
}

/// Whether every tube of the buffer is empty or full with one color.
pub fn is_solved(state: &Vec<u8>, height: usize) -> (r: bool)
    requires
        height > 0,
        state@.len() % (height as nat) == 0,
    ensures
        r == solved(state@, height as nat, state@.len() / (height as nat)),
{
    let total = state.len();
    let n = total / height;
    let ghost h = height as nat;
    proof {
        assert(state@.len() == n * h) by (nonlinear_arith)
            requires
                state@.len() % h == 0,
                n == state@.len() / h,
                h > 0,
        ;
    }
    let mut i: usize = 0;
    while i < n
        invariant
            h == height,
            h > 0,
            state@.len() == n * h,
            total == state@.len(),
            n == state@.len() / h,
            i <= n,
            forall|j: int| 0 <= j < i ==> #[trigger] uniform(tube_of(state@, h, j)),
        decreases n - i,
    {
        proof {
            lemma_tube_range(i as int, n as int, h as int);
        }
        if !run_is_uniform(state, i * height, height) {
            assert(!uniform(tube_of(state@, h, i as int)));
            return false;
        }
        i += 1;
    }
    true
}


/// Slots of two different tubes never overlap.
pub proof fn lemma_tubes_apart(a: int, b: int, h: int)
    requires
        0 <= a,
        0 <= b,
        a != b,
        h > 0,
    ensures
        a * h + h <= b * h || b * h + h <= a * h,
{
    if a < b {
        assert(a * h + h <= b * h) by (nonlinear_arith)
            requires
                a + 1 <= b,
                h > 0,
        ;
    } else {
        assert(b * h + h <= a * h) by (nonlinear_arith)
            requires
                b + 1 <= a,
                h > 0,
        ;
    }
}

/// Pours `amount` units of the top color of tube `from` onto tube `to`:
/// the top `amount` slots of `from` are emptied and the lowest `amount`
/// empty slots of `to` take that color.
pub fn pour(
    state: &mut Vec<u8>,
    height: usize,
    tube_stats: &Vec<TubeStats>,
    from: usize,
    to: usize,
    amount: usize,
)
    requires
        old(state)@.len() == tube_stats@.len() * height,
        height > 0,
        tube_stats@ == stats_of(old(state)@, height as nat, tube_stats@.len()),
        pour_fits(tube_stats@, height as nat, from as int, to as int, amount as nat),
    ensures
        final(state)@ == pour_spec(
            old(state)@,
            height as nat,
            tube_stats@,
            from as int,
            to as int,
            amount as nat,
        ),
{
    let ghost h = height as nat;
    let ghost n = tube_stats@.len();
    let ghost orig = state@;
    let len = state.len();
    proof {
        lemma_tube_range(from as int, n as int, h as int);
        lemma_tube_range(to as int, n as int, h as int);
        lemma_tubes_apart(from as int, to as int, h as int);
        lemma_stat_of_bounds(tube_of(orig, h, from as int));
        lemma_stat_of_bounds(tube_of(orig, h, to as int));
    }
    let src_top = from * height + tube_stats[from].size;
    let dst_top = to * height + tube_stats[to].size;
    let color = tube_stats[from].color;
    let lo = src_top - amount;
    let mut k: usize = 0;
    while k < amount
        invariant
            len == state@.len(),
            len == orig.len(),
            lo + amount == src_top,
            src_top <= len,
            k <= amount,
            forall|x: int|
                0 <= x < len ==> #[trigger] state@[x] == (if lo <= x < lo + k {
                    0u8
                } else {
                    orig[x]
                }),
        decreases amount - k,
    {
        state.set(lo + k, 0);
        k += 1;
    }
    let mut k: usize = 0;
    while k < amount
        invariant
            len == state@.len(),
            len == orig.len(),
            lo + amount == src_top,
            dst_top + amount <= len,
            src_top <= dst_top || dst_top + amount <= lo,
            k <= amount,
            forall|x: int|
                0 <= x < len ==> #[trigger] state@[x] == (if lo <= x < src_top {
                    0u8
                } else if dst_top <= x < dst_top + k {
                    color
                } else {
                    orig[x]
                }),
        decreases amount - k,
    {
        state.set(dst_top + k, color);
        k += 1;
    }
    assert(state@ =~= pour_spec(orig, h, tube_stats@, from as int, to as int, amount as nat));
}

/// Undoes a pour: takes `amount` units off the top of tube `to` and puts
/// them back on top of tube `from`, in the color that was on top of `to`.
pub fn pour_back(state: &mut Vec<u8>, height: usize, from: usize, to: usize, amount: usize)
    requires
        height > 0,
        from * height + height <= old(state)@.len(),
        to * height + height <= old(state)@.len(),
        from != to,
        stat_of(tube_of(old(state)@, height as nat, from as int)).size + amount <= height,
        amount <= stat_of(tube_of(old(state)@, height as nat, to as int)).size,
    ensures
        final(state)@ == pour_back_spec(
            old(state)@,
            height as nat,
            from as int,
            to as int,
            amount as nat,
        ),
{
    let ghost h = height as nat;
    let ghost orig = state@;
    let len = state.len();
    let from_stat = get_tube_stat(state, height, from);
    let to_stat = get_tube_stat(state, height, to);
    proof {
        lemma_tubes_apart(from as int, to as int, h as int);
        lemma_stat_of_bounds(tube_of(orig, h, from as int));
        lemma_stat_of_bounds(tube_of(orig, h, to as int));
    }
    let src_top = from * height + from_stat.size;
    let dst_top = to * height + to_stat.size;
    let hi = dst_top - amount;
    let color = to_stat.color;
    let mut k: usize = 0;
    while k < amount
        invariant
            len == state@.len(),
            len == orig.len(),
            src_top + amount <= len,
            src_top + amount <= hi || dst_top <= src_top,
            hi + amount == dst_top,
            k <= amount,
            forall|x: int|
                0 <= x < len ==> #[trigger] state@[x] == (if src_top <= x < src_top + k {
                    color
                } else {
                    orig[x]
                }),
        decreases amount - k,
    {
        state.set(src_top + k, color);
        k += 1;
    }
    let mut k: usize = 0;
    while k < amount
        invariant
            len == state@.len(),
            len == orig.len(),
            src_top + amount <= len,
            src_top + amount <= hi || dst_top <= src_top,
            hi + amount == dst_top,
            dst_top <= len,
            k <= amount,
            forall|x: int|
                0 <= x < len ==> #[trigger] state@[x] == (if src_top <= x < src_top + amount {
                    color
                } else if hi <= x < hi + k {
                    0u8
                } else {
                    orig[x]
                }),
        decreases amount - k,
    {
        state.set(hi + k, 0);
        k += 1;
    }
    assert(state@ =~= pour_back_spec(orig, h, from as int, to as int, amount as nat));
}

/// What a pour does to each tube: other tubes are untouched, `from` loses
/// `amount` units off its top, `to` gains them, and no tube gets a gap.
pub proof fn lemma_pour_effect(buf: Seq<u8>, h: nat, n: nat, from: int, to: int, amount: nat)
    requires
        well_formed(buf, h, n),
        buf.len() <= usize::MAX,
        pour_fits(stats_of(buf, h, n), h, from, to, amount),
    ensures
        ({
            let stats = stats_of(buf, h, n);
            let after = pour_spec(buf, h, stats, from, to, amount);
            &&& after.len() == buf.len()
            &&& well_formed(after, h, n)
            &&& forall|i: int|
                0 <= i < n && i != from && i != to ==> #[trigger] tube_of(after, h, i) == tube_of(
                    buf,
                    h,
                    i,
                )
            &&& fill_level(tube_of(after, h, from)) == stats[from].size - amount
            &&& fill_level(tube_of(after, h, to)) == stats[to].size + amount
            &&& amount > 0 ==> tube_of(after, h, to)[stats[to].size + amount - 1]
                == stats[from].color
        }),
{
    let stats = stats_of(buf, h, n);
    let after = pour_spec(buf, h, stats, from, to, amount);
    let tf = tube_of(buf, h, from);
    let tt = tube_of(buf, h, to);
    let af = tube_of(after, h, from);
    let at = tube_of(after, h, to);
    lemma_tube_range(from, n as int, h as int);
    lemma_tube_range(to, n as int, h as int);
    lemma_tubes_apart(from, to, h as int);
    assert(stats[from] == stat_of(tf));
    assert(stats[to] == stat_of(tt));
    assert(gapless(tf));
    assert(gapless(tt));
    lemma_stat_of_bounds(tf);
    lemma_stat_of_bounds(tt);
    lemma_fill_level_gapless(tf);
    lemma_fill_level_gapless(tt);
    let fs = stats[from].size as int;
    let ts = stats[to].size as int;
    assert forall|i: int| 0 <= i < n && i != from && i != to implies #[trigger] tube_of(
        after,
        h,
        i,
    ) == tube_of(buf, h, i) by {
        lemma_tube_range(i, n as int, h as int);
        lemma_tubes_apart(i, from, h as int);
        lemma_tubes_apart(i, to, h as int);
        assert(tube_of(after, h, i) =~= tube_of(buf, h, i));
    }
    assert forall|k: int| 0 <= k < h implies #[trigger] af[k] == (if fs - amount <= k {
        0u8
    } else {
        tf[k]
    }) by {
        assert(af[k] == after[from * h + k]);
        assert(fill_level(tf) == fs);
        if fs <= k {
            assert(tf[k] == 0);
        }
    }
    assert forall|k: int| 0 <= k < h implies #[trigger] at[k] == (if ts <= k < ts + amount {
        stats[from].color
    } else {
        tt[k]
    }) by {
        assert(at[k] == after[to * h + k]);
    }
    lemma_fill_level_of(af, (fs - amount) as nat);
    if amount > 0 {
        assert(stats[from].color != 0);
    }
    lemma_fill_level_of(at, (ts + amount) as nat);
    assert(gapless(af));
    assert(gapless(at));
    assert forall|i: int| 0 <= i < n implies #[trigger] gapless(tube_of(after, h, i)) by {
        if i != from && i != to {
            assert(gapless(tube_of(buf, h, i)));
        }
    }
}

/// Pouring and then pouring back the same amount between the same two
/// tubes gives back the buffer as it was.
pub proof fn lemma_pour_then_pour_back(buf: Seq<u8>, h: nat, n: nat, from: int, to: int, amount: nat)
    requires
        well_formed(buf, h, n),
        buf.len() <= usize::MAX,
        pour_fits(stats_of(buf, h, n), h, from, to, amount),
    ensures
        ({
            let after = pour_spec(buf, h, stats_of(buf, h, n), from, to, amount);
            &&& stat_of(tube_of(after, h, from)).size + amount <= h
            &&& amount <= stat_of(tube_of(after, h, to)).size
            &&& pour_back_spec(after, h, from, to, amount) == buf
        }),
{
    let stats = stats_of(buf, h, n);
    let after = pour_spec(buf, h, stats, from, to, amount);
    lemma_pour_effect(buf, h, n, from, to, amount);
    let tf = tube_of(buf, h, from);
    let tt = tube_of(buf, h, to);
    lemma_tube_range(from, n as int, h as int);
    lemma_tube_range(to, n as int, h as int);
    lemma_tubes_apart(from, to, h as int);
    assert(stats[from] == stat_of(tf));
    assert(stats[to] == stat_of(tt));
    lemma_stat_of_bounds(tf);
    lemma_stat_of_bounds(tt);
    assert(gapless(tt));
    lemma_fill_level_gapless(tt);
    let af = tube_of(after, h, from);
    let at = tube_of(after, h, to);
    if amount > 0 {
        assert(stat_of(at).color == stats[from].color);
    }
    let back = pour_back_spec(after, h, from, to, amount);
    assert forall|x: int| 0 <= x < buf.len() implies #[trigger] back[x] == buf[x] by {
        let fs = stats[from].size as int;
        let ts = stats[to].size as int;
        if from * h + fs - amount <= x < from * h + fs {
            assert(tf[x - from * h] == buf[x]);
        } else if to * h + ts <= x < to * h + ts + amount {
            assert(tt[x - to * h] == buf[x]);
        }
    }
    assert(back =~= buf);
}

} // verus!

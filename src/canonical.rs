use vstd::prelude::*;
use crate::tube::{layout, lemma_tube_range, tube_of};

verus! {

/// Lexicographic order on the slots of two tubes, from slot `i` upward.
pub open spec fn lex_less_from(a: Seq<u8>, b: Seq<u8>, i: int) -> bool
    decreases a.len() - i,
{
    if i < 0 || i >= a.len() || i >= b.len() {
        false
    } else if a[i] != b[i] {
        a[i] < b[i]
    } else {
        lex_less_from(a, b, i + 1)
    }
}

/// Lexicographic order on tubes, bottom slot first.
pub open spec fn lex_less(a: Seq<u8>, b: Seq<u8>) -> bool {
    lex_less_from(a, b, 0)
}

/// Tube `x` comes before tube `y`: it is smaller, or equal and at a lower index.
pub open spec fn in_order(buf: Seq<u8>, h: nat, x: int, y: int) -> bool {
    let tx = tube_of(buf, h, x);
    let ty = tube_of(buf, h, y);
    lex_less(tx, ty) || (tx == ty && x < y)
}

/// `p` lists each of the `n` tube indices once.
pub open spec fn is_permutation(p: Seq<usize>, n: nat) -> bool {
    &&& p.len() == n
    &&& p.no_duplicates()
    &&& forall|i: int| 0 <= i < n ==> #[trigger] p[i] < n
    &&& forall|k: usize| k < n ==> #[trigger] p.contains(k)
}

/// `p` lists the tubes of `buf` in ascending order, equal tubes by index.
pub open spec fn sorts(buf: Seq<u8>, h: nat, n: nat, p: Seq<usize>) -> bool {
    &&& is_permutation(p, n)
    &&& forall|a: int, b: int|
        0 <= a < b < n ==> #[trigger] in_order(buf, h, p[a] as int, p[b] as int)
}

/// The buffer whose tube `i` is tube `p[i]` of `buf`.
pub open spec fn arrange(buf: Seq<u8>, h: nat, p: Seq<usize>) -> Seq<u8> {
    Seq::new(p.len() * h, |x: int| buf[p[x / (h as int)] * h + x % (h as int)])
}

/// The buffer whose tube `p[i]` is tube `i` of `buf`: undoes `arrange`.
pub open spec fn restore(buf: Seq<u8>, h: nat, p: Seq<usize>) -> Seq<u8> {
    Seq::new(
        p.len() * h,
        |x: int| buf[p.index_of((x / (h as int)) as usize) * h + x % (h as int)],
    )
}

/// The identity permutation of `n` tubes.
pub open spec fn identity(n: nat) -> Seq<usize> {
    Seq::new(n, |i: int| i as usize)
}

/// The order in which the tubes of `buf` are listed in its canonical form.
pub open spec fn canon_perm(buf: Seq<u8>, h: nat, n: nat) -> Seq<usize> {
    choose|p: Seq<usize>| sorts(buf, h, n, p)
}

/// The canonical form of `buf`: its tubes in ascending order.
pub open spec fn canon_key(buf: Seq<u8>, h: nat, n: nat) -> Seq<u8> {
    arrange(buf, h, canon_perm(buf, h, n))
}

/// No tube is smaller than the one before it.
pub open spec fn tubes_ascending(buf: Seq<u8>, h: nat, n: nat) -> bool {
    forall|a: int, b: int|
        0 <= a < b < n ==> !#[trigger] lex_less(tube_of(buf, h, b), tube_of(buf, h, a))
}

pub proof fn lemma_lex_irreflexive(a: Seq<u8>, i: int)
    ensures
        !lex_less_from(a, a, i),
    decreases a.len() - i,
{
    if 0 <= i < a.len() {
        lemma_lex_irreflexive(a, i + 1);
    }
}

pub proof fn lemma_lex_asymmetric(a: Seq<u8>, b: Seq<u8>, i: int)
    requires
        lex_less_from(a, b, i),
    ensures
        !lex_less_from(b, a, i),
    decreases a.len() - i,
{
    if 0 <= i < a.len() && i < b.len() && a[i] == b[i] {
        lemma_lex_asymmetric(a, b, i + 1);
    }
}

pub proof fn lemma_lex_transitive(a: Seq<u8>, b: Seq<u8>, c: Seq<u8>, i: int)
    requires
        lex_less_from(a, b, i),
        lex_less_from(b, c, i),
    ensures
        lex_less_from(a, c, i),
    decreases a.len() - i,
{
    if a[i] == b[i] && b[i] == c[i] {
        lemma_lex_transitive(a, b, c, i + 1);
    }
}

/// Two tubes of one length are equal, or one is smaller than the other.
pub proof fn lemma_lex_total(a: Seq<u8>, b: Seq<u8>, i: int)
    requires
        a.len() == b.len(),
        0 <= i <= a.len(),
        !lex_less_from(a, b, i),
        !lex_less_from(b, a, i),
    ensures
        a.subrange(i, a.len() as int) == b.subrange(i, b.len() as int),
    decreases a.len() - i,
{
    if i < a.len() {
        lemma_lex_total(a, b, i + 1);
        assert(a.subrange(i, a.len() as int) =~= b.subrange(i, b.len() as int)) by {
            assert forall|k: int| i < k < a.len() implies a[k] == b[k] by {
                assert(a.subrange(i + 1, a.len() as int)[k - i - 1] == a[k]);
                assert(b.subrange(i + 1, b.len() as int)[k - i - 1] == b[k]);
            }
        }
    } else {
        assert(a.subrange(i, a.len() as int) =~= b.subrange(i, b.len() as int));
    }
}

pub proof fn lemma_lex_total_eq(a: Seq<u8>, b: Seq<u8>)
    requires
        a.len() == b.len(),
        !lex_less(a, b),
        !lex_less(b, a),
    ensures
        a == b,
{
    lemma_lex_total(a, b, 0);
    assert(a.subrange(0, a.len() as int) == a);
    assert(b.subrange(0, b.len() as int) == b);
}

pub proof fn lemma_in_order_asymmetric(buf: Seq<u8>, h: nat, x: int, y: int)
    requires
        in_order(buf, h, x, y),
    ensures
        !in_order(buf, h, y, x),
{
    let tx = tube_of(buf, h, x);
    let ty = tube_of(buf, h, y);
    if lex_less(tx, ty) {
        lemma_lex_asymmetric(tx, ty, 0);
        if tx == ty {
            lemma_lex_irreflexive(tx, 0);
        }
    }
}

pub proof fn lemma_in_order_transitive(buf: Seq<u8>, h: nat, x: int, y: int, z: int)
    requires
        in_order(buf, h, x, y),
        in_order(buf, h, y, z),
    ensures
        in_order(buf, h, x, z),
{
    let tx = tube_of(buf, h, x);
    let ty = tube_of(buf, h, y);
    let tz = tube_of(buf, h, z);
    if lex_less(tx, ty) && lex_less(ty, tz) {
        lemma_lex_transitive(tx, ty, tz, 0);
    }
}

/// Only one permutation sorts a buffer's tubes.
pub proof fn lemma_sorts_unique(buf: Seq<u8>, h: nat, n: nat, p: Seq<usize>, q: Seq<usize>)
    requires
        sorts(buf, h, n, p),
        sorts(buf, h, n, q),
    ensures
        p == q,
{
    lemma_sorts_agree_below(buf, h, n, p, q, n as int);
    assert(p =~= q);
}

proof fn lemma_sorts_agree_below(
    buf: Seq<u8>,
    h: nat,
    n: nat,
    p: Seq<usize>,
    q: Seq<usize>,
    i: int,
)
    requires
        sorts(buf, h, n, p),
        sorts(buf, h, n, q),
        0 <= i <= n,
    ensures
        forall|j: int| 0 <= j < i ==> p[j] == q[j],
    decreases i,
{
    if i > 0 {
        lemma_sorts_agree_below(buf, h, n, p, q, i - 1);
        let k = i - 1;
        assert(q[k] < n);
        assert(p[k] < n);
        assert(p.contains(q[k]));
        assert(q.contains(p[k]));
        let m = choose|m: int| 0 <= m < n && p[m] == q[k];
        let m2 = choose|m: int| 0 <= m < n && q[m] == p[k];
        if m < k {
            assert(q[m] == q[k]);
        }
        if m2 < k {
            assert(p[m2] == p[k]);
        }
        if m != k && m2 != k {
            assert(in_order(buf, h, p[k] as int, p[m] as int));
            assert(in_order(buf, h, q[k] as int, q[m2] as int));
            lemma_in_order_asymmetric(buf, h, p[k] as int, q[k] as int);
        }
    }
}

pub proof fn lemma_div_mod(i: int, j: int, h: int)
    requires
        h > 0,
        0 <= j < h,
    ensures
        (i * h + j) / h == i,
        (i * h + j) % h == j,
{
    vstd::arithmetic::div_mod::lemma_fundamental_div_mod_converse(i * h + j, h, i, j);
}

/// Tube `i` of an arrangement is tube `p[i]` of the buffer arranged.
pub proof fn lemma_arrange_tube(buf: Seq<u8>, h: nat, n: nat, p: Seq<usize>, i: int)
    requires
        layout(buf, h, n),
        is_permutation(p, n),
        0 <= i < n,
    ensures
        arrange(buf, h, p).len() == n * h,
        tube_of(arrange(buf, h, p), h, i) == tube_of(buf, h, p[i] as int),
{
    let r = arrange(buf, h, p);
    lemma_tube_range(i, n as int, h as int);
    lemma_tube_range(p[i] as int, n as int, h as int);
    assert forall|j: int| 0 <= j < h implies #[trigger] tube_of(r, h, i)[j] == tube_of(
        buf,
        h,
        p[i] as int,
    )[j] by {
        lemma_div_mod(i, j, h as int);
    }
    assert(tube_of(r, h, i) =~= tube_of(buf, h, p[i] as int));
}

/// Two buffers of `n` tubes with the same tubes are the same buffer.
pub proof fn lemma_same_tubes(a: Seq<u8>, b: Seq<u8>, h: nat, n: nat)
    requires
        layout(a, h, n),
        layout(b, h, n),
        forall|i: int| 0 <= i < n ==> #[trigger] tube_of(a, h, i) == tube_of(b, h, i),
    ensures
        a == b,
{
    assert forall|x: int| 0 <= x < a.len() implies a[x] == b[x] by {
        let i = x / (h as int);
        let j = x % (h as int);
        vstd::arithmetic::div_mod::lemma_fundamental_div_mod(x, h as int);
        assert(0 <= j < h);
        assert(0 <= i < n) by (nonlinear_arith)
            requires
                x == h * i + j,
                0 <= j < h,
                0 <= x < n * h,
                h > 0,
        ;
        lemma_tube_range(i, n as int, h as int);
        assert(x == i * h + j) by (nonlinear_arith)
            requires
                x == h * i + j,
        ;
        assert(tube_of(a, h, i)[j] == a[x]);
        assert(tube_of(b, h, i)[j] == b[x]);
    }
    assert(a =~= b);
}

pub proof fn lemma_count_fits(buf: Seq<u8>, h: nat, n: nat)
    requires
        layout(buf, h, n),
    ensures
        n <= buf.len(),
{
    assert(n <= n * h) by (nonlinear_arith)
        requires
            h > 0,
    ;
}

/// The tubes of a sorted arrangement are in ascending order.
pub proof fn lemma_sorted_ascending(buf: Seq<u8>, h: nat, n: nat, p: Seq<usize>)
    requires
        layout(buf, h, n),
        sorts(buf, h, n, p),
    ensures
        tubes_ascending(arrange(buf, h, p), h, n),
{
    let r = arrange(buf, h, p);
    assert forall|a: int, b: int| 0 <= a < b < n implies !#[trigger] lex_less(
        tube_of(r, h, b),
        tube_of(r, h, a),
    ) by {
        lemma_arrange_tube(buf, h, n, p, a);
        lemma_arrange_tube(buf, h, n, p, b);
        let ta = tube_of(buf, h, p[a] as int);
        let tb = tube_of(buf, h, p[b] as int);
        assert(in_order(buf, h, p[a] as int, p[b] as int));
        if lex_less(ta, tb) {
            lemma_lex_asymmetric(ta, tb, 0);
        } else {
            lemma_lex_irreflexive(ta, 0);
        }
    }
}

/// Canonicalizing a buffer whose tubes are already in ascending order
/// keeps every tube in place and leaves the buffer as it is.
pub proof fn lemma_canonical_is_fixed(buf: Seq<u8>, h: nat, n: nat)
    requires
        layout(buf, h, n),
        buf.len() <= usize::MAX,
        tubes_ascending(buf, h, n),
    ensures
        canon_perm(buf, h, n) == identity(n),
        canon_key(buf, h, n) == buf,
{
    lemma_count_fits(buf, h, n);
    let id = identity(n);
    assert forall|k: usize| k < n implies #[trigger] id.contains(k) by {
        assert(id[k as int] == k);
    }
    assert forall|a: int, b: int| 0 <= a < b < n implies #[trigger] in_order(
        buf,
        h,
        id[a] as int,
        id[b] as int,
    ) by {
        let ta = tube_of(buf, h, a);
        let tb = tube_of(buf, h, b);
        lemma_tube_range(a, n as int, h as int);
        lemma_tube_range(b, n as int, h as int);
        if !lex_less(ta, tb) {
            lemma_lex_total_eq(ta, tb);
        }
    }
    assert(sorts(buf, h, n, id));
    lemma_sorts_unique(buf, h, n, id, canon_perm(buf, h, n));
    let r = arrange(buf, h, id);
    assert forall|i: int| 0 <= i < n implies #[trigger] tube_of(r, h, i) == tube_of(buf, h, i) by {
        lemma_arrange_tube(buf, h, n, id, i);
    }
    lemma_same_tubes(r, buf, h, n);
}

/// Putting each tube of an arrangement back where it came from gives back
/// the buffer that was arranged.
pub proof fn lemma_restore_arrange(buf: Seq<u8>, h: nat, n: nat, p: Seq<usize>)
    requires
        layout(buf, h, n),
        buf.len() <= usize::MAX,
        is_permutation(p, n),
    ensures
        restore(arrange(buf, h, p), h, p) == buf,
{
    lemma_count_fits(buf, h, n);
    let a = arrange(buf, h, p);
    let r = restore(a, h, p);
    assert forall|k: int| 0 <= k < n implies #[trigger] tube_of(r, h, k) == tube_of(buf, h, k) by {
        assert(p.contains(k as usize));
        let m = p.index_of(k as usize);
        assert(0 <= m < n && p[m] == k as usize);
        lemma_arrange_tube(buf, h, n, p, m);
        lemma_tube_range(k, n as int, h as int);
        lemma_tube_range(m, n as int, h as int);
        assert forall|j: int| 0 <= j < h implies #[trigger] tube_of(r, h, k)[j] == tube_of(
            buf,
            h,
            k,
        )[j] by {
            lemma_div_mod(k, j, h as int);
            assert(tube_of(a, h, m)[j] == a[m * h + j]);
        }
        assert(tube_of(r, h, k) =~= tube_of(buf, h, k));
    }
    lemma_same_tubes(r, buf, h, n);
}

/// Whether tube `x` of `buf` is smaller than tube `y`.
fn tube_less(buf: &Vec<u8>, height: usize, x: usize, y: usize) -> (r: bool)
    requires
        height > 0,
        x * height + height <= buf@.len(),
        y * height + height <= buf@.len(),
    ensures
        r == lex_less(tube_of(buf@, height as nat, x as int), tube_of(buf@, height as nat, y as int)),
{
    let ghost a = tube_of(buf@, height as nat, x as int);
    let ghost b = tube_of(buf@, height as nat, y as int);
    let len = buf.len();
    let bx = x * height;
    let by_ = y * height;
    let mut k: usize = 0;
    while k < height
        invariant
            len == buf@.len(),
            bx == x * height,
            by_ == y * height,
            bx + height <= len,
            by_ + height <= len,
            a == buf@.subrange(bx as int, bx + height),
            b == buf@.subrange(by_ as int, by_ + height),
            k <= height,
            lex_less_from(a, b, 0) == lex_less_from(a, b, k as int),
        decreases height - k,
    {
        let u = buf[bx + k];
        let v = buf[by_ + k];
        if u != v {
            return u < v;
        }
        k += 1;
    }
    false
}

/// The canonical form of a buffer of `tube_count` tubes of height `height`:
/// returns the permutation that sorts the tubes (ascending, equal tubes kept
/// in their order) and the sorted buffer, whose tube `i` is tube
/// `transform[i]` of the input.
pub fn get_transform(tubes: &Vec<u8>, height: usize, tube_count: usize) -> (r: (
    Vec<usize>,
    Vec<u8>,
))
    requires
        layout(tubes@, height as nat, tube_count as nat),
    ensures
        sorts(tubes@, height as nat, tube_count as nat, r.0@),
        r.0@ == canon_perm(tubes@, height as nat, tube_count as nat),
        r.1@ == arrange(tubes@, height as nat, r.0@),
        r.1@ == canon_key(tubes@, height as nat, tube_count as nat),
        tubes_ascending(r.1@, height as nat, tube_count as nat),
        forall|i: int|
            0 <= i < tube_count ==> #[trigger] tube_of(r.1@, height as nat, i) == tube_of(
                tubes@,
                height as nat,
                r.0@[i] as int,
            ),
{
    let ghost h = height as nat;
    let ghost n = tube_count as nat;
    let ghost buf = tubes@;
    let total = tubes.len();
    let mut transform: Vec<usize> = Vec::new();
    let mut i: usize = 0;
    while i < tube_count
        invariant
            layout(buf, h, n),
            buf == tubes@,
            h == height,
            n == tube_count,
            i <= n,
            sorts(buf, h, i as nat, transform@),
            forall|a: int| 0 <= a < i ==> #[trigger] transform@[a] < i,
        decreases tube_count - i,
    {
        proof {
            lemma_tube_range(i as int, n as int, h as int);
            assert forall|a: int| 0 <= a < i implies (#[trigger] transform@[a]) * h + h <= n * h by {
                lemma_tube_range(transform@[a] as int, n as int, h as int);
            }
        }
        let mut j: usize = transform.len();
        while j > 0 && tube_less(tubes, height, i, transform[j - 1])
            invariant
                layout(buf, h, n),
                buf == tubes@,
                h == height,
                i < n,
                transform@.len() == i,
                forall|a: int| 0 <= a < i ==> #[trigger] transform@[a] < i,
                forall|a: int| 0 <= a < i ==> (#[trigger] transform@[a]) * h + h <= n * h,
                i * h + h <= n * h,
                j <= i,
                forall|a: int|
                    j <= a < i ==> #[trigger] lex_less(
                        tube_of(buf, h, i as int),
                        tube_of(buf, h, transform@[a] as int),
                    ),
            decreases j,
        {
            j -= 1;
        }
        let ghost old_t = transform@;
        transform.insert(j, i);
        proof {
            let t = transform@;
            assert(t.len() == i + 1);
            assert forall|a: int| 0 <= a < i + 1 implies #[trigger] t[a] < i + 1 by {
                if a < j {
                    assert(t[a] == old_t[a]);
                } else if a > j {
                    assert(t[a] == old_t[a - 1]);
                }
            }
            if j > 0 {
                let tj = tube_of(buf, h, old_t[j - 1] as int);
                let ti = tube_of(buf, h, i as int);
                lemma_tube_range(old_t[j - 1] as int, n as int, h as int);
                if !lex_less(tj, ti) {
                    lemma_lex_total_eq(ti, tj);
                }
                assert(in_order(buf, h, old_t[j - 1] as int, i as int));
            }
            assert forall|a: int, b: int| 0 <= a < b < i + 1 implies #[trigger] in_order(
                buf,
                h,
                t[a] as int,
                t[b] as int,
            ) by {
                if b < j {
                    assert(t[a] == old_t[a] && t[b] == old_t[b]);
                } else if b == j {
                    assert(t[a] == old_t[a]);
                    if a < j - 1 {
                        assert(in_order(buf, h, old_t[a] as int, old_t[j - 1] as int));
                        lemma_in_order_transitive(
                            buf,
                            h,
                            old_t[a] as int,
                            old_t[j - 1] as int,
                            i as int,
                        );
                    }
                } else if a == j {
                    assert(t[b] == old_t[b - 1]);
                } else if a < j {
                    assert(t[a] == old_t[a] && t[b] == old_t[b - 1]);
                    assert(in_order(buf, h, old_t[a] as int, old_t[b - 1] as int));
                } else {
                    assert(t[a] == old_t[a - 1] && t[b] == old_t[b - 1]);
                    assert(in_order(buf, h, old_t[a - 1] as int, old_t[b - 1] as int));
                }
            }
            assert(t.no_duplicates()) by {
                assert forall|a: int, b: int| 0 <= a < b < i + 1 implies t[a] != t[b] by {
                    assert(in_order(buf, h, t[a] as int, t[b] as int));
                    if t[a] == t[b] {
                        lemma_in_order_asymmetric(buf, h, t[a] as int, t[b] as int);
                    }
                }
            }
            assert forall|k: usize| k < i + 1 implies #[trigger] t.contains(k) by {
                if k == i {
                    assert(t[j as int] == i);
                } else {
                    assert(old_t.contains(k));
                    let m = choose|m: int| 0 <= m < i && old_t[m] == k;
                    if m < j {
                        assert(t[m] == old_t[m]);
                    } else {
                        assert(t[m + 1] == old_t[m]);
                    }
                }
            }
        }
        i += 1;
    }
    let mut sorted: Vec<u8> = Vec::new();
    let mut i: usize = 0;
    while i < tube_count
        invariant
            layout(buf, h, n),
            buf == tubes@,
            total == buf.len(),
            h == height,
            n == tube_count,
            i <= n,
            sorts(buf, h, n, transform@),
            sorted@.len() == i * h,
            forall|x: int| 0 <= x < i * h ==> #[trigger] sorted@[x] == arrange(buf, h, transform@)[x],
        decreases tube_count - i,
    {
        let src = transform[i];
        proof {
            lemma_tube_range(i as int, n as int, h as int);
            lemma_tube_range(src as int, n as int, h as int);
        }
        let base = src * height;
        let mut k: usize = 0;
        while k < height
            invariant
                layout(buf, h, n),
                buf == tubes@,
                total == buf.len(),
                h == height,
                i < n,
                sorts(buf, h, n, transform@),
                src == transform@[i as int],
                base == src * height,
                base + height <= buf.len(),
                k <= height,
                i * h + h <= n * h,
                sorted@.len() == i * h + k,
                forall|x: int|
                    0 <= x < i * h + k ==> #[trigger] sorted@[x] == arrange(buf, h, transform@)[x],
            decreases height - k,
        {
            proof {
                lemma_div_mod(i as int, k as int, h as int);
            }
            sorted.push(tubes[base + k]);
            k += 1;
        }
        proof {
            assert((i + 1) * h == i * h + h) by (nonlinear_arith);
        }
        i += 1;
    }
    proof {
        assert(sorted@ =~= arrange(buf, h, transform@));
        lemma_sorts_unique(buf, h, n, transform@, canon_perm(buf, h, n));
        lemma_sorted_ascending(buf, h, n, transform@);
        assert forall|i: int| 0 <= i < tube_count implies #[trigger] tube_of(sorted@, h, i)
            == tube_of(buf, h, transform@[i] as int) by {
            lemma_arrange_tube(buf, h, n, transform@, i);
        }
    }
    (transform, sorted)
}

} // verus!

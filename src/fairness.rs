use vstd::prelude::*;

use vstd::arithmetic::div_mod::{lemma_mod_add_multiples_vanish, lemma_small_mod};

use crate::algorithms::{
    current_weights, first_max_pos, is_first_max, lemma_first_max, raised, weight_sum, weights, wrr_next,
    wrr_pick,
};
use crate::backend::{healthy_indices, lemma_all_healthy, Backend};
use crate::dispatcher::next_counter;

verus! {

/// Number of occurrences of `v` in `s`.
pub open spec fn count(s: Seq<int>, v: int) -> nat
    decreases s.len(),
{
    if s.len() == 0 {
        0
    } else {
        count(s.drop_last(), v) + if s.last() == v {
            1nat
        } else {
            0nat
        }
    }
}

/// The shared counter after `t` requests that consumed it, starting at `c`.
pub open spec fn counter_after(c: usize, t: nat) -> usize
    decreases t,
{
    if t == 0 {
        c
    } else {
        next_counter(counter_after(c, (t - 1) as nat))
    }
}

/// Positions in a healthy set of `n` backends chosen by `t` successive round
/// robin selections, the counter starting at `c`.
pub open spec fn round_robin_picks(c: usize, n: nat, t: nat) -> Seq<int> {
    Seq::new(t, |j: int| counter_after(c, j as nat) as int % n as int)
}

/// `(a + j) mod n` for every `j < m`.
pub open spec fn residues(a: int, n: int, m: nat) -> Seq<int> {
    Seq::new(m, |j: int| (a + j) % n)
}

proof fn lemma_counter_no_wrap(c: usize, t: nat)
    requires
        c + t <= usize::MAX,
    ensures
        counter_after(c, t) == c + t,
    decreases t,
{
    if t > 0 {
        lemma_counter_no_wrap(c, (t - 1) as nat);
    }
}

proof fn lemma_count_push(s: Seq<int>, x: int, v: int)
    ensures
        count(s.push(x), v) == count(s, v) + if x == v {
            1nat
        } else {
            0nat
        },
{
    assert(s.push(x).drop_last() =~= s);
}

proof fn lemma_residues_split(a: int, n: int, m1: nat, m2: nat)
    requires
        n > 0,
    ensures
        forall|v: int| count(#[trigger] residues(a, n, m1 + m2), v) == count(residues(a, n, m1), v) + count(
            residues(a + m1, n, m2),
            v,
        ),
    decreases m2,
{
    if m2 > 0 {
        lemma_residues_split(a, n, m1, (m2 - 1) as nat);
        let whole = residues(a, n, m1 + m2);
        let tail = residues(a + m1, n, m2);
        assert(whole.drop_last() =~= residues(a, n, (m1 + m2 - 1) as nat));
        assert(tail.drop_last() =~= residues(a + m1, n, (m2 - 1) as nat));
        assert(whole.last() == tail.last());
    }
}

proof fn lemma_count_identity(m: nat, v: int)
    ensures
        count(Seq::new(m, |j: int| j), v) == if 0 <= v < m {
            1nat
        } else {
            0nat
        },
    decreases m,
{
    if m > 0 {
        lemma_count_identity((m - 1) as nat, v);
        assert(Seq::new(m, |j: int| j).drop_last() =~= Seq::new((m - 1) as nat, |j: int| j));
    }
}

proof fn lemma_residues_block(a: nat, n: nat, v: int)
    requires
        n > 0,
        0 <= v < n,
    ensures
        count(residues(a as int, n as int, n), v) == 1,
    decreases a,
{
    if a == 0 {
        assert forall|j: int| 0 <= j < n implies #[trigger] residues(0, n as int, n)[j] == j by {
            lemma_small_mod(j as nat, n);
        }
        assert(residues(0, n as int, n) =~= Seq::new(n, |j: int| j));
        lemma_count_identity(n, v);
    } else {
        let b = (a - 1) as nat;
        let bi = b as int;
        let ni = n as int;
        lemma_residues_block(b, n, v);
        lemma_residues_split(bi, ni, 1, n);
        lemma_residues_split(bi, ni, n, 1);
        assert(1 + n == n + 1);
        lemma_mod_add_multiples_vanish(bi, ni);
        let x = bi % ni;
        assert(residues(bi, ni, 1) =~= Seq::<int>::empty().push(x));
        assert(residues(bi + ni, ni, 1) =~= Seq::<int>::empty().push(x));
        lemma_count_push(Seq::empty(), x, v);
        assert(bi + 1 == a as int);
    }
}

proof fn lemma_residues_even(a: nat, n: nat, k: nat, v: int)
    requires
        n > 0,
        0 <= v < n,
    ensures
        count(residues(a as int, n as int, k * n), v) == k,
    decreases k,
{
    if k == 0 {
        assert(residues(a as int, n as int, 0) =~= Seq::empty());
    } else {
        let k1 = (k - 1) as nat;
        lemma_residues_even(a, n, k1, v);
        assert(k * n == k1 * n + n) by (nonlinear_arith)
            requires
                k1 == k - 1,
        ;
        lemma_residues_split(a as int, n as int, k1 * n, n);
        lemma_residues_block(a + k1 * n, n, v);
    }
}

/// Round robin over `n` healthy backends is even: over `k * n` successive
/// selections that do not wrap the counter, each backend is chosen exactly
/// `k` times.
pub proof fn lemma_round_robin_even(c: usize, n: nat, k: nat)
    requires
        n > 0,
        c + k * n <= usize::MAX,
    ensures
        forall|v: int| 0 <= v < n ==> #[trigger] count(round_robin_picks(c, n, k * n), v) == k,
{
    assert forall|j: int| 0 <= j < k * n implies #[trigger] counter_after(c, j as nat) == c + j by {
        lemma_counter_no_wrap(c, j as nat);
    }
    assert(round_robin_picks(c, n, k * n) =~= residues(c as int, n as int, k * n));
    assert forall|v: int| 0 <= v < n implies #[trigger] count(round_robin_picks(c, n, k * n), v) == k by {
        lemma_residues_even(c as nat, n, k, v);
    }
}

/// Current weights after `t` weighted round robin selections over `hs`.
pub open spec fn wrr_state_after(cw: Seq<int>, w: Seq<int>, hs: Seq<usize>, t: nat) -> Seq<int>
    decreases t,
{
    if t == 0 {
        cw
    } else {
        wrr_next(wrr_state_after(cw, w, hs, (t - 1) as nat), w, hs)
    }
}

/// Pool indices of the backends chosen by `t` successive weighted round robin
/// selections over `hs`.
pub open spec fn wrr_picks(cw: Seq<int>, w: Seq<int>, hs: Seq<usize>, t: nat) -> Seq<int>
    decreases t,
{
    if t == 0 {
        Seq::empty()
    } else {
        let prev = wrr_state_after(cw, w, hs, (t - 1) as nat);
        wrr_picks(cw, w, hs, (t - 1) as nat).push(hs[wrr_pick(prev, w, hs)] as int)
    }
}

/// The positions `0 .. n`.
pub open spec fn all_positions(n: nat) -> Seq<usize> {
    Seq::new(n, |i: int| i as usize)
}

/// Sum of the first `n` elements of `s`.
pub open spec fn total(s: Seq<int>, n: nat) -> int {
    weight_sum(s, all_positions(n))
}

proof fn lemma_total_unfold(s: Seq<int>, n: nat)
    requires
        0 < n <= usize::MAX,
    ensures
        total(s, n) == total(s, (n - 1) as nat) + s[n - 1],
{
    assert(all_positions(n).drop_last() =~= all_positions((n - 1) as nat));
}

proof fn lemma_total_pointwise(a: Seq<int>, b: Seq<int>, c: Seq<int>, n: nat)
    requires
        n <= usize::MAX,
        forall|i: int| 0 <= i < n ==> #[trigger] c[i] == a[i] + b[i],
    ensures
        total(c, n) == total(a, n) + total(b, n),
    decreases n,
{
    if n > 0 {
        lemma_total_pointwise(a, b, c, (n - 1) as nat);
        lemma_total_unfold(a, n);
        lemma_total_unfold(b, n);
        lemma_total_unfold(c, n);
    }
}

proof fn lemma_total_point(a: Seq<int>, b: Seq<int>, n: nat, m: int, d: int)
    requires
        n <= usize::MAX,
        0 <= m < n,
        b[m] == a[m] + d,
        forall|i: int| 0 <= i < n && i != m ==> #[trigger] b[i] == a[i],
    ensures
        total(b, n) == total(a, n) + d,
    decreases n,
{
    lemma_total_unfold(a, n);
    lemma_total_unfold(b, n);
    if m < n - 1 {
        lemma_total_point(a, b, (n - 1) as nat, m, d);
    } else {
        lemma_total_same(a, b, (n - 1) as nat);
    }
}

proof fn lemma_total_same(a: Seq<int>, b: Seq<int>, n: nat)
    requires
        n <= usize::MAX,
        forall|i: int| 0 <= i < n ==> #[trigger] b[i] == a[i],
    ensures
        total(b, n) == total(a, n),
    decreases n,
{
    if n > 0 {
        lemma_total_same(a, b, (n - 1) as nat);
        lemma_total_unfold(a, n);
        lemma_total_unfold(b, n);
    }
}

proof fn lemma_total_le(a: Seq<int>, b: Seq<int>, n: nat, j: int)
    requires
        n <= usize::MAX,
        forall|i: int| 0 <= i < n ==> #[trigger] a[i] <= b[i],
    ensures
        total(a, n) <= total(b, n),
        0 <= j < n && a[j] < b[j] ==> total(a, n) < total(b, n),
    decreases n,
{
    if n > 0 {
        lemma_total_le(a, b, (n - 1) as nat, j);
        lemma_total_unfold(a, n);
        lemma_total_unfold(b, n);
    }
}

proof fn lemma_count_total(s: Seq<int>, n: nat)
    requires
        n <= usize::MAX,
        forall|j: int| 0 <= j < s.len() ==> 0 <= #[trigger] s[j] < n,
    ensures
        total(Seq::new(n, |i: int| count(s, i) as int), n) == s.len(),
    decreases s.len(),
{
    let counts = Seq::new(n, |i: int| count(s, i) as int);
    if s.len() == 0 {
        lemma_total_pointwise(counts, counts, counts, n);
    } else {
        let p = s.drop_last();
        let x = s.last();
        lemma_count_total(p, n);
        let before = Seq::new(n, |i: int| count(p, i) as int);
        assert(p.push(x) =~= s);
        assert forall|i: int| 0 <= i < n && i != x implies #[trigger] counts[i] == before[i] by {
            lemma_count_push(p, x, i);
        }
        lemma_count_push(p, x, x);
        lemma_total_point(before, counts, n, x, 1);
    }
}

proof fn lemma_wrr_cycle_invariant(w: Seq<int>, n: nat, t: nat)
    requires
        n == w.len(),
        0 < n <= usize::MAX,
        forall|i: int| 0 <= i < n ==> #[trigger] w[i] > 0,
    ensures
        ({
            let z = Seq::new(n, |i: int| 0int);
            let hs = all_positions(n);
            let big = total(w, n);
            let st = wrr_state_after(z, w, hs, t);
            let p = wrr_picks(z, w, hs, t);
            &&& big > 0
            &&& st.len() == n
            &&& total(st, n) == 0
            &&& p.len() == t
            &&& forall|j: int| 0 <= j < t ==> 0 <= #[trigger] p[j] < n
            &&& forall|i: int| 0 <= i < n ==> #[trigger] st[i] > -big
            &&& forall|i: int| 0 <= i < n ==> #[trigger] st[i] == t * w[i] - big * count(p, i)
        }),
    decreases t,
{
    let z = Seq::new(n, |i: int| 0int);
    let hs = all_positions(n);
    let big = total(w, n);
    lemma_total_pointwise(z, z, z, n);
    lemma_total_le(z, w, n, 0);
    if t == 0 {
        assert forall|i: int| 0 <= i < n implies #[trigger] z[i] == 0 * w[i] - big * count(
            Seq::empty(),
            i,
        ) by {
            assert(0 * w[i] == 0) by (nonlinear_arith);
            assert(big * 0 == 0) by (nonlinear_arith);
        }
    } else {
        let t0 = (t - 1) as nat;
        lemma_wrr_cycle_invariant(w, n, t0);
        let st0 = wrr_state_after(z, w, hs, t0);
        let p0 = wrr_picks(z, w, hs, t0);
        let st = wrr_state_after(z, w, hs, t);
        let p = wrr_picks(z, w, hs, t);
        let r = raised(st0, w, hs);
        assert forall|k: int| 0 <= k < n implies #[trigger] r[k] == st0[k] + w[k] by {
            assert(hs[k] as int == k);
        }
        lemma_first_max(r);
        let m = wrr_pick(st0, w, hs);
        assert(m == first_max_pos(r));
        assert(is_first_max(r, m));
        assert(hs[m] as int == m);
        lemma_total_pointwise(st0, w, r, n);
        if r[m] <= 0 {
            assert forall|k: int| 0 <= k < n implies #[trigger] r[k] <= z[k] by {}
            lemma_total_le(r, z, n, 0);
        }
        assert(weight_sum(w, hs) == big);
        assert forall|i: int| 0 <= i < n && i != m implies #[trigger] st[i] == st0[i] + w[i] by {
            assert(hs[i] == i as usize);
            assert(hs.contains(i as usize));
        }
        assert(st[m] == st0[m] + w[m] - big);
        lemma_total_point(r, st, n, m, -big);
        assert(p == p0.push(m));
        assert forall|j: int| 0 <= j < t implies 0 <= #[trigger] p[j] < n by {
            if j < t0 {
                assert(p[j] == p0[j]);
            }
        }
        assert forall|i: int| 0 <= i < n implies #[trigger] st[i] > -big by {
            assert(st0[i] > -big);
        }
        assert forall|i: int| 0 <= i < n implies #[trigger] st[i] == t * w[i] - big * count(p, i) by {
            lemma_count_push(p0, m, i);
            let c0 = count(p0, i) as int;
            let wi = w[i];
            assert(st0[i] == t0 * wi - big * c0);
            assert(t * wi == t0 * wi + wi) by (nonlinear_arith)
                requires
                    t == t0 + 1,
            ;
            assert(big * (c0 + 1) == big * c0 + big) by (nonlinear_arith);
        }
    }
}

/// Smooth weighted round robin is exact over a cycle: on a pool whose
/// backends are all healthy, with positive weights and current weights at
/// zero (as configured), `sum(weights)` successive selections choose every
/// backend exactly `weight` times, and leave the current weights at zero, so
/// that the next cycle repeats the schedule.
pub proof fn lemma_weighted_round_robin_cycle(bs: Seq<Backend>)
    requires
        bs.len() <= usize::MAX,
        forall|i: int|
            0 <= i < bs.len() ==> (#[trigger] bs[i]).is_healthy && bs[i].current_weight == 0
                && bs[i].weight > 0,
    ensures
        ({
            let hs = healthy_indices(bs);
            let cw = current_weights(bs);
            let w = weights(bs);
            let cycle = weight_sum(w, hs);
            &&& forall|i: int|
                0 <= i < bs.len() ==> #[trigger] count(wrr_picks(cw, w, hs, cycle as nat), i)
                    == bs[i].weight
            &&& wrr_state_after(cw, w, hs, cycle as nat) == cw
        }),
{
    let n = bs.len();
    let hs = healthy_indices(bs);
    let cw = current_weights(bs);
    let w = weights(bs);
    lemma_all_healthy(bs);
    assert(hs == all_positions(n));
    if n == 0 {
        assert(weight_sum(w, hs) == 0);
    } else {
        let z = Seq::new(n, |i: int| 0int);
        assert(cw =~= z);
        assert forall|i: int| 0 <= i < n implies #[trigger] w[i] > 0 by {
            assert(bs[i].weight > 0);
        }
        let big = total(w, n);
        lemma_wrr_cycle_invariant(w, n, big as nat);
        let st = wrr_state_after(z, w, hs, big as nat);
        let p = wrr_picks(z, w, hs, big as nat);
        let counts = Seq::new(n, |i: int| count(p, i) as int);
        assert forall|i: int| 0 <= i < n implies #[trigger] counts[i] <= w[i] by {
            let c = count(p, i) as int;
            let wi = w[i];
            assert(st[i] == big * wi - big * c);
            assert(c <= wi) by (nonlinear_arith)
                requires
                    big > 0,
                    big * wi - big * c > -big,
            ;
        }
        lemma_count_total(p, n);
        assert forall|i: int| 0 <= i < n implies #[trigger] counts[i] == w[i] by {
            if counts[i] < w[i] {
                lemma_total_le(counts, w, n, i);
            }
        }
        assert forall|i: int| 0 <= i < n implies #[trigger] st[i] == z[i] by {
            assert(counts[i] == w[i]);
            assert(big * w[i] - big * w[i] == 0);
        }
        assert(st =~= z);
        assert forall|i: int| 0 <= i < n implies #[trigger] count(p, i) == bs[i].weight by {
            assert(counts[i] == w[i]);
        }
    }
}

proof fn lemma_wrr_state_compose(cw: Seq<int>, w: Seq<int>, hs: Seq<usize>, a: nat, b: nat)
    ensures
        wrr_state_after(cw, w, hs, a + b) == wrr_state_after(wrr_state_after(cw, w, hs, a), w, hs, b),
    decreases b,
{
    if b > 0 {
        lemma_wrr_state_compose(cw, w, hs, a, (b - 1) as nat);
        assert((a + b - 1) as nat == a + (b - 1) as nat);
    }
}

/// Smooth weighted round robin is exact over every window of a cycle's
/// length: on a pool as configured (all backends healthy, positive weights,
/// current weights at zero), the `sum(weights)` selections that follow any
/// number `s` of earlier ones choose every backend exactly `weight` times.
pub proof fn lemma_weighted_round_robin_window(bs: Seq<Backend>, s: nat)
    requires
        bs.len() <= usize::MAX,
        forall|i: int|
            0 <= i < bs.len() ==> (#[trigger] bs[i]).is_healthy && bs[i].current_weight == 0
                && bs[i].weight > 0,
    ensures
        ({
            let hs = healthy_indices(bs);
            let cw = current_weights(bs);
            let w = weights(bs);
            let cycle = weight_sum(w, hs);
            forall|i: int|
                0 <= i < bs.len() ==> #[trigger] count(wrr_picks(cw, w, hs, s + cycle as nat), i) == count(
                    wrr_picks(cw, w, hs, s),
                    i,
                ) + bs[i].weight
        }),
{
    let n = bs.len();
    let hs = healthy_indices(bs);
    let cw = current_weights(bs);
    let w = weights(bs);
    lemma_all_healthy(bs);
    lemma_weighted_round_robin_cycle(bs);
    if n == 0 {
        assert(weight_sum(w, hs) == 0);
    } else {
        let z = Seq::new(n, |i: int| 0int);
        assert(cw =~= z);
        assert forall|i: int| 0 <= i < n implies #[trigger] w[i] > 0 by {
            assert(bs[i].weight > 0);
        }
        let big = total(w, n);
        let e = s + big as nat;
        lemma_wrr_state_compose(z, w, hs, big as nat, s);
        assert(big as nat + s == e);
        lemma_wrr_cycle_invariant(w, n, s);
        lemma_wrr_cycle_invariant(w, n, e);
        let st_s = wrr_state_after(z, w, hs, s);
        let st_e = wrr_state_after(z, w, hs, e);
        assert(st_e == st_s);
        assert forall|i: int| 0 <= i < n implies #[trigger] count(wrr_picks(cw, w, hs, e), i) == count(
            wrr_picks(cw, w, hs, s),
            i,
        ) + bs[i].weight by {
            let cs = count(wrr_picks(z, w, hs, s), i) as int;
            let ce = count(wrr_picks(z, w, hs, e), i) as int;
            let wi = w[i];
            assert(st_s[i] == s * wi - big * cs);
            assert(st_e[i] == e * wi - big * ce);
            assert(ce == cs + wi) by (nonlinear_arith)
                requires
                    big > 0,
                    e == s + big,
                    s * wi - big * cs == e * wi - big * ce,
            ;
        }
    }
}

} // verus!

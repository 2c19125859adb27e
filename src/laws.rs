use vstd::prelude::*;
use crate::rational::{lemma_outcome, Rational};
use crate::stats::{
    all_wf, count_of, is_mode_set, lemma_le_trans, lower_half, max_count_upto, mean_of, median_of,
    min_count_upto, sorted, sum2, sum_of, upper_half,
};

verus! {

proof fn lemma_flat_counts(s: Seq<Rational>, c: nat, k: int)
    requires
        1 <= k <= s.len(),
        forall|i: int| 0 <= i < s.len() ==> count_of(s, #[trigger] s[i]) == c,
    ensures
        max_count_upto(s, k) == c,
        min_count_upto(s, k) == c,
    decreases k,
{
    assert(count_of(s, s[k - 1]) == c);
    if k > 1 {
        lemma_flat_counts(s, c, k - 1);
    } else {
        assert(max_count_upto(s, 0) == 0);
    }
}

/// When every value of a list occurs equally often (for instance exactly
/// twice each), its mode set is empty.
pub proof fn lemma_flat_list_has_no_mode(s: Seq<Rational>, c: nat, modes: Seq<Rational>)
    requires
        s.len() > 0,
        forall|i: int| 0 <= i < s.len() ==> count_of(s, #[trigger] s[i]) == c,
        is_mode_set(s, modes),
    ensures
        modes.len() == 0,
{
    lemma_flat_counts(s, c, s.len() as int);
}

proof fn lemma_step_lower(a: int, b: int, x: int, y: int, p: int, q: int, zn: int, zd: int, k: int)
    requires
        b > 0,
        y > 0,
        q > 0,
        zd > 0,
        a * q >= k * p * b,
        x * q >= p * y,
        zn * (b * y) == (a * y + x * b) * zd,
    ensures
        zn * q >= (k + 1) * p * zd,
{
    assert(a * q * y >= k * p * b * y) by (nonlinear_arith)
        requires
            a * q >= k * p * b,
            y > 0,
    ;
    assert(x * q * b >= p * y * b) by (nonlinear_arith)
        requires
            x * q >= p * y,
            b > 0,
    ;
    assert((a * y + x * b) * q == a * q * y + x * q * b) by (nonlinear_arith);
    assert((k + 1) * p * (b * y) == k * p * b * y + p * y * b) by (nonlinear_arith);
    assert(zn * q * (b * y) >= (k + 1) * p * zd * (b * y)) by (nonlinear_arith)
        requires
            (a * y + x * b) * q >= (k + 1) * p * (b * y),
            zn * (b * y) == (a * y + x * b) * zd,
            zd > 0,
    ;
    assert(b * y > 0) by (nonlinear_arith)
        requires
            b > 0,
            y > 0,
    ;
    assert(zn * q >= (k + 1) * p * zd) by (nonlinear_arith)
        requires
            zn * q * (b * y) >= (k + 1) * p * zd * (b * y),
            b * y > 0,
    ;
}

proof fn lemma_divide_lower(a: int, b: int, n: int, p: int, q: int, mn: int, md: int)
    requires
        b > 0,
        n > 0,
        md > 0,
        a * q >= n * p * b,
        mn * (b * n) == a * md,
    ensures
        mn * q >= p * md,
{
    assert(mn * q * (b * n) >= p * md * (b * n)) by (nonlinear_arith)
        requires
            a * q >= n * p * b,
            mn * (b * n) == a * md,
            md > 0,
    ;
    assert(b * n > 0) by (nonlinear_arith)
        requires
            b > 0,
            n > 0,
    ;
    assert(mn * q >= p * md) by (nonlinear_arith)
        requires
            mn * q * (b * n) >= p * md * (b * n),
            b * n > 0,
    ;
}

/// The sum of `s` lies between `len * lo` and `len * hi` when every element does
/// between `lo` and `hi`.
proof fn lemma_sum_bounds(s: Seq<Rational>, lo: Rational, hi: Rational)
    requires
        all_wf(s),
        lo.wf(),
        hi.wf(),
        forall|i: int| 0 <= i < s.len() ==> lo.le(#[trigger] s[i]) && s[i].le(hi),
    ensures
        sum_of(s) matches Ok(t) ==> t.wf() && t.num * lo.den >= s.len() * lo.num * t.den
            && t.num * hi.den <= s.len() * hi.num * t.den,
    decreases s.len(),
{
    if s.len() == 0 {
        reveal_with_fuel(crate::rational::gcd, 2);
    } else {
        let s0 = s.drop_last();
        assert forall|i: int| 0 <= i < s0.len() implies lo.le(#[trigger] s0[i]) && s0[i].le(hi) by {
            assert(s0[i] == s[i]);
        }
        lemma_sum_bounds(s0, lo, hi);
        if let Ok(t) = sum_of(s0) {
            let x = s.last();
            assert(x == s[s.len() - 1]);
            assert(x.wf());
            let n = t.num * x.den + x.num * t.den;
            let d = t.den * x.den;
            let (td, xd) = (t.den as int, x.den as int);
            assert(td * xd > 0) by (nonlinear_arith)
                requires
                    td > 0,
                    xd > 0,
            ;
            lemma_outcome(n, d);
            if let Ok(z) = sum2(t, x) {
                let k = s0.len() as int;
                lemma_step_lower(
                    t.num as int,
                    t.den as int,
                    x.num as int,
                    x.den as int,
                    lo.num as int,
                    lo.den as int,
                    z.num as int,
                    z.den as int,
                    k,
                );
                assert(-t.num * hi.den >= k * -hi.num * t.den) by (nonlinear_arith)
                    requires
                        t.num * hi.den <= k * hi.num * t.den,
                ;
                assert(-z.num * (t.den * x.den) == (-t.num * x.den + -x.num * t.den) * z.den)
                    by (nonlinear_arith)
                    requires
                        z.num * (t.den * x.den) == (t.num * x.den + x.num * t.den) * z.den,
                ;
                let (xn, xd, hn, hd) = (x.num as int, x.den as int, hi.num as int, hi.den as int);
                assert(-xn * hd >= -hn * xd) by (nonlinear_arith)
                    requires
                        xn * hd <= hn * xd,
                ;
                lemma_step_lower(
                    -t.num,
                    t.den as int,
                    -x.num,
                    x.den as int,
                    -hi.num,
                    hi.den as int,
                    -z.num,
                    z.den as int,
                    k,
                );
                assert(z.num * hi.den <= (k + 1) * hi.num * z.den) by (nonlinear_arith)
                    requires
                        -z.num * hi.den >= (k + 1) * -hi.num * z.den,
                ;
            }
        }
    }
}

/// The mean of a non-empty list lies between any two bounds of its elements.
pub proof fn lemma_mean_between(s: Seq<Rational>, lo: Rational, hi: Rational)
    requires
        s.len() > 0,
        all_wf(s),
        lo.wf(),
        hi.wf(),
        forall|i: int| 0 <= i < s.len() ==> lo.le(#[trigger] s[i]) && s[i].le(hi),
    ensures
        mean_of(s) matches Ok(m) ==> m.wf() && lo.le(m) && m.le(hi),
{
    lemma_sum_bounds(s, lo, hi);
    if let Ok(t) = sum_of(s) {
        let n = s.len() as int;
        assert(t.den * n > 0) by (nonlinear_arith)
            requires
                t.den > 0,
                n > 0,
        ;
        lemma_outcome(t.num * 1, t.den * n);
        if let Ok(m) = mean_of(s) {
            lemma_divide_lower(
                t.num as int,
                t.den as int,
                n,
                lo.num as int,
                lo.den as int,
                m.num as int,
                m.den as int,
            );
            assert(-t.num * hi.den >= n * -hi.num * t.den) by (nonlinear_arith)
                requires
                    t.num * hi.den <= n * hi.num * t.den,
            ;
            let (mn, tn, td) = (m.num as int, t.num as int, t.den as int);
            assert(-mn * (td * n) == -tn * m.den) by (nonlinear_arith)
                requires
                    mn * (td * n) == (tn * 1) * m.den,
            ;
            lemma_divide_lower(
                -t.num,
                t.den as int,
                n,
                -hi.num,
                hi.den as int,
                -m.num,
                m.den as int,
            );
            assert(m.num * hi.den <= hi.num * m.den) by (nonlinear_arith)
                requires
                    -m.num * hi.den >= -hi.num * m.den,
            ;
        }
    }
}

proof fn lemma_sorted_le(t: Seq<Rational>, i: int, j: int)
    requires
        sorted(t),
        0 <= i <= j < t.len(),
    ensures
        t[i].le(t[j]),
{
    if i < j {
        assert(t[i].le(t[j]));
    }
}

/// The mean of an ascending list lies between its first and last element.
pub proof fn lemma_mean_within_extremes(t: Seq<Rational>)
    requires
        t.len() > 0,
        all_wf(t),
        sorted(t),
    ensures
        mean_of(t) matches Ok(m) ==> t[0].le(m) && m.le(t.last()),
{
    assert forall|i: int| 0 <= i < t.len() implies t[0].le(#[trigger] t[i]) && t[i].le(t.last()) by {
        lemma_sorted_le(t, 0, i);
        lemma_sorted_le(t, i, t.len() - 1);
    }
    lemma_mean_between(t, t[0], t.last());
}

/// The median of a non-empty ascending list lies between its two middle
/// elements, hence between its first and last.
pub proof fn lemma_median_within(u: Seq<Rational>)
    requires
        u.len() > 0,
        all_wf(u),
        sorted(u),
    ensures
        median_of(u) matches Ok(m) ==> m.wf() && u[(u.len() - 1) / 2].le(m) && m.le(
            u[(u.len() / 2) as int],
        ),
        median_of(u) matches Ok(m) ==> u[0].le(m) && m.le(u.last()),
{
    let h = (u.len() / 2) as int;
    if u.len() % 2 == 0 {
        let w = u.subrange(h - 1, h + 1);
        assert forall|i: int| 0 <= i < w.len() implies u[h - 1].le(#[trigger] w[i]) && w[i].le(
            u[h],
        ) by {
            lemma_sorted_le(u, h - 1, h);
        }
        assert(all_wf(w)) by {
            assert forall|i: int| 0 <= i < w.len() implies (#[trigger] w[i]).wf() by {
                assert(w[i] == u[h - 1 + i]);
            }
        }
        lemma_mean_between(w, u[h - 1], u[h]);
    }
    if let Ok(m) = median_of(u) {
        let lo = (u.len() - 1) / 2;
        let hi = (u.len() / 2) as int;
        lemma_sorted_le(u, 0, lo);
        lemma_sorted_le(u, hi, u.len() - 1);
        assert(u[lo].wf() && u[hi].wf() && u[0].wf() && u[u.len() - 1].wf());
        lemma_le_trans(u[0], u[lo], m);
        lemma_le_trans(m, u[hi], u[u.len() - 1]);
    }
}

/// The quartiles of an ascending list of at least two numbers are ordered:
/// minimum, first quartile, median, third quartile, maximum.
pub proof fn lemma_quartiles_ordered(t: Seq<Rational>)
    requires
        t.len() >= 2,
        all_wf(t),
        sorted(t),
    ensures
        median_of(lower_half(t)) matches Ok(q1) ==> median_of(t) matches Ok(q2)
            ==> median_of(upper_half(t)) matches Ok(q3) ==> {
            &&& t[0].le(q1)
            &&& q1.le(q2)
            &&& q2.le(q3)
            &&& q3.le(t.last())
        },
{
    let n = t.len() as int;
    let h = n / 2;
    let st = if n % 2 == 0 {
        h
    } else {
        h + 1
    };
    let lo = lower_half(t);
    let up = upper_half(t);
    assert(lo =~= t.subrange(0, h));
    assert(up =~= t.subrange(st, n));
    assert(sorted(lo) && all_wf(lo)) by {
        assert forall|i: int| 0 <= i < lo.len() implies (#[trigger] lo[i]).wf() by {
            assert(lo[i] == t[i]);
        }
        assert forall|i: int, j: int| 0 <= i < j < lo.len() implies (#[trigger] lo[i]).le(
            #[trigger] lo[j],
        ) by {
            assert(lo[i] == t[i] && lo[j] == t[j]);
        }
    }
    assert(sorted(up) && all_wf(up)) by {
        assert forall|i: int| 0 <= i < up.len() implies (#[trigger] up[i]).wf() by {
            assert(up[i] == t[st + i]);
        }
        assert forall|i: int, j: int| 0 <= i < j < up.len() implies (#[trigger] up[i]).le(
            #[trigger] up[j],
        ) by {
            assert(up[i] == t[st + i] && up[j] == t[st + j]);
        }
    }
    lemma_median_within(lo);
    lemma_median_within(t);
    lemma_median_within(up);
    if let Ok(q1) = median_of(lo) {
        if let Ok(q2) = median_of(t) {
            if let Ok(q3) = median_of(up) {
                let a = (lo.len() - 1) / 2;
                let b = (lo.len() / 2) as int;
                assert(lo[a] == t[a] && lo[b] == t[b]);
                lemma_sorted_le(t, 0, a);
                lemma_le_trans(t[0], t[a], q1);
                lemma_sorted_le(t, b, (n - 1) / 2);
                lemma_le_trans(q1, t[b], t[(n - 1) / 2]);
                lemma_le_trans(q1, t[(n - 1) / 2], q2);
                let c = (up.len() - 1) / 2;
                let d = (up.len() / 2) as int;
                assert(up[c] == t[st + c] && up[d] == t[st + d]);
                lemma_sorted_le(t, n / 2, st + c);
                lemma_le_trans(q2, t[n / 2], t[st + c]);
                lemma_le_trans(q2, t[st + c], q3);
                lemma_sorted_le(t, st + d, n - 1);
                lemma_le_trans(q3, t[st + d], t[n - 1]);
            }
        }
    }
}

} // verus!

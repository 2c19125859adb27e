use vstd::prelude::*;
use vstd::seq_lib::{group_to_multiset_ensures, lemma_multiset_commutative};
use vstd::slice::slice_subrange;
use crate::error::Error;
use crate::rational::{outcome, Rational};

verus! {

broadcast use group_to_multiset_ensures;

/// Every element is well formed.
pub open spec fn all_wf(s: Seq<Rational>) -> bool {
    forall|i: int| 0 <= i < s.len() ==> (#[trigger] s[i]).wf()
}

/// Ascending in value.
pub open spec fn sorted(s: Seq<Rational>) -> bool {
    forall|i: int, j: int| 0 <= i < j < s.len() ==> (#[trigger] s[i]).le(#[trigger] s[j])
}

/// Whether a sequence is non-decreasing from each element to the next.
pub open spec fn in_order(s: Seq<Rational>) -> bool {
    forall|i: int| 0 < i < s.len() ==> (#[trigger] s[i - 1]).le(s[i])
}

pub proof fn lemma_le_trans(a: Rational, b: Rational, c: Rational)
    requires
        a.wf(),
        b.wf(),
        c.wf(),
        a.le(b),
        b.le(c),
    ensures
        a.le(c),
{
    let (an, ad, bn, bd, cn, cd) = (
        a.num as int,
        a.den as int,
        b.num as int,
        b.den as int,
        c.num as int,
        c.den as int,
    );
    assert(an * bd * cd <= bn * ad * cd) by (nonlinear_arith)
        requires
            an * bd <= bn * ad,
            cd > 0,
    ;
    assert(bn * cd * ad <= cn * bd * ad) by (nonlinear_arith)
        requires
            bn * cd <= cn * bd,
            ad > 0,
    ;
    assert(an * cd <= cn * ad) by (nonlinear_arith)
        requires
            an * bd * cd <= bn * ad * cd,
            bn * cd * ad <= cn * bd * ad,
            bd > 0,
    ;
}

pub proof fn lemma_eqv_trans(a: Rational, b: Rational, c: Rational)
    requires
        a.wf(),
        b.wf(),
        c.wf(),
        a.eqv(b),
        b.eqv(c),
    ensures
        a.eqv(c),
{
    lemma_le_trans(a, b, c);
    lemma_le_trans(c, b, a);
}

/// An ascending copy of `s`, holding the same elements.
pub fn sort(s: &[Rational]) -> (r: Vec<Rational>)
    requires
        all_wf(s@),
    ensures
        sorted(r@),
        all_wf(r@),
        r@.to_multiset() == s@.to_multiset(),
        r@.len() == s@.len(),
{
    let mut out: Vec<Rational> = Vec::new();
    let mut i: usize = 0;
    while i < s.len()
        invariant
            0 <= i <= s@.len(),
            all_wf(s@),
            all_wf(out@),
            sorted(out@),
            out@.to_multiset() == s@.take(i as int).to_multiset(),
        decreases s@.len() - i,
    {
        let x = s[i];
        let mut pos: usize = 0;
        while pos < out.len() && out[pos].less_eq(&x)
            invariant
                0 <= pos <= out@.len(),
                forall|k: int| 0 <= k < pos ==> (#[trigger] out@[k]).le(x),
            decreases out@.len() - pos,
        {
            pos = pos + 1;
        }
        let ghost before = out@;
        proof {
            assert forall|k: int| pos <= k < out@.len() implies x.le(#[trigger] out@[k]) by {
                assert(!out@[pos as int].le(x));
                if k > pos {
                    assert(out@[pos as int].le(out@[k]));
                    lemma_le_trans(x, out@[pos as int], out@[k]);
                }
            }
            lemma_multiset_commutative(before.take(pos as int).push(x), before.skip(pos as int));
            lemma_multiset_commutative(before.take(pos as int), before.skip(pos as int));
            assert(before =~= before.take(pos as int) + before.skip(pos as int));
            assert(before.insert(pos as int, x) =~= before.take(pos as int).push(x) + before.skip(
                pos as int,
            ));
            assert(s@.take(i + 1) =~= s@.take(i as int).push(x));
        }
        out.insert(pos, x);
        proof {
            assert forall|a: int, b: int| 0 <= a < b < out@.len() implies (#[trigger] out@[a]).le(
                #[trigger] out@[b],
            ) by {
                if b < pos {
                } else if a < pos && b == pos {
                } else if a < pos {
                    assert(out@[a] == before[a]);
                    assert(out@[b] == before[b - 1]);
                    assert(x.le(before[b - 1]));
                    assert(before[a].le(x));
                    lemma_le_trans(before[a], x, before[b - 1]);
                } else if a == pos {
                } else {
                    assert(out@[a] == before[a - 1]);
                    assert(out@[b] == before[b - 1]);
                }
            }
        }
        i = i + 1;
    }
    proof {
        assert(s@.take(s@.len() as int) =~= s@);
        assert(out@.to_multiset().len() == s@.to_multiset().len());
    }
    out
}

/// Whether each response is at least the one before it.
pub fn is_ordered(s: &[Rational]) -> (r: bool)
    ensures
        r == in_order(s@),
{
    let mut i: usize = 1;
    while i < s.len()
        invariant
            1 <= i,
            forall|k: int| 0 < k < i && k < s@.len() ==> (#[trigger] s@[k - 1]).le(s@[k]),
        decreases s@.len() - i,
    {
        if !s[i - 1].less_eq(&s[i]) {
            return false;
        }
        i = i + 1;
    }
    true
}

/// The checked sum `a + b`.
pub open spec fn sum2(a: Rational, b: Rational) -> Result<Rational, Error> {
    outcome(a.num * b.den + b.num * a.den, a.den * b.den)
}

/// Adding the elements of `s` from the left, starting at zero, each step in
/// lowest terms; `Overflow` as soon as a step leaves the `i64` range.
pub open spec fn sum_of(s: Seq<Rational>) -> Result<Rational, Error>
    decreases s.len(),
{
    if s.len() == 0 {
        Ok(Rational { num: 0, den: 1 })
    } else {
        match sum_of(s.drop_last()) {
            Ok(t) => sum2(t, s.last()),
            Err(e) => Err(e),
        }
    }
}

/// The checked mean: the sum divided by the number of elements;
/// `DivisionByZero` for an empty sequence.
pub open spec fn mean_of(s: Seq<Rational>) -> Result<Rational, Error> {
    if s.len() == 0 {
        Err(Error::DivisionByZero)
    } else {
        match sum_of(s) {
            Ok(t) => outcome(t.num * 1, t.den * s.len()),
            Err(e) => Err(e),
        }
    }
}

/// The middle element, or the mean of the two middle elements.
pub open spec fn median_of(s: Seq<Rational>) -> Result<Rational, Error> {
    let h = (s.len() / 2) as int;
    if s.len() % 2 == 1 {
        Ok(s[h])
    } else {
        mean_of(s.subrange(h - 1, h + 1))
    }
}

/// The lower half, without the middle element when the length is odd.
pub open spec fn lower_half(s: Seq<Rational>) -> Seq<Rational> {
    s.take((s.len() / 2) as int)
}

/// The upper half, without the middle element when the length is odd.
pub open spec fn upper_half(s: Seq<Rational>) -> Seq<Rational> {
    if s.len() % 2 == 0 {
        s.skip((s.len() / 2) as int)
    } else {
        s.skip((s.len() / 2 + 1) as int)
    }
}

/// The mean of `s`, exact unless a partial sum overflows.
pub fn mean(s: &[Rational]) -> (r: Result<Rational, Error>)
    requires
        s@.len() <= i64::MAX,
        all_wf(s@),
    ensures
        r == mean_of(s@),
        s@.len() == 0 ==> r == Err::<Rational, Error>(Error::DivisionByZero),
        r matches Ok(z) ==> z.wf(),
{
    let mut acc = Rational::from_int(0);
    let mut i: usize = 0;
    while i < s.len()
        invariant
            0 <= i <= s@.len(),
            all_wf(s@),
            acc.wf(),
            sum_of(s@.take(i as int)) == Ok::<Rational, Error>(acc),
        decreases s@.len() - i,
    {
        proof {
            assert(s@.take(i + 1).drop_last() =~= s@.take(i as int));
        }
        acc = match acc.add(&s[i]) {
            Ok(t) => t,
            Err(e) => {
                proof {
                    lemma_sum_err(s@, i + 1);
                }
                return Err(e);
            },
        };
        i = i + 1;
    }
    proof {
        assert(s@.take(s@.len() as int) =~= s@);
    }
    acc.div(&Rational::from_int(s.len() as i64))
}

proof fn lemma_sum_err(s: Seq<Rational>, i: int)
    requires
        0 <= i <= s.len(),
        sum_of(s.take(i)) is Err,
    ensures
        sum_of(s) == sum_of(s.take(i)),
    decreases s.len() - i,
{
    if i < s.len() {
        assert(s.take(i + 1).drop_last() =~= s.take(i));
        lemma_sum_err(s, i + 1);
    } else {
        assert(s.take(i) =~= s);
    }
}

/// The median of `s`.
pub fn median(s: &[Rational]) -> (r: Result<Rational, Error>)
    requires
        s@.len() > 0,
        s@.len() <= i64::MAX,
        all_wf(s@),
    ensures
        r == median_of(s@),
        r matches Ok(z) ==> z.wf(),
{
    let h = s.len() / 2;
    if s.len() % 2 == 1 {
        Ok(s[h])
    } else {
        let mid = slice_subrange(s, h - 1, h + 1);
        mean(mid)
    }
}

/// The first quartile: the median of the lower half.
pub fn lower_quartile(s: &[Rational]) -> (r: Result<Rational, Error>)
    requires
        s@.len() >= 2,
        s@.len() <= i64::MAX,
        all_wf(s@),
    ensures
        r == median_of(lower_half(s@)),
        r matches Ok(z) ==> z.wf(),
{
    median(slice_subrange(s, 0, s.len() / 2))
}

/// The third quartile: the median of the upper half.
pub fn upper_quartile(s: &[Rational]) -> (r: Result<Rational, Error>)
    requires
        s@.len() >= 2,
        s@.len() <= i64::MAX,
        all_wf(s@),
    ensures
        r == median_of(upper_half(s@)),
        r matches Ok(z) ==> z.wf(),
{
    let from = if s.len() % 2 == 0 { s.len() / 2 } else { s.len() / 2 + 1 };
    median(slice_subrange(s, from, s.len()))
}

/// How many elements of `s` equal `x` in value.
pub open spec fn count_of(s: Seq<Rational>, x: Rational) -> nat
    decreases s.len(),
{
    if s.len() == 0 {
        0
    } else {
        count_of(s.drop_last(), x) + if s.last().eqv(x) {
            1nat
        } else {
            0nat
        }
    }
}

/// The largest count among the first `k` elements.
pub open spec fn max_count_upto(s: Seq<Rational>, k: int) -> nat
    decreases k,
{
    if k <= 0 {
        0
    } else {
        let m = max_count_upto(s, k - 1);
        let c = count_of(s, s[k - 1]);
        if c > m {
            c
        } else {
            m
        }
    }
}

/// The smallest count among the first `k` elements (`k >= 1`).
pub open spec fn min_count_upto(s: Seq<Rational>, k: int) -> nat
    decreases k,
{
    if k <= 1 {
        count_of(s, s[0])
    } else {
        let m = min_count_upto(s, k - 1);
        let c = count_of(s, s[k - 1]);
        if c < m {
            c
        } else {
            m
        }
    }
}

/// How often the most frequent value of `s` occurs.
pub open spec fn max_count(s: Seq<Rational>) -> nat {
    max_count_upto(s, s.len() as int)
}

/// How often the least frequent value of `s` occurs.
pub open spec fn min_count(s: Seq<Rational>) -> nat {
    min_count_upto(s, s.len() as int)
}

/// `r` is the mode set of `s`: empty when every value of `s` occurs equally
/// often, else one representative of each most frequent value.
pub open spec fn is_mode_set(s: Seq<Rational>, r: Seq<Rational>) -> bool {
    if max_count(s) == min_count(s) {
        r.len() == 0
    } else {
        &&& forall|k: int|
            #![trigger r[k]]
            0 <= k < r.len() ==> exists|i: int|
                0 <= i < s.len() && r[k] == #[trigger] s[i] && count_of(s, s[i]) == max_count(s)
        &&& forall|i: int|
            0 <= i < s.len() && count_of(s, #[trigger] s[i]) == max_count(s) ==> exists|k: int|
                0 <= k < r.len() && (#[trigger] r[k]).eqv(s[i])
        &&& forall|k: int, l: int| 0 <= k < l < r.len() ==> !(#[trigger] r[k]).eqv(#[trigger] r[l])
    }
}

proof fn lemma_count_eqv(s: Seq<Rational>, a: Rational, b: Rational)
    requires
        all_wf(s),
        a.wf(),
        b.wf(),
        a.eqv(b),
    ensures
        count_of(s, a) == count_of(s, b),
    decreases s.len(),
{
    if s.len() > 0 {
        lemma_count_eqv(s.drop_last(), a, b);
        let y = s.last();
        assert(y.wf());
        if y.eqv(a) {
            lemma_eqv_trans(y, a, b);
        }
        if y.eqv(b) {
            lemma_eqv_trans(y, b, a);
        }
    }
}

/// The number of elements of `s` equal to `x` in value.
pub fn count(s: &[Rational], x: &Rational) -> (r: usize)
    ensures
        r == count_of(s@, *x),
{
    let mut c: usize = 0;
    let mut i: usize = 0;
    while i < s.len()
        invariant
            0 <= i <= s@.len(),
            c == count_of(s@.take(i as int), *x),
            c <= i,
        decreases s@.len() - i,
    {
        proof {
            assert(s@.take(i + 1).drop_last() =~= s@.take(i as int));
        }
        if s[i].equals(x) {
            c = c + 1;
        }
        i = i + 1;
    }
    proof {
        assert(s@.take(s@.len() as int) =~= s@);
    }
    c
}

/// The mode set of `s`.
pub fn mode(s: &[Rational]) -> (r: Vec<Rational>)
    requires
        s@.len() > 0,
        all_wf(s@),
    ensures
        is_mode_set(s@, r@),
{
    let n = s.len();
    let mut counts: Vec<usize> = Vec::new();
    let mut i: usize = 0;
    while i < n
        invariant
            0 <= i <= n == s@.len(),
            counts@.len() == i,
            forall|k: int| 0 <= k < i ==> #[trigger] counts@[k] == count_of(s@, s@[k]),
        decreases n - i,
    {
        let c = count(s, &s[i]);
        counts.push(c);
        i = i + 1;
    }
    let mut hi: usize = counts[0];
    let mut lo: usize = counts[0];
    proof {
        assert(counts@[0] == count_of(s@, s@[0]));
        reveal_with_fuel(max_count_upto, 2);
    }
    let mut j: usize = 1;
    while j < n
        invariant
            1 <= j <= n == s@.len(),
            counts@.len() == n,
            forall|k: int| 0 <= k < n ==> #[trigger] counts@[k] == count_of(s@, s@[k]),
            hi == max_count_upto(s@, j as int),
            lo == min_count_upto(s@, j as int),
        decreases n - j,
    {
        if counts[j] > hi {
            hi = counts[j];
        }
        if counts[j] < lo {
            lo = counts[j];
        }
        j = j + 1;
    }
    proof {
        assert(s@.take(n as int) =~= s@);
    }
    let mut r: Vec<Rational> = Vec::new();
    if hi == lo {
        return r;
    }
    let ghost mut src: Seq<int> = Seq::empty();
    let ghost mut owner: Seq<int> = Seq::empty();
    let mut i: usize = 0;
    while i < n
        invariant
            0 <= i <= n == s@.len(),
            all_wf(s@),
            counts@.len() == n,
            forall|k: int| 0 <= k < n ==> #[trigger] counts@[k] == count_of(s@, s@[k]),
            hi == max_count(s@),
            src.len() == r@.len(),
            forall|k: int|
                0 <= k < r@.len() ==> 0 <= #[trigger] src[k] < i && r@[k] == s@[src[k]]
                    && count_of(s@, s@[src[k]]) == max_count(s@),
            owner.len() == i,
            forall|m: int|
                0 <= m < i && count_of(s@, s@[m]) == max_count(s@) ==> 0 <= #[trigger] owner[m]
                    < r@.len() && r@[owner[m]].eqv(s@[m]),
            forall|k: int, l: int|
                0 <= k < l < r@.len() ==> !(#[trigger] r@[k]).eqv(#[trigger] r@[l]),
        decreases n - i,
    {
        let x = s[i];
        let first = !seen_before(s, i);
        if counts[i] == hi && first {
            proof {
                assert forall|k: int| 0 <= k < r@.len() implies !(#[trigger] r@[k]).eqv(x) by {
                    assert(!s@[src[k]].eqv(x));
                }
                src = src.push(i as int);
                owner = owner.push(r@.len() as int);
            }
            r.push(x);
        } else {
            proof {
                if counts@[i as int] == hi {
                    let m0 = choose|m: int| 0 <= m < i && (#[trigger] s@[m]).eqv(x);
                    assert(s@[m0].wf());
                    lemma_count_eqv(s@, s@[m0], x);
                    assert(counts@[m0] == count_of(s@, s@[m0]));
                    let k0 = owner[m0];
                    assert(r@[k0] == s@[src[k0]]);
                    assert(s@[src[k0]].wf());
                    lemma_eqv_trans(r@[k0], s@[m0], x);
                    owner = owner.push(k0);
                } else {
                    owner = owner.push(0);
                }
            }
        }
        i = i + 1;
    }
    proof {
        assert forall|k: int|
            #![trigger r@[k]]
            0 <= k < r@.len() implies exists|m: int|
                0 <= m < s@.len() && r@[k] == #[trigger] s@[m] && count_of(s@, s@[m])
                    == max_count(s@) by {
            assert(r@[k] == s@[src[k]]);
        }
        assert forall|m: int|
            0 <= m < s@.len() && count_of(s@, #[trigger] s@[m]) == max_count(s@) implies exists|
                k: int,
            | 0 <= k < r@.len() && (#[trigger] r@[k]).eqv(s@[m]) by {
            assert(r@[owner[m]].eqv(s@[m]));
        }
    }
    r
}

/// Whether some element before index `i` equals `s[i]` in value.
fn seen_before(s: &[Rational], i: usize) -> (r: bool)
    requires
        i < s@.len(),
    ensures
        r == exists|m: int| 0 <= m < i && (#[trigger] s@[m]).eqv(s@[i as int]),
{
    let mut j: usize = 0;
    while j < i
        invariant
            0 <= j <= i < s@.len(),
            forall|m: int| 0 <= m < j ==> !(#[trigger] s@[m]).eqv(s@[i as int]),
        decreases i - j,
    {
        if s[j].equals(&s[i]) {
            return true;
        }
        j = j + 1;
    }
    false
}

} // verus!

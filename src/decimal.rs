use vstd::prelude::*;
use vstd::arithmetic::div_mod::{
    lemma_div_is_ordered_by_denominator, lemma_fundamental_div_mod, lemma_mod_breakdown,
};
use crate::error::Error;
use crate::rational::{lemma_gcd_pos, lemma_outcome, outcome, reduce, Rational};
use crate::text::{chars_of, is_white, white};

verus! {

/// `c` is one of the ASCII digits.
pub open spec fn is_digit(c: char) -> bool {
    '0' <= c && c <= '9'
}

/// Every character of `s` is a digit.
pub open spec fn all_digits(s: Seq<char>) -> bool {
    forall|i: int| 0 <= i < s.len() ==> is_digit(#[trigger] s[i])
}

/// The natural number that a string of decimal digits denotes.
pub open spec fn digits_val(s: Seq<char>) -> int
    decreases s.len(),
{
    if s.len() == 0 {
        0
    } else {
        digits_val(s.drop_last()) * 10 + (s.last() as int - '0' as int)
    }
}

/// Ten to the power `k`.
pub open spec fn pow10(k: nat) -> nat
    decreases k,
{
    if k == 0 {
        1
    } else {
        10 * pow10((k - 1) as nat)
    }
}

/// The index of the first '.' of `s` at or after `i`, or the length of `s`.
pub open spec fn dot_from(s: Seq<char>, i: int) -> int
    decreases s.len() - i,
{
    if i < 0 || i >= s.len() {
        s.len() as int
    } else if s[i] == '.' {
        i
    } else {
        dot_from(s, i + 1)
    }
}

/// `s` without its leading sign, if it has one.
pub open spec fn unsigned_part(s: Seq<char>) -> Seq<char> {
    if s.len() > 0 && (s[0] == '-' || s[0] == '+') {
        s.drop_first()
    } else {
        s
    }
}

/// The digits before the point (all of them when there is no point).
pub open spec fn int_part(s: Seq<char>) -> Seq<char> {
    let b = unsigned_part(s);
    b.take(dot_from(b, 0))
}

/// The characters after the first point.
pub open spec fn frac_part(s: Seq<char>) -> Seq<char> {
    let b = unsigned_part(s);
    let p = dot_from(b, 0);
    if p < b.len() {
        b.skip(p + 1)
    } else {
        Seq::empty()
    }
}

/// Whether `s` is written as an optional sign, digits, and optionally a point
/// followed by digits, with at least one digit in all.
pub open spec fn is_decimal(s: Seq<char>) -> bool {
    all_digits(int_part(s)) && all_digits(frac_part(s)) && int_part(s).len() + frac_part(s).len()
        > 0
}

/// The value of a decimal literal, as a fraction with a power of ten below.
pub open spec fn decimal_num(s: Seq<char>) -> int {
    let m = digits_val(int_part(s) + frac_part(s));
    if s.len() > 0 && s[0] == '-' {
        -m
    } else {
        m
    }
}

/// The power of ten below the digits of a decimal literal.
pub open spec fn decimal_den(s: Seq<char>) -> int {
    pow10(frac_part(s).len()) as int
}

/// The most digits after the point that parsing reads.
pub const MAX_FRACTION_DIGITS: usize = 38;

/// The largest digit string (point left out) that parsing reads: 38 nines.
pub const MAX_MANTISSA: u128 = 99_999_999_999_999_999_999_999_999_999_999_999_999;

/// What parsing the literal `s` gives: its value in lowest terms, or
/// `ParseError` when the text is malformed, when numerator or denominator of
/// that value leave the `i64` range, or when the literal is longer than the
/// intermediate arithmetic reads.
pub open spec fn parse_decimal(s: Seq<char>) -> Result<Rational, Error> {
    if !is_decimal(s) || frac_part(s).len() > MAX_FRACTION_DIGITS || digits_val(
        int_part(s) + frac_part(s),
    ) > MAX_MANTISSA {
        Err(Error::ParseError)
    } else {
        match reduce(decimal_num(s), decimal_den(s)) {
            Some(z) => Ok(z),
            None => Err(Error::ParseError),
        }
    }
}

/// Index of the first character of `s` that is not white space.
pub open spec fn lead_from(s: Seq<char>, i: int) -> int
    decreases s.len() - i,
{
    if 0 <= i < s.len() && is_white(s[i]) {
        lead_from(s, i + 1)
    } else {
        i
    }
}

/// One past the index of the last character of `s` before `j` that is not white space.
pub open spec fn trail_from(s: Seq<char>, j: int) -> int
    decreases j,
{
    if 0 < j <= s.len() && is_white(s[j - 1]) {
        trail_from(s, j - 1)
    } else {
        j
    }
}

/// `s` without leading and trailing white space.
pub open spec fn trimmed(s: Seq<char>) -> Seq<char> {
    let a = lead_from(s, 0);
    let b = trail_from(s, s.len() as int);
    if a < b {
        s.subrange(a, b)
    } else {
        Seq::empty()
    }
}

proof fn lemma_digits_val_prefix(s: Seq<char>, i: int)
    requires
        0 <= i <= s.len(),
        all_digits(s),
    ensures
        digits_val(s.take(i)) <= digits_val(s),
    decreases s.len() - i,
{
    if i < s.len() {
        lemma_digits_val_prefix(s, i + 1);
        assert(s.take(i + 1).drop_last() =~= s.take(i));
        assert(all_digits(s.take(i)));
        lemma_digits_val_nonneg(s.take(i));
        assert(is_digit(s[i]));
        assert(s.take(i + 1).last() == s[i]);
        assert(digits_val(s.take(i + 1)) == digits_val(s.take(i)) * 10 + (s[i] as int - '0' as int));
    } else {
        assert(s.take(i) =~= s);
    }
}

proof fn lemma_pow10_le(j: nat, k: nat)
    requires
        j <= k,
    ensures
        pow10(j) <= pow10(k),
    decreases k,
{
    if j < k {
        lemma_pow10_le(j, (k - 1) as nat);
    }
}

proof fn lemma_digits_val_nonneg(s: Seq<char>)
    requires
        all_digits(s),
    ensures
        digits_val(s) >= 0,
    decreases s.len(),
{
    if s.len() > 0 {
        assert(all_digits(s.drop_last()));
        lemma_digits_val_nonneg(s.drop_last());
        assert(is_digit(s[s.len() - 1]));
    }
}

/// Copies `s[from..to]` to the end of `out`, failing on a non-digit.
fn push_digits(s: &Vec<char>, from: usize, to: usize, out: &mut Vec<char>) -> (ok: bool)
    requires
        from <= to <= s@.len(),
    ensures
        ok == all_digits(s@.subrange(from as int, to as int)),
        ok ==> final(out)@ == old(out)@ + s@.subrange(from as int, to as int),
{
    let mut i = from;
    while i < to
        invariant
            from <= i <= to <= s@.len(),
            all_digits(s@.subrange(from as int, i as int)),
            out@ == old(out)@ + s@.subrange(from as int, i as int),
        decreases to - i,
    {
        let c = s[i];
        if !('0' <= c && c <= '9') {
            proof {
                assert(s@.subrange(from as int, to as int)[i - from] == c);
            }
            return false;
        }
        out.push(c);
        i = i + 1;
        proof {
            assert(s@.subrange(from as int, i as int) =~= s@.subrange(from as int, i - 1).push(c));
        }
    }
    true
}

/// Parses a decimal literal given as characters.
pub fn parse_chars(s: &Vec<char>) -> (r: Result<Rational, Error>)
    ensures
        r == parse_decimal(s@),
        r matches Ok(z) ==> z.wf() && z.is_quotient(decimal_num(s@), decimal_den(s@)),
{
    let ghost b = unsigned_part(s@);
    let n = s.len();
    let signed = n > 0 && (s[0] == '-' || s[0] == '+');
    let negative = n > 0 && s[0] == '-';
    let st: usize = if signed { 1 } else { 0 };
    proof {
        assert(b =~= s@.subrange(st as int, n as int));
    }
    let mut p = st;
    while p < n && s[p] != '.'
        invariant
            st <= p <= n == s@.len(),
            b == s@.subrange(st as int, n as int),
            dot_from(b, 0) == dot_from(b, p - st),
        decreases n - p,
    {
        proof {
            assert(b[p - st] == s@[p as int]);
        }
        p = p + 1;
    }
    proof {
        if p < n {
            assert(b[p - st] == s@[p as int]);
        }
        assert(dot_from(b, 0) == p - st);
    }
    let mut digits: Vec<char> = Vec::new();
    let int_ok = push_digits(s, st, p, &mut digits);
    proof {
        assert(int_part(s@) =~= s@.subrange(st as int, p as int));
    }
    if !int_ok {
        return Err(Error::ParseError);
    }
    let fs = if p < n { p + 1 } else { n };
    let frac_ok = push_digits(s, fs, n, &mut digits);
    proof {
        assert(frac_part(s@) =~= s@.subrange(fs as int, n as int));
    }
    if !frac_ok {
        return Err(Error::ParseError);
    }
    proof {
        assert(digits@ =~= int_part(s@) + frac_part(s@));
    }
    if digits.len() == 0 || n - fs > MAX_FRACTION_DIGITS {
        return Err(Error::ParseError);
    }
    let mut m: u128 = 0;
    let mut i: usize = 0;
    while i < digits.len()
        invariant
            0 <= i <= digits@.len(),
            all_digits(digits@),
            digits@ == int_part(s@) + frac_part(s@),
            m == digits_val(digits@.take(i as int)),
            m <= MAX_MANTISSA,
        decreases digits@.len() - i,
    {
        let d = (digits[i] as u32 - '0' as u32) as u128;
        proof {
            assert(is_digit(digits@[i as int]));
            assert(digits@.take(i + 1).drop_last() =~= digits@.take(i as int));
        }
        proof {
            assert(digits@.take(i + 1).last() == digits@[i as int]);
            assert(digits_val(digits@.take(i + 1)) == m * 10 + d);
        }
        if m > (MAX_MANTISSA - d) / 10 {
            proof {
                let top = MAX_MANTISSA - d;
                lemma_fundamental_div_mod(top, 10);
                assert(m * 10 + d > MAX_MANTISSA);
                lemma_digits_val_prefix(digits@, i + 1);
                assert(digits_val(digits@) > MAX_MANTISSA);
            }
            return Err(Error::ParseError);
        }
        m = m * 10 + d;
        i = i + 1;
    }
    proof {
        assert(digits@.take(digits@.len() as int) =~= digits@);
    }
    let mut den: i128 = 1;
    let mut k: usize = fs;
    while k < n
        invariant
            fs <= k <= n,
            n - fs <= MAX_FRACTION_DIGITS,
            den == pow10((k - fs) as nat),
            den > 0,
        decreases n - k,
    {
        proof {
            lemma_pow10_le((k - fs + 1) as nat, 38);
            reveal_with_fuel(pow10, 39);
        }
        den = den * 10;
        k = k + 1;
    }
    let num: i128 = if negative { -(m as i128) } else { m as i128 };
    match Rational::make(num, den) {
        Ok(z) => Ok(z),
        Err(_) => Err(Error::ParseError),
    }
}

/// `s` without leading and trailing white space.
pub fn trim_chars(s: &Vec<char>) -> (r: Vec<char>)
    ensures
        r@ == trimmed(s@),
{
    let n = s.len();
    let mut a: usize = 0;
    while a < n && white(s[a])
        invariant
            0 <= a <= n == s@.len(),
            lead_from(s@, 0) == lead_from(s@, a as int),
        decreases n - a,
    {
        a = a + 1;
    }
    let mut b: usize = n;
    while b > 0 && white(s[b - 1])
        invariant
            0 <= b <= n == s@.len(),
            trail_from(s@, n as int) == trail_from(s@, b as int),
        decreases b,
    {
        b = b - 1;
    }
    let mut r: Vec<char> = Vec::new();
    let end = if a < b { b } else { a };
    let mut i = a;
    while i < end
        invariant
            a <= i <= end <= n == s@.len(),
            a < b ==> end == b,
            b <= a ==> end == a,
            r@ == s@.subrange(a as int, i as int),
        decreases end - i,
    {
        r.push(s[i]);
        i = i + 1;
        proof {
            assert(r@ =~= s@.subrange(a as int, i as int));
        }
    }
    proof {
        if a < b {
            assert(r@ =~= s@.subrange(a as int, b as int));
        } else {
            assert(r@ =~= Seq::<char>::empty());
        }
    }
    r
}

/// The character of the decimal digit `d` (`d < 10`).
pub open spec fn digit_char(d: nat) -> char {
    if d == 0 {
        '0'
    } else if d == 1 {
        '1'
    } else if d == 2 {
        '2'
    } else if d == 3 {
        '3'
    } else if d == 4 {
        '4'
    } else if d == 5 {
        '5'
    } else if d == 6 {
        '6'
    } else if d == 7 {
        '7'
    } else if d == 8 {
        '8'
    } else {
        '9'
    }
}

fn digit_of(d: u64) -> (c: char)
    requires
        d < 10,
    ensures
        c == digit_char(d as nat),
{
    if d == 0 {
        '0'
    } else if d == 1 {
        '1'
    } else if d == 2 {
        '2'
    } else if d == 3 {
        '3'
    } else if d == 4 {
        '4'
    } else if d == 5 {
        '5'
    } else if d == 6 {
        '6'
    } else if d == 7 {
        '7'
    } else if d == 8 {
        '8'
    } else {
        '9'
    }
}

/// The last `w` decimal digits of `m`, with leading zeros.
pub open spec fn digits_w(m: nat, w: nat) -> Seq<char>
    decreases w,
{
    if w == 0 {
        Seq::empty()
    } else {
        digits_w(m / 10, (w - 1) as nat).push(digit_char(m % 10))
    }
}

proof fn lemma_digits_w(m: nat, w: nat)
    ensures
        digits_w(m, w).len() == w,
        all_digits(digits_w(m, w)),
        digits_val(digits_w(m, w)) == m % pow10(w),
    decreases w,
{
    if w == 0 {
        assert(m % 1 == 0);
    } else {
        let v = (w - 1) as nat;
        lemma_digits_w(m / 10, v);
        let s = digits_w(m, w);
        assert(s.drop_last() =~= digits_w(m / 10, v));
        lemma_pow10_pos(v);
        lemma_mod_breakdown(m as int, 10, pow10(v) as int);
        assert(pow10(w) == 10 * pow10(v));
        assert forall|i: int| 0 <= i < s.len() implies is_digit(#[trigger] s[i]) by {
            if i < s.len() - 1 {
                assert(s[i] == digits_w(m / 10, v)[i]);
            }
        }
        assert(s.last() as int - '0' as int == m % 10);
    }
}

proof fn lemma_pow10_pos(k: nat)
    ensures
        pow10(k) > 0,
    decreases k,
{
    if k > 0 {
        lemma_pow10_pos((k - 1) as nat);
    }
}

fn fixed_digits(m: u64, w: usize) -> (r: Vec<char>)
    ensures
        r@ == digits_w(m as nat, w as nat),
    decreases w,
{
    if w == 0 {
        Vec::new()
    } else {
        let mut v = fixed_digits(m / 10, w - 1);
        v.push(digit_of(m % 10));
        v
    }
}

proof fn lemma_dot_from_skip(s: Seq<char>, i: int, p: int)
    requires
        0 <= i <= p <= s.len(),
        forall|j: int| i <= j < p ==> s[j] != '.',
    ensures
        dot_from(s, i) == dot_from(s, p),
    decreases p - i,
{
    if i < p {
        lemma_dot_from_skip(s, i + 1, p);
    }
}

/// The first `k <= 18` for which `a * 10^k` is a multiple of `d`, or 18,
/// with `10^k`.
#[verifier::rlimit(40)]
fn decimal_scale(a: u128, d: u128) -> (r: (usize, u128))
    requires
        a <= 0x8000_0000_0000_0000,
        d > 0,
    ensures
        r.0 <= 18,
        r.1 == pow10(r.0 as nat),
        a * r.1 <= 0x8000_0000_0000_0000 * 1_000_000_000_000_000_000,
        d == 1 ==> r.0 == 0 && r.1 == 1,
        forall|j: nat| j < r.0 ==> (a * pow10(j)) % (d as int) != 0,
        r.0 < 18 ==> (a * r.1) % (d as int) == 0,
{
        let mut k: usize = 0;
    let mut p: u128 = 1;
    while k < 18 && (a * p) % d != 0
        invariant
            0 <= k <= 18,
            p == pow10(k as nat),
            p <= 1_000_000_000_000_000_000,
            a <= 0x8000_0000_0000_0000,
            a * p <= 0x8000_0000_0000_0000 * 1_000_000_000_000_000_000,
            d > 0,
            d == 1 ==> k == 0,
            forall|j: nat| j < k ==> (a * pow10(j)) % (d as int) != 0,
        decreases 18 - k,
    {
        proof {
            lemma_pow10_le((k + 1) as nat, 18);
            reveal_with_fuel(pow10, 19);
            assert(a * (p * 10) <= 0x8000_0000_0000_0000 * 1_000_000_000_000_000_000)
                by (nonlinear_arith)
                requires
                    a <= 0x8000_0000_0000_0000,
                    p * 10 <= 1_000_000_000_000_000_000,
            ;
            if d == 1 {
                assert((a * p) % 1 == 0);
            }
            assert forall|j: nat| j < k + 1 implies (a * pow10(j)) % (d as int) != 0 by {
                if j == k {
                    assert(pow10(j) == p);
                }
            }
        }
        k = k + 1;
        p = p * 10;
    }
    proof {
        lemma_pow10_le(k as nat, 18);
        reveal_with_fuel(pow10, 19);
        assert(a * p <= 0x8000_0000_0000_0000 * 1_000_000_000_000_000_000) by (nonlinear_arith)
            requires
                a <= 0x8000_0000_0000_0000,
                p <= 1_000_000_000_000_000_000,
        ;
    }
    proof {
        if d == 1 {
            assert(p == 1);
        }
    }
    (k, p)
}

impl Rational {
    /// Parses a decimal literal: an optional sign, digits, and optionally a
    /// point and more digits. The value, in lowest terms, must fit in `i64`;
    /// the literal may have at most `MAX_FRACTION_DIGITS` digits after the
    /// point and a digit string of at most `MAX_MANTISSA`.
    pub fn parse(text: &str) -> (r: Result<Rational, Error>)
        ensures
            r == parse_decimal(text@),
            r matches Ok(z) ==> z.wf() && z.is_quotient(decimal_num(text@), decimal_den(text@)),
    {
        let cs = chars_of(text);
        parse_chars(&cs)
    }

    /// Whether `self` has a decimal literal that parsing accepts: some scale
    /// `10^k` with `k <= 18` turns it into an integer that fits in `i64`.
    pub open spec fn has_decimal_text(self) -> bool {
        exists|k: nat|
            k <= 18 && (abs_int(self.num as int) * pow10(k)) % (self.den as int) == 0 && abs_int(
                self.num as int,
            ) * pow10(k) / (self.den as int) <= i64::MAX
    }

    /// This number as a decimal literal, when one with at most 18 digits after
    /// the point and a digit string that fits in `i64` denotes it exactly.
    /// Parsing the literal gives back an equal number.
    #[verifier::spinoff_prover]
    #[verifier::rlimit(60)]
    pub fn format_decimal(&self) -> (r: Option<Vec<char>>)
        requires
            self.wf(),
        ensures
            r is Some <==> self.has_decimal_text(),
            r matches Some(t) ==> parse_decimal(t@) matches Ok(z) && z.eqv(*self),
    {
        let neg = self.num < 0;
        let a: u128 = if neg { (-(self.num as i128)) as u128 } else { self.num as u128 };
        let d: u128 = self.den as u128;
        let (k, p) = decimal_scale(a, d);
        proof {
            assert(abs_int(self.num as int) == a);
        }
        if (a * p) % d != 0 {
            proof {
                assert forall|j: nat| j <= 18 implies !((a * pow10(j)) % (d as int) == 0
                    && a * pow10(j) / (d as int) <= i64::MAX) by {
                    if j < k {
                    }
                }
            }
            return None;
        }
        let m = a * p / d;
        proof {
            if d == 1 {
                assert(p == 1);
                assert(a * p == a) by (nonlinear_arith)
                    requires
                        p == 1,
                ;
                assert(m == a);
            }
        }
        if m > i64::MAX as u128 {
            proof {
                assert forall|j: nat| j <= 18 && (a * pow10(j)) % (d as int) == 0 implies a * pow10(
                    j,
                ) / (d as int) > i64::MAX by {
                    if j < k {
                    } else {
                        lemma_pow10_le(k as nat, j);
                        assert(a * p <= a * pow10(j)) by (nonlinear_arith)
                            requires
                                p <= pow10(j),
                                a >= 0,
                        ;
                        vstd::arithmetic::div_mod::lemma_div_is_ordered(
                            (a * p) as int,
                            a * pow10(j),
                            d as int,
                        );
                    }
                }
            }
            return None;
        }
        let mut w: usize = 1;
        let mut q: u128 = 10;
        proof {
            reveal_with_fuel(pow10, 2);
        }
        while q <= m
            invariant
                1 <= w <= 19,
                q == pow10(w as nat),
                m <= i64::MAX,
                pow10(w as nat) <= m ==> w < 19,
            decreases 20 - w,
        {
            proof {
                reveal_with_fuel(pow10, 20);
                assert(pow10(19) > i64::MAX);
                if w + 1 == 19 {
                } else {
                    lemma_pow10_le((w + 1) as nat, 18);
                }
            }
            w = w + 1;
            q = q * 10;
        }
        if w < k + 1 {
            proof {
                lemma_pow10_le(w as nat, (k + 1) as nat);
            }
            w = k + 1;
        }
        let digits = fixed_digits(m as u64, w);
        proof {
            lemma_digits_w(m as nat, w as nat);
        }
        let mut out: Vec<char> = Vec::new();
        if neg {
            out.push('-');
        }
        let ghost pre = out@;
        proof {
            assert(pre == (if neg { seq!['-'] } else { Seq::<char>::empty() })) by {
                if neg {
                    assert(pre =~= seq!['-']);
                } else {
                    assert(pre =~= Seq::<char>::empty());
                }
            }
        }
        let split = w - k;
        let mut i: usize = 0;
        while i < split
            invariant
                0 <= i <= split <= w == digits@.len(),
                out@ == pre + digits@.take(i as int),
            decreases split - i,
        {
            out.push(digits[i]);
            i = i + 1;
            proof {
                assert(out@ =~= pre + digits@.take(i as int));
            }
        }
        let ghost front = out@;
        if k > 0 {
            out.push('.');
            let ghost mid = out@;
            let mut j: usize = split;
            while j < w
                invariant
                    split <= j <= w == digits@.len(),
                    out@ == mid + digits@.subrange(split as int, j as int),
                decreases w - j,
            {
                out.push(digits[j]);
                j = j + 1;
                proof {
                    assert(out@ =~= mid + digits@.subrange(split as int, j as int));
                }
            }
            proof {
                assert(mid =~= front + seq!['.']);
                assert(out@ =~= pre + digits@.take(split as int) + seq!['.'] + digits@.subrange(
                    split as int,
                    w as int,
                ));
            }
        }
        proof {
            assert(front == pre + digits@.take(split as int));
            if k == 0 {
                assert(out@ == pre + digits@.take(w as int));
            }
            self.lemma_format_parses(out@, digits@, neg, a as int, d as int, k as nat, m as int, w as nat);
        }
        proof {
            assert(k <= 18 && (a * pow10(k as nat)) % (d as int) == 0 && a * pow10(k as nat) / (
            d as int) <= i64::MAX);
        }
        Some(out)
    }

    #[verifier::spinoff_prover]
    #[verifier::rlimit(100)]
    proof fn lemma_format_parses(
        self,
        t: Seq<char>,
        digits: Seq<char>,
        neg: bool,
        a: int,
        d: int,
        k: nat,
        m: int,
        w: nat,
    )
        requires
            self.wf(),
            d == self.den,
            neg == (self.num < 0),
            a == abs_int(self.num as int),
            k <= 18,
            k < w,
            (a * pow10(k)) % d == 0,
            m == a * pow10(k) / d,
            0 <= m <= i64::MAX,
            m < pow10(w),
            digits == digits_w(m as nat, w),
            k > 0 ==> t == (if neg { seq!['-'] } else { Seq::<char>::empty() }) + digits.take(
                w - k,
            ) + seq!['.'] + digits.subrange(w - k, w as int),
            k == 0 ==> t == (if neg { seq!['-'] } else { Seq::<char>::empty() }) + digits.take(
                w as int,
            ),
        ensures
            parse_decimal(t) matches Ok(z) && z.eqv(self),
    {
        lemma_digits_w(m as nat, w);
        lemma_pow10_pos(w);
        lemma_pow10_pos(k);
        let b = unsigned_part(t);
        let p = w - k;
        let body = if k > 0 {
            digits.take(p) + seq!['.'] + digits.subrange(p, w as int)
        } else {
            digits
        };
        assert(is_digit(digits[0]));
        if neg {
            assert(t.drop_first() =~= body);
        } else {
            assert(t =~= body);
        }
        assert(b == body);
        assert(forall|j: int| 0 <= j < p ==> body[j] == digits[j]);
        lemma_dot_from_skip(body, 0, p);
        assert(int_part(t) =~= digits.take(p));
        if k > 0 {
            assert(body[p] == '.');
            assert(frac_part(t) =~= digits.subrange(p, w as int));
        } else {
            assert(frac_part(t) =~= Seq::<char>::empty());
        }
        assert(int_part(t) + frac_part(t) =~= digits);
        assert(m % pow10(w) as int == m) by {
            vstd::arithmetic::div_mod::lemma_small_mod(m as nat, pow10(w));
        }
        let sm = if neg { -m } else { m };
        assert(decimal_num(t) == sm);
        let pk = pow10(k) as int;
        assert(decimal_den(t) == pk);
        self.lemma_scaled_value(neg, a, d, k, m);
    }

    proof fn lemma_scaled_value(self, neg: bool, a: int, d: int, k: nat, m: int)
        requires
            self.wf(),
            d == self.den,
            neg == (self.num < 0),
            a == abs_int(self.num as int),
            k <= 18,
            (a * pow10(k)) % d == 0,
            m == a * pow10(k) / d,
            0 <= m <= i64::MAX,
        ensures
            reduce(if neg { -m } else { m }, pow10(k) as int) matches Some(z) && z.eqv(self),
    {
        let sm = if neg { -m } else { m };
        lemma_pow10_pos(k);
        let pk = pow10(k) as int;
        lemma_gcd_pos(abs_int(sm) as nat, pk as nat);
        let g = crate::rational::gcd(crate::rational::abs(sm), crate::rational::abs(pk)) as int;
        lemma_div_is_ordered_by_denominator(m, 1, g);
        lemma_div_is_ordered_by_denominator(pk, 1, g);
        lemma_pow10_le(k, 18);
        reveal_with_fuel(pow10, 19);
        assert(reduce(sm, pk) is Some);
        lemma_outcome(sm, pk);
        let z = reduce(sm, pk)->0;
        assert(outcome(sm, pk) == Ok::<Rational, Error>(z));
        lemma_fundamental_div_mod(a * pk, d);
        assert(a * pk == d * m);
        let (zn, zd, xn) = (z.num as int, z.den as int, self.num as int);
        assert(xn == if neg { -a } else { a });
        assert(zn * pk == sm * zd);
        assert(zn * d * pk == xn * zd * pk) by (nonlinear_arith)
            requires
                zn * pk == sm * zd,
                a * pk == d * m,
                sm == (if neg { -m } else { m }),
                xn == (if neg { -a } else { a }),
        ;
        assert(zn * d == xn * zd) by (nonlinear_arith)
            requires
                zn * d * pk == xn * zd * pk,
                pk > 0,
        ;
    }
}

/// The magnitude of `x`, as an integer.
pub open spec fn abs_int(x: int) -> int {
    if x < 0 {
        -x
    } else {
        x
    }
}



} // verus!

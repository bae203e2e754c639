//! Fixed-point numbers: decimal text and `[+-]H:MM:SS[.frac]` durations read
//! into whole millionths, scaling by a coefficient, and clamping.
use vstd::prelude::*;
use crate::text::{first_index_from, lemma_first_index_step, lemma_first_index_bounds};

verus! {

/// Fixed-point units in one whole unit: every number carries six decimal places.
pub const SCALE: i64 = 1_000_000;

/// Largest magnitude, in fixed-point units, that a parsed number may have.
pub const BOUND: i64 = 1_000_000_000_000_000_000;

/// Largest magnitude of the hour and minute fields of a duration.
pub const FIELD_MAX: i64 = 2_147_483_647;

pub open spec fn is_digit(c: char) -> bool {
    '0' <= c && c <= '9'
}

pub open spec fn digit_value(c: char) -> int {
    (c as int) - ('0' as int)
}

pub open spec fn all_digits(s: Seq<char>) -> bool {
    forall|i: int| 0 <= i < s.len() ==> is_digit(#[trigger] s[i])
}

/// Value of a string of decimal digits, most significant first.
pub open spec fn digits_value(s: Seq<char>) -> int
    decreases s.len(),
{
    if s.len() == 0 {
        0
    } else {
        10 * digits_value(s.drop_last()) + digit_value(s.last())
    }
}

pub open spec fn pow10(n: nat) -> int
    decreases n,
{
    if n == 0 {
        1
    } else {
        10 * pow10((n - 1) as nat)
    }
}

/// Units carried by the digits after the point: the first six count, later ones are dropped.
pub open spec fn fraction_units(f: Seq<char>) -> int {
    if f.len() >= 6 {
        digits_value(f.take(6))
    } else {
        digits_value(f) * pow10((6 - f.len()) as nat)
    }
}

/// Magnitude of `digits[.digits]` (at least one digit in all), in fixed-point units.
pub open spec fn unsigned_units(s: Seq<char>) -> Option<int> {
    let p = first_index_from(s, '.', 0);
    let ip = s.take(p);
    let fp = if p < s.len() { s.skip(p + 1) } else { Seq::<char>::empty() };
    if all_digits(ip) && all_digits(fp) && ip.len() + fp.len() > 0 {
        Some(digits_value(ip) * SCALE + fraction_units(fp))
    } else {
        None
    }
}

pub open spec fn starts_with_sign(s: Seq<char>) -> bool {
    s.len() > 0 && (s[0] == '-' || s[0] == '+')
}

pub open spec fn starts_with_minus(s: Seq<char>) -> bool {
    s.len() > 0 && s[0] == '-'
}

/// A decimal number `[+-]digits[.digits]`, without exponent, in fixed-point units; `None`
/// when the text is malformed or its magnitude exceeds `BOUND`.
pub open spec fn plain_units(s: Seq<char>) -> Option<int> {
    let body = if starts_with_sign(s) { s.drop_first() } else { s };
    match unsigned_units(body) {
        Some(m) => if m <= BOUND {
            Some(if starts_with_minus(s) { -m } else { m })
        } else {
            None
        },
        None => None,
    }
}

/// Index of the first exponent mark (`e` or `E`) at or after `i`, or `s.len()`.
pub open spec fn exp_index(s: Seq<char>, i: int) -> int
    decreases s.len() - i,
{
    if i >= s.len() {
        s.len() as int
    } else if s[i] == 'e' || s[i] == 'E' {
        i
    } else {
        exp_index(s, i + 1)
    }
}

/// `v` times ten to the power `e`, rounded toward zero.
pub open spec fn shift10(v: int, e: int) -> int {
    if e >= 0 {
        v * pow10(e as nat)
    } else {
        div_toward_zero(v, pow10((-e) as nat))
    }
}

/// A number `[+-]digits[.digits][(e|E)[+-]digits]` in fixed-point units: the part before
/// the exponent is read to six decimal places (within `BOUND`), then shifted by the
/// exponent (at most `FIELD_MAX` in magnitude) and rounded toward zero. `None` when the
/// text is malformed or the value exceeds `BOUND` in magnitude.
pub open spec fn decimal_units(s: Seq<char>) -> Option<int> {
    let p = exp_index(s, 0);
    if p >= s.len() {
        plain_units(s)
    } else {
        match (plain_units(s.take(p)), integer_value(s.skip(p + 1))) {
            (Some(m), Some(e)) => {
                let v = shift10(m, e);
                if -BOUND <= v <= BOUND {
                    Some(v)
                } else {
                    None
                }
            },
            _ => None,
        }
    }
}

/// An integer `[+-]digits` whose magnitude is at most `FIELD_MAX`.
pub open spec fn integer_value(s: Seq<char>) -> Option<int> {
    let body = if starts_with_sign(s) { s.drop_first() } else { s };
    if body.len() > 0 && all_digits(body) && digits_value(body) <= FIELD_MAX {
        Some(if starts_with_minus(s) { -digits_value(body) } else { digits_value(body) })
    } else {
        None
    }
}

/// Index of the first character at or after `i` that is not a sign.
pub open spec fn skip_signs(s: Seq<char>, i: int) -> int
    decreases s.len() - i,
{
    if 0 <= i < s.len() && (s[i] == '-' || s[i] == '+') {
        skip_signs(s, i + 1)
    } else {
        i
    }
}

/// A duration `[+-]H:MM:SS[.frac]` in fixed-point units of seconds. Leading signs are
/// skipped, a leading `-` negates the whole value; hours and minutes are integers, the
/// seconds a decimal. `None` when malformed or beyond `BOUND`.
pub open spec fn time_units(s: Seq<char>) -> Option<int> {
    let st = skip_signs(s, 0);
    let colon1 = first_index_from(s, ':', st);
    let colon2 = first_index_from(s, ':', colon1 + 1);
    if colon1 < s.len() && colon2 < s.len() && first_index_from(s, ':', colon2 + 1) == s.len() {
        match (
            integer_value(s.subrange(st, colon1)),
            integer_value(s.subrange(colon1 + 1, colon2)),
            decimal_units(s.subrange(colon2 + 1, s.len() as int)),
        ) {
            (Some(h), Some(m), Some(sec)) => {
                let total = (h * 3600 + m * 60) * SCALE + sec;
                let v = if starts_with_minus(s) { -total } else { total };
                if -BOUND <= v <= BOUND {
                    Some(v)
                } else {
                    None
                }
            },
            _ => None,
        }
    } else {
        None
    }
}

/// An exec number read as the mathematical value it stands for.
pub open spec fn widen(o: Option<i64>) -> Option<int> {
    match o {
        Some(x) => Some(x as int),
        None => None,
    }
}

/// Division rounding toward zero.
pub open spec fn div_toward_zero(a: int, b: int) -> int {
    if a >= 0 {
        a / b
    } else {
        -((-a) / b)
    }
}

pub open spec fn saturate(x: int) -> int {
    if x > i64::MAX {
        i64::MAX as int
    } else if x < i64::MIN {
        i64::MIN as int
    } else {
        x
    }
}

/// `v` multiplied by the fixed-point coefficient `coef`, rounded toward zero and saturated
/// to the `i64` range.
pub open spec fn scaled(v: int, coef: int) -> int {
    saturate(div_toward_zero(v * coef, SCALE as int))
}

/// `v` brought into `[lo, hi]`: below `lo` gives `lo`, above `hi` gives `hi`.
pub open spec fn clamped(v: int, lo: int, hi: int) -> int {
    if v < lo {
        lo
    } else if v > hi {
        hi
    } else {
        v
    }
}

proof fn lemma_pow10_positive(n: nat)
    ensures
        pow10(n) >= 1,
    decreases n,
{
    if n > 0 {
        lemma_pow10_positive((n - 1) as nat);
    }
}

proof fn lemma_digits_value_nonneg(s: Seq<char>)
    requires
        all_digits(s),
    ensures
        digits_value(s) >= 0,
    decreases s.len(),
{
    if s.len() > 0 {
        assert(all_digits(s.drop_last())) by {
            assert forall|i: int| 0 <= i < s.drop_last().len() implies is_digit(
                #[trigger] s.drop_last()[i],
            ) by {
                assert(s.drop_last()[i] == s[i]);
            }
        }
        assert(is_digit(s[s.len() - 1]));
        lemma_digits_value_nonneg(s.drop_last());
    }
}

/// A digit string is worth at least as much as any of its prefixes.
proof fn lemma_digits_value_prefix(s: Seq<char>, k: int)
    requires
        all_digits(s),
        0 <= k <= s.len(),
    ensures
        digits_value(s.take(k)) <= digits_value(s),
    decreases s.len(),
{
    if k < s.len() {
        assert(all_digits(s.drop_last())) by {
            assert forall|i: int| 0 <= i < s.drop_last().len() implies is_digit(
                #[trigger] s.drop_last()[i],
            ) by {
                assert(s.drop_last()[i] == s[i]);
            }
        }
        lemma_digits_value_prefix(s.drop_last(), k);
        assert(s.drop_last().take(k) =~= s.take(k));
        lemma_digits_value_nonneg(s.drop_last());
        assert(is_digit(s[s.len() - 1]));
    } else {
        assert(s.take(k) =~= s);
    }
}

/// Extending a digit prefix by one digit.
proof fn lemma_digits_value_extend(s: Seq<char>, k: int)
    requires
        0 <= k < s.len(),
    ensures
        digits_value(s.take(k + 1)) == 10 * digits_value(s.take(k)) + digit_value(s[k]),
{
    assert(s.take(k + 1).drop_last() =~= s.take(k));
}

/// Reads the digits of `s[lo..hi)` as a number; `None` unless all are digits, there is at
/// least one, and the number is at most `limit`.
fn bounded_digits(s: &Vec<char>, lo: usize, hi: usize, limit: u64) -> (r: Option<u64>)
    requires
        lo <= hi <= s.len(),
        limit <= 1_000_000_000_000_000_000,
    ensures
        match r {
            Some(v) => {
                let t = s@.subrange(lo as int, hi as int);
                &&& t.len() > 0
                &&& all_digits(t)
                &&& v == digits_value(t)
                &&& v <= limit
            },
            None => {
                let t = s@.subrange(lo as int, hi as int);
                !(t.len() > 0 && all_digits(t) && digits_value(t) <= limit)
            },
        },
{
    let ghost t = s@.subrange(lo as int, hi as int);
    if lo == hi {
        return None;
    }
    let mut acc: u64 = 0;
    let mut i: usize = lo;
    while i < hi
        invariant
            lo <= i <= hi <= s.len(),
            t == s@.subrange(lo as int, hi as int),
            limit <= 1_000_000_000_000_000_000,
            all_digits(t.take(i - lo)),
            acc == digits_value(t.take(i - lo)),
            acc <= limit,
        decreases hi - i,
    {
        let c = s[i];
        if !('0' <= c && c <= '9') {
            proof {
                assert(t[i - lo] == c);
            }
            return None;
        }
        let d = (c as u32 - '0' as u32) as u64;
        proof {
            lemma_digits_value_extend(t, i - lo);
            assert(t[i - lo] == c);
        }
        let next = acc * 10 + d;
        if next > limit {
            proof {
                assert(all_digits(t.take(i - lo + 1))) by {
                    assert forall|j: int| 0 <= j < t.take(i - lo + 1).len() implies is_digit(
                        #[trigger] t.take(i - lo + 1)[j],
                    ) by {
                        if j < i - lo {
                            assert(t.take(i - lo + 1)[j] == t.take(i - lo)[j]);
                        }
                    }
                }
                if all_digits(t) {
                    assert(t.take(i - lo + 1) =~= t.take(i - lo + 1));
                    lemma_digits_value_prefix(t, i - lo + 1);
                }
            }
            return None;
        }
        proof {
            assert(all_digits(t.take(i - lo + 1))) by {
                assert forall|j: int| 0 <= j < t.take(i - lo + 1).len() implies is_digit(
                    #[trigger] t.take(i - lo + 1)[j],
                ) by {
                    if j < i - lo {
                        assert(t.take(i - lo + 1)[j] == t.take(i - lo)[j]);
                    }
                }
            }
        }
        acc = next;
        i = i + 1;
    }
    proof {
        assert(t.take(i - lo) =~= t);
    }
    Some(acc)
}

/// Reads the unsigned decimal `digits[.digits]` in `s[lo..hi)` as fixed-point units.
fn unsigned_in(s: &Vec<char>, lo: usize, hi: usize) -> (r: Option<u64>)
    requires
        lo <= hi <= s.len(),
    ensures
        match unsigned_units(s@.subrange(lo as int, hi as int)) {
            Some(m) => if m <= BOUND { r is Some && r->0 == m } else { r is None },
            None => r is None,
        },
        r matches Some(x) ==> x <= BOUND,
{
    let ghost t = s@.subrange(lo as int, hi as int);
    // the point, if any
    let mut p: usize = lo;
    while p < hi && s[p] != '.'
        invariant
            lo <= p <= hi <= s.len(),
            t == s@.subrange(lo as int, hi as int),
            first_index_from(t, '.', 0) == first_index_from(t, '.', p - lo),
        decreases hi - p,
    {
        proof {
            lemma_first_index_step(t, '.', p - lo);
        }
        p = p + 1;
    }
    let ghost pt = first_index_from(t, '.', 0);
    proof {
        assert(pt == p - lo);
        assert(t.take(pt) =~= s@.subrange(lo as int, p as int));
    }
    if p == lo && (p == hi || p + 1 == hi) {
        proof {
            assert(t.take(pt).len() == 0);
        }
        return None;
    }
    // integer part: at most BOUND / SCALE, larger makes the whole exceed BOUND
    let mut whole: u64 = 0;
    if p > lo {
        match bounded_digits(s, lo, p, 1_000_000_000_000) {
            Some(v) => {
                whole = v;
            },
            None => {
                proof {
                    let ip = t.take(pt);
                    if all_digits(ip) && ip.len() > 0 {
                        lemma_digits_value_nonneg(ip);
                        let fp = if pt < t.len() { t.skip(pt + 1) } else { Seq::<char>::empty() };
                        if all_digits(fp) {
                            lemma_fraction_units_nonneg(fp);
                            assert(digits_value(ip) * SCALE >= 1_000_000_000_001 * SCALE)
                                by (nonlinear_arith)
                                requires
                                    digits_value(ip) >= 1_000_000_000_001,
                            ;
                        }
                    }
                }
                return None;
            },
        }
    }
    // fraction part
    let ghost fp = if pt < t.len() { t.skip(pt + 1) } else { Seq::<char>::empty() };
    let frac: u64;
    if p < hi {
        proof {
            assert(fp =~= s@.subrange(p + 1, hi as int));
        }
        match fraction_in(s, p + 1, hi) {
            Some(f) => {
                frac = f;
            },
            None => {
                return None;
            },
        }
    } else {
        proof {
            assert(fp.len() == 0);
            reveal_with_fuel(pow10, 7);
            assert(fraction_units(fp) == 0);
        }
        frac = 0;
    }
    proof {
        lemma_digits_value_nonneg(t.take(pt));
        assert(whole * 1_000_000 <= 1_000_000_000_000_000_000) by (nonlinear_arith)
            requires
                whole <= 1_000_000_000_000,
        ;
    }
    let m = whole * 1_000_000 + frac;
    if m > 1_000_000_000_000_000_000 {
        return None;
    }
    Some(m)
}

/// Reads the digits after a point, `s[lo..hi)`, as fixed-point units.
fn fraction_in(s: &Vec<char>, lo: usize, hi: usize) -> (r: Option<u64>)
    requires
        lo <= hi <= s.len(),
    ensures
        match r {
            Some(f) => all_digits(s@.subrange(lo as int, hi as int)) && f == fraction_units(
                s@.subrange(lo as int, hi as int),
            ) && f < 1_000_000,
            None => !all_digits(s@.subrange(lo as int, hi as int)),
        },
{
    let ghost fp = s@.subrange(lo as int, hi as int);
    let mut frac: u64 = 0;
    let mut nfrac: usize = 0;
    let mut i: usize = lo;
    proof {
        assert(pow10(0) == 1);
    }
    while i < hi
        invariant
            lo <= i <= hi <= s.len(),
            fp == s@.subrange(lo as int, hi as int),
            nfrac == if i - lo < 6 { i - lo } else { 6 },
            all_digits(fp.take(i - lo)),
            frac == digits_value(fp.take(nfrac as int)),
            frac < pow10(nfrac as nat),
        decreases hi - i,
    {
        let c = s[i];
        proof {
            assert(fp[i - lo] == c);
        }
        if !('0' <= c && c <= '9') {
            proof {
                assert(!is_digit(fp[i - lo]));
            }
            return None;
        }
        if nfrac < 6 {
            proof {
                lemma_pow10_small(nfrac as nat);
                lemma_digits_value_extend(fp, nfrac as int);
                assert(pow10((nfrac + 1) as nat) == 10 * pow10(nfrac as nat));
            }
            frac = frac * 10 + (c as u32 - '0' as u32) as u64;
            nfrac = nfrac + 1;
        }
        proof {
            assert(all_digits(fp.take(i - lo + 1))) by {
                assert forall|j: int| 0 <= j < fp.take(i - lo + 1).len() implies is_digit(
                    #[trigger] fp.take(i - lo + 1)[j],
                ) by {
                    if j < i - lo {
                        assert(fp.take(i - lo + 1)[j] == fp.take(i - lo)[j]);
                    }
                }
            }
        }
        i = i + 1;
    }
    proof {
        assert(fp.take(i - lo) =~= fp);
        if fp.len() < 6 {
            assert(fp.take(nfrac as int) =~= fp);
        }
    }
    // pad to six digits
    let ghost f0 = frac;
    let ghost n0 = nfrac;
    proof {
        assert(pow10((nfrac - n0) as nat) == 1);
    }
    while nfrac < 6
        invariant
            n0 <= nfrac <= 6,
            frac == f0 * pow10((nfrac - n0) as nat),
            frac < pow10(nfrac as nat),
        decreases 6 - nfrac,
    {
        proof {
            lemma_pow10_small(nfrac as nat);
            assert(pow10((nfrac + 1 - n0) as nat) == 10 * pow10((nfrac - n0) as nat));
            assert(pow10((nfrac + 1) as nat) == 10 * pow10(nfrac as nat));
            assert(f0 * pow10((nfrac + 1 - n0) as nat) == f0 * pow10((nfrac - n0) as nat) * 10)
                by (nonlinear_arith)
                requires
                    pow10((nfrac + 1 - n0) as nat) == 10 * pow10((nfrac - n0) as nat),
            ;
        }
        frac = frac * 10;
        nfrac = nfrac + 1;
    }
    proof {
        reveal_with_fuel(pow10, 7);
        assert(pow10(6) == 1_000_000);
        if fp.len() >= 6 {
            assert(n0 == 6);
            assert(frac == f0);
        } else {
            assert(n0 == fp.len());
            assert(f0 == digits_value(fp));
        }
        assert(frac == fraction_units(fp));
    }
    Some(frac)
}

proof fn lemma_pow10_small(n: nat)
    requires
        n <= 6,
    ensures
        pow10(n) <= 1_000_000,
        n < 6 ==> pow10(n) <= 100_000,
{
    reveal_with_fuel(pow10, 7);
}

proof fn lemma_fraction_units_nonneg(f: Seq<char>)
    requires
        all_digits(f),
    ensures
        fraction_units(f) >= 0,
{
    if f.len() >= 6 {
        assert(all_digits(f.take(6))) by {
            assert forall|i: int| 0 <= i < f.take(6).len() implies is_digit(
                #[trigger] f.take(6)[i],
            ) by {
                assert(f.take(6)[i] == f[i]);
            }
        }
        lemma_digits_value_nonneg(f.take(6));
    } else {
        lemma_digits_value_nonneg(f);
        lemma_pow10_positive((6 - f.len()) as nat);
        assert(digits_value(f) * pow10((6 - f.len()) as nat) >= 0) by (nonlinear_arith)
            requires
                digits_value(f) >= 0,
                pow10((6 - f.len()) as nat) >= 1,
        ;
    }
}

/// Reads the decimal `[+-]digits[.digits]` in `s[lo..hi)` as fixed-point units.
fn decimal_in(s: &Vec<char>, lo: usize, hi: usize) -> (r: Option<i64>)
    requires
        lo <= hi <= s.len(),
    ensures
        widen(r) == plain_units(s@.subrange(lo as int, hi as int)),
        r matches Some(v) ==> -BOUND <= v <= BOUND,
{
    let ghost t = s@.subrange(lo as int, hi as int);
    proof {
        if lo < hi {
            assert(t[0] == s@[lo as int]);
        }
    }
    let mut start = lo;
    let mut negative = false;
    if lo < hi && (s[lo] == '-' || s[lo] == '+') {
        negative = s[lo] == '-';
        start = lo + 1;
        proof {
            assert(t.drop_first() =~= s@.subrange(start as int, hi as int));
        }
    } else {
        proof {
            assert(t =~= s@.subrange(start as int, hi as int));
        }
    }
    let ghost body = if starts_with_sign(t) { t.drop_first() } else { t };
    proof {
        assert(body == s@.subrange(start as int, hi as int));
        assert(negative == starts_with_minus(t));
    }
    match unsigned_in(s, start, hi) {
        Some(m) => {
            proof {
                assert(unsigned_units(body) == Some(m as int));
            }
            let v = m as i64;
            if negative {
                Some(-v)
            } else {
                Some(v)
            }
        },
        None => None,
    }
}

/// Reads the integer `[+-]digits` in `s[lo..hi)`, of magnitude at most `FIELD_MAX`.
fn integer_in(s: &Vec<char>, lo: usize, hi: usize) -> (r: Option<i64>)
    requires
        lo <= hi <= s.len(),
    ensures
        widen(r) == integer_value(s@.subrange(lo as int, hi as int)),
        r matches Some(v) ==> -FIELD_MAX <= v <= FIELD_MAX,
{
    let ghost t = s@.subrange(lo as int, hi as int);
    proof {
        if lo < hi {
            assert(t[0] == s@[lo as int]);
        }
    }
    let mut start = lo;
    let mut negative = false;
    if lo < hi && (s[lo] == '-' || s[lo] == '+') {
        negative = s[lo] == '-';
        start = lo + 1;
        proof {
            assert(t.drop_first() =~= s@.subrange(start as int, hi as int));
        }
    } else {
        proof {
            assert(t =~= s@.subrange(start as int, hi as int));
        }
    }
    match bounded_digits(s, start, hi, 2_147_483_647) {
        Some(m) => {
            let v = m as i64;
            if negative {
                Some(-v)
            } else {
                Some(v)
            }
        },
        None => None,
    }
}

/// Index of the first `c` in `s` at or after `from`, or `s.len()`.
fn find_char(s: &Vec<char>, c: char, from: usize) -> (r: usize)
    requires
        from <= s.len(),
    ensures
        r == first_index_from(s@, c, from as int),
{
    let mut i = from;
    while i < s.len() && s[i] != c
        invariant
            from <= i <= s.len(),
            first_index_from(s@, c, from as int) == first_index_from(s@, c, i as int),
        decreases s.len() - i,
    {
        proof {
            lemma_first_index_step(s@, c, i as int);
        }
        i = i + 1;
    }
    i
}

/// Reads a duration `[+-]H:MM:SS[.frac]` held in `s` as fixed-point units of seconds.
fn time_in(s: &Vec<char>) -> (r: Option<i64>)
    ensures
        widen(r) == time_units(s@),
{
    let mut st: usize = 0;
    while st < s.len() && (s[st] == '-' || s[st] == '+')
        invariant
            st <= s.len(),
            skip_signs(s@, 0) == skip_signs(s@, st as int),
        decreases s.len() - st,
    {
        st = st + 1;
    }
    let colon1 = find_char(s, ':', st);
    if colon1 >= s.len() {
        return None;
    }
    let colon2 = find_char(s, ':', colon1 + 1);
    if colon2 >= s.len() {
        return None;
    }
    proof {
        lemma_first_index_bounds(s@, ':', st as int);
        lemma_first_index_bounds(s@, ':', colon1 + 1);
    }
    let colon3 = find_char(s, ':', colon2 + 1);
    if colon3 < s.len() {
        return None;
    }
    let h = integer_in(s, st, colon1);
    let m = integer_in(s, colon1 + 1, colon2);
    let sec = number_in(s, colon2 + 1, s.len());
    proof {
        assert(skip_signs(s@, 0) == st);
        lemma_first_index_bounds(s@, ':', colon2 + 1);
        assert(first_index_from(s@, ':', colon2 + 1) == s.len());
    }
    match (h, m, sec) {
        (Some(h), Some(m), Some(sec)) => {
            assert(widen(Some(h)) == integer_value(s@.subrange(st as int, colon1 as int)));
            let total: i128 = (h as i128 * 3600 + m as i128 * 60) * 1_000_000 + sec as i128;
            let v: i128 = if s.len() > 0 && s[0] == '-' {
                -total
            } else {
                total
            };
            if -1_000_000_000_000_000_000 <= v && v <= 1_000_000_000_000_000_000 {
                Some(v as i64)
            } else {
                None
            }
        },
        _ => None,
    }
}

proof fn lemma_pow10_add(a: nat, b: nat)
    ensures
        pow10(a + b) == pow10(a) * pow10(b),
    decreases b,
{
    if b > 0 {
        lemma_pow10_add(a, (b - 1) as nat);
        assert(pow10(a + b) == 10 * pow10((a + b - 1) as nat));
        assert(pow10(a) * pow10(b) == pow10(a) * (10 * pow10((b - 1) as nat)));
        assert(pow10(a) * (10 * pow10((b - 1) as nat)) == 10 * (pow10(a) * pow10((b - 1) as nat)))
            by (nonlinear_arith);
    }
}

/// Dividing toward zero by `p`, then by `q`, is dividing toward zero by `p * q`.
proof fn lemma_div_toward_zero_twice(x: int, p: int, q: int)
    requires
        p > 0,
        q > 0,
    ensures
        div_toward_zero(div_toward_zero(x, p), q) == div_toward_zero(x, p * q),
{
    vstd::arithmetic::div_mod::lemma_div_denominator(if x >= 0 { x } else { -x }, p, q);
    if x < 0 {
        vstd::arithmetic::div_mod::lemma_div_pos_is_pos(-x, p);
        if (-x) / p == 0 {
            vstd::arithmetic::div_mod::lemma_div_pos_is_pos(0, q);
        }
    } else {
        vstd::arithmetic::div_mod::lemma_div_pos_is_pos(x, p);
    }
}

/// `m` shifted by the exponent `e`, or `None` beyond `BOUND`.
fn shift_in_bound(m: i64, e: i64) -> (r: Option<i64>)
    requires
        -BOUND <= m <= BOUND,
        -FIELD_MAX <= e <= FIELD_MAX,
    ensures
        widen(r) == (if -BOUND <= shift10(m as int, e as int) <= BOUND {
            Some(shift10(m as int, e as int))
        } else {
            None
        }),
{
    if e >= 0 {
        if m == 0 {
            proof {
                assert(0 * pow10(e as nat) == 0);
            }
            return Some(0);
        }
        let mut v: i128 = m as i128;
        let mut k: i64 = 0;
        proof {
            assert(pow10(0) == 1);
        }
        while k < e
            invariant
                0 <= k <= e,
                m != 0,
                -BOUND <= m <= BOUND,
                v == m * pow10(k as nat),
                -BOUND <= v <= BOUND,
            decreases e - k,
        {
            let next: i128 = v * 10;
            proof {
                assert(pow10((k + 1) as nat) == 10 * pow10(k as nat));
                assert(next == m * pow10((k + 1) as nat)) by (nonlinear_arith)
                    requires
                        next == v * 10,
                        v == m * pow10(k as nat),
                        pow10((k + 1) as nat) == 10 * pow10(k as nat),
                ;
            }
            if next > 1_000_000_000_000_000_000 || next < -1_000_000_000_000_000_000 {
                proof {
                    let rest = (e - k - 1) as nat;
                    lemma_pow10_add((k + 1) as nat, rest);
                    lemma_pow10_positive(rest);
                    assert((k + 1) as nat + rest == e as nat);
                    let big = m * pow10((k + 1) as nat);
                    assert(m * pow10(e as nat) == big * pow10(rest)) by (nonlinear_arith)
                        requires
                            pow10(e as nat) == pow10((k + 1) as nat) * pow10(rest),
                            big == m * pow10((k + 1) as nat),
                    ;
                    if big > 0 {
                        assert(big * pow10(rest) >= big) by (nonlinear_arith)
                            requires
                                big > 0,
                                pow10(rest) >= 1,
                        ;
                    } else {
                        assert(big * pow10(rest) <= big) by (nonlinear_arith)
                            requires
                                big < 0,
                                pow10(rest) >= 1,
                        ;
                    }
                }
                return None;
            }
            v = next;
            k = k + 1;
        }
        Some(v as i64)
    } else {
        let mut v: i64 = m;
        let mut n: i64 = 0;
        proof {
            assert(pow10(0) == 1);
            assert(div_toward_zero(m as int, 1) == m);
        }
        while n < -e && v != 0
            invariant
                0 <= n <= -e,
                -FIELD_MAX <= e < 0,
                v == div_toward_zero(m as int, pow10(n as nat)),
                -BOUND <= v <= BOUND,
            decreases -e - n,
        {
            proof {
                lemma_pow10_positive(n as nat);
                lemma_div_toward_zero_twice(m as int, pow10(n as nat), 10);
                assert(pow10((n + 1) as nat) == 10 * pow10(n as nat));
                assert(pow10(n as nat) * 10 == 10 * pow10(n as nat));
            }
            v = v / 10;
            n = n + 1;
        }
        proof {
            let d = (-e - n) as nat;
            lemma_pow10_positive(n as nat);
            lemma_pow10_positive(d);
            lemma_pow10_add(n as nat, d);
            assert(n as nat + d == (-e) as nat);
            lemma_div_toward_zero_twice(m as int, pow10(n as nat), pow10(d));
            if v == 0 {
                vstd::arithmetic::div_mod::lemma_div_pos_is_pos(0, pow10(d));
                assert(div_toward_zero(0, pow10(d)) == 0);
            } else {
                assert(d == 0);
                assert(div_toward_zero(v as int, 1) == v);
            }
        }
        Some(v)
    }
}

/// Reads the number `[+-]digits[.digits][(e|E)[+-]digits]` in `s[lo..hi)`.
fn number_in(s: &Vec<char>, lo: usize, hi: usize) -> (r: Option<i64>)
    requires
        lo <= hi <= s.len(),
    ensures
        widen(r) == decimal_units(s@.subrange(lo as int, hi as int)),
        r matches Some(v) ==> -BOUND <= v <= BOUND,
{
    let ghost t = s@.subrange(lo as int, hi as int);
    let mut p: usize = lo;
    while p < hi && s[p] != 'e' && s[p] != 'E'
        invariant
            lo <= p <= hi <= s.len(),
            t == s@.subrange(lo as int, hi as int),
            exp_index(t, 0) == exp_index(t, p - lo),
        decreases hi - p,
    {
        proof {
            assert(t[p - lo] == s@[p as int]);
        }
        p = p + 1;
    }
    proof {
        if p < hi {
            assert(t[p - lo] == s@[p as int]);
        }
        assert(exp_index(t, 0) == p - lo);
    }
    if p == hi {
        return decimal_in(s, lo, hi);
    }
    proof {
        assert(t.take(p - lo) =~= s@.subrange(lo as int, p as int));
        assert(t.skip(p - lo + 1) =~= s@.subrange(p + 1, hi as int));
    }
    let m = match decimal_in(s, lo, p) {
        Some(m) => m,
        None => {
            return None;
        },
    };
    let e = match integer_in(s, p + 1, hi) {
        Some(e) => e,
        None => {
            return None;
        },
    };
    shift_in_bound(m, e)
}

/// Reads decimal text `[+-]digits[.digits][(e|E)[+-]digits]` as fixed-point units (see
/// `decimal_units`). `None` when malformed or when its magnitude exceeds `BOUND`.
pub fn parse_decimal(text: &str) -> (r: Option<i64>)
    ensures
        widen(r) == decimal_units(text@),
        r matches Some(v) ==> -BOUND <= v <= BOUND,
{
    let s = crate::text::chars_of(text);
    proof {
        assert(s@.subrange(0, s@.len() as int) =~= s@);
    }
    number_in(&s, 0, s.len())
}

/// Reads a duration `[+-]H:MM:SS[.frac]` as fixed-point units of seconds.
pub fn parse_time(text: &str) -> (r: Option<i64>)
    ensures
        widen(r) == time_units(text@),
        r matches Some(v) ==> -BOUND <= v <= BOUND,
{
    let s = crate::text::chars_of(text);
    time_in(&s)
}

/// Multiplies `v` by the fixed-point coefficient `coef`, rounding toward zero and
/// saturating to the `i64` range.
pub fn scale_value(v: i64, coef: i64) -> (r: i64)
    requires
        -BOUND <= v <= BOUND,
    ensures
        r == scaled(v as int, coef as int),
{
    proof {
        assert(-1_000_000_000_000_000_000 * 9_223_372_036_854_775_808 <= v * coef
            <= 1_000_000_000_000_000_000 * 9_223_372_036_854_775_808) by (nonlinear_arith)
            requires
                -1_000_000_000_000_000_000 <= v <= 1_000_000_000_000_000_000,
                -9_223_372_036_854_775_808 <= coef <= 9_223_372_036_854_775_807,
        ;
    }
    let p: i128 = v as i128 * coef as i128;
    let q: i128 = if p >= 0 {
        p / 1_000_000
    } else {
        -((-p) / 1_000_000)
    };
    if q > i64::MAX as i128 {
        i64::MAX
    } else if q < i64::MIN as i128 {
        i64::MIN
    } else {
        q as i64
    }
}

/// Brings `v` into `[lo, hi]`: below `lo` gives `lo`, above `hi` gives `hi`.
pub fn clamp_value(v: i64, lo: i64, hi: i64) -> (r: i64)
    ensures
        r == clamped(v as int, lo as int, hi as int),
{
    if v < lo {
        lo
    } else if v > hi {
        hi
    } else {
        v
    }
}

} // verus!

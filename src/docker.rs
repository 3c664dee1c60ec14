//! Dangling container images: reading the runtime's listing and its sizes.

use vstd::prelude::*;
use vstd::string::*;
use vstd::arithmetic::div_mod::{lemma_basic_div, lemma_div_denominator, lemma_hoist_over_denominator};
use crate::allowlist::Allowlist;
use crate::model::{capped, keeps_order_per_size, size_sum, sorted_by_size, CategoryType, ScanResult, ScannedItem};
use crate::scan::{unprotected, unprotected_items};
use crate::text::{find_char, find_from, lines_of, split_lines, to_owned_text, trim, trimmed};

verus! {

/// Whether `c` is an ASCII decimal digit.
pub open spec fn is_digit(c: char) -> bool {
    '0' <= c && c <= '9'
}

/// Whether every character of `s` is a decimal digit.
pub open spec fn all_digits(s: Seq<char>) -> bool {
    forall|i: int| 0 <= i < s.len() ==> is_digit(#[trigger] s[i])
}

/// The number that the decimal digits `s` spell.
pub open spec fn digits_value(s: Seq<char>) -> nat
    decreases s.len(),
{
    if s.len() == 0 {
        0
    } else {
        digits_value(s.drop_last()) * 10 + digit_of(s.last())
    }
}

/// The value of the digit `c`.
pub open spec fn digit_of(c: char) -> nat {
    (c as int - '0' as int) as nat
}

/// Ten to the power `k`.
pub open spec fn pow10(k: nat) -> nat
    decreases k,
{
    if k == 0 {
        1
    } else {
        10 * pow10((k - 1) as nat)
    }
}

/// `t` without one leading `+`.
pub open spec fn unsigned_part(t: Seq<char>) -> Seq<char> {
    if t.len() > 0 && t[0] == '+' {
        t.drop_first()
    } else {
        t
    }
}

/// The digits of a numeral before its decimal point.
pub open spec fn integer_digits(b: Seq<char>) -> Seq<char> {
    b.subrange(0, find_from(b, '.', 0))
}

/// The characters of a numeral after its first decimal point.
pub open spec fn fraction_digits(b: Seq<char>) -> Seq<char> {
    let d = find_from(b, '.', 0);
    if d < b.len() {
        b.subrange(d + 1, b.len() as int)
    } else {
        Seq::empty()
    }
}

/// Where the exponent mark (`e` or `E`) of a numeral stands, or its length.
pub open spec fn exponent_mark(b: Seq<char>) -> int {
    let lower = find_from(b, 'e', 0);
    let upper = find_from(b, 'E', 0);
    if lower <= upper {
        lower
    } else {
        upper
    }
}

/// The part of a numeral before its exponent mark.
pub open spec fn mantissa(b: Seq<char>) -> Seq<char> {
    b.subrange(0, exponent_mark(b))
}

/// The part of a numeral after its exponent mark (empty without one).
pub open spec fn exponent_text(b: Seq<char>) -> Seq<char> {
    if exponent_mark(b) < b.len() {
        b.subrange(exponent_mark(b) + 1, b.len() as int)
    } else {
        Seq::empty()
    }
}

/// The digits of an exponent, after its optional sign.
pub open spec fn exponent_digits(x: Seq<char>) -> Seq<char> {
    if x.len() > 0 && (x[0] == '+' || x[0] == '-') {
        x.drop_first()
    } else {
        x
    }
}

/// The power of ten that a numeral's exponent stands for (zero without one).
pub open spec fn exponent_value(b: Seq<char>) -> int {
    let x = exponent_text(b);
    let v = digits_value(exponent_digits(x)) as int;
    if x.len() > 0 && x[0] == '-' {
        -v
    } else {
        v
    }
}

/// A decimal numeral: an optional `+`, digits with an optional point and at
/// least one digit, then optionally `e` or `E`, an optional sign and digits.
pub open spec fn is_decimal(t: Seq<char>) -> bool {
    let b = unsigned_part(t);
    let mm = mantissa(b);
    &&& all_digits(integer_digits(mm))
    &&& all_digits(fraction_digits(mm))
    &&& integer_digits(mm).len() + fraction_digits(mm).len() >= 1
    &&& exponent_mark(b) < b.len() ==> exponent_digits(exponent_text(b)).len() >= 1 && all_digits(
        exponent_digits(exponent_text(b)),
    )
}

/// `n` times ten to the power `e`, rounded toward zero.
pub open spec fn times_power(n: int, e: int) -> int {
    if e >= 0 {
        n * pow10(e as nat)
    } else {
        n / (pow10((-e) as nat) as int)
    }
}

/// The decimal numeral `t` times `m`, rounded toward zero and saturated at
/// `u64::MAX`; zero where `t` is no decimal numeral. The numeral's value is
/// its digits `I` and `F` (before and after the point) read as one whole
/// number, times ten to the power of its exponent minus the length of `F`.
pub open spec fn scaled_decimal(t: Seq<char>, m: nat) -> int {
    if is_decimal(t) {
        let b = unsigned_part(t);
        let mm = mantissa(b);
        let f = fraction_digits(mm);
        capped(times_power((digits_value(integer_digits(mm) + f) * m) as int, exponent_value(b) - f.len()))
    } else {
        0
    }
}

/// `c` is the letter `upper` in either case.
pub open spec fn is_letter(c: char, upper: char) -> bool {
    c == upper || c as int == upper as int + 32
}

/// `s` ends with the two-letter unit `<letter>B`, in any case.
pub open spec fn has_unit(s: Seq<char>, letter: char) -> bool {
    s.len() >= 2 && is_letter(s[s.len() - 2], letter) && is_letter(s[s.len() - 1], 'B')
}

/// The number of bytes that a size as the container runtime prints it
/// stands for: a decimal numeral (with an optional exponent) and a unit of
/// `GB`, `MB`, `KB` (powers of 1024) or `B`, in any case, times the unit and
/// rounded toward zero; zero for anything else.
pub open spec fn docker_size_value(s: Seq<char>) -> int {
    let n = s.len() as int;
    if has_unit(s, 'G') {
        scaled_decimal(s.subrange(0, n - 2), 1073741824)
    } else if has_unit(s, 'M') {
        scaled_decimal(s.subrange(0, n - 2), 1048576)
    } else if has_unit(s, 'K') {
        scaled_decimal(s.subrange(0, n - 2), 1024)
    } else if n >= 1 && is_letter(s[n - 1], 'B') {
        scaled_decimal(s.subrange(0, n - 1), 1)
    } else {
        0
    }
}

/// `digits` read as a fraction `0.d1d2...` times `m`, rounded toward zero.
spec fn scaled_fraction(digits: Seq<char>, m: nat) -> int
    decreases digits.len(),
{
    if digits.len() == 0 {
        0
    } else {
        (digit_of(digits[0]) * m + scaled_fraction(digits.drop_first(), m)) / 10
    }
}

proof fn lemma_pow10_positive(k: nat)
    ensures
        pow10(k) >= 1,
    decreases k,
{
    if k > 0 {
        lemma_pow10_positive((k - 1) as nat);
    }
}

proof fn lemma_digits_value_front(s: Seq<char>)
    requires
        s.len() >= 1,
    ensures
        digits_value(s) == digit_of(s[0]) * pow10((s.len() - 1) as nat)
            + digits_value(s.drop_first()),
    decreases s.len(),
{
    if s.len() == 1 {
        assert(s.drop_last().len() == 0);
        assert(s.drop_first().len() == 0);
        assert(digits_value(s.drop_last()) == 0);
        assert(digits_value(s.drop_first()) == 0);
        assert(s.last() == s[0]);
        assert(pow10(0) == 1);
        assert(digits_value(s) == digit_of(s[0]));
        assert(digit_of(s[0]) * pow10(0) == digit_of(s[0]));
    } else {
        lemma_digits_value_front(s.drop_last());
        assert(s.drop_first().drop_last() =~= s.drop_last().drop_first());
        assert(s.drop_last()[0] == s[0]);
        assert(s.drop_first().last() == s.last());
        let d0 = digit_of(s[0]);
        let p = pow10((s.len() - 2) as nat);
        let x = digits_value(s.drop_last().drop_first());
        assert(digits_value(s.drop_last()) == d0 * p + x);
        assert(digits_value(s.drop_first()) == x * 10 + digit_of(s.last()));
        assert(pow10((s.len() - 1) as nat) == 10 * p);
        assert((d0 * p + x) * 10 == d0 * (10 * p) + x * 10) by (nonlinear_arith);
        assert(digits_value(s) == digits_value(s.drop_last()) * 10 + digit_of(s.last()));
        assert(digits_value(s) == d0 * (10 * p) + digits_value(s.drop_first()));
    }
}

proof fn lemma_scaled_fraction(f: Seq<char>, m: nat)
    ensures
        scaled_fraction(f, m) == (digits_value(f) * m) as int / pow10(f.len()) as int,
    decreases f.len(),
{
    if f.len() > 0 {
        let rest = f.drop_first();
        lemma_scaled_fraction(rest, m);
        lemma_digits_value_front(f);
        lemma_pow10_positive(rest.len());
        let d = digit_of(f[0]) as int;
        let p = pow10(rest.len()) as int;
        let x = (digits_value(rest) * m) as int;
        assert(scaled_fraction(rest, m) == x / p);
        assert(scaled_fraction(f, m) == (d * m + x / p) / 10);
        assert(digits_value(f) * m == x + (d * m) * p) by (nonlinear_arith)
            requires
                digits_value(f) == d * p + digits_value(rest),
                x == digits_value(rest) * m,
        ;
        lemma_hoist_over_denominator(x, d * m, p as nat);
        assert(x / p + d * m == (x + (d * m) * p) / p);
        assert(x + (d * m) * p >= 0) by (nonlinear_arith)
            requires
                x == digits_value(rest) * m,
                d >= 0,
                p >= 1,
        ;
        lemma_div_denominator(x + (d * m) * p, p, 10);
        let y = x + (d * m) * p;
        assert((y / p) / 10 == y / (p * 10));
        assert(pow10(f.len()) == 10 * p);
        assert(p * 10 == 10 * p);
        assert(y == (digits_value(f) * m) as int);
        assert(scaled_fraction(f, m) == (y / p) / 10);
        assert(scaled_fraction(f, m) == y / (10 * p));
    } else {
        assert(digits_value(f) == 0);
        assert(pow10(0) == 1);
        assert(scaled_fraction(f, m) == 0);
        assert(0 * m == 0) by (nonlinear_arith);
    }
}

proof fn lemma_digits_value_concat(p: Seq<char>, q: Seq<char>)
    ensures
        digits_value(p + q) == digits_value(p) * pow10(q.len()) + digits_value(q),
    decreases q.len(),
{
    if q.len() == 0 {
        assert(p + q =~= p);
        assert(pow10(0) == 1);
    } else {
        assert((p + q).drop_last() =~= p + q.drop_last());
        assert((p + q).last() == q.last());
        lemma_digits_value_concat(p, q.drop_last());
        let a = digits_value(p);
        let w = pow10(q.drop_last().len());
        let z = digits_value(q.drop_last());
        assert(pow10(q.len()) == 10 * w);
        assert((a * w + z) * 10 == a * (10 * w) + z * 10) by (nonlinear_arith);
    }
}

proof fn lemma_digits_value_below(d: Seq<char>)
    requires
        all_digits(d),
    ensures
        digits_value(d) < pow10(d.len()),
    decreases d.len(),
{
    if d.len() > 0 {
        let rest = d.drop_last();
        assert(all_digits(rest)) by {
            assert forall|i: int| 0 <= i < rest.len() implies is_digit(#[trigger] rest[i]) by {
                assert(rest[i] == d[i]);
            }
        }
        lemma_digits_value_below(rest);
        assert(is_digit(d[d.len() - 1]));
        assert(digit_of(d.last()) <= 9);
        let v = digits_value(rest);
        let p = pow10(rest.len());
        assert(v * 10 + 9 < 10 * p) by (nonlinear_arith)
            requires
                v < p,
        ;
    } else {
        assert(pow10(0) == 1);
    }
}

proof fn lemma_pow10_add(a: nat, b: nat)
    ensures
        pow10(a + b) == pow10(a) * pow10(b),
    decreases b,
{
    if b == 0 {
        assert(pow10(0) == 1);
    } else {
        lemma_pow10_add(a, (b - 1) as nat);
        assert(pow10((a + b) as nat) == 10 * pow10((a + b - 1) as nat));
        let x = pow10(a);
        let y = pow10((b - 1) as nat);
        assert(10 * (x * y) == x * (10 * y)) by (nonlinear_arith);
    }
}

proof fn lemma_pow10_monotone(a: nat, b: nat)
    requires
        a <= b,
    ensures
        pow10(a) <= pow10(b),
{
    lemma_pow10_add(a, (b - a) as nat);
    lemma_pow10_positive((b - a) as nat);
    lemma_pow10_positive(a);
    let x = pow10(a);
    let y = pow10((b - a) as nat);
    assert(x <= x * y) by (nonlinear_arith)
        requires
            y >= 1,
            x >= 1,
    ;
}

proof fn lemma_pow10_large()
    ensures
        pow10(10) == 10000000000,
        pow10(20) > u64::MAX,
{
    reveal_with_fuel(pow10, 21);
}

/// Reads the decimal digits `d`: whether all are digits and, if so, their value capped at `u64::MAX`.
fn read_digits(d: &str) -> (r: (bool, u64))
    ensures
        r.0 == all_digits(d@),
        r.0 ==> r.1 == capped(digits_value(d@) as int),
{
    let n = d.unicode_len();
    let mut acc: u64 = 0;
    let mut i: usize = 0;
    while i < n
        invariant
            n == d@.len(),
            i <= n,
            all_digits(d@.subrange(0, i as int)),
            acc == capped(digits_value(d@.subrange(0, i as int)) as int),
        decreases n - i,
    {
        let c = d.get_char(i);
        if !('0' <= c && c <= '9') {
            assert(!is_digit(d@[i as int]));
            return (false, 0);
        }
        let ghost pre = d@.subrange(0, i as int + 1);
        proof {
            assert(pre.drop_last() =~= d@.subrange(0, i as int));
            assert(pre.last() == c);
        }
        let v: u128 = acc as u128 * 10 + (c as u32 - '0' as u32) as u128;
        acc = if v > u64::MAX as u128 {
            u64::MAX
        } else {
            v as u64
        };
        proof {
            assert(all_digits(pre)) by {
                assert forall|j: int| 0 <= j < pre.len() implies is_digit(#[trigger] pre[j]) by {
                    if j < i {
                        assert(pre[j] == d@.subrange(0, i as int)[j]);
                    }
                }
            }
        }
        i += 1;
    }
    assert(d@.subrange(0, n as int) =~= d@);
    (true, acc)
}

/// The digits `q` read as a fraction `0.q1q2...`, times `m`, rounded toward zero.
fn fold_fraction(q: &str, m: u64) -> (r: u64)
    requires
        all_digits(q@),
        1 <= m <= 1073741824,
    ensures
        r == (digits_value(q@) * m) as int / pow10(q@.len()) as int,
        r < m,
{
    let flen = q.unicode_len();
    let mut y: u64 = 0;
    let mut j: usize = flen;
    while j > 0
        invariant
            flen == q@.len(),
            j <= flen,
            all_digits(q@),
            1 <= m <= 1073741824,
            y < m,
            y == scaled_fraction(q@.subrange(j as int, flen as int), m as nat),
        decreases j,
    {
        let c = q.get_char(j - 1);
        assert(is_digit(q@[j - 1]));
        let dval: u64 = (c as u32 - '0' as u32) as u64;
        proof {
            let seg = q@.subrange(j - 1, flen as int);
            assert(seg.drop_first() =~= q@.subrange(j as int, flen as int));
            assert(seg[0] == c);
            assert(dval * m + y < 10 * m) by (nonlinear_arith)
                requires
                    dval <= 9,
                    y < m,
            ;
        }
        let ghost prev = y;
        y = (dval * m + y) / 10;
        proof {
            assert(y < m) by (nonlinear_arith)
                requires
                    y == (dval * m + prev) / 10,
                    dval <= 9,
                    prev < m,
            ;
        }
        j -= 1;
    }
    proof {
        assert(q@.subrange(0, flen as int) =~= q@);
        lemma_scaled_fraction(q@, m as nat);
    }
    y
}

/// The largest exponent magnitude read exactly; beyond it every result is decided.
const EXPONENT_CAP: u128 = 0x10_0000_0000_0000_0000_0000_0000;

/// Reads the digits `d` of an exponent: whether all are digits and, if so,
/// their value capped at [`EXPONENT_CAP`].
fn read_exponent(d: &str) -> (r: (bool, u128))
    ensures
        r.0 == all_digits(d@),
        r.0 ==> r.1 == (if digits_value(d@) > EXPONENT_CAP {
            EXPONENT_CAP as int
        } else {
            digits_value(d@) as int
        }),
{
    let n = d.unicode_len();
    let mut acc: u128 = 0;
    let mut i: usize = 0;
    while i < n
        invariant
            n == d@.len(),
            i <= n,
            all_digits(d@.subrange(0, i as int)),
            acc == (if digits_value(d@.subrange(0, i as int)) > EXPONENT_CAP {
                EXPONENT_CAP as int
            } else {
                digits_value(d@.subrange(0, i as int)) as int
            }),
        decreases n - i,
    {
        let c = d.get_char(i);
        if !('0' <= c && c <= '9') {
            assert(!is_digit(d@[i as int]));
            return (false, 0);
        }
        let ghost pre = d@.subrange(0, i as int + 1);
        proof {
            assert(pre.drop_last() =~= d@.subrange(0, i as int));
            assert(pre.last() == c);
        }
        let v: u128 = acc * 10 + (c as u32 - '0' as u32) as u128;
        acc = if v > EXPONENT_CAP {
            EXPONENT_CAP
        } else {
            v
        };
        proof {
            assert(all_digits(pre)) by {
                assert forall|j: int| 0 <= j < pre.len() implies is_digit(#[trigger] pre[j]) by {
                    if j < i {
                        assert(pre[j] == d@.subrange(0, i as int)[j]);
                    }
                }
            }
        }
        i += 1;
    }
    assert(d@.subrange(0, n as int) =~= d@);
    (true, acc)
}

/// The whole number that the digits `d` spell, times `m`, divided by ten to
/// the power `s`, rounded toward zero and saturated at `u64::MAX`.
fn divided_by_power(d: &str, m: u64, s: u128) -> (r: u64)
    requires
        all_digits(d@),
        1 <= m <= 1073741824,
    ensures
        r == capped((digits_value(d@) * m) as int / pow10(s as nat) as int),
{
    let dl = d.unicode_len();
    let ghost a = (digits_value(d@) * m) as int;
    if s <= dl as u128 {
        let cut = dl - s as usize;
        let p = d.substring_char(0, cut);
        let q = d.substring_char(cut, dl);
        proof {
            assert(d@ =~= p@ + q@);
            assert(all_digits(p@)) by {
                assert forall|i: int| 0 <= i < p@.len() implies is_digit(#[trigger] p@[i]) by {
                    assert(p@[i] == d@[i]);
                }
            }
            assert(all_digits(q@)) by {
                assert forall|i: int| 0 <= i < q@.len() implies is_digit(#[trigger] q@[i]) by {
                    assert(q@[i] == d@[cut + i]);
                }
            }
        }
        let (_, pv) = read_digits(p);
        let y = fold_fraction(q, m);
        proof {
            lemma_digits_value_concat(p@, q@);
            lemma_pow10_positive(q@.len());
            let w = pow10(q@.len()) as int;
            let x = (digits_value(q@) * m) as int;
            let big = digits_value(p@) as int;
            assert(a == x + (big * m) * w) by (nonlinear_arith)
                requires
                    a == digits_value(d@) * m,
                    digits_value(d@) == big * w + digits_value(q@),
                    x == digits_value(q@) * m,
            ;
            lemma_hoist_over_denominator(x, big * m, w as nat);
            assert(a / w == big * m + y);
            assert(pv as int * m <= 0xffff_ffff_ffff_ffffu128 * 1073741824u128) by (nonlinear_arith)
                requires
                    pv <= 0xffff_ffff_ffff_ffffu64,
                    m <= 1073741824,
            ;
            if big > u64::MAX {
                assert(big * m + y > u64::MAX) by (nonlinear_arith)
                    requires
                        big > u64::MAX,
                        m >= 1,
                        y >= 0,
                ;
                assert(pv as int * m + y >= u64::MAX) by (nonlinear_arith)
                    requires
                        pv == u64::MAX,
                        m >= 1,
                        y >= 0,
                ;
            }
        }
        let total: u128 = pv as u128 * m as u128 + y as u128;
        if total > u64::MAX as u128 {
            u64::MAX
        } else {
            total as u64
        }
    } else {
        let mut y = fold_fraction(d, m);
        let mut done: u128 = dl as u128;
        proof {
            lemma_pow10_positive(dl as nat);
        }
        while done < s && y > 0
            invariant
                dl <= done <= s,
                a == (digits_value(d@) * m) as int,
                y as int == a / pow10(done as nat) as int,
                y < m,
            decreases s - done,
        {
            proof {
                lemma_pow10_positive(done as nat);
                assert(a >= 0) by (nonlinear_arith)
                    requires
                        a == digits_value(d@) * m,
                ;
                lemma_div_denominator(a, pow10(done as nat) as int, 10);
                assert(pow10((done + 1) as nat) == 10 * pow10(done as nat));
                assert(pow10(done as nat) * 10 == 10 * pow10(done as nat));
            }
            y = y / 10;
            done = done + 1;
        }
        proof {
            if done < s {
                // Nothing is left to divide: the quotient stays zero.
                lemma_pow10_positive(done as nat);
                lemma_pow10_positive((s - done) as nat);
                lemma_pow10_add(done as nat, (s - done) as nat);
                assert(a >= 0) by (nonlinear_arith)
                    requires
                        a == digits_value(d@) * m,
                ;
                lemma_div_denominator(a, pow10(done as nat) as int, pow10((s - done) as nat) as int);
                assert((done + (s - done)) as nat == s as nat);
            }
        }
        y
    }
}

/// The whole number that the digits `d` spell, times `m`, times ten to the
/// power `x - k`, rounded toward zero and saturated at `u64::MAX`. The
/// exponent `x` comes as its sign and its magnitude capped at [`EXPONENT_CAP`].
fn scale_digits(d: &str, m: u64, k: usize, negative: bool, magnitude: u128, Ghost(x): Ghost<int>) -> (r: u64)
    requires
        all_digits(d@),
        k <= d@.len(),
        1 <= m <= 1073741824,
        negative ==> x <= 0,
        !negative ==> x >= 0,
        magnitude == (if (if negative { -x } else { x }) > EXPONENT_CAP {
            EXPONENT_CAP as int
        } else {
            if negative { -x } else { x }
        }),
    ensures
        r == capped(times_power((digits_value(d@) * m) as int, x - k)),
{
    let dl = d.unicode_len();
    let ghost n = digits_value(d@) as int;
    let (_, nhat) = read_digits(d);
    if nhat == 0 {
        proof {
            assert(n == 0);
            assert(times_power(0, x - k) == 0) by {
                if x - k < 0 {
                    lemma_pow10_positive((k - x) as nat);
                }
            }
        }
        return 0;
    }
    proof {
        assert(n >= 1);
        lemma_digits_value_below(d@);
        lemma_pow10_large();
    }
    if !negative {
        if magnitude >= k as u128 + 20 {
            proof {
                let e = x - k;
                assert(e >= 20);
                lemma_pow10_monotone(20, e as nat);
                assert(n * m * pow10(e as nat) >= pow10(e as nat)) by (nonlinear_arith)
                    requires
                        n >= 1,
                        m >= 1,
                        pow10(e as nat) >= 1,
                ;
            }
            return u64::MAX;
        }
        if magnitude >= k as u128 {
            let up = magnitude - k as u128;
            proof {
                assert(n * m >= 1) by (nonlinear_arith)
                    requires
                        n >= 1,
                        m >= 1,
                ;
                assert(nhat as int * m <= 0xffff_ffff_ffff_ffffu128 * 1073741824u128) by (nonlinear_arith)
                    requires
                        nhat <= 0xffff_ffff_ffff_ffffu64,
                        m <= 1073741824,
                ;
                if n > u64::MAX {
                    assert(n * m > u64::MAX) by (nonlinear_arith)
                        requires
                            n > u64::MAX,
                            m >= 1,
                    ;
                    assert(nhat as int * m >= u64::MAX) by (nonlinear_arith)
                        requires
                            nhat == u64::MAX,
                            m >= 1,
                    ;
                }
            }
            let v: u128 = nhat as u128 * m as u128;
            let mut acc: u128 = if v > u64::MAX as u128 {
                u64::MAX as u128
            } else {
                v
            };
            proof {
                assert(pow10(0) == 1);
                assert(n * m * pow10(0) == n * m);
            }
            let mut j: u128 = 0;
            while j < up
                invariant
                    j <= up,
                    up < 20,
                    acc == capped(n * m * pow10(j as nat)),
                    n * m >= 1,
                decreases up - j,
            {
                proof {
                    assert(pow10((j + 1) as nat) == 10 * pow10(j as nat));
                    lemma_pow10_positive(j as nat);
                    let w = n * m * pow10(j as nat);
                    assert(n * m * pow10((j + 1) as nat) == w * 10) by (nonlinear_arith)
                        requires
                            w == n * m * pow10(j as nat),
                            pow10((j + 1) as nat) == 10 * pow10(j as nat),
                    ;
                }
                let t = acc * 10;
                acc = if t > u64::MAX as u128 {
                    u64::MAX as u128
                } else {
                    t
                };
                j = j + 1;
            }
            proof {
                assert(up as int == x - k);
            }
            return acc as u64;
        }
        proof {
            assert(x - k < 0);
        }
        let r = divided_by_power(d, m, k as u128 - magnitude);
        proof {
            assert((k - x) as nat == (k as u128 - magnitude) as nat);
        }
        return r;
    }
    if magnitude >= dl as u128 + 10 {
        proof {
            let s = (k - x) as nat;
            assert(s >= dl + 10);
            lemma_pow10_add(dl as nat, 10);
            lemma_pow10_monotone((dl + 10) as nat, s);
            assert(n * m < pow10(s) as int) by (nonlinear_arith)
                requires
                    n < pow10(dl as nat),
                    m <= 1073741824,
                    pow10((dl + 10) as nat) == pow10(dl as nat) * 10000000000,
                    pow10((dl + 10) as nat) <= pow10(s),
                    n >= 1,
            ;
            lemma_basic_div(n * m, pow10(s) as int);
        }
        return 0;
    }
    let r = divided_by_power(d, m, k as u128 + magnitude);
    proof {
        assert(magnitude < EXPONENT_CAP);
        assert(magnitude as int == -x);
        assert((k - x) as nat == (k as u128 + magnitude) as nat);
        if x - k == 0 {
            assert(pow10(0) == 1);
            assert((n * m) / 1 == n * m);
            assert(n * m * 1 == n * m);
        }
    }
    r
}

/// The decimal numeral `t` times `m` (see [`scaled_decimal`]).
#[verifier::rlimit(50)]
fn parse_scaled(t: &str, m: u64) -> (r: u64)
    requires
        1 <= m <= 1073741824,
    ensures
        r == scaled_decimal(t@, m as nat),
{
    let n = t.unicode_len();
    let start: usize = if n > 0 && t.get_char(0) == '+' {
        1
    } else {
        0
    };
    let b = t.substring_char(start, n);
    assert(b@ =~= unsigned_part(t@));
    let bn = b.unicode_len();
    let lower = find_char(b, 'e', 0);
    let upper = find_char(b, 'E', 0);
    let mark = if lower <= upper {
        lower
    } else {
        upper
    };
    let mm = b.substring_char(0, mark);
    assert(mm@ =~= mantissa(b@));
    let mn = mm.unicode_len();
    let dot = find_char(mm, '.', 0);
    let ip = mm.substring_char(0, dot);
    let fp = if dot < mn {
        mm.substring_char(dot + 1, mn)
    } else {
        mm.substring_char(mn, mn)
    };
    assert(ip@ =~= integer_digits(mm@));
    assert(fp@ =~= fraction_digits(mm@));
    let k = fp.unicode_len();
    if ip.unicode_len() == 0 && k == 0 {
        return 0;
    }
    let (iok, _) = read_digits(ip);
    let (fok, _) = read_digits(fp);
    if !iok || !fok {
        return 0;
    }
    let mut negative = false;
    let mut magnitude: u128 = 0;
    if mark < bn {
        let xt = b.substring_char(mark + 1, bn);
        assert(xt@ =~= exponent_text(b@));
        let xl = xt.unicode_len();
        let signed = xl > 0 && (xt.get_char(0) == '+' || xt.get_char(0) == '-');
        negative = xl > 0 && xt.get_char(0) == '-';
        let xd = if signed {
            xt.substring_char(1, xl)
        } else {
            xt.substring_char(0, xl)
        };
        assert(xd@ =~= exponent_digits(xt@));
        if xd.unicode_len() == 0 {
            return 0;
        }
        let (xok, xv) = read_exponent(xd);
        if !xok {
            return 0;
        }
        magnitude = xv;
    } else {
        assert(exponent_text(b@) =~= Seq::<char>::empty());
        assert(digits_value(Seq::<char>::empty()) == 0);
    }
    let mut digits = to_owned_text(ip);
    digits.append(fp);
    proof {
        assert(all_digits(digits@)) by {
            assert forall|i: int| 0 <= i < digits@.len() implies is_digit(#[trigger] digits@[i]) by {
                if i < ip@.len() {
                    assert(digits@[i] == ip@[i]);
                } else {
                    assert(digits@[i] == fp@[i - ip@.len()]);
                }
            }
        }
    }
    scale_digits(digits.as_str(), m, k, negative, magnitude, Ghost(exponent_value(b@)))
}

/// The number of bytes that an already trimmed size text stands for (see [`docker_size_value`]).
pub fn parse_size_text(s: &str) -> (r: u64)
    ensures
        r == docker_size_value(s@),
{
    let n = s.unicode_len();
    if n >= 2 {
        let u = s.get_char(n - 2);
        let b = s.get_char(n - 1);
        if b == 'B' || b == 'b' {
            let num = s.substring_char(0, n - 2);
            if u == 'G' || u == 'g' {
                return parse_scaled(num, 1073741824);
            } else if u == 'M' || u == 'm' {
                return parse_scaled(num, 1048576);
            } else if u == 'K' || u == 'k' {
                return parse_scaled(num, 1024);
            }
        }
    }
    if n >= 1 {
        let b = s.get_char(n - 1);
        if b == 'B' || b == 'b' {
            let num = s.substring_char(0, n - 1);
            return parse_scaled(num, 1);
        }
    }
    0
}

/// The number of bytes that a size as the container runtime prints it
/// stands for, after surrounding whitespace is dropped: `"1KB"` is 1024,
/// `"1.5GB"` is 1610612736, `"1e3KB"` is 1024000, `"500B"` is 500. Anything
/// unreadable counts as zero.
pub fn parse_docker_size(size_str: &str) -> (r: u64)
    ensures
        r == docker_size_value(trimmed(size_str@)),
{
    parse_size_text(trim(size_str))
}

/// A listing line describes an image when it holds at least one `|`.
pub open spec fn is_image_line(l: Seq<char>) -> bool {
    find_from(l, '|', 0) < l.len()
}

/// The first `|`-separated field of a listing line: the image id.
pub open spec fn image_id(l: Seq<char>) -> Seq<char> {
    l.subrange(0, find_from(l, '|', 0))
}

/// The second field of a listing line: the image's size as printed.
pub open spec fn image_size_text(l: Seq<char>) -> Seq<char> {
    let bar1 = find_from(l, '|', 0);
    l.subrange(bar1 + 1, find_from(l, '|', bar1 + 1))
}

/// The third field of a listing line (`repository:tag`), or `<none>` where it has none.
pub open spec fn image_name(l: Seq<char>) -> Seq<char> {
    let bar1 = find_from(l, '|', 0);
    let bar2 = find_from(l, '|', bar1 + 1);
    if bar2 < l.len() {
        l.subrange(bar2 + 1, find_from(l, '|', bar2 + 1))
    } else {
        "<none>"@
    }
}

/// The virtual path that stands for the image of a listing line: `docker://<id>/<name>`.
pub open spec fn image_path(l: Seq<char>) -> Seq<char> {
    "docker://"@ + image_id(l) + "/"@ + image_name(l)
}

/// The lines of a listing that describe images, in order.
pub open spec fn image_lines(lines: Seq<Seq<char>>) -> Seq<Seq<char>>
    decreases lines.len(),
{
    if lines.len() == 0 {
        Seq::empty()
    } else {
        let prev = image_lines(lines.drop_last());
        if is_image_line(lines.last()) {
            prev.push(lines.last())
        } else {
            prev
        }
    }
}

/// `it` is the item that the listing line `l` describes, stamped with `modified`.
pub open spec fn describes(it: ScannedItem, l: Seq<char>, modified: u64) -> bool {
    it.path@ == image_path(l) && it.size == docker_size_value(trimmed(image_size_text(l)))
        && it.modified == modified
}

/// The image that one line `id|size|repository:tag` of the runtime's
/// listing describes, with `modified` as its time; none for a line without `|`.
pub fn parse_image_line(line: &str, modified: u64) -> (r: Option<ScannedItem>)
    ensures
        r is Some <==> is_image_line(line@),
        r is Some ==> describes(r->0, line@, modified),
{
    let n = line.unicode_len();
    let bar1 = find_char(line, '|', 0);
    if bar1 == n {
        return None;
    }
    let bar2 = find_char(line, '|', bar1 + 1);
    let id = line.substring_char(0, bar1);
    let size_text = line.substring_char(bar1 + 1, bar2);
    let mut path = to_owned_text("docker://");
    path.append(id);
    path.append("/");
    if bar2 < n {
        let bar3 = find_char(line, '|', bar2 + 1);
        path.append(line.substring_char(bar2 + 1, bar3));
    } else {
        path.append("<none>");
    }
    let size = parse_docker_size(size_text);
    Some(ScannedItem { path, size, modified })
}

/// The images that the runtime's listing output describes, one per line
/// that holds a `|`, in order, each stamped with `modified`.
pub fn parse_image_listing(output: &str, modified: u64) -> (r: Vec<ScannedItem>)
    ensures
        r@.len() == image_lines(lines_of(output@)).len(),
        forall|i: int|
            0 <= i < r@.len() ==> describes(#[trigger] r@[i], image_lines(lines_of(output@))[i], modified),
{
    let lines = split_lines(output);
    let ghost ls = lines.deep_view();
    let mut r: Vec<ScannedItem> = Vec::new();
    let mut i: usize = 0;
    while i < lines.len()
        invariant
            ls == lines.deep_view(),
            ls == lines_of(output@),
            i <= lines.len(),
            r@.len() == image_lines(ls.subrange(0, i as int)).len(),
            forall|j: int|
                0 <= j < r@.len() ==> describes(#[trigger] r@[j], image_lines(ls.subrange(0, i as int))[j], modified),
        decreases lines.len() - i,
    {
        let ghost prev = image_lines(ls.subrange(0, i as int));
        proof {
            let pre = ls.subrange(0, i as int + 1);
            assert(pre.drop_last() =~= ls.subrange(0, i as int));
            assert(pre.last() == lines@[i as int]@);
        }
        let ghost before = r@;
        match parse_image_line(lines[i].as_str(), modified) {
            Some(it) => {
                r.push(it);
                proof {
                    let now = image_lines(ls.subrange(0, i as int + 1));
                    assert(now == prev.push(ls[i as int]));
                    assert forall|j: int| 0 <= j < r@.len() implies describes(#[trigger] r@[j], now[j], modified) by {
                        if j < prev.len() {
                            assert(r@[j] == before[j]);
                        }
                    }
                }
            },
            None => {},
        }
        i += 1;
    }
    assert(ls.subrange(0, lines.len() as int) =~= ls);
    r
}

/// The scanner of dangling container images.
pub struct DockerScanner;

impl DockerScanner {
    /// The category it fills.
    pub fn category(&self) -> (r: CategoryType)
        ensures
            r == CategoryType::DockerImages,
    {
        CategoryType::DockerImages
    }

    /// What the category holds.
    pub fn description(&self) -> (r: String)
        ensures
            r@ == "Unused Docker images (dangling=true)"@,
    {
        to_owned_text("Unused Docker images (dangling=true)")
    }

    /// The category's result from the listed images (none where the runtime
    /// is unavailable): those the allowlist does not protect, largest first,
    /// under the virtual root `Docker`.
    pub fn scan(&self, images: Vec<ScannedItem>, allowlist: &Allowlist) -> (r: ScanResult)
        ensures
            r.category == CategoryType::DockerImages,
            r.description@ == "Unused Docker images (dangling=true)"@,
            r.root_path@ == "Docker"@,
            r.total_size == capped(size_sum(unprotected_items(allowlist@, images@))),
            sorted_by_size(r.items@),
            r.items@.to_multiset() =~= unprotected_items(allowlist@, images@).to_multiset(),
            keeps_order_per_size(r.items@, unprotected_items(allowlist@, images@)),
            !r.is_selected,
    {
        let kept = unprotected(images, allowlist);
        ScanResult::assemble(self.category(), self.description(), to_owned_text("Docker"), kept)
    }
}

} // verus!

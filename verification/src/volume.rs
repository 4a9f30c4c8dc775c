//! The playback volume as the settings file holds it: a decimal number read
//! with Rust's `f32` literal syntax, kept only when finite, clamped to 0..=1,
//! and carried in thousandths (the `{:.3}` precision it is written back with).
//!
//! The value is held in thousandths from the moment it is read: the text's
//! exact decimal value, rounded to the nearest thousandth with halves going up.
//! Floating point has no place here, so this is not the same as keeping the
//! nearest `f32` and printing it with `{:.3}`: that keeps the finer value in
//! between, rounds exact binary halves such as `0.0625` to even (`0.062`, where
//! this gives 63 thousandths), and moves a decimal lying within half an `f32`
//! step of a half-thousandth to the side its `f32` lies on (`0.9995` is stored
//! as 0.99949998, printed `0.999`; here it is 1000). Volumes written with three
//! decimals, as the file writes them, read back the same either way.

use vstd::prelude::*;
use crate::text::{
    all_radix_digits, copy_range, dec, fmt_dec, fmt_fixed, lemma_dec, lemma_fixed_digits, digit_of, digit_value, fixed_digits, is_radix_digit,
    lemma_pow_add, lemma_pow_mono, lemma_pow_pos, lemma_value_bound, lemma_value_concat,
    lemma_value_lower, lemma_value_push, lemma_value_zeros, pow_nat, radix_value,
};

verus! {

// ---- the syntax -------------------------------------------------------------

/// The number of decimal digits `s` starts with.
pub open spec fn leading_digits(s: Seq<char>) -> nat
    decreases s.len(),
{
    if s.len() > 0 && is_radix_digit(s[0], 10) {
        1 + leading_digits(s.drop_first())
    } else {
        0
    }
}

/// An optional leading `'+'` or `'-'`: whether it was `'-'`, and what follows.
pub open spec fn split_sign(s: Seq<char>) -> (bool, Seq<char>) {
    if s.len() > 0 && (s[0] == '+' || s[0] == '-') {
        (s[0] == '-', s.drop_first())
    } else {
        (false, s)
    }
}

/// The exponent part of a float literal: empty, or `e`/`E`, an optional sign
/// and one or more digits.
pub open spec fn parse_exponent(t: Seq<char>) -> Option<int> {
    if t.len() == 0 {
        Some(0)
    } else if t[0] == 'e' || t[0] == 'E' {
        let (neg, d) = split_sign(t.drop_first());
        if d.len() > 0 && all_radix_digits(d, 10) {
            let v = radix_value(d, 10) as int;
            Some(
                if neg {
                    -v
                } else {
                    v
                },
            )
        } else {
            None
        }
    } else {
        None
    }
}

/// A finite decimal literal: the value is `±digits · 10^(exp - frac_len)`.
pub struct Decimal {
    pub neg: bool,
    pub digits: Seq<char>,
    pub frac_len: nat,
    pub exp: int,
}

/// The finite forms of `f32::from_str`: an optional sign, digits with an
/// optional point (at least one digit on either side), and an optional
/// exponent. The other accepted forms (`inf`, `infinity`, `nan`) are not
/// finite and have no place here.
pub open spec fn parse_decimal(s: Seq<char>) -> Option<Decimal> {
    let (neg, body) = split_sign(s);
    let a = leading_digits(body);
    let rest = body.skip(a as int);
    let has_point = rest.len() > 0 && rest[0] == '.';
    let after = if has_point {
        rest.drop_first()
    } else {
        rest
    };
    let b = if has_point {
        leading_digits(after)
    } else {
        0
    };
    let tail = after.skip(b as int);
    if a + b == 0 {
        None
    } else {
        match parse_exponent(tail) {
            Some(e) => Some(
                Decimal { neg, digits: body.take(a as int) + after.take(b as int), frac_len: b, exp: e },
            ),
            None => None,
        }
    }
}

// ---- the value --------------------------------------------------------------

/// The smallest magnitude that `f32` parsing rounds to infinity:
/// `2^128 - 2^103`, halfway between `f32::MAX` and `2^128`.
pub open spec fn f32_overflow() -> nat {
    340282356779733661637539395458142568448
}

/// `m · 10^e >= bound`, for a decimal exponent of either sign.
pub open spec fn scaled_at_least(m: nat, e: int, bound: nat) -> bool {
    if e >= 0 {
        m * pow_nat(10, e as nat) >= bound
    } else {
        m >= bound * pow_nat(10, (-e) as nat)
    }
}

/// `m · 10^e` in thousandths, to the nearest, halves up.
pub open spec fn round_thousandths(m: nat, e: int) -> nat {
    let s = e + 3;
    if s >= 0 {
        m * pow_nat(10, s as nat)
    } else {
        let p = pow_nat(10, (-s) as nat);
        m / p + if 2 * (m % p) >= p {
            1nat
        } else {
            0nat
        }
    }
}

/// The volume, in thousandths, of the finite value `±m · 10^e`; `None` where
/// it is not finite as an `f32`. Negative values clamp to 0, values of 1 and
/// above to 1000.
pub open spec fn volume_of(neg: bool, m: nat, e: int) -> Option<nat> {
    if scaled_at_least(m, e, f32_overflow()) {
        None
    } else if neg || m == 0 {
        Some(0)
    } else if scaled_at_least(m, e, 1) {
        Some(1000)
    } else {
        Some(round_thousandths(m, e))
    }
}

/// The volume, in thousandths, that the text `s` (already trimmed) sets; `None`
/// where it sets none: not a number, or a value that is not finite as an
/// `f32`.
pub open spec fn volume_milli(s: Seq<char>) -> Option<nat> {
    match parse_decimal(s) {
        None => None,
        Some(d) => volume_of(d.neg, radix_value(d.digits, 10), d.exp - d.frac_len),
    }
}

/// The volume as the settings file writes it, `{:.3}` of the thousandths.
pub open spec fn milli_text(v: nat) -> Seq<char> {
    dec(v / 1000) + seq!['.'] + fixed_digits(v % 1000, 3, 10)
}

// ---- arithmetic facts -------------------------------------------------------

proof fn lemma_scaled_mono(m: nat, e: int, lo: nat, hi: nat)
    requires
        lo <= hi,
        scaled_at_least(m, e, hi),
    ensures
        scaled_at_least(m, e, lo),
{
    if e < 0 {
        let p = pow_nat(10, (-e) as nat);
        assert(lo * p <= hi * p) by (nonlinear_arith)
            requires
                lo <= hi,
        ;
    }
}

/// With `10^(L-1) <= m`, `m · 10^e` is at least `10^(L-1+e)`.
proof fn lemma_scaled_lower(m: nat, len: nat, e: int, j: nat)
    requires
        len >= 1,
        m >= pow_nat(10, (len - 1) as nat),
        len - 1 + e >= j,
    ensures
        scaled_at_least(m, e, pow_nat(10, j)),
{
    let l1 = (len - 1) as nat;
    lemma_pow_pos(10, l1);
    if e >= 0 {
        let en = e as nat;
        lemma_pow_add(10, l1, en);
        lemma_pow_mono(10, j, l1 + en);
        lemma_pow_pos(10, en);
        assert(m * pow_nat(10, en) >= pow_nat(10, l1) * pow_nat(10, en)) by (nonlinear_arith)
            requires
                m >= pow_nat(10, l1),
        ;
    } else {
        let en = (-e) as nat;
        assert(l1 == j + en + (l1 - j - en) as nat);
        lemma_pow_add(10, j, en);
        lemma_pow_mono(10, j + en, l1);
    }
}

/// With `m < 10^L`, `m · 10^e` is below `10^(L+e)`.
proof fn lemma_scaled_upper(m: nat, len: nat, e: int, j: nat)
    requires
        m < pow_nat(10, len),
        len + e <= j,
    ensures
        !scaled_at_least(m, e, pow_nat(10, j)),
{
    if e >= 0 {
        let en = e as nat;
        lemma_pow_add(10, len, en);
        lemma_pow_mono(10, len + en, j);
        lemma_pow_pos(10, en);
        assert(m * pow_nat(10, en) < pow_nat(10, len) * pow_nat(10, en)) by (nonlinear_arith)
            requires
                m < pow_nat(10, len),
                pow_nat(10, en) >= 1,
        ;
    } else {
        let en = (-e) as nat;
        if len <= en + j {
            lemma_pow_add(10, j, en);
            lemma_pow_mono(10, len, j + en);
        } else {
            lemma_pow_add(10, j, en);
            lemma_pow_mono(10, len, j + en);
        }
    }
}

proof fn lemma_pow10_38_39()
    ensures
        pow_nat(10, 38) <= f32_overflow() < pow_nat(10, 39),
{
    reveal_with_fuel(pow_nat, 40);
    assert(pow_nat(10, 38) == 100000000000000000000000000000000000000);
    assert(pow_nat(10, 39) == 1000000000000000000000000000000000000000);
}

proof fn lemma_pow10_3()
    ensures
        pow_nat(10, 3) == 1000,
{
    reveal_with_fuel(pow_nat, 4);
}

/// Below 1, the thousandths are at most 1000.
proof fn lemma_round_bound(m: nat, e: int)
    requires
        m >= 1,
        !scaled_at_least(m, e, 1),
    ensures
        round_thousandths(m, e) <= 1000,
{
    lemma_pow_pos(10, 0);
    if e >= 0 {
        lemma_pow_pos(10, e as nat);
        assert(m * pow_nat(10, e as nat) >= 1) by (nonlinear_arith)
            requires
                m >= 1,
                pow_nat(10, e as nat) >= 1,
        ;
    } else {
        let en = (-e) as nat;
        assert(m < pow_nat(10, en));
        let s = e + 3;
        if s >= 0 {
            let sn = s as nat;
            assert(en == (3 - sn) as nat);
            lemma_pow_add(10, (3 - sn) as nat, sn);
            lemma_pow10_3();
            assert(m * pow_nat(10, sn) < pow_nat(10, en) * pow_nat(10, sn)) by (nonlinear_arith)
                requires
                    m < pow_nat(10, en),
                    pow_nat(10, sn) >= 1,
            ;
            lemma_pow_pos(10, sn);
        } else {
            let sn = (-s) as nat;
            let p = pow_nat(10, sn);
            lemma_pow_pos(10, sn);
            assert(en == sn + 3);
            lemma_pow_add(10, sn, 3);
            lemma_pow10_3();
            assert(m / p < 1000) by (nonlinear_arith)
                requires
                    m < p * 1000,
                    p >= 1,
            ;
        }
    }
}

/// Far below a thousandth, the thousandths are 0.
proof fn lemma_round_tiny(m: nat, len: nat, e: int)
    requires
        m < pow_nat(10, len),
        len + e + 3 < 0,
    ensures
        round_thousandths(m, e) == 0,
{
    let sn = (-(e + 3)) as nat;
    let p = pow_nat(10, sn);
    assert(sn >= len + 1);
    lemma_pow_mono(10, len, (sn - 1) as nat);
    assert(p == 10 * pow_nat(10, (sn - 1) as nat));
    assert(m / p == 0) by (nonlinear_arith)
        requires
            m < p,
    ;
    assert(m % p == m) by (nonlinear_arith)
        requires
            m < p,
    ;
}

/// `h · P + t >= T · P` exactly when `h >= T`, for `t < P`.
proof fn lemma_head_compare(h: nat, t: nat, p: nat, bound: nat)
    requires
        t < p,
    ensures
        (h * p + t >= bound * p) == (h >= bound),
{
    if h >= bound {
        assert(h * p >= bound * p) by (nonlinear_arith)
            requires
                h >= bound,
        ;
    } else {
        assert((h + 1) * p <= bound * p) by (nonlinear_arith)
            requires
                h + 1 <= bound,
        ;
        assert((h + 1) * p == h * p + p) by (nonlinear_arith);
    }
}

/// A digit string of length `j >= 1` is at least half of `10^j` exactly when
/// its first digit is at least 5.
proof fn lemma_half_by_first_digit(t: Seq<char>)
    requires
        t.len() >= 1,
        all_radix_digits(t, 10),
    ensures
        (2 * radix_value(t, 10) >= pow_nat(10, t.len())) == (digit_value(t[0]) >= 5),
{
    let a = t.take(1);
    let b = t.skip(1);
    assert(a + b == t);
    lemma_value_concat(a, b, 10);
    assert(a.drop_last() == Seq::<char>::empty());
    assert(a.last() == t[0]);
    assert(radix_value(a.drop_last(), 10) == 0);
    assert(radix_value(a, 10) == radix_value(a.drop_last(), 10) * 10 + digit_value(a.last()) as nat);
    assert(is_radix_digit(t[0], 10));
    let d = digit_value(t[0]) as nat;
    assert(radix_value(a, 10) == d);
    assert(all_radix_digits(b, 10)) by {
        assert forall|i: int| 0 <= i < b.len() implies is_radix_digit(#[trigger] b[i], 10) by {
            assert(b[i] == t[i + 1]);
        }
    }
    lemma_value_bound(b, 10);
    let q = pow_nat(10, b.len());
    assert(pow_nat(10, t.len()) == 10 * q);
    let vb = radix_value(b, 10);
    assert((2 * (d * q + vb) >= 10 * q) == (d >= 5)) by (nonlinear_arith)
        requires
            vb < q,
            d <= 9,
    ;
}

/// Splitting a digit string: the leading `j` digits and the rest.
proof fn lemma_value_split(s: Seq<char>, j: int)
    requires
        0 <= j <= s.len(),
        all_radix_digits(s, 10),
    ensures
        radix_value(s, 10) == radix_value(s.take(j), 10) * pow_nat(10, (s.len() - j) as nat)
            + radix_value(s.skip(j), 10),
        radix_value(s.skip(j), 10) < pow_nat(10, (s.len() - j) as nat),
        radix_value(s.take(j), 10) < pow_nat(10, j as nat),
{
    assert(s.take(j) + s.skip(j) == s);
    lemma_value_concat(s.take(j), s.skip(j), 10);
    assert(all_radix_digits(s.skip(j), 10)) by {
        assert forall|i: int| 0 <= i < s.skip(j).len() implies is_radix_digit(
            #[trigger] s.skip(j)[i],
            10,
        ) by {
            assert(s.skip(j)[i] == s[i + j]);
        }
    }
    assert(all_radix_digits(s.take(j), 10)) by {
        assert forall|i: int| 0 <= i < s.take(j).len() implies is_radix_digit(
            #[trigger] s.take(j)[i],
            10,
        ) by {
            assert(s.take(j)[i] == s[i]);
        }
    }
    lemma_value_bound(s.skip(j), 10);
    lemma_value_bound(s.take(j), 10);
}

/// The thousandths of a value below 1 from its leading digits: the first
/// `L + e + 3` digits, plus one where the next digit is 5 or more.
proof fn lemma_round_digits(s: Seq<char>, e: int)
    requires
        s.len() >= 1,
        all_radix_digits(s, 10),
        e + 3 < 0,
        0 <= s.len() + e + 3 < s.len(),
    ensures
        round_thousandths(radix_value(s, 10), e) == radix_value(s.take(s.len() + e + 3), 10)
            + if digit_value(s[s.len() + e + 3]) >= 5 {
            1nat
        } else {
            0nat
        },
{
    let q = s.len() + e + 3;
    let sn = (-(e + 3)) as nat;
    assert(s.len() - q == sn);
    lemma_value_split(s, q);
    let h = radix_value(s.take(q), 10);
    let t = radix_value(s.skip(q), 10);
    let p = pow_nat(10, sn);
    let m = radix_value(s, 10);
    assert(m == h * p + t);
    assert(m / p == h && m % p == t) by (nonlinear_arith)
        requires
            m == h * p + t,
            t < p,
    {
        vstd::arithmetic::div_mod::lemma_fundamental_div_mod_converse(
            m as int,
            p as int,
            h as int,
            t as int,
        );
    }
    let tail = s.skip(q);
    assert(all_radix_digits(tail, 10)) by {
        assert forall|i: int| 0 <= i < tail.len() implies is_radix_digit(#[trigger] tail[i], 10) by {
            assert(tail[i] == s[i + q]);
        }
    }
    lemma_half_by_first_digit(tail);
    assert(tail[0] == s[q]);
}

// ---- reading ----------------------------------------------------------------

/// The end of the run of decimal digits that starts at `from`.
fn skip_digits(s: &[char], from: usize) -> (r: usize)
    requires
        from <= s@.len(),
    ensures
        r == from + leading_digits(s@.skip(from as int)),
        r <= s@.len(),
        forall|i: int| from <= i < r ==> is_radix_digit(#[trigger] s@[i], 10),
{
    let mut i = from;
    while i < s.len() && 0 <= digit_of(s[i]) && digit_of(s[i]) < 10
        invariant
            from <= i <= s@.len(),
            leading_digits(s@.skip(from as int)) == (i - from) + leading_digits(s@.skip(i as int)),
            forall|j: int| from <= j < i ==> is_radix_digit(#[trigger] s@[j], 10),
        decreases s.len() - i,
    {
        assert(s@.skip(i as int).drop_first() == s@.skip(i + 1));
        i += 1;
    }
    i
}

/// The exponent digits `s[from..]` in decimal, or `None` where they are not
/// one or more digits; a magnitude above `cap` reads as `cap + 1`.
fn read_exponent_digits(s: &[char], from: usize, cap: u128) -> (r: Option<u128>)
    requires
        from <= s@.len(),
        cap < 0xffff_ffff_ffff_ffff_ffff_ffff,
    ensures
        ({
            let d = s@.skip(from as int);
            match r {
                Some(v) => d.len() > 0 && all_radix_digits(d, 10) && v == if radix_value(d, 10)
                    <= cap {
                    radix_value(d, 10)
                } else {
                    (cap + 1) as nat
                },
                None => !(d.len() > 0 && all_radix_digits(d, 10)),
            }
        }),
{
    let n = s.len();
    let ghost d = s@.skip(from as int);
    if from == n {
        return None;
    }
    let mut acc: u128 = 0;
    let mut i = from;
    while i < n
        invariant
            from <= i <= n == s@.len(),
            d == s@.skip(from as int),
            cap < 0xffff_ffff_ffff_ffff_ffff_ffff,
            all_radix_digits(s@.subrange(from as int, i as int), 10),
            acc == if radix_value(s@.subrange(from as int, i as int), 10) <= cap {
                radix_value(s@.subrange(from as int, i as int), 10)
            } else {
                (cap + 1) as nat
            },
        decreases n - i,
    {
        let dv = digit_of(s[i]);
        if dv < 0 || dv >= 10 {
            proof {
                assert(d[i - from] == s@[i as int]);
            }
            return None;
        }
        proof {
            let pre = s@.subrange(from as int, i as int);
            assert(s@.subrange(from as int, i + 1) == pre.push(s@[i as int]));
            lemma_value_push(pre, s@[i as int], 10);
            assert forall|j: int| 0 <= j < i + 1 - from implies is_radix_digit(
                #[trigger] s@.subrange(from as int, i + 1)[j],
                10,
            ) by {
                if j < i - from {
                    assert(s@.subrange(from as int, i + 1)[j] == pre[j]);
                }
            }
        }
        if acc <= cap {
            let next = acc * 10 + dv as u128;
            if next > cap {
                acc = cap + 1;
            } else {
                acc = next;
            }
        } else {
            proof {
                let pre = s@.subrange(from as int, i as int);
                let v = radix_value(pre, 10);
                assert(v * 10 + dv >= v) by (nonlinear_arith)
                    requires
                        dv >= 0,
            ;
            }
        }
        i += 1;
    }
    assert(s@.subrange(from as int, n as int) == d);
    Some(acc)
}

/// `parse_decimal` in terms of the positions where its parts start and end.
proof fn lemma_parse_decimal_at(s: Seq<char>, bs: int, ie: int, fs: int, fe: int)
    requires
        bs == (if s.len() > 0 && (s[0] == '+' || s[0] == '-') {
            1int
        } else {
            0int
        }),
        ie == bs + leading_digits(s.skip(bs)),
        fs == (if ie < s.len() && s[ie] == '.' {
            ie + 1
        } else {
            ie
        }),
        fe == (if ie < s.len() && s[ie] == '.' {
            fs + leading_digits(s.skip(fs))
        } else {
            fs
        }),
        fe <= s.len(),
    ensures
        parse_decimal(s) == (if (ie - bs) + (fe - fs) == 0 {
            None
        } else {
            match parse_exponent(s.skip(fe)) {
                Some(e) => Some(
                    Decimal {
                        neg: bs == 1 && s[0] == '-',
                        digits: s.subrange(bs, ie) + s.subrange(fs, fe),
                        frac_len: (fe - fs) as nat,
                        exp: e,
                    },
                ),
                None => None,
            }
        }),
{
    let body = s.skip(bs);
    assert(split_sign(s).1 == body);
    let a = leading_digits(body);
    assert(body.skip(a as int) == s.skip(ie));
    assert(body.take(a as int) == s.subrange(bs, ie));
    if ie < s.len() && s[ie] == '.' {
        assert(s.skip(ie).drop_first() == s.skip(fs));
        assert(s.skip(fs).take(fe - fs) == s.subrange(fs, fe));
        assert(s.skip(fs).skip(fe - fs) == s.skip(fe));
    } else {
        assert(s.skip(ie).skip(0) == s.skip(fe));
        assert(s.skip(ie).take(0) == s.subrange(fs, fe));
    }
}

/// The exponent part `s[from..]`: its sign and magnitude, where a magnitude
/// above `cap` reads as `cap + 1`; `None` where it is malformed.
fn read_exponent(s: &[char], from: usize, cap: u128) -> (r: Option<(bool, u128)>)
    requires
        from <= s@.len(),
        cap < 0xffff_ffff_ffff_ffff_ffff_ffff,
    ensures
        match parse_exponent(s@.skip(from as int)) {
            None => r is None,
            Some(e) => r matches Some((eneg, emag)) && (e < 0 ==> eneg) && (e > 0 ==> !eneg)
                && emag == (if (if e < 0 {
                -e
            } else {
                e
            }) <= cap {
                (if e < 0 {
                    -e
                } else {
                    e
                }) as nat
            } else {
                (cap + 1) as nat
            }),
        },
{
    let n = s.len();
    let ghost t = s@.skip(from as int);
    if from == n {
        return Some((false, 0));
    }
    if s[from] != 'e' && s[from] != 'E' {
        return None;
    }
    let mut eneg = false;
    let mut j = from + 1;
    assert(t.drop_first() == s@.skip(j as int));
    if j < n && (s[j] == '+' || s[j] == '-') {
        eneg = s[j] == '-';
        j += 1;
        assert(s@.skip((from + 1) as int).drop_first() == s@.skip(j as int));
    }
    assert(split_sign(t.drop_first()) == (eneg, s@.skip(j as int)));
    match read_exponent_digits(s, j, cap) {
        None => None,
        Some(v) => {
            if v == 0 {
                Some((false, 0))
            } else {
                Some((eneg, v))
            }
        },
    }
}

/// The pieces of a float literal: sign, digits (integer then fraction),
/// fraction length, and the exponent (negative flag and magnitude, where a
/// magnitude above `cap` reads as `cap + 1`).
fn read_decimal(s: &[char], cap: u128) -> (r: Option<(bool, Vec<char>, usize, bool, u128)>)
    requires
        cap < 0xffff_ffff_ffff_ffff_ffff_ffff,
    ensures
        match parse_decimal(s@) {
            None => r is None,
            Some(d) => r matches Some((neg, digits, f, eneg, emag)) && neg == d.neg && digits@
                == d.digits && f == d.frac_len && (d.exp < 0 ==> eneg) && (d.exp > 0 ==> !eneg)
                && emag == (if (if d.exp < 0 {
                -d.exp
            } else {
                d.exp
            }) <= cap {
                (if d.exp < 0 {
                    -d.exp
                } else {
                    d.exp
                }) as nat
            } else {
                (cap + 1) as nat
            }) && f <= digits@.len() <= s@.len() && all_radix_digits(digits@, 10),
        },
{
    let n = s.len();
    let mut neg = false;
    let mut bs: usize = 0;
    if n > 0 && (s[0] == '+' || s[0] == '-') {
        neg = s[0] == '-';
        bs = 1;
    }
    let ie = skip_digits(s, bs);
    let has_point = ie < n && s[ie] == '.';
    let mut fs = ie;
    let mut fe = ie;
    if has_point {
        fs = ie + 1;
        fe = skip_digits(s, fs);
    }
    proof {
        lemma_parse_decimal_at(s@, bs as int, ie as int, fs as int, fe as int);
    }
    if ie - bs + (fe - fs) == 0 {
        return None;
    }
    let (eneg, emag) = match read_exponent(s, fe, cap) {
        None => {
            return None;
        },
        Some(p) => p,
    };
    let mut digits: Vec<char> = copy_range(s, bs, ie);
    let mut k: usize = fs;
    while k < fe
        invariant
            fs <= k <= fe <= s@.len(),
            digits@ == s@.subrange(bs as int, ie as int) + s@.subrange(fs as int, k as int),
        decreases fe - k,
    {
        digits.push(s[k]);
        assert(s@.subrange(fs as int, k + 1) == s@.subrange(fs as int, k as int).push(s@[k as int]));
        k += 1;
    }
    assert(all_radix_digits(digits@, 10)) by {
        assert forall|i: int| 0 <= i < digits@.len() implies is_radix_digit(
            #[trigger] digits@[i],
            10,
        ) by {
            if i < ie - bs {
                assert(digits@[i] == s@[bs + i]);
            } else {
                assert(digits@[i] == s@[fs + (i - (ie - bs))]);
            }
        }
    }
    Some((neg, digits, fe - fs, eneg, emag))
}

/// `value(s[..w]) · 10^(39 - w)` for `w = min(len, 39)`: whether it reaches
/// the `f32` overflow bound.
fn head_reaches_overflow(s: &[char]) -> (r: bool)
    requires
        all_radix_digits(s@, 10),
    ensures
        ({
            let w = if s@.len() < 39 {
                s@.len()
            } else {
                39
            };
            r == (radix_value(s@.take(w as int), 10) * pow_nat(10, (39 - w) as nat)
                >= f32_overflow())
        }),
{
    let t: u128 = 340282356779733661637539395458142568448;
    let t10: u128 = 34028235677973366163753939545814256844;
    let w: usize = if s.len() < 39 {
        s.len()
    } else {
        39
    };
    let mut acc: u128 = 0;
    let mut big = false;
    let mut j: usize = 0;
    assert(s@.take(0) == Seq::<char>::empty());
    while j < w
        invariant
            j <= w <= s@.len(),
            w <= 39,
            all_radix_digits(s@, 10),
            !big ==> acc == radix_value(s@.take(j as int), 10) && acc <= t,
            big ==> radix_value(s@.take(j as int), 10) > t,
            t == f32_overflow(),
            t10 == t / 10,
        decreases w - j,
    {
        let dv = digit_of(s[j]);
        assert(is_radix_digit(s@[j as int], 10));
        proof {
            assert(s@.take(j + 1) == s@.take(j as int).push(s@[j as int]));
            lemma_value_push(s@.take(j as int), s@[j as int], 10);
            let v = radix_value(s@.take(j as int), 10);
            assert(v * 10 + dv >= v) by (nonlinear_arith)
                requires
                    dv >= 0,
            ;
        }
        if !big {
            if acc > t10 {
                big = true;
            } else {
                let next = acc * 10 + dv as u128;
                if next > t {
                    big = true;
                } else {
                    acc = next;
                }
            }
        }
        j += 1;
    }
    let mut pw: usize = w;
    let ghost h = radix_value(s@.take(w as int), 10);
    assert(pow_nat(10, 0) == 1);
    assert(h * pow_nat(10, 0) == h);
    while pw < 39
        invariant
            w <= pw <= 39,
            !big ==> acc == h * pow_nat(10, (pw - w) as nat) && acc <= t,
            big ==> h * pow_nat(10, (pw - w) as nat) > t,
            t == f32_overflow(),
            t10 == t / 10,
        decreases 39 - pw,
    {
        let ghost before = h * pow_nat(10, (pw - w) as nat);
        proof {
            assert(pow_nat(10, (pw + 1 - w) as nat) == 10 * pow_nat(10, (pw - w) as nat));
            assert(h * pow_nat(10, (pw + 1 - w) as nat) == 10 * before) by (nonlinear_arith)
                requires
                    pow_nat(10, (pw + 1 - w) as nat) == 10 * pow_nat(10, (pw - w) as nat),
                    before == h * pow_nat(10, (pw - w) as nat),
            ;
        }
        if !big {
            if acc > t10 {
                big = true;
            } else {
                acc = acc * 10;
                if acc > t {
                    big = true;
                }
            }
        }
        pw += 1;
    }
    big || acc == t
}

/// The value of the digits `s` (at most 18 of them).
fn small_value(s: &[char]) -> (r: u64)
    requires
        s@.len() <= 18,
        all_radix_digits(s@, 10),
    ensures
        r == radix_value(s@, 10),
{
    let mut acc: u64 = 0;
    let mut j: usize = 0;
    assert(s@.take(0) == Seq::<char>::empty());
    while j < s.len()
        invariant
            j <= s@.len() <= 18,
            all_radix_digits(s@, 10),
            acc == radix_value(s@.take(j as int), 10),
            acc < pow_nat(10, j as nat),
        decreases s.len() - j,
    {
        let dv = digit_of(s[j]);
        assert(is_radix_digit(s@[j as int], 10));
        proof {
            assert(s@.take(j + 1) == s@.take(j as int).push(s@[j as int]));
            lemma_value_push(s@.take(j as int), s@[j as int], 10);
            lemma_pow_mono(10, j as nat, 17);
            lemma_pow10_17();
            assert(pow_nat(10, (j + 1) as nat) == 10 * pow_nat(10, j as nat));
        }
        acc = acc * 10 + dv as u64;
        j += 1;
    }
    assert(s@.take(s.len() as int) == s@);
    acc
}

proof fn lemma_pow10_17()
    ensures
        pow_nat(10, 17) == 100000000000000000,
{
    reveal_with_fuel(pow_nat, 18);
}

/// The thousandths of `±value(digits) · 10^(e - f)` from the exponent as read:
/// its sign and its magnitude capped at `cap + 1`.
fn decide_volume(
    neg: bool,
    digits: &[char],
    f: usize,
    eneg: bool,
    emag: u128,
    Ghost(e): Ghost<int>,
    cap: u128,
) -> (r: Option<u16>)
    requires
        all_radix_digits(digits@, 10),
        f <= digits@.len(),
        digits@.len() + 100 <= cap < 0x1_0000_0000_0000_0000_0000,
        e < 0 ==> eneg,
        e > 0 ==> !eneg,
        emag == (if (if e < 0 {
            -e
        } else {
            e
        }) <= cap {
            (if e < 0 {
                -e
            } else {
                e
            }) as nat
        } else {
            (cap + 1) as nat
        }),
    ensures
        match volume_of(neg, radix_value(digits@, 10), e - f) {
            Some(v) => r == Some(v as u16) && v <= 1000,
            None => r is None,
        },
{
    let n = digits.len();
    let mut z: usize = 0;
    while z < n && digit_of(digits[z]) == 0
        invariant
            z <= n == digits@.len(),
            forall|i: int| 0 <= i < z ==> digit_value(#[trigger] digits@[i]) == 0,
        decreases n - z,
    {
        z += 1;
    }
    let d = copy_range(digits, z, n);
    let len = n - z;
    let ghost m = radix_value(digits@, 10);
    proof {
        lemma_value_split(digits@, z as int);
        assert forall|i: int| 0 <= i < z implies digit_value(#[trigger] digits@.take(z as int)[i])
            == 0 by {
            assert(digits@.take(z as int)[i] == digits@[i]);
        }
        lemma_value_zeros(digits@.take(z as int), 10);
        assert(digits@.skip(z as int) == d@);
        assert(all_radix_digits(d@, 10)) by {
            assert forall|i: int| 0 <= i < d@.len() implies is_radix_digit(#[trigger] d@[i], 10) by {
                assert(d@[i] == digits@[i + z]);
            }
        }
        assert(m == radix_value(d@, 10));
    }
    if len == 0 {
        proof {
            assert(d@.len() == 0);
            assert(!scaled_at_least(0, e - f, f32_overflow())) by {
                if e - f < 0 {
                    lemma_pow_pos(10, (-(e - f)) as nat);
                }
            }
        }
        return Some(0);
    }
    proof {
        assert(d@[0] == digits@[z as int]);
        assert(is_radix_digit(d@[0], 10));
        lemma_value_lower(d@, 10);
        lemma_value_bound(d@, 10);
    }
    let ghost ex_true = e - f;
    let mag: i128 = emag as i128;
    let ex: i128 = (if eneg {
        -mag
    } else {
        mag
    }) - f as i128;
    let k: i128 = len as i128 + ex;
    let ghost k_true = len + ex_true;
    proof {
        if (if e < 0 {
            -e
        } else {
            e
        }) <= cap {
            assert(ex == ex_true);
        } else if e > 0 {
            assert(ex <= ex_true);
            assert(k >= 102);
        } else {
            assert(ex >= ex_true);
            assert(k <= -101);
        }
        lemma_pow10_38_39();
    }
    if k >= 40 {
        proof {
            assert(k_true >= 40);
            lemma_scaled_lower(m, len as nat, ex_true, 39);
            lemma_scaled_mono(m, ex_true, f32_overflow(), pow_nat(10, 39));
        }
        return None;
    }
    if k == 39 {
        let over = head_reaches_overflow(&d);
        proof {
            assert(ex == ex_true);
            let w = if d@.len() < 39 {
                d@.len()
            } else {
                39
            };
            if len <= 39 {
                assert(d@.take(len as int) == d@);
                assert(ex_true == 39 - len);
            } else {
                lemma_value_split(d@, 39);
                let h = radix_value(d@.take(39), 10);
                assert(h * pow_nat(10, 0) == h) by (nonlinear_arith)
                    requires
                        pow_nat(10, 0) == 1,
                ;
                lemma_head_compare(
                    radix_value(d@.take(39), 10),
                    radix_value(d@.skip(39), 10),
                    pow_nat(10, (len - 39) as nat),
                    f32_overflow(),
                );
                assert(pow_nat(10, 0) == 1);
            }
        }
        if over {
            return None;
        }
    } else {
        proof {
            assert(k_true <= 38);
            lemma_scaled_upper(m, len as nat, ex_true, 38);
            if scaled_at_least(m, ex_true, f32_overflow()) {
                lemma_scaled_mono(m, ex_true, pow_nat(10, 38), f32_overflow());
            }
        }
    }
    if neg {
        return Some(0);
    }
    if k >= 1 {
        proof {
            assert(ex == ex_true);
            lemma_scaled_lower(m, len as nat, ex_true, 0);
            assert(pow_nat(10, 0) == 1);
        }
        return Some(1000);
    }
    proof {
        assert(k_true <= 0);
        lemma_scaled_upper(m, len as nat, ex_true, 0);
        assert(pow_nat(10, 0) == 1);
        lemma_round_bound(m, ex_true);
    }
    let q: i128 = k + 3;
    if q < 0 {
        proof {
            lemma_round_tiny(m, len as nat, ex_true);
        }
        return Some(0);
    }
    proof {
        assert(ex == ex_true);
    }
    let s3: i128 = ex + 3;
    if s3 >= 0 {
        let v = small_value(&d);
        let mut r: u64 = v;
        let mut i: i128 = 0;
        while i < s3
            invariant
                0 <= i <= s3 <= 3,
                r == v * pow_nat(10, i as nat),
                v < pow_nat(10, len as nat),
                len + s3 <= 3,
            decreases s3 - i,
        {
            proof {
                assert(pow_nat(10, (i + 1) as nat) == 10 * pow_nat(10, i as nat));
                lemma_pow_add(10, len as nat, i as nat);
                lemma_pow_mono(10, (len + i) as nat, 3);
                lemma_pow10_3();
                assert(v * pow_nat(10, i as nat) < pow_nat(10, len as nat) * pow_nat(10, i as nat))
                    by (nonlinear_arith)
                    requires
                        v < pow_nat(10, len as nat),
                        pow_nat(10, i as nat) >= 1,
                ;
                lemma_pow_pos(10, i as nat);
                assert(v * pow_nat(10, (i + 1) as nat) == 10 * (v * pow_nat(10, i as nat)))
                    by (nonlinear_arith)
                    requires
                        pow_nat(10, (i + 1) as nat) == 10 * pow_nat(10, i as nat),
                ;
            }
            r = r * 10;
            i += 1;
        }
        Some(r as u16)
    } else {
        let qu = q as usize;
        let head = copy_range(&d, 0, qu);
        let hv = small_value(&head);
        let bump: u64 = if digit_of(d[qu]) >= 5 {
            1
        } else {
            0
        };
        proof {
            assert(head@ == d@.take(qu as int));
            lemma_round_digits(d@, ex_true);
        }
        Some((hv + bump) as u16)
    }
}

/// The volume in thousandths that the (trimmed) text `s` sets, or `None` where
/// it sets none.
pub fn parse_volume(s: &[char]) -> (r: Option<u16>)
    ensures
        match volume_milli(s@) {
            Some(v) => r == Some(v as u16) && v <= 1000,
            None => r is None,
        },
{
    let cap: u128 = s.len() as u128 + 100;
    match read_decimal(s, cap) {
        None => None,
        Some((neg, digits, f, eneg, emag)) => {
            let ghost d = parse_decimal(s@).unwrap();
            decide_volume(neg, &digits, f, eneg, emag, Ghost(d.exp), cap)
        },
    }
}

// ---- writing ----------------------------------------------------------------

/// The volume as `{:.3}` writes it.
pub fn fmt_volume(v: u16) -> (out: Vec<char>)
    ensures
        out@ == milli_text(v as nat),
{
    let mut out = fmt_dec((v / 1000) as u64);
    out.push('.');
    let frac = fmt_fixed((v % 1000) as u64, 3, 10);
    let mut i: usize = 0;
    let ghost start = out@;
    while i < frac.len()
        invariant
            i <= frac@.len(),
            out@ == start + frac@.take(i as int),
        decreases frac.len() - i,
    {
        out.push(frac[i]);
        assert(frac@.take(i + 1) == frac@.take(i as int).push(frac@[i as int]));
        i += 1;
    }
    assert(frac@.take(frac.len() as int) == frac@);
    out
}

proof fn lemma_leading_digits_concat(a: Seq<char>, b: Seq<char>)
    requires
        all_radix_digits(a, 10),
    ensures
        leading_digits(a + b) == a.len() + leading_digits(b),
    decreases a.len(),
{
    if a.len() > 0 {
        assert((a + b)[0] == a[0]);
        assert((a + b).drop_first() == a.drop_first() + b);
        assert(all_radix_digits(a.drop_first(), 10)) by {
            assert forall|i: int| 0 <= i < a.drop_first().len() implies is_radix_digit(
                #[trigger] a.drop_first()[i],
                10,
            ) by {
                assert(a.drop_first()[i] == a[i + 1]);
            }
        }
        lemma_leading_digits_concat(a.drop_first(), b);
    } else {
        assert(a + b == b);
    }
}

/// Whatever a text sets the volume to is at most 1000 thousandths.
pub proof fn lemma_volume_at_most_one(s: Seq<char>)
    ensures
        volume_milli(s) matches Some(v) ==> v <= 1000,
{
    if let Some(d) = parse_decimal(s) {
        let m = radix_value(d.digits, 10);
        let e = d.exp - d.frac_len;
        if !scaled_at_least(m, e, f32_overflow()) && !(d.neg || m == 0) && !scaled_at_least(
            m,
            e,
            1,
        ) {
            lemma_round_bound(m, e);
        }
    }
}

/// Reading back what `fmt_volume` writes gives the same volume.
pub proof fn lemma_volume_round_trip(v: nat)
    requires
        v <= 1000,
    ensures
        volume_milli(milli_text(v)) == Some(v),
{
    let q = v / 1000;
    let r = v % 1000;
    let a = dec(q);
    let f = fixed_digits(r, 3, 10);
    let s = milli_text(v);
    lemma_dec(q);
    lemma_fixed_digits(r, 3, 10);
    lemma_pow10_3();
    assert(s == a + (seq!['.'] + f));
    assert(s[0] == a[0]);
    assert(is_radix_digit(a[0], 10));
    assert(split_sign(s) == (false, s));
    lemma_leading_digits_concat(a, seq!['.'] + f);
    assert(digit_value('.') == -1);
    assert(leading_digits(seq!['.'] + f) == 0);
    assert(s.skip(a.len() as int) == seq!['.'] + f);
    assert((seq!['.'] + f).drop_first() == f);
    lemma_leading_digits_concat(f, Seq::<char>::empty());
    assert(f + Seq::<char>::empty() == f);
    assert(leading_digits(Seq::<char>::empty()) == 0);
    assert(f.skip(3) == Seq::<char>::empty());
    assert(s.take(a.len() as int) == a);
    assert(f.take(3) == f);
    let d = parse_decimal(s).unwrap();
    assert(d.digits == a + f);
    assert(d.exp == 0);
    assert(d.frac_len == 3);
    lemma_value_concat(a, f, 10);
    assert(radix_value(a + f, 10) == v);
    assert(!scaled_at_least(v, -3, f32_overflow()));
    if v > 0 && v < 1000 {
        assert(!scaled_at_least(v, -3, 1));
        assert(pow_nat(10, 0) == 1);
        assert(round_thousandths(v, -3) == v * pow_nat(10, 0));
    }
}

} // verus!

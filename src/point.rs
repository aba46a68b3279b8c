//! A location in the plane, truncated to a fixed decimal precision.

use vstd::arithmetic::div_mod::{
    lemma_div_nonincreasing, lemma_fundamental_div_mod_converse_div, lemma_mod_breakdown,
};
use vstd::prelude::*;

verus! {

/// Number of decimal places a canonical coordinate keeps.
pub const DECIMALS: u32 = 3;

/// A location whose coordinates were truncated toward zero to `DECIMALS` decimal places.
///
/// Each coordinate is held as a whole number of units of `10^-DECIMALS`, so `x == 1234`
/// stands for `1.234`. Equality of points is equality of these integers: two points are the
/// same location exactly when their keys are equal.
#[derive(Clone, Copy, Debug, PartialEq, Eq, Structural, Hash)]
pub struct Point {
    pub x: i64,
    pub y: i64,
}

/// `10^n`.
pub open spec fn pow10(n: nat) -> int
    decreases n,
{
    if n == 0 {
        1
    } else {
        10 * pow10((n - 1) as nat)
    }
}

/// `v / d`, rounded toward zero.
pub open spec fn div_toward_zero(v: int, d: int) -> int {
    if v >= 0 {
        v / d
    } else {
        -((-v) / d)
    }
}

/// The coordinate `v * 10^-decimals`, in units of `10^-DECIMALS`, truncated toward zero.
pub open spec fn truncated(v: int, decimals: nat) -> int {
    if decimals >= DECIMALS {
        div_toward_zero(v, pow10((decimals - DECIMALS) as nat))
    } else {
        v * pow10((DECIMALS - decimals) as nat)
    }
}

pub open spec fn fits_i64(v: int) -> bool {
    i64::MIN <= v <= i64::MAX
}

pub proof fn lemma_pow10_positive(n: nat)
    ensures
        pow10(n) >= 1,
    decreases n,
{
    if n > 0 {
        lemma_pow10_positive((n - 1) as nat);
    }
}

proof fn lemma_pow10_monotone(a: nat, b: nat)
    requires
        a <= b,
    ensures
        pow10(a) <= pow10(b),
    decreases b,
{
    if a < b {
        lemma_pow10_monotone(a, (b - 1) as nat);
        lemma_pow10_positive((b - 1) as nat);
    }
}

/// `10^n` for an exponent small enough that the power fits in a `u64`.
fn power_of_ten(n: u32) -> (r: u64)
    requires
        n <= 18,
    ensures
        r == pow10(n as nat),
{
    let mut r: u64 = 1;
    let mut i: u32 = 0;
    while i < n
        invariant
            i <= n <= 18,
            r == pow10(i as nat),
        decreases n - i,
    {
        proof {
            lemma_pow10_monotone((i + 1) as nat, 18);
            reveal_with_fuel(pow10, 19);
            assert(pow10(18) == 1_000_000_000_000_000_000int);
        }
        r = r * 10;
        i = i + 1;
    }
    r
}

/// One coordinate given with `decimals` decimal places, brought to `DECIMALS` places.
fn truncate_coordinate(v: i64, decimals: u32) -> (r: i64)
    requires
        decimals <= 18,
        decimals < DECIMALS ==> fits_i64(truncated(v as int, decimals as nat)),
    ensures
        r == truncated(v as int, decimals as nat),
{
    if decimals >= DECIMALS {
        let f = power_of_ten(decimals - DECIMALS);
        proof {
            lemma_pow10_positive((decimals - DECIMALS) as nat);
        }
        if v >= 0 {
            let q = (v as u64) / f;
            proof {
                lemma_div_nonincreasing(v as int, f as int);
            }
            q as i64
        } else {
            let m: u64 = (-(v as i128)) as u64;
            let q = m / f;
            proof {
                lemma_div_nonincreasing(m as int, f as int);
            }
            (-(q as i128)) as i64
        }
    } else {
        let f = power_of_ten(DECIMALS - decimals);
        ((v as i128) * (f as i128)) as i64
    }
}

impl Point {
    /// The point at `(x * 10^-decimals, y * 10^-decimals)`, each coordinate truncated toward
    /// zero to `DECIMALS` decimal places.
    pub fn new(x: i64, y: i64, decimals: u32) -> (r: Point)
        requires
            decimals <= 18,
            decimals < DECIMALS ==> fits_i64(truncated(x as int, decimals as nat)),
            decimals < DECIMALS ==> fits_i64(truncated(y as int, decimals as nat)),
        ensures
            r.x == truncated(x as int, decimals as nat),
            r.y == truncated(y as int, decimals as nat),
    {
        Point { x: truncate_coordinate(x, decimals), y: truncate_coordinate(y, decimals) }
    }
}

/// Truncation is idempotent: a point built again from the coordinates of a point, at the
/// canonical precision, is that same point.
pub proof fn lemma_truncation_idempotent(v: int, decimals: nat)
    ensures
        truncated(truncated(v, decimals), DECIMALS as nat) == truncated(v, decimals),
{
    assert(pow10(0) == 1);
}

/// Two raw coordinates that agree in sign and in every digit down to the last canonical
/// decimal place, and differ only in the digits below it, truncate to the same value.
pub proof fn lemma_digits_below_precision_ignored(q: int, r1: int, r2: int, decimals: nat)
    requires
        decimals >= DECIMALS,
        0 <= r1 < pow10((decimals - DECIMALS) as nat),
        0 <= r2 < pow10((decimals - DECIMALS) as nat),
    ensures
        q >= 0 ==> truncated(q * pow10((decimals - DECIMALS) as nat) + r1, decimals)
            == truncated(q * pow10((decimals - DECIMALS) as nat) + r2, decimals),
        q <= 0 ==> truncated(q * pow10((decimals - DECIMALS) as nat) - r1, decimals)
            == truncated(q * pow10((decimals - DECIMALS) as nat) - r2, decimals),
        truncated(q * pow10((decimals - DECIMALS) as nat), decimals) == q,
{
    let f = pow10((decimals - DECIMALS) as nat);
    lemma_pow10_positive((decimals - DECIMALS) as nat);
    if q >= 0 {
        assert(q * f >= 0) by (nonlinear_arith)
            requires
                q >= 0,
                f >= 1,
        ;
        lemma_fundamental_div_mod_converse_div(q * f + r1, f, q, r1);
        lemma_fundamental_div_mod_converse_div(q * f + r2, f, q, r2);
        lemma_fundamental_div_mod_converse_div(q * f, f, q, 0);
    }
    if q <= 0 {
        let n = -q;
        assert(-(q * f - r1) == n * f + r1 && -(q * f - r2) == n * f + r2 && -(q * f) == n * f)
            by (nonlinear_arith)
            requires
                n == -q,
        ;
        assert(n * f >= 0) by (nonlinear_arith)
            requires
                n >= 0,
                f >= 1,
        ;
        lemma_fundamental_div_mod_converse_div(n * f + r1, f, n, r1);
        lemma_fundamental_div_mod_converse_div(n * f + r2, f, n, r2);
        lemma_fundamental_div_mod_converse_div(n * f, f, n, 0);
    }
}

/// The character of the decimal digit `d`.
pub open spec fn digit_char(d: nat) -> char {
    if d == 0 {
        '0'
    } else if d == 1 {
        '1'
    } else if d == 2 {
        '2'
    } else if d == 3 {
        '3'
    } else if d == 4 {
        '4'
    } else if d == 5 {
        '5'
    } else if d == 6 {
        '6'
    } else if d == 7 {
        '7'
    } else if d == 8 {
        '8'
    } else {
        '9'
    }
}

/// `n` in decimal, without leading zeros.
pub open spec fn decimal_text(n: nat) -> Seq<char>
    decreases n,
{
    if n < 10 {
        seq![digit_char(n)]
    } else {
        decimal_text(n / 10).push(digit_char(n % 10))
    }
}

/// The last `width` decimal digits of `n`, padded with zeros on the left.
pub open spec fn fraction_text(n: nat, width: nat) -> Seq<char>
    decreases width,
{
    if width == 0 {
        seq![]
    } else {
        fraction_text(n / 10, (width - 1) as nat).push(digit_char(n % 10))
    }
}

/// A canonical coordinate written as a decimal number with exactly `DECIMALS` decimal places,
/// such as `-12.050`.
pub open spec fn coordinate_text(v: int) -> Seq<char> {
    let m = if v < 0 {
        -v
    } else {
        v
    };
    let scale = pow10(DECIMALS as nat);
    let sign = if v < 0 {
        seq!['-']
    } else {
        Seq::empty()
    };
    sign + decimal_text((m / scale) as nat) + seq!['.'] + fraction_text((m % scale) as nat, DECIMALS as nat)
}

/// The key of a point: its two coordinates separated by one space.
pub open spec fn key_text(p: Point) -> Seq<char> {
    coordinate_text(p.x as int) + seq![' '] + coordinate_text(p.y as int)
}

fn digit_str(d: u64) -> (r: &'static str)
    requires
        d < 10,
    ensures
        r@ == seq![digit_char(d as nat)],
{
    proof {
        reveal_strlit("0");
        reveal_strlit("1");
        reveal_strlit("2");
        reveal_strlit("3");
        reveal_strlit("4");
        reveal_strlit("5");
        reveal_strlit("6");
        reveal_strlit("7");
        reveal_strlit("8");
        reveal_strlit("9");
    }
    match d {
        0 => "0",
        1 => "1",
        2 => "2",
        3 => "3",
        4 => "4",
        5 => "5",
        6 => "6",
        7 => "7",
        8 => "8",
        _ => "9",
    }
}

fn append_decimal(s: &mut String, n: u64)
    ensures
        final(s)@ == old(s)@ + decimal_text(n as nat),
    decreases n,
{
    if n >= 10 {
        append_decimal(s, n / 10);
    }
    s.append(digit_str(n % 10));
    assert(final(s)@ =~= old(s)@ + decimal_text(n as nat));
}

fn append_fraction(s: &mut String, n: u64, width: u32)
    ensures
        final(s)@ == old(s)@ + fraction_text(n as nat, width as nat),
    decreases width,
{
    if width > 0 {
        append_fraction(s, n / 10, width - 1);
        s.append(digit_str(n % 10));
    }
    assert(final(s)@ =~= old(s)@ + fraction_text(n as nat, width as nat));
}

fn append_coordinate(s: &mut String, v: i64)
    ensures
        final(s)@ == old(s)@ + coordinate_text(v as int),
{
    let ghost start = s@;
    let m: u64 = if v < 0 {
        (-(v as i128)) as u64
    } else {
        v as u64
    };
    if v < 0 {
        proof {
            reveal_strlit("-");
        }
        s.append("-");
    }
    let scale = power_of_ten(DECIMALS);
    proof {
        reveal_strlit(".");
        reveal_with_fuel(pow10, 4);
    }
    append_decimal(s, m / scale);
    s.append(".");
    append_fraction(s, m % scale, DECIMALS);
    assert(s@ =~= start + coordinate_text(v as int));
}

impl Point {
    /// The canonical text of this point, used to show it: `"<x> <y>"` with each coordinate
    /// written with exactly `DECIMALS` decimal places.
    pub fn key(&self) -> (r: String)
        ensures
            r@ == key_text(*self),
    {
        let mut s = String::new();
        append_coordinate(&mut s, self.x);
        proof {
            reveal_strlit(" ");
        }
        s.append(" ");
        append_coordinate(&mut s, self.y);
        assert(s@ =~= key_text(*self));
        s
    }
}

/// `c` is one of the ten decimal digits.
pub open spec fn is_digit(c: char) -> bool {
    c != '-' && c != '.' && c != ' ' && exists|d: nat| d < 10 && digit_char(d) == c
}

proof fn lemma_digit_char(a: nat, b: nat)
    requires
        a < 10,
        b < 10,
    ensures
        is_digit(digit_char(a)),
        digit_char(a) == digit_char(b) ==> a == b,
{
}

proof fn lemma_decimal_text(n: nat)
    ensures
        decimal_text(n).len() >= 1,
        n < 10 <==> decimal_text(n).len() == 1,
        forall|i: int| 0 <= i < decimal_text(n).len() ==> is_digit(#[trigger] decimal_text(n)[i]),
    decreases n,
{
    lemma_digit_char(n % 10, 0);
    if n >= 10 {
        lemma_decimal_text(n / 10);
        let t = decimal_text(n);
        assert forall|i: int| 0 <= i < t.len() implies is_digit(#[trigger] t[i]) by {
            if i < t.len() - 1 {
                assert(t[i] == decimal_text(n / 10)[i]);
            }
        }
    }
}

proof fn lemma_decimal_text_injective(m: nat, n: nat)
    requires
        decimal_text(m) == decimal_text(n),
    ensures
        m == n,
    decreases m,
{
    lemma_decimal_text(m);
    lemma_decimal_text(n);
    if m < 10 {
        assert(n < 10);
        assert(decimal_text(m)[0] == digit_char(m));
        assert(decimal_text(n)[0] == digit_char(n));
        lemma_digit_char(m, n);
        assert(m == n);
    } else {
        assert(decimal_text(m).drop_last() =~= decimal_text(m / 10));
        assert(decimal_text(n).drop_last() =~= decimal_text(n / 10));
        lemma_decimal_text_injective(m / 10, n / 10);
        assert(m / 10 == n / 10);
        assert(decimal_text(m).last() == decimal_text(n).last());
        assert(decimal_text(m).last() == digit_char(m % 10));
        assert(decimal_text(n).last() == digit_char(n % 10));
        lemma_digit_char(m % 10, n % 10);
        assert(m % 10 == n % 10);
        assert(m == 10 * (m / 10) + m % 10);
        assert(n == 10 * (n / 10) + n % 10);
        assert(m == n);
    }
}

proof fn lemma_fraction_text(n: nat, width: nat)
    ensures
        fraction_text(n, width).len() == width,
        forall|i: int|
            0 <= i < fraction_text(n, width).len() ==> is_digit(#[trigger] fraction_text(n, width)[i]),
    decreases width,
{
    if width > 0 {
        lemma_fraction_text(n / 10, (width - 1) as nat);
        lemma_digit_char(n % 10, 0);
        let t = fraction_text(n, width);
        assert forall|i: int| 0 <= i < t.len() implies is_digit(#[trigger] t[i]) by {
            if i < t.len() - 1 {
                assert(t[i] == fraction_text(n / 10, (width - 1) as nat)[i]);
            }
        }
    }
}

proof fn lemma_fraction_text_injective(m: nat, n: nat, width: nat)
    requires
        fraction_text(m, width) == fraction_text(n, width),
    ensures
        (m as int) % pow10(width) == (n as int) % pow10(width),
    decreases width,
{
    if width > 0 {
        let w1 = (width - 1) as nat;
        assert(fraction_text(m, width).drop_last() =~= fraction_text(m / 10, w1));
        assert(fraction_text(n, width).drop_last() =~= fraction_text(n / 10, w1));
        lemma_fraction_text_injective(m / 10, n / 10, w1);
        let pw = pow10(w1);
        assert(fraction_text(m, width).last() == fraction_text(n, width).last());
        assert(fraction_text(m, width).last() == digit_char(m % 10));
        assert(fraction_text(n, width).last() == digit_char(n % 10));
        lemma_digit_char(m % 10, n % 10);
        assert(m % 10 == n % 10);
        assert(((m / 10) as int) % pw == ((n / 10) as int) % pw);
        lemma_pow10_positive(w1);
        lemma_mod_breakdown(m as int, 10, pw);
        lemma_mod_breakdown(n as int, 10, pw);
        assert((m as int) % (10 * pw) == 10 * (((m as int) / 10) % pw) + (m as int) % 10);
        assert((n as int) % (10 * pw) == 10 * (((n as int) / 10) % pw) + (n as int) % 10);
        assert(pow10(width) == 10 * pw);
    } else {
        assert(pow10(0) == 1);
        assert((m as int) % 1 == 0 && (n as int) % 1 == 0);
    }
}

proof fn lemma_coordinate_text_injective(u: int, v: int)
    requires
        coordinate_text(u) == coordinate_text(v),
    ensures
        u == v,
{
    let scale = pow10(DECIMALS as nat);
    assert(scale == 1000) by {
        reveal_with_fuel(pow10, 4);
    }
    let mu = if u < 0 {
        -u
    } else {
        u
    };
    let mv = if v < 0 {
        -v
    } else {
        v
    };
    let du = decimal_text((mu / scale) as nat);
    let dv = decimal_text((mv / scale) as nat);
    let fu = fraction_text((mu % scale) as nat, DECIMALS as nat);
    let fv = fraction_text((mv % scale) as nat, DECIMALS as nat);
    lemma_decimal_text((mu / scale) as nat);
    lemma_decimal_text((mv / scale) as nat);
    lemma_fraction_text((mu % scale) as nat, DECIMALS as nat);
    lemma_fraction_text((mv % scale) as nat, DECIMALS as nat);
    let t = coordinate_text(u);
    let su: int = if u < 0 {
        1
    } else {
        0
    };
    let sv: int = if v < 0 {
        1
    } else {
        0
    };
    // The first character is a sign exactly when the number is negative.
    assert(t[0] == '-' <==> u < 0) by {
        if u >= 0 {
            assert(t[0] == du[0]);
        }
    }
    assert(t[0] == '-' <==> v < 0) by {
        if v >= 0 {
            assert(coordinate_text(v)[0] == dv[0]);
        }
    }
    assert(su == sv);
    // The last characters are the fraction, and the digits between are the whole part.
    assert(t.subrange(t.len() - 3, t.len() as int) =~= fu);
    assert(coordinate_text(v).subrange(t.len() - 3, t.len() as int) =~= fv);
    assert(t.subrange(su, t.len() - 4) =~= du);
    assert(coordinate_text(v).subrange(sv, t.len() - 4) =~= dv);
    lemma_decimal_text_injective((mu / scale) as nat, (mv / scale) as nat);
    lemma_fraction_text_injective((mu % scale) as nat, (mv % scale) as nat, DECIMALS as nat);
    assert(mu == mv);
}

/// The key of a point identifies it: two points are the same location exactly when their
/// keys are equal.
pub proof fn lemma_key_identifies_point(p: Point, q: Point)
    ensures
        key_text(p) == key_text(q) <==> p == q,
{
    if key_text(p) == key_text(q) {
        let kp = key_text(p);
        let a = coordinate_text(p.x as int);
        let b = coordinate_text(q.x as int);
        lemma_coordinate_has_no_space(p.x as int);
        lemma_coordinate_has_no_space(q.x as int);
        lemma_coordinate_has_no_space(p.y as int);
        lemma_coordinate_has_no_space(q.y as int);
        assert(kp[a.len() as int] == ' ');
        assert(kp[b.len() as int] == ' ');
        if a.len() < b.len() {
            assert(kp[a.len() as int] == b[a.len() as int]);
        }
        if b.len() < a.len() {
            assert(kp[b.len() as int] == a[b.len() as int]);
        }
        assert(kp.subrange(0, a.len() as int) =~= a);
        assert(key_text(q).subrange(0, b.len() as int) =~= b);
        assert(kp.subrange(a.len() as int + 1, kp.len() as int) =~= coordinate_text(p.y as int));
        assert(key_text(q).subrange(b.len() as int + 1, kp.len() as int) =~= coordinate_text(q.y as int));
        lemma_coordinate_text_injective(p.x as int, q.x as int);
        lemma_coordinate_text_injective(p.y as int, q.y as int);
    }
}

proof fn lemma_coordinate_has_no_space(v: int)
    ensures
        forall|i: int|
            0 <= i < coordinate_text(v).len() ==> #[trigger] coordinate_text(v)[i] != ' ',
{
    let scale = pow10(DECIMALS as nat);
    let m = if v < 0 {
        -v
    } else {
        v
    };
    lemma_decimal_text((m / scale) as nat);
    lemma_fraction_text((m % scale) as nat, DECIMALS as nat);
}

} // verus!

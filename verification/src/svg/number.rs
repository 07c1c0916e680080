//! Decimal numbers as SVG writes them.
//!
//! A number stays the text it was written as; what is decided here is where it
//! ends and whether it is one a binary64 coordinate can hold: a number that
//! rounds past the largest finite one is refused rather than read as infinity.

use vstd::prelude::*;
use vstd::arithmetic::power2::pow2;
use crate::text;
use super::markup;

verus! {

pub open spec fn is_digit(c: char) -> bool {
    '0' <= c <= '9'
}

/// What a digit stands for.
pub open spec fn digit_value(c: char) -> nat {
    (c as int - 48) as nat
}

/// A row of digits as a number.
pub open spec fn natural(s: Seq<char>) -> nat
    decreases s.len(),
{
    if s.len() == 0 {
        0
    } else {
        natural(s.drop_last()) * 10 + digit_value(s.last())
    }
}

/// Past the digits from `i` on.
pub open spec fn digits_end(s: Seq<char>, i: int) -> int
    decreases s.len() - i,
{
    if 0 <= i < s.len() && is_digit(s[i]) {
        digits_end(s, i + 1)
    } else {
        i
    }
}

/// Past the sign at `i`, where there is one.
pub open spec fn sign_end(s: Seq<char>, i: int) -> int {
    if markup::is_at(s, i, '+') || markup::is_at(s, i, '-') {
        i + 1
    } else {
        i
    }
}

/// Past the whole digits of a number at `i`.
pub open spec fn whole_end(s: Seq<char>, i: int) -> int {
    digits_end(s, sign_end(s, i))
}

/// Past the digits on either side of the point of a number at `i`.
pub open spec fn mantissa_end(s: Seq<char>, i: int) -> int {
    let b = whole_end(s, i);
    if markup::is_at(s, b, '.') {
        digits_end(s, b + 1)
    } else {
        b
    }
}

/// The digits of a number at `i` without its point.
pub open spec fn mantissa(s: Seq<char>, i: int) -> Seq<char> {
    let a = sign_end(s, i);
    let b = whole_end(s, i);
    if markup::is_at(s, b, '.') {
        s.subrange(a, b) + s.subrange(b + 1, mantissa_end(s, i))
    } else {
        s.subrange(a, b)
    }
}

/// The digits of the exponent that follows a mantissa ending at `c`. One
/// without digits is none.
pub open spec fn exponent_at(s: Seq<char>, c: int) -> Option<(int, int)> {
    if markup::is_at(s, c, 'e') || markup::is_at(s, c, 'E') {
        let d = sign_end(s, c + 1);
        if digits_end(s, d) > d {
            Some((d, digits_end(s, d)))
        } else {
            None
        }
    } else {
        None
    }
}

/// Where the number at `i` ends, if there is one: a sign, digits with a point
/// anywhere among them, and an exponent.
pub open spec fn number_end(s: Seq<char>, i: int) -> Option<int> {
    if mantissa(s, i).len() == 0 {
        None
    } else {
        match exponent_at(s, mantissa_end(s, i)) {
            Some((_, e)) => Some(e),
            None => Some(mantissa_end(s, i)),
        }
    }
}

/// The power of ten that the mantissa of the number at `i` is multiplied by.
pub open spec fn power(s: Seq<char>, i: int) -> int {
    let b = whole_end(s, i);
    let c = mantissa_end(s, i);
    let places = if c > b {
        c - b - 1
    } else {
        0
    };
    match exponent_at(s, c) {
        Some((d, e)) => if markup::is_at(s, c + 1, '-') {
            -natural(s.subrange(d, e)) - places
        } else {
            natural(s.subrange(d, e)) - places
        },
        None => -places,
    }
}

/// Ten to the power `n`; 1 for a power that is not positive.
pub open spec fn ten(n: int) -> nat
    decreases n,
{
    if n <= 0 {
        1
    } else {
        10 * ten(n - 1)
    }
}

/// The smallest number that rounds to infinity: half a step above the largest
/// finite one.
pub open spec fn limit() -> nat {
    (pow2(970) * (pow2(54) - 1)) as nat
}

/// Five to the power `n`.
pub open spec fn five(n: int) -> nat
    decreases n,
{
    if n <= 0 {
        1
    } else {
        5 * five(n - 1)
    }
}

/// Whether `m * 10^e` is more than `bound`, or just as much.
pub open spec fn passes(m: nat, e: int, bound: nat, equal: bool) -> bool {
    let a = m * ten(e);
    let b = bound * ten(-e);
    a > b || (equal && a == b)
}

/// Whether `m * 10^e` rounds to infinity.
pub open spec fn overflows(m: nat, e: int) -> bool {
    passes(m, e, limit(), true)
}

/// Whether `m * 10^e` rounds to more than zero: it is more than half the
/// smallest number, `2^-1075`, which is `5^1075 / 10^1075`.
pub open spec fn stays_positive(m: nat, e: int) -> bool {
    passes(m, e + 1075, five(1075), false)
}

/// Whether the number at `i` is past the largest finite one.
pub open spec fn too_large(s: Seq<char>, i: int) -> bool {
    overflows(natural(mantissa(s, i)), power(s, i))
}

/// Whether the number at `i` is more than zero as a binary64.
pub open spec fn positive(s: Seq<char>, i: int) -> bool {
    !markup::is_at(s, i, '-') && stays_positive(natural(mantissa(s, i)), power(s, i))
}

/// Whether a text is one finite number and nothing else.
pub open spec fn is_number(t: Seq<char>) -> bool {
    number_end(t, 0) == Some(t.len() as int) && !too_large(t, 0)
}

pub proof fn lemma_digits_end(s: Seq<char>, i: int)
    requires
        0 <= i <= s.len(),
    ensures
        i <= digits_end(s, i) <= s.len(),
        forall|k: int| i <= k < digits_end(s, i) ==> is_digit(#[trigger] s[k]),
        digits_end(s, i) < s.len() ==> !is_digit(s[digits_end(s, i)]),
    decreases s.len() - i,
{
    if i < s.len() && is_digit(s[i]) {
        lemma_digits_end(s, i + 1);
    }
}

pub proof fn lemma_number_end(s: Seq<char>, i: int)
    requires
        0 <= i <= s.len(),
    ensures
        number_end(s, i) matches Some(j) ==> i < j <= s.len(),
        i <= sign_end(s, i) <= whole_end(s, i) <= mantissa_end(s, i) <= s.len(),
{
    lemma_digits_end(s, sign_end(s, i));
    let b = whole_end(s, i);
    if markup::is_at(s, b, '.') {
        lemma_digits_end(s, b + 1);
    }
    let c = mantissa_end(s, i);
    if markup::is_at(s, c, 'e') || markup::is_at(s, c, 'E') {
        lemma_digits_end(s, sign_end(s, c + 1));
    }
}

proof fn lemma_ten_grows(a: int, b: int)
    requires
        a <= b,
    ensures
        0 < ten(a) <= ten(b),
    decreases b,
{
    if b > 0 {
        if a < b {
            lemma_ten_grows(a, b - 1);
        } else {
            lemma_ten_grows(b - 1, b - 1);
        }
    }
}

proof fn lemma_ten_adds(a: int, b: int)
    requires
        a >= 0,
        b >= 0,
    ensures
        ten(a + b) == ten(a) * ten(b),
    decreases a,
{
    if a > 0 {
        lemma_ten_adds(a - 1, b);
        assert(10 * (ten(a - 1) * ten(b)) == (10 * ten(a - 1)) * ten(b)) by (nonlinear_arith);
    } else {
        assert(1 * ten(b) == ten(b));
    }
}

pub open spec fn all_digits(s: Seq<char>) -> bool {
    forall|k: int| 0 <= k < s.len() ==> is_digit(#[trigger] s[k])
}

/// A row of `n` digits is less than `10^n`.
proof fn lemma_natural_bound(s: Seq<char>)
    requires
        all_digits(s),
    ensures
        natural(s) < ten(s.len() as int),
    decreases s.len(),
{
    if s.len() > 0 {
        let t = s.drop_last();
        assert forall|k: int| 0 <= k < t.len() implies is_digit(#[trigger] t[k]) by {
            assert(is_digit(s[k]));
        }
        lemma_natural_bound(t);
        assert(is_digit(s[s.len() - 1]));
    }
}

/// Digits in front of others count by their place.
proof fn lemma_natural_add(a: Seq<char>, b: Seq<char>)
    ensures
        natural(a + b) == natural(a) * ten(b.len() as int) + natural(b),
    decreases b.len(),
{
    if b.len() == 0 {
        assert(a + b =~= a);
        assert(natural(a) * 1 == natural(a));
    } else {
        lemma_natural_add(a, b.drop_last());
        assert((a + b).last() == b.last());
        assert((a + b).drop_last() =~= a + b.drop_last());
        let t = ten(b.len() - 1);
        assert((natural(a) * t + natural(b.drop_last())) * 10 == natural(a) * (10 * t) + natural(
            b.drop_last(),
        ) * 10) by (nonlinear_arith);
    }
}

/// Leading zeros count nothing, and a row of `n` digits that starts with
/// another one is at least `10^(n-1)`.
proof fn lemma_natural_leading(s: Seq<char>, z: int)
    requires
        all_digits(s),
        0 <= z <= s.len(),
        forall|k: int| 0 <= k < z ==> #[trigger] s[k] == '0',
    ensures
        natural(s) == natural(s.skip(z)),
        z < s.len() && s[z] != '0' ==> natural(s) >= ten(s.len() - z - 1),
        natural(s) < ten(s.len() - z),
{
    let lead = s.take(z);
    let rest = s.skip(z);
    assert(s =~= lead + rest);
    lemma_natural_add(lead, rest);
    lemma_zeros(lead);
    assert(0 * ten(rest.len() as int) == 0);
    assert forall|k: int| 0 <= k < rest.len() implies is_digit(#[trigger] rest[k]) by {
        assert(is_digit(s[z + k]));
    }
    lemma_natural_bound(rest);
    if z < s.len() && s[z] != '0' {
        let first = seq![s[z]];
        let tail = s.skip(z + 1);
        assert(rest =~= first + tail);
        lemma_natural_add(first, tail);
        assert(first.drop_last() =~= Seq::<char>::empty());
        assert(natural(first.drop_last()) == 0);
        assert(is_digit(s[z]));
        assert(natural(first) >= 1);
        let t = ten(tail.len() as int);
        assert(natural(first) * t >= t) by (nonlinear_arith)
            requires
                natural(first) >= 1,
                t >= 0,
        ;
    }
}

proof fn lemma_zeros(s: Seq<char>)
    requires
        forall|k: int| 0 <= k < s.len() ==> #[trigger] s[k] == '0',
    ensures
        natural(s) == 0,
    decreases s.len(),
{
    if s.len() > 0 {
        lemma_zeros(s.drop_last());
        assert(s[s.len() - 1] == '0');
    }
}

/// Of two rows of digits of one length, the one with the larger digit where
/// they first differ is the larger.
proof fn lemma_first_difference(a: Seq<char>, b: Seq<char>, k: int)
    requires
        all_digits(a),
        all_digits(b),
        a.len() == b.len(),
        0 <= k < a.len(),
        a.take(k) == b.take(k),
        a[k] < b[k],
    ensures
        natural(a) < natural(b),
{
    let n = a.len() as int;
    let ah = a.take(k + 1);
    let bh = b.take(k + 1);
    let at = a.skip(k + 1);
    let bt = b.skip(k + 1);
    assert(a =~= ah + at);
    assert(b =~= bh + bt);
    lemma_natural_add(ah, at);
    lemma_natural_add(bh, bt);
    assert(ah.drop_last() =~= a.take(k));
    assert(bh.drop_last() =~= b.take(k));
    assert(is_digit(a[k]) && is_digit(b[k]));
    assert forall|j: int| 0 <= j < at.len() implies is_digit(#[trigger] at[j]) by {
        assert(is_digit(a[k + 1 + j]));
    }
    lemma_natural_bound(at);
    let t = ten(at.len() as int);
    assert(natural(ah) + 1 <= natural(bh));
    assert(natural(ah) * t + t <= natural(bh) * t) by (nonlinear_arith)
        requires
            natural(ah) + 1 <= natural(bh),
            t >= 0,
    ;
}

/// How many doublings lie between two powers of ten.
proof fn lemma_twos_and_tens(k: int)
    requires
        k >= 0,
    ensures
        ten(3 * k) <= pow2((10 * k) as nat) <= ten(4 * k),
    decreases k,
{
    if k == 0 {
        vstd::arithmetic::power2::lemma2_to64();
    } else {
        lemma_twos_and_tens(k - 1);
        vstd::arithmetic::power2::lemma_pow2_adds(10, (10 * (k - 1)) as nat);
        vstd::arithmetic::power2::lemma2_to64();
        assert(pow2(10) == 1024);
        lemma_ten_adds(3, 3 * (k - 1));
        lemma_ten_adds(4, 4 * (k - 1));
        assert(ten(3) == 1000 && ten(4) == 10000) by {
            reveal_with_fuel(ten, 5);
        }
        let p = pow2((10 * (k - 1)) as nat);
        assert(1000 * ten(3 * (k - 1)) <= 1024 * p);
        assert(1024 * p <= 10000 * ten(4 * (k - 1)));
    }
}

proof fn lemma_limit_size()
    ensures
        ten(291) <= limit() < ten(412),
        limit() > 0,
{
    lemma_twos_and_tens(97);
    lemma_twos_and_tens(103);
    vstd::arithmetic::power2::lemma_pow2_adds(970, 54);
    vstd::arithmetic::power2::lemma_pow2_adds(1024, 6);
    vstd::arithmetic::power2::lemma_pow2_pos(970);
    vstd::arithmetic::power2::lemma_pow2_pos(1024);
    vstd::arithmetic::power2::lemma2_to64();
    vstd::arithmetic::power2::lemma2_to64_rest();
    lemma_ten_grows(0, 291);
    let a = pow2(970);
    let b = pow2(54);
    assert(b == 0x40_0000_0000_0000);
    assert(a * (b - 1) >= a && a * (b - 1) < a * b) by (nonlinear_arith)
        requires
            a > 0,
            b == 0x40_0000_0000_0000,
    ;
    assert(pow2(1024) <= pow2(1030));
}

/// A number whose leading digit stands at a lower place than the bound's is
/// below it; at a higher place, above it.
proof fn lemma_by_places(m: nat, n: int, e: int, bound: nat, equal: bool, lo: int, hi: int)
    requires
        n >= 1,
        ten(n - 1) <= m < ten(n),
        0 <= lo <= hi,
        ten(lo) <= bound < ten(hi),
    ensures
        n + e <= lo ==> !passes(m, e, bound, equal),
        n + e >= hi + 1 ==> passes(m, e, bound, equal),
{
    let p = if e > 0 {
        e
    } else {
        0
    };
    let q = if e < 0 {
        -e
    } else {
        0
    };
    assert(ten(e) == ten(p) && ten(-e) == ten(q));
    lemma_ten_adds(n, p);
    lemma_ten_adds(n - 1, p);
    lemma_ten_adds(lo, q);
    lemma_ten_adds(hi, q);
    lemma_ten_grows(0, p);
    lemma_ten_grows(0, q);
    assert(m * ten(p) < ten(n) * ten(p) && m * ten(p) >= ten(n - 1) * ten(p)) by (nonlinear_arith)
        requires
            ten(n - 1) <= m < ten(n),
            ten(p) > 0,
    ;
    assert(bound * ten(q) >= ten(lo) * ten(q) && bound * ten(q) < ten(hi) * ten(q))
        by (nonlinear_arith)
        requires
            ten(lo) <= bound < ten(hi),
            ten(q) > 0,
    ;
    if n + e <= lo {
        lemma_ten_grows(n + p, lo + q);
    }
    if n + e >= hi + 1 {
        lemma_ten_grows(hi + q, n - 1 + p);
    }
}

/// How many fives lie between two powers of ten.
proof fn lemma_fives_and_tens(k: int)
    requires
        k >= 0,
    ensures
        ten(6 * k) <= five(10 * k) <= ten(7 * k),
    decreases k,
{
    if k > 0 {
        lemma_fives_and_tens(k - 1);
        let f = five(10 * (k - 1));
        assert(five(10 * k) == 9765625 * f) by {
            reveal_with_fuel(five, 11);
        }
        lemma_ten_adds(6, 6 * (k - 1));
        lemma_ten_adds(7, 7 * (k - 1));
        assert(ten(6) == 1000000 && ten(7) == 10000000) by {
            reveal_with_fuel(ten, 8);
        }
        assert(1000000 * ten(6 * (k - 1)) <= 9765625 * f);
        assert(9765625 * f <= 10000000 * ten(7 * (k - 1)));
    }
}

proof fn lemma_five_size()
    ensures
        ten(642) <= five(1075) < ten(756),
{
    lemma_fives_and_tens(107);
    let f = five(1070);
    assert(five(1075) == 3125 * f) by {
        reveal_with_fuel(five, 6);
    }
    lemma_ten_adds(749, 7);
    assert(ten(7) == 10000000) by {
        reveal_with_fuel(ten, 8);
    }
    lemma_ten_grows(0, 749);
    assert(ten(749) * 10000000 == ten(756));
    assert(3125 * f < ten(749) * 10000000);
}

/// Twos and fives make tens, so `5^n / 10^n` is half of half, `n` times.
pub proof fn fives_are_tens_over_twos(n: nat)
    ensures
        five(n as int) * pow2(n) == ten(n as int),
    decreases n,
{
    if n == 0 {
        vstd::arithmetic::power2::lemma2_to64();
    } else {
        fives_are_tens_over_twos((n - 1) as nat);
        vstd::arithmetic::power2::lemma_pow2_unfold(n);
        let f = five(n - 1);
        let p = pow2((n - 1) as nat);
        assert((5 * f) * (2 * p) == 10 * (f * p)) by (nonlinear_arith);
    }
}

/// Digits with the lowest place first, as a number.
spec fn places(w: Seq<u8>) -> nat
    decreases w.len(),
{
    if w.len() == 0 {
        0
    } else {
        places(w.drop_last()) + w.last() as nat * ten(w.len() - 1)
    }
}

spec fn small(w: Seq<u8>) -> bool {
    forall|k: int| 0 <= k < w.len() ==> #[trigger] w[k] < 10
}

/// Multiplies a number by a digit.
fn scale(w: &mut Vec<u8>, by: u8)
    requires
        small(old(w)@),
        old(w)@.len() > 0,
        old(w)@.last() > 0,
        0 < by < 10,
    ensures
        small(final(w)@),
        final(w)@.len() > 0,
        final(w)@.last() > 0,
        places(final(w)@) == by as nat * places(old(w)@),
{
    let ghost before = w@;
    let mut carry: u8 = 0;
    let mut i: usize = 0;
    assert(before.take(0) =~= Seq::<u8>::empty());
    assert(w@.take(0) =~= Seq::<u8>::empty());
    assert(places(before.take(0)) == 0);
    assert(by as nat * 0 == 0);
    while i < w.len()
        invariant
            i <= w@.len(),
            w@.len() == before.len(),
            before.len() > 0,
            before.last() > 0,
            small(before),
            0 < by < 10,
            carry < 10,
            forall|k: int| 0 <= k < i ==> #[trigger] w@[k] < 10,
            forall|k: int| i <= k < w@.len() ==> #[trigger] w@[k] == before[k],
            places(w@.take(i as int)) + carry as nat * ten(i as int) == by as nat * places(
                before.take(i as int),
            ),
            i == w@.len() && carry == 0 ==> w@.last() > 0,
        decreases w@.len() - i,
    {
        let ghost was = w@;
        assert(before[i as int] < 10);
        assert(by * before[i as int] <= 81) by (nonlinear_arith)
            requires
                by < 10,
                before[i as int] < 10,
        ;
        let d: u8 = by * w[i] + carry;
        let ghost c = carry;
        w.set(i, d % 10);
        carry = d / 10;
        proof {
            let t = ten(i as int);
            let x = before[i as int] as nat;
            let b = by as nat;
            let f = places(before.take(i as int));
            assert(w@.take(i + 1).drop_last() =~= was.take(i as int));
            assert(before.take(i + 1).drop_last() =~= before.take(i as int));
            assert(w@.take(i + 1).last() == d % 10);
            assert(before.take(i + 1).last() == before[i as int]);
            assert(b * x + c as nat == d % 10 + 10 * (carry as nat));
            assert((d % 10) as nat * t + carry as nat * (10 * t) == b * (x * t) + c as nat * t)
                by (nonlinear_arith)
                requires
                    b * x + c as nat == (d % 10) as nat + 10 * (carry as nat),
            ;
            assert(b * (f + x * t) == b * f + b * (x * t)) by (nonlinear_arith);
            assert(ten(i + 1) == 10 * t);
            if i + 1 == w@.len() && carry == 0 {
                assert(b * x >= 1) by (nonlinear_arith)
                    requires
                        b >= 1,
                        x >= 1,
                ;
            }
        }
        i += 1;
    }
    assert(w@.take(i as int) =~= w@);
    assert(before.take(i as int) =~= before);
    if carry > 0 {
        let ghost was = w@;
        w.push(carry);
        assert(w@.drop_last() =~= was);
    }
}

/// The digits of `5^1075`, the lowest place first.
fn five_digits() -> (w: Vec<u8>)
    ensures
        small(w@),
        w@.len() > 0,
        w@.last() > 0,
        places(w@) == five(1075),
{
    let mut w: Vec<u8> = Vec::new();
    w.push(1);
    proof {
        assert(w@.drop_last() =~= Seq::<u8>::empty());
        assert(places(w@.drop_last()) == 0);
        lemma_one_place(1);
    }
    let mut k: u32 = 0;
    while k < 1075
        invariant
            k <= 1075,
            small(w@),
            w@.len() > 0,
            w@.last() > 0,
            places(w@) == five(k as int),
        decreases 1075 - k,
    {
        scale(&mut w, 5);
        k += 1;
    }
    w
}

/// The digits of the limit, the lowest place first.
fn limit_digits() -> (w: Vec<u8>)
    ensures
        small(w@),
        w@.len() > 0,
        w@.last() > 0,
        places(w@) == limit(),
{
    let mut w: Vec<u8> = Vec::new();
    w.push(1);
    proof {
        assert(w@.drop_last() =~= Seq::<u8>::empty());
        assert(places(w@.drop_last()) == 0);
        vstd::arithmetic::power2::lemma2_to64();
    }
    let mut k: u32 = 0;
    while k < 54
        invariant
            k <= 54,
            small(w@),
            w@.len() > 0,
            w@.last() > 0,
            places(w@) == pow2(k as nat),
        decreases 54 - k,
    {
        scale(&mut w, 2);
        k += 1;
        proof {
            vstd::arithmetic::power2::lemma_pow2_unfold(k as nat);
        }
    }
    proof {
        vstd::arithmetic::power2::lemma2_to64_rest();
        lemma_lowest(w@);
        if w@.len() == 1 {
            assert(w@.drop_last() =~= Seq::<u8>::empty());
            assert(places(w@.drop_last()) == 0);
            lemma_one_place(w@.last() as nat);
            assert(w@[0] < 10);
        }
    }
    let ghost was = w@;
    let low: u8 = w[0] - 1;
    w.set(0, low);
    proof {
        lemma_lower(was, w@);
    }
    k = 0;
    while k < 970
        invariant
            k <= 970,
            small(w@),
            w@.len() > 0,
            w@.last() > 0,
            places(w@) == pow2(k as nat) * (pow2(54) - 1),
        decreases 970 - k,
    {
        scale(&mut w, 2);
        k += 1;
        proof {
            vstd::arithmetic::power2::lemma_pow2_unfold(k as nat);
            assert(2 * (pow2((k - 1) as nat) * (pow2(54) - 1)) == (2 * pow2((k - 1) as nat)) * (
            pow2(54) - 1)) by (nonlinear_arith);
        }
    }
    w
}

proof fn lemma_one_place(v: nat)
    ensures
        v * ten(0) == v,
{
    assert(ten(0) == 1);
    assert(v * 1 == v);
}

/// The lowest digit is the remainder by ten.
proof fn lemma_lowest(w: Seq<u8>)
    requires
        w.len() > 0,
        small(w),
    ensures
        places(w) % 10 == w[0],
    decreases w.len(),
{
    if w.len() == 1 {
        assert(w.drop_last() =~= Seq::<u8>::empty());
        assert(places(w.drop_last()) == 0);
        lemma_one_place(w.last() as nat);
        assert(w[0] < 10);
    } else {
        let t = w.drop_last();
        assert forall|k: int| 0 <= k < t.len() implies #[trigger] t[k] < 10 by {
            assert(w[k] < 10);
        }
        lemma_lowest(t);
        let u = ten(w.len() - 2);
        let v = w.last() as nat;
        assert(ten(w.len() - 1) == 10 * u);
        assert(v * (10 * u) == 10 * (v * u)) by (nonlinear_arith);
    }
}

/// One less at the lowest place is one less.
proof fn lemma_lower(a: Seq<u8>, b: Seq<u8>)
    requires
        a.len() > 0,
        b.len() == a.len(),
        a[0] > 0,
        b[0] == a[0] - 1,
        forall|k: int| 1 <= k < a.len() ==> #[trigger] b[k] == a[k],
    ensures
        places(b) == places(a) - 1,
    decreases a.len(),
{
    if a.len() == 1 {
        assert(a.drop_last() =~= Seq::<u8>::empty());
        assert(b.drop_last() =~= Seq::<u8>::empty());
        assert(places(a.drop_last()) == 0);
        lemma_one_place(a.last() as nat);
        lemma_one_place(b.last() as nat);
    } else {
        lemma_lower(a.drop_last(), b.drop_last());
        assert(b[a.len() - 1] == a[a.len() - 1]);
    }
}

/// The number is the row of its digits from the highest place down.
proof fn lemma_reversed(w: Seq<u8>, t: Seq<char>)
    requires
        small(w),
        t.len() == w.len(),
        forall|k: int|
            0 <= k < w.len() ==> (#[trigger] t[k]) as int == 48 + w[w.len() - 1 - k] as int,
    ensures
        natural(t) == places(w),
        all_digits(t),
    decreases w.len(),
{
    if w.len() > 0 {
        let x = w.drop_last();
        let y = t.skip(1);
        assert forall|k: int| 0 <= k < x.len() implies #[trigger] x[k] < 10 by {
            assert(w[k] < 10);
        }
        assert forall|k: int| 0 <= k < x.len() implies (#[trigger] y[k]) as int == 48 + x[x.len()
            - 1 - k] as int by {
            assert(y[k] == t[k + 1]);
        }
        lemma_reversed(x, y);
        let first = seq![t[0]];
        assert(t =~= first + y);
        lemma_natural_add(first, y);
        assert(first.drop_last() =~= Seq::<char>::empty());
        assert(natural(first.drop_last()) == 0);
        assert(w[w.len() - 1] < 10);
        assert(t[0] as int == 48 + w[w.len() - 1] as int);
        assert(natural(first) == w.last());
        assert forall|k: int| 0 <= k < t.len() implies is_digit(#[trigger] t[k]) by {
            assert(w[w.len() - 1 - k] < 10);
        }
    }
}

/// A row of digits with zeros behind it.
spec fn padded(s: Seq<char>, n: int) -> Seq<char> {
    s + Seq::new(n as nat, |k: int| '0')
}

proof fn lemma_padded(s: Seq<char>, n: int)
    requires
        all_digits(s),
        n >= 0,
    ensures
        natural(padded(s, n)) == natural(s) * ten(n),
        all_digits(padded(s, n)),
{
    let zeros = Seq::new(n as nat, |k: int| '0');
    lemma_natural_add(s, zeros);
    lemma_zeros(zeros);
    assert forall|k: int| 0 <= k < padded(s, n).len() implies is_digit(
        #[trigger] padded(s, n)[k],
    ) by {
        if k < s.len() {
            assert(is_digit(s[k]));
        }
    }
}

/// The `k`th digit of a row with zeros behind it.
fn digit_or_zero(s: &Vec<char>, from: usize, k: usize) -> (c: char)
    requires
        from <= s@.len(),
    ensures
        c == (if k < s@.len() - from {
            s@[from + k]
        } else {
            '0'
        }),
{
    if k < s.len() - from {
        s[from + k]
    } else {
        '0'
    }
}

/// Whether the digits from `from` on, with the first at the bound's own first
/// place, make a number that is more than the bound, or just as much.
fn passes_digits(d: &Vec<char>, from: usize, t: &Vec<char>, equal: bool, e: Ghost<int>) -> (r: bool)
    requires
        all_digits(d@),
        from < d@.len(),
        all_digits(t@),
        d@.len() - from + e@ == t@.len(),
    ensures
        r == passes(natural(d@.skip(from as int)), e@, natural(t@), equal),
{
    let ghost p = if e@ > 0 {
        e@
    } else {
        0
    };
    let ghost q = if e@ < 0 {
        -e@
    } else {
        0
    };
    let ghost s = d@.skip(from as int);
    let ghost a = padded(s, p);
    let ghost b = padded(t@, q);
    proof {
        assert forall|k: int| 0 <= k < s.len() implies is_digit(#[trigger] s[k]) by {
            assert(is_digit(d@[from + k]));
        }
        lemma_padded(s, p);
        lemma_padded(t@, q);
        assert(ten(e@) == ten(p) && ten(-e@) == ten(q));
        assert(a.len() == b.len());
    }
    let n: usize = if d.len() - from > t.len() {
        d.len() - from
    } else {
        t.len()
    };
    let mut k: usize = 0;
    assert(a.take(0) =~= b.take(0));
    while k < n
        invariant
            k <= n,
            n <= a.len(),
            n >= s.len(),
            n >= t@.len(),
            n == s.len() || n == t@.len(),
            from < d@.len(),
            s == d@.skip(from as int),
            p >= 0,
            q >= 0,
            a == padded(s, p),
            b == padded(t@, q),
            a.len() == b.len(),
            all_digits(a),
            all_digits(b),
            a.take(k as int) == b.take(k as int),
            natural(a) == natural(s) * ten(e@),
            natural(b) == natural(t@) * ten(-e@),
        decreases n - k,
    {
        let x = digit_or_zero(d, from, k);
        let y = digit_or_zero(t, 0, k);
        assert(x == a[k as int]);
        assert(y == b[k as int]);
        if x < y {
            proof {
                lemma_first_difference(a, b, k as int);
            }
            return false;
        }
        if y < x {
            proof {
                lemma_first_difference(b, a, k as int);
            }
            return true;
        }
        assert(a.take(k + 1) =~= a.take(k as int).push(x));
        assert(b.take(k + 1) =~= b.take(k as int).push(y));
        k += 1;
    }
    proof {
        assert forall|j: int| 0 <= j < a.len() implies a[j] == b[j] by {
            if j < n {
                assert(a.take(n as int)[j] == b.take(n as int)[j]);
            }
        }
        assert(a =~= b);
    }
    equal
}

/// A power of ten that stands for the exponent `x`: `x` itself, or, where that
/// is more than anything here can tell apart, just more than that.
spec fn stands_for(v: int, x: int) -> bool {
    v == x || (v >= 0x1_0000_0000_0000_0000_0000 && x >= 0x1_0000_0000_0000_0000_0000) || (v
        <= -0x1_0000_0000_0000_0000_0000 && x <= -0x1_0000_0000_0000_0000_0000)
}

fn read_exponent(s: &Vec<char>, from: usize, to: usize) -> (v: i128)
    requires
        from <= to <= s@.len(),
        all_digits(s@.subrange(from as int, to as int)),
    ensures
        0 <= v <= 0xa0_0000_0000_0000_0000_0000,
        stands_for(v as int, natural(s@.subrange(from as int, to as int)) as int),
{
    let mut v: i128 = 0;
    let mut i: usize = from;
    assert(s@.subrange(from as int, from as int) =~= Seq::<char>::empty());
    while i < to
        invariant
            from <= i <= to <= s@.len(),
            all_digits(s@.subrange(from as int, to as int)),
            0 <= v <= 0xa0_0000_0000_0000_0000_0000,
            stands_for(v as int, natural(s@.subrange(from as int, i as int)) as int),
        decreases to - i,
    {
        proof {
            let whole = s@.subrange(from as int, to as int);
            assert(is_digit(whole[i - from]));
            assert(s@.subrange(from as int, i + 1).drop_last() =~= s@.subrange(
                from as int,
                i as int,
            ));
        }
        if v < 0x10_0000_0000_0000_0000_0000 {
            v = v * 10 + (s[i] as u32 - 48) as i128;
        }
        i += 1;
    }
    v
}

/// The digits of a number from the highest place down.
fn from_highest(w: &Vec<u8>) -> (t: Vec<char>)
    requires
        small(w@),
    ensures
        t@.len() == w@.len(),
        natural(t@) == places(w@),
        all_digits(t@),
        w@.len() > 0 && w@.last() > 0 ==> t@[0] != '0',
{
    let total: usize = w.len();
    let mut t: Vec<char> = Vec::new();
    let mut k: usize = 0;
    while k < total
        invariant
            k <= total,
            total == w@.len(),
            small(w@),
            t@.len() == k,
            forall|j: int|
                0 <= j < k ==> (#[trigger] t@[j]) as int == 48 + w@[w@.len() - 1 - j] as int,
        decreases total - k,
    {
        assert(w@[total - 1 - k] < 10);
        t.push((48 + w[total - 1 - k]) as char);
        k += 1;
    }
    proof {
        lemma_reversed(w@, t@);
        if total > 0 {
            assert(t@[0] as int == 48 + w@[total - 1] as int);
        }
    }
    t
}

/// Past the zeros that digits start with.
fn past_zeros(d: &Vec<char>) -> (z: usize)
    requires
        all_digits(d@),
    ensures
        z <= d@.len(),
        forall|k: int| 0 <= k < z ==> #[trigger] d@[k] == '0',
        z < d@.len() ==> d@[z as int] != '0',
        natural(d@) == natural(d@.skip(z as int)),
        z < d@.len() ==> ten(d@.len() - z - 1) <= natural(d@) < ten(d@.len() - z),
        z == d@.len() ==> natural(d@) == 0,
{
    let len: usize = d.len();
    let mut z: usize = 0;
    while z < len && d[z] == '0'
        invariant
            z <= len,
            len == d@.len(),
            forall|k: int| 0 <= k < z ==> #[trigger] d@[k] == '0',
        decreases len - z,
    {
        z += 1;
    }
    proof {
        lemma_natural_leading(d@, z as int);
    }
    z
}

/// Whether two powers of ten are the same, or both too large, or both too
/// small, to be told apart by any number of digits.
spec fn close_enough(e: int, x: int) -> bool {
    e == x || (e >= 0x1000_0000_0000_0000_0000 && x >= 0x1000_0000_0000_0000_0000) || (e
        <= -0x1000_0000_0000_0000_0000 && x <= -0x1000_0000_0000_0000_0000)
}

/// Nothing passes a bound that is more than nothing.
proof fn lemma_zero_passes_nothing(e: int, bound: nat, equal: bool)
    requires
        bound > 0,
    ensures
        !passes(0, e, bound, equal),
{
    lemma_ten_grows(-e, -e);
    assert(0 * ten(e) == 0);
    assert(bound * ten(-e) > 0) by (nonlinear_arith)
        requires
            bound > 0,
            ten(-e) > 0,
    ;
}

/// Whether digits times a power of ten are more than a bound, or just as much.
/// The bound's leading digit stands above `lo` places and within `hi`.
fn digits_pass(
    d: &Vec<char>,
    from: usize,
    e: i128,
    t: &Vec<char>,
    equal: bool,
) -> (r: bool)
    requires
        all_digits(d@),
        all_digits(t@),
        from < d@.len(),
        d@[from as int] != '0',
        forall|k: int| 0 <= k < from ==> #[trigger] d@[k] == '0',
        t@.len() > 0,
        t@[0] != '0',
        -0x1_0000_0000_0000_0000_0000_0000 <= e <= 0x1_0000_0000_0000_0000_0000_0000,
    ensures
        r == passes(natural(d@), e as int, natural(t@), equal),
{
    let n: usize = d.len() - from;
    let total: usize = t.len();
    let top: i128 = n as i128 + e;
    proof {
        lemma_natural_leading(d@, from as int);
        lemma_natural_leading(t@, 0);
        lemma_by_places(
            natural(d@),
            n as int,
            e as int,
            natural(t@),
            equal,
            total - 1,
            total as int,
        );
    }
    if top < total as i128 {
        return false;
    }
    if top > total as i128 {
        return true;
    }
    passes_digits(d, from, t, equal, Ghost(e as int))
}

/// Whether digits times a power of ten round to infinity.
fn rounds_to_infinity(d: &Vec<char>, e: i128, x: Ghost<int>) -> (r: bool)
    requires
        all_digits(d@),
        -0xb0_0000_0000_0000_0000_0000 <= e <= 0xa0_0000_0000_0000_0000_0000,
        close_enough(e as int, x@),
    ensures
        r == overflows(natural(d@), x@),
{
    let ghost xe = x@;
    let z: usize = past_zeros(d);
    proof {
        lemma_limit_size();
    }
    if z == d.len() {
        proof {
            lemma_zero_passes_nothing(xe, limit(), true);
        }
        return false;
    }
    let n: usize = d.len() - z;
    let top: i128 = n as i128 + e;
    proof {
        lemma_by_places(natural(d@), n as int, xe, limit(), true, 291, 412);
    }
    if top <= 291 {
        return false;
    }
    if top > 412 {
        return true;
    }
    assert(e == xe);
    let w = limit_digits();
    let t = from_highest(&w);
    digits_pass(d, z, e, &t, true)
}

/// Whether digits times a power of ten round to more than zero.
fn rounds_above_zero(d: &Vec<char>, e: i128, x: Ghost<int>) -> (r: bool)
    requires
        all_digits(d@),
        -0xb0_0000_0000_0000_0000_0000 <= e <= 0xa0_0000_0000_0000_0000_0000,
        close_enough(e as int, x@),
    ensures
        r == stays_positive(natural(d@), x@),
{
    let ghost xe = x@ + 1075;
    let z: usize = past_zeros(d);
    proof {
        lemma_five_size();
        lemma_ten_grows(0, 642);
    }
    if z == d.len() {
        proof {
            lemma_zero_passes_nothing(xe, five(1075), false);
        }
        return false;
    }
    let n: usize = d.len() - z;
    let top: i128 = n as i128 + e + 1075;
    proof {
        lemma_by_places(natural(d@), n as int, xe, five(1075), false, 642, 756);
    }
    if top <= 642 {
        return false;
    }
    if top > 756 {
        return true;
    }
    assert(e + 1075 == xe);
    let w = five_digits();
    let t = from_highest(&w);
    digits_pass(d, z, e + 1075, &t, false)
}

/// What stands where a number should.
#[derive(Clone, Copy, Debug, PartialEq, Eq, Structural)]
pub enum Reading {
    /// No number.
    Missing,
    /// A number that rounds to infinity, and where it ends.
    TooLarge(usize),
    /// A finite number, and where it ends.
    Finite(usize),
}

fn past_digits(s: &Vec<char>, i: usize) -> (j: usize)
    requires
        i <= s@.len(),
    ensures
        j == digits_end(s@, i as int),
        i <= j <= s@.len(),
{
    let mut j: usize = i;
    while j < s.len() && '0' <= s[j] && s[j] <= '9'
        invariant
            i <= j <= s@.len(),
            digits_end(s@, i as int) == digits_end(s@, j as int),
        decreases s@.len() - j,
    {
        j += 1;
    }
    j
}

fn past_sign(s: &Vec<char>, i: usize) -> (j: usize)
    requires
        i <= s@.len(),
    ensures
        j == sign_end(s@, i as int),
        i <= j <= s@.len(),
{
    if i < s.len() && (s[i] == '+' || s[i] == '-') {
        i + 1
    } else {
        i
    }
}

/// A number taken apart.
struct Scanned {
    end: usize,
    digits: Vec<char>,
    power: i128,
}

/// Takes the number at `i` apart, if there is one.
fn scan(s: &Vec<char>, i: usize) -> (r: Option<Scanned>)
    requires
        i <= s@.len(),
    ensures
        match r {
            None => number_end(s@, i as int) is None,
            Some(n) => {
                &&& number_end(s@, i as int) == Some(n.end as int)
                &&& n.digits@ == mantissa(s@, i as int)
                &&& all_digits(n.digits@)
                &&& close_enough(n.power as int, power(s@, i as int))
                &&& -0xb0_0000_0000_0000_0000_0000 <= n.power <= 0xa0_0000_0000_0000_0000_0000
            },
        },
{
    let ghost at = i as int;
    let total: usize = s.len();
    let a: usize = past_sign(s, i);
    let b: usize = past_digits(s, a);
    let mut digits: Vec<char> = Vec::new();
    let mut k: usize = a;
    proof {
        lemma_digits_end(s@, a as int);
    }
    while k < b
        invariant
            a <= k <= b <= s@.len(),
            digits@ == s@.subrange(a as int, k as int),
        decreases b - k,
    {
        digits.push(s[k]);
        k += 1;
        assert(digits@ =~= s@.subrange(a as int, k as int));
    }
    let mut c: usize = b;
    let mut places: usize = 0;
    if b < total && s[b] == '.' {
        proof {
            lemma_digits_end(s@, b + 1);
        }
        c = past_digits(s, b + 1);
        places = c - b - 1;
        k = b + 1;
        let ghost front = digits@;
        while k < c
            invariant
                b + 1 <= k <= c <= s@.len(),
                digits@ == front + s@.subrange(b + 1, k as int),
            decreases c - k,
        {
            digits.push(s[k]);
            k += 1;
            assert(digits@ =~= front + s@.subrange(b + 1, k as int));
        }
    }
    assert(c == mantissa_end(s@, at));
    assert(digits@ =~= mantissa(s@, at));
    assert(all_digits(digits@));
    if digits.len() == 0 {
        return None;
    }
    let mut end: usize = c;
    let mut power10: i128 = -(places as i128);
    if c < total && (s[c] == 'e' || s[c] == 'E') {
        let d: usize = past_sign(s, c + 1);
        let e: usize = past_digits(s, d);
        if e > d {
            proof {
                lemma_digits_end(s@, d as int);
                assert forall|k: int| 0 <= k < e - d implies is_digit(
                    #[trigger] s@.subrange(d as int, e as int)[k],
                ) by {
                    assert(is_digit(s@[d + k]));
                }
            }
            end = e;
            let v: i128 = read_exponent(s, d, e);
            if s[c + 1] == '-' {
                power10 = -v - places as i128;
            } else {
                power10 = v - places as i128;
            }
        }
    }
    Some(Scanned { end, digits, power: power10 })
}

/// Reads the number at `i`.
pub fn read(s: &Vec<char>, i: usize) -> (r: Reading)
    requires
        i <= s@.len(),
    ensures
        match r {
            Reading::Missing => number_end(s@, i as int) is None,
            Reading::TooLarge(j) => number_end(s@, i as int) == Some(j as int) && too_large(
                s@,
                i as int,
            ),
            Reading::Finite(j) => number_end(s@, i as int) == Some(j as int) && !too_large(
                s@,
                i as int,
            ),
        },
{
    match scan(s, i) {
        None => Reading::Missing,
        Some(n) => if rounds_to_infinity(&n.digits, n.power, Ghost(power(s@, i as int))) {
            Reading::TooLarge(n.end)
        } else {
            Reading::Finite(n.end)
        },
    }
}

/// Whether a text is one finite number and nothing else.
pub fn is_finite_number(t: &str) -> (r: bool)
    ensures
        r == is_number(t@),
{
    let s = text::to_chars(t);
    match read(&s, 0) {
        Reading::Finite(j) => j == s.len(),
        _ => false,
    }
}

/// Whether a number is more than zero as a binary64.
pub fn is_positive(t: &str) -> (r: bool)
    requires
        is_number(t@),
    ensures
        r == positive(t@, 0),
{
    let s = text::to_chars(t);
    if s.len() > 0 && s[0] == '-' {
        return false;
    }
    match scan(&s, 0) {
        None => false,
        Some(n) => rounds_above_zero(&n.digits, n.power, Ghost(power(s@, 0))),
    }
}

/// Whether a number that ends before `i` could not go on there.
pub open spec fn stops(s: Seq<char>, i: int) -> bool {
    i >= s.len() || (!is_digit(s[i]) && s[i] != '.' && s[i] != 'e' && s[i] != 'E')
}

proof fn lemma_digits_embedded(s: Seq<char>, j: int, t: Seq<char>, k: int)
    requires
        0 <= j,
        j + t.len() <= s.len(),
        s.subrange(j, j + t.len()) == t,
        stops(s, j + t.len()),
        0 <= k <= t.len(),
    ensures
        digits_end(s, j + k) == j + digits_end(t, k),
    decreases t.len() - k,
{
    if k < t.len() {
        assert(s.subrange(j, j + t.len())[k] == s[j + k]);
        if is_digit(t[k]) {
            lemma_digits_embedded(s, j, t, k + 1);
        }
    }
}

/// A number inside a longer text reads as it does alone, where what follows
/// cannot extend it.
pub proof fn a_number_reads_the_same_in_context(s: Seq<char>, j: int, t: Seq<char>)
    requires
        0 <= j,
        j + t.len() <= s.len(),
        s.subrange(j, j + t.len()) == t,
        stops(s, j + t.len()),
        number_end(t, 0) == Some(t.len() as int),
    ensures
        number_end(s, j) == Some(j + t.len()),
        too_large(s, j) == too_large(t, 0),
{
    let n = t.len() as int;
    assert forall|k: int| 0 <= k < n implies #[trigger] t[k] == s[j + k] by {
        assert(s.subrange(j, j + n)[k] == s[j + k]);
    }
    lemma_number_end(t, 0);
    assert(sign_end(s, j) == j + sign_end(t, 0));
    lemma_digits_embedded(s, j, t, sign_end(t, 0));
    let b = whole_end(t, 0);
    assert(whole_end(s, j) == j + b);
    assert(markup::is_at(s, j + b, '.') == markup::is_at(t, b, '.'));
    if markup::is_at(t, b, '.') {
        lemma_digits_embedded(s, j, t, b + 1);
    }
    let c = mantissa_end(t, 0);
    assert(mantissa_end(s, j) == j + c);
    assert(mantissa(s, j) =~= mantissa(t, 0)) by {
        assert(s.subrange(j + sign_end(t, 0), j + b) =~= t.subrange(sign_end(t, 0), b));
        if markup::is_at(t, b, '.') {
            assert(s.subrange(j + b + 1, j + c) =~= t.subrange(b + 1, c));
        }
    }
    if c < n {
        assert(markup::is_at(s, j + c, 'e') == markup::is_at(t, c, 'e'));
        assert(markup::is_at(s, j + c, 'E') == markup::is_at(t, c, 'E'));
        assert(exponent_at(t, c) is Some);
        let d = sign_end(t, c + 1);
        assert(sign_end(s, j + c + 1) == j + d);
        assert(d <= n);
        lemma_digits_embedded(s, j, t, d);
        let e = digits_end(t, d);
        assert(e == n);
        assert(s.subrange(j + d, j + e) =~= t.subrange(d, e));
        assert(c + 1 < n);
        assert(markup::is_at(s, j + c + 1, '-') == markup::is_at(t, c + 1, '-'));
    }
}

/// A number starts with a digit, a sign or a point.
pub proof fn lemma_number_first(t: Seq<char>)
    requires
        number_end(t, 0) is Some,
    ensures
        t.len() > 0,
        is_digit(t[0]) || t[0] == '.' || t[0] == '+' || t[0] == '-',
{
    lemma_number_end(t, 0);
    if t.len() == 0 || !(is_digit(t[0]) || t[0] == '.' || t[0] == '+' || t[0] == '-') {
        assert(mantissa(t, 0) =~= Seq::<char>::empty());
    }
}

/// A character that can stand in a number.
pub open spec fn is_number_char(c: char) -> bool {
    is_digit(c) || c == '.' || c == '+' || c == '-' || c == 'e' || c == 'E'
}

/// A number is made of such characters and ends with a digit or a point.
pub proof fn lemma_number_chars(t: Seq<char>)
    requires
        number_end(t, 0) == Some(t.len() as int),
    ensures
        t.len() > 0,
        forall|k: int| 0 <= k < t.len() ==> is_number_char(#[trigger] t[k]),
        is_digit(t.last()) || t.last() == '.',
{
    lemma_number_end(t, 0);
    let a = sign_end(t, 0);
    let b = whole_end(t, 0);
    let c = mantissa_end(t, 0);
    lemma_digits_end(t, a);
    if markup::is_at(t, b, '.') {
        lemma_digits_end(t, b + 1);
    }
    let d = sign_end(t, c + 1);
    if exponent_at(t, c) is Some {
        lemma_digits_end(t, d);
    }
    assert forall|k: int| 0 <= k < t.len() implies is_number_char(#[trigger] t[k]) by {
        if k < a {
        } else if k < b {
            assert(is_digit(t[k]));
        } else if k < c {
            if k > b {
                assert(is_digit(t[k]));
            }
        } else if k > c && k >= d {
            assert(is_digit(t[k]));
        }
    }
    let z = t.len() - 1;
    if exponent_at(t, c) is Some {
        assert(is_digit(t[z]));
    } else if markup::is_at(t, b, '.') {
        if z > b {
            assert(is_digit(t[z]));
        }
    } else {
        assert(mantissa(t, 0).len() == b - a);
        assert(is_digit(t[z]));
    }
}

proof fn lemma_run_of_digits(s: Seq<char>, i: int, e: int)
    requires
        0 <= i <= e <= s.len(),
        forall|k: int| i <= k < e ==> is_digit(#[trigger] s[k]),
        e < s.len() ==> !is_digit(s[e]),
    ensures
        digits_end(s, i) == e,
    decreases e - i,
{
    if i < e {
        assert(is_digit(s[i]));
        lemma_run_of_digits(s, i + 1, e);
    }
}

/// Whether `t` is a sign or nothing.
pub open spec fn is_sign(t: Seq<char>) -> bool {
    t.len() == 0 || t == seq!['+'] || t == seq!['-']
}

/// A number of a sign, whole digits, a point with digits behind it and an exponent
/// ends where that does. Its digits are those before and behind the point, and its
/// power of ten is the exponent less the number of digits behind the point.
pub proof fn a_full_number_is_read_whole(
    sign: Seq<char>,
    a: Seq<char>,
    b: Seq<char>,
    mark: char,
    way: Seq<char>,
    x: Seq<char>,
)
    requires
        is_sign(sign),
        is_sign(way),
        all_digits(a) && all_digits(b) && all_digits(x),
        a.len() + b.len() > 0,
        x.len() > 0,
        mark == 'e' || mark == 'E',
    ensures
        ({
            let s = sign + a + seq!['.'] + b + seq![mark] + way + x;
            &&& number_end(s, 0) == Some(s.len() as int)
            &&& mantissa(s, 0) == a + b
            &&& power(s, 0) == (if way == seq!['-'] {
                -natural(x)
            } else {
                natural(x) as int
            }) - b.len()
            &&& positive(s, 0) ==> sign != seq!['-']
        }),
{
    let s = sign + a + seq!['.'] + b + seq![mark] + way + x;
    let i = sign.len() as int;
    let p = i + a.len();
    let c = p + 1 + b.len();
    let d = c + 1 + way.len();
    let n = s.len() as int;
    assert(n == d + x.len());
    if sign.len() > 0 {
        assert(s[0] == sign[0]);
    } else {
        if a.len() > 0 {
            assert(s[0] == a[0]);
            assert(is_digit(a[0]));
        } else {
            assert(s[0] == '.');
        }
    }
    assert(sign_end(s, 0) == i);
    assert forall|k: int| i <= k < p implies is_digit(#[trigger] s[k]) by {
        assert(s[k] == a[k - i]);
        assert(is_digit(a[k - i]));
    }
    assert(s[p] == '.');
    lemma_run_of_digits(s, i, p);
    assert forall|k: int| p + 1 <= k < c implies is_digit(#[trigger] s[k]) by {
        assert(s[k] == b[k - p - 1]);
        assert(is_digit(b[k - p - 1]));
    }
    assert(s[c] == mark);
    lemma_run_of_digits(s, p + 1, c);
    assert(mantissa_end(s, 0) == c);
    assert(s.subrange(i, p) =~= a);
    assert(s.subrange(p + 1, c) =~= b);
    if way.len() > 0 {
        assert(s[c + 1] == way[0]);
    } else {
        assert(s[c + 1] == x[0]);
        assert(is_digit(x[0]));
    }
    assert(sign_end(s, c + 1) == d);
    assert forall|k: int| d <= k < n implies is_digit(#[trigger] s[k]) by {
        assert(s[k] == x[k - d]);
        assert(is_digit(x[k - d]));
    }
    lemma_run_of_digits(s, d, n);
    assert(s.subrange(d, n) =~= x);
    assert(exponent_at(s, c) == Some((d, n)));
    if way.len() > 0 {
        assert(way == seq!['+'] || way == seq!['-']);
        assert(way[0] == '-' <==> way == seq!['-']) by {
            assert(seq!['+'][0] != seq!['-'][0]);
        }
    }
    if sign == seq!['-'] {
        assert(sign[0] == '-');
    }
}

/// A number without an exponent is its digits over ten to the number of those
/// behind the point; a point alone is none.
pub proof fn a_plain_number_is_read_whole(sign: Seq<char>, a: Seq<char>, b: Seq<char>)
    requires
        is_sign(sign),
        all_digits(a) && all_digits(b),
    ensures
        a.len() + b.len() > 0 ==> number_end(sign + a + seq!['.'] + b, 0) == Some(
            (sign + a + seq!['.'] + b).len() as int,
        ),
        a.len() + b.len() == 0 ==> number_end(sign + a + seq!['.'] + b, 0) is None,
        mantissa(sign + a + seq!['.'] + b, 0) == a + b,
        power(sign + a + seq!['.'] + b, 0) == -(b.len() as int),
        a.len() > 0 ==> number_end(sign + a, 0) == Some((sign + a).len() as int),
        a.len() == 0 ==> number_end(sign + a, 0) is None,
        mantissa(sign + a, 0) == a,
        power(sign + a, 0) == 0,
{
    let s = sign + a + seq!['.'] + b;
    let i = sign.len() as int;
    let p = i + a.len();
    let n = s.len() as int;
    if sign.len() > 0 {
        assert(s[0] == sign[0]);
    } else if a.len() > 0 {
        assert(s[0] == a[0]);
        assert(is_digit(a[0]));
    } else {
        assert(s[0] == '.');
    }
    assert(sign_end(s, 0) == i);
    assert forall|k: int| i <= k < p implies is_digit(#[trigger] s[k]) by {
        assert(s[k] == a[k - i]);
        assert(is_digit(a[k - i]));
    }
    assert(s[p] == '.');
    lemma_run_of_digits(s, i, p);
    assert forall|k: int| p + 1 <= k < n implies is_digit(#[trigger] s[k]) by {
        assert(s[k] == b[k - p - 1]);
        assert(is_digit(b[k - p - 1]));
    }
    lemma_run_of_digits(s, p + 1, n);
    assert(s.subrange(i, p) =~= a);
    assert(s.subrange(p + 1, n) =~= b);
    let t = sign + a;
    let m = t.len() as int;
    if sign.len() > 0 {
        assert(t[0] == sign[0]);
    } else if a.len() > 0 {
        assert(t[0] == a[0]);
        assert(is_digit(a[0]));
    }
    assert(sign_end(t, 0) == i);
    assert forall|k: int| i <= k < m implies is_digit(#[trigger] t[k]) by {
        assert(t[k] == a[k - i]);
        assert(is_digit(a[k - i]));
    }
    lemma_run_of_digits(t, i, m);
    assert(t.subrange(i, m) =~= a);
}

/// Digits are worth what they say: those of a number in base ten the number, and a
/// further digit ten times what stood there and itself.
pub proof fn digits_are_worth_their_number(n: nat, s: Seq<char>, c: char)
    ensures
        natural(crate::text::decimal(n)) == n,
        '0' <= c <= '9' ==> natural(s.push(c)) == 10 * natural(s) + (c as int - '0' as int),
        natural(Seq::empty()) == 0,
    decreases n,
{
    reveal_with_fuel(natural, 2);
    assert(s.push(c).drop_last() =~= s);
    let t = crate::text::decimal(n);
    if n >= 10 {
        digits_are_worth_their_number(n / 10, s, c);
        assert(t.drop_last() =~= crate::text::decimal(n / 10));
        assert(t.last() as int == 48 + n % 10);
    } else {
        assert(t.drop_last() =~= Seq::<char>::empty());
        assert(t.last() as int == 48 + n);
    }
}

/// A number is out of range exactly where it would round to infinity: from halfway
/// between the largest finite number and two to the 1024th on.
pub proof fn a_number_is_too_large_from_the_last_half_step_on(m: nat, e: int)
    ensures
        limit() == pow2(1024) - pow2(970),
        e >= 0 ==> (overflows(m, e) <==> m * ten(e) >= pow2(1024) - pow2(970)),
        e <= 0 ==> (overflows(m, e) <==> m >= (pow2(1024) - pow2(970)) * ten(-e)),
{
    vstd::arithmetic::power2::lemma_pow2_adds(970, 54);
    assert(pow2(970) * (pow2(54) - 1) == pow2(970) * pow2(54) - pow2(970)) by (nonlinear_arith);
    vstd::arithmetic::power2::lemma_pow2_pos(970);
    vstd::arithmetic::power2::lemma_pow2_pos(54);
    assert(pow2(970) * (pow2(54) - 1) >= 0) by (nonlinear_arith)
        requires
            pow2(970) > 0,
            pow2(54) >= 1,
    ;
    assert(ten(0) == 1);
    assert(m * 1 == m);
    if e >= 0 {
        assert(ten(-e) == 1);
        assert(limit() * 1 == limit());
    }
    if e <= 0 {
        assert(ten(e) == 1);
    }
}

/// A number is positive unless it would round to zero: above half the smallest
/// number, two to the minus 1075th.
pub proof fn a_number_is_positive_above_the_last_half_step(m: nat, e: int)
    requires
        e >= -1075,
    ensures
        stays_positive(m, e) <==> m * ten(e + 1075) * pow2(1075) > ten(1075),
        m == 0 ==> !stays_positive(m, e),
{
    fives_are_tens_over_twos(1075);
    vstd::arithmetic::power2::lemma_pow2_pos(1075);
    let a = m * ten(e + 1075);
    let b = five(1075);
    assert(ten(-(e + 1075)) == 1);
    assert(b * 1 == b);
    let p = pow2(1075);
    assert(a > b <==> a * p > b * p) by (nonlinear_arith)
        requires
            p > 0,
    ;
    if m == 0 {
        assert(m * ten(e + 1075) == 0) by (nonlinear_arith)
            requires
                m == 0,
        ;
    }
}

/// An exponent needs no point before it, and is one only with digits behind its mark:
/// without them the number ends before the mark.
pub proof fn an_exponent_needs_digits(
    sign: Seq<char>,
    a: Seq<char>,
    mark: char,
    way: Seq<char>,
    x: Seq<char>,
)
    requires
        is_sign(sign),
        is_sign(way),
        all_digits(a) && all_digits(x),
        a.len() > 0,
        mark == 'e' || mark == 'E',
    ensures
        ({
            let s = sign + a + seq![mark] + way + x;
            &&& x.len() > 0 ==> number_end(s, 0) == Some(s.len() as int)
            &&& x.len() == 0 ==> number_end(s, 0) == Some((sign.len() + a.len()) as int)
            &&& mantissa(s, 0) == a
            &&& x.len() > 0 ==> power(s, 0) == (if way == seq!['-'] {
                -natural(x)
            } else {
                natural(x) as int
            })
            &&& x.len() == 0 ==> power(s, 0) == 0
        }),
{
    let s = sign + a + seq![mark] + way + x;
    let i = sign.len() as int;
    let c = i + a.len();
    let d = c + 1 + way.len();
    let n = s.len() as int;
    assert(n == d + x.len());
    if sign.len() > 0 {
        assert(s[0] == sign[0]);
    } else {
        assert(s[0] == a[0]);
        assert(is_digit(a[0]));
    }
    assert(sign_end(s, 0) == i);
    assert forall|k: int| i <= k < c implies is_digit(#[trigger] s[k]) by {
        assert(s[k] == a[k - i]);
        assert(is_digit(a[k - i]));
    }
    assert(s[c] == mark);
    lemma_run_of_digits(s, i, c);
    assert(s.subrange(i, c) =~= a);
    if way.len() > 0 {
        assert(s[c + 1] == way[0]);
        assert(way == seq!['+'] || way == seq!['-']);
        assert(way[0] == '-' <==> way == seq!['-']) by {
            assert(seq!['+'][0] != seq!['-'][0]);
        }
    } else if x.len() > 0 {
        assert(s[c + 1] == x[0]);
        assert(is_digit(x[0]));
    }
    assert(sign_end(s, c + 1) == d);
    assert forall|k: int| d <= k < n implies is_digit(#[trigger] s[k]) by {
        assert(s[k] == x[k - d]);
        assert(is_digit(x[k - d]));
    }
    lemma_run_of_digits(s, d, n);
    assert(s.subrange(d, n) =~= x);
}

/// A number with a minus in front is never positive.
pub proof fn a_negative_number_is_not_positive(s: Seq<char>)
    ensures
        s.len() > 0 && s[0] == '-' ==> !positive(s, 0),
        s.len() > 0 && s[0] != '-' ==> (positive(s, 0) <==> stays_positive(
            natural(mantissa(s, 0)),
            power(s, 0),
        )),
{
}

} // verus!

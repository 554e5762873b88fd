//! Decimal text of numbers.
use crate::arith;
use crate::binary64;
use crate::binary64::Binary64;
use crate::grid;
use crate::round;
use vstd::arithmetic::div_mod::*;
use vstd::arithmetic::power2::*;
use vstd::prelude::*;
use vstd::string::*;

verus! {

/// The character of a decimal digit.
pub open spec fn digit(d: int) -> char {
    (48 + d) as char
}

/// The decimal digits of a whole number.
pub open spec fn digits(n: int) -> Seq<char>
    decreases n,
{
    if n < 10 {
        seq![digit(n)]
    } else {
        digits(n / 10).push(digit(n % 10))
    }
}

/// The last `width` decimal digits of a whole number, leading zeros kept.
pub open spec fn padded(n: int, width: nat) -> Seq<char>
    decreases width,
{
    if width == 0 {
        Seq::empty()
    } else {
        padded(n / 10, (width - 1) as nat).push(digit(n % 10))
    }
}

/// Ten to the power of `k`.
pub open spec fn ten(k: nat) -> int
    decreases k,
{
    if k == 0 {
        1
    } else {
        10 * ten((k - 1) as nat)
    }
}

/// The whole number nearest to `n / d`, ties to even.
pub open spec fn nearest_whole(n: int, d: int) -> int {
    let q = n / d;
    let twice = 2 * (n % d);
    if twice > d || (twice == d && q % 2 == 1) {
        q + 1
    } else {
        q
    }
}

/// `n` over ten to the power of `k`, with `k` digits behind the point.
pub open spec fn point(n: int, k: nat) -> Seq<char> {
    if k == 0 {
        digits(n)
    } else {
        digits(n / ten(k)) + seq!['.'] + padded(n % ten(k), k)
    }
}

/// A number with `k` digits behind the point: the decimal nearest to its exact
/// value, ties to even, after a minus sign where the sign bit is set.
pub open spec fn fixed(x: Binary64, k: nat) -> Seq<char> {
    let sign = if x.negative() {
        seq!['-']
    } else {
        Seq::empty()
    };
    if x.nan() {
        "NaN"@
    } else if x.infinite() {
        sign + "inf"@
    } else {
        sign + point(nearest_whole(grid::units(x.magnitude()) * ten(k), binary64::one()), k)
    }
}

fn push_digit(out: &mut String, d: u8)
    requires
        d < 10,
    ensures
        final(out)@ == old(out)@.push(digit(d as int)),
{
    proof {
        reveal_strlit("0");
        reveal_strlit("1");
        reveal_strlit("2");
        reveal_strlit("3");
        reveal_strlit("4");
        reveal_strlit("5");
        reveal_strlit("6");
        reveal_strlit("7");
        reveal_strlit("8");
        reveal_strlit("9");
    }
    let text: &str = match d {
        0 => "0",
        1 => "1",
        2 => "2",
        3 => "3",
        4 => "4",
        5 => "5",
        6 => "6",
        7 => "7",
        8 => "8",
        _ => "9",
    };
    out.append(text);
    proof {
        assert(text@ =~= seq![digit(d as int)]);
        assert(out@ =~= old(out)@.push(digit(d as int)));
    }
}

/// Appends the decimal digits of `n`.
pub(crate) fn push_digits(out: &mut String, n: u128)
    ensures
        final(out)@ == old(out)@ + digits(n as int),
    decreases n,
{
    if n >= 10 {
        push_digits(out, n / 10);
    }
    push_digit(out, (n % 10) as u8);
    proof {
        assert(out@ =~= old(out)@ + digits(n as int));
    }
}

fn push_padded(out: &mut String, n: u128, width: usize)
    ensures
        final(out)@ == old(out)@ + padded(n as int, width as nat),
    decreases width,
{
    if width > 0 {
        push_padded(out, n / 10, width - 1);
        push_digit(out, (n % 10) as u8);
    }
    proof {
        assert(out@ =~= old(out)@ + padded(n as int, width as nat));
    }
}

proof fn lemma_ten_positive(k: nat)
    ensures
        ten(k) > 0,
    decreases k,
{
    if k > 0 {
        lemma_ten_positive((k - 1) as nat);
    }
}

fn power_of_ten(k: usize) -> (p: u128)
    requires
        k <= 9,
    ensures
        p == ten(k as nat),
        0 < p <= 1_000_000_000,
{
    let mut p: u128 = 1;
    let mut i: usize = 0;
    proof {
        lemma_ten_positive(k as nat);
        reveal_with_fuel(ten, 10);
    }
    while i < k
        invariant
            i <= k <= 9,
            p == ten(i as nat),
            0 < p <= 1_000_000_000,
            ten(9) == 1_000_000_000,
        decreases k - i,
    {
        proof {
            lemma_ten_increases((i + 1) as nat, 9);
        }
        p = 10 * p;
        i = i + 1;
    }
    p
}

proof fn lemma_ten_increases(a: nat, b: nat)
    requires
        a <= b,
    ensures
        ten(a) <= ten(b),
    decreases b,
{
    lemma_ten_positive(a);
    if a < b {
        lemma_ten_increases(a, (b - 1) as nat);
        lemma_ten_positive((b - 1) as nat);
    }
}

/// The number with these decimal digits, the lowest first.
spec fn number(s: Seq<u8>) -> int
    decreases s.len(),
{
    if s.len() == 0 {
        0
    } else {
        s[0] + 10 * number(s.drop_first())
    }
}

/// Digits with no leading zero, so that every number has one form.
spec fn proper(s: Seq<u8>) -> bool {
    &&& forall|i: int| 0 <= i < s.len() ==> s[i] < 10
    &&& s.len() > 0
    &&& s.last() > 0
}

proof fn lemma_number_push(s: Seq<u8>, d: u8)
    ensures
        number(s.push(d)) == number(s) + d * ten(s.len()),
    decreases s.len(),
{
    let t = s.push(d);
    if s.len() == 0 {
        assert(t.drop_first() =~= Seq::<u8>::empty());
        assert(number(t) == d + 10 * number(t.drop_first()));
    } else {
        lemma_number_push(s.drop_first(), d);
        assert(t.drop_first() =~= s.drop_first().push(d));
        let p = ten((s.len() - 1) as nat);
        assert(10 * (d * p) == d * (10 * p)) by (nonlinear_arith);
    }
}

proof fn lemma_number_positive(s: Seq<u8>)
    requires
        proper(s),
    ensures
        number(s) > 0,
    decreases s.len(),
{
    if s.len() > 1 {
        assert(s.drop_first().last() == s.last());
        lemma_number_positive(s.drop_first());
    } else {
        assert(s.drop_first() =~= Seq::<u8>::empty());
        assert(number(s.drop_first()) == 0);
    }
}

/// Twice the number.
fn double(s: &Vec<u8>) -> (r: Vec<u8>)
    requires
        proper(s@),
    ensures
        proper(r@),
        number(r@) == 2 * number(s@),
{
    let mut r: Vec<u8> = Vec::with_capacity(s.len());
    let mut carry: u8 = 0;
    let mut i: usize = 0;
    proof {
        assert(s@.skip(0) =~= s@);
    }
    while i < s.len()
        invariant
            proper(s@),
            i <= s@.len(),
            carry <= 1,
            r@.len() == i,
            forall|j: int| 0 <= j < r@.len() ==> r@[j] < 10,
            i == s@.len() ==> carry > 0 || r@.last() > 0,
            2 * number(s@) == number(r@) + ten(i as nat) * (carry + 2 * number(s@.skip(i as int))),
        decreases s@.len() - i,
    {
        let d: u8 = 2 * s[i] + carry;
        let ghost before = r@;
        let ghost c = carry as int;
        r.push(d % 10);
        carry = d / 10;
        proof {
            let low = s@[i as int] as int;
            let rest = number(s@.skip(i + 1));
            assert(s@.skip(i as int).drop_first() =~= s@.skip(i + 1));
            assert(number(s@.skip(i as int)) == low + 10 * rest);
            lemma_number_push(before, (d % 10) as u8);
            let p = ten(i as nat);
            let (e, f) = ((d % 10) as int, carry as int);
            assert(p * (c + 2 * (low + 10 * rest)) == e * p + (10 * p) * (f + 2 * rest))
                by (nonlinear_arith)
                requires
                    c + 2 * low == e + 10 * f,
            ;
        }
        i = i + 1;
    }
    proof {
        assert(s@.skip(i as int) =~= Seq::<u8>::empty());
        let p = ten(i as nat);
        let f = carry as int;
        assert(p * (f + 2 * 0) == f * p) by (nonlinear_arith);
        lemma_number_push(r@, carry);
    }
    if carry > 0 {
        r.push(carry);
    }
    r
}

/// Appends the number with these digits.
fn push_number(out: &mut String, s: &Vec<u8>)
    requires
        proper(s@),
    ensures
        final(out)@ == old(out)@ + digits(number(s@)),
{
    let mut i: usize = s.len();
    let ghost start = out@;
    while i > 0
        invariant
            proper(s@),
            i <= s@.len(),
            i == s@.len() ==> out@ == start,
            i < s@.len() ==> out@ == start + digits(number(s@.skip(i as int))),
        decreases i,
    {
        i = i - 1;
        proof {
            let here = s@.skip(i as int);
            let rest = s@.skip(i + 1);
            assert(here.drop_first() =~= rest);
            if i + 1 < s@.len() {
                assert(rest.last() == s@.last());
                lemma_number_positive(rest);
            } else {
                assert(rest =~= Seq::<u8>::empty());
            }
            let (d, t) = (here[0] as int, number(rest));
            assert((d + 10 * t) / 10 == t && (d + 10 * t) % 10 == d);
        }
        push_digit(out, s[i]);
        proof {
            assert(out@ =~= start + digits(number(s@.skip(i as int))));
        }
    }
    proof {
        assert(s@.skip(0) =~= s@);
    }
}

/// The digits of a positive `n`.
fn split_digits(n: u64) -> (s: Vec<u8>)
    requires
        n > 0,
    ensures
        proper(s@),
        number(s@) == n,
{
    let mut s: Vec<u8> = Vec::new();
    let mut rest: u64 = n;
    while rest > 0
        invariant
            forall|j: int| 0 <= j < s@.len() ==> s@[j] < 10,
            rest == 0 ==> s@.len() > 0 && s@.last() > 0,
            n == number(s@) + ten(s@.len()) * rest,
        decreases rest,
    {
        let d: u8 = (rest % 10) as u8;
        proof {
            lemma_number_push(s@, d);
            let p = ten(s@.len());
            let q = (rest / 10) as int;
            assert(p * rest == d * p + (10 * p) * q) by (nonlinear_arith)
                requires
                    rest == d + 10 * q,
            ;
        }
        s.push(d);
        rest = rest / 10;
    }
    s
}

/// A number that is a whole multiple of the divisor rounds to that multiple.
proof fn lemma_nearest_whole_exact(v: int, d: int, t: int)
    requires
        0 < d,
        0 < t,
    ensures
        nearest_whole(v * d * t, d) == v * t,
        (v * t) / t == v,
        (v * t) % t == 0,
{
    assert(v * d * t == (v * t) * d + 0) by (nonlinear_arith);
    lemma_fundamental_div_mod_converse(v * d * t, d, v * t, 0);
    lemma_fundamental_div_mod_converse(v * t, t, v, 0);
}

/// Appends a magnitude from 2^52 on, which is a whole number.
fn push_large(out: &mut String, sig: u64, exp: i32, k: usize)
    requires
        0 < sig,
        1074 <= exp <= 2045,
        k <= 9,
    ensures
        final(out)@ == old(out)@ + point(
            nearest_whole(sig * pow2(exp as nat) * ten(k as nat), binary64::one()),
            k as nat,
        ),
{
    let ghost start = out@;
    let mut s: Vec<u8> = split_digits(sig);
    let mut e: i32 = 1074;
    proof {
        lemma2_to64();
        assert(sig * pow2(0) == sig);
    }
    while e < exp
        invariant
            1074 <= e <= exp <= 2045,
            proper(s@),
            number(s@) == sig * pow2((e - 1074) as nat),
        decreases exp - e,
    {
        s = double(&s);
        proof {
            lemma_pow2_unfold((e + 1 - 1074) as nat);
            let p = pow2((e - 1074) as nat) as int;
            assert(sig * (2 * p) == 2 * (sig * p)) by (nonlinear_arith);
        }
        e = e + 1;
    }
    push_number(out, &s);
    let ghost v = number(s@);
    proof {
        lemma_ten_positive(k as nat);
        lemma_pow2_pos(1074);
        lemma_pow2_adds((exp - 1074) as nat, 1074);
        let (p, o) = (pow2((exp - 1074) as nat) as int, binary64::one());
        assert(sig * (p * o) == v * o) by (nonlinear_arith)
            requires
                v == sig * p,
        ;
        lemma_nearest_whole_exact(v, o, ten(k as nat));
        assert(v * ten(0) == v);
    }
    if k > 0 {
        proof {
            reveal_strlit(".");
        }
        out.append(".");
        push_padded(out, 0, k);
        proof {
            assert("."@ =~= seq!['.']);
            assert(out@ =~= start + (digits(v) + seq!['.'] + padded(0, k as nat)));
        }
    }
}

/// Appends a magnitude below 2^53.
fn push_small(out: &mut String, sig: u64, exp: i32, k: usize)
    requires
        sig < 2 * grid::BINADE,
        0 <= exp < 1074,
        k <= 9,
    ensures
        final(out)@ == old(out)@ + point(
            nearest_whole(sig * pow2(exp as nat) * ten(k as nat), binary64::one()),
            k as nat,
        ),
{
    let ghost start = out@;
    let shift: u32 = (1074 - exp) as u32;
    let t: u128 = power_of_ten(k);
    let ghost x = pow2(exp as nat) as int;
    let ghost o = binary64::one();
    proof {
        lemma_pow2_pos(exp as nat);
        lemma_pow2_adds(exp as nat, shift as nat);
        lemma2_to64();
        lemma2_to64_rest();
        assert(sig * t < 0x0020_0000_0000_0000 * 0x4000_0000) by (nonlinear_arith)
            requires
                0 <= sig < 0x0020_0000_0000_0000,
                0 < t <= 1_000_000_000,
        ;
    }
    let num: u128 = (sig as u128) * t;
    let ghost big = sig * x * t;
    proof {
        assert(big == num * x) by (nonlinear_arith)
            requires
                num == sig * t,
                big == sig * x * t,
        ;
    }
    let n: u128 = if shift >= 100 {
        proof {
            lemma_pow2_adds(64, 36);
            lemma_pow2_strictly_increases(99, shift as nat);
            lemma_pow2_adds(64, 35);
            let p = pow2(shift as nat) as int;
            assert(0 <= 2 * big < o) by (nonlinear_arith)
                requires
                    big == num * x,
                    o == x * p,
                    0 <= 2 * num < p,
                    0 < x,
            ;
            assert(big == 0 * o + big);
            lemma_fundamental_div_mod_converse(big, o, 0, big);
        }
        0
    } else {
        let p: u128 = round::power(shift);
        let half: u128 = round::power(shift - 1);
        proof {
            vstd::bits::lemma_u128_shr_is_div(num, shift as u128);
            lemma_fundamental_div_mod(num as int, p as int);
            lemma_mod_bound(num as int, p as int);
            lemma_pow2_unfold(shift as nat);
        }
        let q: u128 = num >> (shift as u128);
        proof {
            assert(p * q == q * p) by (nonlinear_arith);
            assert(q <= q * p) by (nonlinear_arith)
                requires
                    0 <= q,
                    1 <= p,
            ;
        }
        let rem: u128 = num - q * p;
        proof {
            let l = rem * x;
            assert(big == q * o + l) by (nonlinear_arith)
                requires
                    big == (q * p + rem) * x,
                    o == x * p,
                    l == rem * x,
            ;
            assert(0 <= l < o && (rem > half <==> 2 * l > o) && (rem == half <==> 2 * l == o))
                by (nonlinear_arith)
                requires
                    l == rem * x,
                    o == x * p,
                    p == 2 * half,
                    0 <= rem < p,
                    0 < x,
            ;
            lemma_fundamental_div_mod_converse(big, o, q as int, l);
        }
        if rem > half || (rem == half && q % 2 == 1) {
            q + 1
        } else {
            q
        }
    };
    if k == 0 {
        push_digits(out, n);
    } else {
        push_digits(out, n / t);
        proof {
            reveal_strlit(".");
        }
        out.append(".");
        push_padded(out, n % t, k);
        proof {
            assert("."@ =~= seq!['.']);
            assert(out@ =~= start + (digits(n as int / t as int) + seq!['.'] + padded(
                n as int % t as int,
                k as nat,
            )));
        }
    }
}

/// Appends a number with `k` digits behind the point.
pub fn push_fixed(out: &mut String, x: Binary64, k: usize)
    requires
        k <= 9,
    ensures
        final(out)@ == old(out)@ + fixed(x, k as nat),
        denotes(final(out)@.skip(old(out)@.len() as int), x, k as nat),
{
    let ghost start = out@;
    proof {
        lemma_fixed_reads_back(x, k as nat);
        assert((start + fixed(x, k as nat)).skip(start.len() as int) =~= fixed(x, k as nat));
    }
    let (negative, magnitude) = x.split();
    if magnitude > grid::INF {
        out.append("NaN");
    } else {
        if negative {
            proof {
                reveal_strlit("-");
            }
            out.append("-");
            proof {
                assert("-"@ =~= seq!['-']);
            }
        }
        let ghost signed = out@;
        if magnitude == grid::INF {
            out.append("inf");
            proof {
                assert(out@ =~= start + fixed(x, k as nat));
            }
        } else {
            let (sig, exp) = arith::decode(magnitude);
            if exp >= 1074 {
                push_large(out, sig, exp, k);
            } else {
                push_small(out, sig, exp, k);
            }
            proof {
                assert(out@ =~= start + fixed(x, k as nat));
            }
        }
    }
}

/// Text that neither breaks a line nor separates cells.
pub open spec fn plain(s: Seq<char>) -> bool {
    forall|i: int| 0 <= i < s.len() ==> s[i] != ',' && s[i] != '\n'
}

/// The text of a whole number neither breaks a line nor separates cells.
pub proof fn lemma_digits_plain(n: int)
    requires
        0 <= n,
    ensures
        plain(digits(n)),
    decreases n,
{
    if n >= 10 {
        lemma_digits_plain(n / 10);
    }
}

proof fn lemma_padded_plain(n: int, width: nat)
    requires
        0 <= n,
    ensures
        plain(padded(n, width)),
    decreases width,
{
    if width > 0 {
        lemma_padded_plain(n / 10, (width - 1) as nat);
    }
}

/// The text of a number neither breaks a line nor separates cells.
pub proof fn lemma_fixed_plain(x: Binary64, k: nat)
    ensures
        plain(fixed(x, k)),
{
    reveal_strlit("NaN");
    reveal_strlit("inf");
    if x.finite() {
        let u = grid::units(x.magnitude());
        let (t, o) = (ten(k), binary64::one());
        grid::lemma_units_small(0);
        if x.magnitude() > 0 {
            grid::lemma_units_increase(0, x.magnitude());
        }
        lemma_ten_positive(k);
        lemma_pow2_pos(1074);
        assert(0 <= u * t) by (nonlinear_arith)
            requires
                0 <= u,
                0 < t,
        ;
        lemma_div_pos_is_pos(u * t, o);
        let n = nearest_whole(u * t, o);
        lemma_div_pos_is_pos(n, t);
        lemma_mod_bound(n, t);
        lemma_digits_plain(n);
        lemma_digits_plain(n / t);
        lemma_padded_plain(n % t, k);
    }
}

/// The number that decimal digits denote.
pub open spec fn read(s: Seq<char>) -> int
    decreases s.len(),
{
    if s.len() == 0 {
        0
    } else {
        10 * read(s.drop_last()) + (s.last() as int - 48)
    }
}

/// The digits of a whole number denote it.
pub proof fn lemma_digits_read_back(n: int)
    requires
        0 <= n,
    ensures
        read(digits(n)) == n,
    decreases n,
{
    if n >= 10 {
        lemma_digits_read_back(n / 10);
        assert(digits(n).drop_last() =~= digits(n / 10));
    } else {
        assert(digits(n).drop_last() =~= Seq::<char>::empty());
        assert(read(digits(n).drop_last()) == 0);
    }
}

/// The padded digits of a whole number that fits denote it.
pub proof fn lemma_padded_read_back(n: int, width: nat)
    requires
        0 <= n < ten(width),
    ensures
        padded(n, width).len() == width,
        read(padded(n, width)) == n,
    decreases width,
{
    if width > 0 {
        lemma_padded_read_back(n / 10, (width - 1) as nat);
        assert(padded(n, width).drop_last() =~= padded(n / 10, (width - 1) as nat));
    }
}

/// Rounding to a whole number moves by at most a half.
pub proof fn lemma_nearest_whole_close(n: int, d: int)
    requires
        0 < d,
    ensures
        2 * vstd::math::abs(n - d * nearest_whole(n, d)) <= d,
{
    lemma_fundamental_div_mod(n, d);
    lemma_mod_bound(n, d);
    let q = n / d;
    assert(d * (q + 1) == d * q + d) by (nonlinear_arith);
}

/// A text without its minus sign, if it has one in front.
pub open spec fn unsigned(s: Seq<char>) -> Seq<char> {
    if s.len() > 0 && s[0] == '-' {
        s.skip(1)
    } else {
        s
    }
}

/// A decimal digit.
pub open spec fn is_digit(c: char) -> bool {
    48 <= c as int <= 57
}

/// A decimal numeral with `k` digits behind the point, and a minus sign or none.
pub open spec fn is_numeral(s: Seq<char>, k: nat) -> bool {
    let u = unsigned(s);
    if k == 0 {
        u.len() > 0 && forall|i: int| 0 <= i < u.len() ==> is_digit(#[trigger] u[i])
    } else {
        let p = u.len() - 1 - k;
        &&& p > 0
        &&& u[p] == '.'
        &&& forall|i: int| 0 <= i < u.len() && i != p ==> is_digit(#[trigger] u[i])
    }
}

/// The number that a numeral with `k` digits behind the point denotes, times ten to
/// the power of `k`.
pub open spec fn denoted(s: Seq<char>, k: nat) -> int {
    let u = unsigned(s);
    let n = if k == 0 {
        read(u)
    } else {
        read(u.take(u.len() - 1 - k)) * ten(k) + read(u.skip(u.len() - k))
    };
    if s.len() > 0 && s[0] == '-' {
        -n
    } else {
        n
    }
}

/// A text denotes a number with `k` digits behind the point: it reads back as the
/// decimal nearest to it, the even one of two, with its sign; a NaN and an infinity
/// have names.
pub open spec fn denotes(s: Seq<char>, x: Binary64, k: nat) -> bool {
    if x.nan() {
        s == "NaN"@
    } else if x.infinite() {
        s == if x.negative() {
            "-inf"@
        } else {
            "inf"@
        }
    } else {
        let off = binary64::one() * denoted(s, k) - x.value() * ten(k);
        &&& is_numeral(s, k)
        &&& s[0] == '-' <==> x.negative()
        &&& 2 * vstd::math::abs(off) <= binary64::one()
        &&& 2 * vstd::math::abs(off) == binary64::one() ==> denoted(s, k) % 2 == 0
    }
}

pub(crate) proof fn lemma_digits_are_digits(n: int)
    requires
        0 <= n,
    ensures
        digits(n).len() > 0,
        forall|i: int| 0 <= i < digits(n).len() ==> is_digit(#[trigger] digits(n)[i]),
    decreases n,
{
    if n >= 10 {
        lemma_digits_are_digits(n / 10);
        let s = digits(n);
        assert forall|i: int| 0 <= i < s.len() implies is_digit(#[trigger] s[i]) by {
            if i < s.len() - 1 {
                assert(s[i] == digits(n / 10)[i]);
            }
        }
    }
}

proof fn lemma_padded_are_digits(n: int, width: nat)
    requires
        0 <= n,
    ensures
        forall|i: int| 0 <= i < padded(n, width).len() ==> is_digit(#[trigger] padded(n, width)[i]),
    decreases width,
{
    if width > 0 {
        lemma_padded_are_digits(n / 10, (width - 1) as nat);
        let s = padded(n, width);
        assert forall|i: int| 0 <= i < s.len() implies is_digit(#[trigger] s[i]) by {
            if i < s.len() - 1 {
                assert(s[i] == padded(n / 10, (width - 1) as nat)[i]);
            }
        }
    }
}

/// The decimal of a whole number of parts reads back as that number.
proof fn lemma_point_reads_back(n: int, k: nat)
    requires
        0 <= n,
    ensures
        is_numeral(point(n, k), k),
        denoted(point(n, k), k) == n,
        point(n, k).len() > 0,
        point(n, k)[0] != '-',
{
    lemma_ten_positive(k);
    let t = ten(k);
    if k == 0 {
        lemma_digits_are_digits(n);
        lemma_digits_read_back(n);
        assert(is_digit(digits(n)[0]));
    } else {
        let (q, r) = (n / t, n % t);
        lemma_div_pos_is_pos(n, t);
        lemma_mod_bound(n, t);
        lemma_fundamental_div_mod(n, t);
        lemma_digits_are_digits(q);
        lemma_digits_read_back(q);
        lemma_padded_are_digits(r, k);
        lemma_padded_read_back(r, k);
        let s = point(n, k);
        let p = s.len() - 1 - k;
        assert(p == digits(q).len());
        assert(is_digit(digits(q)[0]));
        assert(s[0] == digits(q)[0]);
        assert forall|i: int| 0 <= i < s.len() && i != p implies is_digit(#[trigger] s[i]) by {
            if i < p {
                assert(s[i] == digits(q)[i]);
            } else {
                assert(s[i] == padded(r, k)[i - p - 1]);
            }
        }
        assert(s.take(p) =~= digits(q));
        assert(s.skip(s.len() - k) =~= padded(r, k));
        assert(t * q == q * t) by (nonlinear_arith);
    }
}

/// A number reads back from its text: what is written with `k` digits behind the
/// point denotes it.
pub proof fn lemma_fixed_reads_back(x: Binary64, k: nat)
    ensures
        denotes(fixed(x, k), x, k),
{
    reveal_strlit("inf");
    reveal_strlit("-inf");
    if x.infinite() {
        assert(seq!['-'] + "inf"@ =~= "-inf"@);
        assert(Seq::<char>::empty() + "inf"@ =~= "inf"@);
    } else if x.finite() {
        let u = grid::units(x.magnitude());
        let (t, o) = (ten(k), binary64::one());
        grid::lemma_units_small(0);
        if x.magnitude() > 0 {
            grid::lemma_units_increase(0, x.magnitude());
        }
        lemma_ten_positive(k);
        lemma_pow2_pos(1074);
        assert(0 <= u * t && (-u) * t == -(u * t)) by (nonlinear_arith)
            requires
                0 <= u,
                0 < t,
        ;
        lemma_div_pos_is_pos(u * t, o);
        lemma_fundamental_div_mod(u * t, o);
        lemma_mod_bound(u * t, o);
        let n = nearest_whole(u * t, o);
        lemma_nearest_whole_close(u * t, o);
        let q = (u * t) / o;
        assert(o * (q + 1) == o * q + o) by (nonlinear_arith);
        assert(o * (-n) == -(o * n)) by (nonlinear_arith);
        lemma_point_reads_back(n, k);
        let s = fixed(x, k);
        let p = point(n, k);
        if x.negative() {
            assert(s =~= seq!['-'] + p);
            assert(s.skip(1) =~= p);
        } else {
            assert(s =~= p);
        }
    }
}

/// Two numbers with the same text differ by less than the last digit is worth, or by
/// just as much.
pub proof fn lemma_same_text(x: Binary64, y: Binary64, k: nat)
    requires
        x.finite(),
        y.finite(),
        fixed(x, k) == fixed(y, k),
    ensures
        vstd::math::abs(x.value() - y.value()) * ten(k) <= binary64::one(),
{
    lemma_fixed_reads_back(x, k);
    lemma_fixed_reads_back(y, k);
    lemma_ten_positive(k);
    let (a, b, t) = (x.value(), y.value(), ten(k));
    let d = a - b;
    assert(d * t == a * t - b * t) by (nonlinear_arith)
        requires
            d == a - b,
    ;
    assert(vstd::math::abs(d) * t == vstd::math::abs(d * t)) by (nonlinear_arith)
        requires
            t > 0,
    ;
}

} // verus!

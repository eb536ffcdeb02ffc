//! Decimal notation for the numbers that appear in exported scenes.

use vstd::prelude::*;
use vstd::string::*;

verus! {

/// The character that denotes the decimal digit `d`.
pub open spec fn digit_char(d: int) -> char {
    if d == 0 {
        '0'
    } else if d == 1 {
        '1'
    } else if d == 2 {
        '2'
    } else if d == 3 {
        '3'
    } else if d == 4 {
        '4'
    } else if d == 5 {
        '5'
    } else if d == 6 {
        '6'
    } else if d == 7 {
        '7'
    } else if d == 8 {
        '8'
    } else {
        '9'
    }
}

/// The decimal digits of `n`, most significant first, without leading zeros.
pub open spec fn digits(n: nat) -> Seq<char>
    decreases n,
{
    if n < 10 {
        seq![digit_char(n as int)]
    } else {
        digits(n / 10).push(digit_char((n % 10) as int))
    }
}

/// The decimal notation of `v`: a minus sign for a negative number, then the
/// digits of its magnitude.
pub open spec fn decimal(v: int) -> Seq<char> {
    if v < 0 {
        seq!['-'] + digits((-v) as nat)
    } else {
        digits(v as nat)
    }
}

/// The one-character text of the digit `d`.
fn digit_str(d: u64) -> (s: &'static str)
    requires
        d < 10,
    ensures
        s@ == seq![digit_char(d as int)],
{
    proof {
        reveal_strlit("0");
        reveal_strlit("1");
        reveal_strlit("2");
        reveal_strlit("3");
        reveal_strlit("4");
        reveal_strlit("5");
        reveal_strlit("6");
        reveal_strlit("7");
        reveal_strlit("8");
        reveal_strlit("9");
    }
    let s = if d == 0 {
        "0"
    } else if d == 1 {
        "1"
    } else if d == 2 {
        "2"
    } else if d == 3 {
        "3"
    } else if d == 4 {
        "4"
    } else if d == 5 {
        "5"
    } else if d == 6 {
        "6"
    } else if d == 7 {
        "7"
    } else if d == 8 {
        "8"
    } else {
        "9"
    };
    assert(s@ =~= seq![digit_char(d as int)]);
    s
}

/// Appends the decimal digits of `n` to `out`.
pub fn push_digits(out: &mut String, n: u64)
    ensures
        final(out)@ == old(out)@ + digits(n as nat),
    decreases n,
{
    if n >= 10 {
        push_digits(out, n / 10);
    }
    out.append(digit_str(n % 10));
    assert(out@ =~= old(out)@ + digits(n as nat));
}

/// Appends the decimal notation of `v` to `out`.
pub fn push_decimal(out: &mut String, v: i64)
    ensures
        final(out)@ == old(out)@ + decimal(v as int),
{
    if v < 0 {
        proof {
            reveal_strlit("-");
        }
        out.append("-");
        let magnitude: u64 = (-(v + 1)) as u64 + 1;
        push_digits(out, magnitude);
        assert(out@ =~= old(out)@ + decimal(v as int));
    } else {
        push_digits(out, v as u64);
    }
}

/// The number that a digit character denotes.
pub open spec fn digit_value(c: char) -> int {
    if c == '0' {
        0
    } else if c == '1' {
        1
    } else if c == '2' {
        2
    } else if c == '3' {
        3
    } else if c == '4' {
        4
    } else if c == '5' {
        5
    } else if c == '6' {
        6
    } else if c == '7' {
        7
    } else if c == '8' {
        8
    } else {
        9
    }
}

/// The number that a sequence of digits denotes.
pub open spec fn digits_value(s: Seq<char>) -> nat
    decreases s.len(),
{
    if s.len() == 0 {
        0
    } else {
        (digits_value(s.drop_last()) * 10 + digit_value(s.last())) as nat
    }
}

/// `c` is one of the ten digit characters.
pub open spec fn is_digit(c: char) -> bool {
    c == '0' || c == '1' || c == '2' || c == '3' || c == '4' || c == '5' || c == '6' || c == '7'
        || c == '8' || c == '9'
}

/// The digits of a number are digit characters, at least one, and denote the
/// number.
pub proof fn lemma_digits(n: nat)
    ensures
        digits(n).len() > 0,
        forall|i: int| 0 <= i < digits(n).len() ==> is_digit(#[trigger] digits(n)[i]),
        digits_value(digits(n)) == n,
    decreases n,
{
    if n < 10 {
        assert(digits(n).drop_last() =~= Seq::<char>::empty());
        assert(digits_value(digits(n).drop_last()) == 0);
    } else {
        lemma_digits(n / 10);
        let s = digits(n);
        assert(s.drop_last() =~= digits(n / 10));
        assert(s.last() == digit_char((n % 10) as int));
        assert forall|i: int| 0 <= i < s.len() implies is_digit(#[trigger] s[i]) by {
            if i < s.len() - 1 {
                assert(s[i] == digits(n / 10)[i]);
            }
        }
    }
}

/// Decimal notation is made of digits and, in front of a negative number, a
/// minus sign: it holds no comma, no point, no blank and no line feed.
pub proof fn lemma_decimal_plain(v: int)
    ensures
        decimal(v).len() > 0,
        !decimal(v).contains(','),
        !decimal(v).contains('\n'),
        !decimal(v).contains(' '),
        !decimal(v).contains('.'),
{
    let s = decimal(v);
    if v < 0 {
        lemma_digits((-v) as nat);
    } else {
        lemma_digits(v as nat);
    }
    assert forall|i: int| 0 <= i < s.len() implies (#[trigger] s[i] == '-' || is_digit(s[i])) by {
        if v < 0 && i > 0 {
            assert(s[i] == digits((-v) as nat)[i - 1]);
        }
    }
}

/// Numbers with the same decimal notation are the same number.
pub proof fn lemma_decimal_injective(v: int, w: int)
    requires
        decimal(v) == decimal(w),
    ensures
        v == w,
{
    if v < 0 {
        lemma_digits((-v) as nat);
        let a = digits((-v) as nat);
        assert(decimal(v)[0] == '-');
        assert(decimal(v).skip(1) =~= a);
        if w < 0 {
            lemma_digits((-w) as nat);
            assert(decimal(w).skip(1) =~= digits((-w) as nat));
        } else {
            lemma_digits(w as nat);
            assert(is_digit(digits(w as nat)[0]));
        }
    } else {
        lemma_digits(v as nat);
        if w < 0 {
            lemma_digits((-w) as nat);
            assert(decimal(w)[0] == '-');
            assert(is_digit(digits(v as nat)[0]));
        } else {
            lemma_digits(w as nat);
        }
    }
}

/// `10^k`.
pub open spec fn pow10(k: nat) -> nat
    decreases k,
{
    if k == 0 {
        1
    } else {
        10 * pow10((k - 1) as nat)
    }
}

/// The `k`-th digit after the decimal point of the quotient `num / den`.
pub open spec fn fraction_digit(num: nat, den: nat, k: nat) -> int {
    ((num * pow10(k)) / den) as int % 10
}

/// The first `places` digits after the decimal point of `num / den`.
pub open spec fn fraction_digits(num: nat, den: nat, places: nat) -> Seq<char> {
    Seq::new(places, |i: int| digit_char(fraction_digit(num, den, (i + 1) as nat)))
}

/// `s` without the zeros at its end.
pub open spec fn strip_trailing_zeros(s: Seq<char>) -> Seq<char>
    decreases s.len(),
{
    if s.len() > 0 && s.last() == '0' {
        strip_trailing_zeros(s.drop_last())
    } else {
        s
    }
}

/// The decimal notation of the quotient `num / den`, cut off after `places`
/// digits behind the point: the integer part, then, unless all those digits
/// are zero, a point and the digits up to the last one that is not zero.
pub open spec fn fraction_text(num: nat, den: nat, places: nat) -> Seq<char> {
    let tail = strip_trailing_zeros(fraction_digits(num, den, places));
    if tail.len() == 0 {
        digits(num / den)
    } else {
        digits(num / den) + seq!['.'] + tail
    }
}

/// One step of long division: the next digit and the next remainder.
proof fn lemma_long_division_step(a: nat, den: nat)
    requires
        den > 0,
    ensures
        ((a % den) * 10) / den == ((a * 10) / den) % 10,
        ((a % den) * 10) % den == (a * 10) % den,
        0 <= ((a % den) * 10) / den < 10,
{
    let q = (a / den) as int;
    let r = (a % den) as int;
    let d = den as int;
    vstd::arithmetic::div_mod::lemma_fundamental_div_mod(a as int, d);
    vstd::arithmetic::div_mod::lemma_mod_bound(a as int, d);
    assert(a * 10 == (10 * q) * d + r * 10) by (nonlinear_arith)
        requires
            a == d * q + r,
    ;
    let t = r * 10;
    let tq = t / d;
    let tr = t % d;
    vstd::arithmetic::div_mod::lemma_fundamental_div_mod(t, d);
    vstd::arithmetic::div_mod::lemma_mod_bound(t, d);
    assert(0 <= tq < 10) by (nonlinear_arith)
        requires
            t == d * tq + tr,
            0 <= tr < d,
            0 <= t < 10 * d,
            d > 0,
    ;
    assert(a * 10 == (10 * q + tq) * d + tr) by (nonlinear_arith)
        requires
            a * 10 == (10 * q) * d + t,
            t == d * tq + tr,
    ;
    vstd::arithmetic::div_mod::lemma_fundamental_div_mod_converse(
        a as int * 10,
        d,
        10 * q + tq,
        tr,
    );
}

/// Digits cut off behind position `len` do not matter when they are zeros.
proof fn lemma_strip_zero_suffix(s: Seq<char>, len: int)
    requires
        0 <= len <= s.len(),
        forall|i: int| len <= i < s.len() ==> s[i] == '0',
    ensures
        strip_trailing_zeros(s) == strip_trailing_zeros(s.take(len)),
    decreases s.len() - len,
{
    if len == s.len() {
        assert(s.take(len) =~= s);
    } else {
        assert(s.last() == '0');
        assert(s.drop_last().take(len) =~= s.take(len));
        lemma_strip_zero_suffix(s.drop_last(), len);
    }
}

/// Appends to `out` the decimal notation of `num / den`, cut off after
/// `places` digits behind the point.
pub fn push_fraction(out: &mut String, num: u64, den: u32, places: u8)
    requires
        den > 0,
    ensures
        final(out)@ == old(out)@ + fraction_text(num as nat, den as nat, places as nat),
{
    let ghost start = out@;
    let wide: u64 = den as u64;
    push_digits(out, num / wide);
    let mut found: Vec<u64> = Vec::new();
    let mut rem: u64 = num % wide;
    let mut k: u8 = 0;
    proof {
        assert(pow10(0) == 1);
        assert(num as nat * pow10(0) == num as nat) by (nonlinear_arith)
            requires
                pow10(0) == 1,
        ;
    }
    while k < places
        invariant
            k <= places,
            wide == den,
            den > 0,
            found@.len() == k,
            rem == (num as nat * pow10(k as nat)) % (den as nat),
            forall|i: int|
                0 <= i < k ==> found@[i] == #[trigger] fraction_digit(
                    num as nat,
                    den as nat,
                    (i + 1) as nat,
                ),
            forall|i: int| 0 <= i < k ==> 0 <= #[trigger] found@[i] < 10,
        decreases places - k,
    {
        proof {
            let a = num as nat * pow10(k as nat);
            lemma_long_division_step(a, den as nat);
            assert(a * 10 == num as nat * pow10((k + 1) as nat)) by (nonlinear_arith)
                requires
                    a == num as nat * pow10(k as nat),
                    pow10((k + 1) as nat) == 10 * pow10(k as nat),
            ;
        }
        let scaled: u64 = rem * 10;
        found.push(scaled / wide);
        rem = scaled % wide;
        k = k + 1;
    }
    let ghost all = fraction_digits(num as nat, den as nat, places as nat);
    let mut len: usize = found.len();
    while len > 0 && found[len - 1] == 0
        invariant
            len <= found@.len(),
            found@.len() == places,
            all.len() == places,
            forall|i: int| 0 <= i < places ==> all[i] == digit_char(found@[i] as int),
            forall|i: int| 0 <= i < places ==> 0 <= #[trigger] found@[i] < 10,
            forall|i: int| len <= i < places ==> all[i] == '0',
        decreases len,
    {
        len = len - 1;
    }
    proof {
        lemma_strip_zero_suffix(all, len as int);
        if len > 0 {
            let cut = all.take(len as int);
            assert(cut.last() != '0');
            assert(strip_trailing_zeros(cut) == cut);
        } else {
            assert(all.take(0).len() == 0);
        }
    }
    if len > 0 {
        proof {
            reveal_strlit(".");
        }
        out.append(".");
        let mut i: usize = 0;
        while i < len
            invariant
                i <= len <= found@.len(),
                found@.len() == places,
                all.len() == places,
                forall|j: int| 0 <= j < places ==> all[j] == digit_char(found@[j] as int),
                forall|j: int| 0 <= j < places ==> 0 <= #[trigger] found@[j] < 10,
                out@ == start + digits((num as nat) / (den as nat)) + seq!['.'] + all.take(
                    i as int,
                ),
            decreases len - i,
        {
            out.append(digit_str(found[i]));
            assert(all.take(i + 1) =~= all.take(i as int).push(all[i as int]));
            i = i + 1;
        }
        assert(out@ =~= start + fraction_text(num as nat, den as nat, places as nat));
    }
}

} // verus!

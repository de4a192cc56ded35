//! Pixel quantities as fixed-point decimals: a quantity is a whole number of
//! millionths of a pixel, read from and written as plain decimal notation.

use crate::text::chars_of;
use vstd::prelude::*;

verus! {

/// The number of units in one pixel.
pub const UNITS_PER_PIXEL: i64 = 1_000_000;

/// Whether `c` is one of the ten decimal digits.
pub open spec fn is_digit(c: char) -> bool {
    '0' <= c && c <= '9'
}

/// The number that the digit `c` stands for.
pub open spec fn digit_value(c: char) -> int {
    c as int - 48
}

/// Whether every character of `s` is a decimal digit.
pub open spec fn all_digits(s: Seq<char>) -> bool {
    forall|i: int| 0 <= i < s.len() ==> is_digit(#[trigger] s[i])
}

/// The natural number that a run of decimal digits denotes.
pub open spec fn digits_value(s: Seq<char>) -> int
    decreases s.len(),
{
    if s.len() == 0 {
        0
    } else {
        digits_value(s.drop_last()) * 10 + digit_value(s.last())
    }
}

/// The `k`-th digit after the decimal point, zero past the end.
pub open spec fn fraction_digit(f: Seq<char>, k: int) -> int {
    if 0 <= k < f.len() {
        digit_value(f[k])
    } else {
        0
    }
}

/// The millionths that the digits after the decimal point denote; digits
/// past the sixth are dropped.
pub open spec fn fraction_units(f: Seq<char>) -> int {
    fraction_digit(f, 0) * 100_000 + fraction_digit(f, 1) * 10_000 + fraction_digit(f, 2) * 1_000
        + fraction_digit(f, 3) * 100 + fraction_digit(f, 4) * 10 + fraction_digit(f, 5)
}

/// The index of the first decimal point of `s`, or its length if it has none.
pub open spec fn dot_position(s: Seq<char>) -> int
    decreases s.len(),
{
    if s.len() == 0 || s[0] == '.' {
        0
    } else {
        1 + dot_position(s.drop_first())
    }
}

/// What stands before the decimal point.
pub open spec fn whole_part(body: Seq<char>) -> Seq<char> {
    body.take(dot_position(body))
}

/// What stands after the decimal point.
pub open spec fn fraction_part(body: Seq<char>) -> Seq<char> {
    if dot_position(body) < body.len() {
        body.skip(dot_position(body) + 1)
    } else {
        Seq::empty()
    }
}

/// An unsigned decimal: digits, with at most one decimal point among them,
/// and at least one digit.
pub open spec fn is_decimal(body: Seq<char>) -> bool {
    &&& all_digits(whole_part(body))
    &&& all_digits(fraction_part(body))
    &&& whole_part(body).len() + fraction_part(body).len() > 0
}

/// The units that an unsigned decimal denotes.
pub open spec fn decimal_units(body: Seq<char>) -> int {
    digits_value(whole_part(body)) * 1_000_000 + fraction_units(fraction_part(body))
}

/// Whether `s` starts with a sign.
pub open spec fn has_sign(s: Seq<char>) -> bool {
    s.len() > 0 && (s[0] == '-' || s[0] == '+')
}

/// `s` without its sign.
pub open spec fn unsigned_part(s: Seq<char>) -> Seq<char> {
    if has_sign(s) {
        s.drop_first()
    } else {
        s
    }
}

/// The quantity that `s` denotes, in units: an optional sign, then an
/// unsigned decimal. `None` where `s` is not of that form.
pub open spec fn number_value(s: Seq<char>) -> Option<int> {
    if is_decimal(unsigned_part(s)) {
        if s[0] == '-' {
            Some(-decimal_units(unsigned_part(s)))
        } else {
            Some(decimal_units(unsigned_part(s)))
        }
    } else {
        None
    }
}

/// The quantity that `s` denotes, where it denotes one that fits.
pub open spec fn parsed_number(s: Seq<char>) -> Option<i64> {
    match number_value(s) {
        Some(v) => if i64::MIN <= v <= i64::MAX {
            Some(v as i64)
        } else {
            None
        },
        None => None,
    }
}

proof fn lemma_dot_position(s: Seq<char>, k: int)
    requires
        0 <= k <= s.len(),
        forall|j: int| 0 <= j < k ==> s[j] != '.',
    ensures
        k <= dot_position(s) <= s.len(),
        (k == s.len() || s[k] == '.') ==> dot_position(s) == k,
        dot_position(s) < s.len() ==> s[dot_position(s)] == '.',
    decreases s.len(),
{
    if s.len() == 0 || s[0] == '.' {
    } else {
        if k == 0 {
            lemma_dot_position(s.drop_first(), 0);
        } else {
            lemma_dot_position(s.drop_first(), k - 1);
        }
    }
}

/// A run of digits denotes no less than any run that it starts with.
pub proof fn lemma_digits_value_grows(s: Seq<char>, k: int)
    requires
        0 <= k <= s.len(),
        all_digits(s),
    ensures
        0 <= digits_value(s.take(k)) <= digits_value(s),
    decreases s.len() - k,
{
    lemma_digits_value_nonnegative(s.take(k));
    if k < s.len() {
        lemma_digits_value_grows(s, k + 1);
        assert(s.take(k + 1).drop_last() =~= s.take(k));
        assert(is_digit(s[k]));
    } else {
        assert(s.take(k) =~= s);
    }
}

proof fn lemma_digits_value_nonnegative(s: Seq<char>)
    requires
        all_digits(s),
    ensures
        0 <= digits_value(s),
    decreases s.len(),
{
    if s.len() > 0 {
        lemma_digits_value_nonnegative(s.drop_last());
        assert(is_digit(s[s.len() - 1]));
    }
}

fn digit_of(c: char) -> (d: Option<u8>)
    ensures
        d is Some == is_digit(c),
        d matches Some(x) ==> x == digit_value(c) && x <= 9,
{
    if '0' <= c && c <= '9' {
        Some((c as u32 - 48) as u8)
    } else {
        None
    }
}

fn fraction_digit_at(v: &Vec<char>, from: usize, k: usize) -> (d: i128)
    requires
        from <= v.len(),
        k < 6,
        all_digits(v@.skip(from as int)),
    ensures
        d == fraction_digit(v@.skip(from as int), k as int),
        0 <= d <= 9,
{
    if k < v.len() - from {
        assert(v@.skip(from as int)[k as int] == v@[from + k]);
        assert(is_digit(v@.skip(from as int)[k as int]));
        match digit_of(v[from + k]) {
            Some(d) => d as i128,
            None => 0,
        }
    } else {
        0
    }
}

/// Reads a quantity in decimal notation: an optional sign, digits, and
/// optionally a decimal point among them. Returns `None` where `s` is not of
/// that form or the quantity does not fit.
pub fn parse_number(s: &str) -> (r: Option<i64>)
    ensures
        r == parsed_number(s@),
{
    let v = chars_of(s);
    let n = v.len();
    let negative = n > 0 && v[0] == '-';
    let start: usize = if n > 0 && (v[0] == '-' || v[0] == '+') {
        1
    } else {
        0
    };
    let ghost body = unsigned_part(v@);
    assert(body =~= v@.skip(start as int));
    let mut whole: i128 = 0;
    let mut i: usize = start;
    while i < n
        invariant
            start <= i <= n,
            n == v.len(),
            v@ == s@,
            body == v@.skip(start as int),
            body == unsigned_part(v@),
            all_digits(body.take(i - start)),
            whole == digits_value(body.take(i - start)),
            0 <= whole <= 9_223_372_036_854,
        ensures
            i < n ==> !is_digit(v@[i as int]),
        decreases n - i,
    {
        let d = match digit_of(v[i]) {
            Some(d) => d,
            None => {
                break ;
            },
        };
        proof {
            assert(body[i - start] == v@[i as int]);
            assert(body.take(i - start + 1).drop_last() =~= body.take(i - start));
            assert(body.take(i - start + 1).last() == v@[i as int]);
            assert forall|j: int| 0 <= j < i - start + 1 implies is_digit(
                #[trigger] body.take(i - start + 1)[j],
            ) by {
                if j < i - start {
                    assert(body.take(i - start + 1)[j] == body.take(i - start)[j]);
                }
            }
        }
        whole = whole * 10 + d as i128;
        i += 1;
        assert(whole == digits_value(body.take(i - start)));
        if whole > 9_223_372_036_854 {
            proof {
                assert forall|j: int| 0 <= j < i - start implies body[j] != '.' by {
                    assert(is_digit(body.take(i - start)[j]));
                }
                lemma_dot_position(body, i - start);
                if is_decimal(body) {
                    lemma_digits_value_grows(whole_part(body), i - start);
                    assert(whole_part(body).take(i - start) =~= body.take(i - start));
                    lemma_fraction_units_bounds(fraction_part(body));
                    assert(decimal_units(body) > i64::MAX + 1);
                }
                assert(body == unsigned_part(s@));
                assert(parsed_number(s@) is None);
            }
            return None;
        }
    }
    let whole_len = i - start;
    proof {
        assert forall|j: int| 0 <= j < whole_len implies body[j] != '.' by {
            assert(is_digit(body.take(whole_len as int)[j]));
        }
        lemma_dot_position(body, whole_len as int);
        if i < n {
            assert(body[whole_len as int] == v@[i as int]);
        }
    }
    if i < n && v[i] != '.' {
        proof {
            // The whole part runs past a character that is no digit.
            if dot_position(body) > whole_len {
                assert(whole_part(body)[whole_len as int] == body[whole_len as int]);
                assert(!is_digit(whole_part(body)[whole_len as int]));
            }
            assert(!is_decimal(body));
        }
        return None;
    }
    assert(dot_position(body) == whole_len);
    assert(whole_part(body) =~= body.take(whole_len as int));
    let fraction_start: usize = if i < n {
        i + 1
    } else {
        n
    };
    assert(fraction_part(body) =~= v@.skip(fraction_start as int));
    let mut j: usize = fraction_start;
    while j < n
        invariant
            fraction_start <= j <= n,
            n == v.len(),
            v@ == s@,
            body == unsigned_part(v@),
            fraction_part(body) == v@.skip(fraction_start as int),
            forall|k: int| fraction_start <= k < j ==> is_digit(#[trigger] v@[k]),
        decreases n - j,
    {
        if digit_of(v[j]).is_none() {
            proof {
                assert(fraction_part(body)[j - fraction_start] == v@[j as int]);
                assert(!is_digit(fraction_part(body)[j - fraction_start]));
                assert(!is_decimal(body));
            }
            return None;
        }
        j += 1;
    }
    assert forall|k: int| 0 <= k < v@.skip(fraction_start as int).len() implies is_digit(
        #[trigger] v@.skip(fraction_start as int)[k],
    ) by {
        assert(v@.skip(fraction_start as int)[k] == v@[fraction_start + k]);
    }
    if whole_len + (n - fraction_start) == 0 {
        return None;
    }
    let units: i128 = fraction_digit_at(&v, fraction_start, 0) * 100_000 + fraction_digit_at(
        &v,
        fraction_start,
        1,
    ) * 10_000 + fraction_digit_at(&v, fraction_start, 2) * 1_000 + fraction_digit_at(
        &v,
        fraction_start,
        3,
    ) * 100 + fraction_digit_at(&v, fraction_start, 4) * 10 + fraction_digit_at(
        &v,
        fraction_start,
        5,
    );
    let magnitude: i128 = whole * 1_000_000 + units;
    let value: i128 = if negative {
        -magnitude
    } else {
        magnitude
    };
    assert(number_value(v@) == Some(value as int));
    if value < i64::MIN as i128 || value > i64::MAX as i128 {
        None
    } else {
        Some(value as i64)
    }
}

proof fn lemma_fraction_units_bounds(f: Seq<char>)
    requires
        all_digits(f),
    ensures
        0 <= fraction_units(f) <= 999_999,
{
    assert forall|k: int| 0 <= #[trigger] fraction_digit(f, k) <= 9 by {
        if 0 <= k < f.len() {
            assert(is_digit(f[k]));
        }
    }
}

/// The character that writes the digit `d`.
pub open spec fn digit_char(d: int) -> char {
    (d + 48) as char
}

/// The decimal digits of a natural number, without leading zeros.
pub open spec fn natural_text(n: int) -> Seq<char>
    decreases n,
{
    if n < 10 {
        seq![digit_char(n)]
    } else {
        natural_text(n / 10).push(digit_char(n % 10))
    }
}

/// The six digits that write `f` millionths.
pub open spec fn six_digits(f: int) -> Seq<char> {
    seq![
        digit_char(f / 100_000 % 10),
        digit_char(f / 10_000 % 10),
        digit_char(f / 1_000 % 10),
        digit_char(f / 100 % 10),
        digit_char(f / 10 % 10),
        digit_char(f % 10),
    ]
}

/// `s` up to its last character that is not `0`.
pub open spec fn without_trailing_zeros(s: Seq<char>) -> Seq<char>
    decreases s.len(),
{
    if s.len() > 0 && s.last() == '0' {
        without_trailing_zeros(s.drop_last())
    } else {
        s
    }
}

/// What follows the whole part: nothing for a whole number, else the decimal
/// point and the fraction's digits up to the last that is not zero.
pub open spec fn fraction_text(f: int) -> Seq<char> {
    if f == 0 {
        Seq::empty()
    } else {
        seq!['.'] + without_trailing_zeros(six_digits(f))
    }
}

/// The absolute value of `v`.
pub open spec fn magnitude(v: int) -> int {
    if v < 0 {
        -v
    } else {
        v
    }
}

/// The sign that is written before a negative quantity.
pub open spec fn sign_text(v: int) -> Seq<char> {
    if v < 0 {
        seq!['-']
    } else {
        Seq::empty()
    }
}

/// The decimal notation of a quantity of `v` units.
pub open spec fn number_text(v: int) -> Seq<char> {
    sign_text(v) + natural_text(magnitude(v) / 1_000_000) + fraction_text(
        magnitude(v) % 1_000_000,
    )
}

proof fn lemma_digit_char(d: int)
    requires
        0 <= d <= 9,
    ensures
        is_digit(digit_char(d)),
        digit_value(digit_char(d)) == d,
        digit_char(d) != '.',
        digit_char(d) != '-',
        digit_char(d) != '+',
        (digit_char(d) == '0') == (d == 0),
{
}

proof fn lemma_natural_text(n: int)
    requires
        0 <= n,
    ensures
        natural_text(n).len() >= 1,
        all_digits(natural_text(n)),
        digits_value(natural_text(n)) == n,
    decreases n,
{
    if n < 10 {
        lemma_digit_char(n);
        assert(natural_text(n).drop_last() =~= Seq::<char>::empty());
        assert(natural_text(n).last() == digit_char(n));
        assert(digits_value(Seq::<char>::empty()) == 0);
    } else {
        lemma_natural_text(n / 10);
        lemma_digit_char(n % 10);
        let t = natural_text(n / 10);
        assert(natural_text(n).drop_last() =~= t);
        assert(natural_text(n).last() == digit_char(n % 10));
        assert forall|i: int| 0 <= i < natural_text(n).len() implies is_digit(
            #[trigger] natural_text(n)[i],
        ) by {
            if i < t.len() {
                assert(is_digit(t[i]));
            }
        }
    }
}

proof fn lemma_without_trailing_zeros(s: Seq<char>)
    ensures
        without_trailing_zeros(s).len() <= s.len(),
        without_trailing_zeros(s) == s.take(without_trailing_zeros(s).len() as int),
        forall|k: int| without_trailing_zeros(s).len() <= k < s.len() ==> s[k] == '0',
        without_trailing_zeros(s).len() > 0 ==> without_trailing_zeros(s).last() != '0',
    decreases s.len(),
{
    if s.len() > 0 && s.last() == '0' {
        lemma_without_trailing_zeros(s.drop_last());
        let r = without_trailing_zeros(s.drop_last());
        assert(s.drop_last().take(r.len() as int) =~= s.take(r.len() as int));
        assert forall|k: int| r.len() <= k < s.len() implies s[k] == '0' by {
            if k < s.len() - 1 {
                assert(s.drop_last()[k] == '0');
            }
        }
    } else {
        assert(s.take(s.len() as int) =~= s);
    }
}

proof fn lemma_six_digit_sum(f: int)
    requires
        0 <= f < 1_000_000,
    ensures
        (f / 100_000 % 10) * 100_000 + (f / 10_000 % 10) * 10_000 + (f / 1_000 % 10) * 1_000 + (f
            / 100 % 10) * 100 + (f / 10 % 10) * 10 + f % 10 == f,
{
    let a1 = f / 10;
    let a2 = a1 / 10;
    let a3 = a2 / 10;
    let a4 = a3 / 10;
    let a5 = a4 / 10;
    assert(f / 100 == a2);
    assert(f / 1_000 == a3);
    assert(f / 10_000 == a4);
    assert(f / 100_000 == a5);
    assert(a5 < 10);
}

proof fn lemma_six_digits(f: int)
    requires
        0 <= f < 1_000_000,
    ensures
        all_digits(six_digits(f)),
        fraction_units(six_digits(f)) == f,
        all_digits(without_trailing_zeros(six_digits(f))),
        fraction_units(without_trailing_zeros(six_digits(f))) == f,
{
    let six = six_digits(f);
    lemma_six_digit_sum(f);
    lemma_digit_char(f / 100_000 % 10);
    lemma_digit_char(f / 10_000 % 10);
    lemma_digit_char(f / 1_000 % 10);
    lemma_digit_char(f / 100 % 10);
    lemma_digit_char(f / 10 % 10);
    lemma_digit_char(f % 10);
    assert(fraction_digit(six, 0) == f / 100_000 % 10);
    assert(fraction_digit(six, 1) == f / 10_000 % 10);
    assert(fraction_digit(six, 2) == f / 1_000 % 10);
    assert(fraction_digit(six, 3) == f / 100 % 10);
    assert(fraction_digit(six, 4) == f / 10 % 10);
    assert(fraction_digit(six, 5) == f % 10);
    lemma_without_trailing_zeros(six);
    let z = without_trailing_zeros(six);
    assert forall|k: int| 0 <= k < 6 implies fraction_digit(z, k) == fraction_digit(six, k) by {
        if k < z.len() {
            assert(z[k] == six.take(z.len() as int)[k]);
        } else {
            assert(six[k] == '0');
        }
    }
    assert forall|k: int| 0 <= k < z.len() implies is_digit(#[trigger] z[k]) by {
        assert(z[k] == six.take(z.len() as int)[k]);
        assert(is_digit(six[k]));
    }
}

/// Reading what was written gives the quantity back.
pub proof fn lemma_number_round_trip(v: int)
    ensures
        number_value(number_text(v)) == Some(v),
        i64::MIN <= v <= i64::MAX ==> parsed_number(number_text(v)) == Some(v as i64),
{
    let m = magnitude(v);
    let w = natural_text(m / 1_000_000);
    let f = m % 1_000_000;
    let t = number_text(v);
    let body = w + fraction_text(f);
    lemma_natural_text(m / 1_000_000);
    lemma_six_digits(f);
    assert(is_digit(w[0]));
    if v < 0 {
        assert(t[0] == '-');
        assert(t.drop_first() =~= body);
    } else {
        assert(t =~= body);
        assert(t[0] == w[0]);
    }
    assert(unsigned_part(t) == body);
    assert forall|j: int| 0 <= j < w.len() implies body[j] != '.' by {
        assert(is_digit(w[j]));
    }
    lemma_dot_position(body, w.len() as int);
    assert(dot_position(body) == w.len());
    assert(whole_part(body) =~= w);
    if f == 0 {
        assert(fraction_part(body) =~= Seq::<char>::empty());
    } else {
        assert(fraction_part(body) =~= without_trailing_zeros(six_digits(f)));
    }
}

/// A written quantity is made of a sign, digits and a decimal point, and
/// ends in a digit.
pub proof fn lemma_number_text_shape(v: int)
    ensures
        number_text(v).len() > 0,
        is_digit(number_text(v).last()),
        forall|i: int|
            0 <= i < number_text(v).len() ==> {
                let c = #[trigger] number_text(v)[i];
                is_digit(c) || c == '-' || c == '.'
            },
{
    let m = magnitude(v);
    let w = natural_text(m / 1_000_000);
    let f = m % 1_000_000;
    let t = number_text(v);
    lemma_natural_text(m / 1_000_000);
    lemma_six_digits(f);
    let z = without_trailing_zeros(six_digits(f));
    if f != 0 {
        if z.len() == 0 {
            assert(fraction_units(z) == 0);
        }
        assert(t.last() == z.last());
        assert(is_digit(z[z.len() - 1]));
    } else {
        assert(fraction_text(f) =~= Seq::<char>::empty());
        assert(t.last() == w.last());
        assert(is_digit(w[w.len() - 1]));
    }
    assert forall|i: int| 0 <= i < t.len() implies {
        let c = #[trigger] t[i];
        is_digit(c) || c == '-' || c == '.'
    } by {
        let sl = sign_text(v).len();
        if i < sl {
        } else if i < sl + w.len() {
            assert(t[i] == w[i - sl]);
            assert(is_digit(w[i - sl]));
        } else if i == sl + w.len() {
            assert(t[i] == '.');
        } else {
            assert(t[i] == z[i - sl - w.len() - 1]);
            assert(is_digit(z[i - sl - w.len() - 1]));
        }
    }
}

fn char_of_digit(d: u8) -> (c: char)
    requires
        d <= 9,
    ensures
        c == digit_char(d as int),
{
    (d + 48) as char
}

/// Appends the decimal digits of `n` to `s`.
pub fn push_natural(s: &mut String, n: u64)
    ensures
        final(s)@ == old(s)@ + natural_text(n as int),
    decreases n,
{
    if n < 10 {
        s.push(char_of_digit(n as u8));
        assert(s@ =~= old(s)@ + natural_text(n as int));
    } else {
        push_natural(s, n / 10);
        s.push(char_of_digit((n % 10) as u8));
        assert(s@ =~= old(s)@ + natural_text(n as int));
    }
}

fn push_fraction(s: &mut String, f: u64)
    requires
        f < 1_000_000,
    ensures
        final(s)@ == old(s)@ + fraction_text(f as int),
{
    if f == 0 {
        assert(s@ =~= old(s)@ + fraction_text(f as int));
        return ;
    }
    let mut digits: Vec<char> = Vec::new();
    digits.push(char_of_digit((f / 100_000 % 10) as u8));
    digits.push(char_of_digit((f / 10_000 % 10) as u8));
    digits.push(char_of_digit((f / 1_000 % 10) as u8));
    digits.push(char_of_digit((f / 100 % 10) as u8));
    digits.push(char_of_digit((f / 10 % 10) as u8));
    digits.push(char_of_digit((f % 10) as u8));
    assert(digits@ =~= six_digits(f as int));
    let mut keep: usize = 6;
    assert(digits@.take(6) =~= digits@);
    while keep > 0 && digits[keep - 1] == '0'
        invariant
            keep <= 6,
            digits.len() == 6,
            without_trailing_zeros(digits@.take(keep as int)) == without_trailing_zeros(digits@),
        decreases keep,
    {
        assert(digits@.take(keep as int).drop_last() =~= digits@.take(keep - 1));
        keep -= 1;
    }
    assert(without_trailing_zeros(digits@) == digits@.take(keep as int));
    s.push('.');
    let mut i: usize = 0;
    while i < keep
        invariant
            i <= keep <= 6,
            digits.len() == 6,
            s@ == old(s)@ + seq!['.'] + digits@.take(i as int),
        decreases keep - i,
    {
        s.push(digits[i]);
        assert(digits@.take(i as int).push(digits@[i as int]) =~= digits@.take(i + 1));
        assert(s@ =~= old(s)@ + seq!['.'] + digits@.take(i + 1));
        i += 1;
    }
    assert(s@ =~= old(s)@ + fraction_text(f as int));
}

/// Writes a quantity in decimal notation: the whole pixels, then, unless the
/// quantity is whole, a decimal point and the fraction without trailing zeros.
pub fn format_number(v: i64) -> (s: String)
    ensures
        s@ == number_text(v as int),
        parsed_number(s@) == Some(v),
{
    let m: u64 = if v < 0 {
        (-(v as i128)) as u64
    } else {
        v as u64
    };
    let mut s = String::new();
    if v < 0 {
        s.push('-');
    }
    assert(s@ =~= sign_text(v as int));
    push_natural(&mut s, m / 1_000_000);
    push_fraction(&mut s, m % 1_000_000);
    proof {
        lemma_number_round_trip(v as int);
    }
    s
}

} // verus!

//! Frequencies as the lists write them: decimal numbers of kilohertz.
use crate::text;
use vstd::prelude::*;

verus! {

/// An exponent beyond this counts as this.
pub const EXPONENT_LIMIT: u64 = 1_000_000;

/// The index of the letter that starts the exponent, or the length where there is none.
pub open spec fn exponent_index(s: Seq<char>, from: int) -> int
    decreases s.len() - from,
{
    if from >= s.len() {
        s.len() as int
    } else if s[from] == 'e' || s[from] == 'E' {
        from
    } else {
        exponent_index(s, from + 1)
    }
}

/// A text without a sign at its start.
pub open spec fn without_sign(s: Seq<char>) -> Seq<char> {
    if s.len() > 0 && (s[0] == '+' || s[0] == '-') {
        s.drop_first()
    } else {
        s
    }
}

/// The text starts with a minus sign.
pub open spec fn is_negative(s: Seq<char>) -> bool {
    s.len() > 0 && s[0] == '-'
}

/// The part of a number before its exponent, without the sign.
pub open spec fn mantissa(s: Seq<char>) -> Seq<char> {
    let t = without_sign(s);
    t.take(exponent_index(t, 0))
}

/// The digits before the decimal point.
pub open spec fn whole_digits(m: Seq<char>) -> Seq<char> {
    m.take(text::first_index(m, '.', 0))
}

/// The digits after the decimal point.
pub open spec fn fraction_digits(m: Seq<char>) -> Seq<char> {
    let dot = text::first_index(m, '.', 0);
    if dot < m.len() {
        m.skip(dot + 1)
    } else {
        Seq::empty()
    }
}

/// What stands behind the letter of the exponent; `None` where there is no exponent.
pub open spec fn exponent_text(s: Seq<char>) -> Option<Seq<char>> {
    let t = without_sign(s);
    let e = exponent_index(t, 0);
    if e < t.len() {
        Some(t.skip(e + 1))
    } else {
        None
    }
}

/// The text is a decimal number: digits with a decimal point among them or not, at least one
/// digit, then perhaps an exponent.
pub open spec fn is_decimal(s: Seq<char>) -> bool {
    let m = mantissa(s);
    &&& text::all_digits(whole_digits(m))
    &&& text::all_digits(fraction_digits(m))
    &&& whole_digits(m).len() + fraction_digits(m).len() > 0
    &&& exponent_text(s) matches Some(x) ==> without_sign(x).len() > 0 && text::all_digits(
        without_sign(x),
    )
}

/// The value of the exponent.
pub open spec fn exponent(s: Seq<char>) -> int {
    match exponent_text(s) {
        None => 0,
        Some(x) => {
            let n = text::number(without_sign(x));
            let bounded = if n < EXPONENT_LIMIT {
                n as int
            } else {
                EXPONENT_LIMIT as int
            };
            if is_negative(x) {
                -bounded
            } else {
                bounded
            }
        },
    }
}

/// The number that the first `l` digits make, with zeros behind where the digits are fewer.
pub open spec fn leading(digits: Seq<char>, l: int) -> int {
    if l <= 0 {
        0
    } else if l <= digits.len() {
        text::number(digits.take(l)) as int
    } else {
        text::number(digits) * vstd::arithmetic::power::pow(10, (l - digits.len()) as nat)
    }
}

/// A value no larger than the largest one that fits.
pub open spec fn bounded(n: int) -> int {
    if n < i64::MAX {
        n
    } else {
        i64::MAX as int
    }
}

/// The frequency in millihertz that a decimal number of kilohertz stands for: the decimal point
/// moves by six places and by the exponent. What is finer than a millihertz is dropped.
pub open spec fn millihertz(s: Seq<char>) -> int {
    let m = mantissa(s);
    let value = bounded(
        leading(
            whole_digits(m) + fraction_digits(m),
            whole_digits(m).len() + 6 + exponent(s),
        ),
    );
    if is_negative(s) {
        -value
    } else {
        value
    }
}

/// A letter of the alphabet is the given small one, or the large one in its place.
pub open spec fn is_letter(c: char, small: char) -> bool {
    c == small || c as int + 32 == small as int
}

/// The text is a word, whatever the case of its letters.
pub open spec fn is_word(s: Seq<char>, word: Seq<char>) -> bool {
    &&& s.len() == word.len()
    &&& forall|i: int| 0 <= i < s.len() ==> is_letter(#[trigger] s[i], word[i])
}

/// The text stands for a number without bound, perhaps with a sign before it.
pub open spec fn is_infinite(s: Seq<char>) -> bool {
    is_word(without_sign(s), "inf"@) || is_word(without_sign(s), "infinity"@)
}

/// The text says that it stands for no number, perhaps with a sign before it.
pub open spec fn is_no_number(s: Seq<char>) -> bool {
    is_word(without_sign(s), "nan"@)
}

/// The frequency that a field stands for. One without bound is the largest that fits. A field may
/// also say that it has none.
pub open spec fn khz_field(s: Seq<char>) -> Option<Option<int>> {
    if is_no_number(s) {
        Some(None)
    } else if is_infinite(s) {
        Some(
            Some(
                if is_negative(s) {
                    -i64::MAX as int
                } else {
                    i64::MAX as int
                },
            ),
        )
    } else if is_decimal(s) {
        Some(Some(millihertz(s)))
    } else {
        None
    }
}

/// The frequency that a value holds, as a mathematical number.
pub open spec fn number_of(f: Option<i64>) -> Option<int> {
    match f {
        Some(n) => Some(n as int),
        None => None,
    }
}

proof fn lemma_exponent_index(s: Seq<char>, from: int, at: int)
    requires
        0 <= from <= at <= s.len(),
        forall|i: int| from <= i < at ==> s[i] != 'e' && s[i] != 'E',
        at == s.len() || s[at] == 'e' || s[at] == 'E',
    ensures
        exponent_index(s, from) == at,
    decreases at - from,
{
    if from < at {
        lemma_exponent_index(s, from + 1, at);
    }
}

fn find_exponent(v: &[char]) -> (r: usize)
    ensures
        r == exponent_index(v@, 0),
        r <= v@.len(),
{
    let mut i: usize = 0;
    while i < v.len() && v[i] != 'e' && v[i] != 'E'
        invariant
            i <= v.len(),
            forall|k: int| 0 <= k < i ==> v@[k] != 'e' && v@[k] != 'E',
        decreases v.len() - i,
    {
        i = i + 1;
    }
    proof {
        lemma_exponent_index(v@, 0, i as int);
    }
    i
}

fn drop_sign(v: &[char]) -> (r: &[char])
    ensures
        r@ == without_sign(v@),
{
    if v.len() > 0 && (v[0] == '+' || v[0] == '-') {
        let r: &[char] = &v[1..v.len()];
        assert(r@ == v@.drop_first());
        r
    } else {
        v
    }
}

fn only_digits(v: &[char]) -> (r: bool)
    ensures
        r == text::all_digits(v@),
{
    let mut i: usize = 0;
    while i < v.len()
        invariant
            i <= v.len(),
            forall|k: int| 0 <= k < i ==> text::is_digit(#[trigger] v@[k]),
        decreases v.len() - i,
    {
        if !('0' <= v[i] && v[i] <= '9') {
            assert(!text::is_digit(v@[i as int]));
            return false;
        }
        i = i + 1;
    }
    true
}

/// The number that digits stand for, up to a limit.
fn bounded_number(v: &[char], limit: u64) -> (r: u64)
    requires
        text::all_digits(v@),
        limit < 0x1000_0000_0000_0000,
    ensures
        r == if text::number(v@) < limit {
            text::number(v@)
        } else {
            limit as nat
        },
{
    let mut n: u64 = 0;
    let mut i: usize = 0;
    assert(v@.take(0) == Seq::<char>::empty());
    while i < v.len()
        invariant
            i <= v.len(),
            text::all_digits(v@),
            limit < 0x1000_0000_0000_0000,
            n == if text::number(v@.take(i as int)) < limit {
                text::number(v@.take(i as int))
            } else {
                limit as nat
            },
        decreases v.len() - i,
    {
        assert(text::is_digit(v@[i as int]));
        assert(v@.take(i as int + 1).drop_last() == v@.take(i as int));
        n = n * 10 + (v[i] as u32 - 48) as u64;
        if n > limit {
            n = limit;
        }
        i = i + 1;
    }
    assert(v@.take(v@.len() as int) == v@);
    n
}

proof fn lemma_power_of_ten(k: nat)
    ensures
        vstd::arithmetic::power::pow(10, k) >= 1,
        vstd::arithmetic::power::pow(10, k + 1) == 10 * vstd::arithmetic::power::pow(10, k),
    decreases k,
{
    vstd::arithmetic::power::lemma_pow_positive(10, k);
    reveal(vstd::arithmetic::power::pow);
}

/// Further zeros make a number no smaller.
proof fn lemma_zeros_grow(n: int, j: nat, k: nat)
    requires
        n >= 0,
        j <= k,
    ensures
        n * vstd::arithmetic::power::pow(10, j) <= n * vstd::arithmetic::power::pow(10, k),
        n == 0 ==> n * vstd::arithmetic::power::pow(10, k) == 0,
    decreases k - j,
{
    let p = vstd::arithmetic::power::pow(10, j);
    lemma_power_of_ten(j);
    if j < k {
        lemma_zeros_grow(n, j + 1, k);
        assert(n * p <= n * (10 * p)) by (nonlinear_arith)
            requires
                n >= 0,
                p >= 1,
        ;
    } else {
        assert(n == 0 ==> n * p == 0) by (nonlinear_arith);
    }
}

/// The first `l` digits of two runs of digits that follow each other.
fn bounded_leading(digits: &[char], l: i128) -> (r: u64)
    requires
        text::all_digits(digits@),
    ensures
        r == bounded(leading(digits@, l as int)),
{
    if l <= 0 {
        return 0;
    }
    let n: usize = digits.len();
    let limit: u64 = 0x7FFF_FFFF_FFFF_FFFF;
    let mut acc: u64 = 0;
    let mut i: usize = 0;
    assert(digits@.take(0) == Seq::<char>::empty());
    while i < n && (i as i128) < l
        invariant
            n == digits@.len(),
            i <= n,
            0 < l,
            i <= l,
            limit == i64::MAX,
            text::all_digits(digits@),
            acc == bounded(text::number(digits@.take(i as int)) as int),
        decreases n - i,
    {
        assert(text::is_digit(digits@[i as int]));
        assert(digits@.take(i as int + 1).drop_last() == digits@.take(i as int));
        let d: u64 = (digits[i] as u32 - 48) as u64;
        acc = if acc >= limit / 10 {
            let wide: u128 = acc as u128 * 10 + d as u128;
            if wide >= limit as u128 {
                limit
            } else {
                wide as u64
            }
        } else {
            acc * 10 + d
        };
        i = i + 1;
    }
    if (i as i128) == l {
        return acc;
    }
    assert(digits@.take(n as int) == digits@);
    let ghost number = text::number(digits@) as int;
    let mut k: i128 = l - n as i128;
    let ghost whole = (l - n) as nat;
    proof {
        assert(vstd::arithmetic::power::pow(10, 0) == 1) by {
            reveal(vstd::arithmetic::power::pow);
        }
    }
    while k > 0 && acc > 0 && acc < limit
        invariant
            0 <= k <= whole,
            number >= 0,
            limit == i64::MAX,
            acc == bounded(number * vstd::arithmetic::power::pow(10, (whole - k) as nat)),
        decreases k,
    {
        let ghost p = vstd::arithmetic::power::pow(10, (whole - k) as nat);
        proof {
            lemma_power_of_ten((whole - k) as nat);
            assert(number * (10 * p) == 10 * (number * p)) by (nonlinear_arith);
        }
        acc = if acc >= limit / 10 {
            let wide: u128 = acc as u128 * 10;
            if wide >= limit as u128 {
                limit
            } else {
                wide as u64
            }
        } else {
            acc * 10
        };
        k = k - 1;
    }
    proof {
        let p = vstd::arithmetic::power::pow(10, (whole - k) as nat);
        lemma_power_of_ten((whole - k) as nat);
        lemma_zeros_grow(number, (whole - k) as nat, whole);
        if acc == 0 {
            assert(number == 0) by (nonlinear_arith)
                requires
                    number * p == 0,
                    p >= 1,
                    number >= 0,
            ;
        }
    }
    acc
}

/// Is the text a word of small letters, whatever the case of its own?
fn reads(v: &[char], word: &str) -> (r: bool)
    requires
        forall|i: int| 0 <= i < word@.len() ==> 'a' <= #[trigger] word@[i] <= 'z',
    ensures
        r == is_word(v@, word@),
{
    let w = text::to_chars(word);
    if v.len() != w.len() {
        return false;
    }
    let mut i: usize = 0;
    while i < v.len()
        invariant
            v@.len() == w@.len(),
            w@ == word@,
            forall|k: int| 0 <= k < word@.len() ==> 'a' <= #[trigger] word@[k] <= 'z',
            i <= v@.len(),
            forall|k: int| 0 <= k < i ==> is_letter(#[trigger] v@[k], w@[k]),
        decreases v.len() - i,
    {
        let c: char = v[i];
        let small: char = w[i];
        assert('a' <= word@[i as int] <= 'z');
        let large: bool = 'A' <= c && c <= 'Z' && c as u32 + 32 == small as u32;
        if c != small && !large {
            assert(!is_letter(v@[i as int], w@[i as int]));
            return false;
        }
        i = i + 1;
    }
    true
}

/// Reads a frequency in kilohertz; gives it in millihertz. The inner value is missing where the text
/// says that there is no number.
pub fn parse_khz(v: &[char]) -> (r: Option<Option<i64>>)
    ensures
        r matches Some(f) ==> khz_field(v@) == Some(number_of(f)),
        r is None ==> khz_field(v@) is None,
{
    let t: &[char] = drop_sign(v);
    proof {
        reveal_strlit("inf");
        reveal_strlit("infinity");
        reveal_strlit("nan");
    }
    if reads(t, "nan") {
        return Some(None);
    }
    if reads(t, "inf") || reads(t, "infinity") {
        return Some(
            Some(
                if v.len() > 0 && v[0] == '-' {
                    -i64::MAX
                } else {
                    i64::MAX
                },
            ),
        );
    }
    let e: usize = find_exponent(t);
    let m: &[char] = &t[0..e];
    assert(m@ == mantissa(v@));
    let dot: usize = text::find(m, '.');
    let whole: &[char] = &m[0..dot];
    let fraction: &[char] = if dot < m.len() {
        &m[dot + 1..m.len()]
    } else {
        &m[m.len()..m.len()]
    };
    assert(whole@ == whole_digits(m@));
    assert(fraction@ == fraction_digits(m@));
    if !only_digits(whole) || !only_digits(fraction) || (whole.len() == 0 && fraction.len() == 0) {
        return None;
    }
    let mut exp: i128 = 0;
    if e < t.len() {
        let x: &[char] = &t[e + 1..t.len()];
        assert(x@ == t@.skip(e as int + 1));
        let xd: &[char] = drop_sign(x);
        if xd.len() == 0 || !only_digits(xd) {
            return None;
        }
        let n: u64 = bounded_number(xd, EXPONENT_LIMIT);
        exp = if x.len() > 0 && x[0] == '-' {
            -(n as i128)
        } else {
            n as i128
        };
    }
    assert(exp == exponent(v@));
    let mut digits: Vec<char> = Vec::new();
    let mut i: usize = 0;
    while i < whole.len()
        invariant
            i <= whole@.len(),
            digits@ == whole@.take(i as int),
        decreases whole.len() - i,
    {
        digits.push(whole[i]);
        assert(whole@.take(i as int + 1) == whole@.take(i as int).push(whole@[i as int]));
        i = i + 1;
    }
    assert(whole@.take(i as int) == whole@);
    i = 0;
    while i < fraction.len()
        invariant
            i <= fraction@.len(),
            digits@ == whole@ + fraction@.take(i as int),
        decreases fraction.len() - i,
    {
        digits.push(fraction[i]);
        assert(fraction@.take(i as int + 1) == fraction@.take(i as int).push(fraction@[i as int]));
        i = i + 1;
    }
    assert(fraction@.take(i as int) == fraction@);
    assert(text::all_digits(digits@)) by {
        assert forall|k: int| 0 <= k < digits@.len() implies text::is_digit(
            #[trigger] digits@[k],
        ) by {
            if k < whole@.len() {
                assert(text::is_digit(whole@[k]));
            } else {
                assert(text::is_digit(fraction@[k - whole@.len()]));
            }
        }
    }
    let value: u64 = bounded_leading(&digits, whole.len() as i128 + 6 + exp);
    if v.len() > 0 && v[0] == '-' {
        Some(Some(-(value as i64)))
    } else {
        Some(Some(value as i64))
    }
}

/// Ten to a power, in both of its forms.
proof fn lemma_powers_agree(k: nat)
    ensures
        vstd::arithmetic::power::pow(10, k) == text::power_of_ten(k),
    decreases k,
{
    reveal(vstd::arithmetic::power::pow);
    if k > 0 {
        lemma_powers_agree((k - 1) as nat);
    }
}

/// A text that begins with a digit or a point is no word.
proof fn lemma_no_word(s: Seq<char>)
    requires
        s.len() > 0,
        '.' <= s[0] <= '9',
    ensures
        !is_no_number(s),
        !is_infinite(s),
        without_sign(s) == s,
        !is_negative(s),
{
    reveal_strlit("nan");
    reveal_strlit("inf");
    reveal_strlit("infinity");
    if is_word(s, "nan"@) {
        assert(is_letter(s[0], 'n'));
    }
    if is_word(s, "inf"@) {
        assert(is_letter(s[0], 'i'));
    }
    if is_word(s, "infinity"@) {
        assert(is_letter(s[0], 'i'));
    }
}

/// A frequency in kilohertz is read by its digits: those before the point count as kilohertz, and
/// those behind it, up to the sixth, as tenths, hundredths and so on of one. A minus sign turns it
/// round.
#[verifier::rlimit(40)]
pub proof fn law_kilohertz_are_read_by_their_digits(w: Seq<char>, f: Seq<char>)
    requires
        w.len() > 0,
        text::all_digits(w),
        text::all_digits(f),
        f.len() <= 6,
        text::number(w) < 1_000_000_000_000,
    ensures
        ({
            let whole = 1_000_000 * text::number(w);
            let part = text::number(f) * text::power_of_ten((6 - f.len()) as nat);
            &&& 0 <= part < 1_000_000
            &&& khz_field(w) == Some(Some(whole as int))
            &&& khz_field(w + seq!['.'] + f) == Some(Some(whole + part))
            &&& khz_field(seq!['-'] + w + seq!['.'] + f) == Some(Some(-(whole + part)))
        }),
{
    let none = Seq::<char>::empty();
    lemma_decimal_parts(w, none, false);
    assert(text::all_digits(none));
    lemma_decimal_parts(w, f, true);
    let s = w + seq!['.'] + f;
    let n = seq!['-'] + w + seq!['.'] + f;
    assert(text::is_digit(w[0]));
    lemma_no_word(w);
    lemma_no_word(s);
    assert(n.drop_first() =~= s);
    assert(without_sign(n) == s);
    assert(!is_no_number(n) && !is_infinite(n)) by {
        assert(is_no_number(s) == is_no_number(n));
        assert(is_infinite(s) == is_infinite(n));
    }
    lemma_leading(w, none);
    lemma_leading(w, f);
    lemma_part_is_small(f);
    assert(w + none == w);
}

/// The digits behind the point make less than one.
proof fn lemma_part_is_small(f: Seq<char>)
    requires
        text::all_digits(f),
        f.len() <= 6,
    ensures
        0 <= text::number(f) * text::power_of_ten((6 - f.len()) as nat) < 1_000_000,
{
    lemma_number_is_small(f);
    lemma_six_places((6 - f.len()) as nat);
    let (n, p, q) = (
        text::number(f) as int,
        text::power_of_ten(f.len()),
        text::power_of_ten((6 - f.len()) as nat),
    );
    assert(0 <= n * q < p * q) by (nonlinear_arith)
        requires
            0 <= n < p,
            q >= 1,
    ;
}

proof fn lemma_six_places(k: nat)
    requires
        k <= 6,
    ensures
        text::power_of_ten(k) * text::power_of_ten((6 - k) as nat) == 1_000_000,
        text::power_of_ten((6 - k) as nat) * text::power_of_ten(k) == 1_000_000,
        text::power_of_ten(k) >= 1,
        text::power_of_ten(6) == 1_000_000,
{
    reveal_with_fuel(text::power_of_ten, 7);
    assert(text::power_of_ten(1) == 10 && text::power_of_ten(2) == 100 && text::power_of_ten(3)
        == 1_000 && text::power_of_ten(4) == 10_000 && text::power_of_ten(5) == 100_000);
    if k == 0 {
    } else if k == 1 {
    } else if k == 2 {
    } else if k == 3 {
    } else if k == 4 {
    } else if k == 5 {
    } else {
        assert(k == 6);
    }
}

proof fn lemma_number_is_small(f: Seq<char>)
    requires
        text::all_digits(f),
    ensures
        0 <= text::number(f) < text::power_of_ten(f.len()),
    decreases f.len(),
{
    if f.len() > 0 {
        assert forall|i: int| 0 <= i < f.len() - 1 implies text::is_digit(
            #[trigger] f.drop_last()[i],
        ) by {
            assert(f.drop_last()[i] == f[i]);
        }
        lemma_number_is_small(f.drop_last());
        assert(text::is_digit(f[f.len() - 1]));
    }
}

/// The parts of a number without sign and exponent.
proof fn lemma_decimal_parts(w: Seq<char>, f: Seq<char>, point: bool)
    requires
        w.len() > 0,
        text::all_digits(w),
        text::all_digits(f),
        point || f.len() == 0,
    ensures
        ({
            let s = if point {
                w + seq!['.'] + f
            } else {
                w
            };
            &&& exponent_index(s, 0) == s.len()
            &&& s.take(s.len() as int) == s
            &&& whole_digits(s) == w
            &&& fraction_digits(s) == f
        }),
{
    let s = if point {
        w + seq!['.'] + f
    } else {
        w
    };
    let n = w.len() as int;
    assert forall|i: int| 0 <= i < n implies text::is_digit(s[i]) by {
        assert(s[i] == w[i]);
    }
    assert forall|i: int| n < i < s.len() implies text::is_digit(s[i]) by {
        assert(s[i] == f[i - n - 1]);
    }
    lemma_exponent_index(s, 0, s.len() as int);
    text::lemma_is_first_index(s, '.', 0, n);
    assert(s.take(s.len() as int) =~= s);
    assert(s.take(n) =~= w);
    if point {
        assert(s.skip(n + 1) =~= f);
    } else {
        assert(f =~= Seq::<char>::empty());
    }
}

/// The digits with the point moved by six places.
proof fn lemma_leading(w: Seq<char>, f: Seq<char>)
    requires
        f.len() <= 6,
    ensures
        leading(w + f, w.len() as int + 6) == 1_000_000 * text::number(w) + text::number(f)
            * text::power_of_ten((6 - f.len()) as nat),
{
    let k = (6 - f.len()) as nat;
    text::law_digits_count_by_their_places(w, f);
    lemma_powers_agree(k);
    lemma_six_places(f.len());
    let (a, b, p, q) = (
        text::number(w) as int,
        text::number(f) as int,
        text::power_of_ten(f.len()),
        text::power_of_ten(k),
    );
    assert((a * p + b) * q == 1_000_000 * a + b * q) by (nonlinear_arith)
        requires
            p * q == 1_000_000,
    ;
    if f.len() == 6 {
        assert((w + f).take(w.len() as int + 6) =~= w + f);
        assert(b * q == b) by {
            assert(q == 1);
        }
    }
}

/// An exponent moves the point: by so many places to the right, or with a minus sign to the left.
#[verifier::rlimit(40)]
pub proof fn law_exponent_moves_the_point(w: Seq<char>, x: Seq<char>)
    requires
        w.len() > 0,
        text::all_digits(w),
        x.len() > 0,
        text::all_digits(x),
        text::number(x) <= 6,
    ensures
        ({
            let n = text::number(x);
            let right = text::number(w) * text::power_of_ten(6 + n);
            let left = text::number(w) * text::power_of_ten((6 - n) as nat);
            &&& right < i64::MAX ==> khz_field(w + seq!['e'] + x) == Some(Some(right))
            &&& left < i64::MAX ==> khz_field(w + seq!['e', '-'] + x) == Some(Some(left))
        }),
{
    let none = Seq::<char>::empty();
    let n = text::number(x);
    let k = w.len() as int;
    let s = w + seq!['e'] + x;
    let t = w + seq!['e', '-'] + x;
    assert(text::is_digit(w[0]));
    assert(text::is_digit(x[0]));
    lemma_no_word(s);
    lemma_no_word(t);
    assert forall|i: int| 0 <= i < k implies s[i] != 'e' && s[i] != 'E' && t[i] != 'e' && t[i]
        != 'E' by {
        assert(text::is_digit(w[i]));
        assert(s[i] == w[i] && t[i] == w[i]);
    }
    lemma_exponent_index(s, 0, k);
    lemma_exponent_index(t, 0, k);
    assert(s.take(k) =~= w && t.take(k) =~= w);
    assert(s.skip(k + 1) =~= x);
    assert(t.skip(k + 1) =~= seq!['-'] + x);
    assert((seq!['-'] + x).drop_first() =~= x);
    assert(text::all_digits(none));
    lemma_decimal_parts(w, none, false);
    assert(w + none =~= w);
    assert(exponent(s) == n);
    assert(exponent(t) == -(n as int));
    lemma_powers_agree(6 + n);
    lemma_powers_agree((6 - n) as nat);
    assert(leading(w, k + 6 + n) == text::number(w) * text::power_of_ten(6 + n));
    if n == 6 {
        assert(w.take(k) =~= w);
        assert(text::power_of_ten(0) == 1);
        assert(text::number(w) * 1 == text::number(w));
    }
    assert(leading(w, k + 6 - n) == text::number(w) * text::power_of_ten((6 - n) as nat));
    assert(mantissa(s) == w && mantissa(t) == w);
    lemma_six_places((6 - n) as nat);
    assert(0 <= text::number(w) * text::power_of_ten((6 - n) as nat)) by (nonlinear_arith)
        requires
            text::number(w) >= 0,
            text::power_of_ten((6 - n) as nat) >= 1,
    ;
}

} // verus!

//! Text as sequences of characters.
use vstd::prelude::*;

verus! {

/// `String::push` of std: appends one character.
pub assume_specification [String::push] (s: &mut String, c: char)
    ensures
        final(s)@ == old(s)@.push(c),
;

/// The characters of a string slice, in order.
pub fn to_chars(s: &str) -> (r: Vec<char>)
    ensures
        r@ == s@,
{
    let mut v: Vec<char> = Vec::new();
    for c in it: s.chars()
        invariant
            v@ == it.seq().take(it.index() as int),
            it.seq() == s@,
    {
        v.push(c);
    }
    v
}

/// A string made of the given characters.
pub fn from_chars(v: &[char]) -> (s: String)
    ensures
        s@ == v@,
{
    let mut s = String::new();
    let mut i: usize = 0;
    while i < v.len()
        invariant
            i <= v.len(),
            s@ == v@.take(i as int),
        decreases v.len() - i,
    {
        s.push(v[i]);
        assert(v@.take(i as int + 1) == v@.take(i as int).push(v@[i as int]));
        i = i + 1;
    }
    assert(v@.take(v@.len() as int) == v@);
    s
}

/// The character of a decimal digit.
pub open spec fn digit_char(d: nat) -> char {
    (48 + d) as char
}

/// A number in decimal notation, without leading zeros.
pub open spec fn decimal(n: nat) -> Seq<char>
    decreases n,
{
    if n < 10 {
        seq![digit_char(n)]
    } else {
        decimal(n / 10).push(digit_char(n % 10))
    }
}

/// Appends a number in decimal notation.
pub fn push_decimal(s: &mut String, n: u64)
    ensures
        final(s)@ == old(s)@ + decimal(n as nat),
    decreases n,
{
    if n >= 10 {
        push_decimal(s, n / 10);
    }
    let d: u8 = (n % 10) as u8;
    s.push((48 + d) as char);
    assert(s@ == old(s)@ + decimal(n as nat));
}

/// Appends a string slice.
pub fn push_text(s: &mut String, t: &str)
    ensures
        final(s)@ == old(s)@ + t@,
{
    let chars = to_chars(t);
    let mut i: usize = 0;
    while i < chars.len()
        invariant
            i <= chars.len(),
            chars@ == t@,
            s@ == old(s)@ + t@.take(i as int),
        decreases chars.len() - i,
    {
        s.push(chars[i]);
        assert(t@.take(i as int + 1) == t@.take(i as int).push(t@[i as int]));
        i = i + 1;
    }
    assert(t@.take(i as int) == t@);
}

/// White space, as Unicode defines it.
pub open spec fn is_white(c: char) -> bool {
    ||| '\u{9}' <= c <= '\u{D}'
    ||| c == ' '
    ||| c == '\u{85}'
    ||| c == '\u{A0}'
    ||| c == '\u{1680}'
    ||| '\u{2000}' <= c <= '\u{200A}'
    ||| c == '\u{2028}'
    ||| c == '\u{2029}'
    ||| c == '\u{202F}'
    ||| c == '\u{205F}'
    ||| c == '\u{3000}'
}

/// Is the character white space?
pub fn is_whitespace(c: char) -> (r: bool)
    ensures
        r == is_white(c),
{
    ('\u{9}' <= c && c <= '\u{D}') || c == ' ' || c == '\u{85}' || c == '\u{A0}' || c
        == '\u{1680}' || ('\u{2000}' <= c && c <= '\u{200A}') || c == '\u{2028}' || c
        == '\u{2029}' || c == '\u{202F}' || c == '\u{205F}' || c == '\u{3000}'
}

/// A text without the white space at its start.
pub open spec fn trimmed_start(s: Seq<char>) -> Seq<char>
    decreases s.len(),
{
    if s.len() > 0 && is_white(s[0]) {
        trimmed_start(s.drop_first())
    } else {
        s
    }
}

/// A text without the white space at its end.
pub open spec fn trimmed_end(s: Seq<char>) -> Seq<char>
    decreases s.len(),
{
    if s.len() > 0 && is_white(s.last()) {
        trimmed_end(s.drop_last())
    } else {
        s
    }
}

/// A text without the white space at both ends.
pub open spec fn trimmed(s: Seq<char>) -> Seq<char> {
    trimmed_end(trimmed_start(s))
}

proof fn lemma_trimmed_start(s: Seq<char>, n: int)
    requires
        0 <= n <= s.len(),
        forall|i: int| 0 <= i < n ==> is_white(s[i]),
        n == s.len() || !is_white(s[n]),
    ensures
        trimmed_start(s) == s.skip(n),
    decreases n,
{
    if n > 0 {
        lemma_trimmed_start(s.drop_first(), n - 1);
        assert(s.drop_first().skip(n - 1) == s.skip(n));
    } else {
        assert(s.skip(0) == s);
    }
}

proof fn lemma_trimmed_end(s: Seq<char>, n: int)
    requires
        0 <= n <= s.len(),
        forall|i: int| n <= i < s.len() ==> is_white(s[i]),
        n == 0 || !is_white(s[n - 1]),
    ensures
        trimmed_end(s) == s.take(n),
    decreases s.len(),
{
    if n < s.len() {
        lemma_trimmed_end(s.drop_last(), n);
        assert(s.drop_last().take(n) == s.take(n));
    } else {
        assert(s.take(n) == s);
    }
}

/// A trimmed text has no white space at its ends, and trimming it again changes nothing.
pub proof fn law_trimming_is_final(s: Seq<char>)
    ensures
        trimmed(s).len() > 0 ==> !is_white(trimmed(s)[0]) && !is_white(trimmed(s).last()),
        trimmed(trimmed(s)) == trimmed(s),
        trimmed(s).len() <= s.len(),
{
    let a = lemma_start_of_text(s);
    lemma_trimmed_start(s, a);
    let t = s.skip(a);
    let b = lemma_end_of_text(t);
    lemma_trimmed_end(t, b);
    let u = t.take(b);
    lemma_trimmed_start(u, 0);
    assert(u.skip(0) == u);
    lemma_trimmed_end(u, b);
    assert(u.take(b) == u);
}

proof fn lemma_start_of_text(s: Seq<char>) -> (n: int)
    ensures
        0 <= n <= s.len(),
        forall|i: int| 0 <= i < n ==> is_white(s[i]),
        n == s.len() || !is_white(s[n]),
    decreases s.len(),
{
    if s.len() > 0 && is_white(s[0]) {
        let rest = s.drop_first();
        let n = lemma_start_of_text(rest);
        assert forall|i: int| 0 <= i < n + 1 implies is_white(s[i]) by {
            if i > 0 {
                assert(rest[i - 1] == s[i]);
            }
        }
        n + 1
    } else {
        0
    }
}

proof fn lemma_end_of_text(s: Seq<char>) -> (n: int)
    ensures
        0 <= n <= s.len(),
        forall|i: int| n <= i < s.len() ==> is_white(s[i]),
        n == 0 || !is_white(s[n - 1]),
    decreases s.len(),
{
    if s.len() > 0 && is_white(s.last()) {
        let front = s.drop_last();
        let n = lemma_end_of_text(front);
        assert forall|i: int| n <= i < s.len() implies is_white(s[i]) by {
            if i < front.len() {
                assert(front[i] == s[i]);
            }
        }
        n
    } else {
        s.len() as int
    }
}

/// The part of a text that is left without the white space at its ends.
pub fn trim(v: &[char]) -> (r: &[char])
    ensures
        r@ == trimmed(v@),
{
    let mut a: usize = 0;
    while a < v.len() && is_whitespace(v[a])
        invariant
            a <= v.len(),
            forall|i: int| 0 <= i < a ==> is_white(v@[i]),
        decreases v.len() - a,
    {
        a = a + 1;
    }
    let mut b: usize = v.len();
    while b > a && is_whitespace(v[b - 1])
        invariant
            a <= b <= v.len(),
            forall|i: int| b <= i < v@.len() ==> is_white(v@[i]),
        decreases b - a,
    {
        b = b - 1;
    }
    proof {
        lemma_trimmed_start(v@, a as int);
        lemma_trimmed_end(v@.skip(a as int), b - a);
        assert(v@.skip(a as int).take(b - a) == v@.subrange(a as int, b as int));
    }
    &v[a..b]
}

/// The index of the first `c` at or after `from`, or the length where there is none.
pub open spec fn first_index(s: Seq<char>, c: char, from: int) -> int
    decreases s.len() - from,
{
    if from >= s.len() {
        s.len() as int
    } else if s[from] == c {
        from
    } else {
        first_index(s, c, from + 1)
    }
}

/// What `first_index` gives is the first place of the character.
pub proof fn lemma_first_index(s: Seq<char>, c: char, from: int)
    requires
        0 <= from <= s.len(),
    ensures
        from <= first_index(s, c, from) <= s.len(),
        forall|i: int| from <= i < first_index(s, c, from) ==> s[i] != c,
        first_index(s, c, from) < s.len() ==> s[first_index(s, c, from)] == c,
    decreases s.len() - from,
{
    if from < s.len() && s[from] != c {
        lemma_first_index(s, c, from + 1);
    }
}

/// A place with the character and none before it is the first.
pub proof fn lemma_is_first_index(s: Seq<char>, c: char, from: int, at: int)
    requires
        0 <= from <= at <= s.len(),
        forall|i: int| from <= i < at ==> s[i] != c,
        at == s.len() || s[at] == c,
    ensures
        first_index(s, c, from) == at,
{
    lemma_first_index(s, c, from);
}

/// The index of the first `c`, or the length where there is none.
pub fn find(v: &[char], c: char) -> (r: usize)
    ensures
        r == first_index(v@, c, 0),
        r <= v@.len(),
{
    let mut i: usize = 0;
    while i < v.len() && v[i] != c
        invariant
            i <= v.len(),
            forall|k: int| 0 <= k < i ==> v@[k] != c,
        decreases v.len() - i,
    {
        i = i + 1;
    }
    proof {
        lemma_is_first_index(v@, c, 0, i as int);
    }
    i
}

/// The parts of a text between separators.
pub open spec fn split_on(s: Seq<char>, sep: char) -> Seq<Seq<char>>
    decreases s.len(),
    via split_on_decreases
{
    let i = first_index(s, sep, 0);
    if i >= s.len() {
        seq![s]
    } else {
        seq![s.take(i)] + split_on(s.skip(i + 1), sep)
    }
}

#[via_fn]
proof fn split_on_decreases(s: Seq<char>, sep: char) {
    lemma_first_index(s, sep, 0);
}

/// The characters of each slice.
pub open spec fn texts(v: Seq<&[char]>) -> Seq<Seq<char>> {
    v.map_values(|p: &[char]| p@)
}

/// Splits a text at a separator.
pub fn split<'a>(v: &'a [char], sep: char) -> (r: Vec<&'a [char]>)
    ensures
        texts(r@) == split_on(v@, sep),
{
    let mut parts: Vec<&'a [char]> = Vec::new();
    let mut rest: &'a [char] = v;
    loop
        invariant_except_break
            texts(parts@) + split_on(rest@, sep) == split_on(v@, sep),
        ensures
            texts(parts@) == split_on(v@, sep),
        decreases rest@.len(),
    {
        let i: usize = find(rest, sep);
        let ghost before = texts(parts@);
        if i >= rest.len() {
            parts.push(rest);
            assert(texts(parts@) == before.push(rest@));
            assert(before.push(rest@) == before + seq![rest@]);
            break;
        }
        let head: &'a [char] = &rest[0..i];
        let next: &'a [char] = &rest[i + 1..rest.len()];
        parts.push(head);
        proof {
            assert(head@ == rest@.take(i as int));
            assert(next@ == rest@.skip(i as int + 1));
            assert(texts(parts@) == before.push(head@));
            assert(before.push(head@) + split_on(next@, sep) == before + (seq![head@] + split_on(
                next@,
                sep,
            )));
        }
        rest = next;
    }
    parts
}

/// A line without the carriage return at its end.
pub open spec fn without_return(s: Seq<char>) -> Seq<char> {
    if s.len() > 0 && s.last() == '\r' {
        s.drop_last()
    } else {
        s
    }
}

/// The lines of a text. A line ends with a line feed, or with a carriage return and a line feed;
/// the last line may end with the text.
pub open spec fn lines_of(s: Seq<char>) -> Seq<Seq<char>>
    decreases s.len(),
    via lines_of_decreases
{
    let i = first_index(s, '\n', 0);
    if s.len() == 0 {
        Seq::empty()
    } else if i >= s.len() {
        seq![s]
    } else {
        seq![without_return(s.take(i))] + lines_of(s.skip(i + 1))
    }
}

#[via_fn]
proof fn lines_of_decreases(s: Seq<char>) {
    lemma_first_index(s, '\n', 0);
}

/// Splits a text into lines.
pub fn lines<'a>(v: &'a [char]) -> (r: Vec<&'a [char]>)
    ensures
        texts(r@) == lines_of(v@),
{
    let mut parts: Vec<&'a [char]> = Vec::new();
    let mut rest: &'a [char] = v;
    assert(texts(parts@) == Seq::<Seq<char>>::empty());
    assert(Seq::<Seq<char>>::empty() + lines_of(rest@) == lines_of(v@));
    while rest.len() > 0
        invariant
            texts(parts@) + lines_of(rest@) == lines_of(v@),
        decreases rest@.len(),
    {
        let i: usize = find(rest, '\n');
        let ghost before = texts(parts@);
        if i >= rest.len() {
            parts.push(rest);
            let next: &'a [char] = &rest[0..0];
            proof {
                assert(texts(parts@) == before.push(rest@));
                assert(next@.len() == 0);
                assert(before.push(rest@) + lines_of(next@) == before + seq![rest@]);
            }
            rest = next;
        } else {
            let end: usize = if i > 0 && rest[i - 1] == '\r' {
                i - 1
            } else {
                i
            };
            let head: &'a [char] = &rest[0..end];
            let next: &'a [char] = &rest[i + 1..rest.len()];
            parts.push(head);
            proof {
                assert(head@ == without_return(rest@.take(i as int)));
                assert(next@ == rest@.skip(i as int + 1));
                assert(texts(parts@) == before.push(head@));
                assert(before.push(head@) + lines_of(next@) == before + (seq![head@] + lines_of(
                    next@,
                )));
            }
            rest = next;
        }
    }
    assert(lines_of(rest@) == Seq::<Seq<char>>::empty());
    assert(texts(parts@) + lines_of(rest@) == texts(parts@));
    parts
}

/// Have two texts the same characters?
pub fn same(a: &[char], b: &[char]) -> (r: bool)
    ensures
        r == (a@ == b@),
{
    if a.len() != b.len() {
        return false;
    }
    let mut i: usize = 0;
    while i < a.len()
        invariant
            i <= a.len(),
            a@.len() == b@.len(),
            forall|k: int| 0 <= k < i ==> a@[k] == b@[k],
        decreases a.len() - i,
    {
        if a[i] != b[i] {
            return false;
        }
        i = i + 1;
    }
    assert(a@ =~= b@);
    true
}

/// The text begins with `p`.
pub open spec fn begins_with(s: Seq<char>, p: Seq<char>) -> bool {
    p.len() <= s.len() && s.take(p.len() as int) == p
}

/// Does the text begin with `p`?
pub fn starts_with(v: &[char], p: &str) -> (r: bool)
    ensures
        r == begins_with(v@, p@),
{
    let pc = to_chars(p);
    if pc.len() > v.len() {
        return false;
    }
    let head: &[char] = &v[0..pc.len()];
    assert(head@ == v@.take(p@.len() as int));
    same(head, &pc)
}

/// Is the text equal to a string?
pub fn equals(v: &[char], p: &str) -> (r: bool)
    ensures
        r == (v@ == p@),
{
    let pc = to_chars(p);
    same(v, &pc)
}

/// A decimal digit.
pub open spec fn is_digit(c: char) -> bool {
    '0' <= c <= '9'
}

/// The value of a decimal digit.
pub open spec fn digit_value(c: char) -> nat {
    (c as int - 48) as nat
}

/// The text consists of decimal digits.
pub open spec fn all_digits(s: Seq<char>) -> bool {
    forall|i: int| 0 <= i < s.len() ==> is_digit(#[trigger] s[i])
}

/// The number that a text of decimal digits stands for.
pub open spec fn number(s: Seq<char>) -> nat
    decreases s.len(),
{
    if s.len() == 0 {
        0
    } else {
        number(s.drop_last()) * 10 + digit_value(s.last())
    }
}

/// A text without a plus sign at its start.
pub open spec fn without_plus(s: Seq<char>) -> Seq<char> {
    if s.len() > 0 && s[0] == '+' {
        s.drop_first()
    } else {
        s
    }
}

/// The number that a text stands for: digits, with a plus sign before them or not, and no more
/// than `max`.
pub open spec fn unsigned(s: Seq<char>, max: nat) -> Option<nat> {
    let t = without_plus(s);
    if t.len() > 0 && all_digits(t) && number(t) <= max {
        Some(number(t))
    } else {
        None
    }
}

proof fn lemma_number_grows(s: Seq<char>, n: int)
    requires
        0 <= n <= s.len(),
    ensures
        number(s.take(n)) <= number(s),
    decreases s.len() - n,
{
    if n < s.len() {
        lemma_number_grows(s, n + 1);
        assert(s.take(n + 1).drop_last() == s.take(n));
    } else {
        assert(s.take(n) == s);
    }
}

/// Reads a number that is no more than `max`.
pub fn parse_unsigned(v: &[char], max: u64) -> (r: Option<u64>)
    requires
        max < 0x1000_0000_0000_0000,
    ensures
        r matches Some(n) ==> unsigned(v@, max as nat) == Some(n as nat),
        r is None ==> unsigned(v@, max as nat) is None,
{
    let start: usize = if v.len() > 0 && v[0] == '+' {
        1
    } else {
        0
    };
    let ghost t = without_plus(v@);
    assert(t == v@.skip(start as int));
    if start == v.len() {
        return None;
    }
    let mut n: u64 = 0;
    let mut i: usize = start;
    assert(t.take(0) == Seq::<char>::empty());
    while i < v.len()
        invariant
            start <= i <= v.len(),
            t == v@.skip(start as int),
            t == without_plus(v@),
            max < 0x1000_0000_0000_0000,
            forall|k: int| 0 <= k < i - start ==> is_digit(#[trigger] t[k]),
            n == number(t.take(i - start)),
            n <= max,
        decreases v.len() - i,
    {
        let c: char = v[i];
        assert(t[i - start] == c);
        if !('0' <= c && c <= '9') {
            return None;
        }
        let d: u64 = (c as u32 - 48) as u64;
        assert(t.take(i - start + 1).drop_last() == t.take(i - start));
        n = n * 10 + d;
        if n > max {
            proof {
                lemma_number_grows(t, i - start + 1);
            }
            return None;
        }
        i = i + 1;
    }
    assert(t.take(t.len() as int) == t);
    Some(n)
}

/// A path with a relative name put behind it.
pub open spec fn joined(base: Seq<char>, name: Seq<char>) -> Seq<char> {
    if base.len() == 0 {
        name
    } else if base.last() == '/' {
        base + name
    } else {
        base.push('/') + name
    }
}

/// Puts a relative name behind a path.
pub fn join_path(base: &str, name: &str) -> (r: String)
    ensures
        r@ == joined(base@, name@),
{
    let chars = to_chars(base);
    let mut s = base.to_string();
    if chars.len() > 0 && chars[chars.len() - 1] != '/' {
        s.push('/');
    }
    push_text(&mut s, name);
    assert(s@ =~= joined(base@, name@));
    s
}

/// `n / d` rounded to the nearest whole number; halves go to the even one.
pub open spec fn nearest_even(n: int, d: int) -> int {
    let q = n / d;
    let r = n % d;
    if 2 * r > d || 2 * r == d && q % 2 == 1 {
        q + 1
    } else {
        q
    }
}

/// `n / d` rounded to the nearest whole number; halves go to the even one.
fn round_even_wide(n: u128, d: u128) -> (r: u128)
    requires
        0 < d <= 0x4000_0000_0000_0000_0000_0000_0000_0000,
    ensures
        r == nearest_even(n as int, d as int),
        r <= n,
{
    let q: u128 = n / d;
    let rest: u128 = n % d;
    assert(q <= n) by (nonlinear_arith)
        requires
            q == n / d,
            d > 0,
    ;
    if 2 * rest > d || (2 * rest == d && q % 2 == 1) {
        assert(q < n) by (nonlinear_arith)
            requires
                q == n / d,
                d > 0,
                rest == n % d,
                rest > 0,
        ;
        q + 1
    } else {
        q
    }
}

/// `n / d` rounded to the nearest whole number; halves go to the even one.
pub fn round_even(n: u64, d: u64) -> (r: u64)
    requires
        0 < d,
    ensures
        r == nearest_even(n as int, d as int),
        r <= n,
{
    round_even_wide(n as u128, d as u128) as u64
}

/// Ten to a small power.
pub open spec fn power_of_ten(places: nat) -> int
    decreases places,
{
    if places == 0 {
        1
    } else {
        10 * power_of_ten((places - 1) as nat)
    }
}

/// A number in decimal notation with at least `places` digits.
pub open spec fn padded(n: nat, places: nat) -> Seq<char>
    decreases places,
{
    if places == 0 {
        Seq::empty()
    } else {
        padded(n / 10, (places - 1) as nat).push(digit_char(n % 10))
    }
}

/// Appends the lowest `places` digits of a number.
pub fn push_padded(s: &mut String, n: u64, places: u8)
    ensures
        final(s)@ == old(s)@ + padded(n as nat, places as nat),
    decreases places,
{
    if places > 0 {
        push_padded(s, n / 10, places - 1);
        let d: u8 = (n % 10) as u8;
        s.push((48 + d) as char);
    }
    assert(s@ =~= old(s)@ + padded(n as nat, places as nat));
}

/// Two to the 52nd power, a million times: where a number of millionths has all the binary places of
/// double precision before its point.
pub const DOUBLE_PLACES: u128 = 4_503_599_627_370_496_000_000;

/// The power of two that brings a number of millionths to the binary places of double precision.
pub open spec fn binary_scale(millionths: int) -> int
    decreases 2 * DOUBLE_PLACES - millionths,
{
    if millionths <= 0 || millionths >= DOUBLE_PLACES {
        1
    } else {
        2 * binary_scale(2 * millionths)
    }
}

/// The number of double precision that is nearest to a number of millionths, times its power of two.
pub open spec fn nearest_double(millionths: int) -> int {
    nearest_even(millionths * binary_scale(millionths), 1_000_000)
}

/// A frequency in millihertz as kilohertz with no, one or three decimals. It is written as the number
/// of double precision nearest to it is: rounded to the nearest, and only what is truly half goes to
/// the even digit. The sign stays, even where nothing else does.
pub open spec fn khz(freq: int, decimals: nat) -> Seq<char> {
    let unit = power_of_ten(decimals);
    let size = if freq < 0 {
        -freq
    } else {
        freq
    };
    let n = nearest_even(nearest_double(size) * unit, binary_scale(size));
    let sign = if freq < 0 {
        seq!['-']
    } else {
        Seq::<char>::empty()
    };
    if decimals == 0 {
        sign + decimal(n as nat)
    } else {
        sign + decimal((n / unit) as nat) + seq!['.'] + padded((n % unit) as nat, decimals)
    }
}

/// The number of double precision that is nearest to a number of millionths, times a power of two,
/// and that power.
fn as_double(millionths: u64) -> (r: (u128, u128))
    ensures
        r.0 == nearest_double(millionths as int),
        r.1 == binary_scale(millionths as int),
        r.0 <= 0x20_0000_0000_0001,
        0 < r.1 <= 2 * DOUBLE_PLACES,
{
    let mut x: u128 = millionths as u128;
    let mut scale: u128 = 1;
    while 0 < x && x < DOUBLE_PLACES
        invariant
            x == millionths * scale,
            scale >= 1,
            x < 2 * DOUBLE_PLACES,
            millionths > 0 ==> scale <= x,
            millionths == 0 ==> scale == 1,
            scale * binary_scale(x as int) == binary_scale(millionths as int),
        decreases 2 * DOUBLE_PLACES - x,
    {
        assert(millionths * (2 * scale) == 2 * (millionths * scale)) by (nonlinear_arith);
        let ghost rest = binary_scale(2 * x);
        assert(scale * (2 * rest) == 2 * scale * rest) by (nonlinear_arith);
        assert(millionths > 0) by (nonlinear_arith)
            requires
                x == millionths * scale,
                x > 0,
                millionths >= 0,
        ;
        x = 2 * x;
        scale = 2 * scale;
    }
    (round_even_wide(x, 1_000_000), scale)
}

/// Appends a frequency in millihertz as kilohertz with no, one or three decimals.
pub fn push_khz(s: &mut String, freq: i64, decimals: u8)
    requires
        decimals == 0 || decimals == 1 || decimals == 3,
    ensures
        final(s)@ == old(s)@ + khz(freq as int, decimals as nat),
{
    proof {
        reveal_with_fuel(power_of_ten, 4);
    }
    let size: u64 = if freq < 0 {
        s.push('-');
        (-(freq as i128)) as u64
    } else {
        freq as u64
    };
    let unit: u64 = if decimals == 0 {
        1
    } else if decimals == 1 {
        10
    } else {
        1000
    };
    let (double, scale): (u128, u128) = as_double(size);
    assert(0 <= double * unit <= 0x20_0000_0000_0001 * 1000) by (nonlinear_arith)
        requires
            0 <= double <= 0x20_0000_0000_0001,
            0 <= unit <= 1000,
    ;
    let n: u64 = round_even_wide(double * unit as u128, scale) as u64;
    push_decimal(s, n / unit);
    if decimals > 0 {
        s.push('.');
        push_padded(s, n % unit, decimals);
    }
    assert(s@ =~= old(s)@ + khz(freq as int, decimals as nat));
}

/// How many bytes a character has in UTF-8.
pub open spec fn width(c: char) -> nat {
    if c <= '\u{7F}' {
        1
    } else if c <= '\u{7FF}' {
        2
    } else if c <= '\u{FFFF}' {
        3
    } else {
        4
    }
}

/// How many bytes a text has in UTF-8.
pub open spec fn byte_len(s: Seq<char>) -> nat
    decreases s.len(),
{
    if s.len() == 0 {
        0
    } else {
        byte_len(s.drop_first()) + width(s[0])
    }
}

/// The longest end of a text that has no more than `limit` bytes.
pub open spec fn last_bytes(s: Seq<char>, limit: nat) -> Seq<char>
    decreases s.len(),
{
    if byte_len(s) <= limit || s.len() == 0 {
        s
    } else {
        last_bytes(s.drop_first(), limit)
    }
}

/// The text that is kept after an addition: once it has more than `limit` bytes, only the last
/// `keep` bytes stay, in whole characters.
pub open spec fn kept(s: Seq<char>, limit: nat, keep: nat) -> Seq<char> {
    if byte_len(s) > limit {
        last_bytes(s, keep)
    } else {
        s
    }
}

fn char_width(c: char) -> (r: u8)
    ensures
        r == width(c),
{
    if c <= '\u{7F}' {
        1
    } else if c <= '\u{7FF}' {
        2
    } else if c <= '\u{FFFF}' {
        3
    } else {
        4
    }
}

proof fn lemma_last_bytes(s: Seq<char>, limit: nat, i: int)
    requires
        0 <= i <= s.len(),
        byte_len(s.skip(i)) <= limit,
        i > 0 ==> byte_len(s.skip(i - 1)) > limit,
    ensures
        last_bytes(s, limit) == s.skip(i),
    decreases i,
{
    if i == 0 {
        assert(s.skip(0) == s);
    } else {
        lemma_bytes_shrink(s, i - 1);
        let rest = s.drop_first();
        assert(rest.skip(i - 1) == s.skip(i));
        if i > 1 {
            assert(rest.skip(i - 2) == s.skip(i - 1));
        }
        lemma_last_bytes(rest, limit, i - 1);
    }
}

proof fn lemma_bytes_shrink(s: Seq<char>, i: int)
    requires
        0 <= i <= s.len(),
    ensures
        byte_len(s.skip(i)) <= byte_len(s),
    decreases i,
{
    if i == 0 {
        assert(s.skip(0) == s);
    } else {
        let rest = s.drop_first();
        assert(rest.skip(i - 1) == s.skip(i));
        lemma_bytes_shrink(rest, i - 1);
    }
}

/// The part of a text that is kept: where it has more than `limit` bytes, the longest end of no
/// more than `keep` bytes.
pub fn keep_end(s: &str, limit: u64, keep: u64) -> (r: String)
    requires
        keep <= limit,
    ensures
        r@ == kept(s@, limit as nat, keep as nat),
{
    let chars = to_chars(s);
    let mut i: usize = chars.len();
    let mut bytes: u128 = 0;
    let mut cut: usize = chars.len();
    proof {
        assert(chars@.skip(i as int) == Seq::<char>::empty());
    }
    while i > 0
        invariant
            i <= cut <= chars@.len(),
            chars@.len() <= usize::MAX,
            keep <= limit,
            bytes == byte_len(chars@.skip(i as int)),
            bytes <= 4 * (chars@.len() - i),
            byte_len(chars@.skip(cut as int)) <= keep,
            cut > i ==> byte_len(chars@.skip(cut - 1)) > keep,
        decreases i,
    {
        let ghost before = chars@.skip(i as int);
        i = i - 1;
        proof {
            let now = chars@.skip(i as int);
            assert(now.drop_first() == before);
            assert(now[0] == chars@[i as int]);
        }
        bytes = bytes + char_width(chars[i]) as u128;
        if cut == i + 1 && bytes <= keep as u128 {
            cut = i;
        }
    }
    assert(chars@.skip(0) == chars@);
    if bytes > limit as u128 {
        proof {
            lemma_last_bytes(chars@, keep as nat, cut as int);
        }
        let end: &[char] = &chars[cut..chars.len()];
        assert(end@ == chars@.skip(cut as int));
        from_chars(end)
    } else {
        s.to_string()
    }
}

/// What is kept is an end of the text and has no more than `limit` bytes.
pub proof fn law_kept_is_an_end(s: Seq<char>, limit: nat, keep: nat)
    requires
        keep <= limit,
    ensures
        byte_len(kept(s, limit, keep)) <= limit,
        exists|i: int| 0 <= i <= s.len() && kept(s, limit, keep) == #[trigger] s.skip(i),
{
    assert(s.skip(0) == s);
    lemma_last_bytes_is_end(s, keep);
}

proof fn lemma_last_bytes_is_end(s: Seq<char>, limit: nat)
    ensures
        byte_len(last_bytes(s, limit)) <= limit,
        exists|i: int| 0 <= i <= s.len() && last_bytes(s, limit) == #[trigger] s.skip(i),
    decreases s.len(),
{
    assert(s.skip(0) == s);
    if byte_len(s) > limit && s.len() > 0 {
        let rest = s.drop_first();
        lemma_last_bytes_is_end(rest, limit);
        let i = choose|i: int| 0 <= i <= rest.len() && last_bytes(rest, limit) == #[trigger] rest.skip(i);
        assert(rest.skip(i) == s.skip(i + 1));
    }
}


/// A text cut to a number of characters: where it is longer, an ellipsis stands for the last of
/// them, without white space before it.
pub open spec fn shortened(s: Seq<char>, max: nat) -> Seq<char> {
    if s.len() <= max {
        s
    } else {
        trimmed_end(s.take(if max == 0 {
            0
        } else {
            max - 1
        })).push('…')
    }
}

/// A text cut to a number of characters.
pub fn zkrat(s: &str, max: usize) -> (r: String)
    ensures
        r@ == shortened(s@, max as nat),
{
    let chars = to_chars(s);
    if chars.len() <= max {
        return s.to_string();
    }
    let cut: usize = if max == 0 {
        0
    } else {
        max - 1
    };
    let mut end: usize = cut;
    assert(chars@.take(cut as int).take(end as int) == chars@.take(cut as int));
    while end > 0 && is_whitespace(chars[end - 1])
        invariant
            end <= cut <= chars@.len(),
            trimmed_end(chars@.take(end as int)) == trimmed_end(chars@.take(cut as int)),
        decreases end,
    {
        assert(chars@.take(end as int).drop_last() == chars@.take(end - 1));
        end = end - 1;
    }
    let kept_part: &[char] = &chars[0..end];
    assert(kept_part@ == chars@.take(end as int));
    assert(trimmed_end(chars@.take(end as int)) == chars@.take(end as int));
    let mut out = from_chars(kept_part);
    out.push('…');
    out
}

/// A shortened text is no longer than it may be, if it may be anything at all.
pub proof fn law_shortened_fits(s: Seq<char>, max: nat)
    requires
        max > 0,
    ensures
        shortened(s, max).len() <= max,
        s.len() <= max ==> shortened(s, max) == s,
{
    if s.len() > max {
        lemma_trimmed_end_is_shorter(s.take(max - 1));
    }
}

proof fn lemma_trimmed_end_is_shorter(s: Seq<char>)
    ensures
        trimmed_end(s).len() <= s.len(),
    decreases s.len(),
{
    if s.len() > 0 {
        lemma_trimmed_end_is_shorter(s.drop_last());
    }
}

/// Digits count by their places: behind others each moves those by a place.
pub proof fn law_digits_count_by_their_places(a: Seq<char>, b: Seq<char>)
    ensures
        number(a + b) == number(a) * power_of_ten(b.len()) + number(b),
        forall|c: char| is_digit(c) ==> #[trigger] number(seq![c]) == c as int - 48,
        power_of_ten(b.len()) >= 1,
    decreases b.len(),
{
    reveal_with_fuel(number, 2);
    if b.len() == 0 {
        assert(a + b == a);
    } else {
        law_digits_count_by_their_places(a, b.drop_last());
        assert((a + b).drop_last() == a + b.drop_last());
        let (n, p) = (number(a) as int, power_of_ten((b.len() - 1) as nat));
        assert(n * p * 10 == n * (10 * p)) by (nonlinear_arith);
    }
    assert forall|c: char| is_digit(c) implies #[trigger] number(seq![c]) == c as int - 48 by {
        assert(seq![c].drop_last() == Seq::<char>::empty());
        assert(seq![c].last() == c);
    }
}

/// A number that was written is read back, where it is not too large; it has no zero before it.
pub proof fn law_written_number_is_read_back(n: nat, max: nat)
    ensures
        unsigned(decimal(n), max) == if n <= max {
            Some(n)
        } else {
            None::<nat>
        },
        n > 0 ==> decimal(n)[0] != '0',
        decimal(n).len() > 0,
{
    lemma_decimal(n);
}

proof fn lemma_decimal(n: nat)
    ensures
        decimal(n).len() > 0,
        all_digits(decimal(n)),
        number(decimal(n)) == n,
        n > 0 ==> decimal(n)[0] != '0',
    decreases n,
{
    reveal_with_fuel(number, 2);
    if n < 10 {
        assert(seq![digit_char(n)].drop_last() == Seq::<char>::empty());
    } else {
        lemma_decimal(n / 10);
        assert(decimal(n).drop_last() == decimal(n / 10));
        assert forall|i: int| 0 <= i < decimal(n).len() implies is_digit(#[trigger] decimal(n)[i]) by {
            if i < decimal(n).len() - 1 {
                assert(decimal(n)[i] == decimal(n / 10)[i]);
            }
        }
    }
}

/// A number in a number of places has so many digits, and they are its last ones.
pub proof fn law_padded_number_has_its_places(n: nat, places: nat)
    ensures
        padded(n, places).len() == places,
        all_digits(padded(n, places)),
        n < power_of_ten(places) ==> number(padded(n, places)) == n,
        power_of_ten(places) >= 1,
    decreases places,
{
    if places > 0 {
        law_padded_number_has_its_places(n / 10, (places - 1) as nat);
        let s = padded(n, places);
        assert(s.drop_last() == padded(n / 10, (places - 1) as nat));
        assert forall|i: int| 0 <= i < s.len() implies is_digit(#[trigger] s[i]) by {
            if i < s.len() - 1 {
                assert(s[i] == s.drop_last()[i]);
            }
        }
    }
}

/// Texts put together with a separator between them.
pub open spec fn joined_by(parts: Seq<Seq<char>>, sep: char) -> Seq<char>
    decreases parts.len(),
{
    if parts.len() == 0 {
        Seq::empty()
    } else if parts.len() == 1 {
        parts[0]
    } else {
        parts[0] + seq![sep] + joined_by(parts.drop_first(), sep)
    }
}

/// Splitting undoes putting together: parts that do not hold the separator come back, all of them
/// and in their order, be they empty or not.
#[verifier::rlimit(40)]
pub proof fn law_split_gives_the_parts_back(parts: Seq<Seq<char>>, sep: char)
    requires
        parts.len() > 0,
        forall|i: int| 0 <= i < parts.len() ==> !(#[trigger] parts[i]).contains(sep),
    ensures
        split_on(joined_by(parts, sep), sep) == parts,
    decreases parts.len(),
{
    let s = joined_by(parts, sep);
    let a = parts[0];
    assert(!a.contains(sep));
    assert forall|i: int| 0 <= i < a.len() implies a[i] != sep by {
        assert(a.contains(a[i]));
    }
    lemma_is_first_index(s, sep, 0, a.len() as int);
    if parts.len() == 1 {
        assert(seq![s] =~= parts);
    } else {
        let rest = parts.drop_first();
        assert forall|i: int| 0 <= i < rest.len() implies !(#[trigger] rest[i]).contains(sep) by {
            assert(rest[i] == parts[i + 1]);
        }
        law_split_gives_the_parts_back(rest, sep);
        assert(s.take(a.len() as int) == a);
        assert(s.skip(a.len() as int + 1) == joined_by(rest, sep));
        assert(seq![a] + rest =~= parts);
    }
}

/// A text of lines gives its lines back, whether they end with a line feed or with a carriage return
/// before it.
#[verifier::rlimit(40)]
pub proof fn law_lines_come_back(line: Seq<char>, rest: Seq<char>)
    requires
        !line.contains('\n'),
        line.len() == 0 || line.last() != '\r',
    ensures
        lines_of(line + seq!['\n'] + rest) == seq![line] + lines_of(rest),
        lines_of(line + seq!['\r', '\n'] + rest) == seq![line] + lines_of(rest),
        line.len() > 0 ==> lines_of(line) == seq![line],
        lines_of(Seq::empty()) == Seq::<Seq<char>>::empty(),
{
    assert forall|i: int| 0 <= i < line.len() implies line[i] != '\n' by {
        assert(line.contains(line[i]));
    }
    let n = line.len() as int;
    let s = line + seq!['\n'] + rest;
    lemma_is_first_index(s, '\n', 0, n);
    assert(s.take(n) == line);
    assert(s.skip(n + 1) == rest);
    let t = line + seq!['\r', '\n'] + rest;
    lemma_is_first_index(t, '\n', 0, n + 1);
    assert(t.take(n + 1) == line.push('\r'));
    assert(line.push('\r').drop_last() == line);
    assert(t.skip(n + 2) == rest);
    lemma_is_first_index(line, '\n', 0, n);
}

/// Trimming takes away what is blank at both ends and nothing else.
pub proof fn law_trimming_takes_the_blanks_at_the_ends(a: Seq<char>, s: Seq<char>, b: Seq<char>)
    requires
        s.len() > 0,
        !is_white(s[0]),
        !is_white(s.last()),
        forall|i: int| 0 <= i < a.len() ==> is_white(#[trigger] a[i]),
        forall|i: int| 0 <= i < b.len() ==> is_white(#[trigger] b[i]),
    ensures
        trimmed(a + s + b) == s,
{
    let t = a + s + b;
    lemma_trimmed_start(t, a.len() as int);
    assert(t.skip(a.len() as int) == s + b);
    lemma_trimmed_end(s + b, s.len() as int);
    assert((s + b).take(s.len() as int) == s);
}

/// A frequency is written as the nearest one that has so many decimals: the digits that are written,
/// before and behind the point, make a number that is half a unit of the last of them away at most,
/// up to what double precision cannot tell; and a frequency that can be written exactly is.
#[verifier::rlimit(40)]
pub proof fn law_written_frequency_is_the_nearest(freq: int, decimals: nat) -> (n: nat)
    requires
        -4_000_000_000_000_000 <= freq <= 4_000_000_000_000_000,
        decimals == 0 || decimals == 1 || decimals == 3,
    ensures
        ({
            let size = if freq < 0 {
                -freq
            } else {
                freq
            };
            let unit: int = if decimals == 0 {
                1
            } else if decimals == 1 {
                10
            } else {
                1000
            };
            let sign = if freq < 0 {
                seq!['-']
            } else {
                Seq::<char>::empty()
            };
            &&& -(1_000_000 + unit) <= 2 * (1_000_000 * n - size * unit) <= 1_000_000 + unit
            &&& (size * unit) % 1_000_000 == 0 ==> 1_000_000 * n == size * unit
            &&& khz(freq, decimals) == if decimals == 0 {
                sign + decimal(n)
            } else {
                sign + decimal((n as int / unit) as nat) + seq!['.'] + padded(
                    (n as int % unit) as nat,
                    decimals,
                )
            }
        }),
{
    reveal_with_fuel(power_of_ten, 4);
    let size = if freq < 0 {
        -freq
    } else {
        freq
    };
    let unit = power_of_ten(decimals);
    let scale = binary_scale(size);
    let double = nearest_double(size);
    let n = nearest_even(double * unit, scale);
    lemma_binary_scale(size);
    lemma_nearest_even(size * scale, 1_000_000);
    lemma_nearest_even(double * unit, scale);
    let off = 1_000_000 * n - size * unit;
    let e1 = 1_000_000 * double - size * scale;
    let e2 = n * scale - double * unit;
    assert(scale * off == 1_000_000 * e2 + unit * e1) by (nonlinear_arith)
        requires
            off == 1_000_000 * n - size * unit,
            e1 == 1_000_000 * double - size * scale,
            e2 == n * scale - double * unit,
    ;
    assert(-(1_000_000 + unit) <= 2 * off <= 1_000_000 + unit) by (nonlinear_arith)
        requires
            scale * off == 1_000_000 * e2 + unit * e1,
            -scale <= 2 * e2 <= scale,
            -1_000_000 <= 2 * e1 <= 1_000_000,
            size > 0 ==> scale >= 1_000_000,
            size <= 0 ==> e1 == 0 && scale >= 1,
            unit >= 1,
    ;
    assert(n >= 0) by (nonlinear_arith)
        requires
            -(1_000_000 + unit) <= 2 * (1_000_000 * n - size * unit),
            size >= 0,
            1 <= unit <= 1000,
    ;
    n as nat
}

proof fn lemma_nearest_even(n: int, d: int)
    requires
        d > 0,
    ensures
        -d <= 2 * (nearest_even(n, d) * d - n) <= d,
{
    let q = n / d;
    let r = n % d;
    vstd::arithmetic::div_mod::lemma_fundamental_div_mod(n, d);
    vstd::arithmetic::div_mod::lemma_mod_bound(n, d);
    assert(q * d == n - r && (q + 1) * d == n - r + d) by (nonlinear_arith)
        requires
            n == d * q + r,
    ;
}

proof fn lemma_binary_scale(millionths: int)
    ensures
        binary_scale(millionths) >= 1,
        millionths > 0 ==> millionths * binary_scale(millionths) >= DOUBLE_PLACES,
        0 < millionths <= 4_000_000_000_000_000 ==> binary_scale(millionths) >= 1_000_000,
    decreases 2 * DOUBLE_PLACES - millionths,
{
    if 0 < millionths < DOUBLE_PLACES {
        lemma_binary_scale(2 * millionths);
        let s = binary_scale(2 * millionths);
        assert(millionths * (2 * s) == 2 * millionths * s) by (nonlinear_arith);
        let t = binary_scale(millionths);
        assert(millionths <= 4_000_000_000_000_000 ==> t >= 1_000_000) by (nonlinear_arith)
            requires
                millionths * t >= 4_503_599_627_370_496_000_000,
                millionths > 0,
        ;
    }
}

/// A character has one byte up to 127, two up to 2047, three up to 65535, and else four.
pub proof fn law_bytes_of_a_character(c: char)
    ensures
        c as int <= 127 <==> width(c) == 1,
        128 <= c as int <= 2047 <==> width(c) == 2,
        2048 <= c as int <= 65535 <==> width(c) == 3,
        c as int >= 65536 <==> width(c) == 4,
        byte_len(seq![c]) == width(c),
        byte_len(Seq::empty()) == 0,
{
    reveal_with_fuel(byte_len, 2);
    assert(seq![c].drop_first() =~= Seq::<char>::empty());
}

/// What is kept of a text is all of it, where it is not too long, and else the longest end that has no
/// more than so many bytes: with one more character it would have more.
pub proof fn law_kept_is_the_longest_end(s: Seq<char>, limit: nat, keep: nat) -> (i: int)
    requires
        keep <= limit,
    ensures
        0 <= i <= s.len(),
        kept(s, limit, keep) == s.skip(i),
        byte_len(s) <= limit ==> i == 0,
        byte_len(s) > limit ==> byte_len(s.skip(i)) <= keep && i > 0 && byte_len(s.skip(i - 1)) > keep,
{
    if byte_len(s) <= limit {
        assert(s.skip(0) =~= s);
        0
    } else {
        lemma_longest_end(s, keep)
    }
}

proof fn lemma_longest_end(s: Seq<char>, keep: nat) -> (i: int)
    requires
        byte_len(s) > keep,
    ensures
        0 < i <= s.len(),
        last_bytes(s, keep) == s.skip(i),
        byte_len(s.skip(i)) <= keep,
        byte_len(s.skip(i - 1)) > keep,
    decreases s.len(),
{
    let rest = s.drop_first();
    reveal_with_fuel(last_bytes, 2);
    assert(s.skip(1) =~= rest);
    assert(s.skip(0) =~= s);
    if byte_len(rest) <= keep || rest.len() == 0 {
        1
    } else {
        let j = lemma_longest_end(rest, keep);
        assert(rest.skip(j) =~= s.skip(j + 1));
        assert(rest.skip(j - 1) =~= s.skip(j));
        j + 1
    }
}

/// What is left of a text that is too long is its beginning, without blanks at the end of it, and an
/// ellipsis: nothing but blanks is left out before the last place.
pub proof fn law_shortened_is_a_beginning(s: Seq<char>, max: nat)
    requires
        0 < max < s.len(),
    ensures
        ({
            let r = shortened(s, max);
            &&& r.len() >= 1
            &&& r.last() == '…'
            &&& r.len() <= max
            &&& r.drop_last() == s.take(r.len() - 1)
            &&& r.len() > 1 ==> !is_white(r[r.len() - 2])
            &&& forall|i: int| r.len() - 1 <= i < max - 1 ==> is_white(#[trigger] s[i])
        }),
{
    let head = s.take(max - 1);
    let n = lemma_end_of_text(head);
    lemma_trimmed_end(head, n);
    let r = shortened(s, max);
    assert(head.take(n) =~= s.take(n));
    assert(r =~= s.take(n).push('…'));
    assert(r.drop_last() =~= s.take(n));
    assert forall|i: int| r.len() - 1 <= i < max - 1 implies is_white(#[trigger] s[i]) by {
        assert(head[i] == s[i]);
    }
}

/// A name put behind a path stands at its end, behind one slash.
pub proof fn law_name_stands_behind_one_slash(base: Seq<char>, name: Seq<char>)
    ensures
        base.len() == 0 ==> joined(base, name) == name,
        base.len() > 0 && base.last() != '/' ==> joined(base, name) == base + seq!['/'] + name,
        base.len() > 0 && base.last() == '/' ==> joined(base, name) == base + name,
{
    assert(base.push('/') + name =~= base + seq!['/'] + name);
}

} // verus!

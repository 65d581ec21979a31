//! Small text operations, on sequences of characters.

use vstd::prelude::*;
use vstd::string::*;

verus! {

/// The decimal digit `d` as a character.
pub open spec fn digit(d: int) -> char {
    if d == 0 {
        '0'
    } else if d == 1 {
        '1'
    } else if d == 2 {
        '2'
    } else if d == 3 {
        '3'
    } else if d == 4 {
        '4'
    } else if d == 5 {
        '5'
    } else if d == 6 {
        '6'
    } else if d == 7 {
        '7'
    } else if d == 8 {
        '8'
    } else {
        '9'
    }
}

/// A number written in decimal, without leading zeros.
pub open spec fn decimal(n: nat) -> Seq<char>
    decreases n,
{
    if n < 10 {
        seq![digit(n as int)]
    } else {
        decimal(n / 10).push(digit((n % 10) as int))
    }
}

/// The one-character text of a digit.
fn digit_text(d: u64) -> (r: &'static str)
    requires
        d < 10,
    ensures
        r@ == seq![digit(d as int)],
{
    proof {
        reveal_strlit("0");
        reveal_strlit("1");
        reveal_strlit("2");
        reveal_strlit("3");
        reveal_strlit("4");
        reveal_strlit("5");
        reveal_strlit("6");
        reveal_strlit("7");
        reveal_strlit("8");
        reveal_strlit("9");
    }
    if d == 0 {
        "0"
    } else if d == 1 {
        "1"
    } else if d == 2 {
        "2"
    } else if d == 3 {
        "3"
    } else if d == 4 {
        "4"
    } else if d == 5 {
        "5"
    } else if d == 6 {
        "6"
    } else if d == 7 {
        "7"
    } else if d == 8 {
        "8"
    } else {
        "9"
    }
}

/// Writes a number in decimal.
pub fn decimal_string(n: u64) -> (r: String)
    ensures
        r@ == decimal(n as nat),
    decreases n,
{
    if n < 10 {
        digit_text(n).to_owned()
    } else {
        let mut s: String = decimal_string(n / 10);
        s.append(digit_text(n % 10));
        s
    }
}

/// Whether two texts are the same.
pub fn same_text(a: &str, b: &str) -> (r: bool)
    ensures
        r == (a@ == b@),
{
    let x: String = a.to_owned();
    let y: String = b.to_owned();
    x == y
}

/// The characters that Unicode calls white space.
pub open spec fn is_white_space(c: char) -> bool {
    let n = c as int;
    ||| 0x9 <= n <= 0xd
    ||| n == 0x20
    ||| n == 0x85
    ||| n == 0xa0
    ||| n == 0x1680
    ||| 0x2000 <= n <= 0x200a
    ||| n == 0x2028
    ||| n == 0x2029
    ||| n == 0x202f
    ||| n == 0x205f
    ||| n == 0x3000
}

/// Whether a character is white space.
pub fn white_space(c: char) -> (r: bool)
    ensures
        r == is_white_space(c),
{
    let n: u32 = c as u32;
    (0x9 <= n && n <= 0xd) || n == 0x20 || n == 0x85 || n == 0xa0 || n == 0x1680 || (0x2000 <= n
        && n <= 0x200a) || n == 0x2028 || n == 0x2029 || n == 0x202f || n == 0x205f || n == 0x3000
}

/// The text without its leading white space.
pub open spec fn trimmed_start(s: Seq<char>) -> Seq<char>
    decreases s.len(),
{
    if s.len() > 0 && is_white_space(s[0]) {
        trimmed_start(s.skip(1))
    } else {
        s
    }
}

/// The text without its trailing white space.
pub open spec fn trimmed_end(s: Seq<char>) -> Seq<char>
    decreases s.len(),
{
    if s.len() > 0 && is_white_space(s.last()) {
        trimmed_end(s.drop_last())
    } else {
        s
    }
}

/// The text without leading and trailing white space.
pub open spec fn trimmed(s: Seq<char>) -> Seq<char> {
    trimmed_end(trimmed_start(s))
}

/// Removes leading and trailing white space.
pub fn trim(s: &str) -> (r: &str)
    ensures
        r@ == trimmed(s@),
{
    let n: usize = s.unicode_len();
    let mut from: usize = 0;
    proof {
        assert(s@.skip(0) =~= s@);
    }
    while from < n && white_space(s.get_char(from))
        invariant
            n == s@.len(),
            from <= n,
            trimmed_start(s@) == trimmed_start(s@.skip(from as int)),
        decreases n - from,
    {
        proof {
            assert(s@.skip(from as int).skip(1) =~= s@.skip(from + 1));
        }
        from = from + 1;
    }
    let mut to: usize = n;
    let ghost start = s@.skip(from as int);
    proof {
        assert(trimmed_start(s@) == start);
        assert(start =~= s@.subrange(from as int, to as int));
    }
    while from < to && white_space(s.get_char(to - 1))
        invariant
            n == s@.len(),
            from <= to <= n,
            trimmed_end(start) == trimmed_end(s@.subrange(from as int, to as int)),
        decreases to,
    {
        proof {
            assert(s@.subrange(from as int, to as int).drop_last() =~= s@.subrange(
                from as int,
                to - 1,
            ));
        }
        to = to - 1;
    }
    s.substring_char(from, to)
}

/// Whether a text is empty or nothing but white space.
pub fn is_blank(s: &str) -> (r: bool)
    ensures
        r == (trimmed(s@).len() == 0),
{
    trim(s).is_empty()
}

/// The text without any copies of `suffix` at its end.
pub open spec fn without_suffixes(s: Seq<char>, suffix: Seq<char>) -> Seq<char>
    decreases s.len(),
{
    if 0 < suffix.len() <= s.len() && s.skip(s.len() - suffix.len()) == suffix {
        without_suffixes(s.take(s.len() - suffix.len()), suffix)
    } else {
        s
    }
}

/// Removes every copy of `suffix` from the end of a text.
pub fn trim_suffixes<'a>(s: &'a str, suffix: &str) -> (r: &'a str)
    ensures
        r@ == without_suffixes(s@, suffix@),
{
    let k: usize = suffix.unicode_len();
    let n: usize = s.unicode_len();
    if k == 0 {
        return s;
    }
    let mut to: usize = n;
    proof {
        assert(s@.take(n as int) =~= s@);
    }
    while to >= k && same_text(s.substring_char(to - k, to), suffix)
        invariant
            0 < k == suffix@.len(),
            n == s@.len(),
            to <= n,
            without_suffixes(s@, suffix@) == without_suffixes(s@.take(to as int), suffix@),
        decreases to,
    {
        proof {
            let t = s@.take(to as int);
            assert(t.skip(to - k) =~= s@.subrange(to - k, to as int));
            assert(t.take(to - k) =~= s@.take(to - k));
        }
        to = to - k;
    }
    proof {
        let t = s@.take(to as int);
        if to >= k {
            assert(t.skip(to - k) =~= s@.subrange(to - k, to as int));
        }
        assert(t =~= s@.subrange(0, to as int));
    }
    s.substring_char(0, to)
}

/// A character that is a decimal digit.
pub open spec fn is_digit(c: char) -> bool {
    '0' <= c <= '9'
}

/// The number that a text of decimal digits stands for.
pub open spec fn digits_value(s: Seq<char>) -> int
    decreases s.len(),
{
    if s.len() == 0 {
        0
    } else {
        digits_value(s.drop_last()) * 10 + (s.last() as int - '0' as int)
    }
}

/// A text of at least one decimal digit and nothing else.
pub open spec fn is_number(s: Seq<char>) -> bool {
    s.len() > 0 && forall|i: int| 0 <= i < s.len() ==> is_digit(#[trigger] s[i])
}

/// The 32-bit integer that a text stands for: decimal digits, with or without one
/// sign in front.
pub open spec fn integer_value(s: Seq<char>) -> Option<int> {
    let signed = s.len() > 0 && (s[0] == '-' || s[0] == '+');
    let digits = if signed {
        s.skip(1)
    } else {
        s
    };
    let value = if signed && s[0] == '-' {
        -digits_value(digits)
    } else {
        digits_value(digits)
    };
    if is_number(digits) && i32::MIN <= value <= i32::MAX {
        Some(value)
    } else {
        None
    }
}

/// More digits never make a number smaller.
proof fn lemma_digits_grow(s: Seq<char>, k: int)
    requires
        0 <= k <= s.len(),
        forall|i: int| 0 <= i < s.len() ==> is_digit(#[trigger] s[i]),
    ensures
        0 <= digits_value(s.take(k)) <= digits_value(s),
    decreases s.len(),
{
    if s.len() == 0 {
        assert(s.take(k) =~= s);
    } else if k == s.len() {
        assert(s.take(k) =~= s);
        let t = s.drop_last();
        assert forall|i: int| 0 <= i < t.len() implies is_digit(#[trigger] t[i]) by {
            assert(is_digit(s[i]));
        }
        lemma_digits_grow(t, t.len() as int);
        assert(t.take(t.len() as int) =~= t);
        assert(is_digit(s[s.len() - 1]));
    } else {
        let t = s.drop_last();
        assert forall|i: int| 0 <= i < t.len() implies is_digit(#[trigger] t[i]) by {
            assert(is_digit(s[i]));
        }
        lemma_digits_grow(t, k);
        assert(t.take(k) =~= s.take(k));
        assert(is_digit(s[s.len() - 1]));
    }
}

/// Reads a 32-bit integer: decimal digits, with or without one sign in front.
pub fn parse_i32(s: &str) -> (r: Option<i32>)
    ensures
        match integer_value(s@) {
            Some(v) => r is Some && r->0 == v,
            None => r is None,
        },
{
    let n: usize = s.unicode_len();
    let mut negative: bool = false;
    let mut at: usize = 0;
    if n > 0 {
        let first: char = s.get_char(0);
        if first == '-' {
            negative = true;
            at = 1;
        } else if first == '+' {
            at = 1;
        }
    }
    let ghost digits = s@.skip(at as int);
    proof {
        assert(s@.skip(0) =~= s@);
    }
    if at == n {
        return None;
    }
    let from: usize = at;
    let mut value: i64 = 0;
    proof {
        assert(digits.take(0) =~= Seq::<char>::empty());
    }
    while at < n
        invariant
            n == s@.len(),
            from <= at <= n,
            from < n,
            digits == s@.skip(from as int),
            from == 0 || from == 1,
            from == 1 <==> (s@[0] == '-' || s@[0] == '+'),
            negative == (s@[0] == '-'),
            forall|i: int| 0 <= i < at - from ==> is_digit(#[trigger] digits[i]),
            value == digits_value(digits.take(at - from)),
            0 <= value <= 0x8000_0000,
        decreases n - at,
    {
        let c: char = s.get_char(at);
        proof {
            assert(digits[at - from] == c);
        }
        if !('0' <= c && c <= '9') {
            return None;
        }
        value = value * 10 + (c as i64 - '0' as i64);
        proof {
            let k = at - from;
            assert(s@.skip(0) =~= s@);
            assert(digits.take(k + 1).drop_last() =~= digits.take(k));
            assert(digits.take(k + 1).last() == c);
            if value > 0x8000_0000 && is_number(digits) {
                lemma_digits_grow(digits, k + 1);
            }
        }
        if value > 0x8000_0000 {
            return None;
        }
        at = at + 1;
    }
    proof {
        assert(digits.take(n - from) =~= digits);
    }
    if negative {
        Some((-value) as i32)
    } else if value <= 0x7fff_ffff {
        Some(value as i32)
    } else {
        None
    }
}

/// A trimmed text neither starts nor ends with white space.
pub proof fn law_trimmed_has_no_outer_white_space(s: Seq<char>)
    ensures
        trimmed(s).len() > 0 ==> !is_white_space(trimmed(s)[0]) && !is_white_space(
            trimmed(s).last(),
        ),
{
    lemma_trimmed_start(s);
    lemma_trimmed_end(trimmed_start(s));
}

proof fn lemma_trimmed_start(s: Seq<char>)
    ensures
        trimmed_start(s).len() > 0 ==> !is_white_space(trimmed_start(s)[0]),
    decreases s.len(),
{
    if s.len() > 0 && is_white_space(s[0]) {
        lemma_trimmed_start(s.skip(1));
    }
}

proof fn lemma_trimmed_end(s: Seq<char>)
    ensures
        trimmed_end(s).len() > 0 ==> !is_white_space(trimmed_end(s).last()) && trimmed_end(s)[0]
            == s[0],
    decreases s.len(),
{
    if s.len() > 0 && is_white_space(s.last()) {
        lemma_trimmed_end(s.drop_last());
    }
}

/// A text whose suffixes are removed does not end with the suffix, however often it
/// was there.
pub proof fn law_no_suffix_is_left(s: Seq<char>, suffix: Seq<char>)
    requires
        suffix.len() > 0,
    ensures
        ({
            let r = without_suffixes(s, suffix);
            r.len() >= suffix.len() ==> r.skip(r.len() - suffix.len()) != suffix
        }),
    decreases s.len(),
{
    if 0 < suffix.len() <= s.len() && s.skip(s.len() - suffix.len()) == suffix {
        law_no_suffix_is_left(s.take(s.len() - suffix.len()), suffix);
    }
}

/// A digit stands for itself.
proof fn lemma_digit(d: int)
    requires
        0 <= d < 10,
    ensures
        is_digit(digit(d)),
        digit(d) as int - '0' as int == d,
{
}

/// Decimal text is made of digits and stands for its number.
pub proof fn lemma_decimal(n: nat)
    ensures
        is_number(decimal(n)),
        digits_value(decimal(n)) == n,
    decreases n,
{
    if n < 10 {
        lemma_digit(n as int);
        let s = decimal(n);
        assert(s.drop_last() =~= Seq::<char>::empty());
        assert(digits_value(s.drop_last()) == 0);
    } else {
        lemma_decimal(n / 10);
        lemma_digit((n % 10) as int);
        let s = decimal(n);
        assert(s.drop_last() =~= decimal(n / 10));
    }
}

/// Text without white space is its own trimming.
proof fn lemma_number_is_trimmed(s: Seq<char>)
    requires
        is_number(s),
    ensures
        trimmed(s) == s,
{
    assert(is_digit(s[0]));
    assert(is_digit(s[s.len() - 1]));
}

/// A number written in decimal and read back is the same number, with or without
/// trimming.
pub proof fn law_decimal_reads_back(n: nat)
    requires
        n <= i32::MAX,
    ensures
        integer_value(decimal(n)) == Some(n as int),
        integer_value(trimmed(decimal(n))) == Some(n as int),
{
    lemma_decimal(n);
    lemma_number_is_trimmed(decimal(n));
    assert(is_digit(decimal(n)[0]));
}

/// Where a trimmed text lies: it is what is left of the text between two places, and all that
/// lies before the first and after the second is white space.
pub proof fn law_trimming_takes_white_space_alone(s: Seq<char>) -> (ends: (int, int))
    ensures
        0 <= ends.0 <= ends.1 <= s.len(),
        trimmed(s) == s.subrange(ends.0, ends.1),
        forall|i: int| 0 <= i < ends.0 ==> is_white_space(#[trigger] s[i]),
        forall|i: int| ends.1 <= i < s.len() ==> is_white_space(#[trigger] s[i]),
{
    let from = lemma_start_place(s);
    let rest = trimmed_start(s);
    let to = lemma_end_place(rest);
    assert(trimmed(s) =~= s.subrange(from, from + to));
    assert forall|i: int| from + to <= i < s.len() implies is_white_space(#[trigger] s[i]) by {
        assert(rest[i - from] == s[i]);
    }
    (from, from + to)
}

proof fn lemma_start_place(s: Seq<char>) -> (from: int)
    ensures
        0 <= from <= s.len(),
        trimmed_start(s) == s.skip(from),
        forall|i: int| 0 <= i < from ==> is_white_space(#[trigger] s[i]),
    decreases s.len(),
{
    if s.len() > 0 && is_white_space(s[0]) {
        let t = s.skip(1);
        let n = lemma_start_place(t);
        assert(t.skip(n) =~= s.skip(n + 1));
        assert forall|i: int| 0 <= i < n + 1 implies is_white_space(#[trigger] s[i]) by {
            if i > 0 {
                assert(t[i - 1] == s[i]);
            }
        }
        n + 1
    } else {
        assert(s.skip(0) =~= s);
        0
    }
}

proof fn lemma_end_place(s: Seq<char>) -> (to: int)
    ensures
        0 <= to <= s.len(),
        trimmed_end(s) == s.take(to),
        forall|i: int| to <= i < s.len() ==> is_white_space(#[trigger] s[i]),
    decreases s.len(),
{
    if s.len() > 0 && is_white_space(s.last()) {
        let t = s.drop_last();
        let n = lemma_end_place(t);
        assert(t.take(n) =~= s.take(n));
        assert forall|i: int| n <= i < s.len() implies is_white_space(#[trigger] s[i]) by {
            if i < t.len() {
                assert(t[i] == s[i]);
            }
        }
        n
    } else {
        assert(s.take(s.len() as int) =~= s);
        s.len() as int
    }
}

/// A text is blank exactly where it holds nothing but white space.
pub proof fn law_blank_is_all_white_space(s: Seq<char>)
    ensures
        trimmed(s).len() == 0 <==> forall|i: int|
            0 <= i < s.len() ==> is_white_space(#[trigger] s[i]),
{
    let (a, b) = law_trimming_takes_white_space_alone(s);
    law_trimmed_has_no_outer_white_space(s);
    if trimmed(s).len() > 0 {
        assert(trimmed(s)[0] == s[a]);
    }
}

/// A text some number of times over.
pub open spec fn times(s: Seq<char>, n: nat) -> Seq<char>
    decreases n,
{
    if n == 0 {
        Seq::empty()
    } else {
        times(s, (n - 1) as nat) + s
    }
}

/// What removing suffixes removes: the text is what is left of it, followed by the suffix some
/// number of times.
pub proof fn law_only_suffixes_are_removed(s: Seq<char>, suffix: Seq<char>) -> (n: nat)
    ensures
        s == without_suffixes(s, suffix) + times(suffix, n),
    decreases s.len(),
{
    if 0 < suffix.len() <= s.len() && s.skip(s.len() - suffix.len()) == suffix {
        let t = s.take(s.len() - suffix.len());
        let n = law_only_suffixes_are_removed(t, suffix);
        assert(s =~= t + suffix);
        assert(t + suffix =~= without_suffixes(t, suffix) + (times(suffix, n) + suffix));
        n + 1
    } else {
        assert(s =~= s + times(suffix, 0));
        0
    }
}

/// A sign in front of a decimal number is read, and makes the number negative where it is a
/// minus; anything but digits behind it, or nothing, is no number.
pub proof fn law_signs_are_read(n: nat, s: Seq<char>, i: int)
    ensures
        n <= i32::MAX ==> integer_value(seq!['+'] + decimal(n)) == Some(n as int),
        n <= 0x8000_0000 ==> integer_value(seq!['-'] + decimal(n)) == Some(-(n as int)),
        n > i32::MAX ==> integer_value(decimal(n)) is None,
        integer_value(Seq::empty()) is None,
        integer_value(seq!['-']) is None,
        integer_value(seq!['+']) is None,
        0 < i < s.len() && !('0' <= s[i] <= '9') ==> integer_value(s) is None,
        s.len() > 0 && !('0' <= s[0] <= '9') && s[0] != '-' && s[0] != '+'
            ==> integer_value(s) is None,
{
    lemma_decimal(n);
    assert((seq!['+'] + decimal(n)).skip(1) =~= decimal(n));
    assert((seq!['-'] + decimal(n)).skip(1) =~= decimal(n));
    assert(is_digit(decimal(n)[0]));
    assert(seq!['-'].skip(1) =~= Seq::empty());
    assert(seq!['+'].skip(1) =~= Seq::empty());
    if 0 < i < s.len() && !('0' <= s[i] <= '9') {
        assert(!is_digit(s[i]));
        assert(s.skip(1)[i - 1] == s[i]);
    }
    if s.len() > 0 && !('0' <= s[0] <= '9') {
        assert(!is_digit(s[0]));
    }
}

/// A decimal number has no zero in front, unless it is zero, and that is a single digit.
pub proof fn law_decimals_have_no_leading_zero(n: nat)
    ensures
        decimal(n).len() > 0,
        n > 0 ==> decimal(n)[0] != '0',
        n < 10 ==> decimal(n).len() == 1,
        n >= 10 ==> decimal(n).len() == decimal(n / 10).len() + 1,
        n == 0 ==> decimal(n)[0] == '0',
    decreases n,
{
    if n >= 10 {
        law_decimals_have_no_leading_zero(n / 10);
        assert(decimal(n)[0] == decimal(n / 10)[0]);
    }
}

/// What white space is among the characters of ASCII: the space, and those from the tab to the
/// carriage return. Beyond ASCII it is the next line, the no-break space, the Ogham space mark,
/// the spaces from the en quad to the hair space, both separators, the narrow no-break space,
/// the medium mathematical space and the ideographic space, 25 characters in all.
pub proof fn law_what_white_space_is(c: char, n: int)
    requires
        n == c as int,
    ensures
        n < 0x80 ==> (is_white_space(c) <==> n == 0x20 || 0x9 <= n <= 0xd),
        0x80 <= n < 0x2000 ==> (is_white_space(c) <==> n == 0x85 || n == 0xa0 || n == 0x1680),
        0x2000 <= n < 0x2100 ==> (is_white_space(c) <==> n <= 0x200a || n == 0x2028 || n == 0x2029
            || n == 0x202f || n == 0x205f),
        0x2100 <= n ==> (is_white_space(c) <==> n == 0x3000),
{
}

} // verus!

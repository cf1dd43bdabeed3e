//! Character-level string operations.
//!
//! Every function here is stated over `Seq<char>`, the view of a string. What
//! only the standard library can decide (Unicode lowercasing, UTF-8 decoding,
//! debug quoting) stands behind the wrappers at the end of the file.

use vstd::prelude::*;
use vstd::string::StringExecFns;
use vstd::utf8::{decode_utf8, is_ascii_chars, valid_utf8};

verus! {

broadcast use vstd::string::group_string_axioms;

/// `String::push`: appends one character.
pub assume_specification[ String::push ](s: &mut String, c: char)
    ensures
        final(s)@ == old(s)@.push(c),
;

/// The characters of `s`, in order.
pub fn chars_of(s: &str) -> (r: Vec<char>)
    ensures
        r@ == s@,
{
    let mut out: Vec<char> = Vec::new();
    for c in it: s.chars()
        invariant
            it.seq() == s@,
            out@ == s@.take(it.index() as int),
    {
        out.push(c);
        assert(out@ =~= s@.take(it.index() as int + 1));
    }
    assert(out@ =~= s@);
    out
}

/// The string made of `chars[from..to]`.
pub fn string_of_range(chars: &[char], from: usize, to: usize) -> (r: String)
    requires
        from <= to <= chars@.len(),
    ensures
        r@ == chars@.subrange(from as int, to as int),
{
    let mut out = String::new();
    let mut i: usize = from;
    while i < to
        invariant
            from <= i <= to <= chars@.len(),
            out@ == chars@.subrange(from as int, i as int),
        decreases to - i,
    {
        out.push(chars[i]);
        i += 1;
        assert(out@ =~= chars@.subrange(from as int, i as int));
    }
    out
}

/// `a` followed by `b`.
pub fn join2(a: &str, b: &str) -> (r: String)
    ensures
        r@ == a@ + b@,
{
    a.to_owned().concat(b)
}

/// `a`, `b` and `c`, one after the other.
pub fn join3(a: &str, b: &str, c: &str) -> (r: String)
    ensures
        r@ == a@ + b@ + c@,
{
    a.to_owned().concat(b).concat(c)
}

/// Whether two strings hold the same characters.
pub fn same_text(a: &str, b: &str) -> (r: bool)
    ensures
        r == (a@ == b@),
{
    a.to_owned() == b.to_owned()
}

/// The texts of a list of strings.
pub open spec fn texts(list: Seq<String>) -> Seq<Seq<char>> {
    list.map_values(|s: String| s@)
}

/// Whether `list` holds a string with the characters of `needle`.
pub fn contains_text(list: &[String], needle: &str) -> (r: bool)
    ensures
        r == texts(list@).contains(needle@),
{
    let wanted = needle.to_owned();
    let mut i: usize = 0;
    while i < list.len()
        invariant
            i <= list@.len(),
            wanted@ == needle@,
            forall|j: int| 0 <= j < i ==> texts(list@)[j] != needle@,
        decreases list.len() - i,
    {
        if list[i] == wanted {
            assert(texts(list@)[i as int] == needle@);
            return true;
        }
        i += 1;
    }
    false
}

/// A copy of a list of strings.
pub fn clone_texts(list: &Vec<String>) -> (r: Vec<String>)
    ensures
        r@ == list@,
{
    let mut out: Vec<String> = Vec::new();
    let mut i: usize = 0;
    while i < list.len()
        invariant
            i <= list.len(),
            out@ == list@.take(i as int),
        decreases list.len() - i,
    {
        out.push(list[i].clone());
        i += 1;
        assert(out@ =~= list@.take(i as int));
    }
    assert(out@ =~= list@);
    out
}

/// A copy of a byte string.
pub fn clone_bytes(bytes: &[u8]) -> (r: Vec<u8>)
    ensures
        r@ == bytes@,
{
    let mut out: Vec<u8> = Vec::new();
    let mut i: usize = 0;
    while i < bytes.len()
        invariant
            i <= bytes@.len(),
            out@ == bytes@.take(i as int),
        decreases bytes.len() - i,
    {
        out.push(bytes[i]);
        i += 1;
        assert(out@ =~= bytes@.take(i as int));
    }
    assert(out@ =~= bytes@);
    out
}

// ---------------------------------------------------------------------------
// White space
// ---------------------------------------------------------------------------

/// The characters with the Unicode property `White_Space`.
pub open spec fn is_white_space(c: char) -> bool {
    ||| '\u{9}' <= c <= '\u{d}'
    ||| c == ' '
    ||| c == '\u{85}'
    ||| c == '\u{a0}'
    ||| c == '\u{1680}'
    ||| '\u{2000}' <= c <= '\u{200a}'
    ||| c == '\u{2028}'
    ||| c == '\u{2029}'
    ||| c == '\u{202f}'
    ||| c == '\u{205f}'
    ||| c == '\u{3000}'
}

fn white_space(c: char) -> (r: bool)
    ensures
        r == is_white_space(c),
{
    ('\u{9}' <= c && c <= '\u{d}') || c == ' ' || c == '\u{85}' || c == '\u{a0}' || c == '\u{1680}'
        || ('\u{2000}' <= c && c <= '\u{200a}') || c == '\u{2028}' || c == '\u{2029}' || c
        == '\u{202f}' || c == '\u{205f}' || c == '\u{3000}'
}

/// `s` without its leading white space.
pub open spec fn trim_start(s: Seq<char>) -> Seq<char>
    decreases s.len(),
{
    if s.len() > 0 && is_white_space(s[0]) {
        trim_start(s.drop_first())
    } else {
        s
    }
}

/// `s` without its trailing white space.
pub open spec fn trim_end(s: Seq<char>) -> Seq<char>
    decreases s.len(),
{
    if s.len() > 0 && is_white_space(s.last()) {
        trim_end(s.drop_last())
    } else {
        s
    }
}

/// `s` without leading and trailing white space.
pub open spec fn trimmed(s: Seq<char>) -> Seq<char> {
    trim_end(trim_start(s))
}

/// `s` without leading and trailing white space.
pub fn trim(s: &str) -> (r: &str)
    ensures
        r@ == trimmed(s@),
{
    let chars = chars_of(s);
    let mut from: usize = 0;
    assert(chars@.skip(0) =~= chars@);
    while from < chars.len() && white_space(chars[from])
        invariant
            from <= chars.len(),
            trim_start(chars@) == trim_start(chars@.skip(from as int)),
        decreases chars.len() - from,
    {
        assert(chars@.skip(from as int).drop_first() =~= chars@.skip(from as int + 1));
        from += 1;
    }
    let ghost rest = chars@.skip(from as int);
    assert(trim_start(chars@) == rest);
    let mut to: usize = chars.len();
    assert(chars@.subrange(from as int, to as int) =~= rest);
    while from < to && white_space(chars[to - 1])
        invariant
            from <= to <= chars.len(),
            trim_end(rest) == trim_end(chars@.subrange(from as int, to as int)),
        decreases to,
    {
        assert(chars@.subrange(from as int, to as int).drop_last() =~= chars@.subrange(
            from as int,
            to as int - 1,
        ));
        to -= 1;
    }
    s.substring_char(from, to)
}

/// The first maximal run of characters that are not white space; empty where
/// there is none.
pub open spec fn first_token_of(s: Seq<char>) -> Seq<char> {
    let rest = trim_start(s);
    rest.take(white_space_at(rest) as int)
}

/// The index of the first white-space character, or the length.
pub open spec fn white_space_at(s: Seq<char>) -> nat
    decreases s.len(),
{
    if s.len() == 0 || is_white_space(s[0]) {
        0
    } else {
        1 + white_space_at(s.drop_first())
    }
}

/// The first white-space separated token of `s`, or `None` where there is none.
pub fn first_token(s: &str) -> (r: Option<String>)
    ensures
        match r {
            Some(t) => t@ == first_token_of(s@) && t@.len() > 0,
            None => first_token_of(s@).len() == 0,
        },
{
    let chars = chars_of(s);
    let mut from: usize = 0;
    assert(chars@.skip(0) =~= chars@);
    while from < chars.len() && white_space(chars[from])
        invariant
            from <= chars.len(),
            trim_start(chars@) == trim_start(chars@.skip(from as int)),
        decreases chars.len() - from,
    {
        assert(chars@.skip(from as int).drop_first() =~= chars@.skip(from as int + 1));
        from += 1;
    }
    let ghost rest = chars@.skip(from as int);
    assert(trim_start(chars@) == rest);
    let mut to: usize = from;
    assert(rest.skip(0) =~= rest);
    while to < chars.len() && !white_space(chars[to])
        invariant
            from <= to <= chars.len(),
            rest == chars@.skip(from as int),
            white_space_at(rest) == (to - from) + white_space_at(rest.skip(to - from)),
        decreases chars.len() - to,
    {
        assert(rest.skip(to - from).drop_first() =~= rest.skip(to - from + 1));
        to += 1;
    }
    assert(white_space_at(rest) == to - from);
    assert(rest.take(to - from) =~= chars@.subrange(from as int, to as int));
    if from < to {
        Some(string_of_range(&chars, from, to))
    } else {
        None
    }
}

// ---------------------------------------------------------------------------
// Searching
// ---------------------------------------------------------------------------

/// The index of the first `c` in `s`, or the length of `s`.
pub open spec fn first_index(s: Seq<char>, c: char) -> nat
    decreases s.len(),
{
    if s.len() == 0 || s[0] == c {
        0
    } else {
        1 + first_index(s.drop_first(), c)
    }
}

/// What stands before the first `c` of `s`: all of `s` where there is none.
pub open spec fn before(s: Seq<char>, c: char) -> Seq<char> {
    s.take(first_index(s, c) as int)
}

/// `first_index` is the first position that holds `c`.
pub proof fn lemma_first_index(s: Seq<char>, c: char)
    ensures
        first_index(s, c) <= s.len(),
        first_index(s, c) < s.len() ==> s[first_index(s, c) as int] == c,
        forall|i: int| 0 <= i < first_index(s, c) ==> s[i] != c,
        first_index(s, c) == s.len() <==> !s.contains(c),
    decreases s.len(),
{
    if s.len() > 0 && s[0] != c {
        let rest = s.drop_first();
        lemma_first_index(rest, c);
        assert forall|i: int| 0 <= i < first_index(s, c) implies s[i] != c by {
            if i > 0 {
                assert(s[i] == rest[i - 1]);
            }
        }
        if s.contains(c) {
            let i = choose|i: int| 0 <= i < s.len() && s[i] == c;
            assert(rest[i - 1] == c);
        }
    }
}

/// The index of the first `c` in `chars`, or the length of `chars`.
pub fn find_char(chars: &[char], c: char) -> (r: usize)
    ensures
        r == first_index(chars@, c),
        r <= chars@.len(),
{
    let mut i: usize = 0;
    assert(chars@.skip(0) =~= chars@);
    while i < chars.len() && chars[i] != c
        invariant
            i <= chars@.len(),
            first_index(chars@, c) == i + first_index(chars@.skip(i as int), c),
        decreases chars@.len() - i,
    {
        assert(chars@.skip(i as int).drop_first() =~= chars@.skip(i as int + 1));
        i += 1;
    }
    i
}

/// Whether `needle` occurs in `s` as a contiguous run.
pub open spec fn has_substring(s: Seq<char>, needle: Seq<char>) -> bool {
    exists|i: int|
        0 <= i <= s.len() - needle.len() && #[trigger] s.subrange(i, i + needle.len()) == needle
}

/// Whether `needle` stands in `chars` at `at`.
fn matches_at(chars: &[char], needle: &[char], at: usize) -> (r: bool)
    requires
        at + needle@.len() <= chars@.len(),
    ensures
        r == (chars@.subrange(at as int, at + needle@.len()) == needle@),
{
    let total = chars.len();
    let mut j: usize = 0;
    while j < needle.len()
        invariant
            j <= needle@.len(),
            total == chars@.len(),
            at + needle@.len() <= chars@.len(),
            forall|k: int| 0 <= k < j ==> chars@[at + k] == needle@[k],
        decreases needle@.len() - j,
    {
        if chars[at + j] != needle[j] {
            assert(chars@.subrange(at as int, at + needle@.len())[j as int] != needle@[j as int]);
            return false;
        }
        j += 1;
    }
    assert(chars@.subrange(at as int, at + needle@.len()) =~= needle@);
    true
}

/// Whether `needle` occurs in `s`.
pub fn contains_substring(s: &str, needle: &str) -> (r: bool)
    ensures
        r == has_substring(s@, needle@),
{
    let chars = chars_of(s);
    let wanted = chars_of(needle);
    if wanted.len() > chars.len() {
        return false;
    }
    let mut at: usize = 0;
    while at <= chars.len() - wanted.len()
        invariant
            chars@ == s@,
            wanted@ == needle@,
            wanted.len() <= chars.len(),
            at <= chars.len() - wanted.len(),
            forall|i: int|
                0 <= i < at ==> #[trigger] chars@.subrange(i, i + wanted@.len()) != wanted@,
        decreases chars.len() + 1 - at,
    {
        if matches_at(&chars, &wanted, at) {
            return true;
        }
        if at == chars.len() - wanted.len() {
            return false;
        }
        at += 1;
    }
    false
}

/// Whether `s` begins with `prefix`.
pub fn starts_with(s: &str, prefix: &str) -> (r: bool)
    ensures
        r == prefix@.is_prefix_of(s@),
{
    let chars = chars_of(s);
    let wanted = chars_of(prefix);
    if wanted.len() > chars.len() {
        return false;
    }
    let r = matches_at(&chars, &wanted, 0);
    assert(chars@.subrange(0, wanted@.len() as int) == wanted@ <==> prefix@.is_prefix_of(s@));
    r
}

/// Whether `s` ends with `suffix`.
pub fn ends_with(s: &str, suffix: &str) -> (r: bool)
    ensures
        r == suffix@.is_suffix_of(s@),
{
    let chars = chars_of(s);
    let wanted = chars_of(suffix);
    if wanted.len() > chars.len() {
        return false;
    }
    matches_at(&chars, &wanted, chars.len() - wanted.len())
}

/// `s` without the run of `c` at its end.
pub open spec fn without_trailing(s: Seq<char>, c: char) -> Seq<char>
    decreases s.len(),
{
    if s.len() > 0 && s.last() == c {
        without_trailing(s.drop_last(), c)
    } else {
        s
    }
}

/// `s` without the run of `c` at its end.
pub fn trim_end_char(s: &str, c: char) -> (r: String)
    ensures
        r@ == without_trailing(s@, c),
{
    let chars = chars_of(s);
    let mut to: usize = chars.len();
    assert(chars@.take(to as int) =~= chars@);
    while 0 < to && chars[to - 1] == c
        invariant
            to <= chars.len(),
            without_trailing(chars@, c) == without_trailing(chars@.take(to as int), c),
        decreases to,
    {
        assert(chars@.take(to as int).drop_last() =~= chars@.take(to as int - 1));
        to -= 1;
    }
    assert(chars@.take(to as int) =~= chars@.subrange(0, to as int));
    string_of_range(&chars, 0, to)
}

// ---------------------------------------------------------------------------
// Lines, lists, columns and numbers
// ---------------------------------------------------------------------------

/// The first line of `s`, without its line ending (`\n` or `\r\n`).
pub open spec fn first_line_of(s: Seq<char>) -> Seq<char> {
    let line = before(s, '\n');
    if line.len() < s.len() && line.len() > 0 && line.last() == '\r' {
        line.drop_last()
    } else {
        line
    }
}

/// The first line of `s`, without its line ending.
pub fn first_line(s: &str) -> (r: String)
    ensures
        r@ == first_line_of(s@),
{
    let chars = chars_of(s);
    let end = find_char(&chars, '\n');
    assert(before(s@, '\n') =~= chars@.subrange(0, end as int));
    if end < chars.len() && end > 0 && chars[end - 1] == '\r' {
        assert(before(s@, '\n').drop_last() =~= chars@.subrange(0, end - 1));
        string_of_range(&chars, 0, end - 1)
    } else {
        string_of_range(&chars, 0, end)
    }
}

/// At most the first `n` characters of `s`.
pub open spec fn at_most(s: Seq<char>, n: nat) -> Seq<char> {
    if s.len() > n {
        s.take(n as int)
    } else {
        s
    }
}

/// At most the first `n` characters of `s`: characters, never bytes.
pub fn take_chars(s: &str, n: usize) -> (r: String)
    ensures
        r@ == at_most(s@, n as nat),
{
    let chars = chars_of(s);
    let end: usize = if chars.len() > n {
        n
    } else {
        chars.len()
    };
    assert(chars@.subrange(0, end as int) =~= at_most(s@, n as nat));
    string_of_range(&chars, 0, end)
}

/// The strings of `list` with `sep` between neighbours.
pub open spec fn joined(list: Seq<Seq<char>>, sep: Seq<char>) -> Seq<char>
    decreases list.len(),
{
    if list.len() == 0 {
        Seq::empty()
    } else if list.len() == 1 {
        list[0]
    } else {
        joined(list.drop_last(), sep) + sep + list.last()
    }
}

/// The strings of `list` with `sep` between neighbours.
pub fn join_texts(list: &[String], sep: &str) -> (r: String)
    ensures
        r@ == joined(texts(list@), sep@),
{
    let mut out = String::new();
    let mut i: usize = 0;
    assert(texts(list@).take(0) =~= Seq::<Seq<char>>::empty());
    while i < list.len()
        invariant
            i <= list@.len(),
            out@ == joined(texts(list@).take(i as int), sep@),
        decreases list@.len() - i,
    {
        assert(texts(list@).take(i as int + 1).drop_last() =~= texts(list@).take(i as int));
        if i > 0 {
            out.append(sep);
        }
        out.append(list[i].as_str());
        i += 1;
        assert(out@ =~= joined(texts(list@).take(i as int), sep@));
    }
    assert(texts(list@).take(i as int) =~= texts(list@));
    out
}

/// `n` spaces.
pub open spec fn spaces(n: int) -> Seq<char> {
    Seq::new(
        (if n > 0 {
            n
        } else {
            0
        }) as nat,
        |i: int| ' ',
    )
}

fn push_spaces(out: &mut String, n: usize)
    ensures
        final(out)@ == old(out)@ + spaces(n as int),
{
    let mut i: usize = 0;
    assert(out@ + spaces(0) =~= out@);
    while i < n
        invariant
            i <= n,
            out@ == old(out)@ + spaces(i as int),
        decreases n - i,
    {
        out.push(' ');
        i += 1;
        assert(out@ =~= old(out)@ + spaces(i as int));
    }
}

/// `s` followed by spaces up to `width` characters.
pub fn pad_right(s: &str, width: usize) -> (r: String)
    ensures
        r@ == s@ + spaces(width - s@.len()),
{
    let len = chars_of(s).len();
    let mut out = s.to_owned();
    if len < width {
        push_spaces(&mut out, width - len);
    } else {
        assert(s@ + spaces(width - s@.len()) =~= s@);
    }
    out
}

/// Spaces up to `width` characters, then `s`.
pub fn pad_left(s: &str, width: usize) -> (r: String)
    ensures
        r@ == spaces(width - s@.len()) + s@,
{
    let len = chars_of(s).len();
    let mut out = String::new();
    if len < width {
        push_spaces(&mut out, width - len);
    }
    assert(out@ =~= spaces(width - s@.len()));
    out.append(s);
    out
}

/// The decimal digit with value `d`.
pub open spec fn digit_char(d: int) -> char {
    (48 + d) as char
}

/// The decimal digits of `n`, without leading zeros.
pub open spec fn decimal(n: nat) -> Seq<char>
    decreases n,
{
    if n < 10 {
        seq![digit_char(n as int)]
    } else {
        decimal(n / 10).push(digit_char((n % 10) as int))
    }
}

/// The decimal digits of `n`.
pub fn decimal_text(n: u64) -> (r: String)
    ensures
        r@ == decimal(n as nat),
    decreases n,
{
    let digit = digit_of(n % 10);
    if n < 10 {
        let mut out = String::new();
        out.push(digit);
        assert(out@ =~= decimal(n as nat));
        out
    } else {
        let mut out = decimal_text(n / 10);
        out.push(digit);
        out
    }
}

fn digit_of(d: u64) -> (r: char)
    requires
        d < 10,
    ensures
        r == digit_char(d as int),
{
    (48 + d as u8) as char
}

/// Every character is a decimal digit.
pub open spec fn all_digits(s: Seq<char>) -> bool {
    forall|i: int| 0 <= i < s.len() ==> '0' <= #[trigger] s[i] <= '9'
}

/// The number that decimal digits stand for.
pub open spec fn digits_value(s: Seq<char>) -> nat
    decreases s.len(),
{
    if s.len() == 0 {
        0
    } else {
        10 * digits_value(s.drop_last()) + (s.last() as nat - '0' as nat) as nat
    }
}

/// A number text without its leading plus sign.
pub open spec fn unsigned_part(s: Seq<char>) -> Seq<char> {
    if s.len() > 0 && s[0] == '+' {
        s.skip(1)
    } else {
        s
    }
}

/// The number that a text stands for: decimal digits, at least one, with or
/// without a plus sign before them, up to the largest `u64`.
pub open spec fn parsed_u64(s: Seq<char>) -> Option<u64> {
    let digits = unsigned_part(s);
    if digits.len() > 0 && all_digits(digits) && digits_value(digits) <= u64::MAX {
        Some(digits_value(digits) as u64)
    } else {
        None
    }
}

proof fn lemma_prefix_value(s: Seq<char>, n: int)
    requires
        0 <= n <= s.len(),
    ensures
        digits_value(s.take(n)) <= digits_value(s),
    decreases s.len() - n,
{
    if n < s.len() {
        lemma_prefix_value(s, n + 1);
        assert(s.take(n + 1).drop_last() =~= s.take(n));
    } else {
        assert(s.take(n) =~= s);
    }
}

/// Read a number.
pub fn parse_u64(s: &str) -> (r: Option<u64>)
    ensures
        r == parsed_u64(s@),
{
    let chars = chars_of(s);
    let from: usize = if chars.len() > 0 && chars[0] == '+' {
        1
    } else {
        0
    };
    let ghost digits = unsigned_part(s@);
    assert(digits =~= chars@.skip(from as int));
    if chars.len() == from {
        return None;
    }
    let mut value: u64 = 0;
    let mut i: usize = from;
    while i < chars.len()
        invariant
            from <= i <= chars@.len(),
            digits == chars@.skip(from as int),
            digits == unsigned_part(s@),
            value == digits_value(digits.take(i - from)),
            forall|j: int| 0 <= j < i - from ==> '0' <= #[trigger] digits[j] <= '9',
        decreases chars@.len() - i,
    {
        let c = chars[i];
        let ghost n = i - from;
        proof {
            assert(digits[n] == c);
            assert(digits.take(n + 1).drop_last() =~= digits.take(n));
            assert(digits.take(n + 1).last() == c);
        }
        if !('0' <= c && c <= '9') {
            return None;
        }
        let digit: u64 = (c as u32 - '0' as u32) as u64;
        proof {
            lemma_prefix_value(digits, n + 1);
        }
        if value > (u64::MAX - digit) / 10 {
            assert(10 * value + digit > u64::MAX);
            return None;
        }
        value = 10 * value + digit;
        i += 1;
    }
    assert(digits.take(i - from) =~= digits);
    Some(value)
}

// ---------------------------------------------------------------------------
// Order
// ---------------------------------------------------------------------------

/// Whether `a` stands before `b` in the order of code points, a proper prefix
/// before its extensions.
pub open spec fn text_before(a: Seq<char>, b: Seq<char>) -> bool
    decreases a.len(),
{
    if b.len() == 0 {
        false
    } else if a.len() == 0 {
        true
    } else if a[0] == b[0] {
        text_before(a.drop_first(), b.drop_first())
    } else {
        a[0] < b[0]
    }
}

/// Whether `a` stands before `b` in the order of code points.
pub fn is_before(a: &str, b: &str) -> (r: bool)
    ensures
        r == text_before(a@, b@),
{
    let left = chars_of(a);
    let right = chars_of(b);
    let mut i: usize = 0;
    assert(left@.skip(0) =~= left@);
    assert(right@.skip(0) =~= right@);
    while i < left.len() && i < right.len() && left[i] == right[i]
        invariant
            i <= left.len(),
            i <= right.len(),
            text_before(left@, right@) == text_before(left@.skip(i as int), right@.skip(i as int)),
        decreases left.len() - i,
    {
        assert(left@.skip(i as int).drop_first() =~= left@.skip(i as int + 1));
        assert(right@.skip(i as int).drop_first() =~= right@.skip(i as int + 1));
        i += 1;
    }
    if i == right.len() {
        false
    } else if i == left.len() {
        true
    } else {
        left[i] < right[i]
    }
}

/// Of two different texts, exactly one stands before the other.
pub proof fn lemma_text_before_total(a: Seq<char>, b: Seq<char>)
    ensures
        !text_before(a, a),
        a != b ==> (text_before(a, b) <==> !text_before(b, a)),
    decreases a.len(),
{
    if a.len() > 0 {
        lemma_text_before_total(a.drop_first(), a.drop_first());
        if b.len() > 0 && a[0] == b[0] {
            lemma_text_before_total(a.drop_first(), b.drop_first());
            if a.drop_first() == b.drop_first() {
                assert(a =~= seq![a[0]] + a.drop_first());
                assert(b =~= seq![b[0]] + b.drop_first());
            }
        }
    } else if b.len() == 0 {
        assert(a =~= b);
    }
}

/// The order of texts is transitive.
pub proof fn lemma_text_before_transitive(a: Seq<char>, b: Seq<char>, c: Seq<char>)
    requires
        text_before(a, b),
        text_before(b, c),
    ensures
        text_before(a, c),
    decreases a.len(),
{
    if a.len() > 0 && b.len() > 0 && c.len() > 0 && a[0] == b[0] && b[0] == c[0] {
        lemma_text_before_transitive(a.drop_first(), b.drop_first(), c.drop_first());
    }
}

/// Each text stands before the next ones.
pub open spec fn ascending(list: Seq<Seq<char>>) -> bool {
    forall|i: int, j: int|
        0 <= i < j < list.len() ==> text_before(#[trigger] list[i], #[trigger] list[j])
}

/// An ascending list holds nothing twice.
pub proof fn lemma_ascending_no_duplicates(list: Seq<Seq<char>>)
    requires
        ascending(list),
    ensures
        list.no_duplicates(),
{
    assert forall|i: int, j: int| 0 <= i < list.len() && 0 <= j < list.len() && i != j implies list[i]
        != list[j] by {
        lemma_text_before_total(list[i], list[j]);
        if i < j {
            assert(text_before(list[i], list[j]));
        } else {
            assert(text_before(list[j], list[i]));
        }
    }
}

/// Put a text in its place in an ascending list, unless it is there.
pub fn insert_ascending(list: &mut Vec<String>, s: String)
    requires
        ascending(texts(old(list)@)),
    ensures
        ascending(texts(final(list)@)),
        forall|t: Seq<char>| #[trigger]
            texts(final(list)@).contains(t) <==> texts(old(list)@).contains(t) || t == s@,
{
    let ghost before = texts(list@);
    let mut p: usize = 0;
    while p < list.len() && is_before(list[p].as_str(), s.as_str())
        invariant
            p <= list@.len(),
            texts(list@) == before,
            forall|j: int| 0 <= j < p ==> text_before(#[trigger] before[j], s@),
        decreases list@.len() - p,
    {
        p += 1;
    }
    if p < list.len() && same_text(list[p].as_str(), s.as_str()) {
        proof {
            assert(before[p as int] == s@);
        }
        return;
    }
    proof {
        if p < before.len() {
            assert(before[p as int] == list@[p as int]@);
            lemma_text_before_total(before[p as int], s@);
            assert forall|j: int| p <= j < before.len() implies text_before(
                s@,
                #[trigger] before[j],
            ) by {
                if j > p {
                    lemma_text_before_transitive(s@, before[p as int], before[j]);
                }
            }
        }
    }
    let ghost text = s@;
    list.insert(p, s);
    proof {
        let after = texts(list@);
        assert(after =~= before.insert(p as int, text));
        assert(after[p as int] == text);
        assert forall|t: Seq<char>| #[trigger] after.contains(t) <==> before.contains(t) || t
            == text by {
            if after.contains(t) {
                let i = choose|i: int| 0 <= i < after.len() && after[i] == t;
                if i < p {
                    assert(before[i] == t);
                } else if i > p {
                    assert(before[i - 1] == t);
                }
            }
            if before.contains(t) {
                let i = choose|i: int| 0 <= i < before.len() && before[i] == t;
                if i < p {
                    assert(after[i] == t);
                } else {
                    assert(after[i + 1] == t);
                }
            }
        }
    }
}

// ---------------------------------------------------------------------------
// What holds of texts
// ---------------------------------------------------------------------------

/// Every character of the text is white space.
pub open spec fn is_blank(s: Seq<char>) -> bool {
    forall|i: int| 0 <= i < s.len() ==> is_white_space(#[trigger] s[i])
}

/// The text is empty, or neither begins nor ends with white space.
pub open spec fn has_no_margin(s: Seq<char>) -> bool {
    s.len() == 0 || !is_white_space(s[0]) && !is_white_space(s[s.len() - 1])
}

/// White space are the blank, the tab and the line ends of ASCII, and the blanks
/// and separators of Unicode, by their code points; no printable character of
/// ASCII but the blank is.
pub proof fn law_white_space(c: char)
    ensures
        c == ' ' || c == '\t' || c == '\n' || c == '\r' ==> is_white_space(c),
        '!' <= c <= '~' ==> !is_white_space(c),
        is_white_space(c) <==> {
            let n = c as u32;
            ||| n == 9 || n == 10 || n == 11 || n == 12 || n == 13 || n == 32
            ||| n == 0x85 || n == 0xa0 || n == 0x1680
            ||| 0x2000 <= n <= 0x200a
            ||| n == 0x2028 || n == 0x2029 || n == 0x202f || n == 0x205f || n == 0x3000
        },
{
}

/// Trimming takes the white space off both ends of a text, and nothing else.
pub proof fn law_trimming_leaves_the_core(lead: Seq<char>, core: Seq<char>, trail: Seq<char>)
    requires
        is_blank(lead),
        is_blank(trail),
        has_no_margin(core),
    ensures
        trimmed(lead + core + trail) == core,
    decreases lead.len() + trail.len(),
{
    let s = lead + core + trail;
    if lead.len() > 0 {
        let rest = lead.drop_first();
        assert(s[0] == lead[0]);
        assert(s.drop_first() =~= rest + core + trail);
        assert forall|i: int| 0 <= i < rest.len() implies is_white_space(#[trigger] rest[i]) by {
            assert(rest[i] == lead[i + 1]);
        }
        law_trimming_leaves_the_core(rest, core, trail);
    } else if core.len() == 0 {
        assert(s =~= trail);
        if trail.len() > 0 {
            let rest = trail.drop_first();
            assert(s.drop_first() =~= lead + core + rest);
            assert forall|i: int| 0 <= i < rest.len() implies is_white_space(
                #[trigger] rest[i],
            ) by {
                assert(rest[i] == trail[i + 1]);
            }
            law_trimming_leaves_the_core(lead, core, rest);
        } else {
            assert(s =~= core);
        }
    } else {
        assert(s[0] == core[0]);
        assert(trim_start(s) == s);
        if trail.len() > 0 {
            let rest = trail.drop_last();
            assert(s.last() == trail.last());
            assert(s.drop_last() =~= lead + core + rest);
            assert forall|i: int| 0 <= i < rest.len() implies is_white_space(
                #[trigger] rest[i],
            ) by {
                assert(rest[i] == trail[i]);
            }
            assert((lead + core + rest)[0] == core[0]);
            assert(trim_start(lead + core + rest) == lead + core + rest);
            law_trimming_leaves_the_core(lead, core, rest);
        } else {
            assert(s =~= core);
        }
    }
}

/// Every text is white space, its trimmed form, and white space.
pub proof fn law_trimming_splits(s: Seq<char>) -> (r: (Seq<char>, Seq<char>))
    ensures
        is_blank(r.0),
        is_blank(r.1),
        has_no_margin(trimmed(s)),
        s == r.0 + trimmed(s) + r.1,
    decreases s.len(),
{
    if s.len() > 0 && is_white_space(s[0]) {
        let (lead, trail) = law_trimming_splits(s.drop_first());
        let all = seq![s[0]] + lead;
        assert(all + trimmed(s) + trail =~= seq![s[0]] + (lead + trimmed(s.drop_first()) + trail));
        assert(s =~= seq![s[0]] + s.drop_first());
        (all, trail)
    } else if s.len() > 0 && is_white_space(s.last()) {
        let front = s.drop_last();
        assert(trim_start(s) == s);
        assert(front.len() > 0 ==> front[0] == s[0]);
        assert(trim_start(front) == front);
        let (lead, trail) = law_trimming_splits(front);
        let all = trail + seq![s.last()];
        assert(lead + trimmed(s) + all =~= (lead + trimmed(front) + trail) + seq![s.last()]);
        assert(s =~= front + seq![s.last()]);
        (lead, all)
    } else {
        assert(trim_start(s) == s);
        let none = Seq::<char>::empty();
        assert(s =~= none + s + none);
        (none, none)
    }
}

/// Nothing is left of a text once it is trimmed exactly where it is blank.
pub proof fn law_blank_texts(s: Seq<char>)
    ensures
        trimmed(s).len() == 0 <==> is_blank(s),
{
    let none = Seq::<char>::empty();
    if is_blank(s) {
        assert(s + none + none =~= s);
        law_trimming_leaves_the_core(s, none, none);
    }
    if trimmed(s).len() == 0 {
        let (lead, trail) = law_trimming_splits(s);
        assert forall|i: int| 0 <= i < s.len() implies is_white_space(#[trigger] s[i]) by {
            if i < lead.len() {
                assert(s[i] == lead[i]);
            } else {
                assert(s[i] == trail[i - lead.len()]);
            }
        }
    }
}

/// A text holds whatever stands between its front and its back.
pub proof fn law_substring_anywhere(front: Seq<char>, needle: Seq<char>, back: Seq<char>)
    ensures
        has_substring(front + needle + back, needle),
{
    let s = front + needle + back;
    let i = front.len() as int;
    assert(s.subrange(i, i + needle.len()) =~= needle);
}

/// A text that holds another is a front, the other and a back.
pub proof fn law_substring_splits(s: Seq<char>, needle: Seq<char>) -> (r: (Seq<char>, Seq<char>))
    requires
        has_substring(s, needle),
    ensures
        s == r.0 + needle + r.1,
{
    let i = choose|i: int|
        0 <= i <= s.len() - needle.len() && #[trigger] s.subrange(i, i + needle.len()) == needle;
    let front = s.take(i);
    let back = s.skip(i + needle.len());
    assert(s =~= front + s.subrange(i, i + needle.len()) + back);
    (front, back)
}

/// Trimming keeps every word of a text: what it holds that has no white space in
/// it.
pub proof fn law_trimming_keeps_words(front: Seq<char>, word: Seq<char>, back: Seq<char>)
    requires
        word.len() > 0,
        forall|i: int| 0 <= i < word.len() ==> !is_white_space(#[trigger] word[i]),
    ensures
        has_substring(trimmed(front + word + back), word),
{
    let s = front + word + back;
    let (lead, trail) = law_trimming_splits(s);
    let core = trimmed(s);
    let i = front.len() as int;
    let n = word.len() as int;
    assert(s[i] == word[0] && s[i + n - 1] == word[n - 1]);
    if i < lead.len() {
        assert(s[i] == lead[i]);
    }
    if i + n > lead.len() + core.len() {
        assert(s[i + n - 1] == trail[i + n - 1 - lead.len() - core.len()]);
    }
    let at = i - lead.len();
    assert forall|j: int| 0 <= j < n implies core[at + j] == word[j] by {
        assert(s[i + j] == word[j]);
        assert(s[i + j] == core[at + j]);
    }
    assert(core.subrange(at, at + n) =~= word);
}

/// What stands before the first of a character is the longest front without it.
pub proof fn law_before_the_first(front: Seq<char>, c: char, back: Seq<char>)
    requires
        !front.contains(c),
    ensures
        before(front, c) == front,
        before(front + seq![c] + back, c) == front,
{
    let s = front + seq![c] + back;
    lemma_first_index(front, c);
    lemma_first_index(s, c);
    assert(s[front.len() as int] == c);
    assert(s.contains(c));
    let n = first_index(s, c) as int;
    if n < front.len() {
        assert(s[n] == front[n]);
        assert(front.contains(c));
    }
    assert(before(front, c) =~= front);
    assert(before(s, c) =~= front);
}

/// The first line of a text is what stands before its first line end, which is
/// `\n` or `\r\n`; a text without one is a line.
pub proof fn law_first_line(line: Seq<char>, rest: Seq<char>)
    requires
        !line.contains('\n'),
    ensures
        first_line_of(line) == line,
        line.len() == 0 || line[line.len() - 1] != '\r' ==> first_line_of(
            line + seq!['\n'] + rest,
        ) == line,
        first_line_of(line + seq!['\r', '\n'] + rest) == line,
{
    law_before_the_first(line, '\n', rest);
    let ended = line + seq!['\r'];
    assert(!ended.contains('\n')) by {
        if ended.contains('\n') {
            let i = choose|i: int| 0 <= i < ended.len() && ended[i] == '\n';
            assert(i < line.len());
            assert(line[i] == '\n');
        }
    }
    law_before_the_first(ended, '\n', rest);
    assert(line + seq!['\r', '\n'] + rest =~= ended + seq!['\n'] + rest);
    assert(ended.drop_last() =~= line);
}

/// A text cut to a length is its front, as long as it can be.
pub proof fn law_cut(s: Seq<char>, n: nat)
    ensures
        at_most(s, n).is_prefix_of(s),
        at_most(s, n).len() == if s.len() < n {
            s.len()
        } else {
            n
        },
{
}

/// Joined texts stand in order, with the separator once between neighbours; one
/// text is itself, and none is nothing.
pub proof fn law_joined(a: Seq<Seq<char>>, b: Seq<Seq<char>>, one: Seq<char>, sep: Seq<char>)
    requires
        a.len() > 0,
        b.len() > 0,
    ensures
        joined(Seq::empty(), sep).len() == 0,
        joined(seq![one], sep) == one,
        joined(a + b, sep) == joined(a, sep) + sep + joined(b, sep),
    decreases b.len(),
{
    let all = a + b;
    assert(all.last() == b.last());
    if b.len() == 1 {
        assert(all.drop_last() =~= a);
    } else {
        assert(all.drop_last() =~= a + b.drop_last());
        law_joined(a, b.drop_last(), one, sep);
        assert(joined(all, sep) =~= joined(a, sep) + sep + joined(b, sep));
    }
}

/// The trailing run of a character is taken off, and nothing else.
pub proof fn law_trailing_run(front: Seq<char>, c: char, run: Seq<char>)
    requires
        front.len() == 0 || front[front.len() - 1] != c,
        forall|i: int| 0 <= i < run.len() ==> #[trigger] run[i] == c,
    ensures
        without_trailing(front + run, c) == front,
    decreases run.len(),
{
    if run.len() > 0 {
        assert((front + run).last() == run.last());
        assert((front + run).drop_last() =~= front + run.drop_last());
        assert forall|i: int| 0 <= i < run.drop_last().len() implies #[trigger] run.drop_last()[i]
            == c by {
            assert(run[i] == c);
        }
        law_trailing_run(front, c, run.drop_last());
    } else {
        assert(front + run =~= front);
    }
}

/// A number that is written out is read back, has digits only and no needless
/// zero before it; one below ten is its digit.
pub proof fn law_numbers_are_read_back(n: u64)
    ensures
        parsed_u64(decimal(n as nat)) == Some(n),
        all_digits(decimal(n as nat)),
        n > 0 ==> decimal(n as nat)[0] != '0',
        n < 10 ==> decimal(n as nat) == seq![(48 + n) as char],
{
    lemma_decimal(n as nat);
}

proof fn lemma_decimal(n: nat)
    ensures
        decimal(n).len() > 0,
        all_digits(decimal(n)),
        digits_value(decimal(n)) == n,
        n > 0 ==> decimal(n)[0] != '0',
    decreases n,
{
    let s = decimal(n);
    if n < 10 {
        assert(s.drop_last() =~= Seq::empty());
        assert(digits_value(s.drop_last()) == 0);
    } else {
        lemma_decimal(n / 10);
        let front = decimal(n / 10);
        assert(s.drop_last() =~= front);
        assert forall|i: int| 0 <= i < s.len() implies '0' <= #[trigger] s[i] <= '9' by {
            if i < front.len() {
                assert(s[i] == front[i]);
            }
        }
    }
}

/// The digits of a number are read from the left, each place ten times the
/// next, with or without a plus sign before them; a text with anything else in
/// it, or with no digit, is no number.
pub proof fn law_number_texts(s: Seq<char>, d: char)
    ensures
        '0' <= d <= '9' ==> parsed_u64(seq![d]) == Some((d as int - 48) as u64),
        '0' <= d <= '9' && parsed_u64(s) is Some && 10 * parsed_u64(s)->0 + (d as int - 48)
            <= u64::MAX ==> parsed_u64(s + seq![d]) == Some(
            (10 * parsed_u64(s)->0 + (d as int - 48)) as u64,
        ),
        '0' <= d <= '9' && parsed_u64(s) is Some && 10 * parsed_u64(s)->0 + (d as int - 48)
            > u64::MAX ==> parsed_u64(s + seq![d]) is None,
        s.len() > 0 && s != seq!['+'] && parsed_u64(s) is None ==> parsed_u64(s + seq![d]) is None,
        !('0' <= d <= '9') ==> parsed_u64(s + seq![d]) is None,
        s.len() > 0 && s[0] != '+' ==> parsed_u64(seq!['+'] + s) == parsed_u64(s),
        parsed_u64(Seq::empty()) is None,
{
    let one = seq![d];
    assert(one.drop_last() =~= Seq::empty());
    assert(digits_value(Seq::<char>::empty()) == 0);
    assert(one.last() == d && one[0] == d);
    if '0' <= d <= '9' {
        assert(unsigned_part(one) == one);
        assert(digits_value(one) == d as int - 48);
    }
    let t = s + seq![d];
    assert(t.last() == d);
    if s.len() > 0 && s[0] == '+' {
        assert(t[0] == '+');
        assert(unsigned_part(t) =~= unsigned_part(s) + seq![d]);
    } else if s.len() > 0 {
        assert(t[0] == s[0]);
        assert(unsigned_part(t) =~= s + seq![d]);
    }
    if s.len() > 0 {
        let digits = unsigned_part(s);
        let more = digits + seq![d];
        assert(unsigned_part(t) == more);
        assert(more.drop_last() =~= digits);
        assert(more[digits.len() as int] == d);
        if all_digits(digits) && '0' <= d <= '9' {
            assert forall|i: int| 0 <= i < more.len() implies '0' <= #[trigger] more[i] <= '9' by {
                if i < digits.len() {
                    assert(more[i] == digits[i]);
                }
            }
        }
        if all_digits(more) {
            assert forall|i: int| 0 <= i < digits.len() implies '0' <= #[trigger] digits[i]
                <= '9' by {
                assert(more[i] == digits[i]);
            }
        }
        if s[0] == '+' && digits.len() == 0 {
            assert(s =~= seq!['+']);
        }
    } else {
        assert(t =~= seq![d]);
        if d == '+' {
            assert(unsigned_part(t).len() == 0);
        } else {
            assert(unsigned_part(t) == t && t[0] == d);
        }
    }
    if s.len() > 0 && s[0] != '+' {
        assert((seq!['+'] + s).skip(1) =~= s);
    }
}

/// Texts are ordered by their first difference: what follows it and what stands
/// before it does not matter, and a front stands before what it begins.
pub proof fn law_text_order(
    front: Seq<char>,
    x: char,
    y: char,
    a: Seq<char>,
    b: Seq<char>,
)
    ensures
        x < y ==> text_before(front + seq![x] + a, front + seq![y] + b),
        !text_before(front, front),
        text_before(front, front + seq![x] + a),
        !text_before(front + seq![x] + a, front),
    decreases front.len(),
{
    let s = front + seq![x] + a;
    let t = front + seq![y] + b;
    if front.len() > 0 {
        let rest = front.drop_first();
        law_text_order(rest, x, y, a, b);
        assert(s.drop_first() =~= rest + seq![x] + a);
        assert(t.drop_first() =~= rest + seq![y] + b);
    }
}

// ---------------------------------------------------------------------------
// The standard library's part
// ---------------------------------------------------------------------------

/// What `str::to_lowercase` returns.
pub uninterp spec fn unicode_lowercase(s: Seq<char>) -> Seq<char>;

/// The lowercase form of an ASCII character.
pub open spec fn ascii_lower(c: char) -> char {
    if 'A' <= c <= 'Z' {
        (c as u32 + 32) as char
    } else {
        c
    }
}

/// `str::to_lowercase`: the Unicode lowercase equivalent, a function of the
/// text alone. On ASCII text only the letters `A` to `Z` change, each to its
/// lowercase letter.
#[verifier::external_body]
pub(crate) fn lowercase(s: &str) -> (r: String)
    ensures
        r@ == unicode_lowercase(s@),
        is_ascii_chars(s@) ==> r@ == s@.map_values(|c: char| ascii_lower(c)),
{
    s.to_lowercase()
}

/// `std::str::from_utf8`: the text that the bytes encode, where they are valid
/// UTF-8.
#[verifier::external_body]
pub(crate) fn utf8_text(bytes: &[u8]) -> (r: Option<String>)
    ensures
        r is Some <==> valid_utf8(bytes@),
        r matches Some(s) ==> s@ == decode_utf8(bytes@),
{
    std::str::from_utf8(bytes).ok().map(|s| s.to_owned())
}

/// What `String::from_utf8_lossy` returns.
pub uninterp spec fn lossy_text(bytes: Seq<u8>) -> Seq<char>;

/// `String::from_utf8_lossy`: the text that the bytes encode, each malformed
/// sequence replaced; valid UTF-8 is decoded as it is.
#[verifier::external_body]
pub(crate) fn utf8_lossy(bytes: &[u8]) -> (r: String)
    ensures
        r@ == lossy_text(bytes@),
        valid_utf8(bytes@) ==> r@ == decode_utf8(bytes@),
{
    String::from_utf8_lossy(bytes).into_owned()
}

/// What the `Debug` form of a string is.
pub uninterp spec fn quoted_text(s: Seq<char>) -> Seq<char>;

/// The `Debug` form of a string: in double quotes, with escapes where the
/// standard library puts them.
#[verifier::external_body]
pub(crate) fn quoted(s: &str) -> (r: String)
    ensures
        r@ == quoted_text(s@),
{
    format!("{:?}", s)
}

} // verus!

//! Text primitives: trimming, splitting, searching and unsigned numbers.
//!
//! Every function works on characters; the contracts speak of the sequence of
//! characters that a string holds.
use vstd::prelude::*;
use vstd::utf8::*;

verus! {

/// The contents of a list of string slices.
pub open spec fn views(parts: Seq<&str>) -> Seq<Seq<char>> {
    parts.map_values(|p: &str| p@)
}

/// The contents of a list of strings.
pub open spec fn string_views(parts: Seq<String>) -> Seq<Seq<char>> {
    parts.map_values(|p: String| p@)
}

/// The contents of an optional string slice.
pub open spec fn optional_view(s: Option<&str>) -> Option<Seq<char>> {
    match s {
        Some(t) => Some(t@),
        None => None,
    }
}

/// The characters of `s`, in order.
pub fn chars_of(s: &str) -> (r: Vec<char>)
    ensures
        r@ == s@,
{
    let mut chars: Vec<char> = Vec::new();
    for c in it: s.chars()
        invariant
            chars@ == s@.take(it.index() as int),
            it.seq() == s@,
    {
        chars.push(c);
    }
    chars
}

/// Whether two strings hold the same characters.
pub fn same(a: &str, b: &str) -> (r: bool)
    ensures
        r == (a@ == b@),
{
    let x = chars_of(a);
    let y = chars_of(b);
    if x.len() != y.len() {
        return false;
    }
    let mut i: usize = 0;
    while i < x.len()
        invariant
            i <= x.len(),
            x@ == a@,
            y@ == b@,
            x.len() == y.len(),
            forall|k: int| 0 <= k < i ==> a@[k] == b@[k],
        decreases x.len() - i,
    {
        if x[i] != y[i] {
            return false;
        }
        i += 1;
    }
    assert(a@ =~= b@);
    true
}

// ---------------------------------------------------------------------------
// White space
// ---------------------------------------------------------------------------

/// The characters with the Unicode property White_Space.
pub open spec fn is_white(c: char) -> bool {
    let n = c as u32;
    ||| 0x09 <= n <= 0x0d
    ||| n == 0x20
    ||| n == 0x85
    ||| n == 0xa0
    ||| n == 0x1680
    ||| 0x2000 <= n <= 0x200a
    ||| n == 0x2028
    ||| n == 0x2029
    ||| n == 0x202f
    ||| n == 0x205f
    ||| n == 0x3000
}

fn white(c: char) -> (r: bool)
    ensures
        r == is_white(c),
{
    let n: u32 = c as u32;
    (0x09 <= n && n <= 0x0d) || n == 0x20 || n == 0x85 || n == 0xa0 || n == 0x1680 || (0x2000 <= n
        && n <= 0x200a) || n == 0x2028 || n == 0x2029 || n == 0x202f || n == 0x205f || n == 0x3000
}

/// The first position at or after `i` that does not hold white space.
pub open spec fn skip_white(s: Seq<char>, i: int) -> int
    decreases s.len() - i,
{
    if 0 <= i < s.len() && is_white(s[i]) {
        skip_white(s, i + 1)
    } else {
        i
    }
}

/// The first position at or after `i` that holds white space, or the end.
pub open spec fn skip_word(s: Seq<char>, i: int) -> int
    decreases s.len() - i,
{
    if 0 <= i < s.len() && !is_white(s[i]) {
        skip_word(s, i + 1)
    } else {
        i
    }
}

/// The end of `s[..j]` once the white space at its back is left out.
pub open spec fn skip_white_back(s: Seq<char>, j: int) -> int
    decreases j,
{
    if 0 < j <= s.len() && is_white(s[j - 1]) {
        skip_white_back(s, j - 1)
    } else {
        j
    }
}

pub proof fn lemma_skip_white(s: Seq<char>, i: int)
    requires
        0 <= i <= s.len(),
    ensures
        i <= skip_white(s, i) <= s.len(),
        forall|k: int| i <= k < skip_white(s, i) ==> is_white(#[trigger] s[k]),
        skip_white(s, i) < s.len() ==> !is_white(s[skip_white(s, i)]),
    decreases s.len() - i,
{
    if i < s.len() && is_white(s[i]) {
        lemma_skip_white(s, i + 1);
    }
}

pub proof fn lemma_skip_word(s: Seq<char>, i: int)
    requires
        0 <= i <= s.len(),
    ensures
        i <= skip_word(s, i) <= s.len(),
        forall|k: int| i <= k < skip_word(s, i) ==> !is_white(#[trigger] s[k]),
        skip_word(s, i) < s.len() ==> is_white(s[skip_word(s, i)]),
    decreases s.len() - i,
{
    if i < s.len() && !is_white(s[i]) {
        lemma_skip_word(s, i + 1);
    }
}

pub proof fn lemma_skip_white_back(s: Seq<char>, j: int)
    requires
        0 <= j <= s.len(),
    ensures
        0 <= skip_white_back(s, j) <= j,
        forall|k: int| skip_white_back(s, j) <= k < j ==> is_white(#[trigger] s[k]),
        skip_white_back(s, j) > 0 ==> !is_white(s[skip_white_back(s, j) - 1]),
    decreases j,
{
    if j > 0 && is_white(s[j - 1]) {
        lemma_skip_white_back(s, j - 1);
    }
}

/// `s` without the white space at its front.
pub open spec fn trimmed_start(s: Seq<char>) -> Seq<char> {
    s.skip(skip_white(s, 0))
}

/// `s` without the white space at its back.
pub open spec fn trimmed_end(s: Seq<char>) -> Seq<char> {
    s.take(skip_white_back(s, s.len() as int))
}

/// `s` without the white space at either end.
pub open spec fn trimmed(s: Seq<char>) -> Seq<char> {
    trimmed_end(trimmed_start(s))
}

/// `s` without leading white space.
pub fn trim_start(s: &str) -> (r: &str)
    ensures
        r@ == trimmed_start(s@),
{
    let chars = chars_of(s);
    let mut i: usize = 0;
    while i < chars.len() && white(chars[i])
        invariant
            i <= chars.len(),
            chars@ == s@,
            skip_white(s@, i as int) == skip_white(s@, 0),
        decreases chars.len() - i,
    {
        i += 1;
    }
    s.substring_char(i, chars.len())
}

/// `s` without leading and trailing white space.
pub fn trim(s: &str) -> (r: &str)
    ensures
        r@ == trimmed(s@),
{
    let t = trim_start(s);
    let chars = chars_of(t);
    let mut j: usize = chars.len();
    while j > 0 && white(chars[j - 1])
        invariant
            j <= chars.len(),
            chars@ == t@,
            skip_white_back(t@, j as int) == skip_white_back(t@, t@.len() as int),
        decreases j,
    {
        j -= 1;
    }
    t.substring_char(0, j)
}

/// The words of `s` from position `i` on: the maximal runs of characters that are
/// not white space.
pub open spec fn words_from(s: Seq<char>, i: int) -> Seq<Seq<char>>
    decreases s.len() - i,
    via words_from_decreases
{
    let a = skip_white(s, i);
    if 0 <= i && a < s.len() {
        let b = skip_word(s, a);
        seq![s.subrange(a, b)] + words_from(s, b)
    } else {
        seq![]
    }
}

#[via_fn]
proof fn words_from_decreases(s: Seq<char>, i: int) {
    if 0 <= i && skip_white(s, i) < s.len() {
        if i < s.len() {
            lemma_skip_white(s, i);
        }
        lemma_skip_word(s, skip_white(s, i));
        assert(skip_word(s, skip_white(s, i)) > skip_white(s, i));
    }
}

/// The words of `s`.
pub open spec fn words(s: Seq<char>) -> Seq<Seq<char>> {
    words_from(s, 0)
}

/// Splits `s` at white space.
pub fn split_whitespace(s: &str) -> (r: Vec<&str>)
    ensures
        views(r@) == words(s@),
{
    let chars = chars_of(s);
    let n: usize = chars.len();
    let mut parts: Vec<&str> = Vec::new();
    let mut i: usize = 0;
    assert(views(parts@) =~= seq![]);
    loop
        invariant
            i <= n,
            n == chars.len(),
            chars@ == s@,
            views(parts@) + words_from(s@, i as int) == words(s@),
        decreases n - i,
    {
        let ghost start = i as int;
        while i < n && white(chars[i])
            invariant
                start <= i <= n,
                n == chars.len(),
                chars@ == s@,
                skip_white(s@, i as int) == skip_white(s@, start),
            decreases n - i,
        {
            i += 1;
        }
        if i == n {
            assert(words_from(s@, start) =~= seq![]);
            assert(views(parts@) =~= words(s@));
            return parts;
        }
        let from: usize = i;
        while i < n && !white(chars[i])
            invariant
                from <= i <= n,
                n == chars.len(),
                chars@ == s@,
                skip_word(s@, i as int) == skip_word(s@, from as int),
            decreases n - i,
        {
            i += 1;
        }
        proof {
            lemma_skip_word(s@, from as int);
            assert(i > from);
        }
        let word = s.substring_char(from, i);
        let ghost before = views(parts@);
        parts.push(word);
        assert(views(parts@) =~= before + seq![word@]);
        assert(words_from(s@, start) == seq![word@] + words_from(s@, i as int));
        assert(before + (seq![word@] + words_from(s@, i as int)) =~= (before + seq![word@])
            + words_from(s@, i as int));
    }
}

// ---------------------------------------------------------------------------
// Searching and splitting
// ---------------------------------------------------------------------------

/// The first position at or after `i` that holds `c`.
pub open spec fn position_from(s: Seq<char>, c: char, i: int) -> Option<int>
    decreases s.len() - i,
{
    if i < 0 || i >= s.len() {
        None
    } else if s[i] == c {
        Some(i)
    } else {
        position_from(s, c, i + 1)
    }
}

pub proof fn lemma_position_from(s: Seq<char>, c: char, i: int)
    requires
        0 <= i,
    ensures
        position_from(s, c, i) matches Some(p) ==> i <= p < s.len() && s[p] == c && (forall|k: int|
            i <= k < p ==> #[trigger] s[k] != c),
        position_from(s, c, i) is None ==> forall|k: int| i <= k < s.len() ==> #[trigger] s[k] != c,
    decreases s.len() - i,
{
    if i < s.len() && s[i] != c {
        lemma_position_from(s, c, i + 1);
    }
}

/// The first position of `s` that holds `c`.
pub open spec fn position(s: Seq<char>, c: char) -> Option<int> {
    position_from(s, c, 0)
}

/// Finds the first occurrence of a character.
pub fn find_char(s: &str, c: char) -> (r: Option<usize>)
    ensures
        r matches Some(p) ==> position(s@, c) == Some(p as int) && p < s@.len(),
        r is None ==> position(s@, c) is None,
{
    let chars = chars_of(s);
    let mut i: usize = 0;
    while i < chars.len()
        invariant
            i <= chars.len(),
            chars@ == s@,
            position_from(s@, c, i as int) == position(s@, c),
        decreases chars.len() - i,
    {
        if chars[i] == c {
            return Some(i);
        }
        i += 1;
    }
    None
}

/// Whether `p` stands in `s` at position `i`.
pub open spec fn occurs_at(s: Seq<char>, p: Seq<char>, i: int) -> bool {
    0 <= i && i + p.len() <= s.len() && s.subrange(i, i + p.len()) == p
}

/// The first position at or after `i` at which `p` stands in `s`.
pub open spec fn occurrence_from(s: Seq<char>, p: Seq<char>, i: int) -> Option<int>
    decreases s.len() + 1 - i,
{
    if i < 0 || i + p.len() > s.len() {
        None
    } else if occurs_at(s, p, i) {
        Some(i)
    } else {
        occurrence_from(s, p, i + 1)
    }
}

pub proof fn lemma_occurrence_from(s: Seq<char>, p: Seq<char>, i: int)
    requires
        0 <= i,
    ensures
        occurrence_from(s, p, i) matches Some(k) ==> i <= k && occurs_at(s, p, k) && (forall|j: int|
            i <= j < k ==> !#[trigger] occurs_at(s, p, j)),
        occurrence_from(s, p, i) is None ==> forall|j: int| i <= j ==> !#[trigger] occurs_at(s, p, j),
    decreases s.len() + 1 - i,
{
    if i + p.len() <= s.len() && !occurs_at(s, p, i) {
        lemma_occurrence_from(s, p, i + 1);
    }
}

fn stands_at(s: &Vec<char>, p: &Vec<char>, i: usize) -> (r: bool)
    requires
        i + p@.len() <= s@.len(),
    ensures
        r == occurs_at(s@, p@, i as int),
{
    let mut k: usize = 0;
    while k < p.len()
        invariant
            k <= p.len(),
            i + p.len() <= s.len(),
            forall|j: int| 0 <= j < k ==> s@[i + j] == p@[j],
        decreases p.len() - k,
    {
        if s[i + k] != p[k] {
            assert(s@.subrange(i as int, i + p@.len())[k as int] != p@[k as int]);
            return false;
        }
        k += 1;
    }
    assert(s@.subrange(i as int, i + p@.len()) =~= p@);
    true
}

/// Finds the first place at or after `from` where a text stands.
pub fn find_text_from(s: &str, p: &str, from: usize) -> (r: Option<usize>)
    ensures
        r matches Some(i) ==> occurrence_from(s@, p@, from as int) == Some(i as int) && i + p@.len()
            <= s@.len(),
        r is None ==> occurrence_from(s@, p@, from as int) is None,
{
    let chars = chars_of(s);
    let pattern = chars_of(p);
    let n: usize = chars.len();
    let m: usize = pattern.len();
    let mut i: usize = from;
    while m <= n && i <= n - m
        invariant
            n == chars.len(),
            m == pattern.len(),
            chars@ == s@,
            pattern@ == p@,
            occurrence_from(s@, p@, i as int) == occurrence_from(s@, p@, from as int),
        decreases n + 1 - i,
    {
        if stands_at(&chars, &pattern, i) {
            return Some(i);
        }
        if i == n - m {
            assert(occurrence_from(s@, p@, i + 1) is None);
            return None;
        }
        i += 1;
    }
    None
}

/// Whether `s` begins with `p`.
pub open spec fn begins_with(s: Seq<char>, p: Seq<char>) -> bool {
    occurs_at(s, p, 0)
}

/// Whether `s` ends with `p`.
pub open spec fn finishes_with(s: Seq<char>, p: Seq<char>) -> bool {
    occurs_at(s, p, s.len() - p.len())
}

/// Whether `s` begins with the text `p`.
pub fn starts_with(s: &str, p: &str) -> (r: bool)
    ensures
        r == begins_with(s@, p@),
{
    let chars = chars_of(s);
    let pattern = chars_of(p);
    pattern.len() <= chars.len() && stands_at(&chars, &pattern, 0)
}

/// Whether `s` ends with the text `p`.
pub fn ends_with(s: &str, p: &str) -> (r: bool)
    ensures
        r == finishes_with(s@, p@),
{
    let chars = chars_of(s);
    let pattern = chars_of(p);
    pattern.len() <= chars.len() && stands_at(&chars, &pattern, chars.len() - pattern.len())
}

/// Whether the first character of `s` is `c`.
pub open spec fn begins_with_char(s: Seq<char>, c: char) -> bool {
    s.len() > 0 && s[0] == c
}

/// Whether `s` begins with the character `c`.
pub fn starts_with_char(s: &str, c: char) -> (r: bool)
    ensures
        r == begins_with_char(s@, c),
{
    s.unicode_len() > 0 && s.get_char(0) == c
}

/// The part of `s` from position `i` on.
pub fn tail(s: &str, i: usize) -> (r: &str)
    requires
        i <= s@.len(),
    ensures
        r@ == s@.skip(i as int),
{
    s.substring_char(i, s.unicode_len())
}

/// The part of `s` before the first `c`, or all of `s` where there is none.
pub open spec fn before_first(s: Seq<char>, c: char) -> Seq<char> {
    match position(s, c) {
        Some(p) => s.take(p),
        None => s,
    }
}

/// The part of `s` behind the first `c`.
pub open spec fn after_first(s: Seq<char>, c: char) -> Option<Seq<char>> {
    match position(s, c) {
        Some(p) => Some(s.skip(p + 1)),
        None => None,
    }
}

/// Splits `s` at the first `c`.
pub fn split_first(s: &str, c: char) -> (r: (&str, Option<&str>))
    ensures
        r.0@ == before_first(s@, c),
        optional_view(r.1) == after_first(s@, c),
{
    let n: usize = s.unicode_len();
    match find_char(s, c) {
        Some(p) => (s.substring_char(0, p), Some(s.substring_char(p + 1, n))),
        None => (s, None),
    }
}

/// The first position at or after `i` that does not hold `c`.
pub open spec fn skip_char(s: Seq<char>, c: char, i: int) -> int
    decreases s.len() - i,
{
    if 0 <= i < s.len() && s[i] == c {
        skip_char(s, c, i + 1)
    } else {
        i
    }
}

pub proof fn lemma_skip_char(s: Seq<char>, c: char, i: int)
    requires
        0 <= i <= s.len(),
    ensures
        i <= skip_char(s, c, i) <= s.len(),
        forall|k: int| i <= k < skip_char(s, c, i) ==> #[trigger] s[k] == c,
        skip_char(s, c, i) < s.len() ==> s[skip_char(s, c, i)] != c,
    decreases s.len() - i,
{
    if i < s.len() && s[i] == c {
        lemma_skip_char(s, c, i + 1);
    }
}

/// `s` without the characters `c` at its front.
pub open spec fn without_leading(s: Seq<char>, c: char) -> Seq<char> {
    s.skip(skip_char(s, c, 0))
}

/// Drops every leading `c`.
pub fn trim_start_char(s: &str, c: char) -> (r: &str)
    ensures
        r@ == without_leading(s@, c),
{
    let chars = chars_of(s);
    let mut i: usize = 0;
    while i < chars.len() && chars[i] == c
        invariant
            i <= chars.len(),
            chars@ == s@,
            skip_char(s@, c, i as int) == skip_char(s@, c, 0),
        decreases chars.len() - i,
    {
        i += 1;
    }
    s.substring_char(i, chars.len())
}

/// `s` without one carriage return at its back.
pub open spec fn without_return(s: Seq<char>) -> Seq<char> {
    if s.len() > 0 && s.last() == '\r' {
        s.drop_last()
    } else {
        s
    }
}

/// The lines of `s` from position `i` on. A line ends at a line feed, or at a
/// carriage return and a line feed; the end of the last line is optional.
pub open spec fn lines_from(s: Seq<char>, i: int) -> Seq<Seq<char>>
    decreases s.len() - i,
    via lines_from_decreases
{
    if i < 0 || i >= s.len() {
        seq![]
    } else {
        match position_from(s, '\n', i) {
            Some(p) => seq![without_return(s.subrange(i, p))] + lines_from(s, p + 1),
            None => seq![s.skip(i)],
        }
    }
}

#[via_fn]
proof fn lines_from_decreases(s: Seq<char>, i: int) {
    if 0 <= i {
        lemma_position_from(s, '\n', i);
    }
}

/// The lines of `s`.
pub open spec fn line_list(s: Seq<char>) -> Seq<Seq<char>> {
    lines_from(s, 0)
}

/// Splits `s` into lines.
pub fn lines(s: &str) -> (r: Vec<&str>)
    ensures
        views(r@) == line_list(s@),
{
    let chars = chars_of(s);
    let n: usize = chars.len();
    let mut parts: Vec<&str> = Vec::new();
    let mut i: usize = 0;
    assert(views(parts@) =~= seq![]);
    while i < n
        invariant
            i <= n,
            n == chars.len(),
            chars@ == s@,
            views(parts@) + lines_from(s@, i as int) == line_list(s@),
        decreases n - i,
    {
        let from: usize = i;
        while i < n && chars[i] != '\n'
            invariant
                from <= i <= n,
                n == chars.len(),
                chars@ == s@,
                position_from(s@, '\n', i as int) == position_from(s@, '\n', from as int),
            decreases n - i,
        {
            i += 1;
        }
        let ghost before = views(parts@);
        let ghost rest = lines_from(s@, i + 1);
        let line = if i < n {
            if i > from && chars[i - 1] == '\r' {
                s.substring_char(from, i - 1)
            } else {
                s.substring_char(from, i)
            }
        } else {
            s.substring_char(from, i)
        };
        parts.push(line);
        assert(views(parts@) =~= before + seq![line@]);
        proof {
            if i < n {
                assert(line@ =~= without_return(s@.subrange(from as int, i as int)));
            } else {
                assert(line@ =~= s@.skip(from as int));
                assert(rest =~= seq![]);
                assert(lines_from(s@, from as int) =~= seq![line@] + rest);
            }
            assert(lines_from(s@, from as int) == seq![line@] + rest);
            assert(before + (seq![line@] + rest) =~= (before + seq![line@]) + rest);
        }
        if i < n {
            i += 1;
        } else {
            assert(lines_from(s@, i as int) =~= rest);
        }
    }
    assert(lines_from(s@, i as int) =~= seq![]);
    assert(views(parts@) =~= line_list(s@));
    parts
}

// ---------------------------------------------------------------------------
// Unsigned numbers
// ---------------------------------------------------------------------------

/// Whether `c` is an ASCII decimal digit.
pub open spec fn is_digit(c: char) -> bool {
    '0' <= c && c <= '9'
}

/// The value of a decimal digit.
pub open spec fn digit_value(c: char) -> nat {
    (c as u32 - '0' as u32) as nat
}

/// Whether every character of `s` is a decimal digit.
pub open spec fn all_digits(s: Seq<char>) -> bool {
    forall|i: int| 0 <= i < s.len() ==> is_digit(#[trigger] s[i])
}

/// The number that a row of decimal digits writes.
pub open spec fn decimal_value(s: Seq<char>) -> nat
    decreases s.len(),
{
    if s.len() == 0 {
        0
    } else {
        decimal_value(s.drop_last()) * 10 + digit_value(s.last())
    }
}

/// `s` without one plus sign at its front.
pub open spec fn without_plus(s: Seq<char>) -> Seq<char> {
    if begins_with_char(s, '+') {
        s.skip(1)
    } else {
        s
    }
}

/// The number that `s` writes, if it is one and no larger than `max`: an optional
/// plus sign, then one or more decimal digits.
pub open spec fn number(s: Seq<char>, max: nat) -> Option<nat> {
    let d = without_plus(s);
    if d.len() > 0 && all_digits(d) && decimal_value(d) <= max {
        Some(decimal_value(d))
    } else {
        None
    }
}

/// A longer row of digits writes no smaller number.
pub proof fn lemma_decimal_value_grows(s: Seq<char>, k: int)
    requires
        0 <= k <= s.len(),
    ensures
        decimal_value(s.take(k)) <= decimal_value(s),
    decreases s.len(),
{
    if k < s.len() {
        assert(s.drop_last().take(k) =~= s.take(k));
        lemma_decimal_value_grows(s.drop_last(), k);
    } else {
        assert(s.take(k) =~= s);
    }
}

/// Reads an unsigned number that is at most `max`.
pub fn parse_number(s: &str, max: u64) -> (r: Option<u64>)
    ensures
        r matches Some(n) ==> number(s@, max as nat) == Some(n as nat),
        r is None ==> number(s@, max as nat) is None,
{
    let chars = chars_of(s);
    let n: usize = chars.len();
    let start: usize = if n > 0 && chars[0] == '+' {
        1
    } else {
        0
    };
    let ghost d = without_plus(s@);
    assert(d =~= s@.skip(start as int));
    if start == n {
        return None;
    }
    let mut value: u64 = 0;
    let mut i: usize = start;
    assert(d.take(0) =~= seq![]);
    while i < n
        invariant
            start <= i <= n,
            n == chars.len(),
            chars@ == s@,
            d == without_plus(s@),
            d == s@.skip(start as int),
            all_digits(d.take(i - start)),
            value == decimal_value(d.take(i - start)),
            value <= max,
        decreases n - i,
    {
        let c = chars[i];
        assert(d[i - start] == c);
        if !('0' <= c && c <= '9') {
            assert(!is_digit(d[i - start]));
            return None;
        }
        let digit: u64 = c as u64 - '0' as u64;
        let ghost longer = d.take(i + 1 - start);
        assert(longer.drop_last() =~= d.take(i - start));
        assert(longer.last() == c);
        let next: u128 = value as u128 * 10 + digit as u128;
        assert(next == decimal_value(longer));
        if next > max as u128 {
            proof {
                lemma_decimal_value_grows(d, i + 1 - start);
            }
            return None;
        }
        value = next as u64;
        assert(all_digits(longer)) by {
            assert forall|k: int| 0 <= k < longer.len() implies is_digit(#[trigger] longer[k]) by {
                if k < i - start {
                    assert(longer[k] == d.take(i - start)[k]);
                }
            }
        }
        i += 1;
    }
    assert(d.take(n - start) =~= d);
    Some(value)
}

/// Reads a number of eight bits.
pub fn parse_u8(s: &str) -> (r: Option<u8>)
    ensures
        r matches Some(n) ==> number(s@, 255) == Some(n as nat),
        r is None ==> number(s@, 255) is None,
{
    match parse_number(s, 255) {
        Some(n) => Some(n as u8),
        None => None,
    }
}

/// The number of eight bits that `s` writes, or `default` where it writes none.
pub open spec fn u8_or(s: Seq<char>, default: u8) -> u8 {
    match number(s, 255) {
        Some(n) => n as u8,
        None => default,
    }
}

/// Reads a number of eight bits, or takes `default`.
pub fn parse_u8_or(s: &str, default: u8) -> (r: u8)
    ensures
        r == u8_or(s@, default),
{
    match parse_u8(s) {
        Some(n) => n,
        None => default,
    }
}

/// The decimal digit that writes `d`.
pub open spec fn digit_char(d: nat) -> char {
    (d + '0' as u32) as char
}

/// The decimal digits of `n`, without leading zeros.
pub open spec fn decimal_text(n: nat) -> Seq<char>
    decreases n,
{
    if n < 10 {
        seq![digit_char(n)]
    } else {
        decimal_text(n / 10).push(digit_char(n % 10))
    }
}

fn digit_str(d: u32) -> (r: &'static str)
    requires
        d < 10,
    ensures
        r@ == seq![digit_char(d as nat)],
{
    proof {
        reveal_strlit("0");
        reveal_strlit("1");
        reveal_strlit("2");
        reveal_strlit("3");
        reveal_strlit("4");
        reveal_strlit("5");
        reveal_strlit("6");
        reveal_strlit("7");
        reveal_strlit("8");
        reveal_strlit("9");
    }
    let r: &'static str = if d == 0 {
        "0"
    } else if d == 1 {
        "1"
    } else if d == 2 {
        "2"
    } else if d == 3 {
        "3"
    } else if d == 4 {
        "4"
    } else if d == 5 {
        "5"
    } else if d == 6 {
        "6"
    } else if d == 7 {
        "7"
    } else if d == 8 {
        "8"
    } else {
        "9"
    };
    assert(r@ =~= seq![digit_char(d as nat)]);
    r
}

/// Writes a number in decimal.
pub fn decimal(n: u32) -> (r: String)
    ensures
        r@ == decimal_text(n as nat),
    decreases n,
{
    if n < 10 {
        String::from_str(digit_str(n))
    } else {
        let mut text = decimal(n / 10);
        let ghost front = text@;
        text.append(digit_str(n % 10));
        assert(text@ =~= front.push(digit_char((n % 10) as nat)));
        text
    }
}

/// Joins two texts.
pub fn concat(a: &str, b: &str) -> (r: String)
    ensures
        r@ == a@ + b@,
{
    let mut text = String::from_str(a);
    text.append(b);
    text
}

// ---------------------------------------------------------------------------
// Lower case
// ---------------------------------------------------------------------------

/// A letter of ASCII in lower case, and any other character as it is.
pub open spec fn lower(c: char) -> char {
    if 'A' <= c && c <= 'Z' {
        (c as u32 + 32) as char
    } else {
        c
    }
}

/// A text with the letters of ASCII in lower case.
pub open spec fn lowered(s: Seq<char>) -> Seq<char> {
    s.map_values(|c: char| lower(c))
}

/// Puts the letters of ASCII into lower case. Outside ASCII no letter has a lower case
/// that occurs in a name that this library looks for (the Kelvin sign has one in ASCII,
/// the letter k), so such letters are left alone.
pub fn to_lower(s: &str) -> (r: String)
    ensures
        r@ == lowered(s@),
{
    let letters = "abcdefghijklmnopqrstuvwxyz";
    proof {
        reveal_strlit("abcdefghijklmnopqrstuvwxyz");
    }
    assert(letters@.len() == 26);
    assert(forall|k: int| 0 <= k < 26 ==> #[trigger] letters@[k] == (97 + k) as char);
    let chars = chars_of(s);
    let mut t = String::new();
    let mut i: usize = 0;
    assert(t@ =~= lowered(s@).take(0));
    while i < chars.len()
        invariant
            i <= chars.len(),
            chars@ == s@,
            letters@.len() == 26,
            forall|k: int| 0 <= k < 26 ==> #[trigger] letters@[k] == (97 + k) as char,
            t@ == lowered(s@).take(i as int),
        decreases chars.len() - i,
    {
        let c = chars[i];
        let ghost before = t@;
        if 'A' <= c && c <= 'Z' {
            let k: usize = c as usize - 65;
            t.append(letters.substring_char(k, k + 1));
            assert(letters@[k as int] == lower(c));
        } else {
            t.append(s.substring_char(i, i + 1));
        }
        assert(t@ =~= before.push(lower(c)));
        assert(lowered(s@).take(i + 1) =~= lowered(s@).take(i as int).push(lower(c)));
        i += 1;
    }
    assert(lowered(s@).take(i as int) =~= lowered(s@));
    t
}

// ---------------------------------------------------------------------------
// Lemmas and laws
// ---------------------------------------------------------------------------

/// Whether `s` holds nothing but white space.
pub open spec fn all_white(s: Seq<char>) -> bool {
    forall|i: int| 0 <= i < s.len() ==> is_white(#[trigger] s[i])
}

/// Whether `s` holds no white space.
pub open spec fn no_white(s: Seq<char>) -> bool {
    forall|i: int| 0 <= i < s.len() ==> !is_white(#[trigger] s[i])
}

/// Whether `s` does not hold `c`.
pub open spec fn lacks(s: Seq<char>, c: char) -> bool {
    forall|i: int| 0 <= i < s.len() ==> #[trigger] s[i] != c
}

/// The first `c` is the one behind a text that lacks it.
pub proof fn lemma_position_behind(a: Seq<char>, c: char, b: Seq<char>)
    requires
        lacks(a, c),
    ensures
        position(a + seq![c] + b, c) == Some(a.len() as int),
        before_first(a + seq![c] + b, c) == a,
        after_first(a + seq![c] + b, c) == Some(b),
{
    let s = a + seq![c] + b;
    lemma_position_from(s, c, 0);
    assert(s[a.len() as int] == c);
    let p = position(s, c)->Some_0;
    if p < a.len() {
        assert(s[p] == a[p]);
    }
    assert(s.take(a.len() as int) =~= a);
    assert(s.skip(a.len() as int + 1) =~= b);
}

/// A text that lacks `c` stands before the first `c` as a whole.
pub proof fn lemma_no_position(a: Seq<char>, c: char)
    requires
        lacks(a, c),
    ensures
        position(a, c) is None,
        before_first(a, c) == a,
        after_first(a, c) is None,
{
    lemma_position_from(a, c, 0);
}

/// White space in front of a text that does not begin with it is trimmed away, and nothing
/// else is.
pub proof fn lemma_trimmed_prefix(w: Seq<char>, s: Seq<char>)
    requires
        all_white(w),
        s.len() > 0 ==> !is_white(s[0]),
    ensures
        trimmed_start(w + s) == s,
{
    let t = w + s;
    lemma_skip_white(t, 0);
    let k = skip_white(t, 0);
    if k < w.len() {
        assert(t[k] == w[k]);
    }
    if k > w.len() {
        assert(t[w.len() as int] == s[0]);
    }
    assert(t.skip(k) =~= s);
}

/// White space behind a text that does not begin or end with it is trimmed away, and
/// nothing else is.
pub proof fn lemma_trimmed_suffix(s: Seq<char>, w: Seq<char>)
    requires
        s.len() > 0,
        !is_white(s[0]),
        !is_white(s.last()),
        all_white(w),
    ensures
        trimmed(s + w) == s,
{
    let t = s + w;
    assert(t[0] == s[0]);
    assert(trimmed_start(t) =~= t);
    lemma_skip_white_back(t, t.len() as int);
    let j = skip_white_back(t, t.len() as int);
    assert(t[s.len() - 1] == s.last());
    if j > s.len() {
        assert(t[j - 1] == w[j - 1 - s.len()]);
    }
    assert(j == s.len());
    assert(t.take(j) =~= s);
}

/// White space at both ends of a text that does not begin or end with it is trimmed away.
pub proof fn lemma_trimmed_both(before: Seq<char>, s: Seq<char>, after: Seq<char>)
    requires
        s.len() > 0 && !is_white(s[0]) && !is_white(s.last()),
        all_white(before),
        all_white(after),
    ensures
        trimmed(before + (s + after)) == s,
{
    assert((s + after)[0] == s[0]);
    lemma_trimmed_prefix(before, s + after);
    lemma_trimmed_suffix(s, after);
    lemma_trimmed_prefix(seq![], s + after);
    assert(seq![] + (s + after) =~= s + after);
}

/// Trimming a second time changes nothing.
pub proof fn lemma_trimmed_again(s: Seq<char>)
    ensures
        trimmed(trimmed(s)) == trimmed(s),
{
    lemma_skip_white(s, 0);
    let a = trimmed_start(s);
    lemma_skip_white_back(a, a.len() as int);
    let t = trimmed(s);
    if t.len() > 0 {
        assert(t[0] == a[0]);
        assert(t.last() == a[t.len() - 1]);
        lemma_trimmed_suffix(t, seq![]);
        assert(t + seq![] =~= t);
    } else {
        assert(trimmed_start(t) =~= t);
        assert(trimmed(t) =~= t);
    }
}

/// Trimming keeps ASCII.
pub proof fn lemma_trimmed_ascii(s: Seq<char>)
    requires
        is_ascii_chars(s),
    ensures
        is_ascii_chars(trimmed(s)),
{
    lemma_skip_white(s, 0);
    let a = trimmed_start(s);
    lemma_skip_white_back(a, a.len() as int);
}

/// The lines of a text in ASCII are in ASCII.
pub proof fn lemma_lines_ascii(s: Seq<char>, from: int, i: int)
    requires
        is_ascii_chars(s),
        0 <= from,
        0 <= i < lines_from(s, from).len(),
    ensures
        is_ascii_chars(lines_from(s, from)[i]),
    decreases s.len() - from,
{
    lemma_position_from(s, '\n', from);
    if from < s.len() {
        if let Some(p) = position_from(s, '\n', from) {
            if i > 0 {
                lemma_lines_ascii(s, p + 1, i - 1);
            }
        }
    }
}

/// A number that is written in decimal is read back.
pub proof fn law_decimal_round_trip(n: nat, max: nat)
    requires
        n <= max,
    ensures
        number(decimal_text(n), max) == Some(n),
{
    lemma_decimal_text(n);
    let d = decimal_text(n);
    assert(is_digit(d[0]));
    assert(without_plus(d) == d);
}

/// What decimal digits are: at least one, each of them a digit and so no white space.
pub proof fn lemma_decimal_text(n: nat)
    ensures
        decimal_text(n).len() > 0,
        all_digits(decimal_text(n)),
        no_white(decimal_text(n)),
        decimal_value(decimal_text(n)) == n,
    decreases n,
{
    let d = decimal_text(n);
    if n < 10 {
        assert(d.drop_last() =~= seq![]);
        assert(decimal_value(d.drop_last()) == 0);
        assert(digit_value(d.last()) == n);
    } else {
        lemma_decimal_text(n / 10);
        let f = decimal_text(n / 10);
        assert(d.drop_last() =~= f);
        assert(digit_value(d.last()) == n % 10);
        assert forall|i: int| 0 <= i < d.len() implies is_digit(#[trigger] d[i]) && !is_white(
            d[i],
        ) by {
            if i < f.len() {
                assert(d[i] == f[i]);
            }
        }
    }
}

/// Reading from position `i`, the next word ends where white space or the text ends.
proof fn lemma_next_word(s: Seq<char>, i: int, a: int, b: int)
    requires
        0 <= i <= a < b <= s.len(),
        forall|k: int| i <= k < a ==> is_white(#[trigger] s[k]),
        forall|k: int| a <= k < b ==> !is_white(#[trigger] s[k]),
        b < s.len() ==> is_white(s[b]),
    ensures
        words_from(s, i) == seq![s.subrange(a, b)] + words_from(s, b),
{
    lemma_skip_white(s, i);
    assert(skip_white(s, i) == a) by {
        if skip_white(s, i) < a {
            assert(is_white(s[skip_white(s, i)]));
        }
        if skip_white(s, i) > a {
            assert(is_white(s[a]));
        }
    }
    lemma_skip_word(s, a);
    assert(skip_word(s, a) == b) by {
        if skip_word(s, a) < b {
            assert(!is_white(s[skip_word(s, a)]));
        }
        if skip_word(s, a) > b {
            assert(!is_white(s[b]));
        }
    }
}

/// Three words with a space between them are split into the three again.
pub proof fn lemma_three_words(x: Seq<char>, y: Seq<char>, z: Seq<char>)
    requires
        x.len() > 0,
        y.len() > 0,
        z.len() > 0,
        no_white(x),
        no_white(y),
        no_white(z),
    ensures
        words(x + seq![' '] + y + seq![' '] + z) == seq![x, y, z],
{
    let s = x + seq![' '] + y + seq![' '] + z;
    let a = x.len() as int;
    let b = a + 1 + y.len();
    let n = s.len() as int;
    assert forall|k: int| 0 <= k < a implies !is_white(#[trigger] s[k]) by {
        assert(s[k] == x[k]);
    }
    assert forall|k: int| a + 1 <= k < b implies !is_white(#[trigger] s[k]) by {
        assert(s[k] == y[k - a - 1]);
    }
    assert forall|k: int| b + 1 <= k < n implies !is_white(#[trigger] s[k]) by {
        assert(s[k] == z[k - b - 1]);
    }
    assert(s[a] == ' ' && s[b] == ' ');
    lemma_next_word(s, 0, 0, a);
    lemma_next_word(s, a, a + 1, b);
    lemma_next_word(s, b, b + 1, n);
    assert(s.subrange(0, a) =~= x);
    assert(s.subrange(a + 1, b) =~= y);
    assert(s.subrange(b + 1, n) =~= z);
    assert(words_from(s, n) =~= seq![]);
    assert(words(s) =~= seq![x, y, z]);
}

// ---------------------------------------------------------------------------
// What splitting gives
// ---------------------------------------------------------------------------

proof fn lemma_skip_white_shift(s: Seq<char>, i: int, j: int)
    requires
        0 <= i,
        0 <= j,
        i + j <= s.len(),
    ensures
        skip_white(s, i + j) == i + skip_white(s.skip(i), j),
    decreases s.len() - i - j,
{
    if i + j < s.len() && is_white(s[i + j]) {
        lemma_skip_white_shift(s, i, j + 1);
    }
}

proof fn lemma_skip_word_shift(s: Seq<char>, i: int, j: int)
    requires
        0 <= i,
        0 <= j,
        i + j <= s.len(),
    ensures
        skip_word(s, i + j) == i + skip_word(s.skip(i), j),
    decreases s.len() - i - j,
{
    if i + j < s.len() && !is_white(s[i + j]) {
        lemma_skip_word_shift(s, i, j + 1);
    }
}

proof fn lemma_words_shift(s: Seq<char>, i: int, j: int)
    requires
        0 <= i,
        0 <= j,
        i + j <= s.len(),
    ensures
        words_from(s, i + j) == words_from(s.skip(i), j),
    decreases s.len() - i - j,
{
    let t = s.skip(i);
    lemma_skip_white_shift(s, i, j);
    lemma_skip_white(t, j);
    let a = skip_white(t, j);
    if a < t.len() {
        lemma_skip_word_shift(s, i, a);
        lemma_skip_word(t, a);
        let b = skip_word(t, a);
        assert(b > a);
        assert(s.subrange(i + a, i + b) =~= t.subrange(a, b));
        lemma_words_shift(s, i, b);
    }
}

/// A text that begins with a word, whatever white space stands before it, is split into that
/// word and the words of what follows.
pub proof fn law_first_word(w: Seq<char>, x: Seq<char>, rest: Seq<char>)
    requires
        all_white(w),
        x.len() > 0,
        no_white(x),
        rest.len() > 0 ==> is_white(rest[0]),
    ensures
        words(w + x + rest) == seq![x] + words(rest),
{
    let s = w + x + rest;
    let a = w.len() as int;
    let b = a + x.len();
    assert forall|k: int| 0 <= k < a implies is_white(#[trigger] s[k]) by {
        assert(s[k] == w[k]);
    }
    assert forall|k: int| a <= k < b implies !is_white(#[trigger] s[k]) by {
        assert(s[k] == x[k - a]);
    }
    if b < s.len() {
        assert(s[b] == rest[0]);
    }
    lemma_next_word(s, 0, a, b);
    assert(s.subrange(a, b) =~= x);
    assert(s.skip(b) =~= rest);
    lemma_words_shift(s, b, 0);
}

/// White space holds no word.
pub proof fn law_no_word(w: Seq<char>)
    requires
        all_white(w),
    ensures
        words(w) == Seq::<Seq<char>>::empty(),
{
    lemma_skip_white(w, 0);
}

/// Three words are split into the three, whatever white space stands between and around
/// them.
pub proof fn law_three_words(
    before: Seq<char>,
    x: Seq<char>,
    v: Seq<char>,
    y: Seq<char>,
    w: Seq<char>,
    z: Seq<char>,
    after: Seq<char>,
)
    requires
        all_white(before) && all_white(v) && all_white(w) && all_white(after),
        v.len() > 0 && w.len() > 0,
        x.len() > 0 && y.len() > 0 && z.len() > 0,
        no_white(x) && no_white(y) && no_white(z),
    ensures
        words(before + x + v + y + w + z + after) == seq![x, y, z],
{
    let third = w + z + after;
    let second = v + y + third;
    assert(before + x + v + y + w + z + after =~= before + x + second);
    assert(third[0] == w[0]);
    assert(second[0] == v[0]);
    if after.len() > 0 {
        assert(is_white(after[0]));
    }
    law_first_word(before, x, second);
    law_first_word(v, y, third);
    law_first_word(w, z, after);
    law_no_word(after);
    assert(words(before + x + second) =~= seq![x, y, z]);
}

proof fn lemma_position_shift(s: Seq<char>, c: char, i: int, j: int)
    requires
        0 <= i,
        0 <= j,
        i + j <= s.len(),
    ensures
        position_from(s.skip(i), c, j) matches Some(p) ==> position_from(s, c, i + j) == Some(i + p),
        position_from(s.skip(i), c, j) is None ==> position_from(s, c, i + j) is None,
    decreases s.len() - i - j,
{
    if i + j < s.len() && s[i + j] != c {
        lemma_position_shift(s, c, i, j + 1);
    }
}

proof fn lemma_lines_shift(s: Seq<char>, i: int, j: int)
    requires
        0 <= i,
        0 <= j,
        i + j <= s.len(),
    ensures
        lines_from(s, i + j) == lines_from(s.skip(i), j),
    decreases s.len() - i - j,
{
    let t = s.skip(i);
    lemma_position_shift(s, '\n', i, j);
    lemma_position_from(t, '\n', j);
    if j < t.len() {
        match position_from(t, '\n', j) {
            Some(p) => {
                assert(s.subrange(i + j, i + p) =~= t.subrange(j, p));
                lemma_lines_shift(s, i, p + 1);
            },
            None => {
                assert(s.skip(i + j) =~= t.skip(j));
            },
        }
    }
}

/// A text is the line up to its first line feed and the lines of what follows. A carriage
/// return before the line feed belongs to neither.
pub proof fn law_first_line(line: Seq<char>, rest: Seq<char>)
    requires
        lacks(line, '\n'),
    ensures
        line.len() == 0 || line.last() != '\r' ==> line_list(line + seq!['\n'] + rest) == seq![line]
            + line_list(rest),
        line_list(line + seq!['\r', '\n'] + rest) == seq![line] + line_list(rest),
{
    if line.len() == 0 || line.last() != '\r' {
        lemma_first_line(line, rest);
    }
    let l = line + seq!['\r'];
    assert(lacks(l, '\n')) by {
        assert forall|i: int| 0 <= i < l.len() implies #[trigger] l[i] != '\n' by {
            if i < line.len() {
                assert(l[i] == line[i]);
            }
        }
    }
    assert(line + seq!['\r', '\n'] + rest =~= l + seq!['\n'] + rest);
    assert(l.drop_last() =~= line);
    lemma_first_line(l, rest);
}

proof fn lemma_first_line(line: Seq<char>, rest: Seq<char>)
    requires
        lacks(line, '\n'),
    ensures
        line_list(line + seq!['\n'] + rest) == seq![without_return(line)] + line_list(rest),
{
    let s = line + seq!['\n'] + rest;
    let n = line.len() as int;
    lemma_position_behind(line, '\n', rest);
    assert(s.subrange(0, n) =~= line);
    assert(s.skip(n + 1) =~= rest);
    lemma_lines_shift(s, n + 1, 0);
}

/// A text without a line feed is one line, and an empty one is none.
pub proof fn law_only_line(line: Seq<char>)
    requires
        lacks(line, '\n'),
    ensures
        line_list(line) == (if line.len() > 0 {
            seq![line]
        } else {
            seq![]
        }),
{
    lemma_position_from(line, '\n', 0);
    assert(line.skip(0) =~= line);
}

/// Whether a text consists of whole lines: it is empty, or ends with a line feed.
pub open spec fn whole_lines(s: Seq<char>) -> bool {
    s.len() == 0 || s.last() == '\n'
}

/// The lines of two texts, one behind the other, are those of the first and then those of
/// the second, if the first consists of whole lines.
pub proof fn law_lines_add(a: Seq<char>, b: Seq<char>)
    requires
        whole_lines(a),
    ensures
        line_list(a + b) == line_list(a) + line_list(b),
    decreases a.len(),
{
    if a.len() == 0 {
        assert(a + b =~= b);
        assert(line_list(a) + line_list(b) =~= line_list(b));
    } else {
        lemma_position_from(a, '\n', 0);
        assert(a[a.len() - 1] == '\n');
        let p = position(a, '\n')->Some_0;
        let line = a.take(p);
        let rest = a.skip(p + 1);
        assert(a =~= line + seq!['\n'] + rest);
        assert(a + b =~= line + seq!['\n'] + (rest + b));
        lemma_first_line(line, rest);
        lemma_first_line(line, rest + b);
        if rest.len() > 0 {
            assert(rest.last() == a.last());
        }
        law_lines_add(rest, b);
        assert(line_list(a + b) =~= line_list(a) + line_list(b));
    }
}

/// A line that is put between whole lines and others stands between theirs.
pub proof fn law_line_between(before: Seq<char>, line: Seq<char>, after: Seq<char>)
    requires
        whole_lines(before),
        lacks(line, '\n'),
        line.len() == 0 || line.last() != '\r',
    ensures
        line_list(before + line + seq!['\n'] + after) == line_list(before) + seq![line] + line_list(
            after,
        ),
{
    let rest = line + seq!['\n'] + after;
    assert(before + line + seq!['\n'] + after =~= before + rest);
    law_lines_add(before, rest);
    law_first_line(line, after);
    assert(line_list(before + rest) =~= line_list(before) + seq![line] + line_list(after));
}

/// A text begins with another if and only if it is that text with something behind it, and
/// it ends with another if and only if it is that text with something before it.
pub proof fn law_beginning_and_end(s: Seq<char>, p: Seq<char>, t: Seq<char>)
    ensures
        begins_with(p + t, p),
        finishes_with(t + p, p),
        begins_with(s, p) ==> s == p + s.skip(p.len() as int),
        finishes_with(s, p) ==> s == s.take(s.len() - p.len()) + p,
{
    assert((p + t).subrange(0, p.len() as int) =~= p);
    assert((t + p).subrange(t.len() as int, (t + p).len() as int) =~= p);
    if begins_with(s, p) {
        assert(s =~= s.subrange(0, p.len() as int) + s.skip(p.len() as int));
    }
    if finishes_with(s, p) {
        let k = s.len() - p.len();
        assert(s =~= s.take(k) + s.subrange(k, k + p.len()));
    }
}

// ---------------------------------------------------------------------------
// What numbers are
// ---------------------------------------------------------------------------

/// A number is written in digits, and the first is no zero unless it is the only one.
pub proof fn law_decimal_text_is_plain(n: nat)
    ensures
        decimal_text(n).len() > 0,
        forall|i: int| 0 <= i < decimal_text(n).len() ==> '0' <= #[trigger] decimal_text(n)[i] <= '9',
        n > 0 ==> decimal_text(n)[0] != '0',
        n == 0 ==> decimal_text(n).len() == 1,
    decreases n,
{
    lemma_decimal_text(n);
    let d = decimal_text(n);
    assert forall|i: int| 0 <= i < d.len() implies '0' <= #[trigger] d[i] <= '9' by {
        assert(is_digit(d[i]));
    }
    if n >= 10 {
        law_decimal_text_is_plain(n / 10);
        lemma_decimal_text(n / 10);
        assert(d[0] == decimal_text(n / 10)[0]);
    }
}

proof fn lemma_zeros_in_front(k: nat, d: Seq<char>)
    ensures
        decimal_value(Seq::new(k, |i: int| '0') + d) == decimal_value(d),
    decreases k + d.len(),
{
    let zeros = Seq::new(k, |i: int| '0');
    let s = zeros + d;
    if d.len() > 0 {
        assert(s.drop_last() =~= zeros + d.drop_last());
        lemma_zeros_in_front(k, d.drop_last());
    } else if k > 0 {
        let fewer = Seq::new((k - 1) as nat, |i: int| '0');
        assert(s.drop_last() =~= fewer + d);
        lemma_zeros_in_front((k - 1) as nat, d);
    } else {
        assert(s =~= d);
    }
}

/// Zeros in front of a number do not count, and neither does a plus sign before them. A
/// number that is too large is none.
pub proof fn law_zeros_and_sign_do_not_count(n: nat, max: nat, k: nat)
    ensures
        number(Seq::new(k, |i: int| '0') + decimal_text(n), max) == (if n <= max {
            Some(n)
        } else {
            None
        }),
        number(seq!['+'] + Seq::new(k, |i: int| '0') + decimal_text(n), max) == (if n <= max {
            Some(n)
        } else {
            None
        }),
{
    let zeros = Seq::new(k, |i: int| '0');
    let d = decimal_text(n);
    let s = zeros + d;
    lemma_decimal_text(n);
    lemma_zeros_in_front(k, d);
    assert(all_digits(s)) by {
        assert forall|i: int| 0 <= i < s.len() implies is_digit(#[trigger] s[i]) by {
            if i >= k {
                assert(s[i] == d[i - k]);
            }
        }
    }
    assert(is_digit(s[0]));
    assert(without_plus(s) == s);
    let t = seq!['+'] + zeros + d;
    assert(t[0] == '+');
    assert(t.skip(1) =~= s);
}

/// A text without digits is no number, and neither is one that holds anything else, but for
/// one plus sign in front.
pub proof fn law_other_text_is_no_number(s: Seq<char>, max: nat, i: int)
    requires
        s.len() == 0 || s == seq!['+'] || (0 <= i < s.len() && !is_digit(s[i]) && (i > 0 || s[0]
            != '+')),
    ensures
        number(s, max) is None,
{
    let d = without_plus(s);
    if s.len() > 0 && s != seq!['+'] {
        let k = if s[0] == '+' {
            i - 1
        } else {
            i
        };
        assert(d[k] == s[i]);
    }
}

// ---------------------------------------------------------------------------
// Either case
// ---------------------------------------------------------------------------

/// Whether a text is another one, but for letters of ASCII that may be in upper case.
pub open spec fn in_either_case(s: Seq<char>, low: Seq<char>) -> bool {
    &&& s.len() == low.len()
    &&& forall|i: int|
        0 <= i < s.len() ==> #[trigger] s[i] == low[i] || ('a' <= low[i] <= 'z' && s[i] as u32 + 32
            == low[i] as u32)
}

/// A name in either case is put into lower case.
pub proof fn law_either_case_is_lowered(s: Seq<char>, low: Seq<char>)
    requires
        in_either_case(s, low),
        forall|i: int| 0 <= i < low.len() ==> !('A' <= #[trigger] low[i] <= 'Z'),
    ensures
        lowered(s) == low,
{
    assert forall|i: int| 0 <= i < s.len() implies #[trigger] lowered(s)[i] == low[i] by {
        lemma_lower(s[i], low[i]);
    }
    assert(lowered(s) =~= low);
}

proof fn lemma_lower(c: char, l: char)
    requires
        c == l || ('a' <= l <= 'z' && c as u32 + 32 == l as u32),
        !('A' <= l <= 'Z'),
    ensures
        lower(c) == l,
{
}

/// A number of eight bits is taken as it is written, and anything else is the default.
pub proof fn law_number_or_default(n: u8, s: Seq<char>, default: u8)
    ensures
        u8_or(decimal_text(n as nat), default) == n,
        number(s, 255) is None ==> u8_or(s, default) == default,
{
    law_decimal_round_trip(n as nat, 255);
}

} // verus!

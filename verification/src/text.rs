//! Text as sequences of characters: searching, splitting, trimming, numbers, and order.

use vstd::prelude::*;

verus! {

/// What `String::push` documents: the character is appended at the end.
pub assume_specification [String::push] (s: &mut String, c: char)
    ensures
        final(s)@ == old(s)@.push(c),
;

/// What `String::push_str` documents: the given text is appended at the end.
pub assume_specification [String::push_str] (s: &mut String, t: &str)
    ensures
        final(s)@ == old(s)@ + t@,
;

/// The characters with the Unicode `White_Space` property.
pub open spec fn is_space(c: char) -> bool {
    ||| '\u{9}' <= c <= '\u{d}'
    ||| c == ' '
    ||| c == '\u{85}'
    ||| c == '\u{a0}'
    ||| c == '\u{1680}'
    ||| '\u{2000}' <= c <= '\u{200a}'
    ||| c == '\u{2028}'
    ||| c == '\u{2029}'
    ||| c == '\u{202f}'
    ||| c == '\u{205f}'
    ||| c == '\u{3000}'
}

/// `char::is_whitespace` holds of exactly the characters with the `White_Space` property.
pub assume_specification [char::is_whitespace] (c: char) -> (r: bool)
    ensures
        r == is_space(c),
;

/// Whether a character outside ASCII is alphanumeric, as `char::is_alphanumeric` has it.
pub uninterp spec fn unicode_alphanumeric(c: char) -> bool;

/// Whether a character outside ASCII is an upper-case letter, as `char::is_uppercase` has it.
pub uninterp spec fn unicode_uppercase(c: char) -> bool;

/// Whether a character outside ASCII is a lower-case letter, as `char::is_lowercase` has it.
pub uninterp spec fn unicode_lowercase(c: char) -> bool;

/// The lower-case mapping of a character outside ASCII, as `char::to_lowercase` has it.
pub uninterp spec fn unicode_to_lowercase(c: char) -> Seq<char>;

/// Whether `c` is an ASCII character.
pub open spec fn is_ascii_char(c: char) -> bool {
    c <= '\u{7f}'
}

/// Whether `c` is an ASCII digit.
pub open spec fn is_digit(c: char) -> bool {
    '0' <= c <= '9'
}

/// Whether `c` is an ASCII letter or digit.
pub open spec fn is_ascii_word(c: char) -> bool {
    is_digit(c) || 'a' <= c <= 'z' || 'A' <= c <= 'Z'
}

/// Whether `c` is alphanumeric in Unicode.
pub open spec fn is_letter_or_digit(c: char) -> bool {
    if is_ascii_char(c) {
        is_ascii_word(c)
    } else {
        unicode_alphanumeric(c)
    }
}

/// Whether `c` is an upper-case letter in Unicode.
pub open spec fn is_upper(c: char) -> bool {
    if is_ascii_char(c) {
        'A' <= c <= 'Z'
    } else {
        unicode_uppercase(c)
    }
}

/// Whether `c` is a lower-case letter in Unicode.
pub open spec fn is_lower(c: char) -> bool {
    if is_ascii_char(c) {
        'a' <= c <= 'z'
    } else {
        unicode_lowercase(c)
    }
}

/// `c` with an ASCII upper-case letter turned into lower case.
pub open spec fn ascii_lower(c: char) -> char {
    if 'A' <= c <= 'Z' {
        (c as u32 + 32) as char
    } else {
        c
    }
}

/// The lower-case mapping of `c` in Unicode.
pub open spec fn lower(c: char) -> Seq<char> {
    if is_ascii_char(c) {
        seq![ascii_lower(c)]
    } else {
        unicode_to_lowercase(c)
    }
}

/// `char::is_alphanumeric`: on ASCII the letters and digits, elsewhere the named property.
pub assume_specification [char::is_alphanumeric] (c: char) -> (r: bool)
    ensures
        is_ascii_char(c) ==> r == is_ascii_word(c),
        !is_ascii_char(c) ==> r == unicode_alphanumeric(c),
;

/// `char::is_uppercase`: on ASCII the letters `A` to `Z`, elsewhere the named property.
pub assume_specification [char::is_uppercase] (c: char) -> (r: bool)
    ensures
        is_ascii_char(c) ==> r == ('A' <= c <= 'Z'),
        !is_ascii_char(c) ==> r == unicode_uppercase(c),
;

/// `char::is_lowercase`: on ASCII the letters `a` to `z`, elsewhere the named property.
pub assume_specification [char::is_lowercase] (c: char) -> (r: bool)
    ensures
        is_ascii_char(c) ==> r == ('a' <= c <= 'z'),
        !is_ascii_char(c) ==> r == unicode_lowercase(c),
;

/// `char::to_lowercase`, collected: on ASCII the one lower-case character, elsewhere the
/// named mapping.
#[verifier::external_body]
fn char_to_lowercase(c: char) -> (r: Vec<char>)
    ensures
        is_ascii_char(c) ==> r@ == seq![ascii_lower(c)],
        !is_ascii_char(c) ==> r@ == unicode_to_lowercase(c),
{
    c.to_lowercase().collect()
}

/// What `{:?}` writes for a text.
pub uninterp spec fn debug_quoted(text: Seq<char>) -> Seq<char>;

/// Formats a text with `{:?}`: quoted, with special characters escaped. Which characters
/// are escaped, and how, is left to the formatter.
#[verifier::external_body]
pub(crate) fn debug_text(text: &str) -> (r: String)
    ensures
        r@ == debug_quoted(text@),
{
    format!("{:?}", text)
}

broadcast use crate::views::lemma_chars_deep_view;

/// The characters of `s`, in order.
pub fn chars_of(s: &str) -> (r: Vec<char>)
    ensures
        r@ == s@,
{
    let mut out: Vec<char> = Vec::new();
    for c in it: s.chars()
        invariant
            out@ == it.seq().take(it.index()),
            it.seq() == s@,
    {
        out.push(c);
        assert(it.seq().take(it.index() + 1) =~= it.seq().take(it.index()).push(c));
    }
    assert(s@.take(s@.len() as int) =~= s@);
    out
}

/// The text made of `chars[start..end]`.
pub fn substring(chars: &[char], start: usize, end: usize) -> (r: String)
    requires
        start <= end <= chars@.len(),
    ensures
        r@ == chars@.subrange(start as int, end as int),
{
    let mut out = String::new();
    let mut i: usize = start;
    while i < end
        invariant
            start <= i <= end <= chars@.len(),
            out@ == chars@.subrange(start as int, i as int),
        decreases end - i,
    {
        out.push(chars[i]);
        assert(chars@.subrange(start as int, i as int).push(chars@[i as int])
            =~= chars@.subrange(start as int, i + 1));
        i += 1;
    }
    out
}

/// The text made of all of `chars`.
pub fn string_of(chars: &[char]) -> (r: String)
    ensures
        r@ == chars@,
{
    assert(chars@.subrange(0, chars@.len() as int) =~= chars@);
    substring(chars, 0, chars.len())
}

/// The characters `chars[start..end]`.
pub fn slice_of(chars: &[char], start: usize, end: usize) -> (r: Vec<char>)
    requires
        start <= end <= chars@.len(),
    ensures
        r@ == chars@.subrange(start as int, end as int),
{
    let mut out: Vec<char> = Vec::new();
    let mut i: usize = start;
    while i < end
        invariant
            start <= i <= end <= chars@.len(),
            out@ == chars@.subrange(start as int, i as int),
        decreases end - i,
    {
        out.push(chars[i]);
        assert(chars@.subrange(start as int, i as int).push(chars@[i as int])
            =~= chars@.subrange(start as int, i + 1));
        i += 1;
    }
    out
}

/// Whether `part` stands in `s` at position `at`.
pub open spec fn matches_at(s: Seq<char>, part: Seq<char>, at: int) -> bool {
    0 <= at && at + part.len() <= s.len() && s.subrange(at, at + part.len()) == part
}

/// Whether `part` stands in `chars` at position `at`.
pub fn match_at(chars: &[char], part: &[char], at: usize) -> (r: bool)
    ensures
        r == matches_at(chars@, part@, at as int),
{
    if at > chars.len() || chars.len() - at < part.len() {
        return false;
    }
    let mut i: usize = 0;
    while i < part.len()
        invariant
            at + part@.len() <= chars.len(),
            i <= part@.len(),
            forall|k: int| 0 <= k < i ==> chars@[at + k] == part@[k],
        decreases part@.len() - i,
    {
        if chars[at + i] != part[i] {
            assert(chars@.subrange(at as int, at + part@.len())[i as int] != part@[i as int]);
            return false;
        }
        i += 1;
    }
    assert(chars@.subrange(at as int, at + part@.len()) =~= part@);
    true
}

/// Whether `s` starts with `part`.
pub open spec fn starts_with(s: Seq<char>, part: Seq<char>) -> bool {
    matches_at(s, part, 0)
}

/// Whether `s` ends with `part`.
pub open spec fn ends_with(s: Seq<char>, part: Seq<char>) -> bool {
    matches_at(s, part, s.len() - part.len())
}

/// Whether `chars` starts with `part`.
pub fn has_prefix(chars: &[char], part: &str) -> (r: bool)
    ensures
        r == starts_with(chars@, part@),
{
    let part = chars_of(part);
    match_at(chars, &part, 0)
}

/// Whether `chars` ends with `part`.
pub fn has_suffix(chars: &[char], part: &str) -> (r: bool)
    ensures
        r == ends_with(chars@, part@),
{
    let part = chars_of(part);
    if part.len() > chars.len() {
        return false;
    }
    match_at(chars, &part, chars.len() - part.len())
}

/// The first position at or after `from` at which `part` stands in `s`, if there is one.
pub open spec fn find_from(s: Seq<char>, part: Seq<char>, from: int) -> Option<int>
    decreases s.len() - from,
{
    if from < 0 || from + part.len() > s.len() {
        None
    } else if matches_at(s, part, from) {
        Some(from)
    } else if from < s.len() {
        find_from(s, part, from + 1)
    } else {
        None
    }
}

/// `find_from` finds a position where `part` stands, and no earlier one is such.
pub proof fn lemma_find_from(s: Seq<char>, part: Seq<char>, from: int)
    requires
        0 <= from,
    ensures
        match find_from(s, part, from) {
            Some(at) => from <= at && matches_at(s, part, at)
                && forall|k: int| from <= k < at ==> !matches_at(s, part, k),
            None => forall|k: int| from <= k ==> !matches_at(s, part, k),
        },
    decreases s.len() - from,
{
    if from + part.len() > s.len() {
    } else if matches_at(s, part, from) {
    } else if from < s.len() {
        lemma_find_from(s, part, from + 1);
    }
}

/// The first position at or after `from` at which `part` stands in `chars`.
pub fn find(chars: &[char], part: &[char], from: usize) -> (r: Option<usize>)
    ensures
        match r {
            Some(at) => find_from(chars@, part@, from as int) == Some(at as int)
                && at + part@.len() <= chars@.len() && from <= at,
            None => find_from(chars@, part@, from as int) is None,
        },
{
    let mut i: usize = from;
    while i <= chars.len() && part.len() <= chars.len() - i
        invariant
            from <= i,
            from <= chars@.len() ==> i <= chars@.len() + 1,
            find_from(chars@, part@, from as int) == find_from(chars@, part@, i as int),
        decreases chars@.len() + 1 - i,
    {
        if match_at(chars, part, i) {
            return Some(i);
        }
        if i == chars.len() {
            return None;
        }
        i += 1;
    }
    None
}

/// Whether `part` stands anywhere in `s`.
pub open spec fn contains(s: Seq<char>, part: Seq<char>) -> bool {
    find_from(s, part, 0) is Some
}

/// Whether `part` stands anywhere in `s`.
pub fn contains_text(s: &str, part: &str) -> (r: bool)
    ensures
        r == contains(s@, part@),
{
    let s = chars_of(s);
    let part = chars_of(part);
    find(&s, &part, 0).is_some()
}

/// Whether two texts have the same characters.
pub fn same_text(a: &str, b: &str) -> (r: bool)
    ensures
        r == (a@ == b@),
{
    let x = a.as_bytes();
    let y = b.as_bytes();
    proof {
        vstd::utf8::encode_utf8_decode_utf8(a@);
        vstd::utf8::encode_utf8_decode_utf8(b@);
    }
    if x.len() != y.len() {
        return false;
    }
    let mut i: usize = 0;
    while i < x.len()
        invariant
            i <= x@.len(),
            x@.len() == y@.len(),
            x@ == vstd::utf8::encode_utf8(a@),
            y@ == vstd::utf8::encode_utf8(b@),
            forall|k: int| 0 <= k < i ==> x@[k] == y@[k],
        decreases x@.len() - i,
    {
        if x[i] != y[i] {
            return false;
        }
        i += 1;
    }
    assert(x@ =~= y@);
    true
}

/// Whether two sequences of characters are equal.
pub fn same_chars(a: &[char], b: &[char]) -> (r: bool)
    ensures
        r == (a@ == b@),
{
    if a.len() != b.len() {
        return false;
    }
    let ok = match_at(a, b, 0);
    assert(a@.subrange(0, a@.len() as int) =~= a@);
    ok
}

/// Whether `chars` are the characters of `text`.
pub fn chars_are(chars: &[char], text: &str) -> (r: bool)
    ensures
        r == (chars@ == text@),
{
    let text = chars_of(text);
    same_chars(chars, &text)
}

/// Whether an optional text is present and equal to `b`.
pub fn option_is(a: &Option<String>, b: &str) -> (r: bool)
    ensures
        r == (a.deep_view() == Some(b@)),
{
    match a {
        Some(a) => same_text(a.as_str(), b),
        None => false,
    }
}

/// Whether two optional texts are equal.
pub fn same_option(a: &Option<String>, b: &Option<String>) -> (r: bool)
    ensures
        r == (a.deep_view() == b.deep_view()),
{
    match (a, b) {
        (Some(a), Some(b)) => same_text(a.as_str(), b.as_str()),
        (None, None) => true,
        _ => false,
    }
}

/// `copy_option`: the same optional text again.
pub fn copy_option(a: &Option<String>) -> (r: Option<String>)
    ensures
        r.deep_view() == a.deep_view(),
{
    match a {
        Some(a) => Some(a.clone()),
        None => None,
    }
}

/// The first position at or after `from` that holds `c`, or the length of `s`.
pub open spec fn index_from(s: Seq<char>, c: char, from: int) -> int
    decreases s.len() - from,
{
    if from >= s.len() {
        s.len() as int
    } else if from >= 0 && s[from] == c {
        from
    } else {
        index_from(s, c, from + 1)
    }
}

/// The first position at or after `from` that holds `c`, or the length of `chars`.
pub fn index_of(chars: &[char], c: char, from: usize) -> (r: usize)
    requires
        from <= chars@.len(),
    ensures
        r == index_from(chars@, c, from as int),
        from <= r <= chars@.len(),
        r < chars@.len() ==> chars@[r as int] == c,
        forall|k: int| from <= k < r ==> chars@[k] != c,
{
    let mut i: usize = from;
    while i < chars.len()
        invariant
            from <= i <= chars@.len(),
            index_from(chars@, c, from as int) == index_from(chars@, c, i as int),
            forall|k: int| from <= k < i ==> chars@[k] != c,
        decreases chars@.len() - i,
    {
        if chars[i] == c {
            return i;
        }
        i += 1;
    }
    i
}

/// The parts of `s[from..]` between the occurrences of `c`.
pub open spec fn split_from(s: Seq<char>, c: char, from: int) -> Seq<Seq<char>>
    decreases s.len() - from,
{
    let at = index_from(s, c, from);
    if from < 0 || at >= s.len() || at < from {
        seq![s.subrange(from, s.len() as int)]
    } else {
        seq![s.subrange(from, at)] + split_from(s, c, at + 1)
    }
}

/// The parts of `s` between the occurrences of `c`.
pub open spec fn split(s: Seq<char>, c: char) -> Seq<Seq<char>> {
    split_from(s, c, 0)
}

/// The parts of `chars` between the occurrences of `c`.
pub fn split_on(chars: &[char], c: char) -> (r: Vec<Vec<char>>)
    ensures
        r.deep_view() == split(chars@, c),
        r@.len() >= 1,
{
    let mut out: Vec<Vec<char>> = Vec::new();
    let mut start: usize = 0;
    loop
        invariant
            start <= chars@.len(),
            out.deep_view() + split_from(chars@, c, start as int) =~= split(chars@, c),
        decreases chars@.len() - start,
    {
        let at = index_of(chars, c, start);
        let ghost before = out.deep_view();
        out.push(slice_of(chars, start, at));
        assert(out.deep_view() =~= before.push(chars@.subrange(start as int, at as int)));
        if at == chars.len() {
            return out;
        }
        start = at + 1;
    }
}

/// A line without a carriage return at its end.
pub open spec fn without_return(s: Seq<char>) -> Seq<char> {
    if s.len() > 0 && s.last() == '\r' {
        s.drop_last()
    } else {
        s
    }
}

/// The lines of `s[from..]`: each ends at a line feed, which is dropped together with a
/// carriage return before it; a last line may end at the end of the text instead.
pub open spec fn lines_from(s: Seq<char>, from: int) -> Seq<Seq<char>>
    decreases s.len() - from,
{
    let at = index_from(s, '\n', from);
    if from < 0 || from >= s.len() {
        seq![]
    } else if at >= s.len() || at < from {
        seq![s.subrange(from, s.len() as int)]
    } else {
        seq![without_return(s.subrange(from, at))] + lines_from(s, at + 1)
    }
}

/// The lines of `s`.
pub open spec fn lines(s: Seq<char>) -> Seq<Seq<char>> {
    lines_from(s, 0)
}

/// The lines of `chars`.
pub fn lines_of(chars: &[char]) -> (r: Vec<Vec<char>>)
    ensures
        r.deep_view() == lines(chars@),
{
    let mut out: Vec<Vec<char>> = Vec::new();
    let mut start: usize = 0;
    while start < chars.len()
        invariant
            start <= chars@.len(),
            out.deep_view() + lines_from(chars@, start as int) =~= lines(chars@),
        decreases chars@.len() - start,
    {
        let at = index_of(chars, '\n', start);
        let ghost before = out.deep_view();
        if at == chars.len() {
            out.push(slice_of(chars, start, at));
            assert(out.deep_view() =~= before.push(chars@.subrange(start as int, at as int)));
            assert(out.deep_view() =~= lines(chars@));
            return out;
        }
        if at > start && chars[at - 1] == '\r' {
            out.push(slice_of(chars, start, at - 1));
            assert(chars@.subrange(start as int, at as int).drop_last()
                =~= chars@.subrange(start as int, at - 1));
        } else {
            out.push(slice_of(chars, start, at));
        }
        assert(out.deep_view() =~= before.push(
            without_return(chars@.subrange(start as int, at as int)),
        ));
        start = at + 1;
    }
    out
}

/// `s` without the white space at its start.
pub open spec fn trim_start(s: Seq<char>) -> Seq<char>
    decreases s.len(),
{
    if s.len() > 0 && is_space(s[0]) {
        trim_start(s.drop_first())
    } else {
        s
    }
}

/// `s` without the white space at its end.
pub open spec fn trim_end(s: Seq<char>) -> Seq<char>
    decreases s.len(),
{
    if s.len() > 0 && is_space(s.last()) {
        trim_end(s.drop_last())
    } else {
        s
    }
}

/// `s` without the white space at both ends.
pub open spec fn trim(s: Seq<char>) -> Seq<char> {
    trim_end(trim_start(s))
}

/// How many white-space characters stand at the start of `chars`.
pub fn leading_space(chars: &[char]) -> (r: usize)
    ensures
        r <= chars@.len(),
        trim_start(chars@) == chars@.subrange(r as int, chars@.len() as int),
        forall|k: int| 0 <= k < r ==> is_space(chars@[k]),
        r < chars@.len() ==> !is_space(chars@[r as int]),
{
    let mut i: usize = 0;
    assert(chars@.subrange(0, chars@.len() as int) =~= chars@);
    while i < chars.len() && chars[i].is_whitespace()
        invariant
            i <= chars@.len(),
            trim_start(chars@) == trim_start(chars@.subrange(i as int, chars@.len() as int)),
            forall|k: int| 0 <= k < i ==> is_space(chars@[k]),
        decreases chars@.len() - i,
    {
        assert(chars@.subrange(i as int, chars@.len() as int).drop_first()
            =~= chars@.subrange(i + 1, chars@.len() as int));
        i += 1;
    }
    i
}

/// `chars` without the white space at both ends.
pub fn trimmed(chars: &[char]) -> (r: Vec<char>)
    ensures
        r@ == trim(chars@),
{
    let start = leading_space(chars);
    let mut end: usize = chars.len();
    let ghost rest = chars@.subrange(start as int, chars@.len() as int);
    while end > start && chars[end - 1].is_whitespace()
        invariant
            start <= end <= chars@.len(),
            trim_end(rest) == trim_end(chars@.subrange(start as int, end as int)),
        decreases end - start,
    {
        assert(chars@.subrange(start as int, end as int).drop_last()
            =~= chars@.subrange(start as int, end - 1));
        end -= 1;
    }
    slice_of(chars, start, end)
}

/// Whether a text has nothing but white space.
pub open spec fn is_blank(s: Seq<char>) -> bool {
    trim(s).len() == 0
}

/// Whether a text has nothing but white space.
pub fn blank(s: &str) -> (r: bool)
    ensures
        r == is_blank(s@),
{
    let chars = chars_of(s);
    trimmed(&chars).len() == 0
}

/// Whether a text holds a white-space character.
pub open spec fn has_space(s: Seq<char>) -> bool {
    exists|i: int| 0 <= i < s.len() && is_space(#[trigger] s[i])
}

/// Whether a text holds a white-space character.
pub fn contains_space(s: &str) -> (r: bool)
    ensures
        r == has_space(s@),
{
    let chars = chars_of(s);
    let mut i: usize = 0;
    while i < chars.len()
        invariant
            i <= chars@.len(),
            chars@ == s@,
            forall|k: int| 0 <= k < i ==> !is_space(#[trigger] chars@[k]),
        decreases chars@.len() - i,
    {
        if chars[i].is_whitespace() {
            assert(is_space(s@[i as int]));
            return true;
        }
        i += 1;
    }
    false
}

/// `s` with each `from` replaced by the characters `to`.
pub open spec fn replace(s: Seq<char>, from: char, to: Seq<char>) -> Seq<char>
    decreases s.len(),
{
    if s.len() == 0 {
        s
    } else if s.last() == from {
        replace(s.drop_last(), from, to) + to
    } else {
        replace(s.drop_last(), from, to).push(s.last())
    }
}

/// `chars` with each `from` replaced by the characters of `to`.
pub fn replaced(chars: &[char], from: char, to: &str) -> (r: Vec<char>)
    ensures
        r@ == replace(chars@, from, to@),
{
    let with = chars_of(to);
    let mut out: Vec<char> = Vec::new();
    let mut i: usize = 0;
    while i < chars.len()
        invariant
            i <= chars@.len(),
            with@ == to@,
            out@ == replace(chars@.take(i as int), from, to@),
        decreases chars@.len() - i,
    {
        assert(chars@.take(i + 1).drop_last() =~= chars@.take(i as int));
        if chars[i] == from {
            push_chars(&mut out, &with);
        } else {
            out.push(chars[i]);
        }
        i += 1;
    }
    assert(chars@.take(chars@.len() as int) =~= chars@);
    out
}

/// Appends `more` to `out`.
pub fn push_chars(out: &mut Vec<char>, more: &[char])
    ensures
        final(out)@ == old(out)@ + more@,
{
    let mut i: usize = 0;
    while i < more.len()
        invariant
            i <= more@.len(),
            out@ == old(out)@ + more@.take(i as int),
        decreases more@.len() - i,
    {
        out.push(more[i]);
        assert(more@.take(i as int).push(more@[i as int]) =~= more@.take(i + 1));
        assert(old(out)@ + more@.take(i + 1) =~= (old(out)@ + more@.take(i as int)).push(
            more@[i as int],
        ));
        i += 1;
    }
    assert(more@.take(more@.len() as int) =~= more@);
}

/// `s` with its ASCII letters in lower case.
pub open spec fn to_ascii_lower(s: Seq<char>) -> Seq<char> {
    s.map_values(|c: char| ascii_lower(c))
}

/// `c` with an ASCII upper-case letter turned into lower case.
pub fn lower_ascii_char(c: char) -> (r: char)
    ensures
        r == ascii_lower(c),
{
    if 'A' <= c && c <= 'Z' {
        ((c as u8) + 32) as char
    } else {
        c
    }
}

/// `chars` with its ASCII letters in lower case.
pub fn lower_ascii(chars: &[char]) -> (r: Vec<char>)
    ensures
        r@ == to_ascii_lower(chars@),
{
    let mut out: Vec<char> = Vec::new();
    let mut i: usize = 0;
    while i < chars.len()
        invariant
            i <= chars@.len(),
            out@.len() == i,
            forall|k: int| 0 <= k < i ==> out@[k] == ascii_lower(chars@[k]),
        decreases chars@.len() - i,
    {
        out.push(lower_ascii_char(chars[i]));
        i += 1;
    }
    assert(out@ =~= to_ascii_lower(chars@));
    out
}

/// The lower-case mapping of `c` in Unicode.
pub fn lower_char(c: char) -> (r: Vec<char>)
    ensures
        r@ == lower(c),
{
    char_to_lowercase(c)
}

/// The parts put together, with `sep` between them.
pub open spec fn join(parts: Seq<Seq<char>>, sep: Seq<char>) -> Seq<char>
    decreases parts.len(),
{
    if parts.len() == 0 {
        seq![]
    } else if parts.len() == 1 {
        parts[0]
    } else {
        join(parts.drop_last(), sep) + sep + parts.last()
    }
}

/// The texts put together, with `sep` between them.
pub fn join_texts(parts: &Vec<String>, sep: &str) -> (r: String)
    ensures
        r@ == join(parts.deep_view(), sep@),
{
    let mut out = String::new();
    let mut i: usize = 0;
    let ghost all = parts.deep_view();
    while i < parts.len()
        invariant
            i <= parts@.len(),
            all == parts.deep_view(),
            out@ == join(all.take(i as int), sep@),
        decreases parts@.len() - i,
    {
        assert(all.take(i + 1).drop_last() =~= all.take(i as int));
        if i > 0 {
            out.push_str(sep);
            out.push_str(parts[i].as_str());
        } else {
            out.push_str(parts[i].as_str());
            assert(out@ =~= all.take(1)[0]);
        }
        i += 1;
    }
    assert(all.take(all.len() as int) =~= all);
    out
}

/// The lines put together, with a line feed between them.
pub fn join_lines(parts: &[Vec<char>], start: usize, end: usize) -> (r: Vec<char>)
    requires
        start <= end <= parts@.len(),
    ensures
        r@ == join(parts.deep_view().subrange(start as int, end as int), seq!['\n']),
{
    let mut out: Vec<char> = Vec::new();
    let mut i: usize = start;
    let ghost all = parts.deep_view();
    while i < end
        invariant
            start <= i <= end <= parts@.len(),
            all == parts.deep_view(),
            out@ == join(all.subrange(start as int, i as int), seq!['\n']),
        decreases end - i,
    {
        assert(all.subrange(start as int, i + 1).drop_last() =~= all.subrange(
            start as int,
            i as int,
        ));
        if i > start {
            let ghost before = out@;
            out.push('\n');
            assert(out@ =~= before + seq!['\n']);
            push_chars(&mut out, &parts[i]);
        } else {
            push_chars(&mut out, &parts[i]);
            assert(out@ =~= all.subrange(start as int, i + 1)[0]);
        }
        i += 1;
    }
    out
}

/// The decimal digit of `n`.
pub open spec fn digit_char(n: nat) -> char {
    (48 + n % 10) as char
}

/// `n` in decimal.
pub open spec fn decimal(n: nat) -> Seq<char>
    decreases n,
{
    if n < 10 {
        seq![digit_char(n)]
    } else {
        decimal(n / 10).push(digit_char(n))
    }
}

/// `n` in decimal, with a minus sign where it is negative.
pub open spec fn signed_decimal(n: int) -> Seq<char> {
    if n < 0 {
        seq!['-'] + decimal((-n) as nat)
    } else {
        decimal(n as nat)
    }
}

/// `n` in decimal.
pub fn decimal_text(n: u64) -> (r: String)
    ensures
        r@ == decimal(n as nat),
    decreases n,
{
    if n < 10 {
        let mut out = String::new();
        out.push(((48 + n) as u8) as char);
        assert(out@ =~= seq![digit_char(n as nat)]);
        out
    } else {
        let mut out = decimal_text(n / 10);
        out.push(((48 + n % 10) as u8) as char);
        out
    }
}

/// `n` in decimal.
pub fn wide_decimal_text(n: u128) -> (r: String)
    ensures
        r@ == decimal(n as nat),
    decreases n,
{
    if n < 10 {
        let mut out = String::new();
        out.push(((48 + n) as u8) as char);
        assert(out@ =~= seq![digit_char(n as nat)]);
        out
    } else {
        let mut out = wide_decimal_text(n / 10);
        out.push(((48 + n % 10) as u8) as char);
        out
    }
}

/// `n` in decimal, with a minus sign where it is negative.
pub fn signed_decimal_text(n: i64) -> (r: String)
    ensures
        r@ == signed_decimal(n as int),
{
    if n < 0 {
        let magnitude: u64 = (-(n + 1)) as u64 + 1;
        let mut out = String::new();
        out.push('-');
        assert(out@ =~= seq!['-']);
        let digits = decimal_text(magnitude);
        out.push_str(digits.as_str());
        out
    } else {
        decimal_text(n as u64)
    }
}

/// Whether a text is one or more ASCII digits.
pub open spec fn all_digits(s: Seq<char>) -> bool {
    s.len() > 0 && forall|i: int| 0 <= i < s.len() ==> is_digit(#[trigger] s[i])
}

/// The number that the digits of `s` write.
pub open spec fn digits_value(s: Seq<char>) -> nat
    decreases s.len(),
{
    if s.len() == 0 {
        0
    } else {
        digits_value(s.drop_last()) * 10 + (s.last() as u32 - 48) as nat
    }
}

/// Appending digits makes the value no smaller.
proof fn lemma_digits_value_grows(s: Seq<char>, n: int)
    requires
        0 <= n <= s.len(),
    ensures
        digits_value(s.take(n)) <= digits_value(s),
    decreases s.len() - n,
{
    if n < s.len() {
        lemma_digits_value_grows(s, n + 1);
        assert(s.take(n + 1).drop_last() =~= s.take(n));
    } else {
        assert(s.take(n) =~= s);
    }
}

/// The value of `chars[start..]` as digits, where it is all digits and at most `limit`.
fn parse_digits(chars: &[char], start: usize, limit: u64) -> (r: Option<u64>)
    requires
        start <= chars@.len(),
    ensures
        ({
            let digits = chars@.subrange(start as int, chars@.len() as int);
            match r {
                Some(v) => all_digits(digits) && digits_value(digits) == v && v <= limit,
                None => !(all_digits(digits) && digits_value(digits) <= limit),
            }
        }),
{
    let ghost digits = chars@.subrange(start as int, chars@.len() as int);
    if start == chars.len() {
        return None;
    }
    let mut value: u64 = 0;
    let mut i: usize = start;
    while i < chars.len()
        invariant
            start <= i <= chars@.len(),
            digits == chars@.subrange(start as int, chars@.len() as int),
            value == digits_value(digits.take(i - start)),
            value <= limit,
            forall|k: int| 0 <= k < i - start ==> is_digit(#[trigger] digits[k]),
        decreases chars@.len() - i,
    {
        let c = chars[i];
        assert(digits[i - start] == c);
        if c < '0' || c > '9' {
            assert(!is_digit(digits[i - start]));
            return None;
        }
        let d: u64 = (c as u32 - 48) as u64;
        proof {
            assert(digits.take(i - start + 1).drop_last() =~= digits.take(i - start));
            lemma_digits_value_grows(digits, i - start + 1);
        }
        let wide: u128 = value as u128 * 10 + d as u128;
        if wide > limit as u128 {
            return None;
        }
        value = wide as u64;
        i += 1;
    }
    assert(digits.take(digits.len() as int) =~= digits);
    Some(value)
}

/// `s` without one plus sign at its start.
pub open spec fn without_plus(s: Seq<char>) -> Seq<char> {
    if s.len() > 0 && s[0] == '+' {
        s.subrange(1, s.len() as int)
    } else {
        s
    }
}

/// The `u32` that `s` writes: digits after an optional plus sign, within range.
pub open spec fn parse_u32(s: Seq<char>) -> Option<u32> {
    let digits = without_plus(s);
    if all_digits(digits) && digits_value(digits) <= u32::MAX {
        Some(digits_value(digits) as u32)
    } else {
        None
    }
}

/// The `u32` that `chars` writes.
pub fn u32_of(chars: &[char]) -> (r: Option<u32>)
    ensures
        r == parse_u32(chars@),
{
    let start: usize = if chars.len() > 0 && chars[0] == '+' {
        1
    } else {
        0
    };
    assert(chars@.subrange(0, chars@.len() as int) =~= chars@);
    match parse_digits(chars, start, u32::MAX as u64) {
        Some(value) => Some(value as u32),
        None => None,
    }
}

/// The `i64` that `s` writes: digits after an optional sign, within range.
pub open spec fn parse_i64(s: Seq<char>) -> Option<i64> {
    if s.len() > 0 && s[0] == '-' {
        let digits = s.subrange(1, s.len() as int);
        if all_digits(digits) && digits_value(digits) <= 0x8000_0000_0000_0000 {
            Some((-digits_value(digits)) as i64)
        } else {
            None
        }
    } else {
        let digits = without_plus(s);
        if all_digits(digits) && digits_value(digits) <= i64::MAX {
            Some(digits_value(digits) as i64)
        } else {
            None
        }
    }
}

/// The `i64` that `chars` writes.
pub fn i64_of(chars: &[char]) -> (r: Option<i64>)
    ensures
        r == parse_i64(chars@),
{
    assert(chars@.subrange(0, chars@.len() as int) =~= chars@);
    if chars.len() > 0 && chars[0] == '-' {
        match parse_digits(chars, 1, 0x8000_0000_0000_0000) {
            Some(value) => {
                if value == 0x8000_0000_0000_0000 {
                    Some(i64::MIN)
                } else {
                    Some(-(value as i64))
                }
            },
            None => None,
        }
    } else {
        let start: usize = if chars.len() > 0 && chars[0] == '+' {
            1
        } else {
            0
        };
        match parse_digits(chars, start, i64::MAX as u64) {
            Some(value) => Some(value as i64),
            None => None,
        }
    }
}

/// How many bytes UTF-8 takes for a character.
pub open spec fn char_width(c: char) -> nat {
    if c <= '\u{7f}' {
        1
    } else if c <= '\u{7ff}' {
        2
    } else if c <= '\u{ffff}' {
        3
    } else {
        4
    }
}

/// How many bytes UTF-8 takes for a text.
pub open spec fn byte_len(s: Seq<char>) -> nat
    decreases s.len(),
{
    if s.len() == 0 {
        0
    } else {
        char_width(s[0]) + byte_len(s.drop_first())
    }
}

/// The bytes of two texts put together are the bytes of each.
pub proof fn lemma_byte_len_add(a: Seq<char>, b: Seq<char>)
    ensures
        byte_len(a + b) == byte_len(a) + byte_len(b),
    decreases a.len(),
{
    if a.len() == 0 {
        assert(a + b =~= b);
    } else {
        assert((a + b).drop_first() =~= a.drop_first() + b);
        lemma_byte_len_add(a.drop_first(), b);
    }
}

/// One more character takes its own bytes.
pub proof fn lemma_byte_len_take(s: Seq<char>, i: int)
    requires
        0 <= i < s.len(),
    ensures
        byte_len(s.take(i + 1)) == byte_len(s.take(i)) + char_width(s[i]),
        byte_len(s.take(i + 1)) <= byte_len(s),
{
    assert(s.take(i + 1) =~= s.take(i) + seq![s[i]]);
    lemma_byte_len_add(s.take(i), seq![s[i]]);
    assert(seq![s[i]].drop_first() =~= Seq::<char>::empty());
    reveal_with_fuel(byte_len, 2);
    assert(s =~= s.take(i + 1) + s.skip(i + 1));
    lemma_byte_len_add(s.take(i + 1), s.skip(i + 1));
}

/// `char_width` is the length of the UTF-8 encoding of a character.
proof fn lemma_char_width(c: char)
    ensures
        vstd::utf8::encode_scalar(c as u32).len() == char_width(c),
{
    vstd::utf8::char_is_scalar(c);
}

/// `byte_len` is the length of the UTF-8 encoding.
pub proof fn lemma_byte_len_utf8(s: Seq<char>)
    ensures
        byte_len(s) == vstd::utf8::encode_utf8(s).len(),
    decreases s.len(),
{
    if s.len() > 0 {
        lemma_byte_len_utf8(s.drop_first());
        lemma_char_width(s[0]);
        let first = vstd::utf8::encode_scalar(s[0] as u32);
        let rest = vstd::utf8::encode_utf8(s.drop_first());
        assert(vstd::utf8::encode_utf8(s) == first + rest);
    }
}

/// How many bytes UTF-8 takes for a character.
pub fn width_of(c: char) -> (r: usize)
    ensures
        r == char_width(c),
{
    if c <= '\u{7f}' {
        1
    } else if c <= '\u{7ff}' {
        2
    } else if c <= '\u{ffff}' {
        3
    } else {
        4
    }
}

/// How many bytes UTF-8 takes for a text.
pub fn byte_length(text: &str) -> (r: usize)
    ensures
        r == byte_len(text@),
{
    proof {
        lemma_byte_len_utf8(text@);
    }
    text.as_bytes().len()
}

/// How many bytes UTF-8 takes for the first `n` characters of a text.
pub fn byte_offset(text: &str, chars: &[char], n: usize) -> (r: usize)
    requires
        chars@ == text@,
        n <= chars@.len(),
    ensures
        r == byte_len(text@.take(n as int)),
        r <= byte_len(text@),
{
    let total = byte_length(text);
    let mut sum: usize = 0;
    let mut i: usize = 0;
    assert(text@.take(0) =~= Seq::<char>::empty());
    while i < n
        invariant
            i <= n <= chars@.len(),
            chars@ == text@,
            total == byte_len(text@),
            sum == byte_len(text@.take(i as int)),
            sum <= total,
        decreases n - i,
    {
        proof {
            lemma_byte_len_take(text@, i as int);
        }
        sum += width_of(chars[i]);
        i += 1;
    }
    sum
}

/// The order of texts: by the first character that differs, a prefix before what it starts.
pub open spec fn text_less(a: Seq<char>, b: Seq<char>) -> bool
    decreases a.len(),
{
    if b.len() == 0 {
        false
    } else if a.len() == 0 {
        true
    } else if a[0] != b[0] {
        a[0] < b[0]
    } else {
        text_less(a.drop_first(), b.drop_first())
    }
}

/// No text is before itself.
pub proof fn lemma_text_less_irreflexive(a: Seq<char>)
    ensures
        !text_less(a, a),
    decreases a.len(),
{
    if a.len() > 0 {
        lemma_text_less_irreflexive(a.drop_first());
    }
}

/// The order of texts is transitive.
pub proof fn lemma_text_less_transitive(a: Seq<char>, b: Seq<char>, c: Seq<char>)
    requires
        text_less(a, b),
        text_less(b, c),
    ensures
        text_less(a, c),
    decreases a.len(),
{
    if a.len() > 0 && a[0] == b[0] && b[0] == c[0] {
        lemma_text_less_transitive(a.drop_first(), b.drop_first(), c.drop_first());
    }
}

/// Of two different texts one is before the other.
pub proof fn lemma_text_less_total(a: Seq<char>, b: Seq<char>)
    ensures
        a == b || text_less(a, b) || text_less(b, a),
        !(text_less(a, b) && text_less(b, a)),
    decreases a.len(),
{
    if a.len() > 0 && b.len() > 0 && a[0] == b[0] {
        lemma_text_less_total(a.drop_first(), b.drop_first());
        if a.drop_first() == b.drop_first() {
            assert(a =~= seq![a[0]] + a.drop_first());
            assert(b =~= seq![b[0]] + b.drop_first());
        }
    } else if a.len() == 0 && b.len() == 0 {
        assert(a =~= b);
    }
}

/// Whether `a` is before `b` in the order of texts.
pub fn text_before(a: &str, b: &str) -> (r: bool)
    ensures
        r == text_less(a@, b@),
{
    let x = chars_of(a);
    let y = chars_of(b);
    let mut i: usize = 0;
    assert(x@.subrange(0, x@.len() as int) =~= x@);
    assert(y@.subrange(0, y@.len() as int) =~= y@);
    while i < x.len() && i < y.len()
        invariant
            x@ == a@,
            y@ == b@,
            i <= x@.len(),
            i <= y@.len(),
            text_less(x@, y@) == text_less(
                x@.subrange(i as int, x@.len() as int),
                y@.subrange(i as int, y@.len() as int),
            ),
        decreases x@.len() - i,
    {
        assert(x@.subrange(i as int, x@.len() as int)[0] == x@[i as int]);
        assert(y@.subrange(i as int, y@.len() as int)[0] == y@[i as int]);
        if x[i] != y[i] {
            return x[i] < y[i];
        }
        assert(x@.subrange(i as int, x@.len() as int).drop_first() =~= x@.subrange(
            i + 1,
            x@.len() as int,
        ));
        assert(y@.subrange(i as int, y@.len() as int).drop_first() =~= y@.subrange(
            i + 1,
            y@.len() as int,
        ));
        i += 1;
    }
    i < y.len()
}

/// Reads bytes with `std::str::from_utf8`: as the text that they are in UTF-8, or as none.
#[verifier::external_body]
pub(crate) fn text_of_bytes(bytes: &[u8]) -> (r: Option<String>)
    ensures
        match r {
            Some(text) => vstd::utf8::valid_utf8(bytes@) && text@ == vstd::utf8::decode_utf8(
                bytes@,
            ),
            None => !vstd::utf8::valid_utf8(bytes@),
        },
{
    std::str::from_utf8(bytes).ok().map(|text| text.to_string())
}

} // verus!

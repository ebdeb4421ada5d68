//! Annotations in source files: anchors, memberships in strands, and relations, written in
//! comments behind a marker.

use vstd::prelude::*;

use crate::collections::{StringMap, StringSet};
use crate::config::{climbs, has_empty, path_climbs, AnnotationConfig, AnnotationConfigView};
use crate::digest::{hash_text, text_hash};
use crate::model::{
    Anchor, AnchorView, Attributes, Diagnostic, DiagnosticView, IndexedMember, IndexedMemberView,
    IndexedRelation, IndexedRelationView, Location, LocationView, Member, MemberView, Provenance,
    ProvenanceView, Relation, RelationView, Severity, Strand, StrandView, Value, ValueView,
    WatchMode,
};
use crate::paths::extension;
use crate::source_span::{engine_for, file_resolution, supports_dynamic, Resolver, Span};
use crate::text::{
    chars_are, chars_of, debug_quoted, debug_text, find, find_from, i64_of, index_from, index_of,
    is_ascii_word, lines, lines_of, lower_ascii, match_at, matches_at, parse_i64, parse_u32,
    replace, replaced, same_text, signed_decimal, signed_decimal_text, slice_of, split, split_on,
    string_of, substring, to_ascii_lower, trim, trimmed, u32_of,
};
use crate::views::{outcome, push_item, Duplicate};

verus! {

broadcast use crate::views::lemma_chars_deep_view;

/// What the annotations of a file say.
#[derive(Debug, Clone, PartialEq)]
pub struct AnnotationScan {
    /// The anchors.
    pub anchors: Vec<(Anchor, Provenance)>,
    /// The strands.
    pub strands: Vec<(Strand, Provenance)>,
    /// The memberships.
    pub memberships: Vec<IndexedMember>,
    /// The relations.
    pub relations: Vec<IndexedRelation>,
    /// What is the matter with the annotations.
    pub diagnostics: Vec<Diagnostic>,
}

/// The mathematical content of a [`AnnotationScan`].
#[verifier::ext_equal]
pub ghost struct AnnotationScanView {
    pub anchors: Seq<(AnchorView, ProvenanceView)>,
    pub strands: Seq<(StrandView, ProvenanceView)>,
    pub memberships: Seq<IndexedMemberView>,
    pub relations: Seq<IndexedRelationView>,
    pub diagnostics: Seq<DiagnosticView>,
}

impl View for AnnotationScan {
    type V = AnnotationScanView;

    open spec fn view(&self) -> AnnotationScanView {
        AnnotationScanView {
            anchors: self.anchors.deep_view(),
            strands: self.strands.deep_view(),
            memberships: self.memberships.deep_view(),
            relations: self.relations.deep_view(),
            diagnostics: self.diagnostics.deep_view(),
        }
    }
}

impl DeepView for AnnotationScan {
    type V = AnnotationScanView;

    open spec fn deep_view(&self) -> AnnotationScanView {
        self@
    }
}

impl Duplicate for AnnotationScan {
    fn duplicate(&self) -> (r: Self) {
        AnnotationScan {
            anchors: self.anchors.duplicate(),
            strands: self.strands.duplicate(),
            memberships: self.memberships.duplicate(),
            relations: self.relations.duplicate(),
            diagnostics: self.diagnostics.duplicate(),
        }
    }
}

/// What an annotation is about.
#[derive(Debug, Clone, Copy, PartialEq, Eq, Structural)]
pub enum MarkerKind {
    /// An anchor.
    Anchor,
    /// A membership in a strand.
    Strand,
    /// A relation.
    Relation,
}

impl DeepView for MarkerKind {
    type V = MarkerKind;

    open spec fn deep_view(&self) -> MarkerKind {
        *self
    }
}

impl Duplicate for MarkerKind {
    fn duplicate(&self) -> (r: Self) {
        *self
    }
}

/// The words of a text as a shell would split it, or nothing where a quote stays open.
pub uninterp spec fn shell_words(text: Seq<char>) -> Option<Seq<Seq<char>>>;

/// Splits a text with `shlex::split`: into words by the rules of a POSIX shell for quotes, backslashes
/// and comments. The rules themselves are left to that function.
#[verifier::external_body]
fn shell_split(text: &str) -> (r: Option<Vec<String>>)
    ensures
        r.deep_view() == shell_words(text@),
{
    shlex::split(text)
}

/// The JSON text of the number that a text writes, or nothing where it writes none that JSON
/// has.
pub uninterp spec fn json_number(text: Seq<char>) -> Option<Seq<char>>;

/// Reads a text as a floating-point number and writes it as JSON, with `str::parse` and
/// `serde_json::Number::from_f64`. Which texts are numbers, and how one is written, is left
/// to those functions.
#[verifier::external_body]
fn json_number_text(text: &str) -> (r: Option<String>)
    ensures
        r.deep_view() == json_number(text@),
{
    serde_json::Number::from_f64(text.parse().ok()?).map(|number| number.to_string())
}

/// The value that a text stands for: a truth value, nothing, a number, or the text itself.
pub open spec fn scalar_value(text: Seq<char>) -> ValueView {
    if to_ascii_lower(text) == "true"@ {
        ValueView::Bool(true)
    } else if to_ascii_lower(text) == "false"@ {
        ValueView::Bool(false)
    } else if to_ascii_lower(text) == "null"@ {
        ValueView::Null
    } else {
        match parse_i64(text) {
            Some(number) => ValueView::Integer(number),
            None => match json_number(text) {
                Some(number) => ValueView::Decimal(number),
                None => ValueView::Text(text),
            },
        }
    }
}

/// The value that a text stands for.
pub fn scalar(text: &str) -> (r: Value)
    ensures
        r@ == scalar_value(text@),
{
    let chars = chars_of(text);
    let lower = lower_ascii(&chars);
    if chars_are(&lower, "true") {
        Value::Bool(true)
    } else if chars_are(&lower, "false") {
        Value::Bool(false)
    } else if chars_are(&lower, "null") {
        Value::Null
    } else {
        match i64_of(&chars) {
            Some(number) => Value::Integer(number),
            None => match json_number_text(text) {
                Some(number) => Value::Decimal(number),
                None => Value::Text(text.to_owned()),
            },
        }
    }
}

/// What the words of an annotation say: the words without `=`, and the attributes.
#[verifier::ext_equal]
pub ghost struct TokensView {
    pub positionals: Seq<Seq<char>>,
    pub values: Map<Seq<char>, ValueView>,
}

/// What the first `n` words of an annotation say.
pub open spec fn word_tokens(words: Seq<Seq<char>>, n: int) -> Result<TokensView, Seq<char>>
    decreases n,
{
    if n <= 0 {
        Ok(TokensView { positionals: seq![], values: Map::empty() })
    } else {
        match word_tokens(words, n - 1) {
            Err(message) => Err(message),
            Ok(before) => {
                let word = words[n - 1];
                let at = index_from(word, '=', 0);
                if at >= word.len() {
                    Ok(TokensView { positionals: before.positionals.push(word), ..before })
                } else if at == 0 {
                    Err("annotation attribute name cannot be empty"@)
                } else {
                    Ok(
                        TokensView {
                            values: before.values.insert(
                                word.take(at),
                                scalar_value(word.skip(at + 1)),
                            ),
                            ..before
                        },
                    )
                }
            },
        }
    }
}

/// Once the words of an annotation are wrong, they stay so.
proof fn lemma_word_error(words: Seq<Seq<char>>, n: int, m: int)
    requires
        n <= m,
        word_tokens(words, n) is Err,
    ensures
        word_tokens(words, m) == word_tokens(words, n),
    decreases m - n,
{
    if n < m {
        lemma_word_error(words, n, m - 1);
    }
}

/// What an annotation says.
pub open spec fn body_tokens(body: Seq<char>) -> Result<TokensView, Seq<char>> {
    match shell_words(body) {
        None => Err("unclosed quote in annotation"@),
        Some(words) => word_tokens(words, words.len() as int),
    }
}

/// What the words of an annotation say: the words without `=`, and the attributes.
pub struct Tokens {
    /// The words without `=`.
    pub positionals: Vec<String>,
    /// The attributes.
    pub values: Attributes,
}

impl DeepView for Tokens {
    type V = TokensView;

    open spec fn deep_view(&self) -> TokensView {
        TokensView { positionals: self.positionals.deep_view(), values: self.values@ }
    }
}

/// What words of an annotation say, given the words.
pub fn tokens_of_words(words: &Vec<String>) -> (r: Result<Tokens, String>)
    ensures
        outcome(r) == word_tokens(words.deep_view(), words@.len() as int),
{
    let mut positionals: Vec<String> = Vec::new();
    let mut values: Attributes = StringMap::new();
    let mut i: usize = 0;
    let ghost all = words.deep_view();
    assert(positionals.deep_view() =~= seq![]);
    while i < words.len()
        invariant
            i <= words@.len(),
            all == words.deep_view(),
            word_tokens(all, i as int) == Ok::<TokensView, Seq<char>>(
                (TokensView { positionals: positionals.deep_view(), values: values@ }),
            ),
        decreases words@.len() - i,
    {
        let word = chars_of(words[i].as_str());
        assert(all[i as int] == word@);
        let at = index_of(&word, '=', 0);
        if at == word.len() {
            push_item(&mut positionals, words[i].clone());
        } else if at == 0 {
            proof {
                lemma_word_error(all, i + 1, all.len() as int);
            }
            return Err("annotation attribute name cannot be empty".to_owned());
        } else {
            let key = substring(&word, 0, at);
            let value = substring(&word, at + 1, word.len());
            assert(key@ =~= word@.take(at as int));
            assert(value@ =~= word@.skip(at + 1));
            values.insert(key, scalar(value.as_str()));
        }
        i += 1;
    }
    Ok(Tokens { positionals, values })
}

/// What an annotation says.
fn tokens(body: &str) -> (r: Result<Tokens, String>)
    ensures
        outcome(r) == body_tokens(body@),
{
    match shell_split(body) {
        None => Err("unclosed quote in annotation".to_owned()),
        Some(words) => tokens_of_words(&words),
    }
}

/// A value written as text.
pub open spec fn value_text(value: ValueView) -> Seq<char> {
    match value {
        ValueView::Null => "null"@,
        ValueView::Bool(b) => if b {
            "true"@
        } else {
            "false"@
        },
        ValueView::Integer(n) => signed_decimal(n as int),
        ValueView::Decimal(t) => t,
        ValueView::Text(t) => t,
        ValueView::Json(t) => t,
    }
}

/// A value written as text.
fn text_of_value(value: Value) -> (r: String)
    ensures
        r@ == value_text(value@),
{
    match value {
        Value::Null => "null".to_owned(),
        Value::Bool(b) => if b {
            "true".to_owned()
        } else {
            "false".to_owned()
        },
        Value::Integer(n) => signed_decimal_text(n),
        Value::Decimal(t) => t,
        Value::Text(t) => t,
        Value::Json(t) => t,
    }
}

/// The attribute `name`, written as text.
pub open spec fn text_at(values: Map<Seq<char>, ValueView>, name: Seq<char>) -> Option<Seq<char>> {
    if values.contains_key(name) {
        Some(value_text(values[name]))
    } else {
        None
    }
}

/// Takes the attribute `name` out, written as text.
fn take_string(values: &mut Attributes, name: &str) -> (r: Option<String>)
    ensures
        final(values)@ == old(values)@.remove(name@),
        r.deep_view() == text_at(old(values)@, name@),
{
    match values.take(name) {
        Some(value) => Some(text_of_value(value)),
        None => None,
    }
}

/// The attribute `name` as a truth value.
pub open spec fn bool_at(values: Map<Seq<char>, ValueView>, name: Seq<char>) -> Result<
    Option<bool>,
    Seq<char>,
> {
    if !values.contains_key(name) {
        Ok(None)
    } else {
        match values[name] {
            ValueView::Bool(b) => Ok(Some(b)),
            ValueView::Text(t) => if to_ascii_lower(t) == "true"@ {
                Ok(Some(true))
            } else if to_ascii_lower(t) == "false"@ {
                Ok(Some(false))
            } else {
                Err(name + " must be true or false"@)
            },
            _ => Err(name + " must be true or false"@),
        }
    }
}

/// Takes the attribute `name` out, as a truth value.
fn take_bool(values: &mut Attributes, name: &str) -> (r: Result<Option<bool>, String>)
    ensures
        final(values)@ == old(values)@.remove(name@),
        outcome(r) == bool_at(old(values)@, name@),
{
    let value = match values.take(name) {
        None => {
            return Ok(None);
        },
        Some(value) => value,
    };
    match &value {
        Value::Bool(b) => {
            return Ok(Some(*b));
        },
        Value::Text(t) => {
            let lower = lower_ascii(&chars_of(t.as_str()));
            if chars_are(&lower, "true") {
                return Ok(Some(true));
            }
            if chars_are(&lower, "false") {
                return Ok(Some(false));
            }
        },
        _ => {},
    }
    let mut message = name.to_owned();
    message.push_str(" must be true or false");
    Err(message)
}

/// The attribute `name` as a line number.
pub open spec fn u32_at(values: Map<Seq<char>, ValueView>, name: Seq<char>) -> Result<
    Option<u32>,
    Seq<char>,
> {
    let message = name + " must be a positive 32-bit integer"@;
    if !values.contains_key(name) {
        Ok(None)
    } else {
        match values[name] {
            ValueView::Integer(n) => if 0 <= n <= u32::MAX {
                Ok(Some(n as u32))
            } else {
                Err(message)
            },
            ValueView::Text(t) => match parse_u32(t) {
                Some(n) => Ok(Some(n)),
                None => Err(message),
            },
            _ => Err(message),
        }
    }
}

/// Takes the attribute `name` out, as a line number.
fn take_u32(values: &mut Attributes, name: &str) -> (r: Result<Option<u32>, String>)
    ensures
        final(values)@ == old(values)@.remove(name@),
        outcome(r) == u32_at(old(values)@, name@),
{
    let value = match values.take(name) {
        None => {
            return Ok(None);
        },
        Some(value) => value,
    };
    match &value {
        Value::Integer(n) => {
            if 0 <= *n && *n <= u32::MAX as i64 {
                return Ok(Some(*n as u32));
            }
        },
        Value::Text(t) => match u32_of(&chars_of(t.as_str())) {
            Some(n) => {
                return Ok(Some(n));
            },
            None => {},
        },
        _ => {},
    }
    let mut message = name.to_owned();
    message.push_str(" must be a positive 32-bit integer");
    Err(message)
}

/// The parts among the first `n`, trimmed, that are not empty.
pub open spec fn filled_parts(parts: Seq<Seq<char>>, n: int) -> Set<Seq<char>>
    decreases n,
{
    if n <= 0 {
        Set::empty()
    } else if trim(parts[n - 1]).len() == 0 {
        filled_parts(parts, n - 1)
    } else {
        filled_parts(parts, n - 1).insert(trim(parts[n - 1]))
    }
}

/// The texts that commas separate, trimmed, without empty ones.
pub open spec fn comma_set(text: Seq<char>) -> Set<Seq<char>> {
    let parts = split(text, ',');
    filled_parts(parts, parts.len() as int)
}

/// The texts that commas separate, trimmed, without empty ones.
pub fn split_commas(text: &str) -> (r: StringSet)
    ensures
        r@ == comma_set(text@),
{
    let chars = chars_of(text);
    let parts = split_on(&chars, ',');
    let mut out = StringSet::new();
    let mut i: usize = 0;
    let ghost all = parts.deep_view();
    while i < parts.len()
        invariant
            i <= parts@.len(),
            all == parts.deep_view(),
            out@ == filled_parts(all, i as int),
        decreases parts@.len() - i,
    {
        assert(all[i as int] == parts@[i as int]@);
        let part = trimmed(&parts[i]);
        if part.len() != 0 {
            let _ = out.insert(string_of(&part));
        }
        i += 1;
    }
    out
}

/// The attribute `name` as a set of texts.
pub open spec fn set_at(values: Map<Seq<char>, ValueView>, name: Seq<char>) -> Set<Seq<char>> {
    match text_at(values, name) {
        Some(text) => comma_set(text),
        None => Set::empty(),
    }
}

/// Takes the attribute `name` out, as a set of texts.
fn take_set(values: &mut Attributes, name: &str) -> (r: StringSet)
    ensures
        final(values)@ == old(values)@.remove(name@),
        r@ == set_at(old(values)@, name@),
{
    match take_string(values, name) {
        Some(text) => split_commas(text.as_str()),
        None => StringSet::new(),
    }
}

/// The watch mode that a text names.
pub open spec fn watch_named(text: Seq<char>) -> Result<WatchMode, Seq<char>> {
    if text == "file"@ {
        Ok(WatchMode::File)
    } else if text == "line"@ {
        Ok(WatchMode::Line)
    } else if text == "range"@ {
        Ok(WatchMode::Range)
    } else if text == "node"@ {
        Ok(WatchMode::Node)
    } else {
        Err("unknown watch mode "@ + debug_quoted(text) + "; use file, line, range, or node"@)
    }
}

/// The watch mode that a text names.
pub fn parse_watch(text: &str) -> (r: Result<WatchMode, String>)
    ensures
        outcome(r) == watch_named(text@),
{
    if same_text(text, "file") {
        Ok(WatchMode::File)
    } else if same_text(text, "line") {
        Ok(WatchMode::Line)
    } else if same_text(text, "range") {
        Ok(WatchMode::Range)
    } else if same_text(text, "node") {
        Ok(WatchMode::Node)
    } else {
        let mut message = "unknown watch mode ".to_owned();
        message.push_str(debug_text(text).as_str());
        message.push_str("; use file, line, range, or node");
        Err(message)
    }
}

/// A text without the letters `L` at its start.
pub open spec fn without_l(s: Seq<char>) -> Seq<char>
    decreases s.len(),
{
    if s.len() > 0 && s[0] == 'L' {
        without_l(s.drop_first())
    } else {
        s
    }
}

/// The line range that a text writes: one line, or two with `-` between them, behind any
/// number of letters `L`.
pub open spec fn range_named(text: Seq<char>) -> Result<(u32, u32), Seq<char>> {
    let s = without_l(text);
    let at = index_from(s, '-', 0);
    let (first, last) = if at < s.len() {
        (s.take(at), s.skip(at + 1))
    } else {
        (s, s)
    };
    match (parse_u32(first), parse_u32(last)) {
        (Some(start), Some(end)) => if start == 0 || end < start {
            Err("invalid line range "@ + debug_quoted(text))
        } else {
            Ok((start, end))
        },
        _ => Err("invalid line range "@ + debug_quoted(text)),
    }
}

/// The line range that a text writes.
pub fn parse_range(text: &str) -> (r: Result<(u32, u32), String>)
    ensures
        outcome(r) == range_named(text@),
{
    let chars = chars_of(text);
    let mut start: usize = 0;
    assert(chars@.skip(0) =~= chars@);
    while start < chars.len() && chars[start] == 'L'
        invariant
            start <= chars@.len(),
            without_l(chars@) == without_l(chars@.skip(start as int)),
        decreases chars@.len() - start,
    {
        assert(chars@.skip(start as int).drop_first() =~= chars@.skip(start + 1));
        start += 1;
    }
    let s = slice_of(&chars, start, chars.len());
    assert(s@ =~= chars@.skip(start as int));
    let at = index_of(&s, '-', 0);
    let (first, last): (Vec<char>, Vec<char>) = if at < s.len() {
        let first = slice_of(&s, 0, at);
        let last = slice_of(&s, at + 1, s.len());
        assert(first@ =~= s@.take(at as int));
        assert(last@ =~= s@.skip(at + 1));
        (first, last)
    } else {
        assert(s@.subrange(0, s@.len() as int) =~= s@);
        (slice_of(&s, 0, s.len()), slice_of(&s, 0, s.len()))
    };
    match (u32_of(&first), u32_of(&last)) {
        (Some(start), Some(end)) => {
            if start != 0 && end >= start {
                return Ok((start, end));
            }
        },
        _ => {},
    }
    let mut message = "invalid line range ".to_owned();
    message.push_str(debug_text(text).as_str());
    Err(message)
}

/// A path without `./` at its start.
pub open spec fn without_here(s: Seq<char>) -> Seq<char>
    decreases s.len(),
{
    if s.len() >= 2 && s[0] == '.' && s[1] == '/' {
        without_here(s.skip(2))
    } else {
        s
    }
}

/// Whether a path stays in the repository.
pub open spec fn is_repository_path(path: Seq<char>) -> bool {
    path.len() > 0 && path[0] != '/' && !climbs(path)
}

/// The repository path that a text stands for.
pub open spec fn location_path(text: Seq<char>) -> Result<Seq<char>, Seq<char>> {
    let path = without_here(replace(text, '\\', "/"@));
    if is_repository_path(path) {
        Ok(path)
    } else {
        Err("location paths must be repository-relative and may not escape the repository"@)
    }
}

/// The repository path that a text stands for.
pub fn normalize_location_path(text: &str) -> (r: Result<String, String>)
    ensures
        outcome(r) == location_path(text@),
{
    let chars = replaced(&chars_of(text), '\\', "/");
    let mut start: usize = 0;
    assert(chars@.skip(0) =~= chars@);
    while chars.len() - start >= 2 && chars[start] == '.' && chars[start + 1] == '/'
        invariant
            start <= chars@.len(),
            without_here(chars@) == without_here(chars@.skip(start as int)),
        decreases chars@.len() - start,
    {
        assert(chars@.skip(start as int).skip(2) =~= chars@.skip(start + 2));
        start += 2;
    }
    assert(chars@.skip(start as int) =~= chars@.subrange(start as int, chars@.len() as int));
    let path = substring(&chars, start, chars.len());
    if start == chars.len() || chars[start] == '/' || path_climbs(path.as_str()) {
        return Err(
            "location paths must be repository-relative and may not escape the repository".to_owned(),
        );
    }
    Ok(path)
}

/// A normalized location path stays in the repository: it is relative, is not empty and has
/// no part `..`.
pub proof fn normalized_paths_stay_in_the_repository(text: Seq<char>)
    ensures
        location_path(text) matches Ok(path) ==> path.len() > 0 && path[0] != '/' && !split(
            path,
            '/',
        ).contains(".."@),
{
}

/// A line range that an annotation writes starts at line 1 or later and does not end before
/// it starts.
pub proof fn written_ranges_are_ordered(text: Seq<char>)
    ensures
        range_named(text) matches Ok(range) ==> 1 <= range.0 <= range.1,
{
}

/// The first of the names that is an attribute.
pub open spec fn removed_field(values: Map<Seq<char>, ValueView>, names: Seq<Seq<char>>) -> Option<
    Seq<char>,
>
    decreases names.len(),
{
    if names.len() == 0 {
        None
    } else if values.contains_key(names[0]) {
        Some(names[0] + " metadata is not supported"@)
    } else {
        removed_field(values, names.drop_first())
    }
}

/// The message for an attribute that is no longer supported.
fn unsupported(name: &str) -> (r: String)
    ensures
        r@ == name@ + " metadata is not supported"@,
{
    let mut message = name.to_owned();
    message.push_str(" metadata is not supported");
    message
}

/// Refuses a description.
fn reject_description(values: &Attributes) -> (r: Option<String>)
    ensures
        r.deep_view() == removed_field(values@, seq!["description"@]),
{
    proof {
        assert(seq!["description"@].drop_first() =~= seq![]);
        reveal_with_fuel(removed_field, 2);
    }
    if values.contains_key("description") {
        Some(unsupported("description"))
    } else {
        None
    }
}

/// Refuses a rationale or a reason.
fn reject_reasons(values: &Attributes) -> (r: Option<String>)
    ensures
        r.deep_view() == removed_field(values@, seq!["rationale"@, "reason"@]),
{
    proof {
        assert(seq!["rationale"@, "reason"@].drop_first() =~= seq!["reason"@]);
        assert(seq!["reason"@].drop_first() =~= seq![]);
        reveal_with_fuel(removed_field, 3);
    }
    if values.contains_key("rationale") {
        Some(unsupported("rationale"))
    } else if values.contains_key("reason") {
        Some(unsupported("reason"))
    } else {
        None
    }
}

/// Whether a comment ends at position `i`.
pub open spec fn comment_ends(s: Seq<char>, i: int) -> bool {
    ||| matches_at(s, "*/"@, i)
    ||| matches_at(s, "-->"@, i)
    ||| matches_at(s, "*)"@, i)
    ||| matches_at(s, "-/"@, i)
    ||| matches_at(s, "-}"@, i)
    ||| matches_at(s, "#>"@, i)
}

/// The position at which an annotation ends: at the end of its comment outside quotes, or at
/// the end of the text.
pub open spec fn body_end(s: Seq<char>, i: int, quote: Option<char>, escaped: bool) -> int
    decreases s.len() - i,
{
    if i < 0 || i >= s.len() {
        s.len() as int
    } else {
        match quote {
            Some(open) => if escaped {
                body_end(s, i + 1, quote, false)
            } else if s[i] == '\\' {
                body_end(s, i + 1, quote, true)
            } else if s[i] == open {
                body_end(s, i + 1, None, false)
            } else {
                body_end(s, i + 1, quote, false)
            },
            None => if s[i] == '\'' || s[i] == '"' {
                body_end(s, i + 1, Some(s[i]), escaped)
            } else if comment_ends(s, i) {
                i
            } else {
                body_end(s, i + 1, None, escaped)
            },
        }
    }
}

/// What an annotation says, without the end of its comment and without white space around it.
pub open spec fn annotation_text(s: Seq<char>) -> Seq<char> {
    trim(s.take(body_end(s, 0, None, false)))
}

/// Whether a comment ends at position `i`.
fn comment_ends_at(s: &[char], i: usize) -> (r: bool)
    requires
        i < s@.len(),
    ensures
        r == comment_ends(s@, i as int),
{
    match_at(s, &chars_of("*/"), i) || match_at(s, &chars_of("-->"), i) || match_at(
        s,
        &chars_of("*)"),
        i,
    ) || match_at(s, &chars_of("-/"), i) || match_at(s, &chars_of("-}"), i) || match_at(
        s,
        &chars_of("#>"),
        i,
    )
}

/// The position at which an annotation ends.
pub(crate) fn find_body_end(s: &[char]) -> (r: usize)
    ensures
        r == body_end(s@, 0, None, false),
        r <= s@.len(),
{
    let mut quote: Option<char> = None;
    let mut escaped = false;
    let mut i: usize = 0;
    while i < s.len()
        invariant
            i <= s@.len(),
            body_end(s@, 0, None, false) == body_end(s@, i as int, quote, escaped),
        ensures
            i <= s@.len(),
            i == body_end(s@, 0, None, false),
        decreases s@.len() - i,
    {
        let c = s[i];
        match quote {
            Some(open) => {
                if escaped {
                    escaped = false;
                } else if c == '\\' {
                    escaped = true;
                } else if c == open {
                    quote = None;
                }
            },
            None => {
                if c == '\'' || c == '"' {
                    quote = Some(c);
                } else if comment_ends_at(s, i) {
                    break;
                }
            },
        }
        i += 1;
    }
    i
}

/// What an annotation says.
fn annotation_body(s: &[char]) -> (r: Vec<char>)
    ensures
        r@ == annotation_text(s@),
{
    let end: usize = find_body_end(s);
    let cut = slice_of(s, 0, end);
    assert(cut@ =~= s@.take(end as int));
    trimmed(&cut)
}

/// An annotation ends in its text.
pub(crate) proof fn lemma_body_end(s: Seq<char>, i: int, quote: Option<char>, escaped: bool)
    requires
        0 <= i <= s.len(),
    ensures
        i <= body_end(s, i, quote, escaped) <= s.len(),
    decreases s.len() - i,
{
    if i < s.len() {
        match quote {
            Some(open) => if escaped {
                lemma_body_end(s, i + 1, quote, false);
            } else if s[i] == '\\' {
                lemma_body_end(s, i + 1, quote, true);
            } else if s[i] == open {
                lemma_body_end(s, i + 1, None, false);
            } else {
                lemma_body_end(s, i + 1, quote, false);
            },
            None => if s[i] == '\'' || s[i] == '"' {
                lemma_body_end(s, i + 1, Some(s[i]), escaped);
            } else if !comment_ends(s, i) {
                lemma_body_end(s, i + 1, None, escaped);
            },
        }
    }
}

/// Whether a marker may touch `c`.
pub open spec fn is_boundary(c: char) -> bool {
    !(is_ascii_word(c) || c == '_')
}

/// Whether what stands from `start` to `end` is not part of a longer word.
pub open spec fn stands_alone(line: Seq<char>, start: int, end: int) -> bool {
    (start == 0 || is_boundary(line[start - 1])) && (end == line.len() || is_boundary(line[end]))
}

/// The positions of a marker in a line from `from` on, where it stands alone; occurrences do
/// not overlap.
pub open spec fn marker_positions(line: Seq<char>, marker: Seq<char>, from: int) -> Seq<int>
    decreases line.len() - from,
{
    match find_from(line, marker, from) {
        None => seq![],
        Some(at) => {
            let end = at + marker.len();
            if marker.len() == 0 || at < from || end > line.len() {
                seq![]
            } else if stands_alone(line, at, end) {
                seq![at] + marker_positions(line, marker, end)
            } else {
                marker_positions(line, marker, end)
            }
        },
    }
}

/// A marker in a line.
pub ghost struct MarkerView {
    /// Where it stands.
    pub start: int,
    /// How long it is.
    pub len: int,
    /// What it starts.
    pub kind: MarkerKind,
}

/// The markers at the first `n` of some positions.
pub open spec fn placed_markers(positions: Seq<int>, len: int, kind: MarkerKind) -> Seq<MarkerView> {
    positions.map_values(|start: int| MarkerView { start, len, kind })
}

/// The first `n` markers of a kind in a line.
pub open spec fn kind_markers(
    line: Seq<char>,
    markers: Seq<Seq<char>>,
    kind: MarkerKind,
    n: int,
) -> Seq<MarkerView>
    decreases n,
{
    if n <= 0 {
        seq![]
    } else {
        kind_markers(line, markers, kind, n - 1) + placed_markers(
            marker_positions(line, markers[n - 1], 0),
            markers[n - 1].len() as int,
            kind,
        )
    }
}

/// All markers in a line.
pub open spec fn all_markers(line: Seq<char>, config: AnnotationConfigView) -> Seq<MarkerView> {
    kind_markers(
        line,
        config.anchor_markers,
        MarkerKind::Anchor,
        config.anchor_markers.len() as int,
    ) + kind_markers(
        line,
        config.strand_markers,
        MarkerKind::Strand,
        config.strand_markers.len() as int,
    ) + kind_markers(
        line,
        config.relation_markers,
        MarkerKind::Relation,
        config.relation_markers.len() as int,
    )
}

/// The next marker at or behind `from` among the first `n`: the one that starts first, the
/// longest of those, and of those the first.
pub open spec fn next_marker(markers: Seq<MarkerView>, from: int, n: int) -> Option<int>
    decreases n,
{
    if n <= 0 {
        None
    } else {
        let m = markers[n - 1];
        match next_marker(markers, from, n - 1) {
            None => if m.start >= from {
                Some(n - 1)
            } else {
                None
            },
            Some(best) => if m.start >= from && (m.start < markers[best].start || (m.start
                == markers[best].start && m.len > markers[best].len)) {
                Some(n - 1)
            } else {
                Some(best)
            },
        }
    }
}

/// The markers of a line from `from` on that count: each is the next one behind the end of
/// the one before it.
pub open spec fn marker_chain(markers: Seq<MarkerView>, from: int, limit: int) -> Seq<MarkerView>
    decreases limit - from,
{
    match next_marker(markers, from, markers.len() as int) {
        None => seq![],
        Some(i) => {
            let m = markers[i];
            if m.len <= 0 || m.start < from || m.start + m.len > limit {
                seq![]
            } else {
                seq![m] + marker_chain(markers, m.start + m.len, limit)
            }
        },
    }
}

/// The markers of a line that count.
pub open spec fn line_markers(line: Seq<char>, config: AnnotationConfigView) -> Seq<MarkerView> {
    marker_chain(all_markers(line, config), 0, line.len() as int)
}

/// The markers of a line that count are not empty, lie in the line and follow each other.
pub(crate) proof fn lemma_marker_chain(markers: Seq<MarkerView>, from: int, limit: int)
    requires
        0 <= from,
    ensures
        forall|i: int|
            0 <= i < marker_chain(markers, from, limit).len() ==> {
                let m = #[trigger] marker_chain(markers, from, limit)[i];
                m.len > 0 && from <= m.start && m.start + m.len <= limit
            },
        forall|i: int, j: int|
            0 <= i < j < marker_chain(markers, from, limit).len() ==> (
            #[trigger] marker_chain(markers, from, limit)[i]).start + marker_chain(
                markers,
                from,
                limit,
            )[i].len <= (#[trigger] marker_chain(markers, from, limit)[j]).start,
    decreases limit - from,
{
    let all = marker_chain(markers, from, limit);
    match next_marker(markers, from, markers.len() as int) {
        None => {},
        Some(i) => {
            let m = markers[i];
            if m.len > 0 && m.start >= from && m.start + m.len <= limit {
                let rest = marker_chain(markers, m.start + m.len, limit);
                lemma_marker_chain(markers, m.start + m.len, limit);
                assert(all == seq![m] + rest);
                assert forall|k: int| 0 <= k < all.len() implies {
                    let m = #[trigger] all[k];
                    m.len > 0 && from <= m.start && m.start + m.len <= limit
                } by {
                    if k > 0 {
                        assert(all[k] == rest[k - 1]);
                    }
                }
                assert forall|a: int, b: int| 0 <= a < b < all.len() implies (
                #[trigger] all[a]).start + all[a].len <= (#[trigger] all[b]).start by {
                    assert(all[b] == rest[b - 1]);
                    if a > 0 {
                        assert(all[a] == rest[a - 1]);
                    }
                }
            }
        },
    }
}

/// A marker in a line.
pub struct Marker {
    /// Where it stands.
    pub start: usize,
    /// How long it is.
    pub len: usize,
    /// What it starts.
    pub kind: MarkerKind,
}

impl DeepView for Marker {
    type V = MarkerView;

    open spec fn deep_view(&self) -> MarkerView {
        MarkerView { start: self.start as int, len: self.len as int, kind: self.kind }
    }
}

/// Whether the markers are not empty and lie in a line of `limit` characters.
spec fn markers_fit(markers: Seq<MarkerView>, limit: int) -> bool {
    forall|i: int|
        0 <= i < markers.len() ==> (#[trigger] markers[i]).len > 0 && 0 <= markers[i].start
            && markers[i].start + markers[i].len <= limit
}

/// Whether `c` may not touch a marker.
fn joins_word(c: char) -> (r: bool)
    ensures
        r == !is_boundary(c),
{
    ('0' <= c && c <= '9') || ('a' <= c && c <= 'z') || ('A' <= c && c <= 'Z') || c == '_'
}

/// Adds the places of one marker in a line.
fn add_marker_positions(
    line: &[char],
    marker: &Vec<char>,
    kind: MarkerKind,
    found: &mut Vec<Marker>,
)
    requires
        marker@.len() > 0,
        markers_fit(old(found).deep_view(), line@.len() as int),
    ensures
        final(found).deep_view() == old(found).deep_view() + placed_markers(
            marker_positions(line@, marker@, 0),
            marker@.len() as int,
            kind,
        ),
        markers_fit(final(found).deep_view(), line@.len() as int),
{
    let mut offset: usize = 0;
    let total: usize = line.len();
    let ghost all = marker_positions(line@, marker@, 0);
    let ghost mut done: Seq<int> = seq![];
    let ghost before = found.deep_view();
    let ghost len = marker@.len() as int;
    assert(before + placed_markers(done, len, kind) =~= before);
    loop
        invariant
            total == line@.len(),
            marker@.len() > 0,
            len == marker@.len(),
            offset <= line@.len(),
            done + marker_positions(line@, marker@, offset as int) =~= all,
            found.deep_view() == before + placed_markers(done, len, kind),
            markers_fit(found.deep_view(), line@.len() as int),
        ensures
            found.deep_view() == before + placed_markers(all, len, kind),
            markers_fit(found.deep_view(), line@.len() as int),
        decreases line@.len() - offset,
    {
        match find(line, marker, offset) {
            None => {
                assert(done =~= all);
                break;
            },
            Some(start) => {
                let end: usize = start + marker.len();
                let left = start == 0 || !joins_word(line[start - 1]);
                let right = end == line.len() || !joins_word(line[end]);
                if left && right {
                    let ghost shown = found.deep_view();
                    push_item(found, Marker { start, len: marker.len(), kind });
                    proof {
                        let next = done.push(start as int);
                        assert(found.deep_view() =~= before + placed_markers(next, len, kind));
                        assert(next + marker_positions(line@, marker@, end as int) =~= all);
                        done = next;
                        assert forall|i: int| 0 <= i < found.deep_view().len() implies (
                        #[trigger] found.deep_view()[i]).len > 0 && 0
                            <= found.deep_view()[i].start && found.deep_view()[i].start
                            + found.deep_view()[i].len <= line@.len() by {
                            if i < shown.len() {
                                assert(found.deep_view()[i] == shown[i]);
                            }
                        }
                    }
                }
                offset = end;
            },
        }
    }
}

/// Adds the places of the markers of one kind in a line.
fn add_kind_markers(
    line: &[char],
    markers: &Vec<Vec<char>>,
    kind: MarkerKind,
    found: &mut Vec<Marker>,
)
    requires
        !has_empty(markers.deep_view()),
        markers_fit(old(found).deep_view(), line@.len() as int),
    ensures
        final(found).deep_view() == old(found).deep_view() + kind_markers(
            line@,
            markers.deep_view(),
            kind,
            markers@.len() as int,
        ),
        markers_fit(final(found).deep_view(), line@.len() as int),
{
    let mut i: usize = 0;
    let ghost before = found.deep_view();
    let ghost all = markers.deep_view();
    assert(before + kind_markers(line@, all, kind, 0) =~= before);
    while i < markers.len()
        invariant
            i <= markers@.len(),
            all == markers.deep_view(),
            !has_empty(all),
            found.deep_view() == before + kind_markers(line@, all, kind, i as int),
            markers_fit(found.deep_view(), line@.len() as int),
        decreases markers@.len() - i,
    {
        assert(all[i as int] == markers@[i as int]@);
        assert(all[i as int].len() != 0);
        add_marker_positions(line, &markers[i], kind, found);
        assert(found.deep_view() =~= before + kind_markers(line@, all, kind, i + 1));
        i += 1;
    }
}

/// The markers of a configuration, as characters.
struct MarkerTexts {
    anchors: Vec<Vec<char>>,
    strands: Vec<Vec<char>>,
    relations: Vec<Vec<char>>,
}

/// Texts as characters.
pub(crate) fn all_chars(texts: &Vec<String>) -> (r: Vec<Vec<char>>)
    ensures
        r.deep_view() == texts.deep_view(),
{
    let mut out: Vec<Vec<char>> = Vec::new();
    let mut i: usize = 0;
    while i < texts.len()
        invariant
            i <= texts@.len(),
            out@.len() == i,
            forall|k: int| 0 <= k < i ==> #[trigger] out.deep_view()[k] == texts.deep_view()[k],
        decreases texts@.len() - i,
    {
        let ghost before = out.deep_view();
        push_item(&mut out, chars_of(texts[i].as_str()));
        assert forall|k: int| 0 <= k < i + 1 implies #[trigger] out.deep_view()[k]
            == texts.deep_view()[k] by {
            if k < i {
                assert(out.deep_view()[k] == before[k]);
            }
        }
        i += 1;
    }
    assert(out.deep_view() =~= texts.deep_view());
    out
}

/// The markers of a configuration, as characters.
fn markers(config: &AnnotationConfig) -> (r: MarkerTexts)
    ensures
        r.anchors.deep_view() == config@.anchor_markers,
        r.strands.deep_view() == config@.strand_markers,
        r.relations.deep_view() == config@.relation_markers,
{
    MarkerTexts {
        anchors: all_chars(&config.anchor_markers),
        strands: all_chars(&config.strand_markers),
        relations: all_chars(&config.relation_markers),
    }
}

/// The next marker at or behind `from`.
fn find_next_marker(found: &Vec<Marker>, from: usize) -> (r: Option<usize>)
    ensures
        match r {
            Some(i) => i < found@.len() && next_marker(
                found.deep_view(),
                from as int,
                found@.len() as int,
            ) == Some(i as int) && found@[i as int].start >= from,
            None => next_marker(found.deep_view(), from as int, found@.len() as int) is None,
        },
{
    let mut best: Option<usize> = None;
    let mut i: usize = 0;
    let ghost all = found.deep_view();
    while i < found.len()
        invariant
            i <= found@.len(),
            all == found.deep_view(),
            match best {
                Some(b) => b < i && next_marker(all, from as int, i as int) == Some(b as int)
                    && found@[b as int].start >= from,
                None => next_marker(all, from as int, i as int) is None,
            },
        decreases found@.len() - i,
    {
        assert(all[i as int] == found@[i as int].deep_view());
        if found[i].start >= from {
            best = match best {
                None => Some(i),
                Some(b) => {
                    assert(all[b as int] == found@[b as int].deep_view());
                    if found[i].start < found[b].start || (found[i].start == found[b].start
                        && found[i].len > found[b].len) {
                        Some(i)
                    } else {
                        Some(b)
                    }
                },
            };
        }
        i += 1;
    }
    best
}

/// The markers of a line that count.
fn marker_occurrences(line: &[char], texts: &MarkerTexts, Ghost(config): Ghost<
    AnnotationConfigView,
>) -> (r: Vec<Marker>)
    requires
        texts.anchors.deep_view() == config.anchor_markers,
        texts.strands.deep_view() == config.strand_markers,
        texts.relations.deep_view() == config.relation_markers,
        markers_are_filled(config),
    ensures
        r.deep_view() == line_markers(line@, config),
        markers_fit(r.deep_view(), line@.len() as int),
        forall|i: int, j: int|
            0 <= i < j < r@.len() ==> (#[trigger] r@[i]).start + r@[i].len <= (
            #[trigger] r@[j]).start,
{
    let mut found: Vec<Marker> = Vec::new();
    assert(found.deep_view() =~= seq![]);
    add_kind_markers(line, &texts.anchors, MarkerKind::Anchor, &mut found);
    add_kind_markers(line, &texts.strands, MarkerKind::Strand, &mut found);
    add_kind_markers(line, &texts.relations, MarkerKind::Relation, &mut found);
    assert(found.deep_view() =~= all_markers(line@, config));
    let ghost all = found.deep_view();
    let ghost limit = line@.len() as int;
    let mut out: Vec<Marker> = Vec::new();
    let total: usize = line.len();
    let mut from: usize = 0;
    assert(out.deep_view() =~= seq![]);
    loop
        invariant
            total == line@.len(),
            from <= line@.len(),
            limit == line@.len(),
            all == found.deep_view(),
            markers_fit(all, limit),
            markers_fit(out.deep_view(), limit),
            out.deep_view() + marker_chain(all, from as int, limit) =~= marker_chain(all, 0, limit),
            forall|i: int| 0 <= i < out@.len() ==> (#[trigger] out@[i]).start + out@[i].len <= from,
            forall|i: int, j: int|
                0 <= i < j < out@.len() ==> (#[trigger] out@[i]).start + out@[i].len <= (
                #[trigger] out@[j]).start,
        ensures
            markers_fit(out.deep_view(), limit),
            out.deep_view() == marker_chain(all, 0, limit),
            forall|i: int, j: int|
                0 <= i < j < out@.len() ==> (#[trigger] out@[i]).start + out@[i].len <= (
                #[trigger] out@[j]).start,
        decreases line@.len() - from,
    {
        match find_next_marker(&found, from) {
            None => {
                assert(out.deep_view() =~= marker_chain(all, 0, limit));
                break;
            },
            Some(i) => {
                assert(all[i as int] == found@[i as int].deep_view());
                let start = found[i].start;
                let len = found[i].len;
                let kind = found[i].kind;
                let ghost shown = out.deep_view();
                let ghost old_out = out@;
                push_item(&mut out, Marker { start, len, kind });
                proof {
                    assert(out.deep_view() == shown.push(all[i as int]));
                    assert forall|k: int| 0 <= k < out.deep_view().len() implies (
                    #[trigger] out.deep_view()[k]).len > 0 && 0 <= out.deep_view()[k].start
                        && out.deep_view()[k].start + out.deep_view()[k].len <= limit by {
                        if k < shown.len() {
                            assert(out.deep_view()[k] == shown[k]);
                        }
                    }
                    assert forall|k: int| 0 <= k < out@.len() implies (#[trigger] out@[k]).start
                        + out@[k].len <= start + len by {
                        if k < old_out.len() {
                            assert(out@[k] == old_out[k]);
                        }
                    }
                    assert forall|a: int, b: int| 0 <= a < b < out@.len() implies (
                    #[trigger] out@[a]).start + out@[a].len <= (#[trigger] out@[b]).start by {
                        assert(out@[a] == old_out[a]);
                        if b < old_out.len() {
                            assert(out@[b] == old_out[b]);
                        }
                    }
                }
                from = start + len;
            },
        }
    }
    out
}

/// The markers of a line that count.
pub fn find_markers(line: &[char], config: &AnnotationConfig) -> (r: Vec<Marker>)
    requires
        markers_are_filled(config@),
    ensures
        r.deep_view() == line_markers(line@, config@),
        forall|i: int| 0 <= i < r@.len() ==> (#[trigger] r@[i]).start + r@[i].len <= line@.len(),
{
    let texts = markers(config);
    let found = marker_occurrences(line, &texts, Ghost(config@));
    assert forall|i: int| 0 <= i < found@.len() implies (#[trigger] found@[i]).start
        + found@[i].len <= line@.len() by {
        assert(found.deep_view()[i] == found@[i].deep_view());
    }
    found
}

/// Whether no marker of a configuration is empty.
pub open spec fn markers_are_filled(config: AnnotationConfigView) -> bool {
    !has_empty(config.anchor_markers) && !has_empty(config.strand_markers) && !has_empty(
        config.relation_markers,
    )
}

/// A line number that fits in 32 bits.
pub open spec fn small_line(line: int) -> Option<u32> {
    if line <= u32::MAX {
        Some(line as u32)
    } else {
        None
    }
}

/// A line number that fits in 32 bits.
pub(crate) fn fit_line(line: usize) -> (r: Option<u32>)
    ensures
        r == small_line(line as int),
{
    if line as u128 <= u32::MAX as u128 {
        Some(line as u32)
    } else {
        None
    }
}

/// The first word of an annotation, or the attribute `name` in its place.
pub open spec fn first_or(t: TokensView, name: Seq<char>) -> Option<Seq<char>> {
    if t.positionals.len() > 0 {
        Some(t.positionals[0])
    } else {
        text_at(t.values, name)
    }
}

/// The attributes that are left when the first word, or the attribute `name` in its place,
/// is taken.
pub open spec fn left_after_first(t: TokensView, name: Seq<char>) -> Map<Seq<char>, ValueView> {
    if t.positionals.len() > 0 {
        t.values
    } else {
        t.values.remove(name)
    }
}

/// Takes the first word, or the attribute `name` in its place.
fn take_first(t: Tokens, name: &str) -> (r: (Option<String>, Attributes))
    ensures
        r.0.deep_view() == first_or(t.deep_view(), name@),
        r.1@ == left_after_first(t.deep_view(), name@),
{
    let mut values = t.values;
    if t.positionals.len() > 0 {
        assert(t.positionals.deep_view()[0] == t.positionals@[0]@);
        (Some(t.positionals[0].clone()), values)
    } else {
        let taken = take_string(&mut values, name);
        (taken, values)
    }
}

/// The attribute `watch`.
pub open spec fn watch_at(values: Map<Seq<char>, ValueView>) -> Result<
    Option<WatchMode>,
    Seq<char>,
> {
    match text_at(values, "watch"@) {
        None => Ok(None),
        Some(text) => match watch_named(text) {
            Ok(watch) => Ok(Some(watch)),
            Err(message) => Err(message),
        },
    }
}

/// Takes the attribute `watch` out.
fn take_watch(values: &mut Attributes) -> (r: Result<Option<WatchMode>, String>)
    ensures
        final(values)@ == old(values)@.remove("watch"@),
        outcome(r) == watch_at(old(values)@),
{
    match take_string(values, "watch") {
        None => Ok(None),
        Some(text) => match parse_watch(text.as_str()) {
            Ok(watch) => Ok(Some(watch)),
            Err(message) => Err(message),
        },
    }
}

/// The attribute `lines`.
pub open spec fn range_at(values: Map<Seq<char>, ValueView>) -> Result<
    Option<(u32, u32)>,
    Seq<char>,
> {
    match text_at(values, "lines"@) {
        None => Ok(None),
        Some(text) => match range_named(text) {
            Ok(range) => Ok(Some(range)),
            Err(message) => Err(message),
        },
    }
}

/// Takes the attribute `lines` out.
fn take_range(values: &mut Attributes) -> (r: Result<Option<(u32, u32)>, String>)
    ensures
        final(values)@ == old(values)@.remove("lines"@),
        outcome(r) == range_at(old(values)@),
{
    match take_string(values, "lines") {
        None => Ok(None),
        Some(text) => match parse_range(text.as_str()) {
            Ok(range) => Ok(Some(range)),
            Err(message) => Err(message),
        },
    }
}

/// The lines of an anchor: those of `lines`, else `line_start` and `line_end`; `line` sets
/// the first line, and the last one where none is set; without a first line both are the
/// line of the annotation.
pub open spec fn anchor_lines(
    first: Option<u32>,
    last: Option<u32>,
    range: Option<(u32, u32)>,
    single: Option<u32>,
    line: int,
) -> Result<(Option<u32>, Option<u32>), Seq<char>> {
    let (start, end) = match range {
        Some(range) => (Some(range.0), Some(range.1)),
        None => (first, last),
    };
    match single {
        Some(n) => Ok(
            (
                Some(n),
                if end is None {
                    Some(n)
                } else {
                    end
                },
            ),
        ),
        None => if start is Some {
            Ok((start, end))
        } else {
            match small_line(line) {
                Some(n) => Ok((Some(n), Some(n))),
                None => Err("line number exceeds u32"@),
            }
        },
    }
}

/// The lines of an anchor.
fn lines_of_anchor(
    first: Option<u32>,
    last: Option<u32>,
    range: Option<(u32, u32)>,
    single: Option<u32>,
    line: usize,
) -> (r: Result<(Option<u32>, Option<u32>), String>)
    ensures
        outcome(r) == anchor_lines(first, last, range, single, line as int),
{
    let (start, end): (Option<u32>, Option<u32>) = match range {
        Some(range) => (Some(range.0), Some(range.1)),
        None => (first, last),
    };
    match single {
        Some(n) => Ok(
            (
                Some(n),
                if end.is_none() {
                    Some(n)
                } else {
                    end
                },
            ),
        ),
        None => if start.is_some() {
            Ok((start, end))
        } else {
            match fit_line(line) {
                Some(n) => Ok((Some(n), Some(n))),
                None => Err("line number exceeds u32".to_owned()),
            }
        },
    }
}

/// How closely an anchor watches: as `watch` says, else its range or its line where it names
/// one, else the construct that follows where the file supports that, else the file.
pub open spec fn anchor_watch(
    watch: Option<WatchMode>,
    range: Option<(u32, u32)>,
    single: Option<u32>,
    path: Seq<char>,
) -> WatchMode {
    match watch {
        Some(watch) => watch,
        None => if range is Some {
            WatchMode::Range
        } else if single is Some {
            WatchMode::Line
        } else if !(engine_for(extension(path)) is Brackets) {
            WatchMode::Node
        } else {
            WatchMode::File
        },
    }
}

/// The anchor that an annotation on a line stands for, given what the annotation says.
pub open spec fn anchor_from(path: Seq<char>, line: int, t: TokensView) -> Result<
    AnchorView,
    Seq<char>,
> {
    match removed_field(t.values, seq!["description"@]) {
        Some(message) => Err(message),
        None => match first_or(t, "id"@) {
            None => Err("anchor annotation requires an id"@),
            Some(id) => {
                let v = left_after_first(t, "id"@);
                let place = match text_at(v, "path"@) {
                    Some(text) => text,
                    None => path,
                };
                match location_path(place) {
                    Err(message) => Err(message),
                    Ok(place) => {
                        let v = v.remove("path"@);
                        match u32_at(v, "line_start"@) {
                            Err(message) => Err(message),
                            Ok(first) => {
                                let v = v.remove("line_start"@);
                                match u32_at(v, "line_end"@) {
                                    Err(message) => Err(message),
                                    Ok(last) => anchor_rest(
                                        path,
                                        line,
                                        id,
                                        place,
                                        first,
                                        last,
                                        v.remove("line_end"@),
                                    ),
                                }
                            },
                        }
                    },
                }
            },
        },
    }
}

/// The anchor that an annotation stands for, from the attributes behind its coordinates on.
pub open spec fn anchor_rest(
    path: Seq<char>,
    line: int,
    id: Seq<char>,
    place: Seq<char>,
    first: Option<u32>,
    last: Option<u32>,
    v3: Map<Seq<char>, ValueView>,
) -> Result<AnchorView, Seq<char>> {
    let v4 = v3.remove("symbol"@);
    let v5 = v4.remove("language"@);
    let v6 = v5.remove("fingerprint"@);
    match watch_at(v6) {
        Err(message) => Err(message),
        Ok(watch) => {
            let v7 = v6.remove("watch"@);
            match range_at(v7) {
                Err(message) => Err(message),
                Ok(range) => {
                    let v8 = v7.remove("lines"@);
                    match u32_at(v8, "line"@) {
                        Err(message) => Err(message),
                        Ok(single) => match anchor_lines(first, last, range, single, line) {
                            Err(message) => Err(message),
                            Ok(span) => {
                                let v9 = v8.remove("line"@);
                                let v10 = v9.remove("target"@);
                                let v11 = v10.remove("kind"@);
                                Ok(
                                    AnchorView {
                                        schema: 1,
                                        id,
                                        target: text_at(v9, "target"@),
                                        kind: text_at(v10, "kind"@),
                                        location: Some(
                                            LocationView {
                                                path: place,
                                                line_start: span.0,
                                                line_end: span.1,
                                                symbol: text_at(v3, "symbol"@),
                                                language: text_at(v4, "language"@),
                                                fingerprint: text_at(v5, "fingerprint"@),
                                                watch: Some(
                                                    anchor_watch(watch, range, single, path),
                                                ),
                                            },
                                        ),
                                        tags: set_at(v11, "tags"@),
                                        attributes: v11.remove("tags"@),
                                    },
                                )
                            },
                        },
                    }
                },
            }
        },
    }
}

/// The anchor that an annotation stands for, from the attributes behind its coordinates on.
fn finish_anchor(
    path: &str,
    line: usize,
    id: String,
    place: String,
    first: Option<u32>,
    last: Option<u32>,
    values: Attributes,
) -> (r: Result<Anchor, String>)
    ensures
        outcome(r) == anchor_rest(path@, line as int, id@, place@, first, last, values@),
{
    let mut values = values;
    let symbol = take_string(&mut values, "symbol");
    let language = take_string(&mut values, "language");
    let fingerprint = take_string(&mut values, "fingerprint");
    let watch = match take_watch(&mut values) {
        Err(message) => {
            return Err(message);
        },
        Ok(watch) => watch,
    };
    let range = match take_range(&mut values) {
        Err(message) => {
            return Err(message);
        },
        Ok(range) => range,
    };
    let single = match take_u32(&mut values, "line") {
        Err(message) => {
            return Err(message);
        },
        Ok(single) => single,
    };
    let span = match lines_of_anchor(first, last, range, single, line) {
        Err(message) => {
            return Err(message);
        },
        Ok(span) => span,
    };
    let watch: WatchMode = match watch {
        Some(watch) => watch,
        None => if range.is_some() {
            WatchMode::Range
        } else if single.is_some() {
            WatchMode::Line
        } else if supports_dynamic(path) {
            WatchMode::Node
        } else {
            WatchMode::File
        },
    };
    let target = take_string(&mut values, "target");
    let kind = take_string(&mut values, "kind");
    let tags = take_set(&mut values, "tags");
    Ok(
        Anchor {
            schema: 1,
            id,
            target,
            kind,
            location: Some(
                Location {
                    path: place,
                    line_start: span.0,
                    line_end: span.1,
                    symbol,
                    language,
                    fingerprint,
                    watch: Some(watch),
                },
            ),
            tags,
            attributes: values,
        },
    )
}

/// The anchor that an annotation on a line stands for, given what the annotation says.
pub fn anchor_of_tokens(path: &str, line: usize, t: Tokens) -> (r: Result<Anchor, String>)
    ensures
        outcome(r) == anchor_from(path@, line as int, t.deep_view()),
{
    match reject_description(&t.values) {
        Some(message) => {
            return Err(message);
        },
        None => {},
    }
    let (id, values) = take_first(t, "id");
    let mut values = values;
    let id = match id {
        None => {
            return Err("anchor annotation requires an id".to_owned());
        },
        Some(id) => id,
    };
    let place = match take_string(&mut values, "path") {
        Some(text) => text,
        None => path.to_owned(),
    };
    let place = match normalize_location_path(place.as_str()) {
        Err(message) => {
            return Err(message);
        },
        Ok(place) => place,
    };
    let first = match take_u32(&mut values, "line_start") {
        Err(message) => {
            return Err(message);
        },
        Ok(first) => first,
    };
    let last = match take_u32(&mut values, "line_end") {
        Err(message) => {
            return Err(message);
        },
        Ok(last) => last,
    };
    finish_anchor(path, line, id, place, first, last, values)
}

/// The anchor that an annotation on a line stands for.
pub open spec fn anchor_of(path: Seq<char>, line: int, body: Seq<char>) -> Result<
    AnchorView,
    Seq<char>,
> {
    match body_tokens(body) {
        Err(message) => Err(message),
        Ok(t) => anchor_from(path, line, t),
    }
}

/// The anchor that an annotation on a line stands for.
fn parse_anchor(path: &str, line: usize, body: &str) -> (r: Result<Anchor, String>)
    ensures
        outcome(r) == anchor_of(path@, line as int, body@),
{
    match tokens(body) {
        Err(message) => Err(message),
        Ok(t) => anchor_of_tokens(path, line, t),
    }
}

/// What a strand annotation stands for.
#[verifier::ext_equal]
pub ghost struct MembershipView {
    /// The strand, where the annotation states its intent.
    pub strand: Option<StrandView>,
    /// The name of the strand.
    pub strand_id: Seq<char>,
    /// The member.
    pub member: MemberView,
    /// The anchor that the annotation makes.
    pub implicit: Option<AnchorView>,
}

/// What a strand annotation stands for.
pub struct Membership {
    /// The strand, where the annotation states its intent.
    pub strand: Option<Strand>,
    /// The name of the strand.
    pub strand_id: String,
    /// The member.
    pub member: Member,
    /// The anchor that the annotation makes.
    pub implicit: Option<Anchor>,
}

impl DeepView for Membership {
    type V = MembershipView;

    open spec fn deep_view(&self) -> MembershipView {
        MembershipView {
            strand: self.strand.deep_view(),
            strand_id: self.strand_id@,
            member: self.member@,
            implicit: self.implicit.deep_view(),
        }
    }
}

/// The hash that tells one implicit anchor from another.
pub open spec fn implicit_digest(path: Seq<char>, body: Seq<char>) -> Seq<char> {
    text_hash(path.push('\0') + body)
}

/// The name of the anchor that a strand annotation without an anchor makes.
pub open spec fn implicit_id(path: Seq<char>, body: Seq<char>) -> Seq<char> {
    "source:"@ + path + ":"@ + implicit_digest(path, body).take(12)
}

/// The anchor that a strand annotation without an anchor makes.
pub open spec fn implicit_anchor(
    path: Seq<char>,
    line: u32,
    body: Seq<char>,
    v: Map<Seq<char>, ValueView>,
) -> AnchorView {
    AnchorView {
        schema: 1,
        id: implicit_id(path, body),
        target: None,
        kind: text_at(v, "kind"@),
        location: Some(
            LocationView {
                path,
                line_start: Some(line),
                line_end: Some(line),
                symbol: text_at(v.remove("kind"@), "symbol"@),
                language: text_at(v.remove("kind"@).remove("symbol"@), "language"@),
                fingerprint: Some(implicit_digest(path, body)),
                watch: Some(WatchMode::File),
            },
        ),
        tags: Set::empty(),
        attributes: Map::empty(),
    }
}

/// The attributes that are left when an implicit anchor is made of them.
pub open spec fn left_after_implicit(v: Map<Seq<char>, ValueView>) -> Map<Seq<char>, ValueView> {
    v.remove("kind"@).remove("symbol"@).remove("language"@)
}

/// What a strand annotation stands for, once its anchor is known.
pub open spec fn membership_rest(
    strand_id: Seq<char>,
    anchor: Seq<char>,
    implicit: Option<AnchorView>,
    v: Map<Seq<char>, ValueView>,
) -> Result<MembershipView, Seq<char>> {
    let v1 = v.remove("intent"@);
    let v2 = v1.remove("title"@);
    let v3 = v2.remove("scope"@);
    let strand = match text_at(v, "intent"@) {
        None => None,
        Some(intent) => Some(
            StrandView {
                schema: 1,
                id: strand_id,
                title: text_at(v1, "title"@),
                intent,
                scope: text_at(v2, "scope"@),
                tags: set_at(v3, "tags"@),
                members: seq![],
                relations: seq![],
                on_change: None,
                attributes: Map::empty(),
            },
        ),
    };
    let v4 = if strand is Some {
        v3.remove("tags"@)
    } else {
        v1
    };
    match bool_at(v4, "required"@) {
        Err(message) => Err(message),
        Ok(required) => {
            let v5 = v4.remove("required"@);
            Ok(
                MembershipView {
                    strand,
                    strand_id,
                    member: MemberView {
                        anchor,
                        role: text_at(v5, "role"@),
                        required: match required {
                            Some(required) => required,
                            None => true,
                        },
                        attributes: v5.remove("role"@),
                    },
                    implicit,
                },
            )
        },
    }
}

/// What a strand annotation on a line stands for, given what it says: its anchor is the one
/// that it names, else the active one, else one that it makes.
pub open spec fn membership_from(
    path: Seq<char>,
    line: int,
    body: Seq<char>,
    t: TokensView,
    active: Option<Seq<char>>,
    implicit_anchors: bool,
) -> Result<MembershipView, Seq<char>> {
    match removed_field(t.values, seq!["rationale"@, "reason"@]) {
        Some(message) => Err(message),
        None => match first_or(t, "id"@) {
            None => Err("strand annotation requires a strand id"@),
            Some(strand_id) => {
                let v = left_after_first(t, "id"@);
                let v1 = v.remove("anchor"@);
                match (text_at(v, "anchor"@), active) {
                    (Some(anchor), _) => membership_rest(strand_id, anchor, None, v1),
                    (None, Some(anchor)) => membership_rest(strand_id, anchor, None, v1),
                    (None, None) => if !implicit_anchors {
                        Err(
                            "strand annotation has no anchor; provide anchor=<id> or enable implicit_anchors"@,
                        )
                    } else {
                        match small_line(line) {
                            None => Err("line number exceeds u32"@),
                            Some(line) => membership_rest(
                                strand_id,
                                implicit_id(path, body),
                                Some(implicit_anchor(path, line, body, v1)),
                                left_after_implicit(v1),
                            ),
                        }
                    },
                }
            },
        },
    }
}

/// What a strand annotation stands for, once its anchor is known.
fn finish_membership(
    strand_id: String,
    anchor: String,
    implicit: Option<Anchor>,
    values: Attributes,
) -> (r: Result<Membership, String>)
    ensures
        outcome(r) == membership_rest(strand_id@, anchor@, implicit.deep_view(), values@),
{
    let mut values = values;
    let strand: Option<Strand> = match take_string(&mut values, "intent") {
        None => None,
        Some(intent) => {
            let title = take_string(&mut values, "title");
            let scope = take_string(&mut values, "scope");
            let tags = take_set(&mut values, "tags");
            let s = Strand {
                schema: 1,
                id: strand_id.clone(),
                title,
                intent,
                scope,
                tags,
                members: Vec::new(),
                relations: Vec::new(),
                on_change: None,
                attributes: StringMap::new(),
            };
            assert(s@.members =~= seq![]);
            assert(s@.relations =~= seq![]);
            Some(s)
        },
    };
    let required = match take_bool(&mut values, "required") {
        Err(message) => {
            return Err(message);
        },
        Ok(Some(required)) => required,
        Ok(None) => true,
    };
    let role = take_string(&mut values, "role");
    Ok(
        Membership {
            strand,
            strand_id,
            member: Member { anchor, role, required, attributes: values },
            implicit,
        },
    )
}

/// What a strand annotation on a line stands for, given what it says.
pub fn membership_of_tokens(
    path: &str,
    line: usize,
    body: &str,
    t: Tokens,
    active: Option<&String>,
    implicit_anchors: bool,
) -> (r: Result<Membership, String>)
    ensures
        outcome(r) == membership_from(
            path@,
            line as int,
            body@,
            t.deep_view(),
            active.deep_view(),
            implicit_anchors,
        ),
{
    match reject_reasons(&t.values) {
        Some(message) => {
            return Err(message);
        },
        None => {},
    }
    let (id, values) = take_first(t, "id");
    let mut values = values;
    let strand_id = match id {
        None => {
            return Err("strand annotation requires a strand id".to_owned());
        },
        Some(id) => id,
    };
    match (take_string(&mut values, "anchor"), active) {
        (Some(anchor), _) => {
            return finish_membership(strand_id, anchor, None, values);
        },
        (None, Some(anchor)) => {
            return finish_membership(strand_id, anchor.clone(), None, values);
        },
        (None, None) => {},
    }
    if !implicit_anchors {
        return Err(
            "strand annotation has no anchor; provide anchor=<id> or enable implicit_anchors".to_owned(),
        );
    }
    let line = match fit_line(line) {
        None => {
            return Err("line number exceeds u32".to_owned());
        },
        Some(line) => line,
    };
    let mut seed = path.to_owned();
    seed.push('\0');
    seed.push_str(body);
    let digest = hash_text(seed.as_str());
    let digits = chars_of(digest.as_str());
    let short = substring(&digits, 0, 12);
    assert(short@ =~= digest@.take(12));
    let mut id = "source:".to_owned();
    id.push_str(path);
    id.push_str(":");
    id.push_str(short.as_str());
    let kind = take_string(&mut values, "kind");
    let symbol = take_string(&mut values, "symbol");
    let language = take_string(&mut values, "language");
    let implicit = Anchor {
        schema: 1,
        id: id.clone(),
        target: None,
        kind,
        location: Some(
            Location {
                path: path.to_owned(),
                line_start: Some(line),
                line_end: Some(line),
                symbol,
                language,
                fingerprint: Some(digest),
                watch: Some(WatchMode::File),
            },
        ),
        tags: StringSet::new(),
        attributes: StringMap::new(),
    };
    finish_membership(strand_id, id, Some(implicit), values)
}

/// What a strand annotation on a line stands for.
pub open spec fn membership_of(
    path: Seq<char>,
    line: int,
    body: Seq<char>,
    active: Option<Seq<char>>,
    implicit_anchors: bool,
) -> Result<MembershipView, Seq<char>> {
    match body_tokens(body) {
        Err(message) => Err(message),
        Ok(t) => membership_from(path, line, body, t, active, implicit_anchors),
    }
}

/// What a strand annotation on a line stands for.
fn parse_membership(
    path: &str,
    line: usize,
    body: &str,
    active: Option<&String>,
    implicit_anchors: bool,
) -> (r: Result<Membership, String>)
    ensures
        outcome(r) == membership_of(
            path@,
            line as int,
            body@,
            active.deep_view(),
            implicit_anchors,
        ),
{
    match tokens(body) {
        Err(message) => Err(message),
        Ok(t) => membership_of_tokens(path, line, body, t, active, implicit_anchors),
    }
}

/// The relation that an annotation stands for and the strand that it belongs to, given what
/// the annotation says.
pub open spec fn relation_from(t: TokensView, active: Option<Seq<char>>) -> Result<
    (Option<Seq<char>>, RelationView),
    Seq<char>,
> {
    match removed_field(t.values, seq!["rationale"@, "reason"@]) {
        Some(message) => Err(message),
        None => {
            let v0 = left_after_first(t, "kind"@);
            let by_type = first_or(t, "kind"@) is None;
            let kind = if by_type {
                text_at(v0, "type"@)
            } else {
                first_or(t, "kind"@)
            };
            let v1 = if by_type {
                v0.remove("type"@)
            } else {
                v0
            };
            let from = match text_at(v1, "from"@) {
                Some(from) => Some(from),
                None => active,
            };
            let v2 = v1.remove("from"@);
            let v3 = v2.remove("to"@);
            let v4 = v3.remove("strand"@);
            if kind is None {
                Err("relation annotation requires a relationship type"@)
            } else if from is None {
                Err("relation annotation requires from=<anchor> or an active @anchor"@)
            } else if text_at(v2, "to"@) is None {
                Err("relation annotation requires to=<anchor>"@)
            } else {
                match bool_at(v4, "bidirectional"@) {
                    Err(message) => Err(message),
                    Ok(both) => Ok(
                        (
                            text_at(v3, "strand"@),
                            RelationView {
                                from: from->0,
                                to: text_at(v2, "to"@)->0,
                                kind: kind->0,
                                bidirectional: match both {
                                    Some(both) => both,
                                    None => false,
                                },
                                attributes: v4.remove("bidirectional"@),
                            },
                        ),
                    ),
                }
            }
        },
    }
}

/// The relation that an annotation stands for and the strand that it belongs to, given what
/// the annotation says.
pub fn relation_of_tokens(t: Tokens, active: Option<&String>) -> (r: Result<
    (Option<String>, Relation),
    String,
>)
    ensures
        outcome(r) == relation_from(t.deep_view(), active.deep_view()),
{
    match reject_reasons(&t.values) {
        Some(message) => {
            return Err(message);
        },
        None => {},
    }
    let (kind, values) = take_first(t, "kind");
    let mut values = values;
    let kind = match kind {
        Some(kind) => kind,
        None => match take_string(&mut values, "type") {
            None => {
                return Err("relation annotation requires a relationship type".to_owned());
            },
            Some(kind) => kind,
        },
    };
    let from = match (take_string(&mut values, "from"), active) {
        (Some(from), _) => from,
        (None, Some(from)) => from.clone(),
        (None, None) => {
            return Err(
                "relation annotation requires from=<anchor> or an active @anchor".to_owned(),
            );
        },
    };
    let to = match take_string(&mut values, "to") {
        None => {
            return Err("relation annotation requires to=<anchor>".to_owned());
        },
        Some(to) => to,
    };
    let strand = take_string(&mut values, "strand");
    let bidirectional = match take_bool(&mut values, "bidirectional") {
        Err(message) => {
            return Err(message);
        },
        Ok(Some(both)) => both,
        Ok(None) => false,
    };
    Ok((strand, Relation { from, to, kind, bidirectional, attributes: values }))
}

/// The relation that an annotation stands for and the strand that it belongs to.
pub open spec fn relation_of(body: Seq<char>, active: Option<Seq<char>>) -> Result<
    (Option<Seq<char>>, RelationView),
    Seq<char>,
> {
    match body_tokens(body) {
        Err(message) => Err(message),
        Ok(t) => relation_from(t, active),
    }
}

/// The relation that an annotation stands for and the strand that it belongs to.
fn parse_relation(body: &str, active: Option<&String>) -> (r: Result<
    (Option<String>, Relation),
    String,
>)
    ensures
        outcome(r) == relation_of(body@, active.deep_view()),
{
    match tokens(body) {
        Err(message) => Err(message),
        Ok(t) => relation_of_tokens(t, active),
    }
}

/// Whether what an annotation says fixes lines of the source.
pub open spec fn fixes_lines(t: TokensView) -> bool {
    ||| t.values.contains_key("line"@)
    ||| t.values.contains_key("lines"@)
    ||| t.values.contains_key("line_start"@)
    ||| t.values.contains_key("line_end"@)
    ||| t.values.contains_key("watch"@) && t.values["watch"@] == ValueView::Text("range"@)
}

/// Whether an annotation fixes lines of the source, which can drift.
pub open spec fn body_fixes_lines(body: Seq<char>) -> bool {
    match body_tokens(body) {
        Ok(t) => fixes_lines(t),
        Err(_) => false,
    }
}

/// Whether an annotation fixes lines of the source.
fn has_authored_source_location(body: &str) -> (r: bool)
    ensures
        r == body_fixes_lines(body@),
{
    match tokens(body) {
        Err(_) => false,
        Ok(t) => {
            if t.values.contains_key("line") || t.values.contains_key("lines")
                || t.values.contains_key("line_start") || t.values.contains_key("line_end") {
                return true;
            }
            match t.values.get("watch") {
                Some(Value::Text(watch)) => same_text(watch.as_str(), "range"),
                _ => false,
            }
        },
    }
}

/// Where an annotation on a line of a file comes from.
pub open spec fn annotation_source(path: Seq<char>, line: int) -> ProvenanceView {
    ProvenanceView { source: "annotation"@, path: Some(path), line: small_line(line) }
}

/// Where an annotation on a line of a file comes from.
fn provenance(path: &str, line: usize) -> (r: Provenance)
    ensures
        r@ == annotation_source(path@, line as int),
{
    Provenance {
        source: "annotation".to_owned(),
        path: Some(path.to_owned()),
        line: fit_line(line),
    }
}

/// The diagnostic for an annotation that cannot be read.
pub open spec fn annotation_problem(
    path: Seq<char>,
    line: int,
    code: Seq<char>,
    message: Seq<char>,
) -> DiagnosticView {
    DiagnosticView {
        severity: Severity::Error,
        code,
        message,
        path: Some(path),
        line: small_line(line),
        hint: Some("Run `strandmap check` after correcting the annotation"@),
    }
}

/// The diagnostic for an annotation that cannot be read.
fn annotation_error(path: &str, line: usize, code: &str, message: String) -> (r: Diagnostic)
    ensures
        r@ == annotation_problem(path@, line as int, code@, message@),
{
    Diagnostic {
        severity: Severity::Error,
        code: code.to_owned(),
        message,
        path: Some(path.to_owned()),
        line: fit_line(line),
        hint: Some("Run `strandmap check` after correcting the annotation".to_owned()),
    }
}

/// The diagnostic for an anchor whose annotation fixes lines of the source.
pub open spec fn drift_warning(path: Seq<char>, line: int, id: Seq<char>) -> DiagnosticView {
    DiagnosticView {
        severity: Severity::Warning,
        code: "static-source-location"@,
        message: "anchor "@ + debug_quoted(id) + " authors source coordinates that can drift"@,
        path: Some(path),
        line: small_line(line),
        hint: Some("run `strandmap migrate dynamic-locations`"@),
    }
}

/// The diagnostic for an anchor whose annotation fixes lines of the source.
fn warn_of_drift(path: &str, line: usize, id: &str) -> (r: Diagnostic)
    ensures
        r@ == drift_warning(path@, line as int, id@),
{
    let mut message = "anchor ".to_owned();
    message.push_str(debug_text(id).as_str());
    message.push_str(" authors source coordinates that can drift");
    Diagnostic {
        severity: Severity::Warning,
        code: "static-source-location".to_owned(),
        message,
        path: Some(path.to_owned()),
        line: fit_line(line),
        hint: Some("run `strandmap migrate dynamic-locations`".to_owned()),
    }
}

/// What was read of a file so far, and the anchor that is active: its name and its line.
#[verifier::ext_equal]
pub ghost struct ProgressView {
    pub scan: AnnotationScanView,
    pub active: Option<(Seq<char>, int)>,
}

/// Nothing was read.
pub open spec fn empty_scan() -> AnnotationScanView {
    AnnotationScanView {
        anchors: seq![],
        strands: seq![],
        memberships: seq![],
        relations: seq![],
        diagnostics: seq![],
    }
}

/// Whether an anchor watches the construct that follows its annotation.
pub open spec fn watches_node(anchor: AnchorView) -> bool {
    anchor.location is Some && anchor.location->0.watch == Some(WatchMode::Node)
}

/// An anchor with the lines of the construct that follows its annotation.
pub open spec fn placed_anchor(anchor: AnchorView, span: Span) -> AnchorView {
    AnchorView {
        location: Some(
            LocationView {
                line_start: Some(span.start_line),
                line_end: Some(span.end_line),
                ..anchor.location->0
            },
        ),
        ..anchor
    }
}

/// What is read once an anchor annotation is.
pub open spec fn after_anchor(
    path: Seq<char>,
    text: Seq<char>,
    line: int,
    body: Seq<char>,
    p: ProgressView,
) -> ProgressView {
    match anchor_of(path, line, body) {
        Err(message) => ProgressView {
            scan: AnnotationScanView {
                diagnostics: p.scan.diagnostics.push(
                    annotation_problem(path, line, "annotation-anchor"@, message),
                ),
                ..p.scan
            },
            ..p
        },
        Ok(anchor) => {
            let warned = if body_fixes_lines(body) {
                p.scan.diagnostics.push(drift_warning(path, line, anchor.id))
            } else {
                p.scan.diagnostics
            };
            let resolved = file_resolution(path, text, line);
            let placed = if watches_node(anchor) && resolved is Ok {
                placed_anchor(anchor, resolved->Ok_0)
            } else {
                anchor
            };
            let diagnostics = if watches_node(anchor) && resolved is Err {
                warned.push(
                    annotation_problem(
                        path,
                        line,
                        "annotation-node"@,
                        "anchor "@ + debug_quoted(anchor.id) + ": "@ + resolved->Err_0,
                    ),
                )
            } else {
                warned
            };
            ProgressView {
                scan: AnnotationScanView {
                    anchors: p.scan.anchors.push((placed, annotation_source(path, line))),
                    diagnostics,
                    ..p.scan
                },
                active: Some((anchor.id, line)),
            }
        },
    }
}

/// What is read once a strand annotation is.
pub open spec fn after_membership(
    path: Seq<char>,
    line: int,
    body: Seq<char>,
    implicit_anchors: bool,
    p: ProgressView,
) -> ProgressView {
    let active = match p.active {
        Some(active) => Some(active.0),
        None => None,
    };
    match membership_of(path, line, body, active, implicit_anchors) {
        Err(message) => ProgressView {
            scan: AnnotationScanView {
                diagnostics: p.scan.diagnostics.push(
                    annotation_problem(path, line, "annotation-strand"@, message),
                ),
                ..p.scan
            },
            ..p
        },
        Ok(m) => ProgressView {
            scan: AnnotationScanView {
                anchors: match m.implicit {
                    Some(anchor) => p.scan.anchors.push((anchor, annotation_source(path, line))),
                    None => p.scan.anchors,
                },
                strands: match m.strand {
                    Some(strand) => p.scan.strands.push((strand, annotation_source(path, line))),
                    None => p.scan.strands,
                },
                memberships: p.scan.memberships.push(
                    IndexedMemberView {
                        strand: Some(m.strand_id),
                        member: m.member,
                        provenance: annotation_source(path, line),
                    },
                ),
                ..p.scan
            },
            active: match m.implicit {
                Some(anchor) => Some((anchor.id, line)),
                None => p.active,
            },
        },
    }
}

/// What is read once a relation annotation is.
pub open spec fn after_relation(
    path: Seq<char>,
    line: int,
    body: Seq<char>,
    p: ProgressView,
) -> ProgressView {
    let active = match p.active {
        Some(active) => Some(active.0),
        None => None,
    };
    ProgressView {
        scan: match relation_of(body, active) {
            Err(message) => AnnotationScanView {
                diagnostics: p.scan.diagnostics.push(
                    annotation_problem(path, line, "annotation-relation"@, message),
                ),
                ..p.scan
            },
            Ok((strand, relation)) => AnnotationScanView {
                relations: p.scan.relations.push(
                    IndexedRelationView {
                        strand,
                        relation,
                        provenance: annotation_source(path, line),
                    },
                ),
                ..p.scan
            },
        },
        ..p
    }
}

/// What an annotation says that starts at the marker at position `k` of a line: everything up
/// to the next marker.
pub open spec fn marker_body(line: Seq<char>, markers: Seq<MarkerView>, k: int) -> Seq<char> {
    let end = if k + 1 < markers.len() {
        markers[k + 1].start
    } else {
        line.len() as int
    };
    annotation_text(line.subrange(markers[k].start + markers[k].len, end))
}

/// What is read once the first `n` annotations of a line are.
pub open spec fn after_markers(
    path: Seq<char>,
    text: Seq<char>,
    config: AnnotationConfigView,
    number: int,
    line: Seq<char>,
    n: int,
    p: ProgressView,
) -> ProgressView
    decreases n,
{
    if n <= 0 {
        p
    } else {
        let before = after_markers(path, text, config, number, line, n - 1, p);
        let markers = line_markers(line, config);
        let body = marker_body(line, markers, n - 1);
        match markers[n - 1].kind {
            MarkerKind::Anchor => after_anchor(path, text, number, body, before),
            MarkerKind::Strand => after_membership(
                path,
                number,
                body,
                config.implicit_anchors,
                before,
            ),
            MarkerKind::Relation => after_relation(path, number, body, before),
        }
    }
}

/// The anchor that is still active on a line: an anchor stays active for a number of lines.
pub open spec fn still_active(active: Option<(Seq<char>, int)>, line: int, gap: int) -> Option<
    (Seq<char>, int),
> {
    match active {
        Some((id, at)) => if line - at > gap {
            None
        } else {
            active
        },
        None => None,
    }
}

/// What is read once the first `n` lines of a file are.
pub open spec fn after_lines(
    path: Seq<char>,
    text: Seq<char>,
    config: AnnotationConfigView,
    n: int,
) -> ProgressView
    decreases n,
{
    if n <= 0 {
        ProgressView { scan: empty_scan(), active: None }
    } else {
        let before = after_lines(path, text, config, n - 1);
        let line = lines(text)[n - 1];
        after_markers(
            path,
            text,
            config,
            n,
            line,
            line_markers(line, config).len() as int,
            ProgressView {
                active: still_active(before.active, n, config.anchor_block_gap as int),
                ..before
            },
        )
    }
}

/// What the annotations of a file say.
pub open spec fn scan_of(
    path: Seq<char>,
    text: Seq<char>,
    config: AnnotationConfigView,
) -> AnnotationScanView {
    if config.enabled {
        after_lines(path, text, config, lines(text).len() as int).scan
    } else {
        empty_scan()
    }
}

/// The anchor that is active: its name and its line.
struct ActiveAnchor {
    id: String,
    line: usize,
}

/// The active anchor in the terms of the contracts.
spec fn active_view(active: Option<ActiveAnchor>) -> Option<(Seq<char>, int)> {
    match active {
        Some(anchor) => Some((anchor.id@, anchor.line as int)),
        None => None,
    }
}

/// What was read so far in the terms of the contracts.
spec fn progress(scan: AnnotationScan, active: Option<ActiveAnchor>) -> ProgressView {
    ProgressView { scan: scan@, active: active_view(active) }
}

/// The name of the active anchor.
fn active_id(active: &Option<ActiveAnchor>) -> (r: Option<&String>)
    ensures
        r.deep_view() == (match active_view(*active) {
            Some(anchor) => Some(anchor.0),
            None => None,
        }),
{
    match active {
        Some(anchor) => Some(&anchor.id),
        None => None,
    }
}

/// Reads an anchor annotation.
fn read_anchor(
    path: &str,
    text: &str,
    resolver: &Result<Resolver<'_>, String>,
    line: usize,
    body: &str,
    scan: &mut AnnotationScan,
    active: &mut Option<ActiveAnchor>,
)
    requires
        match resolver {
            Ok(resolver) => crate::source_span::resolver_problem(
                engine_for(extension(path@)),
                text@,
            ) is None && resolver.source() == text@ && resolver.engine() == engine_for(
                extension(path@),
            ),
            Err(message) => crate::source_span::resolver_problem(
                engine_for(extension(path@)),
                text@,
            ) == Some(message@),
        },
    ensures
        progress(*final(scan), *final(active)) == after_anchor(
            path@,
            text@,
            line as int,
            body@,
            progress(*old(scan), *old(active)),
        ),
{
    match parse_anchor(path, line, body) {
        Err(message) => {
            push_item(
                &mut scan.diagnostics,
                annotation_error(path, line, "annotation-anchor", message),
            );
        },
        Ok(anchor) => {
            let mut anchor = anchor;
            let ghost parsed = anchor@;
            if has_authored_source_location(body) {
                push_item(&mut scan.diagnostics, warn_of_drift(path, line, anchor.id.as_str()));
            }
            let node = match &anchor.location {
                Some(location) => location.watch == Some(WatchMode::Node),
                None => false,
            };
            if node {
                let resolved: Result<Span, String> = match resolver {
                    Ok(resolver) => resolver.resolve(line),
                    Err(message) => Err(message.clone()),
                };
                match resolved {
                    Ok(span) => {
                        let location = anchor.location.take();
                        match location {
                            Some(location) => {
                                let mut location = location;
                                location.line_start = Some(span.start_line);
                                location.line_end = Some(span.end_line);
                                anchor.location = Some(location);
                            },
                            None => {},
                        }
                        assert(anchor@ == placed_anchor(parsed, span));
                    },
                    Err(problem) => {
                        let mut message = "anchor ".to_owned();
                        message.push_str(debug_text(anchor.id.as_str()).as_str());
                        message.push_str(": ");
                        message.push_str(problem.as_str());
                        push_item(
                            &mut scan.diagnostics,
                            annotation_error(path, line, "annotation-node", message),
                        );
                    },
                }
            }
            *active = Some(ActiveAnchor { id: anchor.id.clone(), line });
            push_item(&mut scan.anchors, (anchor, provenance(path, line)));
        },
    }
}

/// Reads a strand annotation.
fn read_membership(
    path: &str,
    line: usize,
    body: &str,
    implicit_anchors: bool,
    scan: &mut AnnotationScan,
    active: &mut Option<ActiveAnchor>,
)
    ensures
        progress(*final(scan), *final(active)) == after_membership(
            path@,
            line as int,
            body@,
            implicit_anchors,
            progress(*old(scan), *old(active)),
        ),
{
    match parse_membership(path, line, body, active_id(active), implicit_anchors) {
        Err(message) => {
            push_item(
                &mut scan.diagnostics,
                annotation_error(path, line, "annotation-strand", message),
            );
        },
        Ok(m) => {
            match m.implicit {
                Some(anchor) => {
                    *active = Some(ActiveAnchor { id: anchor.id.clone(), line });
                    push_item(&mut scan.anchors, (anchor, provenance(path, line)));
                },
                None => {},
            }
            match m.strand {
                Some(strand) => {
                    push_item(&mut scan.strands, (strand, provenance(path, line)));
                },
                None => {},
            }
            push_item(
                &mut scan.memberships,
                IndexedMember {
                    strand: Some(m.strand_id),
                    member: m.member,
                    provenance: provenance(path, line),
                },
            );
        },
    }
}

/// Reads a relation annotation.
fn read_relation(
    path: &str,
    line: usize,
    body: &str,
    scan: &mut AnnotationScan,
    active: &Option<ActiveAnchor>,
)
    ensures
        progress(*final(scan), *active) == after_relation(
            path@,
            line as int,
            body@,
            progress(*old(scan), *active),
        ),
{
    match parse_relation(body, active_id(active)) {
        Err(message) => {
            push_item(
                &mut scan.diagnostics,
                annotation_error(path, line, "annotation-relation", message),
            );
        },
        Ok((strand, relation)) => {
            push_item(
                &mut scan.relations,
                IndexedRelation { strand, relation, provenance: provenance(path, line) },
            );
        },
    }
}

/// Reads the annotations of a file. Markers must not be empty.
pub fn scan_source(path: &str, text: &str, config: &AnnotationConfig) -> (r: AnnotationScan)
    requires
        markers_are_filled(config@),
    ensures
        r@ == scan_of(path@, text@, config@),
{
    let mut scan = AnnotationScan {
        anchors: Vec::new(),
        strands: Vec::new(),
        memberships: Vec::new(),
        relations: Vec::new(),
        diagnostics: Vec::new(),
    };
    assert(scan@ =~= empty_scan());
    if !config.enabled {
        return scan;
    }
    let resolver = Resolver::new(path, text);
    let texts = markers(config);
    let chars = chars_of(text);
    let all = lines_of(&chars);
    let mut active: Option<ActiveAnchor> = None;
    let mut n: usize = 0;
    while n < all.len()
        invariant
            n <= all@.len(),
            all.deep_view() == lines(text@),
            markers_are_filled(config@),
            texts.anchors.deep_view() == config@.anchor_markers,
            texts.strands.deep_view() == config@.strand_markers,
            texts.relations.deep_view() == config@.relation_markers,
            match resolver {
                Ok(resolver) => crate::source_span::resolver_problem(
                    engine_for(extension(path@)),
                    text@,
                ) is None && resolver.source() == text@ && resolver.engine() == engine_for(
                    extension(path@),
                ),
                Err(message) => crate::source_span::resolver_problem(
                    engine_for(extension(path@)),
                    text@,
                ) == Some(message@),
            },
            active matches Some(anchor) ==> anchor.line <= n,
            progress(scan, active) == after_lines(path@, text@, config@, n as int),
        decreases all@.len() - n,
    {
        let line = &all[n];
        assert(lines(text@)[n as int] == line@);
        let number: usize = n + 1;
        let expired = match &active {
            Some(anchor) => number - anchor.line > config.anchor_block_gap,
            None => false,
        };
        if expired {
            active = None;
        }
        let found = marker_occurrences(line, &texts, Ghost(config@));
        let ghost start = progress(scan, active);
        let width: usize = line.len();
        let mut k: usize = 0;
        while k < found.len()
            invariant
                width == line@.len(),
                k <= found@.len(),
                line@ == lines(text@)[n as int],
                number == n + 1,
                found.deep_view() == line_markers(line@, config@),
                markers_fit(found.deep_view(), line@.len() as int),
                forall|i: int, j: int|
                    0 <= i < j < found@.len() ==> (#[trigger] found@[i]).start + found@[i].len <= (
                    #[trigger] found@[j]).start,
                match resolver {
                    Ok(resolver) => crate::source_span::resolver_problem(
                        engine_for(extension(path@)),
                        text@,
                    ) is None && resolver.source() == text@ && resolver.engine() == engine_for(
                        extension(path@),
                    ),
                    Err(message) => crate::source_span::resolver_problem(
                        engine_for(extension(path@)),
                        text@,
                    ) == Some(message@),
                },
                active matches Some(anchor) ==> anchor.line <= number,
                progress(scan, active) == after_markers(
                    path@,
                    text@,
                    config@,
                    number as int,
                    line@,
                    k as int,
                    start,
                ),
            decreases found@.len() - k,
        {
            assert(found.deep_view()[k as int] == found@[k as int].deep_view());
            let from: usize = found[k].start + found[k].len;
            let end: usize = if k + 1 < found.len() {
                assert(found.deep_view()[k + 1] == found@[k + 1].deep_view());
                found[k + 1].start
            } else {
                line.len()
            };
            let body = string_of(&annotation_body(&slice_of(line, from, end)));
            assert(body@ == marker_body(line@, found.deep_view(), k as int));
            match found[k].kind {
                MarkerKind::Anchor => {
                    read_anchor(
                        path,
                        text,
                        &resolver,
                        number,
                        body.as_str(),
                        &mut scan,
                        &mut active,
                    );
                },
                MarkerKind::Strand => {
                    read_membership(
                        path,
                        number,
                        body.as_str(),
                        config.implicit_anchors,
                        &mut scan,
                        &mut active,
                    );
                },
                MarkerKind::Relation => {
                    read_relation(path, number, body.as_str(), &mut scan, &active);
                },
            }
            k += 1;
        }
        n += 1;
    }
    scan
}

} // verus!

//! Finding source by words.

use vstd::prelude::*;

use crate::annotations::all_chars;
use crate::collections::{increasing, ordered, StringMap, StringSet};
use crate::config::{AnnotationConfig, AnnotationConfigView};
use crate::graph::items_of;
use crate::index::{any_zero, has_zero};
use crate::model::{
    FileRecord, FileRecordView, Index, IndexView, LineRange, LineRangeView, Location, LocationView,
    WatchMode,
};
use crate::source_span::{enclosing, enclosing_span, Span};
use crate::text::{
    chars_of, debug_quoted, debug_text, decimal_text, find, find_from, is_digit, is_letter_or_digit,
    is_lower, is_space, is_upper, join, lemma_text_less_irreflexive, lemma_text_less_total,
    lemma_text_less_transitive, lines, lines_of, lower, lower_char, matches_at, push_chars,
    same_text, slice_of, starts_with, string_of, substring, text_before, text_less, text_of_bytes,
};
use crate::views::{outcome, push_item, Duplicate};

verus! {

broadcast use crate::views::lemma_chars_deep_view;

/// A piece of source that a search found.
#[derive(Debug, Clone, PartialEq)]
pub struct SearchHit {
    /// The file.
    pub path: String,
    /// The first line.
    pub line_start: u32,
    /// The last line.
    pub line_end: u32,
    /// How well it fits.
    pub score: u32,
    /// The words that it holds.
    pub matched: Vec<String>,
    /// The anchors that stand there.
    pub anchors: Vec<String>,
}

/// The mathematical content of a [`SearchHit`].
#[verifier::ext_equal]
pub ghost struct SearchHitView {
    pub path: Seq<char>,
    pub line_start: u32,
    pub line_end: u32,
    pub score: u32,
    pub matched: Seq<Seq<char>>,
    pub anchors: Seq<Seq<char>>,
}

impl View for SearchHit {
    type V = SearchHitView;

    open spec fn view(&self) -> SearchHitView {
        SearchHitView {
            path: self.path.deep_view(),
            line_start: self.line_start.deep_view(),
            line_end: self.line_end.deep_view(),
            score: self.score.deep_view(),
            matched: self.matched.deep_view(),
            anchors: self.anchors.deep_view(),
        }
    }
}

impl DeepView for SearchHit {
    type V = SearchHitView;

    open spec fn deep_view(&self) -> SearchHitView {
        self@
    }
}

impl Duplicate for SearchHit {
    fn duplicate(&self) -> (r: Self) {
        SearchHit {
            path: self.path.duplicate(),
            line_start: self.line_start,
            line_end: self.line_end,
            score: self.score,
            matched: self.matched.duplicate(),
            anchors: self.anchors.duplicate(),
        }
    }
}

/// Why an anchor that a search found is shown.
pub open spec fn hit_reason(hit: SearchHitView) -> Seq<char> {
    "match "@ + hit.path + "#L"@ + crate::text::decimal(hit.line_start as nat) + "-L"@
        + crate::text::decimal(hit.line_end as nat)
}

impl SearchHit {
    /// Why an anchor that this search found is shown.
    pub fn reason(&self) -> (r: String)
        ensures
            r@ == hit_reason(self@),
    {
        let mut out = "match ".to_owned();
        out.push_str(self.path.as_str());
        out.push_str("#L");
        out.push_str(decimal_text(self.line_start as u64).as_str());
        out.push_str("-L");
        out.push_str(decimal_text(self.line_end as u64).as_str());
        out
    }
}

/// How many lines a chunk of a file has.
pub const CHUNK_LINES: usize = 56;

/// How many lines a chunk shares with the next one.
pub const CHUNK_OVERLAP: usize = 8;

/// How many words of bits a filter has.
pub const BLOOM_WORDS: usize = 32;

/// Whether a new word starts behind `c` at an upper-case letter.
pub open spec fn ends_lower(c: char) -> bool {
    is_lower(c) || is_digit(c)
}

/// The first `n` characters of a text with a space before each upper-case letter that
/// follows a lower-case one or a digit, letters in lower case, and a space for all else.
pub open spec fn spread(s: Seq<char>, n: int) -> Seq<char>
    decreases n,
{
    if n <= 0 {
        seq![]
    } else {
        let before = spread(s, n - 1);
        let c = s[n - 1];
        let parted = if is_upper(c) && n >= 2 && ends_lower(s[n - 2]) {
            before.push(' ')
        } else {
            before
        };
        if is_letter_or_digit(c) {
            parted + lower(c)
        } else {
            parted.push(' ')
        }
    }
}

/// The first position at or after `i` that is white space, or the length.
pub open spec fn run_end(s: Seq<char>, i: int) -> int
    decreases s.len() - i,
{
    if i < 0 || i >= s.len() {
        s.len() as int
    } else if is_space(s[i]) {
        i
    } else {
        run_end(s, i + 1)
    }
}

/// The parts of `s[i..]` that white space separates.
pub open spec fn spaced_words(s: Seq<char>, i: int) -> Seq<Seq<char>>
    decreases s.len() - i,
{
    if i < 0 || i >= s.len() {
        seq![]
    } else if is_space(s[i]) {
        spaced_words(s, i + 1)
    } else {
        let end = run_end(s, i);
        if end <= i || end > s.len() {
            seq![]
        } else {
            seq![s.subrange(i, end)] + spaced_words(s, end)
        }
    }
}

/// The words of a text: identifiers are taken apart at underscores and at changes of case,
/// and everything is in lower case.
pub open spec fn tokens_of(s: Seq<char>) -> Seq<Seq<char>> {
    spaced_words(spread(s, s.len() as int), 0)
}

/// The parts of a text that white space separates.
fn split_whitespace(s: &[char]) -> (r: Vec<String>)
    ensures
        r.deep_view() == spaced_words(s@, 0),
{
    let mut out: Vec<String> = Vec::new();
    let mut i: usize = 0;
    assert(out.deep_view() =~= seq![]);
    while i < s.len()
        invariant
            i <= s@.len(),
            out.deep_view() + spaced_words(s@, i as int) =~= spaced_words(s@, 0),
        decreases s@.len() - i,
    {
        if s[i].is_whitespace() {
            i += 1;
        } else {
            let mut end: usize = i + 1;
            while end < s.len() && !s[end].is_whitespace()
                invariant
                    i < end <= s@.len(),
                    run_end(s@, i as int) == run_end(s@, end as int),
                decreases s@.len() - end,
            {
                end += 1;
            }
            let ghost before = out.deep_view();
            push_item(&mut out, substring(s, i, end));
            assert(before + spaced_words(s@, i as int) =~= out.deep_view() + spaced_words(
                s@,
                end as int,
            ));
            i = end;
        }
    }
    out
}

/// The words of a text, given its characters.
fn tokens_of_chars(s: &[char]) -> (r: Vec<String>)
    ensures
        r.deep_view() == tokens_of(s@),
{
    let mut out: Vec<char> = Vec::new();
    let mut i: usize = 0;
    while i < s.len()
        invariant
            i <= s@.len(),
            out@ == spread(s@, i as int),
        decreases s@.len() - i,
    {
        let c = s[i];
        if c.is_uppercase() && i >= 1 && (s[i - 1].is_lowercase() || ('0' <= s[i - 1] && s[i - 1]
            <= '9')) {
            out.push(' ');
        }
        if c.is_alphanumeric() {
            push_chars(&mut out, &lower_char(c));
        } else {
            out.push(' ');
        }
        i += 1;
    }
    split_whitespace(&out)
}

/// The words of a text: identifiers are taken apart at underscores and at changes of case,
/// and everything is in lower case.
pub fn normalize_tokens(value: &str) -> (r: Vec<String>)
    ensures
        r.deep_view() == tokens_of(value@),
{
    tokens_of_chars(&chars_of(value))
}

/// What is read of a query so far.
#[verifier::ext_equal]
pub ghost struct QueryScan {
    /// The words, each with whether it was quoted.
    pub words: Seq<(Seq<char>, bool)>,
    /// The word that is being read.
    pub current: Seq<char>,
    /// The quote that is open.
    pub quote: Option<char>,
    /// Whether the word that is being read has a quote.
    pub quoted: bool,
    /// Whether the next character is escaped.
    pub escaped: bool,
}

/// What is read of a query once its first `n` characters are.
pub open spec fn scan_query(s: Seq<char>, n: int) -> QueryScan
    decreases n,
{
    if n <= 0 {
        QueryScan { words: seq![], current: seq![], quote: None, quoted: false, escaped: false }
    } else {
        let q = scan_query(s, n - 1);
        let c = s[n - 1];
        if q.escaped {
            QueryScan { current: q.current.push(c), escaped: false, ..q }
        } else if c == '\\' {
            QueryScan { escaped: true, ..q }
        } else if q.quote is Some {
            if Some(c) == q.quote {
                QueryScan { quote: None, ..q }
            } else {
                QueryScan { current: q.current.push(c), ..q }
            }
        } else if c == '\'' || c == '"' {
            QueryScan { quote: Some(c), quoted: true, ..q }
        } else if is_space(c) {
            if q.current.len() > 0 {
                QueryScan {
                    words: q.words.push((q.current, q.quoted)),
                    current: seq![],
                    quoted: false,
                    ..q
                }
            } else {
                q
            }
        } else {
            QueryScan { current: q.current.push(c), ..q }
        }
    }
}

/// The words of a query, each with whether it was quoted.
pub open spec fn words_of_query(s: Seq<char>) -> Result<Seq<(Seq<char>, bool)>, Seq<char>> {
    let q = scan_query(s, s.len() as int);
    let current = if q.escaped {
        q.current.push('\\')
    } else {
        q.current
    };
    if q.quote is Some {
        Err("unterminated quote in search query"@)
    } else if current.len() > 0 {
        Ok(q.words.push((current, q.quoted)))
    } else {
        Ok(q.words)
    }
}

/// The words of a query, each with whether it was quoted.
pub fn query_words(query: &str) -> (r: Result<Vec<(String, bool)>, String>)
    ensures
        outcome(r) == words_of_query(query@),
{
    let chars = chars_of(query);
    let mut words: Vec<(String, bool)> = Vec::new();
    let mut current = String::new();
    let mut length: usize = 0;
    let mut quote: Option<char> = None;
    let mut quoted = false;
    let mut escaped = false;
    let mut i: usize = 0;
    assert(words.deep_view() =~= seq![]);
    assert(current@ =~= seq![]);
    while i < chars.len()
        invariant
            i <= chars@.len(),
            chars@ == query@,
            length == current@.len(),
            length <= i,
            scan_query(query@, i as int) == (QueryScan {
                words: words.deep_view(),
                current: current@,
                quote,
                quoted,
                escaped,
            }),
        decreases chars@.len() - i,
    {
        let c = chars[i];
        if escaped {
            current.push(c);
            length += 1;
            escaped = false;
        } else if c == '\\' {
            escaped = true;
        } else if quote.is_some() {
            if quote == Some(c) {
                quote = None;
            } else {
                current.push(c);
                length += 1;
            }
        } else if c == '\'' || c == '"' {
            quote = Some(c);
            quoted = true;
        } else if c.is_whitespace() {
            if length > 0 {
                let word = current;
                current = String::new();
                length = 0;
                push_item(&mut words, (word, quoted));
                quoted = false;
                assert(current@ =~= seq![]);
            }
        } else {
            current.push(c);
            length += 1;
        }
        i += 1;
    }
    if quote.is_some() {
        return Err("unterminated quote in search query".to_owned());
    }
    if escaped {
        current.push('\\');
        push_item(&mut words, (current, quoted));
    } else if length > 0 {
        push_item(&mut words, (current, quoted));
    }
    Ok(words)
}

/// Whether a word only says that something is to be done.
pub open spec fn is_scaffolding(word: Seq<char>) -> bool {
    ||| word == "a"@
    ||| word == "add"@
    ||| word == "an"@
    ||| word == "and"@
    ||| word == "build"@
    ||| word == "change"@
    ||| word == "create"@
    ||| word == "feature"@
    ||| word == "fix"@
    ||| word == "for"@
    ||| word == "implement"@
    ||| word == "in"@
    ||| word == "make"@
    ||| word == "new"@
    ||| word == "of"@
    ||| word == "on"@
    ||| word == "or"@
    ||| word == "please"@
    ||| word == "support"@
    ||| word == "the"@
    ||| word == "to"@
    ||| word == "update"@
    ||| word == "with"@
}

/// Whether a word only says that something is to be done.
fn is_task_scaffolding(word: &str) -> (r: bool)
    ensures
        r == is_scaffolding(word@),
{
    same_text(word, "a")
        || same_text(word, "add")
        || same_text(word, "an")
        || same_text(word, "and")
        || same_text(word, "build")
        || same_text(word, "change")
        || same_text(word, "create")
        || same_text(word, "feature")
        || same_text(word, "fix")
        || same_text(word, "for")
        || same_text(word, "implement")
        || same_text(word, "in")
        || same_text(word, "make")
        || same_text(word, "new")
        || same_text(word, "of")
        || same_text(word, "on")
        || same_text(word, "or")
        || same_text(word, "please")
        || same_text(word, "support")
        || same_text(word, "the")
        || same_text(word, "to")
        || same_text(word, "update")
        || same_text(word, "with")
}

/// What to look for.
#[derive(Debug, Clone)]
pub struct Query {
    /// The words to look for, in order.
    pub terms: Vec<String>,
    /// The words that must not occur.
    pub excluded: StringSet,
    /// Words that should stand together.
    pub phrases: Vec<Vec<String>>,
}

/// The mathematical content of a [`Query`].
#[verifier::ext_equal]
pub ghost struct QueryView {
    pub terms: Seq<Seq<char>>,
    pub excluded: Set<Seq<char>>,
    pub phrases: Seq<Seq<Seq<char>>>,
}

impl View for Query {
    type V = QueryView;

    open spec fn view(&self) -> QueryView {
        QueryView {
            terms: self.terms.deep_view(),
            excluded: self.excluded.deep_view(),
            phrases: self.phrases.deep_view(),
        }
    }
}

impl DeepView for Query {
    type V = QueryView;

    open spec fn deep_view(&self) -> QueryView {
        self@
    }
}

impl Duplicate for Query {
    fn duplicate(&self) -> (r: Self) {
        Query {
            terms: self.terms.duplicate(),
            excluded: self.excluded.duplicate(),
            phrases: self.phrases.duplicate(),
        }
    }
}

/// What the first `n` words of a query ask for, before they are put in order.
#[verifier::ext_equal]
pub ghost struct QueryDraft {
    pub terms: Seq<Seq<char>>,
    pub excluded: Set<Seq<char>>,
    pub phrases: Seq<Seq<Seq<char>>>,
}

/// A word of a query without the dash that excludes it.
pub open spec fn bare_word(word: Seq<char>) -> Seq<char> {
    if word.len() > 0 && word[0] == '-' {
        word.skip(1)
    } else {
        word
    }
}

/// What the first `n` words of a query ask for.
pub open spec fn draft_query(words: Seq<(Seq<char>, bool)>, n: int) -> Result<QueryDraft, Seq<char>>
    decreases n,
{
    if n <= 0 {
        Ok(QueryDraft { terms: seq![], excluded: Set::empty(), phrases: seq![] })
    } else {
        match draft_query(words, n - 1) {
            Err(message) => Err(message),
            Ok(q) => {
                let (word, quoted) = words[n - 1];
                let tokens = tokens_of(bare_word(word));
                if tokens.len() == 0 {
                    Err(
                        "search term "@ + debug_quoted(bare_word(word))
                            + " has no searchable characters"@,
                    )
                } else if word.len() > 0 && word[0] == '-' {
                    Ok(QueryDraft { excluded: q.excluded.union(tokens.to_set()), ..q })
                } else {
                    Ok(
                        QueryDraft {
                            terms: q.terms + tokens,
                            phrases: if quoted && tokens.len() > 1 {
                                q.phrases.push(tokens)
                            } else {
                                q.phrases
                            },
                            ..q
                        },
                    )
                }
            },
        }
    }
}

proof fn lemma_draft_error(words: Seq<(Seq<char>, bool)>, n: int, m: int)
    requires
        n <= m,
        draft_query(words, n) is Err,
    ensures
        draft_query(words, m) == draft_query(words, n),
    decreases m - n,
{
    if n < m {
        lemma_draft_error(words, n, m - 1);
    }
}

/// The words among the first `n` that say what is meant.
pub open spec fn meaningful(terms: Seq<Seq<char>>, n: int) -> Set<Seq<char>>
    decreases n,
{
    if n <= 0 {
        Set::empty()
    } else if is_scaffolding(terms[n - 1]) {
        meaningful(terms, n - 1)
    } else {
        meaningful(terms, n - 1).insert(terms[n - 1])
    }
}

/// The words to look for: where there are several, without those that only say that
/// something is to be done.
pub open spec fn wanted_terms(terms: Seq<Seq<char>>) -> Set<Seq<char>> {
    if terms.len() > 1 {
        meaningful(terms, terms.len() as int)
    } else {
        terms.to_set()
    }
}

/// What a query asks for.
pub open spec fn query_of(text: Seq<char>) -> Result<QueryView, Seq<char>> {
    match words_of_query(text) {
        Err(message) => Err(message),
        Ok(words) => if words.len() == 0 {
            Err("search query cannot be empty"@)
        } else {
            match draft_query(words, words.len() as int) {
                Err(message) => Err(message),
                Ok(q) => if wanted_terms(q.terms) == Set::<Seq<char>>::empty() {
                    Err("search query must contain at least one meaningful term"@)
                } else {
                    Ok(
                        QueryView {
                            terms: ordered(wanted_terms(q.terms)),
                            excluded: q.excluded,
                            phrases: q.phrases,
                        },
                    )
                },
            }
        },
    }
}

/// Adds texts to a set.
fn add_all(set: &mut StringSet, texts: &Vec<String>)
    ensures
        final(set)@ == old(set)@.union(texts.deep_view().to_set()),
{
    let ghost start = set@;
    let ghost all = texts.deep_view();
    let mut i: usize = 0;
    assert(start.union(all.take(0).to_set()) =~= start);
    while i < texts.len()
        invariant
            i <= texts@.len(),
            all == texts.deep_view(),
            set@ == start.union(all.take(i as int).to_set()),
        decreases texts@.len() - i,
    {
        assert(all[i as int] == texts@[i as int]@);
        let _ = set.insert(texts[i].clone());
        proof {
            crate::collections::lemma_take_set(all, i as int);
            assert(start.union(all.take(i + 1).to_set()) =~= start.union(
                all.take(i as int).to_set(),
            ).insert(all[i as int]));
        }
        i += 1;
    }
    assert(all.take(all.len() as int) =~= all);
}

/// Adds texts behind others.
fn append_all(list: &mut Vec<String>, more: &Vec<String>)
    ensures
        final(list).deep_view() == old(list).deep_view() + more.deep_view(),
{
    let ghost start = list.deep_view();
    let ghost all = more.deep_view();
    let mut i: usize = 0;
    assert(start + all.take(0) =~= start);
    while i < more.len()
        invariant
            i <= more@.len(),
            all == more.deep_view(),
            list.deep_view() == start + all.take(i as int),
        decreases more@.len() - i,
    {
        assert(all[i as int] == more@[i as int]@);
        push_item(list, more[i].clone());
        assert(start + all.take(i + 1) =~= (start + all.take(i as int)).push(all[i as int]));
        i += 1;
    }
    assert(all.take(all.len() as int) =~= all);
}

/// The words to look for.
fn keep_meaningful(terms: &Vec<String>) -> (r: StringSet)
    ensures
        r@ == wanted_terms(terms.deep_view()),
{
    let mut out = StringSet::new();
    let ghost all = terms.deep_view();
    if terms.len() <= 1 {
        add_all(&mut out, terms);
        assert(Set::<Seq<char>>::empty().union(all.to_set()) =~= all.to_set());
        return out;
    }
    let mut i: usize = 0;
    while i < terms.len()
        invariant
            i <= terms@.len(),
            all == terms.deep_view(),
            out@ == meaningful(all, i as int),
        decreases terms@.len() - i,
    {
        assert(all[i as int] == terms@[i as int]@);
        if !is_task_scaffolding(terms[i].as_str()) {
            let _ = out.insert(terms[i].clone());
        }
        i += 1;
    }
    out
}

/// What a query asks for.
pub fn parse_query(query: &str) -> (r: Result<Query, String>)
    ensures
        outcome(r) == query_of(query@),
{
    let words = match query_words(query) {
        Err(message) => {
            return Err(message);
        },
        Ok(words) => words,
    };
    let ghost all = words.deep_view();
    if words.len() == 0 {
        return Err("search query cannot be empty".to_owned());
    }
    let mut terms: Vec<String> = Vec::new();
    let mut excluded = StringSet::new();
    let mut phrases: Vec<Vec<String>> = Vec::new();
    let mut i: usize = 0;
    assert(terms.deep_view() =~= seq![]);
    assert(phrases.deep_view() =~= seq![]);
    while i < words.len()
        invariant
            i <= words@.len(),
            all == words.deep_view(),
            words_of_query(query@) == Ok::<Seq<(Seq<char>, bool)>, Seq<char>>(all),
            all.len() > 0,
            draft_query(all, i as int) == Ok::<QueryDraft, Seq<char>>(
                (QueryDraft {
                    terms: terms.deep_view(),
                    excluded: excluded@,
                    phrases: phrases.deep_view(),
                }),
            ),
        decreases words@.len() - i,
    {
        assert(all[i as int] == (words@[i as int].0@, words@[i as int].1));
        let chars = chars_of(words[i].0.as_str());
        let quoted = words[i].1;
        let out_of_query = chars.len() > 0 && chars[0] == '-';
        let bare: Vec<char> = if out_of_query {
            let rest = slice_of(&chars, 1, chars.len());
            assert(rest@ =~= chars@.skip(1));
            rest
        } else {
            chars
        };
        let tokens = tokens_of_chars(&bare);
        if tokens.len() == 0 {
            let mut message = "search term ".to_owned();
            message.push_str(debug_text(string_of(&bare).as_str()).as_str());
            message.push_str(" has no searchable characters");
            proof {
                lemma_draft_error(all, i + 1, all.len() as int);
            }
            return Err(message);
        }
        if out_of_query {
            add_all(&mut excluded, &tokens);
        } else {
            append_all(&mut terms, &tokens);
            if quoted && tokens.len() > 1 {
                push_item(&mut phrases, tokens);
            }
        }
        i += 1;
    }
    let wanted = keep_meaningful(&terms);
    if wanted.is_empty() {
        return Err("search query must contain at least one meaningful term".to_owned());
    }
    Ok(Query { terms: items_of(&wanted), excluded, phrases })
}

/// The smaller of two optional positions.
pub open spec fn first_position(a: Option<int>, b: Option<int>) -> Option<int> {
    match (a, b) {
        (Some(x), Some(y)) => Some(
            if x <= y {
                x
            } else {
                y
            },
        ),
        (Some(x), None) => Some(x),
        (None, _) => b,
    }
}

/// What an annotation can start with: the names that stand for annotations everywhere, and
/// the markers that a repository has.
pub open spec fn annotation_names(config: AnnotationConfigView) -> Seq<Seq<char>> {
    seq!["@strandmap"@, "@anchor"@, "@strand"@, "@relation"@] + config.anchor_markers
        + config.strand_markers + config.relation_markers
}

/// Where the first of the first `n` names stands in a line.
pub open spec fn first_name(line: Seq<char>, names: Seq<Seq<char>>, n: int) -> Option<int>
    decreases n,
{
    if n <= 0 {
        None
    } else {
        first_position(first_name(line, names, n - 1), find_from(line, names[n - 1], 0))
    }
}

/// A line up to the first annotation in it.
pub open spec fn without_annotations(line: Seq<char>, names: Seq<Seq<char>>) -> Seq<char> {
    match first_name(line, names, names.len() as int) {
        Some(at) => line.take(at),
        None => line,
    }
}

/// The lines of a text, each up to the first annotation in it.
pub open spec fn plain_lines(text: Seq<char>, config: AnnotationConfigView) -> Seq<Seq<char>> {
    Seq::new(
        lines(text).len(),
        |i: int| without_annotations(lines(text)[i], annotation_names(config)),
    )
}

/// What an annotation can start with.
fn names_of_annotations(config: &AnnotationConfig) -> (r: Vec<Vec<char>>)
    ensures
        r.deep_view() == annotation_names(config@),
{
    let mut out: Vec<Vec<char>> = Vec::new();
    assert(out.deep_view() =~= seq![]);
    push_item(&mut out, chars_of("@strandmap"));
    push_item(&mut out, chars_of("@anchor"));
    push_item(&mut out, chars_of("@strand"));
    push_item(&mut out, chars_of("@relation"));
    let mut anchors = all_chars(&config.anchor_markers);
    let mut strands = all_chars(&config.strand_markers);
    let mut relations = all_chars(&config.relation_markers);
    let ghost start = out.deep_view();
    out.append(&mut anchors);
    assert(out.deep_view() =~= start + config@.anchor_markers);
    out.append(&mut strands);
    assert(out.deep_view() =~= start + config@.anchor_markers + config@.strand_markers);
    out.append(&mut relations);
    assert(out.deep_view() =~= annotation_names(config@));
    out
}

/// How much of a line stands before the first annotation in it.
fn annotation_start(line: &[char], names: &Vec<Vec<char>>) -> (r: usize)
    ensures
        r <= line@.len(),
        without_annotations(line@, names.deep_view()) == line@.take(r as int),
{
    let ghost all = names.deep_view();
    let mut first: Option<usize> = None;
    let mut i: usize = 0;
    while i < names.len()
        invariant
            i <= names@.len(),
            all == names.deep_view(),
            match first {
                Some(at) => at <= line@.len() && first_name(line@, all, i as int) == Some(
                    at as int,
                ),
                None => first_name(line@, all, i as int) is None,
            },
        decreases names@.len() - i,
    {
        assert(all[i as int] == names@[i as int]@);
        proof {
            crate::text::lemma_find_from(line@, all[i as int], 0);
        }
        match find(line, &names[i], 0) {
            Some(at) => {
                first = match first {
                    Some(known) => if known <= at {
                        Some(known)
                    } else {
                        Some(at)
                    },
                    None => Some(at),
                };
            },
            None => {},
        }
        i += 1;
    }
    assert(names@.len() == all.len());
    assert(line@.take(line@.len() as int) =~= line@);
    match first {
        Some(at) => at,
        None => line.len(),
    }
}

/// A line up to the first annotation in it.
pub fn strip_annotations(line: &str, config: &AnnotationConfig) -> (r: String)
    ensures
        r@ == without_annotations(line@, annotation_names(config@)),
{
    let chars = chars_of(line);
    let names = names_of_annotations(config);
    let end = annotation_start(&chars, &names);
    let r = substring(&chars, 0, end);
    assert(r@ =~= chars@.take(end as int));
    r
}

/// The lines of a text, each up to the first annotation in it.
fn strip_lines(text: &str, config: &AnnotationConfig) -> (r: Vec<Vec<char>>)
    ensures
        r.deep_view() == plain_lines(text@, config@),
{
    let chars = chars_of(text);
    let all = lines_of(&chars);
    let names = names_of_annotations(config);
    let ghost wanted = plain_lines(text@, config@);
    let mut out: Vec<Vec<char>> = Vec::new();
    let mut i: usize = 0;
    assert(out.deep_view() =~= wanted.take(0));
    while i < all.len()
        invariant
            i <= all@.len(),
            all.deep_view() == lines(text@),
            names.deep_view() == annotation_names(config@),
            wanted == plain_lines(text@, config@),
            out.deep_view() == wanted.take(i as int),
        decreases all@.len() - i,
    {
        assert(lines(text@)[i as int] == all@[i as int]@);
        let end = annotation_start(&all[i], &names);
        let code = slice_of(&all[i], 0, end);
        assert(code@ =~= all@[i as int]@.take(end as int));
        push_item(&mut out, code);
        assert(out.deep_view() =~= wanted.take(i + 1));
        i += 1;
    }
    assert(out.deep_view() =~= wanted);
    out
}

/// The FNV-1a hash of the first `n` bytes.
pub open spec fn fnv(bytes: Seq<u8>, n: int) -> u64
    decreases n,
{
    if n <= 0 {
        0xcbf2_9ce4_8422_2325u64
    } else {
        (fnv(bytes, n - 1) ^ (bytes[n - 1] as u64)).wrapping_mul(0x0000_0100_0000_01b3u64)
    }
}

/// The two bits of a filter that stand for a word.
pub open spec fn token_bits(token: Seq<char>) -> (int, int) {
    let bytes = vstd::utf8::encode_utf8(token);
    let hash = fnv(bytes, bytes.len() as int);
    let mixed = ((hash << 29u64) | (hash >> 35u64)).wrapping_mul(0x9e37_79b9_7f4a_7c15u64);
    (hash as int % 2048, mixed as int % 2048)
}

/// The two bits of a filter that stand for a word.
fn bloom_bits(token: &str) -> (r: (usize, usize))
    ensures
        (r.0 as int, r.1 as int) == token_bits(token@),
        r.0 < 2048,
        r.1 < 2048,
{
    let bytes = token.as_bytes();
    let mut hash: u64 = 0xcbf2_9ce4_8422_2325u64;
    let mut i: usize = 0;
    while i < bytes.len()
        invariant
            i <= bytes@.len(),
            hash == fnv(bytes@, i as int),
        decreases bytes@.len() - i,
    {
        hash = (hash ^ (bytes[i] as u64)).wrapping_mul(0x0000_0100_0000_01b3u64);
        i += 1;
    }
    let mixed: u64 = ((hash << 29u64) | (hash >> 35u64)).wrapping_mul(0x9e37_79b9_7f4a_7c15u64);
    ((hash % 2048) as usize, (mixed % 2048) as usize)
}

/// A word of bits with one bit alone.
pub open spec fn bit_mask(bit: int) -> u64 {
    1u64 << ((bit % 64) as u64)
}

/// Whether a bit of a filter is set.
pub open spec fn bit_is_set(bloom: Seq<u64>, bit: int) -> bool {
    bloom[bit / 64] & bit_mask(bit) != 0
}

/// A filter with a bit set.
pub open spec fn with_bit(bloom: Seq<u64>, bit: int) -> Seq<u64> {
    bloom.update(bit / 64, bloom[bit / 64] | bit_mask(bit))
}

/// A filter with a word in it.
pub open spec fn with_token(bloom: Seq<u64>, token: Seq<char>) -> Seq<u64> {
    with_bit(with_bit(bloom, token_bits(token).0), token_bits(token).1)
}

/// Whether a filter may have a word in it.
pub open spec fn may_hold(bloom: Seq<u64>, token: Seq<char>) -> bool {
    bit_is_set(bloom, token_bits(token).0) && bit_is_set(bloom, token_bits(token).1)
}

/// Sets a bit of a filter.
fn set_bit(bloom: &mut Vec<u64>, bit: usize)
    requires
        old(bloom)@.len() == BLOOM_WORDS,
        bit < 2048,
    ensures
        final(bloom)@ == with_bit(old(bloom)@, bit as int),
        final(bloom)@.len() == BLOOM_WORDS,
{
    let at: usize = bit / 64;
    let shift: u64 = (bit % 64) as u64;
    let word: u64 = bloom[at] | (1u64 << shift);
    bloom.set(at, word);
}

/// Puts a word into a filter.
fn bloom_insert(bloom: &mut Vec<u64>, token: &str)
    requires
        old(bloom)@.len() == BLOOM_WORDS,
    ensures
        final(bloom)@ == with_token(old(bloom)@, token@),
        final(bloom)@.len() == BLOOM_WORDS,
{
    let (first, second) = bloom_bits(token);
    set_bit(bloom, first);
    set_bit(bloom, second);
}

/// Whether a bit of a filter is set.
fn get_bit(bloom: &Vec<u64>, bit: usize) -> (r: bool)
    requires
        bloom@.len() == BLOOM_WORDS,
        bit < 2048,
    ensures
        r == bit_is_set(bloom@, bit as int),
{
    let shift: u64 = (bit % 64) as u64;
    bloom[bit / 64] & (1u64 << shift) != 0
}

/// Whether a filter may have a word in it.
fn bloom_contains(bloom: &Vec<u64>, token: &str) -> (r: bool)
    requires
        bloom@.len() == BLOOM_WORDS,
    ensures
        r == may_hold(bloom@, token@),
{
    let (first, second) = bloom_bits(token);
    get_bit(bloom, first) && get_bit(bloom, second)
}

/// Whether a file may hold one of the words, as far as its filter says. A file without a
/// filter may hold any.
pub open spec fn may_match(bloom: Seq<u64>, terms: Seq<Seq<char>>) -> bool {
    bloom.len() != BLOOM_WORDS || exists|i: int|
        0 <= i < terms.len() && may_hold(bloom, #[trigger] terms[i])
}

/// Whether a file may hold one of the words, as far as its filter says.
pub fn bloom_might_match(bloom: &Vec<u64>, terms: &Vec<String>) -> (r: bool)
    ensures
        r == may_match(bloom@, terms.deep_view()),
{
    if bloom.len() != BLOOM_WORDS {
        return true;
    }
    let ghost all = terms.deep_view();
    let mut i: usize = 0;
    while i < terms.len()
        invariant
            i <= terms@.len(),
            bloom@.len() == BLOOM_WORDS,
            all == terms.deep_view(),
            forall|k: int| 0 <= k < i ==> !may_hold(bloom@, #[trigger] all[k]),
        decreases terms@.len() - i,
    {
        assert(all[i as int] == terms@[i as int]@);
        if bloom_contains(bloom, terms[i].as_str()) {
            return true;
        }
        i += 1;
    }
    false
}

/// A filter with the first `n` of some words in it.
pub open spec fn with_tokens(bloom: Seq<u64>, tokens: Seq<Seq<char>>, n: int) -> Seq<u64>
    decreases n,
{
    if n <= 0 {
        bloom
    } else {
        with_token(with_tokens(bloom, tokens, n - 1), tokens[n - 1])
    }
}

/// A filter without words.
pub open spec fn empty_bloom() -> Seq<u64> {
    Seq::new(BLOOM_WORDS as nat, |i: int| 0u64)
}

/// The filter of the first `n` of some lines.
pub open spec fn bloom_of_lines(all: Seq<Seq<char>>, n: int) -> Seq<u64>
    decreases n,
{
    if n <= 0 {
        empty_bloom()
    } else {
        let tokens = tokens_of(all[n - 1]);
        with_tokens(bloom_of_lines(all, n - 1), tokens, tokens.len() as int)
    }
}

/// The filter of a text, without its annotations.
pub open spec fn bloom_of(text: Seq<char>, config: AnnotationConfigView) -> Seq<u64> {
    bloom_of_lines(plain_lines(text, config), plain_lines(text, config).len() as int)
}

/// The filter of a text: the words that its lines hold, without those of annotations.
pub fn source_bloom(text: &str, config: &AnnotationConfig) -> (r: Vec<u64>)
    ensures
        r@ == bloom_of(text@, config@),
        r@.len() == BLOOM_WORDS,
{
    let all = strip_lines(text, config);
    let ghost plain = plain_lines(text@, config@);
    let mut bloom: Vec<u64> = Vec::new();
    let mut k: usize = 0;
    while k < BLOOM_WORDS
        invariant
            k <= BLOOM_WORDS,
            bloom@.len() == k,
            forall|i: int| 0 <= i < k ==> #[trigger] bloom@[i] == 0,
        decreases BLOOM_WORDS - k,
    {
        bloom.push(0);
        k += 1;
    }
    assert(bloom@ =~= empty_bloom());
    let mut n: usize = 0;
    while n < all.len()
        invariant
            n <= all@.len(),
            all.deep_view() == plain,
            bloom@ == bloom_of_lines(plain, n as int),
            bloom@.len() == BLOOM_WORDS,
        decreases all@.len() - n,
    {
        assert(plain[n as int] == all@[n as int]@);
        let tokens = tokens_of_chars(&all[n]);
        let ghost words = tokens.deep_view();
        let ghost before = bloom@;
        let mut i: usize = 0;
        while i < tokens.len()
            invariant
                i <= tokens@.len(),
                words == tokens.deep_view(),
                bloom@ == with_tokens(before, words, i as int),
                bloom@.len() == BLOOM_WORDS,
            decreases tokens@.len() - i,
        {
            assert(words[i as int] == tokens@[i as int]@);
            bloom_insert(&mut bloom, tokens[i].as_str());
            i += 1;
        }
        n += 1;
    }
    bloom
}

proof fn lemma_mask_or(word: u64, shift: u64, other: u64)
    requires
        shift < 64,
        other < 64,
    ensures
        (word | (1u64 << shift)) & (1u64 << shift) != 0,
        word & (1u64 << shift) != 0 ==> (word | (1u64 << other)) & (1u64 << shift) != 0,
{
    assert((word | (1u64 << shift)) & (1u64 << shift) != 0) by (bit_vector)
        requires
            shift < 64,
    ;
    assert(word & (1u64 << shift) != 0 ==> (word | (1u64 << other)) & (1u64 << shift) != 0)
        by (bit_vector)
        requires
            shift < 64,
            other < 64,
    ;
}

proof fn lemma_with_bit(bloom: Seq<u64>, bit: int, other: int)
    requires
        bloom.len() == BLOOM_WORDS,
        0 <= bit < 2048,
        0 <= other < 2048,
    ensures
        with_bit(bloom, bit).len() == BLOOM_WORDS,
        bit_is_set(with_bit(bloom, bit), bit),
        bit_is_set(bloom, other) ==> bit_is_set(with_bit(bloom, bit), other),
{
    lemma_mask_or(bloom[bit / 64], (bit % 64) as u64, (bit % 64) as u64);
    lemma_mask_or(bloom[bit / 64], (other % 64) as u64, (bit % 64) as u64);
}

proof fn lemma_with_token(bloom: Seq<u64>, token: Seq<char>, other: Seq<char>)
    requires
        bloom.len() == BLOOM_WORDS,
    ensures
        with_token(bloom, token).len() == BLOOM_WORDS,
        may_hold(with_token(bloom, token), token),
        may_hold(bloom, other) ==> may_hold(with_token(bloom, token), other),
{
    let (a, b) = token_bits(token);
    let (c, d) = token_bits(other);
    let once = with_bit(bloom, a);
    lemma_with_bit(bloom, a, c);
    lemma_with_bit(bloom, a, d);
    lemma_with_bit(once, b, a);
    lemma_with_bit(once, b, c);
    lemma_with_bit(once, b, d);
}

proof fn lemma_with_tokens(bloom: Seq<u64>, tokens: Seq<Seq<char>>, n: int, other: Seq<char>)
    requires
        bloom.len() == BLOOM_WORDS,
    ensures
        with_tokens(bloom, tokens, n).len() == BLOOM_WORDS,
        may_hold(bloom, other) ==> may_hold(with_tokens(bloom, tokens, n), other),
        forall|i: int| 0 <= i < n ==> may_hold(with_tokens(bloom, tokens, n), #[trigger] tokens[i]),
    decreases n,
{
    if n > 0 {
        lemma_with_tokens(bloom, tokens, n - 1, other);
        let before = with_tokens(bloom, tokens, n - 1);
        lemma_with_token(before, tokens[n - 1], other);
        assert forall|i: int| 0 <= i < n implies may_hold(
            with_tokens(bloom, tokens, n),
            #[trigger] tokens[i],
        ) by {
            lemma_with_token(before, tokens[n - 1], tokens[i]);
        }
    }
}

proof fn lemma_bloom_of_lines(all: Seq<Seq<char>>, n: int, line: int, k: int)
    requires
        0 <= line < n,
        0 <= k < tokens_of(all[line]).len(),
    ensures
        bloom_of_lines(all, n).len() == BLOOM_WORDS,
        may_hold(bloom_of_lines(all, n), tokens_of(all[line])[k]),
    decreases n,
{
    lemma_bloom_len(all, n - 1);
    let tokens = tokens_of(all[n - 1]);
    let wanted = tokens_of(all[line])[k];
    lemma_with_tokens(bloom_of_lines(all, n - 1), tokens, tokens.len() as int, wanted);
    if line < n - 1 {
        lemma_bloom_of_lines(all, n - 1, line, k);
    }
}

proof fn lemma_bloom_len(all: Seq<Seq<char>>, n: int)
    ensures
        bloom_of_lines(all, n).len() == BLOOM_WORDS,
    decreases n,
{
    if n > 0 {
        lemma_bloom_len(all, n - 1);
        let tokens = tokens_of(all[n - 1]);
        lemma_with_tokens(bloom_of_lines(all, n - 1), tokens, tokens.len() as int, seq![]);
    }
}

/// The filter of a file never hides it: a file that holds one of the words outside
/// annotations may match.
pub proof fn filters_hide_no_match(
    text: Seq<char>,
    config: AnnotationConfigView,
    terms: Seq<Seq<char>>,
    line: int,
    k: int,
    t: int,
)
    requires
        0 <= line < plain_lines(text, config).len(),
        0 <= k < tokens_of(plain_lines(text, config)[line]).len(),
        0 <= t < terms.len(),
        terms[t] == tokens_of(plain_lines(text, config)[line])[k],
    ensures
        may_match(bloom_of(text, config), terms),
{
    let all = plain_lines(text, config);
    lemma_bloom_of_lines(all, all.len() as int, line, k);
    assert(may_hold(bloom_of(text, config), terms[t]));
}

/// What annotations say does not enter a filter: texts whose lines agree up to their
/// annotations have one filter.
pub proof fn filters_ignore_annotations(a: Seq<char>, b: Seq<char>, config: AnnotationConfigView)
    requires
        lines(a).len() == lines(b).len(),
        forall|i: int|
            0 <= i < lines(a).len() ==> without_annotations(
                #[trigger] lines(a)[i],
                annotation_names(config),
            ) == without_annotations(lines(b)[i], annotation_names(config)),
    ensures
        bloom_of(a, config) == bloom_of(b, config),
{
    assert(plain_lines(a, config) =~= plain_lines(b, config));
}

/// What stands before the first annotation of a line is kept as it is, and nothing that an
/// annotation can start with stands in it.
pub proof fn plain_lines_hold_no_annotation(line: Seq<char>, names: Seq<Seq<char>>, k: int)
    requires
        0 <= k < names.len(),
        names[k].len() > 0,
    ensures
        without_annotations(line, names).is_prefix_of(line),
        find_from(without_annotations(line, names), names[k], 0) is None,
{
    lemma_first_name(line, names, names.len() as int, k);
    let plain = without_annotations(line, names);
    crate::text::lemma_find_from(line, names[k], 0);
    crate::text::lemma_find_from(plain, names[k], 0);
    match find_from(plain, names[k], 0) {
        Some(at) => {
            assert(plain.subrange(at, at + names[k].len()) =~= line.subrange(
                at,
                at + names[k].len(),
            ));
            assert(matches_at(line, names[k], at));
        },
        None => {},
    }
}

proof fn lemma_first_name(line: Seq<char>, names: Seq<Seq<char>>, n: int, k: int)
    requires
        0 <= k < n <= names.len(),
    ensures
        find_from(line, names[k], 0) matches Some(at) ==> (first_name(line, names, n) matches Some(
            first,
        ) && first <= at),
        first_name(line, names, n) matches Some(first) ==> 0 <= first <= line.len(),
    decreases n,
{
    lemma_first_name_fits(line, names, n);
    if k < n - 1 {
        lemma_first_name(line, names, n - 1, k);
    }
}

proof fn lemma_first_name_fits(line: Seq<char>, names: Seq<Seq<char>>, n: int)
    ensures
        first_name(line, names, n) matches Some(first) ==> 0 <= first <= line.len(),
    decreases n,
{
    if n > 0 {
        lemma_first_name_fits(line, names, n - 1);
        crate::text::lemma_find_from(line, names[n - 1], 0);
    }
}

/// A piece of a file that a search looks at.
#[derive(Debug, Clone)]
pub struct Document {
    /// The file.
    pub path: String,
    /// The first line.
    pub start: u32,
    /// The last line.
    pub end: u32,
    /// Its lines, without annotations and without lines that are left out.
    pub text: String,
    /// Its words.
    pub tokens: Vec<String>,
    /// Whether an anchor stands for exactly these lines.
    pub anchored: bool,
}

/// The mathematical content of a [`Document`].
#[verifier::ext_equal]
pub ghost struct DocumentView {
    pub path: Seq<char>,
    pub start: u32,
    pub end: u32,
    pub text: Seq<char>,
    pub tokens: Seq<Seq<char>>,
    pub anchored: bool,
}

impl View for Document {
    type V = DocumentView;

    open spec fn view(&self) -> DocumentView {
        DocumentView {
            path: self.path.deep_view(),
            start: self.start.deep_view(),
            end: self.end.deep_view(),
            text: self.text.deep_view(),
            tokens: self.tokens.deep_view(),
            anchored: self.anchored.deep_view(),
        }
    }
}

impl DeepView for Document {
    type V = DocumentView;

    open spec fn deep_view(&self) -> DocumentView {
        self@
    }
}

impl Duplicate for Document {
    fn duplicate(&self) -> (r: Self) {
        Document {
            path: self.path.duplicate(),
            start: self.start,
            end: self.end,
            text: self.text.duplicate(),
            tokens: self.tokens.duplicate(),
            anchored: self.anchored,
        }
    }
}

/// Whether a path is one of some paths or lies below one of them; any path where there are
/// none.
pub open spec fn is_path_allowed(path: Seq<char>, paths: Seq<Seq<char>>) -> bool {
    paths.len() == 0 || exists|i: int|
        0 <= i < paths.len() && is_at_or_below(path, #[trigger] paths[i])
}

/// Whether a path is another or lies below it.
pub open spec fn is_at_or_below(path: Seq<char>, selected: Seq<char>) -> bool {
    path == selected || (starts_with(path, selected) && path.len() > selected.len()
        && path[selected.len() as int] == '/')
}

/// Whether a path is another or lies below it.
pub fn at_or_below(path: &str, selected: &str) -> (r: bool)
    ensures
        r == is_at_or_below(path@, selected@),
{
    if same_text(path, selected) {
        return true;
    }
    let p = chars_of(path);
    let n: usize = chars_of(selected).len();
    crate::text::has_prefix(&p, selected) && p.len() > n && p[n] == '/'
}

/// Whether a path is one of some paths or lies below one of them.
pub fn path_allowed(path: &str, paths: &Vec<String>) -> (r: bool)
    ensures
        r == is_path_allowed(path@, paths.deep_view()),
{
    if paths.len() == 0 {
        return true;
    }
    let ghost all = paths.deep_view();
    let mut i: usize = 0;
    while i < paths.len()
        invariant
            i <= paths@.len(),
            all == paths.deep_view(),
            all.len() > 0,
            forall|k: int| 0 <= k < i ==> !is_at_or_below(path@, #[trigger] all[k]),
        decreases paths@.len() - i,
    {
        assert(all[i as int] == paths@[i as int]@);
        if at_or_below(path, paths[i].as_str()) {
            return true;
        }
        i += 1;
    }
    false
}

/// Whether a line lies in one of the ranges.
pub open spec fn is_left_out(tests: Seq<LineRangeView>, line: int) -> bool {
    exists|i: int| 0 <= i < tests.len() && (#[trigger] tests[i]).start <= line <= tests[i].end
}

/// Whether a line lies in one of the ranges.
fn left_out(tests: &Vec<LineRange>, line: u32) -> (r: bool)
    ensures
        r == is_left_out(tests.deep_view(), line as int),
{
    let ghost all = tests.deep_view();
    let mut i: usize = 0;
    while i < tests.len()
        invariant
            i <= tests@.len(),
            all == tests.deep_view(),
            forall|k: int| 0 <= k < i ==> !((#[trigger] all[k]).start <= line <= all[k].end),
        decreases tests@.len() - i,
    {
        assert(all[i as int] == tests@[i as int]@);
        if tests[i].start <= line && line <= tests[i].end {
            return true;
        }
        i += 1;
    }
    false
}

/// Whether some lines share one with a range.
pub open spec fn touches_tests(tests: Seq<LineRangeView>, start: int, end: int) -> bool {
    exists|i: int| 0 <= i < tests.len() && (#[trigger] tests[i]).start <= end && start <= tests[i].end
}

/// Whether some lines share one with a range.
fn meets_tests(tests: &Vec<LineRange>, start: u32, end: u32) -> (r: bool)
    ensures
        r == touches_tests(tests.deep_view(), start as int, end as int),
{
    let ghost all = tests.deep_view();
    let mut i: usize = 0;
    while i < tests.len()
        invariant
            i <= tests@.len(),
            all == tests.deep_view(),
            forall|k: int| 0 <= k < i ==> !((#[trigger] all[k]).start <= end && start <= all[k].end),
        decreases tests@.len() - i,
    {
        assert(all[i as int] == tests@[i as int]@);
        if tests[i].start <= end && start <= tests[i].end {
            return true;
        }
        i += 1;
    }
    false
}

/// A line number that stands `offset` lines behind `start`, but not beyond what fits.
pub open spec fn line_behind(start: u32, offset: int) -> u32 {
    if start + offset > u32::MAX {
        u32::MAX
    } else {
        (start + offset) as u32
    }
}

/// A line as a search looks at it.
pub open spec fn searched_line(line: Seq<char>, number: u32, tests: Seq<LineRangeView>) -> Seq<char> {
    if is_left_out(tests, number as int) {
        seq![]
    } else {
        line
    }
}

/// The lines from position `from` to `to` as a search looks at them.
pub open spec fn searched_lines(
    all: Seq<Seq<char>>,
    start: u32,
    from: int,
    to: int,
    tests: Seq<LineRangeView>,
) -> Seq<Seq<char>>
    decreases to - from,
{
    if to <= from {
        seq![]
    } else {
        searched_lines(all, start, from, to - 1, tests).push(
            searched_line(all[to - 1], line_behind(start, to - 1 - from), tests),
        )
    }
}

/// The lines of a piece of a file: where it starts and where it ends in the lines of the
/// file.
pub open spec fn piece_bounds(all: Seq<Seq<char>>, start: u32, end: u32) -> (int, int) {
    (
        if start >= 1 {
            start - 1
        } else {
            0
        },
        if end <= all.len() {
            end as int
        } else {
            all.len() as int
        },
    )
}

/// The documents with one more piece of a file, where it has words.
pub open spec fn with_document(
    documents: Seq<DocumentView>,
    path: Seq<char>,
    all: Seq<Seq<char>>,
    tests: Seq<LineRangeView>,
    start: u32,
    end: u32,
    anchored: bool,
) -> Seq<DocumentView> {
    let (from, to) = piece_bounds(all, start, end);
    let text = join(searched_lines(all, start, from, to, tests), seq!['\n']);
    if from >= to || tokens_of(text).len() == 0 {
        documents
    } else {
        documents.push(
            DocumentView { path, start, end, text, tokens: tokens_of(text), anchored },
        )
    }
}

/// Adds a piece of a file to the documents, where it has words.
fn push_document(
    documents: &mut Vec<Document>,
    path: &String,
    all: &Vec<Vec<char>>,
    tests: &Vec<LineRange>,
    start: u32,
    end: u32,
    anchored: bool,
)
    ensures
        final(documents).deep_view() == with_document(
            old(documents).deep_view(),
            path@,
            all.deep_view(),
            tests.deep_view(),
            start,
            end,
            anchored,
        ),
{
    let count: usize = all.len();
    let from: usize = if start >= 1 {
        if (start - 1) as u128 >= count as u128 {
            return;
        }
        (start - 1) as usize
    } else {
        0
    };
    let to: usize = if end as u128 <= count as u128 {
        end as usize
    } else {
        count
    };
    if from >= to {
        return;
    }
    let ghost texts = all.deep_view();
    let mut shown: Vec<Vec<char>> = Vec::new();
    let mut i: usize = from;
    assert(shown.deep_view() =~= seq![]);
    while i < to
        invariant
            from <= i <= to <= all@.len(),
            texts == all.deep_view(),
            shown@.len() == i - from,
            shown.deep_view() == searched_lines(
                texts,
                start,
                from as int,
                i as int,
                tests.deep_view(),
            ),
        decreases to - i,
    {
        assert(texts[i as int] == all@[i as int]@);
        let offset: usize = i - from;
        let number: u32 = if start as u128 + offset as u128 > u32::MAX as u128 {
            u32::MAX
        } else {
            start + offset as u32
        };
        if left_out(tests, number) {
            let none: Vec<char> = Vec::new();
            assert(none@ =~= seq![]);
            push_item(&mut shown, none);
        } else {
            let line = slice_of(&all[i], 0, all[i].len());
            assert(line@ =~= all@[i as int]@);
            push_item(&mut shown, line);
        }
        i += 1;
    }
    assert(shown.deep_view().subrange(0, shown@.len() as int) =~= shown.deep_view());
    let chars = crate::text::join_lines(&shown, 0, shown.len());
    let tokens = tokens_of_chars(&chars);
    if tokens.len() != 0 {
        push_item(
            documents,
            Document { path: path.clone(), start, end, text: string_of(&chars), tokens, anchored },
        );
    }
}

/// The documents of a file so far, and the lines that they stand for.
#[verifier::ext_equal]
pub ghost struct PiecesView {
    pub documents: Seq<DocumentView>,
    pub seen: Set<(u32, u32)>,
}

/// The documents with one more piece of a file, unless its lines were seen.
pub open spec fn with_piece(
    p: PiecesView,
    path: Seq<char>,
    all: Seq<Seq<char>>,
    tests: Seq<LineRangeView>,
    start: u32,
    end: u32,
    anchored: bool,
) -> PiecesView {
    if p.seen.contains((start, end)) {
        p
    } else {
        PiecesView {
            documents: with_document(p.documents, path, all, tests, start, end, anchored),
            seen: p.seen.insert((start, end)),
        }
    }
}

/// The lines of an anchor in a file of `count` lines, where it stands for lines of it.
pub open spec fn anchored_lines(location: LocationView, path: Seq<char>, count: int) -> Option<
    (u32, u32),
> {
    if location.path != path || location.watch == Some(WatchMode::File) {
        None
    } else {
        match location.line_start {
            None => None,
            Some(start) => {
                let end = match location.line_end {
                    Some(end) => end,
                    None => start,
                };
                if start == 0 || end < start || start > count {
                    None
                } else if end <= count {
                    Some((start, end))
                } else {
                    Some((start, count as u32))
                }
            },
        }
    }
}

/// The documents once the first `n` anchors are looked at.
pub open spec fn with_anchored_pieces(
    index: IndexView,
    path: Seq<char>,
    all: Seq<Seq<char>>,
    tests: Seq<LineRangeView>,
    n: int,
) -> PiecesView
    decreases n,
{
    if n <= 0 {
        PiecesView { documents: seq![], seen: Set::empty() }
    } else {
        let before = with_anchored_pieces(index, path, all, tests, n - 1);
        let id = ordered(index.anchors.dom())[n - 1];
        match index.anchors[id].value.location {
            None => before,
            Some(location) => match anchored_lines(location, path, all.len() as int) {
                None => before,
                Some((start, end)) => if touches_tests(tests, start as int, end as int) {
                    before
                } else {
                    with_piece(before, path, all, tests, start, end, true)
                },
            },
        }
    }
}

/// The documents with the chunks of a file from line `start` on.
pub open spec fn with_chunks(
    p: PiecesView,
    path: Seq<char>,
    all: Seq<Seq<char>>,
    tests: Seq<LineRangeView>,
    start: int,
) -> PiecesView
    decreases all.len() - start,
{
    let end = if start + CHUNK_LINES - 1 <= all.len() {
        start + CHUNK_LINES - 1
    } else {
        all.len() as int
    };
    let more = with_piece(
        p,
        path,
        all,
        tests,
        line_behind(0, start),
        line_behind(0, end),
        false,
    );
    if end >= all.len() {
        more
    } else {
        with_chunks(more, path, all, tests, start + (CHUNK_LINES - CHUNK_OVERLAP))
    }
}

/// The ranges of a file that a search leaves out.
pub open spec fn tests_left_out(record: FileRecordView, include_rust_tests: bool) -> Seq<
    LineRangeView,
> {
    if include_rust_tests {
        seq![]
    } else {
        record.rust_test_ranges
    }
}

/// The documents of a file, without its annotations: the lines of its anchors, and chunks of
/// it that overlap.
pub open spec fn documents_of_file(
    index: IndexView,
    path: Seq<char>,
    record: FileRecordView,
    text: Seq<char>,
    include_rust_tests: bool,
    config: AnnotationConfigView,
) -> Seq<DocumentView> {
    let all = plain_lines(text, config);
    let tests = tests_left_out(record, include_rust_tests);
    if all.len() == 0 {
        seq![]
    } else {
        with_chunks(
            with_anchored_pieces(
                index,
                path,
                all,
                tests,
                ordered(index.anchors.dom()).len() as int,
            ),
            path,
            all,
            tests,
            1,
        ).documents
    }
}

/// The lines that documents stand for.
struct Seen {
    pairs: Vec<(u32, u32)>,
}

impl Seen {
    closed spec fn set(&self) -> Set<(u32, u32)> {
        self.pairs@.to_set()
    }

    /// Adds lines; tells whether they were not there before.
    fn insert(&mut self, start: u32, end: u32) -> (r: bool)
        ensures
            r == !old(self).set().contains((start, end)),
            final(self).set() == old(self).set().insert((start, end)),
    {
        let mut i: usize = 0;
        while i < self.pairs.len()
            invariant
                i <= self.pairs@.len(),
                self.pairs@ == old(self).pairs@,
                forall|k: int| 0 <= k < i ==> #[trigger] self.pairs@[k] != (start, end),
            decreases self.pairs@.len() - i,
        {
            if self.pairs[i].0 == start && self.pairs[i].1 == end {
                assert(self.pairs@.contains((start, end)));
                assert(self.set() =~= old(self).set().insert((start, end)));
                return false;
            }
            i += 1;
        }
        assert(!self.pairs@.contains((start, end)));
        let ghost before = self.pairs@;
        self.pairs.push((start, end));
        proof {
            let after = self.pairs@;
            assert forall|x: (u32, u32)| #[trigger] after.to_set().contains(x) <==> (
            before.to_set().contains(x) || x == (start, end)) by {
                if before.contains(x) {
                    let k = before.index_of(x);
                    assert(after[k] == x);
                }
                if x == (start, end) {
                    assert(after[before.len() as int] == x);
                }
                if after.contains(x) {
                    let k = after.index_of(x);
                    if k < before.len() {
                        assert(before[k] == x);
                    }
                }
            }
            assert(self.set() =~= old(self).set().insert((start, end)));
        }
        true
    }
}

/// The lines of an anchor in a file of `count` lines, where it stands for lines of it.
fn lines_anchored(location: &Location, path: &str, count: usize) -> (r: Option<(u32, u32)>)
    ensures
        r == anchored_lines(location@, path@, count as int),
{
    if !same_text(location.path.as_str(), path) || location.watch == Some(WatchMode::File) {
        return None;
    }
    match location.line_start {
        None => None,
        Some(start) => {
            let end: u32 = match location.line_end {
                Some(end) => end,
                None => start,
            };
            if start == 0 || end < start || start as u128 > count as u128 {
                None
            } else if end as u128 <= count as u128 {
                Some((start, end))
            } else {
                Some((start, count as u32))
            }
        },
    }
}

/// The documents of a file: the lines of its anchors, and chunks of it that overlap.
pub fn file_documents(
    index: &Index,
    path: &String,
    record: &FileRecord,
    text: &str,
    include_rust_tests: bool,
    config: &AnnotationConfig,
) -> (r: Vec<Document>)
    ensures
        r.deep_view() == documents_of_file(
            index@,
            path@,
            record@,
            text@,
            include_rust_tests,
            config@,
        ),
{
    let mut documents: Vec<Document> = Vec::new();
    assert(documents.deep_view() =~= seq![]);
    let all = strip_lines(text, config);
    if all.len() == 0 {
        return documents;
    }
    let tests: Vec<LineRange> = if include_rust_tests {
        let none: Vec<LineRange> = Vec::new();
        assert(none.deep_view() =~= seq![]);
        none
    } else {
        record.rust_test_ranges.duplicate()
    };
    let ghost ranges = tests_left_out(record@, include_rust_tests);
    let ghost texts = plain_lines(text@, config@);
    let mut seen = Seen { pairs: Vec::new() };
    assert(seen.set() =~= Set::empty());
    let n: usize = index.anchors.len();
    let count: usize = all.len();
    let mut i: usize = 0;
    while i < n
        invariant
            i <= n,
            n == ordered(index@.anchors.dom()).len(),
            count == all@.len(),
            texts == all.deep_view(),
            ranges == tests.deep_view(),
            with_anchored_pieces(index@, path@, texts, ranges, i as int) == (PiecesView {
                documents: documents.deep_view(),
                seen: seen.set(),
            }),
        decreases n - i,
    {
        match &index.anchors.value_at(i).value.location {
            None => {},
            Some(location) => match lines_anchored(location, path.as_str(), count) {
                None => {},
                Some((start, end)) => {
                    if !meets_tests(&tests, start, end) {
                        if seen.insert(start, end) {
                            push_document(&mut documents, path, &all, &tests, start, end, true);
                        }
                    }
                },
            },
        }
        i += 1;
    }
    let ghost anchored = with_anchored_pieces(index@, path@, texts, ranges, n as int);
    let mut start: usize = 1;
    loop
        invariant
            1 <= start,
            start <= count,
            count == all@.len(),
            texts == all.deep_view(),
            ranges == tests.deep_view(),
            with_chunks(anchored, path@, texts, ranges, 1) == with_chunks(
                (PiecesView { documents: documents.deep_view(), seen: seen.set() }),
                path@,
                texts,
                ranges,
                start as int,
            ),
        ensures
            documents.deep_view() == with_chunks(anchored, path@, texts, ranges, 1).documents,
        decreases count - start,
    {
        let end: usize = if count - start < CHUNK_LINES {
            count
        } else {
            start + CHUNK_LINES - 1
        };
        let first: u32 = if start as u128 > u32::MAX as u128 {
            u32::MAX
        } else {
            start as u32
        };
        let last: u32 = if end as u128 > u32::MAX as u128 {
            u32::MAX
        } else {
            end as u32
        };
        let ghost before = PiecesView { documents: documents.deep_view(), seen: seen.set() };
        if seen.insert(first, last) {
            push_document(&mut documents, path, &all, &tests, first, last, false);
        }
        assert(with_piece(before, path@, texts, ranges, first, last, false) =~= (PiecesView {
            documents: documents.deep_view(),
            seen: seen.set(),
        }));
        if end == count {
            break;
        }
        start += CHUNK_LINES - CHUNK_OVERLAP;
    }
    documents
}

/// The files among the first `n` that a search has to look at.
pub open spec fn files_to_search(
    index: IndexView,
    paths: Seq<Seq<char>>,
    terms: Seq<Seq<char>>,
    n: int,
) -> Seq<Seq<char>>
    decreases n,
{
    if n <= 0 {
        seq![]
    } else {
        let before = files_to_search(index, paths, terms, n - 1);
        let path = ordered(index.files.dom())[n - 1];
        if is_path_allowed(path, paths) && may_match(index.files[path].search_bloom, terms) {
            before.push(path)
        } else {
            before
        }
    }
}

/// The files that a search has to look at.
pub fn searched_files(index: &Index, paths: &Vec<String>, terms: &Vec<String>) -> (r: Vec<String>)
    ensures
        r.deep_view() == files_to_search(
            index@,
            paths.deep_view(),
            terms.deep_view(),
            ordered(index@.files.dom()).len() as int,
        ),
{
    let n: usize = index.files.len();
    let mut out: Vec<String> = Vec::new();
    let mut i: usize = 0;
    assert(out.deep_view() =~= seq![]);
    while i < n
        invariant
            i <= n,
            n == ordered(index@.files.dom()).len(),
            out.deep_view() == files_to_search(
                index@,
                paths.deep_view(),
                terms.deep_view(),
                i as int,
            ),
        decreases n - i,
    {
        let path = index.files.key_at(i);
        let record = index.files.value_at(i);
        assert(record.search_bloom.deep_view() =~= record.search_bloom@);
        if path_allowed(path.as_str(), paths) && bloom_might_match(&record.search_bloom, terms) {
            push_item(&mut out, path.clone());
        }
        i += 1;
    }
    out
}

/// How often a word occurs among the first `n`.
pub open spec fn occurrences(tokens: Seq<Seq<char>>, term: Seq<char>, n: int) -> nat
    decreases n,
{
    if n <= 0 {
        0
    } else {
        occurrences(tokens, term, n - 1) + if tokens[n - 1] == term {
            1nat
        } else {
            0nat
        }
    }
}

/// How often a word occurs.
pub fn term_frequency(tokens: &Vec<String>, term: &str) -> (r: usize)
    ensures
        r == occurrences(tokens.deep_view(), term@, tokens@.len() as int),
{
    let ghost all = tokens.deep_view();
    let mut count: usize = 0;
    let mut i: usize = 0;
    while i < tokens.len()
        invariant
            i <= tokens@.len(),
            all == tokens.deep_view(),
            count <= i,
            count == occurrences(all, term@, i as int),
        decreases tokens@.len() - i,
    {
        assert(all[i as int] == tokens@[i as int]@);
        if same_text(tokens[i].as_str(), term) {
            count += 1;
        }
        i += 1;
    }
    count
}

/// Whether a word occurs.
fn has_token(tokens: &Vec<String>, term: &str) -> (r: bool)
    ensures
        r == tokens.deep_view().contains(term@),
{
    let ghost all = tokens.deep_view();
    let mut i: usize = 0;
    while i < tokens.len()
        invariant
            i <= tokens@.len(),
            all == tokens.deep_view(),
            forall|k: int| 0 <= k < i ==> #[trigger] all[k] != term@,
        decreases tokens@.len() - i,
    {
        assert(all[i as int] == tokens@[i as int]@);
        if same_text(tokens[i].as_str(), term) {
            return true;
        }
        i += 1;
    }
    false
}

/// In how many of the first `n` documents a word occurs.
pub open spec fn documents_with(documents: Seq<DocumentView>, term: Seq<char>, n: int) -> nat
    decreases n,
{
    if n <= 0 {
        0
    } else {
        documents_with(documents, term, n - 1) + if documents[n - 1].tokens.contains(term) {
            1nat
        } else {
            0nat
        }
    }
}

/// In how many documents a word occurs.
pub fn document_frequency(documents: &Vec<Document>, term: &str) -> (r: usize)
    ensures
        r == documents_with(documents.deep_view(), term@, documents@.len() as int),
{
    let ghost all = documents.deep_view();
    let mut count: usize = 0;
    let mut i: usize = 0;
    while i < documents.len()
        invariant
            i <= documents@.len(),
            all == documents.deep_view(),
            count <= i,
            count == documents_with(all, term@, i as int),
        decreases documents@.len() - i,
    {
        assert(all[i as int] == documents@[i as int]@);
        if has_token(&documents[i].tokens, term) {
            count += 1;
        }
        i += 1;
    }
    count
}

/// The text of a file that is searched: of one in UTF-8 without zero bytes.
pub fn searched_text(bytes: &[u8]) -> (r: Option<String>)
    ensures
        match r {
            Some(text) => !has_zero(bytes@) && vstd::utf8::valid_utf8(bytes@) && text@
                == vstd::utf8::decode_utf8(bytes@),
            None => has_zero(bytes@) || !vstd::utf8::valid_utf8(bytes@),
        },
{
    if any_zero(bytes) {
        None
    } else {
        text_of_bytes(bytes)
    }
}

/// The words among the first `n` that occur.
pub open spec fn matched_of(tokens: Seq<Seq<char>>, terms: Seq<Seq<char>>, n: int) -> Seq<Seq<char>>
    decreases n,
{
    if n <= 0 {
        seq![]
    } else if tokens.contains(terms[n - 1]) {
        matched_of(tokens, terms, n - 1).push(terms[n - 1])
    } else {
        matched_of(tokens, terms, n - 1)
    }
}

/// The words that occur, in the order given.
pub fn matched_terms(tokens: &Vec<String>, terms: &Vec<String>) -> (r: Vec<String>)
    ensures
        r.deep_view() == matched_of(tokens.deep_view(), terms.deep_view(), terms@.len() as int),
{
    let ghost all = terms.deep_view();
    let mut out: Vec<String> = Vec::new();
    let mut i: usize = 0;
    assert(out.deep_view() =~= seq![]);
    while i < terms.len()
        invariant
            i <= terms@.len(),
            all == terms.deep_view(),
            out.deep_view() == matched_of(tokens.deep_view(), all, i as int),
        decreases terms@.len() - i,
    {
        assert(all[i as int] == terms@[i as int]@);
        if has_token(tokens, terms[i].as_str()) {
            push_item(&mut out, terms[i].clone());
        }
        i += 1;
    }
    out
}

/// Whether the words of a phrase stand together, as text.
pub open spec fn phrase_occurs(tokens: Seq<Seq<char>>, phrase: Seq<Seq<char>>) -> bool {
    crate::text::contains(join(tokens, " "@), join(phrase, " "@))
}

/// Whether the words of a phrase stand together, as text.
pub fn holds_phrase(tokens: &Vec<String>, phrase: &Vec<String>) -> (r: bool)
    ensures
        r == phrase_occurs(tokens.deep_view(), phrase.deep_view()),
{
    let whole = crate::text::join_texts(tokens, " ");
    let part = crate::text::join_texts(phrase, " ");
    crate::text::contains_text(whole.as_str(), part.as_str())
}

/// Whether a document holds an excluded word.
pub open spec fn holds_excluded(tokens: Seq<Seq<char>>, excluded: Set<Seq<char>>) -> bool {
    exists|i: int| 0 <= i < tokens.len() && excluded.contains(#[trigger] tokens[i])
}

/// Whether a document holds an excluded word.
pub fn contains_excluded(document: &Document, excluded: &StringSet) -> (r: bool)
    ensures
        r == holds_excluded(document@.tokens, excluded@),
{
    let ghost all = document@.tokens;
    let mut i: usize = 0;
    while i < document.tokens.len()
        invariant
            i <= document.tokens@.len(),
            all == document.tokens.deep_view(),
            forall|k: int| 0 <= k < i ==> !excluded@.contains(#[trigger] all[k]),
        decreases document.tokens@.len() - i,
    {
        assert(all[i as int] == document.tokens@[i as int]@);
        if excluded.contains(document.tokens[i].as_str()) {
            return true;
        }
        i += 1;
    }
    false
}

/// The words that each line of a text holds, in the order given.
pub open spec fn words_by_line(text: Seq<char>, terms: Seq<Seq<char>>) -> Seq<Seq<Seq<char>>> {
    Seq::new(
        lines(text).len(),
        |i: int| matched_of(tokens_of(lines(text)[i]), terms, terms.len() as int),
    )
}

/// The words that each line of a document holds, in the order given.
pub fn line_matches(document: &Document, terms: &Vec<String>) -> (r: Vec<Vec<String>>)
    ensures
        r.deep_view() == words_by_line(document@.text, terms.deep_view()),
{
    let all = lines_of(&chars_of(document.text.as_str()));
    let ghost wanted = words_by_line(document@.text, terms.deep_view());
    let mut out: Vec<Vec<String>> = Vec::new();
    let mut i: usize = 0;
    assert(out.deep_view() =~= wanted.take(0));
    while i < all.len()
        invariant
            i <= all@.len(),
            all.deep_view() == lines(document@.text),
            wanted == words_by_line(document@.text, terms.deep_view()),
            out.deep_view() == wanted.take(i as int),
        decreases all@.len() - i,
    {
        assert(lines(document@.text)[i as int] == all@[i as int]@);
        let tokens = tokens_of_chars(&all[i]);
        push_item(&mut out, matched_terms(&tokens, terms));
        assert(out.deep_view() =~= wanted.take(i + 1));
        i += 1;
    }
    assert(out.deep_view() =~= wanted);
    out
}

/// Whether no rank is greater than the one at `k`, and none before it as great.
pub open spec fn is_first_greatest(ranks: Seq<u64>, k: int) -> bool {
    &&& 0 <= k < ranks.len()
    &&& forall|j: int| 0 <= j < ranks.len() ==> #[trigger] ranks[j] <= ranks[k]
    &&& forall|j: int| 0 <= j < k ==> #[trigger] ranks[j] < ranks[k]
}

/// The line of a document that fits best, given how well each of its lines fits: the first
/// of the best ones, or the first line where there is none.
pub fn best_matching_line(document: &Document, ranks: &Vec<u64>) -> (r: u32)
    ensures
        ranks@.len() == 0 ==> r == document.start,
        ranks@.len() > 0 ==> exists|k: int|
            #[trigger] is_first_greatest(ranks@, k) && r == line_behind(document.start, k),
{
    if ranks.len() == 0 {
        return document.start;
    }
    let mut best: usize = 0;
    let mut i: usize = 1;
    while i < ranks.len()
        invariant
            best < i <= ranks@.len(),
            is_first_greatest(ranks@.take(i as int), best as int),
        decreases ranks@.len() - i,
    {
        assert(ranks@.take(i as int)[best as int] == ranks@[best as int]);
        assert(forall|j: int|
            0 <= j < i ==> #[trigger] ranks@.take(i + 1)[j] == ranks@.take(i as int)[j]);
        if ranks[i] > ranks[best] {
            best = i;
        }
        i += 1;
    }
    assert(ranks@.take(i as int) =~= ranks@);
    let left = u32::MAX - document.start;
    if best > left as usize {
        u32::MAX
    } else {
        document.start + best as u32
    }
}

/// The first line that two ranges share, and the last.
pub open spec fn shared_lines(a: (u32, u32), b: (u32, u32)) -> (u32, u32) {
    (
        if a.0 >= b.0 {
            a.0
        } else {
            b.0
        },
        if a.1 <= b.1 {
            a.1
        } else {
            b.1
        },
    )
}

/// Whether two ranges share at least half of the shorter one.
pub open spec fn overlap_much(a: (u32, u32), b: (u32, u32)) -> bool {
    let (start, end) = shared_lines(a, b);
    let left = a.1 - a.0 + 1;
    let right = b.1 - b.0 + 1;
    let shortest = if left <= right {
        left
    } else {
        right
    };
    start <= end && 2 * (end - start + 1) >= shortest
}

/// Whether two ranges share at least half of the shorter one.
pub fn ranges_substantially_overlap(
    left_start: u32,
    left_end: u32,
    right_start: u32,
    right_end: u32,
) -> (r: bool)
    ensures
        r == overlap_much((left_start, left_end), (right_start, right_end)),
{
    let start: u32 = if left_start >= right_start {
        left_start
    } else {
        right_start
    };
    let end: u32 = if left_end <= right_end {
        left_end
    } else {
        right_end
    };
    if start > end {
        return false;
    }
    let overlap: u64 = (end - start) as u64 + 1;
    let left: u64 = (left_end - left_start) as u64 + 1;
    let right: u64 = (right_end - right_start) as u64 + 1;
    let shortest: u64 = if left <= right {
        left
    } else {
        right
    };
    2 * overlap >= shortest
}

/// The anchors among the first `n` that stand in a file and meet some lines of it.
pub open spec fn bounded_anchors(
    index: IndexView,
    path: Seq<char>,
    start: u32,
    end: u32,
    n: int,
) -> Seq<Seq<char>>
    decreases n,
{
    if n <= 0 {
        seq![]
    } else {
        let before = bounded_anchors(index, path, start, end, n - 1);
        let id = ordered(index.anchors.dom())[n - 1];
        match index.anchors[id].value.location {
            Some(location) => if location.path == path && location.watch != Some(WatchMode::File)
                && location.line_start is Some && location.line_start->0 <= end && start <= (
            match location.line_end {
                Some(last) => last,
                None => location.line_start->0,
            }) {
                before.push(id)
            } else {
                before
            },
            None => before,
        }
    }
}

/// The anchors among the first `n` that watch a file.
pub open spec fn file_anchors(index: IndexView, path: Seq<char>, n: int) -> Seq<Seq<char>>
    decreases n,
{
    if n <= 0 {
        seq![]
    } else {
        let before = file_anchors(index, path, n - 1);
        let id = ordered(index.anchors.dom())[n - 1];
        match index.anchors[id].value.location {
            Some(location) => if location.path == path && location.watch == Some(WatchMode::File) {
                before.push(id)
            } else {
                before
            },
            None => before,
        }
    }
}

/// The anchors of some lines of a file: those that meet them, else those that watch the file.
pub open spec fn anchors_at(index: IndexView, path: Seq<char>, start: u32, end: u32) -> Seq<
    Seq<char>,
> {
    let n = ordered(index.anchors.dom()).len() as int;
    let bounded = bounded_anchors(index, path, start, end, n);
    if bounded.len() == 0 {
        file_anchors(index, path, n)
    } else {
        bounded
    }
}

/// The anchors of some lines of a file.
pub fn anchors_for_span(index: &Index, path: &str, start: u32, end: u32) -> (r: Vec<String>)
    ensures
        r.deep_view() == anchors_at(index@, path@, start, end),
{
    let n: usize = index.anchors.len();
    let mut bounded: Vec<String> = Vec::new();
    let mut file: Vec<String> = Vec::new();
    let mut i: usize = 0;
    assert(bounded.deep_view() =~= seq![]);
    assert(file.deep_view() =~= seq![]);
    while i < n
        invariant
            i <= n,
            n == ordered(index@.anchors.dom()).len(),
            bounded.deep_view() == bounded_anchors(index@, path@, start, end, i as int),
            file.deep_view() == file_anchors(index@, path@, i as int),
        decreases n - i,
    {
        let id = index.anchors.key_at(i);
        match &index.anchors.value_at(i).value.location {
            None => {},
            Some(location) => {
                if same_text(location.path.as_str(), path) {
                    if location.watch == Some(WatchMode::File) {
                        push_item(&mut file, id.clone());
                    } else {
                        match location.line_start {
                            None => {},
                            Some(first) => {
                                let last: u32 = match location.line_end {
                                    Some(last) => last,
                                    None => first,
                                };
                                if first <= end && start <= last {
                                    push_item(&mut bounded, id.clone());
                                }
                            },
                        }
                    }
                }
            },
        }
        i += 1;
    }
    if bounded.len() == 0 {
        file
    } else {
        bounded
    }
}

/// The lines of an anchor that hold a line of a file.
pub open spec fn span_holding(location: Option<LocationView>, path: Seq<char>, line: u32) -> Option<
    Span,
> {
    match location {
        None => None,
        Some(location) => if location.path != path || location.watch == Some(WatchMode::File) {
            None
        } else {
            match location.line_start {
                None => None,
                Some(start) => {
                    let end = match location.line_end {
                        Some(end) => end,
                        None => start,
                    };
                    if start <= line <= end {
                        Some(Span { start_line: start, end_line: end })
                    } else {
                        None
                    }
                },
            }
        },
    }
}

/// How many lines a span has, less one.
pub open spec fn span_length(span: Span) -> int {
    if span.end_line >= span.start_line {
        span.end_line - span.start_line
    } else {
        0
    }
}

/// The shortest lines of one of the first `n` anchors that hold a line of a file.
pub open spec fn shortest_span(index: IndexView, path: Seq<char>, line: u32, n: int) -> Option<Span>
    decreases n,
{
    if n <= 0 {
        None
    } else {
        let before = shortest_span(index, path, line, n - 1);
        let id = ordered(index.anchors.dom())[n - 1];
        match span_holding(index.anchors[id].value.location, path, line) {
            None => before,
            Some(span) => if before is None || span_length(span) < span_length(before->0) {
                Some(span)
            } else {
                before
            },
        }
    }
}

/// The shortest lines of an anchor that hold a line of a file.
pub fn indexed_span_for_line(index: &Index, path: &str, line: u32) -> (r: Option<Span>)
    ensures
        r == shortest_span(index@, path@, line, ordered(index@.anchors.dom()).len() as int),
{
    let n: usize = index.anchors.len();
    let mut best: Option<Span> = None;
    let mut i: usize = 0;
    while i < n
        invariant
            i <= n,
            n == ordered(index@.anchors.dom()).len(),
            best == shortest_span(index@, path@, line, i as int),
        decreases n - i,
    {
        match &index.anchors.value_at(i).value.location {
            None => {},
            Some(location) => {
                if same_text(location.path.as_str(), path) && location.watch != Some(
                    WatchMode::File,
                ) {
                    match location.line_start {
                        None => {},
                        Some(start) => {
                            let end: u32 = match location.line_end {
                                Some(end) => end,
                                None => start,
                            };
                            if start <= line && line <= end {
                                let shorter = match best {
                                    None => true,
                                    Some(span) => {
                                        let known: u32 = if span.end_line >= span.start_line {
                                            span.end_line - span.start_line
                                        } else {
                                            0
                                        };
                                        end - start < known
                                    },
                                };
                                if shorter {
                                    best = Some(Span { start_line: start, end_line: end });
                                }
                            }
                        },
                    }
                }
            },
        }
        i += 1;
    }
    best
}

/// A document that a search ranks.
#[derive(Debug, Clone)]
pub struct RankedDocument {
    /// Which document it is.
    pub document: usize,
    /// How well it fits: more is better.
    pub rank: u64,
    /// How well it fits, for show.
    pub score: u32,
    /// Its line that fits best.
    pub best_line: u32,
}

/// The mathematical content of a [`RankedDocument`].
#[verifier::ext_equal]
pub ghost struct RankedDocumentView {
    pub document: usize,
    pub rank: u64,
    pub score: u32,
    pub best_line: u32,
}

impl View for RankedDocument {
    type V = RankedDocumentView;

    open spec fn view(&self) -> RankedDocumentView {
        RankedDocumentView {
            document: self.document.deep_view(),
            rank: self.rank.deep_view(),
            score: self.score.deep_view(),
            best_line: self.best_line.deep_view(),
        }
    }
}

impl DeepView for RankedDocument {
    type V = RankedDocumentView;

    open spec fn deep_view(&self) -> RankedDocumentView {
        self@
    }
}

impl Duplicate for RankedDocument {
    fn duplicate(&self) -> (r: Self) {
        RankedDocument {
            document: self.document,
            rank: self.rank,
            score: self.score,
            best_line: self.best_line,
        }
    }
}

/// Whether a ranked document comes before another: the one that fits better, then the one
/// with fewer words, then by path and by line.
pub open spec fn ranks_before(
    documents: Seq<DocumentView>,
    a: RankedDocumentView,
    b: RankedDocumentView,
) -> bool {
    let x = documents[a.document as int];
    let y = documents[b.document as int];
    if a.rank != b.rank {
        a.rank > b.rank
    } else if x.tokens.len() != y.tokens.len() {
        x.tokens.len() < y.tokens.len()
    } else if x.path != y.path {
        text_less(x.path, y.path)
    } else {
        x.start < y.start
    }
}

/// A ranked document put behind the last one that does not come after it.
pub open spec fn insert_ranked(
    documents: Seq<DocumentView>,
    sorted: Seq<RankedDocumentView>,
    x: RankedDocumentView,
) -> Seq<RankedDocumentView>
    decreases sorted.len(),
{
    if sorted.len() == 0 || !ranks_before(documents, x, sorted.last()) {
        sorted.push(x)
    } else {
        insert_ranked(documents, sorted.drop_last(), x).push(sorted.last())
    }
}

/// Ranked documents, the best first.
pub open spec fn sort_ranked(
    documents: Seq<DocumentView>,
    ranked: Seq<RankedDocumentView>,
) -> Seq<RankedDocumentView>
    decreases ranked.len(),
{
    if ranked.len() == 0 {
        ranked
    } else {
        insert_ranked(documents, sort_ranked(documents, ranked.drop_last()), ranked.last())
    }
}

proof fn lemma_insert_ranked(
    documents: Seq<DocumentView>,
    sorted: Seq<RankedDocumentView>,
    x: RankedDocumentView,
    at: int,
)
    requires
        0 <= at <= sorted.len(),
        forall|k: int| at <= k < sorted.len() ==> ranks_before(documents, x, #[trigger] sorted[k]),
        at > 0 ==> !ranks_before(documents, x, sorted[at - 1]),
    ensures
        insert_ranked(documents, sorted, x) == sorted.insert(at, x),
    decreases sorted.len(),
{
    if at == sorted.len() {
        assert(sorted.insert(at, x) =~= sorted.push(x));
    } else {
        lemma_insert_ranked(documents, sorted.drop_last(), x, at);
        assert(sorted.insert(at, x) =~= sorted.drop_last().insert(at, x).push(sorted.last()));
    }
}

/// Whether a ranked document comes before another.
fn ranked_first(documents: &Vec<Document>, a: &RankedDocument, b: &RankedDocument) -> (r: bool)
    requires
        a.document < documents@.len(),
        b.document < documents@.len(),
    ensures
        r == ranks_before(documents.deep_view(), a@, b@),
{
    let x = &documents[a.document];
    let y = &documents[b.document];
    assert(documents.deep_view()[a.document as int] == x@);
    assert(documents.deep_view()[b.document as int] == y@);
    if a.rank != b.rank {
        return a.rank > b.rank;
    }
    if x.tokens.len() != y.tokens.len() {
        return x.tokens.len() < y.tokens.len();
    }
    if !same_text(x.path.as_str(), y.path.as_str()) {
        return text_before(x.path.as_str(), y.path.as_str());
    }
    x.start < y.start
}

/// Whether all ranked documents are among the documents.
pub open spec fn ranks_known(ranked: Seq<RankedDocumentView>, count: int) -> bool {
    forall|i: int| 0 <= i < ranked.len() ==> (#[trigger] ranked[i]).document < count
}

/// Ranked documents, the best first.
fn sorted_ranked(documents: &Vec<Document>, ranked: &Vec<RankedDocument>) -> (r: Vec<
    RankedDocument,
>)
    requires
        ranks_known(ranked.deep_view(), documents@.len() as int),
    ensures
        r.deep_view() == sort_ranked(documents.deep_view(), ranked.deep_view()),
        ranks_known(r.deep_view(), documents@.len() as int),
{
    let mut out: Vec<RankedDocument> = Vec::new();
    let ghost docs = documents.deep_view();
    let ghost all = ranked.deep_view();
    let mut i: usize = 0;
    assert(all.take(0) =~= seq![]);
    assert(out.deep_view() =~= sort_ranked(docs, all.take(0)));
    while i < ranked.len()
        invariant
            i <= ranked@.len(),
            docs == documents.deep_view(),
            all == ranked.deep_view(),
            ranks_known(all, docs.len() as int),
            ranks_known(out.deep_view(), docs.len() as int),
            out.deep_view() == sort_ranked(docs, all.take(i as int)),
        decreases ranked@.len() - i,
    {
        let x = ranked[i].duplicate();
        assert(all[i as int] == x@);
        assert(all.take(i + 1).drop_last() =~= all.take(i as int));
        let ghost before = out.deep_view();
        let mut at: usize = out.len();
        while at > 0
            invariant
                at <= out@.len(),
                docs == documents.deep_view(),
                before == out.deep_view(),
                x.document < documents@.len(),
                ranks_known(before, docs.len() as int),
                forall|k: int|
                    at <= k < before.len() ==> ranks_before(docs, x@, #[trigger] before[k]),
            ensures
                at <= out@.len(),
                forall|k: int|
                    at <= k < before.len() ==> ranks_before(docs, x@, #[trigger] before[k]),
                at > 0 ==> !ranks_before(docs, x@, before[at - 1]),
            decreases at,
        {
            assert(before[at - 1] == out@[at - 1]@);
            if !ranked_first(documents, &x, &out[at - 1]) {
                break;
            }
            at -= 1;
        }
        proof {
            lemma_insert_ranked(docs, before, x@, at as int);
        }
        let ghost view = x@;
        out.insert(at, x);
        assert(out.deep_view() =~= before.insert(at as int, view));
        assert forall|k: int| 0 <= k < out.deep_view().len() implies (
        #[trigger] out.deep_view()[k]).document < docs.len() by {
            if k < at {
                assert(out.deep_view()[k] == before[k]);
            } else if k > at {
                assert(out.deep_view()[k] == before[k - 1]);
            }
        }
        i += 1;
    }
    assert(all.take(all.len() as int) =~= all);
    out
}

/// The ranked documents among the first `n` that hold no excluded word.
pub open spec fn admitted(
    documents: Seq<DocumentView>,
    excluded: Set<Seq<char>>,
    ranked: Seq<RankedDocumentView>,
    n: int,
) -> Seq<RankedDocumentView>
    decreases n,
{
    if n <= 0 {
        seq![]
    } else if holds_excluded(documents[ranked[n - 1].document as int].tokens, excluded) {
        admitted(documents, excluded, ranked, n - 1)
    } else {
        admitted(documents, excluded, ranked, n - 1).push(ranked[n - 1])
    }
}

/// The ranked documents that hold no excluded word.
pub fn admitted_documents(
    documents: &Vec<Document>,
    excluded: &StringSet,
    ranked: &Vec<RankedDocument>,
) -> (r: Vec<RankedDocument>)
    requires
        ranks_known(ranked.deep_view(), documents@.len() as int),
    ensures
        r.deep_view() == admitted(
            documents.deep_view(),
            excluded@,
            ranked.deep_view(),
            ranked@.len() as int,
        ),
        ranks_known(r.deep_view(), documents@.len() as int),
{
    let ghost docs = documents.deep_view();
    let ghost all = ranked.deep_view();
    let mut out: Vec<RankedDocument> = Vec::new();
    let mut i: usize = 0;
    assert(out.deep_view() =~= seq![]);
    while i < ranked.len()
        invariant
            i <= ranked@.len(),
            docs == documents.deep_view(),
            all == ranked.deep_view(),
            ranks_known(all, docs.len() as int),
            ranks_known(out.deep_view(), docs.len() as int),
            out.deep_view() == admitted(docs, excluded@, all, i as int),
        decreases ranked@.len() - i,
    {
        assert(all[i as int] == ranked@[i as int]@);
        let document = &documents[ranked[i].document];
        assert(docs[ranked@[i as int].document as int] == document@);
        if !contains_excluded(document, excluded) {
            push_item(&mut out, ranked[i].duplicate());
        }
        i += 1;
    }
    out
}

/// Whether lines of a file share at least half with those of one of the hits.
pub open spec fn is_repeated(hits: Seq<SearchHitView>, path: Seq<char>, span: Span) -> bool {
    exists|i: int|
        0 <= i < hits.len() && (#[trigger] hits[i]).path == path && overlap_much(
            (hits[i].line_start, hits[i].line_end),
            (span.start_line, span.end_line),
        )
}

/// Whether lines of a file share at least half with those of one of the hits.
fn repeats(hits: &Vec<SearchHit>, path: &str, span: Span) -> (r: bool)
    ensures
        r == is_repeated(hits.deep_view(), path@, span),
{
    let ghost all = hits.deep_view();
    let mut i: usize = 0;
    while i < hits.len()
        invariant
            i <= hits@.len(),
            all == hits.deep_view(),
            forall|k: int|
                0 <= k < i ==> !((#[trigger] all[k]).path == path@ && overlap_much(
                    (all[k].line_start, all[k].line_end),
                    (span.start_line, span.end_line),
                )),
        decreases hits@.len() - i,
    {
        assert(all[i as int] == hits@[i as int]@);
        if same_text(hits[i].path.as_str(), path) && ranges_substantially_overlap(
            hits[i].line_start,
            hits[i].line_end,
            span.start_line,
            span.end_line,
        ) {
            return true;
        }
        i += 1;
    }
    false
}

/// The lines that a hit shows: those of the anchor that the document is, else those of the
/// shortest anchor around its best line, else the smallest unit around it.
pub open spec fn hit_span(
    index: IndexView,
    sources: Map<Seq<char>, Seq<char>>,
    document: DocumentView,
    best_line: u32,
) -> Span {
    if document.anchored {
        Span { start_line: document.start, end_line: document.end }
    } else {
        match shortest_span(
            index,
            document.path,
            best_line,
            ordered(index.anchors.dom()).len() as int,
        ) {
            Some(span) => span,
            None => enclosing_span(document.path, sources[document.path], best_line as int),
        }
    }
}

/// The hit of a ranked document.
pub open spec fn hit_of(
    index: IndexView,
    sources: Map<Seq<char>, Seq<char>>,
    documents: Seq<DocumentView>,
    terms: Seq<Seq<char>>,
    x: RankedDocumentView,
) -> SearchHitView {
    let document = documents[x.document as int];
    let span = hit_span(index, sources, document, x.best_line);
    SearchHitView {
        path: document.path,
        line_start: span.start_line,
        line_end: span.end_line,
        score: x.score,
        matched: matched_of(document.tokens, terms, terms.len() as int),
        anchors: anchors_at(index, document.path, span.start_line, span.end_line),
    }
}

/// The hits of the first `n` ranked documents: at most `limit`, and none that mostly repeats
/// the lines of one before it.
pub open spec fn hits_of(
    index: IndexView,
    sources: Map<Seq<char>, Seq<char>>,
    documents: Seq<DocumentView>,
    terms: Seq<Seq<char>>,
    ranked: Seq<RankedDocumentView>,
    limit: int,
    n: int,
) -> Seq<SearchHitView>
    decreases n,
{
    if n <= 0 {
        seq![]
    } else {
        let before = hits_of(index, sources, documents, terms, ranked, limit, n - 1);
        let x = ranked[n - 1];
        let document = documents[x.document as int];
        let span = hit_span(index, sources, document, x.best_line);
        if before.len() >= limit || is_repeated(before, document.path, span) {
            before
        } else {
            before.push(hit_of(index, sources, documents, terms, x))
        }
    }
}

/// The ranked documents that a search shows, the best first: those that hold no excluded word.
pub open spec fn shown_documents(
    documents: Seq<DocumentView>,
    excluded: Set<Seq<char>>,
    ranked: Seq<RankedDocumentView>,
) -> Seq<RankedDocumentView> {
    sort_ranked(documents, admitted(documents, excluded, ranked, ranked.len() as int))
}

/// The hits of a search.
pub open spec fn found_hits(
    index: IndexView,
    sources: Map<Seq<char>, Seq<char>>,
    documents: Seq<DocumentView>,
    query: QueryView,
    ranked: Seq<RankedDocumentView>,
    limit: int,
) -> Seq<SearchHitView> {
    let shown = shown_documents(documents, query.excluded, ranked);
    hits_of(index, sources, documents, query.terms, shown, limit, shown.len() as int)
}

/// Once there are enough hits, there are no more.
proof fn lemma_enough_hits(
    index: IndexView,
    sources: Map<Seq<char>, Seq<char>>,
    documents: Seq<DocumentView>,
    terms: Seq<Seq<char>>,
    ranked: Seq<RankedDocumentView>,
    limit: int,
    n: int,
    m: int,
)
    requires
        n <= m,
        hits_of(index, sources, documents, terms, ranked, limit, n).len() >= limit,
    ensures
        hits_of(index, sources, documents, terms, ranked, limit, m) == hits_of(
            index,
            sources,
            documents,
            terms,
            ranked,
            limit,
            n,
        ),
    decreases m - n,
{
    if n < m {
        lemma_enough_hits(index, sources, documents, terms, ranked, limit, n, m - 1);
    }
}

/// The hits of a search, from the documents as they are ranked: documents that hold an
/// excluded word give none. `sources` holds the text of the file of each document.
pub fn search(
    index: &Index,
    sources: &StringMap<String>,
    documents: &Vec<Document>,
    query: &Query,
    ranked: &Vec<RankedDocument>,
    limit: usize,
) -> (r: Result<Vec<SearchHit>, String>)
    requires
        ranks_known(ranked.deep_view(), documents@.len() as int),
        forall|i: int|
            0 <= i < documents@.len() ==> sources@.contains_key(
                (#[trigger] documents.deep_view()[i]).path,
            ),
    ensures
        match r {
            Ok(hits) => limit > 0 && hits.deep_view() == found_hits(
                index@,
                sources@,
                documents.deep_view(),
                query@,
                ranked.deep_view(),
                limit as int,
            ),
            Err(message) => limit == 0 && message@
                == "--search-limit must be greater than zero"@,
        },
{
    if limit == 0 {
        return Err("--search-limit must be greater than zero".to_owned());
    }
    let kept = admitted_documents(documents, &query.excluded, ranked);
    let sorted = sorted_ranked(documents, &kept);
    let ghost docs = documents.deep_view();
    let ghost terms = query@.terms;
    let ghost order = shown_documents(docs, query@.excluded, ranked.deep_view());
    assert(ranked@.len() == ranked.deep_view().len());
    let mut hits: Vec<SearchHit> = Vec::new();
    let mut i: usize = 0;
    assert(hits.deep_view() =~= seq![]);
    while i < sorted.len()
        invariant_except_break
            hits@.len() < limit,
            hits.deep_view() == hits_of(
                index@,
                sources@,
                docs,
                terms,
                order,
                limit as int,
                i as int,
            ),
        invariant
            i <= sorted@.len(),
            docs == documents.deep_view(),
            order == sorted.deep_view(),
            terms == query@.terms,
            ranks_known(order, docs.len() as int),
            forall|k: int|
                0 <= k < docs.len() ==> sources@.contains_key((#[trigger] docs[k]).path),
        ensures
            hits.deep_view() == hits_of(
                index@,
                sources@,
                docs,
                terms,
                order,
                limit as int,
                order.len() as int,
            ),
        decreases sorted@.len() - i,
    {
        let x = &sorted[i];
        assert(order[i as int] == x@);
        let document = &documents[x.document];
        assert(docs[x.document as int] == document@);
        let span: Span = if document.anchored {
            Span { start_line: document.start, end_line: document.end }
        } else {
            match indexed_span_for_line(index, document.path.as_str(), x.best_line) {
                Some(span) => span,
                None => {
                    let source = match sources.get(document.path.as_str()) {
                        Some(source) => source.clone(),
                        None => String::new(),
                    };
                    enclosing(document.path.as_str(), source.as_str(), x.best_line as usize)
                },
            }
        };
        if !repeats(&hits, document.path.as_str(), span) {
            let anchors = anchors_for_span(
                index,
                document.path.as_str(),
                span.start_line,
                span.end_line,
            );
            push_item(
                &mut hits,
                SearchHit {
                    path: document.path.clone(),
                    line_start: span.start_line,
                    line_end: span.end_line,
                    score: x.score,
                    matched: matched_terms(&document.tokens, &query.terms),
                    anchors,
                },
            );
            if hits.len() == limit {
                proof {
                    lemma_enough_hits(
                        index@,
                        sources@,
                        docs,
                        terms,
                        order,
                        limit as int,
                        i + 1,
                        order.len() as int,
                    );
                }
                break;
            }
        }
        i += 1;
    }
    Ok(hits)
}

/// Whether one of two ranges shares at least half with the other does not depend on which of
/// them is asked.
pub proof fn overlapping_much_is_symmetric(a: (u32, u32), b: (u32, u32))
    ensures
        overlap_much(a, b) == overlap_much(b, a),
{
}

/// A search gives no more hits than asked for, and no two hits of one file share half of the
/// shorter one.
pub proof fn hits_are_few_and_apart(
    index: IndexView,
    sources: Map<Seq<char>, Seq<char>>,
    documents: Seq<DocumentView>,
    terms: Seq<Seq<char>>,
    ranked: Seq<RankedDocumentView>,
    limit: int,
    n: int,
)
    requires
        limit >= 0,
    ensures
        hits_of(index, sources, documents, terms, ranked, limit, n).len() <= limit,
        forall|i: int, j: int|
            0 <= i < j < hits_of(index, sources, documents, terms, ranked, limit, n).len() ==> ({
                let a = #[trigger] hits_of(index, sources, documents, terms, ranked, limit, n)[i];
                let b = #[trigger] hits_of(index, sources, documents, terms, ranked, limit, n)[j];
                a.path == b.path ==> !overlap_much(
                    (a.line_start, a.line_end),
                    (b.line_start, b.line_end),
                )
            }),
    decreases n,
{
    if n > 0 {
        hits_are_few_and_apart(index, sources, documents, terms, ranked, limit, n - 1);
        let before = hits_of(index, sources, documents, terms, ranked, limit, n - 1);
        let all = hits_of(index, sources, documents, terms, ranked, limit, n);
        assert forall|i: int, j: int| 0 <= i < j < all.len() implies ({
            let a = #[trigger] all[i];
            let b = #[trigger] all[j];
            a.path == b.path ==> !overlap_much(
                (a.line_start, a.line_end),
                (b.line_start, b.line_end),
            )
        }) by {
            assert(all[i] == before[i]);
            if j < before.len() {
                assert(all[j] == before[j]);
            }
        }
    }
}

/// Ranked documents that do not come before each other in a row do not do so as a whole.
proof fn lemma_ranks_in_row(
    documents: Seq<DocumentView>,
    a: RankedDocumentView,
    b: RankedDocumentView,
    c: RankedDocumentView,
)
    ensures
        !ranks_before(documents, a, b) && !ranks_before(documents, b, c) ==> !ranks_before(
            documents,
            a,
            c,
        ),
        ranks_before(documents, a, b) ==> !ranks_before(documents, b, a),
{
    let x = documents[a.document as int].path;
    let y = documents[b.document as int].path;
    let z = documents[c.document as int].path;
    lemma_text_less_total(x, y);
    lemma_text_less_total(y, z);
    lemma_text_less_irreflexive(x);
    if text_less(x, y) && text_less(y, x) {
        lemma_text_less_transitive(x, y, x);
    }
    if text_less(y, x) && text_less(z, y) {
        lemma_text_less_transitive(z, y, x);
    }
    if text_less(x, z) && text_less(z, x) {
        lemma_text_less_transitive(x, z, x);
    }
}

/// Whether no ranked document comes before one that stands in front of it.
pub open spec fn ranks_in_order(documents: Seq<DocumentView>, all: Seq<RankedDocumentView>) -> bool {
    forall|i: int, j: int|
        0 <= i < j < all.len() ==> !ranks_before(documents, #[trigger] all[j], #[trigger] all[i])
}

proof fn lemma_pushed(all: Seq<RankedDocumentView>, x: RankedDocumentView, y: RankedDocumentView)
    ensures
        all.push(x).contains(y) <==> all.contains(y) || y == x,
{
    let more = all.push(x);
    if more.contains(y) {
        let k = more.index_of(y);
        if k < all.len() {
            assert(all[k] == y);
        }
    }
    if all.contains(y) {
        let k = all.index_of(y);
        assert(more[k] == y);
    }
    assert(more[all.len() as int] == x);
}

proof fn lemma_rank_inserted(
    documents: Seq<DocumentView>,
    sorted: Seq<RankedDocumentView>,
    x: RankedDocumentView,
)
    requires
        ranks_in_order(documents, sorted),
    ensures
        ranks_in_order(documents, insert_ranked(documents, sorted, x)),
        insert_ranked(documents, sorted, x).len() == sorted.len() + 1,
        forall|y: RankedDocumentView| #[trigger]
            insert_ranked(documents, sorted, x).contains(y) <==> sorted.contains(y) || y == x,
    decreases sorted.len(),
{
    let now = insert_ranked(documents, sorted, x);
    if sorted.len() == 0 || !ranks_before(documents, x, sorted.last()) {
        assert forall|i: int, j: int| 0 <= i < j < now.len() implies !ranks_before(
            documents,
            #[trigger] now[j],
            #[trigger] now[i],
        ) by {
            assert(now[i] == sorted[i]);
            if j < sorted.len() {
                assert(now[j] == sorted[j]);
            } else if i < sorted.len() - 1 {
                assert(!ranks_before(documents, sorted[sorted.len() - 1], sorted[i]));
                lemma_ranks_in_row(documents, x, sorted.last(), sorted[i]);
            }
        }
        assert forall|y: RankedDocumentView| #[trigger]
            now.contains(y) <==> sorted.contains(y) || y == x by {
            lemma_pushed(sorted, x, y);
        }
    } else {
        let front = sorted.drop_last();
        let last = sorted.last();
        lemma_rank_inserted(documents, front, x);
        let before = insert_ranked(documents, front, x);
        assert forall|i: int, j: int| 0 <= i < j < now.len() implies !ranks_before(
            documents,
            #[trigger] now[j],
            #[trigger] now[i],
        ) by {
            assert(now[i] == before[i]);
            if j < before.len() {
                assert(now[j] == before[j]);
            } else {
                assert(before.contains(before[i]));
                if front.contains(before[i]) {
                    let k = front.index_of(before[i]);
                    assert(sorted[k] == before[i]);
                } else {
                    lemma_ranks_in_row(documents, x, last, x);
                }
            }
        }
        assert forall|y: RankedDocumentView| #[trigger]
            now.contains(y) <==> sorted.contains(y) || y == x by {
            lemma_pushed(before, last, y);
            assert(front.push(last) =~= sorted);
            lemma_pushed(front, last, y);
        }
    }
}

/// Ranked documents in order are the documents that were ranked, all of them, the best first.
pub proof fn ranked_documents_are_sorted(
    documents: Seq<DocumentView>,
    ranked: Seq<RankedDocumentView>,
)
    ensures
        ranks_in_order(documents, sort_ranked(documents, ranked)),
        sort_ranked(documents, ranked).len() == ranked.len(),
        forall|y: RankedDocumentView| #[trigger]
            sort_ranked(documents, ranked).contains(y) <==> ranked.contains(y),
    decreases ranked.len(),
{
    if ranked.len() > 0 {
        ranked_documents_are_sorted(documents, ranked.drop_last());
        lemma_rank_inserted(
            documents,
            sort_ranked(documents, ranked.drop_last()),
            ranked.last(),
        );
        assert forall|y: RankedDocumentView| #[trigger]
            sort_ranked(documents, ranked).contains(y) <==> ranked.contains(y) by {
            assert(ranked.drop_last().push(ranked.last()) =~= ranked);
            lemma_pushed(ranked.drop_last(), ranked.last(), y);
        }
    }
}

pub(crate) proof fn lemma_admitted(
    documents: Seq<DocumentView>,
    excluded: Set<Seq<char>>,
    ranked: Seq<RankedDocumentView>,
    n: int,
    y: RankedDocumentView,
)
    requires
        0 <= n <= ranked.len(),
    ensures
        admitted(documents, excluded, ranked, n).contains(y) <==> ranked.take(n).contains(y)
            && !holds_excluded(documents[y.document as int].tokens, excluded),
    decreases n,
{
    if n > 0 {
        lemma_admitted(documents, excluded, ranked, n - 1, y);
        assert(ranked.take(n) =~= ranked.take(n - 1).push(ranked[n - 1]));
        lemma_pushed(ranked.take(n - 1), ranked[n - 1], y);
        lemma_pushed(admitted(documents, excluded, ranked, n - 1), ranked[n - 1], y);
    }
}

/// Which ranked document a hit is one of: `places` tells it for each of the hits so far, in
/// the order of the hits.
spec fn hits_are_at(
    index: IndexView,
    sources: Map<Seq<char>, Seq<char>>,
    documents: Seq<DocumentView>,
    terms: Seq<Seq<char>>,
    ranked: Seq<RankedDocumentView>,
    hits: Seq<SearchHitView>,
    places: Seq<int>,
    n: int,
) -> bool {
    &&& places.len() == hits.len()
    &&& forall|i: int|
        0 <= i < hits.len() ==> 0 <= #[trigger] places[i] < n && hits[i] == hit_of(
            index,
            sources,
            documents,
            terms,
            ranked[places[i]],
        )
    &&& forall|i: int, j: int|
        0 <= i < j < hits.len() ==> #[trigger] places[i] < #[trigger] places[j]
}

proof fn lemma_hits_at(
    index: IndexView,
    sources: Map<Seq<char>, Seq<char>>,
    documents: Seq<DocumentView>,
    terms: Seq<Seq<char>>,
    ranked: Seq<RankedDocumentView>,
    limit: int,
    n: int,
) -> (places: Seq<int>)
    requires
        0 <= n <= ranked.len(),
    ensures
        hits_are_at(
            index,
            sources,
            documents,
            terms,
            ranked,
            hits_of(index, sources, documents, terms, ranked, limit, n),
            places,
            n,
        ),
    decreases n,
{
    if n == 0 {
        seq![]
    } else {
        let known = lemma_hits_at(index, sources, documents, terms, ranked, limit, n - 1);
        let before = hits_of(index, sources, documents, terms, ranked, limit, n - 1);
        let now = hits_of(index, sources, documents, terms, ranked, limit, n);
        if now.len() == before.len() {
            known
        } else {
            known.push(n - 1)
        }
    }
}

/// Whether one hit is of a ranked document that stands before that of another.
pub open spec fn hits_stand_in_order(
    index: IndexView,
    sources: Map<Seq<char>, Seq<char>>,
    documents: Seq<DocumentView>,
    terms: Seq<Seq<char>>,
    shown: Seq<RankedDocumentView>,
    first: SearchHitView,
    second: SearchHitView,
) -> bool {
    exists|a: int, b: int|
        0 <= a < b < shown.len() && first == hit_of(
            index,
            sources,
            documents,
            terms,
            #[trigger] shown[a],
        ) && second == hit_of(index, sources, documents, terms, #[trigger] shown[b])
            && shown[a].rank >= shown[b].rank
}

/// The hits of a search come in the order of their ranks. Where scores follow ranks, the
/// scores never increase along the hits.
pub proof fn hits_come_in_rank_order(
    index: IndexView,
    sources: Map<Seq<char>, Seq<char>>,
    documents: Seq<DocumentView>,
    query: QueryView,
    ranked: Seq<RankedDocumentView>,
    limit: int,
)
    ensures
        ({
            let hits = found_hits(index, sources, documents, query, ranked, limit);
            let shown = shown_documents(documents, query.excluded, ranked);
            &&& forall|i: int, j: int|
                0 <= i < j < hits.len() ==> hits_stand_in_order(
                    index,
                    sources,
                    documents,
                    query.terms,
                    shown,
                    #[trigger] hits[i],
                    #[trigger] hits[j],
                )
            &&& (forall|a: int, b: int|
                0 <= a < ranked.len() && 0 <= b < ranked.len() && (#[trigger] ranked[a]).rank >= (
                #[trigger] ranked[b]).rank ==> ranked[a].score >= ranked[b].score) ==> forall|
                i: int,
                j: int,
            |
                0 <= i < j < hits.len() ==> (#[trigger] hits[i]).score >= (
                #[trigger] hits[j]).score
        }),
{
    let kept = admitted(documents, query.excluded, ranked, ranked.len() as int);
    let shown = shown_documents(documents, query.excluded, ranked);
    let n = shown.len() as int;
    let hits = found_hits(index, sources, documents, query, ranked, limit);
    ranked_documents_are_sorted(documents, kept);
    let places = lemma_hits_at(index, sources, documents, query.terms, shown, limit, n);
    assert forall|i: int, j: int| 0 <= i < j < hits.len() implies hits_stand_in_order(
        index,
        sources,
        documents,
        query.terms,
        shown,
        #[trigger] hits[i],
        #[trigger] hits[j],
    ) by {
        let a = places[i];
        let b = places[j];
        assert(a < b);
        assert(!ranks_before(documents, shown[b], shown[a]));
    }
    if forall|a: int, b: int|
        0 <= a < ranked.len() && 0 <= b < ranked.len() && (#[trigger] ranked[a]).rank >= (
        #[trigger] ranked[b]).rank ==> ranked[a].score >= ranked[b].score {
        assert forall|i: int, j: int| 0 <= i < j < hits.len() implies (#[trigger] hits[i]).score
            >= (#[trigger] hits[j]).score by {
            let a = places[i];
            let b = places[j];
            assert(a < b);
            assert(!ranks_before(documents, shown[b], shown[a]));
            assert(shown.contains(shown[a]) && shown.contains(shown[b]));
            lemma_admitted(documents, query.excluded, ranked, ranked.len() as int, shown[a]);
            lemma_admitted(documents, query.excluded, ranked, ranked.len() as int, shown[b]);
            assert(ranked.take(ranked.len() as int) =~= ranked);
            let p = ranked.index_of(shown[a]);
            let q = ranked.index_of(shown[b]);
            assert(ranked[p].rank >= ranked[q].rank);
        }
    }
}

/// Every hit is one of a ranked document that holds no excluded word, and tells of it the
/// words of the query that it holds.
pub proof fn hits_hold_no_excluded_word(
    index: IndexView,
    sources: Map<Seq<char>, Seq<char>>,
    documents: Seq<DocumentView>,
    query: QueryView,
    ranked: Seq<RankedDocumentView>,
    limit: int,
    i: int,
)
    requires
        0 <= i < found_hits(index, sources, documents, query, ranked, limit).len(),
    ensures
        exists|k: int|
            0 <= k < ranked.len() && found_hits(
                index,
                sources,
                documents,
                query,
                ranked,
                limit,
            )[i] == hit_of(index, sources, documents, query.terms, #[trigger] ranked[k])
                && !holds_excluded(
                documents[ranked[k].document as int].tokens,
                query.excluded,
            ),
{
    let kept = admitted(documents, query.excluded, ranked, ranked.len() as int);
    let shown = shown_documents(documents, query.excluded, ranked);
    let n = shown.len() as int;
    ranked_documents_are_sorted(documents, kept);
    let places = lemma_hits_at(index, sources, documents, query.terms, shown, limit, n);
    let x = shown[places[i]];
    assert(shown.contains(x));
    lemma_admitted(documents, query.excluded, ranked, ranked.len() as int, x);
    assert(ranked.take(ranked.len() as int) =~= ranked);
    let k = ranked.index_of(x);
    assert(ranked[k] == x);
}

/// The words that a hit tells of are words of the query that its document holds, in the order
/// of the query and none twice where the query has none twice.
pub proof fn matched_words_are_asked_for(
    tokens: Seq<Seq<char>>,
    terms: Seq<Seq<char>>,
    n: int,
    word: Seq<char>,
)
    requires
        0 <= n <= terms.len(),
    ensures
        matched_of(tokens, terms, n).contains(word) <==> terms.take(n).contains(word)
            && tokens.contains(word),
        increasing(terms) ==> increasing(matched_of(tokens, terms, n)),
    decreases n,
{
    if n > 0 {
        matched_words_are_asked_for(tokens, terms, n - 1, word);
        let before = matched_of(tokens, terms, n - 1);
        let now = matched_of(tokens, terms, n);
        let last = terms[n - 1];
        assert(terms.take(n) =~= terms.take(n - 1).push(last));
        lemma_word_pushed(terms.take(n - 1), last, word);
        lemma_word_pushed(before, last, word);
        if increasing(terms) {
            assert forall|i: int, j: int| 0 <= i < j < now.len() implies text_less(
                #[trigger] now[i],
                #[trigger] now[j],
            ) by {
                assert(now[i] == before[i]);
                if j < before.len() {
                    assert(now[j] == before[j]);
                } else {
                    assert(before.contains(before[i]));
                    matched_words_are_asked_for(tokens, terms, n - 1, before[i]);
                    let k = terms.take(n - 1).index_of(before[i]);
                    assert(terms[k] == before[i]);
                }
            }
        }
    }
}

proof fn lemma_word_pushed(all: Seq<Seq<char>>, x: Seq<char>, y: Seq<char>)
    ensures
        all.push(x).contains(y) <==> all.contains(y) || y == x,
{
    let more = all.push(x);
    if more.contains(y) {
        let k = more.index_of(y);
        if k < all.len() {
            assert(all[k] == y);
        }
    }
    if all.contains(y) {
        let k = all.index_of(y);
        assert(more[k] == y);
    }
    assert(more[all.len() as int] == x);
}

proof fn lemma_meaningful_finite(terms: Seq<Seq<char>>, n: int)
    ensures
        meaningful(terms, n).finite(),
    decreases n,
{
    if n > 0 {
        lemma_meaningful_finite(terms, n - 1);
    }
}

/// The words that a query asks for stand in order, each once, and there is at least one.
pub proof fn queries_ask_in_order(text: Seq<char>)
    ensures
        query_of(text) matches Ok(query) ==> increasing(query.terms) && query.terms.len() > 0,
{
    match query_of(text) {
        Ok(_) => {
            let words = words_of_query(text)->Ok_0;
            let terms = draft_query(words, words.len() as int)->Ok_0.terms;
            lemma_meaningful_finite(terms, terms.len() as int);
            let wanted = wanted_terms(terms);
            assert(wanted.finite());
            crate::collections::lemma_orderable(wanted);
            let list = ordered(wanted);
            if list.len() == 0 {
                assert(wanted =~= Set::<Seq<char>>::empty()) by {
                    assert forall|word: Seq<char>| !wanted.contains(word) by {
                        assert(list.to_set().contains(word) == wanted.contains(word));
                    }
                }
            }
        },
        Err(_) => {},
    }
}

/// Whether all documents are of a file.
pub open spec fn are_of_file(documents: Seq<DocumentView>, path: Seq<char>) -> bool {
    forall|i: int| 0 <= i < documents.len() ==> (#[trigger] documents[i]).path == path
}

proof fn lemma_anchored_of_file(
    index: IndexView,
    path: Seq<char>,
    all: Seq<Seq<char>>,
    tests: Seq<LineRangeView>,
    n: int,
)
    ensures
        are_of_file(with_anchored_pieces(index, path, all, tests, n).documents, path),
    decreases n,
{
    if n > 0 {
        lemma_anchored_of_file(index, path, all, tests, n - 1);
    }
}

proof fn lemma_chunks_of_file(
    p: PiecesView,
    path: Seq<char>,
    all: Seq<Seq<char>>,
    tests: Seq<LineRangeView>,
    start: int,
)
    requires
        are_of_file(p.documents, path),
    ensures
        are_of_file(with_chunks(p, path, all, tests, start).documents, path),
    decreases all.len() - start,
{
    let end = if start + CHUNK_LINES - 1 <= all.len() {
        start + CHUNK_LINES - 1
    } else {
        all.len() as int
    };
    let more = with_piece(p, path, all, tests, line_behind(0, start), line_behind(0, end), false);
    if end < all.len() {
        lemma_chunks_of_file(more, path, all, tests, start + (CHUNK_LINES - CHUNK_OVERLAP));
    }
}

/// The documents of a file are told of that file.
pub proof fn documents_are_of_their_file(
    index: IndexView,
    path: Seq<char>,
    record: FileRecordView,
    text: Seq<char>,
    include_rust_tests: bool,
    config: AnnotationConfigView,
)
    ensures
        are_of_file(
            documents_of_file(index, path, record, text, include_rust_tests, config),
            path,
        ),
{
    let all = plain_lines(text, config);
    let tests = tests_left_out(record, include_rust_tests);
    let n = ordered(index.anchors.dom()).len() as int;
    lemma_anchored_of_file(index, path, all, tests, n);
    lemma_chunks_of_file(
        with_anchored_pieces(index, path, all, tests, n),
        path,
        all,
        tests,
        1,
    );
}

/// A search looks at a file where it lies under the given paths and its filter may hold a word
/// of the query, and at no other file.
pub proof fn searched_files_lie_under_the_paths(
    index: IndexView,
    paths: Seq<Seq<char>>,
    terms: Seq<Seq<char>>,
    n: int,
    path: Seq<char>,
)
    requires
        0 <= n <= ordered(index.files.dom()).len(),
    ensures
        files_to_search(index, paths, terms, n).contains(path) <==> ordered(
            index.files.dom(),
        ).take(n).contains(path) && is_path_allowed(path, paths) && may_match(
            index.files[path].search_bloom,
            terms,
        ),
    decreases n,
{
    if n > 0 {
        searched_files_lie_under_the_paths(index, paths, terms, n - 1, path);
        let all = ordered(index.files.dom());
        assert(all.take(n) =~= all.take(n - 1).push(all[n - 1]));
        lemma_word_pushed(all.take(n - 1), all[n - 1], path);
        lemma_word_pushed(files_to_search(index, paths, terms, n - 1), all[n - 1], path);
    }
}

} // verus!

//! The move from line numbers that are written in annotations to places that are told from
//! the source.

use vstd::prelude::*;

use crate::annotations::{
    all_markers, body_end, find_body_end, find_markers, lemma_body_end, lemma_marker_chain,
    line_markers, marker_body, markers_are_filled, scan_of, scan_source, AnnotationScan,
    AnnotationScanView, MarkerKind, MarkerView,
};
use crate::config::{AnnotationConfig, AnnotationConfigView, Config};
use crate::context_output::{FileContent, FileContentView};
use crate::index::any_zero;
use crate::line_laws::{first_line_and_the_rest, one_line_text};
use crate::model::{
    same_attributes, Anchor, AnchorView, Diagnostic, DiagnosticView, IndexedMember,
    IndexedMemberView, IndexedRelation, IndexedRelationView, MemberView, Provenance, ProvenanceView,
    RelationView, Severity,
};
use crate::patterns::{
    compile, pattern_matches, pattern_of, pattern_problem, pattern_removed, remove_matches,
};
use crate::repo::{relative_path, Repository};
use crate::text::{
    chars_of, decimal, decimal_text, index_from, join, join_texts, lines, lines_from, push_chars,
    same_option, same_text, slice_of, string_of, substring, text_before, text_less, text_of_bytes,
    trim, without_return,
};
use crate::views::{push_item, Duplicate};

verus! {

broadcast use crate::views::lemma_chars_deep_view;

/// Lines that an annotation names.
pub const STATIC_RANGE: &'static str =
    "[ \\t]+(?:lines|line_start|line_end)=(?:\\\"(?:\\\\.|[^\\\"])*\\\"|'(?:\\\\.|[^'])*'|[^\\s]+)";

/// A line that an annotation names.
pub const EXPLICIT_LINE: &'static str =
    "[ \\t]+line=(?:\\\"(?:\\\\.|[^\\\"])*\\\"|'(?:\\\\.|[^'])*'|[^\\s]+)";

/// That an annotation watches the lines that it names.
pub const RANGE_WATCH: &'static str = "[ \\t]+watch=(?:\\\"range\\\"|'range'|range)";

/// That an annotation says what it watches.
pub const ANY_WATCH: &'static str = "(?:^|[ \\t])watch=";

/// The patterns that tell line numbers in annotations.
struct Patterns {
    static_range: regex::Regex,
    explicit_line: regex::Regex,
    range_watch: regex::Regex,
    any_watch: regex::Regex,
}

/// Why the patterns could not be read.
pub open spec fn patterns_problem() -> Option<Seq<char>> {
    match pattern_problem(STATIC_RANGE@) {
        Some(message) => Some(message),
        None => match pattern_problem(EXPLICIT_LINE@) {
            Some(message) => Some(message),
            None => match pattern_problem(RANGE_WATCH@) {
                Some(message) => Some(message),
                None => pattern_problem(ANY_WATCH@),
            },
        },
    }
}

impl Patterns {
    /// Whether these are the patterns that are meant.
    closed spec fn wf(&self) -> bool {
        &&& pattern_of(self.static_range) == STATIC_RANGE@
        &&& pattern_of(self.explicit_line) == EXPLICIT_LINE@
        &&& pattern_of(self.range_watch) == RANGE_WATCH@
        &&& pattern_of(self.any_watch) == ANY_WATCH@
    }
}

/// Reads the patterns.
fn read_patterns() -> (r: Result<Patterns, String>)
    ensures
        match r {
            Ok(patterns) => patterns.wf() && patterns_problem() is None,
            Err(message) => patterns_problem() == Some(message@),
        },
{
    let static_range = match compile(STATIC_RANGE) {
        Ok(pattern) => pattern,
        Err(message) => {
            return Err(message);
        },
    };
    let explicit_line = match compile(EXPLICIT_LINE) {
        Ok(pattern) => pattern,
        Err(message) => {
            return Err(message);
        },
    };
    let range_watch = match compile(RANGE_WATCH) {
        Ok(pattern) => pattern,
        Err(message) => {
            return Err(message);
        },
    };
    let any_watch = match compile(ANY_WATCH) {
        Ok(pattern) => pattern,
        Err(message) => {
            return Err(message);
        },
    };
    Ok(Patterns { static_range, explicit_line, range_watch, any_watch })
}

/// A text without spaces and tabs at its end.
pub open spec fn without_end_space(s: Seq<char>) -> Seq<char>
    decreases s.len(),
{
    if s.len() > 0 && (s.last() == ' ' || s.last() == '\t') {
        without_end_space(s.drop_last())
    } else {
        s
    }
}

/// The body of an annotation that watches its own line.
pub open spec fn watching_line(body: Seq<char>) -> Seq<char> {
    without_end_space(body) + " watch=line "@
}

/// The body of an annotation that watches its own line.
pub fn watch_line(body: &str) -> (r: String)
    ensures
        r@ == watching_line(body@),
{
    let chars = chars_of(body);
    let mut n: usize = chars.len();
    assert(chars@.take(n as int) =~= chars@);
    while n > 0 && (chars[n - 1] == ' ' || chars[n - 1] == '\t')
        invariant
            n <= chars@.len(),
            chars@ == body@,
            without_end_space(chars@.take(n as int)) == without_end_space(body@),
        decreases n,
    {
        assert(chars@.take(n as int).drop_last() =~= chars@.take(n - 1));
        n -= 1;
    }
    let mut text = substring(&chars, 0, n);
    assert(chars@.subrange(0, n as int) =~= chars@.take(n as int));
    text.push_str(" watch=line ");
    text
}

/// What becomes of the body of an annotation, given what it holds: `fixed` tells whether it
/// names lines, `line` whether it names its own line. `plain` is the body without what names
/// lines, `bare` that without what names its own line, and `watched` tells whether `bare`
/// says what is watched.
pub open spec fn migrated_parts(
    fixed: bool,
    line: bool,
    plain: Seq<char>,
    bare: Seq<char>,
    watched: bool,
) -> Option<Seq<char>> {
    if !fixed && !line {
        None
    } else if !line {
        Some(plain)
    } else if !fixed && !watched {
        Some(watching_line(bare))
    } else {
        Some(bare)
    }
}

/// What becomes of the body of an annotation.
pub fn migrate_parts(fixed: bool, line: bool, plain: &str, bare: &str, watched: bool) -> (r: Option<
    String,
>)
    ensures
        r.deep_view() == migrated_parts(fixed, line, plain@, bare@, watched),
{
    if !fixed && !line {
        None
    } else if !line {
        Some(plain.to_owned())
    } else if !fixed && !watched {
        Some(watch_line(bare))
    } else {
        Some(bare.to_owned())
    }
}

/// What becomes of the body of an annotation; nothing where it stays as it is.
pub open spec fn migrated_body(body: Seq<char>) -> Option<Seq<char>> {
    let plain = pattern_removed(RANGE_WATCH@, pattern_removed(STATIC_RANGE@, body));
    let bare = pattern_removed(EXPLICIT_LINE@, plain);
    migrated_parts(
        pattern_matches(STATIC_RANGE@, body) || pattern_matches(RANGE_WATCH@, body),
        pattern_matches(EXPLICIT_LINE@, body),
        plain,
        bare,
        pattern_matches(ANY_WATCH@, bare),
    )
}

/// What is left of a text without spaces at its end is in the text.
proof fn lemma_without_end_space(s: Seq<char>, c: char)
    requires
        without_end_space(s).contains(c),
    ensures
        s.contains(c),
    decreases s.len(),
{
    if s.len() > 0 && (s.last() == ' ' || s.last() == '\t') {
        lemma_without_end_space(s.drop_last(), c);
        let i = s.drop_last().index_of(c);
        assert(s[i] == c);
    }
}

/// Where a character is not in two texts, it is not in both together.
proof fn lemma_not_in_sum(a: Seq<char>, b: Seq<char>, c: char)
    requires
        !a.contains(c),
        !b.contains(c),
    ensures
        !(a + b).contains(c),
{
    if (a + b).contains(c) {
        let i = (a + b).index_of(c);
        if i < a.len() {
            assert(a[i] == c);
        } else {
            assert(b[i - a.len()] == c);
        }
    }
}

/// A part of a line is in one line.
proof fn lemma_part_of_line(line: Seq<char>, start: int, end: int)
    requires
        0 <= start <= end <= line.len(),
        !line.contains('\n'),
    ensures
        !line.subrange(start, end).contains('\n'),
{
    let part = line.subrange(start, end);
    if part.contains('\n') {
        let i = part.index_of('\n');
        assert(line[start + i] == '\n');
    }
}

/// A body that watches its own line is still in one line.
proof fn lemma_watching_line(body: Seq<char>)
    requires
        !body.contains('\n'),
    ensures
        !watching_line(body).contains('\n'),
{
    reveal_strlit(" watch=line ");
    assert(!" watch=line "@.contains('\n'));
    if without_end_space(body).contains('\n') {
        lemma_without_end_space(body, '\n');
    }
    lemma_not_in_sum(without_end_space(body), " watch=line "@, '\n');
}

/// What becomes of the body of an annotation; a body in one line stays in one line.
fn migrate_body(patterns: &Patterns, body: &str) -> (r: Option<String>)
    requires
        patterns.wf(),
    ensures
        r.deep_view() == migrated_body(body@),
        !body@.contains('\n') ==> (r matches Some(text) ==> !text@.contains('\n')),
{
    let fixed = crate::patterns::matches(&patterns.static_range, body) || crate::patterns::matches(&patterns.range_watch, body);
    let line = crate::patterns::matches(&patterns.explicit_line, body);
    let first = remove_matches(&patterns.static_range, body);
    let plain = remove_matches(&patterns.range_watch, first.as_str());
    let bare = remove_matches(&patterns.explicit_line, plain.as_str());
    let watched = crate::patterns::matches(&patterns.any_watch, bare.as_str());
    proof {
        if !body@.contains('\n') {
            assert(!first@.contains('\n'));
            assert(!plain@.contains('\n'));
            assert(!bare@.contains('\n'));
            lemma_watching_line(bare@);
        }
    }
    migrate_parts(fixed, line, plain.as_str(), bare.as_str(), watched)
}

/// Where the annotation ends whose marker is at position `k` of a line: with its comment, where
/// the next marker starts or with the line.
pub open spec fn annotation_end(line: Seq<char>, markers: Seq<MarkerView>, k: int) -> int {
    let start = markers[k].start + markers[k].len;
    let end = if k + 1 < markers.len() {
        markers[k + 1].start
    } else {
        line.len() as int
    };
    start + body_end(line.subrange(start, end), 0, None, false)
}

/// The bodies of the anchors among the first `n` markers of a line.
pub open spec fn anchor_bodies(line: Seq<char>, markers: Seq<MarkerView>, n: int) -> Seq<(int, int)>
    decreases n,
{
    if n <= 0 {
        seq![]
    } else if markers[n - 1].kind != MarkerKind::Anchor {
        anchor_bodies(line, markers, n - 1)
    } else {
        anchor_bodies(line, markers, n - 1).push(
            (markers[n - 1].start + markers[n - 1].len, annotation_end(line, markers, n - 1)),
        )
    }
}

/// The bodies of the anchors of a line.
pub open spec fn bodies_of(line: Seq<char>, config: AnnotationConfigView) -> Seq<(int, int)> {
    let markers = line_markers(line, config);
    anchor_bodies(line, markers, markers.len() as int)
}

/// Whether bodies lie in a line of `limit` characters, behind its start and one after the other.
pub open spec fn bodies_follow(bodies: Seq<(int, int)>, limit: int) -> bool {
    &&& forall|i: int|
        0 <= i < bodies.len() ==> 0 < (#[trigger] bodies[i]).0 <= bodies[i].1 <= limit
    &&& forall|i: int, j: int|
        0 <= i < j < bodies.len() ==> (#[trigger] bodies[i]).1 <= (#[trigger] bodies[j]).0
}

proof fn lemma_annotation_end(line: Seq<char>, config: AnnotationConfigView, k: int)
    requires
        0 <= k < line_markers(line, config).len(),
    ensures
        ({
            let markers = line_markers(line, config);
            let end = annotation_end(line, markers, k);
            &&& markers[k].len > 0
            &&& 0 <= markers[k].start
            &&& markers[k].start + markers[k].len <= end <= line.len()
            &&& forall|j: int| k < j < markers.len() ==> end <= (#[trigger] markers[j]).start
        }),
{
    let markers = line_markers(line, config);
    lemma_marker_chain(all_markers(line, config), 0, line.len() as int);
    let start = markers[k].start + markers[k].len;
    let end = if k + 1 < markers.len() {
        markers[k + 1].start
    } else {
        line.len() as int
    };
    assert(start <= end <= line.len());
    lemma_body_end(line.subrange(start, end), 0, None, false);
    assert forall|j: int| k < j < markers.len() implies annotation_end(line, markers, k) <= (
    #[trigger] markers[j]).start by {
        if j > k + 1 {
            assert(markers[k + 1].start + markers[k + 1].len <= markers[j].start);
        }
    }
}

proof fn lemma_anchor_bodies(line: Seq<char>, config: AnnotationConfigView, n: int)
    requires
        0 <= n <= line_markers(line, config).len(),
    ensures
        ({
            let markers = line_markers(line, config);
            let bodies = anchor_bodies(line, markers, n);
            &&& bodies_follow(bodies, line.len() as int)
            &&& forall|i: int, j: int|
                0 <= i < bodies.len() && n <= j < markers.len() ==> (#[trigger] bodies[i]).1 <= (
                #[trigger] markers[j]).start
        }),
    decreases n,
{
    if n > 0 {
        lemma_anchor_bodies(line, config, n - 1);
        lemma_annotation_end(line, config, n - 1);
        let markers = line_markers(line, config);
        let before = anchor_bodies(line, markers, n - 1);
        let now = anchor_bodies(line, markers, n);
        assert(forall|i: int| 0 <= i < before.len() ==> now[i] == #[trigger] before[i]);
        assert forall|i: int| 0 <= i < now.len() implies 0 < (#[trigger] now[i]).0 <= now[i].1
            <= line.len() by {
            if i < before.len() {
                assert(now[i] == before[i]);
            }
        }
        assert forall|i: int, j: int| 0 <= i < j < now.len() implies (#[trigger] now[i]).1 <= (
        #[trigger] now[j]).0 by {
            assert(now[i] == before[i]);
            if j < before.len() {
                assert(now[j] == before[j]);
            } else {
                assert(before[i].1 <= markers[n - 1].start);
            }
        }
        assert forall|i: int, j: int|
            0 <= i < now.len() && n <= j < markers.len() implies (#[trigger] now[i]).1 <= (
        #[trigger] markers[j]).start by {
            if i < before.len() {
                assert(now[i] == before[i]);
            }
        }
    }
}

/// The bodies of the anchors of a line.
fn annotation_ranges(line: &Vec<char>, config: &AnnotationConfig) -> (r: Vec<(usize, usize)>)
    requires
        markers_are_filled(config@),
    ensures
        r@.len() == bodies_of(line@, config@).len(),
        forall|i: int|
            0 <= i < r@.len() ==> (#[trigger] r@[i]).0 == bodies_of(line@, config@)[i].0 && r@[i].1
                == bodies_of(line@, config@)[i].1,
{
    let found = find_markers(line.as_slice(), config);
    let ghost markers = found.deep_view();
    let count: usize = found.len();
    let width: usize = line.len();
    let mut out: Vec<(usize, usize)> = Vec::new();
    let mut i: usize = 0;
    while i < count
        invariant
            i <= count,
            count == found@.len(),
            markers == found.deep_view(),
            markers == line_markers(line@, config@),
            width == line@.len(),
            out@.len() == anchor_bodies(line@, markers, i as int).len(),
            forall|k: int|
                0 <= k < out@.len() ==> (#[trigger] out@[k]).0 == anchor_bodies(
                    line@,
                    markers,
                    i as int,
                )[k].0 && out@[k].1 == anchor_bodies(line@, markers, i as int)[k].1,
        decreases count - i,
    {
        assert(markers[i as int] == found@[i as int].deep_view());
        if found[i].kind == MarkerKind::Anchor {
            proof {
                lemma_annotation_end(line@, config@, i as int);
                lemma_marker_chain(all_markers(line@, config@), 0, line@.len() as int);
            }
            let end: usize = if i + 1 < count {
                assert(markers[i + 1] == found@[i + 1].deep_view());
                found[i + 1].start
            } else {
                width
            };
            let start: usize = found[i].start + found[i].len;
            assert(start <= end <= line@.len());
            let rest = slice_of(line, start, end);
            let len: usize = find_body_end(&rest);
            out.push((start, start + len));
        }
        i += 1;
    }
    out
}

/// The end of the body before position `n`, or the start of the line.
pub open spec fn end_before(bodies: Seq<(int, int)>, n: int) -> int {
    if n <= 0 {
        0
    } else {
        bodies[n - 1].1
    }
}

/// What stands in a line before the body at position `n` and behind the one before it, or
/// behind all bodies.
pub open spec fn text_between(line: Seq<char>, bodies: Seq<(int, int)>, n: int) -> Seq<char> {
    line.subrange(
        end_before(bodies, n),
        if n < bodies.len() {
            bodies[n].0
        } else {
            line.len() as int
        },
    )
}

/// What a line becomes up to the end of its first `n` bodies, and how many of them were
/// rewritten.
pub open spec fn with_bodies(line: Seq<char>, bodies: Seq<(int, int)>, n: int) -> (Seq<char>, int)
    decreases n,
{
    if n <= 0 {
        (seq![], 0)
    } else {
        let (before, count) = with_bodies(line, bodies, n - 1);
        let start = before + text_between(line, bodies, n - 1);
        let body = line.subrange(bodies[n - 1].0, bodies[n - 1].1);
        match migrated_body(body) {
            None => (start + body, count),
            Some(text) => (start + text, count + 1),
        }
    }
}

/// A line without line numbers in its anchors, and how many anchors were rewritten.
pub open spec fn migrated_line(line: Seq<char>, config: AnnotationConfigView) -> (Seq<char>, int) {
    let bodies = bodies_of(line, config);
    let (text, count) = with_bodies(line, bodies, bodies.len() as int);
    (text + text_between(line, bodies, bodies.len() as int), count)
}

/// How long a line is without the line break at its end.
pub open spec fn content_len(line: Seq<char>) -> int {
    if line.len() > 0 && line.last() == '\n' {
        without_return(line.drop_last()).len() as int
    } else {
        line.len() as int
    }
}

/// A line with its line break, without line numbers in its anchors, and how many anchors were
/// rewritten.
pub open spec fn migrated_whole_line(line: Seq<char>, config: AnnotationConfigView) -> (
    Seq<char>,
    int,
) {
    let (text, count) = migrated_line(line.take(content_len(line)), config);
    (text + line.skip(content_len(line)), count)
}

/// The end of the line that starts at a position, with what ends it.
pub open spec fn line_end(text: Seq<char>, from: int) -> int
    decreases text.len() - from,
{
    if from >= text.len() {
        text.len() as int
    } else if text[from] == '\n' {
        from + 1
    } else {
        line_end(text, from + 1)
    }
}

proof fn lemma_line_end(text: Seq<char>, from: int)
    requires
        0 <= from < text.len(),
    ensures
        from < line_end(text, from) <= text.len(),
    decreases text.len() - from,
{
    if text[from] != '\n' {
        if from + 1 < text.len() {
            lemma_line_end(text, from + 1);
        } else {
            assert(line_end(text, from + 1) == text.len());
        }
    }
}

/// A text without line numbers in its anchors, from a position on, and how many anchors were
/// rewritten.
pub open spec fn migrated_from(text: Seq<char>, config: AnnotationConfigView, from: int) -> (
    Seq<char>,
    int,
)
    decreases text.len() - from,
{
    let end = line_end(text, from);
    if from < 0 || from >= text.len() || end <= from || end > text.len() {
        (seq![], 0)
    } else {
        let (line, count) = migrated_whole_line(text.subrange(from, end), config);
        let (rest, more) = migrated_from(text, config, end);
        (line + rest, count + more)
    }
}

/// A text without line numbers in its anchors, and how many anchors were rewritten.
pub open spec fn migrated_text(text: Seq<char>, config: AnnotationConfigView) -> Result<
    (Seq<char>, int),
    Seq<char>,
> {
    match patterns_problem() {
        Some(message) => Err(message),
        None => Ok(migrated_from(text, config, 0)),
    }
}

/// A line without line numbers in its anchors; it stays one line.
fn migrate_line(patterns: &Patterns, line: &Vec<char>, config: &AnnotationConfig) -> (r: (
    Vec<char>,
    usize,
))
    requires
        patterns.wf(),
        markers_are_filled(config@),
    ensures
        (r.0@, r.1 as int) == migrated_line(line@, config@),
        !line@.contains('\n') ==> !r.0@.contains('\n'),
{
    let ranges = annotation_ranges(line, config);
    let ghost bodies = bodies_of(line@, config@);
    proof {
        lemma_anchor_bodies(line@, config@, line_markers(line@, config@).len() as int);
    }
    let count: usize = ranges.len();
    let mut out: Vec<char> = Vec::new();
    let mut rewritten: usize = 0;
    let mut at: usize = 0;
    let mut n: usize = 0;
    assert(out@ =~= Seq::<char>::empty());
    while n < count
        invariant
            n <= count,
            count == ranges@.len(),
            count == bodies.len(),
            bodies_follow(bodies, line@.len() as int),
            patterns.wf(),
            forall|i: int|
                0 <= i < ranges@.len() ==> (#[trigger] ranges@[i]).0 == bodies[i].0 && ranges@[i].1
                    == bodies[i].1,
            rewritten <= n,
            at == end_before(bodies, n as int),
            at <= line@.len(),
            (out@, rewritten as int) == with_bodies(line@, bodies, n as int),
            !line@.contains('\n') ==> !out@.contains('\n'),
        decreases count - n,
    {
        let (start, end) = ranges[n];
        assert(ranges@[n as int].0 == bodies[n as int].0);
        assert(bodies[n as int] == (start as int, end as int));
        assert(at <= start);
        let between = slice_of(line, at, start);
        let ghost before = out@;
        push_chars(&mut out, &between);
        let body = substring(line, start, end);
        proof {
            if !line@.contains('\n') {
                lemma_part_of_line(line@, at as int, start as int);
                lemma_part_of_line(line@, start as int, end as int);
                lemma_not_in_sum(before, between@, '\n');
            }
        }
        let ghost begun = out@;
        match migrate_body(patterns, body.as_str()) {
            None => {
                let same = slice_of(line, start, end);
                push_chars(&mut out, &same);
                proof {
                    if !line@.contains('\n') {
                        lemma_not_in_sum(begun, same@, '\n');
                    }
                }
            },
            Some(text) => {
                let middle = chars_of(text.as_str());
                push_chars(&mut out, &middle);
                rewritten += 1;
                proof {
                    if !line@.contains('\n') {
                        lemma_not_in_sum(begun, middle@, '\n');
                    }
                }
            },
        }
        at = end;
        n += 1;
    }
    let behind = slice_of(line, at, line.len());
    proof {
        if !line@.contains('\n') {
            lemma_part_of_line(line@, at as int, line@.len() as int);
            lemma_not_in_sum(out@, behind@, '\n');
        }
    }
    push_chars(&mut out, &behind);
    (out, rewritten)
}

/// How many of something there are, as far as they are counted.
pub open spec fn counted(n: int) -> usize {
    if n > usize::MAX {
        usize::MAX
    } else {
        n as usize
    }
}

/// Two counts together, as far as they are counted.
fn count_together(a: usize, b: usize) -> (r: usize)
    ensures
        r == counted(a + b),
{
    if a as u128 + b as u128 > usize::MAX as u128 {
        usize::MAX
    } else {
        a + b
    }
}

/// Whether every line from a position on is one line once it is rewritten.
pub open spec fn stays_in_lines(text: Seq<char>, config: AnnotationConfigView, from: int) -> bool
    decreases text.len() - from,
{
    let end = line_end(text, from);
    if from < 0 || from >= text.len() || end <= from || end > text.len() {
        true
    } else {
        let line = text.subrange(from, end);
        &&& !migrated_line(line.take(content_len(line)), config).0.contains('\n')
        &&& stays_in_lines(text, config, end)
    }
}

/// Whether a line is another one without line numbers in its anchors, up to a carriage return
/// at its end. A line without anchors is the same.
pub open spec fn is_migrated_line(
    before: Seq<char>,
    after: Seq<char>,
    config: AnnotationConfigView,
) -> bool {
    let line = migrated_line(before, config).0;
    &&& after == line || after == without_return(line)
    &&& bodies_of(before, config).len() == 0 ==> after == before
}

/// Whether lines are rewritten one by one.
pub open spec fn keeps_lines(
    before: Seq<Seq<char>>,
    after: Seq<Seq<char>>,
    config: AnnotationConfigView,
) -> bool {
    &&& after.len() == before.len()
    &&& forall|i: int|
        0 <= i < before.len() ==> is_migrated_line(before[i], #[trigger] after[i], config)
}

/// A line ends behind the next line feed, or with the text.
proof fn lemma_line_end_index(text: Seq<char>, from: int)
    requires
        0 <= from <= text.len(),
    ensures
        from <= index_from(text, '\n', from) <= text.len(),
        line_end(text, from) == if index_from(text, '\n', from) < text.len() {
            index_from(text, '\n', from) + 1
        } else {
            text.len() as int
        },
        index_from(text, '\n', from) < text.len() ==> text[index_from(text, '\n', from)] == '\n',
        forall|k: int| from <= k < index_from(text, '\n', from) ==> text[k] != '\n',
    decreases text.len() - from,
{
    if from < text.len() && text[from] != '\n' {
        lemma_line_end_index(text, from + 1);
    }
}

/// Before its line break a line is one line, and it is the first of the lines from there on.
proof fn lemma_one_line(text: Seq<char>, from: int)
    requires
        0 <= from < text.len(),
    ensures
        ({
            let line = text.subrange(from, line_end(text, from));
            let content = line.take(content_len(line));
            &&& 0 <= content_len(line) <= line.len()
            &&& !content.contains('\n')
            &&& lines_from(text, from) == seq![content] + lines_from(text, line_end(text, from))
            &&& if line.last() == '\n' {
                ||| line.skip(content_len(line)) == seq!['\n'] && content == without_return(content)
                ||| line.skip(content_len(line)) == seq!['\r', '\n']
            } else {
                &&& line_end(text, from) == text.len()
                &&& content == line
                &&& content.len() > 0
                &&& line.skip(content_len(line)) == Seq::<char>::empty()
            }
        }),
{
    lemma_line_end(text, from);
    lemma_line_end_index(text, from);
    let at = index_from(text, '\n', from);
    let end = line_end(text, from);
    let line = text.subrange(from, end);
    let n = content_len(line);
    let content = line.take(n);
    if at < text.len() {
        assert(line.last() == text[at]);
        assert(line.drop_last() =~= text.subrange(from, at));
        assert(content =~= without_return(text.subrange(from, at)));
        if n == at - from {
            assert(line.skip(n) =~= seq!['\n']);
        } else {
            assert(line[n] == line.drop_last().last());
            assert(line.skip(n) =~= seq!['\r', '\n']);
        }
    } else {
        assert(line.last() == text[end - 1]);
        assert(content =~= line);
        assert(line.skip(n) =~= Seq::<char>::empty());
        assert(lines_from(text, from) =~= seq![content] + lines_from(text, end));
    }
    if content.contains('\n') {
        let i = content.index_of('\n');
        assert(text[from + i] == '\n');
    }
}

/// A line that is rewritten is not empty, unless it was.
proof fn lemma_line_stays_filled(line: Seq<char>, config: AnnotationConfigView)
    requires
        line.len() > 0,
    ensures
        migrated_line(line, config).0.len() > 0,
        bodies_of(line, config).len() == 0 ==> migrated_line(line, config).0 == line,
{
    let bodies = bodies_of(line, config);
    lemma_anchor_bodies(line, config, line_markers(line, config).len() as int);
    if bodies.len() == 0 {
        assert(migrated_line(line, config).0 =~= line);
    } else {
        text_outside_bodies_stays(line, config, 0);
        assert(bodies[0].0 > 0);
    }
}

/// A text whose lines stay lines is rewritten line by line: it has as many lines as before, and
/// those without anchors stay as they are.
pub proof fn lines_are_rewritten_one_by_one(
    text: Seq<char>,
    config: AnnotationConfigView,
    from: int,
)
    requires
        0 <= from <= text.len(),
        stays_in_lines(text, config, from),
    ensures
        keeps_lines(
            lines_from(text, from),
            lines(migrated_from(text, config, from).0),
            config,
        ),
    decreases text.len() - from,
{
    let before = lines_from(text, from);
    let after = migrated_from(text, config, from).0;
    if from < text.len() {
        lemma_line_end(text, from);
        lemma_one_line(text, from);
        let end = line_end(text, from);
        let line = text.subrange(from, end);
        let content = line.take(content_len(line));
        let new = migrated_line(content, config).0;
        let rest = migrated_from(text, config, end).0;
        lines_are_rewritten_one_by_one(text, config, end);
        if content.len() > 0 {
            lemma_line_stays_filled(content, config);
        } else {
            lemma_empty_line(content, config);
        }
        if line.last() == '\n' {
            if line.skip(content_len(line)) == seq!['\n'] {
                assert(after =~= new + seq!['\n'] + rest);
                first_line_and_the_rest(new, rest);
            } else {
                assert(!seq!['\r'].contains('\n'));
                lemma_not_in_sum(new, seq!['\r'], '\n');
                assert(after =~= new + seq!['\r'] + seq!['\n'] + rest);
                first_line_and_the_rest(new + seq!['\r'], rest);
                assert(without_return(new + seq!['\r']) =~= new);
            }
            let others = lines_from(text, end);
            assert forall|i: int| 0 <= i < before.len() implies is_migrated_line(
                before[i],
                #[trigger] lines(after)[i],
                config,
            ) by {
                if i > 0 {
                    assert(before[i] == others[i - 1]);
                    assert(lines(after)[i] == lines(rest)[i - 1]);
                }
            }
        } else {
            assert(after =~= new);
            one_line_text(new);
            assert(lines_from(text, end) =~= seq![]);
        }
    } else {
        assert(after =~= Seq::<char>::empty());
    }
}

/// An empty line stays empty.
proof fn lemma_empty_line(line: Seq<char>, config: AnnotationConfigView)
    requires
        line.len() == 0,
    ensures
        migrated_line(line, config).0 == line,
{
    let bodies = bodies_of(line, config);
    lemma_anchor_bodies(line, config, line_markers(line, config).len() as int);
    if bodies.len() > 0 {
        assert(0 < bodies[0].0);
    }
    assert(migrated_line(line, config).0 =~= line);
}

/// Where the line break of a line starts.
fn find_content_len(line: &Vec<char>) -> (r: usize)
    ensures
        r == content_len(line@),
        r <= line@.len(),
{
    let len: usize = line.len();
    if len == 0 || line[len - 1] != '\n' {
        len
    } else if len >= 2 && line[len - 2] == '\r' {
        assert(line@.drop_last().last() == '\r');
        len - 2
    } else {
        assert(len >= 2 ==> line@.drop_last().last() == line@[len - 2]);
        len - 1
    }
}

/// A line with its line break, without line numbers in its anchors.
fn migrate_whole_line(patterns: &Patterns, line: &Vec<char>, config: &AnnotationConfig) -> (r: (
    Vec<char>,
    usize,
))
    requires
        patterns.wf(),
        markers_are_filled(config@),
    ensures
        (r.0@, r.1 as int) == migrated_whole_line(line@, config@),
        !line@.take(content_len(line@)).contains('\n') ==> !migrated_line(
            line@.take(content_len(line@)),
            config@,
        ).0.contains('\n'),
{
    let len: usize = find_content_len(line);
    let content = slice_of(line, 0, len);
    assert(content@ =~= line@.take(len as int));
    let (mut out, count) = migrate_line(patterns, &content, config);
    let end = slice_of(line, len, line.len());
    assert(end@ =~= line@.skip(len as int));
    push_chars(&mut out, &end);
    (out, count)
}

/// A text without line numbers in its anchors, and how many anchors were rewritten. The text
/// keeps its lines.
pub fn migrate_text(text: &str, config: &Config) -> (r: Result<(String, usize), String>)
    requires
        markers_are_filled(config@.annotations),
    ensures
        match r {
            Ok((text_after, count)) => migrated_text(text@, config@.annotations) is Ok
                && text_after@ == migrated_text(text@, config@.annotations)->Ok_0.0 && count
                == counted(migrated_text(text@, config@.annotations)->Ok_0.1) && keeps_lines(
                lines(text@),
                lines(text_after@),
                config@.annotations,
            ),
            Err(message) => migrated_text(text@, config@.annotations) == Err::<
                (Seq<char>, int),
                Seq<char>,
            >(message@),
        },
{
    let patterns = match read_patterns() {
        Ok(patterns) => patterns,
        Err(message) => {
            return Err(message);
        },
    };
    let chars = chars_of(text);
    let ghost c = config@.annotations;
    let ghost all = migrated_from(text@, c, 0);
    let mut out: Vec<char> = Vec::new();
    let mut count: usize = 0;
    let mut from: usize = 0;
    let ghost mut total: int = 0;
    assert(out@ + migrated_from(text@, c, 0).0 =~= all.0);
    while from < chars.len()
        invariant
            from <= chars@.len(),
            chars@ == text@,
            c == config@.annotations,
            markers_are_filled(c),
            patterns.wf(),
            all == migrated_from(text@, c, 0),
            total >= 0,
            count == counted(total),
            all.0 == out@ + migrated_from(text@, c, from as int).0,
            all.1 == total + migrated_from(text@, c, from as int).1,
            stays_in_lines(text@, c, from as int) ==> stays_in_lines(text@, c, 0),
        decreases chars@.len() - from,
    {
        let mut end: usize = from;
        while end < chars.len() && chars[end] != '\n'
            invariant
                from <= end <= chars@.len(),
                chars@ == text@,
                line_end(text@, from as int) == line_end(text@, end as int),
            decreases chars@.len() - end,
        {
            end += 1;
        }
        if end < chars.len() {
            end += 1;
        }
        assert(end == line_end(text@, from as int));
        proof {
            lemma_line_end(text@, from as int);
        }
        let line = slice_of(&chars, from, end);
        proof {
            lemma_one_line(text@, from as int);
        }
        let (migrated, more) = migrate_whole_line(&patterns, &line, &config.annotations);
        let ghost before = out@;
        push_chars(&mut out, &migrated);
        assert(before + migrated_from(text@, c, from as int).0 =~= out@ + migrated_from(
            text@,
            c,
            end as int,
        ).0);
        count = count_together(count, more);
        proof {
            total = total + more;
        }
        from = end;
    }
    assert(out@ + migrated_from(text@, c, from as int).0 =~= out@);
    proof {
        lines_are_rewritten_one_by_one(text@, c, 0);
    }
    Ok((string_of(&out), count))
}

/// What an anchor is, without its place: its id, target, kind and tags.
pub open spec fn identity_of(anchor: AnchorView) -> (
    Seq<char>,
    Option<Seq<char>>,
    Option<Seq<char>>,
    Set<Seq<char>>,
) {
    (anchor.id, anchor.target, anchor.kind, anchor.tags)
}

/// What anchors are, without their places.
pub open spec fn identities(anchors: Seq<(AnchorView, ProvenanceView)>) -> Seq<
    (Seq<char>, Option<Seq<char>>, Option<Seq<char>>, Set<Seq<char>>),
> {
    anchors.map_values(|anchor: (AnchorView, ProvenanceView)| identity_of(anchor.0))
}

/// The memberships that annotations tell, without where they stand.
pub open spec fn told_members(memberships: Seq<IndexedMemberView>) -> Seq<
    (Option<Seq<char>>, MemberView),
> {
    memberships.map_values(
        |membership: IndexedMemberView| (membership.strand, membership.member),
    )
}

/// The relations that annotations tell, without where they stand.
pub open spec fn told_relations(relations: Seq<IndexedRelationView>) -> Seq<
    (Option<Seq<char>>, RelationView),
> {
    relations.map_values(|relation: IndexedRelationView| (relation.strand, relation.relation))
}

/// The errors among the first `n` diagnostics, a line each.
pub open spec fn error_lines(relative: Seq<char>, diagnostics: Seq<DiagnosticView>, n: int) -> Seq<
    Seq<char>,
>
    decreases n,
{
    if n <= 0 {
        seq![]
    } else {
        let before = error_lines(relative, diagnostics, n - 1);
        let diagnostic = diagnostics[n - 1];
        if diagnostic.severity == Severity::Error {
            before.push(
                relative + ":"@ + decimal(
                    match diagnostic.line {
                        Some(line) => line as nat,
                        None => 0,
                    },
                ) + ": "@ + diagnostic.message,
            )
        } else {
            before
        }
    }
}

/// Why a file may not be rewritten: its anchors, memberships or relations would differ, or an
/// anchor would have no place.
pub open spec fn equivalence_problem(
    relative: Seq<char>,
    before: AnnotationScanView,
    after: AnnotationScanView,
) -> Option<Seq<char>> {
    let errors = error_lines(relative, after.diagnostics, after.diagnostics.len() as int);
    if identities(before.anchors) != identities(after.anchors) || told_members(before.memberships)
        != told_members(after.memberships) || told_relations(before.relations) != told_relations(
        after.relations,
    ) {
        Some("dynamic-location migration changed graph semantics in "@ + relative)
    } else if errors.len() > 0 {
        Some(
            "dynamic-location migration could not resolve every anchor:\n"@ + join(errors, "\n"@),
        )
    } else {
        None
    }
}

/// Whether two anchors are the same, wherever they stand.
fn same_identity(a: &Anchor, b: &Anchor) -> (r: bool)
    ensures
        r == (identity_of(a@) == identity_of(b@)),
{
    same_text(a.id.as_str(), b.id.as_str()) && same_option(&a.target, &b.target) && same_option(
        &a.kind,
        &b.kind,
    ) && a.tags.same(&b.tags)
}

/// Whether two memberships are the same, wherever they stand.
fn same_membership(a: &IndexedMember, b: &IndexedMember) -> (r: bool)
    ensures
        r == (a@.strand == b@.strand && a@.member == b@.member),
{
    same_option(&a.strand, &b.strand) && same_text(
        a.member.anchor.as_str(),
        b.member.anchor.as_str(),
    ) && same_option(&a.member.role, &b.member.role) && a.member.required == b.member.required
        && same_attributes(&a.member.attributes, &b.member.attributes)
}

/// Whether two relations are the same, wherever they stand.
fn same_edge(a: &IndexedRelation, b: &IndexedRelation) -> (r: bool)
    ensures
        r == (a@.strand == b@.strand && a@.relation == b@.relation),
{
    same_option(&a.strand, &b.strand) && same_text(
        a.relation.from.as_str(),
        b.relation.from.as_str(),
    ) && same_text(a.relation.to.as_str(), b.relation.to.as_str()) && same_text(
        a.relation.kind.as_str(),
        b.relation.kind.as_str(),
    ) && a.relation.bidirectional == b.relation.bidirectional && same_attributes(
        &a.relation.attributes,
        &b.relation.attributes,
    )
}

/// Whether two lists tell the same anchors.
fn same_identities(a: &Vec<(Anchor, Provenance)>, b: &Vec<(Anchor, Provenance)>) -> (r: bool)
    ensures
        r == (identities(a.deep_view()) == identities(b.deep_view())),
{
    let ghost x = a.deep_view();
    let ghost y = b.deep_view();
    if a.len() != b.len() {
        assert(identities(x).len() != identities(y).len());
        return false;
    }
    let mut i: usize = 0;
    while i < a.len()
        invariant
            i <= a@.len(),
            a@.len() == b@.len(),
            x == a.deep_view(),
            y == b.deep_view(),
            forall|k: int| 0 <= k < i ==> #[trigger] identities(x)[k] == identities(y)[k],
        decreases a@.len() - i,
    {
        assert(x[i as int] == a@[i as int].deep_view());
        assert(y[i as int] == b@[i as int].deep_view());
        if !same_identity(&a[i].0, &b[i].0) {
            assert(identities(x)[i as int] != identities(y)[i as int]);
            return false;
        }
        i += 1;
    }
    assert(identities(x) =~= identities(y));
    true
}

/// Whether two lists tell the same memberships.
fn same_memberships(a: &Vec<IndexedMember>, b: &Vec<IndexedMember>) -> (r: bool)
    ensures
        r == (told_members(a.deep_view()) == told_members(b.deep_view())),
{
    let ghost x = a.deep_view();
    let ghost y = b.deep_view();
    if a.len() != b.len() {
        assert(told_members(x).len() != told_members(y).len());
        return false;
    }
    let mut i: usize = 0;
    while i < a.len()
        invariant
            i <= a@.len(),
            a@.len() == b@.len(),
            x == a.deep_view(),
            y == b.deep_view(),
            forall|k: int| 0 <= k < i ==> #[trigger] told_members(x)[k] == told_members(y)[k],
        decreases a@.len() - i,
    {
        assert(x[i as int] == a@[i as int].deep_view());
        assert(y[i as int] == b@[i as int].deep_view());
        if !same_membership(&a[i], &b[i]) {
            assert(told_members(x)[i as int] != told_members(y)[i as int]);
            return false;
        }
        i += 1;
    }
    assert(told_members(x) =~= told_members(y));
    true
}

/// Whether two lists tell the same relations.
fn same_edges(a: &Vec<IndexedRelation>, b: &Vec<IndexedRelation>) -> (r: bool)
    ensures
        r == (told_relations(a.deep_view()) == told_relations(b.deep_view())),
{
    let ghost x = a.deep_view();
    let ghost y = b.deep_view();
    if a.len() != b.len() {
        assert(told_relations(x).len() != told_relations(y).len());
        return false;
    }
    let mut i: usize = 0;
    while i < a.len()
        invariant
            i <= a@.len(),
            a@.len() == b@.len(),
            x == a.deep_view(),
            y == b.deep_view(),
            forall|k: int| 0 <= k < i ==> #[trigger] told_relations(x)[k] == told_relations(y)[k],
        decreases a@.len() - i,
    {
        assert(x[i as int] == a@[i as int].deep_view());
        assert(y[i as int] == b@[i as int].deep_view());
        if !same_edge(&a[i], &b[i]) {
            assert(told_relations(x)[i as int] != told_relations(y)[i as int]);
            return false;
        }
        i += 1;
    }
    assert(told_relations(x) =~= told_relations(y));
    true
}

/// The errors among diagnostics, a line each.
fn lines_of_errors(relative: &str, diagnostics: &Vec<Diagnostic>) -> (r: Vec<String>)
    ensures
        r.deep_view() == error_lines(
            relative@,
            diagnostics.deep_view(),
            diagnostics@.len() as int,
        ),
{
    let ghost all = diagnostics.deep_view();
    let mut out: Vec<String> = Vec::new();
    let mut i: usize = 0;
    assert(out.deep_view() =~= seq![]);
    while i < diagnostics.len()
        invariant
            i <= diagnostics@.len(),
            all == diagnostics.deep_view(),
            out.deep_view() == error_lines(relative@, all, i as int),
        decreases diagnostics@.len() - i,
    {
        let diagnostic = &diagnostics[i];
        assert(all[i as int] == diagnostic@);
        if diagnostic.severity == Severity::Error {
            let line: u32 = match diagnostic.line {
                Some(line) => line,
                None => 0,
            };
            let mut text = relative.to_owned();
            text.push_str(":");
            text.push_str(decimal_text(line as u64).as_str());
            text.push_str(": ");
            text.push_str(diagnostic.message.as_str());
            push_item(&mut out, text);
        }
        i += 1;
    }
    out
}

/// Checks that a file may be rewritten, given its annotations before and after.
pub fn check_equivalence(relative: &str, before: &AnnotationScan, after: &AnnotationScan) -> (r:
    Result<(), String>)
    ensures
        match r {
            Ok(_) => equivalence_problem(relative@, before@, after@) is None,
            Err(message) => equivalence_problem(relative@, before@, after@) == Some(message@),
        },
{
    assert(after.diagnostics@.len() == after.diagnostics.deep_view().len());
    if !same_identities(&before.anchors, &after.anchors) || !same_memberships(
        &before.memberships,
        &after.memberships,
    ) || !same_edges(&before.relations, &after.relations) {
        let mut message = "dynamic-location migration changed graph semantics in ".to_owned();
        message.push_str(relative);
        return Err(message);
    }
    let errors = lines_of_errors(relative, &after.diagnostics);
    assert(errors@.len() == errors.deep_view().len());
    if errors.len() > 0 {
        let mut message = "dynamic-location migration could not resolve every anchor:\n".to_owned();
        message.push_str(join_texts(&errors, "\n").as_str());
        return Err(message);
    }
    Ok(())
}

/// Checks that a file may be rewritten.
fn validate_equivalence(relative: &str, config: &AnnotationConfig, before: &str, after: &str) -> (r:
    Result<(), String>)
    requires
        markers_are_filled(config@),
    ensures
        match r {
            Ok(_) => equivalence_problem(
                relative@,
                scan_of(relative@, before@, config@),
                scan_of(relative@, after@, config@),
            ) is None,
            Err(message) => equivalence_problem(
                relative@,
                scan_of(relative@, before@, config@),
                scan_of(relative@, after@, config@),
            ) == Some(message@),
        },
{
    let scan = scan_source(relative, before, config);
    let rescan = scan_source(relative, after, config);
    check_equivalence(relative, &scan, &rescan)
}

/// What became of line numbers in annotations.
#[derive(Debug, Clone)]
pub struct DynamicLocationMigration {
    /// How many files were looked at.
    pub files_scanned: usize,
    /// How many files have line numbers in their anchors.
    pub files_changed: usize,
    /// How many anchors have line numbers.
    pub annotations_migrated: usize,
    /// The files that have line numbers in their anchors.
    pub changed_paths: Vec<String>,
}

/// The mathematical content of a [`DynamicLocationMigration`].
#[verifier::ext_equal]
pub ghost struct DynamicLocationMigrationView {
    pub files_scanned: usize,
    pub files_changed: usize,
    pub annotations_migrated: usize,
    pub changed_paths: Seq<Seq<char>>,
}

impl View for DynamicLocationMigration {
    type V = DynamicLocationMigrationView;

    open spec fn view(&self) -> DynamicLocationMigrationView {
        DynamicLocationMigrationView {
            files_scanned: self.files_scanned.deep_view(),
            files_changed: self.files_changed.deep_view(),
            annotations_migrated: self.annotations_migrated.deep_view(),
            changed_paths: self.changed_paths.deep_view(),
        }
    }
}

impl DeepView for DynamicLocationMigration {
    type V = DynamicLocationMigrationView;

    open spec fn deep_view(&self) -> DynamicLocationMigrationView {
        self@
    }
}

impl Duplicate for DynamicLocationMigration {
    fn duplicate(&self) -> (r: Self) {
        DynamicLocationMigration {
            files_scanned: self.files_scanned,
            files_changed: self.files_changed,
            annotations_migrated: self.annotations_migrated,
            changed_paths: self.changed_paths.duplicate(),
        }
    }
}

/// A file that is to be rewritten.
#[derive(Debug, Clone)]
pub struct PendingFile {
    /// The path.
    pub path: String,
    /// The path in the repository.
    pub relative: String,
    /// The text that it is to have.
    pub text: String,
    /// How many anchors were rewritten.
    pub annotations: usize,
}

/// The mathematical content of a [`PendingFile`].
#[verifier::ext_equal]
pub ghost struct PendingFileView {
    pub path: Seq<char>,
    pub relative: Seq<char>,
    pub text: Seq<char>,
    pub annotations: usize,
}

impl View for PendingFile {
    type V = PendingFileView;

    open spec fn view(&self) -> PendingFileView {
        PendingFileView {
            path: self.path.deep_view(),
            relative: self.relative.deep_view(),
            text: self.text.deep_view(),
            annotations: self.annotations.deep_view(),
        }
    }
}

impl DeepView for PendingFile {
    type V = PendingFileView;

    open spec fn deep_view(&self) -> PendingFileView {
        self@
    }
}

impl Duplicate for PendingFile {
    fn duplicate(&self) -> (r: Self) {
        PendingFile {
            path: self.path.duplicate(),
            relative: self.relative.duplicate(),
            text: self.text.duplicate(),
            annotations: self.annotations,
        }
    }
}

/// A file and its content.
#[derive(Debug, Clone)]
pub struct SourceFile {
    /// The path.
    pub path: String,
    /// The content.
    pub content: FileContent,
}

/// The mathematical content of a [`SourceFile`].
#[verifier::ext_equal]
pub ghost struct SourceFileView {
    pub path: Seq<char>,
    pub content: FileContentView,
}

impl View for SourceFile {
    type V = SourceFileView;

    open spec fn view(&self) -> SourceFileView {
        SourceFileView {
            path: self.path.deep_view(),
            content: self.content.deep_view(),
        }
    }
}

impl DeepView for SourceFile {
    type V = SourceFileView;

    open spec fn deep_view(&self) -> SourceFileView {
        self@
    }
}

impl Duplicate for SourceFile {
    fn duplicate(&self) -> (r: Self) {
        SourceFile {
            path: self.path.duplicate(),
            content: self.content.duplicate(),
        }
    }
}

/// Whether a file that is to be rewritten comes before another.
pub open spec fn pending_less(a: PendingFileView, b: PendingFileView) -> bool {
    text_less(a.relative, b.relative)
}

/// Whether a file that is to be rewritten comes before another.
fn pending_before(a: &PendingFile, b: &PendingFile) -> (r: bool)
    ensures
        r == pending_less(a@, b@),
{
    text_before(a.relative.as_str(), b.relative.as_str())
}

/// A file put behind the last one that does not come after it.
pub open spec fn insert_pending(
    sorted: Seq<PendingFileView>,
    x: PendingFileView,
) -> Seq<PendingFileView>
    decreases sorted.len(),
{
    if sorted.len() == 0 || !pending_less(x, sorted.last()) {
        sorted.push(x)
    } else {
        insert_pending(sorted.drop_last(), x).push(sorted.last())
    }
}

/// Files in order; those that come neither before nor after each other stay as they were.
pub open spec fn sort_pendings(all: Seq<PendingFileView>) -> Seq<PendingFileView>
    decreases all.len(),
{
    if all.len() == 0 {
        all
    } else {
        insert_pending(sort_pendings(all.drop_last()), all.last())
    }
}

proof fn lemma_insert_pending(sorted: Seq<PendingFileView>, x: PendingFileView, at: int)
    requires
        0 <= at <= sorted.len(),
        forall|k: int| at <= k < sorted.len() ==> pending_less(x, #[trigger] sorted[k]),
        at > 0 ==> !pending_less(x, sorted[at - 1]),
    ensures
        insert_pending(sorted, x) == sorted.insert(at, x),
    decreases sorted.len(),
{
    if at == sorted.len() {
        assert(sorted.insert(at, x) =~= sorted.push(x));
    } else {
        lemma_insert_pending(sorted.drop_last(), x, at);
        assert(sorted.insert(at, x) =~= sorted.drop_last().insert(at, x).push(sorted.last()));
    }
}

/// Files in order.
fn sorted_pendings(all: &Vec<PendingFile>) -> (r: Vec<PendingFile>)
    ensures
        r.deep_view() == sort_pendings(all.deep_view()),
{
    let mut out: Vec<PendingFile> = Vec::new();
    let ghost views = all.deep_view();
    let mut i: usize = 0;
    assert(views.take(0) =~= seq![]);
    assert(out.deep_view() =~= sort_pendings(views.take(0)));
    while i < all.len()
        invariant
            i <= all@.len(),
            views == all.deep_view(),
            out.deep_view() == sort_pendings(views.take(i as int)),
        decreases all@.len() - i,
    {
        let x = all[i].duplicate();
        assert(views[i as int] == x@);
        assert(views.take(i + 1).drop_last() =~= views.take(i as int));
        let ghost before = out.deep_view();
        let mut at: usize = out.len();
        while at > 0
            invariant
                at <= out@.len(),
                before == out.deep_view(),
                forall|k: int| at <= k < before.len() ==> pending_less(x@, #[trigger] before[k]),
            ensures
                at <= out@.len(),
                forall|k: int| at <= k < before.len() ==> pending_less(x@, #[trigger] before[k]),
                at > 0 ==> !pending_less(x@, before[at - 1]),
            decreases at,
        {
            assert(before[at - 1] == out@[at - 1]@);
            if !pending_before(&x, &out[at - 1]) {
                break;
            }
            at -= 1;
        }
        proof {
            lemma_insert_pending(before, x@, at as int);
        }
        let ghost view = x@;
        out.insert(at, x);
        assert(out.deep_view() =~= before.insert(at as int, view));
        i += 1;
    }
    assert(views.take(views.len() as int) =~= views);
    out
}

/// The files among the first `n` that are to be rewritten, or why one may not be. A file that
/// is no text is passed over.
pub open spec fn pending_files(
    root: Seq<char>,
    config: AnnotationConfigView,
    files: Seq<SourceFileView>,
    n: int,
) -> Result<Seq<PendingFileView>, Seq<char>>
    decreases n,
{
    if n <= 0 {
        Ok(seq![])
    } else {
        match pending_files(root, config, files, n - 1) {
            Err(message) => Err(message),
            Ok(before) => match files[n - 1].content {
                FileContentView::Failed(message) => Err(message),
                FileContentView::Bytes(bytes) => if bytes.contains(0) || !vstd::utf8::valid_utf8(
                    bytes,
                ) {
                    Ok(before)
                } else {
                    let text = vstd::utf8::decode_utf8(bytes);
                    let relative = relative_path(root, files[n - 1].path);
                    match migrated_text(text, config) {
                        Err(message) => Err(message),
                        Ok((after, count)) => if counted(count) == 0 {
                            Ok(before)
                        } else {
                            match equivalence_problem(
                                relative,
                                scan_of(relative, text, config),
                                scan_of(relative, after, config),
                            ) {
                                Some(message) => Err(message),
                                None => Ok(
                                    before.push(
                                        PendingFileView {
                                            path: files[n - 1].path,
                                            relative,
                                            text: after,
                                            annotations: counted(count),
                                        },
                                    ),
                                ),
                            }
                        },
                    }
                },
            },
        }
    }
}

/// Once a file may not be rewritten, none is.
proof fn lemma_pending_error(
    root: Seq<char>,
    config: AnnotationConfigView,
    files: Seq<SourceFileView>,
    n: int,
    m: int,
)
    requires
        n <= m,
        pending_files(root, config, files, n) is Err,
    ensures
        pending_files(root, config, files, m) == pending_files(root, config, files, n),
    decreases m - n,
{
    if n < m {
        lemma_pending_error(root, config, files, n, m - 1);
    }
}

/// How many anchors the first `n` files have rewritten.
pub open spec fn rewritten_anchors(pending: Seq<PendingFileView>, n: int) -> usize
    decreases n,
{
    if n <= 0 {
        0
    } else {
        counted(rewritten_anchors(pending, n - 1) + pending[n - 1].annotations)
    }
}

/// What is reported of the files that are to be rewritten.
pub open spec fn migration_report(
    pending: Seq<PendingFileView>,
    scanned: int,
) -> DynamicLocationMigrationView {
    DynamicLocationMigrationView {
        files_scanned: scanned as usize,
        files_changed: pending.len() as usize,
        annotations_migrated: rewritten_anchors(pending, pending.len() as int),
        changed_paths: pending.map_values(|file: PendingFileView| file.relative),
    }
}

/// The file that a source file becomes, where it has to be rewritten.
fn migrate_file(repo: &Repository, config: &Config, file: &SourceFile) -> (r: Result<
    Option<PendingFile>,
    String,
>)
    requires
        markers_are_filled(config@.annotations),
    ensures
        pending_files(repo.root@, config@.annotations, seq![file@], 1) == match r {
            Ok(Some(pending)) => Ok::<Seq<PendingFileView>, Seq<char>>(seq![pending@]),
            Ok(None) => Ok(seq![]),
            Err(message) => Err(message@),
        },
{
    proof {
        reveal_with_fuel(pending_files, 2);
        assert(Seq::<PendingFileView>::empty() =~= seq![]);
    }
    let ghost none: Seq<PendingFileView> = seq![];
    let bytes = match &file.content {
        FileContent::Failed(message) => {
            return Err(message.clone());
        },
        FileContent::Bytes(bytes) => bytes,
    };
    if any_zero(bytes) {
        return Ok(None);
    }
    let text = match text_of_bytes(bytes) {
        None => {
            return Ok(None);
        },
        Some(text) => text,
    };
    let (after, count) = match migrate_text(text.as_str(), config) {
        Ok(migrated) => migrated,
        Err(message) => {
            return Err(message);
        },
    };
    if count == 0 {
        return Ok(None);
    }
    let relative = repo.relative(file.path.as_str());
    match validate_equivalence(
        relative.as_str(),
        &config.annotations,
        text.as_str(),
        after.as_str(),
    ) {
        Ok(_) => {},
        Err(message) => {
            return Err(message);
        },
    }
    let pending = PendingFile {
        path: file.path.clone(),
        relative,
        text: after,
        annotations: count,
    };
    assert(none.push(pending@) =~= seq![pending@]);
    Ok(Some(pending))
}

/// What becomes of one more file adds to what became of those before.
proof fn lemma_pending_step(
    root: Seq<char>,
    config: AnnotationConfigView,
    files: Seq<SourceFileView>,
    n: int,
)
    requires
        0 < n <= files.len(),
        pending_files(root, config, files, n - 1) is Ok,
    ensures
        pending_files(root, config, files, n) == match pending_files(
            root,
            config,
            seq![files[n - 1]],
            1,
        ) {
            Ok(more) => Ok::<Seq<PendingFileView>, Seq<char>>(
                pending_files(root, config, files, n - 1)->Ok_0 + more,
            ),
            Err(message) => Err(message),
        },
{
    reveal_with_fuel(pending_files, 2);
    let before = pending_files(root, config, files, n - 1)->Ok_0;
    let none: Seq<PendingFileView> = seq![];
    assert(seq![files[n - 1]][0] == files[n - 1]);
    assert(before + none =~= before);
    assert forall|x: PendingFileView| #[trigger] before.push(x) == before + none.push(x) by {
        assert(before.push(x) =~= before + none.push(x));
    }
}

/// The files that are to be rewritten so that no anchor has line numbers, in the order of
/// their paths, and what is reported of them.
pub fn dynamic_locations(repo: &Repository, config: &Config, files: &Vec<SourceFile>) -> (r: Result<
    (DynamicLocationMigration, Vec<PendingFile>),
    String,
>)
    requires
        markers_are_filled(config@.annotations),
    ensures
        match (
            r,
            pending_files(
                repo.root@,
                config@.annotations,
                files.deep_view(),
                files@.len() as int,
            ),
        ) {
            (Ok((report, pending)), Ok(found)) => pending.deep_view() == sort_pendings(found)
                && report@ == migration_report(sort_pendings(found), files@.len() as int),
            (Err(message), Err(problem)) => message@ == problem,
            _ => false,
        },
{
    let ghost all = files.deep_view();
    let ghost root = repo.root@;
    let ghost c = config@.annotations;
    let mut found: Vec<PendingFile> = Vec::new();
    let mut i: usize = 0;
    assert(found.deep_view() =~= seq![]);
    while i < files.len()
        invariant
            i <= files@.len(),
            all == files.deep_view(),
            root == repo.root@,
            c == config@.annotations,
            markers_are_filled(c),
            pending_files(root, c, all, i as int) == Ok::<Seq<PendingFileView>, Seq<char>>(
                found.deep_view(),
            ),
        decreases files@.len() - i,
    {
        assert(all[i as int] == files@[i as int]@);
        proof {
            lemma_pending_step(root, c, all, i + 1);
        }
        let ghost before = found.deep_view();
        match migrate_file(repo, config, &files[i]) {
            Err(message) => {
                proof {
                    lemma_pending_error(root, c, all, i + 1, all.len() as int);
                }
                return Err(message);
            },
            Ok(None) => {
                assert(before + seq![] =~= before);
            },
            Ok(Some(pending)) => {
                let ghost view = pending@;
                push_item(&mut found, pending);
                assert(found.deep_view() =~= before + seq![view]);
            },
        }
        i += 1;
    }
    let sorted = sorted_pendings(&found);
    let ghost views = sorted.deep_view();
    let mut paths: Vec<String> = Vec::new();
    let mut total: usize = 0;
    let mut k: usize = 0;
    while k < sorted.len()
        invariant
            k <= sorted@.len(),
            views == sorted.deep_view(),
            paths@.len() == k,
            forall|j: int| 0 <= j < k ==> #[trigger] paths@[j]@ == views[j].relative,
            total == rewritten_anchors(views, k as int),
        decreases sorted@.len() - k,
    {
        assert(views[k as int] == sorted@[k as int]@);
        paths.push(sorted[k].relative.clone());
        total = count_together(total, sorted[k].annotations);
        k += 1;
    }
    let report = DynamicLocationMigration {
        files_scanned: files.len(),
        files_changed: sorted.len(),
        annotations_migrated: total,
        changed_paths: paths,
    };
    assert(report@ =~= migration_report(views, files@.len() as int));
    Ok((report, sorted))
}

/// What is not in the body of an anchor stays as it is: a line without markers of anchors is
/// not rewritten.
pub proof fn other_lines_stay(line: Seq<char>, config: AnnotationConfigView)
    requires
        bodies_of(line, config).len() == 0,
    ensures
        migrated_line(line, config) == (line, 0int),
{
    assert(migrated_line(line, config).0 =~= line);
}

/// How long the text is that a line becomes up to the end of its first `n` bodies.
pub open spec fn place_of(line: Seq<char>, bodies: Seq<(int, int)>, n: int) -> int {
    with_bodies(line, bodies, n).0.len() as int
}

pub(crate) proof fn lemma_begins_with(line: Seq<char>, bodies: Seq<(int, int)>, n: int, m: int)
    requires
        0 <= n <= m <= bodies.len(),
    ensures
        with_bodies(line, bodies, n).0.is_prefix_of(with_bodies(line, bodies, m).0),
        n < m ==> (with_bodies(line, bodies, n).0 + text_between(line, bodies, n)).is_prefix_of(
            with_bodies(line, bodies, m).0,
        ),
    decreases m,
{
    if n < m {
        let less = with_bodies(line, bodies, m - 1).0;
        let more = with_bodies(line, bodies, m).0;
        let begun = less + text_between(line, bodies, m - 1);
        lemma_begins_with(line, bodies, n, m - 1);
        assert(begun.is_prefix_of(more));
        assert(less.is_prefix_of(more));
    }
}

/// What stands outside the bodies of anchors stays as it is: before the first one, between two
/// of them, and behind the last one.
pub proof fn text_outside_bodies_stays(line: Seq<char>, config: AnnotationConfigView, n: int)
    requires
        0 <= n <= bodies_of(line, config).len(),
    ensures
        ({
            let bodies = bodies_of(line, config);
            let after = migrated_line(line, config).0;
            let place = place_of(line, bodies, n);
            let text = text_between(line, bodies, n);
            &&& place + text.len() <= after.len()
            &&& after.subrange(place, place + text.len()) == text
            &&& n == bodies.len() ==> place + text.len() == after.len()
        }),
{
    let bodies = bodies_of(line, config);
    let all = bodies.len() as int;
    let after = migrated_line(line, config).0;
    let begun = with_bodies(line, bodies, n).0;
    let text = text_between(line, bodies, n);
    lemma_begins_with(line, bodies, n, all);
    assert((begun + text).is_prefix_of(after));
    let start = begun.len() as int;
    let end = start + text.len();
    assert((begun + text).subrange(start, end) =~= text);
    assert(after.subrange(start, end) =~= (begun + text).subrange(start, end));
}

/// The body of an anchor that is rewritten is what the annotation says: it ends with the
/// comment of the annotation, where the next one starts or with the line.
pub proof fn bodies_are_what_annotations_say(
    line: Seq<char>,
    config: AnnotationConfigView,
    n: int,
    k: int,
)
    requires
        0 <= k < n <= line_markers(line, config).len(),
        line_markers(line, config)[k].kind == MarkerKind::Anchor,
    ensures
        ({
            let markers = line_markers(line, config);
            let start = markers[k].start + markers[k].len;
            let end = annotation_end(line, markers, k);
            &&& anchor_bodies(line, markers, n).contains((start, end))
            &&& trim(line.subrange(start, end)) == marker_body(line, markers, k)
        }),
    decreases n,
{
    let markers = line_markers(line, config);
    let now = anchor_bodies(line, markers, n);
    let before = anchor_bodies(line, markers, n - 1);
    let body = (markers[k].start + markers[k].len, annotation_end(line, markers, k));
    if k < n - 1 {
        bodies_are_what_annotations_say(line, config, n - 1, k);
        let i = before.index_of(body);
        assert(now[i] == body);
    } else {
        assert(now.last() == body);
        lemma_annotation_end(line, config, k);
        lemma_marker_chain(all_markers(line, config), 0, line.len() as int);
        let end = if k + 1 < markers.len() {
            markers[k + 1].start
        } else {
            line.len() as int
        };
        let rest = line.subrange(body.0, end);
        lemma_body_end(rest, 0, None, false);
        assert(rest.take(body.1 - body.0) =~= line.subrange(body.0, body.1));
    }
}

/// Whether rewriting a file keeps what its annotations say of the graph: the anchors with their
/// targets, kinds and tags, the memberships with their roles, and the relations; and whether
/// every anchor is then placed.
pub open spec fn keeps_graph(before: AnnotationScanView, after: AnnotationScanView) -> bool {
    &&& identities(before.anchors) == identities(after.anchors)
    &&& told_members(before.memberships) == told_members(after.memberships)
    &&& told_relations(before.relations) == told_relations(after.relations)
    &&& forall|i: int|
        0 <= i < after.diagnostics.len() ==> (#[trigger] after.diagnostics[i]).severity
            != Severity::Error
}

proof fn lemma_no_errors(relative: Seq<char>, diagnostics: Seq<DiagnosticView>, n: int, i: int)
    requires
        0 <= i < n <= diagnostics.len(),
        error_lines(relative, diagnostics, n).len() == 0,
    ensures
        diagnostics[i].severity != Severity::Error,
    decreases n,
{
    if i < n - 1 {
        lemma_no_errors(relative, diagnostics, n - 1, i);
    }
}

/// Every file that a migration rewrites says the same of the graph as before, and all its
/// anchors are placed.
pub proof fn migrations_keep_the_graph(
    root: Seq<char>,
    config: AnnotationConfigView,
    files: Seq<SourceFileView>,
    n: int,
    k: int,
)
    requires
        0 <= n <= files.len(),
        pending_files(root, config, files, n) is Ok,
        0 <= k < pending_files(root, config, files, n)->Ok_0.len(),
    ensures
        exists|i: int|
            0 <= i < n && is_rewriting(
                root,
                config,
                #[trigger] files[i],
                pending_files(root, config, files, n)->Ok_0[k],
            ),
    decreases n,
{
    let now = pending_files(root, config, files, n)->Ok_0;
    if n > 0 {
        let before = pending_files(root, config, files, n - 1)->Ok_0;
        if k < before.len() {
            migrations_keep_the_graph(root, config, files, n - 1, k);
            let i = choose|i: int|
                0 <= i < n - 1 && is_rewriting(root, config, #[trigger] files[i], before[k]);
            assert(is_rewriting(root, config, files[i], now[k]));
        } else {
            let bytes = files[n - 1].content->Bytes_0;
            let text = vstd::utf8::decode_utf8(bytes);
            let relative = relative_path(root, files[n - 1].path);
            let after = scan_of(relative, now[k].text, config);
            assert forall|i: int| 0 <= i < after.diagnostics.len() implies (
            #[trigger] after.diagnostics[i]).severity != Severity::Error by {
                lemma_no_errors(
                    relative,
                    after.diagnostics,
                    after.diagnostics.len() as int,
                    i,
                );
            }
            assert(is_rewriting(root, config, files[n - 1], now[k]));
        }
    }
}

/// Whether a file is rewritten to a text that says the same of the graph.
pub open spec fn is_rewriting(
    root: Seq<char>,
    config: AnnotationConfigView,
    file: SourceFileView,
    pending: PendingFileView,
) -> bool {
    &&& file.content is Bytes
    &&& pending.path == file.path
    &&& keeps_graph(
        scan_of(pending.relative, vstd::utf8::decode_utf8(file.content->Bytes_0), config),
        scan_of(pending.relative, pending.text, config),
    )
}

} // verus!

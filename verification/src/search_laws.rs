//! What a search looks at, and what it finds.

use vstd::prelude::*;

use crate::collections::{lemma_orderable, ordered};
use crate::config::AnnotationConfigView;
use crate::line_laws::{joined_parts_are_lines, stands_as_line};
use crate::model::{FileRecordView, IndexView, LineRangeView, LocationView, WatchMode};
use crate::search::{
    annotation_names, documents_of_file, documents_with, first_name, is_left_out, occurrences,
    plain_lines, searched_lines, spaced_words, spread, tests_left_out, tokens_of,
    with_anchored_pieces, with_chunks, with_piece, DocumentView, PiecesView,
};
use crate::text::{
    is_ascii_word, is_letter_or_digit, is_lower, is_space, is_upper, join, lemma_find_from, lines,
    lower, matches_at, to_ascii_lower,
};

verus! {

proof fn lemma_run_end(s: Seq<char>, i: int)
    requires
        0 <= i <= s.len(),
    ensures
        i <= crate::search::run_end(s, i) <= s.len(),
        i < s.len() && !is_space(s[i]) ==> i < crate::search::run_end(s, i),
        forall|k: int| i <= k < crate::search::run_end(s, i) ==> !is_space(s[k]),
        crate::search::run_end(s, i) < s.len() ==> is_space(s[crate::search::run_end(s, i)]),
    decreases s.len() - i,
{
    if i < s.len() && !is_space(s[i]) {
        lemma_run_end(s, i + 1);
    }
}

proof fn lemma_run_end_moves(x: Seq<char>, y: Seq<char>, i: int)
    requires
        0 <= i <= y.len(),
    ensures
        crate::search::run_end(x + y, x.len() + i) == x.len() + crate::search::run_end(y, i),
    decreases y.len() - i,
{
    if i < y.len() {
        assert((x + y)[x.len() + i] == y[i]);
        if !is_space(y[i]) {
            lemma_run_end_moves(x, y, i + 1);
        }
    }
}

proof fn lemma_run_end_stays(x: Seq<char>, y: Seq<char>, i: int)
    requires
        0 <= i < x.len(),
        is_space(x.last()) || (y.len() > 0 && is_space(y[0])) || y.len() == 0,
    ensures
        crate::search::run_end(x + y, i) == crate::search::run_end(x, i),
    decreases x.len() - i,
{
    assert((x + y)[i] == x[i]);
    if !is_space(x[i]) {
        if i + 1 < x.len() {
            lemma_run_end_stays(x, y, i + 1);
        } else if y.len() > 0 {
            assert((x + y)[i + 1] == y[0]);
            assert(crate::search::run_end(x + y, i + 1) == i + 1);
            assert(crate::search::run_end(x, i + 1) == i + 1);
        } else {
            assert(x + y =~= x);
        }
    }
}

proof fn lemma_words_move(x: Seq<char>, y: Seq<char>, i: int)
    requires
        0 <= i <= y.len(),
    ensures
        spaced_words(x + y, x.len() + i) == spaced_words(y, i),
    decreases y.len() - i,
{
    if i < y.len() {
        assert((x + y)[x.len() + i] == y[i]);
        if is_space(y[i]) {
            lemma_words_move(x, y, i + 1);
        } else {
            lemma_run_end_moves(x, y, i);
            lemma_run_end(y, i);
            let end = crate::search::run_end(y, i);
            lemma_words_move(x, y, end);
            assert((x + y).subrange(x.len() + i, x.len() + end) =~= y.subrange(i, end));
        }
    }
}

/// Words on both sides of white space are apart.
proof fn lemma_words_apart(x: Seq<char>, y: Seq<char>, i: int)
    requires
        0 <= i <= x.len(),
        x.len() == 0 || is_space(x.last()) || (y.len() > 0 && is_space(y[0])) || y.len() == 0,
    ensures
        spaced_words(x + y, i) == spaced_words(x, i) + spaced_words(y, 0),
    decreases x.len() - i,
{
    let s = x + y;
    if i == x.len() {
        lemma_words_move(x, y, 0);
        assert(spaced_words(x, i) =~= seq![]);
        assert(spaced_words(s, i) =~= spaced_words(x, i) + spaced_words(y, 0));
    } else {
        assert(s[i] == x[i]);
        if is_space(x[i]) {
            lemma_words_apart(x, y, i + 1);
        } else {
            lemma_run_end_stays(x, y, i);
            lemma_run_end(x, i);
            let end = crate::search::run_end(x, i);
            lemma_words_apart(x, y, end);
            assert(s.subrange(i, end) =~= x.subrange(i, end));
            assert(spaced_words(s, i) =~= spaced_words(x, i) + spaced_words(y, 0));
        }
    }
}

proof fn lemma_spread_front(a: Seq<char>, b: Seq<char>, n: int)
    requires
        0 <= n <= a.len(),
    ensures
        spread(a + b, n) == spread(a, n),
    decreases n,
{
    if n > 0 {
        lemma_spread_front(a, b, n - 1);
        assert((a + b)[n - 1] == a[n - 1]);
        if n >= 2 {
            assert((a + b)[n - 2] == a[n - 2]);
        }
    }
}

/// What stands behind the first characters of a text is spread as it is alone, up to a space at
/// its start.
proof fn lemma_spread_back(a: Seq<char>, b: Seq<char>, n: int)
    requires
        0 < n <= b.len(),
    ensures
        ({
            let parted = a.len() > 0 && is_upper(b[0]) && crate::search::ends_lower(a.last());
            spread(a + b, a.len() + n) == spread(a + b, a.len() as int) + (if parted {
                seq![' ']
            } else {
                seq![]
            }) + spread(b, n)
        }),
    decreases n,
{
    let s = a + b;
    let start = spread(s, a.len() as int);
    let parted = a.len() > 0 && is_upper(b[0]) && crate::search::ends_lower(a.last());
    let gap: Seq<char> = if parted {
        seq![' ']
    } else {
        seq![]
    };
    assert(s[a.len() + n - 1] == b[n - 1]);
    if n == 1 {
        reveal_with_fuel(spread, 2);
        if a.len() > 0 {
            assert(s[a.len() - 1] == a.last());
        }
        assert(spread(s, a.len() as int + 1) =~= start + gap + spread(b, 1));
    } else {
        lemma_spread_back(a, b, n - 1);
        assert(s[a.len() + n - 2] == b[n - 2]);
        assert(spread(s, a.len() + n) =~= start + gap + spread(b, n));
    }
}

proof fn lemma_leading_space(y: Seq<char>)
    ensures
        spaced_words(seq![' '] + y, 0) == spaced_words(y, 0),
{
    lemma_words_apart(seq![' '], y, 0);
    reveal_with_fuel(spaced_words, 2);
    assert(spaced_words(seq![' '], 0) =~= seq![]);
    assert(seq![] + spaced_words(y, 0) =~= spaced_words(y, 0));
}

/// Words are apart where something other than a letter or a digit stands between them: the
/// words of a text are those before it and those behind it.
pub proof fn words_are_apart(a: Seq<char>, c: char, b: Seq<char>)
    requires
        !is_letter_or_digit(c),
    ensures
        tokens_of(a + seq![c] + b) == tokens_of(a) + tokens_of(b),
{
    let front = a + seq![c];
    let s = front + b;
    let n = a.len() as int;
    // What stands before and at the character.
    lemma_spread_front(a, seq![c], n);
    lemma_spread_front(front, b, n + 1);
    lemma_spread_front(front, b, n);
    assert(front[n] == c);
    let left = spread(a, n);
    let middle = spread(front, n + 1);
    assert(middle.last() == ' ');
    assert(spaced_words(middle, 0) == tokens_of(a)) by {
        let spaces: Seq<char> = if middle.len() == left.len() + 1 {
            seq![' ']
        } else {
            seq![' ', ' ']
        };
        assert(middle =~= left + spaces);
        lemma_words_apart(left, spaces, 0);
        reveal_with_fuel(spaced_words, 3);
        assert(spaced_words(spaces, 0) =~= seq![]);
        assert(spaced_words(left, 0) + seq![] =~= spaced_words(left, 0));
    }
    // What stands behind it.
    if b.len() == 0 {
        assert(s =~= front);
        assert(tokens_of(b) =~= seq![]) by {
            reveal_with_fuel(spread, 1);
            reveal_with_fuel(spaced_words, 1);
        }
        assert(tokens_of(a) + tokens_of(b) =~= tokens_of(a));
    } else {
        let right = spread(b, b.len() as int);
        lemma_spread_back(front, b, b.len() as int);
        let parted = is_upper(b[0]) && crate::search::ends_lower(front.last());
        let rest = if parted {
            seq![' '] + right
        } else {
            right
        };
        assert(spread(s, s.len() as int) =~= middle + rest);
        lemma_words_apart(middle, rest, 0);
        lemma_leading_space(right);
    }
}

/// A word goes on to the next capital letter behind a small letter or a digit, where another
/// starts.
pub proof fn words_are_apart_at_capitals(a: Seq<char>, b: Seq<char>)
    requires
        a.len() > 0,
        b.len() > 0,
        is_lower(a.last()) || '0' <= a.last() <= '9',
        is_upper(b[0]),
    ensures
        tokens_of(a + b) == tokens_of(a) + tokens_of(b),
{
    let s = a + b;
    let n = a.len() as int;
    lemma_spread_front(a, b, n);
    lemma_spread_back(a, b, b.len() as int);
    let left = spread(a, n);
    let right = spread(b, b.len() as int);
    let rest = seq![' '] + right;
    assert(spread(s, s.len() as int) =~= left + rest);
    lemma_words_apart(left, rest, 0);
    lemma_leading_space(right);
}

proof fn lemma_plain_spread(word: Seq<char>, n: int)
    requires
        0 <= n <= word.len(),
        forall|i: int| 0 <= i < word.len() ==> is_ascii_word(#[trigger] word[i]),
        forall|i: int|
            0 < i < word.len() ==> !('A' <= #[trigger] word[i] <= 'Z') || 'A' <= word[i - 1] <= 'Z',
    ensures
        spread(word, n) == to_ascii_lower(word).take(n),
    decreases n,
{
    if n > 0 {
        lemma_plain_spread(word, n - 1);
        let c = word[n - 1];
        assert(is_ascii_word(c));
        assert(to_ascii_lower(word).take(n) =~= to_ascii_lower(word).take(n - 1).push(
            to_ascii_lower(word)[n - 1],
        ));
        assert(lower(c) =~= seq![to_ascii_lower(word)[n - 1]]);
        if n >= 2 {
            assert(is_ascii_word(word[n - 2]));
        }
        assert(spread(word, n) =~= to_ascii_lower(word).take(n));
    } else {
        assert(spread(word, n) =~= to_ascii_lower(word).take(n));
    }
}

/// Letters and digits in a row, with no capital letter behind a small one or a digit, are one
/// word, in small letters.
pub proof fn letters_in_a_row_are_a_word(word: Seq<char>)
    requires
        word.len() > 0,
        forall|i: int| 0 <= i < word.len() ==> is_ascii_word(#[trigger] word[i]),
        forall|i: int|
            0 < i < word.len() ==> !('A' <= #[trigger] word[i] <= 'Z') || 'A' <= word[i - 1] <= 'Z',
    ensures
        tokens_of(word) == seq![to_ascii_lower(word)],
{
    let n = word.len() as int;
    let small = to_ascii_lower(word);
    lemma_plain_spread(word, n);
    assert(small.take(n) =~= small);
    assert forall|i: int| 0 <= i < small.len() implies !is_space(#[trigger] small[i]) by {
        assert(is_ascii_word(word[i]));
    }
    lemma_run_end(small, 0);
    let end = crate::search::run_end(small, 0);
    assert(end == n);
    assert(small.subrange(0, n) =~= small);
    assert(spaced_words(small, n) =~= seq![]);
    assert(tokens_of(word) =~= seq![small]);
}

/// The words of lines that are put together are those of the lines, one after the other.
pub proof fn words_of_lines_stand_together(parts: Seq<Seq<char>>, k: int)
    requires
        0 <= k < parts.len(),
    ensures
        exists|at: int|
            0 <= at && at + tokens_of(parts[k]).len() <= tokens_of(join(parts, seq!['\n'])).len()
                && #[trigger] tokens_of(join(parts, seq!['\n'])).subrange(
                at,
                at + tokens_of(parts[k]).len(),
            ) == tokens_of(parts[k]),
    decreases parts.len(),
{
    let whole = tokens_of(join(parts, seq!['\n']));
    let line = tokens_of(parts[k]);
    if parts.len() == 1 {
        assert(whole.subrange(0, 0int + line.len()) =~= line);
    } else {
        let front = join(parts.drop_last(), seq!['\n']);
        words_are_apart(front, '\n', parts.last());
        assert(whole == tokens_of(front) + tokens_of(parts.last()));
        if k == parts.len() - 1 {
            let at = tokens_of(front).len() as int;
            assert(whole.subrange(at, at + line.len()) =~= line);
        } else {
            words_of_lines_stand_together(parts.drop_last(), k);
            let at = choose|at: int|
                0 <= at && at + line.len() <= tokens_of(front).len() && #[trigger] tokens_of(
                    front,
                ).subrange(at, at + line.len()) == line;
            assert(whole.subrange(at, at + line.len()) =~= tokens_of(front).subrange(
                at,
                at + line.len(),
            ));
        }
    }
}

/// Whether a search leaves a line of a file out: it is in a Rust test, and tests are left out.
pub open spec fn is_test_line(record: FileRecordView, include_rust_tests: bool, line: int) -> bool {
    !include_rust_tests && exists|t: int|
        0 <= t < record.rust_test_ranges.len() && (#[trigger] record.rust_test_ranges[t]).start
            <= line <= record.rust_test_ranges[t].end
}

/// The text of some lines of a file as a search looks at it: a line that is left out is empty.
pub open spec fn text_of_lines(
    all: Seq<Seq<char>>,
    tests: Seq<LineRangeView>,
    start: int,
    end: int,
) -> Seq<char> {
    join(parts_of_lines(all, tests, start, end), seq!['\n'])
}

/// Some lines of a file as a search looks at them.
pub open spec fn parts_of_lines(
    all: Seq<Seq<char>>,
    tests: Seq<LineRangeView>,
    start: int,
    end: int,
) -> Seq<Seq<char>> {
    Seq::new(
        (end - start + 1) as nat,
        |k: int|
            if exists|t: int|
                0 <= t < tests.len() && (#[trigger] tests[t]).start <= start + k <= tests[t].end {
                seq![]
            } else {
                all[start - 1 + k]
            },
    )
}

/// Whether a document shows lines of a file.
pub open spec fn shows_lines(
    document: DocumentView,
    path: Seq<char>,
    all: Seq<Seq<char>>,
    tests: Seq<LineRangeView>,
    start: int,
    end: int,
) -> bool {
    &&& document.path == path
    &&& document.start == start
    &&& document.end == end
    &&& document.text == text_of_lines(all, tests, start, end)
    &&& document.tokens == tokens_of(document.text)
    &&& document.tokens.len() > 0
}

proof fn lemma_searched_lines(
    all: Seq<Seq<char>>,
    tests: Seq<LineRangeView>,
    start: u32,
    to: int,
)
    requires
        1 <= start,
        start - 1 <= to <= all.len() <= u32::MAX,
    ensures
        searched_lines(all, start, start - 1, to, tests) == parts_of_lines(
            all,
            tests,
            start as int,
            to,
        ),
    decreases to,
{
    let from = start - 1;
    if to > from {
        lemma_searched_lines(all, tests, start, to - 1);
        let number = crate::search::line_behind(start, to - 1 - from);
        assert(number == to);
        assert(is_left_out(tests, number as int) <==> exists|t: int|
            0 <= t < tests.len() && (#[trigger] tests[t]).start <= start + (to - 1 - from)
                <= tests[t].end);
        assert(searched_lines(all, start, from, to, tests) =~= parts_of_lines(
            all,
            tests,
            start as int,
            to,
        ));
    } else {
        assert(searched_lines(all, start, from, to, tests) =~= parts_of_lines(
            all,
            tests,
            start as int,
            to,
        ));
    }
}

/// Whether some lines of a file are told by a document, where they hold a word.
spec fn is_told(
    documents: Seq<DocumentView>,
    path: Seq<char>,
    all: Seq<Seq<char>>,
    tests: Seq<LineRangeView>,
    start: int,
    end: int,
) -> bool {
    tokens_of(text_of_lines(all, tests, start, end)).len() > 0 ==> exists|d: int|
        0 <= d < documents.len() && shows_lines(
            #[trigger] documents[d],
            path,
            all,
            tests,
            start,
            end,
        )
}

/// Whether the documents so far tell the lines that were seen, and nothing else.
spec fn are_honest(
    p: PiecesView,
    path: Seq<char>,
    all: Seq<Seq<char>>,
    tests: Seq<LineRangeView>,
) -> bool {
    &&& forall|start: u32, end: u32| #[trigger]
        p.seen.contains((start, end)) ==> 1 <= start <= end <= all.len() && is_told(
            p.documents,
            path,
            all,
            tests,
            start as int,
            end as int,
        )
    &&& forall|d: int|
        0 <= d < p.documents.len() ==> {
            let x = #[trigger] p.documents[d];
            &&& 1 <= x.start <= x.end <= all.len()
            &&& shows_lines(x, path, all, tests, x.start as int, x.end as int)
        }
}

proof fn lemma_piece(
    p: PiecesView,
    path: Seq<char>,
    all: Seq<Seq<char>>,
    tests: Seq<LineRangeView>,
    start: u32,
    end: u32,
    anchored: bool,
)
    requires
        are_honest(p, path, all, tests),
        1 <= start <= end <= all.len() <= u32::MAX,
    ensures
        ({
            let after = with_piece(p, path, all, tests, start, end, anchored);
            &&& are_honest(after, path, all, tests)
            &&& is_told(after.documents, path, all, tests, start as int, end as int)
            &&& p.documents.is_prefix_of(after.documents)
            &&& after.documents.len() > p.documents.len() ==> after.documents.len()
                == p.documents.len() + 1 && after.documents.last().start == start
                && after.documents.last().end == end && after.documents.last().anchored == anchored
            &&& after.seen == p.seen.insert((start, end))
        }),
{
    let after = with_piece(p, path, all, tests, start, end, anchored);
    lemma_searched_lines(all, tests, start, end as int);
    if p.seen.contains((start, end)) {
        assert(after.seen =~= p.seen.insert((start, end)));
    } else {
        let text = text_of_lines(all, tests, start as int, end as int);
        if tokens_of(text).len() > 0 {
            let last = after.documents[p.documents.len() as int];
            assert(shows_lines(last, path, all, tests, start as int, end as int));
        }
        assert forall|s: u32, e: u32| #[trigger] after.seen.contains((s, e)) implies 1 <= s <= e
            <= all.len() && is_told(after.documents, path, all, tests, s as int, e as int) by {
            if (s, e) != (start, end) {
                assert(p.seen.contains((s, e)));
                if tokens_of(text_of_lines(all, tests, s as int, e as int)).len() > 0 {
                    let d = choose|d: int|
                        0 <= d < p.documents.len() && shows_lines(
                            #[trigger] p.documents[d],
                            path,
                            all,
                            tests,
                            s as int,
                            e as int,
                        );
                    assert(after.documents[d] == p.documents[d]);
                }
            }
        }
        assert forall|d: int| 0 <= d < after.documents.len() implies {
            let x = #[trigger] after.documents[d];
            &&& 1 <= x.start <= x.end <= all.len()
            &&& shows_lines(x, path, all, tests, x.start as int, x.end as int)
        } by {
            if d < p.documents.len() {
                assert(after.documents[d] == p.documents[d]);
            }
        }
    }
}

proof fn lemma_told_stays(
    before: Seq<DocumentView>,
    after: Seq<DocumentView>,
    path: Seq<char>,
    all: Seq<Seq<char>>,
    tests: Seq<LineRangeView>,
    start: int,
    end: int,
)
    requires
        before.is_prefix_of(after),
        is_told(before, path, all, tests, start, end),
    ensures
        is_told(after, path, all, tests, start, end),
{
    if tokens_of(text_of_lines(all, tests, start, end)).len() > 0 {
        let d = choose|d: int|
            0 <= d < before.len() && shows_lines(
                #[trigger] before[d],
                path,
                all,
                tests,
                start,
                end,
            );
        assert(after[d] == before[d]);
    }
}

/// The lines that an anchor stands for in a file of `count` lines.
pub open spec fn stands_for(
    location: Option<LocationView>,
    path: Seq<char>,
    count: int,
    start: int,
    end: int,
) -> bool {
    &&& location is Some
    &&& location->0.path == path
    &&& location->0.watch != Some(WatchMode::File)
    &&& location->0.line_start == Some(start as u32)
    &&& 1 <= start <= count <= u32::MAX
    &&& {
        let last: int = match location->0.line_end {
            Some(line) => line as int,
            None => start,
        };
        start <= last && end == if last <= count {
            last
        } else {
            count
        }
    }
}

/// Whether some lines meet a range.
pub open spec fn meets(tests: Seq<LineRangeView>, start: int, end: int) -> bool {
    exists|t: int|
        0 <= t < tests.len() && (#[trigger] tests[t]).start <= end && start <= tests[t].end
}

proof fn lemma_anchored(
    index: IndexView,
    path: Seq<char>,
    all: Seq<Seq<char>>,
    tests: Seq<LineRangeView>,
    n: int,
)
    requires
        all.len() <= u32::MAX,
        0 <= n <= ordered(index.anchors.dom()).len(),
    ensures
        ({
            let p = with_anchored_pieces(index, path, all, tests, n);
            &&& are_honest(p, path, all, tests)
            &&& forall|d: int| 0 <= d < p.documents.len() ==> (#[trigger] p.documents[d]).anchored
            &&& forall|d: int|
                0 <= d < p.documents.len() ==> {
                    let x = #[trigger] p.documents[d];
                    exists|k: int|
                        0 <= k < n && stands_for(
                            index.anchors[#[trigger] ordered(
                                index.anchors.dom(),
                            )[k]].value.location,
                            path,
                            all.len() as int,
                            x.start as int,
                            x.end as int,
                        )
                }
            &&& forall|k: int, start: int, end: int|
                0 <= k < n && #[trigger] stands_for(
                    index.anchors[ordered(index.anchors.dom())[k]].value.location,
                    path,
                    all.len() as int,
                    start,
                    end,
                ) && !meets(tests, start, end) ==> is_told(
                    p.documents,
                    path,
                    all,
                    tests,
                    start,
                    end,
                )
        }),
    decreases n,
{
    if n > 0 {
        lemma_anchored(index, path, all, tests, n - 1);
        let ids = ordered(index.anchors.dom());
        let p = with_anchored_pieces(index, path, all, tests, n - 1);
        let after = with_anchored_pieces(index, path, all, tests, n);
        let location = index.anchors[ids[n - 1]].value.location;
        let count = all.len() as int;
        let found = location is Some && crate::search::anchored_lines(
            location->0,
            path,
            count,
        ) is Some;
        if found {
            let (start, end) = crate::search::anchored_lines(location->0, path, count)->0;
            assert(stands_for(location, path, count, start as int, end as int));
            if !crate::search::touches_tests(tests, start as int, end as int) {
                lemma_piece(p, path, all, tests, start, end, true);
            }
        }
        assert forall|d: int| 0 <= d < after.documents.len() implies (
        #[trigger] after.documents[d]).anchored by {
            if d < p.documents.len() {
                assert(after.documents[d] == p.documents[d]);
            }
        }
        assert forall|d: int| 0 <= d < after.documents.len() implies {
            let x = #[trigger] after.documents[d];
            exists|k: int|
                0 <= k < n && stands_for(
                    index.anchors[#[trigger] ids[k]].value.location,
                    path,
                    all.len() as int,
                    x.start as int,
                    x.end as int,
                )
        } by {
            let x = after.documents[d];
            if d < p.documents.len() {
                assert(x == p.documents[d]);
                let k = choose|k: int|
                    0 <= k < n - 1 && stands_for(
                        index.anchors[#[trigger] ids[k]].value.location,
                        path,
                        all.len() as int,
                        x.start as int,
                        x.end as int,
                    );
                assert(stands_for(
                    index.anchors[ids[k]].value.location,
                    path,
                    all.len() as int,
                    x.start as int,
                    x.end as int,
                ));
            } else {
                assert(stands_for(
                    index.anchors[ids[n - 1]].value.location,
                    path,
                    all.len() as int,
                    x.start as int,
                    x.end as int,
                ));
            }
        }
        assert forall|k: int, start: int, end: int|
            0 <= k < n && #[trigger] stands_for(
                index.anchors[ids[k]].value.location,
                path,
                all.len() as int,
                start,
                end,
            ) && !meets(tests, start, end) implies is_told(
            after.documents,
            path,
            all,
            tests,
            start,
            end,
        ) by {
            if k < n - 1 {
                lemma_told_stays(p.documents, after.documents, path, all, tests, start, end);
            } else {
                assert(!crate::search::touches_tests(tests, start, end));
                assert(crate::search::anchored_lines(location->0, path, count) == Some(
                    (start as u32, end as u32),
                ));
            }
        }
    }
}

proof fn lemma_chunks(
    p: PiecesView,
    path: Seq<char>,
    all: Seq<Seq<char>>,
    tests: Seq<LineRangeView>,
    start: int,
)
    requires
        are_honest(p, path, all, tests),
        1 <= start <= all.len() <= u32::MAX,
    ensures
        ({
            let after = with_chunks(p, path, all, tests, start);
            &&& are_honest(after, path, all, tests)
            &&& p.documents.is_prefix_of(after.documents)
            &&& forall|d: int|
                p.documents.len() <= d < after.documents.len() ==> {
                    let x = #[trigger] after.documents[d];
                    !x.anchored && x.end - x.start < 56
                }
            &&& forall|i: int, j: int|
                start <= i <= j <= all.len() && j - i <= 8 ==> #[trigger] tells_window(
                    after.documents,
                    path,
                    all,
                    tests,
                    i,
                    j,
                )
        }),
    decreases all.len() - start,
{
    let end = if start + 55 <= all.len() {
        start + 55
    } else {
        all.len() as int
    };
    let after = with_chunks(p, path, all, tests, start);
    let more = with_piece(p, path, all, tests, start as u32, end as u32, false);
    lemma_piece(p, path, all, tests, start as u32, end as u32, false);
    if end < all.len() {
        lemma_chunks(more, path, all, tests, start + 48);
    }
    lemma_told_stays(more.documents, after.documents, path, all, tests, start, end);
    assert forall|i: int, j: int|
        start <= i <= j <= all.len() && j - i <= 8 implies #[trigger] tells_window(
        after.documents,
        path,
        all,
        tests,
        i,
        j,
    ) by {
        if j <= end {
            assert(is_told(after.documents, path, all, tests, start, end));
            assert(tells_window(after.documents, path, all, tests, i, j)) by {
                assert(start <= i && j <= end);
                lemma_window(after.documents, path, all, tests, start, end, i, j);
            }
        } else {
            assert(i >= start + 48);
        }
    }
    assert forall|d: int| p.documents.len() <= d < after.documents.len() implies {
        let x = #[trigger] after.documents[d];
        !x.anchored && x.end - x.start < 56
    } by {
        if d < more.documents.len() {
            assert(after.documents[d] == more.documents[d]);
            assert(d == p.documents.len());
        }
    }
}

/// Whether one document shows some lines in a row, where one of them holds a word.
spec fn tells_window(
    documents: Seq<DocumentView>,
    path: Seq<char>,
    all: Seq<Seq<char>>,
    tests: Seq<LineRangeView>,
    i: int,
    j: int,
) -> bool {
    (exists|k: int|
        i <= k <= j && !meets(tests, k, k) && tokens_of(#[trigger] all[k - 1]).len() > 0)
        ==> exists|d: int|
        0 <= d < documents.len() && (#[trigger] documents[d]).start <= i && j <= documents[d].end
            && shows_lines(
            documents[d],
            path,
            all,
            tests,
            documents[d].start as int,
            documents[d].end as int,
        )
}

proof fn lemma_window(
    documents: Seq<DocumentView>,
    path: Seq<char>,
    all: Seq<Seq<char>>,
    tests: Seq<LineRangeView>,
    start: int,
    end: int,
    i: int,
    j: int,
)
    requires
        1 <= start <= i <= j <= end <= all.len() <= u32::MAX,
        is_told(documents, path, all, tests, start, end),
    ensures
        tells_window(documents, path, all, tests, i, j),
{
    if exists|k: int|
        i <= k <= j && !meets(tests, k, k) && tokens_of(#[trigger] all[k - 1]).len() > 0 {
        let k = choose|k: int|
            i <= k <= j && !meets(tests, k, k) && tokens_of(#[trigger] all[k - 1]).len() > 0;
        let parts = parts_of_lines(all, tests, start, end);
        lemma_part_is_line(all, tests, start, end, k);
        words_of_lines_stand_together(parts, k - start);
        assert(tokens_of(text_of_lines(all, tests, start, end)).len() > 0);
        let d = choose|d: int|
            0 <= d < documents.len() && shows_lines(
                #[trigger] documents[d],
                path,
                all,
                tests,
                start,
                end,
            );
        assert(documents[d].start <= i && j <= documents[d].end);
    }
}

proof fn lemma_part_is_line(
    all: Seq<Seq<char>>,
    tests: Seq<LineRangeView>,
    start: int,
    end: int,
    k: int,
)
    requires
        1 <= start <= k <= end <= all.len(),
        !meets(tests, k, k),
    ensures
        parts_of_lines(all, tests, start, end)[k - start] == all[k - 1],
{
    assert forall|t: int| 0 <= t < tests.len() implies !((#[trigger] tests[t]).start <= start + (k
        - start) <= tests[t].end) by {
        if tests[t].start <= k <= tests[t].end {
            assert(meets(tests, k, k));
        }
    }
}

/// Every word of a file is searched: any nine lines of a file in a row, of which one is left in
/// and holds a word, stand together in one document of the file. The document holds the words
/// of each of these lines that is left in, one after the other.
pub proof fn every_line_is_searched(
    index: IndexView,
    path: Seq<char>,
    record: FileRecordView,
    text: Seq<char>,
    include_rust_tests: bool,
    config: AnnotationConfigView,
    i: int,
    j: int,
    k: int,
)
    requires
        lines(text).len() <= u32::MAX,
        1 <= i <= k <= j <= lines(text).len(),
        j - i <= 8,
        !is_test_line(record, include_rust_tests, k),
        tokens_of(plain_lines(text, config)[k - 1]).len() > 0,
    ensures
        ({
            let line = plain_lines(text, config)[k - 1];
            let documents = documents_of_file(
                index,
                path,
                record,
                text,
                include_rust_tests,
                config,
            );
            exists|d: int|
                0 <= d < documents.len() && (#[trigger] documents[d]).start <= i && j
                    <= documents[d].end && documents[d].path == path && stands_as_line(
                    documents[d].text,
                    line,
                ) && holds_words(documents[d].tokens, tokens_of(line))
        }),
{
    let all = plain_lines(text, config);
    let tests = tests_left_out(record, include_rust_tests);
    let n = ordered(index.anchors.dom()).len() as int;
    let anchored = with_anchored_pieces(index, path, all, tests, n);
    let documents = documents_of_file(index, path, record, text, include_rust_tests, config);
    lemma_anchored(index, path, all, tests, n);
    lemma_chunks(anchored, path, all, tests, 1);
    assert(!meets(tests, k, k)) by {
        if meets(tests, k, k) {
            let t = choose|t: int|
                0 <= t < tests.len() && (#[trigger] tests[t]).start <= k && k <= tests[t].end;
            assert(record.rust_test_ranges[t].start <= k <= record.rust_test_ranges[t].end);
        }
    }
    assert(tells_window(documents, path, all, tests, i, j));
    assert(tokens_of(all[k - 1]).len() > 0);
    let d = choose|d: int|
        0 <= d < documents.len() && (#[trigger] documents[d]).start <= i && j <= documents[d].end
            && shows_lines(
            documents[d],
            path,
            all,
            tests,
            documents[d].start as int,
            documents[d].end as int,
        );
    assert(1 <= documents[d].start <= documents[d].end <= all.len());
    let start = documents[d].start as int;
    let end = documents[d].end as int;
    let parts = parts_of_lines(all, tests, start, end);
    lemma_part_is_line(all, tests, start, end, k);
    words_of_lines_stand_together(parts, k - start);
    joined_parts_are_lines(parts, k - start);
}

/// Whether words stand together among others.
pub open spec fn holds_words(all: Seq<Seq<char>>, words: Seq<Seq<char>>) -> bool {
    exists|at: int|
        0 <= at && at + words.len() <= all.len() && #[trigger] all.subrange(at, at + words.len())
            == words
}

/// Every document of a file shows lines of the file: its text is that of the lines from its
/// start to its end, of which those that are left out are empty, and its words are those of its
/// text. A document is of an anchor's lines, or of at most 56 lines of the file.
pub proof fn documents_show_their_lines(
    index: IndexView,
    path: Seq<char>,
    record: FileRecordView,
    text: Seq<char>,
    include_rust_tests: bool,
    config: AnnotationConfigView,
    d: int,
)
    requires
        lines(text).len() <= u32::MAX,
        0 <= d < documents_of_file(index, path, record, text, include_rust_tests, config).len(),
    ensures
        ({
            let all = plain_lines(text, config);
            let x = documents_of_file(
                index,
                path,
                record,
                text,
                include_rust_tests,
                config,
            )[d];
            &&& 1 <= x.start <= x.end <= lines(text).len()
            &&& x.text == join(
                Seq::new(
                    (x.end - x.start + 1) as nat,
                    |k: int|
                        if is_test_line(record, include_rust_tests, x.start + k) {
                            seq![]
                        } else {
                            all[x.start - 1 + k]
                        },
                ),
                seq!['\n'],
            )
            &&& x.tokens == tokens_of(x.text)
            &&& x.tokens.len() > 0
            &&& !x.anchored ==> x.end - x.start < 56
            &&& x.anchored ==> exists|k: int|
                0 <= k < ordered(index.anchors.dom()).len() && stands_for(
                    index.anchors[#[trigger] ordered(index.anchors.dom())[k]].value.location,
                    path,
                    all.len() as int,
                    x.start as int,
                    x.end as int,
                )
        }),
{
    let all = plain_lines(text, config);
    let tests = tests_left_out(record, include_rust_tests);
    let n = ordered(index.anchors.dom()).len() as int;
    let anchored = with_anchored_pieces(index, path, all, tests, n);
    let documents = documents_of_file(index, path, record, text, include_rust_tests, config);
    lemma_anchored(index, path, all, tests, n);
    if all.len() > 0 {
        lemma_chunks(anchored, path, all, tests, 1);
        let x = documents[d];
        if d < anchored.documents.len() {
            assert(x == anchored.documents[d]);
        }
        let parts = parts_of_lines(all, tests, x.start as int, x.end as int);
        let stated = Seq::new(
            (x.end - x.start + 1) as nat,
            |k: int|
                if is_test_line(record, include_rust_tests, x.start + k) {
                    seq![]
                } else {
                    all[x.start - 1 + k]
                },
        );
        assert forall|k: int| 0 <= k < parts.len() implies parts[k] == stated[k] by {
            let line = x.start + k;
            if is_test_line(record, include_rust_tests, line) {
                let t = choose|t: int|
                    0 <= t < record.rust_test_ranges.len() && (
                    #[trigger] record.rust_test_ranges[t]).start <= line
                        <= record.rust_test_ranges[t].end;
                assert(tests[t].start <= line <= tests[t].end);
            }
            if exists|t: int|
                0 <= t < tests.len() && (#[trigger] tests[t]).start <= x.start + k <= tests[t].end {
                let t = choose|t: int|
                    0 <= t < tests.len() && (#[trigger] tests[t]).start <= x.start + k
                        <= tests[t].end;
                assert(record.rust_test_ranges[t].start <= line <= record.rust_test_ranges[t].end);
            }
        }
        assert(parts =~= stated);
    }
}

/// The lines of every anchor of a file that hold a word and meet no test that is left out are
/// a document of their own.
pub proof fn anchors_are_searched(
    index: IndexView,
    path: Seq<char>,
    record: FileRecordView,
    text: Seq<char>,
    include_rust_tests: bool,
    config: AnnotationConfigView,
    id: Seq<char>,
    start: int,
    end: int,
    k: int,
)
    requires
        lines(text).len() <= u32::MAX,
        index.anchors.dom().finite(),
        index.anchors.contains_key(id),
        stands_for(
            index.anchors[id].value.location,
            path,
            lines(text).len() as int,
            start,
            end,
        ),
        include_rust_tests || !meets(record.rust_test_ranges, start, end),
        start <= k <= end,
        tokens_of(plain_lines(text, config)[k - 1]).len() > 0,
    ensures
        ({
            let documents = documents_of_file(
                index,
                path,
                record,
                text,
                include_rust_tests,
                config,
            );
            exists|d: int|
                0 <= d < documents.len() && (#[trigger] documents[d]).start == start
                    && documents[d].end == end && documents[d].path == path
        }),
{
    let all = plain_lines(text, config);
    let tests = tests_left_out(record, include_rust_tests);
    let ids = ordered(index.anchors.dom());
    let n = ids.len() as int;
    let anchored = with_anchored_pieces(index, path, all, tests, n);
    let documents = documents_of_file(index, path, record, text, include_rust_tests, config);
    lemma_anchored(index, path, all, tests, n);
    lemma_chunks(anchored, path, all, tests, 1);
    lemma_orderable(index.anchors.dom());
    assert(ids.to_set().contains(id));
    let a = ids.index_of(id);
    assert(!meets(tests, start, end));
    assert(stands_for(
        index.anchors[ids[a]].value.location,
        path,
        all.len() as int,
        start,
        end,
    ));
    lemma_told_stays(anchored.documents, documents, path, all, tests, start, end);
    assert(!meets(tests, k, k)) by {
        if meets(tests, k, k) {
            let t = choose|t: int|
                0 <= t < tests.len() && (#[trigger] tests[t]).start <= k && k <= tests[t].end;
            assert(tests[t].start <= end && start <= tests[t].end);
        }
    }
    let parts = parts_of_lines(all, tests, start, end);
    lemma_part_is_line(all, tests, start, end, k);
    words_of_lines_stand_together(parts, k - start);
}

/// Whether an annotation can start with a name: one of the names that stand for annotations
/// everywhere, or a marker that a repository has.
pub open spec fn starts_annotations(config: AnnotationConfigView, name: Seq<char>) -> bool {
    ||| name == "@strandmap"@
    ||| name == "@anchor"@
    ||| name == "@strand"@
    ||| name == "@relation"@
    ||| config.anchor_markers.contains(name)
    ||| config.strand_markers.contains(name)
    ||| config.relation_markers.contains(name)
}

/// Whether a name stands in a line from a position on.
pub open spec fn has_name_at(line: Seq<char>, name: Seq<char>, at: int) -> bool {
    0 <= at && at + name.len() <= line.len() && line.subrange(at, at + name.len()) == name
}

proof fn lemma_names(config: AnnotationConfigView, name: Seq<char>)
    ensures
        annotation_names(config).contains(name) <==> starts_annotations(config, name),
{
    let fixed = seq!["@strandmap"@, "@anchor"@, "@strand"@, "@relation"@];
    let names = annotation_names(config);
    let one = fixed.len() + config.anchor_markers.len();
    let two = one + config.strand_markers.len();
    if starts_annotations(config, name) {
        if config.anchor_markers.contains(name) {
            let k = config.anchor_markers.index_of(name);
            assert(names[fixed.len() + k] == name);
        } else if config.strand_markers.contains(name) {
            let k = config.strand_markers.index_of(name);
            assert(names[one + k] == name);
        } else if config.relation_markers.contains(name) {
            let k = config.relation_markers.index_of(name);
            assert(names[two + k] == name);
        } else {
            assert(names[0] == fixed[0]);
            assert(names[1] == fixed[1]);
            assert(names[2] == fixed[2]);
            assert(names[3] == fixed[3]);
        }
    }
    if names.contains(name) {
        let k = names.index_of(name);
        if k < fixed.len() {
            assert(name == fixed[k]);
        } else if k < one {
            assert(config.anchor_markers[k - fixed.len()] == name);
        } else if k < two {
            assert(config.strand_markers[k - one] == name);
        } else {
            assert(config.relation_markers[k - two] == name);
        }
    }
}

proof fn lemma_first_name_stands(line: Seq<char>, names: Seq<Seq<char>>, n: int)
    requires
        0 <= n <= names.len(),
    ensures
        match first_name(line, names, n) {
            Some(first) => exists|k: int|
                0 <= k < n && has_name_at(line, #[trigger] names[k], first),
            None => true,
        },
        forall|k: int, at: int|
            0 <= k < n && #[trigger] has_name_at(line, names[k], at) ==> (first_name(
                line,
                names,
                n,
            ) matches Some(first) && first <= at),
    decreases n,
{
    if n > 0 {
        lemma_first_name_stands(line, names, n - 1);
        lemma_find_from(line, names[n - 1], 0);
        assert forall|k: int, at: int|
            0 <= k < n && #[trigger] has_name_at(line, names[k], at) implies (first_name(
            line,
            names,
            n,
        ) matches Some(first) && first <= at) by {
            if k == n - 1 {
                assert(matches_at(line, names[n - 1], at));
            }
        }
        match first_name(line, names, n) {
            Some(first) => {
                if first_name(line, names, n - 1) == Some(first) {
                    let k = choose|k: int|
                        0 <= k < n - 1 && has_name_at(line, #[trigger] names[k], first);
                    assert(has_name_at(line, names[k], first));
                } else {
                    assert(matches_at(line, names[n - 1], first));
                    assert(has_name_at(line, names[n - 1], first));
                }
            },
            None => {},
        }
    }
}

/// Every line of a file is searched, up to the first place at which an annotation can start,
/// and as a whole where there is none.
pub proof fn lines_are_searched_up_to_their_annotation(
    text: Seq<char>,
    config: AnnotationConfigView,
    k: int,
)
    requires
        0 <= k < lines(text).len(),
    ensures
        plain_lines(text, config).len() == lines(text).len(),
        plain_lines(text, config)[k].is_prefix_of(lines(text)[k]),
        forall|name: Seq<char>, at: int|
            starts_annotations(config, name) && #[trigger] has_name_at(lines(text)[k], name, at)
                ==> plain_lines(text, config)[k].len() <= at,
        plain_lines(text, config)[k].len() < lines(text)[k].len() ==> exists|name: Seq<char>|
            starts_annotations(config, name) && #[trigger] has_name_at(
                lines(text)[k],
                name,
                plain_lines(text, config)[k].len() as int,
            ),
{
    let line = lines(text)[k];
    let plain = plain_lines(text, config)[k];
    let names = annotation_names(config);
    lemma_first_name_stands(line, names, names.len() as int);
    assert forall|name: Seq<char>, at: int|
        starts_annotations(config, name) && #[trigger] has_name_at(line, name, at) implies plain.len()
        <= at by {
        lemma_names(config, name);
        let j = names.index_of(name);
        assert(has_name_at(line, names[j], at));
    }
    if plain.len() < line.len() {
        let first = first_name(line, names, names.len() as int)->0;
        let j = choose|j: int|
            0 <= j < names.len() && has_name_at(line, #[trigger] names[j], first);
        lemma_names(config, names[j]);
        assert(has_name_at(line, names[j], plain.len() as int));
    }
}

/// A word counts once for each place at which it stands: none where it does not stand, one more
/// for each place, and in two pieces of a text together as often as in both.
pub proof fn words_are_counted(a: Seq<Seq<char>>, b: Seq<Seq<char>>, word: Seq<char>)
    ensures
        occurrences(a, word, a.len() as int) > 0 <==> a.contains(word),
        occurrences(a + b, word, (a.len() + b.len()) as int) == occurrences(
            a,
            word,
            a.len() as int,
        ) + occurrences(b, word, b.len() as int),
        occurrences(seq![word], word, 1) == 1,
{
    reveal_with_fuel(occurrences, 2);
    lemma_occurs(a, word, a.len() as int);
    lemma_occurs_behind(a, b, word, b.len() as int);
    assert(a.take(a.len() as int) =~= a);
}

proof fn lemma_occurs(tokens: Seq<Seq<char>>, word: Seq<char>, n: int)
    requires
        0 <= n <= tokens.len(),
    ensures
        occurrences(tokens, word, n) > 0 <==> tokens.take(n).contains(word),
    decreases n,
{
    if n > 0 {
        lemma_occurs(tokens, word, n - 1);
        let front = tokens.take(n - 1);
        assert(tokens.take(n) =~= front.push(tokens[n - 1]));
        if front.contains(word) {
            let k = front.index_of(word);
            assert(tokens.take(n)[k] == word);
        }
        if tokens[n - 1] == word {
            assert(tokens.take(n)[n - 1] == word);
        }
        if tokens.take(n).contains(word) && tokens[n - 1] != word {
            let k = tokens.take(n).index_of(word);
            assert(front[k] == word);
        }
    }
}

proof fn lemma_occurs_behind(a: Seq<Seq<char>>, b: Seq<Seq<char>>, word: Seq<char>, n: int)
    requires
        0 <= n <= b.len(),
    ensures
        occurrences(a + b, word, a.len() + n) == occurrences(a, word, a.len() as int)
            + occurrences(b, word, n),
    decreases n,
{
    if n > 0 {
        lemma_occurs_behind(a, b, word, n - 1);
        assert((a + b)[a.len() + n - 1] == b[n - 1]);
    } else {
        lemma_occurs_before(a, b, word, a.len() as int);
    }
}

proof fn lemma_occurs_before(a: Seq<Seq<char>>, b: Seq<Seq<char>>, word: Seq<char>, n: int)
    requires
        0 <= n <= a.len(),
    ensures
        occurrences(a + b, word, n) == occurrences(a, word, n),
    decreases n,
{
    if n > 0 {
        lemma_occurs_before(a, b, word, n - 1);
        assert((a + b)[n - 1] == a[n - 1]);
    }
}

/// The documents that hold a word are counted: one more document counts one more where it holds
/// the word and no more where it does not, and no document is left out.
pub proof fn documents_are_counted(documents: Seq<DocumentView>, word: Seq<char>)
    ensures
        documents_with(documents, word, documents.len() as int) == documents.filter(
            |x: DocumentView| x.tokens.contains(word),
        ).len(),
    decreases documents.len(),
{
    reveal(Seq::filter);
    if documents.len() > 0 {
        let front = documents.drop_last();
        documents_are_counted(front, word);
        lemma_counted_before(front, documents, word, front.len() as int);
    }
}

proof fn lemma_counted_before(
    a: Seq<DocumentView>,
    b: Seq<DocumentView>,
    word: Seq<char>,
    n: int,
)
    requires
        0 <= n <= a.len() <= b.len(),
        forall|k: int| 0 <= k < a.len() ==> a[k] == b[k],
    ensures
        documents_with(a, word, n) == documents_with(b, word, n),
    decreases n,
{
    if n > 0 {
        lemma_counted_before(a, b, word, n - 1);
    }
}

} // verus!

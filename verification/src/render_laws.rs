//! What holds of the context that is printed.

use vstd::prelude::*;

use crate::collections::ordered;
use crate::context_output::{
    accounted, available_end, budgeted, close_joined, covering, covers, excerpt_less,
    excerpt_marker, excerpt_text, fence_of, filters_of, insert_excerpt, insert_place,
    insert_request, is_bounded, is_outside, joined_excerpts, lemma_joined_starts,
    lemma_pieces_inside, lemma_requests_start, lemma_sorted_starts, lemma_starts_for, lie_within,
    line_after, line_count, listed_anchors, longest_quotes, merged_excerpts, near_joined,
    place_less, production_lines, quotes_before, request_less, request_paths, requests_for,
    requests_of, selected, sort_excerpts, sort_places, sort_requests, source_lines, source_of,
    starts_are_lines, token_estimate, with_pieces, with_requests, without_redundant, ExcerptView,
    FileContentView, LoadedSourceView, RenderOptionsView, RequestView, DETAILED_ANCHORS,
};
use crate::line_laws::{
    joined_parts_are_lines, lines_hold_no_line_feed, lines_of_joined_lines, lines_stay_lines,
    shown_lines_hold_something, shows_line, stands_as_line, stands_at,
};
use crate::model::{AffectedAnchorView, ContextPacketView};
use crate::source_span::{all_filled, separated, test_spans, Span};
use crate::text::{
    contains, decimal, find_from, is_blank, join, lemma_find_from, lemma_text_less_irreflexive,
    lemma_text_less_total, lemma_text_less_transitive, lines, text_less, without_return,
};

verus! {

/// Whether a line is in one of the pieces.
pub open spec fn in_piece(pieces: Seq<(u32, u32)>, line: u32) -> bool {
    exists|k: int| 0 <= k < pieces.len() && (#[trigger] pieces[k]).0 <= line <= pieces[k].1
}

/// Whether a line is in one of the spans from position `i` on.
pub open spec fn in_span(spans: Seq<Span>, line: u32, i: int) -> bool {
    exists|k: int|
        i <= k < spans.len() && (#[trigger] spans[k]).start_line <= line <= spans[k].end_line
}

/// Whether all spans end before the last line that can be counted.
pub open spec fn end_early(spans: Seq<Span>) -> bool {
    forall|k: int| 0 <= k < spans.len() ==> (#[trigger] spans[k]).end_line < u32::MAX
}

proof fn lemma_in_piece_add(a: Seq<(u32, u32)>, b: Seq<(u32, u32)>, line: u32)
    ensures
        in_piece(a + b, line) == (in_piece(a, line) || in_piece(b, line)),
{
    let both = a + b;
    if in_piece(a, line) {
        let k = choose|k: int| 0 <= k < a.len() && (#[trigger] a[k]).0 <= line <= a[k].1;
        assert(both[k] == a[k]);
    }
    if in_piece(b, line) {
        let k = choose|k: int| 0 <= k < b.len() && (#[trigger] b[k]).0 <= line <= b[k].1;
        assert(both[a.len() + k] == b[k]);
    }
    if in_piece(both, line) {
        let k = choose|k: int| 0 <= k < both.len() && (#[trigger] both[k]).0 <= line <= both[k].1;
        if k < a.len() {
            assert(a[k] == both[k]);
        } else {
            assert(b[k - a.len()] == both[k]);
        }
    }
}

proof fn lemma_production(
    start: u32,
    end: u32,
    tests: Seq<Span>,
    cursor: u32,
    i: int,
    line: u32,
)
    requires
        1 <= start <= cursor,
        end < u32::MAX || end_early(tests),
        0 <= i <= tests.len(),
        separated(tests),
        all_filled(tests),
    ensures
        in_piece(production_lines(start, end, tests, cursor, i), line) == (cursor <= line <= end
            && !in_span(tests, line, i)),
    decreases tests.len() - i,
{
    let all = production_lines(start, end, tests, cursor, i);
    if i >= tests.len() {
        if cursor <= line <= end {
            assert(all[0] == (cursor, end));
        }
    } else {
        let test = tests[i];
        assert(in_span(tests, line, i) == (test.start_line <= line <= test.end_line || in_span(
            tests,
            line,
            i + 1,
        ))) by {
            if in_span(tests, line, i) {
                let k = choose|k: int|
                    i <= k < tests.len() && (#[trigger] tests[k]).start_line <= line
                        <= tests[k].end_line;
                assert(tests[k].start_line <= line <= tests[k].end_line);
            }
            if in_span(tests, line, i + 1) {
                let k = choose|k: int|
                    i + 1 <= k < tests.len() && (#[trigger] tests[k]).start_line <= line
                        <= tests[k].end_line;
                assert(tests[k].start_line <= line <= tests[k].end_line);
            }
        }
        if !(test.start_line <= end && start <= test.end_line) {
            lemma_production(start, end, tests, cursor, i + 1, line);
        } else {
            let piece: Seq<(u32, u32)> = if cursor < test.start_line {
                seq![(cursor, (test.start_line - 1) as u32)]
            } else {
                seq![]
            };
            assert(in_piece(piece, line) == (cursor <= line < test.start_line)) by {
                if cursor <= line < test.start_line {
                    assert(piece[0] == (cursor, (test.start_line - 1) as u32));
                }
            }
            let behind = line_after(test.end_line, 1);
            let next = if cursor > behind {
                cursor
            } else {
                behind
            };
            assert(line < test.start_line ==> !in_span(tests, line, i + 1)) by {
                if line < test.start_line && in_span(tests, line, i + 1) {
                    let k = choose|k: int|
                        i + 1 <= k < tests.len() && (#[trigger] tests[k]).start_line <= line
                            <= tests[k].end_line;
                    assert(tests[i].end_line + 1 < tests[k].start_line);
                }
            }
            if next > end {
                assert(all == piece);
            } else {
                lemma_production(start, end, tests, next, i + 1, line);
                lemma_in_piece_add(
                    piece,
                    production_lines(start, end, tests, next, i + 1),
                    line,
                );
            }
        }
    }
}

/// A wanted line is printed exactly where it belongs to no test.
pub proof fn only_tests_are_taken_out(start: u32, end: u32, tests: Seq<Span>, line: u32)
    requires
        1 <= start,
        end < u32::MAX || end_early(tests),
        separated(tests),
        all_filled(tests),
    ensures
        in_piece(production_lines(start, end, tests, start, 0), line) == (start <= line <= end
            && !in_span(tests, line, 0)),
{
    lemma_production(start, end, tests, start, 0, line);
}

/// Of no file both the whole and a part is wanted, and no file is forgotten: what stays of the
/// requests holds each part, and the whole of each file of which no part is wanted.
pub proof fn parts_stand_for_their_file(requests: Seq<RequestView>, request: RequestView)
    requires
        requests.contains(request),
    ensures
        without_redundant(requests, requests.len() as int).contains(request) == !(request.end
            == u32::MAX && is_bounded(requests, request.path)),
{
    lemma_without_redundant(requests, request, requests.len() as int);
    let k = requests.index_of(request);
    assert(requests[k] == request);
}

pub(crate) proof fn lemma_without_redundant(requests: Seq<RequestView>, request: RequestView, n: int)
    requires
        0 <= n <= requests.len(),
    ensures
        without_redundant(requests, n).contains(request) == ((exists|k: int|
            0 <= k < n && #[trigger] requests[k] == request) && !(request.end == u32::MAX
            && is_bounded(requests, request.path))),
    decreases n,
{
    if n > 0 {
        lemma_without_redundant(requests, request, n - 1);
        let before = without_redundant(requests, n - 1);
        let x = requests[n - 1];
        if !(x.end == u32::MAX && is_bounded(requests, x.path)) {
            let all = before.push(x);
            assert(all.contains(request) == (before.contains(request) || x == request)) by {
                if before.contains(request) {
                    let k = before.index_of(request);
                    assert(all[k] == request);
                }
                if x == request {
                    assert(all[all.len() - 1] == request);
                }
                if all.contains(request) {
                    let k = all.index_of(request);
                    if k < before.len() {
                        assert(before[k] == request);
                    }
                }
            }
        }
    }
}

proof fn lemma_quotes(s: Seq<char>, from: int, n: int)
    requires
        0 <= from <= n <= s.len(),
        forall|k: int| from <= k < n ==> s[k] == '`',
    ensures
        quotes_before(s, n) >= n - from,
    decreases n - from,
{
    if from < n {
        lemma_quotes(s, from, n - 1);
    }
}

proof fn lemma_longest(s: Seq<char>, i: int, n: int)
    requires
        0 <= i <= n,
    ensures
        quotes_before(s, i) <= longest_quotes(s, n),
    decreases n,
{
    if i < n {
        lemma_longest(s, i, n - 1);
    }
}

/// What stands around source does not occur in it.
pub proof fn fences_enclose_their_source(source: Seq<char>)
    ensures
        !contains(source, fence_of(source)),
        fence_of(source).len() >= 3,
{
    let fence = fence_of(source);
    if contains(source, fence) {
        lemma_find_from(source, fence, 0);
        let at = find_from(source, fence, 0)->0;
        assert forall|k: int| at <= k < at + fence.len() implies source[k] == '`' by {
            assert(source.subrange(at, at + fence.len())[k - at] == fence[k - at]);
        }
        lemma_quotes(source, at, at + fence.len());
        lemma_longest(source, at + fence.len(), source.len() as int);
    }
}

/// At most four anchors of a strand are printed in detail, and the others are counted.
pub proof fn few_anchors_are_printed(
    anchors: Seq<AffectedAnchorView>,
    focused: Set<Seq<char>>,
    n: int,
)
    requires
        0 <= n <= anchors.len(),
    ensures
        0 <= listed_anchors(anchors, focused, n).shown <= DETAILED_ANCHORS,
        listed_anchors(anchors, focused, n).shown + listed_anchors(anchors, focused, n).hidden.len()
            == n,
    decreases n,
{
    if n > 0 {
        few_anchors_are_printed(anchors, focused, n - 1);
    }
}

/// About how many tokens the first `n` excerpts take.
pub open spec fn tokens_of(excerpts: Seq<ExcerptView>, n: int) -> nat
    decreases n,
{
    if n <= 0 {
        0
    } else {
        tokens_of(excerpts, n - 1) + token_estimate(excerpts[n - 1].source)
    }
}

proof fn lemma_tokens_push(excerpts: Seq<ExcerptView>, x: ExcerptView, n: int)
    requires
        0 <= n <= excerpts.len(),
    ensures
        tokens_of(excerpts.push(x), n) == tokens_of(excerpts, n),
    decreases n,
{
    if n > 0 {
        lemma_tokens_push(excerpts, x, n - 1);
    }
}

/// The excerpts that are selected take no more than the budget, and without a budget all of
/// them are selected.
pub proof fn selected_excerpts_fit(excerpts: Seq<ExcerptView>, budget: Option<usize>, n: int)
    requires
        0 <= n <= excerpts.len(),
    ensures
        match budget {
            Some(budget) => {
                &&& selected(excerpts, Some(budget), n).remaining is Some
                &&& tokens_of(
                    selected(excerpts, Some(budget), n).included,
                    selected(excerpts, Some(budget), n).included.len() as int,
                ) + selected(excerpts, Some(budget), n).remaining->0 == budget
            },
            None => {
                &&& selected(excerpts, None, n).included == excerpts.take(n)
                &&& selected(excerpts, None, n).excluded.len() == 0
            },
        },
    decreases n,
{
    if n > 0 {
        selected_excerpts_fit(excerpts, budget, n - 1);
        let before = selected(excerpts, budget, n - 1);
        let x = excerpts[n - 1];
        lemma_tokens_push(before.included, x, before.included.len() as int);
        assert(before.included.push(x).last() == x);
        if budget is None {
            lemma_never_blocked(excerpts, n - 1);
            assert(excerpts.take(n - 1).push(x) =~= excerpts.take(n));
        }
    } else {
        assert(excerpts.take(0) =~= seq![]);
    }
}

proof fn lemma_never_blocked(excerpts: Seq<ExcerptView>, n: int)
    ensures
        !selected(excerpts, None, n).blocked,
        !selected(excerpts, None, n).tier_excluded,
        selected(excerpts, None, n).remaining is None,
    decreases n,
{
    if n > 0 {
        lemma_never_blocked(excerpts, n - 1);
    }
}

/// Every excerpt is either selected as a whole or not at all.
pub proof fn excerpts_are_selected_whole(
    excerpts: Seq<ExcerptView>,
    budget: Option<usize>,
    n: int,
    x: ExcerptView,
)
    requires
        0 <= n <= excerpts.len(),
    ensures
        excerpts.take(n).contains(x) == (selected(excerpts, budget, n).included.contains(x)
            || selected(excerpts, budget, n).excluded.contains(x)),
    decreases n,
{
    if n > 0 {
        excerpts_are_selected_whole(excerpts, budget, n - 1, x);
        let before = selected(excerpts, budget, n - 1);
        let last = excerpts[n - 1];
        lemma_push_contains(excerpts.take(n - 1), last, x);
        lemma_push_contains(before.included, last, x);
        lemma_push_contains(before.excluded, last, x);
        assert(excerpts.take(n - 1).push(last) =~= excerpts.take(n));
    }
}

proof fn lemma_push_contains<T>(all: Seq<T>, last: T, x: T)
    ensures
        all.push(last).contains(x) == (all.contains(x) || last == x),
{
    let more = all.push(last);
    if all.contains(x) {
        let k = all.index_of(x);
        assert(more[k] == x);
    }
    if last == x {
        assert(more[all.len() as int] == x);
    }
    if more.contains(x) {
        let k = more.index_of(x);
        if k < all.len() {
            assert(all[k] == x);
        }
    }
}

/// Whether two excerpts have no line in common and do not touch each other.
pub open spec fn are_apart(a: ExcerptView, b: ExcerptView) -> bool {
    a.path != b.path || a.end + 1 < b.start || b.end + 1 < a.start
}

/// Whether all excerpts are apart from each other.
pub open spec fn all_apart(excerpts: Seq<ExcerptView>) -> bool {
    forall|i: int, j: int|
        0 <= i < j < excerpts.len() ==> are_apart(#[trigger] excerpts[i], #[trigger] excerpts[j])
}

/// Whether no excerpt stands before the one in front of it.
pub open spec fn in_place(excerpts: Seq<ExcerptView>) -> bool {
    forall|i: int|
        0 < i < excerpts.len() ==> !place_less(#[trigger] excerpts[i], excerpts[i - 1])
}

proof fn lemma_place_asymmetric(a: ExcerptView, b: ExcerptView)
    requires
        place_less(a, b),
    ensures
        !place_less(b, a),
{
    if a.path != b.path && text_less(b.path, a.path) {
        lemma_text_less_transitive(a.path, b.path, a.path);
        lemma_text_less_irreflexive(a.path);
    }
}

proof fn lemma_insert_in_place(sorted: Seq<ExcerptView>, x: ExcerptView)
    requires
        in_place(sorted),
    ensures
        in_place(insert_place(sorted, x)),
        insert_place(sorted, x).len() == sorted.len() + 1,
        insert_place(sorted, x).last() == x || (sorted.len() > 0 && insert_place(sorted, x).last()
            == sorted.last()),
    decreases sorted.len(),
{
    if !(sorted.len() == 0 || !place_less(x, sorted.last())) {
        let front = sorted.drop_last();
        assert(in_place(front)) by {
            assert forall|i: int| 0 < i < front.len() implies !place_less(
                #[trigger] front[i],
                front[i - 1],
            ) by {
                assert(front[i] == sorted[i]);
            }
        }
        lemma_insert_in_place(front, x);
        lemma_place_asymmetric(x, sorted.last());
        let r = insert_place(front, x).push(sorted.last());
        assert forall|i: int| 0 < i < r.len() implies !place_less(#[trigger] r[i], r[i - 1]) by {
            if i == r.len() - 1 {
                assert(r[i - 1] == insert_place(front, x).last());
                if front.len() > 0 {
                    assert(front.last() == sorted[sorted.len() - 2]);
                    assert(sorted[sorted.len() - 1] == sorted.last());
                }
            } else {
                assert(r[i] == insert_place(front, x)[i]);
            }
        }
    } else {
        let r = sorted.push(x);
        assert forall|i: int| 0 < i < r.len() implies !place_less(#[trigger] r[i], r[i - 1]) by {
            if i < sorted.len() {
                assert(r[i] == sorted[i]);
            }
        }
    }
}

proof fn lemma_sort_in_place(all: Seq<ExcerptView>)
    ensures
        in_place(sort_places(all)),
        sort_places(all).len() == all.len(),
    decreases all.len(),
{
    if all.len() > 0 {
        lemma_sort_in_place(all.drop_last());
        lemma_insert_in_place(sort_places(all.drop_last()), all.last());
    }
}

proof fn lemma_close_joined(sorted: Seq<ExcerptView>, n: int)
    requires
        0 <= n <= sorted.len(),
        in_place(sorted),
    ensures
        all_apart(close_joined(sorted, n)),
        n > 0 ==> close_joined(sorted, n).len() > 0 && close_joined(sorted, n).last().path
            == sorted[n - 1].path && close_joined(sorted, n).last().start <= sorted[n - 1].start,
        forall|k: int|
            0 <= k < close_joined(sorted, n).len() ==> !text_less(
                close_joined(sorted, n).last().path,
                (#[trigger] close_joined(sorted, n)[k]).path,
            ),
        forall|k: int, l: int|
            0 <= k < l < close_joined(sorted, n).len() && close_joined(sorted, n)[k].path
                == close_joined(sorted, n)[l].path ==> (#[trigger] close_joined(sorted, n)[k]).end
                + 1 < (#[trigger] close_joined(sorted, n)[l]).start,
    decreases n,
{
    if n > 0 {
        lemma_close_joined(sorted, n - 1);
        let before = close_joined(sorted, n - 1);
        let x = sorted[n - 1];
        let now = close_joined(sorted, n);
        lemma_text_less_irreflexive(x.path);
        if n > 1 {
            assert(!place_less(sorted[n - 1], sorted[n - 2]));
            if x.path != sorted[n - 2].path {
                lemma_text_less_total(x.path, sorted[n - 2].path);
            }
        }
        if before.len() > 0 && crate::context_output::follows_closely(before.last(), x) {
            let both = joined_excerpts(before.last(), x);
            assert(now == before.drop_last().push(both));
            assert forall|k: int, l: int|
                0 <= k < l < now.len() && now[k].path == now[l].path implies (#[trigger] now[k]).end
                + 1 < (#[trigger] now[l]).start by {
                assert(before[k] == now[k]);
                assert(before[l].start == now[l].start && before[l].path == now[l].path);
            }
            assert forall|k: int| 0 <= k < now.len() implies !text_less(
                now.last().path,
                (#[trigger] now[k]).path,
            ) by {
                assert(before[k].path == now[k].path);
            }
        } else {
            assert(now == before.push(x));
            assert forall|k: int, l: int|
                0 <= k < l < now.len() && now[k].path == now[l].path implies (#[trigger] now[k]).end
                + 1 < (#[trigger] now[l]).start by {
                assert(before[k] == now[k]);
                if l < before.len() {
                    assert(before[l] == now[l]);
                } else {
                    assert(!text_less(before.last().path, before[k].path));
                    if k < before.len() - 1 && before[k].path == before[before.len() - 1].path {
                        assert(before[k].end + 1 < before[before.len() - 1].start);
                    }
                }
            }
            assert forall|k: int| 0 <= k < now.len() implies !text_less(
                now.last().path,
                (#[trigger] now[k]).path,
            ) by {
                if k < before.len() {
                    assert(before[k] == now[k]);
                    if text_less(x.path, before[k].path) {
                        let last = before.last().path;
                        assert(!text_less(last, before[k].path));
                        if last == x.path {
                        } else {
                            assert(text_less(last, x.path));
                            lemma_text_less_transitive(last, x.path, before[k].path);
                        }
                    }
                }
            }
        }
    }
}

proof fn lemma_accounted_places(included: Seq<ExcerptView>, excluded: Seq<ExcerptView>, n: int)
    requires
        0 <= n <= excluded.len(),
    ensures
        accounted(included, excluded, n).included.len() == included.len(),
        forall|k: int|
            0 <= k < included.len() ==> (#[trigger] accounted(included, excluded, n).included[k]).path
                == included[k].path && accounted(included, excluded, n).included[k].start
                == included[k].start && accounted(included, excluded, n).included[k].end
                == included[k].end && accounted(included, excluded, n).included[k].source
                == included[k].source,
    decreases n,
{
    if n > 0 {
        lemma_accounted_places(included, excluded, n - 1);
        lemma_covering(accounted(included, excluded, n - 1).included, excluded[n - 1], 0);
    }
}

proof fn lemma_covering(included: Seq<ExcerptView>, excerpt: ExcerptView, i: int)
    requires
        0 <= i,
    ensures
        match covering(included, excerpt, i) {
            Some(k) => i <= k < included.len() && covers(included[k], excerpt),
            None => forall|k: int| i <= k < included.len() ==> !covers(#[trigger] included[k], excerpt),
        },
    decreases included.len() - i,
{
    if i < included.len() && !covers(included[i], excerpt) {
        lemma_covering(included, excerpt, i + 1);
    }
}

proof fn lemma_insert_apart(sorted: Seq<ExcerptView>, x: ExcerptView)
    requires
        all_apart(sorted),
        forall|i: int| 0 <= i < sorted.len() ==> are_apart(#[trigger] sorted[i], x),
    ensures
        all_apart(insert_excerpt(sorted, x)),
        forall|y: ExcerptView| #[trigger]
            insert_excerpt(sorted, x).contains(y) == (sorted.contains(y) || y == x),
    decreases sorted.len(),
{
    if sorted.len() == 0 || !excerpt_less(x, sorted.last()) {
        assert forall|y: ExcerptView| #[trigger]
            insert_excerpt(sorted, x).contains(y) == (sorted.contains(y) || y == x) by {
            lemma_push_contains(sorted, x, y);
        }
    } else {
        let front = sorted.drop_last();
        assert(sorted =~= front.push(sorted.last()));
        assert(all_apart(front)) by {
            assert forall|i: int, j: int| 0 <= i < j < front.len() implies are_apart(
                #[trigger] front[i],
                #[trigger] front[j],
            ) by {
                assert(front[i] == sorted[i] && front[j] == sorted[j]);
            }
        }
        assert forall|i: int| 0 <= i < front.len() implies are_apart(#[trigger] front[i], x) by {
            assert(front[i] == sorted[i]);
        }
        lemma_insert_apart(front, x);
        let shorter = insert_excerpt(front, x);
        let r = shorter.push(sorted.last());
        assert forall|y: ExcerptView| #[trigger]
            r.contains(y) == (sorted.contains(y) || y == x) by {
            lemma_push_contains(shorter, sorted.last(), y);
            lemma_push_contains(front, sorted.last(), y);
        }
        assert forall|i: int, j: int| 0 <= i < j < r.len() implies are_apart(
            #[trigger] r[i],
            #[trigger] r[j],
        ) by {
            if j < shorter.len() {
                assert(r[i] == shorter[i] && r[j] == shorter[j]);
            } else {
                assert(shorter.contains(shorter[i]));
                if shorter[i] != x {
                    assert(front.contains(shorter[i]));
                    let k = front.index_of(shorter[i]);
                    assert(sorted[k] == shorter[i]);
                    assert(are_apart(sorted[k], sorted[sorted.len() - 1]));
                }
            }
        }
    }
}

proof fn lemma_sort_apart(all: Seq<ExcerptView>)
    requires
        all_apart(all),
    ensures
        all_apart(sort_excerpts(all)),
        forall|y: ExcerptView| #[trigger] sort_excerpts(all).contains(y) == all.contains(y),
    decreases all.len(),
{
    if all.len() > 0 {
        let front = all.drop_last();
        assert(all =~= front.push(all.last()));
        assert(all_apart(front)) by {
            assert forall|i: int, j: int| 0 <= i < j < front.len() implies are_apart(
                #[trigger] front[i],
                #[trigger] front[j],
            ) by {
                assert(front[i] == all[i] && front[j] == all[j]);
            }
        }
        lemma_sort_apart(front);
        let sorted = sort_excerpts(front);
        assert forall|i: int| 0 <= i < sorted.len() implies are_apart(
            #[trigger] sorted[i],
            all.last(),
        ) by {
            assert(sorted.contains(sorted[i]));
            assert(front.contains(sorted[i]));
            let k = front.index_of(sorted[i]);
            assert(all[k] == sorted[i]);
            assert(are_apart(all[k], all[all.len() - 1]));
        }
        lemma_insert_apart(sorted, all.last());
        assert forall|y: ExcerptView| #[trigger]
            sort_excerpts(all).contains(y) == all.contains(y) by {
            lemma_push_contains(front, all.last(), y);
        }
    }
}

/// No line of a file is printed twice: any two excerpts that are printed are of different
/// files, or at least one line lies between them.
pub proof fn printed_excerpts_are_apart(excerpts: Seq<ExcerptView>, budget: Option<usize>)
    ensures
        all_apart(budgeted(excerpts, budget).included),
{
    let sorted = sort_excerpts(excerpts);
    let selection = selected(sorted, budget, sorted.len() as int);
    let merged = merged_excerpts(selection.included);
    let places = sort_places(selection.included);
    lemma_sort_in_place(selection.included);
    lemma_close_joined(places, places.len() as int);
    let n = selection.excluded.len() as int;
    let shown = accounted(merged, selection.excluded, n).included;
    lemma_accounted_places(merged, selection.excluded, n);
    assert forall|i: int, j: int| 0 <= i < j < shown.len() implies are_apart(
        #[trigger] shown[i],
        #[trigger] shown[j],
    ) by {
        assert(are_apart(merged[i], merged[j]));
    }
    lemma_sort_apart(shown);
}

proof fn lemma_insert_contains(sorted: Seq<ExcerptView>, x: ExcerptView, y: ExcerptView)
    ensures
        insert_excerpt(sorted, x).contains(y) == (sorted.contains(y) || y == x),
        insert_place(sorted, x).contains(y) == (sorted.contains(y) || y == x),
    decreases sorted.len(),
{
    lemma_push_contains(sorted, x, y);
    if sorted.len() > 0 {
        let front = sorted.drop_last();
        assert(sorted =~= front.push(sorted.last()));
        lemma_insert_contains(front, x, y);
        lemma_push_contains(insert_excerpt(front, x), sorted.last(), y);
        lemma_push_contains(insert_place(front, x), sorted.last(), y);
        lemma_push_contains(front, sorted.last(), y);
    }
}

proof fn lemma_sort_contains(all: Seq<ExcerptView>, y: ExcerptView)
    ensures
        sort_excerpts(all).contains(y) == all.contains(y),
        sort_places(all).contains(y) == all.contains(y),
    decreases all.len(),
{
    if all.len() > 0 {
        let front = all.drop_last();
        assert(all =~= front.push(all.last()));
        lemma_sort_contains(front, y);
        lemma_insert_contains(sort_excerpts(front), all.last(), y);
        lemma_insert_contains(sort_places(front), all.last(), y);
        lemma_push_contains(front, all.last(), y);
    }
}

/// Whether one of the excerpts holds all lines of another.
pub open spec fn is_covered(excerpts: Seq<ExcerptView>, x: ExcerptView) -> bool {
    exists|k: int| 0 <= k < excerpts.len() && covers(#[trigger] excerpts[k], x)
}

proof fn lemma_close_covers(sorted: Seq<ExcerptView>, n: int, i: int)
    requires
        0 <= i < n <= sorted.len(),
        in_place(sorted),
    ensures
        is_covered(close_joined(sorted, n), sorted[i]),
    decreases n,
{
    let before = close_joined(sorted, n - 1);
    let x = sorted[n - 1];
    let now = close_joined(sorted, n);
    lemma_close_joined(sorted, n - 1);
    let joins = before.len() > 0 && crate::context_output::follows_closely(before.last(), x);
    if i == n - 1 {
        if joins {
            assert(!place_less(sorted[n - 1], sorted[n - 2]));
        }
        assert(covers(now[now.len() - 1], x));
    } else {
        lemma_close_covers(sorted, n - 1, i);
        let k = choose|k: int| 0 <= k < before.len() && covers(#[trigger] before[k], sorted[i]);
        if joins && k == before.len() - 1 {
            assert(covers(now[k], sorted[i]));
        } else {
            assert(now[k] == before[k]);
        }
    }
}

proof fn lemma_accounted_for(
    included: Seq<ExcerptView>,
    excluded: Seq<ExcerptView>,
    n: int,
    i: int,
)
    requires
        0 <= i < n <= excluded.len(),
    ensures
        accounted(included, excluded, n).omitted.contains(excluded[i].path) || is_covered(
            included,
            excluded[i],
        ),
    decreases n,
{
    let before = accounted(included, excluded, n - 1);
    let x = excluded[n - 1];
    lemma_accounted_places(included, excluded, n - 1);
    lemma_covering(before.included, x, 0);
    if i == n - 1 {
        match covering(before.included, x, 0) {
            Some(k) => {
                assert(covers(before.included[k], x));
                assert(covers(included[k], x));
            },
            None => {
                lemma_push_contains(before.omitted, x.path, x.path);
            },
        }
    } else {
        lemma_accounted_for(included, excluded, n - 1, i);
        lemma_push_contains(before.omitted, x.path, excluded[i].path);
    }
}

/// Source is printed in full or said to be left out: of every excerpt, either all lines are
/// printed in one piece, or its file is listed among those of which something is left out.
pub proof fn loaded_source_is_accounted_for(
    excerpts: Seq<ExcerptView>,
    budget: Option<usize>,
    x: ExcerptView,
)
    requires
        excerpts.contains(x),
    ensures
        is_covered(budgeted(excerpts, budget).included, x) || budgeted(
            excerpts,
            budget,
        ).omitted.contains(x.path),
{
    let sorted = sort_excerpts(excerpts);
    let selection = selected(sorted, budget, sorted.len() as int);
    let merged = merged_excerpts(selection.included);
    let places = sort_places(selection.included);
    let n = selection.excluded.len() as int;
    let all = accounted(merged, selection.excluded, n);
    lemma_sort_contains(excerpts, x);
    assert(sorted.take(sorted.len() as int) =~= sorted);
    excerpts_are_selected_whole(sorted, budget, sorted.len() as int, x);
    lemma_sort_in_place(selection.included);
    lemma_accounted_places(merged, selection.excluded, n);
    if selection.included.contains(x) {
        lemma_sort_contains(selection.included, x);
        let i = places.index_of(x);
        lemma_close_covers(places, places.len() as int, i);
    } else {
        let i = selection.excluded.index_of(x);
        lemma_accounted_for(merged, selection.excluded, n, i);
    }
    if is_covered(merged, x) {
        let k = choose|k: int| 0 <= k < merged.len() && covers(#[trigger] merged[k], x);
        let shown = all.included[k];
        assert(covers(shown, x));
        assert(all.included.contains(shown));
        lemma_sort_contains(all.included, shown);
        let last = sort_excerpts(all.included);
        let m = last.index_of(shown);
        assert(covers(last[m], x));
    }
}

/// Without a budget nothing is left out.
pub proof fn no_budget_leaves_nothing_out(excerpts: Seq<ExcerptView>)
    ensures
        budgeted(excerpts, None).omitted.len() == 0,
        budgeted(excerpts, None).tokens == 0,
{
    let sorted = sort_excerpts(excerpts);
    selected_excerpts_fit(sorted, None, sorted.len() as int);
}

/// Whether a request asks for all lines that another asks for, and matters as much.
pub open spec fn asks_for(wide: RequestView, request: RequestView) -> bool {
    &&& wide.priority == request.priority
    &&& wide.start <= request.start
    &&& request.end <= wide.end
    &&& request.anchor_ids.subset_of(wide.anchor_ids)
}

/// Joining requests of a file loses none of them: each is part of one that is loaded.
pub proof fn joining_loses_no_request(requests: Seq<RequestView>, gap: u32, request: RequestView)
    requires
        requests.contains(request),
    ensures
        ({
            let sorted = sort_requests(requests);
            let wanted = near_joined(sorted, gap, sorted.len() as int);
            exists|k: int| 0 <= k < wanted.len() && asks_for(#[trigger] wanted[k], request)
        }),
{
    lemma_sort_requests_contains(requests, request);
    let sorted = sort_requests(requests);
    lemma_join_asks(sorted, gap, sorted.len() as int, sorted.index_of(request));
}

proof fn lemma_join_asks(requests: Seq<RequestView>, gap: u32, n: int, i: int)
    requires
        0 <= i < n <= requests.len(),
    ensures
        exists|k: int|
            0 <= k < near_joined(requests, gap, n).len() && asks_for(
                #[trigger] near_joined(requests, gap, n)[k],
                requests[i],
            ),
    decreases n,
{
    let before = near_joined(requests, gap, n - 1);
    let now = near_joined(requests, gap, n);
    if i < n - 1 {
        lemma_join_asks(requests, gap, n - 1, i);
        let k = choose|k: int| 0 <= k < before.len() && asks_for(#[trigger] before[k], requests[i]);
        assert(asks_for(now[k], requests[i]));
    } else {
        assert(asks_for(now[now.len() - 1], requests[i]));
    }
}

proof fn lemma_sort_requests_contains(requests: Seq<RequestView>, request: RequestView)
    requires
        requests.contains(request),
    ensures
        sort_requests(requests).contains(request),
    decreases requests.len(),
{
    let before = sort_requests(requests.drop_last());
    let i = requests.index_of(request);
    if i < requests.len() - 1 {
        assert(requests.drop_last()[i] == request);
        lemma_sort_requests_contains(requests.drop_last(), request);
    }
    lemma_insert_request_contains(before, requests.last(), request);
}

proof fn lemma_insert_request_contains(
    sorted: Seq<RequestView>,
    x: RequestView,
    request: RequestView,
)
    requires
        sorted.contains(request) || request == x,
    ensures
        insert_request(sorted, x).contains(request),
    decreases sorted.len(),
{
    let all = insert_request(sorted, x);
    if sorted.len() == 0 || !request_less(x, sorted.last()) {
        if request == x {
            assert(all[all.len() - 1] == request);
        } else {
            let k = sorted.index_of(request);
            assert(all[k] == request);
        }
    } else if request == sorted.last() {
        assert(all[all.len() - 1] == request);
    } else {
        if request != x {
            let k = sorted.index_of(request);
            assert(sorted.drop_last()[k] == request);
        }
        lemma_insert_request_contains(sorted.drop_last(), x, request);
        let k = insert_request(sorted.drop_last(), x).index_of(request);
        assert(all[k] == request);
    }
}

/// Whether an excerpt is made of the lines of its file that it names.
pub open spec fn is_read(contents: Map<Seq<char>, FileContentView>, x: ExcerptView) -> bool {
    contents[x.path] matches FileContentView::Bytes(bytes) && {
        let all = lines(vstd::utf8::decode_utf8(bytes));
        &&& 1 <= x.start <= x.end <= all.len()
        &&& x.source == source_lines(all, x.start, x.end)
    }
}

/// Whether the text of an excerpt shows every line of its range that is not blank.
pub open spec fn shows_range(contents: Map<Seq<char>, FileContentView>, x: ExcerptView) -> bool {
    contents[x.path] matches FileContentView::Bytes(bytes) && {
        let all = lines(vstd::utf8::decode_utf8(bytes));
        &&& 1 <= x.start <= x.end <= all.len()
        &&& forall|n: int|
            x.start <= n <= x.end && !is_blank(#[trigger] all[n - 1]) ==> shows_line(
                x.source,
                all[n - 1],
            )
    }
}

/// An excerpt as it is read shows its lines.
proof fn lemma_read_shows(contents: Map<Seq<char>, FileContentView>, x: ExcerptView)
    requires
        is_read(contents, x),
    ensures
        shows_range(contents, x),
{
    let all = lines(vstd::utf8::decode_utf8(contents[x.path]->Bytes_0));
    let parts = all.subrange(x.start - 1, x.end as int);
    assert forall|n: int| x.start <= n <= x.end && !is_blank(#[trigger] all[n - 1]) implies shows_line(
        x.source,
        all[n - 1],
    ) by {
        assert(parts[n - x.start] == all[n - 1]);
        joined_parts_are_lines(parts, n - x.start);
    }
}

/// Joining an excerpt to one before it shows the lines of both.
#[verifier::spinoff_prover]
proof fn lemma_joined_shows(
    contents: Map<Seq<char>, FileContentView>,
    a: ExcerptView,
    b: ExcerptView,
)
    requires
        shows_range(contents, a),
        is_read(contents, b),
        a.path == b.path,
        a.start <= b.start,
        b.start <= line_after(a.end, 1),
    ensures
        shows_range(contents, joined_excerpts(a, b)),
{
    let both = joined_excerpts(a, b);
    let text = vstd::utf8::decode_utf8(contents[b.path]->Bytes_0);
    let all = lines(text);
    let parts = all.subrange(b.start - 1, b.end as int);
    let found = lines(b.source);
    lines_hold_no_line_feed(text, 0);
    assert forall|k: int| 0 <= k < parts.len() implies !(#[trigger] parts[k]).contains('\n') by {
        assert(parts[k] == all[b.start - 1 + k]);
    }
    lines_of_joined_lines(parts);
    let none: Seq<char> = seq![];
    let feed = seq!['\n'];
    assert forall|n: int|
        both.start <= n <= both.end && !is_blank(#[trigger] all[n - 1]) implies shows_line(
        both.source,
        all[n - 1],
    ) by {
        let line = all[n - 1];
        shown_lines_hold_something(line);
        if b.end <= a.end {
            assert(both.source == a.source);
        } else {
            let overlap: int = a.end + 1 - b.start;
            let tail = if overlap < found.len() {
                join(found.subrange(overlap, found.len() as int), feed)
            } else {
                none
            };
            if n <= a.end {
                let piece = if stands_as_line(a.source, line) {
                    line
                } else {
                    without_return(line)
                };
                assert(stands_as_line(a.source, piece));
                let at = choose|at: int| #[trigger] stands_at(a.source, piece, at);
                assert(a.source.len() > 0);
                if tail.len() > 0 {
                    lines_stay_lines(none, a.source, feed + tail, piece);
                    assert(none + a.source + (feed + tail) =~= both.source);
                }
            } else {
                let k = n - b.start;
                assert(parts[k] == line);
                assert(k < found.len()) by {
                    if found.len() < parts.len() {
                        assert(parts.last() == parts[parts.len() - 1]);
                    }
                }
                let piece = found[k];
                assert(piece == line || piece == without_return(line));
                let kept = found.subrange(overlap, found.len() as int);
                assert(kept[k - overlap] == piece);
                joined_parts_are_lines(kept, k - overlap);
                assert(stands_as_line(tail, piece));
                let at = choose|at: int| #[trigger] stands_at(tail, piece, at);
                assert(tail.len() > 0);
                if a.source.len() > 0 {
                    lines_stay_lines(a.source + feed, tail, none, piece);
                    assert(a.source + feed + tail + none =~= both.source);
                }
                assert(stands_as_line(both.source, piece));
            }
        }
    }
}

/// Excerpts that are joined show the lines of their ranges.
proof fn lemma_close_shows(
    contents: Map<Seq<char>, FileContentView>,
    sorted: Seq<ExcerptView>,
    n: int,
)
    requires
        0 <= n <= sorted.len(),
        in_place(sorted),
        forall|i: int| 0 <= i < sorted.len() ==> is_read(contents, #[trigger] sorted[i]),
    ensures
        forall|k: int|
            0 <= k < close_joined(sorted, n).len() ==> shows_range(
                contents,
                #[trigger] close_joined(sorted, n)[k],
            ),
    decreases n,
{
    if n > 0 {
        lemma_close_shows(contents, sorted, n - 1);
        lemma_close_joined(sorted, n - 1);
        let before = close_joined(sorted, n - 1);
        let now = close_joined(sorted, n);
        let x = sorted[n - 1];
        lemma_read_shows(contents, x);
        let joins = before.len() > 0 && crate::context_output::follows_closely(before.last(), x);
        if joins {
            assert(!place_less(sorted[n - 1], sorted[n - 2]));
            lemma_joined_shows(contents, before[before.len() - 1], x);
        }
        assert forall|k: int| 0 <= k < now.len() implies shows_range(
            contents,
            #[trigger] now[k],
        ) by {
            if k < before.len() - 1 || (k < before.len() && !joins) {
                assert(now[k] == before[k]);
            }
        }
    }
}

/// The text that is printed of excerpts holds every line of their ranges that is not blank:
/// `contents` is what the excerpts were read from.
pub proof fn printed_excerpts_hold_their_lines(
    contents: Map<Seq<char>, FileContentView>,
    excerpts: Seq<ExcerptView>,
    budget: Option<usize>,
    i: int,
    number: int,
)
    requires
        forall|k: int| 0 <= k < excerpts.len() ==> is_read(contents, #[trigger] excerpts[k]),
        0 <= i < budgeted(excerpts, budget).included.len(),
    ensures
        ({
            let x = budgeted(excerpts, budget).included[i];
            let all = lines(vstd::utf8::decode_utf8(contents[x.path]->Bytes_0));
            &&& shows_range(contents, x)
            &&& forall|n: int|
                x.start <= n <= x.end && !is_blank(#[trigger] all[n - 1]) ==> shows_line(
                    excerpt_text(x, number),
                    all[n - 1],
                )
        }),
{
    let sorted = sort_excerpts(excerpts);
    let selection = selected(sorted, budget, sorted.len() as int);
    let places = sort_places(selection.included);
    let merged = merged_excerpts(selection.included);
    let m = selection.excluded.len() as int;
    let all_shown = accounted(merged, selection.excluded, m);
    let x = budgeted(excerpts, budget).included[i];
    lemma_sort_in_place(selection.included);
    assert forall|k: int| 0 <= k < places.len() implies is_read(contents, #[trigger] places[k]) by {
        assert(places.contains(places[k]));
        lemma_sort_contains(selection.included, places[k]);
        lemma_selected_from(sorted, budget, sorted.len() as int, places[k]);
        lemma_sort_contains(excerpts, places[k]);
        let at = excerpts.index_of(places[k]);
        assert(excerpts[at] == places[k]);
    }
    lemma_close_shows(contents, places, places.len() as int);
    lemma_accounted_places(merged, selection.excluded, m);
    assert(budgeted(excerpts, budget).included.contains(x));
    lemma_sort_contains(all_shown.included, x);
    let k = all_shown.included.index_of(x);
    assert(shows_range(contents, merged[k]));
    assert(shows_range(contents, x));
    let all = lines(vstd::utf8::decode_utf8(contents[x.path]->Bytes_0));
    assert forall|n: int| x.start <= n <= x.end && !is_blank(#[trigger] all[n - 1]) implies shows_line(
        excerpt_text(x, number),
        all[n - 1],
    ) by {
        lemma_excerpt_shows(x, number, all[n - 1]);
    }
}

proof fn lemma_excerpt_shows(x: ExcerptView, number: int, line: Seq<char>)
    requires
        shows_line(x.source, line),
    ensures
        shows_line(excerpt_text(x, number), line),
{
    reveal_strlit("\n");
    let language = match x.language {
        Some(language) => language,
        None => ""@,
    };
    let before = "\n### E"@ + decimal(number as nat) + " "@ + x.path + "#L"@ + decimal(
        x.start as nat,
    ) + "-L"@ + decimal(x.end as nat) + " ["@ + excerpt_marker(x) + "]\n"@ + fence_of(x.source)
        + language + "\n"@;
    let after = "\n"@ + fence_of(x.source) + "\n"@;
    assert(excerpt_text(x, number) =~= before + x.source + after);
    assert(before.last() == '\n');
    assert(after[0] == '\n');
    if stands_as_line(x.source, line) {
        lines_stay_lines(before, x.source, after, line);
    } else {
        lines_stay_lines(before, x.source, after, without_return(line));
    }
}

/// What is selected is among what there is.
proof fn lemma_selected_from(
    excerpts: Seq<ExcerptView>,
    budget: Option<usize>,
    n: int,
    x: ExcerptView,
)
    requires
        0 <= n <= excerpts.len(),
        selected(excerpts, budget, n).included.contains(x),
    ensures
        excerpts.contains(x),
    decreases n,
{
    if n > 0 {
        let before = selected(excerpts, budget, n - 1).included;
        if before.contains(x) {
            lemma_selected_from(excerpts, budget, n - 1, x);
        } else {
            lemma_push_contains(before, excerpts[n - 1], x);
            assert(excerpts.contains(excerpts[n - 1]));
        }
    }
}

proof fn lemma_pieces_are_read(
    contents: Map<Seq<char>, FileContentView>,
    excerpts: Seq<ExcerptView>,
    request: RequestView,
    pieces: Seq<(u32, u32)>,
    end: u32,
    n: int,
)
    requires
        contents[request.path] is Bytes,
        lie_within(pieces, request.start, end),
        1 <= request.start,
        end <= lines(vstd::utf8::decode_utf8(contents[request.path]->Bytes_0)).len(),
        0 <= n <= pieces.len(),
        forall|k: int| 0 <= k < excerpts.len() ==> is_read(contents, #[trigger] excerpts[k]),
    ensures
        ({
            let all = lines(vstd::utf8::decode_utf8(contents[request.path]->Bytes_0));
            let now = with_pieces(excerpts, request, all, pieces, n);
            forall|k: int| 0 <= k < now.len() ==> is_read(contents, #[trigger] now[k])
        }),
    decreases n,
{
    if n > 0 {
        lemma_pieces_are_read(contents, excerpts, request, pieces, end, n - 1);
        let all = lines(vstd::utf8::decode_utf8(contents[request.path]->Bytes_0));
        let before = with_pieces(excerpts, request, all, pieces, n - 1);
        let now = with_pieces(excerpts, request, all, pieces, n);
        let piece = pieces[n - 1];
        assert forall|k: int| 0 <= k < now.len() implies is_read(contents, #[trigger] now[k]) by {
            if k < before.len() {
                assert(now[k] == before[k]);
            }
        }
    }
}

proof fn lemma_requests_are_read(
    contents: Map<Seq<char>, FileContentView>,
    loaded: LoadedSourceView,
    path: Seq<char>,
    requests: Seq<RequestView>,
    tests: Seq<Span>,
    n: int,
)
    requires
        contents[path] is Bytes,
        starts_are_lines(requests),
        forall|k: int| 0 <= k < requests.len() ==> (#[trigger] requests[k]).path == path,
        0 <= n <= requests.len(),
        forall|k: int|
            0 <= k < loaded.excerpts.len() ==> is_read(contents, #[trigger] loaded.excerpts[k]),
    ensures
        ({
            let all = lines(vstd::utf8::decode_utf8(contents[path]->Bytes_0));
            let now = with_requests(loaded, requests, all, tests, n).excerpts;
            forall|k: int| 0 <= k < now.len() ==> is_read(contents, #[trigger] now[k])
        }),
    decreases n,
{
    if n > 0 {
        lemma_requests_are_read(contents, loaded, path, requests, tests, n - 1);
        let all = lines(vstd::utf8::decode_utf8(contents[path]->Bytes_0));
        let before = with_requests(loaded, requests, all, tests, n - 1).excerpts;
        let request = requests[n - 1];
        let available = line_count(all);
        let end = available_end(request, available);
        if !is_outside(request, available) {
            let pieces = production_lines(request.start, end, tests, request.start, 0);
            lemma_pieces_inside(request.start, end, tests, request.start, 0);
            lemma_pieces_are_read(
                contents,
                before,
                request,
                pieces,
                end,
                pieces.len() as int,
            );
        }
    }
}

pub(crate) proof fn lemma_paths_for(requests: Seq<RequestView>, path: Seq<char>, n: int)
    ensures
        forall|k: int|
            0 <= k < requests_for(requests, path, n).len() ==> (#[trigger] requests_for(
                requests,
                path,
                n,
            )[k]).path == path,
    decreases n,
{
    if n > 0 {
        lemma_paths_for(requests, path, n - 1);
    }
}

pub(crate) proof fn lemma_joined_paths(requests: Seq<RequestView>, gap: u32, path: Seq<char>, n: int)
    requires
        0 <= n <= requests.len(),
        forall|k: int| 0 <= k < requests.len() ==> (#[trigger] requests[k]).path == path,
    ensures
        forall|k: int|
            0 <= k < near_joined(requests, gap, n).len() ==> (#[trigger] near_joined(
                requests,
                gap,
                n,
            )[k]).path == path,
    decreases n,
{
    if n > 0 {
        lemma_joined_paths(requests, gap, path, n - 1);
    }
}

/// Every excerpt that is loaded is made of the lines of its file that it names.
pub proof fn loaded_excerpts_are_read(
    requests: Seq<RequestView>,
    contents: Map<Seq<char>, FileContentView>,
    options: RenderOptionsView,
    n: int,
)
    requires
        starts_are_lines(requests),
    ensures
        forall|k: int|
            0 <= k < source_of(requests, contents, options, n).excerpts.len() ==> is_read(
                contents,
                #[trigger] source_of(requests, contents, options, n).excerpts[k],
            ),
    decreases n,
{
    if n > 0 {
        loaded_excerpts_are_read(requests, contents, options, n - 1);
        let before = source_of(requests, contents, options, n - 1);
        let path = ordered(request_paths(requests, requests.len() as int))[n - 1];
        let own = requests_for(requests, path, requests.len() as int);
        match contents[path] {
            FileContentView::Failed(_) => {},
            FileContentView::Bytes(bytes) => {
                let text = vstd::utf8::decode_utf8(bytes);
                let tests = if options.include_rust_tests {
                    seq![]
                } else {
                    test_spans(path, text)
                };
                let sorted = sort_requests(own);
                let wanted = near_joined(sorted, options.merge_gap, sorted.len() as int);
                lemma_starts_for(requests, path, requests.len() as int);
                lemma_sorted_starts(own);
                lemma_joined_starts(sorted, options.merge_gap, sorted.len() as int);
                lemma_paths_for(requests, path, requests.len() as int);
                assert forall|k: int| 0 <= k < sorted.len() implies (
                #[trigger] sorted[k]).path == path by {
                    assert(sorted.contains(sorted[k]));
                    lemma_sorted_from(own, sorted[k]);
                    let at = own.index_of(sorted[k]);
                    assert(own[at] == sorted[k]);
                }
                lemma_joined_paths(sorted, options.merge_gap, path, sorted.len() as int);
                lemma_requests_are_read(
                    contents,
                    before,
                    path,
                    wanted,
                    tests,
                    wanted.len() as int,
                );
            },
        }
    }
}

pub(crate) proof fn lemma_sorted_from(requests: Seq<RequestView>, x: RequestView)
    requires
        sort_requests(requests).contains(x),
    ensures
        requests.contains(x),
    decreases requests.len(),
{
    if requests.len() > 0 {
        let front = requests.drop_last();
        assert(requests =~= front.push(requests.last()));
        lemma_inserted_from(sort_requests(front), requests.last(), x);
        lemma_push_contains(front, requests.last(), x);
        if sort_requests(front).contains(x) {
            lemma_sorted_from(front, x);
        }
    }
}

proof fn lemma_inserted_from(sorted: Seq<RequestView>, y: RequestView, x: RequestView)
    requires
        insert_request(sorted, y).contains(x),
    ensures
        sorted.contains(x) || x == y,
    decreases sorted.len(),
{
    lemma_push_contains(sorted, y, x);
    if sorted.len() > 0 && request_less(y, sorted.last()) {
        let front = sorted.drop_last();
        assert(sorted =~= front.push(sorted.last()));
        lemma_push_contains(insert_request(front, y), sorted.last(), x);
        lemma_push_contains(front, sorted.last(), x);
        if insert_request(front, y).contains(x) {
            lemma_inserted_from(front, y, x);
        }
    }
}

/// A context that is printed holds, for each of its excerpts, every line of the range that the
/// excerpt names, unless the line is blank.
pub proof fn printed_contexts_hold_their_lines(
    packet: ContextPacketView,
    options: RenderOptionsView,
    contents: Map<Seq<char>, FileContentView>,
    i: int,
)
    requires
        filters_of(options) is Ok,
        ({
            let requests = requests_of(packet, options, filters_of(options)->Ok_0).0;
            let paths = ordered(request_paths(requests, requests.len() as int));
            let loaded = source_of(requests, contents, options, paths.len() as int);
            0 <= i < budgeted(loaded.excerpts, options.token_budget).included.len()
        }),
    ensures
        ({
            let requests = requests_of(packet, options, filters_of(options)->Ok_0).0;
            let paths = ordered(request_paths(requests, requests.len() as int));
            let loaded = source_of(requests, contents, options, paths.len() as int);
            let x = budgeted(loaded.excerpts, options.token_budget).included[i];
            let all = lines(vstd::utf8::decode_utf8(contents[x.path]->Bytes_0));
            &&& contents[x.path] is Bytes
            &&& 1 <= x.start <= x.end <= all.len()
            &&& forall|n: int|
                x.start <= n <= x.end && !is_blank(#[trigger] all[n - 1]) ==> shows_line(
                    excerpt_text(x, i + 1),
                    all[n - 1],
                )
        }),
{
    let filters = filters_of(options)->Ok_0;
    let requests = requests_of(packet, options, filters).0;
    let paths = ordered(request_paths(requests, requests.len() as int));
    let loaded = source_of(requests, contents, options, paths.len() as int);
    lemma_requests_start(packet, options, filters);
    loaded_excerpts_are_read(requests, contents, options, paths.len() as int);
    printed_excerpts_hold_their_lines(
        contents,
        loaded.excerpts,
        options.token_budget,
        i,
        i + 1,
    );
}

} // verus!

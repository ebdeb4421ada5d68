//! What a printed context holds of what is asked for.

use vstd::prelude::*;

use crate::cli::ContextSource;
use crate::collections::{lemma_orderable, ordered};
use crate::context_output::{
    allowed_requests, budgeted, covers, excerpt_text, excerpts_text, filters_of, hit_request,
    hit_requests, is_allowed, language_of_path, line_count, near_joined, printed, production_lines,
    rendered, request_paths, requests_for, requests_of, sort_requests, source_of, source_text,
    strand_text, strands_text, wanted_requests, with_all_strand_requests, with_pieces,
    with_related_requests, with_request, with_requests, with_strand_requests, without_redundant,
    ExcerptView, FileContentView, LoadedSourceView, RenderOptionsView, RequestView,
    SourceFiltersView,
};
use crate::line_laws::{joined_parts_are_lines, shows_line, stands_at};
use crate::model::{AffectedAnchorView, AffectedStrandView, ContextPacketView, WatchMode};
use crate::render_laws::{
    asks_for, is_covered, joining_loses_no_request, lemma_joined_paths, lemma_paths_for,
    lemma_sorted_from, lemma_without_redundant, loaded_source_is_accounted_for,
    no_budget_leaves_nothing_out, printed_contexts_hold_their_lines,
};
use crate::search::SearchHitView;
use crate::text::{decimal, is_blank, is_space, lines, trim_end};

verus! {

/// Whether a text holds another.
pub open spec fn holds_text(text: Seq<char>, piece: Seq<char>) -> bool {
    exists|at: int|
        0 <= at && at + piece.len() <= text.len() && #[trigger] text.subrange(
            at,
            at + piece.len(),
        ) == piece
}

pub(crate) proof fn lemma_holds(before: Seq<char>, text: Seq<char>, after: Seq<char>, piece: Seq<char>)
    requires
        holds_text(text, piece),
    ensures
        holds_text(before + text + after, piece),
        holds_text(before + text, piece),
        holds_text(text + after, piece),
{
    let at = choose|at: int|
        0 <= at && at + piece.len() <= text.len() && #[trigger] text.subrange(
            at,
            at + piece.len(),
        ) == piece;
    let place = before.len() + at;
    assert((before + text + after).subrange(place, place + piece.len()) =~= piece);
    assert((before + text).subrange(place, place + piece.len()) =~= piece);
    assert((text + after).subrange(at, at + piece.len()) =~= piece);
}

pub(crate) proof fn lemma_holds_itself(text: Seq<char>)
    ensures
        holds_text(text, text),
{
    let at: int = 0;
    assert(text.subrange(at, at + text.len()) =~= text);
}

proof fn lemma_trim_end_empty(s: Seq<char>)
    ensures
        trim_end(s).len() == 0 ==> forall|k: int| 0 <= k < s.len() ==> is_space(#[trigger] s[k]),
    decreases s.len(),
{
    if s.len() > 0 && is_space(s.last()) {
        lemma_trim_end_empty(s.drop_last());
        if trim_end(s).len() == 0 {
            assert forall|k: int| 0 <= k < s.len() implies is_space(#[trigger] s[k]) by {
                if k < s.len() - 1 {
                    assert(s.drop_last()[k] == s[k]);
                }
            }
        }
    }
}

proof fn lemma_blank(s: Seq<char>)
    ensures
        is_blank(s) <==> forall|k: int| 0 <= k < s.len() ==> is_space(#[trigger] s[k]),
    decreases s.len(),
{
    if s.len() > 0 && is_space(s[0]) {
        lemma_blank(s.drop_first());
        if is_blank(s) {
            assert forall|k: int| 0 <= k < s.len() implies is_space(#[trigger] s[k]) by {
                if k > 0 {
                    assert(s.drop_first()[k - 1] == s[k]);
                }
            }
        }
        if forall|k: int| 0 <= k < s.len() ==> is_space(#[trigger] s[k]) {
            assert forall|k: int| 0 <= k < s.drop_first().len() implies is_space(
                #[trigger] s.drop_first()[k],
            ) by {
                assert(s[k + 1] == s.drop_first()[k]);
            }
        }
    } else if s.len() > 0 {
        lemma_trim_end_empty(s);
        assert(!is_space(s[0]));
    }
}

/// A text that is joined of lines is not blank where one of them is not.
proof fn lemma_join_not_blank(parts: Seq<Seq<char>>, k: int)
    requires
        0 <= k < parts.len(),
        !is_blank(parts[k]),
    ensures
        !is_blank(crate::text::join(parts, seq!['\n'])),
{
    let whole = crate::text::join(parts, seq!['\n']);
    joined_parts_are_lines(parts, k);
    lemma_blank(parts[k]);
    lemma_blank(whole);
    let j = choose|j: int| 0 <= j < parts[k].len() && !is_space(#[trigger] parts[k][j]);
    let at = choose|at: int| #[trigger] stands_at(whole, parts[k], at);
    assert(whole.subrange(at, at + parts[k].len())[j] == whole[at + j]);
    assert(!is_space(whole[at + j]));
}

/// Whether a request is for lines of a file.
pub open spec fn is_for_lines(
    request: RequestView,
    path: Seq<char>,
    language: Option<Seq<char>>,
    start: u32,
    end: u32,
) -> bool {
    &&& request.path == path
    &&& request.language == language
    &&& 1 <= request.start <= start
    &&& end <= request.end < u32::MAX
}

proof fn lemma_requests_grow(
    requests: Seq<RequestView>,
    strand: AffectedStrandView,
    options: RenderOptionsView,
    n: int,
    x: RequestView,
)
    requires
        requests.contains(x),
    ensures
        with_strand_requests(requests, strand, options, n).contains(x),
    decreases n,
{
    if n > 0 {
        lemma_requests_grow(requests, strand, options, n - 1, x);
        let before = with_strand_requests(requests, strand, options, n - 1);
        let at = before.index_of(x);
        let now = with_strand_requests(requests, strand, options, n);
        assert(now[at] == x);
    }
}

proof fn lemma_all_requests_grow(
    requests: Seq<RequestView>,
    strands: Seq<AffectedStrandView>,
    options: RenderOptionsView,
    n: int,
    x: RequestView,
)
    requires
        requests.contains(x),
    ensures
        with_all_strand_requests(requests, strands, options, n).contains(x),
    decreases n,
{
    if n > 0 {
        lemma_all_requests_grow(requests, strands, options, n - 1, x);
        lemma_requests_grow(
            with_all_strand_requests(requests, strands, options, n - 1),
            strands[n - 1],
            options,
            strands[n - 1].anchors.len() as int,
            x,
        );
    }
}

proof fn lemma_related_requests_grow(
    requests: Seq<RequestView>,
    anchors: Seq<AffectedAnchorView>,
    options: RenderOptionsView,
    n: int,
    x: RequestView,
)
    requires
        requests.contains(x),
    ensures
        with_related_requests(requests, anchors, options, n).contains(x),
    decreases n,
{
    if n > 0 {
        lemma_related_requests_grow(requests, anchors, options, n - 1, x);
        let before = with_related_requests(requests, anchors, options, n - 1);
        let at = before.index_of(x);
        let now = with_related_requests(requests, anchors, options, n);
        assert(now[at] == x);
    }
}

/// Whether an anchor has lines of a file, with their language.
pub open spec fn stands_at_range(
    anchor: AffectedAnchorView,
    path: Seq<char>,
    language: Option<Seq<char>>,
    start: u32,
    end: u32,
) -> bool {
    anchor.anchor matches Some(value) && value.location matches Some(place) && {
        &&& place.path == path
        &&& place.watch != Some(WatchMode::File)
        &&& place.line_start == Some(start)
        &&& 1 <= start <= end
        &&& end == match place.line_end {
            Some(last) => last,
            None => start,
        }
        &&& language == match place.language {
            Some(own) => Some(own),
            None => language_of_path(path),
        }
    }
}

proof fn lemma_requested(
    requests: Seq<RequestView>,
    anchor: AffectedAnchorView,
    priority: u8,
    order: usize,
    direct: bool,
    reference: Seq<char>,
    options: RenderOptionsView,
    path: Seq<char>,
    language: Option<Seq<char>>,
    start: u32,
    end: u32,
)
    requires
        options.source == ContextSource::All,
        stands_at_range(anchor, path, language, start, end),
        end + options.context_lines < u32::MAX,
    ensures
        ({
            let now = with_request(requests, anchor, priority, order, direct, reference, options);
            &&& now.len() > 0
            &&& is_for_lines(now.last(), path, language, start, end)
            &&& now.contains(now.last())
        }),
{
    let now = with_request(requests, anchor, priority, order, direct, reference, options);
    assert(now[now.len() - 1] == now.last());
}

proof fn lemma_strand_requested(
    requests: Seq<RequestView>,
    strand: AffectedStrandView,
    options: RenderOptionsView,
    n: int,
    j: int,
    path: Seq<char>,
    language: Option<Seq<char>>,
    start: u32,
    end: u32,
) -> (x: RequestView)
    requires
        0 <= j < n <= strand.anchors.len(),
        options.source == ContextSource::All,
        stands_at_range(strand.anchors[j], path, language, start, end),
        end + options.context_lines < u32::MAX,
    ensures
        with_strand_requests(requests, strand, options, n).contains(x),
        is_for_lines(x, path, language, start, end),
    decreases n,
{
    let before = with_strand_requests(requests, strand, options, n - 1);
    let now = with_strand_requests(requests, strand, options, n);
    if j < n - 1 {
        let x = lemma_strand_requested(
            requests,
            strand,
            options,
            n - 1,
            j,
            path,
            language,
            start,
            end,
        );
        let at = before.index_of(x);
        assert(now[at] == x);
        x
    } else {
        assert(now[now.len() - 1] == now.last());
        now.last()
    }
}

proof fn lemma_all_requested(
    requests: Seq<RequestView>,
    strands: Seq<AffectedStrandView>,
    options: RenderOptionsView,
    n: int,
    i: int,
    j: int,
    path: Seq<char>,
    language: Option<Seq<char>>,
    start: u32,
    end: u32,
) -> (x: RequestView)
    requires
        0 <= i < n <= strands.len(),
        0 <= j < strands[i].anchors.len(),
        options.source == ContextSource::All,
        stands_at_range(strands[i].anchors[j], path, language, start, end),
        end + options.context_lines < u32::MAX,
    ensures
        with_all_strand_requests(requests, strands, options, n).contains(x),
        is_for_lines(x, path, language, start, end),
    decreases n,
{
    let before = with_all_strand_requests(requests, strands, options, n - 1);
    let last = strands[n - 1];
    let all = last.anchors.len() as int;
    if i < n - 1 {
        let x = lemma_all_requested(
            requests,
            strands,
            options,
            n - 1,
            i,
            j,
            path,
            language,
            start,
            end,
        );
        lemma_requests_grow(before, last, options, all, x);
        x
    } else {
        lemma_strand_requested(before, last, options, all, j, path, language, start, end)
    }
}

proof fn lemma_related_requested(
    requests: Seq<RequestView>,
    anchors: Seq<AffectedAnchorView>,
    options: RenderOptionsView,
    n: int,
    j: int,
    path: Seq<char>,
    language: Option<Seq<char>>,
    start: u32,
    end: u32,
) -> (x: RequestView)
    requires
        0 <= j < n <= anchors.len(),
        options.source == ContextSource::All,
        stands_at_range(anchors[j], path, language, start, end),
        end + options.context_lines < u32::MAX,
    ensures
        with_related_requests(requests, anchors, options, n).contains(x),
        is_for_lines(x, path, language, start, end),
    decreases n,
{
    let before = with_related_requests(requests, anchors, options, n - 1);
    let now = with_related_requests(requests, anchors, options, n);
    if j < n - 1 {
        let x = lemma_related_requested(
            requests,
            anchors,
            options,
            n - 1,
            j,
            path,
            language,
            start,
            end,
        );
        let at = before.index_of(x);
        assert(now[at] == x);
        x
    } else {
        assert(now[now.len() - 1] == now.last());
        now.last()
    }
}

proof fn lemma_hits_requested(hits: Seq<SearchHitView>, context: u32, n: int, i: int)
    requires
        0 <= i < n <= hits.len(),
    ensures
        hit_requests(hits, context, n).contains(hit_request(hits[i], i, context)),
    decreases n,
{
    let before = hit_requests(hits, context, n - 1);
    let now = hit_requests(hits, context, n);
    let x = hit_request(hits[i], i, context);
    if i < n - 1 {
        lemma_hits_requested(hits, context, n - 1, i);
        let at = before.index_of(x);
        assert(now[at] == x);
    } else {
        assert(now[now.len() - 1] == x);
    }
}

proof fn lemma_allowed(
    requests: Seq<RequestView>,
    filters: SourceFiltersView,
    n: int,
    i: int,
)
    requires
        0 <= i < n <= requests.len(),
        is_allowed(filters, requests[i].path, requests[i].language),
    ensures
        allowed_requests(requests, filters, n).0.contains(requests[i]),
    decreases n,
{
    let before = allowed_requests(requests, filters, n - 1).0;
    let now = allowed_requests(requests, filters, n).0;
    if i < n - 1 {
        lemma_allowed(requests, filters, n - 1, i);
        let at = before.index_of(requests[i]);
        assert(now[at] == requests[i]);
    } else {
        assert(now[now.len() - 1] == requests[i]);
    }
}

proof fn lemma_kept(
    packet: ContextPacketView,
    options: RenderOptionsView,
    filters: SourceFiltersView,
    x: RequestView,
)
    requires
        options.source != ContextSource::Nothing,
        wanted_requests(packet, options).contains(x),
        x.end < u32::MAX,
        is_allowed(filters, x.path, x.language),
    ensures
        requests_of(packet, options, filters).0.contains(x),
{
    let wanted = wanted_requests(packet, options);
    let n = wanted.len() as int;
    let at = wanted.index_of(x);
    lemma_without_redundant(wanted, x, n);
    assert(wanted[at] == x);
    let bounded = without_redundant(wanted, n);
    lemma_allowed(bounded, filters, bounded.len() as int, bounded.index_of(x));
}

proof fn lemma_request_for(requests: Seq<RequestView>, n: int, i: int)
    requires
        0 <= i < n <= requests.len(),
    ensures
        requests_for(requests, requests[i].path, n).contains(requests[i]),
        request_paths(requests, n).contains(requests[i].path),
    decreases n,
{
    let path = requests[i].path;
    let before = requests_for(requests, path, n - 1);
    let now = requests_for(requests, path, n);
    if i < n - 1 {
        lemma_request_for(requests, n - 1, i);
        let at = before.index_of(requests[i]);
        assert(now[at] == requests[i]);
    } else {
        assert(now[now.len() - 1] == requests[i]);
    }
}

proof fn lemma_paths_finite(requests: Seq<RequestView>, n: int)
    ensures
        request_paths(requests, n).finite(),
    decreases n,
{
    if n > 0 {
        lemma_paths_finite(requests, n - 1);
    }
}

/// Whether excerpts hold a line of a file.
spec fn hold_line(excerpts: Seq<ExcerptView>, path: Seq<char>, line: u32) -> bool {
    exists|k: int|
        0 <= k < excerpts.len() && (#[trigger] excerpts[k]).path == path && excerpts[k].start
            <= line <= excerpts[k].end
}

proof fn lemma_pieces_grow(
    excerpts: Seq<ExcerptView>,
    request: RequestView,
    all: Seq<Seq<char>>,
    pieces: Seq<(u32, u32)>,
    n: int,
    path: Seq<char>,
    line: u32,
)
    requires
        hold_line(excerpts, path, line),
    ensures
        hold_line(with_pieces(excerpts, request, all, pieces, n), path, line),
    decreases n,
{
    if n > 0 {
        lemma_pieces_grow(excerpts, request, all, pieces, n - 1, path, line);
        let before = with_pieces(excerpts, request, all, pieces, n - 1);
        let now = with_pieces(excerpts, request, all, pieces, n);
        let k = choose|k: int|
            0 <= k < before.len() && (#[trigger] before[k]).path == path && before[k].start <= line
                <= before[k].end;
        assert(now[k] == before[k]);
    }
}

proof fn lemma_requests_load(
    loaded: LoadedSourceView,
    requests: Seq<RequestView>,
    all: Seq<Seq<char>>,
    n: int,
    path: Seq<char>,
    line: u32,
)
    requires
        0 <= n <= requests.len(),
        hold_line(loaded.excerpts, path, line) || (exists|i: int|
            0 <= i < n && (#[trigger] requests[i]).path == path && 1 <= requests[i].start <= line
                <= requests[i].end),
        1 <= line <= all.len() <= u32::MAX,
        !is_blank(all[line - 1]),
    ensures
        hold_line(with_requests(loaded, requests, all, seq![], n).excerpts, path, line),
    decreases n,
{
    if n > 0 {
        let before = with_requests(loaded, requests, all, seq![], n - 1);
        let now = with_requests(loaded, requests, all, seq![], n);
        let request = requests[n - 1];
        let available = line_count(all);
        let end = crate::context_output::available_end(request, available);
        let pieces = production_lines(request.start, end, seq![], request.start, 0);
        if hold_line(loaded.excerpts, path, line) || (exists|i: int|
            0 <= i < n - 1 && (#[trigger] requests[i]).path == path && 1 <= requests[i].start
                <= line <= requests[i].end) {
            lemma_requests_load(loaded, requests, all, n - 1, path, line);
            if !crate::context_output::is_outside(request, available) {
                lemma_pieces_grow(
                    before.excerpts,
                    request,
                    all,
                    pieces,
                    pieces.len() as int,
                    path,
                    line,
                );
            }
        } else {
            let i = choose|i: int|
                0 <= i < n && (#[trigger] requests[i]).path == path && 1 <= requests[i].start
                    <= line <= requests[i].end;
            assert(i == n - 1);
            assert(pieces == seq![(request.start, end)]);
            let parts = all.subrange(request.start - 1, end as int);
            assert(parts[line - request.start] == all[line - 1]);
            lemma_join_not_blank(parts, line - request.start);
            let single = with_pieces(before.excerpts, request, all, pieces, 0);
            assert(single == before.excerpts);
            let shown = with_pieces(before.excerpts, request, all, pieces, 1);
            assert(shown.len() == before.excerpts.len() + 1);
            let x = shown[before.excerpts.len() as int];
            assert(x.path == path && x.start <= line <= x.end);
            assert(now.excerpts == shown);
        }
    }
}

proof fn lemma_with_requests_grow(
    loaded: LoadedSourceView,
    requests: Seq<RequestView>,
    all: Seq<Seq<char>>,
    tests: Seq<crate::source_span::Span>,
    n: int,
    path: Seq<char>,
    line: u32,
)
    requires
        hold_line(loaded.excerpts, path, line),
    ensures
        hold_line(with_requests(loaded, requests, all, tests, n).excerpts, path, line),
    decreases n,
{
    if n > 0 {
        lemma_with_requests_grow(loaded, requests, all, tests, n - 1, path, line);
        let before = with_requests(loaded, requests, all, tests, n - 1);
        let request = requests[n - 1];
        let available = line_count(all);
        let end = crate::context_output::available_end(request, available);
        let pieces = production_lines(request.start, end, tests, request.start, 0);
        if !crate::context_output::is_outside(request, available) {
            lemma_pieces_grow(
                before.excerpts,
                request,
                all,
                pieces,
                pieces.len() as int,
                path,
                line,
            );
        }
    }
}

proof fn lemma_source_loaded(
    requests: Seq<RequestView>,
    contents: Map<Seq<char>, FileContentView>,
    options: RenderOptionsView,
    n: int,
    k: int,
    x: RequestView,
    bytes: Seq<u8>,
    line: u32,
)
    requires
        0 <= k < n <= ordered(request_paths(requests, requests.len() as int)).len(),
        ordered(request_paths(requests, requests.len() as int))[k] == x.path,
        requests_for(requests, x.path, requests.len() as int).contains(x),
        contents[x.path] == FileContentView::Bytes(bytes),
        !bytes.contains(0),
        vstd::utf8::valid_utf8(bytes),
        options.include_rust_tests,
        1 <= x.start <= line <= x.end,
        line <= lines(vstd::utf8::decode_utf8(bytes)).len() <= u32::MAX,
        !is_blank(lines(vstd::utf8::decode_utf8(bytes))[line - 1]),
        crate::context_output::starts_are_lines(requests),
    ensures
        hold_line(source_of(requests, contents, options, n).excerpts, x.path, line),
    decreases n,
{
    let paths = ordered(request_paths(requests, requests.len() as int));
    let before = source_of(requests, contents, options, n - 1);
    let path = paths[n - 1];
    let own = requests_for(requests, path, requests.len() as int);
    let sorted = sort_requests(own);
    let wanted = near_joined(sorted, options.merge_gap, sorted.len() as int);
    if k < n - 1 {
        lemma_source_loaded(requests, contents, options, n - 1, k, x, bytes, line);
        if let FileContentView::Bytes(other) = contents[path] {
            let text = vstd::utf8::decode_utf8(other);
            lemma_with_requests_grow(
                before,
                wanted,
                lines(text),
                seq![],
                wanted.len() as int,
                x.path,
                line,
            );
        }
    } else {
        joining_loses_no_request(own, options.merge_gap, x);
        let i = choose|i: int| 0 <= i < wanted.len() && asks_for(#[trigger] wanted[i], x);
        lemma_paths_for(requests, path, requests.len() as int);
        assert forall|j: int| 0 <= j < sorted.len() implies (#[trigger] sorted[j]).path == path by {
            assert(sorted.contains(sorted[j]));
            lemma_sorted_from(own, sorted[j]);
            let at = own.index_of(sorted[j]);
            assert(own[at] == sorted[j]);
        }
        lemma_joined_paths(sorted, options.merge_gap, path, sorted.len() as int);
        crate::context_output::lemma_starts_for(requests, path, requests.len() as int);
        crate::context_output::lemma_sorted_starts(own);
        crate::context_output::lemma_joined_starts(sorted, options.merge_gap, sorted.len() as int);
        assert(wanted[i].path == path);
        lemma_requests_load(
            before,
            wanted,
            lines(vstd::utf8::decode_utf8(bytes)),
            wanted.len() as int,
            path,
            line,
        );
    }
}

proof fn lemma_excerpts_held(excerpts: Seq<ExcerptView>, n: int, i: int)
    requires
        0 <= i < n <= excerpts.len(),
    ensures
        holds_text(excerpts_text(excerpts, n), excerpt_text(excerpts[i], i + 1)),
    decreases n,
{
    let before = excerpts_text(excerpts, n - 1);
    let own = excerpt_text(excerpts[n - 1], n);
    if i < n - 1 {
        lemma_excerpts_held(excerpts, n - 1, i);
        lemma_holds(seq![], before, own, excerpt_text(excerpts[i], i + 1));
    } else {
        lemma_holds_itself(own);
        lemma_holds(before, own, seq![], own);
    }
}

/// Whether a printed text shows a line of a file, in an excerpt of it.
pub open spec fn prints_line(text: Seq<char>, path: Seq<char>, line: Seq<char>) -> bool {
    exists|x: ExcerptView, number: int|
        x.path == path && holds_text(text, #[trigger] excerpt_text(x, number)) && shows_line(
            excerpt_text(x, number),
            line,
        )
}

/// Every excerpt that the budget leaves is printed.
proof fn lemma_excerpt_printed(
    packet: ContextPacketView,
    options: RenderOptionsView,
    filtered: Seq<crate::context_output::FilteredRangeView>,
    loaded: LoadedSourceView,
    i: int,
)
    requires
        options.source != ContextSource::Nothing,
        0 <= i < budgeted(loaded.excerpts, options.token_budget).included.len(),
    ensures
        holds_text(
            printed(packet, options, filtered, loaded),
            excerpt_text(budgeted(loaded.excerpts, options.token_budget).included[i], i + 1),
        ),
{
    let budget = budgeted(loaded.excerpts, options.token_budget);
    let piece = excerpt_text(budget.included[i], i + 1);
    let count = budget.included.len() as int;
    let own = excerpts_text(budget.included, count);
    lemma_excerpts_held(budget.included, count, i);
    let source = source_text(budget.included, options);
    let head = source.take(source.len() - own.len());
    assert(source =~= head + own);
    lemma_holds(head, own, seq![], piece);
    let first = crate::context_output::selection_text(packet, options.focused_anchors.dom());
    let left_out = crate::context_output::omitted_text(
        filtered,
        loaded.tests,
        budget,
        loaded.omitted,
    );
    let said = crate::context_output::diagnostics_text(packet.diagnostics);
    let text = printed(packet, options, filtered, loaded);
    assert(text =~= first + source + (left_out + said));
    lemma_holds(first, source, left_out + said, piece);
}

/// Lines that are requested are printed.
#[verifier::rlimit(40)]
#[verifier::spinoff_prover]
proof fn lemma_requested_lines_are_printed(
    packet: ContextPacketView,
    options: RenderOptionsView,
    contents: Map<Seq<char>, FileContentView>,
    x: RequestView,
    bytes: Seq<u8>,
    line: u32,
)
    requires
        filters_of(options) is Ok,
        options.source != ContextSource::Nothing,
        options.include_rust_tests,
        options.token_budget is None,
        requests_of(packet, options, filters_of(options)->Ok_0).0.contains(x),
        contents[x.path] == FileContentView::Bytes(bytes),
        !bytes.contains(0),
        vstd::utf8::valid_utf8(bytes),
        1 <= x.start <= line <= x.end,
        line <= lines(vstd::utf8::decode_utf8(bytes)).len() <= u32::MAX,
        !is_blank(lines(vstd::utf8::decode_utf8(bytes))[line - 1]),
    ensures
        rendered(packet, options, contents) is Ok,
        prints_line(
            rendered(packet, options, contents)->Ok_0,
            x.path,
            lines(vstd::utf8::decode_utf8(bytes))[line - 1],
        ),
{
    let filters = filters_of(options)->Ok_0;
    let (requests, filtered) = requests_of(packet, options, filters);
    let all = requests.len() as int;
    let set = request_paths(requests, all);
    lemma_paths_finite(requests, all);
    lemma_orderable(set);
    let paths = ordered(set);
    let n = paths.len() as int;
    lemma_request_for(requests, all, requests.index_of(x));
    assert(paths.to_set().contains(x.path));
    crate::context_output::lemma_requests_start(packet, options, filters);
    lemma_source_loaded(
        requests,
        contents,
        options,
        n,
        paths.index_of(x.path),
        x,
        bytes,
        line,
    );
    let loaded = source_of(requests, contents, options, n);
    let k = choose|k: int|
        0 <= k < loaded.excerpts.len() && (#[trigger] loaded.excerpts[k]).path == x.path
            && loaded.excerpts[k].start <= line <= loaded.excerpts[k].end;
    let own = loaded.excerpts[k];
    assert(loaded.excerpts.contains(own));
    loaded_source_is_accounted_for(loaded.excerpts, None, own);
    no_budget_leaves_nothing_out(loaded.excerpts);
    let budget = budgeted(loaded.excerpts, None);
    assert(is_covered(budget.included, own));
    let i = choose|i: int| 0 <= i < budget.included.len() && covers(#[trigger] budget.included[i], own);
    printed_contexts_hold_their_lines(packet, options, contents, i);
    let shown = budget.included[i];
    lemma_excerpt_printed(packet, options, filtered, loaded, i);
    let text = printed(packet, options, filtered, loaded);
    assert(holds_text(text, excerpt_text(shown, i + 1)));
}

/// What a context selects is printed: where all source is asked for and nothing is left out by
/// filters, tests or a budget, every line of every anchor that the context lists is printed in
/// an excerpt of its file, unless it is blank.
pub proof fn listed_anchors_are_printed(
    packet: ContextPacketView,
    options: RenderOptionsView,
    contents: Map<Seq<char>, FileContentView>,
    anchor: AffectedAnchorView,
    path: Seq<char>,
    language: Option<Seq<char>>,
    start: u32,
    end: u32,
    bytes: Seq<u8>,
    line: u32,
)
    requires
        packet.related_anchors.contains(anchor) || exists|i: int|
            0 <= i < packet.strands.len() && (#[trigger] packet.strands[i]).anchors.contains(anchor),
        stands_at_range(anchor, path, language, start, end),
        options.source == ContextSource::All,
        options.include_rust_tests,
        options.token_budget is None,
        end + options.context_lines < u32::MAX,
        filters_of(options) is Ok,
        is_allowed(filters_of(options)->Ok_0, path, language),
        contents[path] == FileContentView::Bytes(bytes),
        !bytes.contains(0),
        vstd::utf8::valid_utf8(bytes),
        start <= line <= end,
        line <= lines(vstd::utf8::decode_utf8(bytes)).len() <= u32::MAX,
        !is_blank(lines(vstd::utf8::decode_utf8(bytes))[line - 1]),
    ensures
        rendered(packet, options, contents) is Ok,
        prints_line(
            rendered(packet, options, contents)->Ok_0,
            path,
            lines(vstd::utf8::decode_utf8(bytes))[line - 1],
        ),
{
    let hits = hit_requests(
        options.source_matches,
        options.context_lines,
        options.source_matches.len() as int,
    );
    let all = packet.strands.len() as int;
    let strands = with_all_strand_requests(hits, packet.strands, options, all);
    let count = packet.related_anchors.len() as int;
    let x = if packet.related_anchors.contains(anchor) {
        let j = packet.related_anchors.index_of(anchor);
        lemma_related_requested(
            strands,
            packet.related_anchors,
            options,
            count,
            j,
            path,
            language,
            start,
            end,
        )
    } else {
        let i = choose|i: int|
            0 <= i < packet.strands.len() && (#[trigger] packet.strands[i]).anchors.contains(
                anchor,
            );
        let j = packet.strands[i].anchors.index_of(anchor);
        let x = lemma_all_requested(
            hits,
            packet.strands,
            options,
            all,
            i,
            j,
            path,
            language,
            start,
            end,
        );
        lemma_related_requests_grow(strands, packet.related_anchors, options, count, x);
        x
    };
    lemma_kept(packet, options, filters_of(options)->Ok_0, x);
    lemma_requested_lines_are_printed(packet, options, contents, x, bytes, line);
}

/// The lines of every hit of a search are printed too, under the same conditions.
pub proof fn hits_are_printed(
    packet: ContextPacketView,
    options: RenderOptionsView,
    contents: Map<Seq<char>, FileContentView>,
    i: int,
    bytes: Seq<u8>,
    line: u32,
)
    requires
        0 <= i < options.source_matches.len(),
        options.source == ContextSource::All || options.source == ContextSource::Direct,
        options.include_rust_tests,
        options.token_budget is None,
        options.source_matches[i].line_end + options.context_lines < u32::MAX,
        filters_of(options) is Ok,
        is_allowed(
            filters_of(options)->Ok_0,
            options.source_matches[i].path,
            language_of_path(options.source_matches[i].path),
        ),
        contents[options.source_matches[i].path] == FileContentView::Bytes(bytes),
        !bytes.contains(0),
        vstd::utf8::valid_utf8(bytes),
        1 <= options.source_matches[i].line_start <= line <= options.source_matches[i].line_end,
        line <= lines(vstd::utf8::decode_utf8(bytes)).len() <= u32::MAX,
        !is_blank(lines(vstd::utf8::decode_utf8(bytes))[line - 1]),
    ensures
        rendered(packet, options, contents) is Ok,
        prints_line(
            rendered(packet, options, contents)->Ok_0,
            options.source_matches[i].path,
            lines(vstd::utf8::decode_utf8(bytes))[line - 1],
        ),
{
    let n = options.source_matches.len() as int;
    let hits = hit_requests(options.source_matches, options.context_lines, n);
    lemma_hits_requested(options.source_matches, options.context_lines, n, i);
    let x = hit_request(options.source_matches[i], i, options.context_lines);
    let all = packet.strands.len() as int;
    let strands = with_all_strand_requests(hits, packet.strands, options, all);
    lemma_all_requests_grow(hits, packet.strands, options, all, x);
    lemma_related_requests_grow(
        strands,
        packet.related_anchors,
        options,
        packet.related_anchors.len() as int,
        x,
    );
    lemma_kept(packet, options, filters_of(options)->Ok_0, x);
    lemma_requested_lines_are_printed(packet, options, contents, x, bytes, line);
}

proof fn lemma_strand_held(
    strands: Seq<AffectedStrandView>,
    focused: Set<Seq<char>>,
    n: int,
    i: int,
)
    requires
        0 <= i < n <= strands.len(),
    ensures
        holds_text(strands_text(strands, focused, n), strands[i].id),
        holds_text(strands_text(strands, focused, n), strands[i].intent),
    decreases n,
{
    let before = strands_text(strands, focused, n - 1);
    let own = strand_text(strands[n - 1], focused);
    if i < n - 1 {
        lemma_strand_held(strands, focused, n - 1, i);
        lemma_holds(seq![], before, own, strands[i].id);
        lemma_holds(seq![], before, own, strands[i].intent);
    } else {
        let strand = strands[i];
        let kind = if strand.direct {
            "direct"@
        } else {
            "connected"@
        };
        let anchors = crate::context_output::anchors_text(strand.anchors, focused);
        lemma_holds_itself(strand.id);
        lemma_holds_itself(strand.intent);
        let behind = " ["@ + kind + "]\nIntent: "@ + strand.intent + "\n"@ + anchors;
        assert(own =~= "\n### "@ + strand.id + behind);
        lemma_holds("\n### "@, strand.id, behind, strand.id);
        let head = "\n### "@ + strand.id + " ["@ + kind + "]\nIntent: "@;
        assert(own =~= head + strand.intent + ("\n"@ + anchors));
        lemma_holds(head, strand.intent, "\n"@ + anchors, strand.intent);
        lemma_holds(before, own, seq![], strand.id);
        lemma_holds(before, own, seq![], strand.intent);
    }
}

/// Every strand of a context is printed, with its name and its intent.
pub proof fn listed_strands_are_printed(
    packet: ContextPacketView,
    options: RenderOptionsView,
    contents: Map<Seq<char>, FileContentView>,
    i: int,
)
    requires
        0 <= i < packet.strands.len(),
        rendered(packet, options, contents) is Ok,
    ensures
        holds_text(rendered(packet, options, contents)->Ok_0, packet.strands[i].id),
        holds_text(rendered(packet, options, contents)->Ok_0, packet.strands[i].intent),
{
    let focused = options.focused_anchors.dom();
    let n = packet.strands.len() as int;
    let own = strands_text(packet.strands, focused, n);
    lemma_strand_held(packet.strands, focused, n, i);
    let files = if packet.changes.files.len() == 0 {
        ""@
    } else {
        "Changed files: "@ + decimal(packet.changes.files.len()) + "\n"@
            + crate::context_output::changed_files_text(
            packet.changes.files,
            packet.changes.files.len() as int,
        )
    };
    let head = "# Strandmap context\nSelection: "@ + packet.changes.description + "\n"@ + files
        + "\n## Strands ("@ + decimal(packet.strands.len()) + ")\n"@ + ""@;
    let text = rendered(packet, options, contents)->Ok_0;
    reveal_strlit("");
    let tail = text.skip((head + own).len() as int);
    assert(text =~= head + own + tail);
    lemma_holds(head, own, tail, packet.strands[i].id);
    lemma_holds(head, own, tail, packet.strands[i].intent);
}

} // verus!

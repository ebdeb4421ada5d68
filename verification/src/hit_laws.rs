//! What a search finds.

use vstd::prelude::*;

use crate::collections::{lemma_orderable, ordered};
use crate::config::AnnotationConfigView;
use crate::model::{IndexView, LocationView, WatchMode};
use crate::search::{
    admitted, anchors_at, bloom_of, bounded_anchors, file_anchors, files_to_search,
    filters_hide_no_match, found_hits, hit_of, hit_span, hits_of, holds_excluded, is_repeated,
    lemma_admitted, matched_words_are_asked_for, overlap_much, plain_lines,
    ranked_documents_are_sorted, searched_files_lie_under_the_paths, shortest_span, shown_documents,
    tokens_of, DocumentView, QueryView, RankedDocumentView, SearchHitView,
};
use crate::source_span::{enclosing_span, Span};

verus! {

/// Whether two ranges of lines share at least half of the shorter one.
pub open spec fn share_half(start: int, end: int, other_start: int, other_end: int) -> bool {
    let first = if start >= other_start {
        start
    } else {
        other_start
    };
    let last = if end <= other_end {
        end
    } else {
        other_end
    };
    &&& first <= last
    &&& 2 * (last - first + 1) >= end - start + 1 || 2 * (last - first + 1) >= other_end
        - other_start + 1
}

/// The last line of a location.
pub open spec fn last_line(location: LocationView) -> int {
    match location.line_end {
        Some(end) => end as int,
        None => location.line_start->0 as int,
    }
}

/// Whether an anchor stands at lines of a file.
pub open spec fn stands_at_lines(index: IndexView, id: Seq<char>, path: Seq<char>) -> bool {
    &&& index.anchors.contains_key(id)
    &&& index.anchors[id].value.location matches Some(location) && location.path == path
        && location.watch != Some(WatchMode::File) && location.line_start is Some
}

/// Whether an anchor of a file holds a line.
pub open spec fn holds_line(index: IndexView, id: Seq<char>, path: Seq<char>, line: u32) -> bool {
    stands_at_lines(index, id, path) && {
        let location = index.anchors[id].value.location->0;
        location.line_start->0 <= line <= last_line(location)
    }
}

/// Whether an anchor watches a file as a whole.
pub open spec fn watches_file(index: IndexView, id: Seq<char>, path: Seq<char>) -> bool {
    &&& index.anchors.contains_key(id)
    &&& index.anchors[id].value.location matches Some(location) && location.path == path
        && location.watch == Some(WatchMode::File)
}

/// Whether lines are those that a hit shows of a document: its own where it is an anchor, else
/// those of the shortest anchor around its best line, else the smallest unit around that.
pub open spec fn are_lines_to_show(
    index: IndexView,
    sources: Map<Seq<char>, Seq<char>>,
    document: DocumentView,
    best_line: u32,
    span: Span,
) -> bool {
    if document.anchored {
        span.start_line == document.start && span.end_line == document.end
    } else if exists|id: Seq<char>| #[trigger] holds_line(index, id, document.path, best_line) {
        &&& exists|id: Seq<char>| #[trigger]
            holds_line(index, id, document.path, best_line) && {
                let location = index.anchors[id].value.location->0;
                span.start_line == location.line_start->0 && span.end_line == last_line(location)
            }
        &&& forall|id: Seq<char>| #[trigger]
            holds_line(index, id, document.path, best_line) ==> {
                let location = index.anchors[id].value.location->0;
                span.end_line - span.start_line <= last_line(location) - location.line_start->0
            }
    } else {
        span == enclosing_span(document.path, sources[document.path], best_line as int)
    }
}

proof fn lemma_shortest(index: IndexView, path: Seq<char>, line: u32, n: int)
    requires
        index.anchors.dom().finite(),
        0 <= n <= ordered(index.anchors.dom()).len(),
    ensures
        match shortest_span(index, path, line, n) {
            None => forall|k: int|
                0 <= k < n ==> !holds_line(
                    index,
                    #[trigger] ordered(index.anchors.dom())[k],
                    path,
                    line,
                ),
            Some(span) => {
                &&& span.start_line <= span.end_line
                &&& exists|k: int|
                    0 <= k < n && holds_line(
                        index,
                        #[trigger] ordered(index.anchors.dom())[k],
                        path,
                        line,
                    ) && {
                        let location = index.anchors[ordered(
                            index.anchors.dom(),
                        )[k]].value.location->0;
                        span.start_line == location.line_start->0 && span.end_line == last_line(
                            location,
                        )
                    }
                &&& forall|k: int|
                    0 <= k < n && holds_line(
                        index,
                        #[trigger] ordered(index.anchors.dom())[k],
                        path,
                        line,
                    ) ==> {
                        let location = index.anchors[ordered(
                            index.anchors.dom(),
                        )[k]].value.location->0;
                        span.end_line - span.start_line <= last_line(location)
                            - location.line_start->0
                    }
            },
        },
    decreases n,
{
    if n > 0 {
        lemma_shortest(index, path, line, n - 1);
        lemma_orderable(index.anchors.dom());
        let keys = ordered(index.anchors.dom());
        assert(keys.to_set().contains(keys[n - 1]));
        if let Some(span) = shortest_span(index, path, line, n - 1) {
            let k = choose|k: int|
                0 <= k < n - 1 && holds_line(index, #[trigger] keys[k], path, line) && {
                    let location = index.anchors[keys[k]].value.location->0;
                    span.start_line == location.line_start->0 && span.end_line == last_line(
                        location,
                    )
                };
            assert(holds_line(index, keys[k], path, line));
        }
        if holds_line(index, keys[n - 1], path, line) {
            assert(holds_line(index, keys[n - 1], path, line));
        }
    }
}

proof fn lemma_lines_to_show(
    index: IndexView,
    sources: Map<Seq<char>, Seq<char>>,
    document: DocumentView,
    best_line: u32,
)
    requires
        index.anchors.dom().finite(),
    ensures
        are_lines_to_show(
            index,
            sources,
            document,
            best_line,
            hit_span(index, sources, document, best_line),
        ),
{
    lemma_orderable(index.anchors.dom());
    let keys = ordered(index.anchors.dom());
    let n = keys.len() as int;
    lemma_shortest(index, document.path, best_line, n);
    assert forall|id: Seq<char>| #[trigger]
        holds_line(index, id, document.path, best_line) implies keys.contains(id) by {
        assert(keys.to_set().contains(id));
    }
    if let Some(span) = shortest_span(index, document.path, best_line, n) {
        let k = choose|k: int|
            0 <= k < n && holds_line(index, #[trigger] keys[k], document.path, best_line) && {
                let location = index.anchors[keys[k]].value.location->0;
                span.start_line == location.line_start->0 && span.end_line == last_line(location)
            };
        assert(holds_line(index, keys[k], document.path, best_line));
        assert forall|id: Seq<char>| #[trigger]
            holds_line(index, id, document.path, best_line) implies {
            let location = index.anchors[id].value.location->0;
            span.end_line - span.start_line <= last_line(location) - location.line_start->0
        } by {
            let o = keys.index_of(id);
            assert(holds_line(index, keys[o], document.path, best_line));
        }
    } else {
        assert forall|id: Seq<char>| !(#[trigger] holds_line(index, id, document.path, best_line)) by {
            if holds_line(index, id, document.path, best_line) {
                let o = keys.index_of(id);
                assert(!holds_line(index, keys[o], document.path, best_line));
            }
        }
    }
}

/// Whether an anchor meets lines of a file.
pub open spec fn meets_lines(
    index: IndexView,
    id: Seq<char>,
    path: Seq<char>,
    start: u32,
    end: u32,
) -> bool {
    stands_at_lines(index, id, path) && {
        let location = index.anchors[id].value.location->0;
        location.line_start->0 <= end && start <= last_line(location)
    }
}

proof fn lemma_anchors(
    index: IndexView,
    path: Seq<char>,
    start: u32,
    end: u32,
    n: int,
    id: Seq<char>,
)
    requires
        index.anchors.dom().finite(),
        0 <= n <= ordered(index.anchors.dom()).len(),
    ensures
        bounded_anchors(index, path, start, end, n).contains(id) <==> ordered(
            index.anchors.dom(),
        ).take(n).contains(id) && meets_lines(index, id, path, start, end),
        file_anchors(index, path, n).contains(id) <==> ordered(index.anchors.dom()).take(
            n,
        ).contains(id) && watches_file(index, id, path),
    decreases n,
{
    if n > 0 {
        lemma_anchors(index, path, start, end, n - 1, id);
        lemma_orderable(index.anchors.dom());
        let keys = ordered(index.anchors.dom());
        let last = keys[n - 1];
        assert(keys.to_set().contains(last));
        assert(keys.take(n) =~= keys.take(n - 1).push(last));
        lemma_added(keys.take(n - 1), last, id);
        lemma_added(bounded_anchors(index, path, start, end, n - 1), last, id);
        lemma_added(file_anchors(index, path, n - 1), last, id);
    }
}

proof fn lemma_added(all: Seq<Seq<char>>, x: Seq<char>, y: Seq<char>)
    ensures
        all.push(x).contains(y) <==> all.contains(y) || x == y,
{
    let more = all.push(x);
    if more.contains(y) {
        let k = more.index_of(y);
        if k < all.len() {
            assert(all[k] == y);
        }
    }
    if all.contains(y) {
        let k = all.index_of(y);
        assert(more[k] == y);
    }
    assert(more[all.len() as int] == x);
}

/// The anchors of some lines of a file are those that meet the lines; where none does, those
/// that watch the file as a whole.
pub proof fn lines_have_the_anchors_that_meet_them(
    index: IndexView,
    path: Seq<char>,
    start: u32,
    end: u32,
    id: Seq<char>,
)
    requires
        index.anchors.dom().finite(),
    ensures
        anchors_at(index, path, start, end).contains(id) <==> meets_lines(
            index,
            id,
            path,
            start,
            end,
        ) || (watches_file(index, id, path) && forall|other: Seq<char>|
            !(#[trigger] meets_lines(index, other, path, start, end))),
{
    lemma_orderable(index.anchors.dom());
    let keys = ordered(index.anchors.dom());
    let n = keys.len() as int;
    assert(keys.take(n) =~= keys);
    let bounded = bounded_anchors(index, path, start, end, n);
    lemma_anchors(index, path, start, end, n, id);
    assert(index.anchors.contains_key(id) ==> keys.to_set().contains(id));
    if bounded.len() == 0 {
        assert forall|other: Seq<char>| !(#[trigger] meets_lines(index, other, path, start, end)) by {
            lemma_anchors(index, path, start, end, n, other);
            assert(index.anchors.contains_key(other) ==> keys.to_set().contains(other));
        }
    } else {
        lemma_anchors(index, path, start, end, n, bounded[0]);
        assert(bounded.contains(bounded[0]));
        assert(meets_lines(index, bounded[0], path, start, end));
        assert(!(stands_at_lines(index, id, path) && watches_file(index, id, path)));
    }
}

/// Whether a hit is one of a ranked document: it tells the file, the score, the lines to show,
/// the words of the query that the document holds, and the anchors of the lines.
pub open spec fn is_hit_of(
    index: IndexView,
    sources: Map<Seq<char>, Seq<char>>,
    documents: Seq<DocumentView>,
    query: QueryView,
    x: RankedDocumentView,
    hit: SearchHitView,
) -> bool {
    let document = documents[x.document as int];
    &&& hit.path == document.path
    &&& hit.score == x.score
    &&& are_lines_to_show(
        index,
        sources,
        document,
        x.best_line,
        Span { start_line: hit.line_start, end_line: hit.line_end },
    )
    &&& forall|word: Seq<char>| #[trigger]
        hit.matched.contains(word) <==> query.terms.contains(word) && document.tokens.contains(word)
    &&& forall|id: Seq<char>| #[trigger]
        hit.anchors.contains(id) <==> meets_lines(
            index,
            id,
            hit.path,
            hit.line_start,
            hit.line_end,
        ) || (watches_file(index, id, hit.path) && forall|other: Seq<char>|
            !(#[trigger] meets_lines(index, other, hit.path, hit.line_start, hit.line_end)))
}

proof fn lemma_hit_of(
    index: IndexView,
    sources: Map<Seq<char>, Seq<char>>,
    documents: Seq<DocumentView>,
    query: QueryView,
    x: RankedDocumentView,
)
    requires
        index.anchors.dom().finite(),
    ensures
        is_hit_of(
            index,
            sources,
            documents,
            query,
            x,
            hit_of(index, sources, documents, query.terms, x),
        ),
{
    let document = documents[x.document as int];
    let hit = hit_of(index, sources, documents, query.terms, x);
    lemma_lines_to_show(index, sources, document, x.best_line);
    let n = query.terms.len() as int;
    assert(query.terms.take(n) =~= query.terms);
    assert forall|word: Seq<char>| #[trigger]
        hit.matched.contains(word) <==> query.terms.contains(word) && document.tokens.contains(
            word,
        ) by {
        matched_words_are_asked_for(document.tokens, query.terms, n, word);
    }
    assert forall|id: Seq<char>| #[trigger]
        hit.anchors.contains(id) <==> meets_lines(
            index,
            id,
            hit.path,
            hit.line_start,
            hit.line_end,
        ) || (watches_file(index, id, hit.path) && forall|other: Seq<char>|
            !(#[trigger] meets_lines(index, other, hit.path, hit.line_start, hit.line_end))) by {
        lines_have_the_anchors_that_meet_them(index, hit.path, hit.line_start, hit.line_end, id);
    }
}

/// Every hit of a search is one of a ranked document that holds no excluded word.
pub proof fn hits_tell_of_their_document(
    index: IndexView,
    sources: Map<Seq<char>, Seq<char>>,
    documents: Seq<DocumentView>,
    query: QueryView,
    ranked: Seq<RankedDocumentView>,
    limit: int,
    i: int,
)
    requires
        index.anchors.dom().finite(),
        0 <= i < found_hits(index, sources, documents, query, ranked, limit).len(),
    ensures
        exists|k: int|
            0 <= k < ranked.len() && is_hit_of(
                index,
                sources,
                documents,
                query,
                #[trigger] ranked[k],
                found_hits(index, sources, documents, query, ranked, limit)[i],
            ) && forall|t: int|
                0 <= t < documents[ranked[k].document as int].tokens.len()
                    ==> !query.excluded.contains(
                    #[trigger] documents[ranked[k].document as int].tokens[t],
                ),
{
    let hit = found_hits(index, sources, documents, query, ranked, limit)[i];
    crate::search::hits_hold_no_excluded_word(
        index,
        sources,
        documents,
        query,
        ranked,
        limit,
        i,
    );
    let k = choose|k: int|
        0 <= k < ranked.len() && hit == hit_of(
            index,
            sources,
            documents,
            query.terms,
            #[trigger] ranked[k],
        ) && !holds_excluded(documents[ranked[k].document as int].tokens, query.excluded);
    lemma_hit_of(index, sources, documents, query, ranked[k]);
    assert(is_hit_of(index, sources, documents, query, ranked[k], hit));
}

proof fn lemma_hits_stay(
    index: IndexView,
    sources: Map<Seq<char>, Seq<char>>,
    documents: Seq<DocumentView>,
    terms: Seq<Seq<char>>,
    ranked: Seq<RankedDocumentView>,
    limit: int,
    n: int,
    m: int,
)
    requires
        n <= m,
    ensures
        hits_of(index, sources, documents, terms, ranked, limit, n).len() <= hits_of(
            index,
            sources,
            documents,
            terms,
            ranked,
            limit,
            m,
        ).len(),
        forall|i: int|
            0 <= i < hits_of(index, sources, documents, terms, ranked, limit, n).len()
                ==> #[trigger] hits_of(index, sources, documents, terms, ranked, limit, m)[i]
                == hits_of(index, sources, documents, terms, ranked, limit, n)[i],
    decreases m - n,
{
    if n < m {
        lemma_hits_stay(index, sources, documents, terms, ranked, limit, n, m - 1);
    }
}

/// No ranked document is passed over: where it holds no excluded word and the limit is not
/// reached, a hit shows its lines, or shares at least half of the shorter one with them.
pub proof fn every_ranked_document_is_shown(
    index: IndexView,
    sources: Map<Seq<char>, Seq<char>>,
    documents: Seq<DocumentView>,
    query: QueryView,
    ranked: Seq<RankedDocumentView>,
    limit: int,
    k: int,
)
    requires
        index.anchors.dom().finite(),
        0 <= k < ranked.len(),
        forall|t: int|
            0 <= t < documents[ranked[k].document as int].tokens.len() ==> !query.excluded.contains(
                #[trigger] documents[ranked[k].document as int].tokens[t],
            ),
        found_hits(index, sources, documents, query, ranked, limit).len() < limit,
    ensures
        exists|i: int, span: Span|
            0 <= i < found_hits(index, sources, documents, query, ranked, limit).len()
                && #[trigger] are_lines_to_show(
                index,
                sources,
                documents[ranked[k].document as int],
                ranked[k].best_line,
                span,
            ) && {
                let hit = #[trigger] found_hits(
                    index,
                    sources,
                    documents,
                    query,
                    ranked,
                    limit,
                )[i];
                &&& hit.path == documents[ranked[k].document as int].path
                &&& (hit.line_start == span.start_line && hit.line_end == span.end_line)
                    || share_half(
                    hit.line_start as int,
                    hit.line_end as int,
                    span.start_line as int,
                    span.end_line as int,
                )
            },
{
    let x = ranked[k];
    let document = documents[x.document as int];
    let kept = admitted(documents, query.excluded, ranked, ranked.len() as int);
    let shown = shown_documents(documents, query.excluded, ranked);
    let hits = found_hits(index, sources, documents, query, ranked, limit);
    let all = shown.len() as int;
    ranked_documents_are_sorted(documents, kept);
    assert(ranked.take(ranked.len() as int) =~= ranked);
    assert(ranked.contains(ranked[k]));
    lemma_admitted(documents, query.excluded, ranked, ranked.len() as int, x);
    assert(kept.contains(x));
    assert(shown.contains(x));
    let at = shown.index_of(x);
    let before = hits_of(index, sources, documents, query.terms, shown, limit, at);
    let now = hits_of(index, sources, documents, query.terms, shown, limit, at + 1);
    lemma_hits_stay(index, sources, documents, query.terms, shown, limit, at, all);
    lemma_hits_stay(index, sources, documents, query.terms, shown, limit, at + 1, all);
    let span = hit_span(index, sources, document, x.best_line);
    lemma_lines_to_show(index, sources, document, x.best_line);
    if is_repeated(before, document.path, span) {
        let i = choose|i: int|
            0 <= i < before.len() && (#[trigger] before[i]).path == document.path && overlap_much(
                (before[i].line_start, before[i].line_end),
                (span.start_line, span.end_line),
            );
        assert(hits[i] == before[i]);
        assert(share_half(
            hits[i].line_start as int,
            hits[i].line_end as int,
            span.start_line as int,
            span.end_line as int,
        ));
    } else {
        let i = before.len() as int;
        assert(now[i] == hit_of(index, sources, documents, query.terms, x));
        assert(hits[i] == now[i]);
    }
}

/// Whether a path is another one or lies below it.
pub open spec fn lies_under(path: Seq<char>, above: Seq<char>) -> bool {
    path == above || exists|rest: Seq<char>| path == #[trigger] (above + seq!['/'] + rest)
}

pub(crate) proof fn lemma_lies_under(path: Seq<char>, above: Seq<char>)
    ensures
        crate::search::is_at_or_below(path, above) <==> lies_under(path, above),
{
    if crate::search::is_at_or_below(path, above) && path != above {
        let rest = path.skip(above.len() as int + 1);
        assert(path =~= above + seq!['/'] + rest);
    }
    if lies_under(path, above) && path != above {
        let rest = choose|rest: Seq<char>| path == #[trigger] (above + seq!['/'] + rest);
        assert(path.take(above.len() as int) =~= above);
        assert(path[above.len() as int] == '/');
    }
}

/// Every file that lies under one of the given paths, where there are any, and whose filter was
/// made of a text that holds one of the words, outside annotations, is searched.
pub proof fn files_that_hold_a_word_are_searched(
    index: IndexView,
    paths: Seq<Seq<char>>,
    terms: Seq<Seq<char>>,
    path: Seq<char>,
    text: Seq<char>,
    config: AnnotationConfigView,
    line: int,
    k: int,
    t: int,
)
    requires
        index.files.dom().finite(),
        index.files.contains_key(path),
        paths.len() == 0 || exists|i: int|
            0 <= i < paths.len() && lies_under(path, #[trigger] paths[i]),
        index.files[path].search_bloom == bloom_of(text, config),
        0 <= line < plain_lines(text, config).len(),
        0 <= k < tokens_of(plain_lines(text, config)[line]).len(),
        0 <= t < terms.len(),
        terms[t] == tokens_of(plain_lines(text, config)[line])[k],
    ensures
        files_to_search(
            index,
            paths,
            terms,
            ordered(index.files.dom()).len() as int,
        ).contains(path),
{
    lemma_orderable(index.files.dom());
    let keys = ordered(index.files.dom());
    let n = keys.len() as int;
    assert(keys.take(n) =~= keys);
    assert(keys.to_set().contains(path));
    searched_files_lie_under_the_paths(index, paths, terms, n, path);
    filters_hide_no_match(text, config, terms, line, k, t);
    if paths.len() > 0 {
        let i = choose|i: int| 0 <= i < paths.len() && lies_under(path, #[trigger] paths[i]);
        lemma_lies_under(path, paths[i]);
        assert(crate::search::is_at_or_below(path, paths[i]));
    }
}

/// A file that is searched is one of the index and lies under one of the given paths, where
/// there are any.
pub proof fn only_files_under_the_paths_are_searched(
    index: IndexView,
    paths: Seq<Seq<char>>,
    terms: Seq<Seq<char>>,
    path: Seq<char>,
)
    requires
        index.files.dom().finite(),
        files_to_search(
            index,
            paths,
            terms,
            ordered(index.files.dom()).len() as int,
        ).contains(path),
    ensures
        index.files.contains_key(path),
        paths.len() == 0 || exists|i: int|
            0 <= i < paths.len() && lies_under(path, #[trigger] paths[i]),
{
    lemma_orderable(index.files.dom());
    let keys = ordered(index.files.dom());
    let n = keys.len() as int;
    assert(keys.take(n) =~= keys);
    searched_files_lie_under_the_paths(index, paths, terms, n, path);
    assert(keys.to_set().contains(path));
    if paths.len() > 0 {
        let i = choose|i: int|
            0 <= i < paths.len() && crate::search::is_at_or_below(path, #[trigger] paths[i]);
        lemma_lies_under(path, paths[i]);
        assert(lies_under(path, paths[i]));
    }
}

} // verus!

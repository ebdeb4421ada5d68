//! What holds of the lines that belong to an annotation.

use vstd::prelude::*;

use crate::line_laws::first_line_and_the_rest;
use crate::paths::extension;
use crate::source_span::{
    byte_at, construct_end, declaration_span, engine_for, file_resolution, first_code, fresh_scan,
    indentation, is_candidate, is_code, last_filled, lemma_first_code, line_end, line_nodes,
    line_start, nearest, newlines, next_anchor, node_end, scan_step, search_path, starts_anchor,
    structural_span, tree_resolution, tree_span_in, EngineView, ScanState, Span,
};
use crate::syntax::{parse_outcome, rows_follow, syntax_nodes, Grammar, SyntaxNodeView};
use crate::text::{byte_len, index_from, is_blank, lemma_byte_len_add, lines};

verus! {

/// Empty lines.
pub open spec fn empty_lines(k: nat) -> Seq<char> {
    Seq::new(k, |i: int| '\n')
}

/// A span that lies some lines further down.
pub open spec fn moved(span: Span, k: int) -> Span {
    Span { start_line: (span.start_line + k) as u32, end_line: (span.end_line + k) as u32 }
}

/// A text with an empty line above it.
spec fn below(s: Seq<char>) -> Seq<char> {
    seq!['\n'] + s
}

proof fn lemma_below(s: Seq<char>, k: nat)
    requires
        k > 0,
    ensures
        empty_lines(k) + s == below(empty_lines((k - 1) as nat) + s),
{
    assert(empty_lines(k) + s =~= below(empty_lines((k - 1) as nat) + s));
}

proof fn lemma_lines_below(s: Seq<char>)
    ensures
        lines(below(s)) == seq![Seq::<char>::empty()] + lines(s),
{
    let none = Seq::<char>::empty();
    first_line_and_the_rest(none, s);
    assert(none + seq!['\n'] + s =~= below(s));
}

proof fn lemma_first_code_below(ls: Seq<Seq<char>>, line: Seq<char>, i: int)
    requires
        0 <= i,
    ensures
        first_code(seq![line] + ls, i + 1) == match first_code(ls, i) {
            Some(k) => Some(k + 1),
            None => None::<int>,
        },
    decreases ls.len() - i,
{
    let all = seq![line] + ls;
    if i < ls.len() {
        assert(all[i + 1] == ls[i]);
        if !is_code(ls[i]) {
            lemma_first_code_below(ls, line, i + 1);
        }
    }
}

proof fn lemma_next_anchor_below(ls: Seq<Seq<char>>, line: Seq<char>, i: int, indent: int)
    requires
        0 <= i,
    ensures
        next_anchor(seq![line] + ls, i + 1, indent) == next_anchor(ls, i, indent) + 1,
    decreases ls.len() - i,
{
    let all = seq![line] + ls;
    if i < ls.len() {
        assert(all[i + 1] == ls[i]);
        if !starts_anchor(ls[i], indent) {
            lemma_next_anchor_below(ls, line, i + 1, indent);
        }
    }
}

proof fn lemma_last_filled_below(ls: Seq<Seq<char>>, line: Seq<char>, start: int, end: int)
    requires
        0 <= start,
        end <= ls.len(),
    ensures
        last_filled(seq![line] + ls, start + 1, end + 1) == last_filled(ls, start, end) + 1,
    decreases end - start,
{
    let all = seq![line] + ls;
    if end > start {
        assert(all[end] == ls[end - 1]);
        if is_blank(ls[end - 1]) {
            lemma_last_filled_below(ls, line, start, end - 1);
        }
    }
}

proof fn lemma_next_anchor_bound(ls: Seq<Seq<char>>, i: int, indent: int)
    requires
        0 <= i,
    ensures
        next_anchor(ls, i, indent) <= ls.len(),
    decreases ls.len() - i,
{
    if i < ls.len() && !starts_anchor(ls[i], indent) {
        lemma_next_anchor_bound(ls, i + 1, indent);
    }
}

proof fn lemma_last_filled_bounds(ls: Seq<Seq<char>>, start: int, end: int)
    ensures
        start <= last_filled(ls, start, end),
    decreases end - start,
{
    if end > start && is_blank(ls[end - 1]) {
        lemma_last_filled_bounds(ls, start, end - 1);
    }
}

proof fn lemma_declaration_below(s: Seq<char>, marker_line: int, span: Span)
    requires
        declaration_span(s, marker_line) == Ok::<Span, Seq<char>>(span),
        span.end_line < u32::MAX,
    ensures
        declaration_span(below(s), marker_line + 1) == Ok::<Span, Seq<char>>(moved(span, 1)),
{
    let ls = lines(s);
    let none = Seq::<char>::empty();
    lemma_lines_below(s);
    let all = lines(below(s));
    lemma_first_code(ls, marker_line);
    lemma_first_code_below(ls, none, marker_line);
    let start = first_code(ls, marker_line)->0;
    assert(all[marker_line] == ls[marker_line - 1]);
    let indent = indentation(ls[marker_line - 1]);
    let end = next_anchor(ls, start + 1, indent);
    lemma_next_anchor_bound(ls, start + 1, indent);
    lemma_next_anchor_below(ls, none, start + 1, indent);
    lemma_last_filled_below(ls, none, start, end);
    lemma_last_filled_bounds(ls, start, end);
}

/// Empty lines that are put above a text move the declaration behind an annotation by as much.
pub proof fn declarations_move_with_their_lines(s: Seq<char>, marker_line: int, k: nat, span: Span)
    requires
        declaration_span(s, marker_line) == Ok::<Span, Seq<char>>(span),
        span.end_line + k <= u32::MAX,
    ensures
        declaration_span(empty_lines(k) + s, marker_line + k) == Ok::<Span, Seq<char>>(
            moved(span, k as int),
        ),
    decreases k,
{
    if k == 0 {
        assert(empty_lines(0) + s =~= s);
    } else {
        let less = (k - 1) as nat;
        declarations_move_with_their_lines(s, marker_line, less, span);
        lemma_declaration_starts(s, marker_line);
        lemma_below(s, k);
        lemma_declaration_below(
            empty_lines(less) + s,
            marker_line + less,
            moved(span, less as int),
        );
    }
}

proof fn lemma_declaration_starts(s: Seq<char>, marker_line: int)
    ensures
        declaration_span(s, marker_line) matches Ok(span) ==> span.start_line <= span.end_line,
{
    crate::source_span::declarations_follow_their_annotation(s, marker_line);
}

proof fn lemma_index_below(s: Seq<char>, from: int)
    requires
        0 <= from <= s.len(),
    ensures
        index_from(below(s), '\n', from + 1) == index_from(s, '\n', from) + 1,
    decreases s.len() - from,
{
    if from < s.len() {
        assert(below(s)[from + 1] == s[from]);
        if s[from] != '\n' {
            lemma_index_below(s, from + 1);
        }
    }
}

proof fn lemma_index_bounds(s: Seq<char>, from: int)
    requires
        0 <= from <= s.len(),
    ensures
        from <= index_from(s, '\n', from) <= s.len(),
        index_from(s, '\n', from) < s.len() ==> s[index_from(s, '\n', from)] == '\n',
        forall|j: int| from <= j < index_from(s, '\n', from) ==> s[j] != '\n',
    decreases s.len() - from,
{
    if from < s.len() && s[from] != '\n' {
        lemma_index_bounds(s, from + 1);
    }
}

proof fn lemma_line_start_bounds(s: Seq<char>, line: int)
    ensures
        line_start(s, line) matches Some(at) ==> 0 <= at <= s.len(),
    decreases line,
{
    if line > 1 {
        lemma_line_start_bounds(s, line - 1);
        match line_start(s, line - 1) {
            Some(at) => {
                lemma_index_bounds(s, at);
            },
            None => {},
        }
    }
}

proof fn lemma_line_start_below(s: Seq<char>, line: int)
    requires
        line >= 1,
    ensures
        line_start(below(s), line + 1) == match line_start(s, line) {
            Some(at) => Some(at + 1),
            None => None::<int>,
        },
    decreases line,
{
    if line == 1 {
        assert(line_start(below(s), 1) == Some(0int));
        assert(below(s)[0] == '\n');
    } else {
        lemma_line_start_below(s, line - 1);
        lemma_line_start_bounds(s, line - 1);
        match line_start(s, line - 1) {
            Some(at) => {
                lemma_index_below(s, at);
            },
            None => {},
        }
    }
}

proof fn lemma_line_end_below(s: Seq<char>, line: int)
    requires
        line >= 1,
    ensures
        line_end(below(s), line + 1) == match line_end(s, line) {
            Some(at) => Some(at + 1),
            None => None::<int>,
        },
{
    lemma_line_start_below(s, line);
    lemma_line_start_bounds(s, line);
    match line_start(s, line) {
        Some(at) => {
            lemma_index_below(s, at);
        },
        None => {},
    }
}

proof fn lemma_construct_below(s: Seq<char>, i: int, st: ScanState)
    requires
        0 <= i,
    ensures
        construct_end(below(s), i + 1, st) == match construct_end(s, i, st) {
            Some(end) => Some(end + 1),
            None => None::<int>,
        },
    decreases s.len() - i,
{
    let t = below(s);
    if i < s.len() {
        assert(t[i + 1] == s[i]);
        if !crate::source_span::ends_construct(st, s[i]) {
            let next = if i + 1 < s.len() {
                Some(s[i + 1])
            } else {
                None
            };
            if i + 1 < s.len() {
                assert(t[i + 2] == s[i + 1]);
            }
            let (after, taken) = scan_step(st, s[i], next);
            lemma_construct_below(s, i + taken, after);
        }
    }
}

proof fn lemma_newlines_below(s: Seq<char>)
    ensures
        newlines(below(s)) == newlines(s) + 1,
    decreases s.len(),
{
    let t = below(s);
    if s.len() == 0 {
        assert(t.drop_last() =~= s);
        assert(t.last() == '\n');
    } else {
        lemma_newlines_below(s.drop_last());
        assert(t.drop_last() =~= below(s.drop_last()));
        assert(t.last() == s.last());
    }
}

proof fn lemma_newlines_grow(s: Seq<char>, a: int, b: int)
    requires
        0 <= a <= b <= s.len(),
    ensures
        newlines(s.take(a)) <= newlines(s.take(b)),
        (forall|j: int| a <= j < b ==> s[j] != '\n') ==> newlines(s.take(a)) == newlines(s.take(b)),
    decreases b - a,
{
    if a < b {
        lemma_newlines_grow(s, a, b - 1);
        assert(s.take(b).drop_last() =~= s.take(b - 1));
    }
}

/// A line starts behind as many line feeds as there are lines above it.
pub proof fn lines_start_behind_line_feeds(s: Seq<char>, line: int)
    requires
        line >= 1,
    ensures
        line_start(s, line) matches Some(at) ==> 0 <= at <= s.len() && newlines(s.take(at))
            == line - 1,
        line_end(s, line) matches Some(end) ==> 0 <= end <= s.len() && (ends_with_feed(s, line)
            ==> newlines(s.take(end)) == line),
    decreases line,
{
    if line == 1 {
        assert(s.take(0) =~= seq![]);
    } else {
        lines_start_behind_line_feeds(s, line - 1);
        match line_start(s, line - 1) {
            Some(at) => {
                let end = index_from(s, '\n', at);
                lemma_index_bounds(s, at);
                if end < s.len() {
                    lemma_newlines_grow(s, at, end);
                    assert(s.take(end + 1).drop_last() =~= s.take(end));
                }
            },
            None => {},
        }
    }
    match line_start(s, line) {
        Some(at) => {
            let end = index_from(s, '\n', at);
            lemma_index_bounds(s, at);
            lemma_newlines_grow(s, at, end);
            if end < s.len() {
                assert(s.take(end + 1).drop_last() =~= s.take(end));
            }
        },
        None => {},
    }
}

/// Whether a line ends with a line feed.
pub open spec fn ends_with_feed(s: Seq<char>, line: int) -> bool {
    line_start(s, line) matches Some(at) && index_from(s, '\n', at) < s.len()
}

proof fn lemma_construct_bounds(s: Seq<char>, i: int, st: ScanState)
    requires
        0 <= i,
    ensures
        construct_end(s, i, st) matches Some(end) ==> i <= end < s.len(),
    decreases s.len() - i,
{
    if i < s.len() && !crate::source_span::ends_construct(st, s[i]) {
        let next = if i + 1 < s.len() {
            Some(s[i + 1])
        } else {
            None
        };
        let (after, taken) = scan_step(st, s[i], next);
        lemma_construct_bounds(s, i + taken, after);
    }
}

/// A construct does not end before it starts.
proof fn lemma_construct_order(s: Seq<char>, marker_line: int)
    ensures
        structural_span(s, marker_line) matches Ok(span) ==> span.start_line <= span.end_line,
{
    let ls = lines(s);
    match structural_span(s, marker_line) {
        Ok(span) => {
            lemma_first_code(ls, marker_line);
            let start = first_code(ls, marker_line)->0;
            let at = line_start(s, start + 1)->0;
            let end = construct_end(s, at, fresh_scan())->0;
            lines_start_behind_line_feeds(s, start + 1);
            lemma_construct_bounds(s, at, fresh_scan());
            lemma_newlines_grow(s, at, end);
        },
        Err(_) => {},
    }
}

proof fn lemma_structural_below(s: Seq<char>, marker_line: int, span: Span)
    requires
        structural_span(s, marker_line) == Ok::<Span, Seq<char>>(span),
        span.end_line < u32::MAX,
    ensures
        structural_span(below(s), marker_line + 1) == Ok::<Span, Seq<char>>(moved(span, 1)),
{
    let ls = lines(s);
    let none = Seq::<char>::empty();
    lemma_lines_below(s);
    lemma_construct_order(s, marker_line);
    lemma_first_code(ls, marker_line);
    lemma_first_code_below(ls, none, marker_line);
    let start = first_code(ls, marker_line)->0;
    lemma_line_start_below(s, start + 1);
    lemma_line_start_bounds(s, start + 1);
    let at = line_start(s, start + 1)->0;
    lemma_construct_below(s, at, fresh_scan());
    lemma_construct_bounds(s, at, fresh_scan());
    let end = construct_end(s, at, fresh_scan())->0;
    lemma_newlines_below(s.take(end));
    assert(below(s).take(end + 1) =~= below(s.take(end)));
}

/// Empty lines that are put above a text move the construct behind an annotation by as much,
/// where it is found by its brackets.
pub proof fn constructs_move_with_their_lines(s: Seq<char>, marker_line: int, k: nat, span: Span)
    requires
        structural_span(s, marker_line) == Ok::<Span, Seq<char>>(span),
        span.end_line + k <= u32::MAX,
    ensures
        structural_span(empty_lines(k) + s, marker_line + k) == Ok::<Span, Seq<char>>(
            moved(span, k as int),
        ),
    decreases k,
{
    if k == 0 {
        assert(empty_lines(0) + s =~= s);
    } else {
        let less = (k - 1) as nat;
        constructs_move_with_their_lines(s, marker_line, less, span);
        lemma_construct_order(s, marker_line);
        lemma_below(s, k);
        lemma_structural_below(
            empty_lines(less) + s,
            marker_line + less,
            moved(span, less as int),
        );
    }
}

proof fn lemma_nearest(
    grammar: Grammar,
    nodes: Seq<(usize, SyntaxNodeView)>,
    n: int,
    from: int,
)
    requires
        0 <= n <= nodes.len(),
    ensures
        nearest(grammar, nodes, n, from) matches Some(i) ==> 0 <= i < n && is_candidate(
            grammar,
            nodes,
            i,
            from,
        ),
    decreases n,
{
    if n > 0 {
        lemma_nearest(grammar, nodes, n - 1, from);
    }
}

/// What an annotation attaches to in a syntax tree starts behind the line of the annotation,
/// where that line ends with a line feed and the rows of the nodes are told by their bytes.
pub proof fn attached_nodes_follow_their_annotation(
    grammar: Grammar,
    s: Seq<char>,
    marker_line: int,
    nodes: Seq<(usize, SyntaxNodeView)>,
    spanning: Seq<SyntaxNodeView>,
)
    requires
        rows_follow(s, nodes),
        byte_len(s) <= usize::MAX,
        ends_with_feed(s, marker_line),
    ensures
        tree_span_in(grammar, s, marker_line, nodes, spanning) matches Ok(span) ==> marker_line
            < span.start_line,
{
    match tree_span_in(grammar, s, marker_line, nodes, spanning) {
        Ok(_) => {
            lines_start_behind_line_feeds(s, marker_line);
            let end = line_end(s, marker_line)->0;
            assert(s =~= s.take(end) + s.skip(end));
            lemma_byte_len_add(s.take(end), s.skip(end));
            let from = byte_at(s, end) as int;
            lemma_nearest(grammar, nodes, nodes.len() as int, from);
            let i = nearest(grammar, nodes, nodes.len() as int, from)->0;
            assert(byte_len(s.take(end)) <= nodes[i].1.start_byte);
        },
        Err(_) => {},
    }
}

/// A node of a syntax tree that lies some empty lines further down.
pub open spec fn moved_node(node: SyntaxNodeView, k: int) -> SyntaxNodeView {
    SyntaxNodeView {
        start_byte: (node.start_byte + k) as usize,
        end_byte: (node.end_byte + k) as usize,
        start_row: (node.start_row + k) as usize,
        end_row: (node.end_row + k) as usize,
        ..node
    }
}

/// Nodes of a syntax tree that lie some empty lines further down.
pub open spec fn moved_nodes(nodes: Seq<(usize, SyntaxNodeView)>, k: int) -> Seq<
    (usize, SyntaxNodeView),
> {
    nodes.map_values(|node: (usize, SyntaxNodeView)| (node.0, moved_node(node.1, k)))
}

/// Nodes without their depths, some empty lines further down.
pub open spec fn moved_alone(nodes: Seq<SyntaxNodeView>, k: int) -> Seq<SyntaxNodeView> {
    nodes.map_values(|node: SyntaxNodeView| moved_node(node, k))
}

/// Whether nodes can be moved: their numbers still fit, and none ends where the text starts.
pub open spec fn can_move(nodes: Seq<(usize, SyntaxNodeView)>, k: int) -> bool {
    forall|i: int|
        0 <= i < nodes.len() ==> {
            let node = (#[trigger] nodes[i]).1;
            &&& node.start_byte + k <= usize::MAX
            &&& node.end_byte + k <= usize::MAX
            &&& node.start_row + k <= usize::MAX
            &&& node.end_row + k <= usize::MAX
            &&& node.end_row > 0 || node.end_column > 0
        }
}

proof fn lemma_path_moves(nodes: Seq<(usize, SyntaxNodeView)>, n: int, from: int, k: int)
    requires
        0 <= k,
        0 <= n <= nodes.len(),
        can_move(nodes, k),
    ensures
        search_path(moved_nodes(nodes, k), n, from + k) == search_path(nodes, n, from),
    decreases n,
{
    if n > 0 {
        lemma_path_moves(nodes, n - 1, from, k);
        assert(moved_nodes(nodes, k)[n - 1] == (nodes[n - 1].0, moved_node(nodes[n - 1].1, k)));
    }
}

proof fn lemma_nearest_moves(
    grammar: Grammar,
    nodes: Seq<(usize, SyntaxNodeView)>,
    n: int,
    from: int,
    k: int,
)
    requires
        0 <= k,
        0 <= n <= nodes.len(),
        can_move(nodes, k),
    ensures
        nearest(grammar, moved_nodes(nodes, k), n, from + k) == nearest(grammar, nodes, n, from),
        nearest(grammar, nodes, n, from) matches Some(i) ==> 0 <= i < n,
    decreases n,
{
    if n > 0 {
        lemma_nearest_moves(grammar, nodes, n - 1, from, k);
        lemma_path_moves(nodes, n, from, k);
        let others = moved_nodes(nodes, k);
        assert(others[n - 1] == (nodes[n - 1].0, moved_node(nodes[n - 1].1, k)));
        match nearest(grammar, nodes, n - 1, from) {
            Some(i) => {
                assert(others[i] == (nodes[i].0, moved_node(nodes[i].1, k)));
            },
            None => {},
        }
    }
}

proof fn lemma_line_end_moves(s: Seq<char>, line: int, k: nat)
    requires
        line >= 1,
    ensures
        line_end(empty_lines(k) + s, line + k) == match line_end(s, line) {
            Some(at) => Some(at + k),
            None => None::<int>,
        },
    decreases k,
{
    if k == 0 {
        assert(empty_lines(0) + s =~= s);
    } else {
        let less = (k - 1) as nat;
        lemma_line_end_moves(s, line, less);
        lemma_below(s, k);
        lemma_line_end_below(empty_lines(less) + s, line + less);
    }
}

proof fn lemma_empty_bytes(k: nat)
    ensures
        byte_len(empty_lines(k)) == k,
    decreases k,
{
    if k > 0 {
        let less = (k - 1) as nat;
        lemma_empty_bytes(less);
        let one = seq!['\n'];
        assert(empty_lines(k) =~= empty_lines(less) + one);
        lemma_byte_len_add(empty_lines(less), one);
        assert(byte_len(one) == 1) by {
            reveal_with_fuel(byte_len, 2);
            assert(one.drop_first() =~= Seq::<char>::empty());
        }
    } else {
        assert(empty_lines(0) =~= Seq::<char>::empty());
    }
}

/// What becomes of a span, or of the reason that there is none, some lines further down.
pub open spec fn moves_as(
    before: Result<Span, Seq<char>>,
    after: Result<Span, Seq<char>>,
    k: int,
) -> bool {
    match before {
        Ok(span) => span.start_line + k <= u32::MAX && span.end_line + k <= u32::MAX ==> after
            == Ok::<Span, Seq<char>>(moved(span, k)),
        Err(_) => after is Err,
    }
}

/// Where the nodes of a syntax tree lie some lines further down below as many empty lines,
/// what an annotation attaches to lies as many lines further down; where it attaches to
/// nothing, it still does not.
pub proof fn nodes_move_with_their_lines(
    grammar: Grammar,
    s: Seq<char>,
    marker_line: int,
    nodes: Seq<(usize, SyntaxNodeView)>,
    spanning: Seq<SyntaxNodeView>,
    k: nat,
)
    requires
        marker_line >= 1,
        can_move(nodes, k as int),
        byte_len(s) + k <= usize::MAX,
    ensures
        moves_as(
            tree_span_in(grammar, s, marker_line, nodes, spanning),
            tree_span_in(
                grammar,
                empty_lines(k) + s,
                marker_line + k,
                moved_nodes(nodes, k as int),
                moved_alone(spanning, k as int),
            ),
            k as int,
        ),
{
    let t = empty_lines(k) + s;
    let others = moved_nodes(nodes, k as int);
    lemma_line_end_moves(s, marker_line, k);
    lines_start_behind_line_feeds(s, marker_line);
    match line_end(s, marker_line) {
        None => {},
        Some(end) => {
            assert(t.take(end + k) =~= empty_lines(k) + s.take(end));
            lemma_byte_len_add(empty_lines(k), s.take(end));
            lemma_empty_bytes(k);
            assert(s =~= s.take(end) + s.skip(end));
            lemma_byte_len_add(s.take(end), s.skip(end));
            let from = byte_at(s, end) as int;
            assert(byte_at(t, end + k) == from + k);
            lemma_nearest_moves(grammar, nodes, nodes.len() as int, from, k as int);
            match nearest(grammar, nodes, nodes.len() as int, from) {
                None => {},
                Some(i) => {
                    assert(others[i] == (nodes[i].0, moved_node(nodes[i].1, k as int)));
                    assert(node_end(others[i].1) == node_end(nodes[i].1) + k);
                },
            }
        },
    }
}

/// Whether the syntax tree of a file, if it has one, is that of the file some empty lines
/// further down: the parser still gives a tree, its nodes are the same further down, and so is
/// the node that spans the line of an annotation, with its ancestors.
pub open spec fn tree_moves(engine: EngineView, s: Seq<char>, marker_line: int, k: nat) -> bool {
    match engine {
        EngineView::Tree(grammar) => {
            let nodes = syntax_nodes(grammar, s);
            &&& parse_outcome(grammar, empty_lines(k) + s) == parse_outcome(grammar, s)
            &&& syntax_nodes(grammar, empty_lines(k) + s) == moved_nodes(nodes, k as int)
            &&& line_nodes(grammar, empty_lines(k) + s, marker_line + k) == moved_alone(
                line_nodes(grammar, s, marker_line),
                k as int,
            )
            &&& can_move(nodes, k as int)
            &&& byte_len(s) + k <= usize::MAX
        },
        _ => true,
    }
}

/// Whether a file, if it has a syntax tree, tells the line of an annotation apart from what
/// follows it: the line ends with a line feed, and the rows of nodes are told by their bytes.
pub open spec fn tells_line_apart(engine: EngineView, s: Seq<char>, marker_line: int) -> bool {
    match engine {
        EngineView::Tree(grammar) => {
            &&& ends_with_feed(s, marker_line)
            &&& rows_follow(s, syntax_nodes(grammar, s))
            &&& byte_len(s) <= usize::MAX
        },
        _ => true,
    }
}

/// Empty lines that are put above a file move what an annotation stands for by as much, where
/// the syntax tree of the file, if it has one, moves by as much. What the annotation stands for
/// starts behind the line of the annotation, where a syntax tree tells that line apart.
pub proof fn annotated_lines_move_with_their_file(
    path: Seq<char>,
    text: Seq<char>,
    marker_line: int,
    k: nat,
    span: Span,
)
    requires
        tree_moves(engine_for(extension(path)), text, marker_line, k),
        file_resolution(path, text, marker_line) == Ok::<Span, Seq<char>>(span),
        engine_for(extension(path)) is Tree ==> span.start_line + k <= u32::MAX,
        span.end_line + k <= u32::MAX,
    ensures
        tells_line_apart(engine_for(extension(path)), text, marker_line) ==> marker_line
            < span.start_line,
        !(engine_for(extension(path)) is Tree) ==> span.start_line <= span.end_line,
        file_resolution(path, empty_lines(k) + text, marker_line + k) == Ok::<Span, Seq<char>>(
            moved(span, k as int),
        ),
{
    match engine_for(extension(path)) {
        EngineView::Declaration => {
            crate::source_span::declarations_follow_their_annotation(text, marker_line);
            declarations_move_with_their_lines(text, marker_line, k, span);
        },
        EngineView::Brackets => {
            crate::source_span::constructs_follow_their_annotation(text, marker_line);
            lemma_construct_order(text, marker_line);
            constructs_move_with_their_lines(text, marker_line, k, span);
        },
        EngineView::Tree(grammar) => {
            let nodes = syntax_nodes(grammar, text);
            let spanning = line_nodes(grammar, text, marker_line);
            nodes_move_with_their_lines(grammar, text, marker_line, nodes, spanning, k);
            if tells_line_apart(engine_for(extension(path)), text, marker_line) {
                attached_nodes_follow_their_annotation(grammar, text, marker_line, nodes, spanning);
            }
            if tree_resolution(grammar, text, marker_line) is Err {
                crate::source_span::constructs_follow_their_annotation(text, marker_line);
                constructs_move_with_their_lines(text, marker_line, k, span);
            }
        },
    }
}

} // verus!

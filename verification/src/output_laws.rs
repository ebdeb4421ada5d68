//! What the program prints of a query, a context, a check and a review.

use vstd::prelude::*;

use crate::collections::{lemma_orderable, ordered};
use crate::graph::{
    dot_edges, dot_graph, dot_nodes, dot_text, mermaid_edges, mermaid_nodes, mermaid_text,
    node_name, node_number, QueryAnchorView, QueryResultView,
};
use crate::model::{
    AffectedAnchorView, AffectedStrandView, ContextPacketView, DiagnosticView, IndexView,
    ReviewView,
};
use crate::print_laws::{holds_text, lemma_holds, lemma_holds_itself};
use crate::summaries::{
    affected_strand_text, affected_strands_text, anchor_lines, check_text, context_text,
    diagnostic_text, diagnostics_text, disposition_text, dispositions_text, member_text,
    members_text, query_text, related_part, related_text, relateds_text, relation_lines,
    review_text, strand_lines, strands_part,
};
use crate::text::{decimal, replace};

verus! {

/// Whether a text has no character that has a meaning of its own inside quotes.
pub open spec fn is_unquoted(text: Seq<char>) -> bool {
    !text.contains('"') && !text.contains('\\') && !text.contains('&')
}

proof fn lemma_found(text: Seq<char>, before: Seq<char>, piece: Seq<char>, after: Seq<char>)
    requires
        text == before + piece + after,
    ensures
        holds_text(text, piece),
{
    lemma_holds_itself(piece);
    lemma_holds(before, piece, after, piece);
}

proof fn lemma_kept(s: Seq<char>, from: char, to: Seq<char>)
    requires
        !s.contains(from),
    ensures
        replace(s, from, to) == s,
    decreases s.len(),
{
    if s.len() > 0 {
        let front = s.drop_last();
        assert(s[s.len() - 1] != from);
        assert forall|k: int| 0 <= k < front.len() implies front[k] != from by {
            assert(s[k] == front[k]);
        }
        lemma_kept(front, from, to);
        assert(front.push(s.last()) =~= s);
    }
}

proof fn lemma_unquoted(text: Seq<char>)
    requires
        is_unquoted(text),
    ensures
        dot_text(text) == text,
        mermaid_text(text) == text,
{
    lemma_kept(text, '\\', "\\\\"@);
    lemma_kept(text, '"', "\\\""@);
    lemma_kept(text, '&', "&amp;"@);
    lemma_kept(text, '"', "&quot;"@);
}

proof fn lemma_dot_node(anchors: Seq<QueryAnchorView>, n: int, i: int)
    requires
        0 <= i < n <= anchors.len(),
        is_unquoted(anchors[i].id),
    ensures
        holds_text(dot_nodes(anchors, n), "  \""@ + anchors[i].id + "\";\n"@),
    decreases n,
{
    let piece = "  \""@ + anchors[i].id + "\";\n"@;
    let before = dot_nodes(anchors, n - 1);
    if i == n - 1 {
        lemma_unquoted(anchors[i].id);
        assert(dot_nodes(anchors, n) =~= before + piece + seq![]);
        lemma_found(dot_nodes(anchors, n), before, piece, seq![]);
    } else {
        lemma_dot_node(anchors, n - 1, i);
        let after = "  \""@ + dot_text(anchors[n - 1].id) + "\";\n"@;
        lemma_holds(seq![], before, after, piece);
        assert(dot_nodes(anchors, n) =~= before + after);
    }
}

proof fn lemma_dot_kept(result: QueryResultView, n: int, piece: Seq<char>)
    requires
        0 <= n <= result.relations.len(),
        holds_text(dot_nodes(result.anchors, result.anchors.len() as int), piece),
    ensures
        holds_text(dot_edges(result, n), piece),
    decreases n,
{
    if n > 0 {
        lemma_dot_kept(result, n - 1, piece);
        lemma_dot_grows(result, n, piece);
    }
}

/// What is written of a relation in the DOT language.
spec fn dot_line(from: Seq<char>, to: Seq<char>, kind: Seq<char>, both: bool) -> Seq<char> {
    "  \""@ + from + "\" -> \""@ + to + "\" [label=\""@ + kind + "\", dir="@ + (if both {
        "both"@
    } else {
        "forward"@
    }) + "];\n"@
}

proof fn lemma_dot_grows(result: QueryResultView, n: int, piece: Seq<char>)
    requires
        0 < n <= result.relations.len(),
        holds_text(dot_edges(result, n - 1), piece),
    ensures
        holds_text(dot_edges(result, n), piece),
{
    let before = dot_edges(result, n - 1);
    let relation = result.relations[n - 1].relation;
    let after = dot_line(
        dot_text(relation.from),
        dot_text(relation.to),
        dot_text(relation.kind),
        relation.bidirectional,
    );
    lemma_holds(seq![], before, after, piece);
    assert(dot_edges(result, n) =~= before + after);
}

proof fn lemma_dot_edge(result: QueryResultView, n: int, j: int)
    requires
        0 <= j < n <= result.relations.len(),
        is_unquoted(result.relations[j].relation.from),
        is_unquoted(result.relations[j].relation.to),
        is_unquoted(result.relations[j].relation.kind),
    ensures
        holds_text(
            dot_edges(result, n),
            dot_line(
                result.relations[j].relation.from,
                result.relations[j].relation.to,
                result.relations[j].relation.kind,
                result.relations[j].relation.bidirectional,
            ),
        ),
    decreases n,
{
    let relation = result.relations[j].relation;
    let piece = dot_line(relation.from, relation.to, relation.kind, relation.bidirectional);
    if j == n - 1 {
        lemma_unquoted(relation.from);
        lemma_unquoted(relation.to);
        lemma_unquoted(relation.kind);
        let before = dot_edges(result, n - 1);
        assert(dot_edges(result, n) =~= before + piece + seq![]);
        lemma_found(dot_edges(result, n), before, piece, seq![]);
    } else {
        lemma_dot_edge(result, n - 1, j);
        lemma_dot_grows(result, n, piece);
    }
}

/// The graph of a query in the DOT language has a node for every anchor and an edge for every
/// relation of the query, with the relation's kind and, where it holds both ways, with arrows at
/// both ends.
pub proof fn dot_graphs_show_the_query(result: QueryResultView, i: int, j: int)
    requires
        0 <= i < result.anchors.len(),
        0 <= j < result.relations.len(),
        is_unquoted(result.anchors[i].id),
        is_unquoted(result.relations[j].relation.from),
        is_unquoted(result.relations[j].relation.to),
        is_unquoted(result.relations[j].relation.kind),
    ensures
        holds_text(dot_graph(result), "  \""@ + result.anchors[i].id + "\";\n"@),
        ({
            let relation = result.relations[j].relation;
            holds_text(
                dot_graph(result),
                "  \""@ + relation.from + "\" -> \""@ + relation.to + "\" [label=\""@
                    + relation.kind + "\", dir="@ + (if relation.bidirectional {
                    "both"@
                } else {
                    "forward"@
                }) + "];\n"@,
            )
        }),
{
    let n = result.relations.len() as int;
    let relation = result.relations[j].relation;
    let node = "  \""@ + result.anchors[i].id + "\";\n"@;
    lemma_dot_node(result.anchors, result.anchors.len() as int, i);
    lemma_dot_kept(result, n, node);
    lemma_dot_edge(result, n, j);
    lemma_holds(seq![], dot_edges(result, n), "}\n"@, node);
    lemma_holds(
        seq![],
        dot_edges(result, n),
        "}\n"@,
        dot_line(relation.from, relation.to, relation.kind, relation.bidirectional),
    );
}

proof fn lemma_number(anchors: Seq<QueryAnchorView>, i: int, n: int)
    requires
        0 <= i < n <= anchors.len(),
        forall|x: int, y: int|
            0 <= x < y < anchors.len() ==> (#[trigger] anchors[x]).id != (#[trigger] anchors[y]).id,
    ensures
        node_number(anchors, anchors[i].id, n) == Some(i),
    decreases n,
{
    if i < n - 1 {
        assert(anchors[i].id != anchors[n - 1].id);
        lemma_number(anchors, i, n - 1);
    }
}

proof fn lemma_mermaid_node(anchors: Seq<QueryAnchorView>, n: int, i: int)
    requires
        0 <= i < n <= anchors.len(),
        is_unquoted(anchors[i].id),
        node_name(anchors, anchors[i].id) == Some("a"@ + decimal(i as nat)),
    ensures
        holds_text(
            mermaid_nodes(anchors, n),
            "  a"@ + decimal(i as nat) + "[\""@ + anchors[i].id + "\"]\n"@,
        ),
    decreases n,
{
    let piece = "  a"@ + decimal(i as nat) + "[\""@ + anchors[i].id + "\"]\n"@;
    let before = mermaid_nodes(anchors, n - 1);
    if i == n - 1 {
        reveal_strlit("  a");
        reveal_strlit("  ");
        reveal_strlit("a");
        assert("  a"@ =~= "  "@ + "a"@);
        lemma_unquoted(anchors[i].id);
        assert(mermaid_nodes(anchors, n) =~= before + piece + seq![]);
        lemma_found(mermaid_nodes(anchors, n), before, piece, seq![]);
    } else {
        lemma_mermaid_node(anchors, n - 1, i);
        let after = "  "@ + node_name(anchors, anchors[n - 1].id)->0 + "[\""@ + mermaid_text(
            anchors[n - 1].id,
        ) + "\"]\n"@;
        lemma_holds(seq![], before, after, piece);
        assert(mermaid_nodes(anchors, n) =~= before + after);
    }
}

/// What is written of a relation in the Mermaid language.
spec fn mermaid_line(from: Seq<char>, to: Seq<char>, kind: Seq<char>, both: bool) -> Seq<char> {
    "  "@ + from + " "@ + (if both {
        "<-->"@
    } else {
        "-->"@
    }) + "|"@ + kind + "| "@ + to + "\n"@
}

proof fn lemma_mermaid_grows(result: QueryResultView, n: int, piece: Seq<char>)
    requires
        0 < n <= result.relations.len(),
        holds_text(mermaid_edges(result, n - 1), piece),
    ensures
        holds_text(mermaid_edges(result, n), piece),
{
    let before = mermaid_edges(result, n - 1);
    let relation = result.relations[n - 1].relation;
    match (node_name(result.anchors, relation.from), node_name(result.anchors, relation.to)) {
        (Some(from), Some(to)) => {
            let after = mermaid_line(from, to, mermaid_text(relation.kind), relation.bidirectional);
            lemma_holds(seq![], before, after, piece);
            assert(mermaid_edges(result, n) =~= before + after);
        },
        _ => {},
    }
}

proof fn lemma_mermaid_kept(result: QueryResultView, n: int, piece: Seq<char>)
    requires
        0 <= n <= result.relations.len(),
        holds_text(mermaid_nodes(result.anchors, result.anchors.len() as int), piece),
    ensures
        holds_text(mermaid_edges(result, n), piece),
    decreases n,
{
    if n > 0 {
        lemma_mermaid_kept(result, n - 1, piece);
        lemma_mermaid_grows(result, n, piece);
    }
}

proof fn lemma_mermaid_edge(
    result: QueryResultView,
    n: int,
    j: int,
    from: Seq<char>,
    to: Seq<char>,
)
    requires
        0 <= j < n <= result.relations.len(),
        node_name(result.anchors, result.relations[j].relation.from) == Some(from),
        node_name(result.anchors, result.relations[j].relation.to) == Some(to),
        is_unquoted(result.relations[j].relation.kind),
    ensures
        holds_text(
            mermaid_edges(result, n),
            mermaid_line(
                from,
                to,
                result.relations[j].relation.kind,
                result.relations[j].relation.bidirectional,
            ),
        ),
    decreases n,
{
    let relation = result.relations[j].relation;
    let piece = mermaid_line(from, to, relation.kind, relation.bidirectional);
    if j == n - 1 {
        lemma_unquoted(relation.kind);
        let before = mermaid_edges(result, n - 1);
        assert(mermaid_edges(result, n) =~= before + piece + seq![]);
        lemma_found(mermaid_edges(result, n), before, piece, seq![]);
    } else {
        lemma_mermaid_edge(result, n - 1, j, from, to);
        lemma_mermaid_grows(result, n, piece);
    }
}

/// The graph of a query in the Mermaid language has a node for every anchor, and an edge between
/// the nodes of its anchors for every relation between anchors of the query.
pub proof fn mermaid_graphs_show_the_query(
    result: QueryResultView,
    i: int,
    j: int,
    a: int,
    b: int,
)
    requires
        forall|x: int, y: int|
            0 <= x < y < result.anchors.len() ==> (#[trigger] result.anchors[x]).id != (
            #[trigger] result.anchors[y]).id,
        0 <= i < result.anchors.len(),
        0 <= a < result.anchors.len(),
        0 <= b < result.anchors.len(),
        0 <= j < result.relations.len(),
        result.relations[j].relation.from == result.anchors[a].id,
        result.relations[j].relation.to == result.anchors[b].id,
        is_unquoted(result.anchors[i].id),
        is_unquoted(result.relations[j].relation.kind),
    ensures
        holds_text(
            mermaid_edges(result, result.relations.len() as int),
            "  a"@ + decimal(i as nat) + "[\""@ + result.anchors[i].id + "\"]\n"@,
        ),
        ({
            let relation = result.relations[j].relation;
            holds_text(
                mermaid_edges(result, result.relations.len() as int),
                "  "@ + ("a"@ + decimal(a as nat)) + " "@ + (if relation.bidirectional {
                    "<-->"@
                } else {
                    "-->"@
                }) + "|"@ + relation.kind + "| "@ + ("a"@ + decimal(b as nat)) + "\n"@,
            )
        }),
{
    let n = result.relations.len() as int;
    let m = result.anchors.len() as int;
    lemma_number(result.anchors, i, m);
    lemma_number(result.anchors, a, m);
    lemma_number(result.anchors, b, m);
    lemma_mermaid_node(result.anchors, m, i);
    lemma_mermaid_kept(
        result,
        n,
        "  a"@ + decimal(i as nat) + "[\""@ + result.anchors[i].id + "\"]\n"@,
    );
    lemma_mermaid_edge(result, n, j, "a"@ + decimal(a as nat), "a"@ + decimal(b as nat));
}

proof fn lemma_anchor_line(result: QueryResultView, n: int, i: int)
    requires
        0 <= i < n <= result.anchors.len(),
    ensures
        holds_text(anchor_lines(result, n), "  "@ + result.anchors[i].id + "\n"@),
    decreases n,
{
    let piece = "  "@ + result.anchors[i].id + "\n"@;
    let before = anchor_lines(result, n - 1);
    let last = "  "@ + result.anchors[n - 1].id + "\n"@;
    if i == n - 1 {
        lemma_holds_itself(piece);
        lemma_holds(before, piece, seq![], piece);
    } else {
        lemma_anchor_line(result, n - 1, i);
        lemma_holds(seq![], before, last, piece);
    }
}

proof fn lemma_strand_line(result: QueryResultView, n: int, i: int)
    requires
        0 <= i < n <= result.strands.len(),
    ensures
        holds_text(strand_lines(result, n), "  "@ + result.strands[i].id + "\n"@),
    decreases n,
{
    let piece = "  "@ + result.strands[i].id + "\n"@;
    let before = strand_lines(result, n - 1);
    let last = "  "@ + result.strands[n - 1].id + "\n"@;
    if i == n - 1 {
        lemma_holds_itself(piece);
        lemma_holds(before, piece, seq![], piece);
    } else {
        lemma_strand_line(result, n - 1, i);
        lemma_holds(seq![], before, last, piece);
    }
}

proof fn lemma_relation_line(result: QueryResultView, n: int, i: int)
    requires
        0 <= i < n <= result.relations.len(),
    ensures
        ({
            let relation = result.relations[i].relation;
            holds_text(
                relation_lines(result, n),
                "  "@ + relation.from + " -["@ + relation.kind + "]-> "@ + relation.to + "\n"@,
            )
        }),
    decreases n,
{
    let relation = result.relations[i].relation;
    let piece = "  "@ + relation.from + " -["@ + relation.kind + "]-> "@ + relation.to + "\n"@;
    let before = relation_lines(result, n - 1);
    let other = result.relations[n - 1].relation;
    let last = "  "@ + other.from + " -["@ + other.kind + "]-> "@ + other.to + "\n"@;
    if i == n - 1 {
        lemma_holds_itself(piece);
        lemma_holds(before, piece, seq![], piece);
    } else {
        lemma_relation_line(result, n - 1, i);
        lemma_holds(seq![], before, last, piece);
    }
}

/// What is printed of a query has a line for every anchor that it shows.
pub proof fn queries_print_their_anchors(result: QueryResultView, i: int)
    requires
        0 <= i < result.anchors.len(),
    ensures
        holds_text(query_text(result), "  "@ + result.anchors[i].id + "\n"@),
{
    let piece = "  "@ + result.anchors[i].id + "\n"@;
    let n = result.anchors.len() as int;
    let before = "Anchors ("@ + decimal(result.anchors.len()) + "):\n"@;
    let after = ("Strands ("@ + decimal(result.strands.len()) + "):\n"@) + strand_lines(
        result,
        result.strands.len() as int,
    ) + ("Relations ("@ + decimal(result.relations.len()) + "):\n"@) + relation_lines(
        result,
        result.relations.len() as int,
    );
    lemma_anchor_line(result, n, i);
    lemma_holds(before, anchor_lines(result, n), after, piece);
    assert(query_text(result) =~= before + anchor_lines(result, n) + after);
}

/// What is printed of a query has a line for every strand that it shows.
pub proof fn queries_print_their_strands(result: QueryResultView, i: int)
    requires
        0 <= i < result.strands.len(),
    ensures
        holds_text(query_text(result), "  "@ + result.strands[i].id + "\n"@),
{
    let piece = "  "@ + result.strands[i].id + "\n"@;
    let n = result.strands.len() as int;
    let before = "Anchors ("@ + decimal(result.anchors.len()) + "):\n"@ + anchor_lines(
        result,
        result.anchors.len() as int,
    ) + ("Strands ("@ + decimal(result.strands.len()) + "):\n"@);
    let after = ("Relations ("@ + decimal(result.relations.len()) + "):\n"@) + relation_lines(
        result,
        result.relations.len() as int,
    );
    lemma_strand_line(result, n, i);
    lemma_holds(before, strand_lines(result, n), after, piece);
    assert(query_text(result) =~= before + strand_lines(result, n) + after);
}

/// What is printed of a query has a line for every relation that it shows.
pub proof fn queries_print_their_relations(result: QueryResultView, i: int)
    requires
        0 <= i < result.relations.len(),
    ensures
        ({
            let relation = result.relations[i].relation;
            holds_text(
                query_text(result),
                "  "@ + relation.from + " -["@ + relation.kind + "]-> "@ + relation.to + "\n"@,
            )
        }),
{
    let relation = result.relations[i].relation;
    let piece = "  "@ + relation.from + " -["@ + relation.kind + "]-> "@ + relation.to + "\n"@;
    let n = result.relations.len() as int;
    let before = "Anchors ("@ + decimal(result.anchors.len()) + "):\n"@ + anchor_lines(
        result,
        result.anchors.len() as int,
    ) + ("Strands ("@ + decimal(result.strands.len()) + "):\n"@) + strand_lines(
        result,
        result.strands.len() as int,
    ) + ("Relations ("@ + decimal(result.relations.len()) + "):\n"@);
    lemma_relation_line(result, n, i);
    lemma_holds(before, relation_lines(result, n), seq![], piece);
}

proof fn lemma_diagnostic(diagnostics: Seq<DiagnosticView>, n: int, i: int)
    requires
        0 <= i < n <= diagnostics.len(),
    ensures
        holds_text(diagnostics_text(diagnostics, n), diagnostic_text(diagnostics[i])),
    decreases n,
{
    let piece = diagnostic_text(diagnostics[i]);
    let before = diagnostics_text(diagnostics, n - 1);
    if i == n - 1 {
        lemma_holds_itself(piece);
        lemma_holds(before, piece, seq![], piece);
    } else {
        lemma_diagnostic(diagnostics, n - 1, i);
        lemma_holds(seq![], before, diagnostic_text(diagnostics[n - 1]), piece);
    }
}

proof fn lemma_within(text: Seq<char>, middle: Seq<char>, piece: Seq<char>)
    requires
        holds_text(text, middle),
        holds_text(middle, piece),
    ensures
        holds_text(text, piece),
{
    let at = choose|at: int|
        0 <= at && at + middle.len() <= text.len() && #[trigger] text.subrange(
            at,
            at + middle.len(),
        ) == middle;
    let before = text.subrange(0, at);
    let after = text.subrange(at + middle.len(), text.len() as int);
    lemma_holds(before, middle, after, piece);
    assert(text =~= before + middle + after);
}

/// What is printed of a check tells everything that is the matter: its code, its message, and
/// the hint where there is one.
pub proof fn checks_print_everything_wrong(index: IndexView, i: int)
    requires
        0 <= i < index.diagnostics.len(),
    ensures
        ({
            let x = index.diagnostics[i];
            &&& holds_text(check_text(index), " ["@ + x.code + "] "@)
            &&& holds_text(check_text(index), x.message + "\n"@)
            &&& x.hint matches Some(hint) ==> holds_text(
                check_text(index),
                "  hint: "@ + hint + "\n"@,
            )
        }),
{
    let x = index.diagnostics[i];
    let n = index.diagnostics.len() as int;
    let whole = check_text(index);
    let piece = diagnostic_text(x);
    lemma_diagnostic(index.diagnostics, n, i);
    let all = diagnostics_text(index.diagnostics, n);
    let rest = whole.subrange(all.len() as int, whole.len() as int);
    assert(whole =~= all + rest);
    lemma_holds(seq![], all, rest, piece);
    let name = crate::context_output::severity_name(x.severity);
    let place = crate::summaries::diagnostic_place(x);
    let code = " ["@ + x.code + "] "@;
    let message = x.message + "\n"@;
    let hint = match x.hint {
        Some(hint) => "  hint: "@ + hint + "\n"@,
        None => seq![],
    };
    assert(piece =~= name + code + (place + message + hint));
    lemma_found(piece, name, code, place + message + hint);
    assert(piece =~= (name + code + place) + message + hint);
    lemma_found(piece, name + code + place, message, hint);
    assert(piece =~= (name + code + place + message) + hint + seq![]);
    lemma_found(piece, name + code + place + message, hint, seq![]);
    lemma_within(whole, piece, code);
    lemma_within(whole, piece, message);
    lemma_within(whole, piece, hint);
}

proof fn lemma_member(anchors: Seq<AffectedAnchorView>, n: int, i: int)
    requires
        0 <= i < n <= anchors.len(),
    ensures
        holds_text(members_text(anchors, n), member_text(anchors[i])),
    decreases n,
{
    let piece = member_text(anchors[i]);
    let before = members_text(anchors, n - 1);
    if i == n - 1 {
        lemma_holds_itself(piece);
        lemma_holds(before, piece, seq![], piece);
    } else {
        lemma_member(anchors, n - 1, i);
        lemma_holds(seq![], before, member_text(anchors[n - 1]), piece);
    }
}

proof fn lemma_told_strand(strands: Seq<AffectedStrandView>, n: int, i: int)
    requires
        0 <= i < n <= strands.len(),
    ensures
        holds_text(affected_strands_text(strands, n), affected_strand_text(strands[i])),
    decreases n,
{
    let piece = affected_strand_text(strands[i]);
    let before = affected_strands_text(strands, n - 1);
    if i == n - 1 {
        lemma_holds_itself(piece);
        lemma_holds(before, piece, seq![], piece);
    } else {
        lemma_told_strand(strands, n - 1, i);
        lemma_holds(seq![], before, affected_strand_text(strands[n - 1]), piece);
    }
}

proof fn lemma_told(packet: ContextPacketView, i: int)
    requires
        0 <= i < packet.strands.len(),
    ensures
        holds_text(context_text(packet), affected_strand_text(packet.strands[i])),
{
    let n = packet.strands.len() as int;
    let piece = affected_strand_text(packet.strands[i]);
    let all = affected_strands_text(packet.strands, n);
    let head = "Affected strands: "@ + decimal(packet.strands.len()) + "\n"@;
    lemma_told_strand(packet.strands, n, i);
    lemma_holds(head, all, seq![], piece);
    let part = strands_part(packet.strands);
    assert(part =~= head + all);
    let before = "Changes: "@ + packet.changes.description + " ("@ + decimal(
        packet.changes.files.len(),
    ) + " files)\n"@;
    let after = related_part(packet.related_anchors) + crate::summaries::unmatched_part(
        packet.unmatched_files,
    ) + crate::summaries::diagnostics_part(packet.diagnostics);
    assert(context_text(packet) =~= before + part + after);
    lemma_holds(before, part, after, piece);
}

/// What is printed of a context tells every strand that is reached, with its intent.
pub proof fn contexts_print_their_strands(packet: ContextPacketView, i: int)
    requires
        0 <= i < packet.strands.len(),
    ensures
        holds_text(
            context_text(packet),
            " "@ + packet.strands[i].id + " — "@ + packet.strands[i].intent + "\n"@,
        ),
{
    let strand = packet.strands[i];
    lemma_told(packet, i);
    let mark = if strand.direct {
        "*"@
    } else {
        "-"@
    };
    let piece = " "@ + strand.id + " — "@ + strand.intent + "\n"@;
    let members = members_text(strand.anchors, strand.anchors.len() as int);
    let text = affected_strand_text(strand);
    assert(text =~= mark + piece + members);
    lemma_found(text, mark, piece, members);
    lemma_within(context_text(packet), text, piece);
}

/// What is printed of a context tells every member of a strand that is reached, and why it is.
pub proof fn contexts_print_their_members(packet: ContextPacketView, i: int, j: int)
    requires
        0 <= i < packet.strands.len(),
        0 <= j < packet.strands[i].anchors.len(),
    ensures
        holds_text(context_text(packet), ": "@ + packet.strands[i].anchors[j].id + " ("@),
        holds_text(context_text(packet), ") — "@ + packet.strands[i].anchors[j].reason + "\n"@),
{
    let strand = packet.strands[i];
    let anchor = strand.anchors[j];
    let n = strand.anchors.len() as int;
    let whole = context_text(packet);
    lemma_told(packet, i);
    lemma_member(strand.anchors, n, j);
    let text = affected_strand_text(strand);
    let members = members_text(strand.anchors, n);
    let mark = if strand.direct {
        "*"@
    } else {
        "-"@
    };
    let head = mark + " "@ + strand.id + " — "@ + strand.intent + "\n"@;
    assert(text =~= head + members);
    let member = member_text(anchor);
    lemma_holds(head, members, seq![], member);
    lemma_within(whole, text, member);
    let direct = if anchor.direct {
        "!"@
    } else {
        " "@
    };
    let role = match anchor.role {
        Some(role) => role,
        None => "member"@,
    };
    let front = "  "@ + direct + " "@ + role;
    let place = crate::context_output::anchor_place(anchor);
    let name = ": "@ + anchor.id + " ("@;
    let reason = ") — "@ + anchor.reason + "\n"@;
    assert(member =~= front + name + (place + reason));
    lemma_found(member, front, name, place + reason);
    assert(member =~= (front + name + place) + reason + seq![]);
    lemma_found(member, front + name + place, reason, seq![]);
    lemma_within(whole, member, name);
    lemma_within(whole, member, reason);
}

proof fn lemma_related(anchors: Seq<AffectedAnchorView>, n: int, i: int)
    requires
        0 <= i < n <= anchors.len(),
    ensures
        holds_text(relateds_text(anchors, n), related_text(anchors[i])),
    decreases n,
{
    let piece = related_text(anchors[i]);
    let before = relateds_text(anchors, n - 1);
    if i == n - 1 {
        lemma_holds_itself(piece);
        lemma_holds(before, piece, seq![], piece);
    } else {
        lemma_related(anchors, n - 1, i);
        lemma_holds(seq![], before, related_text(anchors[n - 1]), piece);
    }
}

/// What is printed of a context tells every anchor that is reached outside the strands.
pub proof fn contexts_print_their_related_anchors(packet: ContextPacketView, i: int)
    requires
        0 <= i < packet.related_anchors.len(),
    ensures
        holds_text(context_text(packet), "  "@ + packet.related_anchors[i].id + " ("@),
{
    let anchors = packet.related_anchors;
    let n = anchors.len() as int;
    let text = related_text(anchors[i]);
    let piece = "  "@ + anchors[i].id + " ("@;
    let rest = crate::context_output::anchor_place(anchors[i]) + ") — "@ + anchors[i].reason
        + "\n"@;
    assert(text =~= seq![] + piece + rest);
    lemma_found(text, seq![], piece, rest);
    lemma_related(anchors, n, i);
    lemma_within(relateds_text(anchors, n), text, piece);
    let head = "Related anchors: "@ + decimal(anchors.len()) + "\n"@;
    lemma_holds(head, relateds_text(anchors, n), seq![], piece);
    let part = related_part(anchors);
    assert(part =~= head + relateds_text(anchors, n));
    let before = "Changes: "@ + packet.changes.description + " ("@ + decimal(
        packet.changes.files.len(),
    ) + " files)\n"@ + strands_part(packet.strands);
    let after = crate::summaries::unmatched_part(packet.unmatched_files)
        + crate::summaries::diagnostics_part(packet.diagnostics);
    assert(context_text(packet) =~= before + part + after);
    lemma_holds(before, part, after, piece);
}

proof fn lemma_disposition(review: ReviewView, n: int, i: int)
    requires
        0 <= i < n <= ordered(review.anchors).len(),
    ensures
        holds_text(
            dispositions_text(review, n),
            disposition_text(review, ordered(review.anchors)[i]),
        ),
    decreases n,
{
    let all = ordered(review.anchors);
    let piece = disposition_text(review, all[i]);
    let before = dispositions_text(review, n - 1);
    if i == n - 1 {
        lemma_holds_itself(piece);
        lemma_holds(before, piece, seq![], piece);
    } else {
        lemma_disposition(review, n - 1, i);
        lemma_holds(seq![], before, disposition_text(review, all[n - 1]), piece);
    }
}

/// What is printed of a review tells of every anchor in it what was decided, or that a decision
/// is pending and whether it is required.
pub proof fn reviews_print_every_anchor(review: ReviewView, anchor: Seq<char>)
    requires
        review.anchors.finite(),
        review.anchors.contains(anchor),
    ensures
        holds_text(
            review_text(review),
            "  "@ + anchor + (if review.dispositions.contains_key(anchor) {
                ": "@ + review.dispositions[anchor].disposition + "\n"@
            } else if review.required_anchors.contains(anchor) {
                ": pending (required)\n"@
            } else {
                ": pending (optional)\n"@
            }),
        ),
{
    lemma_orderable(review.anchors);
    let all = ordered(review.anchors);
    let n = all.len() as int;
    let i = all.index_of(anchor);
    lemma_disposition(review, n, i);
    let whole = review_text(review);
    let part = dispositions_text(review, n);
    let head = whole.subrange(0, whole.len() - part.len());
    assert(whole =~= head + part);
    lemma_holds(head, part, seq![], disposition_text(review, anchor));
    let piece = "  "@ + anchor + (if review.dispositions.contains_key(anchor) {
        ": "@ + review.dispositions[anchor].disposition + "\n"@
    } else if review.required_anchors.contains(anchor) {
        ": pending (required)\n"@
    } else {
        ": pending (optional)\n"@
    });
    assert(disposition_text(review, anchor) =~= piece);
}

} // verus!

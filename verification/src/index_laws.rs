//! What holds of every graph that metadata files and annotations make.

use vstd::prelude::*;

use crate::config::ScanConfigView;
use crate::globs::one_matches;
use crate::index::{
    completed_graph, end_problem, first_memberships, first_relations, graph_of, graph_problems,
    has_indexed_relation, has_membership, insert_diagnostic, insert_membership, insert_relation,
    is_metadata, listed_files, member_problems, membership_less, merged_anchor, naming, option_less,
    relation_less, relation_problems, said_at, same_membership, same_relation, sort_diagnostics,
    sort_memberships, sort_relations, stated_graph, with_source_anchor, with_strand_item, GraphView,
    SourceEntryView,
};
use crate::metadata::{LoadedMetadataView, MetadataItemView};
use crate::model::{
    AnchorView, DiagnosticView, IndexedMemberView, IndexedRelationView, IndexedView, Severity,
    SourceDocumentView, StrandView,
};
use crate::text::{
    lemma_text_less_irreflexive, lemma_text_less_total, lemma_text_less_transitive, text_less,
};

verus! {

proof fn lemma_push_contains<T>(all: Seq<T>, last: T, x: T)
    ensures
        all.push(last).contains(x) == (all.contains(x) || last == x),
{
    let more = all.push(last);
    if all.contains(x) {
        let k = all.index_of(x);
        assert(more[k] == x);
    }
    if last == x {
        assert(more[all.len() as int] == x);
    }
    if more.contains(x) {
        let k = more.index_of(x);
        if k < all.len() {
            assert(all[k] == x);
        }
    }
}

proof fn lemma_add_contains<T>(a: Seq<T>, b: Seq<T>, x: T)
    ensures
        (a + b).contains(x) == (a.contains(x) || b.contains(x)),
{
    let both = a + b;
    if a.contains(x) {
        let k = a.index_of(x);
        assert(both[k] == x);
    }
    if b.contains(x) {
        let k = b.index_of(x);
        assert(both[a.len() + k] == x);
    }
    if both.contains(x) {
        let k = both.index_of(x);
        if k < a.len() {
            assert(a[k] == x);
        } else {
            assert(b[k - a.len()] == x);
        }
    }
}

proof fn lemma_insert_diagnostic_contains(
    sorted: Seq<DiagnosticView>,
    x: DiagnosticView,
    y: DiagnosticView,
)
    ensures
        insert_diagnostic(sorted, x).contains(y) == (sorted.contains(y) || x == y),
    decreases sorted.len(),
{
    lemma_push_contains(sorted, x, y);
    if sorted.len() > 0 {
        let front = sorted.drop_last();
        assert(sorted =~= front.push(sorted.last()));
        lemma_insert_diagnostic_contains(front, x, y);
        lemma_push_contains(insert_diagnostic(front, x), sorted.last(), y);
        lemma_push_contains(front, sorted.last(), y);
    }
}

/// Putting what is said in order keeps it.
pub proof fn sorting_keeps_what_is_said(all: Seq<DiagnosticView>, x: DiagnosticView)
    ensures
        sort_diagnostics(all).contains(x) == all.contains(x),
        sort_diagnostics(all).len() == all.len(),
    decreases all.len(),
{
    if all.len() > 0 {
        let front = all.drop_last();
        assert(all =~= front.push(all.last()));
        sorting_keeps_what_is_said(front, x);
        lemma_insert_diagnostic_contains(sort_diagnostics(front), all.last(), x);
        lemma_insert_diagnostic_len(sort_diagnostics(front), all.last());
        lemma_push_contains(front, all.last(), x);
    }
}

proof fn lemma_insert_diagnostic_len(sorted: Seq<DiagnosticView>, x: DiagnosticView)
    ensures
        insert_diagnostic(sorted, x).len() == sorted.len() + 1,
    decreases sorted.len(),
{
    if sorted.len() > 0 {
        lemma_insert_diagnostic_len(sorted.drop_last(), x);
    }
}

proof fn lemma_member_said(
    strands: Set<Seq<char>>,
    anchors: Set<Seq<char>>,
    memberships: Seq<IndexedMemberView>,
    n: int,
    i: int,
)
    requires
        0 <= i < n <= memberships.len(),
        !anchors.contains(memberships[i].member.anchor),
    ensures
        member_problems(strands, anchors, memberships, n).contains(
            unknown_anchor(memberships[i]),
        ),
    decreases n,
{
    let before = member_problems(strands, anchors, memberships, n - 1);
    let now = member_problems(strands, anchors, memberships, n);
    let said = unknown_anchor(memberships[i]);
    if i < n - 1 {
        lemma_member_said(strands, anchors, memberships, n - 1, i);
        let k = before.index_of(said);
        assert(now[k] == said);
    } else {
        let m = memberships[i];
        let first = before + crate::index::removed_attribute(
            m.member.attributes,
            "rationale"@,
            "member"@,
            m.member.anchor,
            m.provenance,
        ) + crate::index::removed_attribute(
            m.member.attributes,
            "reason"@,
            "member"@,
            m.member.anchor,
            m.provenance,
        );
        assert(now[first.len() as int] == said);
    }
}

/// What is said of a membership of an anchor that is not known.
pub open spec fn unknown_anchor(m: IndexedMemberView) -> DiagnosticView {
    said_at(
        Severity::Error,
        "unresolved-anchor"@,
        naming("unknown anchor "@, m.member.anchor, ""@),
        m.provenance,
    )
}

/// What is said of a relation to an anchor that is not known.
pub open spec fn unknown_end(r: IndexedRelationView, anchor: Seq<char>) -> DiagnosticView {
    said_at(
        Severity::Error,
        "unresolved-relation-anchor"@,
        naming("relationship references unknown anchor "@, anchor, ""@),
        r.provenance,
    )
}

proof fn lemma_relation_said(
    anchors: Set<Seq<char>>,
    relations: Seq<IndexedRelationView>,
    n: int,
    i: int,
)
    requires
        0 <= i < n <= relations.len(),
    ensures
        !anchors.contains(relations[i].relation.from) ==> relation_problems(
            anchors,
            relations,
            n,
        ).contains(unknown_end(relations[i], relations[i].relation.from)),
        !anchors.contains(relations[i].relation.to) ==> relation_problems(
            anchors,
            relations,
            n,
        ).contains(unknown_end(relations[i], relations[i].relation.to)),
    decreases n,
{
    let before = relation_problems(anchors, relations, n - 1);
    let now = relation_problems(anchors, relations, n);
    let r = relations[i];
    let from = unknown_end(r, r.relation.from);
    let to = unknown_end(r, r.relation.to);
    if i < n - 1 {
        lemma_relation_said(anchors, relations, n - 1, i);
        if !anchors.contains(r.relation.from) {
            let k = before.index_of(from);
            assert(now[k] == from);
        }
        if !anchors.contains(r.relation.to) {
            let k = before.index_of(to);
            assert(now[k] == to);
        }
    } else {
        let first = before + crate::index::removed_attribute(
            r.relation.attributes,
            "rationale"@,
            "relation"@,
            r.relation.kind,
            r.provenance,
        ) + crate::index::removed_attribute(
            r.relation.attributes,
            "reason"@,
            "relation"@,
            r.relation.kind,
            r.provenance,
        );
        let second = first + end_problem(anchors, r.relation.from, r.provenance);
        if !anchors.contains(r.relation.from) {
            assert(now[first.len() as int] == from);
        }
        if !anchors.contains(r.relation.to) {
            assert(now[second.len() as int] == to);
        }
    }
}

proof fn lemma_completed(g: GraphView)
    ensures
        completed_graph(g).memberships == g.memberships,
        completed_graph(g).relations == g.relations,
{
    lemma_implicit(
        GraphView { anchors: crate::index::all_placed(g.anchors), ..g },
        g.memberships.len() as int,
    );
}

proof fn lemma_implicit(g: GraphView, n: int)
    ensures
        crate::index::with_implicit_strands(g, n).memberships == g.memberships,
        crate::index::with_implicit_strands(g, n).relations == g.relations,
    decreases n,
{
    if n > 0 {
        lemma_implicit(g, n - 1);
    }
}

/// A membership of an anchor that nothing else makes known is told as an error, so that a
/// misspelt id does not weaken the graph unnoticed.
pub proof fn unknown_members_are_errors(
    root: Seq<char>,
    loaded: LoadedMetadataView,
    documents: Map<Seq<char>, SourceDocumentView>,
    m: IndexedMemberView,
)
    requires
        stated_graph(root, loaded, documents).memberships.contains(m),
        !graph_of(root, loaded, documents).anchors.contains_key(m.member.anchor),
    ensures
        graph_of(root, loaded, documents).diagnostics.contains(unknown_anchor(m)),
{
    let g = completed_graph(stated_graph(root, loaded, documents));
    lemma_completed(stated_graph(root, loaded, documents));
    let i = g.memberships.index_of(m);
    lemma_member_said(
        g.strands.dom(),
        g.anchors.dom(),
        g.memberships,
        g.memberships.len() as int,
        i,
    );
    let members = member_problems(
        g.strands.dom(),
        g.anchors.dom(),
        g.memberships,
        g.memberships.len() as int,
    );
    let relations = relation_problems(
        g.anchors.dom(),
        g.relations,
        g.relations.len() as int,
    );
    let said = unknown_anchor(m);
    lemma_add_contains(members, relations, said);
    let problems = graph_problems(g.strands.dom(), g.anchors.dom(), g.memberships, g.relations);
    lemma_add_contains(g.diagnostics, problems, said);
    sorting_keeps_what_is_said(g.diagnostics + problems, said);
}

/// A relation to or from an anchor that nothing else makes known is told as an error.
pub proof fn unknown_ends_are_errors(
    root: Seq<char>,
    loaded: LoadedMetadataView,
    documents: Map<Seq<char>, SourceDocumentView>,
    r: IndexedRelationView,
    anchor: Seq<char>,
)
    requires
        stated_graph(root, loaded, documents).relations.contains(r),
        anchor == r.relation.from || anchor == r.relation.to,
        !graph_of(root, loaded, documents).anchors.contains_key(anchor),
    ensures
        graph_of(root, loaded, documents).diagnostics.contains(unknown_end(r, anchor)),
{
    let g = completed_graph(stated_graph(root, loaded, documents));
    lemma_completed(stated_graph(root, loaded, documents));
    let i = g.relations.index_of(r);
    lemma_relation_said(g.anchors.dom(), g.relations, g.relations.len() as int, i);
    let members = member_problems(
        g.strands.dom(),
        g.anchors.dom(),
        g.memberships,
        g.memberships.len() as int,
    );
    let relations = relation_problems(
        g.anchors.dom(),
        g.relations,
        g.relations.len() as int,
    );
    let said = unknown_end(r, anchor);
    lemma_add_contains(members, relations, said);
    let problems = graph_problems(g.strands.dom(), g.anchors.dom(), g.memberships, g.relations);
    lemma_add_contains(g.diagnostics, problems, said);
    sorting_keeps_what_is_said(g.diagnostics + problems, said);
}

proof fn lemma_first_memberships(all: Seq<IndexedMemberView>, n: int)
    requires
        0 <= n <= all.len(),
    ensures
        forall|i: int, j: int|
            0 <= i < j < first_memberships(all, n).len() ==> !same_membership(
                #[trigger] first_memberships(all, n)[i],
                #[trigger] first_memberships(all, n)[j],
            ),
        forall|k: int| 0 <= k < n ==> has_membership(first_memberships(all, n), #[trigger] all[k]),
    decreases n,
{
    if n > 0 {
        lemma_first_memberships(all, n - 1);
        let before = first_memberships(all, n - 1);
        let now = first_memberships(all, n);
        assert forall|i: int, j: int| 0 <= i < j < now.len() implies !same_membership(
            #[trigger] now[i],
            #[trigger] now[j],
        ) by {
            assert(now[i] == before[i]);
            if j < before.len() {
                assert(now[j] == before[j]);
            } else {
                assert(!same_membership(before[i], all[n - 1]));
            }
        }
        assert forall|k: int| 0 <= k < n implies has_membership(now, #[trigger] all[k]) by {
            if k < n - 1 {
                assert(has_membership(before, all[k]));
                let i = choose|i: int|
                    0 <= i < before.len() && same_membership(#[trigger] before[i], all[k]);
                assert(now[i] == before[i]);
            } else if !has_membership(before, all[k]) {
                assert(now[now.len() - 1] == all[k]);
            }
        }
    }
}

proof fn lemma_first_relations(all: Seq<IndexedRelationView>, n: int)
    requires
        0 <= n <= all.len(),
    ensures
        forall|i: int, j: int|
            0 <= i < j < first_relations(all, n).len() ==> !same_relation(
                #[trigger] first_relations(all, n)[i],
                #[trigger] first_relations(all, n)[j],
            ),
        forall|k: int|
            0 <= k < n ==> has_indexed_relation(first_relations(all, n), #[trigger] all[k]),
    decreases n,
{
    if n > 0 {
        lemma_first_relations(all, n - 1);
        let before = first_relations(all, n - 1);
        let now = first_relations(all, n);
        assert forall|i: int, j: int| 0 <= i < j < now.len() implies !same_relation(
            #[trigger] now[i],
            #[trigger] now[j],
        ) by {
            assert(now[i] == before[i]);
            if j < before.len() {
                assert(now[j] == before[j]);
            } else {
                assert(!same_relation(before[i], all[n - 1]));
            }
        }
        assert forall|k: int| 0 <= k < n implies has_indexed_relation(now, #[trigger] all[k]) by {
            if k < n - 1 {
                assert(has_indexed_relation(before, all[k]));
                let i = choose|i: int|
                    0 <= i < before.len() && same_relation(#[trigger] before[i], all[k]);
                assert(now[i] == before[i]);
            } else if !has_indexed_relation(before, all[k]) {
                assert(now[now.len() - 1] == all[k]);
            }
        }
    }
}

/// Texts that do not come before each other in a row do not do so as a whole.
proof fn lemma_texts_in_row(a: Option<Seq<char>>, b: Option<Seq<char>>, c: Option<Seq<char>>)
    ensures
        !option_less(a, b) && !option_less(b, c) ==> !option_less(a, c),
        option_less(a, b) ==> !option_less(b, a),
        a != b ==> option_less(a, b) || option_less(b, a),
{
    if a is Some && b is Some {
        lemma_text_less_total(a->0, b->0);
        if text_less(a->0, b->0) && text_less(b->0, a->0) {
            lemma_text_less_transitive(a->0, b->0, a->0);
            lemma_text_less_irreflexive(a->0);
        }
        if c is Some {
            lemma_text_less_total(b->0, c->0);
            if text_less(c->0, b->0) && text_less(b->0, a->0) {
                lemma_text_less_transitive(c->0, b->0, a->0);
            }
            if text_less(c->0, a->0) && text_less(a->0, c->0) {
                lemma_text_less_transitive(c->0, a->0, c->0);
                lemma_text_less_irreflexive(c->0);
            }
        }
    }
}

proof fn lemma_pushed<T>(all: Seq<T>, x: T, y: T)
    ensures
        all.push(x).contains(y) <==> all.contains(y) || y == x,
{
    let more = all.push(x);
    if more.contains(y) {
        let k = more.index_of(y);
        if k < all.len() {
            assert(all[k] == y);
        }
    }
    if all.contains(y) {
        let k = all.index_of(y);
        assert(more[k] == y);
    }
    assert(more[all.len() as int] == x);
}

proof fn lemma_membership_row(a: IndexedMemberView, b: IndexedMemberView, c: IndexedMemberView)
    ensures
        !membership_less(a, b) && !membership_less(b, c) ==> !membership_less(a, c),
        membership_less(a, b) ==> !membership_less(b, a),
{
    let x = a.provenance;
    let y = b.provenance;
    let z = c.provenance;
    lemma_texts_in_row(x.path, y.path, z.path);
    lemma_texts_in_row(a.strand, b.strand, c.strand);
    lemma_texts_in_row(Some(a.member.anchor), Some(b.member.anchor), Some(c.member.anchor));
    lemma_texts_in_row(a.member.role, b.member.role, c.member.role);
}

/// Whether no membership comes before one that stands in front of it.
pub open spec fn memberships_in_order(all: Seq<IndexedMemberView>) -> bool {
    forall|i: int, j: int|
        0 <= i < j < all.len() ==> !membership_less(#[trigger] all[j], #[trigger] all[i])
}

proof fn lemma_membership_inserted(sorted: Seq<IndexedMemberView>, x: IndexedMemberView)
    requires
        memberships_in_order(sorted),
    ensures
        memberships_in_order(insert_membership(sorted, x)),
        forall|y: IndexedMemberView| #[trigger]
            insert_membership(sorted, x).contains(y) <==> sorted.contains(y) || y == x,
    decreases sorted.len(),
{
    let now = insert_membership(sorted, x);
    if sorted.len() == 0 || !membership_less(x, sorted.last()) {
        assert forall|i: int, j: int| 0 <= i < j < now.len() implies !membership_less(
            #[trigger] now[j],
            #[trigger] now[i],
        ) by {
            assert(now[i] == sorted[i]);
            if j < sorted.len() {
                assert(now[j] == sorted[j]);
            } else if i < sorted.len() - 1 {
                assert(!membership_less(sorted[sorted.len() - 1], sorted[i]));
                lemma_membership_row(x, sorted.last(), sorted[i]);
            }
        }
        assert forall|y: IndexedMemberView| #[trigger]
            now.contains(y) <==> sorted.contains(y) || y == x by {
            lemma_pushed(sorted, x, y);
        }
    } else {
        let front = sorted.drop_last();
        let last = sorted.last();
        lemma_membership_inserted(front, x);
        let before = insert_membership(front, x);
        assert forall|i: int, j: int| 0 <= i < j < now.len() implies !membership_less(
            #[trigger] now[j],
            #[trigger] now[i],
        ) by {
            assert(now[i] == before[i]);
            if j < before.len() {
                assert(now[j] == before[j]);
            } else {
                assert(before.contains(before[i]));
                if front.contains(before[i]) {
                    let k = front.index_of(before[i]);
                    assert(sorted[k] == before[i]);
                } else {
                    lemma_membership_row(x, last, x);
                }
            }
        }
        assert forall|y: IndexedMemberView| #[trigger]
            now.contains(y) <==> sorted.contains(y) || y == x by {
            lemma_pushed(before, last, y);
            assert(front.push(last) =~= sorted);
            lemma_pushed(front, last, y);
        }
    }
}

proof fn lemma_memberships_sorted(all: Seq<IndexedMemberView>)
    ensures
        memberships_in_order(sort_memberships(all)),
        forall|y: IndexedMemberView| #[trigger] sort_memberships(all).contains(y) <==> all.contains(y),
    decreases all.len(),
{
    if all.len() > 0 {
        lemma_memberships_sorted(all.drop_last());
        lemma_membership_inserted(sort_memberships(all.drop_last()), all.last());
        assert forall|y: IndexedMemberView| #[trigger]
            sort_memberships(all).contains(y) <==> all.contains(y) by {
            assert(all.drop_last().push(all.last()) =~= all);
            lemma_pushed(all.drop_last(), all.last(), y);
        }
    }
}

proof fn lemma_first_memberships_in_order(all: Seq<IndexedMemberView>, n: int)
    requires
        0 <= n <= all.len(),
        memberships_in_order(all),
    ensures
        memberships_in_order(first_memberships(all, n)),
        forall|i: int|
            0 <= i < first_memberships(all, n).len() ==> all.take(n).contains(
                #[trigger] first_memberships(all, n)[i],
            ),
    decreases n,
{
    if n > 0 {
        lemma_first_memberships_in_order(all, n - 1);
        let before = first_memberships(all, n - 1);
        let now = first_memberships(all, n);
        let x = all[n - 1];
        assert(all.take(n) =~= all.take(n - 1).push(x));
        assert forall|i: int| 0 <= i < now.len() implies all.take(n).contains(
            #[trigger] now[i],
        ) by {
            if i < before.len() {
                assert(now[i] == before[i]);
            }
            lemma_pushed(all.take(n - 1), x, now[i]);
        }
        assert forall|i: int, j: int| 0 <= i < j < now.len() implies !membership_less(
            #[trigger] now[j],
            #[trigger] now[i],
        ) by {
            assert(now[i] == before[i]);
            if j < before.len() {
                assert(now[j] == before[j]);
            } else {
                let k = all.take(n - 1).index_of(before[i]);
                assert(all[k] == before[i]);
            }
        }
    }
}

proof fn lemma_relation_row(a: IndexedRelationView, b: IndexedRelationView, c: IndexedRelationView)
    ensures
        !relation_less(a, b) && !relation_less(b, c) ==> !relation_less(a, c),
        relation_less(a, b) ==> !relation_less(b, a),
{
    let x = a.provenance;
    let y = b.provenance;
    let z = c.provenance;
    lemma_texts_in_row(x.path, y.path, z.path);
    lemma_texts_in_row(a.strand, b.strand, c.strand);
    lemma_texts_in_row(Some(a.relation.from), Some(b.relation.from), Some(c.relation.from));
    lemma_texts_in_row(Some(a.relation.to), Some(b.relation.to), Some(c.relation.to));
    lemma_texts_in_row(Some(a.relation.kind), Some(b.relation.kind), Some(c.relation.kind));
}

/// Whether no relation comes before one that stands in front of it.
pub open spec fn relations_in_order(all: Seq<IndexedRelationView>) -> bool {
    forall|i: int, j: int|
        0 <= i < j < all.len() ==> !relation_less(#[trigger] all[j], #[trigger] all[i])
}

proof fn lemma_relation_inserted(sorted: Seq<IndexedRelationView>, x: IndexedRelationView)
    requires
        relations_in_order(sorted),
    ensures
        relations_in_order(insert_relation(sorted, x)),
        forall|y: IndexedRelationView| #[trigger]
            insert_relation(sorted, x).contains(y) <==> sorted.contains(y) || y == x,
    decreases sorted.len(),
{
    let now = insert_relation(sorted, x);
    if sorted.len() == 0 || !relation_less(x, sorted.last()) {
        assert forall|i: int, j: int| 0 <= i < j < now.len() implies !relation_less(
            #[trigger] now[j],
            #[trigger] now[i],
        ) by {
            assert(now[i] == sorted[i]);
            if j < sorted.len() {
                assert(now[j] == sorted[j]);
            } else if i < sorted.len() - 1 {
                assert(!relation_less(sorted[sorted.len() - 1], sorted[i]));
                lemma_relation_row(x, sorted.last(), sorted[i]);
            }
        }
        assert forall|y: IndexedRelationView| #[trigger]
            now.contains(y) <==> sorted.contains(y) || y == x by {
            lemma_pushed(sorted, x, y);
        }
    } else {
        let front = sorted.drop_last();
        let last = sorted.last();
        lemma_relation_inserted(front, x);
        let before = insert_relation(front, x);
        assert forall|i: int, j: int| 0 <= i < j < now.len() implies !relation_less(
            #[trigger] now[j],
            #[trigger] now[i],
        ) by {
            assert(now[i] == before[i]);
            if j < before.len() {
                assert(now[j] == before[j]);
            } else {
                assert(before.contains(before[i]));
                if front.contains(before[i]) {
                    let k = front.index_of(before[i]);
                    assert(sorted[k] == before[i]);
                } else {
                    lemma_relation_row(x, last, x);
                }
            }
        }
        assert forall|y: IndexedRelationView| #[trigger]
            now.contains(y) <==> sorted.contains(y) || y == x by {
            lemma_pushed(before, last, y);
            assert(front.push(last) =~= sorted);
            lemma_pushed(front, last, y);
        }
    }
}

proof fn lemma_relations_sorted(all: Seq<IndexedRelationView>)
    ensures
        relations_in_order(sort_relations(all)),
        forall|y: IndexedRelationView| #[trigger] sort_relations(all).contains(y) <==> all.contains(y),
    decreases all.len(),
{
    if all.len() > 0 {
        lemma_relations_sorted(all.drop_last());
        lemma_relation_inserted(sort_relations(all.drop_last()), all.last());
        assert forall|y: IndexedRelationView| #[trigger]
            sort_relations(all).contains(y) <==> all.contains(y) by {
            assert(all.drop_last().push(all.last()) =~= all);
            lemma_pushed(all.drop_last(), all.last(), y);
        }
    }
}

proof fn lemma_first_relations_in_order(all: Seq<IndexedRelationView>, n: int)
    requires
        0 <= n <= all.len(),
        relations_in_order(all),
    ensures
        relations_in_order(first_relations(all, n)),
        forall|i: int|
            0 <= i < first_relations(all, n).len() ==> all.take(n).contains(
                #[trigger] first_relations(all, n)[i],
            ),
    decreases n,
{
    if n > 0 {
        lemma_first_relations_in_order(all, n - 1);
        let before = first_relations(all, n - 1);
        let now = first_relations(all, n);
        let x = all[n - 1];
        assert(all.take(n) =~= all.take(n - 1).push(x));
        assert forall|i: int| 0 <= i < now.len() implies all.take(n).contains(
            #[trigger] now[i],
        ) by {
            if i < before.len() {
                assert(now[i] == before[i]);
            }
            lemma_pushed(all.take(n - 1), x, now[i]);
        }
        assert forall|i: int, j: int| 0 <= i < j < now.len() implies !relation_less(
            #[trigger] now[j],
            #[trigger] now[i],
        ) by {
            assert(now[i] == before[i]);
            if j < before.len() {
                assert(now[j] == before[j]);
            } else {
                let k = all.take(n - 1).index_of(before[i]);
                assert(all[k] == before[i]);
            }
        }
    }
}

/// A graph has every edge that is stated and no other, none of them twice, and in order.
pub proof fn edges_are_kept_once(
    root: Seq<char>,
    loaded: LoadedMetadataView,
    documents: Map<Seq<char>, SourceDocumentView>,
)
    ensures
        ({
            let stated = stated_graph(root, loaded, documents);
            let graph = graph_of(root, loaded, documents);
            &&& forall|k: int|
                0 <= k < stated.memberships.len() ==> has_membership(
                    graph.memberships,
                    #[trigger] stated.memberships[k],
                )
            &&& forall|i: int, j: int|
                0 <= i < j < graph.memberships.len() ==> !same_membership(
                    #[trigger] graph.memberships[i],
                    #[trigger] graph.memberships[j],
                )
            &&& forall|i: int|
                0 <= i < graph.memberships.len() ==> stated.memberships.contains(
                    #[trigger] graph.memberships[i],
                )
            &&& memberships_in_order(graph.memberships)
            &&& forall|k: int|
                0 <= k < stated.relations.len() ==> has_indexed_relation(
                    graph.relations,
                    #[trigger] stated.relations[k],
                )
            &&& forall|i: int, j: int|
                0 <= i < j < graph.relations.len() ==> !same_relation(
                    #[trigger] graph.relations[i],
                    #[trigger] graph.relations[j],
                )
            &&& forall|i: int|
                0 <= i < graph.relations.len() ==> stated.relations.contains(
                    #[trigger] graph.relations[i],
                )
            &&& relations_in_order(graph.relations)
        }),
{
    let stated = stated_graph(root, loaded, documents);
    lemma_completed(stated);
    let ms = sort_memberships(stated.memberships);
    let rs = sort_relations(stated.relations);
    lemma_memberships_sorted(stated.memberships);
    lemma_relations_sorted(stated.relations);
    lemma_first_memberships(ms, ms.len() as int);
    lemma_first_relations(rs, rs.len() as int);
    lemma_first_memberships_in_order(ms, ms.len() as int);
    lemma_first_relations_in_order(rs, rs.len() as int);
    assert(ms.take(ms.len() as int) =~= ms);
    assert(rs.take(rs.len() as int) =~= rs);
    let graph = graph_of(root, loaded, documents);
    assert forall|k: int| 0 <= k < stated.memberships.len() implies has_membership(
        graph.memberships,
        #[trigger] stated.memberships[k],
    ) by {
        assert(stated.memberships.contains(stated.memberships[k]));
        assert(ms.contains(stated.memberships[k]));
        let at = ms.index_of(stated.memberships[k]);
        assert(has_membership(graph.memberships, ms[at]));
    }
    assert forall|k: int| 0 <= k < stated.relations.len() implies has_indexed_relation(
        graph.relations,
        #[trigger] stated.relations[k],
    ) by {
        assert(stated.relations.contains(stated.relations[k]));
        assert(rs.contains(stated.relations[k]));
        let at = rs.index_of(stated.relations[k]);
        assert(has_indexed_relation(graph.relations, rs[at]));
    }
}

/// Every file that is listed is selected and not too large: the metadata is never scanned, an
/// exclude pattern always applies, and include patterns, where there are any, admit nothing
/// else.
pub proof fn listed_files_are_selected(
    root: Seq<char>,
    metadata_dir: Seq<char>,
    scan: ScanConfigView,
    entries: Seq<SourceEntryView>,
    n: int,
    path: Seq<char>,
)
    requires
        listed_files(root, metadata_dir, scan, entries, n).0.contains_key(path),
    ensures
        !is_metadata(root, metadata_dir, path),
        scan.includes.len() > 0 ==> one_matches(scan.includes, path),
        !one_matches(scan.exclude, path),
        listed_files(root, metadata_dir, scan, entries, n).0[path].path == path,
        listed_files(root, metadata_dir, scan, entries, n).0[path].size <= scan.max_file_bytes,
    decreases n,
{
    if n > 0 && listed_files(root, metadata_dir, scan, entries, n - 1).0.contains_key(path) {
        listed_files_are_selected(root, metadata_dir, scan, entries, n - 1, path);
    }
}

/// An annotation tells where the anchor of a metadata file is now, and everything that the
/// file says of it stays.
pub proof fn annotations_locate_anchors(sidecar: AnchorView, source: AnchorView)
    ensures
        merged_anchor(sidecar, source).id == sidecar.id,
        source.location is Some ==> merged_anchor(sidecar, source).location == source.location,
        source.location is None ==> merged_anchor(sidecar, source).location == sidecar.location,
        sidecar.target is Some ==> merged_anchor(sidecar, source).target == sidecar.target,
        sidecar.kind is Some ==> merged_anchor(sidecar, source).kind == sidecar.kind,
        sidecar.tags.subset_of(merged_anchor(sidecar, source).tags),
        source.tags.subset_of(merged_anchor(sidecar, source).tags),
        merged_anchor(sidecar, source).attributes == sidecar.attributes,
{
}

/// Two strands with one id in metadata files are told as an error, and the first one stays.
pub proof fn duplicate_strands_are_errors(
    g: GraphView,
    root: Seq<char>,
    item: MetadataItemView<StrandView>,
)
    requires
        g.strands.contains_key(item.value.id),
    ensures
        with_strand_item(g, root, item).strands == g.strands,
        with_strand_item(g, root, item).diagnostics.len() > g.diagnostics.len(),
        with_strand_item(g, root, item).diagnostics.last().severity == Severity::Error,
        with_strand_item(g, root, item).diagnostics.last().code == "duplicate-strand"@,
{
}

/// Two annotations with one anchor id that stand at different places or name different targets
/// are told as an error, and the first one stays.
pub proof fn conflicting_annotations_are_errors(g: GraphView, indexed: IndexedView<AnchorView>)
    requires
        g.anchors.contains_key(indexed.value.id),
        g.anchors[indexed.value.id].provenance.source != "sidecar"@,
        g.anchors[indexed.value.id].value.location != crate::index::with_repository_path(
            indexed.value,
        ).location || g.anchors[indexed.value.id].value.target != indexed.value.target,
    ensures
        with_source_anchor(g, indexed).anchors == g.anchors,
        with_source_anchor(g, indexed).diagnostics.len() > g.diagnostics.len(),
        with_source_anchor(g, indexed).diagnostics.last().severity == Severity::Error,
        with_source_anchor(g, indexed).diagnostics.last().code == "duplicate-anchor"@,
{
}

} // verus!

//! What the graph has of what metadata files and annotations state.

use vstd::prelude::*;

use crate::collections::{lemma_orderable, ordered};
use crate::config::ScanConfigView;
use crate::globs::one_matches;
use crate::index::{
    completed_graph, current_strand, document_memberships, document_relations, global_links,
    graph_of, has_indexed_relation, has_membership, is_metadata, listed_files, located_among,
    located_in, same_membership, same_relation, sidecar_anchor, sidecar_links, sidecar_memberships,
    sidecar_source, sidecar_strand, source_strand, spoken_strand, stated_graph, stated_memberships,
    stated_relations, strand_among, strand_edges, strand_links, with_anchor_items, with_documents,
    with_implicit_strands, with_relation_items, with_source_anchors, with_source_strands,
    with_strand_items, GraphView, SourceEntryView,
};
use crate::index_laws::{edges_are_kept_once, sorting_keeps_what_is_said};
use crate::metadata::{LoadedMetadataView, MetadataItemView};
use crate::model::{
    AnchorView, DiagnosticView, IndexedMemberView, IndexedRelationView, IndexedView, MemberView,
    RelationView, Severity, SourceDocumentView, StrandView,
};
use crate::refresh_laws::{
    all_annotated, lemma_anchor_lookup, lemma_stated_edges, lemma_strand_lookup, lookup,
};
use crate::repo::relative_path;
use crate::text::is_blank;

verus! {

/// Whether a graph has a member in a strand, with its role.
pub open spec fn has_member_in(
    graph: GraphView,
    strand: Option<Seq<char>>,
    member: MemberView,
) -> bool {
    exists|i: int|
        0 <= i < graph.memberships.len() && (#[trigger] graph.memberships[i]).strand == strand
            && graph.memberships[i].member.anchor == member.anchor
            && graph.memberships[i].member.role == member.role
}

/// Whether a graph has a relation in a strand, or in none.
pub open spec fn has_relation_in(
    graph: GraphView,
    strand: Option<Seq<char>>,
    relation: RelationView,
) -> bool {
    exists|i: int|
        0 <= i < graph.relations.len() && (#[trigger] graph.relations[i]).strand == strand
            && graph.relations[i].relation.from == relation.from
            && graph.relations[i].relation.to == relation.to
            && graph.relations[i].relation.kind == relation.kind
}

proof fn lemma_sidecar_edges(
    root: Seq<char>,
    items: Seq<MetadataItemView<StrandView>>,
    n: int,
    k: int,
)
    requires
        0 <= k < n <= items.len(),
    ensures
        forall|j: int|
            0 <= j < items[k].value.members.len() ==> sidecar_memberships(root, items, n).contains(
                IndexedMemberView {
                    strand: Some(items[k].value.id),
                    member: #[trigger] items[k].value.members[j],
                    provenance: sidecar_source(root, items[k].path, items[k].line),
                },
            ),
        forall|j: int|
            0 <= j < items[k].value.relations.len() ==> sidecar_links(root, items, n).contains(
                IndexedRelationView {
                    strand: Some(items[k].value.id),
                    relation: #[trigger] items[k].value.relations[j],
                    provenance: sidecar_source(root, items[k].path, items[k].line),
                },
            ),
    decreases n,
{
    let item = items[n - 1];
    let from = sidecar_source(root, item.path, item.line);
    let a = sidecar_memberships(root, items, n - 1);
    let b = strand_edges(item.value, from);
    let c = sidecar_links(root, items, n - 1);
    let d = strand_links(item.value, from);
    let strand = items[k].value;
    let own = sidecar_source(root, items[k].path, items[k].line);
    if k < n - 1 {
        lemma_sidecar_edges(root, items, n - 1, k);
    }
    assert forall|j: int| 0 <= j < strand.members.len() implies (a + b).contains(
        IndexedMemberView {
            strand: Some(strand.id),
            member: #[trigger] strand.members[j],
            provenance: own,
        },
    ) by {
        let x = IndexedMemberView {
            strand: Some(strand.id),
            member: strand.members[j],
            provenance: own,
        };
        if k < n - 1 {
            assert(a.contains(x));
            let at = a.index_of(x);
            assert((a + b)[at] == x);
        } else {
            assert(b[j] == x);
            assert((a + b)[a.len() + j] == x);
        }
    }
    assert forall|j: int| 0 <= j < strand.relations.len() implies (c + d).contains(
        IndexedRelationView {
            strand: Some(strand.id),
            relation: #[trigger] strand.relations[j],
            provenance: own,
        },
    ) by {
        let x = IndexedRelationView {
            strand: Some(strand.id),
            relation: strand.relations[j],
            provenance: own,
        };
        if k < n - 1 {
            assert(c.contains(x));
            let at = c.index_of(x);
            assert((c + d)[at] == x);
        } else {
            assert(d[j] == x);
            assert((c + d)[c.len() + j] == x);
        }
    }
}

proof fn lemma_document_edges(documents: Map<Seq<char>, SourceDocumentView>, n: int, k: int)
    requires
        0 <= k < n,
    ensures
        ({
            let document = documents[ordered(documents.dom())[k]];
            &&& forall|j: int|
                0 <= j < document.memberships.len() ==> document_memberships(documents, n).contains(
                    #[trigger] document.memberships[j],
                )
            &&& forall|j: int|
                0 <= j < document.relations.len() ==> document_relations(documents, n).contains(
                    #[trigger] document.relations[j],
                )
        }),
    decreases n,
{
    let document = documents[ordered(documents.dom())[k]];
    let last = documents[ordered(documents.dom())[n - 1]];
    let a = document_memberships(documents, n - 1);
    let c = document_relations(documents, n - 1);
    if k < n - 1 {
        lemma_document_edges(documents, n - 1, k);
    }
    assert forall|j: int| 0 <= j < document.memberships.len() implies (a + last.memberships).contains(
        #[trigger] document.memberships[j],
    ) by {
        let x = document.memberships[j];
        if k < n - 1 {
            let at = a.index_of(x);
            assert((a + last.memberships)[at] == x);
        } else {
            assert((a + last.memberships)[a.len() + j] == x);
        }
    }
    assert forall|j: int| 0 <= j < document.relations.len() implies (c + last.relations).contains(
        #[trigger] document.relations[j],
    ) by {
        let x = document.relations[j];
        if k < n - 1 {
            let at = c.index_of(x);
            assert((c + last.relations)[at] == x);
        } else {
            assert((c + last.relations)[c.len() + j] == x);
        }
    }
}

proof fn lemma_behind<T>(a: Seq<T>, b: Seq<T>, x: T)
    ensures
        (a + b).contains(x) <==> a.contains(x) || b.contains(x),
{
    if a.contains(x) {
        let at = a.index_of(x);
        assert((a + b)[at] == x);
    }
    if b.contains(x) {
        let at = b.index_of(x);
        assert((a + b)[a.len() + at] == x);
    }
    if (a + b).contains(x) {
        let at = (a + b).index_of(x);
        if at < a.len() {
            assert(a[at] == x);
        } else {
            assert(b[at - a.len()] == x);
        }
    }
}

proof fn lemma_membership_kept(
    root: Seq<char>,
    loaded: LoadedMetadataView,
    documents: Map<Seq<char>, SourceDocumentView>,
    m: IndexedMemberView,
)
    requires
        stated_memberships(root, loaded, documents).contains(m),
    ensures
        has_member_in(graph_of(root, loaded, documents), m.strand, m.member),
{
    let graph = graph_of(root, loaded, documents);
    lemma_stated_edges(root, loaded, documents);
    edges_are_kept_once(root, loaded, documents);
    let stated = stated_graph(root, loaded, documents).memberships;
    let k = stated.index_of(m);
    assert(has_membership(graph.memberships, stated[k]));
    let i = choose|i: int|
        0 <= i < graph.memberships.len() && same_membership(#[trigger] graph.memberships[i], m);
    assert(graph.memberships[i].strand == m.strand);
}

proof fn lemma_relation_kept(
    root: Seq<char>,
    loaded: LoadedMetadataView,
    documents: Map<Seq<char>, SourceDocumentView>,
    r: IndexedRelationView,
)
    requires
        stated_relations(root, loaded, documents).contains(r),
    ensures
        has_relation_in(graph_of(root, loaded, documents), r.strand, r.relation),
{
    let graph = graph_of(root, loaded, documents);
    lemma_stated_edges(root, loaded, documents);
    edges_are_kept_once(root, loaded, documents);
    let stated = stated_graph(root, loaded, documents).relations;
    let k = stated.index_of(r);
    assert(has_indexed_relation(graph.relations, stated[k]));
    let i = choose|i: int|
        0 <= i < graph.relations.len() && same_relation(#[trigger] graph.relations[i], r);
    assert(graph.relations[i].strand == r.strand);
}

/// Every member and every relation of every strand of the metadata files is in the graph.
pub proof fn metadata_edges_are_in_the_graph(
    root: Seq<char>,
    loaded: LoadedMetadataView,
    documents: Map<Seq<char>, SourceDocumentView>,
    k: int,
)
    requires
        0 <= k < loaded.strands.len(),
    ensures
        ({
            let strand = loaded.strands[k].value;
            let graph = graph_of(root, loaded, documents);
            &&& forall|j: int|
                0 <= j < strand.members.len() ==> has_member_in(
                    graph,
                    Some(strand.id),
                    #[trigger] strand.members[j],
                )
            &&& forall|j: int|
                0 <= j < strand.relations.len() ==> has_relation_in(
                    graph,
                    Some(strand.id),
                    #[trigger] strand.relations[j],
                )
        }),
{
    let strand = loaded.strands[k].value;
    let graph = graph_of(root, loaded, documents);
    let n = loaded.strands.len() as int;
    let from = sidecar_source(root, loaded.strands[k].path, loaded.strands[k].line);
    let all = ordered(documents.dom()).len() as int;
    lemma_sidecar_edges(root, loaded.strands, n, k);
    assert forall|j: int| 0 <= j < strand.members.len() implies has_member_in(
        graph,
        Some(strand.id),
        #[trigger] strand.members[j],
    ) by {
        let x = IndexedMemberView {
            strand: Some(strand.id),
            member: strand.members[j],
            provenance: from,
        };
        lemma_behind(
            sidecar_memberships(root, loaded.strands, n),
            document_memberships(documents, all),
            x,
        );
        lemma_membership_kept(root, loaded, documents, x);
    }
    assert forall|j: int| 0 <= j < strand.relations.len() implies has_relation_in(
        graph,
        Some(strand.id),
        #[trigger] strand.relations[j],
    ) by {
        let x = IndexedRelationView {
            strand: Some(strand.id),
            relation: strand.relations[j],
            provenance: from,
        };
        let a = sidecar_links(root, loaded.strands, n);
        let b = global_links(root, loaded.relations);
        lemma_behind(a, b, x);
        lemma_behind(a + b, document_relations(documents, all), x);
        lemma_relation_kept(root, loaded, documents, x);
    }
}

/// Every relation of the metadata files that belongs to no strand is in the graph.
pub proof fn global_relations_are_in_the_graph(
    root: Seq<char>,
    loaded: LoadedMetadataView,
    documents: Map<Seq<char>, SourceDocumentView>,
    k: int,
)
    requires
        0 <= k < loaded.relations.len(),
    ensures
        has_relation_in(graph_of(root, loaded, documents), None, loaded.relations[k].value),
{
    let item = loaded.relations[k];
    let x = IndexedRelationView {
        strand: None,
        relation: item.value,
        provenance: sidecar_source(root, item.path, item.line),
    };
    let a = sidecar_links(root, loaded.strands, loaded.strands.len() as int);
    let b = global_links(root, loaded.relations);
    assert(b[k] == x);
    assert(b.contains(x));
    lemma_behind(a, b, x);
    lemma_behind(a + b, document_relations(documents, ordered(documents.dom()).len() as int), x);
    lemma_relation_kept(root, loaded, documents, x);
}

/// Every membership and every relation of every annotated file is in the graph.
pub proof fn annotated_edges_are_in_the_graph(
    root: Seq<char>,
    loaded: LoadedMetadataView,
    documents: Map<Seq<char>, SourceDocumentView>,
    path: Seq<char>,
)
    requires
        documents.dom().finite(),
        documents.contains_key(path),
    ensures
        ({
            let document = documents[path];
            let graph = graph_of(root, loaded, documents);
            &&& forall|j: int|
                0 <= j < document.memberships.len() ==> has_member_in(
                    graph,
                    (#[trigger] document.memberships[j]).strand,
                    document.memberships[j].member,
                )
            &&& forall|j: int|
                0 <= j < document.relations.len() ==> has_relation_in(
                    graph,
                    (#[trigger] document.relations[j]).strand,
                    document.relations[j].relation,
                )
        }),
{
    let document = documents[path];
    let graph = graph_of(root, loaded, documents);
    lemma_orderable(documents.dom());
    let paths = ordered(documents.dom());
    let n = paths.len() as int;
    assert(paths.to_set().contains(path));
    let k = paths.index_of(path);
    lemma_document_edges(documents, n, k);
    let a = sidecar_memberships(root, loaded.strands, loaded.strands.len() as int);
    let b = sidecar_links(root, loaded.strands, loaded.strands.len() as int) + global_links(
        root,
        loaded.relations,
    );
    assert forall|j: int| 0 <= j < document.memberships.len() implies has_member_in(
        graph,
        (#[trigger] document.memberships[j]).strand,
        document.memberships[j].member,
    ) by {
        lemma_behind(a, document_memberships(documents, n), document.memberships[j]);
        lemma_membership_kept(root, loaded, documents, document.memberships[j]);
    }
    assert forall|j: int| 0 <= j < document.relations.len() implies has_relation_in(
        graph,
        (#[trigger] document.relations[j]).strand,
        document.relations[j].relation,
    ) by {
        lemma_behind(b, document_relations(documents, n), document.relations[j]);
        lemma_relation_kept(root, loaded, documents, document.relations[j]);
    }
}

/// Whether a strand of a metadata file has a member.
pub open spec fn metadata_has_member(
    loaded: LoadedMetadataView,
    strand: Option<Seq<char>>,
    member: MemberView,
) -> bool {
    exists|k: int, j: int|
        0 <= k < loaded.strands.len() && 0 <= j < loaded.strands[k].value.members.len() && strand
            == Some(loaded.strands[k].value.id) && #[trigger] loaded.strands[k].value.members[j]
            == member
}

/// Whether an annotation states a membership.
pub open spec fn annotated_member(
    documents: Map<Seq<char>, SourceDocumentView>,
    strand: Option<Seq<char>>,
    member: MemberView,
) -> bool {
    exists|path: Seq<char>, j: int|
        documents.contains_key(path) && 0 <= j < documents[path].memberships.len() && (
        #[trigger] documents[path].memberships[j]).strand == strand
            && documents[path].memberships[j].member == member
}

proof fn lemma_sidecar_member(
    root: Seq<char>,
    loaded: LoadedMetadataView,
    n: int,
    x: IndexedMemberView,
)
    requires
        0 <= n <= loaded.strands.len(),
        sidecar_memberships(root, loaded.strands, n).contains(x),
    ensures
        metadata_has_member(loaded, x.strand, x.member),
    decreases n,
{
    if n > 0 {
        let item = loaded.strands[n - 1];
        let a = sidecar_memberships(root, loaded.strands, n - 1);
        let b = strand_edges(item.value, sidecar_source(root, item.path, item.line));
        lemma_behind(a, b, x);
        if a.contains(x) {
            lemma_sidecar_member(root, loaded, n - 1, x);
        } else {
            let j = b.index_of(x);
            assert(b[j].member == item.value.members[j]);
            assert(loaded.strands[n - 1].value.members[j] == x.member);
        }
    }
}

proof fn lemma_document_member(
    documents: Map<Seq<char>, SourceDocumentView>,
    n: int,
    x: IndexedMemberView,
)
    requires
        documents.dom().finite(),
        0 <= n <= ordered(documents.dom()).len(),
        document_memberships(documents, n).contains(x),
    ensures
        annotated_member(documents, x.strand, x.member),
    decreases n,
{
    if n > 0 {
        lemma_orderable(documents.dom());
        let paths = ordered(documents.dom());
        let path = paths[n - 1];
        assert(paths.to_set().contains(path));
        let a = document_memberships(documents, n - 1);
        lemma_behind(a, documents[path].memberships, x);
        if a.contains(x) {
            lemma_document_member(documents, n - 1, x);
        } else {
            let j = documents[path].memberships.index_of(x);
            assert(documents[path].memberships[j].strand == x.strand);
        }
    }
}

/// The graph has no membership that neither a metadata file nor an annotation states.
pub proof fn memberships_are_stated(
    root: Seq<char>,
    loaded: LoadedMetadataView,
    documents: Map<Seq<char>, SourceDocumentView>,
    i: int,
)
    requires
        documents.dom().finite(),
        0 <= i < graph_of(root, loaded, documents).memberships.len(),
    ensures
        ({
            let m = graph_of(root, loaded, documents).memberships[i];
            metadata_has_member(loaded, m.strand, m.member) || annotated_member(
                documents,
                m.strand,
                m.member,
            )
        }),
{
    let m = graph_of(root, loaded, documents).memberships[i];
    lemma_stated_edges(root, loaded, documents);
    edges_are_kept_once(root, loaded, documents);
    let a = sidecar_memberships(root, loaded.strands, loaded.strands.len() as int);
    let b = document_memberships(documents, ordered(documents.dom()).len() as int);
    lemma_behind(a, b, m);
    if a.contains(m) {
        lemma_sidecar_member(root, loaded, loaded.strands.len() as int, m);
    } else {
        lemma_document_member(documents, ordered(documents.dom()).len() as int, m);
    }
}

proof fn lemma_sidecar_strand(
    root: Seq<char>,
    items: Seq<MetadataItemView<StrandView>>,
    id: Seq<char>,
    i: int,
)
    requires
        0 <= i <= items.len(),
    ensures
        match sidecar_strand(root, items, id, i) {
            None => forall|k: int| i <= k < items.len() ==> (#[trigger] items[k]).value.id != id,
            Some(strand) => exists|k: int|
                i <= k < items.len() && (#[trigger] items[k]).value.id == id && strand.value
                    == items[k].value && forall|j: int|
                    i <= j < k ==> (#[trigger] items[j]).value.id != id,
        },
    decreases items.len() - i,
{
    if i < items.len() && items[i].value.id != id {
        lemma_sidecar_strand(root, items, id, i + 1);
        if let Some(strand) = sidecar_strand(root, items, id, i + 1) {
            let k = choose|k: int|
                i + 1 <= k < items.len() && (#[trigger] items[k]).value.id == id && strand.value
                    == items[k].value && forall|j: int|
                    i + 1 <= j < k ==> (#[trigger] items[j]).value.id != id;
            assert(items[k].value.id == id);
            assert forall|j: int| i <= j < k implies (#[trigger] items[j]).value.id != id by {}
        }
    } else if i < items.len() {
        assert(items[i].value.id == id);
    }
}

proof fn lemma_strand_among(strands: Seq<IndexedView<StrandView>>, id: Seq<char>, i: int)
    requires
        0 <= i <= strands.len(),
    ensures
        match strand_among(strands, id, i) {
            None => forall|k: int| i <= k < strands.len() ==> (#[trigger] strands[k]).value.id != id,
            Some(strand) => exists|k: int|
                i <= k < strands.len() && (#[trigger] strands[k]).value.id == id && strand
                    == strands[k],
        },
    decreases strands.len() - i,
{
    if i < strands.len() && strands[i].value.id != id {
        lemma_strand_among(strands, id, i + 1);
    } else if i < strands.len() {
        assert(strands[i].value.id == id);
    }
}

/// Whether an annotation states a strand.
pub open spec fn annotated_strand(
    documents: Map<Seq<char>, SourceDocumentView>,
    strand: StrandView,
) -> bool {
    exists|path: Seq<char>, j: int|
        documents.contains_key(path) && 0 <= j < documents[path].strands.len() && (
        #[trigger] documents[path].strands[j]).value == strand
}

proof fn lemma_source_strand(
    documents: Map<Seq<char>, SourceDocumentView>,
    id: Seq<char>,
    i: int,
)
    requires
        documents.dom().finite(),
        0 <= i <= ordered(documents.dom()).len(),
    ensures
        match source_strand(documents, id, i) {
            None => forall|k: int, j: int|
                i <= k < ordered(documents.dom()).len() && 0 <= j < documents[ordered(
                    documents.dom(),
                )[k]].strands.len() ==> (#[trigger] documents[ordered(
                    documents.dom(),
                )[k]].strands[j]).value.id != id,
            Some(strand) => strand.value.id == id && annotated_strand(documents, strand.value),
        },
    decreases ordered(documents.dom()).len() - i,
{
    let paths = ordered(documents.dom());
    if i < paths.len() {
        lemma_orderable(documents.dom());
        assert(paths.to_set().contains(paths[i]));
        let strands = documents[paths[i]].strands;
        lemma_strand_among(strands, id, 0);
        if let Some(strand) = strand_among(strands, id, 0) {
            let k = choose|k: int|
                0 <= k < strands.len() && (#[trigger] strands[k]).value.id == id && strand
                    == strands[k];
            assert(documents[paths[i]].strands[k].value == strand.value);
        } else {
            lemma_source_strand(documents, id, i + 1);
        }
    }
}

proof fn lemma_spoken_strand(memberships: Seq<IndexedMemberView>, id: Seq<char>, i: int)
    requires
        0 <= i <= memberships.len(),
    ensures
        spoken_strand(memberships, id, i) is Some <==> exists|k: int|
            i <= k < memberships.len() && (#[trigger] memberships[k]).strand == Some(id),
    decreases memberships.len() - i,
{
    if i < memberships.len() && memberships[i].strand != Some(id) {
        lemma_spoken_strand(memberships, id, i + 1);
    } else if i < memberships.len() {
        assert(memberships[i].strand == Some(id));
    }
}

/// Whether something states a strand: a metadata file, an annotation, or a membership in it.
pub open spec fn is_stated_strand(
    loaded: LoadedMetadataView,
    documents: Map<Seq<char>, SourceDocumentView>,
    id: Seq<char>,
) -> bool {
    ||| exists|k: int| 0 <= k < loaded.strands.len() && (#[trigger] loaded.strands[k]).value.id == id
    ||| exists|path: Seq<char>, j: int|
        documents.contains_key(path) && 0 <= j < documents[path].strands.len() && (
        #[trigger] documents[path].strands[j]).value.id == id
    ||| exists|path: Seq<char>, j: int|
        documents.contains_key(path) && 0 <= j < documents[path].memberships.len() && (
        #[trigger] documents[path].memberships[j]).strand == Some(id)
}

/// The graph has the strands that something states and no others. A strand of a metadata file
/// is there as its first file says; one of annotations alone is as one of them says.
pub proof fn stated_strands_are_in_the_graph(
    root: Seq<char>,
    loaded: LoadedMetadataView,
    documents: Map<Seq<char>, SourceDocumentView>,
    id: Seq<char>,
)
    requires
        documents.dom().finite(),
    ensures
        ({
            let graph = graph_of(root, loaded, documents);
            &&& graph.strands.contains_key(id) <==> is_stated_strand(loaded, documents, id)
            &&& forall|k: int|
                0 <= k < loaded.strands.len() && (#[trigger] loaded.strands[k]).value.id == id && (
                forall|j: int| 0 <= j < k ==> (#[trigger] loaded.strands[j]).value.id != id)
                    ==> graph.strands[id].value == loaded.strands[k].value
            &&& (forall|k: int|
                0 <= k < loaded.strands.len() ==> (#[trigger] loaded.strands[k]).value.id != id)
                && (exists|path: Seq<char>, j: int|
                documents.contains_key(path) && 0 <= j < documents[path].strands.len() && (
                #[trigger] documents[path].strands[j]).value.id == id) ==> graph.strands[id].value.id
                == id && annotated_strand(documents, graph.strands[id].value)
        }),
{
    let graph = graph_of(root, loaded, documents);
    let items = loaded.strands;
    lemma_strand_lookup(root, loaded, documents, id);
    lemma_stated_edges(root, loaded, documents);
    let stated = stated_memberships(root, loaded, documents);
    lemma_sidecar_strand(root, items, id, 0);
    lemma_source_strand(documents, id, 0);
    lemma_spoken_strand(stated, id, 0);
    lemma_orderable(documents.dom());
    let paths = ordered(documents.dom());
    let a = sidecar_memberships(root, items, items.len() as int);
    let b = document_memberships(documents, paths.len() as int);
    assert(lookup(graph.strands, id) == current_strand(root, loaded, documents, stated, id));
    if let Some(strand) = sidecar_strand(root, items, id, 0) {
        let first = choose|k: int|
            0 <= k < items.len() && (#[trigger] items[k]).value.id == id && strand.value
                == items[k].value && forall|j: int|
                0 <= j < k ==> (#[trigger] items[j]).value.id != id;
        assert(items[first].value.id == id);
        assert forall|k: int|
            0 <= k < items.len() && (#[trigger] items[k]).value.id == id && (forall|j: int|
                0 <= j < k ==> (#[trigger] items[j]).value.id != id) implies
            graph.strands[id].value == items[k].value by {
            if first < k {
                assert(items[first].value.id != id);
            }
            if k < first {
                assert(items[k].value.id != id);
            }
        }
    } else if source_strand(documents, id, 0) is Some {
        let (path, j) = choose|path: Seq<char>, j: int|
            documents.contains_key(path) && 0 <= j < documents[path].strands.len() && (
            #[trigger] documents[path].strands[j]).value == source_strand(
                documents,
                id,
                0,
            )->0.value;
        assert(documents[path].strands[j].value.id == id);
    } else {
        assert forall|path: Seq<char>, j: int|
            documents.contains_key(path) && 0 <= j < documents[path].strands.len() implies (
        #[trigger] documents[path].strands[j]).value.id != id by {
            assert(paths.to_set().contains(path));
            let k = paths.index_of(path);
            assert(documents[paths[k]].strands[j].value.id != id);
        }
        if spoken_strand(stated, id, 0) is Some {
            let k = choose|k: int| 0 <= k < stated.len() && (#[trigger] stated[k]).strand == Some(id);
            let m = stated[k];
            assert(stated.contains(m));
            lemma_behind(a, b, m);
            if a.contains(m) {
                lemma_sidecar_member(root, loaded, items.len() as int, m);
                let (x, y) = choose|x: int, y: int|
                    0 <= x < items.len() && 0 <= y < items[x].value.members.len() && Some(id)
                        == Some(items[x].value.id) && #[trigger] items[x].value.members[y]
                        == m.member;
                assert(items[x].value.id == id);
            } else {
                lemma_document_member(documents, paths.len() as int, m);
                let (path, j) = choose|path: Seq<char>, j: int|
                    documents.contains_key(path) && 0 <= j < documents[path].memberships.len() && (
                    #[trigger] documents[path].memberships[j]).strand == m.strand
                        && documents[path].memberships[j].member == m.member;
                assert(documents[path].memberships[j].strand == Some(id));
            }
        }
        if exists|path: Seq<char>, j: int|
            documents.contains_key(path) && 0 <= j < documents[path].memberships.len() && (
            #[trigger] documents[path].memberships[j]).strand == Some(id) {
            let (path, j) = choose|path: Seq<char>, j: int|
                documents.contains_key(path) && 0 <= j < documents[path].memberships.len() && (
                #[trigger] documents[path].memberships[j]).strand == Some(id);
            assert(paths.to_set().contains(path));
            lemma_document_edges(documents, paths.len() as int, paths.index_of(path));
            let m = documents[path].memberships[j];
            lemma_behind(a, b, m);
            let k = stated.index_of(m);
            assert(stated[k].strand == Some(id));
        }
    }
}

proof fn lemma_sidecar_anchor(
    root: Seq<char>,
    items: Seq<MetadataItemView<AnchorView>>,
    id: Seq<char>,
    i: int,
)
    requires
        0 <= i <= items.len(),
    ensures
        match sidecar_anchor(root, items, id, i) {
            None => forall|k: int| i <= k < items.len() ==> (#[trigger] items[k]).value.id != id,
            Some(anchor) => anchor.provenance.source == "sidecar"@ && exists|k: int|
                i <= k < items.len() && (#[trigger] items[k]).value.id == id && says_the_same(
                    anchor.value,
                    items[k].value,
                ) && anchor.value.location is Some == items[k].value.location is Some && forall|
                    j: int,
                |
                    i <= j < k ==> (#[trigger] items[j]).value.id != id,
        },
    decreases items.len() - i,
{
    if i < items.len() && items[i].value.id != id {
        lemma_sidecar_anchor(root, items, id, i + 1);
        if let Some(anchor) = sidecar_anchor(root, items, id, i + 1) {
            let k = choose|k: int|
                i + 1 <= k < items.len() && (#[trigger] items[k]).value.id == id && says_the_same(
                    anchor.value,
                    items[k].value,
                ) && anchor.value.location is Some == items[k].value.location is Some && forall|
                    j: int,
                |
                    i + 1 <= j < k ==> (#[trigger] items[j]).value.id != id;
            assert(items[k].value.id == id);
            assert forall|j: int| i <= j < k implies (#[trigger] items[j]).value.id != id by {}
        }
    } else if i < items.len() {
        assert(items[i].value.id == id);
    }
}

/// Whether two anchors agree but for their places.
pub open spec fn says_the_same(a: AnchorView, b: AnchorView) -> bool {
    a.id == b.id && a.target == b.target && a.kind == b.kind && a.tags == b.tags && a.attributes
        == b.attributes
}

/// Whether an anchor holds all that another says but for its place: its target and kind, where
/// it has them, its tags and its attributes.
pub open spec fn says_at_least(a: AnchorView, b: AnchorView) -> bool {
    &&& a.id == b.id
    &&& b.target is Some ==> a.target == b.target
    &&& b.kind is Some ==> a.kind == b.kind
    &&& b.tags.subset_of(a.tags)
    &&& a.attributes == b.attributes
}

/// Where an anchor comes from once annotations are looked at.
spec fn is_located(
    before: Option<IndexedView<AnchorView>>,
    now: Option<IndexedView<AnchorView>>,
    found: bool,
) -> bool {
    &&& before is Some || found <==> now is Some
    &&& before is Some ==> now->0.provenance == before->0.provenance
    &&& before is Some && before->0.provenance.source == "sidecar"@ ==> says_at_least(
        now->0.value,
        before->0.value,
    )
    &&& before is Some && !found ==> now == before
}

proof fn lemma_located_among(
    selected: Option<IndexedView<AnchorView>>,
    anchors: Seq<IndexedView<AnchorView>>,
    id: Seq<char>,
    n: int,
)
    requires
        0 <= n <= anchors.len(),
    ensures
        is_located(
            selected,
            located_among(selected, anchors, id, n),
            exists|j: int| 0 <= j < n && (#[trigger] anchors[j]).value.id == id,
        ),
        selected is None && located_among(selected, anchors, id, n) is Some ==> located_among(
            selected,
            anchors,
            id,
            n,
        )->0.provenance.source == "sidecar"@ || exists|j: int|
            0 <= j < n && (#[trigger] anchors[j]).value.id == id && located_among(
                selected,
                anchors,
                id,
                n,
            )->0 == anchors[j],
    decreases n,
{
    if n > 0 {
        lemma_located_among(selected, anchors, id, n - 1);
        let before = located_among(selected, anchors, id, n - 1);
        if exists|j: int| 0 <= j < n - 1 && (#[trigger] anchors[j]).value.id == id {
            let j = choose|j: int| 0 <= j < n - 1 && (#[trigger] anchors[j]).value.id == id;
            assert(anchors[j].value.id == id);
        }
        if anchors[n - 1].value.id == id {
            assert(anchors[n - 1].value.id == id);
        }
        if selected is None && before is Some && before->0.provenance.source != "sidecar"@ {
            let j = choose|j: int|
                0 <= j < n - 1 && (#[trigger] anchors[j]).value.id == id && before->0 == anchors[j];
            assert(anchors[j].value.id == id);
        }
    }
}

/// Whether an annotation among the first files states an anchor.
spec fn is_annotated_until(
    documents: Map<Seq<char>, SourceDocumentView>,
    id: Seq<char>,
    n: int,
) -> bool {
    exists|k: int, j: int|
        0 <= k < n && 0 <= j < documents[ordered(documents.dom())[k]].anchors.len() && (
        #[trigger] documents[ordered(documents.dom())[k]].anchors[j]).value.id == id
}

/// Whether an annotation states an anchor.
pub open spec fn is_annotated_anchor(
    documents: Map<Seq<char>, SourceDocumentView>,
    id: Seq<char>,
) -> bool {
    exists|path: Seq<char>, j: int|
        documents.contains_key(path) && 0 <= j < documents[path].anchors.len() && (
        #[trigger] documents[path].anchors[j]).value.id == id
}

proof fn lemma_located_in(
    selected: Option<IndexedView<AnchorView>>,
    documents: Map<Seq<char>, SourceDocumentView>,
    id: Seq<char>,
    n: int,
)
    requires
        0 <= n <= ordered(documents.dom()).len(),
    ensures
        is_located(
            selected,
            located_in(selected, documents, id, n),
            is_annotated_until(documents, id, n),
        ),
    decreases n,
{
    if n > 0 {
        lemma_located_in(selected, documents, id, n - 1);
        let before = located_in(selected, documents, id, n - 1);
        let anchors = documents[ordered(documents.dom())[n - 1]].anchors;
        lemma_located_among(before, anchors, id, anchors.len() as int);
        if is_annotated_until(documents, id, n - 1) {
            let (k, j) = choose|k: int, j: int|
                0 <= k < n - 1 && 0 <= j < documents[ordered(documents.dom())[k]].anchors.len() && (
                #[trigger] documents[ordered(documents.dom())[k]].anchors[j]).value.id == id;
            assert(documents[ordered(documents.dom())[k]].anchors[j].value.id == id);
        }
        if exists|j: int| 0 <= j < anchors.len() && (#[trigger] anchors[j]).value.id == id {
            let j = choose|j: int| 0 <= j < anchors.len() && (#[trigger] anchors[j]).value.id == id;
            assert(documents[ordered(documents.dom())[n - 1]].anchors[j].value.id == id);
        }
        if is_annotated_until(documents, id, n) && !is_annotated_until(documents, id, n - 1) {
            let (k, j) = choose|k: int, j: int|
                0 <= k < n && 0 <= j < documents[ordered(documents.dom())[k]].anchors.len() && (
                #[trigger] documents[ordered(documents.dom())[k]].anchors[j]).value.id == id;
            if k < n - 1 {
                assert(is_annotated_until(documents, id, n - 1));
            }
            assert(anchors[j].value.id == id);
        }
    }
}

/// The graph has every anchor that a metadata file or an annotation states. One of a metadata
/// file says at least what its first file says; where no annotation states it, it says just
/// that.
pub proof fn stated_anchors_are_in_the_graph(
    root: Seq<char>,
    loaded: LoadedMetadataView,
    documents: Map<Seq<char>, SourceDocumentView>,
    id: Seq<char>,
)
    requires
        documents.dom().finite(),
        all_annotated(documents),
    ensures
        ({
            let graph = graph_of(root, loaded, documents);
            &&& (exists|k: int|
                0 <= k < loaded.anchors.len() && (#[trigger] loaded.anchors[k]).value.id == id)
                || is_annotated_anchor(documents, id) ==> graph.anchors.contains_key(id)
            &&& forall|k: int|
                0 <= k < loaded.anchors.len() && (#[trigger] loaded.anchors[k]).value.id == id && (
                forall|j: int| 0 <= j < k ==> (#[trigger] loaded.anchors[j]).value.id != id) ==> {
                    &&& says_at_least(graph.anchors[id].value, loaded.anchors[k].value)
                    &&& !is_annotated_anchor(documents, id) ==> says_the_same(
                        graph.anchors[id].value,
                        loaded.anchors[k].value,
                    )
                }
        }),
{
    let graph = graph_of(root, loaded, documents);
    let items = loaded.anchors;
    let paths = ordered(documents.dom());
    let n = paths.len() as int;
    lemma_anchor_lookup(root, loaded, documents, id);
    lemma_sidecar_anchor(root, items, id, 0);
    let own = sidecar_anchor(root, items, id, 0);
    lemma_located_in(own, documents, id, n);
    lemma_orderable(documents.dom());
    assert(is_annotated_until(documents, id, n) <==> is_annotated_anchor(documents, id)) by {
        if is_annotated_until(documents, id, n) {
            let (k, j) = choose|k: int, j: int|
                0 <= k < n && 0 <= j < documents[paths[k]].anchors.len() && (
                #[trigger] documents[paths[k]].anchors[j]).value.id == id;
            assert(paths.to_set().contains(paths[k]));
            assert(documents[paths[k]].anchors[j].value.id == id);
        }
        if is_annotated_anchor(documents, id) {
            let (path, j) = choose|path: Seq<char>, j: int|
                documents.contains_key(path) && 0 <= j < documents[path].anchors.len() && (
                #[trigger] documents[path].anchors[j]).value.id == id;
            assert(paths.to_set().contains(path));
            let k = paths.index_of(path);
            assert(documents[paths[k]].anchors[j].value.id == id);
        }
    }
    if own is Some {
        let first = choose|k: int|
            0 <= k < items.len() && (#[trigger] items[k]).value.id == id && says_the_same(
                own->0.value,
                items[k].value,
            ) && own->0.value.location is Some == items[k].value.location is Some && forall|j: int|
                0 <= j < k ==> (#[trigger] items[j]).value.id != id;
        assert(items[first].value.id == id);
        assert forall|k: int|
            0 <= k < items.len() && (#[trigger] items[k]).value.id == id && (forall|j: int|
                0 <= j < k ==> (#[trigger] items[j]).value.id != id) implies k == first by {
            if first < k {
                assert(items[first].value.id != id);
            }
            if k < first {
                assert(items[k].value.id != id);
            }
        }
    }
}

proof fn lemma_more<T>(a: Seq<T>, b: Seq<T>, x: T)
    requires
        a.contains(x),
        a.is_prefix_of(b),
    ensures
        b.contains(x),
{
    let at = a.index_of(x);
    assert(b.subrange(0, a.len() as int)[at] == b[at]);
    assert(b[at] == x);
}

proof fn lemma_prefix<T>(a: Seq<T>, b: Seq<T>)
    ensures
        a.is_prefix_of(a + b),
{
    assert((a + b).subrange(0, a.len() as int) =~= a);
}

proof fn lemma_prefixes<T>(a: Seq<T>, b: Seq<T>, c: Seq<T>)
    requires
        a.is_prefix_of(b),
        b.is_prefix_of(c),
    ensures
        a.is_prefix_of(c),
{
    assert(c.subrange(0, a.len() as int) =~= b.subrange(0, a.len() as int));
}

proof fn lemma_strand_items_said(
    g: GraphView,
    root: Seq<char>,
    items: Seq<MetadataItemView<StrandView>>,
    n: int,
)
    requires
        0 <= n <= items.len(),
    ensures
        g.diagnostics.is_prefix_of(with_strand_items(g, root, items, n).diagnostics),
        forall|k: int|
            0 <= k < n && is_blank((#[trigger] items[k]).value.intent) ==> tells_code(
                with_strand_items(g, root, items, n).diagnostics,
                Severity::Warning,
                "strand-intent"@,
            ),
        forall|k: int|
            0 <= k < n && (#[trigger] items[k]).value.schema != 1 ==> tells_code(
                with_strand_items(g, root, items, n).diagnostics,
                Severity::Error,
                "strand-schema"@,
            ),
        forall|k: int|
            0 <= k < n && is_blank((#[trigger] items[k]).value.id) ==> tells_code(
                with_strand_items(g, root, items, n).diagnostics,
                Severity::Error,
                "strand-id"@,
            ),
        forall|k: int|
            0 <= k < n ==> with_strand_items(g, root, items, n).strands.contains_key(
                (#[trigger] items[k]).value.id,
            ),
        forall|j: int, k: int|
            0 <= j < k < n && (#[trigger] items[j]).value.id == (#[trigger] items[k]).value.id
                ==> tells_code(
                with_strand_items(g, root, items, n).diagnostics,
                Severity::Error,
                "duplicate-strand"@,
            ),
    decreases n,
{
    if n > 0 {
        lemma_strand_items_said(g, root, items, n - 1);
        let before = with_strand_items(g, root, items, n - 1);
        let now = with_strand_items(g, root, items, n);
        let item = items[n - 1];
        let from = sidecar_source(root, item.path, item.line);
        let own = crate::index::strand_problems(item.value, from);
        let twice = crate::index::said_if(
            before.strands.contains_key(item.value.id),
            crate::index::said_of_duplicate(
                "duplicate-strand"@,
                item.value.id,
                from,
                before.strands[item.value.id].provenance,
            ),
        );
        assert(now.diagnostics =~= before.diagnostics + (own + twice));
        lemma_prefix(before.diagnostics, own + twice);
        lemma_prefixes(g.diagnostics, before.diagnostics, now.diagnostics);
        lemma_codes_stay(before.diagnostics, now.diagnostics);
        let all = before.diagnostics.len() as int;
        if is_blank(item.value.intent) {
            let d = own.last();
            assert(own[own.len() - 1] == d);
            assert(now.diagnostics[all + own.len() - 1] == d);
            assert(d.severity == Severity::Warning && d.code == "strand-intent"@);
        }
        if item.value.schema != 1 {
            let d = own[0];
            assert(now.diagnostics[all] == d);
            assert(d.severity == Severity::Error && d.code == "strand-schema"@);
        }
        if is_blank(item.value.id) {
            let at = if item.value.schema != 1 {
                1int
            } else {
                0int
            };
            let d = own[at];
            assert(now.diagnostics[all + at] == d);
            assert(d.severity == Severity::Error && d.code == "strand-id"@);
        }
        if exists|j: int| 0 <= j < n - 1 && (#[trigger] items[j]).value.id == item.value.id {
            let d = twice[0];
            assert(now.diagnostics[all + own.len()] == d);
            assert(d.severity == Severity::Error && d.code == "duplicate-strand"@);
        }
    }
}

/// Whether diagnostics tell one of a severity under a code.
pub open spec fn tells_code(
    all: Seq<DiagnosticView>,
    severity: Severity,
    code: Seq<char>,
) -> bool {
    exists|i: int|
        0 <= i < all.len() && (#[trigger] all[i]).severity == severity && all[i].code == code
}

proof fn lemma_codes_stay(less: Seq<DiagnosticView>, more: Seq<DiagnosticView>)
    requires
        less.is_prefix_of(more),
    ensures
        forall|severity: Severity, code: Seq<char>| #[trigger]
            tells_code(less, severity, code) ==> tells_code(more, severity, code),
{
    assert forall|severity: Severity, code: Seq<char>| #[trigger]
        tells_code(less, severity, code) implies tells_code(more, severity, code) by {
        let i = choose|i: int|
            0 <= i < less.len() && (#[trigger] less[i]).severity == severity && less[i].code == code;
        assert(more.subrange(0, less.len() as int)[i] == more[i]);
        assert(more[i] == less[i]);
    }
}

proof fn lemma_anchor_items_said(
    g: GraphView,
    root: Seq<char>,
    items: Seq<MetadataItemView<AnchorView>>,
    n: int,
)
    requires
        0 <= n <= items.len(),
    ensures
        g.diagnostics.is_prefix_of(with_anchor_items(g, root, items, n).diagnostics),
        forall|k: int|
            0 <= k < n ==> with_anchor_items(g, root, items, n).anchors.contains_key(
                (#[trigger] items[k]).value.id,
            ),
        forall|j: int, k: int|
            0 <= j < k < n && (#[trigger] items[j]).value.id == (#[trigger] items[k]).value.id
                ==> tells_code(
                with_anchor_items(g, root, items, n).diagnostics,
                Severity::Error,
                "duplicate-anchor"@,
            ),
    decreases n,
{
    if n > 0 {
        lemma_anchor_items_said(g, root, items, n - 1);
        let before = with_anchor_items(g, root, items, n - 1);
        let now = with_anchor_items(g, root, items, n);
        let item = items[n - 1];
        let from = sidecar_source(root, item.path, item.line);
        let anchor = crate::index::with_repository_path(item.value);
        let own = crate::index::anchor_problems(anchor, from);
        let twice = crate::index::said_if(
            before.anchors.contains_key(anchor.id),
            crate::index::said_of_duplicate(
                "duplicate-anchor"@,
                anchor.id,
                from,
                before.anchors[anchor.id].provenance,
            ),
        );
        assert(now.diagnostics =~= before.diagnostics + (own + twice));
        lemma_prefix(before.diagnostics, own + twice);
        lemma_prefixes(g.diagnostics, before.diagnostics, now.diagnostics);
        lemma_codes_stay(before.diagnostics, now.diagnostics);
        if exists|j: int| 0 <= j < n - 1 && (#[trigger] items[j]).value.id == item.value.id {
            let d = twice[0];
            assert(now.diagnostics[(before.diagnostics.len() + own.len()) as int] == d);
            assert(d.severity == Severity::Error && d.code == "duplicate-anchor"@);
        }
    }
}

proof fn lemma_relation_items_said(
    g: GraphView,
    root: Seq<char>,
    items: Seq<MetadataItemView<RelationView>>,
    n: int,
)
    ensures
        with_relation_items(g, root, items, n).diagnostics == g.diagnostics,
    decreases n,
{
    if n > 0 {
        lemma_relation_items_said(g, root, items, n - 1);
    }
}

proof fn lemma_source_strands_said(g: GraphView, strands: Seq<IndexedView<StrandView>>, n: int)
    ensures
        g.diagnostics.is_prefix_of(with_source_strands(g, strands, n).diagnostics),
    decreases n,
{
    if n > 0 {
        lemma_source_strands_said(g, strands, n - 1);
        let before = with_source_strands(g, strands, n - 1).diagnostics;
        let now = with_source_strands(g, strands, n).diagnostics;
        assert(now.subrange(0, before.len() as int) =~= before);
        lemma_prefixes(g.diagnostics, before, now);
    } else {
        assert(g.diagnostics.subrange(0, g.diagnostics.len() as int) =~= g.diagnostics);
    }
}

proof fn lemma_source_anchors_said(g: GraphView, anchors: Seq<IndexedView<AnchorView>>, n: int)
    ensures
        g.diagnostics.is_prefix_of(with_source_anchors(g, anchors, n).diagnostics),
    decreases n,
{
    if n > 0 {
        lemma_source_anchors_said(g, anchors, n - 1);
        let before = with_source_anchors(g, anchors, n - 1).diagnostics;
        let now = with_source_anchors(g, anchors, n).diagnostics;
        assert(now.subrange(0, before.len() as int) =~= before);
        lemma_prefixes(g.diagnostics, before, now);
    } else {
        assert(g.diagnostics.subrange(0, g.diagnostics.len() as int) =~= g.diagnostics);
    }
}

proof fn lemma_documents_said(
    g: GraphView,
    documents: Map<Seq<char>, SourceDocumentView>,
    n: int,
    k: int,
    d: DiagnosticView,
)
    requires
        0 <= n,
        g.diagnostics.contains(d) || (0 <= k < n && documents[ordered(
            documents.dom(),
        )[k]].diagnostics.contains(d)),
    ensures
        with_documents(g, documents, n).diagnostics.contains(d),
    decreases n,
{
    if n > 0 {
        let before = with_documents(g, documents, n - 1);
        let document = documents[ordered(documents.dom())[n - 1]];
        let edges = GraphView {
            diagnostics: before.diagnostics + document.diagnostics,
            memberships: before.memberships + document.memberships,
            relations: before.relations + document.relations,
            ..before
        };
        let strands = with_source_strands(edges, document.strands, document.strands.len() as int);
        lemma_source_strands_said(edges, document.strands, document.strands.len() as int);
        lemma_source_anchors_said(strands, document.anchors, document.anchors.len() as int);
        if g.diagnostics.contains(d) || k < n - 1 {
            lemma_documents_said(g, documents, n - 1, k, d);
        }
        lemma_behind(before.diagnostics, document.diagnostics, d);
        lemma_more(edges.diagnostics, strands.diagnostics, d);
        lemma_more(
            strands.diagnostics,
            with_documents(g, documents, n).diagnostics,
            d,
        );
    }
}

proof fn lemma_implicit_said(g: GraphView, n: int)
    ensures
        g.diagnostics.is_prefix_of(with_implicit_strands(g, n).diagnostics),
    decreases n,
{
    if n > 0 {
        lemma_implicit_said(g, n - 1);
        let before = with_implicit_strands(g, n - 1).diagnostics;
        let now = with_implicit_strands(g, n).diagnostics;
        assert(now.subrange(0, before.len() as int) =~= before);
        lemma_prefixes(g.diagnostics, before, now);
    } else {
        assert(g.diagnostics.subrange(0, g.diagnostics.len() as int) =~= g.diagnostics);
    }
}

proof fn lemma_said_in_the_end(
    root: Seq<char>,
    loaded: LoadedMetadataView,
    documents: Map<Seq<char>, SourceDocumentView>,
    d: DiagnosticView,
)
    requires
        stated_graph(root, loaded, documents).diagnostics.contains(d),
    ensures
        graph_of(root, loaded, documents).diagnostics.contains(d),
{
    let g = stated_graph(root, loaded, documents);
    let placed = GraphView { anchors: crate::index::all_placed(g.anchors), ..g };
    let full = completed_graph(g);
    lemma_implicit_said(placed, g.memberships.len() as int);
    lemma_more(g.diagnostics, full.diagnostics, d);
    let problems = crate::index::graph_problems(
        full.strands.dom(),
        full.anchors.dom(),
        full.memberships,
        full.relations,
    );
    lemma_behind(full.diagnostics, problems, d);
    sorting_keeps_what_is_said(full.diagnostics + problems, d);
}

/// The metadata part of what is stated.
spec fn metadata_graph(root: Seq<char>, loaded: LoadedMetadataView) -> GraphView {
    let empty = GraphView {
        strands: Map::empty(),
        anchors: Map::empty(),
        memberships: seq![],
        relations: seq![],
        diagnostics: loaded.diagnostics,
    };
    let strands = with_strand_items(empty, root, loaded.strands, loaded.strands.len() as int);
    let anchors = with_anchor_items(strands, root, loaded.anchors, loaded.anchors.len() as int);
    with_relation_items(anchors, root, loaded.relations, loaded.relations.len() as int)
}

/// All that is wrong with the metadata files or with an annotation is told of the graph.
pub proof fn everything_wrong_is_told(
    root: Seq<char>,
    loaded: LoadedMetadataView,
    documents: Map<Seq<char>, SourceDocumentView>,
    d: DiagnosticView,
    path: Seq<char>,
)
    requires
        documents.dom().finite(),
        loaded.diagnostics.contains(d) || (documents.contains_key(path)
            && documents[path].diagnostics.contains(d)),
    ensures
        graph_of(root, loaded, documents).diagnostics.contains(d),
{
    let g = metadata_graph(root, loaded);
    lemma_orderable(documents.dom());
    let paths = ordered(documents.dom());
    let n = paths.len() as int;
    if loaded.diagnostics.contains(d) {
        lemma_metadata_said(root, loaded, d);
        lemma_documents_said(g, documents, n, 0, d);
    } else {
        assert(paths.to_set().contains(path));
        lemma_documents_said(g, documents, n, paths.index_of(path), d);
    }
    lemma_said_in_the_end(root, loaded, documents, d);
}

proof fn lemma_metadata_said(root: Seq<char>, loaded: LoadedMetadataView, d: DiagnosticView)
    requires
        loaded.diagnostics.contains(d),
    ensures
        metadata_graph(root, loaded).diagnostics.contains(d),
{
    let empty = GraphView {
        strands: Map::empty(),
        anchors: Map::empty(),
        memberships: seq![],
        relations: seq![],
        diagnostics: loaded.diagnostics,
    };
    let ns = loaded.strands.len() as int;
    let na = loaded.anchors.len() as int;
    let strands = with_strand_items(empty, root, loaded.strands, ns);
    let anchors = with_anchor_items(strands, root, loaded.anchors, na);
    lemma_strand_items_said(empty, root, loaded.strands, ns);
    lemma_anchor_items_said(strands, root, loaded.anchors, na);
    lemma_relation_items_said(anchors, root, loaded.relations, loaded.relations.len() as int);
    lemma_more(loaded.diagnostics, strands.diagnostics, d);
    lemma_more(strands.diagnostics, anchors.diagnostics, d);
}

/// A strand of a metadata file without an intent is told as a warning, one with another schema
/// or without an id as an error, and so are two strands or two anchors of metadata files with
/// one id.
pub proof fn wrong_metadata_is_told(
    root: Seq<char>,
    loaded: LoadedMetadataView,
    documents: Map<Seq<char>, SourceDocumentView>,
    j: int,
    k: int,
)
    requires
        documents.dom().finite(),
    ensures
        ({
            let told = graph_of(root, loaded, documents).diagnostics;
            &&& 0 <= k < loaded.strands.len() && is_blank(loaded.strands[k].value.intent)
                ==> tells_code(told, Severity::Warning, "strand-intent"@)
            &&& 0 <= k < loaded.strands.len() && loaded.strands[k].value.schema != 1 ==> tells_code(
                told,
                Severity::Error,
                "strand-schema"@,
            )
            &&& 0 <= k < loaded.strands.len() && is_blank(loaded.strands[k].value.id) ==> tells_code(
                told,
                Severity::Error,
                "strand-id"@,
            )
            &&& 0 <= j < k < loaded.strands.len() && loaded.strands[j].value.id
                == loaded.strands[k].value.id ==> tells_code(
                told,
                Severity::Error,
                "duplicate-strand"@,
            )
            &&& 0 <= j < k < loaded.anchors.len() && loaded.anchors[j].value.id
                == loaded.anchors[k].value.id ==> tells_code(
                told,
                Severity::Error,
                "duplicate-anchor"@,
            )
        }),
{
    let told = graph_of(root, loaded, documents).diagnostics;
    let empty = GraphView {
        strands: Map::empty(),
        anchors: Map::empty(),
        memberships: seq![],
        relations: seq![],
        diagnostics: loaded.diagnostics,
    };
    let ns = loaded.strands.len() as int;
    let na = loaded.anchors.len() as int;
    let strands = with_strand_items(empty, root, loaded.strands, ns);
    let anchors = with_anchor_items(strands, root, loaded.anchors, na);
    lemma_strand_items_said(empty, root, loaded.strands, ns);
    lemma_anchor_items_said(strands, root, loaded.anchors, na);
    lemma_relation_items_said(anchors, root, loaded.relations, loaded.relations.len() as int);
    lemma_codes_stay(strands.diagnostics, anchors.diagnostics);
    assert forall|severity: Severity, code: Seq<char>| #[trigger]
        tells_code(anchors.diagnostics, severity, code) implies tells_code(told, severity, code) by {
        let i = choose|i: int|
            0 <= i < anchors.diagnostics.len() && (#[trigger] anchors.diagnostics[i]).severity
                == severity && anchors.diagnostics[i].code == code;
        let d = anchors.diagnostics[i];
        assert(anchors.diagnostics.contains(d));
        lemma_documents_said(
            metadata_graph(root, loaded),
            documents,
            ordered(documents.dom()).len() as int,
            0,
            d,
        );
        lemma_said_in_the_end(root, loaded, documents, d);
        let at = told.index_of(d);
        assert(told[at] == d);
    }
    if 0 <= k < ns {
        assert(loaded.strands[k].value.id == loaded.strands[k].value.id);
    }
    if 0 <= j < ns {
        assert(loaded.strands[j].value.id == loaded.strands[j].value.id);
    }
    if 0 <= k < na {
        assert(loaded.anchors[k].value.id == loaded.anchors[k].value.id);
    }
    if 0 <= j < na {
        assert(loaded.anchors[j].value.id == loaded.anchors[j].value.id);
    }
}

/// Every file that is not too large, lies outside the metadata, fits an include pattern, where
/// there are any, and no exclude pattern is listed.
pub proof fn every_selected_file_is_listed(
    root: Seq<char>,
    metadata_dir: Seq<char>,
    scan: ScanConfigView,
    entries: Seq<SourceEntryView>,
    n: int,
    i: int,
)
    requires
        0 <= i < n <= entries.len(),
        entries[i].size <= scan.max_file_bytes,
        !is_metadata(root, metadata_dir, relative_path(root, entries[i].path)),
        scan.includes.len() == 0 || one_matches(
            scan.includes,
            relative_path(root, entries[i].path),
        ),
        !one_matches(scan.exclude, relative_path(root, entries[i].path)),
    ensures
        listed_files(root, metadata_dir, scan, entries, n).0.contains_key(
            relative_path(root, entries[i].path),
        ),
        listed_files(root, metadata_dir, scan, entries, n).1.contains(entries[i].path),
    decreases n,
{
    let before = listed_files(root, metadata_dir, scan, entries, n - 1);
    let now = listed_files(root, metadata_dir, scan, entries, n);
    if i < n - 1 {
        every_selected_file_is_listed(root, metadata_dir, scan, entries, n - 1, i);
        let at = before.1.index_of(entries[i].path);
        assert(now.1[at] == entries[i].path);
    } else {
        assert(now.1[now.1.len() - 1] == entries[i].path);
    }
}

} // verus!

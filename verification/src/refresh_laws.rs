//! What holds of an index that is brought up to date: it is the one that a rebuild gives.

use vstd::prelude::*;

use crate::annotations::{
    after_lines, after_markers, anchor_of, body_tokens, left_after_first, line_markers,
    location_path, marker_body, membership_of, scan_of, still_active, text_at, without_here,
    AnnotationScanView, MarkerKind, ProgressView,
};
use crate::collections::{increasing, lemma_increasing_unique, lemma_orderable, ordered};
use crate::config::{AnnotationConfigView, ConfigView};
use crate::index::{
    all_placed, anchor_ids, anchors_in, built_index, changed_set, checked_anchor_items,
    checked_documents, checked_source_anchors, checked_source_strands, checked_strand_items,
    completed_graph, current_anchor, current_documents, current_records, current_strand,
    document_memberships, document_of, document_relations, first_place, global_links, graph_of,
    impacts, implicit_strand, implicit_strands, is_target, located_among, located_in,
    may_have_changed, member_place, membership_anchors, membership_strands, option_less,
    problems_of, refreshed_anchors, refreshed_graph, refreshed_index, refreshed_strands,
    relation_ends, relation_place, repository_path, scanned_documents, scanned_records,
    sidecar_anchor, sidecar_links, sidecar_memberships, sidecar_strand, source_strand,
    spoken_strand, stated_graph, stated_memberships, stated_relations, strand_among, strand_ids,
    strands_in, target_anchor, with_anchor_items, with_documents, with_implicit_strands,
    with_member_targets, with_relation_items, with_relation_targets, with_repository_path,
    with_source_anchors, with_source_strands, with_strand_items, CheckView, GraphView, ManifestView,
    ScannedFileView, SeenAnchorView,
};
use crate::metadata::{LoadedMetadataView, MetadataItemView};
use crate::model::{
    AnchorView, DiagnosticView, IndexView, IndexedMemberView, IndexedRelationView, IndexedView,
    ProvenanceView, RelationView, SourceDocumentView, StrandView, Timestamp,
};
use crate::text::{
    lemma_text_less_irreflexive, lemma_text_less_transitive, lines, replace, text_less,
};

verus! {

proof fn lemma_option_order(a: Option<Seq<char>>, b: Option<Seq<char>>, c: Option<Seq<char>>)
    ensures
        !option_less(a, a),
        option_less(a, b) && option_less(b, c) ==> option_less(a, c),
        option_less(a, b) ==> !option_less(b, a),
{
    if a is Some {
        lemma_text_less_irreflexive(a->0);
        if b is Some {
            if text_less(a->0, b->0) && text_less(b->0, a->0) {
                lemma_text_less_transitive(a->0, b->0, a->0);
            }
            if c is Some && text_less(a->0, b->0) && text_less(b->0, c->0) {
                lemma_text_less_transitive(a->0, b->0, c->0);
            }
        }
    }
}

proof fn lemma_text_order(a: Seq<char>, b: Seq<char>, c: Seq<char>)
    ensures
        !text_less(a, a),
        text_less(a, b) && text_less(b, c) ==> text_less(a, c),
        text_less(a, b) ==> !text_less(b, a),
{
    lemma_option_order(Some(a), Some(b), Some(c));
}

/// Whether what the annotations of a file say is told of that file, with paths in the form of
/// the repository.
pub open spec fn is_annotated(document: SourceDocumentView, path: Seq<char>) -> bool {
    &&& forall|i: int|
        0 <= i < document.memberships.len() ==> told_of(
            (#[trigger] document.memberships[i]).provenance,
            path,
        )
    &&& forall|i: int|
        0 <= i < document.relations.len() ==> told_of(
            (#[trigger] document.relations[i]).provenance,
            path,
        )
    &&& forall|i: int|
        0 <= i < document.strands.len() ==> told_of(
            (#[trigger] document.strands[i]).provenance,
            path,
        )
    &&& forall|i: int|
        0 <= i < document.anchors.len() ==> told_of(
            (#[trigger] document.anchors[i]).provenance,
            path,
        ) && with_repository_path(document.anchors[i].value) == document.anchors[i].value
}

/// Whether something is told of an annotation of a file.
pub open spec fn told_of(provenance: ProvenanceView, path: Seq<char>) -> bool {
    provenance.source == "annotation"@ && provenance.path == Some(path)
}

/// Whether this holds of all files.
pub open spec fn all_annotated(documents: Map<Seq<char>, SourceDocumentView>) -> bool {
    forall|path: Seq<char>| #[trigger]
        documents.contains_key(path) ==> is_annotated(documents[path], path)
}

/// Whether files that did not change say the same.
pub open spec fn agree_outside(
    old_documents: Map<Seq<char>, SourceDocumentView>,
    new_documents: Map<Seq<char>, SourceDocumentView>,
    changed: Set<Seq<char>>,
) -> bool {
    forall|path: Seq<char>|
        !#[trigger] changed.contains(path) ==> (old_documents.contains_key(path)
            == new_documents.contains_key(path)) && (old_documents.contains_key(path)
            ==> old_documents[path] == new_documents[path])
}

proof fn lemma_push_contains<T>(all: Seq<T>, last: T, x: T)
    ensures
        all.push(last).contains(x) == (all.contains(x) || last == x),
{
    let more = all.push(last);
    if all.contains(x) {
        let k = all.index_of(x);
        assert(more[k] == x);
    }
    if last == x {
        assert(more[all.len() as int] == x);
    }
    if more.contains(x) {
        let k = more.index_of(x);
        if k < all.len() {
            assert(all[k] == x);
        }
    }
}

proof fn lemma_add_contains<T>(a: Seq<T>, b: Seq<T>, x: T)
    ensures
        (a + b).contains(x) == (a.contains(x) || b.contains(x)),
{
    let both = a + b;
    if a.contains(x) {
        let k = a.index_of(x);
        assert(both[k] == x);
    }
    if b.contains(x) {
        let k = b.index_of(x);
        assert(both[a.len() + k] == x);
    }
    if both.contains(x) {
        let k = both.index_of(x);
        if k < a.len() {
            assert(a[k] == x);
        } else {
            assert(b[k - a.len()] == x);
        }
    }
}

proof fn lemma_sources_differ()
    ensures
        "annotation"@ != "sidecar"@,
{
    reveal_strlit("annotation");
    reveal_strlit("sidecar");
    assert("annotation"@.len() != "sidecar"@.len());
}

proof fn lemma_strand_items_edges(
    g: GraphView,
    root: Seq<char>,
    items: Seq<MetadataItemView<StrandView>>,
    n: int,
)
    requires
        0 <= n <= items.len(),
    ensures
        with_strand_items(g, root, items, n).memberships == g.memberships + sidecar_memberships(
            root,
            items,
            n,
        ),
        with_strand_items(g, root, items, n).relations == g.relations + sidecar_links(
            root,
            items,
            n,
        ),
    decreases n,
{
    if n > 0 {
        lemma_strand_items_edges(g, root, items, n - 1);
    }
    assert(with_strand_items(g, root, items, n).memberships =~= g.memberships
        + sidecar_memberships(root, items, n));
    assert(with_strand_items(g, root, items, n).relations =~= g.relations + sidecar_links(
        root,
        items,
        n,
    ));
}

proof fn lemma_anchor_items_edges(
    g: GraphView,
    root: Seq<char>,
    items: Seq<MetadataItemView<AnchorView>>,
    n: int,
)
    ensures
        with_anchor_items(g, root, items, n).memberships == g.memberships,
        with_anchor_items(g, root, items, n).relations == g.relations,
        with_anchor_items(g, root, items, n).strands == g.strands,
    decreases n,
{
    if n > 0 {
        lemma_anchor_items_edges(g, root, items, n - 1);
    }
}

proof fn lemma_relation_items_edges(
    g: GraphView,
    root: Seq<char>,
    items: Seq<MetadataItemView<RelationView>>,
    n: int,
)
    requires
        0 <= n <= items.len(),
    ensures
        with_relation_items(g, root, items, n).memberships == g.memberships,
        with_relation_items(g, root, items, n).strands == g.strands,
        with_relation_items(g, root, items, n).anchors == g.anchors,
        with_relation_items(g, root, items, n).diagnostics == g.diagnostics,
        with_relation_items(g, root, items, n).relations == g.relations + global_links(
            root,
            items,
        ).take(n),
    decreases n,
{
    if n > 0 {
        lemma_relation_items_edges(g, root, items, n - 1);
    }
    assert(with_relation_items(g, root, items, n).relations =~= g.relations + global_links(
        root,
        items,
    ).take(n));
}

proof fn lemma_source_strands_edges(g: GraphView, strands: Seq<IndexedView<StrandView>>, n: int)
    ensures
        with_source_strands(g, strands, n).memberships == g.memberships,
        with_source_strands(g, strands, n).relations == g.relations,
        with_source_strands(g, strands, n).anchors == g.anchors,
    decreases n,
{
    if n > 0 {
        lemma_source_strands_edges(g, strands, n - 1);
    }
}

proof fn lemma_source_anchors_edges(g: GraphView, anchors: Seq<IndexedView<AnchorView>>, n: int)
    ensures
        with_source_anchors(g, anchors, n).memberships == g.memberships,
        with_source_anchors(g, anchors, n).relations == g.relations,
        with_source_anchors(g, anchors, n).strands == g.strands,
    decreases n,
{
    if n > 0 {
        lemma_source_anchors_edges(g, anchors, n - 1);
    }
}

proof fn lemma_documents_edges(
    g: GraphView,
    documents: Map<Seq<char>, SourceDocumentView>,
    n: int,
)
    ensures
        with_documents(g, documents, n).memberships == g.memberships + document_memberships(
            documents,
            n,
        ),
        with_documents(g, documents, n).relations == g.relations + document_relations(documents, n),
    decreases n,
{
    if n > 0 {
        lemma_documents_edges(g, documents, n - 1);
        let before = with_documents(g, documents, n - 1);
        let document = documents[ordered(documents.dom())[n - 1]];
        let edges = GraphView {
            diagnostics: before.diagnostics + document.diagnostics,
            memberships: before.memberships + document.memberships,
            relations: before.relations + document.relations,
            ..before
        };
        lemma_source_strands_edges(edges, document.strands, document.strands.len() as int);
        lemma_source_anchors_edges(
            with_source_strands(edges, document.strands, document.strands.len() as int),
            document.anchors,
            document.anchors.len() as int,
        );
    }
    assert(with_documents(g, documents, n).memberships =~= g.memberships + document_memberships(
        documents,
        n,
    ));
    assert(with_documents(g, documents, n).relations =~= g.relations + document_relations(
        documents,
        n,
    ));
}

/// The edges of a graph are those that metadata files and annotations state.
pub(crate) proof fn lemma_stated_edges(
    root: Seq<char>,
    loaded: LoadedMetadataView,
    documents: Map<Seq<char>, SourceDocumentView>,
)
    ensures
        stated_graph(root, loaded, documents).memberships == stated_memberships(
            root,
            loaded,
            documents,
        ),
        stated_graph(root, loaded, documents).relations == stated_relations(
            root,
            loaded,
            documents,
        ),
{
    let empty = GraphView {
        strands: Map::empty(),
        anchors: Map::empty(),
        memberships: seq![],
        relations: seq![],
        diagnostics: loaded.diagnostics,
    };
    let ns = loaded.strands.len() as int;
    let na = loaded.anchors.len() as int;
    let nr = loaded.relations.len() as int;
    let strands = with_strand_items(empty, root, loaded.strands, ns);
    let anchors = with_anchor_items(strands, root, loaded.anchors, na);
    let g = with_relation_items(anchors, root, loaded.relations, nr);
    lemma_strand_items_edges(empty, root, loaded.strands, ns);
    lemma_anchor_items_edges(strands, root, loaded.anchors, na);
    lemma_relation_items_edges(anchors, root, loaded.relations, nr);
    lemma_documents_edges(g, documents, ordered(documents.dom()).len() as int);
    let links = global_links(root, loaded.relations);
    assert(links.take(nr) =~= links);
    assert(stated_graph(root, loaded, documents).memberships =~= stated_memberships(
        root,
        loaded,
        documents,
    ));
    assert(stated_graph(root, loaded, documents).relations =~= stated_relations(
        root,
        loaded,
        documents,
    ));
}

/// The paths of files in order are those of the files.
proof fn lemma_paths(documents: Map<Seq<char>, SourceDocumentView>)
    requires
        documents.dom().finite(),
    ensures
        increasing(ordered(documents.dom())),
        forall|k: int|
            0 <= k < ordered(documents.dom()).len() ==> documents.contains_key(
                #[trigger] ordered(documents.dom())[k],
            ),
        forall|path: Seq<char>| #[trigger]
            documents.contains_key(path) ==> ordered(documents.dom()).contains(path),
{
    let paths = ordered(documents.dom());
    lemma_orderable(documents.dom());
    assert forall|k: int| 0 <= k < paths.len() implies documents.contains_key(
        #[trigger] paths[k],
    ) by {
        assert(paths.contains(paths[k]));
        assert(paths.to_set().contains(paths[k]));
    }
    assert forall|path: Seq<char>| #[trigger] documents.contains_key(path) implies paths.contains(
        path,
    ) by {
        assert(paths.to_set().contains(path));
    }
}

proof fn lemma_implicit_edges(g: GraphView, n: int)
    ensures
        with_implicit_strands(g, n).memberships == g.memberships,
        with_implicit_strands(g, n).relations == g.relations,
        with_implicit_strands(g, n).anchors == g.anchors,
    decreases n,
{
    if n > 0 {
        lemma_implicit_edges(g, n - 1);
    }
}

proof fn lemma_completed_edges(g: GraphView)
    ensures
        completed_graph(g).memberships == g.memberships,
        completed_graph(g).relations == g.relations,
{
    lemma_implicit_edges(
        GraphView { anchors: all_placed(g.anchors), ..g },
        g.memberships.len() as int,
    );
}

spec fn is_member_of(m: IndexedMemberView, id: Seq<char>) -> bool {
    m.strand == Some(id)
}

spec fn is_membership_of(m: IndexedMemberView, id: Seq<char>) -> bool {
    m.member.anchor == id
}

spec fn is_relation_of(r: IndexedRelationView, id: Seq<char>) -> bool {
    r.relation.from == id || r.relation.to == id
}

/// Whether one of the first `n` of some files speaks of a strand, and of an anchor.
spec fn speaks(
    documents: Map<Seq<char>, SourceDocumentView>,
    paths: Seq<Seq<char>>,
    n: int,
    id: Seq<char>,
) -> (bool, bool) {
    (
        exists|k: int|
            0 <= k < n && documents.contains_key(#[trigger] paths[k]) && strands_in(
                documents[paths[k]],
            ).contains(id),
        exists|k: int|
            0 <= k < n && documents.contains_key(#[trigger] paths[k]) && anchors_in(
                documents[paths[k]],
            ).contains(id),
    )
}

/// Whether one of the files that changed speaks of a strand, and of an anchor.
spec fn speak_of(
    documents: Map<Seq<char>, SourceDocumentView>,
    changed: Set<Seq<char>>,
    id: Seq<char>,
) -> (bool, bool) {
    let impacted = impacts(documents, ordered(changed), ordered(changed).len() as int);
    (impacted.0.contains(id), impacted.1.contains(id))
}

proof fn lemma_impacts(
    documents: Map<Seq<char>, SourceDocumentView>,
    paths: Seq<Seq<char>>,
    n: int,
    id: Seq<char>,
)
    requires
        0 <= n <= paths.len(),
    ensures
        impacts(documents, paths, n).0.contains(id) == speaks(documents, paths, n, id).0,
        impacts(documents, paths, n).1.contains(id) == speaks(documents, paths, n, id).1,
    decreases n,
{
    if n > 0 {
        lemma_impacts(documents, paths, n - 1, id);
        let path = paths[n - 1];
        if speaks(documents, paths, n, id).0 {
            let k = choose|k: int|
                0 <= k < n && documents.contains_key(#[trigger] paths[k]) && strands_in(
                    documents[paths[k]],
                ).contains(id);
            if k < n - 1 {
                assert(speaks(documents, paths, n - 1, id).0);
            }
        }
        if speaks(documents, paths, n, id).1 {
            let k = choose|k: int|
                0 <= k < n && documents.contains_key(#[trigger] paths[k]) && anchors_in(
                    documents[paths[k]],
                ).contains(id);
            if k < n - 1 {
                assert(speaks(documents, paths, n - 1, id).1);
            }
        }
        if documents.contains_key(path) {
            assert(documents.contains_key(paths[n - 1]));
        }
        if speaks(documents, paths, n - 1, id).0 {
            let k = choose|k: int|
                0 <= k < n - 1 && documents.contains_key(#[trigger] paths[k]) && strands_in(
                    documents[paths[k]],
                ).contains(id);
            assert(documents.contains_key(paths[k]));
        }
        if speaks(documents, paths, n - 1, id).1 {
            let k = choose|k: int|
                0 <= k < n - 1 && documents.contains_key(#[trigger] paths[k]) && anchors_in(
                    documents[paths[k]],
                ).contains(id);
            assert(documents.contains_key(paths[k]));
        }
    }
}

proof fn lemma_membership_strands(all: Seq<IndexedMemberView>, n: int, i: int)
    requires
        0 <= i < n <= all.len(),
    ensures
        all[i].strand is Some ==> membership_strands(all, n).contains(all[i].strand->0),
    decreases n,
{
    if i < n - 1 {
        lemma_membership_strands(all, n - 1, i);
    }
}

proof fn lemma_membership_anchors(all: Seq<IndexedMemberView>, n: int, i: int)
    requires
        0 <= i < n <= all.len(),
    ensures
        membership_anchors(all, n).contains(all[i].member.anchor),
    decreases n,
{
    if i < n - 1 {
        lemma_membership_anchors(all, n - 1, i);
    }
}

proof fn lemma_relation_ends(all: Seq<IndexedRelationView>, n: int, i: int)
    requires
        0 <= i < n <= all.len(),
    ensures
        relation_ends(all, n).contains(all[i].relation.from),
        relation_ends(all, n).contains(all[i].relation.to),
    decreases n,
{
    if i < n - 1 {
        lemma_relation_ends(all, n - 1, i);
    }
}

proof fn lemma_strand_ids(all: Seq<IndexedView<StrandView>>, n: int, i: int)
    requires
        0 <= i < n <= all.len(),
    ensures
        strand_ids(all, n).contains(all[i].value.id),
    decreases n,
{
    if i < n - 1 {
        lemma_strand_ids(all, n - 1, i);
    }
}

proof fn lemma_anchor_ids(all: Seq<IndexedView<AnchorView>>, n: int, i: int)
    requires
        0 <= i < n <= all.len(),
    ensures
        anchor_ids(all, n).contains(all[i].value.id),
    decreases n,
{
    if i < n - 1 {
        lemma_anchor_ids(all, n - 1, i);
    }
}

proof fn lemma_find_member_strand(all: Seq<IndexedMemberView>, id: Seq<char>, i: int) -> (k: int)
    requires
        0 <= i <= all.len(),
    ensures
        i <= k <= all.len(),
        forall|j: int| i <= j < k ==> !is_member_of(#[trigger] all[j], id),
        match spoken_strand(all, id, i) {
            Some(found) => k < all.len() && found == (IndexedView { value: implicit_strand(id), provenance: all[k].provenance }) && is_member_of(all[k], id),
            None => k == all.len(),
        },
    decreases all.len() - i,
{
    if i < all.len() && !is_member_of(all[i], id) {
        lemma_find_member_strand(all, id, i + 1)
    } else {
        i
    }
}

proof fn lemma_find_member_place(all: Seq<IndexedMemberView>, id: Seq<char>, i: int) -> (k: int)
    requires
        0 <= i <= all.len(),
    ensures
        i <= k <= all.len(),
        forall|j: int| i <= j < k ==> !is_membership_of(#[trigger] all[j], id),
        match member_place(all, id, i) {
            Some(found) => k < all.len() && found == all[k].provenance && is_membership_of(all[k], id),
            None => k == all.len(),
        },
    decreases all.len() - i,
{
    if i < all.len() && !is_membership_of(all[i], id) {
        lemma_find_member_place(all, id, i + 1)
    } else {
        i
    }
}

proof fn lemma_find_relation_place(all: Seq<IndexedRelationView>, id: Seq<char>, i: int) -> (k: int)
    requires
        0 <= i <= all.len(),
    ensures
        i <= k <= all.len(),
        forall|j: int| i <= j < k ==> !is_relation_of(#[trigger] all[j], id),
        match relation_place(all, id, i) {
            Some(found) => k < all.len() && found == all[k].provenance && is_relation_of(all[k], id),
            None => k == all.len(),
        },
    decreases all.len() - i,
{
    if i < all.len() && !is_relation_of(all[i], id) {
        lemma_find_relation_place(all, id, i + 1)
    } else {
        i
    }
}

/// What a map holds for an id.
pub open spec fn lookup<V>(map: Map<Seq<char>, V>, id: Seq<char>) -> Option<V> {
    if map.contains_key(id) {
        Some(map[id])
    } else {
        None
    }
}

/// The first of two values that is there.
spec fn either<V>(a: Option<V>, b: Option<V>) -> Option<V> {
    if a is Some {
        a
    } else {
        b
    }
}

/// What the first file, from position `i` on, says for which it says anything.
spec fn first_in<T>(
    documents: Map<Seq<char>, SourceDocumentView>,
    said: spec_fn(SourceDocumentView) -> Option<T>,
    i: int,
) -> Option<T>
    decreases ordered(documents.dom()).len() - i,
{
    if i >= ordered(documents.dom()).len() {
        None
    } else {
        either(
            said(documents[ordered(documents.dom())[i]]),
            first_in(documents, said, i + 1),
        )
    }
}

/// Which file it is that says something first.
proof fn lemma_first_in<T>(
    documents: Map<Seq<char>, SourceDocumentView>,
    said: spec_fn(SourceDocumentView) -> Option<T>,
    i: int,
) -> (k: int)
    requires
        0 <= i <= ordered(documents.dom()).len(),
    ensures
        i <= k <= ordered(documents.dom()).len(),
        forall|j: int|
            i <= j < k ==> said(documents[#[trigger] ordered(documents.dom())[j]]) is None,
        match first_in(documents, said, i) {
            Some(found) => k < ordered(documents.dom()).len() && said(
                documents[ordered(documents.dom())[k]],
            ) == Some(found),
            None => k == ordered(documents.dom()).len(),
        },
    decreases ordered(documents.dom()).len() - i,
{
    let paths = ordered(documents.dom());
    if i < paths.len() && said(documents[paths[i]]) is None {
        lemma_first_in(documents, said, i + 1)
    } else {
        i
    }
}

/// What files say first stays as it is where the files that changed say nothing, before and
/// after.
proof fn lemma_first_stays<T>(
    a: Map<Seq<char>, SourceDocumentView>,
    b: Map<Seq<char>, SourceDocumentView>,
    changed: Set<Seq<char>>,
    said: spec_fn(SourceDocumentView) -> Option<T>,
)
    requires
        a.dom().finite(),
        b.dom().finite(),
        agree_outside(a, b, changed),
        forall|path: Seq<char>|
            a.contains_key(path) && #[trigger] changed.contains(path) ==> said(a[path]) is None,
        forall|path: Seq<char>|
            b.contains_key(path) && #[trigger] changed.contains(path) ==> said(b[path]) is None,
    ensures
        first_in(a, said, 0) == first_in(b, said, 0),
{
    let pa = ordered(a.dom());
    let pb = ordered(b.dom());
    lemma_paths(a);
    lemma_paths(b);
    let k = lemma_first_in(a, said, 0);
    let q = lemma_first_in(b, said, 0);
    if k < pa.len() {
        let path = pa[k];
        assert(a.contains_key(path) && !changed.contains(path));
        assert(b.contains_key(path) && b[path] == a[path]);
        let m = pb.index_of(path);
        assert(pb[m] == path);
        assert(q <= m);
    }
    if q < pb.len() {
        let path = pb[q];
        assert(b.contains_key(path) && !changed.contains(path));
        assert(a.contains_key(path) && a[path] == b[path]);
        let r = pa.index_of(path);
        assert(pa[r] == path);
        assert(k <= r);
        if k < r {
            let m = pb.index_of(pa[k]);
            assert(text_less(pa[k], pa[r]));
            assert(q < m) by {
                lemma_text_order(pa[k], pa[k], pa[k]);
                assert(pb[m] == pa[k]);
            }
            assert(text_less(pb[q], pb[m]));
            lemma_text_order(pa[k], pa[r], pa[k]);
        }
    }
}

/// Behind others, memberships speak of the same strands.
proof fn lemma_spoken_strand_behind(a: Seq<IndexedMemberView>, b: Seq<IndexedMemberView>, id: Seq<char>, i: int)
    requires
        0 <= i <= b.len(),
    ensures
        spoken_strand(a + b, id, a.len() + i) == spoken_strand(b, id, i),
    decreases b.len() - i,
{
    if i < b.len() {
        lemma_spoken_strand_behind(a, b, id, i + 1);
        assert((a + b)[a.len() + i] == b[i]);
    }
}

proof fn lemma_spoken_strand_add(a: Seq<IndexedMemberView>, b: Seq<IndexedMemberView>, id: Seq<char>, i: int)
    requires
        0 <= i <= a.len(),
    ensures
        spoken_strand(a + b, id, i) == either(spoken_strand(a, id, i), spoken_strand(b, id, 0)),
    decreases a.len() - i,
{
    if i < a.len() {
        lemma_spoken_strand_add(a, b, id, i + 1);
        assert((a + b)[i] == a[i]);
    } else {
        lemma_spoken_strand_behind(a, b, id, 0);
    }
}

proof fn lemma_spoken_strand_documents(
    documents: Map<Seq<char>, SourceDocumentView>,
    id: Seq<char>,
    n: int,
)
    requires
        0 <= n <= ordered(documents.dom()).len(),
    ensures
        ({
            let said = |document: SourceDocumentView| spoken_strand(document.memberships, id, 0);
            either(spoken_strand(document_memberships(documents, n), id, 0), first_in(documents, said, n))
                == first_in(documents, said, 0)
        }),
    decreases n,
{
    if n > 0 {
        lemma_spoken_strand_documents(documents, id, n - 1);
        lemma_spoken_strand_add(
            document_memberships(documents, n - 1),
            documents[ordered(documents.dom())[n - 1]].memberships,
            id,
            0,
        );
    }
}

/// A changed file that does not speak of an id does not do so in its memberships.
proof fn lemma_spoken_strand_silent(
    documents: Map<Seq<char>, SourceDocumentView>,
    changed: Set<Seq<char>>,
    id: Seq<char>,
    path: Seq<char>,
)
    requires
        changed.finite(),
        documents.contains_key(path),
        changed.contains(path),
        !speak_of(documents, changed, id).0,
    ensures
        spoken_strand(documents[path].memberships, id, 0) is None,
{
    let all = documents[path].memberships;
    let m = lemma_find_member_strand(all, id, 0);
    if m < all.len() {
        let some = ordered(changed);
        lemma_orderable(changed);
        assert(some.to_set().contains(path));
        let k = some.index_of(path);
        assert(some[k] == path);
        lemma_membership_strands(all, all.len() as int, m);
        lemma_impacts(documents, some, some.len() as int, id);
        assert(speaks(documents, some, some.len() as int, id).0);
    }
}

/// Files that do not speak of an id may change without a difference to what memberships say of it.
proof fn lemma_spoken_strand_stays(
    root: Seq<char>,
    loaded: LoadedMetadataView,
    a: Map<Seq<char>, SourceDocumentView>,
    b: Map<Seq<char>, SourceDocumentView>,
    changed: Set<Seq<char>>,
    id: Seq<char>,
)
    requires
        a.dom().finite(),
        b.dom().finite(),
        changed.finite(),
        agree_outside(a, b, changed),
        !speak_of(a, changed, id).0,
        !speak_of(b, changed, id).0,
    ensures
        spoken_strand(stated_memberships(root, loaded, a), id, 0) == spoken_strand(
            stated_memberships(root, loaded, b),
            id,
            0,
        ),
{
    let said = |document: SourceDocumentView| spoken_strand(document.memberships, id, 0);
    let na = ordered(a.dom()).len() as int;
    let nb = ordered(b.dom()).len() as int;
    assert forall|path: Seq<char>|
        a.contains_key(path) && #[trigger] changed.contains(path) implies said(a[path]) is None by {
        lemma_spoken_strand_silent(a, changed, id, path);
    }
    assert forall|path: Seq<char>|
        b.contains_key(path) && #[trigger] changed.contains(path) implies said(b[path]) is None by {
        lemma_spoken_strand_silent(b, changed, id, path);
    }
    lemma_first_stays(a, b, changed, said);
    lemma_spoken_strand_documents(a, id, na);
    lemma_spoken_strand_documents(b, id, nb);
    let sidecars = sidecar_memberships(root, loaded.strands, loaded.strands.len() as int);
    lemma_spoken_strand_add(sidecars, document_memberships(a, na), id, 0);
    lemma_spoken_strand_add(sidecars, document_memberships(b, nb), id, 0);
}

/// Behind others, memberships speak of the same anchors.
proof fn lemma_member_place_behind(a: Seq<IndexedMemberView>, b: Seq<IndexedMemberView>, id: Seq<char>, i: int)
    requires
        0 <= i <= b.len(),
    ensures
        member_place(a + b, id, a.len() + i) == member_place(b, id, i),
    decreases b.len() - i,
{
    if i < b.len() {
        lemma_member_place_behind(a, b, id, i + 1);
        assert((a + b)[a.len() + i] == b[i]);
    }
}

proof fn lemma_member_place_add(a: Seq<IndexedMemberView>, b: Seq<IndexedMemberView>, id: Seq<char>, i: int)
    requires
        0 <= i <= a.len(),
    ensures
        member_place(a + b, id, i) == either(member_place(a, id, i), member_place(b, id, 0)),
    decreases a.len() - i,
{
    if i < a.len() {
        lemma_member_place_add(a, b, id, i + 1);
        assert((a + b)[i] == a[i]);
    } else {
        lemma_member_place_behind(a, b, id, 0);
    }
}

proof fn lemma_member_place_documents(
    documents: Map<Seq<char>, SourceDocumentView>,
    id: Seq<char>,
    n: int,
)
    requires
        0 <= n <= ordered(documents.dom()).len(),
    ensures
        ({
            let said = |document: SourceDocumentView| member_place(document.memberships, id, 0);
            either(member_place(document_memberships(documents, n), id, 0), first_in(documents, said, n))
                == first_in(documents, said, 0)
        }),
    decreases n,
{
    if n > 0 {
        lemma_member_place_documents(documents, id, n - 1);
        lemma_member_place_add(
            document_memberships(documents, n - 1),
            documents[ordered(documents.dom())[n - 1]].memberships,
            id,
            0,
        );
    }
}

/// A changed file that does not speak of an id does not do so in its memberships.
proof fn lemma_member_place_silent(
    documents: Map<Seq<char>, SourceDocumentView>,
    changed: Set<Seq<char>>,
    id: Seq<char>,
    path: Seq<char>,
)
    requires
        changed.finite(),
        documents.contains_key(path),
        changed.contains(path),
        !speak_of(documents, changed, id).1,
    ensures
        member_place(documents[path].memberships, id, 0) is None,
{
    let all = documents[path].memberships;
    let m = lemma_find_member_place(all, id, 0);
    if m < all.len() {
        let some = ordered(changed);
        lemma_orderable(changed);
        assert(some.to_set().contains(path));
        let k = some.index_of(path);
        assert(some[k] == path);
        lemma_membership_anchors(all, all.len() as int, m);
        lemma_impacts(documents, some, some.len() as int, id);
        assert(speaks(documents, some, some.len() as int, id).1);
    }
}

/// Files that do not speak of an id may change without a difference to what memberships say of it.
proof fn lemma_member_place_stays(
    root: Seq<char>,
    loaded: LoadedMetadataView,
    a: Map<Seq<char>, SourceDocumentView>,
    b: Map<Seq<char>, SourceDocumentView>,
    changed: Set<Seq<char>>,
    id: Seq<char>,
)
    requires
        a.dom().finite(),
        b.dom().finite(),
        changed.finite(),
        agree_outside(a, b, changed),
        !speak_of(a, changed, id).1,
        !speak_of(b, changed, id).1,
    ensures
        member_place(stated_memberships(root, loaded, a), id, 0) == member_place(
            stated_memberships(root, loaded, b),
            id,
            0,
        ),
{
    let said = |document: SourceDocumentView| member_place(document.memberships, id, 0);
    let na = ordered(a.dom()).len() as int;
    let nb = ordered(b.dom()).len() as int;
    assert forall|path: Seq<char>|
        a.contains_key(path) && #[trigger] changed.contains(path) implies said(a[path]) is None by {
        lemma_member_place_silent(a, changed, id, path);
    }
    assert forall|path: Seq<char>|
        b.contains_key(path) && #[trigger] changed.contains(path) implies said(b[path]) is None by {
        lemma_member_place_silent(b, changed, id, path);
    }
    lemma_first_stays(a, b, changed, said);
    lemma_member_place_documents(a, id, na);
    lemma_member_place_documents(b, id, nb);
    let sidecars = sidecar_memberships(root, loaded.strands, loaded.strands.len() as int);
    lemma_member_place_add(sidecars, document_memberships(a, na), id, 0);
    lemma_member_place_add(sidecars, document_memberships(b, nb), id, 0);
}

/// Behind others, relations speak of the same anchors.
proof fn lemma_relation_place_behind(a: Seq<IndexedRelationView>, b: Seq<IndexedRelationView>, id: Seq<char>, i: int)
    requires
        0 <= i <= b.len(),
    ensures
        relation_place(a + b, id, a.len() + i) == relation_place(b, id, i),
    decreases b.len() - i,
{
    if i < b.len() {
        lemma_relation_place_behind(a, b, id, i + 1);
        assert((a + b)[a.len() + i] == b[i]);
    }
}

proof fn lemma_relation_place_add(a: Seq<IndexedRelationView>, b: Seq<IndexedRelationView>, id: Seq<char>, i: int)
    requires
        0 <= i <= a.len(),
    ensures
        relation_place(a + b, id, i) == either(relation_place(a, id, i), relation_place(b, id, 0)),
    decreases a.len() - i,
{
    if i < a.len() {
        lemma_relation_place_add(a, b, id, i + 1);
        assert((a + b)[i] == a[i]);
    } else {
        lemma_relation_place_behind(a, b, id, 0);
    }
}

proof fn lemma_relation_place_documents(
    documents: Map<Seq<char>, SourceDocumentView>,
    id: Seq<char>,
    n: int,
)
    requires
        0 <= n <= ordered(documents.dom()).len(),
    ensures
        ({
            let said = |document: SourceDocumentView| relation_place(document.relations, id, 0);
            either(relation_place(document_relations(documents, n), id, 0), first_in(documents, said, n))
                == first_in(documents, said, 0)
        }),
    decreases n,
{
    if n > 0 {
        lemma_relation_place_documents(documents, id, n - 1);
        lemma_relation_place_add(
            document_relations(documents, n - 1),
            documents[ordered(documents.dom())[n - 1]].relations,
            id,
            0,
        );
    }
}

/// A changed file that does not speak of an id does not do so in its relations.
proof fn lemma_relation_place_silent(
    documents: Map<Seq<char>, SourceDocumentView>,
    changed: Set<Seq<char>>,
    id: Seq<char>,
    path: Seq<char>,
)
    requires
        changed.finite(),
        documents.contains_key(path),
        changed.contains(path),
        !speak_of(documents, changed, id).1,
    ensures
        relation_place(documents[path].relations, id, 0) is None,
{
    let all = documents[path].relations;
    let m = lemma_find_relation_place(all, id, 0);
    if m < all.len() {
        let some = ordered(changed);
        lemma_orderable(changed);
        assert(some.to_set().contains(path));
        let k = some.index_of(path);
        assert(some[k] == path);
        lemma_relation_ends(all, all.len() as int, m);
        lemma_impacts(documents, some, some.len() as int, id);
        assert(speaks(documents, some, some.len() as int, id).1);
    }
}

/// Files that do not speak of an id may change without a difference to what relations say of it.
proof fn lemma_relation_place_stays(
    root: Seq<char>,
    loaded: LoadedMetadataView,
    a: Map<Seq<char>, SourceDocumentView>,
    b: Map<Seq<char>, SourceDocumentView>,
    changed: Set<Seq<char>>,
    id: Seq<char>,
)
    requires
        a.dom().finite(),
        b.dom().finite(),
        changed.finite(),
        agree_outside(a, b, changed),
        !speak_of(a, changed, id).1,
        !speak_of(b, changed, id).1,
    ensures
        relation_place(stated_relations(root, loaded, a), id, 0) == relation_place(
            stated_relations(root, loaded, b),
            id,
            0,
        ),
{
    let said = |document: SourceDocumentView| relation_place(document.relations, id, 0);
    let na = ordered(a.dom()).len() as int;
    let nb = ordered(b.dom()).len() as int;
    assert forall|path: Seq<char>|
        a.contains_key(path) && #[trigger] changed.contains(path) implies said(a[path]) is None by {
        lemma_relation_place_silent(a, changed, id, path);
    }
    assert forall|path: Seq<char>|
        b.contains_key(path) && #[trigger] changed.contains(path) implies said(b[path]) is None by {
        lemma_relation_place_silent(b, changed, id, path);
    }
    lemma_first_stays(a, b, changed, said);
    lemma_relation_place_documents(a, id, na);
    lemma_relation_place_documents(b, id, nb);
    let sidecars = sidecar_links(root, loaded.strands, loaded.strands.len() as int) + global_links(
        root,
        loaded.relations,
    );
    lemma_relation_place_add(sidecars, document_relations(a, na), id, 0);
    lemma_relation_place_add(sidecars, document_relations(b, nb), id, 0);
}

proof fn lemma_strand_items(
    g: GraphView,
    root: Seq<char>,
    items: Seq<MetadataItemView<StrandView>>,
    id: Seq<char>,
    n: int,
)
    requires
        0 <= n <= items.len(),
    ensures
        either(
            lookup(with_strand_items(g, root, items, n).strands, id),
            sidecar_strand(root, items, id, n),
        ) == either(lookup(g.strands, id), sidecar_strand(root, items, id, 0)),
    decreases n,
{
    if n > 0 {
        lemma_strand_items(g, root, items, id, n - 1);
    }
}

proof fn lemma_source_strands(
    g: GraphView,
    strands: Seq<IndexedView<StrandView>>,
    id: Seq<char>,
    n: int,
)
    requires
        0 <= n <= strands.len(),
    ensures
        either(lookup(with_source_strands(g, strands, n).strands, id), strand_among(strands, id, n))
            == either(lookup(g.strands, id), strand_among(strands, id, 0)),
    decreases n,
{
    if n > 0 {
        lemma_source_strands(g, strands, id, n - 1);
    }
}

proof fn lemma_documents_strands(
    g: GraphView,
    documents: Map<Seq<char>, SourceDocumentView>,
    id: Seq<char>,
    n: int,
)
    requires
        0 <= n <= ordered(documents.dom()).len(),
    ensures
        either(lookup(with_documents(g, documents, n).strands, id), source_strand(documents, id, n))
            == either(lookup(g.strands, id), source_strand(documents, id, 0)),
    decreases n,
{
    if n > 0 {
        lemma_documents_strands(g, documents, id, n - 1);
        let before = with_documents(g, documents, n - 1);
        let document = documents[ordered(documents.dom())[n - 1]];
        let edges = GraphView {
            diagnostics: before.diagnostics + document.diagnostics,
            memberships: before.memberships + document.memberships,
            relations: before.relations + document.relations,
            ..before
        };
        let count = document.strands.len() as int;
        lemma_source_strands(edges, document.strands, id, count);
        lemma_source_anchors_edges(
            with_source_strands(edges, document.strands, count),
            document.anchors,
            document.anchors.len() as int,
        );
    }
}

proof fn lemma_implicit_lookup(g: GraphView, id: Seq<char>, n: int)
    requires
        0 <= n <= g.memberships.len(),
    ensures
        either(lookup(with_implicit_strands(g, n).strands, id), spoken_strand(g.memberships, id, n))
            == either(lookup(g.strands, id), spoken_strand(g.memberships, id, 0)),
    decreases n,
{
    if n > 0 {
        lemma_implicit_lookup(g, id, n - 1);
        lemma_implicit_edges(g, n - 1);
    }
}

/// The strand that a graph has under an id is the one that is looked up for it.
pub(crate) proof fn lemma_strand_lookup(
    root: Seq<char>,
    loaded: LoadedMetadataView,
    documents: Map<Seq<char>, SourceDocumentView>,
    id: Seq<char>,
)
    ensures
        lookup(graph_of(root, loaded, documents).strands, id) == current_strand(
            root,
            loaded,
            documents,
            stated_graph(root, loaded, documents).memberships,
            id,
        ),
{
    let empty = GraphView {
        strands: Map::empty(),
        anchors: Map::empty(),
        memberships: seq![],
        relations: seq![],
        diagnostics: loaded.diagnostics,
    };
    let strands = with_strand_items(empty, root, loaded.strands, loaded.strands.len() as int);
    let anchors = with_anchor_items(strands, root, loaded.anchors, loaded.anchors.len() as int);
    let g = with_relation_items(anchors, root, loaded.relations, loaded.relations.len() as int);
    lemma_strand_items(empty, root, loaded.strands, id, loaded.strands.len() as int);
    lemma_strand_items_edges(empty, root, loaded.strands, loaded.strands.len() as int);
    lemma_anchor_items_edges(strands, root, loaded.anchors, loaded.anchors.len() as int);
    lemma_relation_items_edges(anchors, root, loaded.relations, loaded.relations.len() as int);
    let n = ordered(documents.dom()).len() as int;
    lemma_documents_strands(g, documents, id, n);
    let stated = with_documents(g, documents, n);
    assert(stated == stated_graph(root, loaded, documents));
    let placed = GraphView { anchors: all_placed(stated.anchors), ..stated };
    lemma_implicit_lookup(placed, id, stated.memberships.len() as int);
}

proof fn lemma_strand_among(strands: Seq<IndexedView<StrandView>>, id: Seq<char>, i: int)
    requires
        0 <= i <= strands.len(),
        strand_among(strands, id, i) is Some,
    ensures
        exists|k: int| 0 <= k < strands.len() && (#[trigger] strands[k]).value.id == id,
    decreases strands.len() - i,
{
    if i < strands.len() && strands[i].value.id != id {
        lemma_strand_among(strands, id, i + 1);
    }
}

/// The strand that an annotation states is the one that the first file says.
proof fn lemma_source_strand(
    documents: Map<Seq<char>, SourceDocumentView>,
    id: Seq<char>,
    i: int,
)
    requires
        0 <= i <= ordered(documents.dom()).len(),
    ensures
        ({
            let said = |document: SourceDocumentView| strand_among(document.strands, id, 0);
            source_strand(documents, id, i) == first_in(documents, said, i)
        }),
    decreases ordered(documents.dom()).len() - i,
{
    if i < ordered(documents.dom()).len() {
        lemma_source_strand(documents, id, i + 1);
    }
}

proof fn lemma_silent_strands(
    documents: Map<Seq<char>, SourceDocumentView>,
    changed: Set<Seq<char>>,
    id: Seq<char>,
    path: Seq<char>,
)
    requires
        changed.finite(),
        documents.contains_key(path),
        strand_among(documents[path].strands, id, 0) is Some,
        !speak_of(documents, changed, id).0,
    ensures
        !changed.contains(path),
{
    if changed.contains(path) {
        let some = ordered(changed);
        lemma_orderable(changed);
        assert(some.to_set().contains(path));
        let k = some.index_of(path);
        assert(some[k] == path);
        lemma_strand_among(documents[path].strands, id, 0);
        let strands = documents[path].strands;
        let m = choose|m: int| 0 <= m < strands.len() && (#[trigger] strands[m]).value.id == id;
        lemma_strand_ids(strands, strands.len() as int, m);
        lemma_impacts(documents, some, some.len() as int, id);
        assert(speaks(documents, some, some.len() as int, id).0);
    }
}

proof fn lemma_source_strand_stays(
    a: Map<Seq<char>, SourceDocumentView>,
    b: Map<Seq<char>, SourceDocumentView>,
    changed: Set<Seq<char>>,
    id: Seq<char>,
)
    requires
        a.dom().finite(),
        b.dom().finite(),
        changed.finite(),
        agree_outside(a, b, changed),
        !speak_of(a, changed, id).0,
        !speak_of(b, changed, id).0,
    ensures
        source_strand(a, id, 0) == source_strand(b, id, 0),
{
    let said = |document: SourceDocumentView| strand_among(document.strands, id, 0);
    assert forall|path: Seq<char>|
        a.contains_key(path) && #[trigger] changed.contains(path) implies said(a[path]) is None by {
        if said(a[path]) is Some {
            lemma_silent_strands(a, changed, id, path);
        }
    }
    assert forall|path: Seq<char>|
        b.contains_key(path) && #[trigger] changed.contains(path) implies said(b[path]) is None by {
        if said(b[path]) is Some {
            lemma_silent_strands(b, changed, id, path);
        }
    }
    lemma_first_stays(a, b, changed, said);
    lemma_source_strand(a, id, 0);
    lemma_source_strand(b, id, 0);
}

/// A strand that changed files do not speak of stays as it is.
proof fn lemma_strand_stays(
    root: Seq<char>,
    loaded: LoadedMetadataView,
    a: Map<Seq<char>, SourceDocumentView>,
    b: Map<Seq<char>, SourceDocumentView>,
    changed: Set<Seq<char>>,
    id: Seq<char>,
)
    requires
        a.dom().finite(),
        b.dom().finite(),
        changed.finite(),
        agree_outside(a, b, changed),
        !speak_of(a, changed, id).0,
        !speak_of(b, changed, id).0,
    ensures
        lookup(graph_of(root, loaded, a).strands, id) == lookup(
            graph_of(root, loaded, b).strands,
            id,
        ),
{
    lemma_strand_lookup(root, loaded, a, id);
    lemma_strand_lookup(root, loaded, b, id);
    lemma_stated_edges(root, loaded, a);
    lemma_stated_edges(root, loaded, b);
    lemma_spoken_strand_stays(root, loaded, a, b, changed, id);
    lemma_source_strand_stays(a, b, changed, id);
}

proof fn lemma_refreshed_strands(
    strands: Map<Seq<char>, IndexedView<StrandView>>,
    root: Seq<char>,
    loaded: LoadedMetadataView,
    documents: Map<Seq<char>, SourceDocumentView>,
    memberships: Seq<IndexedMemberView>,
    ids: Seq<Seq<char>>,
    n: int,
    id: Seq<char>,
)
    requires
        0 <= n <= ids.len(),
    ensures
        lookup(
            refreshed_strands(strands, root, loaded, documents, memberships, ids, n),
            id,
        ) == if ids.take(n).contains(id) {
            current_strand(root, loaded, documents, memberships, id)
        } else {
            lookup(strands, id)
        },
    decreases n,
{
    if n > 0 {
        lemma_refreshed_strands(strands, root, loaded, documents, memberships, ids, n - 1, id);
        assert(ids.take(n) =~= ids.take(n - 1).push(ids[n - 1]));
        lemma_push_contains(ids.take(n - 1), ids[n - 1], id);
    }
}

proof fn lemma_anchor_items(
    g: GraphView,
    root: Seq<char>,
    items: Seq<MetadataItemView<AnchorView>>,
    id: Seq<char>,
    n: int,
)
    requires
        0 <= n <= items.len(),
    ensures
        either(
            lookup(with_anchor_items(g, root, items, n).anchors, id),
            sidecar_anchor(root, items, id, n),
        ) == either(lookup(g.anchors, id), sidecar_anchor(root, items, id, 0)),
    decreases n,
{
    if n > 0 {
        lemma_anchor_items(g, root, items, id, n - 1);
    }
}

proof fn lemma_source_anchors(
    g: GraphView,
    anchors: Seq<IndexedView<AnchorView>>,
    id: Seq<char>,
    n: int,
)
    requires
        0 <= n <= anchors.len(),
        forall|i: int|
            0 <= i < anchors.len() ==> with_repository_path((#[trigger] anchors[i]).value)
                == anchors[i].value,
    ensures
        lookup(with_source_anchors(g, anchors, n).anchors, id) == located_among(
            lookup(g.anchors, id),
            anchors,
            id,
            n,
        ),
    decreases n,
{
    if n > 0 {
        lemma_source_anchors(g, anchors, id, n - 1);
        assert(with_repository_path(anchors[n - 1].value) == anchors[n - 1].value);
    }
}

proof fn lemma_documents_anchors(
    g: GraphView,
    documents: Map<Seq<char>, SourceDocumentView>,
    id: Seq<char>,
    n: int,
)
    requires
        0 <= n <= ordered(documents.dom()).len(),
        documents.dom().finite(),
        all_annotated(documents),
    ensures
        lookup(with_documents(g, documents, n).anchors, id) == located_in(
            lookup(g.anchors, id),
            documents,
            id,
            n,
        ),
    decreases n,
{
    if n > 0 {
        lemma_documents_anchors(g, documents, id, n - 1);
        lemma_paths(documents);
        let path = ordered(documents.dom())[n - 1];
        assert(documents.contains_key(path));
        let before = with_documents(g, documents, n - 1);
        let document = documents[path];
        let edges = GraphView {
            diagnostics: before.diagnostics + document.diagnostics,
            memberships: before.memberships + document.memberships,
            relations: before.relations + document.relations,
            ..before
        };
        let count = document.strands.len() as int;
        lemma_source_strands_edges(edges, document.strands, count);
        lemma_source_anchors(
            with_source_strands(edges, document.strands, count),
            document.anchors,
            id,
            document.anchors.len() as int,
        );
    }
}

/// The anchor that is known by its target at a place.
spec fn target_at(id: Seq<char>, place: Option<ProvenanceView>) -> Option<IndexedView<AnchorView>> {
    if !is_target(id) {
        None
    } else {
        match place {
            Some(provenance) => Some(IndexedView { value: target_anchor(id), provenance }),
            None => None,
        }
    }
}

proof fn lemma_member_targets(
    anchors: Map<Seq<char>, IndexedView<AnchorView>>,
    memberships: Seq<IndexedMemberView>,
    id: Seq<char>,
    n: int,
)
    requires
        0 <= n <= memberships.len(),
    ensures
        either(
            lookup(with_member_targets(anchors, memberships, n), id),
            target_at(id, member_place(memberships, id, n)),
        ) == either(lookup(anchors, id), target_at(id, member_place(memberships, id, 0))),
    decreases n,
{
    if n > 0 {
        lemma_member_targets(anchors, memberships, id, n - 1);
    }
}

proof fn lemma_relation_targets(
    anchors: Map<Seq<char>, IndexedView<AnchorView>>,
    relations: Seq<IndexedRelationView>,
    id: Seq<char>,
    n: int,
)
    requires
        0 <= n <= relations.len(),
    ensures
        either(
            lookup(with_relation_targets(anchors, relations, n), id),
            target_at(id, relation_place(relations, id, n)),
        ) == either(lookup(anchors, id), target_at(id, relation_place(relations, id, 0))),
    decreases n,
{
    if n > 0 {
        lemma_relation_targets(anchors, relations, id, n - 1);
    }
}

/// The anchor that a graph has under an id is the one that is looked up for it.
pub(crate) proof fn lemma_anchor_lookup(
    root: Seq<char>,
    loaded: LoadedMetadataView,
    documents: Map<Seq<char>, SourceDocumentView>,
    id: Seq<char>,
)
    requires
        documents.dom().finite(),
        all_annotated(documents),
    ensures
        lookup(graph_of(root, loaded, documents).anchors, id) == current_anchor(
            root,
            loaded,
            documents,
            stated_graph(root, loaded, documents).memberships,
            stated_graph(root, loaded, documents).relations,
            id,
        ),
{
    let empty = GraphView {
        strands: Map::empty(),
        anchors: Map::empty(),
        memberships: seq![],
        relations: seq![],
        diagnostics: loaded.diagnostics,
    };
    let strands = with_strand_items(empty, root, loaded.strands, loaded.strands.len() as int);
    let anchors = with_anchor_items(strands, root, loaded.anchors, loaded.anchors.len() as int);
    let g = with_relation_items(anchors, root, loaded.relations, loaded.relations.len() as int);
    lemma_strand_items_anchors(empty, root, loaded, loaded.strands.len() as int);
    lemma_strand_items_edges(empty, root, loaded.strands, loaded.strands.len() as int);
    lemma_anchor_items_edges(strands, root, loaded.anchors, loaded.anchors.len() as int);
    lemma_anchor_items(strands, root, loaded.anchors, id, loaded.anchors.len() as int);
    lemma_relation_items_edges(anchors, root, loaded.relations, loaded.relations.len() as int);
    let n = ordered(documents.dom()).len() as int;
    lemma_documents_anchors(g, documents, id, n);
    let stated = with_documents(g, documents, n);
    assert(stated == stated_graph(root, loaded, documents));
    let placed = GraphView { anchors: all_placed(stated.anchors), ..stated };
    let m = stated.memberships.len() as int;
    lemma_implicit_edges(placed, m);
    lemma_member_targets(placed.anchors, stated.memberships, id, m);
    lemma_relation_targets(
        with_member_targets(placed.anchors, stated.memberships, m),
        stated.relations,
        id,
        stated.relations.len() as int,
    );
}

proof fn lemma_strand_items_anchors(
    g: GraphView,
    root: Seq<char>,
    loaded: LoadedMetadataView,
    n: int,
)
    ensures
        with_strand_items(g, root, loaded.strands, n).anchors == g.anchors,
    decreases n,
{
    if n > 0 {
        lemma_strand_items_anchors(g, root, loaded, n - 1);
    }
}

/// Whether the annotations of a file state an anchor.
spec fn mentions(document: SourceDocumentView, id: Seq<char>) -> bool {
    exists|i: int|
        0 <= i < document.anchors.len() && (#[trigger] document.anchors[i]).value.id == id
}

/// The files among the first `n` that state an anchor.
spec fn mentioning(
    documents: Map<Seq<char>, SourceDocumentView>,
    paths: Seq<Seq<char>>,
    id: Seq<char>,
    n: int,
) -> Seq<Seq<char>>
    decreases n,
{
    if n <= 0 {
        seq![]
    } else if mentions(documents[paths[n - 1]], id) {
        mentioning(documents, paths, id, n - 1).push(paths[n - 1])
    } else {
        mentioning(documents, paths, id, n - 1)
    }
}

/// An anchor once the annotations of the first `n` of some files are looked at.
spec fn located_over(
    selected: Option<IndexedView<AnchorView>>,
    documents: Map<Seq<char>, SourceDocumentView>,
    paths: Seq<Seq<char>>,
    id: Seq<char>,
    n: int,
) -> Option<IndexedView<AnchorView>>
    decreases n,
{
    if n <= 0 {
        selected
    } else {
        let anchors = documents[paths[n - 1]].anchors;
        located_among(
            located_over(selected, documents, paths, id, n - 1),
            anchors,
            id,
            anchors.len() as int,
        )
    }
}

proof fn lemma_located_over(
    selected: Option<IndexedView<AnchorView>>,
    a: Map<Seq<char>, SourceDocumentView>,
    b: Map<Seq<char>, SourceDocumentView>,
    pa: Seq<Seq<char>>,
    pb: Seq<Seq<char>>,
    id: Seq<char>,
    n: int,
)
    requires
        0 <= n <= pa.len(),
        n <= pb.len(),
        forall|k: int| 0 <= k < n ==> #[trigger] pa[k] == pb[k] && a[pa[k]] == b[pa[k]],
    ensures
        located_over(selected, a, pa, id, n) == located_over(selected, b, pb, id, n),
    decreases n,
{
    if n > 0 {
        lemma_located_over(selected, a, b, pa, pb, id, n - 1);
        assert(pa[n - 1] == pb[n - 1]);
    }
}

proof fn lemma_not_located(
    selected: Option<IndexedView<AnchorView>>,
    anchors: Seq<IndexedView<AnchorView>>,
    id: Seq<char>,
    n: int,
)
    requires
        0 <= n <= anchors.len(),
        forall|i: int| 0 <= i < anchors.len() ==> (#[trigger] anchors[i]).value.id != id,
    ensures
        located_among(selected, anchors, id, n) == selected,
    decreases n,
{
    if n > 0 {
        lemma_not_located(selected, anchors, id, n - 1);
    }
}

proof fn lemma_located_mentioning(
    selected: Option<IndexedView<AnchorView>>,
    documents: Map<Seq<char>, SourceDocumentView>,
    id: Seq<char>,
    n: int,
)
    requires
        0 <= n <= ordered(documents.dom()).len(),
    ensures
        ({
            let some = mentioning(documents, ordered(documents.dom()), id, n);
            located_in(selected, documents, id, n) == located_over(
                selected,
                documents,
                some,
                id,
                some.len() as int,
            )
        }),
    decreases n,
{
    let paths = ordered(documents.dom());
    if n > 0 {
        lemma_located_mentioning(selected, documents, id, n - 1);
        let before = mentioning(documents, paths, id, n - 1);
        let document = documents[paths[n - 1]];
        if mentions(document, id) {
            let now = before.push(paths[n - 1]);
            lemma_located_over(
                selected,
                documents,
                documents,
                before,
                now,
                id,
                before.len() as int,
            );
            assert(now[now.len() - 1] == paths[n - 1]);
        } else {
            lemma_not_located(
                located_in(selected, documents, id, n - 1),
                document.anchors,
                id,
                document.anchors.len() as int,
            );
        }
    }
}

proof fn lemma_mentioning(
    documents: Map<Seq<char>, SourceDocumentView>,
    paths: Seq<Seq<char>>,
    id: Seq<char>,
    n: int,
)
    requires
        0 <= n <= paths.len(),
        increasing(paths),
    ensures
        increasing(mentioning(documents, paths, id, n)),
        forall|path: Seq<char>| #[trigger]
            mentioning(documents, paths, id, n).contains(path) == (paths.take(n).contains(path)
                && mentions(documents[path], id)),
    decreases n,
{
    if n > 0 {
        lemma_mentioning(documents, paths, id, n - 1);
        let before = mentioning(documents, paths, id, n - 1);
        let now = mentioning(documents, paths, id, n);
        let last = paths[n - 1];
        assert(paths.take(n) =~= paths.take(n - 1).push(last));
        assert forall|path: Seq<char>| #[trigger] now.contains(path) == (paths.take(n).contains(
            path,
        ) && mentions(documents[path], id)) by {
            assert(before.contains(path) == (paths.take(n - 1).contains(path) && mentions(
                documents[path],
                id,
            )));
            lemma_push_contains(before, last, path);
            lemma_push_contains(paths.take(n - 1), last, path);
        }
        assert forall|i: int, j: int| 0 <= i < j < now.len() implies text_less(
            #[trigger] now[i],
            #[trigger] now[j],
        ) by {
            assert(now[i] == before[i]);
            if j < before.len() {
                assert(now[j] == before[j]);
            } else {
                assert(before.contains(before[i]));
                let k = paths.take(n - 1).index_of(before[i]);
                assert(paths[k] == before[i]);
                assert(text_less(paths[k], paths[n - 1]));
            }
        }
    }
}

proof fn lemma_silent_anchors(
    documents: Map<Seq<char>, SourceDocumentView>,
    changed: Set<Seq<char>>,
    id: Seq<char>,
    path: Seq<char>,
)
    requires
        changed.finite(),
        documents.contains_key(path),
        mentions(documents[path], id),
        !speak_of(documents, changed, id).1,
    ensures
        !changed.contains(path),
{
    if changed.contains(path) {
        let some = ordered(changed);
        lemma_orderable(changed);
        assert(some.to_set().contains(path));
        let k = some.index_of(path);
        assert(some[k] == path);
        let anchors = documents[path].anchors;
        let m = choose|m: int| 0 <= m < anchors.len() && (#[trigger] anchors[m]).value.id == id;
        lemma_anchor_ids(anchors, anchors.len() as int, m);
        lemma_impacts(documents, some, some.len() as int, id);
        assert(speaks(documents, some, some.len() as int, id).1);
    }
}

proof fn lemma_located_stays(
    selected: Option<IndexedView<AnchorView>>,
    a: Map<Seq<char>, SourceDocumentView>,
    b: Map<Seq<char>, SourceDocumentView>,
    changed: Set<Seq<char>>,
    id: Seq<char>,
)
    requires
        a.dom().finite(),
        b.dom().finite(),
        changed.finite(),
        agree_outside(a, b, changed),
        !speak_of(a, changed, id).1,
        !speak_of(b, changed, id).1,
    ensures
        located_in(selected, a, id, ordered(a.dom()).len() as int) == located_in(
            selected,
            b,
            id,
            ordered(b.dom()).len() as int,
        ),
{
    let pa = ordered(a.dom());
    let pb = ordered(b.dom());
    lemma_paths(a);
    lemma_paths(b);
    let ma = mentioning(a, pa, id, pa.len() as int);
    let mb = mentioning(b, pb, id, pb.len() as int);
    lemma_mentioning(a, pa, id, pa.len() as int);
    lemma_mentioning(b, pb, id, pb.len() as int);
    assert(pa.take(pa.len() as int) =~= pa);
    assert(pb.take(pb.len() as int) =~= pb);
    assert forall|path: Seq<char>| #[trigger] ma.contains(path) implies mb.contains(path)
        && a[path] == b[path] by {
        let k = pa.index_of(path);
        assert(a.contains_key(pa[k]));
        lemma_silent_anchors(a, changed, id, path);
        assert(b.contains_key(path));
    }
    assert forall|path: Seq<char>| #[trigger] mb.contains(path) implies ma.contains(path) by {
        let k = pb.index_of(path);
        assert(b.contains_key(pb[k]));
        lemma_silent_anchors(b, changed, id, path);
        assert(a.contains_key(path));
    }
    assert(ma.to_set() =~= mb.to_set());
    lemma_increasing_unique(ma, mb);
    lemma_located_mentioning(selected, a, id, pa.len() as int);
    lemma_located_mentioning(selected, b, id, pb.len() as int);
    assert forall|k: int| 0 <= k < ma.len() implies #[trigger] ma[k] == mb[k] && a[ma[k]]
        == b[ma[k]] by {
        assert(ma.contains(ma[k]));
    }
    lemma_located_over(selected, a, b, ma, mb, id, ma.len() as int);
}

/// An anchor that changed files do not speak of stays as it is.
proof fn lemma_anchor_stays(
    root: Seq<char>,
    loaded: LoadedMetadataView,
    a: Map<Seq<char>, SourceDocumentView>,
    b: Map<Seq<char>, SourceDocumentView>,
    changed: Set<Seq<char>>,
    id: Seq<char>,
)
    requires
        a.dom().finite(),
        b.dom().finite(),
        changed.finite(),
        all_annotated(a),
        all_annotated(b),
        agree_outside(a, b, changed),
        !speak_of(a, changed, id).1,
        !speak_of(b, changed, id).1,
    ensures
        lookup(graph_of(root, loaded, a).anchors, id) == lookup(
            graph_of(root, loaded, b).anchors,
            id,
        ),
{
    lemma_anchor_lookup(root, loaded, a, id);
    lemma_anchor_lookup(root, loaded, b, id);
    lemma_located_stays(sidecar_anchor(root, loaded.anchors, id, 0), a, b, changed, id);
    lemma_stated_edges(root, loaded, a);
    lemma_stated_edges(root, loaded, b);
    lemma_member_place_stays(root, loaded, a, b, changed, id);
    lemma_relation_place_stays(root, loaded, a, b, changed, id);
}

proof fn lemma_refreshed_anchors(
    anchors: Map<Seq<char>, IndexedView<AnchorView>>,
    root: Seq<char>,
    loaded: LoadedMetadataView,
    documents: Map<Seq<char>, SourceDocumentView>,
    memberships: Seq<IndexedMemberView>,
    relations: Seq<IndexedRelationView>,
    ids: Seq<Seq<char>>,
    n: int,
    id: Seq<char>,
)
    requires
        0 <= n <= ids.len(),
    ensures
        lookup(
            refreshed_anchors(anchors, root, loaded, documents, memberships, relations, ids, n),
            id,
        ) == if ids.take(n).contains(id) {
            current_anchor(root, loaded, documents, memberships, relations, id)
        } else {
            lookup(anchors, id)
        },
    decreases n,
{
    if n > 0 {
        lemma_refreshed_anchors(
            anchors,
            root,
            loaded,
            documents,
            memberships,
            relations,
            ids,
            n - 1,
            id,
        );
        assert(ids.take(n) =~= ids.take(n - 1).push(ids[n - 1]));
        lemma_push_contains(ids.take(n - 1), ids[n - 1], id);
    }
}

/// Whether what was seen is what a graph holds.
spec fn seen_in(c: CheckView, g: GraphView) -> bool {
    &&& c.diagnostics == g.diagnostics
    &&& c.strands.dom() == g.strands.dom()
    &&& c.anchors.dom() == g.anchors.dom()
    &&& forall|id: Seq<char>| #[trigger]
        g.strands.contains_key(id) ==> c.strands[id] == g.strands[id].provenance
    &&& forall|id: Seq<char>| #[trigger]
        g.anchors.contains_key(id) ==> match c.anchors[id] {
            SeenAnchorView::Sidecar(target, provenance) => g.anchors[id].provenance == provenance
                && provenance.source == "sidecar"@ && g.anchors[id].value.target == target,
            SeenAnchorView::Annotation(indexed) => g.anchors[id] == indexed
                && indexed.provenance.source == "annotation"@,
        }
}

proof fn lemma_seen_strand_items(
    c: CheckView,
    g: GraphView,
    root: Seq<char>,
    items: Seq<MetadataItemView<StrandView>>,
    n: int,
)
    requires
        seen_in(c, g),
        0 <= n <= items.len(),
    ensures
        seen_in(checked_strand_items(c, root, items, n), with_strand_items(g, root, items, n)),
    decreases n,
{
    if n > 0 {
        lemma_seen_strand_items(c, g, root, items, n - 1);
        let c1 = checked_strand_items(c, root, items, n - 1);
        let g1 = with_strand_items(g, root, items, n - 1);
        let id = items[n - 1].value.id;
        assert(c1.strands.contains_key(id) == c1.strands.dom().contains(id));
        assert(g1.strands.contains_key(id) == g1.strands.dom().contains(id));
        let c2 = checked_strand_items(c, root, items, n);
        let g2 = with_strand_items(g, root, items, n);
        assert(c2.strands.dom() =~= g2.strands.dom());
    }
}

proof fn lemma_seen_anchor_items(
    c: CheckView,
    g: GraphView,
    root: Seq<char>,
    items: Seq<MetadataItemView<AnchorView>>,
    n: int,
)
    requires
        seen_in(c, g),
        0 <= n <= items.len(),
    ensures
        seen_in(checked_anchor_items(c, root, items, n), with_anchor_items(g, root, items, n)),
    decreases n,
{
    if n > 0 {
        lemma_seen_anchor_items(c, g, root, items, n - 1);
        let c1 = checked_anchor_items(c, root, items, n - 1);
        let g1 = with_anchor_items(g, root, items, n - 1);
        let id = items[n - 1].value.id;
        assert(c1.anchors.contains_key(id) == c1.anchors.dom().contains(id));
        assert(g1.anchors.contains_key(id) == g1.anchors.dom().contains(id));
        let c2 = checked_anchor_items(c, root, items, n);
        let g2 = with_anchor_items(g, root, items, n);
        assert(c2.anchors.dom() =~= g2.anchors.dom());
        if g1.anchors.contains_key(id) {
            assert(first_place(c1.anchors[id]) == g1.anchors[id].provenance);
        }
    }
}

proof fn lemma_seen_source_strands(
    c: CheckView,
    g: GraphView,
    strands: Seq<IndexedView<StrandView>>,
    n: int,
)
    requires
        seen_in(c, g),
        0 <= n <= strands.len(),
    ensures
        seen_in(checked_source_strands(c, strands, n), with_source_strands(g, strands, n)),
    decreases n,
{
    if n > 0 {
        lemma_seen_source_strands(c, g, strands, n - 1);
        let c1 = checked_source_strands(c, strands, n - 1);
        let g1 = with_source_strands(g, strands, n - 1);
        let id = strands[n - 1].value.id;
        assert(c1.strands.contains_key(id) == c1.strands.dom().contains(id));
        assert(g1.strands.contains_key(id) == g1.strands.dom().contains(id));
        let c2 = checked_source_strands(c, strands, n);
        let g2 = with_source_strands(g, strands, n);
        assert(c2.strands.dom() =~= g2.strands.dom());
        assert(c2.diagnostics =~= g2.diagnostics);
    }
}

proof fn lemma_seen_source_anchors(
    c: CheckView,
    g: GraphView,
    anchors: Seq<IndexedView<AnchorView>>,
    n: int,
)
    requires
        seen_in(c, g),
        0 <= n <= anchors.len(),
        forall|i: int|
            0 <= i < anchors.len() ==> (#[trigger] anchors[i]).provenance.source == "annotation"@
                && with_repository_path(anchors[i].value) == anchors[i].value,
    ensures
        seen_in(checked_source_anchors(c, anchors, n), with_source_anchors(g, anchors, n)),
    decreases n,
{
    if n > 0 {
        lemma_seen_source_anchors(c, g, anchors, n - 1);
        lemma_sources_differ();
        let c1 = checked_source_anchors(c, anchors, n - 1);
        let g1 = with_source_anchors(g, anchors, n - 1);
        let indexed = anchors[n - 1];
        let id = indexed.value.id;
        assert(with_repository_path(indexed.value) == indexed.value);
        assert(c1.anchors.contains_key(id) == c1.anchors.dom().contains(id));
        assert(g1.anchors.contains_key(id) == g1.anchors.dom().contains(id));
        let c2 = checked_source_anchors(c, anchors, n);
        let g2 = with_source_anchors(g, anchors, n);
        assert(c2.anchors.dom() =~= g2.anchors.dom());
        assert(c2.diagnostics =~= g2.diagnostics);
    }
}

proof fn lemma_seen_documents(
    c: CheckView,
    g: GraphView,
    documents: Map<Seq<char>, SourceDocumentView>,
    n: int,
)
    requires
        seen_in(c, g),
        documents.dom().finite(),
        all_annotated(documents),
        0 <= n <= ordered(documents.dom()).len(),
    ensures
        seen_in(checked_documents(c, documents, n), with_documents(g, documents, n)),
    decreases n,
{
    if n > 0 {
        lemma_seen_documents(c, g, documents, n - 1);
        lemma_paths(documents);
        let path = ordered(documents.dom())[n - 1];
        assert(documents.contains_key(path));
        let document = documents[path];
        let c1 = checked_documents(c, documents, n - 1);
        let g1 = with_documents(g, documents, n - 1);
        let c2 = CheckView { diagnostics: c1.diagnostics + document.diagnostics, ..c1 };
        let g2 = GraphView {
            diagnostics: g1.diagnostics + document.diagnostics,
            memberships: g1.memberships + document.memberships,
            relations: g1.relations + document.relations,
            ..g1
        };
        let count = document.strands.len() as int;
        lemma_seen_source_strands(c2, g2, document.strands, count);
        assert forall|i: int| 0 <= i < document.anchors.len() implies (
        #[trigger] document.anchors[i]).provenance.source == "annotation"@ && with_repository_path(
            document.anchors[i].value,
        ) == document.anchors[i].value by {
            assert(told_of(document.anchors[i].provenance, path));
        }
        lemma_seen_source_anchors(
            checked_source_strands(c2, document.strands, count),
            with_source_strands(g2, document.strands, count),
            document.anchors,
            document.anchors.len() as int,
        );
    }
}

proof fn lemma_implicit_diagnostics(g: GraphView, n: int)
    requires
        0 <= n <= g.memberships.len(),
    ensures
        with_implicit_strands(g, n).strands.dom() == g.strands.dom().union(
            implicit_strands(g.strands.dom(), g.memberships, n).0,
        ),
        with_implicit_strands(g, n).diagnostics == g.diagnostics + implicit_strands(
            g.strands.dom(),
            g.memberships,
            n,
        ).1,
    decreases n,
{
    if n > 0 {
        lemma_implicit_diagnostics(g, n - 1);
        let before = with_implicit_strands(g, n - 1);
        let m = g.memberships[n - 1];
        if m.strand is Some {
            let id = m.strand->0;
            assert(before.strands.contains_key(id) == before.strands.dom().contains(id));
        }
        assert(with_implicit_strands(g, n).strands.dom() =~= g.strands.dom().union(
            implicit_strands(g.strands.dom(), g.memberships, n).0,
        ));
        assert(with_implicit_strands(g, n).diagnostics =~= g.diagnostics + implicit_strands(
            g.strands.dom(),
            g.memberships,
            n,
        ).1);
    } else {
        assert(g.strands.dom().union(Set::empty()) =~= g.strands.dom());
        assert(g.diagnostics + Seq::<DiagnosticView>::empty() =~= g.diagnostics);
    }
}

/// What is said of a graph is what is wrong with an index that holds it.
proof fn lemma_problems(
    root: Seq<char>,
    loaded: LoadedMetadataView,
    documents: Map<Seq<char>, SourceDocumentView>,
    index: IndexView,
)
    requires
        documents.dom().finite(),
        all_annotated(documents),
        index.source_documents == documents,
        index.strands == graph_of(root, loaded, documents).strands,
        index.anchors == graph_of(root, loaded, documents).anchors,
    ensures
        problems_of(
            root,
            loaded,
            index,
            stated_memberships(root, loaded, documents),
            stated_relations(root, loaded, documents),
        ) == graph_of(root, loaded, documents).diagnostics,
{
    let none = CheckView {
        strands: Map::empty(),
        anchors: Map::empty(),
        diagnostics: loaded.diagnostics,
    };
    let empty = GraphView {
        strands: Map::empty(),
        anchors: Map::empty(),
        memberships: seq![],
        relations: seq![],
        diagnostics: loaded.diagnostics,
    };
    let ns = loaded.strands.len() as int;
    let na = loaded.anchors.len() as int;
    let nr = loaded.relations.len() as int;
    let nd = ordered(documents.dom()).len() as int;
    assert(none.strands.dom() =~= empty.strands.dom());
    assert(none.anchors.dom() =~= empty.anchors.dom());
    lemma_seen_strand_items(none, empty, root, loaded.strands, ns);
    let c1 = checked_strand_items(none, root, loaded.strands, ns);
    let g1 = with_strand_items(empty, root, loaded.strands, ns);
    lemma_seen_anchor_items(c1, g1, root, loaded.anchors, na);
    let c2 = checked_anchor_items(c1, root, loaded.anchors, na);
    let g2 = with_anchor_items(g1, root, loaded.anchors, na);
    lemma_strand_items_edges(empty, root, loaded.strands, ns);
    lemma_anchor_items_edges(g1, root, loaded.anchors, na);
    lemma_relation_items_edges(g2, root, loaded.relations, nr);
    let g3 = with_relation_items(g2, root, loaded.relations, nr);
    lemma_seen_documents(c2, g3, documents, nd);
    let stated = with_documents(g3, documents, nd);
    assert(stated == stated_graph(root, loaded, documents));
    let placed = GraphView { anchors: all_placed(stated.anchors), ..stated };
    let m = stated.memberships.len() as int;
    lemma_implicit_diagnostics(placed, m);
    lemma_completed_edges(stated);
    lemma_stated_edges(root, loaded, documents);
}

/// An index whose graph is brought up to date has the strands, the anchors, the edges and the
/// diagnostics that a rebuild gives. `old_documents` is what the files said when the index was
/// built, and the index holds what they say now.
pub proof fn refreshed_graphs_match_a_rebuild(
    root: Seq<char>,
    loaded: LoadedMetadataView,
    old_documents: Map<Seq<char>, SourceDocumentView>,
    index: IndexView,
    changed: Set<Seq<char>>,
)
    requires
        old_documents.dom().finite(),
        index.source_documents.dom().finite(),
        changed.finite(),
        all_annotated(old_documents),
        all_annotated(index.source_documents),
        agree_outside(old_documents, index.source_documents, changed),
        index.strands == graph_of(root, loaded, old_documents).strands,
        index.anchors == graph_of(root, loaded, old_documents).anchors,
    ensures
        ({
            let paths = ordered(changed);
            let before = impacts(old_documents, paths, paths.len() as int);
            let after = impacts(index.source_documents, paths, paths.len() as int);
            let refreshed = refreshed_graph(
                root,
                loaded,
                index,
                before.0.union(after.0),
                before.1.union(after.1),
            );
            let rebuilt = graph_of(root, loaded, index.source_documents);
            &&& refreshed.strands == rebuilt.strands
            &&& refreshed.anchors == rebuilt.anchors
            &&& refreshed.memberships == rebuilt.memberships
            &&& refreshed.relations == rebuilt.relations
            &&& refreshed.diagnostics == rebuilt.diagnostics
        }),
{
    let new_documents = index.source_documents;
    let paths = ordered(changed);
    let before = impacts(old_documents, paths, paths.len() as int);
    let after = impacts(new_documents, paths, paths.len() as int);
    let strand_set = before.0.union(after.0);
    let anchor_set = before.1.union(after.1);
    let refreshed = refreshed_graph(root, loaded, index, strand_set, anchor_set);
    let stated = stated_graph(root, loaded, new_documents);
    let rebuilt = graph_of(root, loaded, new_documents);
    lemma_stated_edges(root, loaded, new_documents);
    lemma_completed_edges(stated);
    lemma_impacts_finite(old_documents, paths, paths.len() as int);
    lemma_impacts_finite(new_documents, paths, paths.len() as int);
    lemma_orderable(strand_set);
    lemma_orderable(anchor_set);
    let strand_list = ordered(strand_set);
    let anchor_list = ordered(anchor_set);
    assert(strand_list.take(strand_list.len() as int) =~= strand_list);
    assert(anchor_list.take(anchor_list.len() as int) =~= anchor_list);
    assert forall|id: Seq<char>| lookup(refreshed.strands, id) == #[trigger] lookup(
        rebuilt.strands,
        id,
    ) by {
        lemma_refreshed_strands(
            index.strands,
            root,
            loaded,
            new_documents,
            stated.memberships,
            strand_list,
            strand_list.len() as int,
            id,
        );
        assert(strand_list.to_set().contains(id) == strand_set.contains(id));
        if strand_list.contains(id) {
            lemma_strand_lookup(root, loaded, new_documents, id);
        } else {
            lemma_strand_stays(root, loaded, old_documents, new_documents, changed, id);
        }
    }
    assert forall|id: Seq<char>| lookup(refreshed.anchors, id) == #[trigger] lookup(
        rebuilt.anchors,
        id,
    ) by {
        lemma_refreshed_anchors(
            index.anchors,
            root,
            loaded,
            new_documents,
            stated.memberships,
            stated.relations,
            anchor_list,
            anchor_list.len() as int,
            id,
        );
        assert(anchor_list.to_set().contains(id) == anchor_set.contains(id));
        if anchor_list.contains(id) {
            lemma_anchor_lookup(root, loaded, new_documents, id);
        } else {
            lemma_anchor_stays(root, loaded, old_documents, new_documents, changed, id);
        }
    }
    lemma_same_maps(refreshed.strands, rebuilt.strands);
    lemma_same_maps(refreshed.anchors, rebuilt.anchors);
    lemma_problems(
        root,
        loaded,
        new_documents,
        IndexView { diagnostics: index.diagnostics, ..refreshed },
    );
}

proof fn lemma_same_maps<V>(a: Map<Seq<char>, V>, b: Map<Seq<char>, V>)
    requires
        forall|id: Seq<char>| lookup(a, id) == #[trigger] lookup(b, id),
    ensures
        a == b,
{
    assert forall|id: Seq<char>| #[trigger] a.dom().contains(id) == b.dom().contains(id) by {
        assert(lookup(a, id) == lookup(b, id));
    }
    assert forall|id: Seq<char>| #[trigger] a.dom().contains(id) implies a[id] == b[id] by {
        assert(lookup(a, id) == lookup(b, id));
    }
    assert(a =~= b);
}

proof fn lemma_sets_finite(document: SourceDocumentView)
    ensures
        strands_in(document).finite(),
        anchors_in(document).finite(),
{
    lemma_strand_ids_finite(document.strands, document.strands.len() as int);
    lemma_anchor_ids_finite(document.anchors, document.anchors.len() as int);
    lemma_membership_sets_finite(document.memberships, document.memberships.len() as int);
    lemma_relation_ends_finite(document.relations, document.relations.len() as int);
}

proof fn lemma_strand_ids_finite(all: Seq<IndexedView<StrandView>>, n: int)
    ensures
        strand_ids(all, n).finite(),
    decreases n,
{
    if n > 0 {
        lemma_strand_ids_finite(all, n - 1);
    }
}

proof fn lemma_anchor_ids_finite(all: Seq<IndexedView<AnchorView>>, n: int)
    ensures
        anchor_ids(all, n).finite(),
    decreases n,
{
    if n > 0 {
        lemma_anchor_ids_finite(all, n - 1);
    }
}

proof fn lemma_membership_sets_finite(all: Seq<IndexedMemberView>, n: int)
    ensures
        membership_strands(all, n).finite(),
        membership_anchors(all, n).finite(),
    decreases n,
{
    if n > 0 {
        lemma_membership_sets_finite(all, n - 1);
    }
}

proof fn lemma_relation_ends_finite(all: Seq<IndexedRelationView>, n: int)
    ensures
        relation_ends(all, n).finite(),
    decreases n,
{
    if n > 0 {
        lemma_relation_ends_finite(all, n - 1);
    }
}

proof fn lemma_impacts_finite(
    documents: Map<Seq<char>, SourceDocumentView>,
    paths: Seq<Seq<char>>,
    n: int,
)
    ensures
        impacts(documents, paths, n).0.finite(),
        impacts(documents, paths, n).1.finite(),
    decreases n,
{
    if n > 0 {
        lemma_impacts_finite(documents, paths, n - 1);
        lemma_sets_finite(documents[paths[n - 1]]);
    }
}

/// An index that is brought up to date from the files that changed is the one that a rebuild
/// from all files gives, in every part. `old_files` and `new_files` are all files as they were
/// read for the index and as they are now, and `scanned` holds those that changed.
pub proof fn refreshing_matches_a_rebuild(
    root: Seq<char>,
    loaded: LoadedMetadataView,
    old_manifest: ManifestView,
    old_files: Map<Seq<char>, ScannedFileView>,
    built_at: Timestamp,
    old_config: Seq<char>,
    manifest: ManifestView,
    new_files: Map<Seq<char>, ScannedFileView>,
    scanned: Map<Seq<char>, ScannedFileView>,
    now: Timestamp,
    config: Seq<char>,
)
    requires
        old_files.dom().finite(),
        new_files.dom().finite(),
        manifest.files.dom() == new_files.dom(),
        forall|path: Seq<char>| #[trigger]
            new_files.contains_key(path) ==> if may_have_changed(
                scanned_records(old_files),
                manifest.files,
                path,
            ) {
                scanned[path] == new_files[path]
            } else {
                old_files[path] == new_files[path]
            },
        all_annotated(scanned_documents(old_files)),
        all_annotated(scanned_documents(new_files)),
    ensures
        refreshed_index(
            root,
            loaded,
            manifest,
            built_index(root, loaded, old_manifest, old_files, built_at, old_config),
            scanned,
            now,
            config,
        ) == built_index(root, loaded, manifest, new_files, now, config),
{
    let cached = built_index(root, loaded, old_manifest, old_files, built_at, old_config);
    let rebuilt = built_index(root, loaded, manifest, new_files, now, config);
    let changed = changed_set(cached.files, manifest.files);
    let old_documents = scanned_documents(old_files);
    let new_documents = scanned_documents(new_files);
    assert(old_documents.dom() =~= old_files.dom());
    assert(new_documents.dom() =~= new_files.dom());
    assert(cached.files.dom() =~= old_files.dom());
    assert(changed.finite()) by {
        assert(changed.subset_of(old_files.dom().union(new_files.dom()))) by {
            assert forall|path: Seq<char>| #[trigger] changed.contains(path) implies
                old_files.dom().union(new_files.dom()).contains(path) by {
                assert(manifest.files.dom().contains(path) == manifest.files.contains_key(path));
                assert(cached.files.dom().contains(path) == cached.files.contains_key(path));
            }
        }
        vstd::set_lib::lemma_set_subset_finite(
            old_files.dom().union(new_files.dom()),
            changed,
        );
    }
    let documents = current_documents(old_documents, manifest.files, changed, scanned);
    assert forall|path: Seq<char>|
        documents.contains_key(path) == #[trigger] new_documents.contains_key(path) && (
        new_documents.contains_key(path) ==> documents[path] == new_documents[path]) by {
        assert(manifest.files.dom().contains(path) == manifest.files.contains_key(path));
        assert(new_files.dom().contains(path) == new_files.contains_key(path));
        if new_files.contains_key(path) && !changed.contains(path) {
            assert(cached.files.contains_key(path));
            assert(cached.files.dom().contains(path));
        }
    }
    assert(documents =~= new_documents);
    let records = current_records(cached.files, manifest.files, changed, scanned);
    assert forall|path: Seq<char>|
        records.contains_key(path) == #[trigger] rebuilt.files.contains_key(path) && (
        records.contains_key(path) ==> records[path] == rebuilt.files[path]) by {
        assert(manifest.files.dom().contains(path) == manifest.files.contains_key(path));
        assert(new_files.dom().contains(path) == new_files.contains_key(path));
        if new_files.contains_key(path) && !changed.contains(path) {
            assert(cached.files.contains_key(path));
            assert(cached.files.dom().contains(path));
        }
    }
    assert(records =~= rebuilt.files);
    assert forall|path: Seq<char>| !#[trigger] changed.contains(path) implies (
    old_documents.contains_key(path) == new_documents.contains_key(path)) && (
    old_documents.contains_key(path) ==> old_documents[path] == new_documents[path]) by {
        assert(manifest.files.dom().contains(path) == manifest.files.contains_key(path));
        assert(new_files.dom().contains(path) == new_files.contains_key(path));
        assert(cached.files.dom().contains(path) == cached.files.contains_key(path));
        assert(old_files.dom().contains(path) == old_files.contains_key(path));
    }
    let index = IndexView { source_documents: documents, ..cached };
    refreshed_graphs_match_a_rebuild(root, loaded, old_documents, index, changed);
}

/// Whether a path has the form of the repository: `/` between its parts and no `./` in front.
pub open spec fn is_plain(path: Seq<char>) -> bool {
    !path.contains('\\') && !(path.len() >= 2 && path[0] == '.' && path[1] == '/')
}

proof fn lemma_replace_gone(s: Seq<char>)
    ensures
        !replace(s, '\\', "/"@).contains('\\'),
    decreases s.len(),
{
    reveal_strlit("/");
    if s.len() > 0 {
        let front = s.drop_last();
        lemma_replace_gone(front);
        let last = if s.last() == '\\' {
            "/"@
        } else {
            seq![s.last()]
        };
        lemma_add_contains(replace(front, '\\', "/"@), last, '\\');
        if last.contains('\\') {
            let k = last.index_of('\\');
            assert(last[k] == '\\');
            assert(k == 0);
        }
    }
}

proof fn lemma_replace_nothing(s: Seq<char>)
    requires
        !s.contains('\\'),
    ensures
        replace(s, '\\', "/"@) == s,
    decreases s.len(),
{
    if s.len() > 0 {
        let front = s.drop_last();
        assert(s[s.len() - 1] == s.last());
        assert(s.last() != '\\');
        assert(!front.contains('\\')) by {
            if front.contains('\\') {
                let k = front.index_of('\\');
                assert(s[k] == '\\');
            }
        }
        lemma_replace_nothing(front);
        assert(front + seq![s.last()] =~= s);
    } else {
        assert(replace(s, '\\', "/"@) =~= s);
    }
}

proof fn lemma_without_here(s: Seq<char>)
    requires
        !s.contains('\\'),
    ensures
        is_plain(without_here(s)),
    decreases s.len(),
{
    if s.len() >= 2 && s[0] == '.' && s[1] == '/' {
        let rest = s.skip(2);
        assert(!rest.contains('\\')) by {
            if rest.contains('\\') {
                let k = rest.index_of('\\');
                assert(s[k + 2] == '\\');
            }
        }
        lemma_without_here(rest);
    }
}

/// A path in the form of the repository stays as it is, and normalized paths have that form.
proof fn lemma_plain_paths(path: Seq<char>)
    ensures
        is_plain(path) ==> repository_path(path) == path,
        location_path(path) matches Ok(normalized) ==> is_plain(normalized),
{
    if is_plain(path) {
        lemma_replace_nothing(path);
    }
    lemma_replace_gone(path);
    lemma_without_here(replace(path, '\\', "/"@));
}

proof fn lemma_anchor_place(path: Seq<char>, line: int, body: Seq<char>)
    ensures
        anchor_of(path, line, body) matches Ok(anchor) ==> anchor.location is Some && is_plain(
            anchor.location->0.path,
        ),
{
    match body_tokens(body) {
        Ok(t) => {
            let v = left_after_first(t, "id"@);
            let place = match text_at(v, "path"@) {
                Some(text) => text,
                None => path,
            };
            lemma_plain_paths(place);
        },
        Err(_) => {},
    }
}

proof fn lemma_implicit_place(
    path: Seq<char>,
    line: int,
    body: Seq<char>,
    active: Option<Seq<char>>,
    implicit_anchors: bool,
)
    requires
        is_plain(path),
    ensures
        membership_of(path, line, body, active, implicit_anchors) matches Ok(m) ==> m.implicit
            is Some ==> m.implicit->0.location is Some && is_plain(m.implicit->0.location->0.path),
{
}

/// Whether what was read of a file is told of that file.
spec fn scan_told(scan: AnnotationScanView, path: Seq<char>) -> bool {
    &&& forall|i: int|
        0 <= i < scan.memberships.len() ==> told_of(
            (#[trigger] scan.memberships[i]).provenance,
            path,
        )
    &&& forall|i: int|
        0 <= i < scan.relations.len() ==> told_of((#[trigger] scan.relations[i]).provenance, path)
    &&& forall|i: int| 0 <= i < scan.strands.len() ==> told_of((#[trigger] scan.strands[i]).1, path)
    &&& forall|i: int|
        0 <= i < scan.anchors.len() ==> told_of((#[trigger] scan.anchors[i]).1, path)
            && with_repository_path(scan.anchors[i].0) == scan.anchors[i].0
}

proof fn lemma_markers_told(
    path: Seq<char>,
    text: Seq<char>,
    config: AnnotationConfigView,
    number: int,
    line: Seq<char>,
    n: int,
    p: ProgressView,
)
    requires
        is_plain(path),
        scan_told(p.scan, path),
    ensures
        scan_told(after_markers(path, text, config, number, line, n, p).scan, path),
    decreases n,
{
    if n > 0 {
        lemma_markers_told(path, text, config, number, line, n - 1, p);
        let before = after_markers(path, text, config, number, line, n - 1, p);
        let now = after_markers(path, text, config, number, line, n, p);
        let markers = line_markers(line, config);
        let body = marker_body(line, markers, n - 1);
        let active = match before.active {
            Some(active) => Some(active.0),
            None => None,
        };
        lemma_anchor_place(path, number, body);
        lemma_implicit_place(path, number, body, active, config.implicit_anchors);
        match markers[n - 1].kind {
            MarkerKind::Anchor => {
                if anchor_of(path, number, body) is Ok {
                    let anchor = anchor_of(path, number, body)->Ok_0;
                    lemma_plain_paths(anchor.location->0.path);
                    let last = now.scan.anchors.last();
                    assert(with_repository_path(last.0) == last.0);
                }
            },
            MarkerKind::Strand => {
                match membership_of(path, number, body, active, config.implicit_anchors) {
                    Ok(m) => {
                        if m.implicit is Some {
                            lemma_plain_paths(m.implicit->0.location->0.path);
                            let last = now.scan.anchors.last();
                            assert(with_repository_path(last.0) == last.0);
                        }
                    },
                    Err(_) => {},
                }
            },
            MarkerKind::Relation => {},
        }
    }
}

proof fn lemma_lines_told(path: Seq<char>, text: Seq<char>, config: AnnotationConfigView, n: int)
    requires
        is_plain(path),
    ensures
        scan_told(after_lines(path, text, config, n).scan, path),
    decreases n,
{
    if n > 0 {
        lemma_lines_told(path, text, config, n - 1);
        let before = after_lines(path, text, config, n - 1);
        let line = lines(text)[n - 1];
        lemma_markers_told(
            path,
            text,
            config,
            n,
            line,
            line_markers(line, config).len() as int,
            ProgressView {
                active: still_active(before.active, n, config.anchor_block_gap as int),
                ..before
            },
        );
    }
}

/// What is read of a file is told of that file, with paths in the form of the repository.
pub proof fn scans_are_told_of_their_file(
    relative: Seq<char>,
    content: Result<Seq<u8>, Seq<char>>,
    config: ConfigView,
)
    requires
        is_plain(relative),
    ensures
        is_annotated(document_of(relative, content, config), relative),
{
    match content {
        Ok(bytes) => {
            let text = vstd::utf8::decode_utf8(bytes);
            lemma_lines_told(relative, text, config.annotations, lines(text).len() as int);
            let scan = scan_of(relative, text, config.annotations);
            assert(scan_told(scan, relative));
        },
        Err(_) => {},
    }
}

} // verus!

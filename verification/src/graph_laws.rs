//! What holds of every context and of every query.

use vstd::prelude::*;

use crate::collections::{lemma_orderable, ordered};
use crate::config::{AnnotationConfigView, ConfigView};
use crate::graph::{
    affected_depth, affected_listing, affected_packet, affected_reach, affected_route,
    after_anchors, after_memberships, after_one_anchor, after_parsed, after_place, after_relations,
    after_removed_anchors, after_removed_members, after_removed_paths, after_removed_relations,
    after_removed_strands, after_scan, after_scanned_anchors, after_scanned_memberships,
    after_scanned_strands, after_strands, anchor_before, anchor_ids, any_overlap, connected_strands,
    current_members, dedup_anchors, direct_evidence, directly, former_members, insert_anchor,
    is_deleted, is_path_of, known_strand, listed_member, listed_members, listed_strand,
    listed_strands, next_of, next_reasons, no_evidence, ordered_removed_paths, place_touched, reach,
    reach_start, reach_step, reaches_optional, related_list, related_reasons, removed_text,
    represented_ids, seed_listing, seed_packet, seed_reach, seed_reasons, seed_route, seed_start,
    sort_anchors, source_of, touched_by, touched_strands, unmatched_list, with_exact_strands,
    with_members, with_strand_members, with_strands_of, AffectedOptionsView, AnchorReasonView,
    ContextSeedsView, EdgeView, EvidenceView, ListingView, ReachView, RouteView,
};
use crate::metadata::ParsedMetadataView;
use crate::model::{
    range_overlaps, AffectedAnchorView, AffectedStrandView, AnchorView, ChangeSetView,
    ChangedFileView, ContextPacketView, IndexView, IndexedView, LineRangeView, LocationView,
    MemberView, StrandView, WatchMode,
};

verus! {

/// `any_overlap` looks for an overlapping range.
pub proof fn lemma_any_overlap(ranges: Seq<LineRangeView>, start: int, end: int, i: int)
    requires
        0 <= i,
    ensures
        any_overlap(ranges, start, end, i) <==> exists|k: int|
            i <= k < ranges.len() && range_overlaps(#[trigger] ranges[k], start, end),
    decreases ranges.len() - i,
{
    if i < ranges.len() {
        lemma_any_overlap(ranges, start, end, i + 1);
        if range_overlaps(ranges[i], start, end) {
            assert(range_overlaps(ranges[i], start, end));
        }
    }
}

/// A place that watches its file, or that has no lines, is touched by every change of the
/// file; and every place is touched where the whole file counts as changed.
pub proof fn watching_a_file_is_conservative(location: LocationView, changed: ChangedFileView)
    requires
        changed.whole_file || location.watch is None || location.watch == Some(WatchMode::File)
            || location.line_start is None,
    ensures
        place_touched(location, changed),
{
}

/// A place that watches lines is touched by a change of ranges exactly where one of them
/// shares a line with it, or would if neither were empty.
pub proof fn watching_lines_is_precise(location: LocationView, changed: ChangedFileView)
    requires
        !changed.whole_file,
        location.watch is Some,
        location.watch != Some(WatchMode::File),
        location.line_start is Some,
    ensures
        place_touched(location, changed) <==> exists|k: int|
            0 <= k < changed.ranges.len() && range_overlaps(
                #[trigger] changed.ranges[k],
                location.line_start->0 as int,
                match location.line_end {
                    Some(end) => end as int,
                    None => location.line_start->0 as int,
                },
            ),
{
    let start = location.line_start->0 as int;
    let end = match location.line_end {
        Some(end) => end as int,
        None => start,
    };
    lemma_any_overlap(changed.ranges, start, end, 0);
}

/// Whether reasons are all there again, unchanged.
pub open spec fn keeps(
    before: Map<Seq<char>, AnchorReasonView>,
    after: Map<Seq<char>, AnchorReasonView>,
) -> bool {
    forall|id: Seq<char>| #[trigger]
        before.contains_key(id) ==> after.contains_key(id) && after[id] == before[id]
}

/// Whether all reasons are those of a direct touch.
pub open spec fn all_direct(reasons: Map<Seq<char>, AnchorReasonView>) -> bool {
    forall|id: Seq<char>| #[trigger] reasons.contains_key(id) ==> reasons[id].direct
}

/// Whether evidence only grew.
pub open spec fn grows(before: EvidenceView, after: EvidenceView) -> bool {
    &&& before.reasons.dom().subset_of(after.reasons.dom())
    &&& before.reasons.dom().finite() ==> after.reasons.dom().finite()
    &&& all_direct(before.reasons) ==> all_direct(after.reasons)
    &&& before.seeds.subset_of(after.seeds)
    &&& before.seeds.finite() ==> after.seeds.finite()
    &&& before.matched.subset_of(after.matched)
    &&& before.removed_strands.dom().subset_of(after.removed_strands.dom())
}

pub(crate) proof fn lemma_strands_grow(index: IndexView, changes: ChangeSetView, n: int, e: EvidenceView)
    ensures
        grows(e, after_strands(index, changes, n, e)),
    decreases n,
{
    if n > 0 {
        lemma_strands_grow(index, changes, n - 1, e);
    }
}

pub(crate) proof fn lemma_memberships_grow(index: IndexView, changes: ChangeSetView, n: int, e: EvidenceView)
    ensures
        grows(e, after_memberships(index, changes, n, e)),
    decreases n,
{
    if n > 0 {
        lemma_memberships_grow(index, changes, n - 1, e);
    }
}

pub(crate) proof fn lemma_relations_grow(index: IndexView, changes: ChangeSetView, n: int, e: EvidenceView)
    ensures
        grows(e, after_relations(index, changes, n, e)),
    decreases n,
{
    if n > 0 {
        lemma_relations_grow(index, changes, n - 1, e);
    }
}

proof fn lemma_place_grows(
    id: Seq<char>,
    location: LocationView,
    files: Seq<ChangedFileView>,
    n: int,
    e: EvidenceView,
)
    ensures
        grows(e, after_place(id, location, files, n, e)),
    decreases n,
{
    if n > 0 {
        lemma_place_grows(id, location, files, n - 1, e);
    }
}

proof fn lemma_one_anchor_grows(
    id: Seq<char>,
    anchor: IndexedView<AnchorView>,
    changes: ChangeSetView,
    e: EvidenceView,
)
    ensures
        grows(e, after_one_anchor(id, anchor, changes, e)),
{
    let noted = match touched_by(changes, anchor.provenance) {
        None => e,
        Some(changed) => EvidenceView {
            matched: e.matched.insert(changed.path),
            reasons: e.reasons.insert(
                id,
                directly("anchor metadata changed in "@ + source_of(anchor.provenance)),
            ),
            ..e
        },
    };
    match anchor.value.location {
        None => {},
        Some(location) => {
            lemma_place_grows(id, location, changes.files, changes.files.len() as int, noted);
        },
    }
}

pub(crate) proof fn lemma_anchors_grow(index: IndexView, changes: ChangeSetView, n: int, e: EvidenceView)
    ensures
        grows(e, after_anchors(index, changes, n, e)),
    decreases n,
{
    if n > 0 {
        lemma_anchors_grow(index, changes, n - 1, e);
        let id = ordered(index.anchors.dom())[n - 1];
        lemma_one_anchor_grows(
            id,
            index.anchors[id],
            changes,
            after_anchors(index, changes, n - 1, e),
        );
    }
}

pub(crate) proof fn lemma_removed_members_grow(path: Seq<char>, strand: StrandView, n: int, e: EvidenceView)
    ensures
        grows(e, after_removed_members(path, strand, n, e)),
    decreases n,
{
    if n > 0 {
        lemma_removed_members_grow(path, strand, n - 1, e);
    }
}

pub(crate) proof fn lemma_removed_strands_grow(
    path: Seq<char>,
    strands: Seq<StrandView>,
    n: int,
    e: EvidenceView,
)
    ensures
        grows(e, after_removed_strands(path, strands, n, e)),
    decreases n,
{
    if n > 0 {
        lemma_removed_strands_grow(path, strands, n - 1, e);
        let before = after_removed_strands(path, strands, n - 1, e);
        let strand = strands[n - 1];
        lemma_removed_members_grow(
            path,
            strand,
            strand.members.len() as int,
            EvidenceView { seeds: before.seeds.insert(strand.id), ..before },
        );
    }
}

pub(crate) proof fn lemma_removed_anchors_grow(
    path: Seq<char>,
    anchors: Seq<AnchorView>,
    n: int,
    e: EvidenceView,
)
    ensures
        grows(e, after_removed_anchors(path, anchors, n, e)),
    decreases n,
{
    if n > 0 {
        lemma_removed_anchors_grow(path, anchors, n - 1, e);
    }
}

pub(crate) proof fn lemma_removed_relations_grow(
    path: Seq<char>,
    relations: Seq<crate::model::RelationView>,
    n: int,
    e: EvidenceView,
)
    ensures
        grows(e, after_removed_relations(path, relations, n, e)),
    decreases n,
{
    if n > 0 {
        lemma_removed_relations_grow(path, relations, n - 1, e);
    }
}

pub(crate) proof fn lemma_parsed_grows(path: Seq<char>, parsed: ParsedMetadataView, e: EvidenceView)
    ensures
        grows(e, after_parsed(path, parsed, e)),
{
    let matched = EvidenceView { matched: e.matched.insert(path), ..e };
    lemma_removed_strands_grow(path, parsed.strands, parsed.strands.len() as int, matched);
    let strands = after_removed_strands(path, parsed.strands, parsed.strands.len() as int, matched);
    lemma_removed_anchors_grow(path, parsed.anchors, parsed.anchors.len() as int, strands);
    let anchors = after_removed_anchors(path, parsed.anchors, parsed.anchors.len() as int, strands);
    lemma_removed_relations_grow(path, parsed.relations, parsed.relations.len() as int, anchors);
}

proof fn lemma_scanned_strands_grow(
    strands: Seq<(StrandView, crate::model::ProvenanceView)>,
    n: int,
    e: EvidenceView,
)
    ensures
        grows(e, after_scanned_strands(strands, n, e)),
    decreases n,
{
    if n > 0 {
        lemma_scanned_strands_grow(strands, n - 1, e);
    }
}

proof fn lemma_scanned_anchors_grow(
    anchors: Seq<(AnchorView, crate::model::ProvenanceView)>,
    n: int,
    e: EvidenceView,
)
    ensures
        grows(e, after_scanned_anchors(anchors, n, e)),
    decreases n,
{
    if n > 0 {
        lemma_scanned_anchors_grow(anchors, n - 1, e);
    }
}

proof fn lemma_scanned_memberships_grow(
    path: Seq<char>,
    memberships: Seq<crate::model::IndexedMemberView>,
    n: int,
    e: EvidenceView,
)
    ensures
        grows(e, after_scanned_memberships(path, memberships, n, e)),
        forall|i: int|
            0 <= i < n && (#[trigger] memberships[i]).strand is Some ==> ({
                let after = after_scanned_memberships(path, memberships, n, e);
                &&& after.seeds.contains(memberships[i].strand->0)
                &&& after.removed_strands.contains_key(memberships[i].strand->0)
                &&& after.reasons.contains_key(memberships[i].member.anchor)
                &&& after.matched.contains(path)
            }),
    decreases n,
{
    if n > 0 {
        lemma_scanned_memberships_grow(path, memberships, n - 1, e);
    }
}

proof fn lemma_scan_grows(
    path: Seq<char>,
    scan: crate::annotations::AnnotationScanView,
    e: EvidenceView,
)
    ensures
        grows(e, after_scan(path, scan, e)),
        forall|i: int|
            0 <= i < scan.memberships.len() && (#[trigger] scan.memberships[i]).strand is Some ==> ({
                let after = after_scan(path, scan, e);
                &&& after.seeds.contains(scan.memberships[i].strand->0)
                &&& after.removed_strands.contains_key(scan.memberships[i].strand->0)
                &&& after.reasons.contains_key(scan.memberships[i].member.anchor)
                &&& after.matched.contains(path)
            }),
{
    lemma_scanned_strands_grow(scan.strands, scan.strands.len() as int, e);
    let strands = after_scanned_strands(scan.strands, scan.strands.len() as int, e);
    lemma_scanned_anchors_grow(scan.anchors, scan.anchors.len() as int, strands);
    let anchors = after_scanned_anchors(scan.anchors, scan.anchors.len() as int, strands);
    lemma_scanned_memberships_grow(
        path,
        scan.memberships,
        scan.memberships.len() as int,
        anchors,
    );
}

pub(crate) proof fn lemma_removed_paths_grow(
    changes: ChangeSetView,
    parsed: Map<Seq<char>, ParsedMetadataView>,
    annotations: AnnotationConfigView,
    n: int,
    m: int,
    e: EvidenceView,
)
    requires
        n <= m,
    ensures
        grows(
            after_removed_paths(changes, parsed, annotations, n, e),
            after_removed_paths(changes, parsed, annotations, m, e),
        ),
    decreases m,
{
    if n < m && m > 0 {
        lemma_removed_paths_grow(changes, parsed, annotations, n, m - 1, e);
        let before = after_removed_paths(changes, parsed, annotations, m - 1, e);
        let path = ordered_removed_paths(changes)[m - 1];
        if is_deleted(changes.files, path) && parsed.contains_key(path) {
            lemma_parsed_grows(path, parsed[path], before);
        } else {
            lemma_scan_grows(
                path,
                crate::annotations::scan_of(
                    path,
                    removed_text(changes.removed_lines, path),
                    annotations,
                ),
                before,
            );
        }
    } else if n < m {
        assert(after_removed_paths(changes, parsed, annotations, n, e) == e);
    }
}

/// What the anchors add to the evidence of strands, memberships and relations.
pub(crate) proof fn lemma_evidence(
    index: IndexView,
    changes: ChangeSetView,
    parsed: Map<Seq<char>, ParsedMetadataView>,
    annotations: AnnotationConfigView,
)
    ensures
        ({
            let e = direct_evidence(index, changes, parsed, annotations);
            &&& e.reasons.dom().finite()
            &&& e.seeds.finite()
            &&& all_direct(e.reasons)
            &&& grows(
                after_anchors(
                    index,
                    changes,
                    ordered(index.anchors.dom()).len() as int,
                    evidence_before_anchors(index, changes),
                ),
                e,
            )
        }),
{
    let start = no_evidence();
    assert(all_direct(start.reasons));
    assert(start.reasons.dom() =~= Set::empty());
    let a = after_strands(index, changes, ordered(index.strands.dom()).len() as int, start);
    lemma_strands_grow(index, changes, ordered(index.strands.dom()).len() as int, start);
    let b = after_memberships(index, changes, index.memberships.len() as int, a);
    lemma_memberships_grow(index, changes, index.memberships.len() as int, a);
    let c = after_relations(index, changes, index.relations.len() as int, b);
    lemma_relations_grow(index, changes, index.relations.len() as int, b);
    assert(c == evidence_before_anchors(index, changes));
    let d = after_anchors(index, changes, ordered(index.anchors.dom()).len() as int, c);
    lemma_anchors_grow(index, changes, ordered(index.anchors.dom()).len() as int, c);
    lemma_removed_paths_grow(
        changes,
        parsed,
        annotations,
        0,
        ordered_removed_paths(changes).len() as int,
        d,
    );
}

/// What a change touches is finite, and touched directly.
pub(crate) proof fn lemma_evidence_is_finite(
    index: IndexView,
    changes: ChangeSetView,
    parsed: Map<Seq<char>, ParsedMetadataView>,
    annotations: AnnotationConfigView,
)
    ensures
        ({
            let e = direct_evidence(index, changes, parsed, annotations);
            &&& e.reasons.dom().finite()
            &&& e.seeds.finite()
            &&& forall|id: Seq<char>| #[trigger]
                e.reasons.contains_key(id) ==> e.reasons[id].direct
        }),
{
    lemma_evidence(index, changes, parsed, annotations);
}

/// What a change touches once strands, memberships and relations are looked at.
pub open spec fn evidence_before_anchors(index: IndexView, changes: ChangeSetView) -> EvidenceView {
    after_relations(
        index,
        changes,
        index.relations.len() as int,
        after_memberships(
            index,
            changes,
            index.memberships.len() as int,
            after_strands(
                index,
                changes,
                ordered(index.strands.dom()).len() as int,
                no_evidence(),
            ),
        ),
    )
}

proof fn lemma_place_notes(
    id: Seq<char>,
    location: LocationView,
    files: Seq<ChangedFileView>,
    i: int,
    n: int,
    e: EvidenceView,
)
    requires
        0 <= i < n <= files.len(),
        is_path_of(files[i], location.path),
        place_touched(location, files[i]),
    ensures
        after_place(id, location, files, n, e).reasons.contains_key(id),
        after_place(id, location, files, n, e).matched.contains(files[i].path),
    decreases n,
{
    if i < n - 1 {
        lemma_place_notes(id, location, files, i, n - 1, e);
    }
}

proof fn lemma_anchor_notes(
    index: IndexView,
    changes: ChangeSetView,
    k: int,
    i: int,
    n: int,
    e: EvidenceView,
)
    requires
        0 <= k < n,
        0 <= i < changes.files.len(),
        ({
            let anchor = index.anchors[ordered(index.anchors.dom())[k]];
            &&& anchor.value.location is Some
            &&& is_path_of(changes.files[i], anchor.value.location->0.path)
            &&& place_touched(anchor.value.location->0, changes.files[i])
        }),
    ensures
        after_anchors(index, changes, n, e).reasons.contains_key(ordered(index.anchors.dom())[k]),
        after_anchors(index, changes, n, e).matched.contains(changes.files[i].path),
    decreases n,
{
    let id = ordered(index.anchors.dom())[n - 1];
    let before = after_anchors(index, changes, n - 1, e);
    if k < n - 1 {
        lemma_anchor_notes(index, changes, k, i, n - 1, e);
        lemma_one_anchor_grows(id, index.anchors[id], changes, before);
    } else {
        let anchor = index.anchors[id];
        let noted = match touched_by(changes, anchor.provenance) {
            None => before,
            Some(changed) => EvidenceView {
                matched: before.matched.insert(changed.path),
                reasons: before.reasons.insert(
                    id,
                    directly("anchor metadata changed in "@ + source_of(anchor.provenance)),
                ),
                ..before
            },
        };
        lemma_place_notes(
            id,
            anchor.value.location->0,
            changes.files,
            i,
            changes.files.len() as int,
            noted,
        );
    }
}

proof fn lemma_with_members(
    index: IndexView,
    id: Seq<char>,
    include_optional: bool,
    n: int,
    reasons: Map<Seq<char>, AnchorReasonView>,
)
    ensures
        keeps(reasons, with_members(index, id, include_optional, n, reasons)),
        reasons.dom().finite() ==> with_members(
            index,
            id,
            include_optional,
            n,
            reasons,
        ).dom().finite(),
    decreases n,
{
    if n > 0 {
        lemma_with_members(index, id, include_optional, n - 1, reasons);
    }
}

proof fn lemma_with_strand_members(
    index: IndexView,
    ids: Seq<Seq<char>>,
    include_optional: bool,
    n: int,
    reasons: Map<Seq<char>, AnchorReasonView>,
)
    ensures
        keeps(reasons, with_strand_members(index, ids, include_optional, n, reasons)),
        reasons.dom().finite() ==> with_strand_members(
            index,
            ids,
            include_optional,
            n,
            reasons,
        ).dom().finite(),
    decreases n,
{
    if n > 0 {
        lemma_with_strand_members(index, ids, include_optional, n - 1, reasons);
        let before = with_strand_members(index, ids, include_optional, n - 1, reasons);
        lemma_with_members(
            index,
            ids[n - 1],
            include_optional,
            index.memberships.len() as int,
            before,
        );
    }
}

proof fn lemma_next_is_new(
    edges: Seq<EdgeView>,
    n: int,
    frontier: Set<Seq<char>>,
    visited: Set<Seq<char>>,
)
    ensures
        forall|id: Seq<char>| #[trigger]
            next_reasons(edges, n, frontier, visited).contains_key(id) ==> !visited.contains(id),
        next_reasons(edges, n, frontier, visited).dom().finite(),
    decreases n,
{
    if n > 0 {
        lemma_next_is_new(edges, n - 1, frontier, visited);
    } else {
        assert(next_reasons(edges, n, frontier, visited).dom() =~= Set::empty());
    }
}

proof fn lemma_connected_is_finite(
    index: IndexView,
    frontier: Set<Seq<char>>,
    tags: Set<Seq<char>>,
    n: int,
)
    ensures
        connected_strands(index, frontier, tags, n).finite(),
    decreases n,
{
    if n > 0 {
        lemma_connected_is_finite(index, frontier, tags, n - 1);
    }
}

/// One step more keeps what was reached.
proof fn lemma_step_keeps(index: IndexView, route: RouteView, st: ReachView)
    ensures
        keeps(st.reasons, reach_step(index, route, st).reasons),
        st.reasons.dom().finite() ==> reach_step(index, route, st).reasons.dom().finite(),
        st.active.subset_of(reach_step(index, route, st).active),
        st.active.finite() ==> reach_step(index, route, st).active.finite(),
{
    let next = next_of(route, st);
    lemma_next_is_new(route.edges, route.edges.len() as int, st.frontier, st.reasons.dom());
    let more = related_reasons(next);
    let added = st.reasons.union_prefer_right(more);
    assert(more.dom() =~= next.dom());
    assert(added.dom() =~= st.reasons.dom().union(next.dom()));
    assert forall|id: Seq<char>| #[trigger] st.reasons.contains_key(id) implies added.contains_key(
        id,
    ) && added[id] == st.reasons[id] by {
        assert(!next.contains_key(id));
        assert(!more.contains_key(id));
    }
    let met = connected_strands(index, next.dom(), route.tags, index.memberships.len() as int);
    lemma_connected_is_finite(index, next.dom(), route.tags, index.memberships.len() as int);
    lemma_with_strand_members(
        index,
        ordered(met),
        route.include_optional,
        ordered(met).len() as int,
        added,
    );
}

/// What was reached stays reached for the same reason, however far relations are followed.
pub proof fn reaching_keeps_reasons(index: IndexView, route: RouteView, st: ReachView, depth: nat)
    ensures
        keeps(st.reasons, reach(index, route, st, depth).reasons),
        st.active.subset_of(reach(index, route, st, depth).active),
        st.reasons.dom().finite() ==> reach(index, route, st, depth).reasons.dom().finite(),
        st.active.finite() ==> reach(index, route, st, depth).active.finite(),
    decreases depth,
{
    if depth == 0 || next_of(route, st) == Map::<Seq<char>, Seq<char>>::empty() {
    } else {
        let after = reach_step(index, route, st);
        lemma_step_keeps(index, route, st);
        reaching_keeps_reasons(index, route, after, (depth - 1) as nat);
    }
}

/// Following no relation reaches nothing more.
pub proof fn no_depth_reaches_nothing_more(index: IndexView, route: RouteView, st: ReachView)
    ensures
        reach(index, route, st, 0) == st,
{
}

/// Following more relations reaches no less.
pub proof fn more_depth_reaches_no_less(
    index: IndexView,
    route: RouteView,
    st: ReachView,
    depth: nat,
    more: nat,
)
    requires
        depth <= more,
    ensures
        keeps(
            reach(index, route, st, depth).reasons,
            reach(index, route, st, more).reasons,
        ),
        reach(index, route, st, depth).active.subset_of(reach(index, route, st, more).active),
    decreases depth,
{
    if depth == 0 {
        reaching_keeps_reasons(index, route, st, more);
    } else if next_of(route, st) == Map::<Seq<char>, Seq<char>>::empty() {
    } else {
        more_depth_reaches_no_less(
            index,
            route,
            reach_step(index, route, st),
            (depth - 1) as nat,
            (more - 1) as nat,
        );
    }
}

proof fn lemma_insert_anchor_contains(
    sorted: Seq<AffectedAnchorView>,
    x: AffectedAnchorView,
    y: AffectedAnchorView,
)
    ensures
        insert_anchor(sorted, x).contains(y) <==> (sorted.contains(y) || x == y),
    decreases sorted.len(),
{
    let r = insert_anchor(sorted, x);
    if sorted.len() == 0 || !anchor_before(x, sorted.last()) {
        if sorted.contains(y) {
            let k = sorted.index_of(y);
            assert(r[k] == y);
        }
        if x == y {
            assert(r[sorted.len() as int] == y);
        }
        if r.contains(y) {
            let k = r.index_of(y);
            if k < sorted.len() {
                assert(sorted[k] == y);
            }
        }
    } else {
        let shorter = sorted.drop_last();
        let inner = insert_anchor(shorter, x);
        lemma_insert_anchor_contains(shorter, x, y);
        if sorted.contains(y) {
            let k = sorted.index_of(y);
            if k < shorter.len() {
                assert(shorter[k] == y);
                let m = inner.index_of(y);
                assert(r[m] == y);
            } else {
                assert(r[inner.len() as int] == y);
            }
        }
        if x == y {
            let m = inner.index_of(y);
            assert(r[m] == y);
        }
        if r.contains(y) {
            let k = r.index_of(y);
            if k < inner.len() {
                assert(inner[k] == y);
                if x != y {
                    let m = shorter.index_of(y);
                    assert(sorted[m] == y);
                }
            } else {
                assert(sorted[sorted.len() - 1] == y);
            }
        }
    }
}

/// Sorting keeps the anchors.
pub proof fn lemma_sort_anchors_contains(anchors: Seq<AffectedAnchorView>, y: AffectedAnchorView)
    ensures
        sort_anchors(anchors).contains(y) <==> anchors.contains(y),
    decreases anchors.len(),
{
    if anchors.len() > 0 {
        let shorter = anchors.drop_last();
        lemma_sort_anchors_contains(shorter, y);
        lemma_insert_anchor_contains(sort_anchors(shorter), anchors.last(), y);
        if anchors.contains(y) {
            let k = anchors.index_of(y);
            if k < shorter.len() {
                assert(shorter[k] == y);
            }
        }
        if shorter.contains(y) {
            let k = shorter.index_of(y);
            assert(anchors[k] == y);
        }
        assert(anchors[anchors.len() - 1] == anchors.last());
    }
}

pub(crate) proof fn lemma_dedup_contains(anchors: Seq<AffectedAnchorView>, y: AffectedAnchorView)
    requires
        dedup_anchors(anchors).contains(y),
    ensures
        anchors.contains(y),
    decreases anchors.len(),
{
    if anchors.len() > 0 {
        let shorter = anchors.drop_last();
        let before = dedup_anchors(shorter);
        let k = dedup_anchors(anchors).index_of(y);
        if k < before.len() {
            assert(before[k] == y);
            lemma_dedup_contains(shorter, y);
            let m = shorter.index_of(y);
            assert(anchors[m] == y);
        } else {
            assert(anchors[anchors.len() - 1] == y);
        }
    }
}

proof fn lemma_current_members(
    index: IndexView,
    l: ListingView,
    id: Seq<char>,
    strand: StrandView,
    n: int,
    k: int,
)
    requires
        0 <= k < current_members(index, l, id, strand, n).len(),
    ensures
        exists|member: MemberView|
            current_members(index, l, id, strand, n)[k] == #[trigger] listed_member(
                index,
                l,
                id,
                member,
            ),
    decreases n,
{
    if n > 0 {
        let before = current_members(index, l, id, strand, n - 1);
        if k < before.len() {
            lemma_current_members(index, l, id, strand, n - 1, k);
            assert(current_members(index, l, id, strand, n)[k] == before[k]);
        } else {
            let member = index.memberships[n - 1].member;
            assert(current_members(index, l, id, strand, n)[k] == listed_member(
                index,
                l,
                id,
                member,
            ));
        }
    }
}

proof fn lemma_former_members(
    index: IndexView,
    l: ListingView,
    id: Seq<char>,
    strand: StrandView,
    n: int,
    k: int,
)
    requires
        0 <= k < former_members(index, l, id, strand, n).len(),
    ensures
        exists|member: MemberView|
            former_members(index, l, id, strand, n)[k] == #[trigger] listed_member(
                index,
                l,
                id,
                member,
            ),
    decreases n,
{
    if n > 0 {
        let before = former_members(index, l, id, strand, n - 1);
        if k < before.len() {
            lemma_former_members(index, l, id, strand, n - 1, k);
            assert(former_members(index, l, id, strand, n)[k] == before[k]);
        } else {
            let member = l.removed_members[n - 1].1;
            assert(former_members(index, l, id, strand, n)[k] == listed_member(
                index,
                l,
                id,
                member,
            ));
        }
    }
}

/// Every anchor of a listed strand is listed as `listed_member` says.
proof fn lemma_listed_members(
    index: IndexView,
    l: ListingView,
    id: Seq<char>,
    strand: StrandView,
    j: int,
)
    requires
        0 <= j < listed_members(index, l, id, strand).len(),
    ensures
        exists|member: MemberView|
            listed_members(index, l, id, strand)[j] == #[trigger] listed_member(
                index,
                l,
                id,
                member,
            ),
{
    let current = current_members(index, l, id, strand, index.memberships.len() as int);
    let former = former_members(index, l, id, strand, l.removed_members.len() as int);
    let all = current + former;
    let y = listed_members(index, l, id, strand)[j];
    assert(listed_members(index, l, id, strand).contains(y));
    lemma_dedup_contains(sort_anchors(all), y);
    lemma_sort_anchors_contains(all, y);
    let k = all.index_of(y);
    if k < current.len() {
        assert(current[k] == y);
        lemma_current_members(index, l, id, strand, index.memberships.len() as int, k);
    } else {
        assert(former[k - current.len()] == y);
        lemma_former_members(
            index,
            l,
            id,
            strand,
            l.removed_members.len() as int,
            k - current.len(),
        );
    }
}

/// Every listed strand is listed as `listed_strand` says.
proof fn lemma_listed_strands(
    index: IndexView,
    l: ListingView,
    ids: Seq<Seq<char>>,
    n: int,
    i: int,
)
    requires
        0 <= i < listed_strands(index, l, ids, n).len(),
    ensures
        exists|id: Seq<char>, strand: StrandView|
            listed_strands(index, l, ids, n)[i] == #[trigger] listed_strand(index, l, id, strand),
    decreases n,
{
    if n > 0 {
        let before = listed_strands(index, l, ids, n - 1);
        if i < before.len() {
            lemma_listed_strands(index, l, ids, n - 1, i);
            assert(listed_strands(index, l, ids, n)[i] == before[i]);
        } else {
            match known_strand(index, l, ids[n - 1]) {
                Some(strand) => {
                    assert(listed_strands(index, l, ids, n)[i] == listed_strand(
                        index,
                        l,
                        ids[n - 1],
                        strand,
                    ));
                },
                None => {},
            }
        }
    }
}

proof fn lemma_anchor_ids(anchors: Seq<AffectedAnchorView>, n: int, id: Seq<char>)
    requires
        0 <= n <= anchors.len(),
    ensures
        anchor_ids(anchors, n).contains(id) <==> exists|j: int|
            0 <= j < n && (#[trigger] anchors[j]).id == id,
    decreases n,
{
    if n > 0 {
        lemma_anchor_ids(anchors, n - 1, id);
        if anchors[n - 1].id == id {
            assert(anchors[n - 1].id == id);
        }
    }
}

pub(crate) proof fn lemma_represented_ids(strands: Seq<AffectedStrandView>, n: int, id: Seq<char>)
    requires
        0 <= n <= strands.len(),
    ensures
        represented_ids(strands, n).contains(id) <==> exists|i: int, j: int|
            0 <= i < n && 0 <= j < strands[i].anchors.len() && (
            #[trigger] strands[i].anchors[j]).id == id,
    decreases n,
{
    if n > 0 {
        lemma_represented_ids(strands, n - 1, id);
        let last = strands[n - 1].anchors;
        lemma_anchor_ids(last, last.len() as int, id);
        if exists|j: int| 0 <= j < last.len() && (#[trigger] last[j]).id == id {
            let j = choose|j: int| 0 <= j < last.len() && (#[trigger] last[j]).id == id;
            assert(strands[n - 1].anchors[j].id == id);
        }
        if exists|i: int, j: int|
            0 <= i < n && 0 <= j < strands[i].anchors.len() && (
            #[trigger] strands[i].anchors[j]).id == id {
            let (i, j) = choose|i: int, j: int|
                0 <= i < n && 0 <= j < strands[i].anchors.len() && (
                #[trigger] strands[i].anchors[j]).id == id;
            if i == n - 1 {
                assert(last[j].id == id);
            } else {
                assert(strands[i].anchors[j].id == id);
            }
        }
    }
}

proof fn lemma_related_list(
    index: IndexView,
    removed: Map<Seq<char>, AnchorView>,
    reasons: Map<Seq<char>, AnchorReasonView>,
    shown: Set<Seq<char>>,
    n: int,
    k: int,
)
    requires
        0 <= k < n,
        !shown.contains(ordered(reasons.dom())[k]),
    ensures
        exists|j: int|
            0 <= j < related_list(index, removed, reasons, shown, n).len() && ({
                let a = #[trigger] related_list(index, removed, reasons, shown, n)[j];
                let id = ordered(reasons.dom())[k];
                a.id == id && a.reason == reasons[id].reason && a.direct == reasons[id].direct
            }),
    decreases n,
{
    let id = ordered(reasons.dom())[k];
    let all = related_list(index, removed, reasons, shown, n);
    if k < n - 1 {
        lemma_related_list(index, removed, reasons, shown, n - 1, k);
        let before = related_list(index, removed, reasons, shown, n - 1);
        let j = choose|j: int|
            0 <= j < before.len() && ({
                let a = #[trigger] before[j];
                a.id == id && a.reason == reasons[id].reason && a.direct == reasons[id].direct
            });
        assert(all[j] == before[j]);
    } else {
        assert(all[all.len() - 1].id == id);
    }
}

/// Whether an anchor is listed in a context with a reason, in a strand or on its own.
pub open spec fn is_reported(
    packet: ContextPacketView,
    id: Seq<char>,
    why: AnchorReasonView,
) -> bool {
    ||| exists|i: int, j: int|
        0 <= i < packet.strands.len() && 0 <= j < packet.strands[i].anchors.len() && ({
            let a = #[trigger] packet.strands[i].anchors[j];
            a.id == id && a.reason == why.reason && a.direct == why.direct
        })
    ||| exists|k: int|
        0 <= k < packet.related_anchors.len() && ({
            let a = #[trigger] packet.related_anchors[k];
            a.id == id && a.reason == why.reason && a.direct == why.direct
        })
}

/// What is listed of reached strands and of the anchors outside them holds every reached
/// anchor, with its reason.
pub(crate) proof fn lemma_listing_is_complete(
    index: IndexView,
    l: ListingView,
    ids: Seq<Seq<char>>,
    packet: ContextPacketView,
    id: Seq<char>,
)
    requires
        l.reasons.dom().finite(),
        l.reasons.contains_key(id),
        packet.strands == listed_strands(index, l, ids, ids.len() as int),
        packet.related_anchors == related_list(
            index,
            l.removed_anchors,
            l.reasons,
            represented_ids(packet.strands, packet.strands.len() as int),
            ordered(l.reasons.dom()).len() as int,
        ),
    ensures
        is_reported(packet, id, l.reasons[id]),
{
    let shown = represented_ids(packet.strands, packet.strands.len() as int);
    lemma_represented_ids(packet.strands, packet.strands.len() as int, id);
    if shown.contains(id) {
        let (i, j) = choose|i: int, j: int|
            0 <= i < packet.strands.len() && 0 <= j < packet.strands[i].anchors.len() && (
            #[trigger] packet.strands[i].anchors[j]).id == id;
        lemma_listed_strands(index, l, ids, ids.len() as int, i);
        let (sid, strand) = choose|sid: Seq<char>, strand: StrandView|
            packet.strands[i] == #[trigger] listed_strand(index, l, sid, strand);
        lemma_listed_members(index, l, sid, strand, j);
        let a = packet.strands[i].anchors[j];
        assert(a.reason == l.reasons[id].reason && a.direct == l.reasons[id].direct);
    } else {
        lemma_orderable(l.reasons.dom());
        let keys = ordered(l.reasons.dom());
        assert(keys.to_set().contains(id));
        let k = keys.index_of(id);
        lemma_related_list(
            index,
            l.removed_anchors,
            l.reasons,
            shown,
            keys.len() as int,
            k,
        );
    }
}

pub(crate) proof fn lemma_affected_keeps(
    index: IndexView,
    config: ConfigView,
    options: AffectedOptionsView,
    e: EvidenceView,
)
    ensures
        keeps(e.reasons, affected_reach(index, config, options, e).reasons),
        e.reasons.dom().finite() ==> affected_reach(
            index,
            config,
            options,
            e,
        ).reasons.dom().finite(),
{
    let direct = touched_strands(index, e, options.tags);
    let start = reach_start(index, e, direct, reaches_optional(options, config));
    lemma_with_strand_members(
        index,
        ordered(direct),
        reaches_optional(options, config),
        ordered(direct).len() as int,
        e.reasons,
    );
    reaching_keeps_reasons(
        index,
        affected_route(index, config, options, e),
        start,
        affected_depth(index, config, options, direct) as nat,
    );
}

/// Every anchor that a change reaches is listed in its context with the reason why: in a
/// strand, or on its own.
pub proof fn every_reached_anchor_is_reported(
    index: IndexView,
    changes: ChangeSetView,
    parsed: Map<Seq<char>, ParsedMetadataView>,
    config: ConfigView,
    options: AffectedOptionsView,
    id: Seq<char>,
)
    requires
        affected_reach(
            index,
            config,
            options,
            direct_evidence(index, changes, parsed, config.annotations),
        ).reasons.contains_key(id),
    ensures
        is_reported(
            affected_packet(index, changes, parsed, config, options),
            id,
            affected_reach(
                index,
                config,
                options,
                direct_evidence(index, changes, parsed, config.annotations),
            ).reasons[id],
        ),
{
    let e = direct_evidence(index, changes, parsed, config.annotations);
    lemma_evidence(index, changes, parsed, config.annotations);
    lemma_affected_keeps(index, config, options, e);
    let l = affected_listing(index, config, options, e);
    lemma_listing_is_complete(
        index,
        l,
        ordered(affected_reach(index, config, options, e).active),
        affected_packet(index, changes, parsed, config, options),
        id,
    );
}

/// Every anchor whose place a changed file touches, by its path before or after the change,
/// is listed in the context of the change as touched directly, and the file does not count
/// as one that touches nothing.
pub proof fn touched_anchors_are_reported(
    index: IndexView,
    changes: ChangeSetView,
    parsed: Map<Seq<char>, ParsedMetadataView>,
    config: ConfigView,
    options: AffectedOptionsView,
    id: Seq<char>,
    i: int,
)
    requires
        index.anchors.dom().finite(),
        index.anchors.contains_key(id),
        index.anchors[id].value.location is Some,
        0 <= i < changes.files.len(),
        is_path_of(changes.files[i], index.anchors[id].value.location->0.path),
        place_touched(index.anchors[id].value.location->0, changes.files[i]),
    ensures
        exists|why: AnchorReasonView|
            why.direct && #[trigger] is_reported(
                affected_packet(index, changes, parsed, config, options),
                id,
                why,
            ),
        !affected_packet(index, changes, parsed, config, options).unmatched_files.contains(
            changes.files[i].path,
        ),
{
    let e = direct_evidence(index, changes, parsed, config.annotations);
    lemma_orderable(index.anchors.dom());
    let keys = ordered(index.anchors.dom());
    assert(keys.to_set().contains(id));
    let k = keys.index_of(id);
    lemma_anchor_notes(
        index,
        changes,
        k,
        i,
        keys.len() as int,
        evidence_before_anchors(index, changes),
    );
    lemma_evidence(index, changes, parsed, config.annotations);
    assert(e.reasons.contains_key(id));
    lemma_affected_keeps(index, config, options, e);
    every_reached_anchor_is_reported(index, changes, parsed, config, options, id);
    assert(e.matched.contains(changes.files[i].path));
    lemma_unmatched(changes.files, e.matched, changes.files.len() as int);
    assert(is_reported(
        affected_packet(index, changes, parsed, config, options),
        id,
        e.reasons[id],
    ));
}

pub(crate) proof fn lemma_unmatched(files: Seq<ChangedFileView>, matched: Set<Seq<char>>, n: int)
    requires
        n <= files.len(),
    ensures
        forall|path: Seq<char>|
            unmatched_list(files, matched, n).contains(path) ==> !(#[trigger] matched.contains(
                path,
            )),
        forall|i: int|
            0 <= i < n && !matched.contains((#[trigger] files[i]).path) ==> unmatched_list(
                files,
                matched,
                n,
            ).contains(files[i].path),
    decreases n,
{
    if n > 0 {
        lemma_unmatched(files, matched, n - 1);
        let before = unmatched_list(files, matched, n - 1);
        let all = unmatched_list(files, matched, n);
        assert forall|path: Seq<char>| all.contains(path) implies !(#[trigger] matched.contains(
            path,
        )) by {
            let k = all.index_of(path);
            if k < before.len() {
                assert(before[k] == path);
                assert(before.contains(path));
            }
        }
        assert forall|i: int|
            0 <= i < n && !matched.contains((#[trigger] files[i]).path) implies all.contains(
            files[i].path,
        ) by {
            if i < n - 1 {
                assert(before.contains(files[i].path));
                let k = before.index_of(files[i].path);
                assert(all[k] == files[i].path);
            } else {
                assert(all[all.len() - 1] == files[i].path);
            }
        }
    }
}

/// Every changed file either touches something or is listed as one that touches nothing, and
/// never both.
pub proof fn changed_files_are_accounted_for(
    index: IndexView,
    changes: ChangeSetView,
    parsed: Map<Seq<char>, ParsedMetadataView>,
    config: ConfigView,
    options: AffectedOptionsView,
    i: int,
)
    requires
        0 <= i < changes.files.len(),
    ensures
        affected_packet(index, changes, parsed, config, options).unmatched_files.contains(
            changes.files[i].path,
        ) <==> !direct_evidence(index, changes, parsed, config.annotations).matched.contains(
            changes.files[i].path,
        ),
{
    let e = direct_evidence(index, changes, parsed, config.annotations);
    lemma_unmatched(changes.files, e.matched, changes.files.len() as int);
}

pub(crate) proof fn lemma_with_strands_of(
    index: IndexView,
    anchors: Set<Seq<char>>,
    strands: Set<Seq<char>>,
    n: int,
)
    ensures
        strands.subset_of(with_strands_of(index, anchors, strands, n)),
        strands.finite() ==> with_strands_of(index, anchors, strands, n).finite(),
    decreases n,
{
    if n > 0 {
        lemma_with_strands_of(index, anchors, strands, n - 1);
    }
}

pub(crate) proof fn lemma_strand_is_listed(
    index: IndexView,
    l: ListingView,
    ids: Seq<Seq<char>>,
    n: int,
    k: int,
)
    requires
        0 <= k < n,
        known_strand(index, l, ids[k]) is Some,
    ensures
        exists|i: int|
            0 <= i < listed_strands(index, l, ids, n).len() && (#[trigger] listed_strands(
                index,
                l,
                ids,
                n,
            )[i]) == listed_strand(index, l, ids[k], known_strand(index, l, ids[k])->0),
    decreases n,
{
    let all = listed_strands(index, l, ids, n);
    let wanted = listed_strand(index, l, ids[k], known_strand(index, l, ids[k])->0);
    if k < n - 1 {
        lemma_strand_is_listed(index, l, ids, n - 1, k);
        let before = listed_strands(index, l, ids, n - 1);
        let i = choose|i: int| 0 <= i < before.len() && #[trigger] before[i] == wanted;
        assert(all[i] == before[i]);
    } else {
        assert(all[all.len() - 1] == wanted);
    }
}

/// A strand that a removed annotation belonged to stays in the context of the change, as one
/// that is touched directly, and so does the anchor of the annotation. This holds where no
/// tag is asked for.
pub proof fn removed_annotations_stay_in_context(
    index: IndexView,
    changes: ChangeSetView,
    parsed: Map<Seq<char>, ParsedMetadataView>,
    config: ConfigView,
    options: AffectedOptionsView,
    path: Seq<char>,
    m: int,
)
    requires
        options.tags == Set::<Seq<char>>::empty(),
        ordered_removed_paths(changes).contains(path),
        !(is_deleted(changes.files, path) && parsed.contains_key(path)),
        ({
            let scan = crate::annotations::scan_of(
                path,
                removed_text(changes.removed_lines, path),
                config.annotations,
            );
            0 <= m < scan.memberships.len() && scan.memberships[m].strand is Some
        }),
    ensures
        ({
            let scan = crate::annotations::scan_of(
                path,
                removed_text(changes.removed_lines, path),
                config.annotations,
            );
            let packet = affected_packet(index, changes, parsed, config, options);
            &&& exists|i: int|
                0 <= i < packet.strands.len() && (#[trigger] packet.strands[i]).id
                    == scan.memberships[m].strand->0 && packet.strands[i].direct
            &&& exists|why: AnchorReasonView|
                why.direct && #[trigger] is_reported(
                    packet,
                    scan.memberships[m].member.anchor,
                    why,
                )
        }),
{
    let scan = crate::annotations::scan_of(
        path,
        removed_text(changes.removed_lines, path),
        config.annotations,
    );
    let strand = scan.memberships[m].strand->0;
    let anchor = scan.memberships[m].member.anchor;
    let e = direct_evidence(index, changes, parsed, config.annotations);
    let paths = ordered_removed_paths(changes);
    let at = paths.index_of(path);
    let start = after_anchors(
        index,
        changes,
        ordered(index.anchors.dom()).len() as int,
        evidence_before_anchors(index, changes),
    );
    let before = after_removed_paths(changes, parsed, config.annotations, at, start);
    let after = after_removed_paths(changes, parsed, config.annotations, at + 1, start);
    lemma_scan_grows(path, scan, before);
    assert(after == after_scan(path, scan, before));
    lemma_removed_paths_grow(
        changes,
        parsed,
        config.annotations,
        at + 1,
        paths.len() as int,
        start,
    );
    lemma_evidence(index, changes, parsed, config.annotations);
    assert(e.seeds.contains(strand));
    assert(e.removed_strands.contains_key(strand));
    assert(e.reasons.contains_key(anchor));
    lemma_with_strands_of(index, e.reasons.dom(), e.seeds, index.memberships.len() as int);
    let direct = touched_strands(index, e, options.tags);
    assert(direct.contains(strand));
    let reached = affected_reach(index, config, options, e);
    let first = reach_start(index, e, direct, reaches_optional(options, config));
    assert(direct.finite()) by {
        let all = with_strands_of(
            index,
            e.reasons.dom(),
            e.seeds,
            index.memberships.len() as int,
        );
        assert(direct.subset_of(all));
        vstd::set_lib::lemma_set_subset_finite(all, direct);
    }
    reaching_keeps_reasons(
        index,
        affected_route(index, config, options, e),
        first,
        affected_depth(index, config, options, direct) as nat,
    );
    assert(reached.active.contains(strand));
    lemma_orderable(reached.active);
    let ids = ordered(reached.active);
    assert(ids.to_set().contains(strand));
    let k = ids.index_of(strand);
    let l = affected_listing(index, config, options, e);
    lemma_strand_is_listed(index, l, ids, ids.len() as int, k);
    lemma_affected_keeps(index, config, options, e);
    every_reached_anchor_is_reported(index, changes, parsed, config, options, anchor);
    assert(is_reported(
        affected_packet(index, changes, parsed, config, options),
        anchor,
        e.reasons[anchor],
    ));
}

/// Every seed of a context is listed in it as touched directly, with the reason that it came
/// with.
pub proof fn seeds_are_reported(
    index: IndexView,
    seeds: ContextSeedsView,
    config: ConfigView,
    options: AffectedOptionsView,
    id: Seq<char>,
)
    requires
        seeds.anchors.dom().finite(),
        seeds.anchors.contains_key(id),
    ensures
        is_reported(
            seed_packet(index, seeds, config, options),
            id,
            directly(seeds.anchors[id]),
        ),
{
    let start = seed_start(index, config, options, seeds);
    let own = seed_reasons(seeds.anchors);
    assert(own.dom() =~= seeds.anchors.dom());
    let expanded = with_exact_strands(index, seeds, index.memberships.len() as int);
    lemma_with_strand_members(
        index,
        ordered(expanded),
        reaches_optional(options, config),
        ordered(expanded).len() as int,
        own,
    );
    assert(own.contains_key(id));
    let depth = match options.depth {
        Some(depth) => depth as nat,
        None => config.traversal.depth as nat,
    };
    reaching_keeps_reasons(index, seed_route(index, config, options, seeds), start, depth);
    let l = seed_listing(index, config, options, seeds);
    lemma_listing_is_complete(
        index,
        l,
        ordered(seed_reach(index, config, options, seeds).active),
        seed_packet(index, seeds, config, options),
        id,
    );
}

/// Whether what reasons hold beyond others is not touched directly.
pub open spec fn new_are_indirect(
    before: Map<Seq<char>, AnchorReasonView>,
    after: Map<Seq<char>, AnchorReasonView>,
) -> bool {
    forall|id: Seq<char>| #[trigger]
        after.contains_key(id) && !before.contains_key(id) ==> !after[id].direct
}

proof fn lemma_members_are_indirect(
    index: IndexView,
    id: Seq<char>,
    include_optional: bool,
    n: int,
    reasons: Map<Seq<char>, AnchorReasonView>,
)
    ensures
        new_are_indirect(reasons, with_members(index, id, include_optional, n, reasons)),
    decreases n,
{
    if n > 0 {
        lemma_members_are_indirect(index, id, include_optional, n - 1, reasons);
    }
}

pub(crate) proof fn lemma_strand_members_are_indirect(
    index: IndexView,
    ids: Seq<Seq<char>>,
    include_optional: bool,
    n: int,
    reasons: Map<Seq<char>, AnchorReasonView>,
)
    ensures
        new_are_indirect(reasons, with_strand_members(index, ids, include_optional, n, reasons)),
    decreases n,
{
    if n > 0 {
        lemma_strand_members_are_indirect(index, ids, include_optional, n - 1, reasons);
        let before = with_strand_members(index, ids, include_optional, n - 1, reasons);
        lemma_members_are_indirect(
            index,
            ids[n - 1],
            include_optional,
            index.memberships.len() as int,
            before,
        );
        lemma_with_members(
            index,
            ids[n - 1],
            include_optional,
            index.memberships.len() as int,
            before,
        );
    }
}

/// What relations lead to is not touched directly.
pub proof fn reached_anchors_are_indirect(
    index: IndexView,
    route: RouteView,
    st: ReachView,
    depth: nat,
)
    ensures
        forall|id: Seq<char>| #[trigger]
            reach(index, route, st, depth).reasons.contains_key(id) && !st.reasons.contains_key(id)
                ==> !reach(index, route, st, depth).reasons[id].direct,
    decreases depth,
{
    if depth == 0 || next_of(route, st) == Map::<Seq<char>, Seq<char>>::empty() {
    } else {
        let after = reach_step(index, route, st);
        let next = next_of(route, st);
        let more = related_reasons(next);
        let added = st.reasons.union_prefer_right(more);
        assert(new_are_indirect(st.reasons, added)) by {
            assert(more.dom() =~= next.dom());
            assert(added.dom() =~= st.reasons.dom().union(next.dom()));
            assert forall|id: Seq<char>| #[trigger]
                added.contains_key(id) && !st.reasons.contains_key(id) implies !added[id].direct by {
                assert(more.contains_key(id));
            }
        }
        let met = connected_strands(index, next.dom(), route.tags, index.memberships.len() as int);
        lemma_strand_members_are_indirect(
            index,
            ordered(met),
            route.include_optional,
            ordered(met).len() as int,
            added,
        );
        lemma_with_strand_members(
            index,
            ordered(met),
            route.include_optional,
            ordered(met).len() as int,
            added,
        );
        lemma_step_keeps(index, route, st);
        reached_anchors_are_indirect(index, route, after, (depth - 1) as nat);
        reaching_keeps_reasons(index, route, after, (depth - 1) as nat);
        let last = reach(index, route, st, depth).reasons;
        assert forall|id: Seq<char>| #[trigger]
            last.contains_key(id) && !st.reasons.contains_key(id) implies !last[id].direct by {
            if after.reasons.contains_key(id) {
                assert(!after.reasons[id].direct);
            }
        }
    }
}

/// Whether an anchor is listed in a context as touched directly or not, in a strand or on its
/// own.
pub open spec fn is_shown(packet: ContextPacketView, id: Seq<char>, direct: bool) -> bool {
    ||| exists|i: int, j: int|
        0 <= i < packet.strands.len() && 0 <= j < packet.strands[i].anchors.len() && ({
            let a = #[trigger] packet.strands[i].anchors[j];
            a.id == id && a.direct == direct
        })
    ||| exists|k: int|
        0 <= k < packet.related_anchors.len() && ({
            let a = #[trigger] packet.related_anchors[k];
            a.id == id && a.direct == direct
        })
}

/// Whether a context lists a strand.
pub open spec fn lists_strand(packet: ContextPacketView, id: Seq<char>) -> bool {
    exists|i: int| 0 <= i < packet.strands.len() && (#[trigger] packet.strands[i]).id == id
}

/// Which of the reached strands a listed strand is.
pub(crate) proof fn lemma_listed_at(
    index: IndexView,
    l: ListingView,
    ids: Seq<Seq<char>>,
    n: int,
    i: int,
) -> (k: int)
    requires
        0 <= i < listed_strands(index, l, ids, n).len(),
    ensures
        0 <= k < n,
        known_strand(index, l, ids[k]) is Some,
        listed_strands(index, l, ids, n)[i] == listed_strand(
            index,
            l,
            ids[k],
            known_strand(index, l, ids[k])->0,
        ),
    decreases n,
{
    if n <= 0 {
        0
    } else {
        let before = listed_strands(index, l, ids, n - 1);
        if i < before.len() {
            let k = lemma_listed_at(index, l, ids, n - 1, i);
            assert(listed_strands(index, l, ids, n)[i] == before[i]);
            k
        } else {
            n - 1
        }
    }
}

pub(crate) proof fn lemma_related_at(
    index: IndexView,
    removed: Map<Seq<char>, AnchorView>,
    reasons: Map<Seq<char>, AnchorReasonView>,
    shown: Set<Seq<char>>,
    n: int,
    j: int,
)
    requires
        0 <= n <= ordered(reasons.dom()).len(),
        0 <= j < related_list(index, removed, reasons, shown, n).len(),
    ensures
        exists|k: int|
            0 <= k < n && ({
                let id = #[trigger] ordered(reasons.dom())[k];
                let a = related_list(index, removed, reasons, shown, n)[j];
                a.id == id && a.direct == reasons[id].direct
            }),
    decreases n,
{
    if n > 0 {
        let before = related_list(index, removed, reasons, shown, n - 1);
        let now = related_list(index, removed, reasons, shown, n);
        if j < before.len() {
            lemma_related_at(index, removed, reasons, shown, n - 1, j);
            assert(now[j] == before[j]);
            let k = choose|k: int|
                0 <= k < n - 1 && ({
                    let id = #[trigger] ordered(reasons.dom())[k];
                    let a = before[j];
                    a.id == id && a.direct == reasons[id].direct
                });
            assert(ordered(reasons.dom())[k] == now[j].id);
        } else {
            assert(ordered(reasons.dom())[n - 1] == now[j].id);
        }
    }
}

/// Whether an anchor is listed as touched directly is told by its reason.
proof fn lemma_shown_flag(
    index: IndexView,
    l: ListingView,
    ids: Seq<Seq<char>>,
    packet: ContextPacketView,
    id: Seq<char>,
    direct: bool,
)
    requires
        l.reasons.dom().finite(),
        is_shown(packet, id, direct),
        packet.strands == listed_strands(index, l, ids, ids.len() as int),
        packet.related_anchors == related_list(
            index,
            l.removed_anchors,
            l.reasons,
            represented_ids(packet.strands, packet.strands.len() as int),
            ordered(l.reasons.dom()).len() as int,
        ),
    ensures
        direct == (l.reasons.contains_key(id) && l.reasons[id].direct),
{
    if exists|i: int, j: int|
        0 <= i < packet.strands.len() && 0 <= j < packet.strands[i].anchors.len() && ({
            let a = #[trigger] packet.strands[i].anchors[j];
            a.id == id && a.direct == direct
        }) {
        let (i, j) = choose|i: int, j: int|
            0 <= i < packet.strands.len() && 0 <= j < packet.strands[i].anchors.len() && ({
                let a = #[trigger] packet.strands[i].anchors[j];
                a.id == id && a.direct == direct
            });
        let k = lemma_listed_at(index, l, ids, ids.len() as int, i);
        lemma_listed_members(index, l, ids[k], known_strand(index, l, ids[k])->0, j);
    } else {
        let j = choose|j: int|
            0 <= j < packet.related_anchors.len() && ({
                let a = #[trigger] packet.related_anchors[j];
                a.id == id && a.direct == direct
            });
        let shown = represented_ids(packet.strands, packet.strands.len() as int);
        let keys = ordered(l.reasons.dom());
        lemma_related_at(index, l.removed_anchors, l.reasons, shown, keys.len() as int, j);
        let k = choose|k: int|
            0 <= k < keys.len() && ({
                let key = #[trigger] keys[k];
                let a = packet.related_anchors[j];
                a.id == key && a.direct == l.reasons[key].direct
            });
        lemma_orderable(l.reasons.dom());
        assert(keys.contains(keys[k]));
        assert(keys.to_set().contains(id));
    }
}

/// Members that are listed with one set of reasons are listed with another.
proof fn lemma_same_members(
    index: IndexView,
    l: ListingView,
    m: ListingView,
    id: Seq<char>,
    strand: StrandView,
    n: int,
)
    requires
        l.expanded is None,
        m == (ListingView { reasons: m.reasons, ..l }),
    ensures
        current_members(index, l, id, strand, n).len() == current_members(
            index,
            m,
            id,
            strand,
            n,
        ).len(),
        former_members(index, l, id, strand, n).len() == former_members(
            index,
            m,
            id,
            strand,
            n,
        ).len(),
        forall|k: int|
            0 <= k < current_members(index, l, id, strand, n).len() ==> (
            #[trigger] current_members(index, l, id, strand, n)[k]).id == current_members(
                index,
                m,
                id,
                strand,
                n,
            )[k].id,
        forall|k: int|
            0 <= k < former_members(index, l, id, strand, n).len() ==> (#[trigger] former_members(
                index,
                l,
                id,
                strand,
                n,
            )[k]).id == former_members(index, m, id, strand, n)[k].id,
    decreases n,
{
    if n > 0 {
        lemma_same_members(index, l, m, id, strand, n - 1);
    }
}

/// Leaving repeated anchors out leaves each name.
proof fn lemma_dedup_keeps_ids(anchors: Seq<AffectedAnchorView>, k: int)
    requires
        0 <= k < anchors.len(),
    ensures
        exists|j: int|
            0 <= j < dedup_anchors(anchors).len() && (#[trigger] dedup_anchors(anchors)[j]).id
                == anchors[k].id,
    decreases anchors.len(),
{
    let before = dedup_anchors(anchors.drop_last());
    let now = dedup_anchors(anchors);
    if k < anchors.len() - 1 {
        lemma_dedup_keeps_ids(anchors.drop_last(), k);
        let j = choose|j: int|
            0 <= j < before.len() && (#[trigger] before[j]).id == anchors.drop_last()[k].id;
        assert(now[j] == before[j]);
    } else {
        assert(now[now.len() - 1].id == anchors[k].id);
    }
}

/// An anchor that is listed in a strand with one set of reasons is listed in it with another.
pub(crate) proof fn lemma_member_stays(
    index: IndexView,
    l: ListingView,
    m: ListingView,
    id: Seq<char>,
    strand: StrandView,
    j: int,
) -> (k: int)
    requires
        l.expanded is None,
        m == (ListingView { reasons: m.reasons, ..l }),
        0 <= j < listed_members(index, l, id, strand).len(),
    ensures
        0 <= k < listed_members(index, m, id, strand).len(),
        listed_members(index, m, id, strand)[k].id == listed_members(index, l, id, strand)[j].id,
{
    let n = index.memberships.len() as int;
    let r = l.removed_members.len() as int;
    let a = current_members(index, l, id, strand, n) + former_members(index, l, id, strand, r);
    let b = current_members(index, m, id, strand, n) + former_members(index, m, id, strand, r);
    lemma_same_members(index, l, m, id, strand, n);
    lemma_same_members(index, l, m, id, strand, r);
    let y = listed_members(index, l, id, strand)[j];
    assert(listed_members(index, l, id, strand).contains(y));
    lemma_dedup_contains(sort_anchors(a), y);
    lemma_sort_anchors_contains(a, y);
    let at = a.index_of(y);
    let c = current_members(index, l, id, strand, n);
    if at < c.len() {
        assert(a[at] == c[at]);
        assert(b[at] == current_members(index, m, id, strand, n)[at]);
    } else {
        assert(a[at] == former_members(index, l, id, strand, r)[at - c.len()]);
        assert(b[at] == former_members(index, m, id, strand, r)[at - c.len()]);
    }
    assert(b[at].id == y.id);
    assert(b.contains(b[at]));
    lemma_sort_anchors_contains(b, b[at]);
    let sorted = sort_anchors(b);
    let place = sorted.index_of(b[at]);
    lemma_dedup_keeps_ids(sorted, place);
    choose|k: int|
        0 <= k < listed_members(index, m, id, strand).len() && (#[trigger] listed_members(
            index,
            m,
            id,
            strand,
        )[k]).id == sorted[place].id
}

/// Following more relations shows no less in the context of a change: every strand that is
/// listed stays listed, every anchor stays listed and as touched directly as before, and what
/// is listed beyond that is not touched directly.
pub proof fn more_depth_shows_no_less(
    index: IndexView,
    changes: ChangeSetView,
    parsed: Map<Seq<char>, ParsedMetadataView>,
    config: ConfigView,
    options: AffectedOptionsView,
    depth: usize,
    more: usize,
)
    requires
        depth <= more,
    ensures
        ({
            let near = AffectedOptionsView { depth: Some(depth), ..options };
            let far = AffectedOptionsView { depth: Some(more), ..options };
            let first = affected_packet(index, changes, parsed, config, near);
            let second = affected_packet(index, changes, parsed, config, far);
            &&& forall|id: Seq<char>| #[trigger]
                lists_strand(first, id) ==> lists_strand(second, id)
            &&& forall|id: Seq<char>, direct: bool| #[trigger]
                is_shown(first, id, direct) ==> is_shown(second, id, direct)
            &&& forall|id: Seq<char>, direct: bool| #[trigger]
                is_shown(second, id, direct) && !is_shown(first, id, true) && !is_shown(
                    first,
                    id,
                    false,
                ) ==> !direct
        }),
{
    let near = AffectedOptionsView { depth: Some(depth), ..options };
    let far = AffectedOptionsView { depth: Some(more), ..options };
    let e = direct_evidence(index, changes, parsed, config.annotations);
    let first = affected_packet(index, changes, parsed, config, near);
    let second = affected_packet(index, changes, parsed, config, far);
    let direct = touched_strands(index, e, options.tags);
    let start = reach_start(index, e, direct, reaches_optional(options, config));
    let route = affected_route(index, config, options, e);
    let a = affected_reach(index, config, near, e);
    let b = affected_reach(index, config, far, e);
    assert(a == reach(index, route, start, depth as nat));
    assert(b == reach(index, route, start, more as nat));
    more_depth_reaches_no_less(index, route, start, depth as nat, more as nat);
    lemma_evidence(index, changes, parsed, config.annotations);
    lemma_affected_keeps(index, config, near, e);
    lemma_affected_keeps(index, config, far, e);
    reached_anchors_are_indirect(index, route, start, more as nat);
    reaching_keeps_reasons(index, route, start, depth as nat);
    reaching_keeps_reasons(index, route, start, more as nat);
    lemma_with_strands_of(index, e.reasons.dom(), e.seeds, index.memberships.len() as int);
    assert(direct.finite()) by {
        let all = with_strands_of(
            index,
            e.reasons.dom(),
            e.seeds,
            index.memberships.len() as int,
        );
        assert(direct.subset_of(all));
        vstd::set_lib::lemma_set_subset_finite(all, direct);
    }
    let l = affected_listing(index, config, near, e);
    let m = affected_listing(index, config, far, e);
    let ids = ordered(a.active);
    let others = ordered(b.active);
    lemma_orderable(a.active);
    lemma_orderable(b.active);
    assert forall|k: int| 0 <= k < ids.len() implies others.contains(#[trigger] ids[k]) by {
        assert(ids.contains(ids[k]));
        assert(ids.to_set().contains(ids[k]));
        assert(a.active.contains(ids[k]));
        assert(others.to_set().contains(ids[k]));
    }
    assert forall|id: Seq<char>| #[trigger] lists_strand(first, id) implies lists_strand(
        second,
        id,
    ) by {
        let i = choose|i: int|
            0 <= i < first.strands.len() && (#[trigger] first.strands[i]).id == id;
        let k = lemma_listed_at(index, l, ids, ids.len() as int, i);
        let at = others.index_of(ids[k]);
        lemma_strand_is_listed(index, m, others, others.len() as int, at);
    }
    assert forall|id: Seq<char>, flag: bool| #[trigger] is_shown(first, id, flag) implies is_shown(
        second,
        id,
        flag,
    ) by {
        lemma_shown_flag(index, l, ids, first, id, flag);
        if b.reasons.contains_key(id) {
            lemma_listing_is_complete(index, m, others, second, id);
            assert(is_shown(second, id, b.reasons[id].direct));
            if !a.reasons.contains_key(id) {
                assert(!start.reasons.contains_key(id)) by {
                    if start.reasons.contains_key(id) {
                        assert(a.reasons.contains_key(id));
                    }
                }
                assert(!b.reasons[id].direct);
            }
        } else {
            assert(!a.reasons.contains_key(id));
            lemma_shown_outside(index, l, ids, first, id, flag);
            let (i, j) = choose|i: int, j: int|
                0 <= i < first.strands.len() && 0 <= j < first.strands[i].anchors.len() && ({
                    let x = #[trigger] first.strands[i].anchors[j];
                    x.id == id && x.direct == flag
                });
            let k = lemma_listed_at(index, l, ids, ids.len() as int, i);
            let strand = known_strand(index, l, ids[k])->0;
            let place = lemma_member_stays(index, l, m, ids[k], strand, j);
            let at = others.index_of(ids[k]);
            lemma_strand_is_listed(index, m, others, others.len() as int, at);
            let q = choose|q: int|
                0 <= q < second.strands.len() && (#[trigger] second.strands[q]) == listed_strand(
                    index,
                    m,
                    ids[k],
                    strand,
                );
            let x = second.strands[q].anchors[place];
            assert(x.id == id);
            assert(is_shown(second, id, x.direct));
            lemma_shown_flag(index, m, others, second, id, x.direct);
        }
    }
    assert forall|id: Seq<char>, flag: bool| #[trigger]
        is_shown(second, id, flag) && !is_shown(first, id, true) && !is_shown(
            first,
            id,
            false,
        ) implies !flag by {
        lemma_shown_flag(index, m, others, second, id, flag);
        if flag {
            if start.reasons.contains_key(id) {
                assert(a.reasons.contains_key(id));
                lemma_listing_is_complete(index, l, ids, first, id);
                assert(is_shown(first, id, a.reasons[id].direct));
            }
        }
    }
}

/// An anchor without a reason is listed in a strand.
proof fn lemma_shown_outside(
    index: IndexView,
    l: ListingView,
    ids: Seq<Seq<char>>,
    packet: ContextPacketView,
    id: Seq<char>,
    direct: bool,
)
    requires
        l.reasons.dom().finite(),
        !l.reasons.contains_key(id),
        is_shown(packet, id, direct),
        packet.related_anchors == related_list(
            index,
            l.removed_anchors,
            l.reasons,
            represented_ids(packet.strands, packet.strands.len() as int),
            ordered(l.reasons.dom()).len() as int,
        ),
    ensures
        exists|i: int, j: int|
            0 <= i < packet.strands.len() && 0 <= j < packet.strands[i].anchors.len() && ({
                let a = #[trigger] packet.strands[i].anchors[j];
                a.id == id && a.direct == direct
            }),
{
    if exists|j: int|
        0 <= j < packet.related_anchors.len() && ({
            let a = #[trigger] packet.related_anchors[j];
            a.id == id && a.direct == direct
        }) {
        let j = choose|j: int|
            0 <= j < packet.related_anchors.len() && ({
                let a = #[trigger] packet.related_anchors[j];
                a.id == id && a.direct == direct
            });
        let shown = represented_ids(packet.strands, packet.strands.len() as int);
        let keys = ordered(l.reasons.dom());
        lemma_related_at(index, l.removed_anchors, l.reasons, shown, keys.len() as int, j);
        let k = choose|k: int|
            0 <= k < keys.len() && ({
                let key = #[trigger] keys[k];
                let a = packet.related_anchors[j];
                a.id == key && a.direct == l.reasons[key].direct
            });
        lemma_orderable(l.reasons.dom());
        assert(keys.contains(keys[k]));
        assert(keys.to_set().contains(id));
    }
}

} // verus!

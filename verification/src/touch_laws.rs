//! What a change touches directly.

use vstd::prelude::*;

use crate::collections::{lemma_orderable, ordered};
use crate::config::ConfigView;
use crate::graph::{
    affected_depth, affected_listing, affected_packet, affected_route, after_anchors,
    after_memberships, after_parsed, after_place, after_relations, after_removed_anchors,
    after_removed_members, after_removed_paths, after_removed_relations, after_removed_strands,
    after_strands, any_overlap, changed_from, current_members, direct_evidence, directly,
    former_members, is_deleted, is_path_of, known_strand, no_evidence, ordered_removed_paths,
    place_touched, reach_start, reaches_optional, removed_paths, represented_ids, sort_anchors,
    source_of, touched_by, touched_strands, with_strands_of, AffectedOptionsView, AnchorReasonView,
    EvidenceView, ListingView,
};
use crate::graph_laws::{
    every_reached_anchor_is_reported, evidence_before_anchors, grows, is_reported, is_shown,
    lemma_affected_keeps, lemma_anchors_grow, lemma_any_overlap, lemma_dedup_contains,
    lemma_evidence, lemma_memberships_grow, lemma_related_at, lemma_relations_grow,
    lemma_removed_anchors_grow, lemma_removed_members_grow, lemma_removed_paths_grow,
    lemma_removed_relations_grow, lemma_removed_strands_grow, lemma_sort_anchors_contains,
    lemma_strand_members_are_indirect, lemma_unmatched, lists_strand, new_are_indirect,
    reached_anchors_are_indirect, reaching_keeps_reasons,
};
use crate::metadata::ParsedMetadataView;
use crate::model::{
    AnchorView, ChangeSetView, ChangeStatus, ChangedFileView, ContextPacketView, IndexView,
    IndexedView, LocationView, ProvenanceView, RelationView, StrandView, WatchMode,
};
use crate::reach_laws::{carries, lemma_change};

verus! {

/// Whether a changed file has a path, or had it before the change.
pub open spec fn has_path(file: ChangedFileView, path: Seq<char>) -> bool {
    file.path == path || file.old_path == Some(path)
}

/// Whether a change of a file counts for one of some lines.
pub open spec fn changes_lines(file: ChangedFileView, start: int, end: int) -> bool {
    file.whole_file || exists|k: int|
        0 <= k < file.ranges.len() && (#[trigger] file.ranges[k]).start <= end && start
            <= file.ranges[k].end
}

/// Whether the file at a place of a change changes an entry of the index: it is the first that
/// has the path of the entry, and either the entry stands in metadata or its line changed.
pub open spec fn changes_entry(changes: ChangeSetView, from: ProvenanceView, i: int) -> bool {
    &&& 0 <= i < changes.files.len()
    &&& from.path is Some
    &&& has_path(changes.files[i], from.path->0)
    &&& forall|j: int| 0 <= j < i ==> !has_path(#[trigger] changes.files[j], from.path->0)
    &&& from.source == "sidecar"@ || (from.source == "annotation"@ && from.line is Some
        && changes_lines(changes.files[i], from.line->0 as int, from.line->0 as int))
}

/// Whether the file at a place of a change changes a location: the file of the location
/// changed, and where the location watches its lines, these did.
pub open spec fn changes_location(changes: ChangeSetView, location: LocationView, i: int) -> bool {
    &&& 0 <= i < changes.files.len()
    &&& has_path(changes.files[i], location.path)
    &&& location.watch is Some && location.watch != Some(WatchMode::File)
        && location.line_start is Some ==> changes_lines(
        changes.files[i],
        location.line_start->0 as int,
        match location.line_end {
            Some(end) => end as int,
            None => location.line_start->0 as int,
        },
    )
}

/// Whether the file at a place of a change touches an anchor: its entry, its location, or the
/// entry of a membership or of a relation of it.
pub open spec fn touches_anchor(
    index: IndexView,
    changes: ChangeSetView,
    id: Seq<char>,
    i: int,
) -> bool {
    ||| index.anchors.contains_key(id) && changes_entry(changes, index.anchors[id].provenance, i)
    ||| index.anchors.contains_key(id) && index.anchors[id].value.location is Some
        && changes_location(changes, index.anchors[id].value.location->0, i)
    ||| exists|m: int|
        0 <= m < index.memberships.len() && (#[trigger] index.memberships[m]).member.anchor == id
            && changes_entry(changes, index.memberships[m].provenance, i)
    ||| exists|r: int|
        0 <= r < index.relations.len() && ((#[trigger] index.relations[r]).relation.from == id
            || index.relations[r].relation.to == id) && changes_entry(
            changes,
            index.relations[r].provenance,
            i,
        )
}

/// Whether the file at a place of a change touches a strand: its entry, or the entry of a
/// membership or of a relation in it.
pub open spec fn touches_strand(
    index: IndexView,
    changes: ChangeSetView,
    id: Seq<char>,
    i: int,
) -> bool {
    ||| index.strands.contains_key(id) && changes_entry(changes, index.strands[id].provenance, i)
    ||| exists|m: int|
        0 <= m < index.memberships.len() && (#[trigger] index.memberships[m]).strand == Some(id)
            && changes_entry(changes, index.memberships[m].provenance, i)
    ||| exists|r: int|
        0 <= r < index.relations.len() && (#[trigger] index.relations[r]).strand == Some(id)
            && changes_entry(changes, index.relations[r].provenance, i)
}

/// Whether the file at a place of a change touches an anchor or a strand.
pub open spec fn touches_something(index: IndexView, changes: ChangeSetView, i: int) -> bool {
    ||| exists|id: Seq<char>| #[trigger] touches_anchor(index, changes, id, i)
    ||| exists|id: Seq<char>| #[trigger] touches_strand(index, changes, id, i)
}

proof fn lemma_changed_from(files: Seq<ChangedFileView>, path: Seq<char>, i: int)
    requires
        0 <= i <= files.len(),
    ensures
        match changed_from(files, path, i) {
            None => forall|j: int| i <= j < files.len() ==> !has_path(#[trigger] files[j], path),
            Some(changed) => exists|k: int|
                i <= k < files.len() && #[trigger] files[k] == changed && has_path(files[k], path)
                    && forall|j: int| i <= j < k ==> !has_path(#[trigger] files[j], path),
        },
    decreases files.len() - i,
{
    if i < files.len() && !is_path_of(files[i], path) {
        lemma_changed_from(files, path, i + 1);
        if let Some(changed) = changed_from(files, path, i + 1) {
            let k = choose|k: int|
                i + 1 <= k < files.len() && #[trigger] files[k] == changed && has_path(
                    files[k],
                    path,
                ) && forall|j: int| i + 1 <= j < k ==> !has_path(#[trigger] files[j], path);
            assert(files[k] == changed);
            assert forall|j: int| i <= j < k implies !has_path(#[trigger] files[j], path) by {}
        }
    } else if i < files.len() {
        assert(files[i] == changed_from(files, path, i)->0);
    }
}

/// An entry is touched by a file exactly where the file changes it.
proof fn lemma_touched_by(changes: ChangeSetView, from: ProvenanceView)
    ensures
        touched_by(changes, from) is Some ==> exists|i: int| #[trigger]
            changes_entry(changes, from, i) && changes.files[i] == touched_by(changes, from)->0,
        forall|i: int| #[trigger]
            changes_entry(changes, from, i) ==> touched_by(changes, from) == Some(
                changes.files[i],
            ),
{
    if from.path is Some {
        let path = from.path->0;
        lemma_changed_from(changes.files, path, 0);
        if let Some(changed) = changed_from(changes.files, path, 0) {
            let k = choose|k: int|
                0 <= k < changes.files.len() && #[trigger] changes.files[k] == changed && has_path(
                    changes.files[k],
                    path,
                ) && forall|j: int| 0 <= j < k ==> !has_path(#[trigger] changes.files[j], path);
            if from.line is Some {
                let line = from.line->0 as int;
                lemma_any_overlap(changed.ranges, line, line, 0);
                assert(changes_lines(changed, line, line) <==> changed.whole_file || any_overlap(
                    changed.ranges,
                    line,
                    line,
                    0,
                )) by {
                    if any_overlap(changed.ranges, line, line, 0) {
                        let o = choose|o: int|
                            0 <= o < changed.ranges.len() && crate::model::range_overlaps(
                                #[trigger] changed.ranges[o],
                                line,
                                line,
                            );
                        assert(changed.ranges[o].start <= line);
                    }
                    if !changed.whole_file && changes_lines(changed, line, line) {
                        let o = choose|o: int|
                            0 <= o < changed.ranges.len() && (#[trigger] changed.ranges[o]).start
                                <= line && line <= changed.ranges[o].end;
                        assert(crate::model::range_overlaps(changed.ranges[o], line, line));
                    }
                }
            }
            if touched_by(changes, from) is Some {
                assert(changes_entry(changes, from, k));
            }
            assert forall|i: int| #[trigger] changes_entry(changes, from, i) implies touched_by(
                changes,
                from,
            ) == Some(changes.files[i]) by {
                if i < k {
                    assert(!has_path(changes.files[i], path));
                }
                if k < i {
                    assert(!has_path(changes.files[k], path));
                }
            }
        } else {
            assert forall|i: int| !changes_entry(changes, from, i) by {
                if changes_entry(changes, from, i) {
                    assert(!has_path(changes.files[i], path));
                }
            }
        }
    }
}

proof fn lemma_place_touched(changes: ChangeSetView, location: LocationView, i: int)
    requires
        0 <= i < changes.files.len(),
    ensures
        changes_location(changes, location, i) <==> is_path_of(changes.files[i], location.path)
            && place_touched(location, changes.files[i]),
{
    let file = changes.files[i];
    if location.line_start is Some {
        let start = location.line_start->0 as int;
        let end = match location.line_end {
            Some(end) => end as int,
            None => start,
        };
        lemma_any_overlap(file.ranges, start, end, 0);
        if any_overlap(file.ranges, start, end, 0) {
            let o = choose|o: int|
                0 <= o < file.ranges.len() && crate::model::range_overlaps(
                    #[trigger] file.ranges[o],
                    start,
                    end,
                );
            assert(file.ranges[o].start <= end);
            assert(changes_lines(file, start, end));
        }
        if !file.whole_file && changes_lines(file, start, end) {
            let o = choose|o: int|
                0 <= o < file.ranges.len() && (#[trigger] file.ranges[o]).start <= end && start
                    <= file.ranges[o].end;
            assert(crate::model::range_overlaps(file.ranges[o], start, end));
        }
    }
}

/// Whether all that evidence holds is touched.
spec fn is_told(index: IndexView, changes: ChangeSetView, e: EvidenceView) -> bool {
    &&& forall|id: Seq<char>| #[trigger]
        e.reasons.contains_key(id) ==> exists|i: int| #[trigger]
            touches_anchor(index, changes, id, i)
    &&& forall|id: Seq<char>| #[trigger]
        e.seeds.contains(id) ==> exists|i: int| #[trigger] touches_strand(index, changes, id, i)
    &&& forall|path: Seq<char>| #[trigger]
        e.matched.contains(path) ==> exists|i: int|
            0 <= i < changes.files.len() && (#[trigger] changes.files[i]).path == path
                && touches_something(index, changes, i)
}

proof fn lemma_strands_told(index: IndexView, changes: ChangeSetView, n: int, e: EvidenceView)
    requires
        index.strands.dom().finite(),
        n <= ordered(index.strands.dom()).len(),
        is_told(index, changes, e),
    ensures
        is_told(index, changes, after_strands(index, changes, n, e)),
    decreases n,
{
    if n > 0 {
        lemma_strands_told(index, changes, n - 1, e);
        let before = after_strands(index, changes, n - 1, e);
        let now = after_strands(index, changes, n, e);
        lemma_orderable(index.strands.dom());
        let keys = ordered(index.strands.dom());
        let id = keys[n - 1];
        assert(keys.to_set().contains(id));
        let from = index.strands[id].provenance;
        lemma_touched_by(changes, from);
        if touched_by(changes, from) is Some {
            let i = choose|i: int| #[trigger]
                changes_entry(changes, from, i) && changes.files[i] == touched_by(changes, from)->0;
            assert(touches_strand(index, changes, id, i));
            assert(touches_something(index, changes, i));
            assert(now.reasons == before.reasons);
            lemma_one_more(index, changes, before, now, i, Set::empty(), set![id]);
        }
    }
}

/// Evidence stays told where what it holds beyond is touched by one file.
proof fn lemma_one_more(
    index: IndexView,
    changes: ChangeSetView,
    before: EvidenceView,
    now: EvidenceView,
    i: int,
    anchors: Set<Seq<char>>,
    strands: Set<Seq<char>>,
)
    requires
        is_told(index, changes, before),
        0 <= i < changes.files.len(),
        touches_something(index, changes, i),
        forall|id: Seq<char>| #[trigger]
            now.reasons.contains_key(id) ==> before.reasons.contains_key(id) || anchors.contains(id),
        forall|id: Seq<char>| #[trigger] anchors.contains(id) ==> touches_anchor(index, changes, id, i),
        forall|id: Seq<char>| #[trigger]
            now.seeds.contains(id) ==> before.seeds.contains(id) || strands.contains(id),
        forall|id: Seq<char>| #[trigger] strands.contains(id) ==> touches_strand(index, changes, id, i),
        forall|path: Seq<char>| #[trigger]
            now.matched.contains(path) ==> before.matched.contains(path) || path
                == changes.files[i].path,
    ensures
        is_told(index, changes, now),
{
    assert forall|id: Seq<char>| #[trigger] now.reasons.contains_key(id) implies exists|i: int|
        #[trigger]
        touches_anchor(index, changes, id, i) by {
        if !before.reasons.contains_key(id) {
            assert(anchors.contains(id));
            assert(touches_anchor(index, changes, id, i));
        }
    }
    assert forall|id: Seq<char>| #[trigger] now.seeds.contains(id) implies exists|i: int| #[trigger]
        touches_strand(index, changes, id, i) by {
        if !before.seeds.contains(id) {
            assert(strands.contains(id));
            assert(touches_strand(index, changes, id, i));
        }
    }
    assert forall|path: Seq<char>| #[trigger] now.matched.contains(path) implies exists|i: int|
        0 <= i < changes.files.len() && (#[trigger] changes.files[i]).path == path
            && touches_something(index, changes, i) by {
        if !before.matched.contains(path) {
            assert(changes.files[i].path == path);
        }
    }
}

proof fn lemma_memberships_told(index: IndexView, changes: ChangeSetView, n: int, e: EvidenceView)
    requires
        n <= index.memberships.len(),
        is_told(index, changes, e),
    ensures
        is_told(index, changes, after_memberships(index, changes, n, e)),
    decreases n,
{
    if n > 0 {
        lemma_memberships_told(index, changes, n - 1, e);
        let before = after_memberships(index, changes, n - 1, e);
        let now = after_memberships(index, changes, n, e);
        let m = index.memberships[n - 1];
        lemma_touched_by(changes, m.provenance);
        if touched_by(changes, m.provenance) is Some {
            let i = choose|i: int| #[trigger]
                changes_entry(changes, m.provenance, i) && changes.files[i] == touched_by(
                    changes,
                    m.provenance,
                )->0;
            assert(index.memberships[n - 1].member.anchor == m.member.anchor);
            assert(touches_anchor(index, changes, m.member.anchor, i));
            assert(touches_something(index, changes, i));
            let strands = match m.strand {
                Some(strand) => set![strand],
                None => Set::empty(),
            };
            assert forall|id: Seq<char>| #[trigger] strands.contains(id) implies touches_strand(
                index,
                changes,
                id,
                i,
            ) by {
                assert(index.memberships[n - 1].strand == Some(id));
            }
            lemma_one_more(index, changes, before, now, i, set![m.member.anchor], strands);
        }
    }
}

proof fn lemma_relations_told(index: IndexView, changes: ChangeSetView, n: int, e: EvidenceView)
    requires
        n <= index.relations.len(),
        is_told(index, changes, e),
    ensures
        is_told(index, changes, after_relations(index, changes, n, e)),
    decreases n,
{
    if n > 0 {
        lemma_relations_told(index, changes, n - 1, e);
        let before = after_relations(index, changes, n - 1, e);
        let now = after_relations(index, changes, n, e);
        let r = index.relations[n - 1];
        lemma_touched_by(changes, r.provenance);
        if touched_by(changes, r.provenance) is Some {
            let i = choose|i: int| #[trigger]
                changes_entry(changes, r.provenance, i) && changes.files[i] == touched_by(
                    changes,
                    r.provenance,
                )->0;
            assert(index.relations[n - 1].relation.from == r.relation.from);
            assert(touches_anchor(index, changes, r.relation.from, i));
            assert(touches_anchor(index, changes, r.relation.to, i));
            assert(touches_something(index, changes, i));
            let strands = match r.strand {
                Some(strand) => set![strand],
                None => Set::empty(),
            };
            assert forall|id: Seq<char>| #[trigger] strands.contains(id) implies touches_strand(
                index,
                changes,
                id,
                i,
            ) by {
                assert(index.relations[n - 1].strand == Some(id));
            }
            lemma_one_more(
                index,
                changes,
                before,
                now,
                i,
                set![r.relation.from, r.relation.to],
                strands,
            );
        }
    }
}

proof fn lemma_place_told(
    index: IndexView,
    changes: ChangeSetView,
    id: Seq<char>,
    n: int,
    e: EvidenceView,
)
    requires
        index.anchors.contains_key(id),
        index.anchors[id].value.location is Some,
        n <= changes.files.len(),
        is_told(index, changes, e),
    ensures
        is_told(
            index,
            changes,
            after_place(id, index.anchors[id].value.location->0, changes.files, n, e),
        ),
    decreases n,
{
    if n > 0 {
        let location = index.anchors[id].value.location->0;
        lemma_place_told(index, changes, id, n - 1, e);
        let before = after_place(id, location, changes.files, n - 1, e);
        let now = after_place(id, location, changes.files, n, e);
        lemma_place_touched(changes, location, n - 1);
        if changes_location(changes, location, n - 1) {
            assert(touches_anchor(index, changes, id, n - 1));
            assert(touches_something(index, changes, n - 1));
            lemma_one_more(index, changes, before, now, n - 1, set![id], Set::empty());
        }
    }
}

proof fn lemma_anchors_told(index: IndexView, changes: ChangeSetView, n: int, e: EvidenceView)
    requires
        index.anchors.dom().finite(),
        n <= ordered(index.anchors.dom()).len(),
        is_told(index, changes, e),
    ensures
        is_told(index, changes, after_anchors(index, changes, n, e)),
    decreases n,
{
    if n > 0 {
        lemma_anchors_told(index, changes, n - 1, e);
        let before = after_anchors(index, changes, n - 1, e);
        lemma_orderable(index.anchors.dom());
        let keys = ordered(index.anchors.dom());
        let id = keys[n - 1];
        assert(keys.to_set().contains(id));
        let anchor = index.anchors[id];
        lemma_touched_by(changes, anchor.provenance);
        let noted = noted_entry(id, anchor, changes, before);
        if touched_by(changes, anchor.provenance) is Some {
            let i = choose|i: int| #[trigger]
                changes_entry(changes, anchor.provenance, i) && changes.files[i] == touched_by(
                    changes,
                    anchor.provenance,
                )->0;
            assert(touches_anchor(index, changes, id, i));
            assert(touches_something(index, changes, i));
            lemma_one_more(index, changes, before, noted, i, set![id], Set::empty());
        }
        if anchor.value.location is Some {
            lemma_place_told(index, changes, id, changes.files.len() as int, noted);
        }
    }
}

/// What is touched once the entry of an anchor is looked at.
spec fn noted_entry(
    id: Seq<char>,
    anchor: IndexedView<AnchorView>,
    changes: ChangeSetView,
    e: EvidenceView,
) -> EvidenceView {
    match touched_by(changes, anchor.provenance) {
        None => e,
        Some(changed) => EvidenceView {
            matched: e.matched.insert(changed.path),
            reasons: e.reasons.insert(
                id,
                directly("anchor metadata changed in "@ + source_of(anchor.provenance)),
            ),
            ..e
        },
    }
}

/// All that a change without removed lines touches is touched by one of its files.
proof fn lemma_all_told(
    index: IndexView,
    changes: ChangeSetView,
    parsed: Map<Seq<char>, ParsedMetadataView>,
    config: ConfigView,
)
    requires
        index.anchors.dom().finite(),
        index.strands.dom().finite(),
        changes.removed_lines.len() == 0,
    ensures
        is_told(
            index,
            changes,
            direct_evidence(index, changes, parsed, config.annotations),
        ),
{
    let a = no_evidence();
    let strands = ordered(index.strands.dom()).len() as int;
    lemma_strands_told(index, changes, strands, a);
    let b = after_strands(index, changes, strands, a);
    lemma_memberships_told(index, changes, index.memberships.len() as int, b);
    let c = after_memberships(index, changes, index.memberships.len() as int, b);
    lemma_relations_told(index, changes, index.relations.len() as int, c);
    let d = after_relations(index, changes, index.relations.len() as int, c);
    lemma_anchors_told(index, changes, ordered(index.anchors.dom()).len() as int, d);
    let none = removed_paths(changes.removed_lines, 0);
    assert(none =~= Set::<Seq<char>>::empty());
    lemma_orderable(none);
    let paths = ordered_removed_paths(changes);
    if paths.len() > 0 {
        assert(paths.to_set().contains(paths[0]));
    }
}

proof fn lemma_strand_noted(
    index: IndexView,
    changes: ChangeSetView,
    n: int,
    e: EvidenceView,
    k: int,
    i: int,
)
    requires
        0 <= k < n,
        changes_entry(changes, index.strands[ordered(index.strands.dom())[k]].provenance, i),
    ensures
        after_strands(index, changes, n, e).seeds.contains(ordered(index.strands.dom())[k]),
        after_strands(index, changes, n, e).matched.contains(changes.files[i].path),
    decreases n,
{
    if k < n - 1 {
        lemma_strand_noted(index, changes, n - 1, e, k, i);
    } else {
        lemma_touched_by(
            changes,
            index.strands[ordered(index.strands.dom())[k]].provenance,
        );
    }
}

proof fn lemma_membership_noted(
    index: IndexView,
    changes: ChangeSetView,
    n: int,
    e: EvidenceView,
    k: int,
    i: int,
)
    requires
        0 <= k < n,
        changes_entry(changes, index.memberships[k].provenance, i),
    ensures
        ({
            let after = after_memberships(index, changes, n, e);
            &&& after.reasons.contains_key(index.memberships[k].member.anchor)
            &&& index.memberships[k].strand is Some ==> after.seeds.contains(
                index.memberships[k].strand->0,
            )
            &&& after.matched.contains(changes.files[i].path)
        }),
    decreases n,
{
    if k < n - 1 {
        lemma_membership_noted(index, changes, n - 1, e, k, i);
    } else {
        lemma_touched_by(changes, index.memberships[k].provenance);
    }
}

proof fn lemma_relation_noted(
    index: IndexView,
    changes: ChangeSetView,
    n: int,
    e: EvidenceView,
    k: int,
    i: int,
)
    requires
        0 <= k < n,
        changes_entry(changes, index.relations[k].provenance, i),
    ensures
        ({
            let after = after_relations(index, changes, n, e);
            &&& after.reasons.contains_key(index.relations[k].relation.from)
            &&& after.reasons.contains_key(index.relations[k].relation.to)
            &&& index.relations[k].strand is Some ==> after.seeds.contains(
                index.relations[k].strand->0,
            )
            &&& after.matched.contains(changes.files[i].path)
        }),
    decreases n,
{
    if k < n - 1 {
        lemma_relation_noted(index, changes, n - 1, e, k, i);
    } else {
        lemma_touched_by(changes, index.relations[k].provenance);
    }
}

proof fn lemma_place_noted(
    id: Seq<char>,
    location: LocationView,
    changes: ChangeSetView,
    n: int,
    e: EvidenceView,
    i: int,
)
    requires
        0 <= i < n <= changes.files.len(),
        changes_location(changes, location, i),
    ensures
        after_place(id, location, changes.files, n, e).reasons.contains_key(id),
        after_place(id, location, changes.files, n, e).matched.contains(changes.files[i].path),
    decreases n,
{
    lemma_place_touched(changes, location, i);
    if i < n - 1 {
        lemma_place_noted(id, location, changes, n - 1, e, i);
    }
}

proof fn lemma_place_keeps(
    id: Seq<char>,
    location: LocationView,
    files: Seq<ChangedFileView>,
    n: int,
    e: EvidenceView,
)
    ensures
        e.reasons.dom().subset_of(after_place(id, location, files, n, e).reasons.dom()),
        e.matched.subset_of(after_place(id, location, files, n, e).matched),
    decreases n,
{
    if n > 0 {
        lemma_place_keeps(id, location, files, n - 1, e);
    }
}

proof fn lemma_anchor_noted(
    index: IndexView,
    changes: ChangeSetView,
    n: int,
    e: EvidenceView,
    k: int,
    i: int,
)
    requires
        0 <= k < n,
        ({
            let anchor = index.anchors[ordered(index.anchors.dom())[k]];
            changes_entry(changes, anchor.provenance, i) || (anchor.value.location is Some
                && changes_location(changes, anchor.value.location->0, i))
        }),
    ensures
        after_anchors(index, changes, n, e).reasons.contains_key(ordered(index.anchors.dom())[k]),
        after_anchors(index, changes, n, e).matched.contains(changes.files[i].path),
    decreases n,
{
    let all = changes.files.len() as int;
    let before = after_anchors(index, changes, n - 1, e);
    let id = ordered(index.anchors.dom())[n - 1];
    let anchor = index.anchors[id];
    let noted = noted_entry(id, anchor, changes, before);
    if k < n - 1 {
        lemma_anchor_noted(index, changes, n - 1, e, k, i);
        if anchor.value.location is Some {
            lemma_place_keeps(id, anchor.value.location->0, changes.files, all, noted);
        }
    } else {
        lemma_touched_by(changes, anchor.provenance);
        if anchor.value.location is Some {
            let location = anchor.value.location->0;
            lemma_place_keeps(id, location, changes.files, all, noted);
            if changes_location(changes, location, i) {
                lemma_place_noted(id, location, changes, all, noted, i);
            }
        }
    }
}

/// What a file of a change touches is among the evidence.
proof fn lemma_noted(
    index: IndexView,
    changes: ChangeSetView,
    parsed: Map<Seq<char>, ParsedMetadataView>,
    config: ConfigView,
    id: Seq<char>,
    i: int,
)
    requires
        index.anchors.dom().finite(),
        index.strands.dom().finite(),
    ensures
        ({
            let e = direct_evidence(index, changes, parsed, config.annotations);
            &&& touches_anchor(index, changes, id, i) ==> e.reasons.contains_key(id)
                && e.matched.contains(changes.files[i].path)
            &&& touches_strand(index, changes, id, i) ==> e.seeds.contains(id)
                && e.matched.contains(changes.files[i].path)
        }),
{
    let a = no_evidence();
    let strands = ordered(index.strands.dom()).len() as int;
    let memberships = index.memberships.len() as int;
    let relations = index.relations.len() as int;
    let anchors = ordered(index.anchors.dom()).len() as int;
    let b = after_strands(index, changes, strands, a);
    let c = after_memberships(index, changes, memberships, b);
    let d = after_relations(index, changes, relations, c);
    lemma_memberships_grow(index, changes, memberships, b);
    lemma_relations_grow(index, changes, relations, c);
    lemma_anchors_grow(index, changes, anchors, d);
    lemma_evidence(index, changes, parsed, config.annotations);
    assert(d == evidence_before_anchors(index, changes));
    if touches_anchor(index, changes, id, i) {
        if index.anchors.contains_key(id) && (changes_entry(
            changes,
            index.anchors[id].provenance,
            i,
        ) || (index.anchors[id].value.location is Some && changes_location(
            changes,
            index.anchors[id].value.location->0,
            i,
        ))) {
            lemma_orderable(index.anchors.dom());
            let keys = ordered(index.anchors.dom());
            assert(keys.to_set().contains(id));
            lemma_anchor_noted(index, changes, anchors, d, keys.index_of(id), i);
        } else if exists|m: int|
            0 <= m < index.memberships.len() && (#[trigger] index.memberships[m]).member.anchor
                == id && changes_entry(changes, index.memberships[m].provenance, i) {
            let m = choose|m: int|
                0 <= m < index.memberships.len() && (#[trigger] index.memberships[m]).member.anchor
                    == id && changes_entry(changes, index.memberships[m].provenance, i);
            lemma_membership_noted(index, changes, memberships, b, m, i);
        } else {
            let r = choose|r: int|
                0 <= r < index.relations.len() && ((
                #[trigger] index.relations[r]).relation.from == id
                    || index.relations[r].relation.to == id) && changes_entry(
                    changes,
                    index.relations[r].provenance,
                    i,
                );
            lemma_relation_noted(index, changes, relations, c, r, i);
        }
    }
    if touches_strand(index, changes, id, i) {
        if index.strands.contains_key(id) && changes_entry(
            changes,
            index.strands[id].provenance,
            i,
        ) {
            lemma_orderable(index.strands.dom());
            let keys = ordered(index.strands.dom());
            assert(keys.to_set().contains(id));
            lemma_strand_noted(index, changes, strands, a, keys.index_of(id), i);
        } else if exists|m: int|
            0 <= m < index.memberships.len() && (#[trigger] index.memberships[m]).strand == Some(id)
                && changes_entry(changes, index.memberships[m].provenance, i) {
            let m = choose|m: int|
                0 <= m < index.memberships.len() && (#[trigger] index.memberships[m]).strand
                    == Some(id) && changes_entry(changes, index.memberships[m].provenance, i);
            lemma_membership_noted(index, changes, memberships, b, m, i);
        } else {
            let r = choose|r: int|
                0 <= r < index.relations.len() && (#[trigger] index.relations[r]).strand == Some(id)
                    && changes_entry(changes, index.relations[r].provenance, i);
            lemma_relation_noted(index, changes, relations, c, r, i);
        }
    }
}

/// Whether a context lists a strand as one that is touched directly.
pub open spec fn lists_directly(packet: ContextPacketView, id: Seq<char>) -> bool {
    exists|i: int|
        0 <= i < packet.strands.len() && (#[trigger] packet.strands[i]).id == id
            && packet.strands[i].direct
}

proof fn lemma_strands_met(
    index: IndexView,
    anchors: Set<Seq<char>>,
    strands: Set<Seq<char>>,
    n: int,
)
    requires
        0 <= n <= index.memberships.len(),
    ensures
        forall|s: Seq<char>| #[trigger]
            with_strands_of(index, anchors, strands, n).contains(s) <==> strands.contains(s)
                || exists|m: int|
                0 <= m < n && (#[trigger] index.memberships[m]).strand == Some(s)
                    && anchors.contains(index.memberships[m].member.anchor),
    decreases n,
{
    if n > 0 {
        lemma_strands_met(index, anchors, strands, n - 1);
        let before = with_strands_of(index, anchors, strands, n - 1);
        let now = with_strands_of(index, anchors, strands, n);
        assert forall|s: Seq<char>| #[trigger]
            now.contains(s) <==> strands.contains(s) || exists|m: int|
                0 <= m < n && (#[trigger] index.memberships[m]).strand == Some(s)
                    && anchors.contains(index.memberships[m].member.anchor) by {
            assert(before.contains(s) <==> strands.contains(s) || exists|m: int|
                0 <= m < n - 1 && (#[trigger] index.memberships[m]).strand == Some(s)
                    && anchors.contains(index.memberships[m].member.anchor));
            if now.contains(s) && !before.contains(s) {
                assert(index.memberships[n - 1].strand == Some(s));
            }
            if before.contains(s) && !strands.contains(s) {
                let m = choose|m: int|
                    0 <= m < n - 1 && (#[trigger] index.memberships[m]).strand == Some(s)
                        && anchors.contains(index.memberships[m].member.anchor);
                assert(index.memberships[m].strand == Some(s));
            }
            if exists|m: int|
                0 <= m < n && (#[trigger] index.memberships[m]).strand == Some(s)
                    && anchors.contains(index.memberships[m].member.anchor) {
                let m = choose|m: int|
                    0 <= m < n && (#[trigger] index.memberships[m]).strand == Some(s)
                        && anchors.contains(index.memberships[m].member.anchor);
                if m < n - 1 {
                    assert(index.memberships[m].strand == Some(s));
                    assert(before.contains(s));
                }
            }
        }
    }
}

/// Strands that are touched directly are listed as such.
proof fn lemma_lists_directly(
    index: IndexView,
    changes: ChangeSetView,
    parsed: Map<Seq<char>, ParsedMetadataView>,
    config: ConfigView,
    options: AffectedOptionsView,
    s: Seq<char>,
)
    ensures
        ({
            let e = direct_evidence(index, changes, parsed, config.annotations);
            let packet = affected_packet(index, changes, parsed, config, options);
            let l = affected_listing(index, config, options, e);
            lists_directly(packet, s) <==> touched_strands(index, e, options.tags).contains(s)
                && known_strand(index, l, s) is Some
        }),
{
    let e = direct_evidence(index, changes, parsed, config.annotations);
    let packet = affected_packet(index, changes, parsed, config, options);
    let l = affected_listing(index, config, options, e);
    lemma_change(index, changes, parsed, config, options);
    let direct = touched_strands(index, e, options.tags);
    if direct.contains(s) && known_strand(index, l, s) is Some {
        let first = reach_start(index, e, direct, reaches_optional(options, config));
        reaching_keeps_reasons(
            index,
            affected_route(index, config, options, e),
            first,
            affected_depth(index, config, options, direct) as nat,
        );
        assert(lists_strand(packet, s));
        let i = choose|i: int| 0 <= i < packet.strands.len() && (#[trigger] packet.strands[i]).id == s;
        assert(packet.strands[i].direct);
    }
}

/// A touched anchor is listed as touched directly, and so is every strand of it that carries
/// the tags; the file that touches it does not count as one that touches nothing.
pub proof fn touched_anchors_are_listed_with_their_strands(
    index: IndexView,
    changes: ChangeSetView,
    parsed: Map<Seq<char>, ParsedMetadataView>,
    config: ConfigView,
    options: AffectedOptionsView,
    id: Seq<char>,
    i: int,
)
    requires
        index.anchors.dom().finite(),
        index.strands.dom().finite(),
        touches_anchor(index, changes, id, i),
    ensures
        ({
            let packet = affected_packet(index, changes, parsed, config, options);
            &&& is_shown(packet, id, true)
            &&& !packet.unmatched_files.contains(changes.files[i].path)
            &&& forall|m: int|
                0 <= m < index.memberships.len() && (#[trigger] index.memberships[m]).member.anchor
                    == id && index.memberships[m].strand is Some && index.strands.contains_key(
                    index.memberships[m].strand->0,
                ) && carries(index, options.tags, index.memberships[m].strand->0)
                    ==> lists_directly(packet, index.memberships[m].strand->0)
        }),
{
    let e = direct_evidence(index, changes, parsed, config.annotations);
    let packet = affected_packet(index, changes, parsed, config, options);
    lemma_noted(index, changes, parsed, config, id, i);
    lemma_evidence(index, changes, parsed, config.annotations);
    lemma_affected_keeps(index, config, options, e);
    every_reached_anchor_is_reported(index, changes, parsed, config, options, id);
    assert(is_reported(packet, id, e.reasons[id]));
    assert(e.reasons[id].direct);
    lemma_shown(packet, id, e.reasons[id]);
    lemma_unmatched(changes.files, e.matched, changes.files.len() as int);
    lemma_strands_met(index, e.reasons.dom(), e.seeds, index.memberships.len() as int);
    assert forall|m: int|
        0 <= m < index.memberships.len() && (#[trigger] index.memberships[m]).member.anchor == id
            && index.memberships[m].strand is Some && index.strands.contains_key(
            index.memberships[m].strand->0,
        ) && carries(index, options.tags, index.memberships[m].strand->0) implies lists_directly(
        packet,
        index.memberships[m].strand->0,
    ) by {
        let s = index.memberships[m].strand->0;
        assert(with_strands_of(
            index,
            e.reasons.dom(),
            e.seeds,
            index.memberships.len() as int,
        ).contains(s));
        lemma_selected(index, options.tags, s);
        lemma_lists_directly(index, changes, parsed, config, options, s);
    }
}

proof fn lemma_selected(index: IndexView, tags: Set<Seq<char>>, s: Seq<char>)
    ensures
        crate::graph::is_selected(index, s, tags) <==> carries(index, tags, s),
{
}

proof fn lemma_shown(packet: ContextPacketView, id: Seq<char>, why: AnchorReasonView)
    requires
        is_reported(packet, id, why),
    ensures
        is_shown(packet, id, why.direct),
{
    if exists|i: int, j: int|
        0 <= i < packet.strands.len() && 0 <= j < packet.strands[i].anchors.len() && ({
            let a = #[trigger] packet.strands[i].anchors[j];
            a.id == id && a.reason == why.reason && a.direct == why.direct
        }) {
        let (i, j) = choose|i: int, j: int|
            0 <= i < packet.strands.len() && 0 <= j < packet.strands[i].anchors.len() && ({
                let a = #[trigger] packet.strands[i].anchors[j];
                a.id == id && a.reason == why.reason && a.direct == why.direct
            });
        assert(packet.strands[i].anchors[j].id == id);
    } else {
        let k = choose|k: int|
            0 <= k < packet.related_anchors.len() && ({
                let a = #[trigger] packet.related_anchors[k];
                a.id == id && a.reason == why.reason && a.direct == why.direct
            });
        assert(packet.related_anchors[k].id == id);
    }
}

/// A touched strand of the index that carries the tags is listed as touched directly; the file
/// that touches it does not count as one that touches nothing, whatever the tags.
pub proof fn touched_strands_are_listed(
    index: IndexView,
    changes: ChangeSetView,
    parsed: Map<Seq<char>, ParsedMetadataView>,
    config: ConfigView,
    options: AffectedOptionsView,
    id: Seq<char>,
    i: int,
)
    requires
        index.anchors.dom().finite(),
        index.strands.dom().finite(),
        touches_strand(index, changes, id, i),
    ensures
        index.strands.contains_key(id) && carries(index, options.tags, id) ==> lists_directly(
            affected_packet(index, changes, parsed, config, options),
            id,
        ),
        !affected_packet(index, changes, parsed, config, options).unmatched_files.contains(
            changes.files[i].path,
        ),
{
    let e = direct_evidence(index, changes, parsed, config.annotations);
    lemma_noted(index, changes, parsed, config, id, i);
    lemma_unmatched(changes.files, e.matched, changes.files.len() as int);
    lemma_strands_met(index, e.reasons.dom(), e.seeds, index.memberships.len() as int);
    lemma_selected(index, options.tags, id);
    lemma_lists_directly(index, changes, parsed, config, options, id);
}

proof fn lemma_current_at(
    index: IndexView,
    l: ListingView,
    id: Seq<char>,
    strand: StrandView,
    n: int,
    k: int,
)
    ensures
        0 <= k < current_members(index, l, id, strand, n).len() ==> ({
            let a = current_members(index, l, id, strand, n)[k];
            a.direct ==> l.reasons.contains_key(a.id) && l.reasons[a.id].direct
        }),
        0 <= k < former_members(index, l, id, strand, n).len() ==> ({
            let a = former_members(index, l, id, strand, n)[k];
            a.direct ==> l.reasons.contains_key(a.id) && l.reasons[a.id].direct
        }),
    decreases n,
{
    if n > 0 {
        lemma_current_at(index, l, id, strand, n - 1, k);
    }
}

/// What is listed as touched directly is among the evidence.
proof fn lemma_direct_is_evidence(
    index: IndexView,
    changes: ChangeSetView,
    parsed: Map<Seq<char>, ParsedMetadataView>,
    config: ConfigView,
    options: AffectedOptionsView,
    id: Seq<char>,
)
    requires
        is_shown(affected_packet(index, changes, parsed, config, options), id, true),
    ensures
        direct_evidence(index, changes, parsed, config.annotations).reasons.contains_key(id),
{
    let e = direct_evidence(index, changes, parsed, config.annotations);
    let packet = affected_packet(index, changes, parsed, config, options);
    let l = affected_listing(index, config, options, e);
    let direct = touched_strands(index, e, options.tags);
    let optional = reaches_optional(options, config);
    let start = reach_start(index, e, direct, optional);
    lemma_change(index, changes, parsed, config, options);
    assert(l.reasons.contains_key(id) && l.reasons[id].direct) by {
        if exists|i: int, j: int|
            0 <= i < packet.strands.len() && 0 <= j < packet.strands[i].anchors.len() && ({
                let a = #[trigger] packet.strands[i].anchors[j];
                a.id == id && a.direct == true
            }) {
            let (i, j) = choose|i: int, j: int|
                0 <= i < packet.strands.len() && 0 <= j < packet.strands[i].anchors.len() && ({
                    let a = #[trigger] packet.strands[i].anchors[j];
                    a.id == id && a.direct == true
                });
            let s = packet.strands[i].id;
            let strand = known_strand(index, l, s)->0;
            let n = index.memberships.len() as int;
            let r = l.removed_members.len() as int;
            let c = current_members(index, l, s, strand, n);
            let f = former_members(index, l, s, strand, r);
            let y = packet.strands[i].anchors[j];
            assert(packet.strands[i].anchors.contains(y));
            lemma_dedup_contains(sort_anchors(c + f), y);
            lemma_sort_anchors_contains(c + f, y);
            let at = (c + f).index_of(y);
            if at < c.len() {
                assert((c + f)[at] == c[at]);
                lemma_current_at(index, l, s, strand, n, at);
            } else {
                assert((c + f)[at] == f[at - c.len()]);
                lemma_current_at(index, l, s, strand, r, at - c.len());
            }
        } else {
            let k = choose|k: int|
                0 <= k < packet.related_anchors.len() && ({
                    let a = #[trigger] packet.related_anchors[k];
                    a.id == id && a.direct == true
                });
            lemma_evidence(index, changes, parsed, config.annotations);
            lemma_affected_keeps(index, config, options, e);
            lemma_orderable(l.reasons.dom());
            let keys = ordered(l.reasons.dom());
            let shown = represented_ids(packet.strands, packet.strands.len() as int);
            lemma_related_at(index, l.removed_anchors, l.reasons, shown, keys.len() as int, k);
            let o = choose|o: int|
                0 <= o < keys.len() && ({
                    let id = #[trigger] keys[o];
                    let a = packet.related_anchors[k];
                    a.id == id && a.direct == l.reasons[id].direct
                });
            assert(keys.to_set().contains(keys[o]));
        }
    }
    reached_anchors_are_indirect(
        index,
        affected_route(index, config, options, e),
        start,
        affected_depth(index, config, options, direct) as nat,
    );
    reaching_keeps_reasons(
        index,
        affected_route(index, config, options, e),
        start,
        affected_depth(index, config, options, direct) as nat,
    );
    lemma_strand_members_are_indirect(
        index,
        ordered(direct),
        optional,
        ordered(direct).len() as int,
        e.reasons,
    );
    assert(start.reasons.contains_key(id));
    assert(new_are_indirect(e.reasons, start.reasons));
}

/// A change without removed lines touches nothing else: an anchor that is listed as touched
/// directly is touched by one of its files, a strand too, or one of its members is, and a file
/// that does not count as one that touches nothing touches something, by this path.
pub proof fn nothing_else_is_touched(
    index: IndexView,
    changes: ChangeSetView,
    parsed: Map<Seq<char>, ParsedMetadataView>,
    config: ConfigView,
    options: AffectedOptionsView,
    id: Seq<char>,
    f: int,
)
    requires
        index.anchors.dom().finite(),
        index.strands.dom().finite(),
        changes.removed_lines.len() == 0,
    ensures
        ({
            let packet = affected_packet(index, changes, parsed, config, options);
            &&& is_shown(packet, id, true) ==> exists|i: int| #[trigger]
                touches_anchor(index, changes, id, i)
            &&& lists_directly(packet, id) ==> (exists|i: int| #[trigger]
                touches_strand(index, changes, id, i)) || exists|m: int, i: int|
                0 <= m < index.memberships.len() && index.memberships[m].strand == Some(id)
                    && #[trigger] touches_anchor(
                    index,
                    changes,
                    index.memberships[m].member.anchor,
                    i,
                )
            &&& 0 <= f < changes.files.len() && !packet.unmatched_files.contains(
                changes.files[f].path,
            ) ==> exists|i: int|
                0 <= i < changes.files.len() && (#[trigger] changes.files[i]).path
                    == changes.files[f].path && touches_something(index, changes, i)
        }),
{
    let e = direct_evidence(index, changes, parsed, config.annotations);
    let packet = affected_packet(index, changes, parsed, config, options);
    lemma_all_told(index, changes, parsed, config);
    if is_shown(packet, id, true) {
        lemma_direct_is_evidence(index, changes, parsed, config, options, id);
    }
    if lists_directly(packet, id) {
        lemma_lists_directly(index, changes, parsed, config, options, id);
        lemma_strands_met(index, e.reasons.dom(), e.seeds, index.memberships.len() as int);
        assert(with_strands_of(
            index,
            e.reasons.dom(),
            e.seeds,
            index.memberships.len() as int,
        ).contains(id));
        if !e.seeds.contains(id) {
            let m = choose|m: int|
                0 <= m < index.memberships.len() && (#[trigger] index.memberships[m]).strand
                    == Some(id) && e.reasons.dom().contains(index.memberships[m].member.anchor);
            assert(e.reasons.contains_key(index.memberships[m].member.anchor));
        }
    }
    lemma_unmatched(changes.files, e.matched, changes.files.len() as int);
    if 0 <= f < changes.files.len() && !packet.unmatched_files.contains(changes.files[f].path) {
        assert(e.matched.contains(changes.files[f].path));
    }
}

proof fn lemma_removed_paths_has(changes: ChangeSetView, n: int, k: int)
    requires
        0 <= k < n <= changes.removed_lines.len(),
    ensures
        removed_paths(changes.removed_lines, n).finite(),
        removed_paths(changes.removed_lines, n).contains(changes.removed_lines[k].path),
    decreases n,
{
    if k < n - 1 {
        lemma_removed_paths_has(changes, n - 1, k);
    } else {
        lemma_removed_paths_finite(changes, n - 1);
    }
}

proof fn lemma_removed_paths_finite(changes: ChangeSetView, n: int)
    ensures
        removed_paths(changes.removed_lines, n).finite(),
    decreases n,
{
    if n > 0 {
        lemma_removed_paths_finite(changes, n - 1);
    }
}

proof fn lemma_removed_members_noted(path: Seq<char>, strand: StrandView, n: int, e: EvidenceView)
    requires
        n <= strand.members.len(),
    ensures
        forall|k: int|
            0 <= k < n ==> after_removed_members(path, strand, n, e).reasons.contains_key(
                (#[trigger] strand.members[k]).anchor,
            ),
    decreases n,
{
    if n > 0 {
        lemma_removed_members_noted(path, strand, n - 1, e);
    }
}

proof fn lemma_removed_strands_noted(
    path: Seq<char>,
    strands: Seq<StrandView>,
    n: int,
    e: EvidenceView,
    k: int,
)
    requires
        0 <= k < n <= strands.len(),
    ensures
        ({
            let after = after_removed_strands(path, strands, n, e);
            &&& after.seeds.contains(strands[k].id)
            &&& after.removed_strands.contains_key(strands[k].id)
            &&& forall|m: int|
                0 <= m < strands[k].members.len() ==> after.reasons.contains_key(
                    (#[trigger] strands[k].members[m]).anchor,
                )
        }),
    decreases n,
{
    let before = after_removed_strands(path, strands, n - 1, e);
    let strand = strands[n - 1];
    let start = EvidenceView { seeds: before.seeds.insert(strand.id), ..before };
    let all = strand.members.len() as int;
    lemma_removed_members_grow(path, strand, all, start);
    if k < n - 1 {
        lemma_removed_strands_noted(path, strands, n - 1, e, k);
        let after = after_removed_strands(path, strands, n, e);
        assert forall|m: int| 0 <= m < strands[k].members.len() implies after.reasons.contains_key(
            (#[trigger] strands[k].members[m]).anchor,
        ) by {
            assert(before.reasons.dom().contains(strands[k].members[m].anchor));
        }
    } else {
        lemma_removed_members_noted(path, strand, all, start);
    }
}

proof fn lemma_removed_anchors_noted(
    path: Seq<char>,
    anchors: Seq<AnchorView>,
    n: int,
    e: EvidenceView,
)
    requires
        n <= anchors.len(),
    ensures
        forall|k: int|
            0 <= k < n ==> after_removed_anchors(path, anchors, n, e).reasons.contains_key(
                (#[trigger] anchors[k]).id,
            ),
    decreases n,
{
    if n > 0 {
        lemma_removed_anchors_noted(path, anchors, n - 1, e);
    }
}

proof fn lemma_removed_relations_noted(
    path: Seq<char>,
    relations: Seq<RelationView>,
    n: int,
    e: EvidenceView,
)
    requires
        n <= relations.len(),
    ensures
        forall|k: int|
            0 <= k < n ==> {
                let after = after_removed_relations(path, relations, n, e);
                &&& after.reasons.contains_key((#[trigger] relations[k]).from)
                &&& after.reasons.contains_key(relations[k].to)
            },
    decreases n,
{
    if n > 0 {
        lemma_removed_relations_noted(path, relations, n - 1, e);
    }
}

/// Whether deleted metadata names an anchor: as an anchor, as a member of a strand, or at an
/// end of a relation.
pub open spec fn said_of_anchor(parsed: ParsedMetadataView, id: Seq<char>) -> bool {
    ||| exists|k: int| 0 <= k < parsed.anchors.len() && (#[trigger] parsed.anchors[k]).id == id
    ||| exists|k: int, m: int|
        0 <= k < parsed.strands.len() && 0 <= m < parsed.strands[k].members.len() && (
        #[trigger] parsed.strands[k].members[m]).anchor == id
    ||| exists|k: int|
        0 <= k < parsed.relations.len() && ((#[trigger] parsed.relations[k]).from == id
            || parsed.relations[k].to == id)
}

/// What deleted metadata said stays in the context of the change that deletes it: every anchor
/// that it names is listed as touched directly and, where no tag is asked for, every strand of
/// it too.
pub proof fn deleted_metadata_stays_in_context(
    index: IndexView,
    changes: ChangeSetView,
    parsed: Map<Seq<char>, ParsedMetadataView>,
    config: ConfigView,
    options: AffectedOptionsView,
    path: Seq<char>,
    line: int,
    f: int,
    id: Seq<char>,
)
    requires
        0 <= line < changes.removed_lines.len(),
        changes.removed_lines[line].path == path,
        0 <= f < changes.files.len(),
        changes.files[f].status == ChangeStatus::Deleted,
        has_path(changes.files[f], path),
        parsed.contains_key(path),
    ensures
        ({
            let packet = affected_packet(index, changes, parsed, config, options);
            &&& said_of_anchor(parsed[path], id) ==> is_shown(packet, id, true)
            &&& forall|k: int|
                0 <= k < parsed[path].strands.len() && options.tags == Set::<Seq<char>>::empty()
                    ==> lists_directly(packet, (#[trigger] parsed[path].strands[k]).id)
            &&& !packet.unmatched_files.contains(path)
        }),
{
    let all = changes.removed_lines.len() as int;
    let e = direct_evidence(index, changes, parsed, config.annotations);
    let packet = affected_packet(index, changes, parsed, config, options);
    lemma_removed_paths_has(changes, all, line);
    let set = removed_paths(changes.removed_lines, all);
    lemma_orderable(set);
    let paths = ordered_removed_paths(changes);
    assert(paths.to_set().contains(path));
    let at = paths.index_of(path);
    assert(is_path_of(changes.files[f], path));
    assert(is_deleted(changes.files, path));
    let start = after_anchors(
        index,
        changes,
        ordered(index.anchors.dom()).len() as int,
        evidence_before_anchors(index, changes),
    );
    let before = after_removed_paths(changes, parsed, config.annotations, at, start);
    let after = after_removed_paths(changes, parsed, config.annotations, at + 1, start);
    let said = parsed[path];
    assert(after == after_parsed(path, said, before));
    lemma_removed_paths_grow(
        changes,
        parsed,
        config.annotations,
        at + 1,
        paths.len() as int,
        start,
    );
    assert(grows(after, e));
    let a = EvidenceView { matched: before.matched.insert(path), ..before };
    let b = after_removed_strands(path, said.strands, said.strands.len() as int, a);
    let c = after_removed_anchors(path, said.anchors, said.anchors.len() as int, b);
    lemma_removed_strands_grow(path, said.strands, said.strands.len() as int, a);
    lemma_removed_anchors_grow(path, said.anchors, said.anchors.len() as int, b);
    lemma_removed_relations_grow(path, said.relations, said.relations.len() as int, c);
    lemma_removed_anchors_noted(path, said.anchors, said.anchors.len() as int, b);
    lemma_removed_relations_noted(path, said.relations, said.relations.len() as int, c);
    lemma_evidence(index, changes, parsed, config.annotations);
    lemma_unmatched(changes.files, e.matched, changes.files.len() as int);
    assert(e.matched.contains(path));
    if said_of_anchor(said, id) {
        if exists|k: int, m: int|
            0 <= k < said.strands.len() && 0 <= m < said.strands[k].members.len() && (
            #[trigger] said.strands[k].members[m]).anchor == id {
            let (k, m) = choose|k: int, m: int|
                0 <= k < said.strands.len() && 0 <= m < said.strands[k].members.len() && (
                #[trigger] said.strands[k].members[m]).anchor == id;
            lemma_removed_strands_noted(path, said.strands, said.strands.len() as int, a, k);
            assert(b.reasons.dom().contains(said.strands[k].members[m].anchor));
        }
        assert(after.reasons.dom().contains(id));
        assert(e.reasons.contains_key(id));
        lemma_affected_keeps(index, config, options, e);
        every_reached_anchor_is_reported(index, changes, parsed, config, options, id);
        lemma_shown(packet, id, e.reasons[id]);
    }
    assert forall|k: int|
        0 <= k < said.strands.len() && options.tags == Set::<Seq<char>>::empty() implies
        lists_directly(packet, (#[trigger] said.strands[k]).id) by {
        lemma_removed_strands_noted(path, said.strands, said.strands.len() as int, a, k);
        let s = said.strands[k].id;
        assert(e.seeds.contains(s));
        assert(e.removed_strands.dom().contains(s));
        lemma_strands_met(index, e.reasons.dom(), e.seeds, index.memberships.len() as int);
        lemma_lists_directly(index, changes, parsed, config, options, s);
    }
}

} // verus!

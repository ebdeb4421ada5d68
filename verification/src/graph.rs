//! The graph of anchors, strands and relations: what a change reaches, what is around a
//! place, and how the graph is drawn.

use vstd::prelude::*;

use crate::annotations::{
    markers_are_filled, scan_of, scan_source, AnnotationScan, AnnotationScanView,
};
use crate::collections::{ordered, StringMap, StringSet};
use crate::config::{AnnotationConfig, AnnotationConfigView, Config, ConfigView};
use crate::metadata::{ParsedMetadata, ParsedMetadataView};
use crate::model::{
    AffectedAnchor, AffectedAnchorView, AffectedStrand, AffectedStrandView, Anchor, AnchorView,
    ChangeSet, ChangeSetView, ChangeStatus, ChangedFile, ChangedFileView, ContextPacket,
    ContextPacketView, Diagnostic, DiagnosticView, Index, IndexView, IndexedMemberView,
    IndexedRelation, IndexedRelationView, IndexedView, Location, LocationView, Member, MemberView,
    Provenance, ProvenanceView, Relation, RelationView, RemovedLine, RemovedLineView, Strand,
    StrandView, WatchMode,
};
use crate::search::{SearchHit, SearchHitView};
use crate::text::{
    contains, contains_text, decimal, decimal_text, join, join_texts, replace, replaced,
    same_option, same_text, text_before, text_less,
};
use crate::views::{push_item, Duplicate};

verus! {

broadcast use crate::views::lemma_chars_deep_view;

/// What to show of the things that a change reaches.
#[derive(Debug, Clone, PartialEq)]
pub struct AffectedOptions {
    /// How many relations are followed; as configured where absent.
    pub depth: Option<usize>,
    /// The kinds of relations that are followed; as configured where empty.
    pub relations: StringSet,
    /// The tags that a strand has to carry.
    pub tags: StringSet,
    /// Whether optional members are reached; as configured where absent.
    pub include_optional: Option<bool>,
}

/// The mathematical content of a [`AffectedOptions`].
#[verifier::ext_equal]
pub ghost struct AffectedOptionsView {
    pub depth: Option<usize>,
    pub relations: Set<Seq<char>>,
    pub tags: Set<Seq<char>>,
    pub include_optional: Option<bool>,
}

impl View for AffectedOptions {
    type V = AffectedOptionsView;

    open spec fn view(&self) -> AffectedOptionsView {
        AffectedOptionsView {
            depth: self.depth.deep_view(),
            relations: self.relations.deep_view(),
            tags: self.tags.deep_view(),
            include_optional: self.include_optional.deep_view(),
        }
    }
}

impl DeepView for AffectedOptions {
    type V = AffectedOptionsView;

    open spec fn deep_view(&self) -> AffectedOptionsView {
        self@
    }
}

impl Duplicate for AffectedOptions {
    fn duplicate(&self) -> (r: Self) {
        AffectedOptions {
            depth: self.depth.duplicate(),
            relations: self.relations.duplicate(),
            tags: self.tags.duplicate(),
            include_optional: self.include_optional.duplicate(),
        }
    }
}

/// An anchor of a part of the graph.
#[derive(Debug, Clone, PartialEq)]
pub struct QueryAnchor {
    /// The anchor.
    pub id: String,
    /// Its kind.
    pub kind: Option<String>,
    /// Where it stands.
    pub location: Option<Location>,
}

/// The mathematical content of a [`QueryAnchor`].
#[verifier::ext_equal]
pub ghost struct QueryAnchorView {
    pub id: Seq<char>,
    pub kind: Option<Seq<char>>,
    pub location: Option<LocationView>,
}

impl View for QueryAnchor {
    type V = QueryAnchorView;

    open spec fn view(&self) -> QueryAnchorView {
        QueryAnchorView {
            id: self.id.deep_view(),
            kind: self.kind.deep_view(),
            location: self.location.deep_view(),
        }
    }
}

impl DeepView for QueryAnchor {
    type V = QueryAnchorView;

    open spec fn deep_view(&self) -> QueryAnchorView {
        self@
    }
}

impl Duplicate for QueryAnchor {
    fn duplicate(&self) -> (r: Self) {
        QueryAnchor {
            id: self.id.duplicate(),
            kind: self.kind.duplicate(),
            location: self.location.duplicate(),
        }
    }
}

/// A strand of a part of the graph.
#[derive(Debug, Clone, PartialEq)]
pub struct QueryStrand {
    /// The strand.
    pub id: String,
    /// Its intent.
    pub intent: String,
}

/// The mathematical content of a [`QueryStrand`].
#[verifier::ext_equal]
pub ghost struct QueryStrandView {
    pub id: Seq<char>,
    pub intent: Seq<char>,
}

impl View for QueryStrand {
    type V = QueryStrandView;

    open spec fn view(&self) -> QueryStrandView {
        QueryStrandView {
            id: self.id.deep_view(),
            intent: self.intent.deep_view(),
        }
    }
}

impl DeepView for QueryStrand {
    type V = QueryStrandView;

    open spec fn deep_view(&self) -> QueryStrandView {
        self@
    }
}

impl Duplicate for QueryStrand {
    fn duplicate(&self) -> (r: Self) {
        QueryStrand {
            id: self.id.duplicate(),
            intent: self.intent.duplicate(),
        }
    }
}

/// A part of the graph.
#[derive(Debug, Clone, PartialEq)]
pub struct QueryResult {
    /// Its anchors.
    pub anchors: Vec<QueryAnchor>,
    /// Its strands.
    pub strands: Vec<QueryStrand>,
    /// Its relations.
    pub relations: Vec<IndexedRelation>,
}

/// The mathematical content of a [`QueryResult`].
#[verifier::ext_equal]
pub ghost struct QueryResultView {
    pub anchors: Seq<QueryAnchorView>,
    pub strands: Seq<QueryStrandView>,
    pub relations: Seq<IndexedRelationView>,
}

impl View for QueryResult {
    type V = QueryResultView;

    open spec fn view(&self) -> QueryResultView {
        QueryResultView {
            anchors: self.anchors.deep_view(),
            strands: self.strands.deep_view(),
            relations: self.relations.deep_view(),
        }
    }
}

impl DeepView for QueryResult {
    type V = QueryResultView;

    open spec fn deep_view(&self) -> QueryResultView {
        self@
    }
}

impl Duplicate for QueryResult {
    fn duplicate(&self) -> (r: Self) {
        QueryResult {
            anchors: self.anchors.duplicate(),
            strands: self.strands.duplicate(),
            relations: self.relations.duplicate(),
        }
    }
}

/// Why an anchor is reached.
#[derive(Debug, Clone, PartialEq)]
pub struct AnchorReason {
    /// The reason.
    pub reason: String,
    /// Whether it is touched directly.
    pub direct: bool,
}

/// The mathematical content of a [`AnchorReason`].
#[verifier::ext_equal]
pub ghost struct AnchorReasonView {
    pub reason: Seq<char>,
    pub direct: bool,
}

impl View for AnchorReason {
    type V = AnchorReasonView;

    open spec fn view(&self) -> AnchorReasonView {
        AnchorReasonView {
            reason: self.reason.deep_view(),
            direct: self.direct.deep_view(),
        }
    }
}

impl DeepView for AnchorReason {
    type V = AnchorReasonView;

    open spec fn deep_view(&self) -> AnchorReasonView {
        self@
    }
}

impl Duplicate for AnchorReason {
    fn duplicate(&self) -> (r: Self) {
        AnchorReason {
            reason: self.reason.duplicate(),
            direct: self.direct,
        }
    }
}

/// Where the context of a task starts.
#[derive(Debug, Clone, PartialEq)]
pub struct ContextSeeds {
    /// What the task is.
    pub description: String,
    /// The anchors to start from, each with its reason.
    pub anchors: StringMap<String>,
    /// The strands to start from, each with its reason.
    pub strands: StringMap<String>,
    /// The anchors that only a search found.
    pub search_anchors: StringSet,
    /// The source that a search found.
    pub source_matches: Vec<SearchHit>,
}

/// The mathematical content of a [`ContextSeeds`].
#[verifier::ext_equal]
pub ghost struct ContextSeedsView {
    pub description: Seq<char>,
    pub anchors: Map<Seq<char>, Seq<char>>,
    pub strands: Map<Seq<char>, Seq<char>>,
    pub search_anchors: Set<Seq<char>>,
    pub source_matches: Seq<SearchHitView>,
}

impl View for ContextSeeds {
    type V = ContextSeedsView;

    open spec fn view(&self) -> ContextSeedsView {
        ContextSeedsView {
            description: self.description.deep_view(),
            anchors: self.anchors.deep_view(),
            strands: self.strands.deep_view(),
            search_anchors: self.search_anchors.deep_view(),
            source_matches: self.source_matches.deep_view(),
        }
    }
}

impl DeepView for ContextSeeds {
    type V = ContextSeedsView;

    open spec fn deep_view(&self) -> ContextSeedsView {
        self@
    }
}

impl Duplicate for ContextSeeds {
    fn duplicate(&self) -> (r: Self) {
        ContextSeeds {
            description: self.description.duplicate(),
            anchors: self.anchors.duplicate(),
            strands: self.strands.duplicate(),
            search_anchors: self.search_anchors.duplicate(),
            source_matches: self.source_matches.duplicate(),
        }
    }
}

/// Whether a changed file is known by a path, before or after the change.
pub open spec fn is_path_of(changed: ChangedFileView, path: Seq<char>) -> bool {
    changed.path == path || changed.old_path == Some(path)
}

/// Whether a changed file is known by a path, before or after the change.
fn known_by(changed: &ChangedFile, path: &str) -> (r: bool)
    ensures
        r == is_path_of(changed@, path@),
{
    same_text(changed.path.as_str(), path) || crate::text::option_is(&changed.old_path, path)
}

/// The first changed file from position `i` on that is known by a path.
pub open spec fn changed_from(files: Seq<ChangedFileView>, path: Seq<char>, i: int) -> Option<
    ChangedFileView,
>
    decreases files.len() - i,
{
    if i < 0 || i >= files.len() {
        None
    } else if is_path_of(files[i], path) {
        Some(files[i])
    } else {
        changed_from(files, path, i + 1)
    }
}

/// The first changed file that is known by a path.
fn changed_for_path<'a>(changes: &'a ChangeSet, path: &str) -> (r: Option<&'a ChangedFile>)
    ensures
        r.deep_view() == changed_from(changes@.files, path@, 0),
{
    let mut i: usize = 0;
    let ghost all = changes@.files;
    while i < changes.files.len()
        invariant
            i <= changes.files@.len(),
            all == changes.files.deep_view(),
            changed_from(all, path@, 0) == changed_from(all, path@, i as int),
        decreases changes.files@.len() - i,
    {
        assert(all[i as int] == changes.files@[i as int]@);
        if known_by(&changes.files[i], path) {
            return Some(&changes.files[i]);
        }
        i += 1;
    }
    None
}

/// Whether one of the changed lines of a file lies in a range, from position `i` on.
pub open spec fn any_overlap(
    ranges: Seq<crate::model::LineRangeView>,
    start: int,
    end: int,
    i: int,
) -> bool
    decreases ranges.len() - i,
{
    if i < 0 || i >= ranges.len() {
        false
    } else {
        crate::model::range_overlaps(ranges[i], start, end) || any_overlap(
            ranges,
            start,
            end,
            i + 1,
        )
    }
}

/// Whether one of the changed lines of a file lies in a range.
fn ranges_overlap(changed: &ChangedFile, start: u32, end: u32) -> (r: bool)
    ensures
        r == any_overlap(changed@.ranges, start as int, end as int, 0),
{
    let mut i: usize = 0;
    let ghost all = changed@.ranges;
    while i < changed.ranges.len()
        invariant
            i <= changed.ranges@.len(),
            all == changed.ranges.deep_view(),
            any_overlap(all, start as int, end as int, 0) == any_overlap(
                all,
                start as int,
                end as int,
                i as int,
            ),
        decreases changed.ranges@.len() - i,
    {
        assert(all[i as int] == changed.ranges@[i as int]@);
        if changed.ranges[i].overlaps(start, end) {
            return true;
        }
        i += 1;
    }
    false
}

/// The changed file that touches an entry of the index: the metadata file that it comes
/// from, or its source file where the line of its annotation changed.
pub open spec fn touched_by(changes: ChangeSetView, provenance: ProvenanceView) -> Option<
    ChangedFileView,
> {
    match provenance.path {
        None => None,
        Some(path) => match changed_from(changes.files, path, 0) {
            None => None,
            Some(changed) => if provenance.source == "sidecar"@ {
                Some(changed)
            } else if provenance.source == "annotation"@ {
                match provenance.line {
                    None => None,
                    Some(line) => if changed.whole_file || any_overlap(
                        changed.ranges,
                        line as int,
                        line as int,
                        0,
                    ) {
                        Some(changed)
                    } else {
                        None
                    },
                }
            } else {
                None
            },
        },
    }
}

/// The changed file that touches an entry of the index.
fn changed_metadata_for<'a>(changes: &'a ChangeSet, provenance: &Provenance) -> (r: Option<
    &'a ChangedFile,
>)
    ensures
        r.deep_view() == touched_by(changes@, provenance@),
{
    let path = match &provenance.path {
        None => {
            return None;
        },
        Some(path) => path,
    };
    let changed = match changed_for_path(changes, path.as_str()) {
        None => {
            return None;
        },
        Some(changed) => changed,
    };
    if same_text(provenance.source.as_str(), "sidecar") {
        return Some(changed);
    }
    if same_text(provenance.source.as_str(), "annotation") {
        return match provenance.line {
            None => None,
            Some(line) => if changed.whole_file || ranges_overlap(changed, line, line) {
                Some(changed)
            } else {
                None
            },
        };
    }
    None
}

/// Whether a change of a file touches a place in it. A place that watches its file is
/// touched by any change; one that watches lines is touched where they change, and where it
/// has no lines or the whole file counts as changed.
pub open spec fn place_touched(location: LocationView, changed: ChangedFileView) -> bool {
    ||| changed.whole_file
    ||| location.watch is None
    ||| location.watch == Some(WatchMode::File)
    ||| match location.line_start {
        None => true,
        Some(start) => any_overlap(
            changed.ranges,
            start as int,
            match location.line_end {
                Some(end) => end as int,
                None => start as int,
            },
            0,
        ),
    }
}

/// Whether a change of a file touches a place in it.
pub fn anchor_matches(location: &Location, changed: &ChangedFile) -> (r: bool)
    ensures
        r == place_touched(location@, changed@),
{
    if changed.whole_file {
        return true;
    }
    match location.watch {
        None => {
            return true;
        },
        Some(WatchMode::File) => {
            return true;
        },
        _ => {},
    }
    match location.line_start {
        None => true,
        Some(start) => {
            let end: u32 = match location.line_end {
                Some(end) => end,
                None => start,
            };
            ranges_overlap(changed, start, end)
        },
    }
}

/// Whether a set has all texts of another.
pub open spec fn has_all(tags: Set<Seq<char>>, wanted: Set<Seq<char>>) -> bool {
    wanted.subset_of(tags)
}

/// Whether a set has all texts of another.
fn carries_all(tags: &StringSet, wanted: &StringSet) -> (r: bool)
    ensures
        r == has_all(tags@, wanted@),
{
    let n: usize = wanted.len();
    let ghost all = ordered(wanted@);
    let mut i: usize = 0;
    while i < n
        invariant
            i <= n,
            n == all.len(),
            all == ordered(wanted@),
            all.to_set() == wanted@,
            forall|k: int| 0 <= k < i ==> tags@.contains(#[trigger] all[k]),
        decreases n - i,
    {
        let item = wanted.item_at(i);
        if !tags.contains(item.as_str()) {
            assert(wanted@.contains(item@) && !tags@.contains(item@));
            return false;
        }
        i += 1;
    }
    assert forall|t: Seq<char>| wanted@.contains(t) implies tags@.contains(t) by {
        assert(all.to_set().contains(t));
        let k = all.index_of(t);
        assert(all[k] == t);
    }
    true
}

/// Whether a strand of the index is asked for: no tag is, or it carries all that are.
pub open spec fn is_selected(index: IndexView, id: Seq<char>, tags: Set<Seq<char>>) -> bool {
    tags == Set::<Seq<char>>::empty() || (index.strands.contains_key(id) && has_all(
        index.strands[id].value.tags,
        tags,
    ))
}

/// Whether a strand of the index is asked for.
fn strand_selected(index: &Index, id: &str, tags: &StringSet) -> (r: bool)
    ensures
        r == is_selected(index@, id@, tags@),
{
    if tags.is_empty() {
        return true;
    }
    match index.strands.get(id) {
        Some(strand) => carries_all(&strand.value.tags, tags),
        None => false,
    }
}

/// Whether a member of a strand is reached: optional members only where asked for, and only
/// roles that the strand's policy includes and does not exclude.
pub open spec fn is_member_selected(
    member: MemberView,
    strand: StrandView,
    include_optional: bool,
) -> bool {
    &&& member.required || include_optional
    &&& match strand.on_change {
        None => true,
        Some(policy) => {
            &&& policy.include_roles == Set::<Seq<char>>::empty() || (member.role is Some
                && policy.include_roles.contains(member.role->0))
            &&& !(member.role is Some && policy.exclude_roles.contains(member.role->0))
        },
    }
}

/// Whether a member of a strand is reached.
fn member_selected(member: &Member, strand: &Strand, include_optional: bool) -> (r: bool)
    ensures
        r == is_member_selected(member@, strand@, include_optional),
{
    if !member.required && !include_optional {
        return false;
    }
    match &strand.on_change {
        None => true,
        Some(policy) => {
            if !policy.include_roles.is_empty() {
                match &member.role {
                    None => {
                        return false;
                    },
                    Some(role) => {
                        if !policy.include_roles.contains(role.as_str()) {
                            return false;
                        }
                    },
                }
            }
            match &member.role {
                None => true,
                Some(role) => !policy.exclude_roles.contains(role.as_str()),
            }
        },
    }
}

/// Whether a kind of relation is asked for: none is, or it is among those that are.
pub open spec fn kind_allowed(filter: Set<Seq<char>>, kind: Seq<char>) -> bool {
    filter == Set::<Seq<char>>::empty() || filter.contains(kind)
}

/// Whether a change follows a relation: its kind is asked for and, where the policy of its
/// strand counts, that policy follows it.
pub open spec fn is_relation_followed(
    index: IndexView,
    relation: IndexedRelationView,
    filter: Set<Seq<char>>,
    respect_policy: bool,
) -> bool {
    &&& kind_allowed(filter, relation.relation.kind)
    &&& respect_policy ==> match relation.strand {
        None => true,
        Some(id) => if index.strands.contains_key(id) {
            match index.strands[id].value.on_change {
                None => true,
                Some(policy) => kind_allowed(policy.follow_relations, relation.relation.kind),
            }
        } else {
            true
        },
    }
}

/// Whether a change follows a relation.
fn affected_relation_allowed(
    index: &Index,
    relation: &IndexedRelation,
    filter: &StringSet,
    respect_policy: bool,
) -> (r: bool)
    ensures
        r == is_relation_followed(index@, relation@, filter@, respect_policy),
{
    let kind = relation.relation.kind.as_str();
    if !filter.is_empty() && !filter.contains(kind) {
        return false;
    }
    if !respect_policy {
        return true;
    }
    match &relation.strand {
        None => true,
        Some(id) => match index.strands.get(id.as_str()) {
            None => true,
            Some(strand) => match &strand.value.on_change {
                None => true,
                Some(policy) => policy.follow_relations.is_empty()
                    || policy.follow_relations.contains(kind),
            },
        },
    }
}

/// What a change touches directly.
#[verifier::ext_equal]
pub ghost struct EvidenceView {
    /// Why each anchor is touched.
    pub reasons: Map<Seq<char>, AnchorReasonView>,
    /// The changed files that touch something.
    pub matched: Set<Seq<char>>,
    /// The strands that are touched themselves.
    pub seeds: Set<Seq<char>>,
    /// The strands that the change takes away.
    pub removed_strands: Map<Seq<char>, StrandView>,
    /// The members that the change takes away, each with its strand.
    pub removed_members: Seq<(Seq<char>, MemberView)>,
    /// The anchors that the change takes away.
    pub removed_anchors: Map<Seq<char>, AnchorView>,
    /// The relations that the change takes away.
    pub removed_relations: Seq<RelationView>,
}

/// What a change touches directly.
struct Evidence {
    reasons: StringMap<AnchorReason>,
    matched: StringSet,
    seeds: StringSet,
    removed_strands: StringMap<Strand>,
    removed_members: Vec<(String, Member)>,
    removed_anchors: StringMap<Anchor>,
    removed_relations: Vec<Relation>,
}

impl View for Evidence {
    type V = EvidenceView;

    closed spec fn view(&self) -> EvidenceView {
        EvidenceView {
            reasons: self.reasons@,
            matched: self.matched@,
            seeds: self.seeds@,
            removed_strands: self.removed_strands@,
            removed_members: self.removed_members.deep_view(),
            removed_anchors: self.removed_anchors@,
            removed_relations: self.removed_relations.deep_view(),
        }
    }
}

/// Nothing is touched.
pub open spec fn no_evidence() -> EvidenceView {
    EvidenceView {
        reasons: Map::empty(),
        matched: Set::empty(),
        seeds: Set::empty(),
        removed_strands: Map::empty(),
        removed_members: seq![],
        removed_anchors: Map::empty(),
        removed_relations: seq![],
    }
}

/// A reason for a direct touch.
pub open spec fn directly(reason: Seq<char>) -> AnchorReasonView {
    AnchorReasonView { reason, direct: true }
}

/// The strand added to strands, where there is one.
pub open spec fn with_strand(seeds: Set<Seq<char>>, strand: Option<Seq<char>>) -> Set<Seq<char>> {
    match strand {
        Some(strand) => seeds.insert(strand),
        None => seeds,
    }
}

/// Where an entry comes from, for a reason.
pub open spec fn source_of(provenance: ProvenanceView) -> Seq<char> {
    match provenance.path {
        Some(path) => path,
        None => "sidecar"@,
    }
}

/// A reason that ends with where an entry comes from.
fn reason_in(prefix: &str, provenance: &Provenance) -> (r: AnchorReason)
    ensures
        r@ == directly(prefix@ + source_of(provenance@)),
{
    let mut reason = prefix.to_owned();
    match &provenance.path {
        Some(path) => {
            reason.push_str(path.as_str());
        },
        None => {
            reason.push_str("sidecar");
        },
    }
    AnchorReason { reason, direct: true }
}

/// What is touched once the first `n` strands are looked at.
pub open spec fn after_strands(
    index: IndexView,
    changes: ChangeSetView,
    n: int,
    e: EvidenceView,
) -> EvidenceView
    decreases n,
{
    if n <= 0 {
        e
    } else {
        let before = after_strands(index, changes, n - 1, e);
        let id = ordered(index.strands.dom())[n - 1];
        match touched_by(changes, index.strands[id].provenance) {
            None => before,
            Some(changed) => EvidenceView {
                seeds: before.seeds.insert(id),
                matched: before.matched.insert(changed.path),
                ..before
            },
        }
    }
}

/// Looks at the strands.
fn note_strands(index: &Index, changes: &ChangeSet, e: &mut Evidence)
    ensures
        final(e)@ == after_strands(
            index@,
            changes@,
            ordered(index@.strands.dom()).len() as int,
            old(e)@,
        ),
{
    let n: usize = index.strands.len();
    let ghost start = e@;
    let mut i: usize = 0;
    while i < n
        invariant
            i <= n,
            n == ordered(index@.strands.dom()).len(),
            e@ == after_strands(index@, changes@, i as int, start),
        decreases n - i,
    {
        match changed_metadata_for(changes, &index.strands.value_at(i).provenance) {
            None => {},
            Some(changed) => {
                let _ = e.seeds.insert(index.strands.key_at(i).clone());
                let _ = e.matched.insert(changed.path.clone());
            },
        }
        i += 1;
    }
}

/// What is touched once the first `n` memberships are looked at.
pub open spec fn after_memberships(
    index: IndexView,
    changes: ChangeSetView,
    n: int,
    e: EvidenceView,
) -> EvidenceView
    decreases n,
{
    if n <= 0 {
        e
    } else {
        let before = after_memberships(index, changes, n - 1, e);
        let m = index.memberships[n - 1];
        match touched_by(changes, m.provenance) {
            None => before,
            Some(changed) => EvidenceView {
                seeds: with_strand(before.seeds, m.strand),
                matched: before.matched.insert(changed.path),
                reasons: before.reasons.insert(
                    m.member.anchor,
                    directly("metadata changed in "@ + source_of(m.provenance)),
                ),
                ..before
            },
        }
    }
}

/// Looks at the memberships.
fn note_memberships(index: &Index, changes: &ChangeSet, e: &mut Evidence)
    ensures
        final(e)@ == after_memberships(
            index@,
            changes@,
            index@.memberships.len() as int,
            old(e)@,
        ),
{
    let ghost start = e@;
    let mut i: usize = 0;
    while i < index.memberships.len()
        invariant
            i <= index.memberships@.len(),
            e@ == after_memberships(index@, changes@, i as int, start),
        decreases index.memberships@.len() - i,
    {
        let m = &index.memberships[i];
        assert(index@.memberships[i as int] == m@);
        match changed_metadata_for(changes, &m.provenance) {
            None => {},
            Some(changed) => {
                match &m.strand {
                    Some(strand) => {
                        let _ = e.seeds.insert(strand.clone());
                    },
                    None => {},
                }
                let _ = e.matched.insert(changed.path.clone());
                e.reasons.insert(
                    m.member.anchor.clone(),
                    reason_in("metadata changed in ", &m.provenance),
                );
            },
        }
        i += 1;
    }
}

/// What is touched once the first `n` relations are looked at.
pub open spec fn after_relations(
    index: IndexView,
    changes: ChangeSetView,
    n: int,
    e: EvidenceView,
) -> EvidenceView
    decreases n,
{
    if n <= 0 {
        e
    } else {
        let before = after_relations(index, changes, n - 1, e);
        let r = index.relations[n - 1];
        match touched_by(changes, r.provenance) {
            None => before,
            Some(changed) => {
                let why = directly("relationship metadata changed in "@ + source_of(r.provenance));
                EvidenceView {
                    seeds: with_strand(before.seeds, r.strand),
                    matched: before.matched.insert(changed.path),
                    reasons: before.reasons.insert(r.relation.from, why).insert(
                        r.relation.to,
                        why,
                    ),
                    ..before
                }
            },
        }
    }
}

/// Looks at the relations.
fn note_relations(index: &Index, changes: &ChangeSet, e: &mut Evidence)
    ensures
        final(e)@ == after_relations(index@, changes@, index@.relations.len() as int, old(e)@),
{
    let ghost start = e@;
    let mut i: usize = 0;
    while i < index.relations.len()
        invariant
            i <= index.relations@.len(),
            e@ == after_relations(index@, changes@, i as int, start),
        decreases index.relations@.len() - i,
    {
        let r = &index.relations[i];
        assert(index@.relations[i as int] == r@);
        match changed_metadata_for(changes, &r.provenance) {
            None => {},
            Some(changed) => {
                match &r.strand {
                    Some(strand) => {
                        let _ = e.seeds.insert(strand.clone());
                    },
                    None => {},
                }
                let _ = e.matched.insert(changed.path.clone());
                e.reasons.insert(
                    r.relation.from.clone(),
                    reason_in("relationship metadata changed in ", &r.provenance),
                );
                e.reasons.insert(
                    r.relation.to.clone(),
                    reason_in("relationship metadata changed in ", &r.provenance),
                );
            },
        }
        i += 1;
    }
}

/// What is touched once the first `n` changed files are held against the place of an anchor.
pub open spec fn after_place(
    id: Seq<char>,
    location: LocationView,
    files: Seq<ChangedFileView>,
    n: int,
    e: EvidenceView,
) -> EvidenceView
    decreases n,
{
    if n <= 0 {
        e
    } else {
        let before = after_place(id, location, files, n - 1, e);
        let changed = files[n - 1];
        if is_path_of(changed, location.path) && place_touched(location, changed) {
            EvidenceView {
                matched: before.matched.insert(changed.path),
                reasons: before.reasons.insert(id, directly(changed.path + " changed"@)),
                ..before
            }
        } else {
            before
        }
    }
}

/// Holds the changed files against the place of an anchor.
fn note_place(id: &String, location: &Location, changes: &ChangeSet, e: &mut Evidence)
    ensures
        final(e)@ == after_place(
            id@,
            location@,
            changes@.files,
            changes@.files.len() as int,
            old(e)@,
        ),
{
    let ghost start = e@;
    let mut i: usize = 0;
    while i < changes.files.len()
        invariant
            i <= changes.files@.len(),
            e@ == after_place(id@, location@, changes@.files, i as int, start),
        decreases changes.files@.len() - i,
    {
        let changed = &changes.files[i];
        assert(changes@.files[i as int] == changed@);
        if known_by(changed, location.path.as_str()) && anchor_matches(location, changed) {
            let _ = e.matched.insert(changed.path.clone());
            let mut reason = changed.path.clone();
            reason.push_str(" changed");
            e.reasons.insert(id.clone(), AnchorReason { reason, direct: true });
        }
        i += 1;
    }
}

/// What is touched once an anchor is looked at.
pub open spec fn after_one_anchor(
    id: Seq<char>,
    anchor: IndexedView<AnchorView>,
    changes: ChangeSetView,
    e: EvidenceView,
) -> EvidenceView {
    let noted = match touched_by(changes, anchor.provenance) {
        None => e,
        Some(changed) => EvidenceView {
            matched: e.matched.insert(changed.path),
            reasons: e.reasons.insert(
                id,
                directly("anchor metadata changed in "@ + source_of(anchor.provenance)),
            ),
            ..e
        },
    };
    match anchor.value.location {
        None => noted,
        Some(location) => after_place(
            id,
            location,
            changes.files,
            changes.files.len() as int,
            noted,
        ),
    }
}

/// What is touched once the first `n` anchors are looked at.
pub open spec fn after_anchors(
    index: IndexView,
    changes: ChangeSetView,
    n: int,
    e: EvidenceView,
) -> EvidenceView
    decreases n,
{
    if n <= 0 {
        e
    } else {
        let id = ordered(index.anchors.dom())[n - 1];
        after_one_anchor(
            id,
            index.anchors[id],
            changes,
            after_anchors(index, changes, n - 1, e),
        )
    }
}

/// Looks at the anchors.
fn note_anchors(index: &Index, changes: &ChangeSet, e: &mut Evidence)
    ensures
        final(e)@ == after_anchors(
            index@,
            changes@,
            ordered(index@.anchors.dom()).len() as int,
            old(e)@,
        ),
{
    let n: usize = index.anchors.len();
    let ghost start = e@;
    let mut i: usize = 0;
    while i < n
        invariant
            i <= n,
            n == ordered(index@.anchors.dom()).len(),
            e@ == after_anchors(index@, changes@, i as int, start),
        decreases n - i,
    {
        let id = index.anchors.key_at(i);
        let anchor = index.anchors.value_at(i);
        match changed_metadata_for(changes, &anchor.provenance) {
            None => {},
            Some(changed) => {
                let _ = e.matched.insert(changed.path.clone());
                e.reasons.insert(
                    id.clone(),
                    reason_in("anchor metadata changed in ", &anchor.provenance),
                );
            },
        }
        match &anchor.value.location {
            None => {},
            Some(location) => {
                note_place(id, location, changes, e);
            },
        }
        i += 1;
    }
}

/// Whether a change deletes the file that a path names.
pub open spec fn is_deleted(files: Seq<ChangedFileView>, path: Seq<char>) -> bool {
    exists|i: int|
        0 <= i < files.len() && (#[trigger] files[i]).status == ChangeStatus::Deleted
            && is_path_of(files[i], path)
}

/// Whether a change deletes the file that a path names.
fn deletes(changes: &ChangeSet, path: &str) -> (r: bool)
    ensures
        r == is_deleted(changes@.files, path@),
{
    let mut i: usize = 0;
    while i < changes.files.len()
        invariant
            i <= changes.files@.len(),
            forall|k: int|
                0 <= k < i ==> !((#[trigger] changes@.files[k]).status == ChangeStatus::Deleted
                    && is_path_of(changes@.files[k], path@)),
        decreases changes.files@.len() - i,
    {
        let changed = &changes.files[i];
        assert(changes@.files[i as int] == changed@);
        if changed.status == ChangeStatus::Deleted && known_by(changed, path) {
            return true;
        }
        i += 1;
    }
    false
}

/// The files of the first `n` removed lines.
pub open spec fn removed_paths(lines: Seq<RemovedLineView>, n: int) -> Set<Seq<char>>
    decreases n,
{
    if n <= 0 {
        Set::empty()
    } else {
        removed_paths(lines, n - 1).insert(lines[n - 1].path)
    }
}

/// The files of the removed lines.
fn paths_of_removed(changes: &ChangeSet) -> (r: StringSet)
    ensures
        r@ == removed_paths(changes@.removed_lines, changes@.removed_lines.len() as int),
{
    let mut out = StringSet::new();
    let mut i: usize = 0;
    while i < changes.removed_lines.len()
        invariant
            i <= changes.removed_lines@.len(),
            out@ == removed_paths(changes@.removed_lines, i as int),
        decreases changes.removed_lines@.len() - i,
    {
        assert(changes@.removed_lines[i as int] == changes.removed_lines@[i as int]@);
        let _ = out.insert(changes.removed_lines[i].path.clone());
        i += 1;
    }
    out
}

/// A line put behind the last one that does not come after it.
pub open spec fn insert_line(sorted: Seq<RemovedLineView>, x: RemovedLineView) -> Seq<
    RemovedLineView,
>
    decreases sorted.len(),
{
    if sorted.len() == 0 || x.line >= sorted.last().line {
        sorted.push(x)
    } else {
        insert_line(sorted.drop_last(), x).push(sorted.last())
    }
}

/// The removed lines of a file among the first `n`, in the order of their numbers.
pub open spec fn lines_removed_from(
    lines: Seq<RemovedLineView>,
    path: Seq<char>,
    n: int,
) -> Seq<RemovedLineView>
    decreases n,
{
    if n <= 0 {
        seq![]
    } else if lines[n - 1].path == path {
        insert_line(lines_removed_from(lines, path, n - 1), lines[n - 1])
    } else {
        lines_removed_from(lines, path, n - 1)
    }
}

/// Putting a line behind the last one that does not come after it is `insert_line`.
proof fn lemma_insert_line(sorted: Seq<RemovedLineView>, x: RemovedLineView, at: int)
    requires
        0 <= at <= sorted.len(),
        forall|k: int| at <= k < sorted.len() ==> x.line < (#[trigger] sorted[k]).line,
        at > 0 ==> x.line >= sorted[at - 1].line,
    ensures
        insert_line(sorted, x) == sorted.insert(at, x),
    decreases sorted.len(),
{
    if at == sorted.len() {
        assert(sorted.insert(at, x) =~= sorted.push(x));
    } else {
        lemma_insert_line(sorted.drop_last(), x, at);
        assert(sorted.insert(at, x) =~= sorted.drop_last().insert(at, x).push(sorted.last()));
    }
}

/// What the removed lines of a file said.
pub open spec fn removed_text(lines: Seq<RemovedLineView>, path: Seq<char>) -> Seq<char> {
    join(
        lines_removed_from(lines, path, lines.len() as int).map_values(
            |line: RemovedLineView| line.text,
        ),
        "\n"@,
    )
}

/// What the removed lines of a file said.
fn text_of_removed(changes: &ChangeSet, path: &str) -> (r: String)
    ensures
        r@ == removed_text(changes@.removed_lines, path@),
{
    let mut sorted: Vec<RemovedLine> = Vec::new();
    let mut i: usize = 0;
    let ghost all = changes@.removed_lines;
    assert(sorted.deep_view() =~= seq![]);
    while i < changes.removed_lines.len()
        invariant
            i <= changes.removed_lines@.len(),
            all == changes.removed_lines.deep_view(),
            sorted.deep_view() == lines_removed_from(all, path@, i as int),
        decreases changes.removed_lines@.len() - i,
    {
        let line = &changes.removed_lines[i];
        assert(all[i as int] == line@);
        if same_text(line.path.as_str(), path) {
            let mut at: usize = sorted.len();
            while at > 0 && line.line < sorted[at - 1].line
                invariant
                    at <= sorted@.len(),
                    forall|k: int| at <= k < sorted@.len() ==> line.line < (#[trigger] sorted@[k]).line,
                decreases at,
            {
                at -= 1;
            }
            let ghost before = sorted.deep_view();
            let item = line.duplicate();
            proof {
                assert forall|k: int| at <= k < before.len() implies line@.line < (
                #[trigger] before[k]).line by {
                    assert(before[k] == sorted@[k]@);
                }
                if at > 0 {
                    assert(before[at - 1] == sorted@[at - 1]@);
                }
                lemma_insert_line(before, line@, at as int);
            }
            sorted.insert(at, item);
            assert(sorted.deep_view() =~= before.insert(at as int, line@));
        }
        i += 1;
    }
    let mut texts: Vec<String> = Vec::new();
    let mut k: usize = 0;
    while k < sorted.len()
        invariant
            k <= sorted@.len(),
            texts@.len() == k,
            forall|j: int| 0 <= j < k ==> (#[trigger] texts@[j])@ == sorted@[j].text@,
        decreases sorted@.len() - k,
    {
        texts.push(sorted[k].text.clone());
        k += 1;
    }
    assert(texts.deep_view() =~= sorted.deep_view().map_values(|line: RemovedLineView| line.text));
    join_texts(&texts, "\n")
}

/// The deleted files among the first `n` of some paths, each with what its removed lines said.
pub open spec fn deleted_texts(
    changes: ChangeSetView,
    paths: Seq<Seq<char>>,
    n: int,
) -> Seq<(Seq<char>, Seq<char>)>
    decreases n,
{
    if n <= 0 {
        seq![]
    } else if is_deleted(changes.files, paths[n - 1]) {
        deleted_texts(changes, paths, n - 1).push(
            (paths[n - 1], removed_text(changes.removed_lines, paths[n - 1])),
        )
    } else {
        deleted_texts(changes, paths, n - 1)
    }
}

/// The paths of removed lines in order.
pub open spec fn ordered_removed_paths(changes: ChangeSetView) -> Seq<Seq<char>> {
    ordered(removed_paths(changes.removed_lines, changes.removed_lines.len() as int))
}

/// The deleted files that may have held metadata, each with what its removed lines said.
pub fn removed_documents(changes: &ChangeSet) -> (r: Vec<(String, String)>)
    ensures
        r.deep_view() == deleted_texts(
            changes@,
            ordered_removed_paths(changes@),
            ordered_removed_paths(changes@).len() as int,
        ),
{
    let paths = paths_of_removed(changes);
    let n: usize = paths.len();
    let mut out: Vec<(String, String)> = Vec::new();
    let mut i: usize = 0;
    assert(out.deep_view() =~= seq![]);
    while i < n
        invariant
            i <= n,
            n == ordered(paths@).len(),
            ordered(paths@) == ordered_removed_paths(changes@),
            out.deep_view() == deleted_texts(changes@, ordered_removed_paths(changes@), i as int),
        decreases n - i,
    {
        let path = paths.item_at(i);
        if deletes(changes, path.as_str()) {
            push_item(&mut out, (path.clone(), text_of_removed(changes, path.as_str())));
        }
        i += 1;
    }
    out
}

/// What is touched once the first `n` members of a removed strand are looked at.
pub open spec fn after_removed_members(
    path: Seq<char>,
    strand: StrandView,
    n: int,
    e: EvidenceView,
) -> EvidenceView
    decreases n,
{
    if n <= 0 {
        e
    } else {
        let before = after_removed_members(path, strand, n - 1, e);
        let member = strand.members[n - 1];
        EvidenceView {
            reasons: before.reasons.insert(
                member.anchor,
                directly("strand metadata removed from "@ + path),
            ),
            removed_members: before.removed_members.push((strand.id, member)),
            ..before
        }
    }
}

/// What is touched once a removed strand is looked at.
pub open spec fn after_removed_strand(
    path: Seq<char>,
    strand: StrandView,
    e: EvidenceView,
) -> EvidenceView {
    let noted = after_removed_members(
        path,
        strand,
        strand.members.len() as int,
        EvidenceView { seeds: e.seeds.insert(strand.id), ..e },
    );
    EvidenceView {
        removed_relations: noted.removed_relations + strand.relations,
        removed_strands: noted.removed_strands.insert(strand.id, strand),
        ..noted
    }
}

/// What is touched once the first `n` removed strands are looked at.
pub open spec fn after_removed_strands(
    path: Seq<char>,
    strands: Seq<StrandView>,
    n: int,
    e: EvidenceView,
) -> EvidenceView
    decreases n,
{
    if n <= 0 {
        e
    } else {
        after_removed_strand(
            path,
            strands[n - 1],
            after_removed_strands(path, strands, n - 1, e),
        )
    }
}

/// What is touched once the first `n` removed anchors are looked at.
pub open spec fn after_removed_anchors(
    path: Seq<char>,
    anchors: Seq<AnchorView>,
    n: int,
    e: EvidenceView,
) -> EvidenceView
    decreases n,
{
    if n <= 0 {
        e
    } else {
        let before = after_removed_anchors(path, anchors, n - 1, e);
        let anchor = anchors[n - 1];
        EvidenceView {
            reasons: before.reasons.insert(
                anchor.id,
                directly("anchor metadata removed from "@ + path),
            ),
            removed_anchors: before.removed_anchors.insert(anchor.id, anchor),
            ..before
        }
    }
}

/// What is touched once the first `n` removed relations are looked at.
pub open spec fn after_removed_relations(
    path: Seq<char>,
    relations: Seq<RelationView>,
    n: int,
    e: EvidenceView,
) -> EvidenceView
    decreases n,
{
    if n <= 0 {
        e
    } else {
        let before = after_removed_relations(path, relations, n - 1, e);
        let relation = relations[n - 1];
        let why = directly("relationship metadata removed from "@ + path);
        EvidenceView {
            reasons: before.reasons.insert(relation.from, why).insert(relation.to, why),
            removed_relations: before.removed_relations.push(relation),
            ..before
        }
    }
}

/// What is touched once a deleted metadata file is looked at.
pub open spec fn after_parsed(
    path: Seq<char>,
    parsed: ParsedMetadataView,
    e: EvidenceView,
) -> EvidenceView {
    let matched = EvidenceView { matched: e.matched.insert(path), ..e };
    let strands = after_removed_strands(
        path,
        parsed.strands,
        parsed.strands.len() as int,
        matched,
    );
    let anchors = after_removed_anchors(path, parsed.anchors, parsed.anchors.len() as int, strands);
    after_removed_relations(path, parsed.relations, parsed.relations.len() as int, anchors)
}

/// A reason that ends with a path.
fn reason_with(prefix: &str, path: &str) -> (r: AnchorReason)
    ensures
        r@ == directly(prefix@ + path@),
{
    let mut reason = prefix.to_owned();
    reason.push_str(path);
    AnchorReason { reason, direct: true }
}

/// Looks at a removed strand.
fn note_removed_strand(path: &str, strand: &Strand, e: &mut Evidence)
    ensures
        final(e)@ == after_removed_strand(path@, strand@, old(e)@),
{
    let _ = e.seeds.insert(strand.id.clone());
    let ghost start = e@;
    let mut i: usize = 0;
    while i < strand.members.len()
        invariant
            i <= strand.members@.len(),
            e@ == after_removed_members(path@, strand@, i as int, start),
        decreases strand.members@.len() - i,
    {
        let member = &strand.members[i];
        assert(strand@.members[i as int] == member@);
        e.reasons.insert(
            member.anchor.clone(),
            reason_with("strand metadata removed from ", path),
        );
        push_item(&mut e.removed_members, (strand.id.clone(), member.duplicate()));
        i += 1;
    }
    let ghost noted = e@;
    let mut k: usize = 0;
    assert(strand@.relations.take(0) =~= seq![]);
    assert(noted.removed_relations + strand@.relations.take(0) =~= noted.removed_relations);
    while k < strand.relations.len()
        invariant
            k <= strand.relations@.len(),
            e@ == (EvidenceView {
                removed_relations: noted.removed_relations + strand@.relations.take(k as int),
                ..noted
            }),
        decreases strand.relations@.len() - k,
    {
        assert(strand@.relations[k as int] == strand.relations@[k as int]@);
        push_item(&mut e.removed_relations, strand.relations[k].duplicate());
        assert(noted.removed_relations + strand@.relations.take(k + 1) =~= (
        noted.removed_relations + strand@.relations.take(k as int)).push(
            strand@.relations[k as int],
        ));
        k += 1;
    }
    assert(strand@.relations.take(strand@.relations.len() as int) =~= strand@.relations);
    e.removed_strands.insert(strand.id.clone(), strand.duplicate());
}

/// Looks at a deleted metadata file.
fn note_parsed(path: &str, parsed: &ParsedMetadata, e: &mut Evidence)
    ensures
        final(e)@ == after_parsed(path@, parsed@, old(e)@),
{
    let _ = e.matched.insert(path.to_owned());
    let ghost start = e@;
    let mut i: usize = 0;
    while i < parsed.strands.len()
        invariant
            i <= parsed.strands@.len(),
            e@ == after_removed_strands(path@, parsed@.strands, i as int, start),
        decreases parsed.strands@.len() - i,
    {
        assert(parsed@.strands[i as int] == parsed.strands@[i as int]@);
        note_removed_strand(path, &parsed.strands[i], e);
        i += 1;
    }
    let ghost middle = e@;
    let mut k: usize = 0;
    while k < parsed.anchors.len()
        invariant
            k <= parsed.anchors@.len(),
            e@ == after_removed_anchors(path@, parsed@.anchors, k as int, middle),
        decreases parsed.anchors@.len() - k,
    {
        let anchor = &parsed.anchors[k];
        assert(parsed@.anchors[k as int] == anchor@);
        e.reasons.insert(
            anchor.id.clone(),
            reason_with("anchor metadata removed from ", path),
        );
        e.removed_anchors.insert(anchor.id.clone(), anchor.duplicate());
        k += 1;
    }
    let ghost last = e@;
    let mut j: usize = 0;
    while j < parsed.relations.len()
        invariant
            j <= parsed.relations@.len(),
            e@ == after_removed_relations(path@, parsed@.relations, j as int, last),
        decreases parsed.relations@.len() - j,
    {
        let relation = &parsed.relations[j];
        assert(parsed@.relations[j as int] == relation@);
        e.reasons.insert(
            relation.from.clone(),
            reason_with("relationship metadata removed from ", path),
        );
        e.reasons.insert(
            relation.to.clone(),
            reason_with("relationship metadata removed from ", path),
        );
        push_item(&mut e.removed_relations, relation.duplicate());
        j += 1;
    }
}

/// A strand of which only its name is known.
pub open spec fn blank_strand(id: Seq<char>) -> StrandView {
    StrandView {
        schema: 1,
        id,
        title: None,
        intent: seq![],
        scope: None,
        tags: Set::empty(),
        members: seq![],
        relations: seq![],
        on_change: None,
        attributes: Map::empty(),
    }
}

/// A strand of which only its name is known.
pub fn nameless_strand(id: &String) -> (r: Strand)
    ensures
        r@ == blank_strand(id@),
{
    let r = Strand {
        schema: 1,
        id: id.clone(),
        title: None,
        intent: String::new(),
        scope: None,
        tags: StringSet::new(),
        members: Vec::new(),
        relations: Vec::new(),
        on_change: None,
        attributes: StringMap::new(),
    };
    assert(r@ =~= blank_strand(id@));
    r
}

/// The strands that annotations of removed lines stated.
pub open spec fn after_scanned_strands(
    strands: Seq<(StrandView, ProvenanceView)>,
    n: int,
    e: EvidenceView,
) -> EvidenceView
    decreases n,
{
    if n <= 0 {
        e
    } else {
        let before = after_scanned_strands(strands, n - 1, e);
        EvidenceView {
            removed_strands: before.removed_strands.insert(
                strands[n - 1].0.id,
                strands[n - 1].0,
            ),
            ..before
        }
    }
}

/// The anchors that annotations of removed lines stated.
pub open spec fn after_scanned_anchors(
    anchors: Seq<(AnchorView, ProvenanceView)>,
    n: int,
    e: EvidenceView,
) -> EvidenceView
    decreases n,
{
    if n <= 0 {
        e
    } else {
        let before = after_scanned_anchors(anchors, n - 1, e);
        EvidenceView {
            removed_anchors: before.removed_anchors.insert(
                anchors[n - 1].0.id,
                anchors[n - 1].0,
            ),
            ..before
        }
    }
}

/// What is touched once the first `n` memberships are looked at that annotations of removed
/// lines stated.
pub open spec fn after_scanned_memberships(
    path: Seq<char>,
    memberships: Seq<IndexedMemberView>,
    n: int,
    e: EvidenceView,
) -> EvidenceView
    decreases n,
{
    if n <= 0 {
        e
    } else {
        let before = after_scanned_memberships(path, memberships, n - 1, e);
        let m = memberships[n - 1];
        match m.strand {
            None => before,
            Some(strand) => EvidenceView {
                seeds: before.seeds.insert(strand),
                removed_strands: if before.removed_strands.contains_key(strand) {
                    before.removed_strands
                } else {
                    before.removed_strands.insert(strand, blank_strand(strand))
                },
                removed_members: before.removed_members.push((strand, m.member)),
                reasons: if before.reasons.contains_key(m.member.anchor) {
                    before.reasons
                } else {
                    before.reasons.insert(
                        m.member.anchor,
                        directly("annotation removed from "@ + path),
                    )
                },
                matched: before.matched.insert(path),
                ..before
            },
        }
    }
}

/// What is touched once the annotations of removed lines are looked at.
pub open spec fn after_scan(
    path: Seq<char>,
    scan: AnnotationScanView,
    e: EvidenceView,
) -> EvidenceView {
    after_scanned_memberships(
        path,
        scan.memberships,
        scan.memberships.len() as int,
        after_scanned_anchors(
            scan.anchors,
            scan.anchors.len() as int,
            after_scanned_strands(scan.strands, scan.strands.len() as int, e),
        ),
    )
}

/// Looks at the annotations of removed lines.
fn note_scan(path: &str, scan: &AnnotationScan, e: &mut Evidence)
    ensures
        final(e)@ == after_scan(path@, scan@, old(e)@),
{
    let ghost start = e@;
    let mut i: usize = 0;
    while i < scan.strands.len()
        invariant
            i <= scan.strands@.len(),
            e@ == after_scanned_strands(scan@.strands, i as int, start),
        decreases scan.strands@.len() - i,
    {
        let strand = &scan.strands[i].0;
        assert(scan@.strands[i as int].0 == strand@);
        e.removed_strands.insert(strand.id.clone(), strand.duplicate());
        i += 1;
    }
    let ghost middle = e@;
    let mut k: usize = 0;
    while k < scan.anchors.len()
        invariant
            k <= scan.anchors@.len(),
            e@ == after_scanned_anchors(scan@.anchors, k as int, middle),
        decreases scan.anchors@.len() - k,
    {
        let anchor = &scan.anchors[k].0;
        assert(scan@.anchors[k as int].0 == anchor@);
        e.removed_anchors.insert(anchor.id.clone(), anchor.duplicate());
        k += 1;
    }
    let ghost last = e@;
    let mut j: usize = 0;
    while j < scan.memberships.len()
        invariant
            j <= scan.memberships@.len(),
            e@ == after_scanned_memberships(path@, scan@.memberships, j as int, last),
        decreases scan.memberships@.len() - j,
    {
        let m = &scan.memberships[j];
        assert(scan@.memberships[j as int] == m@);
        match &m.strand {
            None => {},
            Some(strand) => {
                let _ = e.seeds.insert(strand.clone());
                if !e.removed_strands.contains_key(strand.as_str()) {
                    e.removed_strands.insert(strand.clone(), nameless_strand(strand));
                }
                push_item(&mut e.removed_members, (strand.clone(), m.member.duplicate()));
                if !e.reasons.contains_key(m.member.anchor.as_str()) {
                    e.reasons.insert(
                        m.member.anchor.clone(),
                        reason_with("annotation removed from ", path),
                    );
                }
                let _ = e.matched.insert(path.to_owned());
            },
        }
        j += 1;
    }
}

/// What is touched once the removed lines of a file are looked at: as metadata where the file
/// is deleted and its text can be read as such, and as annotations otherwise.
pub open spec fn after_removed_path(
    changes: ChangeSetView,
    parsed: Map<Seq<char>, ParsedMetadataView>,
    annotations: AnnotationConfigView,
    path: Seq<char>,
    e: EvidenceView,
) -> EvidenceView {
    if is_deleted(changes.files, path) && parsed.contains_key(path) {
        after_parsed(path, parsed[path], e)
    } else {
        after_scan(
            path,
            scan_of(path, removed_text(changes.removed_lines, path), annotations),
            e,
        )
    }
}

/// What is touched once the removed lines of the first `n` files are looked at.
pub open spec fn after_removed_paths(
    changes: ChangeSetView,
    parsed: Map<Seq<char>, ParsedMetadataView>,
    annotations: AnnotationConfigView,
    n: int,
    e: EvidenceView,
) -> EvidenceView
    decreases n,
{
    if n <= 0 {
        e
    } else {
        after_removed_path(
            changes,
            parsed,
            annotations,
            ordered_removed_paths(changes)[n - 1],
            after_removed_paths(changes, parsed, annotations, n - 1, e),
        )
    }
}

/// Looks at the removed lines.
fn note_removed(
    changes: &ChangeSet,
    parsed: &StringMap<ParsedMetadata>,
    annotations: &AnnotationConfig,
    e: &mut Evidence,
)
    requires
        markers_are_filled(annotations@),
    ensures
        final(e)@ == after_removed_paths(
            changes@,
            parsed@,
            annotations@,
            ordered_removed_paths(changes@).len() as int,
            old(e)@,
        ),
{
    let paths = paths_of_removed(changes);
    let n: usize = paths.len();
    let ghost start = e@;
    let mut i: usize = 0;
    while i < n
        invariant
            i <= n,
            n == ordered(paths@).len(),
            ordered(paths@) == ordered_removed_paths(changes@),
            markers_are_filled(annotations@),
            e@ == after_removed_paths(changes@, parsed@, annotations@, i as int, start),
        decreases n - i,
    {
        let path = paths.item_at(i);
        let mut known: Option<&ParsedMetadata> = None;
        if deletes(changes, path.as_str()) {
            known = parsed.get(path.as_str());
        }
        match known {
            Some(document) => {
                note_parsed(path.as_str(), document, e);
            },
            None => {
                let text = text_of_removed(changes, path.as_str());
                let scan = scan_source(path.as_str(), text.as_str(), annotations);
                note_scan(path.as_str(), &scan, e);
            },
        }
        i += 1;
    }
}

/// What a change touches directly, given what deleted metadata files said.
pub open spec fn direct_evidence(
    index: IndexView,
    changes: ChangeSetView,
    parsed: Map<Seq<char>, ParsedMetadataView>,
    annotations: AnnotationConfigView,
) -> EvidenceView {
    let strands = after_strands(
        index,
        changes,
        ordered(index.strands.dom()).len() as int,
        no_evidence(),
    );
    let memberships = after_memberships(index, changes, index.memberships.len() as int, strands);
    let relations = after_relations(index, changes, index.relations.len() as int, memberships);
    let anchors = after_anchors(
        index,
        changes,
        ordered(index.anchors.dom()).len() as int,
        relations,
    );
    after_removed_paths(
        changes,
        parsed,
        annotations,
        ordered_removed_paths(changes).len() as int,
        anchors,
    )
}

/// What a change touches directly.
fn gather_evidence(
    index: &Index,
    changes: &ChangeSet,
    parsed: &StringMap<ParsedMetadata>,
    annotations: &AnnotationConfig,
) -> (r: Evidence)
    requires
        markers_are_filled(annotations@),
    ensures
        r@ == direct_evidence(index@, changes@, parsed@, annotations@),
{
    let mut e = Evidence {
        reasons: StringMap::new(),
        matched: StringSet::new(),
        seeds: StringSet::new(),
        removed_strands: StringMap::new(),
        removed_members: Vec::new(),
        removed_anchors: StringMap::new(),
        removed_relations: Vec::new(),
    };
    assert(e@ =~= no_evidence());
    note_strands(index, changes, &mut e);
    note_memberships(index, changes, &mut e);
    note_relations(index, changes, &mut e);
    note_anchors(index, changes, &mut e);
    note_removed(changes, parsed, annotations, &mut e);
    e
}

/// A relation that is followed.
#[verifier::ext_equal]
pub ghost struct EdgeView {
    pub from: Seq<char>,
    pub to: Seq<char>,
    pub kind: Seq<char>,
}

/// A relation that is followed.
struct Edge {
    from: String,
    to: String,
    kind: String,
}

impl DeepView for Edge {
    type V = EdgeView;

    closed spec fn deep_view(&self) -> EdgeView {
        EdgeView { from: self.from@, to: self.to@, kind: self.kind@ }
    }
}

/// The ends and the kind of a relation.
pub open spec fn edge_of(relation: RelationView) -> EdgeView {
    EdgeView { from: relation.from, to: relation.to, kind: relation.kind }
}

/// The ends and the kind of a relation.
fn make_edge(relation: &Relation) -> (r: Edge)
    ensures
        r.deep_view() == edge_of(relation@),
{
    Edge {
        from: relation.from.clone(),
        to: relation.to.clone(),
        kind: relation.kind.clone(),
    }
}

/// The relations among the first `n` of the index that are followed.
pub open spec fn followed_edges(
    index: IndexView,
    filter: Set<Seq<char>>,
    respect_policy: bool,
    n: int,
) -> Seq<EdgeView>
    decreases n,
{
    if n <= 0 {
        seq![]
    } else if is_relation_followed(index, index.relations[n - 1], filter, respect_policy) {
        followed_edges(index, filter, respect_policy, n - 1).push(
            edge_of(index.relations[n - 1].relation),
        )
    } else {
        followed_edges(index, filter, respect_policy, n - 1)
    }
}

/// The relations of the index that are followed.
fn collect_edges(index: &Index, filter: &StringSet, respect_policy: bool) -> (r: Vec<Edge>)
    ensures
        r.deep_view() == followed_edges(
            index@,
            filter@,
            respect_policy,
            index@.relations.len() as int,
        ),
{
    let mut out: Vec<Edge> = Vec::new();
    let mut i: usize = 0;
    assert(out.deep_view() =~= seq![]);
    while i < index.relations.len()
        invariant
            i <= index.relations@.len(),
            out.deep_view() == followed_edges(index@, filter@, respect_policy, i as int),
        decreases index.relations@.len() - i,
    {
        let relation = &index.relations[i];
        assert(index@.relations[i as int] == relation@);
        if affected_relation_allowed(index, relation, filter, respect_policy) {
            push_item(&mut out, make_edge(&relation.relation));
        }
        i += 1;
    }
    out
}

/// The removed relations among the first `n` that are followed.
pub open spec fn followed_removed(
    relations: Seq<RelationView>,
    filter: Set<Seq<char>>,
    n: int,
) -> Seq<EdgeView>
    decreases n,
{
    if n <= 0 {
        seq![]
    } else if kind_allowed(filter, relations[n - 1].kind) {
        followed_removed(relations, filter, n - 1).push(edge_of(relations[n - 1]))
    } else {
        followed_removed(relations, filter, n - 1)
    }
}

/// Adds the removed relations that are followed.
fn add_removed_edges(edges: &mut Vec<Edge>, relations: &Vec<Relation>, filter: &StringSet)
    ensures
        final(edges).deep_view() == old(edges).deep_view() + followed_removed(
            relations.deep_view(),
            filter@,
            relations@.len() as int,
        ),
{
    let ghost start = edges.deep_view();
    let ghost all = relations.deep_view();
    let mut i: usize = 0;
    assert(start + followed_removed(all, filter@, 0) =~= start);
    while i < relations.len()
        invariant
            i <= relations@.len(),
            all == relations.deep_view(),
            edges.deep_view() == start + followed_removed(all, filter@, i as int),
        decreases relations@.len() - i,
    {
        let relation = &relations[i];
        assert(all[i as int] == relation@);
        if filter.is_empty() || filter.contains(relation.kind.as_str()) {
            push_item(edges, make_edge(relation));
            assert(edges.deep_view() =~= start + followed_removed(all, filter@, i + 1));
        }
        i += 1;
    }
}

/// Reasons with one more for an anchor: of several the first in the order of texts is kept.
pub open spec fn with_reason(
    next: Map<Seq<char>, Seq<char>>,
    anchor: Seq<char>,
    reason: Seq<char>,
) -> Map<Seq<char>, Seq<char>> {
    if next.contains_key(anchor) && !text_less(reason, next[anchor]) {
        next
    } else {
        next.insert(anchor, reason)
    }
}

/// Adds a reason for an anchor.
fn add_reason(next: &mut StringMap<String>, anchor: &String, kind: &String, link: &str, other: &String)
    ensures
        final(next)@ == with_reason(old(next)@, anchor@, kind@ + link@ + other@),
{
    let mut reason = kind.clone();
    reason.push_str(link);
    reason.push_str(other.as_str());
    let keep = match next.get(anchor.as_str()) {
        Some(known) => !text_before(reason.as_str(), known.as_str()),
        None => false,
    };
    if !keep {
        next.insert(anchor.clone(), reason);
    }
}

/// The anchors that the first `n` relations lead to from the frontier and that were not
/// visited, each with its reason.
pub open spec fn next_reasons(
    edges: Seq<EdgeView>,
    n: int,
    frontier: Set<Seq<char>>,
    visited: Set<Seq<char>>,
) -> Map<Seq<char>, Seq<char>>
    decreases n,
{
    if n <= 0 {
        Map::empty()
    } else {
        let before = next_reasons(edges, n - 1, frontier, visited);
        let edge = edges[n - 1];
        let forward = if frontier.contains(edge.from) && !visited.contains(edge.to) {
            with_reason(before, edge.to, edge.kind + " relationship from "@ + edge.from)
        } else {
            before
        };
        if frontier.contains(edge.to) && !visited.contains(edge.from) {
            with_reason(forward, edge.from, edge.kind + " relationship to "@ + edge.to)
        } else {
            forward
        }
    }
}

/// The anchors that relations lead to from the frontier and that were not visited.
fn find_next(edges: &Vec<Edge>, frontier: &StringSet, visited: &StringSet) -> (r: StringMap<String>)
    ensures
        r@ == next_reasons(edges.deep_view(), edges@.len() as int, frontier@, visited@),
{
    let mut next: StringMap<String> = StringMap::new();
    let ghost all = edges.deep_view();
    let mut i: usize = 0;
    while i < edges.len()
        invariant
            i <= edges@.len(),
            all == edges.deep_view(),
            next@ == next_reasons(all, i as int, frontier@, visited@),
        decreases edges@.len() - i,
    {
        let edge = &edges[i];
        assert(all[i as int] == edge.deep_view());
        if frontier.contains(edge.from.as_str()) && !visited.contains(edge.to.as_str()) {
            add_reason(&mut next, &edge.to, &edge.kind, " relationship from ", &edge.from);
        }
        if frontier.contains(edge.to.as_str()) && !visited.contains(edge.from.as_str()) {
            add_reason(&mut next, &edge.from, &edge.kind, " relationship to ", &edge.to);
        }
        i += 1;
    }
    next
}

/// The reason for a member that is reached through its strand alone.
pub open spec fn membership_reason(strand: Seq<char>) -> AnchorReasonView {
    AnchorReasonView { reason: "member of strand "@ + strand, direct: false }
}

/// The reason for a member that is reached through its strand alone.
fn reason_of_membership(strand: &String) -> (r: AnchorReason)
    ensures
        r@ == membership_reason(strand@),
{
    let mut reason = "member of strand ".to_owned();
    reason.push_str(strand.as_str());
    AnchorReason { reason, direct: false }
}

/// Reasons with the members of a strand among the first `n` memberships.
pub open spec fn with_members(
    index: IndexView,
    id: Seq<char>,
    include_optional: bool,
    n: int,
    reasons: Map<Seq<char>, AnchorReasonView>,
) -> Map<Seq<char>, AnchorReasonView>
    decreases n,
{
    if n <= 0 {
        reasons
    } else {
        let before = with_members(index, id, include_optional, n - 1, reasons);
        let m = index.memberships[n - 1];
        if m.strand == Some(id) && is_member_selected(
            m.member,
            index.strands[id].value,
            include_optional,
        ) && !before.contains_key(m.member.anchor) {
            before.insert(m.member.anchor, membership_reason(id))
        } else {
            before
        }
    }
}

/// Reasons with the members of the first `n` strands.
pub open spec fn with_strand_members(
    index: IndexView,
    ids: Seq<Seq<char>>,
    include_optional: bool,
    n: int,
    reasons: Map<Seq<char>, AnchorReasonView>,
) -> Map<Seq<char>, AnchorReasonView>
    decreases n,
{
    if n <= 0 {
        reasons
    } else {
        let before = with_strand_members(index, ids, include_optional, n - 1, reasons);
        if index.strands.contains_key(ids[n - 1]) {
            with_members(
                index,
                ids[n - 1],
                include_optional,
                index.memberships.len() as int,
                before,
            )
        } else {
            before
        }
    }
}

/// Adds the members of a strand.
fn expand_strand(
    index: &Index,
    id: &String,
    strand: &Strand,
    include_optional: bool,
    reasons: &mut StringMap<AnchorReason>,
)
    requires
        index@.strands.contains_key(id@),
        index@.strands[id@].value == strand@,
    ensures
        final(reasons)@ == with_members(
            index@,
            id@,
            include_optional,
            index@.memberships.len() as int,
            old(reasons)@,
        ),
{
    let ghost start = reasons@;
    let mut i: usize = 0;
    while i < index.memberships.len()
        invariant
            i <= index.memberships@.len(),
            index@.strands[id@].value == strand@,
            reasons@ == with_members(index@, id@, include_optional, i as int, start),
        decreases index.memberships@.len() - i,
    {
        let m = &index.memberships[i];
        assert(index@.memberships[i as int] == m@);
        if crate::text::option_is(&m.strand, id.as_str()) && member_selected(
            &m.member,
            strand,
            include_optional,
        ) && !reasons.contains_key(m.member.anchor.as_str()) {
            reasons.insert(m.member.anchor.clone(), reason_of_membership(id));
        }
        i += 1;
    }
}

/// Adds the members of strands.
fn expand_strand_members(
    index: &Index,
    strands: &StringSet,
    reasons: &mut StringMap<AnchorReason>,
    include_optional: bool,
)
    ensures
        final(reasons)@ == with_strand_members(
            index@,
            ordered(strands@),
            include_optional,
            ordered(strands@).len() as int,
            old(reasons)@,
        ),
{
    let n: usize = strands.len();
    let ghost start = reasons@;
    let mut i: usize = 0;
    while i < n
        invariant
            i <= n,
            n == ordered(strands@).len(),
            reasons@ == with_strand_members(
                index@,
                ordered(strands@),
                include_optional,
                i as int,
                start,
            ),
        decreases n - i,
    {
        let id = strands.item_at(i);
        match index.strands.get(id.as_str()) {
            Some(strand) => {
                expand_strand(index, id, &strand.value, include_optional, reasons);
            },
            None => {},
        }
        i += 1;
    }
}

/// The selected strands of the first `n` memberships whose anchor is in the frontier.
pub open spec fn connected_strands(
    index: IndexView,
    frontier: Set<Seq<char>>,
    tags: Set<Seq<char>>,
    n: int,
) -> Set<Seq<char>>
    decreases n,
{
    if n <= 0 {
        Set::empty()
    } else {
        let before = connected_strands(index, frontier, tags, n - 1);
        let m = index.memberships[n - 1];
        match m.strand {
            Some(id) => if frontier.contains(m.member.anchor) && is_selected(index, id, tags) {
                before.insert(id)
            } else {
                before
            },
            None => before,
        }
    }
}

/// The selected strands of memberships whose anchor is a key of the map.
fn find_connected(index: &Index, frontier: &StringMap<String>, tags: &StringSet) -> (r: StringSet)
    ensures
        r@ == connected_strands(
            index@,
            frontier@.dom(),
            tags@,
            index@.memberships.len() as int,
        ),
{
    let mut out = StringSet::new();
    let mut i: usize = 0;
    while i < index.memberships.len()
        invariant
            i <= index.memberships@.len(),
            out@ == connected_strands(index@, frontier@.dom(), tags@, i as int),
        decreases index.memberships@.len() - i,
    {
        let m = &index.memberships[i];
        assert(index@.memberships[i as int] == m@);
        match &m.strand {
            Some(id) => {
                if frontier.contains_key(m.member.anchor.as_str()) && strand_selected(
                    index,
                    id.as_str(),
                    tags,
                ) {
                    let _ = out.insert(id.clone());
                }
            },
            None => {},
        }
        i += 1;
    }
    out
}

/// What is reached so far.
#[verifier::ext_equal]
pub ghost struct ReachView {
    /// Why each anchor is reached.
    pub reasons: Map<Seq<char>, AnchorReasonView>,
    /// The anchors from which relations are followed next.
    pub frontier: Set<Seq<char>>,
    /// The strands that are reached.
    pub active: Set<Seq<char>>,
    /// The strands whose members are reached.
    pub expanded: Set<Seq<char>>,
}

/// How things are reached.
pub ghost struct RouteView {
    /// The relations that are followed.
    pub edges: Seq<EdgeView>,
    /// The tags that a strand has to carry.
    pub tags: Set<Seq<char>>,
    /// Whether optional members are reached.
    pub include_optional: bool,
    /// Whether the members of strands that are met on the way are reached.
    pub expands: bool,
}

/// Reasons for anchors that relations lead to.
pub open spec fn related_reasons(next: Map<Seq<char>, Seq<char>>) -> Map<
    Seq<char>,
    AnchorReasonView,
> {
    next.map_values(|reason: Seq<char>| AnchorReasonView { reason, direct: false })
}

/// The anchors that the relations lead to next, each with its reason.
pub open spec fn next_of(route: RouteView, st: ReachView) -> Map<Seq<char>, Seq<char>> {
    next_reasons(route.edges, route.edges.len() as int, st.frontier, st.reasons.dom())
}

/// What is reached one relation farther: the anchors that relations lead to, their strands
/// and, where the route says so, the members of those.
pub open spec fn reach_step(index: IndexView, route: RouteView, st: ReachView) -> ReachView {
    let next = next_of(route, st);
    let added = st.reasons.union_prefer_right(related_reasons(next));
    let met = connected_strands(index, next.dom(), route.tags, index.memberships.len() as int);
    let reasons = if route.expands {
        with_strand_members(
            index,
            ordered(met),
            route.include_optional,
            ordered(met).len() as int,
            added,
        )
    } else {
        added
    };
    ReachView {
        reasons,
        frontier: reasons.dom().difference(st.reasons.dom()),
        active: st.active.union(met),
        expanded: if route.expands {
            st.expanded.union(met)
        } else {
            st.expanded
        },
    }
}

/// What is reached within a number of relations.
pub open spec fn reach(index: IndexView, route: RouteView, st: ReachView, depth: nat) -> ReachView
    decreases depth,
{
    if depth == 0 || next_of(route, st) == Map::<Seq<char>, Seq<char>>::empty() {
        st
    } else {
        reach(index, route, reach_step(index, route, st), (depth - 1) as nat)
    }
}

/// What is reached so far.
struct Reach {
    reasons: StringMap<AnchorReason>,
    frontier: StringSet,
    active: StringSet,
    expanded: StringSet,
}

impl View for Reach {
    type V = ReachView;

    closed spec fn view(&self) -> ReachView {
        ReachView {
            reasons: self.reasons@,
            frontier: self.frontier@,
            active: self.active@,
            expanded: self.expanded@,
        }
    }
}

/// The keys of reasons that are not in a set.
fn new_keys(reasons: &StringMap<AnchorReason>, visited: &StringSet) -> (r: StringSet)
    ensures
        r@ == reasons@.dom().difference(visited@),
{
    let n: usize = reasons.len();
    let ghost keys = ordered(reasons@.dom());
    let mut out = StringSet::new();
    let mut i: usize = 0;
    assert(keys.take(0).to_set().difference(visited@) =~= Set::<Seq<char>>::empty());
    while i < n
        invariant
            i <= n,
            n == keys.len(),
            keys == ordered(reasons@.dom()),
            keys.to_set() == reasons@.dom(),
            out@ == keys.take(i as int).to_set().difference(visited@),
        decreases n - i,
    {
        let key = reasons.key_at(i);
        proof {
            crate::collections::lemma_take_set(keys, i as int);
        }
        if !visited.contains(key.as_str()) {
            let _ = out.insert(key.clone());
        }
        assert(out@ =~= keys.take(i + 1).to_set().difference(visited@));
        i += 1;
    }
    assert(keys.take(n as int) =~= keys);
    out
}

/// Adds reasons for anchors that relations lead to.
fn add_related(reasons: &mut StringMap<AnchorReason>, next: &StringMap<String>)
    ensures
        final(reasons)@ == old(reasons)@.union_prefer_right(related_reasons(next@)),
{
    let n: usize = next.len();
    let ghost keys = ordered(next@.dom());
    let ghost start = reasons@;
    let ghost more = related_reasons(next@);
    let mut i: usize = 0;
    while i < n
        invariant
            i <= n,
            n == keys.len(),
            keys == ordered(next@.dom()),
            keys.to_set() == next@.dom(),
            more == related_reasons(next@),
            forall|x: Seq<char>| #[trigger]
                reasons@.contains_key(x) <==> (start.contains_key(x) || keys.take(
                    i as int,
                ).to_set().contains(x)),
            forall|x: Seq<char>| #[trigger]
                reasons@.contains_key(x) ==> reasons@[x] == if keys.take(
                    i as int,
                ).to_set().contains(x) {
                    more[x]
                } else {
                    start[x]
                },
        decreases n - i,
    {
        let key = next.key_at(i);
        let reason = next.value_at(i);
        let ghost before = reasons@;
        reasons.insert(key.clone(), AnchorReason { reason: reason.clone(), direct: false });
        proof {
            crate::collections::lemma_take_set(keys, i as int);
            assert(more[keys[i as int]] == AnchorReasonView { reason: reason@, direct: false });
            assert forall|x: Seq<char>| #[trigger]
                reasons@.contains_key(x) <==> (start.contains_key(x) || keys.take(
                    i + 1,
                ).to_set().contains(x)) by {
                assert(before.contains_key(x) <==> (start.contains_key(x) || keys.take(
                    i as int,
                ).to_set().contains(x)));
            }
            assert forall|x: Seq<char>| #[trigger] reasons@.contains_key(x) implies reasons@[x]
                == if keys.take(i + 1).to_set().contains(x) {
                more[x]
            } else {
                start[x]
            } by {
                assert(before.contains_key(x) <==> (start.contains_key(x) || keys.take(
                    i as int,
                ).to_set().contains(x)));
            }
        }
        i += 1;
    }
    proof {
        assert(keys.take(n as int) =~= keys);
        assert forall|x: Seq<char>|
            reasons@.contains_key(x) == start.union_prefer_right(more).contains_key(x) by {
            assert(reasons@.contains_key(x) <==> (start.contains_key(x) || keys.to_set().contains(
                x,
            )));
        }
        assert(reasons@ =~= start.union_prefer_right(more));
    }
}

/// Follows relations, up to a depth.
fn follow(
    index: &Index,
    edges: &Vec<Edge>,
    tags: &StringSet,
    include_optional: bool,
    expands: bool,
    depth: usize,
    st: Reach,
) -> (r: Reach)
    ensures
        r@ == reach(
            index@,
            (RouteView { edges: edges.deep_view(), tags: tags@, include_optional, expands }),
            st@,
            depth as nat,
        ),
{
    let ghost route = RouteView {
        edges: edges.deep_view(),
        tags: tags@,
        include_optional,
        expands,
    };
    let ghost start = st@;
    let mut st = st;
    let mut left: usize = depth;
    while left > 0
        invariant
            left <= depth,
            route == (RouteView {
                edges: edges.deep_view(),
                tags: tags@,
                include_optional,
                expands,
            }),
            reach(index@, route, start, depth as nat) == reach(index@, route, st@, left as nat),
        ensures
            st@ == reach(index@, route, start, depth as nat),
        decreases left,
    {
        let visited = st.reasons.key_set();
        let next = find_next(edges, &st.frontier, &visited);
        assert(next@ == next_of(route, st@));
        if next.is_empty() {
            break;
        }
        let ghost before = st@;
        add_related(&mut st.reasons, &next);
        let met = find_connected(index, &next, tags);
        st.active.extend(&met);
        if expands {
            expand_strand_members(index, &met, &mut st.reasons, include_optional);
            st.expanded.extend(&met);
        }
        st.frontier = new_keys(&st.reasons, &visited);
        assert(st@ == reach_step(index@, route, before));
        left -= 1;
    }
    st
}

/// The anchor that a name stands for: in the index, else among those that a change takes away.
pub open spec fn known_anchor(
    index: IndexView,
    removed: Map<Seq<char>, AnchorView>,
    id: Seq<char>,
) -> Option<AnchorView> {
    if index.anchors.contains_key(id) {
        Some(index.anchors[id].value)
    } else if removed.contains_key(id) {
        Some(removed[id])
    } else {
        None
    }
}

/// The anchor that a name stands for.
fn find_anchor(index: &Index, removed: &StringMap<Anchor>, id: &str) -> (r: Option<Anchor>)
    ensures
        r.deep_view() == known_anchor(index@, removed@, id@),
{
    match index.anchors.get(id) {
        Some(anchor) => Some(anchor.value.duplicate()),
        None => match removed.get(id) {
            Some(anchor) => Some(anchor.duplicate()),
            None => None,
        },
    }
}

/// Everything that the listing of reached strands looks at.
pub ghost struct ListingView {
    /// Why each anchor is reached.
    pub reasons: Map<Seq<char>, AnchorReasonView>,
    /// The anchors that a change takes away.
    pub removed_anchors: Map<Seq<char>, AnchorView>,
    /// The strands that a change takes away.
    pub removed_strands: Map<Seq<char>, StrandView>,
    /// The members that a change takes away, each with its strand.
    pub removed_members: Seq<(Seq<char>, MemberView)>,
    /// The strands that are reached directly.
    pub direct: Set<Seq<char>>,
    /// The strands of which all members are listed; of others only those that are reached.
    pub expanded: Option<Set<Seq<char>>>,
    /// Whether optional members are listed.
    pub include_optional: bool,
}

/// A member of a strand as it is listed.
pub open spec fn listed_member(
    index: IndexView,
    l: ListingView,
    id: Seq<char>,
    member: MemberView,
) -> AffectedAnchorView {
    let why = if l.reasons.contains_key(member.anchor) {
        l.reasons[member.anchor]
    } else {
        membership_reason(id)
    };
    AffectedAnchorView {
        id: member.anchor,
        reason: why.reason,
        direct: why.direct,
        role: member.role,
        anchor: known_anchor(index, l.removed_anchors, member.anchor),
    }
}

/// Whether a member of a strand is listed.
pub open spec fn is_listed(
    l: ListingView,
    id: Seq<char>,
    strand: StrandView,
    member: MemberView,
) -> bool {
    &&& is_member_selected(member, strand, l.include_optional)
    &&& match l.expanded {
        None => true,
        Some(expanded) => expanded.contains(id) || l.reasons.contains_key(member.anchor),
    }
}

/// Whether a role comes before another: no role comes first.
pub open spec fn role_less(a: Option<Seq<char>>, b: Option<Seq<char>>) -> bool {
    match (a, b) {
        (None, Some(_)) => true,
        (Some(a), Some(b)) => text_less(a, b),
        _ => false,
    }
}

/// Whether a listed anchor comes before another: by name, then by role.
pub open spec fn anchor_before(a: AffectedAnchorView, b: AffectedAnchorView) -> bool {
    text_less(a.id, b.id) || (a.id == b.id && role_less(a.role, b.role))
}

/// Whether a listed anchor comes before another.
fn comes_before(a: &AffectedAnchor, b: &AffectedAnchor) -> (r: bool)
    ensures
        r == anchor_before(a@, b@),
{
    if text_before(a.id.as_str(), b.id.as_str()) {
        return true;
    }
    if !same_text(a.id.as_str(), b.id.as_str()) {
        return false;
    }
    match (&a.role, &b.role) {
        (None, Some(_)) => true,
        (Some(x), Some(y)) => text_before(x.as_str(), y.as_str()),
        _ => false,
    }
}

/// A listed anchor put behind the last one that does not come after it.
pub open spec fn insert_anchor(sorted: Seq<AffectedAnchorView>, x: AffectedAnchorView) -> Seq<
    AffectedAnchorView,
>
    decreases sorted.len(),
{
    if sorted.len() == 0 || !anchor_before(x, sorted.last()) {
        sorted.push(x)
    } else {
        insert_anchor(sorted.drop_last(), x).push(sorted.last())
    }
}

/// Putting an anchor behind the last one that does not come after it is `insert_anchor`.
proof fn lemma_insert_anchor(sorted: Seq<AffectedAnchorView>, x: AffectedAnchorView, at: int)
    requires
        0 <= at <= sorted.len(),
        forall|k: int| at <= k < sorted.len() ==> anchor_before(x, #[trigger] sorted[k]),
        at > 0 ==> !anchor_before(x, sorted[at - 1]),
    ensures
        insert_anchor(sorted, x) == sorted.insert(at, x),
    decreases sorted.len(),
{
    if at == sorted.len() {
        assert(sorted.insert(at, x) =~= sorted.push(x));
    } else {
        lemma_insert_anchor(sorted.drop_last(), x, at);
        assert(sorted.insert(at, x) =~= sorted.drop_last().insert(at, x).push(sorted.last()));
    }
}

/// Puts a listed anchor in its place.
fn place_anchor(sorted: &mut Vec<AffectedAnchor>, x: AffectedAnchor)
    ensures
        final(sorted).deep_view() == insert_anchor(old(sorted).deep_view(), x@),
{
    let mut at: usize = sorted.len();
    let ghost before = sorted.deep_view();
    while at > 0
        invariant
            at <= sorted@.len(),
            before == sorted.deep_view(),
            forall|k: int| at <= k < before.len() ==> anchor_before(x@, #[trigger] before[k]),
        ensures
            at <= sorted@.len(),
            forall|k: int| at <= k < before.len() ==> anchor_before(x@, #[trigger] before[k]),
            at > 0 ==> !anchor_before(x@, before[at - 1]),
        decreases at,
    {
        assert(before[at - 1] == sorted@[at - 1]@);
        if !comes_before(&x, &sorted[at - 1]) {
            break;
        }
        at -= 1;
    }
    proof {
        lemma_insert_anchor(before, x@, at as int);
    }
    let ghost view = x@;
    sorted.insert(at, x);
    assert(sorted.deep_view() =~= before.insert(at as int, view));
}

/// Listed anchors in order.
pub open spec fn sort_anchors(anchors: Seq<AffectedAnchorView>) -> Seq<AffectedAnchorView>
    decreases anchors.len(),
{
    if anchors.len() == 0 {
        anchors
    } else {
        insert_anchor(sort_anchors(anchors.drop_last()), anchors.last())
    }
}

/// Listed anchors in order.
fn sorted_anchors(anchors: Vec<AffectedAnchor>) -> (r: Vec<AffectedAnchor>)
    ensures
        r.deep_view() == sort_anchors(anchors.deep_view()),
{
    let mut out: Vec<AffectedAnchor> = Vec::new();
    let ghost all = anchors.deep_view();
    let mut i: usize = 0;
    assert(all.take(0) =~= seq![]);
    assert(out.deep_view() =~= sort_anchors(all.take(0)));
    while i < anchors.len()
        invariant
            i <= anchors@.len(),
            all == anchors.deep_view(),
            out.deep_view() == sort_anchors(all.take(i as int)),
        decreases anchors@.len() - i,
    {
        assert(all[i as int] == anchors@[i as int]@);
        assert(all.take(i + 1).drop_last() =~= all.take(i as int));
        place_anchor(&mut out, anchors[i].duplicate());
        i += 1;
    }
    assert(all.take(all.len() as int) =~= all);
    out
}

/// Listed anchors without those that repeat the name and the role of the one before.
pub open spec fn dedup_anchors(anchors: Seq<AffectedAnchorView>) -> Seq<AffectedAnchorView>
    decreases anchors.len(),
{
    if anchors.len() == 0 {
        anchors
    } else {
        let before = dedup_anchors(anchors.drop_last());
        let x = anchors.last();
        if before.len() > 0 && before.last().id == x.id && before.last().role == x.role {
            before
        } else {
            before.push(x)
        }
    }
}

/// Listed anchors without those that repeat the name and the role of the one before.
fn deduped_anchors(anchors: Vec<AffectedAnchor>) -> (r: Vec<AffectedAnchor>)
    ensures
        r.deep_view() == dedup_anchors(anchors.deep_view()),
{
    let mut out: Vec<AffectedAnchor> = Vec::new();
    let ghost all = anchors.deep_view();
    let mut i: usize = 0;
    assert(all.take(0) =~= seq![]);
    assert(out.deep_view() =~= dedup_anchors(all.take(0)));
    while i < anchors.len()
        invariant
            i <= anchors@.len(),
            all == anchors.deep_view(),
            out.deep_view() == dedup_anchors(all.take(i as int)),
        decreases anchors@.len() - i,
    {
        let x = &anchors[i];
        assert(all[i as int] == x@);
        assert(all.take(i + 1).drop_last() =~= all.take(i as int));
        let n: usize = out.len();
        let repeats = if n > 0 {
            assert(out.deep_view().last() == out@[n - 1]@);
            same_text(out[n - 1].id.as_str(), x.id.as_str()) && same_option(
                &out[n - 1].role,
                &x.role,
            )
        } else {
            false
        };
        if !repeats {
            push_item(&mut out, x.duplicate());
        }
        i += 1;
    }
    assert(all.take(all.len() as int) =~= all);
    out
}

/// The members of a strand among the first `n` memberships that are listed.
pub open spec fn current_members(
    index: IndexView,
    l: ListingView,
    id: Seq<char>,
    strand: StrandView,
    n: int,
) -> Seq<AffectedAnchorView>
    decreases n,
{
    if n <= 0 {
        seq![]
    } else {
        let before = current_members(index, l, id, strand, n - 1);
        let m = index.memberships[n - 1];
        if m.strand == Some(id) && is_listed(l, id, strand, m.member) {
            before.push(listed_member(index, l, id, m.member))
        } else {
            before
        }
    }
}

/// The members of a strand among the first `n` removed ones that are listed.
pub open spec fn former_members(
    index: IndexView,
    l: ListingView,
    id: Seq<char>,
    strand: StrandView,
    n: int,
) -> Seq<AffectedAnchorView>
    decreases n,
{
    if n <= 0 {
        seq![]
    } else {
        let before = former_members(index, l, id, strand, n - 1);
        let m = l.removed_members[n - 1];
        if m.0 == id && is_listed(l, id, strand, m.1) {
            before.push(listed_member(index, l, id, m.1))
        } else {
            before
        }
    }
}

/// The strand that a name stands for: in the index, else among those that a change takes away.
pub open spec fn known_strand(index: IndexView, l: ListingView, id: Seq<char>) -> Option<StrandView> {
    if index.strands.contains_key(id) {
        Some(index.strands[id].value)
    } else if l.removed_strands.contains_key(id) {
        Some(l.removed_strands[id])
    } else {
        None
    }
}

/// The members of a strand as they are listed: sorted, each name with each role once.
pub open spec fn listed_members(
    index: IndexView,
    l: ListingView,
    id: Seq<char>,
    strand: StrandView,
) -> Seq<AffectedAnchorView> {
    dedup_anchors(
        sort_anchors(
            current_members(index, l, id, strand, index.memberships.len() as int)
                + former_members(index, l, id, strand, l.removed_members.len() as int),
        ),
    )
}

/// A strand as it is listed.
pub open spec fn listed_strand(
    index: IndexView,
    l: ListingView,
    id: Seq<char>,
    strand: StrandView,
) -> AffectedStrandView {
    AffectedStrandView {
        id,
        intent: strand.intent,
        direct: l.direct.contains(id),
        anchors: listed_members(index, l, id, strand),
    }
}

/// The first `n` strands as they are listed.
pub open spec fn listed_strands(
    index: IndexView,
    l: ListingView,
    ids: Seq<Seq<char>>,
    n: int,
) -> Seq<AffectedStrandView>
    decreases n,
{
    if n <= 0 {
        seq![]
    } else {
        let before = listed_strands(index, l, ids, n - 1);
        match known_strand(index, l, ids[n - 1]) {
            None => before,
            Some(strand) => before.push(listed_strand(index, l, ids[n - 1], strand)),
        }
    }
}

/// Everything that the listing of reached strands looks at.
struct Listing<'a> {
    reasons: &'a StringMap<AnchorReason>,
    removed_anchors: &'a StringMap<Anchor>,
    removed_strands: &'a StringMap<Strand>,
    removed_members: &'a Vec<(String, Member)>,
    direct: &'a StringSet,
    expanded: Option<&'a StringSet>,
    include_optional: bool,
}

impl<'a> View for Listing<'a> {
    type V = ListingView;

    closed spec fn view(&self) -> ListingView {
        ListingView {
            reasons: self.reasons@,
            removed_anchors: self.removed_anchors@,
            removed_strands: self.removed_strands@,
            removed_members: self.removed_members.deep_view(),
            direct: self.direct@,
            expanded: self.expanded.deep_view(),
            include_optional: self.include_optional,
        }
    }
}

/// A member of a strand as it is listed, where it is.
fn list_member(index: &Index, l: &Listing<'_>, id: &String, strand: &Strand, member: &Member) -> (r:
    Option<AffectedAnchor>)
    ensures
        match r {
            Some(anchor) => is_listed(l@, id@, strand@, member@) && anchor@ == listed_member(
                index@,
                l@,
                id@,
                member@,
            ),
            None => !is_listed(l@, id@, strand@, member@),
        },
{
    if !member_selected(member, strand, l.include_optional) {
        return None;
    }
    match l.expanded {
        None => {},
        Some(expanded) => {
            if !expanded.contains(id.as_str()) && !l.reasons.contains_key(member.anchor.as_str()) {
                return None;
            }
        },
    }
    let why = match l.reasons.get(member.anchor.as_str()) {
        Some(why) => why.duplicate(),
        None => reason_of_membership(id),
    };
    Some(
        AffectedAnchor {
            id: member.anchor.clone(),
            reason: why.reason,
            direct: why.direct,
            role: member.role.duplicate(),
            anchor: find_anchor(index, l.removed_anchors, member.anchor.as_str()),
        },
    )
}

/// A strand as it is listed.
fn list_strand(index: &Index, l: &Listing<'_>, id: &String, strand: &Strand) -> (r: AffectedStrand)
    ensures
        r@ == listed_strand(index@, l@, id@, strand@),
{
    let mut anchors: Vec<AffectedAnchor> = Vec::new();
    let mut i: usize = 0;
    assert(anchors.deep_view() =~= seq![]);
    while i < index.memberships.len()
        invariant
            i <= index.memberships@.len(),
            anchors.deep_view() == current_members(index@, l@, id@, strand@, i as int),
        decreases index.memberships@.len() - i,
    {
        let m = &index.memberships[i];
        assert(index@.memberships[i as int] == m@);
        if crate::text::option_is(&m.strand, id.as_str()) {
            match list_member(index, l, id, strand, &m.member) {
                Some(anchor) => {
                    push_item(&mut anchors, anchor);
                },
                None => {},
            }
        }
        i += 1;
    }
    let ghost current = anchors.deep_view();
    let ghost removed = l@.removed_members;
    let mut k: usize = 0;
    assert(current + former_members(index@, l@, id@, strand@, 0) =~= current);
    while k < l.removed_members.len()
        invariant
            k <= l.removed_members@.len(),
            removed == l.removed_members.deep_view(),
            removed == l@.removed_members,
            anchors.deep_view() == current + former_members(index@, l@, id@, strand@, k as int),
        decreases l.removed_members@.len() - k,
    {
        let (owner, member) = (&l.removed_members[k].0, &l.removed_members[k].1);
        assert(removed[k as int] == (owner@, member@));
        if same_text(owner.as_str(), id.as_str()) {
            match list_member(index, l, id, strand, member) {
                Some(anchor) => {
                    push_item(&mut anchors, anchor);
                    assert(anchors.deep_view() =~= current + former_members(
                        index@,
                        l@,
                        id@,
                        strand@,
                        k + 1,
                    ));
                },
                None => {},
            }
        }
        k += 1;
    }
    AffectedStrand {
        id: id.clone(),
        intent: strand.intent.clone(),
        direct: l.direct.contains(id.as_str()),
        anchors: deduped_anchors(sorted_anchors(anchors)),
    }
}

/// Strands as they are listed.
fn list_strands(index: &Index, l: &Listing<'_>, active: &StringSet) -> (r: Vec<AffectedStrand>)
    ensures
        r.deep_view() == listed_strands(
            index@,
            l@,
            ordered(active@),
            ordered(active@).len() as int,
        ),
{
    let n: usize = active.len();
    let mut out: Vec<AffectedStrand> = Vec::new();
    let mut i: usize = 0;
    assert(out.deep_view() =~= seq![]);
    while i < n
        invariant
            i <= n,
            n == ordered(active@).len(),
            out.deep_view() == listed_strands(index@, l@, ordered(active@), i as int),
        decreases n - i,
    {
        let id = active.item_at(i);
        match index.strands.get(id.as_str()) {
            Some(strand) => {
                push_item(&mut out, list_strand(index, l, id, &strand.value));
            },
            None => match l.removed_strands.get(id.as_str()) {
                Some(strand) => {
                    push_item(&mut out, list_strand(index, l, id, strand));
                },
                None => {},
            },
        }
        i += 1;
    }
    out
}

/// The names of the first `n` listed anchors.
pub open spec fn anchor_ids(anchors: Seq<AffectedAnchorView>, n: int) -> Set<Seq<char>>
    decreases n,
{
    if n <= 0 {
        Set::empty()
    } else {
        anchor_ids(anchors, n - 1).insert(anchors[n - 1].id)
    }
}

/// The names of the anchors that are listed in the first `n` strands.
pub open spec fn represented_ids(strands: Seq<AffectedStrandView>, n: int) -> Set<Seq<char>>
    decreases n,
{
    if n <= 0 {
        Set::empty()
    } else {
        represented_ids(strands, n - 1).union(
            anchor_ids(strands[n - 1].anchors, strands[n - 1].anchors.len() as int),
        )
    }
}

/// The names of the anchors that are listed in strands.
fn represented(strands: &Vec<AffectedStrand>) -> (r: StringSet)
    ensures
        r@ == represented_ids(strands.deep_view(), strands@.len() as int),
{
    let mut out = StringSet::new();
    let ghost all = strands.deep_view();
    let mut i: usize = 0;
    while i < strands.len()
        invariant
            i <= strands@.len(),
            all == strands.deep_view(),
            out@ == represented_ids(all, i as int),
        decreases strands@.len() - i,
    {
        let strand = &strands[i];
        assert(all[i as int] == strand@);
        let ghost before = out@;
        let mut k: usize = 0;
        assert(before.union(anchor_ids(strand@.anchors, 0)) =~= before);
        while k < strand.anchors.len()
            invariant
                k <= strand.anchors@.len(),
                out@ == before.union(anchor_ids(strand@.anchors, k as int)),
            decreases strand.anchors@.len() - k,
        {
            assert(strand@.anchors[k as int] == strand.anchors@[k as int]@);
            let _ = out.insert(strand.anchors[k].id.clone());
            assert(before.union(anchor_ids(strand@.anchors, k + 1)) =~= before.union(
                anchor_ids(strand@.anchors, k as int),
            ).insert(strand@.anchors[k as int].id));
            k += 1;
        }
        i += 1;
    }
    out
}

/// The anchors among the first `n` that are reached and not listed in a strand.
pub open spec fn related_list(
    index: IndexView,
    removed: Map<Seq<char>, AnchorView>,
    reasons: Map<Seq<char>, AnchorReasonView>,
    shown: Set<Seq<char>>,
    n: int,
) -> Seq<AffectedAnchorView>
    decreases n,
{
    if n <= 0 {
        seq![]
    } else {
        let before = related_list(index, removed, reasons, shown, n - 1);
        let id = ordered(reasons.dom())[n - 1];
        if shown.contains(id) {
            before
        } else {
            before.push(
                AffectedAnchorView {
                    id,
                    reason: reasons[id].reason,
                    direct: reasons[id].direct,
                    role: None,
                    anchor: known_anchor(index, removed, id),
                },
            )
        }
    }
}

/// The anchors that are reached and not listed in a strand.
fn list_related(
    index: &Index,
    removed: &StringMap<Anchor>,
    reasons: &StringMap<AnchorReason>,
    shown: &StringSet,
) -> (r: Vec<AffectedAnchor>)
    ensures
        r.deep_view() == related_list(
            index@,
            removed@,
            reasons@,
            shown@,
            ordered(reasons@.dom()).len() as int,
        ),
{
    let n: usize = reasons.len();
    let mut out: Vec<AffectedAnchor> = Vec::new();
    let mut i: usize = 0;
    assert(out.deep_view() =~= seq![]);
    while i < n
        invariant
            i <= n,
            n == ordered(reasons@.dom()).len(),
            out.deep_view() == related_list(index@, removed@, reasons@, shown@, i as int),
        decreases n - i,
    {
        let id = reasons.key_at(i);
        if !shown.contains(id.as_str()) {
            let why = reasons.value_at(i).duplicate();
            push_item(
                &mut out,
                AffectedAnchor {
                    id: id.clone(),
                    reason: why.reason,
                    direct: why.direct,
                    role: None,
                    anchor: find_anchor(index, removed, id.as_str()),
                },
            );
        }
        i += 1;
    }
    out
}

/// The changed files among the first `n` that touch nothing.
pub open spec fn unmatched_list(files: Seq<ChangedFileView>, matched: Set<Seq<char>>, n: int) -> Seq<
    Seq<char>,
>
    decreases n,
{
    if n <= 0 {
        seq![]
    } else if matched.contains(files[n - 1].path) {
        unmatched_list(files, matched, n - 1)
    } else {
        unmatched_list(files, matched, n - 1).push(files[n - 1].path)
    }
}

/// The changed files that touch nothing.
fn list_unmatched(changes: &ChangeSet, matched: &StringSet) -> (r: Vec<String>)
    ensures
        r.deep_view() == unmatched_list(changes@.files, matched@, changes@.files.len() as int),
{
    let mut out: Vec<String> = Vec::new();
    let mut i: usize = 0;
    assert(out.deep_view() =~= seq![]);
    while i < changes.files.len()
        invariant
            i <= changes.files@.len(),
            out.deep_view() == unmatched_list(changes@.files, matched@, i as int),
        decreases changes.files@.len() - i,
    {
        assert(changes@.files[i as int] == changes.files@[i as int]@);
        if !matched.contains(changes.files[i].path.as_str()) {
            push_item(&mut out, changes.files[i].path.clone());
        }
        i += 1;
    }
    out
}

/// Strands with those of the first `n` memberships whose anchor is among some.
pub open spec fn with_strands_of(
    index: IndexView,
    anchors: Set<Seq<char>>,
    strands: Set<Seq<char>>,
    n: int,
) -> Set<Seq<char>>
    decreases n,
{
    if n <= 0 {
        strands
    } else {
        let before = with_strands_of(index, anchors, strands, n - 1);
        let m = index.memberships[n - 1];
        if anchors.contains(m.member.anchor) {
            with_strand(before, m.strand)
        } else {
            before
        }
    }
}

/// Adds the strands of memberships whose anchor is among some.
fn add_strands_of(index: &Index, anchors: &StringSet, strands: &mut StringSet)
    ensures
        final(strands)@ == with_strands_of(
            index@,
            anchors@,
            old(strands)@,
            index@.memberships.len() as int,
        ),
{
    let ghost start = strands@;
    let mut i: usize = 0;
    while i < index.memberships.len()
        invariant
            i <= index.memberships@.len(),
            strands@ == with_strands_of(index@, anchors@, start, i as int),
        decreases index.memberships@.len() - i,
    {
        let m = &index.memberships[i];
        assert(index@.memberships[i as int] == m@);
        if anchors.contains(m.member.anchor.as_str()) {
            match &m.strand {
                Some(strand) => {
                    let _ = strands.insert(strand.clone());
                },
                None => {},
            }
        }
        i += 1;
    }
}

/// Whether a strand is asked for that may have been taken away.
pub open spec fn is_wanted(
    index: IndexView,
    removed: Map<Seq<char>, StrandView>,
    id: Seq<char>,
    tags: Set<Seq<char>>,
) -> bool {
    is_selected(index, id, tags) || (removed.contains_key(id) && has_all(removed[id].tags, tags))
}

/// The strands that are asked for.
pub open spec fn wanted_strands(
    index: IndexView,
    removed: Map<Seq<char>, StrandView>,
    strands: Set<Seq<char>>,
    tags: Set<Seq<char>>,
) -> Set<Seq<char>> {
    strands.filter(|id: Seq<char>| is_wanted(index, removed, id, tags))
}

/// The strands that are asked for.
fn keep_wanted(
    index: &Index,
    removed: &StringMap<Strand>,
    strands: &StringSet,
    tags: &StringSet,
) -> (r: StringSet)
    ensures
        r@ == wanted_strands(index@, removed@, strands@, tags@),
{
    let n: usize = strands.len();
    let ghost all = ordered(strands@);
    let mut out = StringSet::new();
    let mut i: usize = 0;
    assert(wanted_strands(index@, removed@, all.take(0).to_set(), tags@) =~= Set::empty());
    while i < n
        invariant
            i <= n,
            n == all.len(),
            all == ordered(strands@),
            all.to_set() == strands@,
            out@ == wanted_strands(index@, removed@, all.take(i as int).to_set(), tags@),
        decreases n - i,
    {
        let id = strands.item_at(i);
        proof {
            crate::collections::lemma_take_set(all, i as int);
        }
        let mut wanted = strand_selected(index, id.as_str(), tags);
        if !wanted {
            wanted = match removed.get(id.as_str()) {
                Some(strand) => carries_all(&strand.tags, tags),
                None => false,
            };
        }
        if wanted {
            let _ = out.insert(id.clone());
        }
        assert(out@ =~= wanted_strands(index@, removed@, all.take(i + 1).to_set(), tags@));
        i += 1;
    }
    assert(all.take(n as int) =~= all);
    out
}

/// The greatest depth that the policies of the first `n` strands ask for.
pub open spec fn policy_depth(index: IndexView, ids: Seq<Seq<char>>, n: int) -> Option<usize>
    decreases n,
{
    if n <= 0 {
        None
    } else {
        let before = policy_depth(index, ids, n - 1);
        if index.strands.contains_key(ids[n - 1]) {
            match index.strands[ids[n - 1]].value.on_change {
                Some(policy) => match (policy.depth, before) {
                    (Some(depth), Some(other)) => Some(
                        if depth >= other {
                            depth
                        } else {
                            other
                        },
                    ),
                    (Some(depth), None) => Some(depth),
                    (None, _) => before,
                },
                None => before,
            }
        } else {
            before
        }
    }
}

/// The greatest depth that the policies of strands ask for.
fn depth_of_policies(index: &Index, strands: &StringSet) -> (r: Option<usize>)
    ensures
        r == policy_depth(index@, ordered(strands@), ordered(strands@).len() as int),
{
    let n: usize = strands.len();
    let mut best: Option<usize> = None;
    let mut i: usize = 0;
    while i < n
        invariant
            i <= n,
            n == ordered(strands@).len(),
            best == policy_depth(index@, ordered(strands@), i as int),
        decreases n - i,
    {
        match index.strands.get(strands.item_at(i).as_str()) {
            Some(strand) => match &strand.value.on_change {
                Some(policy) => {
                    best = match (policy.depth, best) {
                        (Some(depth), Some(other)) => Some(
                            if depth >= other {
                                depth
                            } else {
                                other
                            },
                        ),
                        (Some(depth), None) => Some(depth),
                        (None, _) => best,
                    };
                },
                None => {},
            },
            None => {},
        }
        i += 1;
    }
    best
}

/// Whether optional members are reached.
pub open spec fn reaches_optional(options: AffectedOptionsView, config: ConfigView) -> bool {
    match options.include_optional {
        Some(wanted) => wanted,
        None => config.traversal.include_optional_members,
    }
}

/// The kinds of relations that are followed.
pub open spec fn followed_kinds(options: AffectedOptionsView, config: ConfigView) -> Set<Seq<char>> {
    if options.relations == Set::<Seq<char>>::empty() {
        config.traversal.relation_kinds
    } else {
        options.relations
    }
}

/// The strands that a change touches directly: those that are touched themselves and those
/// with a member that is, as far as they are asked for.
pub open spec fn touched_strands(
    index: IndexView,
    e: EvidenceView,
    tags: Set<Seq<char>>,
) -> Set<Seq<char>> {
    wanted_strands(
        index,
        e.removed_strands,
        with_strands_of(index, e.reasons.dom(), e.seeds, index.memberships.len() as int),
        tags,
    )
}

/// How many relations a change follows: as asked for, else as far as a policy of a touched
/// strand says, else as configured.
pub open spec fn affected_depth(
    index: IndexView,
    config: ConfigView,
    options: AffectedOptionsView,
    direct: Set<Seq<char>>,
) -> usize {
    match options.depth {
        Some(depth) => depth,
        None => match policy_depth(index, ordered(direct), ordered(direct).len() as int) {
            Some(depth) => depth,
            None => config.traversal.depth,
        },
    }
}

/// What a change touches and the members of the strands that it touches.
pub open spec fn reach_start(
    index: IndexView,
    e: EvidenceView,
    direct: Set<Seq<char>>,
    include_optional: bool,
) -> ReachView {
    let reasons = with_strand_members(
        index,
        ordered(direct),
        include_optional,
        ordered(direct).len() as int,
        e.reasons,
    );
    ReachView { reasons, frontier: reasons.dom(), active: direct, expanded: direct }
}

/// How a change reaches things: through the relations of the index that it follows and
/// through those that it takes away.
pub open spec fn affected_route(
    index: IndexView,
    config: ConfigView,
    options: AffectedOptionsView,
    e: EvidenceView,
) -> RouteView {
    let filter = followed_kinds(options, config);
    RouteView {
        edges: followed_edges(
            index,
            filter,
            options.relations == Set::<Seq<char>>::empty(),
            index.relations.len() as int,
        ) + followed_removed(e.removed_relations, filter, e.removed_relations.len() as int),
        tags: options.tags,
        include_optional: reaches_optional(options, config),
        expands: true,
    }
}

/// What a change reaches, given what it touches directly.
pub open spec fn affected_reach(
    index: IndexView,
    config: ConfigView,
    options: AffectedOptionsView,
    e: EvidenceView,
) -> ReachView {
    let direct = touched_strands(index, e, options.tags);
    reach(
        index,
        affected_route(index, config, options, e),
        reach_start(index, e, direct, reaches_optional(options, config)),
        affected_depth(index, config, options, direct) as nat,
    )
}

/// What a change reaches, given what it touches directly.
pub open spec fn affected_listing(
    index: IndexView,
    config: ConfigView,
    options: AffectedOptionsView,
    e: EvidenceView,
) -> ListingView {
    ListingView {
        reasons: affected_reach(index, config, options, e).reasons,
        removed_anchors: e.removed_anchors,
        removed_strands: e.removed_strands,
        removed_members: e.removed_members,
        direct: touched_strands(index, e, options.tags),
        expanded: None,
        include_optional: reaches_optional(options, config),
    }
}

/// The context of a change, given what it touches directly.
pub open spec fn packet_of_evidence(
    index: IndexView,
    changes: ChangeSetView,
    config: ConfigView,
    options: AffectedOptionsView,
    e: EvidenceView,
) -> ContextPacketView {
    let reached = affected_reach(index, config, options, e);
    let ids = ordered(reached.active);
    let strands = listed_strands(
        index,
        affected_listing(index, config, options, e),
        ids,
        ids.len() as int,
    );
    ContextPacketView {
        changes,
        strands,
        related_anchors: related_list(
            index,
            e.removed_anchors,
            reached.reasons,
            represented_ids(strands, strands.len() as int),
            ordered(reached.reasons.dom()).len() as int,
        ),
        unmatched_files: unmatched_list(changes.files, e.matched, changes.files.len() as int),
        diagnostics: index.diagnostics,
    }
}

/// The context of a change, given what deleted metadata files said.
pub open spec fn affected_packet(
    index: IndexView,
    changes: ChangeSetView,
    parsed: Map<Seq<char>, ParsedMetadataView>,
    config: ConfigView,
    options: AffectedOptionsView,
) -> ContextPacketView {
    packet_of_evidence(
        index,
        changes,
        config,
        options,
        direct_evidence(index, changes, parsed, config.annotations),
    )
}

/// The context of a change: the strands that it reaches, with their members. `parsed` holds
/// what the documents of [`removed_documents`] said, as far as they could be read. Markers
/// must not be empty.
pub fn affected(
    index: &Index,
    changes: ChangeSet,
    parsed: &StringMap<ParsedMetadata>,
    config: &Config,
    options: &AffectedOptions,
) -> (r: ContextPacket)
    requires
        markers_are_filled(config@.annotations),
    ensures
        r@ == affected_packet(index@, changes@, parsed@, config@, options@),
{
    let e = gather_evidence(index, &changes, parsed, &config.annotations);
    let ghost ev = e@;
    let touched = e.reasons.key_set();
    let mut candidates = e.seeds.duplicate();
    add_strands_of(index, &touched, &mut candidates);
    let direct = keep_wanted(index, &e.removed_strands, &candidates, &options.tags);
    let include_optional: bool = match options.include_optional {
        Some(wanted) => wanted,
        None => config.traversal.include_optional_members,
    };
    let mut reasons = e.reasons.duplicate();
    expand_strand_members(index, &direct, &mut reasons, include_optional);
    let depth: usize = match options.depth {
        Some(depth) => depth,
        None => match depth_of_policies(index, &direct) {
            Some(depth) => depth,
            None => config.traversal.depth,
        },
    };
    let unfiltered = options.relations.is_empty();
    let filter: &StringSet = if unfiltered {
        &config.traversal.relation_kinds
    } else {
        &options.relations
    };
    let mut edges = collect_edges(index, filter, unfiltered);
    add_removed_edges(&mut edges, &e.removed_relations, filter);
    let frontier = reasons.key_set();
    let start = Reach {
        reasons,
        frontier,
        active: direct.duplicate(),
        expanded: direct.duplicate(),
    };
    let reached = follow(index, &edges, &options.tags, include_optional, true, depth, start);
    assert(reached@ == affected_reach(index@, config@, options@, ev));
    let listing = Listing {
        reasons: &reached.reasons,
        removed_anchors: &e.removed_anchors,
        removed_strands: &e.removed_strands,
        removed_members: &e.removed_members,
        direct: &direct,
        expanded: None,
        include_optional,
    };
    assert(listing@ == affected_listing(index@, config@, options@, ev));
    let strands = list_strands(index, &listing, &reached.active);
    let shown = represented(&strands);
    let related_anchors = list_related(index, &e.removed_anchors, &reached.reasons, &shown);
    let unmatched_files = list_unmatched(&changes, &e.matched);
    ContextPacket {
        changes,
        strands,
        related_anchors,
        unmatched_files,
        diagnostics: index.diagnostics.duplicate(),
    }
}

/// Strands with those of the first `n` memberships whose anchor is among the seeds and was
/// not found by a search alone.
pub open spec fn with_exact_strands(
    index: IndexView,
    seeds: ContextSeedsView,
    n: int,
) -> Set<Seq<char>>
    decreases n,
{
    if n <= 0 {
        seeds.strands.dom()
    } else {
        let before = with_exact_strands(index, seeds, n - 1);
        let m = index.memberships[n - 1];
        if seeds.anchors.contains_key(m.member.anchor) && !seeds.search_anchors.contains(
            m.member.anchor,
        ) {
            with_strand(before, m.strand)
        } else {
            before
        }
    }
}

/// Adds the strands of memberships whose anchor is among the seeds and was not found by a
/// search alone.
fn exact_strands(index: &Index, seeds: &ContextSeeds) -> (r: StringSet)
    ensures
        r@ == with_exact_strands(index@, seeds@, index@.memberships.len() as int),
{
    let mut out = seeds.strands.key_set();
    let mut i: usize = 0;
    while i < index.memberships.len()
        invariant
            i <= index.memberships@.len(),
            out@ == with_exact_strands(index@, seeds@, i as int),
        decreases index.memberships@.len() - i,
    {
        let m = &index.memberships[i];
        assert(index@.memberships[i as int] == m@);
        if seeds.anchors.contains_key(m.member.anchor.as_str()) && !seeds.search_anchors.contains(
            m.member.anchor.as_str(),
        ) {
            match &m.strand {
                Some(strand) => {
                    let _ = out.insert(strand.clone());
                },
                None => {},
            }
        }
        i += 1;
    }
    out
}

/// The reasons of seeds.
pub open spec fn seed_reasons(anchors: Map<Seq<char>, Seq<char>>) -> Map<
    Seq<char>,
    AnchorReasonView,
> {
    anchors.map_values(|reason: Seq<char>| directly(reason))
}

/// The reasons of seeds.
fn reasons_of_seeds(anchors: &StringMap<String>) -> (r: StringMap<AnchorReason>)
    ensures
        r@ == seed_reasons(anchors@),
{
    let n: usize = anchors.len();
    let ghost keys = ordered(anchors@.dom());
    let mut out: StringMap<AnchorReason> = StringMap::new();
    let mut i: usize = 0;
    while i < n
        invariant
            i <= n,
            n == keys.len(),
            keys == ordered(anchors@.dom()),
            keys.to_set() == anchors@.dom(),
            out@.dom() == keys.take(i as int).to_set(),
            forall|x: Seq<char>| #[trigger]
                out@.contains_key(x) ==> out@[x] == directly(anchors@[x]),
        decreases n - i,
    {
        out.insert(
            anchors.key_at(i).clone(),
            AnchorReason { reason: anchors.value_at(i).clone(), direct: true },
        );
        proof {
            crate::collections::lemma_take_set(keys, i as int);
            assert(out@.dom() =~= keys.take(i + 1).to_set());
        }
        i += 1;
    }
    assert(keys.take(n as int) =~= keys);
    assert(out@ =~= seed_reasons(anchors@));
    out
}

/// The texts of seeds among the first `n`, each name followed by its reason.
pub open spec fn seed_text(seeds: Map<Seq<char>, Seq<char>>, n: int) -> Seq<char>
    decreases n,
{
    if n <= 0 {
        seq![]
    } else {
        let id = ordered(seeds.dom())[n - 1];
        seed_text(seeds, n - 1) + id + seeds[id]
    }
}

/// Appends the texts of seeds.
fn push_seed_text(out: &mut String, seeds: &StringMap<String>)
    ensures
        final(out)@ == old(out)@ + seed_text(seeds@, ordered(seeds@.dom()).len() as int),
{
    let n: usize = seeds.len();
    let ghost start = out@;
    let mut i: usize = 0;
    assert(start + seed_text(seeds@, 0) =~= start);
    while i < n
        invariant
            i <= n,
            n == ordered(seeds@.dom()).len(),
            out@ == start + seed_text(seeds@, i as int),
        decreases n - i,
    {
        out.push_str(seeds.key_at(i).as_str());
        out.push_str(seeds.value_at(i).as_str());
        assert(out@ =~= start + seed_text(seeds@, i + 1));
        i += 1;
    }
}

/// What the context of seeds is called.
pub open spec fn seed_description(seeds: ContextSeedsView) -> Seq<char> {
    if seeds.description.len() == 0 {
        "explicit graph context"@
    } else {
        seeds.description
    }
}

/// The hash that tells the context of some seeds from that of others.
pub open spec fn seed_fingerprint(seeds: ContextSeedsView) -> Seq<char> {
    crate::digest::text_hash(
        seed_description(seeds) + seed_text(
            seeds.anchors,
            ordered(seeds.anchors.dom()).len() as int,
        ) + seed_text(seeds.strands, ordered(seeds.strands.dom()).len() as int),
    )
}

/// How things are reached from seeds. Where a search found some of them, the members of
/// strands that are met on the way are not reached.
pub open spec fn seed_route(
    index: IndexView,
    config: ConfigView,
    options: AffectedOptionsView,
    seeds: ContextSeedsView,
) -> RouteView {
    RouteView {
        edges: followed_edges(
            index,
            followed_kinds(options, config),
            false,
            index.relations.len() as int,
        ),
        tags: options.tags,
        include_optional: reaches_optional(options, config),
        expands: seeds.search_anchors == Set::<Seq<char>>::empty(),
    }
}

/// Where reaching from seeds starts: at the seeds, and at the members of the strands that
/// are seeds or have one that no search alone found.
pub open spec fn seed_start(
    index: IndexView,
    config: ConfigView,
    options: AffectedOptionsView,
    seeds: ContextSeedsView,
) -> ReachView {
    let expanded = with_exact_strands(index, seeds, index.memberships.len() as int);
    let reasons = with_strand_members(
        index,
        ordered(expanded),
        reaches_optional(options, config),
        ordered(expanded).len() as int,
        seed_reasons(seeds.anchors),
    );
    ReachView {
        reasons,
        frontier: reasons.dom(),
        active: wanted_strands(
            index,
            Map::empty(),
            with_strands_of(
                index,
                seeds.anchors.dom(),
                seeds.strands.dom(),
                index.memberships.len() as int,
            ),
            options.tags,
        ),
        expanded,
    }
}

/// What is reached from seeds.
pub open spec fn seed_reach(
    index: IndexView,
    config: ConfigView,
    options: AffectedOptionsView,
    seeds: ContextSeedsView,
) -> ReachView {
    reach(
        index,
        seed_route(index, config, options, seeds),
        seed_start(index, config, options, seeds),
        match options.depth {
            Some(depth) => depth as nat,
            None => config.traversal.depth as nat,
        },
    )
}

/// How what is reached from seeds is listed.
pub open spec fn seed_listing(
    index: IndexView,
    config: ConfigView,
    options: AffectedOptionsView,
    seeds: ContextSeedsView,
) -> ListingView {
    let reached = seed_reach(index, config, options, seeds);
    ListingView {
        reasons: reached.reasons,
        removed_anchors: Map::empty(),
        removed_strands: Map::empty(),
        removed_members: seq![],
        direct: seeds.strands.dom(),
        expanded: Some(reached.expanded),
        include_optional: reaches_optional(options, config),
    }
}

/// The context of seeds.
pub open spec fn seed_packet(
    index: IndexView,
    seeds: ContextSeedsView,
    config: ConfigView,
    options: AffectedOptionsView,
) -> ContextPacketView {
    let reached = seed_reach(index, config, options, seeds);
    let ids = ordered(reached.active);
    let strands = listed_strands(
        index,
        seed_listing(index, config, options, seeds),
        ids,
        ids.len() as int,
    );
    ContextPacketView {
        changes: ChangeSetView {
            description: seed_description(seeds),
            fingerprint: seed_fingerprint(seeds),
            files: seq![],
            removed_lines: seq![],
        },
        strands,
        related_anchors: related_list(
            index,
            Map::empty(),
            reached.reasons,
            represented_ids(strands, strands.len() as int),
            ordered(reached.reasons.dom()).len() as int,
        ),
        unmatched_files: seq![],
        diagnostics: index.diagnostics,
    }
}

/// The context of seeds: the strands that are reached from them, with their members.
pub fn context_from_seeds(
    index: &Index,
    seeds: &ContextSeeds,
    config: &Config,
    options: &AffectedOptions,
) -> (r: ContextPacket)
    ensures
        r@ == seed_packet(index@, seeds@, config@, options@),
{
    let include_optional: bool = match options.include_optional {
        Some(wanted) => wanted,
        None => config.traversal.include_optional_members,
    };
    let seed_anchors = seeds.anchors.key_set();
    let mut candidates = seeds.strands.key_set();
    add_strands_of(index, &seed_anchors, &mut candidates);
    let no_strands: StringMap<Strand> = StringMap::new();
    let no_anchors: StringMap<Anchor> = StringMap::new();
    let no_members: Vec<(String, Member)> = Vec::new();
    assert(no_members.deep_view() =~= seq![]);
    let active = keep_wanted(index, &no_strands, &candidates, &options.tags);
    let direct = seeds.strands.key_set();
    let expanded = exact_strands(index, seeds);
    let mut reasons = reasons_of_seeds(&seeds.anchors);
    expand_strand_members(index, &expanded, &mut reasons, include_optional);
    let depth: usize = match options.depth {
        Some(depth) => depth,
        None => config.traversal.depth,
    };
    let filter: &StringSet = if options.relations.is_empty() {
        &config.traversal.relation_kinds
    } else {
        &options.relations
    };
    let edges = collect_edges(index, filter, false);
    let frontier = reasons.key_set();
    let start = Reach { reasons, frontier, active, expanded };
    assert(start@ == seed_start(index@, config@, options@, seeds@));
    let expands = seeds.search_anchors.is_empty();
    let reached = follow(index, &edges, &options.tags, include_optional, expands, depth, start);
    assert(reached@ == seed_reach(index@, config@, options@, seeds@));
    let listing = Listing {
        reasons: &reached.reasons,
        removed_anchors: &no_anchors,
        removed_strands: &no_strands,
        removed_members: &no_members,
        direct: &direct,
        expanded: Some(&reached.expanded),
        include_optional,
    };
    assert(listing@ == seed_listing(index@, config@, options@, seeds@));
    let strands = list_strands(index, &listing, &reached.active);
    let shown = represented(&strands);
    let related_anchors = list_related(index, &no_anchors, &reached.reasons, &shown);
    let description = if seeds.description.as_str().is_empty() {
        "explicit graph context".to_owned()
    } else {
        seeds.description.clone()
    };
    let mut text = description.clone();
    push_seed_text(&mut text, &seeds.anchors);
    push_seed_text(&mut text, &seeds.strands);
    let fingerprint = crate::digest::hash_text(text.as_str());
    let packet = ContextPacket {
        changes: ChangeSet {
            description,
            fingerprint,
            files: Vec::new(),
            removed_lines: Vec::new(),
        },
        strands,
        related_anchors,
        unmatched_files: Vec::new(),
        diagnostics: index.diagnostics.duplicate(),
    };
    assert(packet@.changes.files =~= seq![]);
    assert(packet@.changes.removed_lines =~= seq![]);
    assert(packet@.unmatched_files =~= seq![]);
    packet
}

/// The position of the first anchor from `i` on with a name and a role, or the length.
pub open spec fn anchor_position(
    anchors: Seq<AffectedAnchorView>,
    id: Seq<char>,
    role: Option<Seq<char>>,
    i: int,
) -> int
    decreases anchors.len() - i,
{
    if i < 0 || i >= anchors.len() {
        anchors.len() as int
    } else if anchors[i].id == id && anchors[i].role == role {
        i
    } else {
        anchor_position(anchors, id, role, i + 1)
    }
}

/// Two listings of one anchor as one: a direct reason replaces one that is not, and other
/// reasons are put together unless one holds the other.
pub open spec fn joined_anchor(
    existing: AffectedAnchorView,
    incoming: AffectedAnchorView,
) -> AffectedAnchorView {
    AffectedAnchorView {
        reason: if incoming.direct && !existing.direct {
            incoming.reason
        } else if incoming.reason != existing.reason && !contains(
            existing.reason,
            incoming.reason,
        ) {
            existing.reason + "; "@ + incoming.reason
        } else {
            existing.reason
        },
        direct: existing.direct || incoming.direct,
        anchor: if existing.anchor is None {
            incoming.anchor
        } else {
            existing.anchor
        },
        ..existing
    }
}

/// Listed anchors with one more.
pub open spec fn with_anchor(anchors: Seq<AffectedAnchorView>, incoming: AffectedAnchorView) -> Seq<
    AffectedAnchorView,
> {
    let at = anchor_position(anchors, incoming.id, incoming.role, 0);
    if at < anchors.len() {
        anchors.update(at, joined_anchor(anchors[at], incoming))
    } else {
        anchors.push(incoming)
    }
}

/// The position of the first anchor with the name and the role of another, or the length.
fn find_anchor_position(anchors: &Vec<AffectedAnchor>, wanted: &AffectedAnchor) -> (r: usize)
    ensures
        r == anchor_position(anchors.deep_view(), wanted@.id, wanted@.role, 0),
        r <= anchors@.len(),
{
    let mut i: usize = 0;
    let ghost all = anchors.deep_view();
    while i < anchors.len()
        invariant
            i <= anchors@.len(),
            all == anchors.deep_view(),
            anchor_position(all, wanted@.id, wanted@.role, 0) == anchor_position(
                all,
                wanted@.id,
                wanted@.role,
                i as int,
            ),
        decreases anchors@.len() - i,
    {
        assert(all[i as int] == anchors@[i as int]@);
        if same_text(anchors[i].id.as_str(), wanted.id.as_str()) && same_option(
            &anchors[i].role,
            &wanted.role,
        ) {
            return i;
        }
        i += 1;
    }
    i
}

/// Adds a listed anchor to others.
fn merge_anchor(anchors: &mut Vec<AffectedAnchor>, incoming: AffectedAnchor)
    ensures
        final(anchors).deep_view() == with_anchor(old(anchors).deep_view(), incoming@),
{
    let at = find_anchor_position(anchors, &incoming);
    if at < anchors.len() {
        let ghost before = anchors.deep_view();
        assert(before[at as int] == anchors@[at as int]@);
        let existing = &anchors[at];
        let reason = if incoming.direct && !existing.direct {
            incoming.reason.clone()
        } else if !same_text(incoming.reason.as_str(), existing.reason.as_str())
            && !contains_text(existing.reason.as_str(), incoming.reason.as_str()) {
            let mut both = existing.reason.clone();
            both.push_str("; ");
            both.push_str(incoming.reason.as_str());
            both
        } else {
            existing.reason.clone()
        };
        let anchor = if existing.anchor.is_none() {
            incoming.anchor.duplicate()
        } else {
            existing.anchor.duplicate()
        };
        let joined = AffectedAnchor {
            id: existing.id.clone(),
            reason,
            direct: existing.direct || incoming.direct,
            role: existing.role.duplicate(),
            anchor,
        };
        let ghost view = joined@;
        assert(view == joined_anchor(before[at as int], incoming@));
        anchors.set(at, joined);
        assert(anchors.deep_view() =~= before.update(at as int, view));
    } else {
        push_item(anchors, incoming);
    }
}

/// Listed anchors with the first `n` of others.
pub open spec fn with_anchors(
    anchors: Seq<AffectedAnchorView>,
    more: Seq<AffectedAnchorView>,
    n: int,
) -> Seq<AffectedAnchorView>
    decreases n,
{
    if n <= 0 {
        anchors
    } else {
        with_anchor(with_anchors(anchors, more, n - 1), more[n - 1])
    }
}

/// Adds listed anchors to others.
fn merge_anchors(anchors: &mut Vec<AffectedAnchor>, more: &Vec<AffectedAnchor>)
    ensures
        final(anchors).deep_view() == with_anchors(
            old(anchors).deep_view(),
            more.deep_view(),
            more@.len() as int,
        ),
{
    let ghost start = anchors.deep_view();
    let ghost all = more.deep_view();
    let mut i: usize = 0;
    while i < more.len()
        invariant
            i <= more@.len(),
            all == more.deep_view(),
            anchors.deep_view() == with_anchors(start, all, i as int),
        decreases more@.len() - i,
    {
        assert(all[i as int] == more@[i as int]@);
        merge_anchor(anchors, more[i].duplicate());
        i += 1;
    }
}

/// The position of the first strand from `i` on with a name, or the length.
pub open spec fn strand_position(strands: Seq<AffectedStrandView>, id: Seq<char>, i: int) -> int
    decreases strands.len() - i,
{
    if i < 0 || i >= strands.len() {
        strands.len() as int
    } else if strands[i].id == id {
        i
    } else {
        strand_position(strands, id, i + 1)
    }
}

/// Two listings of one strand as one.
pub open spec fn joined_strand(
    existing: AffectedStrandView,
    incoming: AffectedStrandView,
) -> AffectedStrandView {
    AffectedStrandView {
        id: existing.id,
        intent: if existing.intent.len() == 0 {
            incoming.intent
        } else {
            existing.intent
        },
        direct: existing.direct || incoming.direct,
        anchors: sort_anchors(
            with_anchors(existing.anchors, incoming.anchors, incoming.anchors.len() as int),
        ),
    }
}

/// Listed strands with one more.
pub open spec fn with_listed_strand(
    strands: Seq<AffectedStrandView>,
    incoming: AffectedStrandView,
) -> Seq<AffectedStrandView> {
    let at = strand_position(strands, incoming.id, 0);
    if at < strands.len() {
        strands.update(at, joined_strand(strands[at], incoming))
    } else {
        strands.push(incoming)
    }
}

/// Adds a listed strand to others.
fn merge_strand(strands: &mut Vec<AffectedStrand>, incoming: &AffectedStrand)
    ensures
        final(strands).deep_view() == with_listed_strand(old(strands).deep_view(), incoming@),
{
    let ghost before = strands.deep_view();
    let mut at: usize = 0;
    while at < strands.len()
        invariant
            at <= strands@.len(),
            before == strands.deep_view(),
            strand_position(before, incoming@.id, 0) == strand_position(
                before,
                incoming@.id,
                at as int,
            ),
        ensures
            at <= strands@.len(),
            at == strand_position(before, incoming@.id, 0),
        decreases strands@.len() - at,
    {
        assert(before[at as int] == strands@[at as int]@);
        if same_text(strands[at].id.as_str(), incoming.id.as_str()) {
            break;
        }
        at += 1;
    }
    if at < strands.len() {
        assert(before[at as int] == strands@[at as int]@);
        let existing = strands[at].duplicate();
        let ghost known = existing@;
        let mut anchors = existing.anchors;
        merge_anchors(&mut anchors, &incoming.anchors);
        let joined = AffectedStrand {
            id: existing.id,
            intent: if existing.intent.as_str().is_empty() {
                incoming.intent.clone()
            } else {
                existing.intent
            },
            direct: existing.direct || incoming.direct,
            anchors: sorted_anchors(anchors),
        };
        let ghost view = joined@;
        assert(view == joined_strand(known, incoming@));
        strands.set(at, joined);
        assert(strands.deep_view() =~= before.update(at as int, view));
    } else {
        push_item(strands, incoming.duplicate());
    }
}

/// Listed strands with the first `n` of others.
pub open spec fn with_listed_strands(
    strands: Seq<AffectedStrandView>,
    more: Seq<AffectedStrandView>,
    n: int,
) -> Seq<AffectedStrandView>
    decreases n,
{
    if n <= 0 {
        strands
    } else {
        with_listed_strand(with_listed_strands(strands, more, n - 1), more[n - 1])
    }
}

/// A listed strand put behind the last one that does not come after it.
pub open spec fn insert_strand(sorted: Seq<AffectedStrandView>, x: AffectedStrandView) -> Seq<
    AffectedStrandView,
>
    decreases sorted.len(),
{
    if sorted.len() == 0 || !text_less(x.id, sorted.last().id) {
        sorted.push(x)
    } else {
        insert_strand(sorted.drop_last(), x).push(sorted.last())
    }
}

/// Listed strands in the order of their names.
pub open spec fn sort_strands(strands: Seq<AffectedStrandView>) -> Seq<AffectedStrandView>
    decreases strands.len(),
{
    if strands.len() == 0 {
        strands
    } else {
        insert_strand(sort_strands(strands.drop_last()), strands.last())
    }
}

proof fn lemma_insert_strand(sorted: Seq<AffectedStrandView>, x: AffectedStrandView, at: int)
    requires
        0 <= at <= sorted.len(),
        forall|k: int| at <= k < sorted.len() ==> text_less(x.id, (#[trigger] sorted[k]).id),
        at > 0 ==> !text_less(x.id, sorted[at - 1].id),
    ensures
        insert_strand(sorted, x) == sorted.insert(at, x),
    decreases sorted.len(),
{
    if at == sorted.len() {
        assert(sorted.insert(at, x) =~= sorted.push(x));
    } else {
        lemma_insert_strand(sorted.drop_last(), x, at);
        assert(sorted.insert(at, x) =~= sorted.drop_last().insert(at, x).push(sorted.last()));
    }
}

/// Listed strands in the order of their names.
fn sorted_strands(strands: &Vec<AffectedStrand>) -> (r: Vec<AffectedStrand>)
    ensures
        r.deep_view() == sort_strands(strands.deep_view()),
{
    let mut out: Vec<AffectedStrand> = Vec::new();
    let ghost all = strands.deep_view();
    let mut i: usize = 0;
    assert(all.take(0) =~= seq![]);
    assert(out.deep_view() =~= sort_strands(all.take(0)));
    while i < strands.len()
        invariant
            i <= strands@.len(),
            all == strands.deep_view(),
            out.deep_view() == sort_strands(all.take(i as int)),
        decreases strands@.len() - i,
    {
        let x = strands[i].duplicate();
        assert(all[i as int] == x@);
        assert(all.take(i + 1).drop_last() =~= all.take(i as int));
        let ghost before = out.deep_view();
        let mut at: usize = out.len();
        while at > 0
            invariant
                at <= out@.len(),
                before == out.deep_view(),
                forall|k: int|
                    at <= k < before.len() ==> text_less(x@.id, (#[trigger] before[k]).id),
            ensures
                at <= out@.len(),
                forall|k: int|
                    at <= k < before.len() ==> text_less(x@.id, (#[trigger] before[k]).id),
                at > 0 ==> !text_less(x@.id, before[at - 1].id),
            decreases at,
        {
            assert(before[at - 1] == out@[at - 1]@);
            if !text_before(x.id.as_str(), out[at - 1].id.as_str()) {
                break;
            }
            at -= 1;
        }
        proof {
            lemma_insert_strand(before, x@, at as int);
        }
        let ghost view = x@;
        out.insert(at, x);
        assert(out.deep_view() =~= before.insert(at as int, view));
        i += 1;
    }
    assert(all.take(all.len() as int) =~= all);
    out
}

/// The anchors that are not among some names.
pub open spec fn without_shown(
    anchors: Seq<AffectedAnchorView>,
    shown: Set<Seq<char>>,
    n: int,
) -> Seq<AffectedAnchorView>
    decreases n,
{
    if n <= 0 {
        seq![]
    } else if shown.contains(anchors[n - 1].id) {
        without_shown(anchors, shown, n - 1)
    } else {
        without_shown(anchors, shown, n - 1).push(anchors[n - 1])
    }
}

/// The anchors that are not among some names.
fn drop_shown(anchors: &Vec<AffectedAnchor>, shown: &StringSet) -> (r: Vec<AffectedAnchor>)
    ensures
        r.deep_view() == without_shown(anchors.deep_view(), shown@, anchors@.len() as int),
{
    let mut out: Vec<AffectedAnchor> = Vec::new();
    let ghost all = anchors.deep_view();
    let mut i: usize = 0;
    assert(out.deep_view() =~= seq![]);
    while i < anchors.len()
        invariant
            i <= anchors@.len(),
            all == anchors.deep_view(),
            out.deep_view() == without_shown(all, shown@, i as int),
        decreases anchors@.len() - i,
    {
        assert(all[i as int] == anchors@[i as int]@);
        if !shown.contains(anchors[i].id.as_str()) {
            push_item(&mut out, anchors[i].duplicate());
        }
        i += 1;
    }
    out
}

/// Whether two diagnostics are the same.
pub fn same_diagnostic(a: &Diagnostic, b: &Diagnostic) -> (r: bool)
    ensures
        r == (a@ == b@),
{
    let r = a.severity == b.severity && same_text(a.code.as_str(), b.code.as_str()) && same_text(
        a.message.as_str(),
        b.message.as_str(),
    ) && same_option(&a.path, &b.path) && a.line == b.line && same_option(&a.hint, &b.hint);
    assert(a@.line == a.line);
    assert(b@.line == b.line);
    r
}

/// Diagnostics with those among the first `n` of others that are not there yet.
pub open spec fn with_diagnostics(
    diagnostics: Seq<DiagnosticView>,
    more: Seq<DiagnosticView>,
    n: int,
) -> Seq<DiagnosticView>
    decreases n,
{
    if n <= 0 {
        diagnostics
    } else {
        let before = with_diagnostics(diagnostics, more, n - 1);
        if before.contains(more[n - 1]) {
            before
        } else {
            before.push(more[n - 1])
        }
    }
}

/// Whether a diagnostic is among some.
fn has_diagnostic(diagnostics: &Vec<Diagnostic>, wanted: &Diagnostic) -> (r: bool)
    ensures
        r == diagnostics.deep_view().contains(wanted@),
{
    let mut i: usize = 0;
    let ghost all = diagnostics.deep_view();
    while i < diagnostics.len()
        invariant
            i <= diagnostics@.len(),
            all == diagnostics.deep_view(),
            forall|k: int| 0 <= k < i ==> #[trigger] all[k] != wanted@,
        decreases diagnostics@.len() - i,
    {
        assert(all[i as int] == diagnostics@[i as int]@);
        if same_diagnostic(&diagnostics[i], wanted) {
            return true;
        }
        i += 1;
    }
    false
}

/// Adds diagnostics that are not there yet.
fn merge_diagnostics(diagnostics: &mut Vec<Diagnostic>, more: &Vec<Diagnostic>)
    ensures
        final(diagnostics).deep_view() == with_diagnostics(
            old(diagnostics).deep_view(),
            more.deep_view(),
            more@.len() as int,
        ),
{
    let ghost start = diagnostics.deep_view();
    let ghost all = more.deep_view();
    let mut i: usize = 0;
    while i < more.len()
        invariant
            i <= more@.len(),
            all == more.deep_view(),
            diagnostics.deep_view() == with_diagnostics(start, all, i as int),
        decreases more@.len() - i,
    {
        assert(all[i as int] == more@[i as int]@);
        if !has_diagnostic(diagnostics, &more[i]) {
            push_item(diagnostics, more[i].duplicate());
        }
        i += 1;
    }
}

/// Two contexts as one.
pub open spec fn merged_context(
    primary: ContextPacketView,
    additional: ContextPacketView,
) -> ContextPacketView {
    let described = additional.changes.description.len() > 0;
    let strands = sort_strands(
        with_listed_strands(
            primary.strands,
            additional.strands,
            additional.strands.len() as int,
        ),
    );
    let related = with_anchors(
        primary.related_anchors,
        additional.related_anchors,
        additional.related_anchors.len() as int,
    );
    ContextPacketView {
        changes: ChangeSetView {
            description: if described {
                primary.changes.description + "; "@ + additional.changes.description
            } else {
                primary.changes.description
            },
            fingerprint: if described {
                crate::digest::text_hash(
                    primary.changes.fingerprint + ":"@ + additional.changes.fingerprint,
                )
            } else {
                primary.changes.fingerprint
            },
            ..primary.changes
        },
        strands,
        related_anchors: sort_anchors(
            without_shown(
                related,
                represented_ids(strands, strands.len() as int),
                related.len() as int,
            ),
        ),
        unmatched_files: primary.unmatched_files,
        diagnostics: with_diagnostics(
            primary.diagnostics,
            additional.diagnostics,
            additional.diagnostics.len() as int,
        ),
    }
}

/// Two contexts as one.
pub fn merge_context(primary: ContextPacket, additional: ContextPacket) -> (r: ContextPacket)
    ensures
        r@ == merged_context(primary@, additional@),
{
    let mut changes = primary.changes;
    if !additional.changes.description.as_str().is_empty() {
        let mut description = changes.description.clone();
        description.push_str("; ");
        description.push_str(additional.changes.description.as_str());
        let mut both = changes.fingerprint.clone();
        both.push_str(":");
        both.push_str(additional.changes.fingerprint.as_str());
        changes.description = description;
        changes.fingerprint = crate::digest::hash_text(both.as_str());
    }
    let mut strands = primary.strands;
    let ghost start = strands.deep_view();
    let ghost more = additional.strands.deep_view();
    let mut i: usize = 0;
    while i < additional.strands.len()
        invariant
            i <= additional.strands@.len(),
            more == additional.strands.deep_view(),
            strands.deep_view() == with_listed_strands(start, more, i as int),
        decreases additional.strands@.len() - i,
    {
        assert(more[i as int] == additional.strands@[i as int]@);
        merge_strand(&mut strands, &additional.strands[i]);
        i += 1;
    }
    let strands = sorted_strands(&strands);
    let mut related = primary.related_anchors;
    merge_anchors(&mut related, &additional.related_anchors);
    let shown = represented(&strands);
    let related_anchors = sorted_anchors(drop_shown(&related, &shown));
    let mut diagnostics = primary.diagnostics;
    merge_diagnostics(&mut diagnostics, &additional.diagnostics);
    ContextPacket {
        changes,
        strands,
        related_anchors,
        unmatched_files: primary.unmatched_files,
        diagnostics,
    }
}

/// The part of the graph that is walked so far.
#[verifier::ext_equal]
pub ghost struct WalkView {
    /// The anchors.
    pub anchors: Set<Seq<char>>,
    /// The anchors that were met on this level, in order.
    pub next: Seq<Seq<char>>,
    /// The relations, in the order in which they were met.
    pub relations: Seq<IndexedRelationView>,
    /// The ends and kinds of the relations.
    pub keys: Set<EdgeView>,
}

/// The other end of a relation.
pub open spec fn neighbor(relation: RelationView, anchor: Seq<char>) -> Option<Seq<char>> {
    if relation.from == anchor {
        Some(relation.to)
    } else if relation.to == anchor {
        Some(relation.from)
    } else {
        None
    }
}

/// What is walked once the first `n` relations are followed from an anchor.
pub open spec fn walk_relations(
    index: IndexView,
    filter: Set<Seq<char>>,
    anchor: Seq<char>,
    n: int,
    w: WalkView,
) -> WalkView
    decreases n,
{
    if n <= 0 {
        w
    } else {
        let before = walk_relations(index, filter, anchor, n - 1, w);
        let relation = index.relations[n - 1];
        match neighbor(relation.relation, anchor) {
            None => before,
            Some(other) => if !kind_allowed(filter, relation.relation.kind) {
                before
            } else {
                let key = edge_of(relation.relation);
                WalkView {
                    relations: if before.keys.contains(key) {
                        before.relations
                    } else {
                        before.relations.push(relation)
                    },
                    keys: before.keys.insert(key),
                    next: if before.anchors.contains(other) {
                        before.next
                    } else {
                        before.next.push(other)
                    },
                    anchors: before.anchors.insert(other),
                }
            },
        }
    }
}

/// What is walked once relations are followed from the first `n` anchors of a level.
pub open spec fn walk_level(
    index: IndexView,
    filter: Set<Seq<char>>,
    level: Seq<Seq<char>>,
    n: int,
    w: WalkView,
) -> WalkView
    decreases n,
{
    if n <= 0 {
        w
    } else {
        walk_relations(
            index,
            filter,
            level[n - 1],
            index.relations.len() as int,
            walk_level(index, filter, level, n - 1, w),
        )
    }
}

/// What is walked within a number of relations, from the anchors that were met last.
pub open spec fn walk(index: IndexView, filter: Set<Seq<char>>, w: WalkView, depth: nat) -> WalkView
    decreases depth,
{
    if depth == 0 || w.next.len() == 0 {
        w
    } else {
        walk(
            index,
            filter,
            walk_level(
                index,
                filter,
                w.next,
                w.next.len() as int,
                WalkView { next: seq![], ..w },
            ),
            (depth - 1) as nat,
        )
    }
}

/// Anchors with the members of strands among the first `n` memberships.
pub open spec fn with_member_anchors(
    index: IndexView,
    strands: Set<Seq<char>>,
    anchors: Set<Seq<char>>,
    n: int,
) -> Set<Seq<char>>
    decreases n,
{
    if n <= 0 {
        anchors
    } else {
        let before = with_member_anchors(index, strands, anchors, n - 1);
        let m = index.memberships[n - 1];
        if m.strand is Some && strands.contains(m.strand->0) {
            before.insert(m.member.anchor)
        } else {
            before
        }
    }
}

/// Where a walk starts: at the anchors that are asked for and the members of the strands
/// that are.
pub open spec fn walk_start(
    index: IndexView,
    anchors: Set<Seq<char>>,
    strands: Set<Seq<char>>,
) -> WalkView {
    let all = with_member_anchors(index, strands, anchors, index.memberships.len() as int);
    WalkView { anchors: all, next: ordered(all), relations: seq![], keys: Set::empty() }
}

/// An anchor as a query shows it.
pub open spec fn query_anchor(index: IndexView, id: Seq<char>) -> QueryAnchorView {
    if index.anchors.contains_key(id) {
        QueryAnchorView {
            id,
            kind: index.anchors[id].value.kind,
            location: index.anchors[id].value.location,
        }
    } else {
        QueryAnchorView { id, kind: None, location: None }
    }
}

/// A strand as a query shows it.
pub open spec fn query_strand(index: IndexView, id: Seq<char>) -> QueryStrandView {
    QueryStrandView {
        id,
        intent: if index.strands.contains_key(id) {
            index.strands[id].value.intent
        } else {
            seq![]
        },
    }
}

/// The part of the graph around anchors and strands.
pub open spec fn query_result(
    index: IndexView,
    anchors: Set<Seq<char>>,
    strands: Set<Seq<char>>,
    depth: nat,
    filter: Set<Seq<char>>,
) -> QueryResultView {
    let walked = walk(index, filter, walk_start(index, anchors, strands), depth);
    let met = with_strands_of(
        index,
        walked.anchors,
        strands,
        index.memberships.len() as int,
    );
    QueryResultView {
        anchors: ordered(walked.anchors).map_values(|id: Seq<char>| query_anchor(index, id)),
        strands: ordered(met).map_values(|id: Seq<char>| query_strand(index, id)),
        relations: walked.relations,
    }
}

/// The part of the graph that is walked so far.
struct Walk {
    anchors: StringSet,
    next: Vec<String>,
    relations: Vec<IndexedRelation>,
    keys: Ghost<Set<EdgeView>>,
}

impl View for Walk {
    type V = WalkView;

    closed spec fn view(&self) -> WalkView {
        WalkView {
            anchors: self.anchors@,
            next: self.next.deep_view(),
            relations: self.relations.deep_view(),
            keys: self.keys@,
        }
    }
}

/// Whether the keys are those of the relations.
spec fn keys_match(w: WalkView) -> bool {
    forall|key: EdgeView| #[trigger]
        w.keys.contains(key) <==> exists|i: int|
            0 <= i < w.relations.len() && edge_of((#[trigger] w.relations[i]).relation) == key
}

/// Whether one of the relations has the ends and the kind of another.
fn has_edge(relations: &Vec<IndexedRelation>, wanted: &Relation) -> (r: bool)
    ensures
        r == exists|i: int|
            0 <= i < relations@.len() && edge_of((#[trigger] relations.deep_view()[i]).relation)
                == edge_of(wanted@),
{
    let mut i: usize = 0;
    let ghost all = relations.deep_view();
    while i < relations.len()
        invariant
            i <= relations@.len(),
            all == relations.deep_view(),
            forall|k: int|
                0 <= k < i ==> edge_of((#[trigger] all[k]).relation) != edge_of(wanted@),
        decreases relations@.len() - i,
    {
        assert(all[i as int] == relations@[i as int]@);
        let relation = &relations[i].relation;
        if same_text(relation.from.as_str(), wanted.from.as_str()) && same_text(
            relation.to.as_str(),
            wanted.to.as_str(),
        ) && same_text(relation.kind.as_str(), wanted.kind.as_str()) {
            assert(edge_of(all[i as int].relation) == edge_of(wanted@));
            return true;
        }
        i += 1;
    }
    false
}

/// Follows relations from an anchor.
fn follow_relations(index: &Index, filter: &StringSet, anchor: &String, w: &mut Walk)
    requires
        keys_match(old(w)@),
    ensures
        final(w)@ == walk_relations(
            index@,
            filter@,
            anchor@,
            index@.relations.len() as int,
            old(w)@,
        ),
        keys_match(final(w)@),
{
    let ghost start = w@;
    let mut i: usize = 0;
    while i < index.relations.len()
        invariant
            i <= index.relations@.len(),
            keys_match(w@),
            w@ == walk_relations(index@, filter@, anchor@, i as int, start),
        decreases index.relations@.len() - i,
    {
        let relation = &index.relations[i];
        assert(index@.relations[i as int] == relation@);
        let r = &relation.relation;
        let other: Option<&String> = if same_text(r.from.as_str(), anchor.as_str()) {
            Some(&r.to)
        } else if same_text(r.to.as_str(), anchor.as_str()) {
            Some(&r.from)
        } else {
            None
        };
        match other {
            None => {},
            Some(other) => {
                if filter.is_empty() || filter.contains(r.kind.as_str()) {
                    let ghost before = w@;
                    let known = has_edge(&w.relations, r);
                    if !known {
                        push_item(&mut w.relations, relation.duplicate());
                    }
                    proof {
                        let key = edge_of(r@);
                        let keys = before.keys.insert(key);
                        w.keys@ = keys;
                        assert forall|k: EdgeView| #[trigger]
                            keys.contains(k) <==> exists|j: int|
                                0 <= j < w@.relations.len() && edge_of(
                                    (#[trigger] w@.relations[j]).relation,
                                ) == k by {
                            if before.keys.contains(k) {
                                let j = choose|j: int|
                                    0 <= j < before.relations.len() && edge_of(
                                        (#[trigger] before.relations[j]).relation,
                                    ) == k;
                                assert(w@.relations[j] == before.relations[j]);
                            } else if k == key {
                                assert(!known);
                                assert(edge_of(w@.relations[w@.relations.len() - 1].relation)
                                    == key);
                            } else if exists|j: int|
                                0 <= j < w@.relations.len() && edge_of(
                                    (#[trigger] w@.relations[j]).relation,
                                ) == k {
                                let j = choose|j: int|
                                    0 <= j < w@.relations.len() && edge_of(
                                        (#[trigger] w@.relations[j]).relation,
                                    ) == k;
                                if j < before.relations.len() {
                                    assert(before.relations[j] == w@.relations[j]);
                                }
                            }
                        }
                    }
                    let fresh = w.anchors.insert(other.clone());
                    if fresh {
                        push_item(&mut w.next, other.clone());
                    }
                }
            },
        }
        i += 1;
    }
}

/// The part of the graph within a number of relations of anchors and of the members of
/// strands. Relations are followed both ways.
pub fn query(
    index: &Index,
    anchor_seeds: &StringSet,
    strand_seeds: &StringSet,
    depth: usize,
    relation_filter: &StringSet,
) -> (r: QueryResult)
    ensures
        r@ == query_result(
            index@,
            anchor_seeds@,
            strand_seeds@,
            depth as nat,
            relation_filter@,
        ),
{
    let mut anchors = anchor_seeds.duplicate();
    let mut i: usize = 0;
    while i < index.memberships.len()
        invariant
            i <= index.memberships@.len(),
            anchors@ == with_member_anchors(
                index@,
                strand_seeds@,
                anchor_seeds@,
                i as int,
            ),
        decreases index.memberships@.len() - i,
    {
        let m = &index.memberships[i];
        assert(index@.memberships[i as int] == m@);
        match &m.strand {
            Some(strand) => {
                if strand_seeds.contains(strand.as_str()) {
                    let _ = anchors.insert(m.member.anchor.clone());
                }
            },
            None => {},
        }
        i += 1;
    }
    let next = items_of(&anchors);
    let mut w = Walk { anchors, next, relations: Vec::new(), keys: Ghost(Set::empty()) };
    let ghost start = walk_start(index@, anchor_seeds@, strand_seeds@);
    assert(w@ =~= start);
    let mut left: usize = depth;
    while left > 0 && w.next.len() > 0
        invariant
            left <= depth,
            keys_match(w@),
            walk(index@, relation_filter@, start, depth as nat) == walk(
                index@,
                relation_filter@,
                w@,
                left as nat,
            ),
        decreases left,
    {
        let mut level: Vec<String> = Vec::new();
        let ghost before = w@;
        std::mem::swap(&mut level, &mut w.next);
        let ghost cleared = WalkView { next: seq![], ..before };
        assert(level.deep_view() == before.next);
        assert(w@ =~= cleared);
        let mut k: usize = 0;
        while k < level.len()
            invariant
                k <= level@.len(),
                level.deep_view() == before.next,
                keys_match(w@),
                w@ == walk_level(index@, relation_filter@, before.next, k as int, cleared),
            decreases level@.len() - k,
        {
            assert(before.next[k as int] == level@[k as int]@);
            follow_relations(index, relation_filter, &level[k], &mut w);
            k += 1;
        }
        left -= 1;
    }
    let ghost walked = w@;
    assert(walked == walk(index@, relation_filter@, start, depth as nat));
    let mut strands = strand_seeds.duplicate();
    add_strands_of(index, &w.anchors, &mut strands);
    QueryResult {
        anchors: show_anchors(index, &w.anchors),
        strands: show_strands(index, &strands),
        relations: w.relations,
    }
}

/// The texts of a set, in order.
pub fn items_of(set: &StringSet) -> (r: Vec<String>)
    ensures
        r.deep_view() == ordered(set@),
{
    let n: usize = set.len();
    let mut out: Vec<String> = Vec::new();
    let mut i: usize = 0;
    while i < n
        invariant
            i <= n,
            n == ordered(set@).len(),
            out@.len() == i,
            forall|k: int| 0 <= k < i ==> (#[trigger] out@[k])@ == ordered(set@)[k],
        decreases n - i,
    {
        out.push(set.item_at(i).clone());
        i += 1;
    }
    assert(out.deep_view() =~= ordered(set@));
    out
}

/// Anchors as a query shows them.
fn show_anchors(index: &Index, anchors: &StringSet) -> (r: Vec<QueryAnchor>)
    ensures
        r.deep_view() == ordered(anchors@).map_values(|id: Seq<char>| query_anchor(index@, id)),
{
    let n: usize = anchors.len();
    let mut out: Vec<QueryAnchor> = Vec::new();
    let mut i: usize = 0;
    while i < n
        invariant
            i <= n,
            n == ordered(anchors@).len(),
            out@.len() == i,
            forall|k: int|
                0 <= k < i ==> (#[trigger] out@[k])@ == query_anchor(index@, ordered(anchors@)[k]),
        decreases n - i,
    {
        let id = anchors.item_at(i);
        let shown = match index.anchors.get(id.as_str()) {
            Some(anchor) => QueryAnchor {
                id: id.clone(),
                kind: anchor.value.kind.duplicate(),
                location: anchor.value.location.duplicate(),
            },
            None => QueryAnchor { id: id.clone(), kind: None, location: None },
        };
        out.push(shown);
        i += 1;
    }
    assert(out.deep_view() =~= ordered(anchors@).map_values(
        |id: Seq<char>| query_anchor(index@, id),
    ));
    out
}

/// Strands as a query shows them.
fn show_strands(index: &Index, strands: &StringSet) -> (r: Vec<QueryStrand>)
    ensures
        r.deep_view() == ordered(strands@).map_values(|id: Seq<char>| query_strand(index@, id)),
{
    let n: usize = strands.len();
    let mut out: Vec<QueryStrand> = Vec::new();
    let mut i: usize = 0;
    while i < n
        invariant
            i <= n,
            n == ordered(strands@).len(),
            out@.len() == i,
            forall|k: int|
                0 <= k < i ==> (#[trigger] out@[k])@ == query_strand(index@, ordered(strands@)[k]),
        decreases n - i,
    {
        let id = strands.item_at(i);
        let intent = match index.strands.get(id.as_str()) {
            Some(strand) => strand.value.intent.clone(),
            None => {
                let none = String::new();
                assert(none@ =~= seq![]);
                none
            },
        };
        out.push(QueryStrand { id: id.clone(), intent });
        i += 1;
    }
    assert(out.deep_view() =~= ordered(strands@).map_values(
        |id: Seq<char>| query_strand(index@, id),
    ));
    out
}

/// A text inside quotes of the DOT language.
pub open spec fn dot_text(value: Seq<char>) -> Seq<char> {
    replace(replace(value, '\\', "\\\\"@), '"', "\\\""@)
}

/// A text inside quotes of the DOT language.
fn escape_dot(value: &str) -> (r: String)
    ensures
        r@ == dot_text(value@),
{
    let once = replaced(&crate::text::chars_of(value), '\\', "\\\\");
    crate::text::string_of(&replaced(&once, '"', "\\\""))
}

/// A text inside quotes of the Mermaid language.
pub open spec fn mermaid_text(value: Seq<char>) -> Seq<char> {
    replace(replace(value, '&', "&amp;"@), '"', "&quot;"@)
}

/// A text inside quotes of the Mermaid language.
fn escape_mermaid(value: &str) -> (r: String)
    ensures
        r@ == mermaid_text(value@),
{
    let once = replaced(&crate::text::chars_of(value), '&', "&amp;");
    crate::text::string_of(&replaced(&once, '"', "&quot;"))
}

/// The nodes of the first `n` anchors in the DOT language.
pub open spec fn dot_nodes(anchors: Seq<QueryAnchorView>, n: int) -> Seq<char>
    decreases n,
{
    if n <= 0 {
        "digraph strandmap {\n  rankdir=LR;\n"@
    } else {
        dot_nodes(anchors, n - 1) + "  \""@ + dot_text(anchors[n - 1].id) + "\";\n"@
    }
}

/// The nodes and the edges of the first `n` relations in the DOT language.
pub open spec fn dot_edges(result: QueryResultView, n: int) -> Seq<char>
    decreases n,
{
    if n <= 0 {
        dot_nodes(result.anchors, result.anchors.len() as int)
    } else {
        let relation = result.relations[n - 1].relation;
        dot_edges(result, n - 1) + "  \""@ + dot_text(relation.from) + "\" -> \""@ + dot_text(
            relation.to,
        ) + "\" [label=\""@ + dot_text(relation.kind) + "\", dir="@ + (
        if relation.bidirectional {
            "both"@
        } else {
            "forward"@
        }) + "];\n"@
    }
}

/// A part of the graph in the DOT language.
pub open spec fn dot_graph(result: QueryResultView) -> Seq<char> {
    dot_edges(result, result.relations.len() as int) + "}\n"@
}

/// A part of the graph in the DOT language.
pub fn to_dot(result: &QueryResult) -> (r: String)
    ensures
        r@ == dot_graph(result@),
{
    let mut output = "digraph strandmap {\n  rankdir=LR;\n".to_owned();
    let mut i: usize = 0;
    while i < result.anchors.len()
        invariant
            i <= result.anchors@.len(),
            output@ == dot_nodes(result@.anchors, i as int),
        decreases result.anchors@.len() - i,
    {
        assert(result@.anchors[i as int] == result.anchors@[i as int]@);
        output.push_str("  \"");
        output.push_str(escape_dot(result.anchors[i].id.as_str()).as_str());
        output.push_str("\";\n");
        i += 1;
    }
    let mut k: usize = 0;
    while k < result.relations.len()
        invariant
            k <= result.relations@.len(),
            output@ == dot_edges(result@, k as int),
        decreases result.relations@.len() - k,
    {
        let relation = &result.relations[k].relation;
        assert(result@.relations[k as int].relation == relation@);
        output.push_str("  \"");
        output.push_str(escape_dot(relation.from.as_str()).as_str());
        output.push_str("\" -> \"");
        output.push_str(escape_dot(relation.to.as_str()).as_str());
        output.push_str("\" [label=\"");
        output.push_str(escape_dot(relation.kind.as_str()).as_str());
        output.push_str("\", dir=");
        if relation.bidirectional {
            output.push_str("both");
        } else {
            output.push_str("forward");
        }
        output.push_str("];\n");
        k += 1;
    }
    output.push_str("}\n");
    output
}

/// The position of the last of the first `n` anchors with a name.
pub open spec fn node_number(anchors: Seq<QueryAnchorView>, id: Seq<char>, n: int) -> Option<int>
    decreases n,
{
    if n <= 0 {
        None
    } else if anchors[n - 1].id == id {
        Some(n - 1)
    } else {
        node_number(anchors, id, n - 1)
    }
}

/// The node of an anchor in the Mermaid language.
pub open spec fn node_name(anchors: Seq<QueryAnchorView>, id: Seq<char>) -> Option<Seq<char>> {
    match node_number(anchors, id, anchors.len() as int) {
        Some(k) => Some("a"@ + decimal(k as nat)),
        None => None,
    }
}

/// The node of an anchor in the Mermaid language.
fn name_of_node(anchors: &Vec<QueryAnchor>, id: &str) -> (r: Option<String>)
    ensures
        r.deep_view() == node_name(anchors.deep_view(), id@),
{
    let mut n: usize = anchors.len();
    let ghost all = anchors.deep_view();
    while n > 0
        invariant
            n <= anchors@.len(),
            all == anchors.deep_view(),
            node_number(all, id@, all.len() as int) == node_number(all, id@, n as int),
        decreases n,
    {
        assert(all[n - 1] == anchors@[n - 1]@);
        if same_text(anchors[n - 1].id.as_str(), id) {
            let mut name = "a".to_owned();
            name.push_str(decimal_text((n - 1) as u64).as_str());
            return Some(name);
        }
        n -= 1;
    }
    None
}

/// The nodes of the first `n` anchors in the Mermaid language.
pub open spec fn mermaid_nodes(anchors: Seq<QueryAnchorView>, n: int) -> Seq<char>
    decreases n,
{
    if n <= 0 {
        "flowchart LR\n"@
    } else {
        mermaid_nodes(anchors, n - 1) + "  "@ + node_name(anchors, anchors[n - 1].id)->0 + "[\""@
            + mermaid_text(anchors[n - 1].id) + "\"]\n"@
    }
}

/// The nodes and the edges of the first `n` relations in the Mermaid language.
pub open spec fn mermaid_edges(result: QueryResultView, n: int) -> Seq<char>
    decreases n,
{
    if n <= 0 {
        mermaid_nodes(result.anchors, result.anchors.len() as int)
    } else {
        let before = mermaid_edges(result, n - 1);
        let relation = result.relations[n - 1].relation;
        match (node_name(result.anchors, relation.from), node_name(result.anchors, relation.to)) {
            (Some(from), Some(to)) => before + "  "@ + from + " "@ + (
            if relation.bidirectional {
                "<-->"@
            } else {
                "-->"@
            }) + "|"@ + mermaid_text(relation.kind) + "| "@ + to + "\n"@,
            _ => before,
        }
    }
}

/// Every anchor has a node.
proof fn lemma_node_number(anchors: Seq<QueryAnchorView>, i: int, n: int)
    requires
        0 <= i < n <= anchors.len(),
    ensures
        node_number(anchors, anchors[i].id, n) is Some,
    decreases n,
{
    if anchors[n - 1].id != anchors[i].id {
        lemma_node_number(anchors, i, n - 1);
    }
}

/// A part of the graph in the Mermaid language.
pub fn to_mermaid(result: &QueryResult) -> (r: String)
    ensures
        r@ == mermaid_edges(result@, result@.relations.len() as int),
{
    let mut output = "flowchart LR\n".to_owned();
    let mut i: usize = 0;
    while i < result.anchors.len()
        invariant
            i <= result.anchors@.len(),
            output@ == mermaid_nodes(result@.anchors, i as int),
        decreases result.anchors@.len() - i,
    {
        assert(result@.anchors[i as int] == result.anchors@[i as int]@);
        let id = result.anchors[i].id.as_str();
        proof {
            lemma_node_number(result@.anchors, i as int, result@.anchors.len() as int);
        }
        match name_of_node(&result.anchors, id) {
            Some(name) => {
                output.push_str("  ");
                output.push_str(name.as_str());
                output.push_str("[\"");
                output.push_str(escape_mermaid(id).as_str());
                output.push_str("\"]\n");
            },
            None => {},
        }
        i += 1;
    }
    let mut k: usize = 0;
    while k < result.relations.len()
        invariant
            k <= result.relations@.len(),
            output@ == mermaid_edges(result@, k as int),
        decreases result.relations@.len() - k,
    {
        let relation = &result.relations[k].relation;
        assert(result@.relations[k as int].relation == relation@);
        match (
            name_of_node(&result.anchors, relation.from.as_str()),
            name_of_node(&result.anchors, relation.to.as_str()),
        ) {
            (Some(from), Some(to)) => {
                output.push_str("  ");
                output.push_str(from.as_str());
                output.push_str(" ");
                if relation.bidirectional {
                    output.push_str("<-->");
                } else {
                    output.push_str("-->");
                }
                output.push_str("|");
                output.push_str(escape_mermaid(relation.kind.as_str()).as_str());
                output.push_str("| ");
                output.push_str(to.as_str());
                output.push_str("\n");
            },
            _ => {},
        }
        k += 1;
    }
    output
}

} // verus!

//! The things that a strand map is made of: anchors, strands, their members and relations,
//! the index that collects them, changes, and reviews.

use vstd::prelude::*;

use crate::collections::{ordered, StringMap, StringSet};
use crate::text::same_text;
use crate::views::Duplicate;

verus! {

/// A value of a free attribute, as a metadata file or an annotation gives it.
#[derive(Debug, Clone, PartialEq)]
pub enum Value {
    /// No value.
    Null,
    /// A truth value.
    Bool(bool),
    /// A whole number.
    Integer(i64),
    /// Any other number, in its JSON text.
    Decimal(String),
    /// A text.
    Text(String),
    /// A list or an object, in its JSON text.
    Json(String),
}

/// The mathematical content of a [`Value`].
pub ghost enum ValueView {
    Null,
    Bool(bool),
    Integer(i64),
    Decimal(Seq<char>),
    Text(Seq<char>),
    Json(Seq<char>),
}

impl View for Value {
    type V = ValueView;

    open spec fn view(&self) -> ValueView {
        match self {
            Value::Null => ValueView::Null,
            Value::Bool(b) => ValueView::Bool(*b),
            Value::Integer(n) => ValueView::Integer(*n),
            Value::Decimal(t) => ValueView::Decimal(t@),
            Value::Text(t) => ValueView::Text(t@),
            Value::Json(t) => ValueView::Json(t@),
        }
    }
}

impl DeepView for Value {
    type V = ValueView;

    open spec fn deep_view(&self) -> ValueView {
        self@
    }
}

impl Duplicate for Value {
    fn duplicate(&self) -> (r: Self) {
        match self {
            Value::Null => Value::Null,
            Value::Bool(b) => Value::Bool(*b),
            Value::Integer(n) => Value::Integer(*n),
            Value::Decimal(t) => Value::Decimal(t.clone()),
            Value::Text(t) => Value::Text(t.clone()),
            Value::Json(t) => Value::Json(t.clone()),
        }
    }
}

impl Value {
    /// Whether two values are the same.
    pub fn same(&self, other: &Value) -> (r: bool)
        ensures
            r == (self@ == other@),
    {
        match (self, other) {
            (Value::Null, Value::Null) => true,
            (Value::Bool(a), Value::Bool(b)) => *a == *b,
            (Value::Integer(a), Value::Integer(b)) => *a == *b,
            (Value::Decimal(a), Value::Decimal(b)) => same_text(a.as_str(), b.as_str()),
            (Value::Text(a), Value::Text(b)) => same_text(a.as_str(), b.as_str()),
            (Value::Json(a), Value::Json(b)) => same_text(a.as_str(), b.as_str()),
            _ => false,
        }
    }
}

/// Free attributes by name.
pub type Attributes = StringMap<Value>;

/// Whether two lists of free attributes are the same.
pub fn same_attributes(a: &Attributes, b: &Attributes) -> (r: bool)
    ensures
        r == (a@ == b@),
{
    let count: usize = a.len();
    if count != b.len() {
        return false;
    }
    let mut i: usize = 0;
    while i < count
        invariant
            i <= count,
            count == ordered(a@.dom()).len(),
            count == ordered(b@.dom()).len(),
            ordered(a@.dom()).to_set() == a@.dom(),
            ordered(b@.dom()).to_set() == b@.dom(),
            forall|k: int| 0 <= k < i ==> #[trigger] ordered(a@.dom())[k] == ordered(b@.dom())[k],
            forall|k: int|
                0 <= k < i ==> a@[#[trigger] ordered(a@.dom())[k]] == b@[ordered(a@.dom())[k]],
        decreases count - i,
    {
        if !same_text(a.key_at(i).as_str(), b.key_at(i).as_str()) {
            return false;
        }
        if !a.value_at(i).same(b.value_at(i)) {
            return false;
        }
        i += 1;
    }
    assert(ordered(a@.dom()) =~= ordered(b@.dom()));
    assert forall|key: Seq<char>| a@.contains_key(key) implies a@[key] == b@[key] by {
        assert(ordered(a@.dom()).to_set().contains(key));
        let k = ordered(a@.dom()).index_of(key);
        assert(ordered(a@.dom())[k] == key);
    }
    assert(a@ =~= b@);
    true
}

/// A moment in time: seconds since the Unix epoch, and nanoseconds within the second.
#[derive(Debug, Clone, Copy, PartialEq, Eq, Structural)]
pub struct Timestamp {
    /// Seconds since the Unix epoch.
    pub seconds: i64,
    /// Nanoseconds within the second.
    pub nanos: u32,
}

impl DeepView for Timestamp {
    type V = Timestamp;

    open spec fn deep_view(&self) -> Timestamp {
        *self
    }
}

impl Duplicate for Timestamp {
    fn duplicate(&self) -> (r: Self) {
        *self
    }
}

/// How closely an anchor watches its file.
#[derive(Debug, Clone, Copy, PartialEq, Eq, Structural)]
pub enum WatchMode {
    /// Any change of the file.
    File,
    /// A change of the anchored line.
    Line,
    /// A change of the anchored range.
    Range,
    /// A change of the source construct that follows the annotation.
    Node,
}

impl DeepView for WatchMode {
    type V = WatchMode;

    open spec fn deep_view(&self) -> WatchMode {
        *self
    }
}

impl Duplicate for WatchMode {
    fn duplicate(&self) -> (r: Self) {
        *self
    }
}

impl Default for WatchMode {
    fn default() -> (r: Self)
        ensures
            r == WatchMode::File,
    {
        WatchMode::File
    }
}

/// Where an anchor stands.
#[derive(Debug, Clone, PartialEq)]
pub struct Location {
    /// The file, relative to the repository.
    pub path: String,
    /// The first line.
    pub line_start: Option<u32>,
    /// The last line.
    pub line_end: Option<u32>,
    /// The symbol that stands there.
    pub symbol: Option<String>,
    /// The language of the file.
    pub language: Option<String>,
    /// A fingerprint of the place.
    pub fingerprint: Option<String>,
    /// How closely the place is watched.
    pub watch: Option<WatchMode>,
}

/// The mathematical content of a [`Location`].
#[verifier::ext_equal]
pub ghost struct LocationView {
    pub path: Seq<char>,
    pub line_start: Option<u32>,
    pub line_end: Option<u32>,
    pub symbol: Option<Seq<char>>,
    pub language: Option<Seq<char>>,
    pub fingerprint: Option<Seq<char>>,
    pub watch: Option<WatchMode>,
}

impl View for Location {
    type V = LocationView;

    open spec fn view(&self) -> LocationView {
        LocationView {
            path: self.path.deep_view(),
            line_start: self.line_start.deep_view(),
            line_end: self.line_end.deep_view(),
            symbol: self.symbol.deep_view(),
            language: self.language.deep_view(),
            fingerprint: self.fingerprint.deep_view(),
            watch: self.watch.deep_view(),
        }
    }
}

impl DeepView for Location {
    type V = LocationView;

    open spec fn deep_view(&self) -> LocationView {
        self@
    }
}

impl Duplicate for Location {
    fn duplicate(&self) -> (r: Self) {
        Location {
            path: self.path.duplicate(),
            line_start: self.line_start.duplicate(),
            line_end: self.line_end.duplicate(),
            symbol: self.symbol.duplicate(),
            language: self.language.duplicate(),
            fingerprint: self.fingerprint.duplicate(),
            watch: self.watch.duplicate(),
        }
    }
}

/// A named place that strands refer to.
#[derive(Debug, Clone, PartialEq)]
pub struct Anchor {
    /// The version of the format.
    pub schema: u32,
    /// The name of the anchor.
    pub id: String,
    /// What the anchor stands for, as a link.
    pub target: Option<String>,
    /// The kind of the anchor.
    pub kind: Option<String>,
    /// Where the anchor stands.
    pub location: Option<Location>,
    /// Tags.
    pub tags: StringSet,
    /// Free attributes.
    pub attributes: Attributes,
}

/// The mathematical content of a [`Anchor`].
#[verifier::ext_equal]
pub ghost struct AnchorView {
    pub schema: u32,
    pub id: Seq<char>,
    pub target: Option<Seq<char>>,
    pub kind: Option<Seq<char>>,
    pub location: Option<LocationView>,
    pub tags: Set<Seq<char>>,
    pub attributes: Map<Seq<char>, ValueView>,
}

impl View for Anchor {
    type V = AnchorView;

    open spec fn view(&self) -> AnchorView {
        AnchorView {
            schema: self.schema.deep_view(),
            id: self.id.deep_view(),
            target: self.target.deep_view(),
            kind: self.kind.deep_view(),
            location: self.location.deep_view(),
            tags: self.tags.deep_view(),
            attributes: self.attributes.deep_view(),
        }
    }
}

impl DeepView for Anchor {
    type V = AnchorView;

    open spec fn deep_view(&self) -> AnchorView {
        self@
    }
}

impl Duplicate for Anchor {
    fn duplicate(&self) -> (r: Self) {
        Anchor {
            schema: self.schema,
            id: self.id.duplicate(),
            target: self.target.duplicate(),
            kind: self.kind.duplicate(),
            location: self.location.duplicate(),
            tags: self.tags.duplicate(),
            attributes: self.attributes.duplicate(),
        }
    }
}

/// An anchor as a member of a strand.
#[derive(Debug, Clone, PartialEq)]
pub struct Member {
    /// The anchor.
    pub anchor: String,
    /// The role of the anchor in the strand.
    pub role: Option<String>,
    /// Whether a change asks for a review of this member.
    pub required: bool,
    /// Free attributes.
    pub attributes: Attributes,
}

/// The mathematical content of a [`Member`].
#[verifier::ext_equal]
pub ghost struct MemberView {
    pub anchor: Seq<char>,
    pub role: Option<Seq<char>>,
    pub required: bool,
    pub attributes: Map<Seq<char>, ValueView>,
}

impl View for Member {
    type V = MemberView;

    open spec fn view(&self) -> MemberView {
        MemberView {
            anchor: self.anchor.deep_view(),
            role: self.role.deep_view(),
            required: self.required.deep_view(),
            attributes: self.attributes.deep_view(),
        }
    }
}

impl DeepView for Member {
    type V = MemberView;

    open spec fn deep_view(&self) -> MemberView {
        self@
    }
}

impl Duplicate for Member {
    fn duplicate(&self) -> (r: Self) {
        Member {
            anchor: self.anchor.duplicate(),
            role: self.role.duplicate(),
            required: self.required,
            attributes: self.attributes.duplicate(),
        }
    }
}

/// A relation between two anchors.
#[derive(Debug, Clone, PartialEq)]
pub struct Relation {
    /// The anchor that the relation starts at.
    pub from: String,
    /// The anchor that it leads to.
    pub to: String,
    /// The kind of the relation.
    pub kind: String,
    /// Whether it holds both ways.
    pub bidirectional: bool,
    /// Free attributes.
    pub attributes: Attributes,
}

/// The mathematical content of a [`Relation`].
#[verifier::ext_equal]
pub ghost struct RelationView {
    pub from: Seq<char>,
    pub to: Seq<char>,
    pub kind: Seq<char>,
    pub bidirectional: bool,
    pub attributes: Map<Seq<char>, ValueView>,
}

impl View for Relation {
    type V = RelationView;

    open spec fn view(&self) -> RelationView {
        RelationView {
            from: self.from.deep_view(),
            to: self.to.deep_view(),
            kind: self.kind.deep_view(),
            bidirectional: self.bidirectional.deep_view(),
            attributes: self.attributes.deep_view(),
        }
    }
}

impl DeepView for Relation {
    type V = RelationView;

    open spec fn deep_view(&self) -> RelationView {
        self@
    }
}

impl Duplicate for Relation {
    fn duplicate(&self) -> (r: Self) {
        Relation {
            from: self.from.duplicate(),
            to: self.to.duplicate(),
            kind: self.kind.duplicate(),
            bidirectional: self.bidirectional,
            attributes: self.attributes.duplicate(),
        }
    }
}

/// What a change of one member means for the others.
#[derive(Debug, Clone, PartialEq)]
pub struct ChangePolicy {
    /// The roles that a change reaches; all of them where empty.
    pub include_roles: StringSet,
    /// The roles that a change does not reach.
    pub exclude_roles: StringSet,
    /// The kinds of relations that a change follows.
    pub follow_relations: StringSet,
    /// How many relations a change follows.
    pub depth: Option<usize>,
    /// Whether a change asks for a disposition.
    pub require_disposition: Option<bool>,
    /// Free attributes.
    pub attributes: Attributes,
}

/// The mathematical content of a [`ChangePolicy`].
#[verifier::ext_equal]
pub ghost struct ChangePolicyView {
    pub include_roles: Set<Seq<char>>,
    pub exclude_roles: Set<Seq<char>>,
    pub follow_relations: Set<Seq<char>>,
    pub depth: Option<usize>,
    pub require_disposition: Option<bool>,
    pub attributes: Map<Seq<char>, ValueView>,
}

impl View for ChangePolicy {
    type V = ChangePolicyView;

    open spec fn view(&self) -> ChangePolicyView {
        ChangePolicyView {
            include_roles: self.include_roles.deep_view(),
            exclude_roles: self.exclude_roles.deep_view(),
            follow_relations: self.follow_relations.deep_view(),
            depth: self.depth.deep_view(),
            require_disposition: self.require_disposition.deep_view(),
            attributes: self.attributes.deep_view(),
        }
    }
}

impl DeepView for ChangePolicy {
    type V = ChangePolicyView;

    open spec fn deep_view(&self) -> ChangePolicyView {
        self@
    }
}

impl Duplicate for ChangePolicy {
    fn duplicate(&self) -> (r: Self) {
        ChangePolicy {
            include_roles: self.include_roles.duplicate(),
            exclude_roles: self.exclude_roles.duplicate(),
            follow_relations: self.follow_relations.duplicate(),
            depth: self.depth.duplicate(),
            require_disposition: self.require_disposition.duplicate(),
            attributes: self.attributes.duplicate(),
        }
    }
}

/// Anchors that serve one intent.
#[derive(Debug, Clone, PartialEq)]
pub struct Strand {
    /// The version of the format.
    pub schema: u32,
    /// The name of the strand.
    pub id: String,
    /// A title.
    pub title: Option<String>,
    /// What the members serve together.
    pub intent: String,
    /// What the strand is about.
    pub scope: Option<String>,
    /// Tags.
    pub tags: StringSet,
    /// The members.
    pub members: Vec<Member>,
    /// The relations between them.
    pub relations: Vec<Relation>,
    /// What a change of one member means for the others.
    pub on_change: Option<ChangePolicy>,
    /// Free attributes.
    pub attributes: Attributes,
}

/// The mathematical content of a [`Strand`].
#[verifier::ext_equal]
pub ghost struct StrandView {
    pub schema: u32,
    pub id: Seq<char>,
    pub title: Option<Seq<char>>,
    pub intent: Seq<char>,
    pub scope: Option<Seq<char>>,
    pub tags: Set<Seq<char>>,
    pub members: Seq<MemberView>,
    pub relations: Seq<RelationView>,
    pub on_change: Option<ChangePolicyView>,
    pub attributes: Map<Seq<char>, ValueView>,
}

impl View for Strand {
    type V = StrandView;

    open spec fn view(&self) -> StrandView {
        StrandView {
            schema: self.schema.deep_view(),
            id: self.id.deep_view(),
            title: self.title.deep_view(),
            intent: self.intent.deep_view(),
            scope: self.scope.deep_view(),
            tags: self.tags.deep_view(),
            members: self.members.deep_view(),
            relations: self.relations.deep_view(),
            on_change: self.on_change.deep_view(),
            attributes: self.attributes.deep_view(),
        }
    }
}

impl DeepView for Strand {
    type V = StrandView;

    open spec fn deep_view(&self) -> StrandView {
        self@
    }
}

impl Duplicate for Strand {
    fn duplicate(&self) -> (r: Self) {
        Strand {
            schema: self.schema,
            id: self.id.duplicate(),
            title: self.title.duplicate(),
            intent: self.intent.duplicate(),
            scope: self.scope.duplicate(),
            tags: self.tags.duplicate(),
            members: self.members.duplicate(),
            relations: self.relations.duplicate(),
            on_change: self.on_change.duplicate(),
            attributes: self.attributes.duplicate(),
        }
    }
}

/// How grave a diagnostic is.
#[derive(Debug, Clone, Copy, PartialEq, Eq, Structural)]
pub enum Severity {
    /// The map is wrong.
    Error,
    /// The map is doubtful.
    Warning,
    /// Something to know.
    Info,
}

impl DeepView for Severity {
    type V = Severity;

    open spec fn deep_view(&self) -> Severity {
        *self
    }
}

impl Duplicate for Severity {
    fn duplicate(&self) -> (r: Self) {
        *self
    }
}

/// Something to tell about the map.
#[derive(Debug, Clone, PartialEq)]
pub struct Diagnostic {
    /// How grave it is.
    pub severity: Severity,
    /// A short name.
    pub code: String,
    /// What is the matter.
    pub message: String,
    /// The file.
    pub path: Option<String>,
    /// The line.
    pub line: Option<u32>,
    /// What to do about it.
    pub hint: Option<String>,
}

/// The mathematical content of a [`Diagnostic`].
#[verifier::ext_equal]
pub ghost struct DiagnosticView {
    pub severity: Severity,
    pub code: Seq<char>,
    pub message: Seq<char>,
    pub path: Option<Seq<char>>,
    pub line: Option<u32>,
    pub hint: Option<Seq<char>>,
}

impl View for Diagnostic {
    type V = DiagnosticView;

    open spec fn view(&self) -> DiagnosticView {
        DiagnosticView {
            severity: self.severity.deep_view(),
            code: self.code.deep_view(),
            message: self.message.deep_view(),
            path: self.path.deep_view(),
            line: self.line.deep_view(),
            hint: self.hint.deep_view(),
        }
    }
}

impl DeepView for Diagnostic {
    type V = DiagnosticView;

    open spec fn deep_view(&self) -> DiagnosticView {
        self@
    }
}

impl Duplicate for Diagnostic {
    fn duplicate(&self) -> (r: Self) {
        Diagnostic {
            severity: self.severity,
            code: self.code.duplicate(),
            message: self.message.duplicate(),
            path: self.path.duplicate(),
            line: self.line.duplicate(),
            hint: self.hint.duplicate(),
        }
    }
}

/// Where an entry of the index comes from.
#[derive(Debug, Clone, PartialEq)]
pub struct Provenance {
    /// The kind of source.
    pub source: String,
    /// The file.
    pub path: Option<String>,
    /// The line.
    pub line: Option<u32>,
}

/// The mathematical content of a [`Provenance`].
#[verifier::ext_equal]
pub ghost struct ProvenanceView {
    pub source: Seq<char>,
    pub path: Option<Seq<char>>,
    pub line: Option<u32>,
}

impl View for Provenance {
    type V = ProvenanceView;

    open spec fn view(&self) -> ProvenanceView {
        ProvenanceView {
            source: self.source.deep_view(),
            path: self.path.deep_view(),
            line: self.line.deep_view(),
        }
    }
}

impl DeepView for Provenance {
    type V = ProvenanceView;

    open spec fn deep_view(&self) -> ProvenanceView {
        self@
    }
}

impl Duplicate for Provenance {
    fn duplicate(&self) -> (r: Self) {
        Provenance {
            source: self.source.duplicate(),
            path: self.path.duplicate(),
            line: self.line.duplicate(),
        }
    }
}

/// A value together with where it comes from.
#[derive(Debug, Clone, PartialEq)]
pub struct Indexed<T> {
    /// The value.
    pub value: T,
    /// Where it comes from.
    pub provenance: Provenance,
}

/// The mathematical content of an [`Indexed`] value.
#[verifier::ext_equal]
pub ghost struct IndexedView<T> {
    pub value: T,
    pub provenance: ProvenanceView,
}

impl<T: DeepView> View for Indexed<T> {
    type V = IndexedView<T::V>;

    open spec fn view(&self) -> IndexedView<T::V> {
        IndexedView { value: self.value.deep_view(), provenance: self.provenance@ }
    }
}

impl<T: DeepView> DeepView for Indexed<T> {
    type V = IndexedView<T::V>;

    open spec fn deep_view(&self) -> IndexedView<T::V> {
        self@
    }
}

impl<T: Duplicate> Duplicate for Indexed<T> {
    fn duplicate(&self) -> (r: Self) {
        Indexed { value: self.value.duplicate(), provenance: self.provenance.duplicate() }
    }
}

/// A membership in the index.
#[derive(Debug, Clone, PartialEq)]
pub struct IndexedMember {
    /// The strand.
    pub strand: Option<String>,
    /// The member.
    pub member: Member,
    /// Where it comes from.
    pub provenance: Provenance,
}

/// The mathematical content of a [`IndexedMember`].
#[verifier::ext_equal]
pub ghost struct IndexedMemberView {
    pub strand: Option<Seq<char>>,
    pub member: MemberView,
    pub provenance: ProvenanceView,
}

impl View for IndexedMember {
    type V = IndexedMemberView;

    open spec fn view(&self) -> IndexedMemberView {
        IndexedMemberView {
            strand: self.strand.deep_view(),
            member: self.member.deep_view(),
            provenance: self.provenance.deep_view(),
        }
    }
}

impl DeepView for IndexedMember {
    type V = IndexedMemberView;

    open spec fn deep_view(&self) -> IndexedMemberView {
        self@
    }
}

impl Duplicate for IndexedMember {
    fn duplicate(&self) -> (r: Self) {
        IndexedMember {
            strand: self.strand.duplicate(),
            member: self.member.duplicate(),
            provenance: self.provenance.duplicate(),
        }
    }
}

/// A relation in the index.
#[derive(Debug, Clone, PartialEq)]
pub struct IndexedRelation {
    /// The strand that the relation belongs to.
    pub strand: Option<String>,
    /// The relation.
    pub relation: Relation,
    /// Where it comes from.
    pub provenance: Provenance,
}

/// The mathematical content of a [`IndexedRelation`].
#[verifier::ext_equal]
pub ghost struct IndexedRelationView {
    pub strand: Option<Seq<char>>,
    pub relation: RelationView,
    pub provenance: ProvenanceView,
}

impl View for IndexedRelation {
    type V = IndexedRelationView;

    open spec fn view(&self) -> IndexedRelationView {
        IndexedRelationView {
            strand: self.strand.deep_view(),
            relation: self.relation.deep_view(),
            provenance: self.provenance.deep_view(),
        }
    }
}

impl DeepView for IndexedRelation {
    type V = IndexedRelationView;

    open spec fn deep_view(&self) -> IndexedRelationView {
        self@
    }
}

impl Duplicate for IndexedRelation {
    fn duplicate(&self) -> (r: Self) {
        IndexedRelation {
            strand: self.strand.duplicate(),
            relation: self.relation.duplicate(),
            provenance: self.provenance.duplicate(),
        }
    }
}

/// A range of lines, both ends included.
#[derive(Debug, Clone, PartialEq, Eq)]
pub struct LineRange {
    /// The first line.
    pub start: u32,
    /// The last line.
    pub end: u32,
}

/// The mathematical content of a [`LineRange`].
#[verifier::ext_equal]
pub ghost struct LineRangeView {
    pub start: u32,
    pub end: u32,
}

impl View for LineRange {
    type V = LineRangeView;

    open spec fn view(&self) -> LineRangeView {
        LineRangeView {
            start: self.start.deep_view(),
            end: self.end.deep_view(),
        }
    }
}

impl DeepView for LineRange {
    type V = LineRangeView;

    open spec fn deep_view(&self) -> LineRangeView {
        self@
    }
}

impl Duplicate for LineRange {
    fn duplicate(&self) -> (r: Self) {
        LineRange {
            start: self.start,
            end: self.end,
        }
    }
}

impl LineRange {
    /// Whether a line of `start..=end` lies in this range, or would if neither were empty.
    pub fn overlaps(&self, start: u32, end: u32) -> (r: bool)
        ensures
            r == range_overlaps(self@, start as int, end as int),
    {
        self.start <= end && start <= self.end
    }
}

/// Whether neither of two ranges of lines ends before the other starts.
pub open spec fn range_overlaps(range: LineRangeView, start: int, end: int) -> bool {
    range.start <= end && start <= range.end
}

/// Two ranges overlap whichever of them is asked.
pub proof fn overlaps_is_symmetric(a: LineRangeView, b: LineRangeView)
    ensures
        range_overlaps(a, b.start as int, b.end as int) == range_overlaps(
            b,
            a.start as int,
            a.end as int,
        ),
{
}

/// Two ranges that are not empty overlap exactly where they share a line.
pub proof fn overlap_is_a_shared_line(a: LineRangeView, b: LineRangeView)
    requires
        a.start <= a.end,
        b.start <= b.end,
    ensures
        range_overlaps(a, b.start as int, b.end as int) <==> exists|line: int|
            a.start <= line <= a.end && #[trigger] within(b, line),
{
    if range_overlaps(a, b.start as int, b.end as int) {
        let line = if a.start >= b.start {
            a.start as int
        } else {
            b.start as int
        };
        assert(within(b, line));
    }
}

/// Whether `line` lies in the range.
pub open spec fn within(range: LineRangeView, line: int) -> bool {
    range.start <= line <= range.end
}

/// What the index knows of a file.
#[derive(Debug, Clone, PartialEq)]
pub struct FileRecord {
    /// The file.
    pub path: String,
    /// Its size in bytes.
    pub size: u64,
    /// When it was changed, in nanoseconds since the Unix epoch.
    pub modified_ns: u64,
    /// A hash of its contents.
    pub content_hash: Option<String>,
    /// The words that its text may hold.
    pub search_bloom: Vec<u64>,
    /// The lines that hold Rust tests.
    pub rust_test_ranges: Vec<LineRange>,
}

/// The mathematical content of a [`FileRecord`].
#[verifier::ext_equal]
pub ghost struct FileRecordView {
    pub path: Seq<char>,
    pub size: u64,
    pub modified_ns: u64,
    pub content_hash: Option<Seq<char>>,
    pub search_bloom: Seq<u64>,
    pub rust_test_ranges: Seq<LineRangeView>,
}

impl View for FileRecord {
    type V = FileRecordView;

    open spec fn view(&self) -> FileRecordView {
        FileRecordView {
            path: self.path.deep_view(),
            size: self.size.deep_view(),
            modified_ns: self.modified_ns.deep_view(),
            content_hash: self.content_hash.deep_view(),
            search_bloom: self.search_bloom.deep_view(),
            rust_test_ranges: self.rust_test_ranges.deep_view(),
        }
    }
}

impl DeepView for FileRecord {
    type V = FileRecordView;

    open spec fn deep_view(&self) -> FileRecordView {
        self@
    }
}

impl Duplicate for FileRecord {
    fn duplicate(&self) -> (r: Self) {
        FileRecord {
            path: self.path.duplicate(),
            size: self.size,
            modified_ns: self.modified_ns,
            content_hash: self.content_hash.duplicate(),
            search_bloom: self.search_bloom.duplicate(),
            rust_test_ranges: self.rust_test_ranges.duplicate(),
        }
    }
}

/// What the annotations of one file say.
#[derive(Debug, Clone, PartialEq)]
pub struct SourceDocument {
    /// The anchors.
    pub anchors: Vec<Indexed<Anchor>>,
    /// The strands.
    pub strands: Vec<Indexed<Strand>>,
    /// The memberships.
    pub memberships: Vec<IndexedMember>,
    /// The relations.
    pub relations: Vec<IndexedRelation>,
    /// What is the matter with the annotations.
    pub diagnostics: Vec<Diagnostic>,
}

/// The mathematical content of a [`SourceDocument`].
#[verifier::ext_equal]
pub ghost struct SourceDocumentView {
    pub anchors: Seq<IndexedView<AnchorView>>,
    pub strands: Seq<IndexedView<StrandView>>,
    pub memberships: Seq<IndexedMemberView>,
    pub relations: Seq<IndexedRelationView>,
    pub diagnostics: Seq<DiagnosticView>,
}

impl View for SourceDocument {
    type V = SourceDocumentView;

    open spec fn view(&self) -> SourceDocumentView {
        SourceDocumentView {
            anchors: self.anchors.deep_view(),
            strands: self.strands.deep_view(),
            memberships: self.memberships.deep_view(),
            relations: self.relations.deep_view(),
            diagnostics: self.diagnostics.deep_view(),
        }
    }
}

impl DeepView for SourceDocument {
    type V = SourceDocumentView;

    open spec fn deep_view(&self) -> SourceDocumentView {
        self@
    }
}

impl Duplicate for SourceDocument {
    fn duplicate(&self) -> (r: Self) {
        SourceDocument {
            anchors: self.anchors.duplicate(),
            strands: self.strands.duplicate(),
            memberships: self.memberships.duplicate(),
            relations: self.relations.duplicate(),
            diagnostics: self.diagnostics.duplicate(),
        }
    }
}

/// Everything known of a repository.
#[derive(Debug, Clone, PartialEq)]
pub struct Index {
    /// The version of the format.
    pub schema: u32,
    /// The root of the repository.
    pub root: String,
    /// When the index was made.
    pub generated_at: Timestamp,
    /// A fingerprint of the files.
    pub workspace_fingerprint: String,
    /// A fingerprint of the metadata.
    pub metadata_fingerprint: String,
    /// A fingerprint of the configuration.
    pub config_fingerprint: String,
    /// The files.
    pub files: StringMap<FileRecord>,
    /// What the annotations of each file say.
    pub source_documents: StringMap<SourceDocument>,
    /// The strands.
    pub strands: StringMap<Indexed<Strand>>,
    /// The anchors.
    pub anchors: StringMap<Indexed<Anchor>>,
    /// The memberships.
    pub memberships: Vec<IndexedMember>,
    /// The relations.
    pub relations: Vec<IndexedRelation>,
    /// What is the matter with the map.
    pub diagnostics: Vec<Diagnostic>,
}

/// The mathematical content of a [`Index`].
#[verifier::ext_equal]
pub ghost struct IndexView {
    pub schema: u32,
    pub root: Seq<char>,
    pub generated_at: Timestamp,
    pub workspace_fingerprint: Seq<char>,
    pub metadata_fingerprint: Seq<char>,
    pub config_fingerprint: Seq<char>,
    pub files: Map<Seq<char>, FileRecordView>,
    pub source_documents: Map<Seq<char>, SourceDocumentView>,
    pub strands: Map<Seq<char>, IndexedView<StrandView>>,
    pub anchors: Map<Seq<char>, IndexedView<AnchorView>>,
    pub memberships: Seq<IndexedMemberView>,
    pub relations: Seq<IndexedRelationView>,
    pub diagnostics: Seq<DiagnosticView>,
}

impl View for Index {
    type V = IndexView;

    open spec fn view(&self) -> IndexView {
        IndexView {
            schema: self.schema.deep_view(),
            root: self.root.deep_view(),
            generated_at: self.generated_at.deep_view(),
            workspace_fingerprint: self.workspace_fingerprint.deep_view(),
            metadata_fingerprint: self.metadata_fingerprint.deep_view(),
            config_fingerprint: self.config_fingerprint.deep_view(),
            files: self.files.deep_view(),
            source_documents: self.source_documents.deep_view(),
            strands: self.strands.deep_view(),
            anchors: self.anchors.deep_view(),
            memberships: self.memberships.deep_view(),
            relations: self.relations.deep_view(),
            diagnostics: self.diagnostics.deep_view(),
        }
    }
}

impl DeepView for Index {
    type V = IndexView;

    open spec fn deep_view(&self) -> IndexView {
        self@
    }
}

impl Duplicate for Index {
    fn duplicate(&self) -> (r: Self) {
        Index {
            schema: self.schema,
            root: self.root.duplicate(),
            generated_at: self.generated_at,
            workspace_fingerprint: self.workspace_fingerprint.duplicate(),
            metadata_fingerprint: self.metadata_fingerprint.duplicate(),
            config_fingerprint: self.config_fingerprint.duplicate(),
            files: self.files.duplicate(),
            source_documents: self.source_documents.duplicate(),
            strands: self.strands.duplicate(),
            anchors: self.anchors.duplicate(),
            memberships: self.memberships.duplicate(),
            relations: self.relations.duplicate(),
            diagnostics: self.diagnostics.duplicate(),
        }
    }
}

/// What happened to a file.
#[derive(Debug, Clone, Copy, PartialEq, Eq, Structural)]
pub enum ChangeStatus {
    /// It is new.
    Added,
    /// It is gone.
    Deleted,
    /// It has another name.
    Renamed,
    /// It is a copy.
    Copied,
    /// Its contents differ.
    Modified,
    /// It is not tracked yet.
    Untracked,
}

impl DeepView for ChangeStatus {
    type V = ChangeStatus;

    open spec fn deep_view(&self) -> ChangeStatus {
        *self
    }
}

impl Duplicate for ChangeStatus {
    fn duplicate(&self) -> (r: Self) {
        *self
    }
}

impl Default for ChangeStatus {
    fn default() -> (r: Self)
        ensures
            r == ChangeStatus::Modified,
    {
        ChangeStatus::Modified
    }
}

/// A file that changed.
#[derive(Debug, Clone, PartialEq)]
pub struct ChangedFile {
    /// The file.
    pub path: String,
    /// Its path before.
    pub old_path: Option<String>,
    /// What happened to it.
    pub status: ChangeStatus,
    /// The lines that changed.
    pub ranges: Vec<LineRange>,
    /// Whether the whole file counts as changed.
    pub whole_file: bool,
}

/// The mathematical content of a [`ChangedFile`].
#[verifier::ext_equal]
pub ghost struct ChangedFileView {
    pub path: Seq<char>,
    pub old_path: Option<Seq<char>>,
    pub status: ChangeStatus,
    pub ranges: Seq<LineRangeView>,
    pub whole_file: bool,
}

impl View for ChangedFile {
    type V = ChangedFileView;

    open spec fn view(&self) -> ChangedFileView {
        ChangedFileView {
            path: self.path.deep_view(),
            old_path: self.old_path.deep_view(),
            status: self.status.deep_view(),
            ranges: self.ranges.deep_view(),
            whole_file: self.whole_file.deep_view(),
        }
    }
}

impl DeepView for ChangedFile {
    type V = ChangedFileView;

    open spec fn deep_view(&self) -> ChangedFileView {
        self@
    }
}

impl Duplicate for ChangedFile {
    fn duplicate(&self) -> (r: Self) {
        ChangedFile {
            path: self.path.duplicate(),
            old_path: self.old_path.duplicate(),
            status: self.status,
            ranges: self.ranges.duplicate(),
            whole_file: self.whole_file,
        }
    }
}

/// A line that a change takes away.
#[derive(Debug, Clone, PartialEq)]
pub struct RemovedLine {
    /// The file, before the change.
    pub path: String,
    /// The line, before the change.
    pub line: u32,
    /// What it said.
    pub text: String,
}

/// The mathematical content of a [`RemovedLine`].
#[verifier::ext_equal]
pub ghost struct RemovedLineView {
    pub path: Seq<char>,
    pub line: u32,
    pub text: Seq<char>,
}

impl View for RemovedLine {
    type V = RemovedLineView;

    open spec fn view(&self) -> RemovedLineView {
        RemovedLineView {
            path: self.path.deep_view(),
            line: self.line.deep_view(),
            text: self.text.deep_view(),
        }
    }
}

impl DeepView for RemovedLine {
    type V = RemovedLineView;

    open spec fn deep_view(&self) -> RemovedLineView {
        self@
    }
}

impl Duplicate for RemovedLine {
    fn duplicate(&self) -> (r: Self) {
        RemovedLine {
            path: self.path.duplicate(),
            line: self.line,
            text: self.text.duplicate(),
        }
    }
}

/// A change of the repository.
#[derive(Debug, Clone, PartialEq)]
pub struct ChangeSet {
    /// What the change is.
    pub description: String,
    /// A fingerprint of the change.
    pub fingerprint: String,
    /// The files that changed.
    pub files: Vec<ChangedFile>,
    /// The lines that the change takes away.
    pub removed_lines: Vec<RemovedLine>,
}

/// The mathematical content of a [`ChangeSet`].
#[verifier::ext_equal]
pub ghost struct ChangeSetView {
    pub description: Seq<char>,
    pub fingerprint: Seq<char>,
    pub files: Seq<ChangedFileView>,
    pub removed_lines: Seq<RemovedLineView>,
}

impl View for ChangeSet {
    type V = ChangeSetView;

    open spec fn view(&self) -> ChangeSetView {
        ChangeSetView {
            description: self.description.deep_view(),
            fingerprint: self.fingerprint.deep_view(),
            files: self.files.deep_view(),
            removed_lines: self.removed_lines.deep_view(),
        }
    }
}

impl DeepView for ChangeSet {
    type V = ChangeSetView;

    open spec fn deep_view(&self) -> ChangeSetView {
        self@
    }
}

impl Duplicate for ChangeSet {
    fn duplicate(&self) -> (r: Self) {
        ChangeSet {
            description: self.description.duplicate(),
            fingerprint: self.fingerprint.duplicate(),
            files: self.files.duplicate(),
            removed_lines: self.removed_lines.duplicate(),
        }
    }
}

/// An anchor that a change reaches.
#[derive(Debug, Clone, PartialEq)]
pub struct AffectedAnchor {
    /// The anchor.
    pub id: String,
    /// Why it is reached.
    pub reason: String,
    /// Whether the change touches it directly.
    pub direct: bool,
    /// Its role in the strand.
    pub role: Option<String>,
    /// The anchor itself, where it is known.
    pub anchor: Option<Anchor>,
}

/// The mathematical content of a [`AffectedAnchor`].
#[verifier::ext_equal]
pub ghost struct AffectedAnchorView {
    pub id: Seq<char>,
    pub reason: Seq<char>,
    pub direct: bool,
    pub role: Option<Seq<char>>,
    pub anchor: Option<AnchorView>,
}

impl View for AffectedAnchor {
    type V = AffectedAnchorView;

    open spec fn view(&self) -> AffectedAnchorView {
        AffectedAnchorView {
            id: self.id.deep_view(),
            reason: self.reason.deep_view(),
            direct: self.direct.deep_view(),
            role: self.role.deep_view(),
            anchor: self.anchor.deep_view(),
        }
    }
}

impl DeepView for AffectedAnchor {
    type V = AffectedAnchorView;

    open spec fn deep_view(&self) -> AffectedAnchorView {
        self@
    }
}

impl Duplicate for AffectedAnchor {
    fn duplicate(&self) -> (r: Self) {
        AffectedAnchor {
            id: self.id.duplicate(),
            reason: self.reason.duplicate(),
            direct: self.direct,
            role: self.role.duplicate(),
            anchor: self.anchor.duplicate(),
        }
    }
}

/// A strand that a change reaches.
#[derive(Debug, Clone, PartialEq)]
pub struct AffectedStrand {
    /// The strand.
    pub id: String,
    /// Its intent.
    pub intent: String,
    /// Whether the change touches one of its members directly.
    pub direct: bool,
    /// Its members that are reached.
    pub anchors: Vec<AffectedAnchor>,
}

/// The mathematical content of a [`AffectedStrand`].
#[verifier::ext_equal]
pub ghost struct AffectedStrandView {
    pub id: Seq<char>,
    pub intent: Seq<char>,
    pub direct: bool,
    pub anchors: Seq<AffectedAnchorView>,
}

impl View for AffectedStrand {
    type V = AffectedStrandView;

    open spec fn view(&self) -> AffectedStrandView {
        AffectedStrandView {
            id: self.id.deep_view(),
            intent: self.intent.deep_view(),
            direct: self.direct.deep_view(),
            anchors: self.anchors.deep_view(),
        }
    }
}

impl DeepView for AffectedStrand {
    type V = AffectedStrandView;

    open spec fn deep_view(&self) -> AffectedStrandView {
        self@
    }
}

impl Duplicate for AffectedStrand {
    fn duplicate(&self) -> (r: Self) {
        AffectedStrand {
            id: self.id.duplicate(),
            intent: self.intent.duplicate(),
            direct: self.direct,
            anchors: self.anchors.duplicate(),
        }
    }
}

/// What a change reaches.
#[derive(Debug, Clone, PartialEq)]
pub struct ContextPacket {
    /// The change.
    pub changes: ChangeSet,
    /// The strands that it reaches.
    pub strands: Vec<AffectedStrand>,
    /// Anchors reached outside those strands.
    pub related_anchors: Vec<AffectedAnchor>,
    /// Changed files that no anchor watches.
    pub unmatched_files: Vec<String>,
    /// What is the matter with the map.
    pub diagnostics: Vec<Diagnostic>,
}

/// The mathematical content of a [`ContextPacket`].
#[verifier::ext_equal]
pub ghost struct ContextPacketView {
    pub changes: ChangeSetView,
    pub strands: Seq<AffectedStrandView>,
    pub related_anchors: Seq<AffectedAnchorView>,
    pub unmatched_files: Seq<Seq<char>>,
    pub diagnostics: Seq<DiagnosticView>,
}

impl View for ContextPacket {
    type V = ContextPacketView;

    open spec fn view(&self) -> ContextPacketView {
        ContextPacketView {
            changes: self.changes.deep_view(),
            strands: self.strands.deep_view(),
            related_anchors: self.related_anchors.deep_view(),
            unmatched_files: self.unmatched_files.deep_view(),
            diagnostics: self.diagnostics.deep_view(),
        }
    }
}

impl DeepView for ContextPacket {
    type V = ContextPacketView;

    open spec fn deep_view(&self) -> ContextPacketView {
        self@
    }
}

impl Duplicate for ContextPacket {
    fn duplicate(&self) -> (r: Self) {
        ContextPacket {
            changes: self.changes.duplicate(),
            strands: self.strands.duplicate(),
            related_anchors: self.related_anchors.duplicate(),
            unmatched_files: self.unmatched_files.duplicate(),
            diagnostics: self.diagnostics.duplicate(),
        }
    }
}

/// Where a review stands.
#[derive(Debug, Clone, Copy, PartialEq, Eq, Structural)]
pub enum ReviewStatus {
    /// Dispositions may be missing.
    Open,
    /// It is done.
    Complete,
}

impl DeepView for ReviewStatus {
    type V = ReviewStatus;

    open spec fn deep_view(&self) -> ReviewStatus {
        *self
    }
}

impl Duplicate for ReviewStatus {
    fn duplicate(&self) -> (r: Self) {
        *self
    }
}

/// What was decided for one anchor.
#[derive(Debug, Clone, PartialEq)]
pub struct ReviewDisposition {
    /// What was decided.
    pub disposition: String,
    /// Why.
    pub note: Option<String>,
    /// When.
    pub recorded_at: Timestamp,
}

/// The mathematical content of a [`ReviewDisposition`].
#[verifier::ext_equal]
pub ghost struct ReviewDispositionView {
    pub disposition: Seq<char>,
    pub note: Option<Seq<char>>,
    pub recorded_at: Timestamp,
}

impl View for ReviewDisposition {
    type V = ReviewDispositionView;

    open spec fn view(&self) -> ReviewDispositionView {
        ReviewDispositionView {
            disposition: self.disposition.deep_view(),
            note: self.note.deep_view(),
            recorded_at: self.recorded_at.deep_view(),
        }
    }
}

impl DeepView for ReviewDisposition {
    type V = ReviewDispositionView;

    open spec fn deep_view(&self) -> ReviewDispositionView {
        self@
    }
}

impl Duplicate for ReviewDisposition {
    fn duplicate(&self) -> (r: Self) {
        ReviewDisposition {
            disposition: self.disposition.duplicate(),
            note: self.note.duplicate(),
            recorded_at: self.recorded_at,
        }
    }
}

/// A review of a change.
#[derive(Debug, Clone, PartialEq)]
pub struct Review {
    /// The version of the format.
    pub schema: u32,
    /// The name of the review.
    pub id: String,
    /// Where it stands.
    pub status: ReviewStatus,
    /// When it was opened.
    pub created_at: Timestamp,
    /// When it was last written.
    pub updated_at: Timestamp,
    /// When it was completed.
    pub completed_at: Option<Timestamp>,
    /// A fingerprint of the change.
    pub change_fingerprint: String,
    /// What the change is.
    pub change_description: String,
    /// The anchors that need a disposition.
    pub required_anchors: StringSet,
    /// The anchors that the change reaches.
    pub anchors: StringSet,
    /// The strands that the change reaches.
    pub strands: StringSet,
    /// A fingerprint of each changed file, none where it is gone.
    pub file_fingerprints: StringMap<Option<String>>,
    /// What was decided for each anchor.
    pub dispositions: StringMap<ReviewDisposition>,
    /// Free attributes.
    pub attributes: Attributes,
}

/// The mathematical content of a [`Review`].
#[verifier::ext_equal]
pub ghost struct ReviewView {
    pub schema: u32,
    pub id: Seq<char>,
    pub status: ReviewStatus,
    pub created_at: Timestamp,
    pub updated_at: Timestamp,
    pub completed_at: Option<Timestamp>,
    pub change_fingerprint: Seq<char>,
    pub change_description: Seq<char>,
    pub required_anchors: Set<Seq<char>>,
    pub anchors: Set<Seq<char>>,
    pub strands: Set<Seq<char>>,
    pub file_fingerprints: Map<Seq<char>, Option<Seq<char>>>,
    pub dispositions: Map<Seq<char>, ReviewDispositionView>,
    pub attributes: Map<Seq<char>, ValueView>,
}

impl View for Review {
    type V = ReviewView;

    open spec fn view(&self) -> ReviewView {
        ReviewView {
            schema: self.schema.deep_view(),
            id: self.id.deep_view(),
            status: self.status.deep_view(),
            created_at: self.created_at.deep_view(),
            updated_at: self.updated_at.deep_view(),
            completed_at: self.completed_at.deep_view(),
            change_fingerprint: self.change_fingerprint.deep_view(),
            change_description: self.change_description.deep_view(),
            required_anchors: self.required_anchors.deep_view(),
            anchors: self.anchors.deep_view(),
            strands: self.strands.deep_view(),
            file_fingerprints: self.file_fingerprints.deep_view(),
            dispositions: self.dispositions.deep_view(),
            attributes: self.attributes.deep_view(),
        }
    }
}

impl DeepView for Review {
    type V = ReviewView;

    open spec fn deep_view(&self) -> ReviewView {
        self@
    }
}

impl Duplicate for Review {
    fn duplicate(&self) -> (r: Self) {
        Review {
            schema: self.schema,
            id: self.id.duplicate(),
            status: self.status,
            created_at: self.created_at,
            updated_at: self.updated_at,
            completed_at: self.completed_at.duplicate(),
            change_fingerprint: self.change_fingerprint.duplicate(),
            change_description: self.change_description.duplicate(),
            required_anchors: self.required_anchors.duplicate(),
            anchors: self.anchors.duplicate(),
            strands: self.strands.duplicate(),
            file_fingerprints: self.file_fingerprints.duplicate(),
            dispositions: self.dispositions.duplicate(),
            attributes: self.attributes.duplicate(),
        }
    }
}

} // verus!

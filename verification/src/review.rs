//! Reviews: what is decided for each anchor that a change reaches.

use vstd::prelude::*;

use crate::collections::{ordered, StringMap, StringSet};
use crate::config::{no_attributes, Config, ConfigView};
use crate::metadata::is_name_char;
use crate::model::{
    AffectedAnchor, AffectedAnchorView, AffectedStrand, AffectedStrandView, ChangedFile,
    ChangedFileView, ContextPacket, ContextPacketView, FileRecord, FileRecordView, Index, IndexView,
    IndexedMember, IndexedMemberView, Review, ReviewDisposition, ReviewDispositionView,
    ReviewStatus, ReviewView, Timestamp,
};
use crate::paths::{join_path, joined};
use crate::repo::Repository;
use crate::text::{
    blank, chars_of, copy_option, debug_quoted, debug_text, decimal, decimal_text, is_blank, join,
    join_texts, option_is, same_option, same_text,
};
use crate::views::{outcome, push_item, Duplicate};

verus! {

/// Whether a text can name a review.
pub open spec fn is_review_id(id: Seq<char>) -> bool {
    id.len() > 0 && forall|i: int| 0 <= i < id.len() ==> is_name_char(#[trigger] id[i])
}

/// What is said of a text that cannot name a review.
pub open spec fn said_of_id() -> Seq<char> {
    "review ids may contain only letters, digits, '.', '-', and '_'"@
}

/// Checks the name of a review.
pub fn validate_id(id: &str) -> (r: Result<(), String>)
    ensures
        match r {
            Ok(_) => is_review_id(id@),
            Err(message) => !is_review_id(id@) && message@ == said_of_id(),
        },
{
    let chars = chars_of(id);
    let mut fits = chars.len() > 0;
    let mut i: usize = 0;
    while fits && i < chars.len()
        invariant
            i <= chars@.len(),
            chars@ == id@,
            fits ==> chars@.len() > 0 && forall|k: int|
                0 <= k < i ==> is_name_char(#[trigger] id@[k]),
            !fits ==> !is_review_id(id@),
        decreases chars@.len() - i,
    {
        let c = chars[i];
        if !(c == '-' || c == '_' || c == '.' || ('a' <= c && c <= 'z') || ('A' <= c && c <= 'Z')
            || ('0' <= c && c <= '9')) {
            assert(!is_name_char(id@[i as int]));
            fits = false;
        }
        i += 1;
    }
    if fits {
        Ok(())
    } else {
        Err("review ids may contain only letters, digits, '.', '-', and '_'".to_owned())
    }
}

/// Where a review is kept.
pub open spec fn review_file(
    metadata_dir: Seq<char>,
    directory: Seq<char>,
    id: Seq<char>,
) -> Seq<char> {
    joined(joined(metadata_dir, directory), id + ".yaml"@)
}

/// Where the reviews are kept.
pub fn review_directory(repo: &Repository, config: &Config) -> (r: String)
    ensures
        r@ == joined(repo.metadata_dir@, config@.reviews.path),
{
    join_path(repo.metadata_dir.as_str(), config.reviews.path.as_str())
}

/// Where a review is kept.
pub fn review_path(repo: &Repository, config: &Config, id: &str) -> (r: Result<String, String>)
    ensures
        outcome(r) == if is_review_id(id@) {
            Ok(review_file(repo.metadata_dir@, config@.reviews.path, id@))
        } else {
            Err(said_of_id())
        },
{
    match validate_id(id) {
        Ok(_) => {},
        Err(message) => {
            return Err(message);
        },
    }
    let mut name = id.to_owned();
    name.push_str(".yaml");
    let directory = review_directory(repo, config);
    Ok(join_path(directory.as_str(), name.as_str()))
}

/// What is said of a review that there is not.
pub fn unknown_review(id: &str) -> (r: String)
    ensures
        r@ == "unknown review "@ + debug_quoted(id@),
{
    let mut message = "unknown review ".to_owned();
    message.push_str(debug_text(id).as_str());
    message
}

/// The ids of the first `n` anchors.
pub open spec fn ids_of(anchors: Seq<AffectedAnchorView>, n: int) -> Set<Seq<char>>
    decreases n,
{
    if n <= 0 {
        Set::empty()
    } else {
        ids_of(anchors, n - 1).insert(anchors[n - 1].id)
    }
}

/// The ids of the anchors of the first `n` strands.
pub open spec fn member_ids(strands: Seq<AffectedStrandView>, n: int) -> Set<Seq<char>>
    decreases n,
{
    if n <= 0 {
        Set::empty()
    } else {
        member_ids(strands, n - 1).union(
            ids_of(strands[n - 1].anchors, strands[n - 1].anchors.len() as int),
        )
    }
}

/// The ids of the first `n` strands.
pub open spec fn ids_of_strands(strands: Seq<AffectedStrandView>, n: int) -> Set<Seq<char>>
    decreases n,
{
    if n <= 0 {
        Set::empty()
    } else {
        ids_of_strands(strands, n - 1).insert(strands[n - 1].id)
    }
}

/// Whether an anchor is a member of a strand that has to be looked at.
pub open spec fn is_required_member(
    memberships: Seq<IndexedMemberView>,
    strand: Seq<char>,
    anchor: Seq<char>,
) -> bool {
    exists|i: int|
        0 <= i < memberships.len() && (#[trigger] memberships[i]).strand == Some(strand)
            && memberships[i].member.anchor == anchor && memberships[i].member.required
}

/// Whether the anchors of a strand need a disposition.
pub open spec fn needs_disposition(index: IndexView, strand: Seq<char>) -> bool {
    if index.strands.contains_key(strand) {
        match index.strands[strand].value.on_change {
            Some(policy) => match policy.require_disposition {
                Some(required) => required,
                None => true,
            },
            None => true,
        }
    } else {
        true
    }
}

/// The anchors among the first `n` of a strand that need a disposition.
pub open spec fn required_of_strand(
    index: IndexView,
    strand: AffectedStrandView,
    all: bool,
    n: int,
) -> Set<Seq<char>>
    decreases n,
{
    if n <= 0 {
        Set::empty()
    } else {
        let before = required_of_strand(index, strand, all, n - 1);
        let id = strand.anchors[n - 1].id;
        if all || is_required_member(index.memberships, strand.id, id) {
            before.insert(id)
        } else {
            before
        }
    }
}

/// The anchors of the first `n` strands that need a disposition.
pub open spec fn required_members(
    index: IndexView,
    strands: Seq<AffectedStrandView>,
    all: bool,
    n: int,
) -> Set<Seq<char>>
    decreases n,
{
    if n <= 0 {
        Set::empty()
    } else {
        let before = required_members(index, strands, all, n - 1);
        let strand = strands[n - 1];
        if needs_disposition(index, strand.id) {
            before.union(
                required_of_strand(index, strand, all, strand.anchors.len() as int),
            )
        } else {
            before
        }
    }
}

/// The fingerprints of the first `n` changed files, none where a file is gone.
pub open spec fn fingerprints_of(
    files: Map<Seq<char>, FileRecordView>,
    changed: Seq<ChangedFileView>,
    n: int,
) -> Map<Seq<char>, Option<Seq<char>>>
    decreases n,
{
    if n <= 0 {
        Map::empty()
    } else {
        let path = changed[n - 1].path;
        fingerprints_of(files, changed, n - 1).insert(
            path,
            if files.contains_key(path) {
                files[path].content_hash
            } else {
                None
            },
        )
    }
}

/// A review of a change.
pub open spec fn review_of(
    config: ConfigView,
    index: IndexView,
    packet: ContextPacketView,
    id: Seq<char>,
    now: Timestamp,
) -> ReviewView {
    let all = config.reviews.require_all_members;
    let members = required_members(index, packet.strands, all, packet.strands.len() as int);
    let related = ids_of(packet.related_anchors, packet.related_anchors.len() as int);
    ReviewView {
        schema: 1,
        id,
        status: ReviewStatus::Open,
        created_at: now,
        updated_at: now,
        completed_at: None,
        change_fingerprint: packet.changes.fingerprint,
        change_description: packet.changes.description,
        required_anchors: if all {
            members.union(related)
        } else {
            members
        },
        anchors: member_ids(packet.strands, packet.strands.len() as int).union(related),
        strands: ids_of_strands(packet.strands, packet.strands.len() as int),
        file_fingerprints: fingerprints_of(
            index.files,
            packet.changes.files,
            packet.changes.files.len() as int,
        ),
        dispositions: Map::empty(),
        attributes: no_attributes(),
    }
}

/// A review of a change, or why it cannot be started. `exists` tells whether there is a
/// review of that name.
pub open spec fn started(
    config: ConfigView,
    index: IndexView,
    packet: ContextPacketView,
    id: Seq<char>,
    exists: bool,
    now: Timestamp,
) -> Result<ReviewView, Seq<char>> {
    if !is_review_id(id) {
        Err(said_of_id())
    } else if exists {
        Err("review "@ + debug_quoted(id) + " already exists"@)
    } else {
        Ok(review_of(config, index, packet, id, now))
    }
}

/// Adds the ids of anchors.
fn add_ids(ids: &mut StringSet, anchors: &Vec<AffectedAnchor>)
    ensures
        final(ids)@ == old(ids)@.union(ids_of(anchors.deep_view(), anchors@.len() as int)),
{
    let ghost start = ids@;
    let ghost all = anchors.deep_view();
    let mut i: usize = 0;
    assert(start.union(ids_of(all, 0)) =~= start);
    while i < anchors.len()
        invariant
            i <= anchors@.len(),
            all == anchors.deep_view(),
            ids@ == start.union(ids_of(all, i as int)),
        decreases anchors@.len() - i,
    {
        assert(all[i as int] == anchors@[i as int]@);
        ids.insert(anchors[i].id.clone());
        assert(ids@ =~= start.union(ids_of(all, i + 1)));
        i += 1;
    }
}

/// Whether an anchor is a member of a strand that has to be looked at.
fn member_is_required(memberships: &Vec<IndexedMember>, strand: &str, anchor: &str) -> (r: bool)
    ensures
        r == is_required_member(memberships.deep_view(), strand@, anchor@),
{
    let ghost all = memberships.deep_view();
    let mut i: usize = 0;
    while i < memberships.len()
        invariant
            i <= memberships@.len(),
            all == memberships.deep_view(),
            forall|k: int|
                0 <= k < i ==> !((#[trigger] all[k]).strand == Some(strand@)
                    && all[k].member.anchor == anchor@ && all[k].member.required),
        decreases memberships@.len() - i,
    {
        assert(all[i as int] == memberships@[i as int]@);
        if memberships[i].member.required && option_is(&memberships[i].strand, strand)
            && same_text(memberships[i].member.anchor.as_str(), anchor) {
            return true;
        }
        i += 1;
    }
    false
}

/// Whether the anchors of a strand need a disposition.
fn disposition_is_needed(index: &Index, strand: &str) -> (r: bool)
    ensures
        r == needs_disposition(index@, strand@),
{
    match index.strands.get(strand) {
        None => true,
        Some(indexed) => match &indexed.value.on_change {
            None => true,
            Some(policy) => match policy.require_disposition {
                None => true,
                Some(required) => required,
            },
        },
    }
}

/// Adds the anchors of a strand that need a disposition.
fn add_required(ids: &mut StringSet, index: &Index, strand: &AffectedStrand, everything: bool)
    ensures
        final(ids)@ == old(ids)@.union(
            required_of_strand(index@, strand@, everything, strand@.anchors.len() as int),
        ),
{
    let ghost start = ids@;
    let mut i: usize = 0;
    assert(start.union(required_of_strand(index@, strand@, everything, 0)) =~= start);
    while i < strand.anchors.len()
        invariant
            i <= strand.anchors@.len(),
            ids@ == start.union(required_of_strand(index@, strand@, everything, i as int)),
        decreases strand.anchors@.len() - i,
    {
        let anchor = &strand.anchors[i];
        assert(strand@.anchors[i as int] == anchor@);
        if everything || member_is_required(
            &index.memberships,
            strand.id.as_str(),
            anchor.id.as_str(),
        ) {
            ids.insert(anchor.id.clone());
        }
        assert(ids@ =~= start.union(required_of_strand(index@, strand@, everything, i + 1)));
        i += 1;
    }
}

/// The fingerprints of changed files, none where a file is gone.
fn collect_fingerprints(files: &StringMap<FileRecord>, changed: &Vec<ChangedFile>) -> (r: StringMap<
    Option<String>,
>)
    ensures
        r@ == fingerprints_of(files@, changed.deep_view(), changed@.len() as int),
{
    let ghost all = changed.deep_view();
    let mut out: StringMap<Option<String>> = StringMap::new();
    let mut i: usize = 0;
    while i < changed.len()
        invariant
            i <= changed@.len(),
            all == changed.deep_view(),
            out@ == fingerprints_of(files@, all, i as int),
        decreases changed@.len() - i,
    {
        assert(all[i as int] == changed@[i as int]@);
        let path = &changed[i].path;
        let hash = match files.get(path.as_str()) {
            Some(record) => copy_option(&record.content_hash),
            None => None,
        };
        out.insert(path.clone(), hash);
        i += 1;
    }
    out
}

/// Starts a review of a change.
pub fn start(
    config: &Config,
    index: &Index,
    packet: &ContextPacket,
    id: &str,
    exists: bool,
    now: Timestamp,
) -> (r: Result<Review, String>)
    ensures
        outcome(r) == started(config@, index@, packet@, id@, exists, now),
{
    match validate_id(id) {
        Ok(_) => {},
        Err(message) => {
            return Err(message);
        },
    }
    if exists {
        let mut message = "review ".to_owned();
        message.push_str(debug_text(id).as_str());
        message.push_str(" already exists");
        return Err(message);
    }
    let everything = config.reviews.require_all_members;
    let mut strands = StringSet::new();
    let mut anchors = StringSet::new();
    let mut required = StringSet::new();
    let mut i: usize = 0;
    while i < packet.strands.len()
        invariant
            i <= packet.strands@.len(),
            strands@ == ids_of_strands(packet@.strands, i as int),
            anchors@ == member_ids(packet@.strands, i as int),
            required@ == required_members(index@, packet@.strands, everything, i as int),
        decreases packet.strands@.len() - i,
    {
        let strand = &packet.strands[i];
        assert(packet@.strands[i as int] == strand@);
        assert(strand.anchors@.len() == strand.anchors.deep_view().len());
        strands.insert(strand.id.clone());
        add_ids(&mut anchors, &strand.anchors);
        if disposition_is_needed(index, strand.id.as_str()) {
            add_required(&mut required, index, strand, everything);
        }
        i += 1;
    }
    assert(packet.strands@.len() == packet@.strands.len());
    assert(packet.related_anchors@.len() == packet@.related_anchors.len());
    assert(packet.changes.files@.len() == packet@.changes.files.len());
    add_ids(&mut anchors, &packet.related_anchors);
    if everything {
        add_ids(&mut required, &packet.related_anchors);
    }
    let review = Review {
        schema: 1,
        id: id.to_owned(),
        status: ReviewStatus::Open,
        created_at: now,
        updated_at: now,
        completed_at: None,
        change_fingerprint: packet.changes.fingerprint.clone(),
        change_description: packet.changes.description.clone(),
        required_anchors: required,
        anchors,
        strands,
        file_fingerprints: collect_fingerprints(&index.files, &packet.changes.files),
        dispositions: StringMap::new(),
        attributes: StringMap::new(),
    };
    assert(review@.attributes =~= no_attributes());
    assert(review@ =~= review_of(config@, index@, packet@, id@, now));
    Ok(review)
}

/// What is wrong with a disposition.
pub open spec fn disposition_problem(config: ConfigView, disposition: Seq<char>) -> Option<Seq<char>> {
    let allowed = config.reviews.allowed_dispositions;
    if is_blank(disposition) {
        Some("disposition cannot be empty"@)
    } else if allowed != Set::<Seq<char>>::empty() && !allowed.contains(disposition) {
        Some(
            "disposition "@ + debug_quoted(disposition) + " is not allowed; configured values: "@
                + join(ordered(allowed), ", "@),
        )
    } else {
        None
    }
}

/// The texts of a set, with a separator between them.
pub fn join_set(items: &StringSet, separator: &str) -> (r: String)
    ensures
        r@ == join(ordered(items@), separator@),
{
    let n: usize = items.len();
    let mut list: Vec<String> = Vec::new();
    let mut i: usize = 0;
    while i < n
        invariant
            i <= n,
            n == ordered(items@).len(),
            list@.len() == i,
            forall|k: int| 0 <= k < i ==> #[trigger] list@[k]@ == ordered(items@)[k],
        decreases n - i,
    {
        list.push(items.item_at(i).clone());
        i += 1;
    }
    assert(list.deep_view() =~= ordered(items@));
    join_texts(&list, separator)
}

/// Checks a disposition.
pub fn check_disposition(config: &Config, disposition: &str) -> (r: Result<(), String>)
    ensures
        match r {
            Ok(_) => disposition_problem(config@, disposition@) is None,
            Err(message) => disposition_problem(config@, disposition@) == Some(message@),
        },
{
    if blank(disposition) {
        return Err("disposition cannot be empty".to_owned());
    }
    let allowed = &config.reviews.allowed_dispositions;
    if !allowed.is_empty() && !allowed.contains(disposition) {
        let mut message = "disposition ".to_owned();
        message.push_str(debug_text(disposition).as_str());
        message.push_str(" is not allowed; configured values: ");
        message.push_str(join_set(allowed, ", ").as_str());
        return Err(message);
    }
    Ok(())
}

/// A review with a disposition recorded.
pub open spec fn recorded(
    config: ConfigView,
    review: ReviewView,
    id: Seq<char>,
    anchor: Seq<char>,
    disposition: Seq<char>,
    note: Option<Seq<char>>,
    now: Timestamp,
) -> Result<ReviewView, Seq<char>> {
    if disposition_problem(config, disposition) is Some {
        Err(disposition_problem(config, disposition)->0)
    } else if review.status == ReviewStatus::Complete {
        Err(
            "review "@ + debug_quoted(id)
                + " is complete; reopen it before recording changes"@,
        )
    } else if !review.anchors.contains(anchor) {
        Err("anchor "@ + debug_quoted(anchor) + " is not part of review "@ + debug_quoted(id))
    } else {
        Ok(
            ReviewView {
                dispositions: review.dispositions.insert(
                    anchor,
                    ReviewDispositionView { disposition, note, recorded_at: now },
                ),
                updated_at: now,
                ..review
            },
        )
    }
}

/// Records a disposition in a review.
pub fn record(
    config: &Config,
    review: &Review,
    id: &str,
    anchor: &str,
    disposition: &str,
    note: &Option<String>,
    now: Timestamp,
) -> (r: Result<Review, String>)
    ensures
        outcome(r) == recorded(
            config@,
            review@,
            id@,
            anchor@,
            disposition@,
            note.deep_view(),
            now,
        ),
{
    match check_disposition(config, disposition) {
        Err(message) => {
            return Err(message);
        },
        Ok(_) => {},
    }
    if review.status == ReviewStatus::Complete {
        let mut message = "review ".to_owned();
        message.push_str(debug_text(id).as_str());
        message.push_str(" is complete; reopen it before recording changes");
        return Err(message);
    }
    if !review.anchors.contains(anchor) {
        let mut message = "anchor ".to_owned();
        message.push_str(debug_text(anchor).as_str());
        message.push_str(" is not part of review ");
        message.push_str(debug_text(id).as_str());
        return Err(message);
    }
    let mut dispositions = review.dispositions.duplicate();
    dispositions.insert(
        anchor.to_owned(),
        ReviewDisposition {
            disposition: disposition.to_owned(),
            note: copy_option(note),
            recorded_at: now,
        },
    );
    let mut changed = review.duplicate();
    changed.dispositions = dispositions;
    changed.updated_at = now;
    Ok(changed)
}

/// The anchors among the first `n` that have no disposition.
pub open spec fn without_disposition(
    anchors: Seq<Seq<char>>,
    dispositions: Set<Seq<char>>,
    n: int,
) -> Seq<Seq<char>>
    decreases n,
{
    if n <= 0 {
        seq![]
    } else if dispositions.contains(anchors[n - 1]) {
        without_disposition(anchors, dispositions, n - 1)
    } else {
        without_disposition(anchors, dispositions, n - 1).push(anchors[n - 1])
    }
}

/// The anchors that need a disposition and have none.
pub open spec fn missing_dispositions(review: ReviewView) -> Seq<Seq<char>> {
    without_disposition(
        ordered(review.required_anchors),
        review.dispositions.dom(),
        ordered(review.required_anchors).len() as int,
    )
}

/// The fingerprint of a file in the index, none where it is gone.
pub open spec fn current_fingerprint(files: Map<Seq<char>, FileRecordView>, path: Seq<char>) -> Option<
    Seq<char>,
> {
    if files.contains_key(path) {
        files[path].content_hash
    } else {
        None
    }
}

/// The files among the first `n` of a review that changed since it began.
pub open spec fn drifted_files(
    review: ReviewView,
    files: Map<Seq<char>, FileRecordView>,
    n: int,
) -> Seq<Seq<char>>
    decreases n,
{
    if n <= 0 {
        seq![]
    } else {
        let before = drifted_files(review, files, n - 1);
        let path = ordered(review.file_fingerprints.dom())[n - 1];
        if current_fingerprint(files, path) == review.file_fingerprints[path] {
            before
        } else {
            before.push(path)
        }
    }
}

/// A review that is completed, or why it is not.
pub open spec fn completed(
    review: ReviewView,
    index: IndexView,
    allow_incomplete: bool,
    allow_drift: bool,
    now: Timestamp,
) -> Result<ReviewView, Seq<char>> {
    let missing = missing_dispositions(review);
    let drifted = drifted_files(
        review,
        index.files,
        ordered(review.file_fingerprints.dom()).len() as int,
    );
    if review.status == ReviewStatus::Complete {
        Ok(review)
    } else if !allow_incomplete && missing.len() > 0 {
        Err(
            "review has "@ + decimal(missing.len()) + " missing disposition(s): "@ + join(
                missing,
                ", "@,
            ),
        )
    } else if !allow_drift && drifted.len() > 0 {
        Err(
            "reviewed files changed after the review began: "@ + join(drifted, ", "@)
                + "; inspect them and update dispositions, or use --allow-drift"@,
        )
    } else {
        Ok(
            ReviewView {
                status: ReviewStatus::Complete,
                updated_at: now,
                completed_at: Some(now),
                ..review
            },
        )
    }
}

/// The anchors that need a disposition and have none.
pub fn find_missing_dispositions(review: &Review) -> (r: Vec<String>)
    ensures
        r.deep_view() == missing_dispositions(review@),
{
    let n: usize = review.required_anchors.len();
    let ghost ids = ordered(review@.required_anchors);
    let ghost dom = review@.dispositions.dom();
    let mut out: Vec<String> = Vec::new();
    let mut i: usize = 0;
    assert(out.deep_view() =~= seq![]);
    while i < n
        invariant
            i <= n,
            n == ordered(review@.required_anchors).len(),
            ids == ordered(review@.required_anchors),
            dom == review@.dispositions.dom(),
            out.deep_view() == without_disposition(ids, dom, i as int),
        decreases n - i,
    {
        let id = review.required_anchors.item_at(i);
        if !review.dispositions.contains_key(id.as_str()) {
            push_item(&mut out, id.clone());
        }
        i += 1;
    }
    out
}

/// The files of a review that changed since it began.
fn find_drifted_files(review: &Review, files: &StringMap<FileRecord>) -> (r: Vec<String>)
    ensures
        r.deep_view() == drifted_files(
            review@,
            files@,
            ordered(review@.file_fingerprints.dom()).len() as int,
        ),
{
    let n: usize = review.file_fingerprints.len();
    let mut out: Vec<String> = Vec::new();
    let mut i: usize = 0;
    assert(out.deep_view() =~= seq![]);
    while i < n
        invariant
            i <= n,
            n == ordered(review@.file_fingerprints.dom()).len(),
            out.deep_view() == drifted_files(review@, files@, i as int),
        decreases n - i,
    {
        let path = review.file_fingerprints.key_at(i);
        let expected = review.file_fingerprints.value_at(i);
        let actual = match files.get(path.as_str()) {
            Some(record) => copy_option(&record.content_hash),
            None => None,
        };
        if !same_option(&actual, expected) {
            push_item(&mut out, path.clone());
        }
        i += 1;
    }
    out
}

/// Completes a review.
pub fn complete(
    review: &Review,
    index: &Index,
    allow_incomplete: bool,
    allow_drift: bool,
    now: Timestamp,
) -> (r: Result<Review, String>)
    ensures
        outcome(r) == completed(review@, index@, allow_incomplete, allow_drift, now),
{
    if review.status == ReviewStatus::Complete {
        return Ok(review.duplicate());
    }
    let missing = find_missing_dispositions(review);
    assert(missing@.len() == missing.deep_view().len());
    if !allow_incomplete && missing.len() > 0 {
        let mut message = "review has ".to_owned();
        message.push_str(decimal_text(missing.len() as u64).as_str());
        message.push_str(" missing disposition(s): ");
        message.push_str(join_texts(&missing, ", ").as_str());
        return Err(message);
    }
    if !allow_drift {
        let drifted = find_drifted_files(review, &index.files);
        assert(drifted@.len() == drifted.deep_view().len());
        if drifted.len() > 0 {
            let mut message = "reviewed files changed after the review began: ".to_owned();
            message.push_str(join_texts(&drifted, ", ").as_str());
            message.push_str("; inspect them and update dispositions, or use --allow-drift");
            return Err(message);
        }
    }
    let mut changed = review.duplicate();
    changed.status = ReviewStatus::Complete;
    changed.updated_at = now;
    changed.completed_at = Some(now);
    Ok(changed)
}

/// A review that is open again.
pub open spec fn reopened(review: ReviewView, now: Timestamp) -> ReviewView {
    ReviewView { status: ReviewStatus::Open, updated_at: now, completed_at: None, ..review }
}

/// Opens a review again.
pub fn reopen(review: &Review, now: Timestamp) -> (r: Review)
    ensures
        r@ == reopened(review@, now),
{
    let mut changed = review.duplicate();
    changed.status = ReviewStatus::Open;
    changed.updated_at = now;
    changed.completed_at = None;
    changed
}

/// Whether a review was opened before another.
pub open spec fn opened_before(a: ReviewView, b: ReviewView) -> bool {
    a.created_at.seconds < b.created_at.seconds || (a.created_at.seconds == b.created_at.seconds
        && a.created_at.nanos < b.created_at.nanos)
}

/// Whether a review was opened before another.
fn is_older(a: &Review, b: &Review) -> (r: bool)
    ensures
        r == opened_before(a@, b@),
{
    a.created_at.seconds < b.created_at.seconds || (a.created_at.seconds == b.created_at.seconds
        && a.created_at.nanos < b.created_at.nanos)
}

/// A review put behind the last one that does not come after it.
pub open spec fn insert_review(sorted: Seq<ReviewView>, x: ReviewView) -> Seq<ReviewView>
    decreases sorted.len(),
{
    if sorted.len() == 0 || !opened_before(x, sorted.last()) {
        sorted.push(x)
    } else {
        insert_review(sorted.drop_last(), x).push(sorted.last())
    }
}

/// Reviews in order; those that come neither before nor after each other stay as they were.
pub open spec fn sort_reviews(all: Seq<ReviewView>) -> Seq<ReviewView>
    decreases all.len(),
{
    if all.len() == 0 {
        all
    } else {
        insert_review(sort_reviews(all.drop_last()), all.last())
    }
}

proof fn lemma_insert_review(sorted: Seq<ReviewView>, x: ReviewView, at: int)
    requires
        0 <= at <= sorted.len(),
        forall|k: int| at <= k < sorted.len() ==> opened_before(x, #[trigger] sorted[k]),
        at > 0 ==> !opened_before(x, sorted[at - 1]),
    ensures
        insert_review(sorted, x) == sorted.insert(at, x),
    decreases sorted.len(),
{
    if at == sorted.len() {
        assert(sorted.insert(at, x) =~= sorted.push(x));
    } else {
        lemma_insert_review(sorted.drop_last(), x, at);
        assert(sorted.insert(at, x) =~= sorted.drop_last().insert(at, x).push(sorted.last()));
    }
}

/// Reviews in order.
fn sorted_reviews(all: &Vec<Review>) -> (r: Vec<Review>)
    ensures
        r.deep_view() == sort_reviews(all.deep_view()),
{
    let mut out: Vec<Review> = Vec::new();
    let ghost views = all.deep_view();
    let mut i: usize = 0;
    assert(views.take(0) =~= seq![]);
    assert(out.deep_view() =~= sort_reviews(views.take(0)));
    while i < all.len()
        invariant
            i <= all@.len(),
            views == all.deep_view(),
            out.deep_view() == sort_reviews(views.take(i as int)),
        decreases all@.len() - i,
    {
        let x = all[i].duplicate();
        assert(views[i as int] == x@);
        assert(views.take(i + 1).drop_last() =~= views.take(i as int));
        let ghost before = out.deep_view();
        let mut at: usize = out.len();
        while at > 0
            invariant
                at <= out@.len(),
                before == out.deep_view(),
                forall|k: int| at <= k < before.len() ==> opened_before(x@, #[trigger] before[k]),
            ensures
                at <= out@.len(),
                forall|k: int| at <= k < before.len() ==> opened_before(x@, #[trigger] before[k]),
                at > 0 ==> !opened_before(x@, before[at - 1]),
            decreases at,
        {
            assert(before[at - 1] == out@[at - 1]@);
            if !is_older(&x, &out[at - 1]) {
                break;
            }
            at -= 1;
        }
        proof {
            lemma_insert_review(before, x@, at as int);
        }
        let ghost view = x@;
        out.insert(at, x);
        assert(out.deep_view() =~= before.insert(at as int, view));
        i += 1;
    }
    assert(views.take(views.len() as int) =~= views);
    out
}

/// Reviews in the order in which they were opened.
pub fn list(reviews: &Vec<Review>) -> (r: Vec<Review>)
    ensures
        r.deep_view() == sort_reviews(reviews.deep_view()),
{
    sorted_reviews(reviews)
}

/// The last open review among the first `n`.
pub open spec fn last_open(reviews: Seq<ReviewView>, n: int) -> Option<ReviewView>
    decreases n,
{
    if n <= 0 {
        None
    } else if reviews[n - 1].status == ReviewStatus::Open {
        Some(reviews[n - 1])
    } else {
        last_open(reviews, n - 1)
    }
}

/// The review that is meant where none is named: the last open one, else the last one.
pub open spec fn current_review(reviews: Seq<ReviewView>) -> Result<ReviewView, Seq<char>> {
    match last_open(reviews, reviews.len() as int) {
        Some(review) => Ok(review),
        None => if reviews.len() > 0 {
            Ok(reviews.last())
        } else {
            Err("no reviews found"@)
        },
    }
}

/// The review that is meant where none is named. The reviews are in the order in which they
/// were opened.
pub fn get(reviews: &Vec<Review>) -> (r: Result<Review, String>)
    ensures
        outcome(r) == current_review(reviews.deep_view()),
{
    let ghost all = reviews.deep_view();
    let count: usize = reviews.len();
    let mut n: usize = count;
    while n > 0
        invariant
            n <= count,
            count == reviews@.len(),
            all == reviews.deep_view(),
            last_open(all, all.len() as int) == last_open(all, n as int),
        decreases n,
    {
        assert(all[n - 1] == reviews@[n - 1]@);
        if reviews[n - 1].status == ReviewStatus::Open {
            return Ok(reviews[n - 1].duplicate());
        }
        n -= 1;
    }
    if count > 0 {
        assert(all.last() == reviews@[count - 1]@);
        Ok(reviews[count - 1].duplicate())
    } else {
        Err("no reviews found".to_owned())
    }
}

/// Checks the format of a review.
pub fn check_schema(review: &Review) -> (r: Result<(), String>)
    ensures
        match r {
            Ok(_) => review@.schema == 1,
            Err(message) => review@.schema != 1 && message@ == "unsupported review schema "@
                + decimal(review@.schema as nat),
        },
{
    if review.schema != 1 {
        let mut message = "unsupported review schema ".to_owned();
        message.push_str(decimal_text(review.schema as u64).as_str());
        return Err(message);
    }
    Ok(())
}

proof fn lemma_without_disposition(
    anchors: Seq<Seq<char>>,
    dispositions: Set<Seq<char>>,
    n: int,
    i: int,
)
    requires
        0 <= i < n <= anchors.len(),
        without_disposition(anchors, dispositions, n).len() == 0,
    ensures
        dispositions.contains(anchors[i]),
    decreases n,
{
    if !dispositions.contains(anchors[n - 1]) {
        assert(without_disposition(anchors, dispositions, n).last() == anchors[n - 1]);
    } else if i < n - 1 {
        lemma_without_disposition(anchors, dispositions, n - 1, i);
    }
}

/// A review that is not said to be allowed to stay incomplete is completed only once every
/// anchor that needs a disposition has one.
pub proof fn completed_reviews_have_all_dispositions(
    review: ReviewView,
    index: IndexView,
    allow_drift: bool,
    now: Timestamp,
)
    requires
        review.status == ReviewStatus::Open,
        review.required_anchors.finite(),
        completed(review, index, false, allow_drift, now) is Ok,
    ensures
        review.required_anchors.subset_of(review.dispositions.dom()),
        completed(review, index, false, allow_drift, now)->Ok_0.status == ReviewStatus::Complete,
        completed(review, index, false, allow_drift, now)->Ok_0.dispositions
            == review.dispositions,
{
    let ids = ordered(review.required_anchors);
    crate::collections::lemma_orderable(review.required_anchors);
    assert forall|id: Seq<char>| review.required_anchors.contains(id) implies #[trigger]
        review.dispositions.dom().contains(id) by {
        assert(ids.to_set().contains(id));
        let i = ids.index_of(id);
        lemma_without_disposition(ids, review.dispositions.dom(), ids.len() as int, i);
    }
}

proof fn lemma_drifted(
    review: ReviewView,
    files: Map<Seq<char>, FileRecordView>,
    n: int,
    i: int,
)
    requires
        0 <= i < n <= ordered(review.file_fingerprints.dom()).len(),
        drifted_files(review, files, n).len() == 0,
    ensures
        current_fingerprint(files, ordered(review.file_fingerprints.dom())[i])
            == review.file_fingerprints[ordered(review.file_fingerprints.dom())[i]],
    decreases n,
{
    let path = ordered(review.file_fingerprints.dom())[n - 1];
    if current_fingerprint(files, path) != review.file_fingerprints[path] {
        assert(drifted_files(review, files, n).last() == path);
    } else if i < n - 1 {
        lemma_drifted(review, files, n - 1, i);
    }
}

/// A review that is not said to be allowed to drift is completed only while every reviewed
/// file is as it was when the review began.
pub proof fn completed_reviews_saw_the_files_as_they_are(
    review: ReviewView,
    index: IndexView,
    allow_incomplete: bool,
    now: Timestamp,
)
    requires
        review.status == ReviewStatus::Open,
        review.file_fingerprints.dom().finite(),
        completed(review, index, allow_incomplete, false, now) is Ok,
    ensures
        forall|path: Seq<char>| #[trigger]
            review.file_fingerprints.contains_key(path) ==> current_fingerprint(index.files, path)
                == review.file_fingerprints[path],
{
    let paths = ordered(review.file_fingerprints.dom());
    crate::collections::lemma_orderable(review.file_fingerprints.dom());
    assert forall|path: Seq<char>| #[trigger]
        review.file_fingerprints.contains_key(path) implies current_fingerprint(
        index.files,
        path,
    ) == review.file_fingerprints[path] by {
        assert(paths.to_set().contains(path));
        let i = paths.index_of(path);
        lemma_drifted(review, index.files, paths.len() as int, i);
    }
}

/// A completed review takes no more dispositions until it is opened again.
pub proof fn completed_reviews_are_closed(
    config: ConfigView,
    review: ReviewView,
    id: Seq<char>,
    anchor: Seq<char>,
    disposition: Seq<char>,
    note: Option<Seq<char>>,
    now: Timestamp,
)
    requires
        review.status == ReviewStatus::Complete,
    ensures
        recorded(config, review, id, anchor, disposition, note, now) is Err,
        review.anchors.contains(anchor) && disposition_problem(config, disposition) is None
            ==> recorded(
            config,
            reopened(review, now),
            id,
            anchor,
            disposition,
            note,
            now,
        ) is Ok,
{
}

/// A disposition that is recorded is allowed, is one of an anchor of the review, and leaves
/// those of other anchors as they are.
pub proof fn recorded_dispositions_are_allowed(
    config: ConfigView,
    review: ReviewView,
    id: Seq<char>,
    anchor: Seq<char>,
    disposition: Seq<char>,
    note: Option<Seq<char>>,
    now: Timestamp,
)
    ensures
        recorded(config, review, id, anchor, disposition, note, now) matches Ok(after) ==> {
            &&& !is_blank(disposition)
            &&& config.reviews.allowed_dispositions == Set::<Seq<char>>::empty()
                || config.reviews.allowed_dispositions.contains(disposition)
            &&& review.anchors.contains(anchor)
            &&& after.dispositions.contains_key(anchor)
            &&& after.dispositions[anchor].disposition == disposition
            &&& forall|other: Seq<char>|
                other != anchor ==> (#[trigger] after.dispositions.contains_key(other)
                    == review.dispositions.contains_key(other)) && (
                review.dispositions.contains_key(other) ==> after.dispositions[other]
                    == review.dispositions[other])
        },
{
}

/// The anchors that need a disposition are among the anchors of the review.
pub proof fn required_anchors_are_reviewed(
    config: ConfigView,
    index: IndexView,
    packet: ContextPacketView,
    id: Seq<char>,
    now: Timestamp,
)
    ensures
        review_of(config, index, packet, id, now).required_anchors.subset_of(
            review_of(config, index, packet, id, now).anchors,
        ),
{
    lemma_required_members(
        index,
        packet.strands,
        config.reviews.require_all_members,
        packet.strands.len() as int,
    );
}

proof fn lemma_required_of_strand(
    index: IndexView,
    strand: AffectedStrandView,
    all: bool,
    n: int,
)
    ensures
        required_of_strand(index, strand, all, n).subset_of(ids_of(strand.anchors, n)),
    decreases n,
{
    if n > 0 {
        lemma_required_of_strand(index, strand, all, n - 1);
    }
}

proof fn lemma_required_members(
    index: IndexView,
    strands: Seq<AffectedStrandView>,
    all: bool,
    n: int,
)
    ensures
        required_members(index, strands, all, n).subset_of(member_ids(strands, n)),
    decreases n,
{
    if n > 0 {
        lemma_required_members(index, strands, all, n - 1);
        lemma_required_of_strand(
            index,
            strands[n - 1],
            all,
            strands[n - 1].anchors.len() as int,
        );
    }
}

} // verus!

//! What holds of every review.

use vstd::prelude::*;

use crate::collections::{lemma_orderable, ordered};
use crate::config::ConfigView;
use crate::model::{
    AffectedAnchorView, AffectedStrandView, ChangedFileView, ContextPacketView, FileRecordView,
    IndexView, ReviewStatus, ReviewView, Timestamp,
};
use crate::review::{
    completed, current_review, drifted_files, fingerprints_of, ids_of, ids_of_strands, last_open,
    member_ids, missing_dispositions, recorded, reopened, required_members, required_of_strand,
    started, without_disposition,
};
use crate::text::is_blank;

verus! {

/// Whether an anchor is among some.
pub open spec fn names_one(anchors: Seq<AffectedAnchorView>, id: Seq<char>) -> bool {
    exists|k: int| 0 <= k < anchors.len() && (#[trigger] anchors[k]).id == id
}

/// Whether a policy of the index says that the anchors of a strand need no disposition.
pub open spec fn is_waived(index: IndexView, strand: Seq<char>) -> bool {
    &&& index.strands.contains_key(strand)
    &&& index.strands[strand].value.on_change is Some
    &&& index.strands[strand].value.on_change->0.require_disposition == Some(false)
}

/// Whether the index has an anchor as a required member of a strand.
pub open spec fn is_required_in(index: IndexView, strand: Seq<char>, id: Seq<char>) -> bool {
    exists|m: int|
        0 <= m < index.memberships.len() && (#[trigger] index.memberships[m]).strand == Some(strand)
            && index.memberships[m].member.anchor == id && index.memberships[m].member.required
}

/// Whether a strand asks for the disposition of an anchor.
pub open spec fn asks_for(
    config: ConfigView,
    index: IndexView,
    strand: AffectedStrandView,
    id: Seq<char>,
) -> bool {
    &&& names_one(strand.anchors, id)
    &&& !is_waived(index, strand.id)
    &&& config.reviews.require_all_members || is_required_in(index, strand.id, id)
}

proof fn lemma_ids_of(anchors: Seq<AffectedAnchorView>, n: int, id: Seq<char>)
    requires
        0 <= n <= anchors.len(),
    ensures
        ids_of(anchors, n).contains(id) <==> exists|k: int|
            0 <= k < n && (#[trigger] anchors[k]).id == id,
    decreases n,
{
    if n > 0 {
        lemma_ids_of(anchors, n - 1, id);
        if ids_of(anchors, n).contains(id) {
            if anchors[n - 1].id != id {
                let k = choose|k: int| 0 <= k < n - 1 && (#[trigger] anchors[k]).id == id;
                assert(anchors[k].id == id);
            }
        }
        if exists|k: int| 0 <= k < n && (#[trigger] anchors[k]).id == id {
            let k = choose|k: int| 0 <= k < n && (#[trigger] anchors[k]).id == id;
            if k < n - 1 {
                assert(anchors[k].id == id);
            }
        }
    }
}

proof fn lemma_required_of(
    config: ConfigView,
    index: IndexView,
    strand: AffectedStrandView,
    n: int,
    id: Seq<char>,
)
    requires
        0 <= n <= strand.anchors.len(),
    ensures
        required_of_strand(index, strand, config.reviews.require_all_members, n).contains(id) <==> (
        exists|k: int| 0 <= k < n && (#[trigger] strand.anchors[k]).id == id) && (
        config.reviews.require_all_members || is_required_in(index, strand.id, id)),
    decreases n,
{
    if n > 0 {
        lemma_required_of(config, index, strand, n - 1, id);
        if exists|k: int| 0 <= k < n && (#[trigger] strand.anchors[k]).id == id {
            let k = choose|k: int| 0 <= k < n && (#[trigger] strand.anchors[k]).id == id;
            if k < n - 1 {
                assert(strand.anchors[k].id == id);
            }
        }
        if exists|k: int| 0 <= k < n - 1 && (#[trigger] strand.anchors[k]).id == id {
            let k = choose|k: int| 0 <= k < n - 1 && (#[trigger] strand.anchors[k]).id == id;
            assert(strand.anchors[k].id == id);
        }
    }
}

proof fn lemma_of_strands(
    config: ConfigView,
    index: IndexView,
    strands: Seq<AffectedStrandView>,
    n: int,
    id: Seq<char>,
)
    requires
        0 <= n <= strands.len(),
    ensures
        required_members(index, strands, config.reviews.require_all_members, n).contains(id)
            <==> exists|s: int| 0 <= s < n && asks_for(config, index, #[trigger] strands[s], id),
        member_ids(strands, n).contains(id) <==> exists|s: int|
            0 <= s < n && names_one((#[trigger] strands[s]).anchors, id),
        ids_of_strands(strands, n).contains(id) <==> exists|s: int|
            0 <= s < n && (#[trigger] strands[s]).id == id,
    decreases n,
{
    let all = config.reviews.require_all_members;
    if n > 0 {
        lemma_of_strands(config, index, strands, n - 1, id);
        let last = strands[n - 1];
        let count = last.anchors.len() as int;
        lemma_required_of(config, index, last, count, id);
        lemma_ids_of(last.anchors, count, id);
        if exists|s: int| 0 <= s < n && asks_for(config, index, #[trigger] strands[s], id) {
            let s = choose|s: int| 0 <= s < n && asks_for(config, index, #[trigger] strands[s], id);
            if s < n - 1 {
                assert(asks_for(config, index, strands[s], id));
            }
        }
        if exists|s: int| 0 <= s < n - 1 && asks_for(config, index, #[trigger] strands[s], id) {
            let s = choose|s: int|
                0 <= s < n - 1 && asks_for(config, index, #[trigger] strands[s], id);
            assert(asks_for(config, index, strands[s], id));
        }
        if exists|s: int| 0 <= s < n && names_one((#[trigger] strands[s]).anchors, id) {
            let s = choose|s: int| 0 <= s < n && names_one((#[trigger] strands[s]).anchors, id);
            if s < n - 1 {
                assert(names_one(strands[s].anchors, id));
            }
        }
        if exists|s: int| 0 <= s < n - 1 && names_one((#[trigger] strands[s]).anchors, id) {
            let s = choose|s: int| 0 <= s < n - 1 && names_one((#[trigger] strands[s]).anchors, id);
            assert(names_one(strands[s].anchors, id));
        }
        if exists|s: int| 0 <= s < n && (#[trigger] strands[s]).id == id {
            let s = choose|s: int| 0 <= s < n && (#[trigger] strands[s]).id == id;
            if s < n - 1 {
                assert(strands[s].id == id);
            }
        }
        if exists|s: int| 0 <= s < n - 1 && (#[trigger] strands[s]).id == id {
            let s = choose|s: int| 0 <= s < n - 1 && (#[trigger] strands[s]).id == id;
            assert(strands[s].id == id);
        }
    }
}

/// A review that is started asks for the disposition of every anchor for which a strand of the
/// change asks, and of no other; where all members are required, also of every related anchor.
pub proof fn reviews_ask_for_every_strand(
    config: ConfigView,
    index: IndexView,
    packet: ContextPacketView,
    id: Seq<char>,
    exists_already: bool,
    now: Timestamp,
    anchor: Seq<char>,
)
    ensures
        started(config, index, packet, id, exists_already, now) matches Ok(review) ==> (
        review.required_anchors.contains(anchor) <==> (exists|s: int|
            0 <= s < packet.strands.len() && asks_for(
                config,
                index,
                #[trigger] packet.strands[s],
                anchor,
            )) || config.reviews.require_all_members && names_one(packet.related_anchors, anchor)),
{
    lemma_of_strands(config, index, packet.strands, packet.strands.len() as int, anchor);
    lemma_ids_of(packet.related_anchors, packet.related_anchors.len() as int, anchor);
}

/// A review that is started is about every anchor and every strand of the change, and about no
/// other.
pub proof fn reviews_are_about_their_change(
    config: ConfigView,
    index: IndexView,
    packet: ContextPacketView,
    id: Seq<char>,
    exists_already: bool,
    now: Timestamp,
    name: Seq<char>,
)
    ensures
        started(config, index, packet, id, exists_already, now) matches Ok(review) ==> {
            &&& review.anchors.contains(name) <==> names_one(packet.related_anchors, name) || (
            exists|s: int|
                0 <= s < packet.strands.len() && names_one(
                    (#[trigger] packet.strands[s]).anchors,
                    name,
                ))
            &&& review.strands.contains(name) <==> exists|s: int|
                0 <= s < packet.strands.len() && (#[trigger] packet.strands[s]).id == name
            &&& review.id == id
            &&& review.status == ReviewStatus::Open
            &&& review.created_at == now
            &&& review.change_fingerprint == packet.changes.fingerprint
            &&& review.change_description == packet.changes.description
            &&& !review.dispositions.contains_key(name)
        },
{
    lemma_of_strands(config, index, packet.strands, packet.strands.len() as int, name);
    lemma_ids_of(packet.related_anchors, packet.related_anchors.len() as int, name);
}

proof fn lemma_fingerprints(
    files: Map<Seq<char>, FileRecordView>,
    changed: Seq<ChangedFileView>,
    n: int,
    path: Seq<char>,
)
    requires
        0 <= n <= changed.len(),
    ensures
        fingerprints_of(files, changed, n).contains_key(path) <==> exists|i: int|
            0 <= i < n && (#[trigger] changed[i]).path == path,
        fingerprints_of(files, changed, n).contains_key(path) ==> fingerprints_of(
            files,
            changed,
            n,
        )[path] == hash_in(files, path),
    decreases n,
{
    if n > 0 {
        lemma_fingerprints(files, changed, n - 1, path);
        if exists|i: int| 0 <= i < n && (#[trigger] changed[i]).path == path {
            let i = choose|i: int| 0 <= i < n && (#[trigger] changed[i]).path == path;
            if i < n - 1 {
                assert(changed[i].path == path);
            }
        }
        if exists|i: int| 0 <= i < n - 1 && (#[trigger] changed[i]).path == path {
            let i = choose|i: int| 0 <= i < n - 1 && (#[trigger] changed[i]).path == path;
            assert(changed[i].path == path);
        }
    }
}

/// The hash of a file, none where it is gone.
pub open spec fn hash_in(files: Map<Seq<char>, FileRecordView>, path: Seq<char>) -> Option<
    Seq<char>,
> {
    if files.contains_key(path) {
        files[path].content_hash
    } else {
        None
    }
}

/// A review that is started keeps the hash of every changed file, and of no other.
pub proof fn reviews_keep_the_hashes_of_their_files(
    config: ConfigView,
    index: IndexView,
    packet: ContextPacketView,
    id: Seq<char>,
    exists_already: bool,
    now: Timestamp,
    path: Seq<char>,
)
    ensures
        started(config, index, packet, id, exists_already, now) matches Ok(review) ==> {
            &&& review.file_fingerprints.contains_key(path) <==> exists|i: int|
                0 <= i < packet.changes.files.len() && (#[trigger] packet.changes.files[i]).path
                    == path
            &&& review.file_fingerprints.contains_key(path) ==> review.file_fingerprints[path]
                == hash_in(index.files, path)
        },
{
    lemma_fingerprints(
        index.files,
        packet.changes.files,
        packet.changes.files.len() as int,
        path,
    );
}

/// A review is started under every name of letters, digits, dots, dashes and underscores that
/// no review has, and under no other.
pub proof fn reviews_start_under_a_free_name(
    config: ConfigView,
    index: IndexView,
    packet: ContextPacketView,
    id: Seq<char>,
    exists_already: bool,
    now: Timestamp,
)
    ensures
        started(config, index, packet, id, exists_already, now) is Ok <==> !exists_already
            && id.len() > 0 && forall|i: int|
            0 <= i < id.len() ==> {
                let c = #[trigger] id[i];
                ||| '0' <= c <= '9'
                ||| 'a' <= c <= 'z'
                ||| 'A' <= c <= 'Z'
                ||| c == '.'
                ||| c == '-'
                ||| c == '_'
            },
{
}

proof fn lemma_missing(anchors: Seq<Seq<char>>, dispositions: Set<Seq<char>>, n: int, id: Seq<char>)
    requires
        0 <= n <= anchors.len(),
    ensures
        without_disposition(anchors, dispositions, n).contains(id) <==> anchors.take(n).contains(id)
            && !dispositions.contains(id),
    decreases n,
{
    if n > 0 {
        lemma_missing(anchors, dispositions, n - 1, id);
        assert(anchors.take(n) =~= anchors.take(n - 1).push(anchors[n - 1]));
        lemma_pushed(anchors.take(n - 1), anchors[n - 1], id);
        lemma_pushed(without_disposition(anchors, dispositions, n - 1), anchors[n - 1], id);
    }
}

proof fn lemma_pushed(all: Seq<Seq<char>>, x: Seq<char>, y: Seq<char>)
    ensures
        all.push(x).contains(y) <==> all.contains(y) || x == y,
{
    if all.contains(y) {
        let i = all.index_of(y);
        assert(all.push(x)[i] == y);
    }
    if x == y {
        assert(all.push(x)[all.len() as int] == y);
    }
    if all.push(x).contains(y) {
        let i = all.push(x).index_of(y);
        if i < all.len() {
            assert(all[i] == y);
        }
    }
}

/// The missing dispositions of a review are those of the anchors that need one and have none.
pub proof fn missing_dispositions_are_told(review: ReviewView, id: Seq<char>)
    requires
        review.required_anchors.finite(),
    ensures
        missing_dispositions(review).contains(id) <==> review.required_anchors.contains(id)
            && !review.dispositions.contains_key(id),
{
    let ids = ordered(review.required_anchors);
    lemma_orderable(review.required_anchors);
    lemma_missing(ids, review.dispositions.dom(), ids.len() as int, id);
    assert(ids.take(ids.len() as int) =~= ids);
    assert(ids.to_set().contains(id) == ids.contains(id));
}

proof fn lemma_no_drift(review: ReviewView, files: Map<Seq<char>, FileRecordView>, n: int)
    requires
        0 <= n <= ordered(review.file_fingerprints.dom()).len(),
    ensures
        drifted_files(review, files, n).len() == 0 <==> forall|i: int|
            0 <= i < n ==> hash_in(
                files,
                #[trigger] ordered(review.file_fingerprints.dom())[i],
            ) == review.file_fingerprints[ordered(review.file_fingerprints.dom())[i]],
    decreases n,
{
    if n > 0 {
        lemma_no_drift(review, files, n - 1);
    }
}

/// An open review is completed if and only if every anchor that needs a disposition has one,
/// or that is waived, and every reviewed file is as it was when the review began, or that is
/// waived. What it holds stays as it is. A review that is complete stays so.
pub proof fn reviews_are_completed_where_nothing_is_missing(
    review: ReviewView,
    index: IndexView,
    allow_incomplete: bool,
    allow_drift: bool,
    now: Timestamp,
)
    requires
        review.required_anchors.finite(),
        review.file_fingerprints.dom().finite(),
    ensures
        review.status == ReviewStatus::Open ==> {
            &&& completed(review, index, allow_incomplete, allow_drift, now) is Ok <==> {
                &&& allow_incomplete || forall|id: Seq<char>| #[trigger]
                    review.required_anchors.contains(id) ==> review.dispositions.contains_key(id)
                &&& allow_drift || forall|path: Seq<char>| #[trigger]
                    review.file_fingerprints.contains_key(path) ==> hash_in(index.files, path)
                        == review.file_fingerprints[path]
            }
            &&& completed(review, index, allow_incomplete, allow_drift, now) matches Ok(after) ==> {
                &&& after.status == ReviewStatus::Complete
                &&& after.completed_at == Some(now)
                &&& after.dispositions == review.dispositions
                &&& after.required_anchors == review.required_anchors
                &&& after.anchors == review.anchors
                &&& after.strands == review.strands
                &&& after.file_fingerprints == review.file_fingerprints
                &&& after.id == review.id
            }
        },
        review.status == ReviewStatus::Complete ==> completed(
            review,
            index,
            allow_incomplete,
            allow_drift,
            now,
        ) == Ok::<ReviewView, Seq<char>>(review),
{
    let missing = missing_dispositions(review);
    if missing.len() > 0 {
        let id = missing[0];
        assert(missing.contains(id));
        missing_dispositions_are_told(review, id);
        assert(review.required_anchors.contains(id));
    } else {
        assert forall|id: Seq<char>| #[trigger]
            review.required_anchors.contains(id) implies review.dispositions.contains_key(id) by {
            missing_dispositions_are_told(review, id);
        }
    }
    let paths = ordered(review.file_fingerprints.dom());
    lemma_orderable(review.file_fingerprints.dom());
    lemma_no_drift(review, index.files, paths.len() as int);
    if drifted_files(review, index.files, paths.len() as int).len() == 0 {
        assert forall|path: Seq<char>| #[trigger]
            review.file_fingerprints.contains_key(path) implies hash_in(index.files, path)
            == review.file_fingerprints[path] by {
            assert(paths.to_set().contains(path));
            let i = paths.index_of(path);
            assert(paths[i] == path);
        }
    } else {
        let i = choose|i: int|
            0 <= i < paths.len() && hash_in(index.files, #[trigger] paths[i])
                != review.file_fingerprints[paths[i]];
        assert(paths.to_set().contains(paths[i]));
        assert(review.file_fingerprints.contains_key(paths[i]));
    }
}

/// A disposition is recorded if and only if it says something, is allowed, and is one of an
/// anchor of a review that is open. It is then kept, with its note and its time.
pub proof fn dispositions_are_recorded(
    config: ConfigView,
    review: ReviewView,
    id: Seq<char>,
    anchor: Seq<char>,
    disposition: Seq<char>,
    note: Option<Seq<char>>,
    now: Timestamp,
)
    ensures
        recorded(config, review, id, anchor, disposition, note, now) is Ok <==> {
            &&& !is_blank(disposition)
            &&& config.reviews.allowed_dispositions == Set::<Seq<char>>::empty()
                || config.reviews.allowed_dispositions.contains(disposition)
            &&& review.status == ReviewStatus::Open
            &&& review.anchors.contains(anchor)
        },
        recorded(config, review, id, anchor, disposition, note, now) matches Ok(after) ==> {
            &&& after.dispositions.contains_key(anchor)
            &&& after.dispositions[anchor].disposition == disposition
            &&& after.dispositions[anchor].note == note
            &&& after.dispositions[anchor].recorded_at == now
            &&& after.required_anchors == review.required_anchors
            &&& after.anchors == review.anchors
            &&& after.file_fingerprints == review.file_fingerprints
            &&& after.status == ReviewStatus::Open
        },
{
}

/// A review that is opened again is open and keeps its dispositions.
pub proof fn reviews_keep_their_dispositions_when_opened_again(review: ReviewView, now: Timestamp)
    ensures
        reopened(review, now).status == ReviewStatus::Open,
        reopened(review, now).completed_at is None,
        reopened(review, now).dispositions == review.dispositions,
        reopened(review, now).required_anchors == review.required_anchors,
        reopened(review, now).file_fingerprints == review.file_fingerprints,
{
}

proof fn lemma_last_open(reviews: Seq<ReviewView>, n: int)
    requires
        0 <= n <= reviews.len(),
    ensures
        match last_open(reviews, n) {
            Some(review) => exists|i: int|
                0 <= i < n && (#[trigger] reviews[i]) == review && reviews[i].status
                    == ReviewStatus::Open && forall|k: int|
                    i < k < n ==> (#[trigger] reviews[k]).status != ReviewStatus::Open,
            None => forall|k: int| 0 <= k < n ==> (#[trigger] reviews[k]).status
                != ReviewStatus::Open,
        },
    decreases n,
{
    if n > 0 {
        lemma_last_open(reviews, n - 1);
        if reviews[n - 1].status == ReviewStatus::Open {
            assert(reviews[n - 1] == last_open(reviews, n)->0);
        } else if last_open(reviews, n - 1) is Some {
            let review = last_open(reviews, n - 1)->0;
            let i = choose|i: int|
                0 <= i < n - 1 && (#[trigger] reviews[i]) == review && reviews[i].status
                    == ReviewStatus::Open && forall|k: int|
                    i < k < n - 1 ==> (#[trigger] reviews[k]).status != ReviewStatus::Open;
            assert(reviews[i] == review);
        }
    }
}

/// Where no review is named, the last open one is meant, and the last one where none is open.
pub proof fn the_last_open_review_is_meant(reviews: Seq<ReviewView>)
    ensures
        current_review(reviews) is Ok <==> reviews.len() > 0,
        current_review(reviews) matches Ok(review) ==> exists|i: int|
            0 <= i < reviews.len() && (#[trigger] reviews[i]) == review && if reviews[i].status
                == ReviewStatus::Open {
                forall|k: int|
                    i < k < reviews.len() ==> (#[trigger] reviews[k]).status != ReviewStatus::Open
            } else {
                &&& i == reviews.len() - 1
                &&& forall|k: int|
                    0 <= k < reviews.len() ==> (#[trigger] reviews[k]).status != ReviewStatus::Open
            },
{
    lemma_last_open(reviews, reviews.len() as int);
    match last_open(reviews, reviews.len() as int) {
        Some(review) => {
            let i = choose|i: int|
                0 <= i < reviews.len() && (#[trigger] reviews[i]) == review && reviews[i].status
                    == ReviewStatus::Open && forall|k: int|
                    i < k < reviews.len() ==> (#[trigger] reviews[k]).status != ReviewStatus::Open;
            assert(reviews[i] == review);
        },
        None => {
            if reviews.len() > 0 {
                assert(reviews[reviews.len() - 1] == reviews.last());
            }
        },
    }
}

} // verus!

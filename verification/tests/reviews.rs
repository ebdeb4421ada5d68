use strandmap::collections::{StringMap, StringSet};
use strandmap::config::Config;
use strandmap::model::{
    AffectedAnchor, AffectedStrand, ChangeSet, ChangeStatus, ChangedFile, ContextPacket,
    FileRecord, Index, Indexed, IndexedMember, Member, Provenance, Review, ReviewStatus, Strand,
    Timestamp,
};
use strandmap::repo::Repository;
use strandmap::review::{
    check_disposition, check_schema, complete, find_missing_dispositions, get, join_set, list,
    record, reopen, review_directory, review_path, start, unknown_review, validate_id,
};
use strandmap::summaries::{line_of_review, text_of_review, text_of_start};

fn at(seconds: i64) -> Timestamp {
    Timestamp { seconds, nanos: 0 }
}

fn provenance() -> Provenance {
    Provenance { source: "sidecar".into(), path: None, line: None }
}

fn anchor(id: &str) -> AffectedAnchor {
    AffectedAnchor {
        id: id.into(),
        reason: "changed".into(),
        direct: true,
        role: None,
        anchor: None,
    }
}

fn packet() -> ContextPacket {
    ContextPacket {
        changes: ChangeSet {
            description: "explicit files".into(),
            fingerprint: "f00".into(),
            files: vec![ChangedFile {
                path: "a.rs".into(),
                old_path: None,
                status: ChangeStatus::Modified,
                ranges: vec![],
                whole_file: true,
            }],
            removed_lines: vec![],
        },
        strands: vec![AffectedStrand {
            id: "contract".into(),
            intent: "agree".into(),
            direct: true,
            anchors: vec![anchor("one"), anchor("two")],
        }],
        related_anchors: vec![anchor("three")],
        unmatched_files: vec![],
        diagnostics: vec![],
    }
}

fn index(content: &str) -> Index {
    let mut files = StringMap::new();
    files.insert(
        "a.rs".into(),
        FileRecord {
            path: "a.rs".into(),
            size: 1,
            modified_ns: 1,
            content_hash: Some(content.into()),
            search_bloom: vec![],
            rust_test_ranges: vec![],
        },
    );
    let mut strands = StringMap::new();
    strands.insert(
        "contract".into(),
        Indexed {
            value: Strand {
                schema: 1,
                id: "contract".into(),
                title: None,
                intent: "agree".into(),
                scope: None,
                tags: StringSet::new(),
                members: vec![],
                relations: vec![],
                on_change: None,
                attributes: StringMap::new(),
            },
            provenance: provenance(),
        },
    );
    let member = |id: &str, required: bool| IndexedMember {
        strand: Some("contract".into()),
        member: Member {
            anchor: id.into(),
            role: None,
            required,
            attributes: StringMap::new(),
        },
        provenance: provenance(),
    };
    Index {
        schema: 5,
        root: "/work".into(),
        generated_at: at(0),
        workspace_fingerprint: String::new(),
        metadata_fingerprint: String::new(),
        config_fingerprint: String::new(),
        files,
        source_documents: StringMap::new(),
        strands,
        anchors: StringMap::new(),
        memberships: vec![member("one", true), member("two", false)],
        relations: vec![],
        diagnostics: vec![],
    }
}

fn started() -> Review {
    start(&Config::default(), &index("h1"), &packet(), "pr-1", false, at(10)).unwrap()
}

fn recorded() -> Review {
    let config = Config::default();
    record(&config, &started(), "pr-1", "one", "changed", &Some("fine".into()), at(20)).unwrap()
}

#[test]
fn reviews_start_with_what_has_to_be_looked_at() {
    let review = started();
    assert_eq!(review.status, ReviewStatus::Open);
    assert_eq!((review.created_at, review.updated_at), (at(10), at(10)));
    assert_eq!(review.anchors.len(), 3);
    assert_eq!(join_set(&review.required_anchors, ","), "one");
    assert_eq!(join_set(&review.strands, ","), "contract");
    assert_eq!(review.change_fingerprint, "f00");
    assert_eq!(review.file_fingerprints.get("a.rs"), Some(&Some("h1".to_string())));
    let mut config = Config::default();
    config.reviews.require_all_members = true;
    let all = start(&config, &index("h1"), &packet(), "pr-1", false, at(10)).unwrap();
    assert_eq!(join_set(&all.required_anchors, ","), "one,three,two");
}

#[test]
fn reviews_have_proper_names_of_their_own() {
    let config = Config::default();
    let again = start(&config, &index("h1"), &packet(), "pr-1", true, at(10)).unwrap_err();
    assert_eq!(again, "review \"pr-1\" already exists");
    assert_eq!(validate_id("A-z_0.9"), Ok(()));
    for id in ["", "a/b", "ä"] {
        assert_eq!(
            validate_id(id).unwrap_err(),
            "review ids may contain only letters, digits, '.', '-', and '_'"
        );
    }
    assert_eq!(unknown_review("x"), "unknown review \"x\"");
    let repo = Repository { root: "/work".into(), metadata_dir: "/work/.strandmap".into() };
    assert_eq!(review_directory(&repo, &config), "/work/.strandmap/reviews");
    assert_eq!(
        review_path(&repo, &config, "pr-1").unwrap(),
        "/work/.strandmap/reviews/pr-1.yaml"
    );
    assert!(review_path(&repo, &config, "../x").is_err());
}

#[test]
fn dispositions_are_recorded_while_a_review_is_open() {
    let review = recorded();
    let disposition = review.dispositions.get("one").unwrap();
    assert_eq!(disposition.disposition, "changed");
    assert_eq!(disposition.note.as_deref(), Some("fine"));
    assert_eq!((disposition.recorded_at, review.updated_at), (at(20), at(20)));
    let config = Config::default();
    let other = record(&config, &started(), "pr-1", "four", "changed", &None, at(20)).unwrap_err();
    assert_eq!(other, "anchor \"four\" is not part of review \"pr-1\"");
    let done = complete(&review, &index("h1"), false, false, at(30)).unwrap();
    let late = record(&config, &done, "pr-1", "one", "changed", &None, at(40)).unwrap_err();
    assert_eq!(late, "review \"pr-1\" is complete; reopen it before recording changes");
}

#[test]
fn dispositions_can_be_limited() {
    let mut config = Config::default();
    assert_eq!(check_disposition(&config, "anything"), Ok(()));
    assert_eq!(
        check_disposition(&config, " ").unwrap_err(),
        "disposition cannot be empty"
    );
    config.reviews.allowed_dispositions.insert("ok".into());
    config.reviews.allowed_dispositions.insert("bad".into());
    assert_eq!(check_disposition(&config, "ok"), Ok(()));
    assert_eq!(
        check_disposition(&config, "anything").unwrap_err(),
        "disposition \"anything\" is not allowed; configured values: bad, ok"
    );
}

#[test]
fn reviews_are_completed_once_nothing_is_missing() {
    assert_eq!(find_missing_dispositions(&started()), ["one"]);
    let early = complete(&started(), &index("h1"), false, false, at(30)).unwrap_err();
    assert_eq!(early, "review has 1 missing disposition(s): one");
    let forced = complete(&started(), &index("h1"), true, false, at(30)).unwrap();
    assert_eq!(forced.status, ReviewStatus::Complete);
    let done = complete(&recorded(), &index("h1"), false, false, at(30)).unwrap();
    assert_eq!(done.status, ReviewStatus::Complete);
    assert_eq!((done.updated_at, done.completed_at), (at(30), Some(at(30))));
    let again = complete(&done, &index("h2"), false, false, at(50)).unwrap();
    assert_eq!(again, done);
}

#[test]
fn reviews_are_of_files_as_they_were() {
    let drifted = complete(&recorded(), &index("h2"), false, false, at(30)).unwrap_err();
    assert_eq!(
        drifted,
        "reviewed files changed after the review began: a.rs; inspect them and update dispositions, or use --allow-drift"
    );
    assert!(complete(&recorded(), &index("h2"), false, true, at(30)).is_ok());
}

#[test]
fn reviews_can_be_opened_again() {
    let done = complete(&recorded(), &index("h1"), false, false, at(30)).unwrap();
    let open = reopen(&done, at(40));
    assert_eq!(open.status, ReviewStatus::Open);
    assert_eq!((open.updated_at, open.completed_at), (at(40), None));
    assert_eq!(open.dispositions, done.dispositions);
}

#[test]
fn the_last_open_review_is_the_current_one() {
    let mut first = started();
    first.created_at = at(1);
    let mut second = started();
    second.id = "pr-2".into();
    second.created_at = at(2);
    let sorted = list(&vec![second.clone(), first.clone()]);
    assert_eq!((sorted[0].id.as_str(), sorted[1].id.as_str()), ("pr-1", "pr-2"));
    assert_eq!(get(&sorted).unwrap().id, "pr-2");
    second.status = ReviewStatus::Complete;
    assert_eq!(get(&list(&vec![second.clone(), first.clone()])).unwrap().id, "pr-1");
    first.status = ReviewStatus::Complete;
    assert_eq!(get(&list(&vec![second, first])).unwrap().id, "pr-2");
    assert_eq!(get(&vec![]).unwrap_err(), "no reviews found");
}

#[test]
fn reviews_of_another_schema_are_refused() {
    let mut review = started();
    assert_eq!(check_schema(&review), Ok(()));
    review.schema = 2;
    assert_eq!(check_schema(&review).unwrap_err(), "unsupported review schema 2");
}

#[test]
fn reviews_are_shown() {
    assert_eq!(
        text_of_review(&recorded()),
        "Review pr-1: Open, 1 recorded, 1 required, 0 missing\n  one: changed\n  three: pending (optional)\n  two: pending (optional)\n"
    );
    assert_eq!(
        text_of_review(&started()),
        "Review pr-1: Open, 0 recorded, 1 required, 1 missing\n  one: pending (required)\n  three: pending (optional)\n  two: pending (optional)\n"
    );
    assert_eq!(
        text_of_start(&started(), ".strandmap/reviews/pr-1.yaml"),
        "Started review pr-1 with 1 required dispositions (.strandmap/reviews/pr-1.yaml)\n"
    );
    assert_eq!(line_of_review(&recorded()), "pr-1\tOpen\t1/1\texplicit files\n");
}

#[test]
fn only_allowed_dispositions_are_recorded() {
    let mut config = Config::default();
    let blank = record(&config, &started(), "pr-1", "one", " ", &None, at(20)).unwrap_err();
    assert_eq!(blank, "disposition cannot be empty");
    config.reviews.allowed_dispositions.insert("ok".into());
    let other = record(&config, &started(), "pr-1", "four", "changed", &None, at(20)).unwrap_err();
    assert_eq!(other, "disposition \"changed\" is not allowed; configured values: ok");
    let review = record(&config, &started(), "pr-1", "one", "ok", &None, at(20)).unwrap();
    assert_eq!(review.dispositions.get("one").unwrap().disposition, "ok");
}

use strandmap::cli::{
    AnchorAddArgs, AnchorSetArgs, MemberAddArgs, MemberRemoveArgs, RelationAddArgs,
    RelationRemoveArgs, StrandAddArgs, StrandSetArgs, WatchArg,
};
use strandmap::collections::{StringMap, StringSet};
use strandmap::edits::{
    add_member, add_relation, change_anchor, change_strand, make_location, members_without,
    new_anchor, new_strand, relation_known, relations_without, remove_member, remove_relation,
    validate_id, validate_location,
};
use strandmap::model::{Anchor, Location, Strand, WatchMode};

fn strand() -> Strand {
    new_strand(&StrandAddArgs {
        id: "contract".into(),
        intent: "Both ends agree".into(),
        title: Some("Contract".into()),
        scope: None,
        tags: vec!["b".into(), "a".into(), "b".into()],
    })
    .unwrap()
}

fn strand_changes() -> StrandSetArgs {
    StrandSetArgs {
        id: "contract".into(),
        intent: None,
        title: None,
        clear_title: false,
        scope: None,
        clear_scope: false,
        tags: vec![],
        remove_tags: vec![],
    }
}

fn anchor_args() -> AnchorAddArgs {
    AnchorAddArgs {
        id: "api.run".into(),
        target: None,
        kind: Some("code".into()),
        path: Some("./src/api.rs".into()),
        symbol: Some("run".into()),
        line_start: Some(3),
        line_end: Some(9),
        watch: Some(WatchArg::Range),
        tags: vec!["x".into()],
    }
}

fn anchor_changes() -> AnchorSetArgs {
    AnchorSetArgs {
        id: "api.run".into(),
        target: None,
        clear_target: false,
        kind: None,
        clear_kind: false,
        path: None,
        clear_location: false,
        symbol: None,
        clear_symbol: false,
        line_start: None,
        line_end: None,
        watch: None,
        tags: vec![],
        remove_tags: vec![],
    }
}

fn anchor() -> Anchor {
    new_anchor(&anchor_args()).unwrap()
}

fn member_args(anchor: &str) -> MemberAddArgs {
    MemberAddArgs {
        strand: "contract".into(),
        anchor: anchor.into(),
        role: Some("producer".into()),
        optional: true,
    }
}

fn relation_args() -> RelationAddArgs {
    RelationAddArgs {
        strand: "contract".into(),
        from: "a".into(),
        to: "b".into(),
        kind: "mirrors".into(),
        bidirectional: true,
    }
}

#[test]
fn ids_are_not_blank_and_have_no_spaces() {
    assert_eq!(validate_id("a.b", "strand"), Ok(()));
    for id in ["", " ", "a b", "a\tb"] {
        assert_eq!(
            validate_id(id, "anchor").unwrap_err(),
            "anchor id cannot be empty or contain whitespace"
        );
    }
}

#[test]
fn strands_are_made_of_their_arguments() {
    let strand = strand();
    assert_eq!((strand.schema, strand.id.as_str()), (1, "contract"));
    assert_eq!(strand.intent, "Both ends agree");
    assert_eq!(strand.title.as_deref(), Some("Contract"));
    assert_eq!(strand.tags.len(), 2);
    assert!(strand.members.is_empty() && strand.relations.is_empty());
    let blank = new_strand(&StrandAddArgs {
        id: "contract".into(),
        intent: " \n".into(),
        title: None,
        scope: None,
        tags: vec![],
    });
    assert_eq!(blank.unwrap_err(), "strand intent cannot be empty");
}

#[test]
fn strands_change_only_where_asked() {
    let changed = change_strand(
        &strand(),
        &StrandSetArgs {
            intent: Some("New".into()),
            clear_title: true,
            scope: Some("core".into()),
            tags: vec!["c".into()],
            remove_tags: vec!["a".into()],
            ..strand_changes()
        },
    )
    .unwrap();
    assert_eq!(changed.intent, "New");
    assert_eq!(changed.title, None);
    assert_eq!(changed.scope.as_deref(), Some("core"));
    assert!(changed.tags.contains("b") && changed.tags.contains("c"));
    assert!(!changed.tags.contains("a"));
    assert_eq!(change_strand(&strand(), &strand_changes()).unwrap(), strand());
    let blank = StrandSetArgs { intent: Some("".into()), ..strand_changes() };
    assert_eq!(
        change_strand(&strand(), &blank).unwrap_err(),
        "strand intent cannot be empty"
    );
}

#[test]
fn members_are_added_once_and_removed() {
    let with_member = add_member(&strand(), &member_args("a")).unwrap();
    assert_eq!(with_member.members[0].anchor, "a");
    assert_eq!(with_member.members[0].role.as_deref(), Some("producer"));
    assert!(!with_member.members[0].required);
    let again = add_member(&with_member, &member_args("a")).unwrap_err();
    assert_eq!(again, "anchor \"a\" already has that role in strand \"contract\"");
    let remove = MemberRemoveArgs { strand: "contract".into(), anchor: "a".into() };
    assert_eq!(remove_member(&with_member, &remove).unwrap(), strand());
    assert_eq!(
        remove_member(&strand(), &remove).unwrap_err(),
        "anchor \"a\" is not a sidecar member of strand \"contract\""
    );
    assert_eq!(members_without(&with_member.members, "a").len(), 0);
    assert_eq!(members_without(&with_member.members, "b").len(), 1);
}

#[test]
fn relations_are_added_once_and_removed() {
    let related = add_relation(&strand(), &relation_args()).unwrap();
    assert!(related.relations[0].bidirectional);
    assert!(relation_known(&related.relations, "a", "b", &"mirrors".to_string()));
    assert!(!relation_known(&related.relations, "b", "a", &"mirrors".to_string()));
    assert_eq!(
        add_relation(&related, &relation_args()).unwrap_err(),
        "that relationship already exists"
    );
    let remove = RelationRemoveArgs {
        strand: "contract".into(),
        from: "a".into(),
        to: "b".into(),
        kind: None,
    };
    assert_eq!(remove_relation(&related, &remove).unwrap(), strand());
    let other = RelationRemoveArgs { kind: Some("tests".into()), ..remove };
    assert_eq!(
        remove_relation(&related, &other).unwrap_err(),
        "matching sidecar relationship not found"
    );
    assert_eq!(relations_without(&related.relations, "a", "b", &None).len(), 0);
}

#[test]
fn anchors_are_made_of_their_arguments() {
    let anchor = anchor();
    let location = anchor.location.unwrap();
    assert_eq!(location.path, "src/api.rs");
    assert_eq!((location.line_start, location.line_end), (Some(3), Some(9)));
    assert_eq!(location.watch, Some(WatchMode::Range));
    assert_eq!(location.symbol.as_deref(), Some("run"));
    assert!(anchor.tags.contains("x"));
    let nothing = AnchorAddArgs {
        path: None,
        symbol: None,
        line_start: None,
        line_end: None,
        watch: None,
        ..anchor_args()
    };
    assert_eq!(new_anchor(&nothing).unwrap_err(), "anchor requires --target or --path");
    let outside = AnchorAddArgs { target: Some("rust://run".into()), ..nothing };
    assert_eq!(new_anchor(&outside).unwrap().location, None);
}

#[test]
fn locations_need_a_path_and_ordered_lines() {
    let none: Option<String> = None;
    assert_eq!(
        make_location(&none, &Some("run".into()), None, None, None).unwrap_err(),
        "--path is required with location-specific options"
    );
    assert_eq!(make_location(&none, &none, None, None, None).unwrap(), None);
    let up: Option<String> = Some("../x".into());
    assert_eq!(
        make_location(&up, &none, None, None, None).unwrap_err(),
        "location paths must be repository-relative and may not escape the repository"
    );
    let mut location = Location {
        path: "a".into(),
        line_start: Some(2),
        line_end: Some(1),
        symbol: None,
        language: None,
        fingerprint: None,
        watch: None,
    };
    assert_eq!(validate_location(&location).unwrap_err(), "invalid line range");
    location.line_end = Some(2);
    assert_eq!(validate_location(&location), Ok(()));
    location.line_start = Some(0);
    assert_eq!(validate_location(&location).unwrap_err(), "invalid line range");
    location.path = " ".into();
    assert_eq!(validate_location(&location).unwrap_err(), "location path cannot be empty");
}

#[test]
fn anchors_change_only_where_asked() {
    assert_eq!(change_anchor(&anchor(), &anchor_changes()).unwrap(), anchor());
    let moved = change_anchor(
        &anchor(),
        &AnchorSetArgs {
            path: Some("src/other.rs".into()),
            clear_symbol: true,
            clear_kind: true,
            remove_tags: vec!["x".into()],
            ..anchor_changes()
        },
    )
    .unwrap();
    let location = moved.location.unwrap();
    assert_eq!((location.path.as_str(), location.symbol), ("src/other.rs", None));
    assert_eq!(location.line_start, Some(3));
    assert_eq!(moved.kind, None);
    assert_eq!(moved.tags, StringSet::new());
}

#[test]
fn anchors_keep_something_to_stand_for() {
    let nowhere = AnchorSetArgs { clear_location: true, ..anchor_changes() };
    assert_eq!(
        change_anchor(&anchor(), &nowhere).unwrap_err(),
        "anchor requires a target or location"
    );
    let elsewhere = AnchorSetArgs { target: Some("urn:x".into()), ..nowhere };
    let changed = change_anchor(&anchor(), &elsewhere).unwrap();
    assert_eq!((changed.target.as_deref(), changed.location), (Some("urn:x"), None));
    let unplaced = Anchor {
        schema: 1,
        id: "u".into(),
        target: Some("urn:u".into()),
        kind: None,
        location: None,
        tags: StringSet::new(),
        attributes: StringMap::new(),
    };
    let lines = AnchorSetArgs { line_start: Some(1), ..anchor_changes() };
    assert_eq!(
        change_anchor(&unplaced, &lines).unwrap_err(),
        "--path is required when creating a location"
    );
}

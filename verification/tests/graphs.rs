use strandmap::cli::{AffectedArgs, ChangeArgs};
use strandmap::collections::{StringMap, StringSet};
use strandmap::commands::{
    affected_options, check_status, count_severity, match_status, migration_status,
    optional_override, set_from, validate_query_seeds,
};
use strandmap::config::Config;
use strandmap::graph::{
    affected, anchor_matches, context_from_seeds, merge_context, query, to_dot, to_mermaid,
    AffectedOptions, ContextSeeds,
};
use strandmap::model::{
    Anchor, ChangePolicy, ChangeSet, ChangeStatus, ChangedFile, ContextPacket, Diagnostic, Index,
    Indexed, IndexedMember, IndexedRelation, LineRange, Location, Member, Provenance, Relation,
    RemovedLine, Severity, Strand, Timestamp, WatchMode,
};
use strandmap::summaries::{text_of_check, text_of_context, text_of_diagnostic, text_of_index, text_of_query};

#[test]
fn range_matching_is_precise_but_file_mode_is_conservative() {
    let changed = ChangedFile {
        path: "src/lib.rs".into(),
        old_path: None,
        status: ChangeStatus::Modified,
        ranges: vec![LineRange { start: 20, end: 22 }],
        whole_file: false,
    };
    let mut location = Location {
        path: "src/lib.rs".into(),
        line_start: Some(1),
        line_end: Some(10),
        symbol: None,
        language: None,
        fingerprint: None,
        watch: Some(WatchMode::Range),
    };
    assert!(!anchor_matches(&location, &changed));
    location.watch = Some(WatchMode::File);
    assert!(anchor_matches(&location, &changed));
}

fn provenance() -> Provenance {
    Provenance { source: "annotation".into(), path: Some("notes.txt".into()), line: Some(1) }
}

fn anchor(id: &str, path: &str) -> Indexed<Anchor> {
    Indexed {
        value: Anchor {
            schema: 1,
            id: id.into(),
            target: None,
            kind: Some("code".into()),
            location: Some(Location {
                path: path.into(),
                line_start: Some(10),
                line_end: Some(12),
                symbol: None,
                language: None,
                fingerprint: None,
                watch: Some(WatchMode::Range),
            }),
            tags: StringSet::new(),
            attributes: StringMap::new(),
        },
        provenance: provenance(),
    }
}

fn strand(id: &str) -> Indexed<Strand> {
    Indexed {
        value: Strand {
            schema: 1,
            id: id.into(),
            title: None,
            intent: format!("{id} holds"),
            scope: None,
            tags: StringSet::new(),
            members: vec![],
            relations: vec![],
            on_change: None,
            attributes: StringMap::new(),
        },
        provenance: provenance(),
    }
}

fn membership(strand: &str, anchor: &str, role: &str, required: bool) -> IndexedMember {
    IndexedMember {
        strand: Some(strand.into()),
        member: Member {
            anchor: anchor.into(),
            role: Some(role.into()),
            required,
            attributes: StringMap::new(),
        },
        provenance: provenance(),
    }
}

fn edge(from: &str, to: &str, kind: &str) -> IndexedRelation {
    IndexedRelation {
        strand: None,
        relation: Relation {
            from: from.into(),
            to: to.into(),
            kind: kind.into(),
            bidirectional: false,
            attributes: StringMap::new(),
        },
        provenance: provenance(),
    }
}

/// Anchors a, b, c and d in files of their own; `main` has a and b; a - c - d are related.
fn index() -> Index {
    let mut anchors = StringMap::new();
    for id in ["a", "b", "c", "d"] {
        anchors.insert(id.into(), anchor(id, &format!("{id}.rs")));
    }
    let mut strands = StringMap::new();
    strands.insert("main".into(), strand("main"));
    Index {
        schema: 5,
        root: "/work".into(),
        generated_at: Timestamp { seconds: 0, nanos: 0 },
        workspace_fingerprint: String::new(),
        metadata_fingerprint: String::new(),
        config_fingerprint: String::new(),
        files: StringMap::new(),
        source_documents: StringMap::new(),
        strands,
        anchors,
        memberships: vec![
            membership("main", "a", "producer", true),
            membership("main", "b", "consumer", false),
        ],
        relations: vec![edge("a", "c", "tests"), edge("d", "c", "documents")],
        diagnostics: vec![],
    }
}

fn changed(path: &str, start: u32, end: u32) -> ChangeSet {
    ChangeSet {
        description: "diff HEAD".into(),
        fingerprint: String::new(),
        files: vec![ChangedFile {
            path: path.into(),
            old_path: None,
            status: ChangeStatus::Modified,
            ranges: vec![LineRange { start, end }],
            whole_file: false,
        }],
        removed_lines: vec![],
    }
}

fn options() -> AffectedOptions {
    AffectedOptions {
        depth: None,
        relations: StringSet::new(),
        tags: StringSet::new(),
        include_optional: None,
    }
}

fn reached(changes: ChangeSet, options: &AffectedOptions) -> ContextPacket {
    affected(&index(), changes, &StringMap::new(), &Config::default(), options)
}

fn ids(packet: &ContextPacket) -> Vec<String> {
    let strands = packet.strands.iter().flat_map(|strand| strand.anchors.iter());
    strands.chain(packet.related_anchors.iter()).map(|anchor| anchor.id.clone()).collect()
}

#[test]
fn changes_reach_members_and_neighbours() {
    let packet = reached(changed("a.rs", 11, 11), &options());
    assert_eq!(packet.strands[0].id, "main");
    assert!(packet.strands[0].direct);
    assert_eq!(packet.strands[0].intent, "main holds");
    assert_eq!(ids(&packet), ["a", "b", "c"]);
    assert_eq!(packet.strands[0].anchors[0].reason, "a.rs changed");
    assert!(packet.strands[0].anchors[0].direct);
    assert!(!packet.strands[0].anchors[1].direct);
    assert_eq!(packet.related_anchors[0].reason, "tests relationship from a");
    assert!(packet.unmatched_files.is_empty());
}

#[test]
fn changes_beside_an_anchor_match_nothing() {
    let packet = reached(changed("a.rs", 13, 20), &options());
    assert!(packet.strands.is_empty());
    assert_eq!(packet.unmatched_files, ["a.rs"]);
    assert_eq!(match_status(true, &packet, 0), 1);
    assert_eq!(match_status(true, &packet, 1), 0);
    assert_eq!(match_status(false, &packet, 0), 0);
}

#[test]
fn depth_bounds_what_is_reached() {
    let none = AffectedOptions { depth: Some(0), ..options() };
    assert_eq!(ids(&reached(changed("a.rs", 11, 11), &none)), ["a", "b"]);
    let two = AffectedOptions { depth: Some(2), ..options() };
    assert_eq!(ids(&reached(changed("a.rs", 11, 11), &two)), ["a", "b", "c", "d"]);
    let packet = reached(changed("c.rs", 11, 11), &options());
    assert!(ids(&packet).contains(&"a".to_string()));
    assert!(ids(&packet).contains(&"d".to_string()));
}

#[test]
fn more_depth_takes_nothing_away() {
    let shown = |depth: usize| {
        let packet = reached(
            changed("a.rs", 11, 11),
            &AffectedOptions { depth: Some(depth), ..options() },
        );
        let strands = packet.strands.iter().flat_map(|strand| strand.anchors.iter());
        strands
            .chain(packet.related_anchors.iter())
            .map(|anchor| (anchor.id.clone(), anchor.direct))
            .collect::<Vec<(String, bool)>>()
    };
    assert_eq!(shown(0), [("a".to_string(), true), ("b".to_string(), false)]);
    for depth in 0..4 {
        let near = shown(depth);
        let far = shown(depth + 1);
        assert!(near.iter().all(|anchor| far.contains(anchor)));
        assert!(far.iter().all(|anchor| near.contains(anchor) || !anchor.1));
    }
    assert_eq!(shown(2).len(), 4);
    assert_eq!(shown(3), shown(2));
}

#[test]
fn relations_are_filtered_by_kind() {
    let mut relations = StringSet::new();
    relations.insert("documents".into());
    let only = AffectedOptions { relations, ..options() };
    assert_eq!(ids(&reached(changed("a.rs", 11, 11), &only)), ["a", "b"]);
}

#[test]
fn optional_members_can_be_left_out() {
    let required = AffectedOptions { include_optional: Some(false), ..options() };
    assert_eq!(ids(&reached(changed("a.rs", 11, 11), &required)), ["a", "c"]);
    assert_eq!(optional_override(true, true), Some(true));
    assert_eq!(optional_override(false, true), Some(false));
    assert_eq!(optional_override(false, false), None);
}

#[test]
fn tags_choose_strands() {
    let mut tags = StringSet::new();
    tags.insert("core".into());
    let tagged = AffectedOptions { tags, ..options() };
    assert!(reached(changed("a.rs", 11, 11), &tagged).strands.is_empty());
}

#[test]
fn policies_choose_members_by_role() {
    let mut index = index();
    let mut exclude_roles = StringSet::new();
    exclude_roles.insert("consumer".into());
    let mut main = strand("main");
    main.value.on_change = Some(ChangePolicy {
        include_roles: StringSet::new(),
        exclude_roles,
        follow_relations: StringSet::new(),
        depth: Some(0),
        require_disposition: None,
        attributes: StringMap::new(),
    });
    index.strands.insert("main".into(), main);
    let packet = affected(
        &index,
        changed("a.rs", 11, 11),
        &StringMap::new(),
        &Config::default(),
        &options(),
    );
    let members: Vec<_> = packet.strands[0].anchors.iter().map(|anchor| anchor.id.as_str()).collect();
    assert_eq!(members, ["a"]);
}

#[test]
fn renamed_files_are_known_by_both_paths() {
    let mut set = changed("new.rs", 11, 11);
    set.files[0].old_path = Some("a.rs".into());
    set.files[0].status = ChangeStatus::Renamed;
    assert_eq!(reached(set, &options()).strands[0].id, "main");
}

#[test]
fn removed_annotations_stay_affected() {
    let mut set = changed("gone.txt", 1, 1);
    set.removed_lines = vec![
        RemovedLine { path: "gone.txt".into(), line: 1, text: "# @anchor old".into() },
        RemovedLine {
            path: "gone.txt".into(),
            line: 2,
            text: "# @strand legacy intent=\"kept\"".into(),
        },
    ];
    let packet = reached(set, &options());
    assert_eq!(packet.strands[0].id, "legacy");
    assert_eq!(packet.strands[0].intent, "kept");
    assert_eq!(packet.strands[0].anchors[0].id, "old");
    assert_eq!(packet.strands[0].anchors[0].reason, "annotation removed from gone.txt");
    assert!(packet.unmatched_files.is_empty());
}

fn seeds(anchor: &str) -> ContextSeeds {
    let mut anchors = StringMap::new();
    anchors.insert(anchor.into(), "explicit anchor".into());
    ContextSeeds {
        description: format!("context from anchor {anchor}"),
        anchors,
        strands: StringMap::new(),
        search_anchors: StringSet::new(),
        source_matches: vec![],
    }
}

#[test]
fn seeds_bring_their_strands() {
    let packet = context_from_seeds(&index(), &seeds("a"), &Config::default(), &options());
    assert_eq!(packet.changes.description, "context from anchor a");
    assert_eq!(packet.strands[0].id, "main");
    assert!(ids(&packet).contains(&"a".to_string()));
}

#[test]
fn contexts_are_merged() {
    let other = reached(changed("d.rs", 11, 11), &options());
    let seeded = context_from_seeds(&index(), &seeds("a"), &Config::default(), &options());
    let merged = merge_context(other, seeded);
    assert_eq!(merged.changes.description, "diff HEAD; context from anchor a");
    assert_eq!(merged.strands.len(), 1);
    assert!(ids(&merged).contains(&"d".to_string()));
}

fn ask(anchor: &str, depth: usize) -> strandmap::graph::QueryResult {
    query(
        &index(),
        &set_from(&vec![anchor.into()]),
        &StringSet::new(),
        depth,
        &StringSet::new(),
    )
}

#[test]
fn queries_walk_the_graph() {
    let none = ask("c", 0);
    assert_eq!(none.anchors.len(), 1);
    let one = ask("c", 1);
    let found: Vec<_> = one.anchors.iter().map(|anchor| anchor.id.as_str()).collect();
    assert!(found.contains(&"a") && found.contains(&"d"));
    assert_eq!(one.relations.len(), 2);
    assert_eq!(one.strands[0].id, "main");
    assert_eq!(one.anchors[0].kind.as_deref(), Some("code"));
}

#[test]
fn queries_are_drawn() {
    let mut result = ask("d", 1);
    result.relations[0].relation.kind = "a\"b\\c&d".into();
    result.relations[0].relation.bidirectional = true;
    assert_eq!(
        to_dot(&result),
        "digraph strandmap {\n  rankdir=LR;\n  \"c\";\n  \"d\";\n  \"d\" -> \"c\" [label=\"a\\\"b\\\\c&d\", dir=both];\n}\n"
    );
    assert_eq!(
        to_mermaid(&result),
        "flowchart LR\n  a0[\"c\"]\n  a1[\"d\"]\n  a1 <-->|a&quot;b\\c&amp;d| a0\n"
    );
    assert_eq!(
        text_of_query(&result),
        "Anchors (2):\n  c\n  d\nStrands (0):\nRelations (1):\n  d -[a\"b\\c&d]-> c\n"
    );
}

#[test]
fn queries_start_somewhere_known() {
    let none = StringSet::new();
    assert_eq!(
        validate_query_seeds(&index(), &none, &none).unwrap_err(),
        "query requires at least one --anchor or --strand"
    );
    let unknown = set_from(&vec!["q".into()]);
    assert_eq!(
        validate_query_seeds(&index(), &unknown, &none).unwrap_err(),
        "unknown anchor \"q\""
    );
    assert_eq!(
        validate_query_seeds(&index(), &none, &unknown).unwrap_err(),
        "unknown strand \"q\""
    );
    assert_eq!(validate_query_seeds(&index(), &set_from(&vec!["a".into()]), &none), Ok(()));
}

#[test]
fn impact_is_reported() {
    let mut set = changed("a.rs", 11, 11);
    set.files.push(ChangedFile {
        path: "z.rs".into(),
        old_path: None,
        status: ChangeStatus::Untracked,
        ranges: vec![],
        whole_file: true,
    });
    let packet = reached(set, &options());
    assert_eq!(
        text_of_context(&packet),
        "Changes: diff HEAD (2 files)\nAffected strands: 1\n* main — main holds\n  ! producer: a (a.rs#L10-L12) — a.rs changed\n    consumer: b (b.rs#L10-L12) — member of strand main\nRelated anchors: 1\n  c (c.rs#L10-L12) — tests relationship from a\nUnmatched changed files: z.rs\n"
    );
}

fn diagnostic(severity: Severity) -> Diagnostic {
    Diagnostic {
        severity,
        code: "some-code".into(),
        message: "odd".into(),
        path: Some("a.rs".into()),
        line: Some(4),
        hint: Some("look".into()),
    }
}

#[test]
fn diagnostics_decide_the_status() {
    let warnings = vec![diagnostic(Severity::Warning), diagnostic(Severity::Info)];
    assert_eq!(check_status(&warnings, false), 0);
    assert_eq!(check_status(&warnings, true), 1);
    let errors = vec![diagnostic(Severity::Error)];
    assert_eq!(check_status(&errors, false), 1);
    assert_eq!(check_status(&vec![], true), 0);
    assert_eq!(count_severity(&warnings, Severity::Info), 1);
    assert_eq!((migration_status(true, 1), migration_status(true, 0)), (1, 0));
    assert_eq!(migration_status(false, 1), 0);
}

#[test]
fn indexes_are_summed_up() {
    let mut index = index();
    index.diagnostics.push(diagnostic(Severity::Warning));
    assert_eq!(
        text_of_diagnostic(&index.diagnostics[0]),
        "Warning [some-code] a.rs:4: odd\n  hint: look\n"
    );
    assert_eq!(
        text_of_check(&index),
        "Warning [some-code] a.rs:4: odd\n  hint: look\nChecked 1 strands and 4 anchors: 0 errors, 1 warnings\n"
    );
    assert_eq!(
        text_of_index(&index, true),
        "Built 1 strands, 4 anchors, 2 memberships, 2 relations (0 errors, 1 warnings)\n"
    );
    assert_eq!(
        text_of_index(&index, false),
        "Index is current: 1 strands, 4 anchors, 2 memberships, 2 relations (0 errors, 1 warnings)\n"
    );
}

#[test]
fn options_come_from_arguments() {
    let args = AffectedArgs {
        changes: ChangeArgs {
            diff: None,
            staged: false,
            worktree: false,
            untracked: false,
            no_untracked: false,
            files: vec![],
        },
        depth: Some(3),
        relations: vec!["r".into(), "r".into()],
        tags: vec!["t".into()],
        include_optional: false,
        exclude_optional: true,
        require_match: false,
    };
    let options = affected_options(&args);
    assert_eq!(options.depth, Some(3));
    assert_eq!((options.relations.len(), options.tags.len()), (1, 1));
    assert_eq!(options.include_optional, Some(false));
}

#[test]
fn ranges_overlap_where_they_share_a_line() {
    let range = LineRange { start: 5, end: 9 };
    assert!(range.overlaps(9, 12) && range.overlaps(1, 5));
    assert!(!range.overlaps(10, 12) && !range.overlaps(1, 4));
    assert_eq!(LineRange { start: 8, end: 12 }.overlaps(5, 9), range.overlaps(8, 12));
}

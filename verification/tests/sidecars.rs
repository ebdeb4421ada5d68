use strandmap::cli::{AnchorRemoveArgs, AnchorCommand, StrandListArgs, StrandCommand, IdArgs};
use strandmap::collections::{StringMap, StringSet};
use strandmap::commands::{
    anchor_needs_index, command_anchor, command_strand, line_of_anchor, line_of_strand,
    require_anchor, require_strand, strand_needs_index, text_of_report, CommandOutcome,
};
use strandmap::metadata::{
    add_anchor, add_global_relation, add_strand, candidate_paths, document_format,
    ensure_unique_anchor, ensure_unique_strand, find_id_line, format_named, load, metadata_kind,
    metadata_paths, parsed_metadata, remove_anchor, remove_anchor_references,
    remove_global_references, remove_global_relation, remove_strand, unique_path, AnyDocument,
    Document, DocumentFormat, Edit, MetadataFile, MetadataFiles, MetadataKind,
};
use strandmap::model::{
    Anchor, Index, Indexed, IndexedRelation, Location, Member, Provenance, Relation, Severity,
    Strand, Timestamp,
};
use strandmap::repo::Repository;

fn repository() -> Repository {
    Repository { root: "/work".into(), metadata_dir: "/work/.strandmap".into() }
}

fn member(anchor: &str) -> Member {
    Member { anchor: anchor.into(), role: None, required: true, attributes: StringMap::new() }
}

fn relation(from: &str, to: &str) -> Relation {
    Relation {
        from: from.into(),
        to: to.into(),
        kind: "tests".into(),
        bidirectional: false,
        attributes: StringMap::new(),
    }
}

fn strand(id: &str, members: Vec<Member>, relations: Vec<Relation>) -> Strand {
    Strand {
        schema: 1,
        id: id.into(),
        title: None,
        intent: "stay".into(),
        scope: None,
        tags: StringSet::new(),
        members,
        relations,
        on_change: None,
        attributes: StringMap::new(),
    }
}

fn anchor(id: &str) -> Anchor {
    Anchor {
        schema: 1,
        id: id.into(),
        target: Some("urn:x".into()),
        kind: None,
        location: None,
        tags: StringSet::new(),
        attributes: StringMap::new(),
    }
}

fn file<T>(path: &str, document: Document<T>) -> MetadataFile<T> {
    MetadataFile { path: path.into(), text: String::new(), document: Ok(document) }
}

fn files() -> MetadataFiles {
    MetadataFiles {
        strands: vec![
            file(
                "/work/.strandmap/strands/a.yaml",
                Document::Single(strand("a", vec![member("x"), member("y")], vec![relation("x", "y")])),
            ),
            file(
                "/work/.strandmap/strands/b.yaml",
                Document::List(vec![strand("b", vec![member("y")], vec![])]),
            ),
        ],
        anchors: vec![file(
            "/work/.strandmap/anchors.yaml",
            Document::Wrapped(vec![anchor("x"), anchor("y")]),
        )],
        relations: vec![
            file("/work/.strandmap/relations/one.yaml", Document::Single(relation("x", "y"))),
            file(
                "/work/.strandmap/relations/two.yaml",
                Document::List(vec![relation("y", "z"), relation("z", "x")]),
            ),
        ],
    }
}

fn index() -> Index {
    let provenance = || Provenance { source: "sidecar".into(), path: None, line: None };
    let mut anchors = StringMap::new();
    for id in ["x", "y", "z"] {
        anchors.insert(id.into(), Indexed { value: anchor(id), provenance: provenance() });
    }
    let mut strands = StringMap::new();
    let mut tagged = strand("a", vec![], vec![]);
    tagged.tags.insert("core".into());
    strands.insert("a".into(), Indexed { value: tagged, provenance: provenance() });
    strands.insert(
        "b".into(),
        Indexed { value: strand("b", vec![], vec![]), provenance: provenance() },
    );
    Index {
        schema: 5,
        root: "/work".into(),
        generated_at: Timestamp { seconds: 0, nanos: 0 },
        workspace_fingerprint: String::new(),
        metadata_fingerprint: String::new(),
        config_fingerprint: String::new(),
        files: StringMap::new(),
        source_documents: StringMap::new(),
        strands,
        anchors,
        memberships: vec![],
        relations: vec![IndexedRelation {
            strand: None,
            relation: relation("x", "y"),
            provenance: provenance(),
        }],
        diagnostics: vec![],
    }
}

#[test]
fn paths_tell_what_a_file_holds() {
    assert_eq!(metadata_kind(".strandmap/strands/x.yaml"), Ok(MetadataKind::Strands));
    assert_eq!(metadata_kind(".strandmap/anchors.json"), Ok(MetadataKind::Anchors));
    assert_eq!(metadata_kind("relations/deep/r.toml"), Ok(MetadataKind::Relations));
    assert_eq!(
        metadata_kind("src/a.rs").unwrap_err(),
        "path is not recognized Strandmap metadata: src/a.rs"
    );
    assert_eq!(document_format("a.yml"), Ok(DocumentFormat::Yaml));
    assert_eq!(document_format("a.json"), Ok(DocumentFormat::Json));
    assert_eq!(format_named("a.toml"), Some(DocumentFormat::Toml));
    assert_eq!(format_named("a.txt"), None);
    assert_eq!(
        document_format("a.txt").unwrap_err(),
        "unsupported metadata format: a.txt"
    );
}

#[test]
fn metadata_files_are_listed_once_and_in_order() {
    let repo = repository();
    assert_eq!(
        candidate_paths(&repo, "strands"),
        [
            "/work/.strandmap/strands.yaml",
            "/work/.strandmap/strands.yml",
            "/work/.strandmap/strands.json",
            "/work/.strandmap/strands.toml"
        ]
    );
    let found = vec!["/m/s/b.yaml".into(), "/m/s/a.txt".into(), "/m/s/a.json".into()];
    let beside = vec!["/m/s.toml".into(), "/m/s/a.json".into()];
    assert_eq!(
        metadata_paths(&found, &beside),
        ["/m/s/a.json", "/m/s/b.yaml", "/m/s.toml"]
    );
}

#[test]
fn metadata_is_loaded_with_its_lines() {
    let mut files = files();
    files.strands[0].text = "schema: 1\nid: a\n".into();
    files.relations.push(MetadataFile {
        path: "/work/.strandmap/relations/bad.yaml".into(),
        text: String::new(),
        document: Err("invalid YAML in bad.yaml: oops".into()),
    });
    let loaded = load(&repository(), &files);
    assert_eq!((loaded.strands.len(), loaded.anchors.len(), loaded.relations.len()), (2, 2, 3));
    assert_eq!(loaded.strands[0].line, Some(2));
    assert_eq!(loaded.strands[1].line, None);
    let diagnostic = &loaded.diagnostics[0];
    assert_eq!(diagnostic.severity, Severity::Error);
    assert_eq!(diagnostic.code, "metadata-parse");
    assert_eq!(diagnostic.message, "invalid YAML in bad.yaml: oops");
    assert_eq!(diagnostic.path.as_deref(), Some(".strandmap/relations/bad.yaml"));
    assert_eq!(find_id_line("{\n  \"id\": \"a\"\n}", "a"), Some(2));
    assert_eq!(find_id_line("id: b", "a"), None);
}

#[test]
fn ids_are_added_once() {
    let repo = repository();
    let loaded = load(&repo, &files());
    assert_eq!(ensure_unique_strand(&loaded, "c"), Ok(()));
    assert_eq!(
        ensure_unique_strand(&loaded, "a").unwrap_err(),
        "strand \"a\" already exists"
    );
    assert_eq!(
        ensure_unique_anchor(&loaded, "x").unwrap_err(),
        "anchor \"x\" already exists"
    );
    let edit = add_strand(&repo, &loaded, &strand("c", vec![], vec![])).unwrap();
    assert_eq!(edit.path(), "/work/.strandmap/strands/c.yaml");
    assert!(add_strand(&repo, &loaded, &strand("a", vec![], vec![])).is_err());
    let edit = add_anchor(&repo, &loaded, &anchor("w")).unwrap();
    assert_eq!(edit, Edit::Write(
        "/work/.strandmap/anchors/w.yaml".into(),
        Document::Single(anchor("w"))
    ));
    assert_eq!(
        add_global_relation(&repo, &loaded, &relation("x", "y")).unwrap_err(),
        "that global relationship already exists"
    );
    let edit = add_global_relation(&repo, &loaded, &relation("y", "x")).unwrap();
    assert_eq!(edit.path(), "/work/.strandmap/relations/y-tests-x.yaml");
}

#[test]
fn file_names_stand_for_ids() {
    assert_eq!(unique_path("/d", "a.b-c_d"), "/d/a.b-c_d.yaml");
    let odd = unique_path("/d", "a b");
    assert!(odd.starts_with("/d/a_b-") && odd.ends_with(".yaml"), "{odd}");
    assert_eq!(odd.len(), "/d/a_b-12345678.yaml".len());
    assert_ne!(unique_path("/d", "a b"), unique_path("/d", "a/b"));
}

#[test]
fn items_are_removed_from_their_file() {
    let files = files();
    assert_eq!(
        remove_strand(&files.strands, "a").unwrap(),
        Edit::Remove("/work/.strandmap/strands/a.yaml".into())
    );
    assert_eq!(
        remove_strand(&files.strands, "b").unwrap(),
        Edit::Write("/work/.strandmap/strands/b.yaml".into(), Document::List(vec![]))
    );
    assert_eq!(remove_strand(&files.strands, "c").unwrap_err(), "unknown strand \"c\"");
    assert_eq!(
        remove_anchor(&files.anchors, "x").unwrap(),
        Edit::Write(
            "/work/.strandmap/anchors.yaml".into(),
            Document::Wrapped(vec![anchor("y")])
        )
    );
    assert_eq!(
        remove_anchor(&files.anchors, "q").unwrap_err(),
        "unknown sidecar anchor \"q\"; source annotations must be edited in source"
    );
    let kind = "tests".to_string();
    assert_eq!(
        remove_global_relation(&files.relations, "x", "y", &kind).unwrap(),
        Edit::Remove("/work/.strandmap/relations/one.yaml".into())
    );
    assert_eq!(
        remove_global_relation(&files.relations, "a", "y", &kind).unwrap_err(),
        "matching global relationship not found"
    );
}

#[test]
fn references_to_an_anchor_are_forgotten() {
    let files = files();
    let references = remove_anchor_references(&files.strands, "x");
    assert_eq!(references.failure, None);
    assert_eq!(
        references.edits,
        [Edit::Write(
            "/work/.strandmap/strands/a.yaml".into(),
            Document::Single(strand("a", vec![member("y")], vec![]))
        )]
    );
    let global = remove_global_references(&files.relations, "x");
    assert_eq!(
        global.edits,
        [
            Edit::Remove("/work/.strandmap/relations/one.yaml".into()),
            Edit::Write(
                "/work/.strandmap/relations/two.yaml".into(),
                Document::List(vec![relation("y", "z")])
            )
        ]
    );
    assert!(remove_global_references(&files.relations, "q").edits.is_empty());
    let broken = vec![MetadataFile::<Relation> {
        path: "r.yaml".into(),
        text: String::new(),
        document: Err("unreadable".into()),
    }];
    assert_eq!(remove_global_references(&broken, "x").failure.as_deref(), Some("unreadable"));
}

#[test]
fn forgotten_references_need_no_second_edit() {
    let strands = vec![
        file(
            "a.yaml",
            Document::List(vec![strand(
                "a",
                vec![member("w"), member("x"), member("y"), member("x"), member("z")],
                vec![relation("w", "y"), relation("y", "x"), relation("z", "y")],
            )]),
        ),
        file("b.yaml", Document::Single(strand("b", vec![member("y")], vec![]))),
        file("c.yaml", Document::Single(strand("c", vec![], vec![relation("x", "y")]))),
    ];
    let references = remove_anchor_references(&strands, "x");
    let first = strand(
        "a",
        vec![member("w"), member("y"), member("z")],
        vec![relation("w", "y"), relation("z", "y")],
    );
    assert_eq!(
        references.edits,
        [
            Edit::Write("a.yaml".into(), Document::List(vec![first.clone()])),
            Edit::Write("c.yaml".into(), Document::Single(strand("c", vec![], vec![])))
        ]
    );
    let after = vec![
        file("a.yaml", Document::List(vec![first])),
        file("b.yaml", Document::Single(strand("b", vec![member("y")], vec![]))),
        file("c.yaml", Document::Single(strand("c", vec![], vec![]))),
    ];
    assert!(remove_anchor_references(&after, "x").edits.is_empty());
    let relations = vec![file(
        "r.yaml",
        Document::List(vec![relation("a", "b"), relation("x", "b"), relation("c", "d")]),
    )];
    let kept = Document::List(vec![relation("a", "b"), relation("c", "d")]);
    assert_eq!(
        remove_global_references(&relations, "x").edits,
        [Edit::Write("r.yaml".into(), kept.clone())]
    );
    assert!(remove_global_references(&vec![file("r.yaml", kept)], "x").edits.is_empty());
}

#[test]
fn referenced_anchors_are_removed_only_by_force() {
    let command = |force: bool| AnchorCommand::Remove(AnchorRemoveArgs { id: "x".into(), force });
    assert!(anchor_needs_index(&command(false)));
    let index = index();
    let refused = command_anchor(&repository(), &files(), Some(&index), &command(false));
    assert_eq!(
        refused.unwrap_err(),
        "anchor \"x\" is referenced by memberships or relations; use --force to remove sidecar references"
    );
    let outcome = command_anchor(&repository(), &files(), Some(&index), &command(true)).unwrap();
    let CommandOutcome::Changed(mutation) = outcome else {
        panic!("the command changes nothing");
    };
    assert_eq!(
        (mutation.strands.len(), mutation.relations.len(), mutation.anchors.len()),
        (1, 2, 1)
    );
    assert_eq!(
        text_of_report(&mutation.result.unwrap()),
        "Removed anchor \"x\" (.strandmap/anchors.yaml)"
    );
}

#[test]
fn strands_are_listed_and_shown() {
    let index = index();
    let list = StrandCommand::List(StrandListArgs { tag: Some("core".into()), scope: None });
    assert!(strand_needs_index(&list));
    match command_strand(&repository(), &files(), Some(&index), &list).unwrap() {
        CommandOutcome::Strands(strands) => {
            assert_eq!(strands.len(), 1);
            assert_eq!(line_of_strand(&strands[0]), "a\tstay");
        }
        other => panic!("{other:?}"),
    }
    let show = StrandCommand::Show(IdArgs { id: "c".into() });
    assert_eq!(
        command_strand(&repository(), &files(), Some(&index), &show).unwrap_err(),
        "unknown strand \"c\""
    );
    assert_eq!(require_strand(&index, "a"), Ok(()));
    assert_eq!(require_anchor(&index, "x"), Ok(()));
    assert_eq!(require_anchor(&index, "q").unwrap_err(), "unknown anchor \"q\"");
}

#[test]
fn anchors_are_shown_on_a_line() {
    let mut shown = anchor("x");
    assert_eq!(line_of_anchor(&shown), "x\t-\turn:x");
    shown.kind = Some("code".into());
    shown.location = Some(Location {
        path: "a.rs".into(),
        line_start: Some(2),
        line_end: Some(4),
        symbol: None,
        language: None,
        fingerprint: None,
        watch: None,
    });
    assert_eq!(line_of_anchor(&shown), "x\tcode\ta.rs#L2-L4");
}

#[test]
fn documents_give_their_items() {
    let parsed = parsed_metadata(&AnyDocument::Relations(Document::Wrapped(vec![
        relation("x", "y"),
        relation("y", "z"),
    ])));
    assert_eq!((parsed.strands.len(), parsed.anchors.len(), parsed.relations.len()), (0, 0, 2));
    assert_eq!(Document::Single(anchor("x")).items(), [anchor("x")]);
}

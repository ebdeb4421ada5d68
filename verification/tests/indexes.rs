use strandmap::collections::{StringMap, StringSet};
use strandmap::config::Config;
use strandmap::index::{
    build_with_manifest, cache_path, changed_files, check_schema, index_action, list_files,
    looks_like_target, metadata_fingerprint, normalize_repository_path, parse_file_target,
    scan_rules, scan_source_document, scans, workspace_fingerprint, IndexAction, Manifest,
    ScannedFile, SourceEntry,
};
use strandmap::metadata::{load, Document, MetadataFile, MetadataFiles};
use strandmap::model::{
    Anchor, FileRecord, Index, Location, Member, Relation, Severity, Strand, Timestamp, WatchMode,
};
use strandmap::repo::Repository;

#[test]
fn file_target_parses_ranges() {
    let location = parse_file_target("file://src/auth.rs#L10-L20").unwrap();
    assert_eq!(location.path, "src/auth.rs");
    assert_eq!(location.line_start, Some(10));
    assert_eq!(location.line_end, Some(20));
}

fn repository() -> Repository {
    Repository { root: "/work".into(), metadata_dir: "/work/.strandmap".into() }
}

fn entry(path: &str, size: u64) -> SourceEntry {
    SourceEntry { path: format!("/work/{path}"), size, modified_ns: 1 }
}

fn member(anchor: &str) -> Member {
    Member { anchor: anchor.into(), role: None, required: true, attributes: StringMap::new() }
}

fn strand(id: &str, members: Vec<Member>) -> Strand {
    Strand {
        schema: 1,
        id: id.into(),
        title: None,
        intent: "stay".into(),
        scope: None,
        tags: StringSet::new(),
        members,
        relations: vec![],
        on_change: None,
        attributes: StringMap::new(),
    }
}

fn anchor(id: &str, path: &str) -> Anchor {
    Anchor {
        schema: 1,
        id: id.into(),
        target: None,
        kind: None,
        location: Some(Location {
            path: path.into(),
            line_start: None,
            line_end: None,
            symbol: None,
            language: None,
            fingerprint: None,
            watch: None,
        }),
        tags: StringSet::new(),
        attributes: StringMap::new(),
    }
}

fn relation(from: &str, to: &str) -> Relation {
    Relation {
        from: from.into(),
        to: to.into(),
        kind: "tests".into(),
        bidirectional: false,
        attributes: StringMap::new(),
    }
}

fn file<T>(path: &str, document: Document<T>) -> MetadataFile<T> {
    MetadataFile { path: path.into(), text: String::new(), document: Ok(document) }
}

fn manifest(sources: &[(&str, &str)]) -> Manifest {
    let entries = sources.iter().map(|(path, text)| entry(path, text.len() as u64)).collect();
    let (files, source_paths) = list_files(&repository(), &Config::default(), &entries).unwrap();
    Manifest {
        files,
        source_paths,
        fingerprint: "workspace".into(),
        metadata_fingerprint: "metadata".into(),
    }
}

fn build(sources: &[(&str, &str)], files: &MetadataFiles) -> Index {
    let manifest = manifest(sources);
    let mut scanned = StringMap::new();
    for (path, text) in sources {
        let mut record = manifest.files.get(path).unwrap().clone();
        let content = Ok(text.as_bytes().to_vec());
        let document = scan_source_document(path, &Config::default(), &mut record, &content);
        scanned.insert(path.to_string(), ScannedFile { record, document });
    }
    build_with_manifest(
        &repository(),
        &load(&repository(), files),
        &manifest,
        &scanned,
        Timestamp { seconds: 7, nanos: 0 },
        &"config".to_string(),
    )
}

fn nothing() -> MetadataFiles {
    MetadataFiles { strands: vec![], anchors: vec![], relations: vec![] }
}

fn codes(index: &Index) -> Vec<String> {
    index.diagnostics.iter().map(|diagnostic| diagnostic.code.clone()).collect()
}

#[test]
fn targets_name_files_and_lines() {
    let whole = parse_file_target("file://docs/a.md").unwrap();
    assert_eq!((whole.path.as_str(), whole.line_start), ("docs/a.md", None));
    assert_eq!(parse_file_target("rust://auth"), None);
    assert!(looks_like_target("file://a") && looks_like_target("src/a.rs#L3-L5"));
    assert!(!looks_like_target("auth.issue"));
    assert_eq!(normalize_repository_path("./src\\a.rs"), "src/a.rs");
}

#[test]
fn files_are_scanned_by_rules() {
    let mut config = Config::default();
    let rules = scan_rules(&config).unwrap();
    let repo = repository();
    assert!(scans(&repo, &rules, "src/a.rs"));
    assert!(!scans(&repo, &rules, "target/x"));
    assert!(!scans(&repo, &rules, ".strandmap/strands/a.yaml"));
    config.scan.includes = vec!["src/**".into()];
    let rules = scan_rules(&config).unwrap();
    assert!(scans(&repo, &rules, "src/a.rs") && !scans(&repo, &rules, "docs/a.md"));
    config.scan.max_file_bytes = 10;
    let entries = vec![
        entry("src/b.rs", 10),
        entry("src/a.rs", 11),
        entry("docs/a.md", 1),
        entry("src/.strandmap/x", 1),
    ];
    let (files, paths) = list_files(&repo, &config, &entries).unwrap();
    assert_eq!(files.len(), 1);
    assert_eq!(files.get("src/b.rs").unwrap().size, 10);
    assert_eq!(paths, ["/work/src/b.rs"]);
    config.scan.exclude = vec!["a{".into()];
    let error = list_files(&repo, &config, &entries).unwrap_err();
    assert!(error.starts_with("invalid glob in scan.exclude: \"a{\""), "{error}");
}

#[test]
fn fingerprints_depend_on_every_part() {
    let repo = repository();
    let files = vec![("/work/.strandmap/strands/a.yaml".to_string(), b"x".to_vec())];
    let one = metadata_fingerprint(&repo, &files, &vec![]);
    let two = metadata_fingerprint(&repo, &files, &vec![b"version: 1".to_vec()]);
    assert_ne!(one, two);
    assert_ne!(one, metadata_fingerprint(&repo, &vec![], &vec![]));
    assert_ne!(workspace_fingerprint(b"{}", &one), workspace_fingerprint(b"{}", &two));
    assert_ne!(workspace_fingerprint(b"{}", &one), workspace_fingerprint(b"[]", &one));
    assert_eq!(workspace_fingerprint(b"{}", &one).len(), 64);
}

#[test]
fn documents_tell_what_a_file_says() {
    let config = Config::default();
    let fresh = || FileRecord {
        path: "a.rs".into(),
        size: 1,
        modified_ns: 1,
        content_hash: None,
        search_bloom: vec![],
        rust_test_ranges: vec![],
    };
    let mut record = fresh();
    let text = b"// @anchor a\nfn a() {}\n\n#[test]\nfn t() {}\n".to_vec();
    let document = scan_source_document("a.rs", &config, &mut record, &Ok(text));
    assert_eq!(document.anchors[0].value.id, "a");
    let location = document.anchors[0].value.location.clone().unwrap();
    assert_eq!((location.line_start, location.watch), (Some(2), Some(WatchMode::Node)));
    assert_eq!((record.rust_test_ranges[0].start, record.rust_test_ranges[0].end), (4, 5));
    assert_eq!(record.content_hash.as_ref().unwrap().len(), 64);
    assert_eq!(record.search_bloom.len(), 32);

    let mut unread = fresh();
    let failed = scan_source_document("a.rs", &config, &mut unread, &Err("denied".into()));
    assert_eq!(failed.diagnostics[0].code, "source-read");
    assert_eq!(failed.diagnostics[0].severity, Severity::Warning);
    assert_eq!(unread, fresh());

    let mut other = fresh();
    let encoded = scan_source_document("a.rs", &config, &mut other, &Ok(vec![0xff]));
    assert_eq!(encoded.diagnostics[0].code, "source-encoding");
    let binary = scan_source_document("a.rs", &config, &mut other, &Ok(vec![0, 0xff]));
    assert!(binary.diagnostics.is_empty() && binary.anchors.is_empty());
}

#[test]
fn annotations_place_the_anchors_of_metadata_files() {
    let mut files = nothing();
    let mut sidecar = anchor("a", "old.rs");
    sidecar.kind = Some("code".into());
    files.anchors.push(file("/work/.strandmap/anchors/a.yaml", Document::Single(sidecar)));
    let index = build(&[("src/a.rs", "// @anchor a kind=other tags=t\nfn a() {}\n")], &files);
    let merged = &index.anchors.get("a").unwrap().value;
    assert_eq!(merged.kind.as_deref(), Some("code"));
    assert!(merged.tags.contains("t"));
    assert_eq!(merged.location.as_ref().unwrap().path, "src/a.rs");
    assert!(codes(&index).is_empty(), "{:?}", index.diagnostics);
}

#[test]
fn unknown_names_are_errors() {
    let mut files = nothing();
    files.strands.push(file(
        "/work/.strandmap/strands/s.yaml",
        Document::Single(strand("s", vec![member("missing"), member("file://src/a.rs#L1-L2")])),
    ));
    files.relations.push(file(
        "/work/.strandmap/relations/r.yaml",
        Document::Single(relation("missing", "other")),
    ));
    let index = build(&[("src/a.rs", "fn a() {}\n")], &files);
    assert!(index.anchors.contains_key("file://src/a.rs#L1-L2"));
    assert!(!index.anchors.contains_key("missing"));
    let errors: Vec<_> = index
        .diagnostics
        .iter()
        .filter(|diagnostic| diagnostic.severity == Severity::Error)
        .collect();
    assert_eq!(errors.len(), 3, "{:?}", index.diagnostics);
}

#[test]
fn repeated_names_are_errors() {
    let mut files = nothing();
    for name in ["one", "two"] {
        files.strands.push(file(
            &format!("/work/.strandmap/strands/{name}.yaml"),
            Document::Single(strand("s", vec![])),
        ));
        files.anchors.push(file(
            &format!("/work/.strandmap/anchors/{name}.yaml"),
            Document::Single(anchor("a", "src/a.rs")),
        ));
    }
    let sources = [
        ("src/a.rs", "// @anchor b\nfn b() {}\n"),
        ("src/b.rs", "// @anchor b\nfn b() {}\n"),
    ];
    let index = build(&sources, &files);
    let codes = codes(&index);
    assert!(codes.contains(&"duplicate-strand".to_string()), "{codes:?}");
    assert_eq!(codes.iter().filter(|code| *code == "duplicate-anchor").count(), 2, "{codes:?}");
}

#[test]
fn edges_are_stated_once() {
    let text = "// @anchor a\n// @strand s role=r intent=i\n// @relation tests to=b\nfn a() {}\n// @anchor b\nfn b() {}\n";
    let mut files = nothing();
    files.strands.push(file(
        "/work/.strandmap/strands/s.yaml",
        Document::Single(Strand {
            members: vec![Member { role: Some("r".into()), ..member("a") }],
            ..strand("s", vec![])
        }),
    ));
    files.relations.push(file(
        "/work/.strandmap/relations/r.yaml",
        Document::Single(relation("a", "b")),
    ));
    let index = build(&[("src/a.rs", text)], &files);
    assert_eq!(index.memberships.len(), 1);
    assert_eq!(index.relations.len(), 1);
}

#[test]
fn indexes_are_kept_refreshed_or_rebuilt() {
    let now = manifest(&[("a.rs", "x")]);
    let mut index = build(&[("a.rs", "x")], &nothing());
    assert_eq!(index.generated_at, Timestamp { seconds: 7, nanos: 0 });
    assert!(matches!(
        index_action(&Some(index.clone()), &now, "config", false),
        IndexAction::Keep
    ));
    let other = manifest(&[("a.rs", "xy")]);
    let stale = Manifest { fingerprint: "new".into(), ..other };
    assert!(matches!(
        index_action(&Some(index.clone()), &stale, "config", true),
        IndexAction::Refresh
    ));
    match index_action(&Some(index.clone()), &stale, "config", false) {
        IndexAction::Refuse(message) => assert_eq!(
            message,
            "Strandmap index is stale (repository file changed: a.rs); run `strandmap index`"
        ),
        action => panic!("{action:?}"),
    }
    match index_action(&None, &now, "config", false) {
        IndexAction::Refuse(message) => assert_eq!(
            message,
            "Strandmap index is stale (missing or incompatible); run `strandmap index`"
        ),
        action => panic!("{action:?}"),
    }
    match index_action(&Some(index.clone()), &now, "other", false) {
        IndexAction::Refuse(message) => assert_eq!(
            message,
            "Strandmap index is stale (configuration changed); run `strandmap index`"
        ),
        action => panic!("{action:?}"),
    }
    index.metadata_fingerprint = "before".into();
    assert!(matches!(
        index_action(&Some(index), &stale, "config", true),
        IndexAction::Rebuild
    ));
    assert!(matches!(index_action(&None, &now, "config", true), IndexAction::Rebuild));
}

#[test]
fn files_change_by_size_and_time() {
    let before = manifest(&[("a.rs", "x"), ("b.rs", "x"), ("c.rs", "x")]);
    let after = manifest(&[("a.rs", "x"), ("b.rs", "xy"), ("d.rs", "x")]);
    let changed = changed_files(&before.files, &after.files);
    assert_eq!(changed.len(), 3);
    for path in ["b.rs", "c.rs", "d.rs"] {
        assert!(changed.contains(path), "{path}");
    }
}

#[test]
fn indexes_of_another_schema_are_refused() {
    let mut index = build(&[], &nothing());
    assert_eq!(check_schema(&index), Ok(()));
    index.schema = 4;
    assert_eq!(check_schema(&index).unwrap_err(), "unsupported index schema 4");
    assert_eq!(
        cache_path(&repository(), &Config::default()),
        "/work/.strandmap/cache/index.json"
    );
}

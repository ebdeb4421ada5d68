use strandmap::config::Config;
use strandmap::context_output::FileContent;
use strandmap::annotations::scan_source;
use strandmap::migration::{
    check_equivalence, dynamic_locations, migrate_parts, migrate_text, watch_line, SourceFile,
};
use strandmap::repo::Repository;

fn repository() -> Repository {
    Repository {
        root: "/repo".into(),
        metadata_dir: "/repo/.strandmap".into(),
    }
}

#[test]
fn removes_only_authored_anchor_locations() {
    let config = Config::default();
    let source = "// @anchor api.run lines=10-20 @strand api role=handler\nfn run(value: u32 /* @anchor api.run.value watch=line */) {}\n";
    let (migrated, count) = migrate_text(source, &config).unwrap();
    assert_eq!(count, 1);
    assert_eq!(
        migrated,
        "// @anchor api.run @strand api role=handler\nfn run(value: u32 /* @anchor api.run.value watch=line */) {}\n"
    );
}

#[test]
fn preserves_line_semantics_without_static_coordinates() {
    let config = Config::default();
    let source = "// @anchor api.flag line=40 @strand api role=flag\nconst FLAG: bool = true;\n";
    let (migrated, count) = migrate_text(source, &config).unwrap();
    assert_eq!(count, 1);
    assert_eq!(
        migrated,
        "// @anchor api.flag watch=line @strand api role=flag\nconst FLAG: bool = true;\n"
    );
}

#[test]
fn texts_without_coordinates_stay() {
    let source = "// @anchor a watch=file\r\nplain lines=3\n// @strand s lines=3";
    let (migrated, count) = migrate_text(source, &Config::default()).unwrap();
    assert_eq!(count, 0);
    assert_eq!(migrated, source);
}

#[test]
fn a_watched_line_stays_watched() {
    assert_eq!(watch_line(" a "), " a watch=line ");
    assert_eq!(migrate_parts(false, false, " a", " a", false), None);
}

#[test]
fn files_are_rewritten_in_order() {
    let files = vec![
        SourceFile {
            path: "/repo/src/b.rs".into(),
            content: FileContent::Bytes(b"// @anchor b lines=1-2\nfn b() {}\n".to_vec()),
        },
        SourceFile {
            path: "/repo/src/a.rs".into(),
            content: FileContent::Bytes(b"// @anchor a line_start=1 line_end=2\nfn a() {}\n".to_vec()),
        },
        SourceFile {
            path: "/repo/image.bin".into(),
            content: FileContent::Bytes(vec![0, 1, 2]),
        },
    ];
    let (report, pending) = dynamic_locations(&repository(), &Config::default(), &files).unwrap();
    assert_eq!(report.files_scanned, 3);
    assert_eq!(report.files_changed, 2);
    assert_eq!(report.annotations_migrated, 2);
    assert_eq!(report.changed_paths, ["src/a.rs", "src/b.rs"]);
    assert_eq!(pending[0].text, "// @anchor a\nfn a() {}\n");
    assert_eq!(pending[1].relative, "src/b.rs");
}

#[test]
fn anchors_that_would_lose_their_place_stop_the_migration() {
    let files = vec![SourceFile {
        path: "/repo/src/a.rs".into(),
        content: FileContent::Bytes(b"// @anchor a lines=1-2\n".to_vec()),
    }];
    let problem = dynamic_locations(&repository(), &Config::default(), &files).unwrap_err();
    assert!(
        problem.starts_with("dynamic-location migration could not resolve every anchor:\nsrc/a.rs:1: "),
        "{problem}"
    );
}

#[test]
fn unreadable_files_stop_the_migration() {
    let files = vec![SourceFile {
        path: "/repo/src/a.rs".into(),
        content: FileContent::Failed("failed to read".into()),
    }];
    assert_eq!(
        dynamic_locations(&repository(), &Config::default(), &files).unwrap_err(),
        "failed to read"
    );
}

#[test]
fn files_whose_anchors_would_differ_stop_the_migration() {
    let text = "// @anchor a kind=\"x lines=3\" lines=1-2\nfn a() {}\n";
    let files = vec![SourceFile {
        path: "/repo/src/a.rs".into(),
        content: FileContent::Bytes(text.as_bytes().to_vec()),
    }];
    let error = dynamic_locations(&repository(), &Config::default(), &files).unwrap_err();
    assert_eq!(error, "dynamic-location migration changed graph semantics in src/a.rs");
}

#[test]
fn rewritten_files_say_the_same_of_the_graph() {
    let config = Config::default();
    let before = "// @anchor a kind=code tags=x,y target=urn:a lines=1-2\n// @strand s role=r intent=i\n// @relation tests to=b\nfn a() {}\n";
    let (after, _) = migrate_text(before, &config).unwrap();
    let old = scan_source("src/a.rs", before, &config.annotations);
    let new = scan_source("src/a.rs", &after, &config.annotations);
    assert_eq!(check_equivalence("src/a.rs", &old, &new), Ok(()));
    assert_eq!(old.memberships, new.memberships);
    assert_eq!(old.relations, new.relations);
    assert_eq!(new.anchors[0].0.kind.as_deref(), Some("code"));
    let other = scan_source("src/a.rs", "// @anchor a\nfn a() {}\n", &config.annotations);
    assert!(check_equivalence("src/a.rs", &old, &other).is_err());
}

#[test]
fn namespaced_anchors_are_migrated_too() {
    let config = Config::default();
    let source = "// @strandmap anchor api.run lines=10-20\nfn run() {}\n";
    let (migrated, count) = migrate_text(source, &config).unwrap();
    assert_eq!(migrated, "// @strandmap anchor api.run\nfn run() {}\n");
    assert_eq!(count, 1);
    let both = "// @strandmap anchor a lines=1-2 @strandmap strand s @anchor b line_start=3\n";
    let (migrated, count) = migrate_text(both, &config).unwrap();
    assert_eq!(migrated, "// @strandmap anchor a @strandmap strand s @anchor b\n");
    assert_eq!(count, 2);
}

#[test]
fn words_that_hold_a_marker_are_left_alone() {
    let config = Config::default();
    for source in [
        "// the @anchored lines=3-4 of a text\n",
        "// mail me@anchor lines=3-4\n",
        "// @anchor_x lines=3-4\n",
    ] {
        let (migrated, count) = migrate_text(source, &config).unwrap();
        assert_eq!((migrated.as_str(), count), (source, 0));
    }
}

#[test]
fn words_are_put_before_the_line_break() {
    let config = Config::default();
    for end in ["\n", "\r\n"] {
        let source = format!("// @anchor api.flag line=40{end}const FLAG: bool = true;{end}");
        let (migrated, count) = migrate_text(&source, &config).unwrap();
        assert_eq!(
            migrated,
            format!("// @anchor api.flag watch=line {end}const FLAG: bool = true;{end}")
        );
        assert_eq!(count, 1);
        assert_eq!(migrated.lines().count(), source.lines().count());
    }
    let (migrated, _) = migrate_text("// @anchor a line=1", &config).unwrap();
    assert_eq!(migrated, "// @anchor a watch=line ");
}

#[test]
fn what_follows_a_comment_stays() {
    let config = Config::default();
    for (source, expected, rewritten) in [
        ("/* @anchor a line=3 */ code();\n", "/* @anchor a watch=line */ code();\n", 1),
        ("/* @anchor a */ call( lines=5 );\n", "/* @anchor a */ call( lines=5 );\n", 0),
        ("/* @anchor a lines=1-2 */ call( lines=5 );\n", "/* @anchor a */ call( lines=5 );\n", 1),
        ("/* @anchor a lines=5*/ x\n", "/* @anchor a*/ x\n", 1),
        ("<!-- @anchor a lines=1-2 --> line=7\n", "<!-- @anchor a --> line=7\n", 1),
        (
            "/* @anchor a lines=1 */ x /* @anchor b line=2 */ y line=3\n",
            "/* @anchor a */ x /* @anchor b watch=line */ y line=3\n",
            2,
        ),
        (
            "/* @anchor a kind=\"x */ y\" lines=1 */ line=3\n",
            "/* @anchor a kind=\"x */ y\" */ line=3\n",
            1,
        ),
    ] {
        let (migrated, count) = migrate_text(source, &config).unwrap();
        assert_eq!((migrated.as_str(), count), (expected, rewritten));
    }
}

#[test]
fn lines_are_rewritten_one_by_one() {
    let config = Config::default();
    let source = "one\n\n// @anchor a lines=1-2\r\n/* @anchor b line=3 */ x\n\r\n// @strand s\nlast";
    let (migrated, count) = migrate_text(source, &config).unwrap();
    assert_eq!(
        migrated,
        "one\n\n// @anchor a\r\n/* @anchor b watch=line */ x\n\r\n// @strand s\nlast"
    );
    assert_eq!(count, 2);
    let before: Vec<&str> = source.lines().collect();
    let after: Vec<&str> = migrated.lines().collect();
    assert_eq!(before.len(), after.len());
    for (old, new) in before.iter().zip(after) {
        assert!(old.contains("@anchor") || *old == new);
    }
}

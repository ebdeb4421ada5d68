use strandmap::annotations::{
    normalize_location_path, parse_range, parse_watch, scalar, scan_source, split_commas,
};
use strandmap::config::AnnotationConfig;
use strandmap::model::{Severity, Value, WatchMode};

#[test]
fn parses_annotation_blocks_and_inline_relations() {
    let source = r#"
// @anchor auth.issue target=rust://auth::issue watch=range lines=2-8
// @strand token-format role=producer intent="Issuer and verifier agree"
fn issue() {}
// @anchor auth.verify @strand token-format role=consumer @relation mirrors to=auth.issue bidirectional=true
fn verify() {}
"#;
    let result = scan_source("src/auth.rs", source, &AnnotationConfig::default());
    assert_eq!(result.diagnostics.len(), 1, "{:?}", result.diagnostics);
    assert_eq!(result.diagnostics[0].code, "static-source-location");
    assert_eq!(result.anchors.len(), 2);
    assert_eq!(result.memberships.len(), 2);
    assert_eq!(result.relations.len(), 1);
    assert_eq!(result.memberships[0].member.anchor, "auth.issue");
    assert_eq!(result.relations[0].relation.from, "auth.verify");
}

#[test]
fn stops_inline_annotations_at_block_comment_boundaries() {
    let source = r#"
const mapped = values.map((value /* @anchor codec.map.value watch=line @strand data-contract role=input */) => value);
const checked = values.every((value /* @anchor codec.check.value watch=line @strand data-contract role=input */) => value > 0);
"#;
    let result = scan_source("src/index.js", source, &AnnotationConfig::default());
    assert!(result.diagnostics.is_empty(), "{:?}", result.diagnostics);
    assert_eq!(result.anchors.len(), 2);
    assert_eq!(result.memberships.len(), 2);
    assert_eq!(result.anchors[0].0.id, "codec.map.value");
    assert_eq!(result.memberships[1].member.anchor, "codec.check.value");
}

#[test]
fn stops_inline_annotations_at_lean_block_comment_boundaries() {
    let source = r#"
def amountInTier (amount : Nat) /- @anchor arithmetic.amount watch=line @strand fee-model role=amount -/ (tier : FeeTier) := True
"#;
    let result = scan_source("formal/Spec.lean", source, &AnnotationConfig::default());
    assert!(result.diagnostics.is_empty(), "{:?}", result.diagnostics);
    assert_eq!(result.anchors.len(), 1);
    assert_eq!(result.memberships.len(), 1);
    assert_eq!(result.anchors[0].0.id, "arithmetic.amount");
    assert_eq!(result.memberships[0].member.role.as_deref(), Some("amount"));
}

#[test]
fn preserves_comment_delimiters_inside_quoted_values() {
    let source = r#"/* @anchor docs.example target="docs://example/*/section" watch=line */"#;
    let result = scan_source("src/index.js", source, &AnnotationConfig::default());
    assert!(result.diagnostics.is_empty(), "{:?}", result.diagnostics);
    assert_eq!(
        result.anchors[0].0.target.as_deref(),
        Some("docs://example/*/section")
    );
}

#[test]
fn creates_deterministic_implicit_anchor() {
    let source = "// @strand data-contract role=consumer";
    let first = scan_source("src/main.rs", source, &AnnotationConfig::default());
    let second = scan_source("src/main.rs", source, &AnnotationConfig::default());
    assert_eq!(
        first.memberships[0].member.anchor,
        second.memberships[0].member.anchor
    );
    assert!(first.memberships[0]
        .member
        .anchor
        .starts_with("source:src/main.rs:"));
}

#[test]
fn rejects_removed_prose_fields() {
    let source = r#"
// @anchor auth.issue description="prose"
// @strand token-format rationale="prose"
// @relation mirrors to=auth.issue reason="prose"
"#;
    let result = scan_source("src/auth.rs", source, &AnnotationConfig::default());
    assert_eq!(result.diagnostics.len(), 3);
    assert!(result
        .diagnostics
        .iter()
        .all(|diagnostic| diagnostic.message.contains("metadata is not supported")));
}

#[test]
fn anchors_follow_their_declaration() {
    let source = "\n// @anchor service.run kind=function tags=a,b owner=team count=3\npub fn run() {\n    work();\n}\n";
    let result = scan_source("src/lib.rs", source, &AnnotationConfig::default());
    assert!(result.diagnostics.is_empty(), "{:?}", result.diagnostics);
    let (anchor, provenance) = &result.anchors[0];
    assert_eq!(anchor.kind.as_deref(), Some("function"));
    assert!(anchor.tags.contains("a") && anchor.tags.contains("b"));
    assert_eq!(anchor.attributes.get("owner"), Some(&Value::Text("team".into())));
    assert_eq!(anchor.attributes.get("count"), Some(&Value::Integer(3)));
    let location = anchor.location.as_ref().unwrap();
    assert_eq!(location.watch, Some(WatchMode::Node));
    assert_eq!((location.line_start, location.line_end), (Some(3), Some(5)));
    assert_eq!(provenance.line, Some(2));
    assert_eq!(provenance.source, "annotation");
    assert_eq!(provenance.path.as_deref(), Some("src/lib.rs"));
}

#[test]
fn anchors_stay_active_for_a_few_lines() {
    let near = "// @anchor a watch=file\n\n\n// @strand s role=r\n";
    let result = scan_source("notes.txt", near, &AnnotationConfig::default());
    assert_eq!(result.memberships[0].member.anchor, "a");
    let far = "// @anchor a watch=file\n\n\n\n// @strand s role=r\n";
    let result = scan_source("notes.txt", far, &AnnotationConfig::default());
    assert!(result.memberships[0].member.anchor.starts_with("source:notes.txt:"));
}

#[test]
fn strands_without_an_anchor_can_be_refused() {
    let config = AnnotationConfig {
        implicit_anchors: false,
        ..AnnotationConfig::default()
    };
    let result = scan_source("notes.txt", "@strand s role=r\n", &config);
    assert!(result.memberships.is_empty());
    assert_eq!(result.diagnostics[0].code, "annotation-strand");
    assert_eq!(result.diagnostics[0].severity, Severity::Error);
    assert_eq!(
        result.diagnostics[0].message,
        "strand annotation has no anchor; provide anchor=<id> or enable implicit_anchors"
    );
}

#[test]
fn disabled_annotations_say_nothing() {
    let config = AnnotationConfig {
        enabled: false,
        ..AnnotationConfig::default()
    };
    let result = scan_source("notes.txt", "@anchor a\n@strand s\n", &config);
    assert!(result.anchors.is_empty() && result.memberships.is_empty());
    assert!(result.diagnostics.is_empty());
}

#[test]
fn malformed_annotations_are_told() {
    let result = scan_source(
        "notes.txt",
        "@anchor\n@anchor a \"open\n@relation mirrors\n@anchor a path=../x\n",
        &AnnotationConfig::default(),
    );
    let codes: Vec<&str> = result.diagnostics.iter().map(|d| d.code.as_str()).collect();
    assert_eq!(
        codes,
        ["annotation-anchor", "annotation-anchor", "annotation-relation", "annotation-anchor"]
    );
    assert_eq!(result.diagnostics[0].message, "anchor annotation requires an id");
    assert_eq!(result.diagnostics[0].line, Some(1));
    assert_eq!(
        result.diagnostics[3].message,
        "location paths must be repository-relative and may not escape the repository"
    );
}

#[test]
fn scalars_have_their_types() {
    assert_eq!(scalar("true"), Value::Bool(true));
    assert_eq!(scalar("null"), Value::Null);
    assert_eq!(scalar("-12"), Value::Integer(-12));
    assert_eq!(scalar("word"), Value::Text("word".into()));
}

#[test]
fn ranges_and_watch_modes_are_read() {
    assert_eq!(parse_range("2-8"), Ok((2, 8)));
    assert_eq!(parse_range("L4"), Ok((4, 4)));
    assert!(parse_range("8-2").is_err());
    assert!(parse_range("0-2").is_err());
    assert_eq!(parse_watch("node"), Ok(WatchMode::Node));
    assert!(parse_watch("sometimes").is_err());
    let parts = split_commas("a, b,,c");
    assert_eq!(parts.len(), 3);
    assert!(parts.contains("b"));
}

#[test]
fn location_paths_stay_in_the_repository() {
    assert_eq!(normalize_location_path("./src\\a.rs").unwrap(), "src/a.rs");
    for path in ["", "/etc", "a/../../b", ".."] {
        assert_eq!(
            normalize_location_path(path).unwrap_err(),
            "location paths must be repository-relative and may not escape the repository"
        );
    }
}

use strandmap::collections::{StringMap, StringSet};
use strandmap::config::{AnnotationConfig, Config};
use strandmap::model::{
    Anchor, FileRecord, Index, Indexed, LineRange, Location, Provenance, Timestamp, WatchMode,
};
use strandmap::search::{
    admitted_documents, anchors_for_span, at_or_below, best_matching_line, bloom_might_match,
    contains_excluded, document_frequency, file_documents, holds_phrase, indexed_span_for_line,
    line_matches, matched_terms, normalize_tokens, parse_query, path_allowed, query_words,
    ranges_substantially_overlap, search, searched_files, searched_text, source_bloom,
    strip_annotations, term_frequency, Document, RankedDocument, SearchHit,
};
use strandmap::source_span::Span;

fn words(values: &[&str]) -> Vec<String> {
    values.iter().map(|value| value.to_string()).collect()
}

fn markers() -> AnnotationConfig {
    Config::default().annotations
}

fn record(path: &str, text: &str) -> FileRecord {
    FileRecord {
        path: path.into(),
        size: text.len() as u64,
        modified_ns: 0,
        content_hash: None,
        search_bloom: source_bloom(text, &markers()),
        rust_test_ranges: vec![],
    }
}

fn anchor(id: &str, path: &str, lines: (u32, u32), watch: WatchMode) -> Indexed<Anchor> {
    Indexed {
        value: Anchor {
            schema: 1,
            id: id.into(),
            target: None,
            kind: None,
            location: Some(Location {
                path: path.into(),
                line_start: Some(lines.0),
                line_end: Some(lines.1),
                symbol: None,
                language: None,
                fingerprint: None,
                watch: Some(watch),
            }),
            tags: StringSet::new(),
            attributes: StringMap::new(),
        },
        provenance: Provenance { source: "annotation".into(), path: None, line: None },
    }
}

fn index(files: Vec<FileRecord>, anchors: Vec<Indexed<Anchor>>) -> Index {
    let mut by_path = StringMap::new();
    for file in files {
        by_path.insert(file.path.clone(), file);
    }
    let mut by_id = StringMap::new();
    for anchor in anchors {
        by_id.insert(anchor.value.id.clone(), anchor);
    }
    Index {
        schema: 5,
        root: "/work".into(),
        generated_at: Timestamp { seconds: 0, nanos: 0 },
        workspace_fingerprint: String::new(),
        metadata_fingerprint: String::new(),
        config_fingerprint: String::new(),
        files: by_path,
        source_documents: StringMap::new(),
        strands: StringMap::new(),
        anchors: by_id,
        memberships: vec![],
        relations: vec![],
        diagnostics: vec![],
    }
}

fn document(text: &str) -> Document {
    let path = "a.txt".to_string();
    let record = record("a.txt", text);
    file_documents(&index(vec![], vec![]), &path, &record, text, true, &markers()).remove(0)
}

fn ranked(document: usize, rank: u64, best_line: u32) -> RankedDocument {
    RankedDocument { document, rank, score: rank as u32, best_line }
}

#[test]
fn query_parser_keeps_phrases_and_exclusions() {
    let query = parse_query("customer \"profile avatar\" -legacy").unwrap();
    assert_eq!(query.terms, ["avatar", "customer", "profile"]);
    assert_eq!(query.phrases, [vec!["profile", "avatar"]]);
    assert!(query.excluded.contains("legacy"));
}

#[test]
fn identifiers_are_split_without_losing_acronyms() {
    assert_eq!(
        normalize_tokens("CustomerProfile_avatar::v2"),
        ["customer", "profile", "avatar", "v2"]
    );
}

#[test]
fn natural_task_scaffolding_does_not_crowd_feature_terms() {
    let query = parse_query("please add customer profile avatar").unwrap();
    assert_eq!(query.terms, ["avatar", "customer", "profile"]);
    assert_eq!(parse_query("add").unwrap().terms, ["add"]);
}

#[test]
fn bloom_filters_absent_terms_without_indexing_annotations() {
    let bloom = source_bloom(
        "// @anchor metadata.internal-only\npub fn render_profile_avatar() {}\n",
        &markers(),
    );
    assert!(bloom_might_match(&bloom, &vec!["avatar".to_string()]));
    assert!(!bloom_might_match(&bloom, &vec!["internal".to_string()]));
}

#[test]
fn hits_tell_where_they_are() {
    let hit = SearchHit {
        path: "src/a.rs".into(),
        line_start: 3,
        line_end: 120,
        score: 7,
        matched: vec![],
        anchors: vec![],
    };
    assert_eq!(hit.reason(), "match src/a.rs#L3-L120");
}

#[test]
fn overlap_rejects_nested_chunks_but_keeps_separate_functions() {
    assert!(ranges_substantially_overlap(10, 20, 12, 16));
    assert!(!ranges_substantially_overlap(10, 20, 21, 30));
}

#[test]
fn queries_are_split_like_commands() {
    assert_eq!(
        query_words("a \"b c\" d\\ e").unwrap(),
        [("a".to_string(), false), ("b c".to_string(), true), ("d e".to_string(), false)]
    );
    assert_eq!(
        query_words("a 'b").unwrap_err(),
        "unterminated quote in search query"
    );
    assert_eq!(parse_query(" ").unwrap_err(), "search query cannot be empty");
    assert_eq!(
        parse_query("a --").unwrap_err(),
        "search term \"-\" has no searchable characters"
    );
    assert_eq!(
        parse_query("-legacy").unwrap_err(),
        "search query must contain at least one meaningful term"
    );
}

#[test]
fn annotations_are_not_searched() {
    assert_eq!(strip_annotations("fn a() {} // @anchor a", &markers()), "fn a() {} // ");
    assert_eq!(strip_annotations("// @strandmap anchor a", &markers()), "// ");
    assert_eq!(strip_annotations("x @strand s @anchor a", &markers()), "x ");
    assert_eq!(strip_annotations("# @relation tested-by to=b", &markers()), "# ");
    assert_eq!(strip_annotations("plain", &markers()), "plain");
    let bare = source_bloom("// \nfn run() {}\n", &markers());
    assert_eq!(source_bloom("// @anchor secret\nfn run() {}\n", &markers()), bare);
}

#[test]
fn filters_let_every_match_through() {
    let text = "fn alpha() {}\nlet betaGamma = 2;\n";
    let bloom = source_bloom(text, &markers());
    for term in ["fn", "alpha", "let", "beta", "gamma", "2"] {
        assert!(bloom_might_match(&bloom, &words(&[term])), "{term}");
    }
    assert_eq!(bloom.len(), 32);
    assert!(bloom_might_match(&vec![], &words(&["anything"])));
}

#[test]
fn only_text_is_searched() {
    assert_eq!(searched_text(b"text").as_deref(), Some("text"));
    assert_eq!(searched_text("ä".as_bytes()).as_deref(), Some("ä"));
    assert_eq!(searched_text(b"a\0b"), None);
    assert_eq!(searched_text(&[0xff]), None);
}

#[test]
fn paths_bound_a_search() {
    assert!(at_or_below("src/a.rs", "src"));
    assert!(at_or_below("src", "src"));
    assert!(!at_or_below("srcs/a.rs", "src"));
    assert!(path_allowed("any", &vec![]));
    assert!(!path_allowed("docs/a", &words(&["src", "lib"])));
    let index = index(
        vec![record("docs/a.txt", "alpha"), record("src/a.txt", "alpha"), record("src/b.txt", "beta")],
        vec![],
    );
    assert_eq!(searched_files(&index, &words(&["src"]), &words(&["alpha"])), ["src/a.txt"]);
}

#[test]
fn words_are_counted() {
    let tokens = words(&["a", "b", "a", "c"]);
    assert_eq!(term_frequency(&tokens, "a"), 2);
    assert_eq!(matched_terms(&tokens, &words(&["c", "x", "a"])), ["c", "a"]);
    assert!(holds_phrase(&tokens, &words(&["b", "a"])));
    assert!(!holds_phrase(&tokens, &words(&["a", "a"])));
    let documents = vec![document("one two"), document("two three")];
    assert_eq!(document_frequency(&documents, "two"), 2);
    assert_eq!(document_frequency(&documents, "one"), 1);
    let mut excluded = StringSet::new();
    excluded.insert("three".into());
    assert!(!contains_excluded(&documents[0], &excluded));
    assert!(contains_excluded(&documents[1], &excluded));
}

#[test]
fn the_first_of_the_best_lines_counts() {
    let mut piece = document("one\ntwo one\nthree\n");
    assert_eq!(
        line_matches(&piece, &words(&["one", "two"])),
        [words(&["one"]), words(&["one", "two"]), words(&[])]
    );
    assert_eq!(best_matching_line(&piece, &vec![1, 7, 7]), 2);
    assert_eq!(best_matching_line(&piece, &vec![]), 1);
    piece.start = u32::MAX;
    assert_eq!(best_matching_line(&piece, &vec![0, 1]), u32::MAX);
}

#[test]
fn long_files_are_cut_into_overlapping_pieces() {
    let text: String = (1..=100).map(|line| format!("word{line}\n")).collect();
    let path = "a.txt".to_string();
    let record = record("a.txt", &text);
    let pieces = file_documents(&index(vec![], vec![]), &path, &record, &text, true, &markers());
    let bounds: Vec<_> = pieces.iter().map(|piece| (piece.start, piece.end)).collect();
    assert_eq!(bounds, [(1, 56), (49, 100)]);
}

#[test]
fn anchored_pieces_come_first_and_tests_are_left_out() {
    let text = "alpha\nbeta\ngamma\n";
    let path = "a.rs".to_string();
    let mut file = record("a.rs", text);
    file.rust_test_ranges = vec![LineRange { start: 3, end: 3 }];
    let anchors = vec![
        anchor("one", "a.rs", (2, 2), WatchMode::Range),
        anchor("two", "a.rs", (3, 3), WatchMode::Range),
    ];
    let index = index(vec![], anchors);
    let pieces = file_documents(&index, &path, &file, text, false, &markers());
    assert_eq!(pieces.len(), 2);
    assert!(pieces[0].anchored && !pieces[1].anchored);
    assert_eq!(pieces[0].tokens, ["beta"]);
    assert_eq!(pieces[1].tokens, ["alpha", "beta"]);
    assert_eq!(file_documents(&index, &path, &file, text, true, &markers()).len(), 3);
}

#[test]
fn hits_are_few_and_apart() {
    let text: String = (1..=100).map(|line| format!("word{line}\n")).collect();
    let path = "a.txt".to_string();
    let file = record("a.txt", &text);
    let anchors = vec![
        anchor("low", "a.txt", (10, 20), WatchMode::Range),
        anchor("wide", "a.txt", (5, 30), WatchMode::Range),
        anchor("whole", "a.txt", (1, 1), WatchMode::File),
    ];
    let index = index(vec![file.clone()], anchors);
    let documents = file_documents(&index, &path, &file, &text, true, &markers());
    let mut sources = StringMap::new();
    sources.insert(path, text);
    let query = parse_query("word12 -word200").unwrap();
    let order = vec![ranked(0, 5, 12), ranked(1, 9, 12), ranked(3, 1, 90)];
    let hits = search(&index, &sources, &documents, &query, &order, 8).unwrap();
    assert_eq!((hits[0].line_start, hits[0].line_end), (5, 30));
    assert_eq!(hits[0].anchors, ["low", "wide"]);
    assert_eq!(hits[0].score, 9);
    assert!(hits.iter().skip(1).all(|hit| hit.line_start > 30));
    let first = search(&index, &sources, &documents, &query, &order, 1).unwrap();
    assert_eq!(first.len(), 1);
    assert_eq!(
        search(&index, &sources, &documents, &query, &order, 0).unwrap_err(),
        "--search-limit must be greater than zero"
    );
}

#[test]
fn the_smallest_anchor_around_a_line_counts() {
    let anchors = vec![
        anchor("low", "a.txt", (10, 20), WatchMode::Range),
        anchor("wide", "a.txt", (5, 30), WatchMode::Range),
        anchor("whole", "a.txt", (1, 99), WatchMode::File),
    ];
    let index = index(vec![], anchors);
    assert_eq!(
        indexed_span_for_line(&index, "a.txt", 12),
        Some(Span { start_line: 10, end_line: 20 })
    );
    assert_eq!(
        indexed_span_for_line(&index, "a.txt", 25),
        Some(Span { start_line: 5, end_line: 30 })
    );
    assert_eq!(indexed_span_for_line(&index, "a.txt", 50), None);
    assert_eq!(anchors_for_span(&index, "a.txt", 50, 60), ["whole"]);
    assert_eq!(anchors_for_span(&index, "a.txt", 21, 25), ["wide"]);
    assert!(anchors_for_span(&index, "b.txt", 1, 2).is_empty());
}

#[test]
fn much_overlap_is_symmetric() {
    for (a, b) in [((1, 10), (8, 9)), ((1, 4), (4, 9)), ((5, 6), (1, 2))] {
        assert_eq!(
            ranges_substantially_overlap(a.0, a.1, b.0, b.1),
            ranges_substantially_overlap(b.0, b.1, a.0, a.1)
        );
    }
    assert!(!ranges_substantially_overlap(1, 4, 4, 9));
}

#[test]
fn letters_of_every_script_are_searched() {
    assert_eq!(normalize_tokens("ÄrgerÜber straße"), ["ärger", "über", "straße"]);
    assert_eq!(normalize_tokens("a\u{2003}b"), ["a", "b"]);
}

#[test]
fn configured_markers_are_not_searched() {
    let mut config = markers();
    config.anchor_markers = words(&["#note"]);
    config.relation_markers = words(&["#link"]);
    assert_eq!(strip_annotations("run() #note secret", &config), "run() ");
    assert_eq!(strip_annotations("run() #link a #note b", &config), "run() ");
    assert_eq!(strip_annotations("run() @anchor a #note b", &config), "run() ");
    assert_eq!(strip_annotations("run() #note secret", &markers()), "run() #note secret");
    let bloom = source_bloom("run() #note secret\n", &config);
    assert!(bloom_might_match(&bloom, &words(&["run"])));
    assert!(!bloom_might_match(&bloom, &words(&["secret"])));
    let path = "a.txt".to_string();
    let file = record("a.txt", "run() #note secret\n");
    let empty = index(vec![], vec![]);
    let pieces = file_documents(&empty, &path, &file, "run() #note secret\n", true, &config);
    assert_eq!(pieces[0].tokens, ["run"]);
}

#[test]
fn excluded_words_give_no_hit() {
    let path = "a.txt".to_string();
    let text = "one two\nthree two\n".to_string();
    let anchors = vec![
        anchor("first", "a.txt", (1, 1), WatchMode::Range),
        anchor("second", "a.txt", (2, 2), WatchMode::Range),
    ];
    let file = record("a.txt", &text);
    let index = index(vec![file.clone()], anchors);
    let documents = file_documents(&index, &path, &file, &text, true, &markers());
    let mut sources = StringMap::new();
    sources.insert(path, text);
    let order = vec![ranked(0, 5, 1), ranked(1, 9, 2), ranked(2, 7, 1)];
    let query = parse_query("two three -one").unwrap();
    let hits = search(&index, &sources, &documents, &query, &order, 8).unwrap();
    assert_eq!(hits.len(), 1);
    assert_eq!((hits[0].line_start, hits[0].line_end), (2, 2));
    assert_eq!(hits[0].matched, ["three", "two"]);
    let admitted = admitted_documents(&documents, &query.excluded, &order);
    assert_eq!(admitted.iter().map(|x| x.document).collect::<Vec<_>>(), [1]);
}

#[test]
fn hits_come_in_the_order_of_their_ranks() {
    let path = "a.txt".to_string();
    let text = "two one\ntwo two\n\n\ntwo\n".to_string();
    let anchors = vec![
        anchor("a", "a.txt", (1, 1), WatchMode::Range),
        anchor("b", "a.txt", (2, 2), WatchMode::Range),
        anchor("c", "a.txt", (5, 5), WatchMode::Range),
    ];
    let file = record("a.txt", &text);
    let index = index(vec![file.clone()], anchors);
    let documents = file_documents(&index, &path, &file, &text, true, &markers());
    let mut sources = StringMap::new();
    sources.insert(path, text);
    let query = parse_query("two").unwrap();
    let order = vec![ranked(0, 3, 1), ranked(2, 8, 5), ranked(1, 8, 2)];
    let hits = search(&index, &sources, &documents, &query, &order, 8).unwrap();
    let scores: Vec<u32> = hits.iter().map(|hit| hit.score).collect();
    let starts: Vec<u32> = hits.iter().map(|hit| hit.line_start).collect();
    assert_eq!(scores, [8, 8, 3]);
    assert_eq!(starts, [5, 2, 1]);
}

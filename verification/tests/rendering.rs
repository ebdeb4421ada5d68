use strandmap::cli::ContextSource;
use strandmap::collections::StringMap;
use strandmap::context_output::{
    code_fence, display_location, estimate_tokens, extension_for_path, language_for_path,
    normalize_language, render_loaded, requested_paths, FileContent, RenderOptions,
};
use strandmap::model::{
    ChangeSet, ChangeStatus, ChangedFile, ContextPacket, Diagnostic, LineRange, Location, Severity,
};
use strandmap::search::SearchHit;

fn packet() -> ContextPacket {
    ContextPacket {
        changes: ChangeSet {
            description: "context from search".into(),
            fingerprint: String::new(),
            files: vec![],
            removed_lines: vec![],
        },
        strands: vec![],
        related_anchors: vec![],
        unmatched_files: vec![],
        diagnostics: vec![],
    }
}

fn hit(path: &str, line_start: u32, line_end: u32) -> SearchHit {
    SearchHit {
        path: path.into(),
        line_start,
        line_end,
        score: 1,
        matched: vec![],
        anchors: vec![],
    }
}

fn options(source_matches: Vec<SearchHit>) -> RenderOptions {
    RenderOptions {
        source: ContextSource::Direct,
        context_lines: 0,
        merge_gap: 2,
        token_budget: None,
        focused_anchors: StringMap::new(),
        source_matches,
        include_rust_tests: true,
        source_includes: vec![],
        source_excludes: vec![],
        source_extensions: vec![],
        excluded_source_extensions: vec![],
        source_languages: vec![],
        excluded_source_languages: vec![],
    }
}

fn contents(files: &[(&str, &str)]) -> StringMap<FileContent> {
    let mut contents = StringMap::new();
    for (path, text) in files {
        contents.insert(path.to_string(), FileContent::Bytes(text.as_bytes().to_vec()));
    }
    contents
}

fn numbered(count: u32) -> String {
    (1..=count).map(|line| format!("line {line}\n")).collect()
}

fn printed(options: &RenderOptions, files: &[(&str, &str)]) -> String {
    render_loaded(&packet(), options, &contents(files)).unwrap().unwrap()
}

#[test]
fn excerpts_are_printed_in_fences() {
    let text = printed(&options(vec![hit("a.rs", 2, 3)]), &[("a.rs", "one\ntwo\n```\nfour\n")]);
    assert_eq!(
        text,
        "# Strandmap context\nSelection: context from search\n\n## Strands (0)\nNo strands selected.\n\n## Source excerpts (1)\n\n### E1 a.rs#L2-L3 [match]\n````rust\ntwo\n```\n````\n"
    );
    assert_eq!(code_fence("plain"), "```");
    assert_eq!(code_fence("a ````` b"), "``````");
}

#[test]
fn matches_in_any_order_keep_their_lines() {
    let file = numbered(60);
    let text = printed(
        &options(vec![hit("a.txt", 50, 52), hit("a.txt", 10, 12)]),
        &[("a.txt", &file)],
    );
    assert!(text.contains("a.txt#L50-L52 [match]"), "{text}");
    assert!(text.contains("a.txt#L10-L12 [match]"), "{text}");
    assert!(text.contains("line 11\n"), "{text}");
}

#[test]
fn near_matches_are_joined() {
    let file = numbered(20);
    let near = printed(
        &options(vec![hit("a.txt", 8, 9), hit("a.txt", 4, 5)]),
        &[("a.txt", &file)],
    );
    assert!(near.contains("## Source excerpts (1)"), "{near}");
    assert!(near.contains("a.txt#L4-L9 [match]"), "{near}");
    let apart = printed(
        &options(vec![hit("a.txt", 9, 9), hit("a.txt", 4, 5)]),
        &[("a.txt", &file)],
    );
    assert!(apart.contains("## Source excerpts (2)"), "{apart}");
}

#[test]
fn overlapping_matches_are_printed_once() {
    let file = numbered(20);
    let text = printed(
        &options(vec![hit("a.txt", 4, 9), hit("a.txt", 6, 12)]),
        &[("a.txt", &file)],
    );
    assert_eq!(text.matches("line 7\n").count(), 1);
    assert!(text.contains("a.txt#L4-L12 [match]"), "{text}");
}

#[test]
fn joined_matches_keep_every_line() {
    let file = numbered(30).replace("line 8\n", "\n");
    let matches = [(12, 15), (4, 9), (8, 13), (5, 6)];
    let hits = matches.iter().map(|(start, end)| hit("a.txt", *start, *end)).collect();
    let text = printed(&options(hits), &[("a.txt", &file)]);
    assert!(text.contains("a.txt#L4-L15 [match]"), "{text}");
    for line in 4..16 {
        let shown = format!("line {line}");
        assert_eq!(text.lines().filter(|printed| *printed == shown).count(), usize::from(line != 8));
    }
}

#[test]
fn lines_around_a_match_can_be_asked_for() {
    let file = numbered(9);
    let wide = RenderOptions { context_lines: 2, ..options(vec![hit("a.txt", 2, 8)]) };
    assert!(printed(&wide, &[("a.txt", &file)]).contains("a.txt#L1-L9 [match]"));
}

#[test]
fn budgets_leave_out_whole_excerpts() {
    let file = numbered(40);
    let matches = vec![hit("a.txt", 1, 2), hit("a.txt", 20, 21)];
    assert_eq!(estimate_tokens("line 1\nline 2"), 20);
    let tight = RenderOptions { token_budget: Some(20), ..options(matches) };
    let text = printed(&tight, &[("a.txt", &file)]);
    assert!(text.contains("## Source excerpts (1)"), "{text}");
    assert!(text.contains("line 2\n") && !text.contains("line 20\n"), "{text}");
    assert!(text.contains("Context budget omitted 1 complete source excerpts (~20 tokens) across 1 files.\n  - a.txt: 1\n"), "{text}");
}

#[test]
fn tests_are_taken_out_of_excerpts() {
    let file = "fn a() {}\n\n#[test]\nfn t() {}\n\nfn b() {}\n";
    let plain =
        RenderOptions { include_rust_tests: false, ..options(vec![hit("a.rs", 1, 6)]) };
    let text = printed(&plain, &[("a.rs", file)]);
    assert!(text.contains("fn a()") && text.contains("fn b()"), "{text}");
    assert!(!text.contains("fn t()"), "{text}");
    assert!(text.contains("- Omitted 1 Rust test sections across 1 files."), "{text}");
}

#[test]
fn files_that_cannot_be_shown_are_named() {
    let asked = options(vec![hit("gone.txt", 1, 2), hit("bin", 1, 1), hit("latin", 1, 1), hit("a.txt", 7, 8)]);
    let mut files = contents(&[("bin", "a\0b"), ("a.txt", "one\n")]);
    files.insert("gone.txt".into(), FileContent::Failed("no such file".into()));
    files.insert("latin".into(), FileContent::Bytes(vec![0xe4]));
    let text = render_loaded(&packet(), &asked, &files).unwrap().unwrap();
    assert!(text.contains("- gone.txt (read failed: no such file)\n"), "{text}");
    assert!(text.contains("- bin (binary file)\n"), "{text}");
    assert!(text.contains("- latin (not UTF-8)\n"), "{text}");
    assert!(text.contains("- a.txt#L7-L8 (range is outside file)\n"), "{text}");
}

#[test]
fn files_are_filtered_before_they_are_read() {
    let asked = RenderOptions {
        source_excludes: vec!["docs/**".into()],
        excluded_source_languages: vec!["py".into()],
        ..options(vec![hit("docs/a.md", 1, 1), hit("a.py", 1, 1), hit("b.rs", 1, 1)])
    };
    let paths = requested_paths(&packet(), &asked).unwrap();
    assert_eq!(paths.len(), 1);
    assert!(paths.contains("b.rs"));
    assert!(render_loaded(&packet(), &asked, &StringMap::new()).is_none());
    let blank = RenderOptions { source_includes: vec![" ".into()], ..options(vec![]) };
    assert_eq!(
        requested_paths(&packet(), &blank).unwrap_err(),
        "--source-include cannot be empty"
    );
    let slash = RenderOptions { source_extensions: vec!["a/b".into()], ..options(vec![]) };
    assert_eq!(
        requested_paths(&packet(), &slash).unwrap_err(),
        "invalid source extension \"a/b\""
    );
    let nameless = RenderOptions { source_languages: vec!["".into()], ..options(vec![]) };
    assert_eq!(
        render_loaded(&packet(), &nameless, &StringMap::new()).unwrap().unwrap_err(),
        "source language cannot be empty"
    );
    let broken = RenderOptions { source_excludes: vec!["a{".into()], ..options(vec![]) };
    let error = requested_paths(&packet(), &broken).unwrap_err();
    assert!(error.starts_with("invalid --source-exclude glob \"a{\""), "{error}");
}

#[test]
fn no_source_is_printed_where_none_is_wanted() {
    let none = RenderOptions { source: ContextSource::Nothing, ..options(vec![hit("a.rs", 1, 1)]) };
    let text = printed(&none, &[]);
    assert!(!text.contains("## Source excerpts"), "{text}");
}

#[test]
fn changes_and_diagnostics_are_printed() {
    let mut packet = packet();
    packet.changes.files = vec![
        ChangedFile {
            path: "a.rs".into(),
            old_path: None,
            status: ChangeStatus::Modified,
            ranges: vec![LineRange { start: 1, end: 2 }, LineRange { start: 5, end: 5 }],
            whole_file: false,
        },
        ChangedFile {
            path: "b.rs".into(),
            old_path: None,
            status: ChangeStatus::Untracked,
            ranges: vec![],
            whole_file: true,
        },
    ];
    packet.unmatched_files = vec!["b.rs".into()];
    packet.diagnostics = vec![Diagnostic {
        severity: Severity::Error,
        code: "unknown-anchor".into(),
        message: "what".into(),
        path: None,
        line: None,
        hint: None,
    }];
    let text = render_loaded(&packet, &options(vec![]), &StringMap::new()).unwrap().unwrap();
    assert!(text.contains("Changed files: 2\n- a.rs (Modified; 1-2,5-5)\n- b.rs (Untracked; whole-file)\n"), "{text}");
    assert!(text.contains("\n## Unmatched changed files\n- b.rs\n"), "{text}");
    assert!(text.ends_with("\n## Diagnostics\n- Error [unknown-anchor] -: what\n"), "{text}");
}

#[test]
fn languages_go_by_extension() {
    assert_eq!(language_for_path("a/b.mjs").as_deref(), Some("javascript"));
    assert_eq!(language_for_path("a.sol").as_deref(), Some("solidity"));
    assert_eq!(language_for_path("a.unknown"), None);
    assert_eq!(normalize_language(" RS "), "rust");
    assert_eq!(normalize_language("Zig"), "zig");
    assert_eq!(extension_for_path("a.RS").as_deref(), Some("rs"));
    assert_eq!(extension_for_path("x/.env").as_deref(), Some("env"));
    assert_eq!(extension_for_path("Makefile"), None);
}

#[test]
fn locations_are_displayed() {
    let mut location = Location {
        path: "a".into(),
        line_start: None,
        line_end: None,
        symbol: None,
        language: None,
        fingerprint: None,
        watch: None,
    };
    assert_eq!(display_location(&location), "a");
    location.line_start = Some(3);
    assert_eq!(display_location(&location), "a#L3");
    location.line_end = Some(3);
    assert_eq!(display_location(&location), "a#L3");
    location.line_end = Some(4);
    assert_eq!(display_location(&location), "a#L3-L4");
}

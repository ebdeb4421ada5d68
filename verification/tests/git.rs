use strandmap::cli::ChangeArgs;
use strandmap::collections::StringMap;
use strandmap::config::GitConfig;
use strandmap::git::{
    changes, diff_arguments, diff_source, merge_range, normalize_explicit_path, parse_patch,
    untracked_paths, uses_git, wants_untracked, with_fingerprint, ChangeError, DiffSource,
    GitReport, PatchError,
};
use strandmap::model::{ChangeStatus, ChangedFile, LineRange, RemovedLine};

fn no_arguments() -> ChangeArgs {
    ChangeArgs {
        diff: None,
        staged: false,
        worktree: false,
        untracked: false,
        no_untracked: false,
        files: vec![],
    }
}

#[test]
fn parses_ranges_deletions_and_renames() {
    let patch = r#"diff --git a/old.rs b/new.rs
similarity index 90%
rename from old.rs
rename to new.rs
--- a/old.rs
+++ b/new.rs
@@ -2,2 +2,3 @@
-old
+new
+extra
 context
"#;
    let mut files: StringMap<ChangedFile> = StringMap::new();
    let mut removed: Vec<RemovedLine> = Vec::new();
    parse_patch(patch, &mut files, &mut removed).unwrap();
    let changed = files.get("new.rs").unwrap();
    assert_eq!(changed.status, ChangeStatus::Renamed);
    assert_eq!(changed.old_path.as_deref(), Some("old.rs"));
    assert_eq!(removed[0].text, "old");
}

#[test]
fn patches_tell_ranges_and_removed_lines() {
    let patch = "diff --git a/a.rs b/a.rs\n--- a/a.rs\n+++ b/a.rs\n@@ -3 +3,2 @@\n-one\n+uno\n+dos\n@@ -10,2 +11,0 @@\n-gone\n-too\n";
    let mut files: StringMap<ChangedFile> = StringMap::new();
    let mut removed: Vec<RemovedLine> = Vec::new();
    parse_patch(patch, &mut files, &mut removed).unwrap();
    let changed = files.get("a.rs").unwrap();
    assert_eq!(changed.status, ChangeStatus::Modified);
    assert!(!changed.whole_file);
    assert_eq!(changed.ranges[0], LineRange { start: 3, end: 4 });
    assert_eq!(removed.len(), 3);
    assert_eq!(removed[0].line, 3);
    assert_eq!((removed[1].line, removed[2].line), (10, 11));
    assert_eq!(removed[2].path, "a.rs");
}

#[test]
fn binary_files_count_as_a_whole() {
    let patch = "diff --git a/logo.png b/logo.png\nBinary files a/logo.png and b/logo.png differ\n";
    let mut files: StringMap<ChangedFile> = StringMap::new();
    let mut removed: Vec<RemovedLine> = Vec::new();
    parse_patch(patch, &mut files, &mut removed).unwrap();
    assert!(files.get("logo.png").unwrap().whole_file);
}

#[test]
fn deleted_files_keep_their_path() {
    let patch = "diff --git a/x.txt b/x.txt\ndeleted file mode 100644\n--- a/x.txt\n+++ /dev/null\n@@ -1 +0,0 @@\n-bye\n";
    let mut files: StringMap<ChangedFile> = StringMap::new();
    let mut removed: Vec<RemovedLine> = Vec::new();
    parse_patch(patch, &mut files, &mut removed).unwrap();
    assert_eq!(files.get("x.txt").unwrap().status, ChangeStatus::Deleted);
    assert_eq!(removed[0].path, "x.txt");
}

#[test]
fn numbers_that_do_not_fit_are_refused() {
    let patch = "diff --git a/a b/a\n--- a/a\n+++ b/a\n@@ -1 +1 @@\n-old\n+new\n@@ -99999999999 +1 @@\n-more\n";
    let mut files: StringMap<ChangedFile> = StringMap::new();
    let mut removed = vec![RemovedLine { path: "x".into(), line: 1, text: "first".into() }];
    let result = parse_patch(patch, &mut files, &mut removed);
    assert!(matches!(result, Err(PatchError::Number(_))), "{:?}", result);
    assert_eq!(files.get("a").unwrap().ranges, [LineRange { start: 1, end: 1 }]);
    assert_eq!(removed.len(), 2);
    assert_eq!((removed[0].text.as_str(), removed[1].text.as_str()), ("first", "old"));
}

#[test]
fn close_ranges_are_merged() {
    let mut ranges = vec![LineRange { start: 2, end: 4 }];
    merge_range(&mut ranges, LineRange { start: 5, end: 6 });
    assert_eq!(ranges, [LineRange { start: 2, end: 6 }]);
    merge_range(&mut ranges, LineRange { start: 9, end: 9 });
    assert_eq!(ranges.len(), 2);
}

#[test]
fn explicit_paths_are_told_from_the_root() {
    assert_eq!(normalize_explicit_path("/repo", "src/a.rs").unwrap(), "src/a.rs");
    assert_eq!(normalize_explicit_path("/repo", "/repo/src/a.rs").unwrap(), "src/a.rs");
    assert!(normalize_explicit_path("/repo", "/elsewhere/a.rs").is_err());
    assert!(normalize_explicit_path("/repo", "../a.rs").is_err());
}

#[test]
fn explicit_files_need_no_git() {
    let args = ChangeArgs {
        files: vec!["b.rs".into(), "a.rs".into()],
        ..no_arguments()
    };
    assert!(!uses_git(&args));
    let report = GitReport {
        has_head: false,
        patch: String::new(),
        untracked: vec![],
    };
    let set = changes("/repo", &args, &GitConfig::default(), &report).unwrap();
    assert_eq!(set.files.len(), 2);
    assert_eq!(set.files[0].path, "a.rs");
    assert!(set.files[0].whole_file);
    let wrong = ChangeArgs {
        files: vec!["/x".into()],
        ..no_arguments()
    };
    assert!(matches!(
        changes("/repo", &wrong, &GitConfig::default(), &report),
        Err(ChangeError::Path(_))
    ));
}

#[test]
fn diffs_are_asked_for_in_the_right_way() {
    let config = GitConfig::default();
    assert!(uses_git(&no_arguments()));
    assert_eq!(
        diff_source(&no_arguments(), &config, true),
        DiffSource::Revision("HEAD".into())
    );
    assert_eq!(diff_source(&no_arguments(), &config, false), DiffSource::Initial);
    let staged = ChangeArgs {
        staged: true,
        ..no_arguments()
    };
    assert_eq!(diff_source(&staged, &config, true), DiffSource::Staged);
    let arguments = diff_arguments(&DiffSource::Revision("main...HEAD".into()), true);
    assert!(arguments.contains(&"diff".to_string()));
    assert!(arguments.contains(&"main...HEAD".to_string()));
    assert!(wants_untracked(&no_arguments(), &config));
    let without = ChangeArgs {
        no_untracked: true,
        ..no_arguments()
    };
    assert!(!wants_untracked(&without, &config));
}

#[test]
fn untracked_files_are_changed_as_a_whole() {
    assert_eq!(untracked_paths(b"a.rs\0dir/b.rs\0"), ["a.rs", "dir/b.rs"]);
    let report = GitReport {
        has_head: true,
        patch: String::new(),
        untracked: vec!["new.rs".into()],
    };
    let set = changes("/repo", &no_arguments(), &GitConfig::default(), &report).unwrap();
    assert_eq!(set.files[0].path, "new.rs");
    assert_eq!(set.files[0].status, ChangeStatus::Untracked);
    assert!(set.files[0].whole_file);
}

#[test]
fn fingerprints_are_hashes_of_the_change() {
    let report = GitReport {
        has_head: true,
        patch: String::new(),
        untracked: vec![],
    };
    let set = changes("/repo", &no_arguments(), &GitConfig::default(), &report).unwrap();
    let marked = with_fingerprint(set, b"[]");
    assert_eq!(marked.fingerprint, blake3::hash(b"[]").to_hex().to_string());
}

#[test]
fn binary_files_are_added_and_deleted() {
    let patch = "diff --git a/new.png b/new.png\nnew file mode 100644\nBinary files /dev/null and b/new.png differ\ndiff --git a/old.png b/old.png\ndeleted file mode 100644\nBinary files a/old.png and /dev/null differ\ndiff --git a/a and b.png b/a and b.png\nBinary files a/a and b.png and b/a and b.png differ\n";
    let mut files: StringMap<ChangedFile> = StringMap::new();
    let mut removed: Vec<RemovedLine> = Vec::new();
    parse_patch(patch, &mut files, &mut removed).unwrap();
    let added = files.get("new.png").unwrap();
    assert_eq!((added.status, added.whole_file), (ChangeStatus::Added, true));
    let deleted = files.get("old.png").unwrap();
    assert_eq!((deleted.status, deleted.whole_file), (ChangeStatus::Deleted, true));
    assert!(files.get("a and b.png").unwrap().whole_file);
    assert_eq!(files.len(), 3);
}

#[test]
fn patches_add_to_what_is_there() {
    let mut files: StringMap<ChangedFile> = StringMap::new();
    let mut removed = vec![RemovedLine { path: "x".into(), line: 1, text: "first".into() }];
    let patch = "diff --git a/a b/a\n--- a/a\n+++ b/a\n@@ -1 +0,0 @@\n-second\n";
    parse_patch(patch, &mut files, &mut removed).unwrap();
    assert_eq!(removed[0].text, "first");
    assert_eq!(removed[1].text, "second");
    assert_eq!(files.get("a").unwrap().ranges, [LineRange { start: 1, end: 1 }]);
}

#[test]
fn listed_paths_need_not_be_text() {
    let listed = untracked_paths(b"a\\b.txt\0\0\xffx\0");
    assert_eq!(listed, ["a/b.txt", "\u{fffd}x"]);
}

#[test]
fn lines_of_a_hunk_are_no_headers() {
    let patch = "diff --git a/Proof.lean b/Proof.lean\n--- a/Proof.lean\n+++ b/Proof.lean\n@@ -1 +0,0 @@\n--- @anchor proof.one\n";
    let mut files: StringMap<ChangedFile> = StringMap::new();
    let mut removed: Vec<RemovedLine> = Vec::new();
    parse_patch(patch, &mut files, &mut removed).unwrap();
    assert_eq!(
        removed,
        [RemovedLine {
            path: "Proof.lean".into(),
            line: 1,
            text: "-- @anchor proof.one".into(),
        }]
    );
    assert_eq!(files.len(), 1);
    assert_eq!(files.get("Proof.lean").unwrap().old_path, None);
}

#[test]
fn hunks_end_where_their_counts_say() {
    let patch = "diff --git a/a.lean b/a.lean\n--- a/a.lean\n+++ b/a.lean\n@@ -4,3 +4,2 @@\n--- one\n+++ x\n two\n--- three\n\\ No newline at end of file\n--- a/b.lean\n+++ b/b.lean\n@@ -7 +6,0 @@\n-seven\n";
    let mut files: StringMap<ChangedFile> = StringMap::new();
    let mut removed: Vec<RemovedLine> = Vec::new();
    parse_patch(patch, &mut files, &mut removed).unwrap();
    let told: Vec<_> = removed
        .iter()
        .map(|line| (line.path.as_str(), line.line, line.text.as_str()))
        .collect();
    assert_eq!(
        told,
        [("a.lean", 4, "-- one"), ("a.lean", 6, "-- three"), ("b.lean", 7, "seven")]
    );
    assert_eq!(files.len(), 2);
    assert_eq!(files.get("b.lean").unwrap().status, ChangeStatus::Modified);
}

#[test]
fn counts_that_do_not_fit_stand_for_the_largest() {
    let patch = "diff --git a/a b/a\n--- a/a\n+++ b/a\n@@ -1,99999999999 +0,0 @@\n--- a\n--- b\ndiff --git a/c b/c\n--- a/c\n+++ b/c\n@@ -2 +1,0 @@\n-d\n";
    let mut files: StringMap<ChangedFile> = StringMap::new();
    let mut removed: Vec<RemovedLine> = Vec::new();
    parse_patch(patch, &mut files, &mut removed).unwrap();
    let told: Vec<_> = removed.iter().map(|line| (line.line, line.text.as_str())).collect();
    assert_eq!(told, [(1, "-- a"), (2, "-- b"), (2, "d")]);
    assert_eq!(removed[2].path, "c");
}

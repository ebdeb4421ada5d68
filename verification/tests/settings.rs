use strandmap::collections::StringSet;
use strandmap::config::{config_names, path_climbs, Config};
use strandmap::digest::{hash_bytes, hash_text, raw_hash};
use strandmap::globs::compile_globs;
use strandmap::output::OutputFormat;
use strandmap::paths::{
    extension_of, join_path, path_before, path_below, same_path, sorted_paths, without_repeats,
};
use strandmap::repo::{validate_metadata_name, Directory, Repository};

fn problem(change: fn(&mut Config)) -> String {
    let mut config = Config::default();
    change(&mut config);
    config.validate().unwrap_err()
}

#[test]
fn the_default_configuration_is_valid() {
    let config = Config::default();
    assert_eq!(config.validate(), Ok(()));
    assert_eq!(config.version, 1);
    assert_eq!(config.scan.max_file_bytes, 4_194_304);
    assert_eq!(config.scan.exclude.len(), 13);
    assert_eq!(config.annotations.anchor_markers, ["@strandmap anchor", "@anchor"]);
    assert_eq!(config.annotations.anchor_block_gap, 3);
    assert_eq!(config.index.path, "cache/index.json");
    assert_eq!((config.traversal.depth, config.reviews.path.as_str()), (1, "reviews"));
    assert_eq!(config.git.default_diff, "HEAD");
    assert!(config.scan.respect_gitignore && config.index.auto_refresh);
    assert!(!config.context.include_rust_tests && !config.reviews.require_all_members);
}

#[test]
fn wrong_configurations_are_told() {
    assert_eq!(
        problem(|config| config.version = 2),
        "unsupported config version 2; this binary supports version 1"
    );
    assert_eq!(
        problem(|config| config.scan.max_file_bytes = 0),
        "scan.max_file_bytes must be greater than zero"
    );
    for path in ["", " ", ".", "/a", "a/../b"] {
        let mut config = Config::default();
        config.index.path = path.into();
        assert_eq!(
            config.validate().unwrap_err(),
            "index.path must be a relative path contained by the metadata directory"
        );
    }
    assert_eq!(
        problem(|config| config.reviews.path = "../r".into()),
        "reviews.path must be a relative path contained by the metadata directory"
    );
    assert_eq!(
        problem(|config| config.reviews.path = "cache/index.json".into()),
        "index.path and reviews.path must be different"
    );
    assert_eq!(
        problem(|config| config.annotations.strand_markers.clear()),
        "enabled annotations require anchor_markers and strand_markers"
    );
    assert_eq!(
        problem(|config| config.annotations.relation_markers.push("".into())),
        "annotation markers cannot be empty"
    );
    assert_eq!(
        problem(|config| config.git.default_diff = " ".into()),
        "git.default_diff cannot be empty"
    );
    assert_eq!(
        problem(|config| {
            config.reviews.allowed_dispositions.insert("".into());
        }),
        "reviews.allowed_dispositions cannot contain an empty value"
    );
}

#[test]
fn the_first_configuration_file_counts() {
    let mut present = StringSet::new();
    assert_eq!(
        Config::find("/w/.strandmap", &present).unwrap_err(),
        "no Strandmap configuration found in /w/.strandmap; run `strandmap init`"
    );
    assert_eq!(
        Config::place("/w/.strandmap", &present, false).unwrap(),
        "/w/.strandmap/config.yaml"
    );
    present.insert("config.toml".into());
    present.insert("config.json".into());
    assert_eq!(
        Config::find("/w/.strandmap", &present).unwrap(),
        "/w/.strandmap/config.json"
    );
    assert_eq!(
        Config::place("/w/.strandmap", &present, false).unwrap_err(),
        "/w/.strandmap/config.json already exists; use --force to replace the default configuration"
    );
    assert_eq!(
        Config::place("/w/.strandmap", &present, true).unwrap(),
        "/w/.strandmap/config.json"
    );
    assert_eq!(
        config_names(),
        ["config.yaml", "config.yml", "config.json", "config.toml"]
    );
}

#[test]
fn repositories_are_found_upwards() {
    let directories = vec![
        Directory { path: "/w/src".into(), has_metadata: false },
        Directory { path: "/w".into(), has_metadata: true },
        Directory { path: "/".into(), has_metadata: true },
    ];
    let repo = Repository::discover(false, ".strandmap", &directories).unwrap();
    assert_eq!((repo.root.as_str(), repo.metadata_dir.as_str()), ("/w", "/w/.strandmap"));
    assert_eq!(repo.relative("/w/src/a.rs"), "src/a.rs");
    assert_eq!(repo.relative("/elsewhere/a.rs"), "/elsewhere/a.rs");
    assert_eq!(repo.relative("/w/src\\a.rs"), "src/a.rs");
    assert_eq!(
        Repository::discover(true, ".strandmap", &directories).unwrap_err(),
        "/w/src does not contain .strandmap"
    );
    let none = vec![Directory { path: "/x".into(), has_metadata: false }];
    assert_eq!(
        Repository::discover(false, ".strandmap", &none).unwrap_err(),
        "no .strandmap directory found from /x; run `strandmap init`"
    );
    let made = Repository::for_init("/new", ".map").unwrap();
    assert_eq!(made.metadata_dir, "/new/.map");
}

#[test]
fn metadata_directories_have_one_name() {
    assert_eq!(validate_metadata_name(".strandmap"), Ok(()));
    for name in ["", ".", "..", "/a", "a/b"] {
        assert_eq!(
            validate_metadata_name(name).unwrap_err(),
            "--metadata must be one directory name"
        );
    }
}

#[test]
fn formats_have_names() {
    for format in [OutputFormat::Human, OutputFormat::Json, OutputFormat::Yaml] {
        assert_eq!(OutputFormat::named(format.name()), Ok(format));
    }
    assert_eq!(OutputFormat::named("text"), Ok(OutputFormat::Human));
    assert_eq!(OutputFormat::named("yml"), Ok(OutputFormat::Yaml));
    assert_eq!(OutputFormat::default(), OutputFormat::Human);
    assert_eq!(OutputFormat::named("xml").unwrap_err(), "unknown output format \"xml\"");
}

#[test]
fn hashes_are_blake3() {
    let hex = "af1349b9f5f9a1a6a0404dea36dcc9499bcb25c9adc112b7cc9a93cae41f3262";
    assert_eq!(hash_bytes(b""), hex);
    assert_eq!(hash_text(""), hex);
    assert_eq!(raw_hash(b"")[0], 0xaf);
    assert_eq!(raw_hash(b"abc").len(), 32);
    assert_ne!(hash_text("abc"), hash_text("abd"));
}

#[test]
fn patterns_are_compiled_or_refused() {
    assert!(compile_globs(&vec!["src/**".into(), "*.rs".into()], "scan.include").is_ok());
    let error = compile_globs(&vec!["a{".into()], "scan.include").err().unwrap();
    assert!(error.starts_with("invalid glob in scan.include: \"a{\""), "{error}");
}

#[test]
fn paths_are_taken_apart() {
    assert_eq!(extension_of("a/b.tar.gz").as_deref(), Some("gz"));
    assert_eq!(extension_of("a/.env"), None);
    assert_eq!(path_below("/w/a/b", "/w").as_deref(), Some("a/b"));
    assert_eq!(path_below("/wa", "/w"), None);
    assert_eq!(join_path("/w", "a"), "/w/a");
    assert_eq!(join_path("/w", "/a"), "/a");
    assert!(path_before("a/b", "a-b"));
    assert!(same_path("a//b", "a/b"));
    assert!(path_climbs("a/../b") && !path_climbs("a/..b"));
    let sorted = sorted_paths(&vec!["b".into(), "a/c".into(), "a".into(), "b".into()]);
    assert_eq!(sorted, ["a", "a/c", "b", "b"]);
    assert_eq!(without_repeats(&sorted), ["a", "a/c", "b"]);
}

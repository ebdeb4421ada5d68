use strandmap::cli::{
    AffectedArgs, AnchorAddArgs, AnchorCommand, ChangeArgs, ContextArgs, ContextSource,
    GlobalRelationAddArgs, MemberAddArgs, MemberCommand, RelationCommand, StrandAddArgs,
    StrandCommand,
};
use strandmap::collections::{StringMap, StringSet};
use strandmap::commands::{
    affected_options, check_status, command_anchor, command_member, command_relation,
    command_strand, context_seeds, explicit_change_selection, focused_anchor_ids, gather_context,
    has_discovery, include_rust_tests, match_status, needs_changes, normalize_paths,
    render_options, CommandOutcome, ReadChanges, SearchOutcome, Start,
};
use strandmap::config::Config;
use strandmap::context_output::{render_loaded, requested_paths, FileContent};
use strandmap::git::{changes, GitReport};
use strandmap::graph::{affected, query, removed_documents, AffectedOptions};
use strandmap::index::{
    build_with_manifest, changed_files, list_files, metadata_fingerprint, refresh_with_manifest,
    scan_source_document, workspace_fingerprint, Manifest, ScannedFile, SourceEntry,
};
use strandmap::metadata::{
    load, parsed_metadata, AnyDocument, Document, Edit, MetadataFile, MetadataFiles,
    ParsedMetadata,
};
use strandmap::migration::{dynamic_locations, SourceFile};
use strandmap::model::{
    Anchor, ChangeSet, ContextPacket, Index, Member, Strand, Timestamp,
};
use strandmap::repo::Repository;
use strandmap::review;
use strandmap::search::{
    best_matching_line, document_frequency, file_documents, holds_phrase,
    line_matches, matched_terms, parse_query, search, searched_files, term_frequency, Document
    as Piece, Query, RankedDocument, SearchHit,
};

const NOW: Timestamp = Timestamp { seconds: 1_700_000_000, nanos: 0 };

/// A repository in memory.
struct Workspace {
    repo: Repository,
    config: Config,
    sources: Vec<(String, String, u64)>,
    metadata: MetadataFiles,
    clock: u64,
}

impl Workspace {
    fn new() -> Workspace {
        Workspace {
            repo: Repository {
                root: "/work".into(),
                metadata_dir: "/work/.strandmap".into(),
            },
            config: Config::default(),
            sources: vec![],
            metadata: MetadataFiles { strands: vec![], anchors: vec![], relations: vec![] },
            clock: 1,
        }
    }

    fn with(sources: &[(&str, &str)]) -> Workspace {
        let mut workspace = Workspace::new();
        for (path, text) in sources {
            workspace.write(path, text);
        }
        workspace
    }

    fn write(&mut self, path: &str, text: &str) {
        self.clock += 1;
        self.remove(path);
        self.sources.push((path.into(), text.into(), self.clock));
        self.sources.sort();
    }

    fn remove(&mut self, path: &str) {
        self.sources.retain(|(known, _, _)| known != path);
    }

    fn text(&self, path: &str) -> Option<&str> {
        self.sources
            .iter()
            .find(|(known, _, _)| known == path)
            .map(|(_, text, _)| text.as_str())
    }

    fn manifest(&self) -> Manifest {
        let entries = self
            .sources
            .iter()
            .map(|(path, text, modified)| SourceEntry {
                path: format!("/work/{path}"),
                size: text.len() as u64,
                modified_ns: *modified,
            })
            .collect();
        let (files, source_paths) = list_files(&self.repo, &self.config, &entries).unwrap();
        let listing = format!("{files:?}");
        let metadata = metadata_fingerprint(&self.repo, &vec![], &vec![]);
        Manifest {
            files,
            source_paths,
            fingerprint: workspace_fingerprint(listing.as_bytes(), metadata.as_str()),
            metadata_fingerprint: metadata,
        }
    }

    fn scan(&self, manifest: &Manifest, wanted: &dyn Fn(&str) -> bool) -> StringMap<ScannedFile> {
        let mut scanned = StringMap::new();
        for (path, text, _) in &self.sources {
            if !wanted(path) {
                continue;
            }
            let mut record = manifest.files.get(path).unwrap().clone();
            let document = scan_source_document(
                path,
                &self.config,
                &mut record,
                &Ok(text.as_bytes().to_vec()),
            );
            scanned.insert(path.clone(), ScannedFile { record, document });
        }
        scanned
    }

    fn build(&self) -> Index {
        let manifest = self.manifest();
        let scanned = self.scan(&manifest, &|_| true);
        build_with_manifest(
            &self.repo,
            &load(&self.repo, &self.metadata),
            &manifest,
            &scanned,
            NOW,
            &"config".to_string(),
        )
    }

    fn refresh(&self, cached: &Index) -> Index {
        let manifest = self.manifest();
        let changed = changed_files(&cached.files, &manifest.files);
        let scanned = self.scan(&manifest, &|path| changed.contains(path));
        refresh_with_manifest(
            &self.repo,
            &load(&self.repo, &self.metadata),
            &manifest,
            cached,
            &scanned,
            NOW,
            &"config".to_string(),
        )
    }

    fn changes(&self, args: &ChangeArgs, patch: &str) -> ChangeSet {
        let report = GitReport { has_head: true, patch: patch.into(), untracked: vec![] };
        changes(self.repo.root.as_str(), args, &self.config.git, &report).unwrap()
    }

    fn affected(&self, patch: &str) -> ContextPacket {
        let mut args = no_changes();
        args.no_untracked = true;
        affected(
            &self.build(),
            self.changes(&args, patch),
            &StringMap::new(),
            &self.config,
            &no_options(),
        )
    }

    fn find(
        &self,
        index: &Index,
        text: &str,
        limit: usize,
        paths: &Vec<String>,
        include_tests: bool,
    ) -> Result<Vec<SearchHit>, String> {
        let query = parse_query(text)?;
        let mut sources = StringMap::new();
        let mut documents: Vec<Piece> = vec![];
        for path in searched_files(index, paths, &query.terms) {
            let text = self.text(&path).unwrap();
            let record = index.files.get(&path).unwrap();
            let markers = &self.config.annotations;
            documents.extend(file_documents(index, &path, record, text, include_tests, markers));
            sources.insert(path, text.to_string());
        }
        let ranked = rank(&documents, &query);
        search(index, &sources, &documents, &query, &ranked, limit)
    }

    fn context(&self, args: &ContextArgs, patch: &str) -> (ContextPacket, String, u8) {
        let index = self.build();
        let focused = focused_anchor_ids(&index, args).unwrap();
        let read = ReadChanges {
            changes: self.changes(&args.affected.changes, patch),
            parsed: StringMap::new(),
        };
        let mut matches = vec![];
        let start = if has_discovery(args) {
            let paths = normalize_paths(&args.search_paths).unwrap();
            let found = args
                .searches
                .iter()
                .map(|text| {
                    let with_tests = include_rust_tests(args, &self.config);
                    match self.find(&index, text, args.search_limit, &paths, with_tests) {
                        Ok(hits) => SearchOutcome::Found(hits),
                        Err(message) => SearchOutcome::Failed(message),
                    }
                })
                .collect();
            let seeds = context_seeds(&index, args, &found).unwrap();
            matches = seeds.source_matches.clone();
            if needs_changes(args) {
                Start::Both(seeds, read)
            } else {
                Start::Seeds(seeds)
            }
        } else {
            Start::Changes(read)
        };
        let packet = gather_context(&index, &self.config, &affected_options(&args.affected), start);
        let status = match_status(args.affected.require_match, &packet, matches.len());
        let options = render_options(args, &self.config, focused, matches);
        let mut contents = StringMap::new();
        let wanted = requested_paths(&packet, &options).unwrap();
        for i in 0..wanted.len() {
            let path = wanted.item_at(i);
            let content = match self.text(path) {
                Some(text) => FileContent::Bytes(text.as_bytes().to_vec()),
                None => FileContent::Failed("missing".into()),
            };
            contents.insert(path.clone(), content);
        }
        let text = render_loaded(&packet, &options, &contents).unwrap().unwrap();
        (packet, text, status)
    }

    fn apply(&mut self, outcome: CommandOutcome) {
        let CommandOutcome::Changed(mutation) = outcome else {
            panic!("the command changes nothing");
        };
        mutation.result.unwrap();
        apply_edits(&mut self.metadata.strands, mutation.strands);
        apply_edits(&mut self.metadata.anchors, mutation.anchors);
        apply_edits(&mut self.metadata.relations, mutation.relations);
    }

    fn add_strand(&mut self, id: &str, intent: &str) {
        let command = StrandCommand::Add(StrandAddArgs {
            id: id.into(),
            intent: intent.into(),
            title: None,
            scope: None,
            tags: vec![],
        });
        let outcome = command_strand(&self.repo, &self.metadata, None, &command).unwrap();
        self.apply(outcome);
    }

    fn add_anchor(&mut self, id: &str, path: &str, kind: Option<&str>, symbol: Option<&str>) {
        let command = AnchorCommand::Add(AnchorAddArgs {
            id: id.into(),
            target: None,
            kind: kind.map(String::from),
            path: Some(path.into()),
            symbol: symbol.map(String::from),
            line_start: None,
            line_end: None,
            watch: None,
            tags: vec![],
        });
        let outcome = command_anchor(&self.repo, &self.metadata, None, &command).unwrap();
        self.apply(outcome);
    }

    fn add_member(&mut self, strand: &str, anchor: &str, role: Option<&str>) {
        let command = MemberCommand::Add(MemberAddArgs {
            strand: strand.into(),
            anchor: anchor.into(),
            role: role.map(String::from),
            optional: false,
        });
        let index = self.build();
        let outcome = command_member(&self.repo, &self.metadata, &index, &command).unwrap();
        self.apply(outcome);
    }
}

fn apply_edits<T: Clone>(files: &mut Vec<MetadataFile<T>>, edits: Vec<Edit<T>>) {
    for edit in edits {
        match edit {
            Edit::Remove(path) => files.retain(|file| file.path != path),
            Edit::Write(path, document) => {
                files.retain(|file| file.path != path);
                files.push(MetadataFile { path, text: String::new(), document: Ok(document) });
            }
        }
    }
}

fn weight(score: f64) -> u64 {
    let bits = score.to_bits();
    if bits >> 63 == 1 {
        !bits
    } else {
        bits | 1 << 63
    }
}

fn rank(documents: &Vec<Piece>, query: &Query) -> Vec<RankedDocument> {
    let count = documents.len() as f64;
    let length: usize = documents.iter().map(|document| document.tokens.len()).sum();
    let average = length as f64 / count.max(1.0);
    let idf = |term: &str| {
        let frequency = document_frequency(documents, term) as f64;
        (1.0 + (count - frequency + 0.5) / (frequency + 0.5)).ln()
    };
    let mut ranked = vec![];
    for (position, document) in documents.iter().enumerate() {
        let matched = matched_terms(&document.tokens, &query.terms);
        let mut score = 0.0;
        for term in &matched {
            let frequency = term_frequency(&document.tokens, term) as f64;
            let ratio = document.tokens.len() as f64 / average.max(1.0);
            let below = frequency + 1.2 * (1.0 - 0.75 + 0.75 * ratio);
            score += idf(term) * (frequency * 2.2 / below);
        }
        for phrase in &query.phrases {
            if holds_phrase(&document.tokens, phrase) {
                score += 0.75 * phrase.iter().map(|term| idf(term)).sum::<f64>();
            }
        }
        score *= 0.35 + 0.65 * matched.len() as f64 / query.terms.len().max(1) as f64;
        if score > 0.0 {
            let ranks = line_matches(document, &query.terms)
                .iter()
                .map(|terms| weight(terms.iter().map(|term| idf(term)).sum::<f64>()))
                .collect();
            ranked.push(RankedDocument {
                document: position,
                rank: weight(score),
                score: (score * 1000.0).round() as u32,
                best_line: best_matching_line(document, &ranks),
            });
        }
    }
    ranked
}

fn no_changes() -> ChangeArgs {
    ChangeArgs {
        diff: None,
        staged: false,
        worktree: false,
        untracked: false,
        no_untracked: false,
        files: vec![],
    }
}

fn no_options() -> AffectedOptions {
    AffectedOptions {
        depth: None,
        relations: StringSet::new(),
        tags: StringSet::new(),
        include_optional: None,
    }
}

fn context_args() -> ContextArgs {
    ContextArgs {
        affected: AffectedArgs {
            changes: no_changes(),
            depth: None,
            relations: vec![],
            tags: vec![],
            include_optional: false,
            exclude_optional: false,
            require_match: false,
        },
        searches: vec![],
        anchors: vec![],
        strands: vec![],
        symbols: vec![],
        paths: vec![],
        search_paths: vec![],
        search_limit: 8,
        source: ContextSource::Direct,
        source_includes: vec![],
        source_excludes: vec![],
        source_extensions: vec![],
        excluded_source_extensions: vec![],
        source_languages: vec![],
        excluded_source_languages: vec![],
        context_lines: 0,
        merge_gap: 2,
        include_tests: false,
        token_budget: 12_000,
    }
}

fn searching(text: &str) -> ContextArgs {
    ContextArgs { searches: vec![text.into()], ..context_args() }
}

fn one_member(id: &str) -> Member {
    Member {
        anchor: id.into(),
        role: Some("member".into()),
        required: true,
        attributes: StringMap::new(),
    }
}

fn strand_of(id: &str, intent: &str, members: Vec<Member>) -> Strand {
    Strand {
        schema: 1,
        id: id.into(),
        title: None,
        intent: intent.into(),
        scope: None,
        tags: StringSet::new(),
        members,
        relations: vec![],
        on_change: None,
        attributes: StringMap::new(),
    }
}

fn strand_file(path: &str, strand: Strand) -> MetadataFile<Strand> {
    MetadataFile {
        path: path.into(),
        text: String::new(),
        document: Ok(Document::Single(strand)),
    }
}

const ADD: &str = "// @anchor calculator.add\n// @strand arithmetic role=implementation intent=stable\npub fn add(a: i32, b: i32) -> i32 {\n    a + b\n}\n";

const SATURATING: &str = "// @anchor calculator.add\n// @strand arithmetic role=implementation intent=stable\npub fn add(a: i32, b: i32) -> i32 {\n    a.saturating_add(b)\n}\n";

#[test]
fn incremental_refresh_matches_a_clean_rebuild() {
    let mut workspace = Workspace::with(&[
        (
            "src/a.rs",
            "// @anchor alpha\n// @strand first role=implementation intent=stable\nfn alpha() {}\n",
        ),
        (
            "src/b.rs",
            "// @anchor beta\n// @strand second role=implementation intent=stable\nfn beta() {}\n",
        ),
    ]);
    workspace.metadata.anchors.push(MetadataFile {
        path: "/work/.strandmap/anchors/alpha.yaml".into(),
        text: "schema: 1\nid: alpha\nkind: function\n".into(),
        document: Ok(Document::Single(Anchor {
            schema: 1,
            id: "alpha".into(),
            target: None,
            kind: Some("function".into()),
            location: None,
            tags: StringSet::new(),
            attributes: StringMap::new(),
        })),
    });
    let first = workspace.build();

    workspace.write(
        "src/a.rs",
        "// @anchor gamma\n// @strand first role=producer intent=stable\nfn gamma(value: usize) -> usize { value + 1 }\n",
    );
    let incremental = workspace.refresh(&first);
    let rebuilt = workspace.build();

    assert_eq!(incremental.files, rebuilt.files);
    assert_eq!(incremental.source_documents, rebuilt.source_documents);
    assert_eq!(incremental.strands, rebuilt.strands);
    assert_eq!(incremental.anchors, rebuilt.anchors);
    assert_eq!(incremental.memberships, rebuilt.memberships);
    assert_eq!(incremental.relations, rebuilt.relations);
    assert_eq!(incremental.diagnostics, rebuilt.diagnostics);
    assert!(rebuilt.anchors.contains_key("gamma"));
    assert_eq!(rebuilt.anchors.get("alpha").unwrap().value.location, None);
}

fn assert_same_graph(left: &Index, right: &Index) {
    assert_eq!(left.files, right.files);
    assert_eq!(left.source_documents, right.source_documents);
    assert_eq!(left.strands, right.strands);
    assert_eq!(left.anchors, right.anchors);
    assert_eq!(left.memberships, right.memberships);
    assert_eq!(left.relations, right.relations);
    assert_eq!(left.diagnostics, right.diagnostics);
}

#[test]
fn refreshing_keeps_the_order_of_sidecar_members() {
    let mut workspace = Workspace::with(&[("a.txt", "one\n"), ("b.txt", "two\n")]);
    workspace.add_strand("order", "Members keep their order");
    workspace.add_anchor("b", "b.txt", None, None);
    workspace.add_anchor("a", "b.txt", None, None);
    workspace.add_member("order", "b", Some("second"));
    workspace.add_member("order", "a", Some("first"));
    let first = workspace.build();
    workspace.remove("a.txt");
    let refreshed = workspace.refresh(&first);
    let rebuilt = workspace.build();
    assert_same_graph(&refreshed, &rebuilt);
    let anchors: Vec<_> = rebuilt.memberships.iter().map(|m| m.member.anchor.as_str()).collect();
    assert_eq!(anchors, ["a", "b"]);
}

#[test]
fn refreshing_finds_what_another_file_states_too() {
    let note = "# @anchor shared\n# @strand s role=r intent=i\n# @relation tests to=urn:x\n";
    let mut workspace = Workspace::with(&[("a.txt", note), ("b.txt", note), ("c.txt", "x\n")]);
    let first = workspace.build();
    assert_eq!(first.memberships.len(), 1);
    workspace.write("a.txt", "plain\n");
    let refreshed = workspace.refresh(&first);
    assert_same_graph(&refreshed, &workspace.build());
    assert_eq!(refreshed.memberships.len(), 1);
    assert_eq!(refreshed.memberships[0].provenance.path.as_deref(), Some("b.txt"));
    assert_eq!(refreshed.relations.len(), 1);
    workspace.write("a.txt", note);
    workspace.remove("b.txt");
    let again = workspace.refresh(&refreshed);
    assert_same_graph(&again, &workspace.build());
    assert_eq!(again.memberships[0].provenance.path.as_deref(), Some("a.txt"));
}

#[test]
fn sidecar_crud_affected_and_review_work_end_to_end() {
    let mut workspace = Workspace::with(&[
        ("src/auth.rs", "fn issue_token() {}\n"),
        ("docs/auth.md", "# Authentication\n"),
    ]);
    workspace.add_strand("token-contract", "Issuer and verifier agree");
    workspace.add_anchor("docs.auth", "docs/auth.md", Some("documentation"), None);
    workspace.add_anchor("auth.issue", "src/auth.rs", None, Some("issue_token"));
    let relation = RelationCommand::AddGlobal(GlobalRelationAddArgs {
        from: "auth.issue".into(),
        to: "docs.auth".into(),
        kind: "documented-by".into(),
        bidirectional: false,
    });
    let index = workspace.build();
    let outcome =
        command_relation(&workspace.repo, &workspace.metadata, &index, &relation).unwrap();
    workspace.apply(outcome);
    workspace.add_member("token-contract", "auth.issue", Some("producer"));

    let mut args = no_changes();
    args.files.push("src/auth.rs".into());
    let index = workspace.build();
    let packet = affected(
        &index,
        workspace.changes(&args, ""),
        &StringMap::new(),
        &workspace.config,
        &no_options(),
    );
    assert_eq!(packet.strands[0].id, "token-contract");
    assert_eq!(packet.strands[0].anchors[0].id, "auth.issue");
    assert_eq!(packet.related_anchors[0].id, "docs.auth");

    let config = &workspace.config;
    let started = review::start(config, &index, &packet, "change-1", false, NOW).unwrap();
    assert_eq!(started.id, "change-1");
    let no_note: Option<String> = None;
    review::check_disposition(config, "compatible").unwrap();
    let once =
        review::record(config, &started, "change-1", "auth.issue", "compatible", &no_note, NOW)
            .unwrap();
    let twice =
        review::record(config, &once, "change-1", "docs.auth", "compatible", &no_note, NOW)
            .unwrap();
    review::complete(&twice, &index, false, false, NOW).unwrap();
}

#[test]
fn annotations_and_git_diff_find_affected_strands() {
    let workspace = Workspace::with(&[(
        "src/lib.rs",
        "// @anchor calculator.add watch=file\n// @strand arithmetic role=implementation intent=\"Arithmetic behavior stays covered\"\npub fn add(a: i32, b: i32) -> i32 { a.saturating_add(b) }\n",
    )]);
    let packet = workspace.affected(
        "diff --git a/src/lib.rs b/src/lib.rs\nindex 1..2 100644\n--- a/src/lib.rs\n+++ b/src/lib.rs\n@@ -3 +3 @@\n-pub fn add(a: i32, b: i32) -> i32 { a + b }\n+pub fn add(a: i32, b: i32) -> i32 { a.saturating_add(b) }\n",
    );
    assert_eq!(packet.strands[0].id, "arithmetic");
    assert_eq!(packet.changes.files[0].path, "src/lib.rs");
}

#[test]
fn dynamic_locations_survive_lines_inserted_before_the_anchor() {
    let workspace = Workspace::with(&[(
        "src/lib.rs",
        "const OFFSET: i32 = 1;\n\n// @anchor calculator.add\n// @strand arithmetic role=implementation intent=stable\npub fn add(a: i32, b: i32) -> i32 {\n    a.saturating_add(b)\n}\n",
    )]);
    let packet = workspace.affected(
        "diff --git a/src/lib.rs b/src/lib.rs\n--- a/src/lib.rs\n+++ b/src/lib.rs\n@@ -6 +6 @@\n-    a + b\n+    a.saturating_add(b)\n",
    );
    assert_eq!(packet.strands[0].id, "arithmetic");
    let location = packet.strands[0].anchors[0].anchor.as_ref().unwrap().location.clone().unwrap();
    assert_eq!(location.line_start, Some(5));
    assert_eq!(location.line_end, Some(7));
}

#[test]
fn annotation_metadata_changes_match_outside_the_exact_node_span() {
    let workspace = Workspace::with(&[(
        "src/lib.rs",
        "// @anchor calculator.add kind=function\n// @strand arithmetic role=producer intent=stable\npub fn add(a: i32, b: i32) -> i32 {\n    a + b\n}\n",
    )]);
    let packet = workspace.affected(
        "diff --git a/src/lib.rs b/src/lib.rs\n--- a/src/lib.rs\n+++ b/src/lib.rs\n@@ -1,2 +1,2 @@\n-// @anchor calculator.add\n-// @strand arithmetic role=implementation intent=stable\n+// @anchor calculator.add kind=function\n+// @strand arithmetic role=producer intent=stable\n",
    );
    let selected = packet.strands[0]
        .anchors
        .iter()
        .find(|anchor| anchor.role.as_deref() == Some("producer"))
        .unwrap();
    assert_eq!(packet.strands[0].id, "arithmetic");
    assert!(selected.direct);
    let location = selected.anchor.as_ref().unwrap().location.clone().unwrap();
    assert_eq!(location.line_start, Some(3));
    assert_eq!(location.line_end, Some(5));
}

#[test]
fn one_context_command_searches_expands_and_deduplicates_source() {
    let workspace = Workspace::with(&[(
        "src/auth.rs",
        "// @anchor auth.entry\n// @strand session-contract role=producer intent=shared-token\n// @strand audit-contract role=issuer intent=audit-token\npub fn mint_session_token() {\n    persist_token();\n}\n\n// @anchor auth.validate\n// @strand session-contract role=consumer intent=shared-token\npub fn validate_session_token() {\n    load_token();\n}\n",
    )]);
    let (_, text, _) = workspace.context(&searching("mint_session_token"), "");
    assert!(text.contains("# Strandmap context"));
    assert!(text.contains("### session-contract [connected]"));
    assert!(text.contains("### audit-contract [connected]"));
    assert!(text.contains("src/auth.rs#L4-L6"));
    assert!(text.contains("src/auth.rs#L10-L12"));
    assert!(text.contains("pub fn validate_session_token()"));
    assert_eq!(text.matches("pub fn mint_session_token()").count(), 1);
}

#[test]
fn context_reads_the_complete_source_for_file_watch_anchors() {
    let workspace = Workspace::with(&[(
        "src/policy.txt",
        "# @anchor policy.file watch=file\nfirst=true\nsecond=true\n",
    )]);
    let args = ContextArgs { anchors: vec!["policy.file".into()], ..context_args() };
    let (_, text, _) = workspace.context(&args, "");
    assert!(text.contains("src/policy.txt#L1-L3"));
    assert!(text.contains("first=true\nsecond=true"));
}

#[test]
fn context_budget_summarizes_whole_excerpts_it_omits() {
    let workspace = Workspace::with(&[("src/lib.rs", ADD)]);
    let args = ContextArgs {
        strands: vec!["arithmetic".into()],
        token_budget: 1,
        ..context_args()
    };
    let (_, text, _) = workspace.context(&args, "");
    assert!(text.contains("## Source excerpts (0)"));
    assert!(text.contains("## Omitted source excerpts"));
    assert!(text.contains("Context budget omitted 1 complete source excerpts"));
    assert!(!text.contains("pub fn add"));
}

#[test]
fn bounded_context_suppresses_a_redundant_file_scope() {
    let mut source = "// @anchor profile.file watch=file\n".to_string();
    for index in 0..100 {
        source.push_str(&format!("// filler {index}\n"));
    }
    source.push_str(
        "// @anchor profile.avatar\npub fn update_profile_avatar() { store_avatar(); }\n",
    );
    let mut workspace = Workspace::with(&[("src/profile.rs", source.as_str())]);
    let mut members = vec![one_member("profile.file"), one_member("profile.avatar")];
    members[0].role = Some("file".into());
    members[1].role = Some("operation".into());
    workspace.metadata.strands.push(strand_file(
        "/work/.strandmap/strands/profile.yaml",
        strand_of("profile", "stable", members),
    ));
    let args = ContextArgs {
        anchors: vec!["profile.avatar".into()],
        token_budget: 100,
        ..context_args()
    };
    let (_, text, _) = workspace.context(&args, "");
    assert!(text.contains("pub fn update_profile_avatar()"), "{text}");
    assert!(!text.contains("Context budget omitted"));
    assert!(!text.contains("// filler 0"));
}

#[test]
fn context_budget_keeps_a_large_strand_packet_compact() {
    let mut source = String::new();
    let mut members = vec![];
    for index in 0..200 {
        source.push_str(&format!(
            "// @anchor huge.member-{index}\npub fn member_{index}() {{}}\n\n"
        ));
        members.push(one_member(&format!("huge.member-{index}")));
    }
    let mut workspace = Workspace::with(&[("src/lib.rs", source.as_str())]);
    workspace.metadata.strands.push(strand_file(
        "/work/.strandmap/strands/huge.yaml",
        strand_of("huge", "wide", members),
    ));
    let bounded = ContextArgs {
        strands: vec!["huge".into()],
        token_budget: 1,
        ..context_args()
    };
    let (_, text, _) = workspace.context(&bounded, "");
    assert!(text.contains("200 anchors across 1 files summarized"));
    assert_eq!(text.matches("Context budget omitted").count(), 1);
    assert!(!text.contains("huge.member-199"));
    assert!(text.lines().count() < 35, "{text}");

    let whole = ContextArgs { strands: vec!["huge".into()], ..context_args() };
    let (_, text, _) = workspace.context(&whole, "");
    assert!(text.contains("200 anchors across 1 files summarized"), "{text}");
    assert!(!text.contains("- [candidate]"), "{text}");

    let filtered = ContextArgs {
        paths: vec!["src".into()],
        source_extensions: vec!["py".into()],
        ..context_args()
    };
    let (_, text, _) = workspace.context(&filtered, "");
    assert!(text.contains("196 additional anchors across 1 files summarized"));
    assert!(text.contains("Source filters excluded 200 anchored ranges"));
    assert!(text.lines().count() < 45, "{text}");
}

#[test]
fn context_filters_source_before_reading_and_reports_it_compactly() {
    let workspace = Workspace::with(&[
        (
            "src/lib.rs",
            "// @anchor mixed.code\n// @strand mixed role=code intent=aligned\npub fn implementation() {}\n",
        ),
        (
            "guide.md",
            "# @anchor mixed.docs watch=file\n# @strand mixed role=docs\nDo not emit this markdown.\n",
        ),
    ]);
    let args = ContextArgs {
        strands: vec!["mixed".into()],
        source_extensions: vec!["rs".into()],
        source_includes: vec!["src/**".into()],
        ..context_args()
    };
    let (_, text, _) = workspace.context(&args, "");
    assert!(text.contains("pub fn implementation()"));
    assert!(!text.contains("Do not emit this markdown."));
    assert!(text.contains("Source filters excluded 1 anchored ranges across 1 files"));
}

#[test]
fn search_path_limits_discovery_without_hiding_graph_expansion() {
    let workspace = Workspace::with(&[
        (
            "src/core.rs",
            "// @anchor core.checkout-summary\n// @strand core-contract role=code intent=core\npub fn checkout_summary() {}\n",
        ),
        (
            "docs/note.rs",
            "// @anchor docs.checkout-summary\n// @strand docs-contract role=docs intent=docs\npub fn checkout_summary_notes() {}\n",
        ),
    ]);
    let args = ContextArgs {
        search_paths: vec!["src".into()],
        ..searching("checkout summary")
    };
    let (packet, _, _) = workspace.context(&args, "");
    assert_eq!(packet.strands.len(), 1);
    assert_eq!(packet.strands[0].id, "core-contract");
}

#[test]
fn search_ranks_source_text_and_does_not_rank_annotation_metadata() {
    let workspace = Workspace::with(&[
        (
            "src/metadata.rs",
            "// @anchor metadata.only\n// @strand metadata-contract role=profile-avatar intent=metadata-only\npub fn unrelated() {}\n",
        ),
        (
            "src/source.rs",
            "// @anchor source.hit\n// @strand source-contract role=implementation intent=source-backed\npub fn render_profile_avatar() {\n    resize_avatar();\n}\n",
        ),
    ]);
    let (_, text, _) = workspace.context(&searching("profile avatar"), "");
    assert!(text.contains("pub fn render_profile_avatar()"), "{text}");
    assert!(text.contains("source-contract"), "{text}");
    assert!(!text.contains("metadata-contract"), "{text}");
    assert!(!text.contains("pub fn unrelated()"), "{text}");
}

#[test]
fn search_emits_the_matching_function_not_its_file_watch_scope() {
    let workspace = Workspace::with(&[(
        "src/policy.rs",
        "// @anchor profile.file watch=file\n// @strand profile role=file intent=stable\nconst LARGE_UNRELATED_PREAMBLE: &str = \"do not emit this\";\n\n// @anchor profile.avatar\n// @strand profile role=operation\npub fn update_profile_avatar() {\n    store_avatar();\n}\n\npub fn unrelated_tail() {}\n",
    )]);
    let (_, text, _) = workspace.context(&searching("update profile avatar"), "");
    assert!(text.contains("pub fn update_profile_avatar()"), "{text}");
    assert!(!text.contains("LARGE_UNRELATED_PREAMBLE"), "{text}");
    assert!(!text.contains("pub fn unrelated_tail()"), "{text}");
}

#[test]
fn rust_test_sections_are_omitted_by_default_and_configurable() {
    let mut workspace = Workspace::with(&[(
        "src/lib.rs",
        "// @anchor library.file watch=file\npub fn production_path() {}\n\n#[cfg(test)]\nmod tests {\n    #[test]\n    fn hidden_test_sentinel() {}\n}\n\n#[test]\nfn first_standalone_test() {}\n\n#[test]\nfn second_standalone_test() {}\n",
    )]);
    let args = ContextArgs { anchors: vec!["library.file".into()], ..context_args() };
    let (_, text, _) = workspace.context(&args, "");
    assert!(text.contains("pub fn production_path()"), "{text}");
    assert!(!text.contains("hidden_test_sentinel"), "{text}");
    assert!(!text.contains("#[test]"), "{text}");
    assert!(!text.contains("first_standalone_test"), "{text}");
    assert!(!text.contains("second_standalone_test"), "{text}");
    assert!(!text.contains("```rust\n\n```"), "{text}");
    assert!(!text.contains("Used by:"), "{text}");
    assert!(text.contains("Rust test sections are omitted by default"), "{text}");
    assert!(text.contains("Omitted 3 Rust test sections"), "{text}");

    workspace.config.context.include_rust_tests = true;
    let (_, text, _) = workspace.context(&args, "");
    assert!(text.contains("hidden_test_sentinel"), "{text}");
    assert!(!text.contains("Rust test sections are omitted by default"), "{text}");
}

#[test]
fn rust_test_only_search_requires_the_include_option() {
    let workspace = Workspace::with(&[(
        "src/lib.rs",
        "pub fn production_path() {}\n\n#[cfg(test)]\nmod tests {\n    #[test]\n    fn dashboard_widget_test_sentinel() {}\n}\n",
    )]);
    let (_, text, _) = workspace.context(&searching("dashboard widget sentinel"), "");
    assert!(!text.contains("dashboard_widget_test_sentinel"), "{text}");
    let args = ContextArgs { include_tests: true, ..searching("dashboard widget sentinel") };
    let (_, text, _) = workspace.context(&args, "");
    assert!(text.contains("dashboard_widget_test_sentinel"), "{text}");
}

#[test]
fn search_returns_an_untagged_source_unit_in_one_command() {
    let workspace = Workspace::with(&[(
        "src/plain.rs",
        "pub fn unrelated() {}\n\npub fn recalculate_cart_total() {\n    sum_line_items();\n}\n",
    )]);
    let mut args = searching("recalculate cart total");
    args.affected.require_match = true;
    let (_, text, status) = workspace.context(&args, "");
    assert_eq!(status, 0);
    assert!(text.contains("No strands selected."), "{text}");
    assert!(text.contains("pub fn recalculate_cart_total()"), "{text}");
    assert!(!text.contains("pub fn unrelated()"), "{text}");
}

#[test]
fn focused_source_policy_emits_only_exact_paths() {
    let workspace = Workspace::with(&[
        ("src/aaa.rs", "// @anchor search.hit\npub fn unrelated_signal() {}\n"),
        ("src/zzz.rs", "// @anchor exact.path\npub fn requested_source() {}\n"),
    ]);
    let args = ContextArgs {
        paths: vec!["src/zzz.rs".into()],
        source: ContextSource::Focused,
        token_budget: 60,
        ..searching("unrelated_signal")
    };
    let (_, text, _) = workspace.context(&args, "");
    assert!(text.contains("src/zzz.rs#L2-L2 [focused]"), "{text}");
    assert!(text.contains("pub fn requested_source()"));
    assert!(!text.contains("pub fn unrelated_signal()"));
}

#[test]
fn search_matches_and_exact_paths_share_the_bounded_packet() {
    let mut large = "// @anchor exact.second watch=file\n".to_string();
    for index in 0..100 {
        large.push_str(&format!("// large requested context {index}\n"));
    }
    let workspace = Workspace::with(&[
        ("src/search.rs", "// @anchor search.small\npub fn global_search_signal() {}\n"),
        ("src/first.rs", "// @anchor exact.first\npub fn first_requested() {}\n"),
        ("src/second.rs", large.as_str()),
    ]);
    let args = ContextArgs {
        paths: vec!["src/first.rs".into(), "src/second.rs".into()],
        token_budget: 100,
        ..searching("global_search_signal")
    };
    let (_, text, _) = workspace.context(&args, "");
    assert!(text.contains("pub fn first_requested()"), "{text}");
    assert!(text.contains("pub fn global_search_signal()"));
    assert!(!text.contains("large requested context 0"));
    assert!(text.contains("Context budget omitted"));
}

#[test]
fn structured_pre_edit_context_needs_no_git_diff() {
    let workspace = Workspace::with(&[(
        "src/lib.rs",
        "// @anchor calculator.add\n// @strand arithmetic role=implementation intent=stable\npub fn add() {}\n",
    )]);
    let args = ContextArgs { strands: vec!["arithmetic".into()], ..context_args() };
    assert!(!needs_changes(&args));
    let (packet, _, _) = workspace.context(&args, "");
    assert_eq!(packet.changes.files.len(), 0);
    assert_eq!(packet.strands[0].id, "arithmetic");
    let location = packet.strands[0].anchors[0].anchor.as_ref().unwrap().location.clone().unwrap();
    assert_eq!(location.line_start, Some(3));
}

#[test]
fn context_unions_search_and_diff_before_rendering_source_once() {
    let workspace = Workspace::with(&[("src/lib.rs", SATURATING)]);
    let mut args = searching("saturating_add");
    args.affected.changes.worktree = true;
    assert!(explicit_change_selection(&args.affected.changes));
    let (_, text, _) = workspace.context(
        &args,
        "diff --git a/src/lib.rs b/src/lib.rs\n--- a/src/lib.rs\n+++ b/src/lib.rs\n@@ -4 +4 @@\n-    a + b\n+    a.saturating_add(b)\n",
    );
    assert!(text.contains("worktree"));
    assert!(text.contains("search \"saturating_add\""));
    assert_eq!(text.matches("a.saturating_add(b)").count(), 1);
}

#[test]
fn migration_removes_static_ranges_and_query_nodes_have_ids() {
    let mut workspace = Workspace::with(&[(
        "src/lib.rs",
        "// @anchor calculator.add lines=40-80\n// @strand arithmetic role=implementation intent=stable\npub fn add(a: i32, b: i32) -> i32 { a + b }\n",
    )]);
    let files = vec![SourceFile {
        path: "/work/src/lib.rs".into(),
        content: FileContent::Bytes(workspace.text("src/lib.rs").unwrap().as_bytes().to_vec()),
    }];
    let (report, pending) =
        dynamic_locations(&workspace.repo, &workspace.config, &files).unwrap();
    assert_eq!(report.annotations_migrated, 1);
    assert_eq!(report.changed_paths, ["src/lib.rs"]);
    assert!(!pending[0].text.contains("lines="));
    workspace.write("src/lib.rs", pending[0].text.as_str());
    let index = workspace.build();
    assert_eq!(check_status(&index.diagnostics, true), 0);

    let mut anchors = StringSet::new();
    anchors.insert("calculator.add".into());
    let result = query(&index, &anchors, &StringSet::new(), 1, &StringSet::new());
    assert_eq!(result.anchors[0].id, "calculator.add");
    assert_eq!(result.strands[0].id, "arithmetic");
}

#[test]
fn review_detects_file_drift() {
    let mut workspace = Workspace::with(&[(
        "contract.txt",
        "# @anchor contract.file\n# @strand contract intent=\"Contract stays aligned\"\nvalue=1\n",
    )]);
    let mut args = no_changes();
    args.files.push("contract.txt".into());
    let index = workspace.build();
    let packet = affected(
        &index,
        workspace.changes(&args, ""),
        &StringMap::new(),
        &workspace.config,
        &no_options(),
    );
    let started =
        review::start(&workspace.config, &index, &packet, "drift", false, NOW).unwrap();
    let recorded =
        review::record(&workspace.config, &started, "drift", "contract.file", "reviewed", &None, NOW).unwrap();
    workspace.write(
        "contract.txt",
        "# @anchor contract.file\n# @strand contract intent=\"Contract stays aligned\"\nvalue=2\n",
    );
    let error = review::complete(&recorded, &workspace.build(), false, false, NOW).unwrap_err();
    assert!(error.contains("reviewed files changed"), "{error}");
    let done = review::complete(&recorded, &workspace.build(), false, true, NOW);
    assert!(done.is_ok());
}

#[test]
fn deleted_annotation_only_strands_remain_affected() {
    let workspace = Workspace::new();
    let packet = workspace.affected(
        "diff --git a/src/legacy.rs b/src/legacy.rs\ndeleted file mode 100644\n--- a/src/legacy.rs\n+++ /dev/null\n@@ -1,3 +0,0 @@\n-// @anchor legacy.entry\n-// @strand legacy-contract role=implementation intent=\"Legacy behavior remains accounted for\"\n-fn legacy() {}\n",
    );
    assert_eq!(packet.strands[0].id, "legacy-contract");
    assert_eq!(packet.strands[0].anchors[0].id, "legacy.entry");
}

#[test]
fn deleted_sidecar_strands_remain_affected() {
    let mut workspace = Workspace::with(&[("contract.txt", "value=1\n")]);
    workspace.add_strand("sidecar-contract", "Deleted metadata remains visible");
    workspace.add_anchor("contract.file", "contract.txt", None, None);
    workspace.add_member("sidecar-contract", "contract.file", None);
    let removed = workspace.metadata.strands.remove(0);
    assert_eq!(removed.path, "/work/.strandmap/strands/sidecar-contract.yaml");
    let path = ".strandmap/strands/sidecar-contract.yaml";
    let patch = format!(
        "diff --git a/{path} b/{path}\ndeleted file mode 100644\n--- a/{path}\n+++ /dev/null\n@@ -1,5 +0,0 @@\n-schema: 1\n-id: sidecar-contract\n-intent: Deleted metadata remains visible\n-members:\n-- anchor: contract.file\n"
    );
    let mut args = no_changes();
    args.no_untracked = true;
    let set = workspace.changes(&args, &patch);
    let deleted = removed_documents(&set);
    assert_eq!(deleted.len(), 1);
    assert_eq!(deleted[0].0, path);
    let mut parsed: StringMap<ParsedMetadata> = StringMap::new();
    parsed.insert(
        path.into(),
        parsed_metadata(&AnyDocument::Strands(removed.document.unwrap())),
    );
    let packet =
        affected(&workspace.build(), set, &parsed, &workspace.config, &no_options());
    assert_eq!(packet.strands[0].id, "sidecar-contract");
    assert_eq!(packet.strands[0].anchors[0].id, "contract.file");
}

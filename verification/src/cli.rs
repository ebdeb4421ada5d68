//! What a caller can ask of the program.

use vstd::prelude::*;

verus! {

/// Arguments to set up metadata.
#[derive(Debug, Clone)]
pub struct InitArgs {
    /// Replace an existing default configuration, preserving other metadata.
    pub force: bool,
}

/// Arguments to build the index.
#[derive(Debug, Clone)]
pub struct IndexArgs {
    /// Re-read every source file even if the index is current.
    pub force: bool,
}

/// Arguments to validate a repository.
#[derive(Debug, Clone)]
pub struct CheckArgs {
    /// Treat warnings as a failing result.
    pub strict: bool,
}

/// What to migrate.
#[derive(Debug, Clone)]
pub enum MigrateCommand {
    /// Replace authored source line ranges with dynamically resolved syntax-node spans.
    DynamicLocations(MigrateDynamicLocationsArgs),
}

/// Arguments to migrate authored source lines.
#[derive(Debug, Clone)]
pub struct MigrateDynamicLocationsArgs {
    /// Report legacy source locations without changing files.
    pub check: bool,
}

/// What to do with strands.
#[derive(Debug, Clone)]
pub enum StrandCommand {
    /// Add one.
    Add(StrandAddArgs),
    /// Change one.
    Change(StrandSetArgs),
    /// Remove one.
    Remove(StrandRemoveArgs),
    /// List them.
    List(StrandListArgs),
    /// Show one.
    Show(IdArgs),
}

/// Arguments to add a strand.
#[derive(Debug, Clone)]
pub struct StrandAddArgs {
    /// The name.
    pub id: String,
    /// The intent.
    pub intent: String,
    /// The title.
    pub title: Option<String>,
    /// The scope.
    pub scope: Option<String>,
    /// The tags to add.
    pub tags: Vec<String>,
}

/// Arguments to change a strand.
#[derive(Debug, Clone)]
pub struct StrandSetArgs {
    /// The name.
    pub id: String,
    /// The intent.
    pub intent: Option<String>,
    /// The title.
    pub title: Option<String>,
    /// Whether the title is removed.
    pub clear_title: bool,
    /// The scope.
    pub scope: Option<String>,
    /// Whether the scope is removed.
    pub clear_scope: bool,
    /// The tags to add.
    pub tags: Vec<String>,
    /// The tags to remove.
    pub remove_tags: Vec<String>,
}

/// Arguments to remove a strand.
#[derive(Debug, Clone)]
pub struct StrandRemoveArgs {
    /// The name.
    pub id: String,
    /// Also remove source-independent memberships and relations owned by the strand.
    pub force: bool,
}

/// Arguments to list strands.
#[derive(Debug, Clone)]
pub struct StrandListArgs {
    /// Only those with this tag.
    pub tag: Option<String>,
    /// The scope.
    pub scope: Option<String>,
}

/// What to do with anchors.
#[derive(Debug, Clone)]
pub enum AnchorCommand {
    /// Add one.
    Add(AnchorAddArgs),
    /// Change one.
    Change(AnchorSetArgs),
    /// Remove one.
    Remove(AnchorRemoveArgs),
    /// List them.
    List(AnchorListArgs),
    /// Show one.
    Show(IdArgs),
}

/// Arguments to add an anchor.
#[derive(Debug, Clone)]
pub struct AnchorAddArgs {
    /// The name.
    pub id: String,
    /// Stable URI or other external identity for this anchor.
    pub target: Option<String>,
    /// The kind.
    pub kind: Option<String>,
    /// The file.
    pub path: Option<String>,
    /// The symbol.
    pub symbol: Option<String>,
    /// The first line.
    pub line_start: Option<u32>,
    /// The last line.
    pub line_end: Option<u32>,
    /// How closely the place is watched.
    pub watch: Option<WatchArg>,
    /// The tags to add.
    pub tags: Vec<String>,
}

/// Arguments to change an anchor.
#[derive(Debug, Clone)]
pub struct AnchorSetArgs {
    /// The name.
    pub id: String,
    /// What the anchor stands for, as a link.
    pub target: Option<String>,
    /// Whether the target is removed.
    pub clear_target: bool,
    /// The kind.
    pub kind: Option<String>,
    /// Whether the kind is removed.
    pub clear_kind: bool,
    /// The file.
    pub path: Option<String>,
    /// Whether the location is removed.
    pub clear_location: bool,
    /// The symbol.
    pub symbol: Option<String>,
    /// Whether the symbol is removed.
    pub clear_symbol: bool,
    /// The first line.
    pub line_start: Option<u32>,
    /// The last line.
    pub line_end: Option<u32>,
    /// How closely the place is watched.
    pub watch: Option<WatchArg>,
    /// The tags to add.
    pub tags: Vec<String>,
    /// The tags to remove.
    pub remove_tags: Vec<String>,
}

/// How closely an anchor watches its file.
#[derive(Debug, Clone, Copy, PartialEq, Eq, Structural)]
pub enum WatchArg {
    /// The whole file.
    File,
    /// The line.
    Line,
    /// The range of lines.
    Range,
}

/// Arguments to remove an anchor.
#[derive(Debug, Clone)]
pub struct AnchorRemoveArgs {
    /// The name.
    pub id: String,
    /// Remove the anchor from all sidecar memberships and relations as well.
    pub force: bool,
}

/// Arguments to list anchors.
#[derive(Debug, Clone)]
pub struct AnchorListArgs {
    /// The kind.
    pub kind: Option<String>,
    /// Only those with this tag.
    pub tag: Option<String>,
    /// The file.
    pub path: Option<String>,
}

/// The name of a thing to show.
#[derive(Debug, Clone)]
pub struct IdArgs {
    /// The name.
    pub id: String,
}

/// What to do with members.
#[derive(Debug, Clone)]
pub enum MemberCommand {
    /// Add one.
    Add(MemberAddArgs),
    /// Remove one.
    Remove(MemberRemoveArgs),
}

/// Arguments to add a member.
#[derive(Debug, Clone)]
pub struct MemberAddArgs {
    /// The strand.
    pub strand: String,
    /// The anchor.
    pub anchor: String,
    /// The role.
    pub role: Option<String>,
    /// Whether a change asks for no review of the member.
    pub optional: bool,
}

/// Arguments to remove a member.
#[derive(Debug, Clone)]
pub struct MemberRemoveArgs {
    /// The strand.
    pub strand: String,
    /// The anchor.
    pub anchor: String,
}

/// What to do with relations.
#[derive(Debug, Clone)]
pub enum RelationCommand {
    /// Add one.
    Add(RelationAddArgs),
    /// Remove one.
    Remove(RelationRemoveArgs),
    /// Add a relationship that is not owned by one strand.
    AddGlobal(GlobalRelationAddArgs),
    /// Remove a relationship that is not owned by one strand.
    RemoveGlobal(GlobalRelationRemoveArgs),
}

/// Arguments to add a relation to a strand.
#[derive(Debug, Clone)]
pub struct RelationAddArgs {
    /// The strand.
    pub strand: String,
    /// Where the relation starts.
    pub from: String,
    /// Where it leads.
    pub to: String,
    /// The kind.
    pub kind: String,
    /// Whether it holds both ways.
    pub bidirectional: bool,
}

/// Arguments to remove a relation from a strand.
#[derive(Debug, Clone)]
pub struct RelationRemoveArgs {
    /// The strand.
    pub strand: String,
    /// Where the relation starts.
    pub from: String,
    /// Where it leads.
    pub to: String,
    /// The kind.
    pub kind: Option<String>,
}

/// Arguments to add a relation of no strand.
#[derive(Debug, Clone)]
pub struct GlobalRelationAddArgs {
    /// Where the relation starts.
    pub from: String,
    /// Where it leads.
    pub to: String,
    /// The kind.
    pub kind: String,
    /// Whether it holds both ways.
    pub bidirectional: bool,
}

/// Arguments to remove a relation of no strand.
#[derive(Debug, Clone)]
pub struct GlobalRelationRemoveArgs {
    /// Where the relation starts.
    pub from: String,
    /// Where it leads.
    pub to: String,
    /// The kind.
    pub kind: String,
}

/// Which changes to look at.
#[derive(Debug, Clone)]
pub struct ChangeArgs {
    /// Diff revision or range, for example HEAD, HEAD~3, or main...HEAD.
    pub diff: Option<String>,
    /// Analyze staged changes only.
    pub staged: bool,
    /// Analyze unstaged changes only.
    pub worktree: bool,
    /// Include untracked files as whole-file changes.
    pub untracked: bool,
    /// Exclude untracked files.
    pub no_untracked: bool,
    /// Treat a path as wholly changed. May be repeated and works outside Git.
    pub files: Vec<String>,
}

/// What to show of the things that a change reaches.
#[derive(Debug, Clone)]
pub struct AffectedArgs {
    /// Which changes to look at.
    pub changes: ChangeArgs,
    /// Maximum relation traversal depth.
    pub depth: Option<usize>,
    /// Follow only these relation kinds. May be repeated.
    pub relations: Vec<String>,
    /// Include only strands carrying this tag. May be repeated.
    pub tags: Vec<String>,
    /// Include optional members even if repository policy excludes them.
    pub include_optional: bool,
    /// Exclude optional members even if repository policy includes them.
    pub exclude_optional: bool,
    /// Fail with exit status 1 when no strand is selected.
    pub require_match: bool,
}

/// What to gather for a task.
#[derive(Debug, Clone)]
pub struct ContextArgs {
    /// What to show of the things that a change reaches.
    pub affected: AffectedArgs,
    /// Find graph entry points from task or feature language. May be repeated.
    pub searches: Vec<String>,
    /// Start from an exact anchor ID. May be repeated.
    pub anchors: Vec<String>,
    /// Start from every member of an exact strand ID. May be repeated.
    pub strands: Vec<String>,
    /// Start from anchors with this exact indexed symbol. May be repeated.
    pub symbols: Vec<String>,
    /// Start from anchors in this repository path or directory. May be repeated.
    pub paths: Vec<String>,
    /// Limit `--search` matches to this repository path or directory. May be repeated.
    pub search_paths: Vec<String>,
    /// Maximum ranked matches retained for each `--search` value.
    pub search_limit: usize,
    /// Source policy: focused=exact selectors; direct=focused/search/change/direct strands; all=candidates too.
    pub source: ContextSource,
    /// Include source only from matching repository-path globs. May be repeated.
    pub source_includes: Vec<String>,
    /// Exclude source from matching repository-path globs. May be repeated.
    pub source_excludes: Vec<String>,
    /// Include only these file extensions. Repeat or separate values with commas.
    pub source_extensions: Vec<String>,
    /// Exclude these file extensions. Repeat or separate values with commas.
    pub excluded_source_extensions: Vec<String>,
    /// Include only these detected languages. Repeat or separate values with commas.
    pub source_languages: Vec<String>,
    /// Exclude these detected languages. Repeat or separate values with commas.
    pub excluded_source_languages: Vec<String>,
    /// Add surrounding lines before and after each resolved range.
    pub context_lines: u32,
    /// Merge excerpts in the same file separated by at most this many lines.
    pub merge_gap: u32,
    /// Include Rust #[cfg(test)] modules and test functions in search and source excerpts.
    pub include_tests: bool,
    /// Approximate source token budget; bounded output compacts accounting. Use 0 for unlimited.
    pub token_budget: usize,
}

/// For which anchors source is shown.
#[derive(Debug, Clone, Copy, PartialEq, Eq, Structural)]
pub enum ContextSource {
    /// No source.
    Nothing,
    /// Source of what was asked for by name.
    Focused,
    /// Source of that and of what is directly reached.
    Direct,
    /// Source of everything reached.
    All,
}

/// What to show of the graph.
#[derive(Debug, Clone)]
pub struct QueryArgs {
    /// Start traversal at this anchor. May be repeated.
    pub anchors: Vec<String>,
    /// Start traversal with every member of this strand. May be repeated.
    pub strands: Vec<String>,
    /// How many relations are followed.
    pub depth: usize,
    /// The kinds of relations that are followed.
    pub relations: Vec<String>,
    /// How to show the graph.
    pub view: QueryView,
}

/// How to show the graph.
#[derive(Debug, Clone, Copy, PartialEq, Eq, Structural)]
pub enum QueryView {
    /// Its nodes.
    Nodes,
    /// In the DOT language.
    Dot,
    /// In the Mermaid language.
    Mermaid,
}

/// What to do with reviews.
#[derive(Debug, Clone)]
pub enum ReviewCommand {
    /// Open one.
    Start(ReviewStartArgs),
    /// Record a disposition.
    Record(ReviewRecordArgs),
    /// Show one.
    Status(ReviewStatusArgs),
    /// Complete one.
    Complete(ReviewCompleteArgs),
    /// Open one again.
    Reopen(ReviewIdArgs),
    /// List them.
    List,
}

/// Arguments to open a review.
#[derive(Debug, Clone)]
pub struct ReviewStartArgs {
    /// What to show of the things that a change reaches.
    pub affected: AffectedArgs,
    /// The name.
    pub id: Option<String>,
}

/// Arguments to record a disposition.
#[derive(Debug, Clone)]
pub struct ReviewRecordArgs {
    /// The name.
    pub id: String,
    /// The anchor.
    pub anchor: String,
    /// What was decided.
    pub disposition: String,
    /// Why.
    pub note: Option<String>,
}

/// Arguments to show a review.
#[derive(Debug, Clone)]
pub struct ReviewStatusArgs {
    /// The name.
    pub id: Option<String>,
}

/// Arguments to complete a review.
#[derive(Debug, Clone)]
pub struct ReviewCompleteArgs {
    /// The name.
    pub id: String,
    /// Whether dispositions may be missing.
    pub allow_incomplete: bool,
    /// Whether files may have changed since.
    pub allow_drift: bool,
}

/// The name of a review.
#[derive(Debug, Clone)]
pub struct ReviewIdArgs {
    /// The name.
    pub id: String,
}

/// Arguments to print a schema.
#[derive(Debug, Clone)]
pub struct SchemaArgs {
    /// The kind of document.
    pub document: SchemaDocument,
}

/// The kinds of documents that have a schema.
#[derive(Debug, Clone, Copy, PartialEq, Eq, Structural)]
pub enum SchemaDocument {
    /// The configuration.
    Config,
    /// A strand.
    Strand,
    /// An anchor.
    Anchor,
    /// The index.
    Index,
    /// The context of a change.
    Context,
    /// A review.
    Review,
}

/// Arguments to write a manual page.
#[derive(Debug, Clone)]
pub struct ManArgs {
    /// Output file. Defaults to stdout.
    pub output: Option<String>,
}

/// The shells that completions are written for.
#[derive(Debug, Clone, Copy, PartialEq, Eq, Structural)]
pub enum Shell {
    /// The Bourne-again shell.
    Bash,
    /// Elvish.
    Elvish,
    /// The friendly interactive shell.
    Fish,
    /// PowerShell.
    PowerShell,
    /// The Z shell.
    Zsh,
}

/// Arguments to write completions.
#[derive(Debug, Clone)]
pub struct CompletionArgs {
    /// The shell.
    pub shell: Shell,
}

/// What to do.
#[derive(Debug, Clone)]
pub enum Command {
    /// Initialize Strandmap metadata in a repository.
    Init(InitArgs),
    /// Build or refresh the repository index.
    Index(IndexArgs),
    /// Validate configuration, metadata, anchors, and graph integrity.
    Check(CheckArgs),
    /// Manage strands.
    Strand(StrandCommand),
    /// Manage anchors.
    Anchor(AnchorCommand),
    /// Manage strand memberships.
    Member(MemberCommand),
    /// Manage typed relationships between anchors.
    Relation(RelationCommand),
    /// Show context affected by a Git diff or explicit files.
    Affected(AffectedArgs),
    /// Gather complete source-bearing context from a task, graph seed, path, or diff.
    Context(Box<ContextArgs>),
    /// Query and export the relationship graph.
    Query(QueryArgs),
    /// Create and manage review records for a change set.
    Review(ReviewCommand),
    /// Migrate repository metadata and source annotations.
    Migrate(MigrateCommand),
    /// Emit JSON Schema for Strandmap data formats.
    Schema(SchemaArgs),
    /// Generate shell completion scripts.
    Completions(CompletionArgs),
    /// Generate a manual page.
    Man(ManArgs),
}

impl Default for ContextSource {
    fn default() -> (r: Self)
        ensures
            r == ContextSource::All,
    {
        ContextSource::All
    }
}

} // verus!

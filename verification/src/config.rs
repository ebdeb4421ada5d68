//! The configuration of a strand map.

use vstd::prelude::*;

use crate::collections::StringSet;
use crate::model::{Attributes, ValueView};
use crate::paths::{join_path, joined};
use crate::text::{blank, chars_are, chars_of, decimal_text, is_blank, same_text, split_on};
use crate::views::{outcome, Duplicate};

verus! {

/// No free attributes.
pub open spec fn no_attributes() -> Map<Seq<char>, ValueView> {
    Map::empty()
}

/// How the context of a task is shown.
#[derive(Debug, Clone, PartialEq)]
pub struct ContextConfig {
    /// Whether Rust tests are shown.
    pub include_rust_tests: bool,
    /// Free attributes.
    pub attributes: Attributes,
}

/// The mathematical content of a [`ContextConfig`].
#[verifier::ext_equal]
pub ghost struct ContextConfigView {
    pub include_rust_tests: bool,
    pub attributes: Map<Seq<char>, ValueView>,
}

impl View for ContextConfig {
    type V = ContextConfigView;

    open spec fn view(&self) -> ContextConfigView {
        ContextConfigView {
            include_rust_tests: self.include_rust_tests.deep_view(),
            attributes: self.attributes.deep_view(),
        }
    }
}

impl DeepView for ContextConfig {
    type V = ContextConfigView;

    open spec fn deep_view(&self) -> ContextConfigView {
        self@
    }
}

impl Duplicate for ContextConfig {
    fn duplicate(&self) -> (r: Self) {
        ContextConfig {
            include_rust_tests: self.include_rust_tests,
            attributes: self.attributes.duplicate(),
        }
    }
}

/// Which files are scanned.
#[derive(Debug, Clone, PartialEq)]
pub struct ScanConfig {
    /// Patterns of files to scan; all of them where empty.
    pub includes: Vec<String>,
    /// Patterns of files to leave out.
    pub exclude: Vec<String>,
    /// The size from which a file is left out.
    pub max_file_bytes: u64,
    /// Whether hidden files are scanned.
    pub hidden: bool,
    /// Whether symbolic links are followed.
    pub follow_symlinks: bool,
    /// Whether what git ignores is left out.
    pub respect_gitignore: bool,
    /// Free attributes.
    pub attributes: Attributes,
}

/// The mathematical content of a [`ScanConfig`].
#[verifier::ext_equal]
pub ghost struct ScanConfigView {
    pub includes: Seq<Seq<char>>,
    pub exclude: Seq<Seq<char>>,
    pub max_file_bytes: u64,
    pub hidden: bool,
    pub follow_symlinks: bool,
    pub respect_gitignore: bool,
    pub attributes: Map<Seq<char>, ValueView>,
}

impl View for ScanConfig {
    type V = ScanConfigView;

    open spec fn view(&self) -> ScanConfigView {
        ScanConfigView {
            includes: self.includes.deep_view(),
            exclude: self.exclude.deep_view(),
            max_file_bytes: self.max_file_bytes.deep_view(),
            hidden: self.hidden.deep_view(),
            follow_symlinks: self.follow_symlinks.deep_view(),
            respect_gitignore: self.respect_gitignore.deep_view(),
            attributes: self.attributes.deep_view(),
        }
    }
}

impl DeepView for ScanConfig {
    type V = ScanConfigView;

    open spec fn deep_view(&self) -> ScanConfigView {
        self@
    }
}

impl Duplicate for ScanConfig {
    fn duplicate(&self) -> (r: Self) {
        ScanConfig {
            includes: self.includes.duplicate(),
            exclude: self.exclude.duplicate(),
            max_file_bytes: self.max_file_bytes,
            hidden: self.hidden,
            follow_symlinks: self.follow_symlinks,
            respect_gitignore: self.respect_gitignore,
            attributes: self.attributes.duplicate(),
        }
    }
}

/// How annotations are written.
#[derive(Debug, Clone, PartialEq)]
pub struct AnnotationConfig {
    /// Whether annotations are read.
    pub enabled: bool,
    /// What starts an anchor annotation.
    pub anchor_markers: Vec<String>,
    /// What starts a strand annotation.
    pub strand_markers: Vec<String>,
    /// What starts a relation annotation.
    pub relation_markers: Vec<String>,
    /// How many lines an anchor annotation stays active.
    pub anchor_block_gap: usize,
    /// Whether a strand annotation without an anchor makes one.
    pub implicit_anchors: bool,
    /// Free attributes.
    pub attributes: Attributes,
}

/// The mathematical content of a [`AnnotationConfig`].
#[verifier::ext_equal]
pub ghost struct AnnotationConfigView {
    pub enabled: bool,
    pub anchor_markers: Seq<Seq<char>>,
    pub strand_markers: Seq<Seq<char>>,
    pub relation_markers: Seq<Seq<char>>,
    pub anchor_block_gap: usize,
    pub implicit_anchors: bool,
    pub attributes: Map<Seq<char>, ValueView>,
}

impl View for AnnotationConfig {
    type V = AnnotationConfigView;

    open spec fn view(&self) -> AnnotationConfigView {
        AnnotationConfigView {
            enabled: self.enabled.deep_view(),
            anchor_markers: self.anchor_markers.deep_view(),
            strand_markers: self.strand_markers.deep_view(),
            relation_markers: self.relation_markers.deep_view(),
            anchor_block_gap: self.anchor_block_gap.deep_view(),
            implicit_anchors: self.implicit_anchors.deep_view(),
            attributes: self.attributes.deep_view(),
        }
    }
}

impl DeepView for AnnotationConfig {
    type V = AnnotationConfigView;

    open spec fn deep_view(&self) -> AnnotationConfigView {
        self@
    }
}

impl Duplicate for AnnotationConfig {
    fn duplicate(&self) -> (r: Self) {
        AnnotationConfig {
            enabled: self.enabled,
            anchor_markers: self.anchor_markers.duplicate(),
            strand_markers: self.strand_markers.duplicate(),
            relation_markers: self.relation_markers.duplicate(),
            anchor_block_gap: self.anchor_block_gap,
            implicit_anchors: self.implicit_anchors,
            attributes: self.attributes.duplicate(),
        }
    }
}

/// Where the index is kept.
#[derive(Debug, Clone, PartialEq)]
pub struct IndexConfig {
    /// The file, relative to the metadata directory.
    pub path: String,
    /// Whether the index is brought up to date by itself.
    pub auto_refresh: bool,
    /// Free attributes.
    pub attributes: Attributes,
}

/// The mathematical content of a [`IndexConfig`].
#[verifier::ext_equal]
pub ghost struct IndexConfigView {
    pub path: Seq<char>,
    pub auto_refresh: bool,
    pub attributes: Map<Seq<char>, ValueView>,
}

impl View for IndexConfig {
    type V = IndexConfigView;

    open spec fn view(&self) -> IndexConfigView {
        IndexConfigView {
            path: self.path.deep_view(),
            auto_refresh: self.auto_refresh.deep_view(),
            attributes: self.attributes.deep_view(),
        }
    }
}

impl DeepView for IndexConfig {
    type V = IndexConfigView;

    open spec fn deep_view(&self) -> IndexConfigView {
        self@
    }
}

impl Duplicate for IndexConfig {
    fn duplicate(&self) -> (r: Self) {
        IndexConfig {
            path: self.path.duplicate(),
            auto_refresh: self.auto_refresh,
            attributes: self.attributes.duplicate(),
        }
    }
}

/// How relations are followed.
#[derive(Debug, Clone, PartialEq)]
pub struct TraversalConfig {
    /// How many relations are followed.
    pub depth: usize,
    /// The kinds that are followed; all of them where empty.
    pub relation_kinds: StringSet,
    /// Whether optional members are reached.
    pub include_optional_members: bool,
    /// Free attributes.
    pub attributes: Attributes,
}

/// The mathematical content of a [`TraversalConfig`].
#[verifier::ext_equal]
pub ghost struct TraversalConfigView {
    pub depth: usize,
    pub relation_kinds: Set<Seq<char>>,
    pub include_optional_members: bool,
    pub attributes: Map<Seq<char>, ValueView>,
}

impl View for TraversalConfig {
    type V = TraversalConfigView;

    open spec fn view(&self) -> TraversalConfigView {
        TraversalConfigView {
            depth: self.depth.deep_view(),
            relation_kinds: self.relation_kinds.deep_view(),
            include_optional_members: self.include_optional_members.deep_view(),
            attributes: self.attributes.deep_view(),
        }
    }
}

impl DeepView for TraversalConfig {
    type V = TraversalConfigView;

    open spec fn deep_view(&self) -> TraversalConfigView {
        self@
    }
}

impl Duplicate for TraversalConfig {
    fn duplicate(&self) -> (r: Self) {
        TraversalConfig {
            depth: self.depth,
            relation_kinds: self.relation_kinds.duplicate(),
            include_optional_members: self.include_optional_members,
            attributes: self.attributes.duplicate(),
        }
    }
}

/// How reviews are kept.
#[derive(Debug, Clone, PartialEq)]
pub struct ReviewConfig {
    /// The directory, relative to the metadata directory.
    pub path: String,
    /// The dispositions to choose from; any where empty.
    pub allowed_dispositions: StringSet,
    /// Whether optional members need a disposition too.
    pub require_all_members: bool,
    /// Free attributes.
    pub attributes: Attributes,
}

/// The mathematical content of a [`ReviewConfig`].
#[verifier::ext_equal]
pub ghost struct ReviewConfigView {
    pub path: Seq<char>,
    pub allowed_dispositions: Set<Seq<char>>,
    pub require_all_members: bool,
    pub attributes: Map<Seq<char>, ValueView>,
}

impl View for ReviewConfig {
    type V = ReviewConfigView;

    open spec fn view(&self) -> ReviewConfigView {
        ReviewConfigView {
            path: self.path.deep_view(),
            allowed_dispositions: self.allowed_dispositions.deep_view(),
            require_all_members: self.require_all_members.deep_view(),
            attributes: self.attributes.deep_view(),
        }
    }
}

impl DeepView for ReviewConfig {
    type V = ReviewConfigView;

    open spec fn deep_view(&self) -> ReviewConfigView {
        self@
    }
}

impl Duplicate for ReviewConfig {
    fn duplicate(&self) -> (r: Self) {
        ReviewConfig {
            path: self.path.duplicate(),
            allowed_dispositions: self.allowed_dispositions.duplicate(),
            require_all_members: self.require_all_members,
            attributes: self.attributes.duplicate(),
        }
    }
}

/// How git is asked for changes.
#[derive(Debug, Clone, PartialEq)]
pub struct GitConfig {
    /// What changes are measured against.
    pub default_diff: String,
    /// Whether renames are looked for.
    pub detect_renames: bool,
    /// Whether untracked files count as changed.
    pub include_untracked: bool,
    /// Free attributes.
    pub attributes: Attributes,
}

/// The mathematical content of a [`GitConfig`].
#[verifier::ext_equal]
pub ghost struct GitConfigView {
    pub default_diff: Seq<char>,
    pub detect_renames: bool,
    pub include_untracked: bool,
    pub attributes: Map<Seq<char>, ValueView>,
}

impl View for GitConfig {
    type V = GitConfigView;

    open spec fn view(&self) -> GitConfigView {
        GitConfigView {
            default_diff: self.default_diff.deep_view(),
            detect_renames: self.detect_renames.deep_view(),
            include_untracked: self.include_untracked.deep_view(),
            attributes: self.attributes.deep_view(),
        }
    }
}

impl DeepView for GitConfig {
    type V = GitConfigView;

    open spec fn deep_view(&self) -> GitConfigView {
        self@
    }
}

impl Duplicate for GitConfig {
    fn duplicate(&self) -> (r: Self) {
        GitConfig {
            default_diff: self.default_diff.duplicate(),
            detect_renames: self.detect_renames,
            include_untracked: self.include_untracked,
            attributes: self.attributes.duplicate(),
        }
    }
}

/// The configuration.
#[derive(Debug, Clone, PartialEq)]
pub struct Config {
    /// The version of the format.
    pub version: u32,
    /// Which files are scanned.
    pub scan: ScanConfig,
    /// How annotations are written.
    pub annotations: AnnotationConfig,
    /// Where the index is kept.
    pub index: IndexConfig,
    /// How relations are followed.
    pub traversal: TraversalConfig,
    /// How the context of a task is shown.
    pub context: ContextConfig,
    /// How reviews are kept.
    pub reviews: ReviewConfig,
    /// How git is asked for changes.
    pub git: GitConfig,
    /// Free attributes.
    pub attributes: Attributes,
}

/// The mathematical content of a [`Config`].
#[verifier::ext_equal]
pub ghost struct ConfigView {
    pub version: u32,
    pub scan: ScanConfigView,
    pub annotations: AnnotationConfigView,
    pub index: IndexConfigView,
    pub traversal: TraversalConfigView,
    pub context: ContextConfigView,
    pub reviews: ReviewConfigView,
    pub git: GitConfigView,
    pub attributes: Map<Seq<char>, ValueView>,
}

impl View for Config {
    type V = ConfigView;

    open spec fn view(&self) -> ConfigView {
        ConfigView {
            version: self.version.deep_view(),
            scan: self.scan.deep_view(),
            annotations: self.annotations.deep_view(),
            index: self.index.deep_view(),
            traversal: self.traversal.deep_view(),
            context: self.context.deep_view(),
            reviews: self.reviews.deep_view(),
            git: self.git.deep_view(),
            attributes: self.attributes.deep_view(),
        }
    }
}

impl DeepView for Config {
    type V = ConfigView;

    open spec fn deep_view(&self) -> ConfigView {
        self@
    }
}

impl Duplicate for Config {
    fn duplicate(&self) -> (r: Self) {
        Config {
            version: self.version,
            scan: self.scan.duplicate(),
            annotations: self.annotations.duplicate(),
            index: self.index.duplicate(),
            traversal: self.traversal.duplicate(),
            context: self.context.duplicate(),
            reviews: self.reviews.duplicate(),
            git: self.git.duplicate(),
            attributes: self.attributes.duplicate(),
        }
    }
}

/// The patterns that are left out by default.
pub open spec fn spec_default_excludes() -> Seq<Seq<char>> {
    seq![
        ".git/**"@,
        ".strandmap/**"@,
        "**/.strandmap/**"@,
        "target/**"@,
        "**/target/**"@,
        "node_modules/**"@,
        "**/node_modules/**"@,
        "vendor/**"@,
        "dist/**"@,
        "build/**"@,
        "*.min.js"@,
        "*.map"@,
        "*.lock"@,
    ]
}

/// The patterns that are left out by default.
fn default_excludes() -> (r: Vec<String>)
    ensures
        r.deep_view() == spec_default_excludes(),
{
    let r: Vec<String> = vec![
        ".git/**".to_owned(),
        ".strandmap/**".to_owned(),
        "**/.strandmap/**".to_owned(),
        "target/**".to_owned(),
        "**/target/**".to_owned(),
        "node_modules/**".to_owned(),
        "**/node_modules/**".to_owned(),
        "vendor/**".to_owned(),
        "dist/**".to_owned(),
        "build/**".to_owned(),
        "*.min.js".to_owned(),
        "*.map".to_owned(),
        "*.lock".to_owned(),
    ];
    assert(r.deep_view() =~= spec_default_excludes());
    r
}

/// What starts an anchor annotation by default.
pub open spec fn spec_default_anchor_markers() -> Seq<Seq<char>> {
    seq![
        "@strandmap anchor"@,
        "@anchor"@,
    ]
}

/// What starts an anchor annotation by default.
fn default_anchor_markers() -> (r: Vec<String>)
    ensures
        r.deep_view() == spec_default_anchor_markers(),
{
    let r: Vec<String> = vec![
        "@strandmap anchor".to_owned(),
        "@anchor".to_owned(),
    ];
    assert(r.deep_view() =~= spec_default_anchor_markers());
    r
}

/// What starts a strand annotation by default.
pub open spec fn spec_default_strand_markers() -> Seq<Seq<char>> {
    seq![
        "@strandmap strand"@,
        "@strand"@,
    ]
}

/// What starts a strand annotation by default.
fn default_strand_markers() -> (r: Vec<String>)
    ensures
        r.deep_view() == spec_default_strand_markers(),
{
    let r: Vec<String> = vec![
        "@strandmap strand".to_owned(),
        "@strand".to_owned(),
    ];
    assert(r.deep_view() =~= spec_default_strand_markers());
    r
}

/// What starts a relation annotation by default.
pub open spec fn spec_default_relation_markers() -> Seq<Seq<char>> {
    seq![
        "@strandmap relation"@,
        "@relation"@,
    ]
}

/// What starts a relation annotation by default.
fn default_relation_markers() -> (r: Vec<String>)
    ensures
        r.deep_view() == spec_default_relation_markers(),
{
    let r: Vec<String> = vec![
        "@strandmap relation".to_owned(),
        "@relation".to_owned(),
    ];
    assert(r.deep_view() =~= spec_default_relation_markers());
    r
}

/// The default [`ContextConfig`].
pub open spec fn default_context_config() -> ContextConfigView {
    ContextConfigView {
        include_rust_tests: false,
        attributes: no_attributes(),
    }
}

impl Default for ContextConfig {
    fn default() -> (r: Self)
        ensures
            r@ == default_context_config(),
    {
        ContextConfig {
            include_rust_tests: false,
            attributes: Attributes::new(),
        }
    }
}

/// The default [`ScanConfig`].
pub open spec fn default_scan_config() -> ScanConfigView {
    ScanConfigView {
        includes: seq![],
        exclude: spec_default_excludes(),
        max_file_bytes: 4194304,
        hidden: false,
        follow_symlinks: false,
        respect_gitignore: true,
        attributes: no_attributes(),
    }
}

impl Default for ScanConfig {
    fn default() -> (r: Self)
        ensures
            r@ == default_scan_config(),
    {
        ScanConfig {
            includes: Vec::new(),
            exclude: default_excludes(),
            max_file_bytes: 4194304,
            hidden: false,
            follow_symlinks: false,
            respect_gitignore: true,
            attributes: Attributes::new(),
        }
    }
}

/// The default [`AnnotationConfig`].
pub open spec fn default_annotation_config() -> AnnotationConfigView {
    AnnotationConfigView {
        enabled: true,
        anchor_markers: spec_default_anchor_markers(),
        strand_markers: spec_default_strand_markers(),
        relation_markers: spec_default_relation_markers(),
        anchor_block_gap: 3,
        implicit_anchors: true,
        attributes: no_attributes(),
    }
}

impl Default for AnnotationConfig {
    fn default() -> (r: Self)
        ensures
            r@ == default_annotation_config(),
    {
        AnnotationConfig {
            enabled: true,
            anchor_markers: default_anchor_markers(),
            strand_markers: default_strand_markers(),
            relation_markers: default_relation_markers(),
            anchor_block_gap: 3,
            implicit_anchors: true,
            attributes: Attributes::new(),
        }
    }
}

/// The default [`IndexConfig`].
pub open spec fn default_index_config() -> IndexConfigView {
    IndexConfigView {
        path: "cache/index.json"@,
        auto_refresh: true,
        attributes: no_attributes(),
    }
}

impl Default for IndexConfig {
    fn default() -> (r: Self)
        ensures
            r@ == default_index_config(),
    {
        IndexConfig {
            path: "cache/index.json".to_owned(),
            auto_refresh: true,
            attributes: Attributes::new(),
        }
    }
}

/// The default [`TraversalConfig`].
pub open spec fn default_traversal_config() -> TraversalConfigView {
    TraversalConfigView {
        depth: 1,
        relation_kinds: Set::empty(),
        include_optional_members: true,
        attributes: no_attributes(),
    }
}

impl Default for TraversalConfig {
    fn default() -> (r: Self)
        ensures
            r@ == default_traversal_config(),
    {
        TraversalConfig {
            depth: 1,
            relation_kinds: StringSet::new(),
            include_optional_members: true,
            attributes: Attributes::new(),
        }
    }
}

/// The default [`ReviewConfig`].
pub open spec fn default_review_config() -> ReviewConfigView {
    ReviewConfigView {
        path: "reviews"@,
        allowed_dispositions: Set::empty(),
        require_all_members: false,
        attributes: no_attributes(),
    }
}

impl Default for ReviewConfig {
    fn default() -> (r: Self)
        ensures
            r@ == default_review_config(),
    {
        ReviewConfig {
            path: "reviews".to_owned(),
            allowed_dispositions: StringSet::new(),
            require_all_members: false,
            attributes: Attributes::new(),
        }
    }
}

/// The default [`GitConfig`].
pub open spec fn default_git_config() -> GitConfigView {
    GitConfigView {
        default_diff: "HEAD"@,
        detect_renames: true,
        include_untracked: true,
        attributes: no_attributes(),
    }
}

impl Default for GitConfig {
    fn default() -> (r: Self)
        ensures
            r@ == default_git_config(),
    {
        GitConfig {
            default_diff: "HEAD".to_owned(),
            detect_renames: true,
            include_untracked: true,
            attributes: Attributes::new(),
        }
    }
}

/// The default [`Config`].
pub open spec fn default_config() -> ConfigView {
    ConfigView {
        version: 1,
        scan: default_scan_config(),
        annotations: default_annotation_config(),
        index: default_index_config(),
        traversal: default_traversal_config(),
        context: default_context_config(),
        reviews: default_review_config(),
        git: default_git_config(),
        attributes: no_attributes(),
    }
}

impl Default for Config {
    fn default() -> (r: Self)
        ensures
            r@ == default_config(),
    {
        Config {
            version: 1,
            scan: ScanConfig::default(),
            annotations: AnnotationConfig::default(),
            index: IndexConfig::default(),
            traversal: TraversalConfig::default(),
            context: ContextConfig::default(),
            reviews: ReviewConfig::default(),
            git: GitConfig::default(),
            attributes: Attributes::new(),
        }
    }
}

/// Whether a path has a part that leads out of its directory.
pub open spec fn climbs(path: Seq<char>) -> bool {
    crate::text::split(path, '/').contains(".."@)
}

/// Whether a path has a part that leads out of its directory.
pub fn path_climbs(path: &str) -> (r: bool)
    ensures
        r == climbs(path@),
{
    let chars = chars_of(path);
    let parts = split_on(&chars, '/');
    let mut i: usize = 0;
    while i < parts.len()
        invariant
            i <= parts@.len(),
            chars@ == path@,
            parts.deep_view() == crate::text::split(chars@, '/'),
            forall|k: int| 0 <= k < i ==> #[trigger] parts.deep_view()[k] != ".."@,
        decreases parts@.len() - i,
    {
        assert(parts.deep_view()[i as int] == parts@[i as int]@);
        if chars_are(&parts[i], "..") {
            return true;
        }
        i += 1;
    }
    false
}

/// Whether a path is relative and stays in its directory.
pub open spec fn is_contained_path(path: Seq<char>) -> bool {
    &&& !is_blank(path)
    &&& path != "."@
    &&& !(path.len() > 0 && path[0] == '/')
    &&& !climbs(path)
}

/// What is wrong with a path that has to stay in the metadata directory.
pub open spec fn relative_path_problem(path: Seq<char>, field: Seq<char>) -> Option<Seq<char>> {
    if is_contained_path(path) {
        None
    } else {
        Some(field + " must be a relative path contained by the metadata directory"@)
    }
}

/// Checks a path that has to stay in the metadata directory.
fn validate_relative_path(path: &str, field: &str) -> (r: Result<(), String>)
    ensures
        match r {
            Ok(_) => relative_path_problem(path@, field@) is None,
            Err(message) => relative_path_problem(path@, field@) == Some(message@),
        },
{
    let chars = chars_of(path);
    if blank(path) || same_text(path, ".") || (chars.len() > 0 && chars[0] == '/') || path_climbs(
        path,
    ) {
        let mut message = field.to_owned();
        message.push_str(" must be a relative path contained by the metadata directory");
        return Err(message);
    }
    Ok(())
}

/// Whether one of the texts is empty.
pub open spec fn has_empty(texts: Seq<Seq<char>>) -> bool {
    exists|i: int| 0 <= i < texts.len() && (#[trigger] texts[i]).len() == 0
}

/// Whether one of the texts is empty.
fn any_empty(texts: &Vec<String>) -> (r: bool)
    ensures
        r == has_empty(texts.deep_view()),
{
    let mut i: usize = 0;
    while i < texts.len()
        invariant
            i <= texts@.len(),
            forall|k: int| 0 <= k < i ==> (#[trigger] texts.deep_view()[k]).len() != 0,
        decreases texts@.len() - i,
    {
        if chars_of(texts[i].as_str()).len() == 0 {
            assert(texts.deep_view()[i as int].len() == 0);
            return true;
        }
        i += 1;
    }
    false
}

/// Whether one of the texts is blank.
pub open spec fn has_blank(texts: Set<Seq<char>>) -> bool {
    exists|t: Seq<char>| #[trigger] texts.contains(t) && is_blank(t)
}

/// Whether one of the texts is blank.
fn any_blank(texts: &StringSet) -> (r: bool)
    ensures
        r == has_blank(texts@),
{
    let n: usize = texts.len();
    let ghost all = crate::collections::ordered(texts@);
    let mut i: usize = 0;
    while i < n
        invariant
            i <= n,
            n == all.len(),
            all == crate::collections::ordered(texts@),
            all.to_set() == texts@,
            forall|k: int| 0 <= k < i ==> !is_blank(#[trigger] all[k]),
        decreases n - i,
    {
        if blank(texts.item_at(i).as_str()) {
            assert(texts@.contains(all[i as int]));
            return true;
        }
        i += 1;
    }
    assert forall|t: Seq<char>| texts@.contains(t) implies !is_blank(t) by {
        assert(all.to_set().contains(t));
        assert(all.contains(t));
    }
    false
}

/// The first thing that is wrong with a configuration.
pub open spec fn config_problem(c: ConfigView) -> Option<Seq<char>> {
    if c.version != 1 {
        Some(
            "unsupported config version "@ + crate::text::decimal(c.version as nat)
                + "; this binary supports version 1"@,
        )
    } else if c.scan.max_file_bytes == 0 {
        Some("scan.max_file_bytes must be greater than zero"@)
    } else if relative_path_problem(c.index.path, "index.path"@) is Some {
        relative_path_problem(c.index.path, "index.path"@)
    } else if relative_path_problem(c.reviews.path, "reviews.path"@) is Some {
        relative_path_problem(c.reviews.path, "reviews.path"@)
    } else if c.index.path == c.reviews.path {
        Some("index.path and reviews.path must be different"@)
    } else if c.annotations.enabled && (c.annotations.anchor_markers.len() == 0
        || c.annotations.strand_markers.len() == 0) {
        Some("enabled annotations require anchor_markers and strand_markers"@)
    } else if has_empty(c.annotations.anchor_markers) || has_empty(c.annotations.strand_markers)
        || has_empty(c.annotations.relation_markers) {
        Some("annotation markers cannot be empty"@)
    } else if is_blank(c.git.default_diff) {
        Some("git.default_diff cannot be empty"@)
    } else if has_blank(c.reviews.allowed_dispositions) {
        Some("reviews.allowed_dispositions cannot contain an empty value"@)
    } else {
        None
    }
}

impl Config {
    /// Checks a configuration: the error says the first thing that is wrong with it.
    pub fn validate(&self) -> (r: Result<(), String>)
        ensures
            match r {
                Ok(_) => config_problem(self@) is None,
                Err(message) => config_problem(self@) == Some(message@),
            },
    {
        if self.version != 1 {
            let mut message = "unsupported config version ".to_owned();
            message.push_str(decimal_text(self.version as u64).as_str());
            message.push_str("; this binary supports version 1");
            return Err(message);
        }
        if self.scan.max_file_bytes == 0 {
            return Err("scan.max_file_bytes must be greater than zero".to_owned());
        }
        match validate_relative_path(self.index.path.as_str(), "index.path") {
            Err(message) => {
                return Err(message);
            },
            Ok(_) => {},
        }
        match validate_relative_path(self.reviews.path.as_str(), "reviews.path") {
            Err(message) => {
                return Err(message);
            },
            Ok(_) => {},
        }
        if same_text(self.index.path.as_str(), self.reviews.path.as_str()) {
            return Err("index.path and reviews.path must be different".to_owned());
        }
        if self.annotations.enabled && (self.annotations.anchor_markers.len() == 0
            || self.annotations.strand_markers.len() == 0) {
            return Err("enabled annotations require anchor_markers and strand_markers".to_owned());
        }
        if any_empty(&self.annotations.anchor_markers) || any_empty(
            &self.annotations.strand_markers,
        ) || any_empty(&self.annotations.relation_markers) {
            return Err("annotation markers cannot be empty".to_owned());
        }
        if blank(self.git.default_diff.as_str()) {
            return Err("git.default_diff cannot be empty".to_owned());
        }
        if any_blank(&self.reviews.allowed_dispositions) {
            return Err("reviews.allowed_dispositions cannot contain an empty value".to_owned());
        }
        Ok(())
    }
}

/// The names under which a configuration is looked for, in this order.
pub open spec fn spec_config_names() -> Seq<Seq<char>> {
    seq!["config.yaml"@, "config.yml"@, "config.json"@, "config.toml"@]
}

/// The names under which a configuration is looked for, in this order.
pub fn config_names() -> (r: Vec<String>)
    ensures
        r.deep_view() == spec_config_names(),
{
    let r: Vec<String> = vec![
        "config.yaml".to_owned(),
        "config.yml".to_owned(),
        "config.json".to_owned(),
        "config.toml".to_owned(),
    ];
    assert(r.deep_view() =~= spec_config_names());
    r
}

/// The first of the names, from position `i` on, that is there.
pub open spec fn first_present(names: Seq<Seq<char>>, present: Set<Seq<char>>, i: int) -> Option<
    Seq<char>,
>
    decreases names.len() - i,
{
    if i >= names.len() {
        None
    } else if present.contains(names[i]) {
        Some(names[i])
    } else {
        first_present(names, present, i + 1)
    }
}

/// The configuration file among the names that are there.
fn present_config(present: &StringSet) -> (r: Option<String>)
    ensures
        r.deep_view() == first_present(spec_config_names(), present@, 0),
{
    let names = config_names();
    let ghost all = spec_config_names();
    let mut i: usize = 0;
    while i < names.len()
        invariant
            i <= names@.len(),
            all == names.deep_view(),
            all == spec_config_names(),
            first_present(all, present@, 0) == first_present(all, present@, i as int),
        decreases names@.len() - i,
    {
        assert(all[i as int] == names@[i as int]@);
        if present.contains(names[i].as_str()) {
            return Some(names[i].clone());
        }
        i += 1;
    }
    None
}

impl Config {
    /// The file that a configuration is read from, given the names that are files of the
    /// metadata directory.
    pub fn find(metadata_dir: &str, present: &StringSet) -> (r: Result<String, String>)
        ensures
            outcome(r) == match first_present(spec_config_names(), present@, 0) {
                Some(name) => Ok::<Seq<char>, Seq<char>>(joined(metadata_dir@, name)),
                None => Err(
                    "no Strandmap configuration found in "@ + metadata_dir@
                        + "; run `strandmap init`"@,
                ),
            },
    {
        match present_config(present) {
            Some(name) => Ok(join_path(metadata_dir, name.as_str())),
            None => {
                let mut message = "no Strandmap configuration found in ".to_owned();
                message.push_str(metadata_dir);
                message.push_str("; run `strandmap init`");
                Err(message)
            },
        }
    }

    /// The file that a default configuration is written to, given the names that are in the
    /// metadata directory. One that is there is replaced only by force.
    pub fn place(metadata_dir: &str, present: &StringSet, force: bool) -> (r: Result<
        String,
        String,
    >)
        ensures
            outcome(r) == match first_present(spec_config_names(), present@, 0) {
                None => Ok::<Seq<char>, Seq<char>>(joined(metadata_dir@, "config.yaml"@)),
                Some(name) => if force {
                    Ok(joined(metadata_dir@, name))
                } else {
                    Err(
                        joined(metadata_dir@, name)
                            + " already exists; use --force to replace the default configuration"@,
                    )
                },
            },
    {
        match present_config(present) {
            None => Ok(join_path(metadata_dir, "config.yaml")),
            Some(name) => {
                let mut path = join_path(metadata_dir, name.as_str());
                if force {
                    Ok(path)
                } else {
                    path.push_str(
                        " already exists; use --force to replace the default configuration",
                    );
                    Err(path)
                }
            },
        }
    }
}

/// Every part of a text is a stretch of it.
proof fn lemma_part_is_stretch(s: Seq<char>, c: char, from: int, k: int)
    requires
        0 <= from <= s.len(),
        0 <= k < crate::text::split_from(s, c, from).len(),
    ensures
        exists|at: int|
            0 <= at <= at + crate::text::split_from(s, c, from)[k].len() <= s.len()
                && crate::text::split_from(s, c, from)[k] == #[trigger] s.subrange(
                at,
                at + crate::text::split_from(s, c, from)[k].len(),
            ),
    decreases s.len() - from,
{
    let at = crate::text::index_from(s, c, from);
    let part = crate::text::split_from(s, c, from)[k];
    if at >= s.len() || at < from {
        assert(part == s.subrange(from, from + part.len()));
    } else if k == 0 {
        assert(part == s.subrange(from, from + part.len()));
    } else {
        lemma_part_is_stretch(s, c, at + 1, k - 1);
        assert(part == crate::text::split_from(s, c, at + 1)[k - 1]);
    }
}

/// A path without two dots next to each other does not climb.
proof fn lemma_does_not_climb(path: Seq<char>)
    requires
        forall|i: int| 0 <= i < path.len() - 1 ==> !(#[trigger] path[i] == '.' && path[i + 1] == '.'),
    ensures
        !climbs(path),
{
    reveal_strlit("..");
    if climbs(path) {
        let parts = crate::text::split(path, '/');
        let k = parts.index_of(".."@);
        lemma_part_is_stretch(path, '/', 0, k);
        let at = choose|at: int|
            0 <= at <= at + parts[k].len() <= path.len() && parts[k] == #[trigger] path.subrange(
                at,
                at + parts[k].len(),
            );
        assert(path[at] == parts[k][0]);
        assert(path[at + 1] == parts[k][1]);
    }
}

/// The default configuration is valid.
pub proof fn the_default_is_valid()
    ensures
        config_problem(default_config()) is None,
{
    reveal_strlit("cache/index.json");
    reveal_strlit("reviews");
    reveal_strlit("HEAD");
    reveal_strlit(".");
    reveal_strlit("@strandmap anchor");
    reveal_strlit("@anchor");
    reveal_strlit("@strandmap strand");
    reveal_strlit("@strand");
    reveal_strlit("@strandmap relation");
    reveal_strlit("@relation");
    lemma_does_not_climb("cache/index.json"@);
    lemma_does_not_climb("reviews"@);
    assert(!is_blank("cache/index.json"@));
    assert(!is_blank("reviews"@));
    assert(!is_blank("HEAD"@));
    assert("cache/index.json"@[0] == 'c');
    assert("reviews"@[0] == 'r');
}

/// A valid configuration has no empty marker, so that annotations can be looked for.
pub proof fn valid_markers_are_filled(config: ConfigView)
    requires
        config_problem(config) is None,
    ensures
        crate::annotations::markers_are_filled(config.annotations),
{
}

} // verus!

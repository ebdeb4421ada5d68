//! The context that is printed: what was selected, and the source that belongs to it.

use vstd::prelude::*;

use crate::cli::ContextSource;
use crate::collections::{ordered, StringMap, StringSet};
use crate::globs::{
    add_glob, build_set, builder_globs, glob_problem, new_builder, one_matches, read_glob,
    set_globs, set_matches, set_problem,
};
use crate::model::{
    AffectedAnchor, AffectedAnchorView, AffectedStrand, AffectedStrandView, ChangeStatus,
    ChangedFile, ChangedFileView, ContextPacket, ContextPacketView, Diagnostic, DiagnosticView,
    LineRange, LineRangeView, Location, LocationView, Severity, WatchMode,
};
use crate::paths::{extension, extension_of, file_name, file_name_of};
use crate::search::{SearchHit, SearchHitView};
use crate::source_span::{rust_test_ranges, test_spans, Span};
use crate::text::{
    blank, byte_len, byte_length, chars_of, copy_option, debug_quoted, debug_text, decimal,
    decimal_text, is_blank, join, join_lines, lines, lines_of, lower_ascii, same_text, slice_of,
    string_of, text_before, text_less, text_of_bytes, to_ascii_lower, trim, trimmed,
    wide_decimal_text,
};
use crate::views::{outcome, push_item, Duplicate};

verus! {

broadcast use crate::views::lemma_chars_deep_view;

impl DeepView for ContextSource {
    type V = ContextSource;

    open spec fn deep_view(&self) -> ContextSource {
        *self
    }
}

/// What is printed, and how much of it.
#[derive(Debug, Clone)]
pub struct RenderOptions {
    /// Which source is printed.
    pub source: ContextSource,
    /// How many lines around a place are printed.
    pub context_lines: u32,
    /// How many lines between two places are printed rather than left out.
    pub merge_gap: u32,
    /// How many tokens of source are printed at most.
    pub token_budget: Option<usize>,
    /// The anchors asked for, with the order in which they were.
    pub focused_anchors: StringMap<usize>,
    /// What a search found.
    pub source_matches: Vec<SearchHit>,
    /// Whether Rust tests are printed.
    pub include_rust_tests: bool,
    /// Patterns of files to print; all of them where empty.
    pub source_includes: Vec<String>,
    /// Patterns of files to leave out.
    pub source_excludes: Vec<String>,
    /// Extensions of files to print; all of them where empty.
    pub source_extensions: Vec<String>,
    /// Extensions of files to leave out.
    pub excluded_source_extensions: Vec<String>,
    /// Languages to print; all of them where empty.
    pub source_languages: Vec<String>,
    /// Languages to leave out.
    pub excluded_source_languages: Vec<String>,
}

/// The mathematical content of a [`RenderOptions`].
#[verifier::ext_equal]
pub ghost struct RenderOptionsView {
    pub source: ContextSource,
    pub context_lines: u32,
    pub merge_gap: u32,
    pub token_budget: Option<usize>,
    pub focused_anchors: Map<Seq<char>, usize>,
    pub source_matches: Seq<SearchHitView>,
    pub include_rust_tests: bool,
    pub source_includes: Seq<Seq<char>>,
    pub source_excludes: Seq<Seq<char>>,
    pub source_extensions: Seq<Seq<char>>,
    pub excluded_source_extensions: Seq<Seq<char>>,
    pub source_languages: Seq<Seq<char>>,
    pub excluded_source_languages: Seq<Seq<char>>,
}

impl View for RenderOptions {
    type V = RenderOptionsView;

    open spec fn view(&self) -> RenderOptionsView {
        RenderOptionsView {
            source: self.source.deep_view(),
            context_lines: self.context_lines.deep_view(),
            merge_gap: self.merge_gap.deep_view(),
            token_budget: self.token_budget.deep_view(),
            focused_anchors: self.focused_anchors.deep_view(),
            source_matches: self.source_matches.deep_view(),
            include_rust_tests: self.include_rust_tests.deep_view(),
            source_includes: self.source_includes.deep_view(),
            source_excludes: self.source_excludes.deep_view(),
            source_extensions: self.source_extensions.deep_view(),
            excluded_source_extensions: self.excluded_source_extensions.deep_view(),
            source_languages: self.source_languages.deep_view(),
            excluded_source_languages: self.excluded_source_languages.deep_view(),
        }
    }
}

impl DeepView for RenderOptions {
    type V = RenderOptionsView;

    open spec fn deep_view(&self) -> RenderOptionsView {
        self@
    }
}

impl Duplicate for RenderOptions {
    fn duplicate(&self) -> (r: Self) {
        RenderOptions {
            source: self.source,
            context_lines: self.context_lines,
            merge_gap: self.merge_gap,
            token_budget: self.token_budget.duplicate(),
            focused_anchors: self.focused_anchors.duplicate(),
            source_matches: self.source_matches.duplicate(),
            include_rust_tests: self.include_rust_tests,
            source_includes: self.source_includes.duplicate(),
            source_excludes: self.source_excludes.duplicate(),
            source_extensions: self.source_extensions.duplicate(),
            excluded_source_extensions: self.excluded_source_extensions.duplicate(),
            source_languages: self.source_languages.duplicate(),
            excluded_source_languages: self.excluded_source_languages.duplicate(),
        }
    }
}

/// The name of a language, in lower case, with common short names spelled out.
pub open spec fn language_named(value: Seq<char>) -> Seq<char> {
    let name = to_ascii_lower(trim(value));
    if name == "rs"@ {
        "rust"@
    } else if name == "js"@ || name == "mjs"@ || name == "cjs"@ {
        "javascript"@
    } else if name == "ts"@ || name == "mts"@ || name == "cts"@ {
        "typescript"@
    } else if name == "py"@ {
        "python"@
    } else if name == "sh"@ || name == "zsh"@ {
        "bash"@
    } else if name == "md"@ {
        "markdown"@
    } else if name == "yml"@ {
        "yaml"@
    } else {
        name
    }
}

/// The name of a language, in lower case, with common short names spelled out.
pub fn normalize_language(value: &str) -> (r: String)
    ensures
        r@ == language_named(value@),
{
    let name = string_of(&lower_ascii(&trimmed(&chars_of(value))));
    let n = name.as_str();
    if same_text(n, "rs") {
        "rust".to_owned()
    } else if same_text(n, "js") || same_text(n, "mjs") || same_text(n, "cjs") {
        "javascript".to_owned()
    } else if same_text(n, "ts") || same_text(n, "mts") || same_text(n, "cts") {
        "typescript".to_owned()
    } else if same_text(n, "py") {
        "python".to_owned()
    } else if same_text(n, "sh") || same_text(n, "zsh") {
        "bash".to_owned()
    } else if same_text(n, "md") {
        "markdown".to_owned()
    } else if same_text(n, "yml") {
        "yaml".to_owned()
    } else {
        name
    }
}

/// A text without dots in front.
pub open spec fn without_dots(s: Seq<char>) -> Seq<char>
    decreases s.len(),
{
    if s.len() > 0 && s[0] == '.' {
        without_dots(s.subrange(1, s.len() as int))
    } else {
        s
    }
}

/// An extension as it is compared.
pub open spec fn extension_named(value: Seq<char>) -> Seq<char> {
    to_ascii_lower(without_dots(trim(value)))
}

/// Whether a text can be an extension.
pub open spec fn is_extension(value: Seq<char>) -> bool {
    value.len() > 0 && !value.contains('/') && !value.contains('\\')
}

/// The first `n` extensions, or what is wrong with the first that is none.
pub open spec fn extension_set(values: Seq<Seq<char>>, n: int) -> Result<Set<Seq<char>>, Seq<char>>
    decreases n,
{
    if n <= 0 {
        Ok(Set::empty())
    } else {
        match extension_set(values, n - 1) {
            Err(message) => Err(message),
            Ok(set) => {
                let value = extension_named(values[n - 1]);
                if is_extension(value) {
                    Ok(set.insert(value))
                } else {
                    Err("invalid source extension "@ + debug_quoted(value))
                }
            },
        }
    }
}

/// The first `n` languages, or what is wrong with the first that is none.
pub open spec fn language_set(values: Seq<Seq<char>>, n: int) -> Result<Set<Seq<char>>, Seq<char>>
    decreases n,
{
    if n <= 0 {
        Ok(Set::empty())
    } else {
        match language_set(values, n - 1) {
            Err(message) => Err(message),
            Ok(set) => if language_named(values[n - 1]).len() == 0 {
                Err("source language cannot be empty"@)
            } else {
                Ok(set.insert(language_named(values[n - 1])))
            },
        }
    }
}

proof fn lemma_extension_error(values: Seq<Seq<char>>, n: int, m: int)
    requires
        n <= m,
        extension_set(values, n) is Err,
    ensures
        extension_set(values, m) == extension_set(values, n),
    decreases m - n,
{
    if n < m {
        lemma_extension_error(values, n, m - 1);
    }
}

proof fn lemma_language_error(values: Seq<Seq<char>>, n: int, m: int)
    requires
        n <= m,
        language_set(values, n) is Err,
    ensures
        language_set(values, m) == language_set(values, n),
    decreases m - n,
{
    if n < m {
        lemma_language_error(values, n, m - 1);
    }
}

/// An extension as it is compared.
fn extension_text(value: &str) -> (r: Vec<char>)
    ensures
        r@ == extension_named(value@),
{
    let mut rest = trimmed(&chars_of(value));
    let ghost start = rest@;
    while rest.len() > 0 && rest[0] == '.'
        invariant
            without_dots(rest@) == without_dots(start),
        decreases rest@.len(),
    {
        let next = slice_of(&rest, 1, rest.len());
        rest = next;
    }
    lower_ascii(&rest)
}

/// Whether a text can be an extension.
fn can_be_extension(value: &Vec<char>) -> (r: bool)
    ensures
        r == is_extension(value@),
{
    if value.len() == 0 {
        return false;
    }
    let mut i: usize = 0;
    while i < value.len()
        invariant
            i <= value@.len(),
            value@.len() > 0,
            forall|k: int| 0 <= k < i ==> #[trigger] value@[k] != '/' && value@[k] != '\\',
        decreases value@.len() - i,
    {
        if value[i] == '/' || value[i] == '\\' {
            assert(value@[i as int] == value[i as int]);
            return false;
        }
        i += 1;
    }
    true
}

/// The extensions that options name.
fn normalize_extensions(values: &Vec<String>) -> (r: Result<StringSet, String>)
    ensures
        outcome(r) == extension_set(values.deep_view(), values@.len() as int),
{
    let ghost all = values.deep_view();
    let mut set = StringSet::new();
    let mut i: usize = 0;
    while i < values.len()
        invariant
            i <= values@.len(),
            all == values.deep_view(),
            extension_set(all, i as int) == Ok::<Set<Seq<char>>, Seq<char>>(set@),
        decreases values@.len() - i,
    {
        assert(all[i as int] == values@[i as int]@);
        let value = extension_text(values[i].as_str());
        let text = string_of(&value);
        if !can_be_extension(&value) {
            let mut message = "invalid source extension ".to_owned();
            message.push_str(debug_text(text.as_str()).as_str());
            proof {
                lemma_extension_error(all, i + 1, all.len() as int);
            }
            return Err(message);
        }
        set.insert(text);
        i += 1;
    }
    Ok(set)
}

/// The languages that options name.
fn normalize_languages(values: &Vec<String>) -> (r: Result<StringSet, String>)
    ensures
        outcome(r) == language_set(values.deep_view(), values@.len() as int),
{
    let ghost all = values.deep_view();
    let mut set = StringSet::new();
    let mut i: usize = 0;
    while i < values.len()
        invariant
            i <= values@.len(),
            all == values.deep_view(),
            language_set(all, i as int) == Ok::<Set<Seq<char>>, Seq<char>>(set@),
        decreases values@.len() - i,
    {
        assert(all[i as int] == values@[i as int]@);
        let value = normalize_language(values[i].as_str());
        if chars_of(value.as_str()).len() == 0 {
            proof {
                lemma_language_error(all, i + 1, all.len() as int);
            }
            return Err("source language cannot be empty".to_owned());
        }
        set.insert(value);
        i += 1;
    }
    Ok(set)
}

/// The extension of a path as it is compared. A name such as `.env` counts as one.
pub open spec fn extension_of_path(path: Seq<char>) -> Option<Seq<char>> {
    match extension(path) {
        Some(ext) => Some(to_ascii_lower(ext)),
        None => match file_name(path) {
            None => None,
            Some(name) => {
                let rest = name.subrange(1, name.len() as int);
                if name.len() > 1 && name[0] == '.' && !rest.contains('.') {
                    Some(to_ascii_lower(rest))
                } else {
                    None
                }
            },
        },
    }
}

/// The extension of a path as it is compared.
pub fn extension_for_path(path: &str) -> (r: Option<String>)
    ensures
        r.deep_view() == extension_of_path(path@),
{
    match extension_of(path) {
        Some(ext) => Some(string_of(&lower_ascii(&chars_of(ext.as_str())))),
        None => match file_name_of(path) {
            None => None,
            Some(name) => {
                if name.len() <= 1 || name[0] != '.' {
                    return None;
                }
                let rest = slice_of(&name, 1, name.len());
                let mut i: usize = 0;
                while i < rest.len()
                    invariant
                        i <= rest@.len(),
                        extension(path@) is None,
                        file_name(path@) == Some(name@),
                        name@.len() > 1,
                        rest@ == name@.subrange(1, name@.len() as int),
                        forall|k: int| 0 <= k < i ==> #[trigger] rest@[k] != '.',
                    decreases rest@.len() - i,
                {
                    if rest[i] == '.' {
                        assert(rest@[i as int] == '.');
                        return None;
                    }
                    i += 1;
                }
                assert(!rest@.contains('.'));
                Some(string_of(&lower_ascii(&rest)))
            },
        },
    }
}

/// The language that a path stands for.
pub open spec fn language_of_path(path: Seq<char>) -> Option<Seq<char>> {
    match extension(path) {
        None => None,
        Some(e) => if e == "rs"@ {
            Some("rust"@)
        } else if e == "js"@ || e == "mjs"@ || e == "cjs"@ {
            Some("javascript"@)
        } else if e == "jsx"@ {
            Some("jsx"@)
        } else if e == "ts"@ || e == "mts"@ || e == "cts"@ {
            Some("typescript"@)
        } else if e == "tsx"@ {
            Some("tsx"@)
        } else if e == "py"@ {
            Some("python"@)
        } else if e == "sh"@ || e == "bash"@ || e == "zsh"@ {
            Some("bash"@)
        } else if e == "md"@ {
            Some("markdown"@)
        } else if e == "yaml"@ || e == "yml"@ {
            Some("yaml"@)
        } else if e == "json"@ {
            Some("json"@)
        } else if e == "toml"@ {
            Some("toml"@)
        } else if e == "lean"@ {
            Some("lean"@)
        } else if e == "tla"@ {
            Some("tla"@)
        } else if e == "sol"@ {
            Some("solidity"@)
        } else {
            None
        },
    }
}

/// The language that a path stands for.
pub fn language_for_path(path: &str) -> (r: Option<String>)
    ensures
        r.deep_view() == language_of_path(path@),
{
    let ext = match extension_of(path) {
        None => {
            return None;
        },
        Some(ext) => ext,
    };
    let e = ext.as_str();
    if same_text(e, "rs") {
        Some("rust".to_owned())
    } else if same_text(e, "js") || same_text(e, "mjs") || same_text(e, "cjs") {
        Some("javascript".to_owned())
    } else if same_text(e, "jsx") {
        Some("jsx".to_owned())
    } else if same_text(e, "ts") || same_text(e, "mts") || same_text(e, "cts") {
        Some("typescript".to_owned())
    } else if same_text(e, "tsx") {
        Some("tsx".to_owned())
    } else if same_text(e, "py") {
        Some("python".to_owned())
    } else if same_text(e, "sh") || same_text(e, "bash") || same_text(e, "zsh") {
        Some("bash".to_owned())
    } else if same_text(e, "md") {
        Some("markdown".to_owned())
    } else if same_text(e, "yaml") || same_text(e, "yml") {
        Some("yaml".to_owned())
    } else if same_text(e, "json") {
        Some("json".to_owned())
    } else if same_text(e, "toml") {
        Some("toml".to_owned())
    } else if same_text(e, "lean") {
        Some("lean".to_owned())
    } else if same_text(e, "tla") {
        Some("tla".to_owned())
    } else if same_text(e, "sol") {
        Some("solidity".to_owned())
    } else {
        None
    }
}

/// What is wrong with the first `n` patterns of an option.
pub open spec fn option_globs_problem(globs: Seq<Seq<char>>, option: Seq<char>, n: int) -> Option<
    Seq<char>,
>
    decreases n,
{
    if n <= 0 {
        None
    } else {
        match option_globs_problem(globs, option, n - 1) {
            Some(message) => Some(message),
            None => if is_blank(globs[n - 1]) {
                Some(option + " cannot be empty"@)
            } else {
                match glob_problem(globs[n - 1]) {
                    None => None,
                    Some(reason) => Some(
                        "invalid "@ + option + " glob "@ + debug_quoted(globs[n - 1]) + ": "@
                            + reason,
                    ),
                }
            },
        }
    }
}

/// What is wrong with the patterns of an option.
pub open spec fn filter_problem(globs: Seq<Seq<char>>, option: Seq<char>) -> Option<Seq<char>> {
    match option_globs_problem(globs, option, globs.len() as int) {
        Some(message) => Some(message),
        None => match set_problem(globs) {
            None => None,
            Some(reason) => Some("failed to compile "@ + option + " globs"@ + ": "@ + reason),
        },
    }
}

proof fn lemma_option_globs_problem(globs: Seq<Seq<char>>, option: Seq<char>, n: int, m: int)
    requires
        n <= m,
        option_globs_problem(globs, option, n) is Some,
    ensures
        option_globs_problem(globs, option, m) == option_globs_problem(globs, option, n),
    decreases m - n,
{
    if n < m {
        lemma_option_globs_problem(globs, option, n, m - 1);
    }
}

/// The set of the patterns of an option.
fn compile_filter(patterns: &Vec<String>, option: &str) -> (r: Result<globset::GlobSet, String>)
    ensures
        match r {
            Ok(set) => filter_problem(patterns.deep_view(), option@) is None && set_globs(set)
                == patterns.deep_view(),
            Err(message) => filter_problem(patterns.deep_view(), option@) == Some(message@),
        },
{
    let ghost all = patterns.deep_view();
    let mut builder = new_builder();
    let mut i: usize = 0;
    assert(all.take(0) =~= seq![]);
    while i < patterns.len()
        invariant
            i <= patterns@.len(),
            all == patterns.deep_view(),
            builder_globs(builder) == all.take(i as int),
            option_globs_problem(all, option@, i as int) is None,
        decreases patterns@.len() - i,
    {
        assert(all[i as int] == patterns@[i as int]@);
        if blank(patterns[i].as_str()) {
            let mut message = option.to_owned();
            message.push_str(" cannot be empty");
            proof {
                lemma_option_globs_problem(all, option@, i + 1, all.len() as int);
            }
            return Err(message);
        }
        match read_glob(patterns[i].as_str()) {
            Ok(glob) => {
                add_glob(&mut builder, glob);
            },
            Err(reason) => {
                let mut message = "invalid ".to_owned();
                message.push_str(option);
                message.push_str(" glob ");
                message.push_str(debug_text(patterns[i].as_str()).as_str());
                message.push_str(": ");
                message.push_str(reason.as_str());
                proof {
                    lemma_option_globs_problem(all, option@, i + 1, all.len() as int);
                }
                return Err(message);
            },
        }
        assert(all.take(i + 1) =~= all.take(i as int).push(all[i as int]));
        i += 1;
    }
    assert(all.take(all.len() as int) =~= all);
    match build_set(&builder) {
        Ok(set) => Ok(set),
        Err(reason) => {
            let mut message = "failed to compile ".to_owned();
            message.push_str(option);
            message.push_str(" globs");
            message.push_str(": ");
            message.push_str(reason.as_str());
            Err(message)
        },
    }
}

/// Which source is printed, in mathematical terms.
#[verifier::ext_equal]
pub ghost struct SourceFiltersView {
    pub includes: Seq<Seq<char>>,
    pub excludes: Seq<Seq<char>>,
    pub extensions: Set<Seq<char>>,
    pub excluded_extensions: Set<Seq<char>>,
    pub languages: Set<Seq<char>>,
    pub excluded_languages: Set<Seq<char>>,
}

/// Which source options ask for, or what is wrong with them.
pub open spec fn filters_of(options: RenderOptionsView) -> Result<SourceFiltersView, Seq<char>> {
    match filter_problem(options.source_includes, "--source-include"@) {
        Some(message) => Err(message),
        None => match filter_problem(options.source_excludes, "--source-exclude"@) {
            Some(message) => Err(message),
            None => match extension_set(
                options.source_extensions,
                options.source_extensions.len() as int,
            ) {
                Err(message) => Err(message),
                Ok(extensions) => match extension_set(
                    options.excluded_source_extensions,
                    options.excluded_source_extensions.len() as int,
                ) {
                    Err(message) => Err(message),
                    Ok(excluded_extensions) => match language_set(
                        options.source_languages,
                        options.source_languages.len() as int,
                    ) {
                        Err(message) => Err(message),
                        Ok(languages) => match language_set(
                            options.excluded_source_languages,
                            options.excluded_source_languages.len() as int,
                        ) {
                            Err(message) => Err(message),
                            Ok(excluded_languages) => Ok(
                                SourceFiltersView {
                                    includes: options.source_includes,
                                    excludes: options.source_excludes,
                                    extensions,
                                    excluded_extensions,
                                    languages,
                                    excluded_languages,
                                },
                            ),
                        },
                    },
                },
            },
        },
    }
}

/// Which source is printed.
pub struct SourceFilters {
    /// The files to print where there are patterns of such files.
    pub includes: globset::GlobSet,
    /// Whether there are patterns of files to print.
    pub has_includes: bool,
    /// The files to leave out.
    pub excludes: globset::GlobSet,
    /// The extensions to print; all of them where empty.
    pub extensions: StringSet,
    /// The extensions to leave out.
    pub excluded_extensions: StringSet,
    /// The languages to print; all of them where empty.
    pub languages: StringSet,
    /// The languages to leave out.
    pub excluded_languages: StringSet,
}

impl View for SourceFilters {
    type V = SourceFiltersView;

    open spec fn view(&self) -> SourceFiltersView {
        SourceFiltersView {
            includes: set_globs(self.includes),
            excludes: set_globs(self.excludes),
            extensions: self.extensions@,
            excluded_extensions: self.excluded_extensions@,
            languages: self.languages@,
            excluded_languages: self.excluded_languages@,
        }
    }
}

impl DeepView for SourceFilters {
    type V = SourceFiltersView;

    open spec fn deep_view(&self) -> SourceFiltersView {
        self@
    }
}

impl SourceFilters {
    /// Whether it is told rightly that there are patterns of files to print.
    pub open spec fn wf(&self) -> bool {
        self.has_includes == (self@.includes.len() > 0)
    }
}

/// Whether the source of a path is printed.
pub open spec fn is_allowed(
    filters: SourceFiltersView,
    path: Seq<char>,
    language: Option<Seq<char>>,
) -> bool {
    let ext = extension_of_path(path);
    &&& filters.includes.len() == 0 || one_matches(filters.includes, path)
    &&& !one_matches(filters.excludes, path)
    &&& filters.extensions == Set::<Seq<char>>::empty() || (ext is Some
        && filters.extensions.contains(ext->0))
    &&& !(ext is Some && filters.excluded_extensions.contains(ext->0))
    &&& filters.languages == Set::<Seq<char>>::empty() || (language is Some
        && filters.languages.contains(language_named(language->0)))
    &&& !(language is Some && filters.excluded_languages.contains(language_named(language->0)))
}

impl SourceFilters {
    /// Which source options ask for.
    pub fn new(options: &RenderOptions) -> (r: Result<SourceFilters, String>)
        ensures
            outcome(r) == filters_of(options@),
            r matches Ok(filters) ==> filters.wf(),
    {
        let includes = match compile_filter(&options.source_includes, "--source-include") {
            Ok(set) => set,
            Err(message) => {
                return Err(message);
            },
        };
        let excludes = match compile_filter(&options.source_excludes, "--source-exclude") {
            Ok(set) => set,
            Err(message) => {
                return Err(message);
            },
        };
        let extensions = match normalize_extensions(&options.source_extensions) {
            Ok(set) => set,
            Err(message) => {
                return Err(message);
            },
        };
        let excluded_extensions = match normalize_extensions(&options.excluded_source_extensions) {
            Ok(set) => set,
            Err(message) => {
                return Err(message);
            },
        };
        let languages = match normalize_languages(&options.source_languages) {
            Ok(set) => set,
            Err(message) => {
                return Err(message);
            },
        };
        let excluded_languages = match normalize_languages(&options.excluded_source_languages) {
            Ok(set) => set,
            Err(message) => {
                return Err(message);
            },
        };
        let has_includes = options.source_includes.len() > 0;
        assert(options.source_includes@.len() == options.source_includes.deep_view().len());
        Ok(
            SourceFilters {
                includes,
                has_includes,
                excludes,
                extensions,
                excluded_extensions,
                languages,
                excluded_languages,
            },
        )
    }

    /// Whether the source of a path is printed.
    pub fn allows(&self, path: &str, language: &Option<String>) -> (r: bool)
        requires
            self.wf(),
        ensures
            r == is_allowed(self@, path@, language.deep_view()),
    {
        if (self.has_includes && !set_matches(&self.includes, path)) || set_matches(
            &self.excludes,
            path,
        ) {
            return false;
        }
        match extension_for_path(path) {
            None => {
                if !self.extensions.is_empty() {
                    return false;
                }
            },
            Some(ext) => {
                if (!self.extensions.is_empty() && !self.extensions.contains(ext.as_str()))
                    || self.excluded_extensions.contains(ext.as_str()) {
                    return false;
                }
            },
        }
        match language {
            None => self.languages.is_empty(),
            Some(language) => {
                let name = normalize_language(language.as_str());
                (self.languages.is_empty() || self.languages.contains(name.as_str()))
                    && !self.excluded_languages.contains(name.as_str())
            },
        }
    }
}

/// Lines of a file that are to be printed.
#[derive(Debug, Clone)]
pub struct Request {
    /// The file.
    pub path: String,
    /// The first line.
    pub start: u32,
    /// The last line.
    pub end: u32,
    /// How much they matter: less is more.
    pub priority: u8,
    /// The order among those that matter as much.
    pub order: usize,
    /// The language.
    pub language: Option<String>,
    /// The anchors that they stand for.
    pub anchor_ids: StringSet,
    /// Why they are printed.
    pub references: StringSet,
    /// Whether a search found them.
    pub matched: bool,
}

/// The mathematical content of a [`Request`].
#[verifier::ext_equal]
pub ghost struct RequestView {
    pub path: Seq<char>,
    pub start: u32,
    pub end: u32,
    pub priority: u8,
    pub order: usize,
    pub language: Option<Seq<char>>,
    pub anchor_ids: Set<Seq<char>>,
    pub references: Set<Seq<char>>,
    pub matched: bool,
}

impl View for Request {
    type V = RequestView;

    open spec fn view(&self) -> RequestView {
        RequestView {
            path: self.path.deep_view(),
            start: self.start.deep_view(),
            end: self.end.deep_view(),
            priority: self.priority.deep_view(),
            order: self.order.deep_view(),
            language: self.language.deep_view(),
            anchor_ids: self.anchor_ids.deep_view(),
            references: self.references.deep_view(),
            matched: self.matched.deep_view(),
        }
    }
}

impl DeepView for Request {
    type V = RequestView;

    open spec fn deep_view(&self) -> RequestView {
        self@
    }
}

impl Duplicate for Request {
    fn duplicate(&self) -> (r: Self) {
        Request {
            path: self.path.duplicate(),
            start: self.start,
            end: self.end,
            priority: self.priority,
            order: self.order,
            language: self.language.duplicate(),
            anchor_ids: self.anchor_ids.duplicate(),
            references: self.references.duplicate(),
            matched: self.matched,
        }
    }
}

/// Lines of an anchor that are left out.
#[derive(Debug, Clone)]
pub struct FilteredRange {
    /// The file.
    pub path: String,
    /// The anchor.
    pub anchor: String,
    /// The first line.
    pub start: u32,
    /// The last line.
    pub end: u32,
}

/// The mathematical content of a [`FilteredRange`].
#[verifier::ext_equal]
pub ghost struct FilteredRangeView {
    pub path: Seq<char>,
    pub anchor: Seq<char>,
    pub start: u32,
    pub end: u32,
}

impl View for FilteredRange {
    type V = FilteredRangeView;

    open spec fn view(&self) -> FilteredRangeView {
        FilteredRangeView {
            path: self.path.deep_view(),
            anchor: self.anchor.deep_view(),
            start: self.start.deep_view(),
            end: self.end.deep_view(),
        }
    }
}

impl DeepView for FilteredRange {
    type V = FilteredRangeView;

    open spec fn deep_view(&self) -> FilteredRangeView {
        self@
    }
}

impl Duplicate for FilteredRange {
    fn duplicate(&self) -> (r: Self) {
        FilteredRange {
            path: self.path.duplicate(),
            anchor: self.anchor.duplicate(),
            start: self.start,
            end: self.end,
        }
    }
}

/// Lines of a file that hold a test.
#[derive(Debug, Clone)]
pub struct TestSection {
    /// The file.
    pub path: String,
    /// The first line.
    pub start: u32,
    /// The last line.
    pub end: u32,
}

/// The mathematical content of a [`TestSection`].
#[verifier::ext_equal]
pub ghost struct TestSectionView {
    pub path: Seq<char>,
    pub start: u32,
    pub end: u32,
}

impl View for TestSection {
    type V = TestSectionView;

    open spec fn view(&self) -> TestSectionView {
        TestSectionView {
            path: self.path.deep_view(),
            start: self.start.deep_view(),
            end: self.end.deep_view(),
        }
    }
}

impl DeepView for TestSection {
    type V = TestSectionView;

    open spec fn deep_view(&self) -> TestSectionView {
        self@
    }
}

impl Duplicate for TestSection {
    fn duplicate(&self) -> (r: Self) {
        TestSection {
            path: self.path.duplicate(),
            start: self.start,
            end: self.end,
        }
    }
}

/// A line some lines before another, but not before the first.
pub open spec fn line_before(line: u32, lines: u32) -> u32 {
    if line <= lines {
        1
    } else {
        (line - lines) as u32
    }
}

/// A line some lines behind another, as far as lines are counted.
pub open spec fn line_after(line: u32, lines: u32) -> u32 {
    if line + lines > u32::MAX {
        u32::MAX
    } else {
        (line + lines) as u32
    }
}

/// A line some lines before another, but not before the first.
fn lines_before(line: u32, lines: u32) -> (r: u32)
    ensures
        r == line_before(line, lines),
{
    if line <= lines {
        1
    } else {
        line - lines
    }
}

/// A line some lines behind another, as far as lines are counted.
fn lines_after(line: u32, lines: u32) -> (r: u32)
    ensures
        r == line_after(line, lines),
{
    if line as u64 + lines as u64 > u32::MAX as u64 {
        u32::MAX
    } else {
        line + lines
    }
}

/// The lines that a hit of a search asks for.
pub open spec fn hit_request(hit: SearchHitView, order: int, context: u32) -> RequestView {
    RequestView {
        path: hit.path,
        start: line_before(hit.line_start, context),
        end: line_after(hit.line_end, context),
        priority: 0,
        order: order as usize,
        language: language_of_path(hit.path),
        anchor_ids: hit.anchors.to_set(),
        references: Set::empty().insert("search"@),
        matched: true,
    }
}

/// The lines that the first `n` hits of a search ask for.
pub open spec fn hit_requests(hits: Seq<SearchHitView>, context: u32, n: int) -> Seq<RequestView>
    decreases n,
{
    if n <= 0 {
        seq![]
    } else {
        hit_requests(hits, context, n - 1).push(hit_request(hits[n - 1], n - 1, context))
    }
}

/// The lines of a location, with some around them. A file that is watched as a whole is
/// wanted as a whole.
pub open spec fn location_lines(location: LocationView, context: u32) -> (u32, u32) {
    if location.watch == Some(WatchMode::File) {
        (1, u32::MAX)
    } else {
        (
            line_before(
                match location.line_start {
                    Some(line) => line,
                    None => 1,
                },
                context,
            ),
            line_after(
                match location.line_end {
                    Some(line) => line,
                    None => match location.line_start {
                        Some(line) => line,
                        None => u32::MAX,
                    },
                },
                context,
            ),
        )
    }
}

/// The requests with the lines of an anchor, where it has some and they are wanted.
pub open spec fn with_request(
    requests: Seq<RequestView>,
    anchor: AffectedAnchorView,
    priority: u8,
    order: usize,
    direct: bool,
    reference: Seq<char>,
    options: RenderOptionsView,
) -> Seq<RequestView> {
    let location = match anchor.anchor {
        Some(value) => value.location,
        None => None,
    };
    if (options.source == ContextSource::Focused && priority != 0) || (options.source
        == ContextSource::Direct && !direct) || location is None {
        requests
    } else {
        let place = location->0;
        let (start, end) = location_lines(place, options.context_lines);
        requests.push(
            RequestView {
                path: place.path,
                start,
                end,
                priority,
                order,
                language: match place.language {
                    Some(language) => Some(language),
                    None => language_of_path(place.path),
                },
                anchor_ids: Set::empty().insert(anchor.id),
                references: Set::empty().insert(reference),
                matched: false,
            },
        )
    }
}

/// How an anchor is spoken of in a strand.
pub open spec fn member_reference(strand: Seq<char>, anchor: AffectedAnchorView) -> Seq<char> {
    strand + "/"@ + (match anchor.role {
        Some(role) => role,
        None => "member"@,
    }) + ":"@ + anchor.id
}

/// How much the lines of an anchor matter: those asked for most, then those that changed,
/// then those of strands that changed.
pub open spec fn anchor_priority(focused: bool, direct: bool, strand_direct: bool) -> u8 {
    if focused {
        0
    } else if direct {
        1
    } else if strand_direct {
        2
    } else {
        3
    }
}

/// The order in which an anchor was asked for.
pub open spec fn focus_order(options: RenderOptionsView, id: Seq<char>) -> usize {
    if options.focused_anchors.contains_key(id) {
        options.focused_anchors[id]
    } else {
        usize::MAX
    }
}

/// The requests with the lines of the first `n` anchors of a strand.
pub open spec fn with_strand_requests(
    requests: Seq<RequestView>,
    strand: AffectedStrandView,
    options: RenderOptionsView,
    n: int,
) -> Seq<RequestView>
    decreases n,
{
    if n <= 0 {
        requests
    } else {
        let anchor = strand.anchors[n - 1];
        with_request(
            with_strand_requests(requests, strand, options, n - 1),
            anchor,
            anchor_priority(
                options.focused_anchors.contains_key(anchor.id),
                anchor.direct,
                strand.direct,
            ),
            focus_order(options, anchor.id),
            anchor.direct || strand.direct,
            member_reference(strand.id, anchor),
            options,
        )
    }
}

/// The requests with the lines of the first `n` strands.
pub open spec fn with_all_strand_requests(
    requests: Seq<RequestView>,
    strands: Seq<AffectedStrandView>,
    options: RenderOptionsView,
    n: int,
) -> Seq<RequestView>
    decreases n,
{
    if n <= 0 {
        requests
    } else {
        with_strand_requests(
            with_all_strand_requests(requests, strands, options, n - 1),
            strands[n - 1],
            options,
            strands[n - 1].anchors.len() as int,
        )
    }
}

/// The requests with the lines of the first `n` anchors of no strand.
pub open spec fn with_related_requests(
    requests: Seq<RequestView>,
    anchors: Seq<AffectedAnchorView>,
    options: RenderOptionsView,
    n: int,
) -> Seq<RequestView>
    decreases n,
{
    if n <= 0 {
        requests
    } else {
        let anchor = anchors[n - 1];
        with_request(
            with_related_requests(requests, anchors, options, n - 1),
            anchor,
            anchor_priority(
                options.focused_anchors.contains_key(anchor.id),
                anchor.direct,
                false,
            ),
            focus_order(options, anchor.id),
            anchor.direct,
            "related:"@ + anchor.id,
            options,
        )
    }
}

/// Whether a part of a file is wanted.
pub open spec fn is_bounded(requests: Seq<RequestView>, path: Seq<char>) -> bool {
    exists|i: int|
        0 <= i < requests.len() && (#[trigger] requests[i]).end != u32::MAX && requests[i].path
            == path
}

/// The first `n` requests without those for whole files of which a part is wanted.
pub open spec fn without_redundant(requests: Seq<RequestView>, n: int) -> Seq<RequestView>
    decreases n,
{
    if n <= 0 {
        seq![]
    } else if requests[n - 1].end == u32::MAX && is_bounded(requests, requests[n - 1].path) {
        without_redundant(requests, n - 1)
    } else {
        without_redundant(requests, n - 1).push(requests[n - 1])
    }
}

/// A list with one more item, unless it is there.
pub open spec fn with_new<T>(list: Seq<T>, item: T) -> Seq<T> {
    if list.contains(item) {
        list
    } else {
        list.push(item)
    }
}

/// What is left out with the first `n` anchors of a request.
pub open spec fn with_filtered(
    list: Seq<FilteredRangeView>,
    request: RequestView,
    ids: Seq<Seq<char>>,
    n: int,
) -> Seq<FilteredRangeView>
    decreases n,
{
    if n <= 0 {
        list
    } else {
        with_new(
            with_filtered(list, request, ids, n - 1),
            FilteredRangeView {
                path: request.path,
                anchor: ids[n - 1],
                start: request.start,
                end: request.end,
            },
        )
    }
}

/// The requests among the first `n` whose source is printed, and what is left out.
pub open spec fn allowed_requests(
    requests: Seq<RequestView>,
    filters: SourceFiltersView,
    n: int,
) -> (Seq<RequestView>, Seq<FilteredRangeView>)
    decreases n,
{
    if n <= 0 {
        (seq![], seq![])
    } else {
        let before = allowed_requests(requests, filters, n - 1);
        let request = requests[n - 1];
        if is_allowed(filters, request.path, request.language) {
            (before.0.push(request), before.1)
        } else {
            let ids = ordered(request.anchor_ids);
            (before.0, with_filtered(before.1, request, ids, ids.len() as int))
        }
    }
}

/// All lines that are wanted, before any are left out.
pub open spec fn wanted_requests(packet: ContextPacketView, options: RenderOptionsView) -> Seq<
    RequestView,
> {
    let hits = if options.source == ContextSource::Direct || options.source == ContextSource::All {
        hit_requests(
            options.source_matches,
            options.context_lines,
            options.source_matches.len() as int,
        )
    } else {
        seq![]
    };
    with_related_requests(
        with_all_strand_requests(hits, packet.strands, options, packet.strands.len() as int),
        packet.related_anchors,
        options,
        packet.related_anchors.len() as int,
    )
}

/// The lines that are to be printed, and what is left out.
pub open spec fn requests_of(
    packet: ContextPacketView,
    options: RenderOptionsView,
    filters: SourceFiltersView,
) -> (Seq<RequestView>, Seq<FilteredRangeView>) {
    if options.source == ContextSource::Nothing {
        (seq![], seq![])
    } else {
        let wanted = wanted_requests(packet, options);
        let bounded = without_redundant(wanted, wanted.len() as int);
        allowed_requests(bounded, filters, bounded.len() as int)
    }
}

/// A set of one text.
fn set_of_one(item: &str) -> (r: StringSet)
    ensures
        r@ == Set::<Seq<char>>::empty().insert(item@),
{
    let mut set = StringSet::new();
    set.insert(item.to_owned());
    set
}

/// The texts of a list.
fn set_of(items: &Vec<String>) -> (r: StringSet)
    ensures
        r@ == items.deep_view().to_set(),
{
    let ghost all = items.deep_view();
    let mut set = StringSet::new();
    let mut i: usize = 0;
    while i < items.len()
        invariant
            i <= items@.len(),
            all == items.deep_view(),
            forall|x: Seq<char>| #[trigger]
                set@.contains(x) ==> all.contains(x),
            forall|k: int| 0 <= k < i ==> set@.contains(#[trigger] all[k]),
        decreases items@.len() - i,
    {
        assert(all[i as int] == items@[i as int]@);
        set.insert(items[i].clone());
        i += 1;
    }
    proof {
        assert forall|x: Seq<char>| all.contains(x) implies #[trigger] set@.contains(x) by {
            let k = all.index_of(x);
            assert(all[k] == x);
        }
        assert(set@ =~= all.to_set());
    }
    set
}

/// The lines that hits of a search ask for.
fn requests_of_hits(hits: &Vec<SearchHit>, context: u32) -> (r: Vec<Request>)
    ensures
        r.deep_view() == hit_requests(hits.deep_view(), context, hits@.len() as int),
{
    let ghost all = hits.deep_view();
    let mut out: Vec<Request> = Vec::new();
    let mut i: usize = 0;
    assert(out.deep_view() =~= seq![]);
    while i < hits.len()
        invariant
            i <= hits@.len(),
            all == hits.deep_view(),
            out.deep_view() == hit_requests(all, context, i as int),
        decreases hits@.len() - i,
    {
        let hit = &hits[i];
        assert(all[i as int] == hit@);
        push_item(
            &mut out,
            Request {
                path: hit.path.clone(),
                start: lines_before(hit.line_start, context),
                end: lines_after(hit.line_end, context),
                priority: 0,
                order: i,
                language: language_for_path(hit.path.as_str()),
                anchor_ids: set_of(&hit.anchors),
                references: set_of_one("search"),
                matched: true,
            },
        );
        i += 1;
    }
    out
}

/// The lines of a location, with some around them.
fn lines_of_location(location: &Location, context: u32) -> (r: (u32, u32))
    ensures
        r == location_lines(location@, context),
{
    if location.watch == Some(WatchMode::File) {
        return (1, u32::MAX);
    }
    let start: u32 = match location.line_start {
        Some(line) => line,
        None => 1,
    };
    let end: u32 = match location.line_end {
        Some(line) => line,
        None => match location.line_start {
            Some(line) => line,
            None => u32::MAX,
        },
    };
    (lines_before(start, context), lines_after(end, context))
}

/// Adds the lines of an anchor, where it has some and they are wanted.
fn push_request(
    requests: &mut Vec<Request>,
    anchor: &AffectedAnchor,
    priority: u8,
    order: usize,
    direct: bool,
    reference: &str,
    options: &RenderOptions,
)
    ensures
        final(requests).deep_view() == with_request(
            old(requests).deep_view(),
            anchor@,
            priority,
            order,
            direct,
            reference@,
            options@,
        ),
{
    if (options.source == ContextSource::Focused && priority != 0) || (options.source
        == ContextSource::Direct && !direct) {
        return;
    }
    let value = match &anchor.anchor {
        None => {
            return;
        },
        Some(value) => value,
    };
    let location = match &value.location {
        None => {
            return;
        },
        Some(location) => location,
    };
    let (start, end) = lines_of_location(location, options.context_lines);
    let language = match &location.language {
        Some(language) => Some(language.clone()),
        None => language_for_path(location.path.as_str()),
    };
    push_item(
        requests,
        Request {
            path: location.path.clone(),
            start,
            end,
            priority,
            order,
            language,
            anchor_ids: set_of_one(anchor.id.as_str()),
            references: set_of_one(reference),
            matched: false,
        },
    );
}

/// How much the lines of an anchor matter.
fn priority_of(focused: bool, direct: bool, strand_direct: bool) -> (r: u8)
    ensures
        r == anchor_priority(focused, direct, strand_direct),
{
    if focused {
        0
    } else if direct {
        1
    } else if strand_direct {
        2
    } else {
        3
    }
}

/// Adds the lines of the anchors of a strand.
fn push_strand(requests: &mut Vec<Request>, strand: &AffectedStrand, options: &RenderOptions)
    ensures
        final(requests).deep_view() == with_strand_requests(
            old(requests).deep_view(),
            strand@,
            options@,
            strand@.anchors.len() as int,
        ),
{
    let ghost start = requests.deep_view();
    let mut i: usize = 0;
    while i < strand.anchors.len()
        invariant
            i <= strand.anchors@.len(),
            requests.deep_view() == with_strand_requests(start, strand@, options@, i as int),
        decreases strand.anchors@.len() - i,
    {
        let anchor = &strand.anchors[i];
        assert(strand@.anchors[i as int] == anchor@);
        let (focused, order) = match options.focused_anchors.get(anchor.id.as_str()) {
            Some(order) => (true, *order),
            None => (false, usize::MAX),
        };
        let mut reference = strand.id.clone();
        reference.push_str("/");
        match &anchor.role {
            Some(role) => reference.push_str(role.as_str()),
            None => reference.push_str("member"),
        }
        reference.push_str(":");
        reference.push_str(anchor.id.as_str());
        push_request(
            requests,
            anchor,
            priority_of(focused, anchor.direct, strand.direct),
            order,
            anchor.direct || strand.direct,
            reference.as_str(),
            options,
        );
        i += 1;
    }
}

/// Adds the lines of an anchor of no strand.
fn push_related(requests: &mut Vec<Request>, anchors: &Vec<AffectedAnchor>, options: &RenderOptions)
    ensures
        final(requests).deep_view() == with_related_requests(
            old(requests).deep_view(),
            anchors.deep_view(),
            options@,
            anchors@.len() as int,
        ),
{
    let ghost start = requests.deep_view();
    let ghost all = anchors.deep_view();
    let mut i: usize = 0;
    while i < anchors.len()
        invariant
            i <= anchors@.len(),
            all == anchors.deep_view(),
            requests.deep_view() == with_related_requests(start, all, options@, i as int),
        decreases anchors@.len() - i,
    {
        let anchor = &anchors[i];
        assert(all[i as int] == anchor@);
        let (focused, order) = match options.focused_anchors.get(anchor.id.as_str()) {
            Some(order) => (true, *order),
            None => (false, usize::MAX),
        };
        let mut reference = "related:".to_owned();
        reference.push_str(anchor.id.as_str());
        push_request(
            requests,
            anchor,
            priority_of(focused, anchor.direct, false),
            order,
            anchor.direct,
            reference.as_str(),
            options,
        );
        i += 1;
    }
}

/// Whether a part of a file is wanted.
fn part_is_wanted(requests: &Vec<Request>, path: &str) -> (r: bool)
    ensures
        r == is_bounded(requests.deep_view(), path@),
{
    let ghost all = requests.deep_view();
    let mut i: usize = 0;
    while i < requests.len()
        invariant
            i <= requests@.len(),
            all == requests.deep_view(),
            forall|k: int|
                0 <= k < i ==> !((#[trigger] all[k]).end != u32::MAX && all[k].path == path@),
        decreases requests@.len() - i,
    {
        assert(all[i as int] == requests@[i as int]@);
        if requests[i].end != u32::MAX && same_text(requests[i].path.as_str(), path) {
            return true;
        }
        i += 1;
    }
    false
}

/// The requests without those for whole files of which a part is wanted.
fn suppress_redundant_whole_files(requests: &Vec<Request>) -> (r: Vec<Request>)
    ensures
        r.deep_view() == without_redundant(requests.deep_view(), requests@.len() as int),
{
    let ghost all = requests.deep_view();
    let mut out: Vec<Request> = Vec::new();
    let mut i: usize = 0;
    assert(out.deep_view() =~= seq![]);
    while i < requests.len()
        invariant
            i <= requests@.len(),
            all == requests.deep_view(),
            out.deep_view() == without_redundant(all, i as int),
        decreases requests@.len() - i,
    {
        assert(all[i as int] == requests@[i as int]@);
        if requests[i].end != u32::MAX || !part_is_wanted(requests, requests[i].path.as_str()) {
            push_item(&mut out, requests[i].duplicate());
        }
        i += 1;
    }
    out
}

/// Adds lines of an anchor that are left out, unless they are there.
fn add_filtered(list: &mut Vec<FilteredRange>, item: FilteredRange)
    ensures
        final(list).deep_view() == with_new(old(list).deep_view(), item@),
{
    let ghost all = list.deep_view();
    let mut i: usize = 0;
    while i < list.len()
        invariant
            i <= list@.len(),
            list.deep_view() == all,
            all == old(list).deep_view(),
            forall|k: int| 0 <= k < i ==> #[trigger] all[k] != item@,
        decreases list@.len() - i,
    {
        assert(all[i as int] == list@[i as int]@);
        if same_text(list[i].path.as_str(), item.path.as_str()) && same_text(
            list[i].anchor.as_str(),
            item.anchor.as_str(),
        ) && list[i].start == item.start && list[i].end == item.end {
            assert(all[i as int] =~= item@);
            assert(all.contains(item@));
            return;
        }
        i += 1;
    }
    assert(!all.contains(item@));
    push_item(list, item);
}

/// The lines that are to be printed, and what is left out.
pub fn collect_requests(
    packet: &ContextPacket,
    options: &RenderOptions,
    filters: &SourceFilters,
) -> (r: (Vec<Request>, Vec<FilteredRange>))
    requires
        filters.wf(),
    ensures
        (r.0.deep_view(), r.1.deep_view()) == requests_of(packet@, options@, filters@),
{
    let mut kept: Vec<Request> = Vec::new();
    let mut filtered: Vec<FilteredRange> = Vec::new();
    assert(kept.deep_view() =~= seq![]);
    assert(filtered.deep_view() =~= seq![]);
    if options.source == ContextSource::Nothing {
        return (kept, filtered);
    }
    let mut requests = if options.source == ContextSource::Direct || options.source
        == ContextSource::All {
        requests_of_hits(&options.source_matches, options.context_lines)
    } else {
        let none: Vec<Request> = Vec::new();
        assert(none.deep_view() =~= seq![]);
        none
    };
    let ghost hits = requests.deep_view();
    assert(options.source_matches@.len() == options.source_matches.deep_view().len());
    assert(packet.related_anchors@.len() == packet.related_anchors.deep_view().len());
    let mut s: usize = 0;
    while s < packet.strands.len()
        invariant
            s <= packet.strands@.len(),
            requests.deep_view() == with_all_strand_requests(
                hits,
                packet@.strands,
                options@,
                s as int,
            ),
        decreases packet.strands@.len() - s,
    {
        assert(packet@.strands[s as int] == packet.strands@[s as int]@);
        push_strand(&mut requests, &packet.strands[s], options);
        s += 1;
    }
    push_related(&mut requests, &packet.related_anchors, options);
    assert(requests@.len() == requests.deep_view().len());
    assert(requests.deep_view() == wanted_requests(packet@, options@));
    let bounded = suppress_redundant_whole_files(&requests);
    let ghost all = bounded.deep_view();
    let mut i: usize = 0;
    while i < bounded.len()
        invariant
            i <= bounded@.len(),
            all == bounded.deep_view(),
            filters.wf(),
            (kept.deep_view(), filtered.deep_view()) == allowed_requests(all, filters@, i as int),
        decreases bounded@.len() - i,
    {
        let request = &bounded[i];
        assert(all[i as int] == request@);
        if filters.allows(request.path.as_str(), &request.language) {
            push_item(&mut kept, request.duplicate());
        } else {
            let n: usize = request.anchor_ids.len();
            let ghost ids = ordered(request@.anchor_ids);
            let ghost start = filtered.deep_view();
            let mut k: usize = 0;
            while k < n
                invariant
                    k <= n,
                    n == ordered(request@.anchor_ids).len(),
                    ids == ordered(request@.anchor_ids),
                    filtered.deep_view() == with_filtered(start, request@, ids, k as int),
                decreases n - k,
            {
                add_filtered(
                    &mut filtered,
                    FilteredRange {
                        path: request.path.clone(),
                        anchor: request.anchor_ids.item_at(k).clone(),
                        start: request.start,
                        end: request.end,
                    },
                );
                k += 1;
            }
        }
        i += 1;
    }
    (kept, filtered)
}

/// Lines of a file as they are printed.
#[derive(Debug, Clone)]
pub struct Excerpt {
    /// The file.
    pub path: String,
    /// The first line.
    pub start: u32,
    /// The last line.
    pub end: u32,
    /// How much they matter: less is more.
    pub priority: u8,
    /// The order among those that matter as much.
    pub order: usize,
    /// The language.
    pub language: Option<String>,
    /// The anchors that they stand for.
    pub anchor_ids: StringSet,
    /// Why they are printed.
    pub references: StringSet,
    /// The lines.
    pub source: String,
    /// Whether a search found them.
    pub matched: bool,
}

/// The mathematical content of a [`Excerpt`].
#[verifier::ext_equal]
pub ghost struct ExcerptView {
    pub path: Seq<char>,
    pub start: u32,
    pub end: u32,
    pub priority: u8,
    pub order: usize,
    pub language: Option<Seq<char>>,
    pub anchor_ids: Set<Seq<char>>,
    pub references: Set<Seq<char>>,
    pub source: Seq<char>,
    pub matched: bool,
}

impl View for Excerpt {
    type V = ExcerptView;

    open spec fn view(&self) -> ExcerptView {
        ExcerptView {
            path: self.path.deep_view(),
            start: self.start.deep_view(),
            end: self.end.deep_view(),
            priority: self.priority.deep_view(),
            order: self.order.deep_view(),
            language: self.language.deep_view(),
            anchor_ids: self.anchor_ids.deep_view(),
            references: self.references.deep_view(),
            source: self.source.deep_view(),
            matched: self.matched.deep_view(),
        }
    }
}

impl DeepView for Excerpt {
    type V = ExcerptView;

    open spec fn deep_view(&self) -> ExcerptView {
        self@
    }
}

impl Duplicate for Excerpt {
    fn duplicate(&self) -> (r: Self) {
        Excerpt {
            path: self.path.duplicate(),
            start: self.start,
            end: self.end,
            priority: self.priority,
            order: self.order,
            language: self.language.duplicate(),
            anchor_ids: self.anchor_ids.duplicate(),
            references: self.references.duplicate(),
            source: self.source.duplicate(),
            matched: self.matched,
        }
    }
}

/// The content of a file, or why it could not be read.
#[derive(Debug, Clone)]
pub enum FileContent {
    /// Its bytes.
    Bytes(Vec<u8>),
    /// Why it could not be read.
    Failed(String),
}

/// The mathematical content of a [`FileContent`].
#[verifier::ext_equal]
pub ghost enum FileContentView {
    Bytes(Seq<u8>),
    Failed(Seq<char>),
}

impl View for FileContent {
    type V = FileContentView;

    open spec fn view(&self) -> FileContentView {
        match self {
            FileContent::Bytes(bytes) => FileContentView::Bytes(bytes@),
            FileContent::Failed(message) => FileContentView::Failed(message@),
        }
    }
}

impl DeepView for FileContent {
    type V = FileContentView;

    open spec fn deep_view(&self) -> FileContentView {
        self@
    }
}

impl Duplicate for FileContent {
    fn duplicate(&self) -> (r: Self) {
        match self {
            FileContent::Bytes(bytes) => FileContent::Bytes(copy_bytes(bytes)),
            FileContent::Failed(message) => FileContent::Failed(message.clone()),
        }
    }
}

/// A copy of bytes.
fn copy_bytes(bytes: &Vec<u8>) -> (r: Vec<u8>)
    ensures
        r@ == bytes@,
{
    let mut out: Vec<u8> = Vec::new();
    let mut i: usize = 0;
    while i < bytes.len()
        invariant
            i <= bytes@.len(),
            out@ == bytes@.take(i as int),
        decreases bytes@.len() - i,
    {
        out.push(bytes[i]);
        assert(bytes@.take(i + 1) =~= bytes@.take(i as int).push(bytes@[i as int]));
        i += 1;
    }
    assert(bytes@.take(bytes@.len() as int) =~= bytes@);
    out
}

/// Whether a request comes before another: by how much it matters, then by order and lines.
pub open spec fn request_less(a: RequestView, b: RequestView) -> bool {
    if a.priority != b.priority {
        a.priority < b.priority
    } else if a.order != b.order {
        a.order < b.order
    } else if a.start != b.start {
        a.start < b.start
    } else {
        a.end < b.end
    }
}

/// Whether a request comes before another.
fn request_before(a: &Request, b: &Request) -> (r: bool)
    ensures
        r == request_less(a@, b@),
{
    if a.priority != b.priority {
        a.priority < b.priority
    } else if a.order != b.order {
        a.order < b.order
    } else if a.start != b.start {
        a.start < b.start
    } else {
        a.end < b.end
    }
}

/// A request put behind the last one that does not come after it.
pub open spec fn insert_request(sorted: Seq<RequestView>, x: RequestView) -> Seq<RequestView>
    decreases sorted.len(),
{
    if sorted.len() == 0 || !request_less(x, sorted.last()) {
        sorted.push(x)
    } else {
        insert_request(sorted.drop_last(), x).push(sorted.last())
    }
}

/// Requests in order; those that come neither before nor after each other stay as they were.
pub open spec fn sort_requests(all: Seq<RequestView>) -> Seq<RequestView>
    decreases all.len(),
{
    if all.len() == 0 {
        all
    } else {
        insert_request(sort_requests(all.drop_last()), all.last())
    }
}

proof fn lemma_insert_request(sorted: Seq<RequestView>, x: RequestView, at: int)
    requires
        0 <= at <= sorted.len(),
        forall|k: int| at <= k < sorted.len() ==> request_less(x, #[trigger] sorted[k]),
        at > 0 ==> !request_less(x, sorted[at - 1]),
    ensures
        insert_request(sorted, x) == sorted.insert(at, x),
    decreases sorted.len(),
{
    if at == sorted.len() {
        assert(sorted.insert(at, x) =~= sorted.push(x));
    } else {
        lemma_insert_request(sorted.drop_last(), x, at);
        assert(sorted.insert(at, x) =~= sorted.drop_last().insert(at, x).push(sorted.last()));
    }
}

/// Requests in order.
fn sorted_requests(all: &Vec<Request>) -> (r: Vec<Request>)
    ensures
        r.deep_view() == sort_requests(all.deep_view()),
{
    let mut out: Vec<Request> = Vec::new();
    let ghost views = all.deep_view();
    let mut i: usize = 0;
    assert(views.take(0) =~= seq![]);
    assert(out.deep_view() =~= sort_requests(views.take(0)));
    while i < all.len()
        invariant
            i <= all@.len(),
            views == all.deep_view(),
            out.deep_view() == sort_requests(views.take(i as int)),
        decreases all@.len() - i,
    {
        let x = all[i].duplicate();
        assert(views[i as int] == x@);
        assert(views.take(i + 1).drop_last() =~= views.take(i as int));
        let ghost before = out.deep_view();
        let mut at: usize = out.len();
        while at > 0
            invariant
                at <= out@.len(),
                before == out.deep_view(),
                forall|k: int| at <= k < before.len() ==> request_less(x@, #[trigger] before[k]),
            ensures
                at <= out@.len(),
                forall|k: int| at <= k < before.len() ==> request_less(x@, #[trigger] before[k]),
                at > 0 ==> !request_less(x@, before[at - 1]),
            decreases at,
        {
            assert(before[at - 1] == out@[at - 1]@);
            if !request_before(&x, &out[at - 1]) {
                break;
            }
            at -= 1;
        }
        proof {
            lemma_insert_request(before, x@, at as int);
        }
        let ghost view = x@;
        out.insert(at, x);
        assert(out.deep_view() =~= before.insert(at as int, view));
        i += 1;
    }
    assert(views.take(views.len() as int) =~= views);
    out
}

/// The paths of the first `n` requests.
pub open spec fn request_paths(requests: Seq<RequestView>, n: int) -> Set<Seq<char>>
    decreases n,
{
    if n <= 0 {
        Set::empty()
    } else {
        request_paths(requests, n - 1).insert(requests[n - 1].path)
    }
}

/// The first `n` requests that are for a path.
pub open spec fn requests_for(requests: Seq<RequestView>, path: Seq<char>, n: int) -> Seq<RequestView>
    decreases n,
{
    if n <= 0 {
        seq![]
    } else if requests[n - 1].path == path {
        requests_for(requests, path, n - 1).push(requests[n - 1])
    } else {
        requests_for(requests, path, n - 1)
    }
}

/// Two requests as one.
pub open spec fn joined_requests(a: RequestView, b: RequestView) -> RequestView {
    RequestView {
        start: if b.start < a.start {
            b.start
        } else {
            a.start
        },
        end: if b.end > a.end {
            b.end
        } else {
            a.end
        },
        order: if b.order < a.order {
            b.order
        } else {
            a.order
        },
        language: if a.language is None {
            b.language
        } else {
            a.language
        },
        anchor_ids: a.anchor_ids.union(b.anchor_ids),
        references: a.references.union(b.references),
        matched: a.matched || b.matched,
        ..a
    }
}

/// Whether two requests matter as much and have at most `gap` lines between them.
pub open spec fn are_near(a: RequestView, b: RequestView, gap: u32) -> bool {
    &&& a.priority == b.priority
    &&& b.start <= line_after(line_after(a.end, gap), 1)
    &&& a.start <= line_after(line_after(b.end, gap), 1)
}

/// The first `n` requests, with those that matter as much and are near the one before joined
/// to it.
pub open spec fn near_joined(requests: Seq<RequestView>, gap: u32, n: int) -> Seq<RequestView>
    decreases n,
{
    if n <= 0 {
        seq![]
    } else {
        let before = near_joined(requests, gap, n - 1);
        let request = requests[n - 1];
        if before.len() > 0 && are_near(before.last(), request, gap) {
            before.drop_last().push(joined_requests(before.last(), request))
        } else {
            before.push(request)
        }
    }
}

/// Lines as they are left once the tests among them are taken out, from test `i` on; `cursor`
/// is the first line that is not accounted for.
pub open spec fn production_lines(
    start: u32,
    end: u32,
    tests: Seq<Span>,
    cursor: u32,
    i: int,
) -> Seq<(u32, u32)>
    decreases tests.len() - i,
{
    if i >= tests.len() {
        if cursor <= end {
            seq![(cursor, end)]
        } else {
            seq![]
        }
    } else if !(tests[i].start_line <= end && start <= tests[i].end_line) {
        production_lines(start, end, tests, cursor, i + 1)
    } else {
        let piece: Seq<(u32, u32)> = if cursor < tests[i].start_line {
            seq![(cursor, (tests[i].start_line - 1) as u32)]
        } else {
            seq![]
        };
        let behind = line_after(tests[i].end_line, 1);
        let next = if cursor > behind {
            cursor
        } else {
            behind
        };
        if next > end {
            piece
        } else {
            piece + production_lines(start, end, tests, next, i + 1)
        }
    }
}

/// The tests that are taken out of lines, from test `i` on.
pub open spec fn tests_taken_out(
    start: u32,
    end: u32,
    tests: Seq<Span>,
    cursor: u32,
    i: int,
) -> Seq<Span>
    decreases tests.len() - i,
{
    if i >= tests.len() {
        seq![]
    } else if !(tests[i].start_line <= end && start <= tests[i].end_line) {
        tests_taken_out(start, end, tests, cursor, i + 1)
    } else {
        let behind = line_after(tests[i].end_line, 1);
        let next = if cursor > behind {
            cursor
        } else {
            behind
        };
        if next > end {
            seq![tests[i]]
        } else {
            seq![tests[i]] + tests_taken_out(start, end, tests, next, i + 1)
        }
    }
}

/// The last line of a request that a file has.
pub open spec fn available_end(request: RequestView, available: u32) -> u32 {
    if request.end <= available {
        request.end
    } else {
        available
    }
}

/// Whether a request starts behind the end of its file.
pub open spec fn is_outside(request: RequestView, available: u32) -> bool {
    available == 0 || request.start > available
}

/// The tests that are left out with a request.
pub open spec fn with_sections(
    list: Seq<TestSectionView>,
    path: Seq<char>,
    spans: Seq<Span>,
    n: int,
) -> Seq<TestSectionView>
    decreases n,
{
    if n <= 0 {
        list
    } else {
        with_new(
            with_sections(list, path, spans, n - 1),
            TestSectionView {
                path,
                start: spans[n - 1].start_line,
                end: spans[n - 1].end_line,
            },
        )
    }
}

/// The lines of a text from one to another.
pub open spec fn source_lines(all: Seq<Seq<char>>, start: u32, end: u32) -> Seq<char> {
    join(all.subrange(start - 1, end as int), seq!['\n'])
}

/// The excerpts with some lines of a file, unless they are blank.
pub open spec fn with_excerpt(
    excerpts: Seq<ExcerptView>,
    request: RequestView,
    all: Seq<Seq<char>>,
    start: u32,
    end: u32,
) -> Seq<ExcerptView> {
    let source = source_lines(all, start, end);
    if is_blank(source) {
        excerpts
    } else {
        excerpts.push(
            ExcerptView {
                path: request.path,
                start,
                end,
                priority: request.priority,
                order: request.order,
                language: request.language,
                anchor_ids: request.anchor_ids,
                references: request.references,
                source,
                matched: request.matched,
            },
        )
    }
}

/// The excerpts with the first `n` pieces of a request.
pub open spec fn with_pieces(
    excerpts: Seq<ExcerptView>,
    request: RequestView,
    all: Seq<Seq<char>>,
    pieces: Seq<(u32, u32)>,
    n: int,
) -> Seq<ExcerptView>
    decreases n,
{
    if n <= 0 {
        excerpts
    } else {
        with_excerpt(
            with_pieces(excerpts, request, all, pieces, n - 1),
            request,
            all,
            pieces[n - 1].0,
            pieces[n - 1].1,
        )
    }
}

/// What is said of lines that a file does not have.
pub open spec fn said_of_outside(request: RequestView) -> Seq<char> {
    request.path + "#L"@ + decimal(request.start as nat) + "-L"@ + decimal(request.end as nat)
        + " (range is outside file)"@
}

/// The source that was read so far, what could not be read, and the tests that were left out.
#[verifier::ext_equal]
pub ghost struct LoadedSourceView {
    pub excerpts: Seq<ExcerptView>,
    pub omitted: Seq<Seq<char>>,
    pub tests: Seq<TestSectionView>,
}

/// The source that was read, what could not be read, and the tests that were left out.
#[derive(Debug)]
pub struct LoadedSource {
    /// The source.
    pub excerpts: Vec<Excerpt>,
    /// What could not be read, and why.
    pub omitted: Vec<String>,
    /// The tests that were left out.
    pub tests: Vec<TestSection>,
}

impl View for LoadedSource {
    type V = LoadedSourceView;

    open spec fn view(&self) -> LoadedSourceView {
        LoadedSourceView {
            excerpts: self.excerpts.deep_view(),
            omitted: self.omitted.deep_view(),
            tests: self.tests.deep_view(),
        }
    }
}

/// The source with that of the first `n` requests for a file. What lies outside the file is
/// told apart.
pub open spec fn with_requests(
    loaded: LoadedSourceView,
    requests: Seq<RequestView>,
    all: Seq<Seq<char>>,
    tests: Seq<Span>,
    n: int,
) -> LoadedSourceView
    decreases n,
{
    if n <= 0 {
        loaded
    } else {
        let before = with_requests(loaded, requests, all, tests, n - 1);
        let request = requests[n - 1];
        let available = line_count(all);
        let end = available_end(request, available);
        if is_outside(request, available) {
            LoadedSourceView { omitted: before.omitted.push(said_of_outside(request)), ..before }
        } else {
            let pieces = production_lines(request.start, end, tests, request.start, 0);
            let taken = tests_taken_out(request.start, end, tests, request.start, 0);
            LoadedSourceView {
                excerpts: with_pieces(before.excerpts, request, all, pieces, pieces.len() as int),
                tests: with_sections(before.tests, request.path, taken, taken.len() as int),
                ..before
            }
        }
    }
}

/// How many lines a file has, as far as lines are counted.
pub open spec fn line_count(all: Seq<Seq<char>>) -> u32 {
    if all.len() > u32::MAX {
        u32::MAX
    } else {
        all.len() as u32
    }
}

/// The source with that of a file.
pub open spec fn with_file(
    loaded: LoadedSourceView,
    path: Seq<char>,
    requests: Seq<RequestView>,
    content: FileContentView,
    options: RenderOptionsView,
) -> LoadedSourceView {
    match content {
        FileContentView::Failed(message) => LoadedSourceView {
            omitted: loaded.omitted.push(path + " (read failed: "@ + message + ")"@),
            ..loaded
        },
        FileContentView::Bytes(bytes) => if bytes.contains(0) {
            LoadedSourceView {
                omitted: loaded.omitted.push(path + " (binary file)"@),
                ..loaded
            }
        } else if !vstd::utf8::valid_utf8(bytes) {
            LoadedSourceView { omitted: loaded.omitted.push(path + " (not UTF-8)"@), ..loaded }
        } else {
            let text = vstd::utf8::decode_utf8(bytes);
            let tests = if options.include_rust_tests {
                seq![]
            } else {
                test_spans(path, text)
            };
            let sorted = sort_requests(requests);
            let wanted = near_joined(sorted, options.merge_gap, sorted.len() as int);
            with_requests(loaded, wanted, lines(text), tests, wanted.len() as int)
        },
    }
}

/// The source of the first `n` files.
pub open spec fn source_of(
    requests: Seq<RequestView>,
    contents: Map<Seq<char>, FileContentView>,
    options: RenderOptionsView,
    n: int,
) -> LoadedSourceView
    decreases n,
{
    if n <= 0 {
        LoadedSourceView { excerpts: seq![], omitted: seq![], tests: seq![] }
    } else {
        let path = ordered(request_paths(requests, requests.len() as int))[n - 1];
        with_file(
            source_of(requests, contents, options, n - 1),
            path,
            requests_for(requests, path, requests.len() as int),
            contents[path],
            options,
        )
    }
}

/// The paths of requests.
fn paths_of_requests(requests: &Vec<Request>) -> (r: StringSet)
    ensures
        r@ == request_paths(requests.deep_view(), requests@.len() as int),
{
    let ghost all = requests.deep_view();
    let mut paths = StringSet::new();
    let mut i: usize = 0;
    while i < requests.len()
        invariant
            i <= requests@.len(),
            all == requests.deep_view(),
            paths@ == request_paths(all, i as int),
        decreases requests@.len() - i,
    {
        assert(all[i as int] == requests@[i as int]@);
        paths.insert(requests[i].path.clone());
        i += 1;
    }
    paths
}

/// The requests that are for a path.
fn requests_at(requests: &Vec<Request>, path: &str) -> (r: Vec<Request>)
    ensures
        r.deep_view() == requests_for(requests.deep_view(), path@, requests@.len() as int),
{
    let ghost all = requests.deep_view();
    let mut out: Vec<Request> = Vec::new();
    let mut i: usize = 0;
    assert(out.deep_view() =~= seq![]);
    while i < requests.len()
        invariant
            i <= requests@.len(),
            all == requests.deep_view(),
            out.deep_view() == requests_for(all, path@, i as int),
        decreases requests@.len() - i,
    {
        assert(all[i as int] == requests@[i as int]@);
        if same_text(requests[i].path.as_str(), path) {
            push_item(&mut out, requests[i].duplicate());
        }
        i += 1;
    }
    out
}

/// Two requests as one.
fn join_requests(a: &Request, b: &Request) -> (r: Request)
    ensures
        r@ == joined_requests(a@, b@),
{
    let mut both = a.duplicate();
    if b.start < a.start {
        both.start = b.start;
    }
    if b.end > a.end {
        both.end = b.end;
    }
    if b.order < a.order {
        both.order = b.order;
    }
    if a.language.is_none() {
        both.language = copy_option(&b.language);
    }
    let mut ids = a.anchor_ids.duplicate();
    ids.extend(&b.anchor_ids);
    both.anchor_ids = ids;
    let mut references = a.references.duplicate();
    references.extend(&b.references);
    both.references = references;
    both.matched = a.matched || b.matched;
    both
}

/// Requests with those that matter as much and are near the one before joined to it.
fn join_near(requests: &Vec<Request>, gap: u32) -> (r: Vec<Request>)
    ensures
        r.deep_view() == near_joined(requests.deep_view(), gap, requests@.len() as int),
{
    let ghost all = requests.deep_view();
    let mut out: Vec<Request> = Vec::new();
    let mut i: usize = 0;
    assert(out.deep_view() =~= seq![]);
    while i < requests.len()
        invariant
            i <= requests@.len(),
            all == requests.deep_view(),
            out.deep_view() == near_joined(all, gap, i as int),
        decreases requests@.len() - i,
    {
        let request = &requests[i];
        assert(all[i as int] == request@);
        let n: usize = out.len();
        let ghost before = out.deep_view();
        let near = if n > 0 {
            assert(before.last() == out@[n - 1]@);
            out[n - 1].priority == request.priority && request.start <= lines_after(
                lines_after(out[n - 1].end, gap),
                1,
            ) && out[n - 1].start <= lines_after(lines_after(request.end, gap), 1)
        } else {
            false
        };
        if near {
            let both = join_requests(&out[n - 1], request);
            let ghost view = both@;
            out.set(n - 1, both);
            assert(out.deep_view() =~= before.drop_last().push(view));
        } else {
            push_item(&mut out, request.duplicate());
        }
        i += 1;
    }
    out
}

/// Adds a test that is left out, unless it is there.
fn add_section(list: &mut Vec<TestSection>, item: TestSection)
    ensures
        final(list).deep_view() == with_new(old(list).deep_view(), item@),
{
    let ghost all = list.deep_view();
    let mut i: usize = 0;
    while i < list.len()
        invariant
            i <= list@.len(),
            list.deep_view() == all,
            all == old(list).deep_view(),
            forall|k: int| 0 <= k < i ==> #[trigger] all[k] != item@,
        decreases list@.len() - i,
    {
        assert(all[i as int] == list@[i as int]@);
        if same_text(list[i].path.as_str(), item.path.as_str()) && list[i].start == item.start
            && list[i].end == item.end {
            assert(all[i as int] =~= item@);
            assert(all.contains(item@));
            return;
        }
        i += 1;
    }
    assert(!all.contains(item@));
    push_item(list, item);
}

/// Lines as they are left once the tests among them are taken out, and those tests.
fn subtract_rust_tests(start: u32, end: u32, tests: &Vec<Span>) -> (r: (
    Vec<(u32, u32)>,
    Vec<Span>,
))
    ensures
        r.0@ == production_lines(start, end, tests@, start, 0),
        r.1@ == tests_taken_out(start, end, tests@, start, 0),
{
    let mut pieces: Vec<(u32, u32)> = Vec::new();
    let mut taken: Vec<Span> = Vec::new();
    let mut cursor: u32 = start;
    let mut i: usize = 0;
    let ghost all = production_lines(start, end, tests@, start, 0);
    let ghost out = tests_taken_out(start, end, tests@, start, 0);
    while i < tests.len()
        invariant
            i <= tests@.len(),
            all == pieces@ + production_lines(start, end, tests@, cursor, i as int),
            out == taken@ + tests_taken_out(start, end, tests@, cursor, i as int),
            all == production_lines(start, end, tests@, start, 0),
            out == tests_taken_out(start, end, tests@, start, 0),
        decreases tests@.len() - i,
    {
        let test = tests[i];
        if test.start_line <= end && start <= test.end_line {
            let ghost before = pieces@;
            let ghost seen = taken@;
            taken.push(test);
            if cursor < test.start_line {
                pieces.push((cursor, test.start_line - 1));
            }
            let behind = lines_after(test.end_line, 1);
            let next: u32 = if cursor > behind {
                cursor
            } else {
                behind
            };
            if next > end {
                assert(all =~= pieces@);
                assert(out =~= taken@);
                return (pieces, taken);
            }
            assert(all =~= pieces@ + production_lines(start, end, tests@, next, i + 1));
            assert(out =~= taken@ + tests_taken_out(start, end, tests@, next, i + 1));
            cursor = next;
        }
        i += 1;
    }
    if cursor <= end {
        pieces.push((cursor, end));
    }
    assert(all =~= pieces@);
    assert(out =~= taken@);
    (pieces, taken)
}

/// Whether pieces lie within lines.
pub open spec fn lie_within(pieces: Seq<(u32, u32)>, start: u32, end: u32) -> bool {
    forall|k: int|
        0 <= k < pieces.len() ==> start <= (#[trigger] pieces[k]).0 && pieces[k].0 <= pieces[k].1
            && pieces[k].1 <= end
}

/// The pieces that are left of lines lie within them.
pub(crate) proof fn lemma_pieces_inside(start: u32, end: u32, tests: Seq<Span>, cursor: u32, i: int)
    requires
        start <= cursor,
        1 <= start,
    ensures
        lie_within(production_lines(start, end, tests, cursor, i), start, end),
    decreases tests.len() - i,
{
    if i < tests.len() {
        if !(tests[i].start_line <= end && start <= tests[i].end_line) {
            lemma_pieces_inside(start, end, tests, cursor, i + 1);
        } else {
            let behind = line_after(tests[i].end_line, 1);
            let next = if cursor > behind {
                cursor
            } else {
                behind
            };
            if next <= end {
                lemma_pieces_inside(start, end, tests, next, i + 1);
            }
        }
    }
}

/// Adds some lines of a file, unless they are blank.
fn push_excerpt(
    excerpts: &mut Vec<Excerpt>,
    request: &Request,
    all: &Vec<Vec<char>>,
    start: u32,
    end: u32,
)
    requires
        1 <= start <= end <= all@.len(),
    ensures
        final(excerpts).deep_view() == with_excerpt(
            old(excerpts).deep_view(),
            request@,
            all.deep_view(),
            start,
            end,
        ),
{
    let source = string_of(&join_lines(all, (start - 1) as usize, end as usize));
    if blank(source.as_str()) {
        return;
    }
    push_item(
        excerpts,
        Excerpt {
            path: request.path.clone(),
            start,
            end,
            priority: request.priority,
            order: request.order,
            language: copy_option(&request.language),
            anchor_ids: request.anchor_ids.duplicate(),
            references: request.references.duplicate(),
            source,
            matched: request.matched,
        },
    );
}

/// Adds the source of a request for a file.
fn load_request(
    loaded: &mut LoadedSource,
    request: &Request,
    all: &Vec<Vec<char>>,
    tests: &Vec<Span>,
    available: u32,
)
    requires
        available == line_count(all.deep_view()),
        request.start >= 1,
    ensures
        final(loaded)@ == with_requests(
            old(loaded)@,
            seq![request@],
            all.deep_view(),
            tests@,
            1,
        ),
{
    proof {
        reveal_with_fuel(with_requests, 2);
    }
    if available == 0 || request.start > available {
        let mut message = request.path.clone();
        message.push_str("#L");
        message.push_str(decimal_text(request.start as u64).as_str());
        message.push_str("-L");
        message.push_str(decimal_text(request.end as u64).as_str());
        message.push_str(" (range is outside file)");
        push_item(&mut loaded.omitted, message);
        assert(loaded@ =~= with_requests(
            old(loaded)@,
            seq![request@],
            all.deep_view(),
            tests@,
            1,
        ));
        return;
    }
    let end: u32 = if request.end <= available {
        request.end
    } else {
        available
    };
    let (pieces, taken) = subtract_rust_tests(request.start, end, tests);
    proof {
        lemma_pieces_inside(request.start, end, tests@, request.start, 0);
    }
    let ghost start = loaded@;
    let mut i: usize = 0;
    while i < pieces.len()
        invariant
            i <= pieces@.len(),
            end <= all@.len(),
            request.start >= 1,
            lie_within(pieces@, request.start, end),
            loaded@ == (LoadedSourceView {
                excerpts: with_pieces(
                    start.excerpts,
                    request@,
                    all.deep_view(),
                    pieces@,
                    i as int,
                ),
                ..start
            }),
        decreases pieces@.len() - i,
    {
        assert(request.start <= pieces@[i as int].0);
        push_excerpt(&mut loaded.excerpts, request, all, pieces[i].0, pieces[i].1);
        assert(loaded@ =~= (LoadedSourceView {
            excerpts: with_pieces(start.excerpts, request@, all.deep_view(), pieces@, i + 1),
            ..start
        }));
        i += 1;
    }
    let ghost middle = loaded@;
    let mut k: usize = 0;
    while k < taken.len()
        invariant
            k <= taken@.len(),
            loaded@ == (LoadedSourceView {
                tests: with_sections(middle.tests, request@.path, taken@, k as int),
                ..middle
            }),
        decreases taken@.len() - k,
    {
        add_section(
            &mut loaded.tests,
            TestSection {
                path: request.path.clone(),
                start: taken[k].start_line,
                end: taken[k].end_line,
            },
        );
        assert(loaded@ =~= (LoadedSourceView {
            tests: with_sections(middle.tests, request@.path, taken@, k + 1),
            ..middle
        }));
        k += 1;
    }
    assert(loaded@ =~= with_requests(start, seq![request@], all.deep_view(), tests@, 1));
}

/// One more request adds to what those before it made.
proof fn lemma_with_requests(
    loaded: LoadedSourceView,
    requests: Seq<RequestView>,
    all: Seq<Seq<char>>,
    tests: Seq<Span>,
    n: int,
)
    requires
        0 < n <= requests.len(),
    ensures
        with_requests(loaded, requests, all, tests, n) == with_requests(
            with_requests(loaded, requests, all, tests, n - 1),
            seq![requests[n - 1]],
            all,
            tests,
            1,
        ),
{
    reveal_with_fuel(with_requests, 2);
    assert(seq![requests[n - 1]][0] == requests[n - 1]);
}

/// Requests start at a line.
pub open spec fn starts_are_lines(requests: Seq<RequestView>) -> bool {
    forall|i: int| 0 <= i < requests.len() ==> (#[trigger] requests[i]).start >= 1
}

/// Adds the source of a file.
fn load_file(
    loaded: &mut LoadedSource,
    path: &String,
    requests: &Vec<Request>,
    content: &FileContent,
    options: &RenderOptions,
)
    requires
        starts_are_lines(requests.deep_view()),
    ensures
        final(loaded)@ == with_file(
            old(loaded)@,
            path@,
            requests.deep_view(),
            content@,
            options@,
        ),
{
    let bytes = match content {
        FileContent::Failed(reason) => {
            let mut message = path.clone();
            message.push_str(" (read failed: ");
            message.push_str(reason.as_str());
            message.push_str(")");
            push_item(&mut loaded.omitted, message);
            return;
        },
        FileContent::Bytes(bytes) => bytes,
    };
    if crate::index::any_zero(bytes) {
        let mut message = path.clone();
        message.push_str(" (binary file)");
        push_item(&mut loaded.omitted, message);
        return;
    }
    let text = match text_of_bytes(bytes) {
        None => {
            let mut message = path.clone();
            message.push_str(" (not UTF-8)");
            push_item(&mut loaded.omitted, message);
            return;
        },
        Some(text) => text,
    };
    let sorted = sorted_requests(requests);
    let wanted = join_near(&sorted, options.merge_gap);
    proof {
        lemma_sorted_starts(requests.deep_view());
        lemma_joined_starts(
            sort_requests(requests.deep_view()),
            options.merge_gap,
            sort_requests(requests.deep_view()).len() as int,
        );
    }
    assert(sorted@.len() == sorted.deep_view().len());
    let all = lines_of(&chars_of(text.as_str()));
    let ghost texts = all.deep_view();
    let available: u32 = if all.len() as u128 > u32::MAX as u128 {
        u32::MAX
    } else {
        all.len() as u32
    };
    let tests: Vec<Span> = if options.include_rust_tests {
        Vec::new()
    } else {
        rust_test_ranges(path.as_str(), text.as_str())
    };
    assert(options.include_rust_tests ==> tests@ =~= seq![]);
    let ghost start = loaded@;
    let ghost views = wanted.deep_view();
    let mut i: usize = 0;
    while i < wanted.len()
        invariant
            i <= wanted@.len(),
            views == wanted.deep_view(),
            texts == all.deep_view(),
            available == line_count(texts),
            starts_are_lines(views),
            loaded@ == with_requests(start, views, texts, tests@, i as int),
        decreases wanted@.len() - i,
    {
        assert(views[i as int] == wanted@[i as int]@);
        load_request(loaded, &wanted[i], &all, &tests, available);
        proof {
            lemma_with_requests(start, views, texts, tests@, i + 1);
        }
        i += 1;
    }
}

/// Putting a request among others keeps that all start at a line.
proof fn lemma_inserted_start(sorted: Seq<RequestView>, x: RequestView)
    requires
        starts_are_lines(sorted),
        x.start >= 1,
    ensures
        starts_are_lines(insert_request(sorted, x)),
    decreases sorted.len(),
{
    if sorted.len() > 0 && request_less(x, sorted.last()) {
        lemma_inserted_start(sorted.drop_last(), x);
    }
}

/// Putting requests in order keeps that all start at a line.
pub(crate) proof fn lemma_sorted_starts(requests: Seq<RequestView>)
    requires
        starts_are_lines(requests),
    ensures
        starts_are_lines(sort_requests(requests)),
    decreases requests.len(),
{
    if requests.len() > 0 {
        lemma_sorted_starts(requests.drop_last());
        lemma_inserted_start(sort_requests(requests.drop_last()), requests.last());
    }
}

/// Joining requests keeps that all start at a line.
pub(crate) proof fn lemma_joined_starts(requests: Seq<RequestView>, gap: u32, n: int)
    requires
        starts_are_lines(requests),
        n <= requests.len(),
    ensures
        starts_are_lines(near_joined(requests, gap, n)),
    decreases n,
{
    if n > 0 {
        lemma_joined_starts(requests, gap, n - 1);
    }
}

/// The first requests for a path start at a line where all do.
pub(crate) proof fn lemma_starts_for(requests: Seq<RequestView>, path: Seq<char>, n: int)
    requires
        starts_are_lines(requests),
        n <= requests.len(),
    ensures
        starts_are_lines(requests_for(requests, path, n)),
    decreases n,
{
    if n > 0 {
        lemma_starts_for(requests, path, n - 1);
    }
}

/// The source that requests ask for. `contents` holds the content of each file.
pub fn load_excerpts(
    requests: &Vec<Request>,
    contents: &StringMap<FileContent>,
    options: &RenderOptions,
) -> (r: LoadedSource)
    requires
        starts_are_lines(requests.deep_view()),
        forall|path: Seq<char>|
            request_paths(requests.deep_view(), requests@.len() as int).contains(path)
                ==> #[trigger] contents@.contains_key(path),
    ensures
        r@ == source_of(
            requests.deep_view(),
            contents@,
            options@,
            ordered(request_paths(requests.deep_view(), requests@.len() as int)).len() as int,
        ),
{
    let ghost all = requests.deep_view();
    let mut loaded = LoadedSource {
        excerpts: Vec::new(),
        omitted: Vec::new(),
        tests: Vec::new(),
    };
    let paths = paths_of_requests(requests);
    let n: usize = paths.len();
    let mut i: usize = 0;
    assert(loaded@ =~= source_of(all, contents@, options@, 0));
    assert(requests@.len() == all.len());
    while i < n
        invariant
            i <= n,
            all == requests.deep_view(),
            requests@.len() == all.len(),
            paths@ == request_paths(all, all.len() as int),
            n == ordered(paths@).len(),
            starts_are_lines(all),
            forall|path: Seq<char>| paths@.contains(path) ==> #[trigger] contents@.contains_key(path),
            loaded@ == source_of(all, contents@, options@, i as int),
        decreases n - i,
    {
        let path = paths.item_at(i);
        assert(contents@.contains_key(path@));
        let wanted = requests_at(requests, path.as_str());
        proof {
            lemma_starts_for(all, path@, all.len() as int);
        }
        match contents.get(path.as_str()) {
            None => {},
            Some(content) => {
                load_file(&mut loaded, path, &wanted, content, options);
            },
        }
        i += 1;
    }
    loaded
}

/// About how many tokens some source takes, with what is printed around it.
pub open spec fn token_estimate(source: Seq<char>) -> nat {
    ((byte_len(source) + 64 + 3) / 4) as nat
}

/// About how many tokens some source takes, with what is printed around it.
pub fn estimate_tokens(source: &str) -> (r: usize)
    ensures
        r == token_estimate(source@),
{
    let bytes: usize = byte_length(source);
    ((bytes as u128 + 64 + 3) / 4) as usize
}

/// Whether an excerpt comes before another: by how much it matters, then by order, path and
/// line.
pub open spec fn excerpt_less(a: ExcerptView, b: ExcerptView) -> bool {
    if a.priority != b.priority {
        a.priority < b.priority
    } else if a.order != b.order {
        a.order < b.order
    } else if a.path != b.path {
        text_less(a.path, b.path)
    } else {
        a.start < b.start
    }
}

/// Whether an excerpt comes before another.
fn excerpt_before(a: &Excerpt, b: &Excerpt) -> (r: bool)
    ensures
        r == excerpt_less(a@, b@),
{
    if a.priority != b.priority {
        a.priority < b.priority
    } else if a.order != b.order {
        a.order < b.order
    } else if !same_text(a.path.as_str(), b.path.as_str()) {
        text_before(a.path.as_str(), b.path.as_str())
    } else {
        a.start < b.start
    }
}

/// An excerpt put behind the last one that does not come after it.
pub open spec fn insert_excerpt(sorted: Seq<ExcerptView>, x: ExcerptView) -> Seq<ExcerptView>
    decreases sorted.len(),
{
    if sorted.len() == 0 || !excerpt_less(x, sorted.last()) {
        sorted.push(x)
    } else {
        insert_excerpt(sorted.drop_last(), x).push(sorted.last())
    }
}

/// Excerpts in order; those that come neither before nor after each other stay as they were.
pub open spec fn sort_excerpts(all: Seq<ExcerptView>) -> Seq<ExcerptView>
    decreases all.len(),
{
    if all.len() == 0 {
        all
    } else {
        insert_excerpt(sort_excerpts(all.drop_last()), all.last())
    }
}

proof fn lemma_insert_excerpt(sorted: Seq<ExcerptView>, x: ExcerptView, at: int)
    requires
        0 <= at <= sorted.len(),
        forall|k: int| at <= k < sorted.len() ==> excerpt_less(x, #[trigger] sorted[k]),
        at > 0 ==> !excerpt_less(x, sorted[at - 1]),
    ensures
        insert_excerpt(sorted, x) == sorted.insert(at, x),
    decreases sorted.len(),
{
    if at == sorted.len() {
        assert(sorted.insert(at, x) =~= sorted.push(x));
    } else {
        lemma_insert_excerpt(sorted.drop_last(), x, at);
        assert(sorted.insert(at, x) =~= sorted.drop_last().insert(at, x).push(sorted.last()));
    }
}

/// Excerpts in order.
fn sorted_excerpts(all: &Vec<Excerpt>) -> (r: Vec<Excerpt>)
    ensures
        r.deep_view() == sort_excerpts(all.deep_view()),
{
    let mut out: Vec<Excerpt> = Vec::new();
    let ghost views = all.deep_view();
    let mut i: usize = 0;
    assert(views.take(0) =~= seq![]);
    assert(out.deep_view() =~= sort_excerpts(views.take(0)));
    while i < all.len()
        invariant
            i <= all@.len(),
            views == all.deep_view(),
            out.deep_view() == sort_excerpts(views.take(i as int)),
        decreases all@.len() - i,
    {
        let x = all[i].duplicate();
        assert(views[i as int] == x@);
        assert(views.take(i + 1).drop_last() =~= views.take(i as int));
        let ghost before = out.deep_view();
        let mut at: usize = out.len();
        while at > 0
            invariant
                at <= out@.len(),
                before == out.deep_view(),
                forall|k: int| at <= k < before.len() ==> excerpt_less(x@, #[trigger] before[k]),
            ensures
                at <= out@.len(),
                forall|k: int| at <= k < before.len() ==> excerpt_less(x@, #[trigger] before[k]),
                at > 0 ==> !excerpt_less(x@, before[at - 1]),
            decreases at,
        {
            assert(before[at - 1] == out@[at - 1]@);
            if !excerpt_before(&x, &out[at - 1]) {
                break;
            }
            at -= 1;
        }
        proof {
            lemma_insert_excerpt(before, x@, at as int);
        }
        let ghost view = x@;
        out.insert(at, x);
        assert(out.deep_view() =~= before.insert(at as int, view));
        i += 1;
    }
    assert(views.take(views.len() as int) =~= views);
    out
}

/// Whether an excerpt stands before another in the source: by path, then by lines.
pub open spec fn place_less(a: ExcerptView, b: ExcerptView) -> bool {
    if a.path != b.path {
        text_less(a.path, b.path)
    } else if a.start != b.start {
        a.start < b.start
    } else if a.order != b.order {
        a.order < b.order
    } else {
        a.end < b.end
    }
}

/// Whether an excerpt stands before another in the source.
fn place_before(a: &Excerpt, b: &Excerpt) -> (r: bool)
    ensures
        r == place_less(a@, b@),
{
    if !same_text(a.path.as_str(), b.path.as_str()) {
        text_before(a.path.as_str(), b.path.as_str())
    } else if a.start != b.start {
        a.start < b.start
    } else if a.order != b.order {
        a.order < b.order
    } else {
        a.end < b.end
    }
}

/// An excerpt put behind the last one that does not come after it.
pub open spec fn insert_place(sorted: Seq<ExcerptView>, x: ExcerptView) -> Seq<ExcerptView>
    decreases sorted.len(),
{
    if sorted.len() == 0 || !place_less(x, sorted.last()) {
        sorted.push(x)
    } else {
        insert_place(sorted.drop_last(), x).push(sorted.last())
    }
}

/// Excerpts in order; those that come neither before nor after each other stay as they were.
pub open spec fn sort_places(all: Seq<ExcerptView>) -> Seq<ExcerptView>
    decreases all.len(),
{
    if all.len() == 0 {
        all
    } else {
        insert_place(sort_places(all.drop_last()), all.last())
    }
}

proof fn lemma_insert_place(sorted: Seq<ExcerptView>, x: ExcerptView, at: int)
    requires
        0 <= at <= sorted.len(),
        forall|k: int| at <= k < sorted.len() ==> place_less(x, #[trigger] sorted[k]),
        at > 0 ==> !place_less(x, sorted[at - 1]),
    ensures
        insert_place(sorted, x) == sorted.insert(at, x),
    decreases sorted.len(),
{
    if at == sorted.len() {
        assert(sorted.insert(at, x) =~= sorted.push(x));
    } else {
        lemma_insert_place(sorted.drop_last(), x, at);
        assert(sorted.insert(at, x) =~= sorted.drop_last().insert(at, x).push(sorted.last()));
    }
}

/// Excerpts in order.
fn sorted_places(all: &Vec<Excerpt>) -> (r: Vec<Excerpt>)
    ensures
        r.deep_view() == sort_places(all.deep_view()),
{
    let mut out: Vec<Excerpt> = Vec::new();
    let ghost views = all.deep_view();
    let mut i: usize = 0;
    assert(views.take(0) =~= seq![]);
    assert(out.deep_view() =~= sort_places(views.take(0)));
    while i < all.len()
        invariant
            i <= all@.len(),
            views == all.deep_view(),
            out.deep_view() == sort_places(views.take(i as int)),
        decreases all@.len() - i,
    {
        let x = all[i].duplicate();
        assert(views[i as int] == x@);
        assert(views.take(i + 1).drop_last() =~= views.take(i as int));
        let ghost before = out.deep_view();
        let mut at: usize = out.len();
        while at > 0
            invariant
                at <= out@.len(),
                before == out.deep_view(),
                forall|k: int| at <= k < before.len() ==> place_less(x@, #[trigger] before[k]),
            ensures
                at <= out@.len(),
                forall|k: int| at <= k < before.len() ==> place_less(x@, #[trigger] before[k]),
                at > 0 ==> !place_less(x@, before[at - 1]),
            decreases at,
        {
            assert(before[at - 1] == out@[at - 1]@);
            if !place_before(&x, &out[at - 1]) {
                break;
            }
            at -= 1;
        }
        proof {
            lemma_insert_place(before, x@, at as int);
        }
        let ghost view = x@;
        out.insert(at, x);
        assert(out.deep_view() =~= before.insert(at as int, view));
        i += 1;
    }
    assert(views.take(views.len() as int) =~= views);
    out
}

/// Which excerpts are printed so far.
#[verifier::ext_equal]
pub ghost struct SelectionView {
    pub remaining: Option<usize>,
    pub included: Seq<ExcerptView>,
    pub excluded: Seq<ExcerptView>,
    pub blocked: bool,
    pub tier: Option<u8>,
    pub tier_included: bool,
    pub tier_excluded: bool,
}

/// The selection once an excerpt is looked at. Once some but not all of those that matter as
/// much are printed, none that matter less are.
pub open spec fn with_selected(s: SelectionView, excerpt: ExcerptView) -> SelectionView {
    let t = if s.tier != Some(excerpt.priority) {
        SelectionView {
            blocked: s.blocked || (s.tier_included && s.tier_excluded),
            tier: Some(excerpt.priority),
            tier_included: false,
            tier_excluded: false,
            ..s
        }
    } else {
        s
    };
    let tokens = token_estimate(excerpt.source);
    if t.blocked {
        SelectionView { excluded: t.excluded.push(excerpt), ..t }
    } else if t.remaining is Some && tokens > t.remaining->0 {
        SelectionView { excluded: t.excluded.push(excerpt), tier_excluded: true, ..t }
    } else {
        SelectionView {
            remaining: match t.remaining {
                Some(budget) => Some((budget - tokens) as usize),
                None => None,
            },
            included: t.included.push(excerpt),
            tier_included: true,
            ..t
        }
    }
}

/// The selection once the first `n` excerpts are looked at.
pub open spec fn selected(excerpts: Seq<ExcerptView>, budget: Option<usize>, n: int) -> SelectionView
    decreases n,
{
    if n <= 0 {
        SelectionView {
            remaining: budget,
            included: seq![],
            excluded: seq![],
            blocked: false,
            tier: None,
            tier_included: false,
            tier_excluded: false,
        }
    } else {
        with_selected(selected(excerpts, budget, n - 1), excerpts[n - 1])
    }
}

/// The excerpts that are printed, and those that are not.
fn select_excerpts(excerpts: &Vec<Excerpt>, budget: Option<usize>) -> (r: (
    Vec<Excerpt>,
    Vec<Excerpt>,
))
    ensures
        r.0.deep_view() == selected(
            excerpts.deep_view(),
            budget,
            excerpts@.len() as int,
        ).included,
        r.1.deep_view() == selected(
            excerpts.deep_view(),
            budget,
            excerpts@.len() as int,
        ).excluded,
{
    let ghost all = excerpts.deep_view();
    let mut remaining: Option<usize> = budget;
    let mut included: Vec<Excerpt> = Vec::new();
    let mut excluded: Vec<Excerpt> = Vec::new();
    let mut blocked = false;
    let mut tier: Option<u8> = None;
    let mut tier_included = false;
    let mut tier_excluded = false;
    let mut i: usize = 0;
    assert(included.deep_view() =~= seq![]);
    assert(excluded.deep_view() =~= seq![]);
    while i < excerpts.len()
        invariant
            i <= excerpts@.len(),
            all == excerpts.deep_view(),
            selected(all, budget, i as int) == (SelectionView {
                remaining,
                included: included.deep_view(),
                excluded: excluded.deep_view(),
                blocked,
                tier,
                tier_included,
                tier_excluded,
            }),
        decreases excerpts@.len() - i,
    {
        let excerpt = &excerpts[i];
        assert(all[i as int] == excerpt@);
        if tier != Some(excerpt.priority) {
            if tier_included && tier_excluded {
                blocked = true;
            }
            tier = Some(excerpt.priority);
            tier_included = false;
            tier_excluded = false;
        }
        if blocked {
            push_item(&mut excluded, excerpt.duplicate());
        } else {
            let tokens: usize = estimate_tokens(excerpt.source.as_str());
            let too_many = match remaining {
                Some(left) => tokens > left,
                None => false,
            };
            if too_many {
                tier_excluded = true;
                push_item(&mut excluded, excerpt.duplicate());
            } else {
                remaining =
                match remaining {
                    Some(left) => Some(left - tokens),
                    None => None,
                };
                tier_included = true;
                push_item(&mut included, excerpt.duplicate());
            }
        }
        i += 1;
    }
    (included, excluded)
}

/// The text of an excerpt that reaches behind another, once it is joined to it.
pub open spec fn joined_source(a: ExcerptView, b: ExcerptView) -> Seq<char> {
    let behind = line_after(a.end, 1);
    let overlap: int = if behind > b.start {
        behind - b.start
    } else {
        0
    };
    let all = lines(b.source);
    let tail = if overlap < all.len() {
        join(all.subrange(overlap, all.len() as int), seq!['\n'])
    } else {
        seq![]
    };
    if b.end <= a.end || tail.len() == 0 {
        a.source
    } else if a.source.len() == 0 {
        tail
    } else {
        a.source + seq!['\n'] + tail
    }
}

/// Two excerpts as one.
pub open spec fn joined_excerpts(a: ExcerptView, b: ExcerptView) -> ExcerptView {
    ExcerptView {
        end: if b.end > a.end {
            b.end
        } else {
            a.end
        },
        priority: if b.priority < a.priority {
            b.priority
        } else {
            a.priority
        },
        order: if b.order < a.order {
            b.order
        } else {
            a.order
        },
        language: if a.language is None {
            b.language
        } else {
            a.language
        },
        anchor_ids: a.anchor_ids.union(b.anchor_ids),
        references: a.references.union(b.references),
        source: joined_source(a, b),
        matched: a.matched || b.matched,
        ..a
    }
}

/// Whether an excerpt starts no later than right behind another of its file.
pub open spec fn follows_closely(a: ExcerptView, b: ExcerptView) -> bool {
    a.path == b.path && b.start <= line_after(a.end, 1)
}

/// The first `n` excerpts, with those that start no later than right behind the one before
/// joined to it.
pub open spec fn close_joined(excerpts: Seq<ExcerptView>, n: int) -> Seq<ExcerptView>
    decreases n,
{
    if n <= 0 {
        seq![]
    } else {
        let before = close_joined(excerpts, n - 1);
        if before.len() > 0 && follows_closely(before.last(), excerpts[n - 1]) {
            before.drop_last().push(joined_excerpts(before.last(), excerpts[n - 1]))
        } else {
            before.push(excerpts[n - 1])
        }
    }
}

/// The text of an excerpt that reaches behind another, once it is joined to it.
fn join_source(a: &Excerpt, b: &Excerpt) -> (r: String)
    ensures
        r@ == joined_source(a@, b@),
{
    if b.end <= a.end {
        return a.source.clone();
    }
    let behind = lines_after(a.end, 1);
    let overlap: usize = if behind > b.start {
        (behind - b.start) as usize
    } else {
        0
    };
    let all = lines_of(&chars_of(b.source.as_str()));
    if overlap >= all.len() {
        return a.source.clone();
    }
    let tail = join_lines(&all, overlap, all.len());
    if tail.len() == 0 {
        return a.source.clone();
    }
    let mut source = a.source.clone();
    if chars_of(a.source.as_str()).len() != 0 {
        source.push('\n');
    }
    let text = string_of(&tail);
    source.push_str(text.as_str());
    assert(source@ =~= joined_source(a@, b@));
    source
}

/// Two excerpts as one.
fn join_excerpts(a: &Excerpt, b: &Excerpt) -> (r: Excerpt)
    ensures
        r@ == joined_excerpts(a@, b@),
{
    let mut both = a.duplicate();
    both.source = join_source(a, b);
    if b.end > a.end {
        both.end = b.end;
    }
    if b.priority < a.priority {
        both.priority = b.priority;
    }
    if b.order < a.order {
        both.order = b.order;
    }
    if a.language.is_none() {
        both.language = copy_option(&b.language);
    }
    let mut ids = a.anchor_ids.duplicate();
    ids.extend(&b.anchor_ids);
    both.anchor_ids = ids;
    let mut references = a.references.duplicate();
    references.extend(&b.references);
    both.references = references;
    both.matched = a.matched || b.matched;
    both
}

/// Excerpts in the order of the source, with those that start no later than right behind the
/// one before joined to it.
pub open spec fn merged_excerpts(excerpts: Seq<ExcerptView>) -> Seq<ExcerptView> {
    let sorted = sort_places(excerpts);
    close_joined(sorted, sorted.len() as int)
}

/// Excerpts in the order of the source, with those that start no later than right behind the
/// one before joined to it.
fn merge_included_excerpts(excerpts: &Vec<Excerpt>) -> (r: Vec<Excerpt>)
    ensures
        r.deep_view() == merged_excerpts(excerpts.deep_view()),
{
    let sorted = sorted_places(excerpts);
    let ghost all = sorted.deep_view();
    let mut out: Vec<Excerpt> = Vec::new();
    let mut i: usize = 0;
    assert(out.deep_view() =~= seq![]);
    while i < sorted.len()
        invariant
            i <= sorted@.len(),
            all == sorted.deep_view(),
            out.deep_view() == close_joined(all, i as int),
        decreases sorted@.len() - i,
    {
        let excerpt = &sorted[i];
        assert(all[i as int] == excerpt@);
        let n: usize = out.len();
        let ghost before = out.deep_view();
        let close = if n > 0 {
            assert(before.last() == out@[n - 1]@);
            same_text(out[n - 1].path.as_str(), excerpt.path.as_str()) && excerpt.start
                <= lines_after(out[n - 1].end, 1)
        } else {
            false
        };
        if close {
            let both = join_excerpts(&out[n - 1], excerpt);
            let ghost view = both@;
            out.set(n - 1, both);
            assert(out.deep_view() =~= before.drop_last().push(view));
        } else {
            push_item(&mut out, excerpt.duplicate());
        }
        i += 1;
    }
    out
}

/// Whether an excerpt holds all lines of another.
pub open spec fn covers(a: ExcerptView, b: ExcerptView) -> bool {
    a.path == b.path && a.start <= b.start && a.end >= b.end
}

/// The position of the first excerpt, from position `i` on, that holds all lines of another.
pub open spec fn covering(included: Seq<ExcerptView>, excerpt: ExcerptView, i: int) -> Option<int>
    decreases included.len() - i,
{
    if i >= included.len() {
        None
    } else if covers(included[i], excerpt) {
        Some(i)
    } else {
        covering(included, excerpt, i + 1)
    }
}

/// An excerpt that stands for another too.
pub open spec fn standing_for(a: ExcerptView, b: ExcerptView) -> ExcerptView {
    ExcerptView {
        anchor_ids: a.anchor_ids.union(b.anchor_ids),
        references: a.references.union(b.references),
        matched: a.matched || b.matched,
        ..a
    }
}

/// What is printed, and what the budget leaves out.
#[verifier::ext_equal]
pub ghost struct BudgetView {
    pub included: Seq<ExcerptView>,
    pub omitted: Seq<Seq<char>>,
    pub tokens: nat,
}

/// What is printed once the first `n` excerpts that are not are looked at: those whose lines
/// are printed anyway are not left out.
pub open spec fn accounted(
    included: Seq<ExcerptView>,
    excluded: Seq<ExcerptView>,
    n: int,
) -> BudgetView
    decreases n,
{
    if n <= 0 {
        BudgetView { included, omitted: seq![], tokens: 0 }
    } else {
        let before = accounted(included, excluded, n - 1);
        let excerpt = excluded[n - 1];
        match covering(before.included, excerpt, 0) {
            Some(i) => BudgetView {
                included: before.included.update(i, standing_for(before.included[i], excerpt)),
                ..before
            },
            None => BudgetView {
                omitted: before.omitted.push(excerpt.path),
                tokens: before.tokens + token_estimate(excerpt.source),
                ..before
            },
        }
    }
}

/// The position of the first excerpt that holds all lines of another.
fn find_covering(included: &Vec<Excerpt>, excerpt: &Excerpt) -> (r: Option<usize>)
    ensures
        match r {
            Some(i) => i < included@.len() && covering(included.deep_view(), excerpt@, 0) == Some(
                i as int,
            ),
            None => covering(included.deep_view(), excerpt@, 0) is None,
        },
{
    let ghost all = included.deep_view();
    let mut i: usize = 0;
    while i < included.len()
        invariant
            i <= included@.len(),
            all == included.deep_view(),
            covering(all, excerpt@, 0) == covering(all, excerpt@, i as int),
        decreases included@.len() - i,
    {
        assert(all[i as int] == included@[i as int]@);
        if same_text(included[i].path.as_str(), excerpt.path.as_str()) && included[i].start
            <= excerpt.start && included[i].end >= excerpt.end {
            return Some(i);
        }
        i += 1;
    }
    None
}

/// What is printed, and what the budget leaves out.
#[derive(Debug)]
pub struct Budget {
    /// What is printed.
    pub included: Vec<Excerpt>,
    /// The paths of what is left out.
    pub omitted: Vec<String>,
    /// About how many tokens are left out.
    pub tokens: u128,
}

/// What is printed once the excerpts that are not are looked at.
fn account_for(included: Vec<Excerpt>, excluded: &Vec<Excerpt>) -> (r: Budget)
    ensures
        accounted(included.deep_view(), excluded.deep_view(), excluded@.len() as int) == (
        BudgetView {
            included: r.included.deep_view(),
            omitted: r.omitted.deep_view(),
            tokens: r.tokens as nat,
        }),
{
    let ghost start = included.deep_view();
    let ghost all = excluded.deep_view();
    let mut shown = included;
    let mut omitted: Vec<String> = Vec::new();
    let mut tokens: u128 = 0;
    let mut i: usize = 0;
    assert(omitted.deep_view() =~= seq![]);
    while i < excluded.len()
        invariant
            i <= excluded@.len(),
            all == excluded.deep_view(),
            tokens <= i * 0xffff_ffff_ffff_ffff,
            accounted(start, all, i as int) == (BudgetView {
                included: shown.deep_view(),
                omitted: omitted.deep_view(),
                tokens: tokens as nat,
            }),
        decreases excluded@.len() - i,
    {
        let excerpt = &excluded[i];
        assert(all[i as int] == excerpt@);
        match find_covering(&shown, excerpt) {
            Some(at) => {
                let ghost before = shown.deep_view();
                assert(before[at as int] == shown@[at as int]@);
                let mut covering_excerpt = shown[at].duplicate();
                let mut ids = shown[at].anchor_ids.duplicate();
                ids.extend(&excerpt.anchor_ids);
                covering_excerpt.anchor_ids = ids;
                let mut references = shown[at].references.duplicate();
                references.extend(&excerpt.references);
                covering_excerpt.references = references;
                covering_excerpt.matched = shown[at].matched || excerpt.matched;
                let ghost view = covering_excerpt@;
                shown.set(at, covering_excerpt);
                assert(shown.deep_view() =~= before.update(at as int, view));
            },
            None => {
                let more: usize = estimate_tokens(excerpt.source.as_str());
                assert(more <= 0xffff_ffff_ffff_ffff);
                assert(i * 0xffff_ffff_ffff_ffff + 0xffff_ffff_ffff_ffff <= u128::MAX)
                    by (nonlinear_arith)
                    requires
                        i <= 0xffff_ffff_ffff_ffff,
                ;
                tokens += more as u128;
                push_item(&mut omitted, excerpt.path.clone());
            },
        }
        assert((i + 1) * 0xffff_ffff_ffff_ffff == i * 0xffff_ffff_ffff_ffff
            + 0xffff_ffff_ffff_ffff) by (nonlinear_arith);
        i += 1;
    }
    Budget { included: shown, omitted, tokens }
}

/// The name of a change.
pub open spec fn status_name(status: ChangeStatus) -> Seq<char> {
    match status {
        ChangeStatus::Added => "Added"@,
        ChangeStatus::Deleted => "Deleted"@,
        ChangeStatus::Renamed => "Renamed"@,
        ChangeStatus::Copied => "Copied"@,
        ChangeStatus::Modified => "Modified"@,
        ChangeStatus::Untracked => "Untracked"@,
    }
}

/// The name of a change.
fn name_of_status(status: ChangeStatus) -> (r: &'static str)
    ensures
        r@ == status_name(status),
{
    match status {
        ChangeStatus::Added => "Added",
        ChangeStatus::Deleted => "Deleted",
        ChangeStatus::Renamed => "Renamed",
        ChangeStatus::Copied => "Copied",
        ChangeStatus::Modified => "Modified",
        ChangeStatus::Untracked => "Untracked",
    }
}

/// The name of a severity.
pub open spec fn severity_name(severity: Severity) -> Seq<char> {
    match severity {
        Severity::Error => "Error"@,
        Severity::Warning => "Warning"@,
        Severity::Info => "Info"@,
    }
}

/// The name of a severity.
pub fn name_of_severity(severity: Severity) -> (r: &'static str)
    ensures
        r@ == severity_name(severity),
{
    match severity {
        Severity::Error => "Error",
        Severity::Warning => "Warning",
        Severity::Info => "Info",
    }
}

/// The first `n` ranges as text, with commas between them.
pub open spec fn ranges_text(ranges: Seq<LineRangeView>, n: int) -> Seq<char>
    decreases n,
{
    if n <= 0 {
        seq![]
    } else {
        let range = decimal(ranges[n - 1].start as nat) + "-"@ + decimal(ranges[n - 1].end as nat);
        if n == 1 {
            range
        } else {
            ranges_text(ranges, n - 1) + ","@ + range
        }
    }
}

/// What is printed of a changed file.
pub open spec fn changed_file_text(file: ChangedFileView) -> Seq<char> {
    "- "@ + file.path + " ("@ + status_name(file.status) + "; "@ + (if file.whole_file
        || file.ranges.len() == 0 {
        "whole-file"@
    } else {
        ranges_text(file.ranges, file.ranges.len() as int)
    }) + ")\n"@
}

/// What is printed of the first `n` changed files.
pub open spec fn changed_files_text(files: Seq<ChangedFileView>, n: int) -> Seq<char>
    decreases n,
{
    if n <= 0 {
        seq![]
    } else {
        changed_files_text(files, n - 1) + changed_file_text(files[n - 1])
    }
}

/// A number in decimal.
pub(crate) fn number(n: usize) -> (r: String)
    ensures
        r@ == decimal(n as nat),
{
    decimal_text(n as u64)
}

/// Ranges as text, with commas between them.
fn text_of_ranges(ranges: &Vec<LineRange>) -> (r: String)
    ensures
        r@ == ranges_text(ranges.deep_view(), ranges@.len() as int),
{
    let ghost all = ranges.deep_view();
    let mut out = String::new();
    let mut i: usize = 0;
    assert(out@ =~= seq![]);
    while i < ranges.len()
        invariant
            i <= ranges@.len(),
            all == ranges.deep_view(),
            out@ == ranges_text(all, i as int),
        decreases ranges@.len() - i,
    {
        assert(all[i as int] == ranges@[i as int]@);
        let mut range = decimal_text(ranges[i].start as u64);
        range.push_str("-");
        range.push_str(decimal_text(ranges[i].end as u64).as_str());
        if i > 0 {
            out.push_str(",");
            out.push_str(range.as_str());
        } else {
            out = range;
        }
        i += 1;
    }
    out
}

/// What is printed of changed files.
fn text_of_changed_files(files: &Vec<ChangedFile>) -> (r: String)
    ensures
        r@ == changed_files_text(files.deep_view(), files@.len() as int),
{
    let ghost all = files.deep_view();
    let mut out = String::new();
    let mut i: usize = 0;
    assert(out@ =~= seq![]);
    while i < files.len()
        invariant
            i <= files@.len(),
            all == files.deep_view(),
            out@ == changed_files_text(all, i as int),
        decreases files@.len() - i,
    {
        let file = &files[i];
        assert(all[i as int] == file@);
        let mut text = "- ".to_owned();
        text.push_str(file.path.as_str());
        text.push_str(" (");
        text.push_str(name_of_status(file.status));
        text.push_str("; ");
        assert(file.ranges@.len() == file.ranges.deep_view().len());
        if file.whole_file || file.ranges.len() == 0 {
            text.push_str("whole-file");
        } else {
            text.push_str(text_of_ranges(&file.ranges).as_str());
        }
        text.push_str(")\n");
        out.push_str(text.as_str());
        i += 1;
    }
    out
}

/// A place as text.
pub open spec fn location_text(location: LocationView) -> Seq<char> {
    match (location.line_start, location.line_end) {
        (Some(start), Some(end)) => if start != end {
            location.path + "#L"@ + decimal(start as nat) + "-L"@ + decimal(end as nat)
        } else {
            location.path + "#L"@ + decimal(start as nat)
        },
        (Some(start), None) => location.path + "#L"@ + decimal(start as nat),
        _ => location.path,
    }
}

/// A place as text.
pub fn display_location(location: &Location) -> (r: String)
    ensures
        r@ == location_text(location@),
{
    let mut text = location.path.clone();
    match location.line_start {
        None => {},
        Some(start) => {
            text.push_str("#L");
            text.push_str(decimal_text(start as u64).as_str());
            match location.line_end {
                None => {},
                Some(end) => {
                    if start != end {
                        text.push_str("-L");
                        text.push_str(decimal_text(end as u64).as_str());
                    }
                },
            }
        },
    }
    text
}

/// Where an anchor is, as text.
pub open spec fn anchor_place(anchor: AffectedAnchorView) -> Seq<char> {
    match anchor.anchor {
        Some(value) => match value.location {
            Some(location) => location_text(location),
            None => "unlocated"@,
        },
        None => "unlocated"@,
    }
}

/// Where an anchor is, as text.
pub fn place_of_anchor(anchor: &AffectedAnchor) -> (r: String)
    ensures
        r@ == anchor_place(anchor@),
{
    match &anchor.anchor {
        Some(value) => match &value.location {
            Some(location) => display_location(location),
            None => "unlocated".to_owned(),
        },
        None => "unlocated".to_owned(),
    }
}

/// What is printed of an anchor.
pub open spec fn anchor_line(anchor: AffectedAnchorView) -> Seq<char> {
    "- ["@ + (if anchor.direct {
        "direct"@
    } else {
        "candidate"@
    }) + "] "@ + (match anchor.role {
        Some(role) => role,
        None => "member"@,
    }) + ": "@ + anchor.id + " — "@ + anchor_place(anchor) + "\n"@
}

/// What is printed of an anchor.
fn write_anchor_line(anchor: &AffectedAnchor) -> (r: String)
    ensures
        r@ == anchor_line(anchor@),
{
    let mut text = "- [".to_owned();
    text.push_str(
        if anchor.direct {
            "direct"
        } else {
            "candidate"
        },
    );
    text.push_str("] ");
    match &anchor.role {
        Some(role) => text.push_str(role.as_str()),
        None => text.push_str("member"),
    }
    text.push_str(": ");
    text.push_str(anchor.id.as_str());
    text.push_str(" — ");
    text.push_str(place_of_anchor(anchor).as_str());
    text.push_str("\n");
    text
}

/// How many anchors are printed in detail.
pub const DETAILED_ANCHORS: usize = 4;

/// What is printed of anchors, which are not printed in detail, and how many are.
#[verifier::ext_equal]
pub ghost struct ListedView {
    pub text: Seq<char>,
    pub hidden: Seq<AffectedAnchorView>,
    pub shown: int,
}

/// What is printed of the first `n` anchors: those that changed or were asked for, up to a
/// number.
pub open spec fn listed_anchors(
    anchors: Seq<AffectedAnchorView>,
    focused: Set<Seq<char>>,
    n: int,
) -> ListedView
    decreases n,
{
    if n <= 0 {
        ListedView { text: seq![], hidden: seq![], shown: 0 }
    } else {
        let before = listed_anchors(anchors, focused, n - 1);
        let anchor = anchors[n - 1];
        if (anchor.direct || focused.contains(anchor.id)) && before.shown < DETAILED_ANCHORS {
            ListedView {
                text: before.text + anchor_line(anchor),
                shown: before.shown + 1,
                ..before
            }
        } else {
            ListedView { hidden: before.hidden.push(anchor), ..before }
        }
    }
}

/// The files of the first `n` anchors.
pub open spec fn anchor_files(anchors: Seq<AffectedAnchorView>, n: int) -> Set<Seq<char>>
    decreases n,
{
    if n <= 0 {
        Set::empty()
    } else {
        let before = anchor_files(anchors, n - 1);
        match anchors[n - 1].anchor {
            Some(value) => match value.location {
                Some(location) => before.insert(location.path),
                None => before,
            },
            None => before,
        }
    }
}

/// What is printed of anchors that are not printed in detail.
pub open spec fn hidden_summary(hidden: Seq<AffectedAnchorView>, details: bool) -> Seq<char> {
    let files = anchor_files(hidden, hidden.len() as int);
    let start = "- … "@ + decimal(hidden.len()) + " "@ + (if details {
        "additional "@
    } else {
        ""@
    }) + "anchors"@;
    if files == Set::<Seq<char>>::empty() {
        start + " summarized\n"@
    } else {
        start + " across "@ + decimal(ordered(files).len()) + " files summarized\n"@
    }
}

/// What is printed of anchors.
pub open spec fn anchors_text(anchors: Seq<AffectedAnchorView>, focused: Set<Seq<char>>) -> Seq<char> {
    let listed = listed_anchors(anchors, focused, anchors.len() as int);
    if listed.hidden.len() == 0 {
        listed.text
    } else {
        listed.text + hidden_summary(listed.hidden, listed.shown > 0)
    }
}

/// The files of anchors.
fn files_of_anchors(anchors: &Vec<AffectedAnchor>) -> (r: StringSet)
    ensures
        r@ == anchor_files(anchors.deep_view(), anchors@.len() as int),
{
    let ghost all = anchors.deep_view();
    let mut files = StringSet::new();
    let mut i: usize = 0;
    while i < anchors.len()
        invariant
            i <= anchors@.len(),
            all == anchors.deep_view(),
            files@ == anchor_files(all, i as int),
        decreases anchors@.len() - i,
    {
        assert(all[i as int] == anchors@[i as int]@);
        match &anchors[i].anchor {
            Some(value) => match &value.location {
                Some(location) => {
                    files.insert(location.path.clone());
                },
                None => {},
            },
            None => {},
        }
        i += 1;
    }
    files
}

/// What is printed of anchors that are not printed in detail.
fn write_hidden_anchor_summary(hidden: &Vec<AffectedAnchor>, details: bool) -> (r: String)
    ensures
        r@ == hidden_summary(hidden.deep_view(), details),
{
    let files = files_of_anchors(hidden);
    assert(hidden@.len() == hidden.deep_view().len());
    let mut text = "- … ".to_owned();
    text.push_str(number(hidden.len()).as_str());
    text.push_str(" ");
    text.push_str(
        if details {
            "additional "
        } else {
            ""
        },
    );
    text.push_str("anchors");
    if files.is_empty() {
        text.push_str(" summarized\n");
    } else {
        text.push_str(" across ");
        text.push_str(number(files.len()).as_str());
        text.push_str(" files summarized\n");
    }
    text
}

/// What is printed of anchors.
fn text_of_anchors(anchors: &Vec<AffectedAnchor>, focused: &StringMap<usize>) -> (r: String)
    ensures
        r@ == anchors_text(anchors.deep_view(), focused@.dom()),
{
    let ghost all = anchors.deep_view();
    let ghost dom = focused@.dom();
    let mut text = String::new();
    let mut hidden: Vec<AffectedAnchor> = Vec::new();
    let mut shown: usize = 0;
    let mut i: usize = 0;
    assert(text@ =~= seq![]);
    assert(hidden.deep_view() =~= seq![]);
    while i < anchors.len()
        invariant
            i <= anchors@.len(),
            all == anchors.deep_view(),
            dom == focused@.dom(),
            shown <= DETAILED_ANCHORS,
            listed_anchors(all, dom, i as int) == (ListedView {
                text: text@,
                hidden: hidden.deep_view(),
                shown: shown as int,
            }),
        decreases anchors@.len() - i,
    {
        let anchor = &anchors[i];
        assert(all[i as int] == anchor@);
        if (anchor.direct || focused.contains_key(anchor.id.as_str())) && shown
            < DETAILED_ANCHORS {
            text.push_str(write_anchor_line(anchor).as_str());
            shown += 1;
        } else {
            push_item(&mut hidden, anchor.duplicate());
        }
        i += 1;
    }
    assert(hidden@.len() == hidden.deep_view().len());
    if hidden.len() > 0 {
        text.push_str(write_hidden_anchor_summary(&hidden, shown > 0).as_str());
    }
    text
}

/// What is printed of a strand.
pub open spec fn strand_text(strand: AffectedStrandView, focused: Set<Seq<char>>) -> Seq<char> {
    "\n### "@ + strand.id + " ["@ + (if strand.direct {
        "direct"@
    } else {
        "connected"@
    }) + "]\nIntent: "@ + strand.intent + "\n"@ + anchors_text(strand.anchors, focused)
}

/// What is printed of the first `n` strands.
pub open spec fn strands_text(
    strands: Seq<AffectedStrandView>,
    focused: Set<Seq<char>>,
    n: int,
) -> Seq<char>
    decreases n,
{
    if n <= 0 {
        seq![]
    } else {
        strands_text(strands, focused, n - 1) + strand_text(strands[n - 1], focused)
    }
}

/// What is printed of strands.
fn text_of_strands(strands: &Vec<AffectedStrand>, focused: &StringMap<usize>) -> (r: String)
    ensures
        r@ == strands_text(strands.deep_view(), focused@.dom(), strands@.len() as int),
{
    let ghost all = strands.deep_view();
    let ghost dom = focused@.dom();
    let mut out = String::new();
    let mut i: usize = 0;
    assert(out@ =~= seq![]);
    while i < strands.len()
        invariant
            i <= strands@.len(),
            all == strands.deep_view(),
            dom == focused@.dom(),
            out@ == strands_text(all, dom, i as int),
        decreases strands@.len() - i,
    {
        let strand = &strands[i];
        assert(all[i as int] == strand@);
        let mut text = "\n### ".to_owned();
        text.push_str(strand.id.as_str());
        text.push_str(" [");
        text.push_str(
            if strand.direct {
                "direct"
            } else {
                "connected"
            },
        );
        text.push_str("]\nIntent: ");
        text.push_str(strand.intent.as_str());
        text.push_str("\n");
        text.push_str(text_of_anchors(&strand.anchors, focused).as_str());
        out.push_str(text.as_str());
        i += 1;
    }
    out
}

/// The first `n` texts as a list, a line each.
pub open spec fn list_text(items: Seq<Seq<char>>, n: int) -> Seq<char>
    decreases n,
{
    if n <= 0 {
        seq![]
    } else {
        list_text(items, n - 1) + ("- "@ + items[n - 1] + "\n"@)
    }
}

/// Texts as a list, a line each.
fn text_of_list(items: &Vec<String>) -> (r: String)
    ensures
        r@ == list_text(items.deep_view(), items@.len() as int),
{
    let ghost all = items.deep_view();
    let mut out = String::new();
    let mut i: usize = 0;
    assert(out@ =~= seq![]);
    while i < items.len()
        invariant
            i <= items@.len(),
            all == items.deep_view(),
            out@ == list_text(all, i as int),
        decreases items@.len() - i,
    {
        assert(all[i as int] == items@[i as int]@);
        let mut text = "- ".to_owned();
        text.push_str(items[i].as_str());
        text.push_str("\n");
        out.push_str(text.as_str());
        i += 1;
    }
    out
}

/// What is printed of a selection before its source.
pub open spec fn selection_text(packet: ContextPacketView, focused: Set<Seq<char>>) -> Seq<char> {
    "# Strandmap context\nSelection: "@ + packet.changes.description + "\n"@ + (if
    packet.changes.files.len() == 0 {
        ""@
    } else {
        "Changed files: "@ + decimal(packet.changes.files.len()) + "\n"@ + changed_files_text(
            packet.changes.files,
            packet.changes.files.len() as int,
        )
    }) + "\n## Strands ("@ + decimal(packet.strands.len()) + ")\n"@ + (if packet.strands.len()
        == 0 {
        "No strands selected.\n"@
    } else {
        ""@
    }) + strands_text(packet.strands, focused, packet.strands.len() as int) + (if
    packet.related_anchors.len() == 0 {
        ""@
    } else {
        "\n## Related anchors ("@ + decimal(packet.related_anchors.len()) + ")\n"@ + anchors_text(
            packet.related_anchors,
            focused,
        )
    }) + (if packet.unmatched_files.len() == 0 {
        ""@
    } else {
        "\n## Unmatched changed files\n"@ + list_text(
            packet.unmatched_files,
            packet.unmatched_files.len() as int,
        )
    })
}

/// What is printed of a selection before its source.
fn text_of_selection(packet: &ContextPacket, focused: &StringMap<usize>) -> (r: String)
    ensures
        r@ == selection_text(packet@, focused@.dom()),
{
    assert(packet.changes.files@.len() == packet.changes.files.deep_view().len());
    assert(packet.strands@.len() == packet.strands.deep_view().len());
    assert(packet.related_anchors@.len() == packet.related_anchors.deep_view().len());
    assert(packet.unmatched_files@.len() == packet.unmatched_files.deep_view().len());
    let mut out = "# Strandmap context\nSelection: ".to_owned();
    out.push_str(packet.changes.description.as_str());
    out.push_str("\n");
    if packet.changes.files.len() == 0 {
        out.push_str("");
    } else {
        let mut text = "Changed files: ".to_owned();
        text.push_str(number(packet.changes.files.len()).as_str());
        text.push_str("\n");
        text.push_str(text_of_changed_files(&packet.changes.files).as_str());
        out.push_str(text.as_str());
    }
    out.push_str("\n## Strands (");
    out.push_str(number(packet.strands.len()).as_str());
    out.push_str(")\n");
    if packet.strands.len() == 0 {
        out.push_str("No strands selected.\n");
    } else {
        out.push_str("");
    }
    out.push_str(text_of_strands(&packet.strands, focused).as_str());
    if packet.related_anchors.len() == 0 {
        out.push_str("");
    } else {
        let mut text = "\n## Related anchors (".to_owned();
        text.push_str(number(packet.related_anchors.len()).as_str());
        text.push_str(")\n");
        text.push_str(text_of_anchors(&packet.related_anchors, focused).as_str());
        out.push_str(text.as_str());
    }
    if packet.unmatched_files.len() == 0 {
        out.push_str("");
    } else {
        let mut text = "\n## Unmatched changed files\n".to_owned();
        text.push_str(text_of_list(&packet.unmatched_files).as_str());
        out.push_str(text.as_str());
    }
    out
}

/// How many backquotes stand right before position `n`.
pub open spec fn quotes_before(s: Seq<char>, n: int) -> nat
    decreases n,
{
    if n <= 0 || s[n - 1] != '`' {
        0
    } else {
        quotes_before(s, n - 1) + 1
    }
}

/// The longest run of backquotes that ends at or before position `n`.
pub open spec fn longest_quotes(s: Seq<char>, n: int) -> nat
    decreases n,
{
    if n <= 0 {
        0
    } else if quotes_before(s, n) > longest_quotes(s, n - 1) {
        quotes_before(s, n)
    } else {
        longest_quotes(s, n - 1)
    }
}

/// What stands around source: at least three backquotes, and more than it has in a row.
pub open spec fn fence_of(source: Seq<char>) -> Seq<char> {
    let longest = longest_quotes(source, source.len() as int);
    Seq::new(
        if longest < 2 {
            3
        } else {
            longest + 1
        },
        |i: int| '`',
    )
}

/// What stands around source.
pub fn code_fence(source: &str) -> (r: String)
    ensures
        r@ == fence_of(source@),
{
    let chars = chars_of(source);
    let mut longest: usize = 0;
    let mut run: usize = 0;
    let mut i: usize = 0;
    while i < chars.len()
        invariant
            i <= chars@.len(),
            chars@ == source@,
            run <= i,
            longest <= i,
            run == quotes_before(source@, i as int),
            longest == longest_quotes(source@, i as int),
        decreases chars@.len() - i,
    {
        if chars[i] == '`' {
            run += 1;
        } else {
            run = 0;
        }
        if run > longest {
            longest = run;
        }
        i += 1;
    }
    let ghost wanted = fence_of(source@);
    let mut fence = "```".to_owned();
    proof {
        reveal_strlit("```");
    }
    let mut n: usize = 2;
    assert(fence@ =~= wanted.take(3));
    while n < longest
        invariant
            2 <= n,
            n <= longest || n == 2,
            wanted == fence_of(source@),
            longest == longest_quotes(source@, source@.len() as int),
            fence@ == wanted.take(n + 1),
        decreases longest - n,
    {
        fence.push('`');
        assert(fence@ =~= wanted.take(n + 2));
        n += 1;
    }
    assert(fence@ =~= wanted);
    fence
}

/// Why an excerpt is printed.
pub open spec fn excerpt_marker(excerpt: ExcerptView) -> Seq<char> {
    if excerpt.priority == 0 && excerpt.matched {
        "match"@
    } else if excerpt.priority == 0 {
        "focused"@
    } else if excerpt.priority == 1 {
        "direct"@
    } else if excerpt.priority == 2 {
        "selected-strand"@
    } else {
        "candidate"@
    }
}

/// What is printed of an excerpt.
pub open spec fn excerpt_text(excerpt: ExcerptView, number: int) -> Seq<char> {
    "\n### E"@ + decimal(number as nat) + " "@ + excerpt.path + "#L"@ + decimal(
        excerpt.start as nat,
    ) + "-L"@ + decimal(excerpt.end as nat) + " ["@ + excerpt_marker(excerpt) + "]\n"@ + fence_of(
        excerpt.source,
    ) + (match excerpt.language {
        Some(language) => language,
        None => ""@,
    }) + "\n"@ + excerpt.source + "\n"@ + fence_of(excerpt.source) + "\n"@
}

/// What is printed of the first `n` excerpts.
pub open spec fn excerpts_text(excerpts: Seq<ExcerptView>, n: int) -> Seq<char>
    decreases n,
{
    if n <= 0 {
        seq![]
    } else {
        excerpts_text(excerpts, n - 1) + excerpt_text(excerpts[n - 1], n)
    }
}

/// Why an excerpt is printed.
fn marker_of(excerpt: &Excerpt) -> (r: &'static str)
    ensures
        r@ == excerpt_marker(excerpt@),
{
    if excerpt.priority == 0 && excerpt.matched {
        "match"
    } else if excerpt.priority == 0 {
        "focused"
    } else if excerpt.priority == 1 {
        "direct"
    } else if excerpt.priority == 2 {
        "selected-strand"
    } else {
        "candidate"
    }
}

/// What is printed of an excerpt.
fn text_of_excerpt(excerpt: &Excerpt, count: usize) -> (r: String)
    ensures
        r@ == excerpt_text(excerpt@, count as int),
{
    let fence = code_fence(excerpt.source.as_str());
    let mut text = "\n### E".to_owned();
    text.push_str(number(count).as_str());
    text.push_str(" ");
    text.push_str(excerpt.path.as_str());
    text.push_str("#L");
    text.push_str(decimal_text(excerpt.start as u64).as_str());
    text.push_str("-L");
    text.push_str(decimal_text(excerpt.end as u64).as_str());
    text.push_str(" [");
    text.push_str(marker_of(excerpt));
    text.push_str("]\n");
    text.push_str(fence.as_str());
    match &excerpt.language {
        Some(language) => text.push_str(language.as_str()),
        None => text.push_str(""),
    }
    text.push_str("\n");
    text.push_str(excerpt.source.as_str());
    text.push_str("\n");
    text.push_str(fence.as_str());
    text.push_str("\n");
    text
}

/// What is printed of excerpts.
fn text_of_excerpts(excerpts: &Vec<Excerpt>) -> (r: String)
    ensures
        r@ == excerpts_text(excerpts.deep_view(), excerpts@.len() as int),
{
    let ghost all = excerpts.deep_view();
    let mut out = String::new();
    let mut i: usize = 0;
    assert(out@ =~= seq![]);
    while i < excerpts.len()
        invariant
            i <= excerpts@.len(),
            all == excerpts.deep_view(),
            out@ == excerpts_text(all, i as int),
        decreases excerpts@.len() - i,
    {
        assert(all[i as int] == excerpts@[i as int]@);
        out.push_str(text_of_excerpt(&excerpts[i], i + 1).as_str());
        i += 1;
    }
    out
}

/// How often each path occurs among the first `n`.
pub open spec fn path_counts(paths: Seq<Seq<char>>, n: int) -> Map<Seq<char>, usize>
    decreases n,
{
    if n <= 0 {
        Map::empty()
    } else {
        let before = path_counts(paths, n - 1);
        let path = paths[n - 1];
        before.insert(
            path,
            if before.contains_key(path) {
                (before[path] + 1) as usize
            } else {
                1
            },
        )
    }
}

/// How often each path occurs.
fn count_paths(paths: &Vec<String>) -> (r: StringMap<usize>)
    ensures
        r@ == path_counts(paths.deep_view(), paths@.len() as int),
{
    let ghost all = paths.deep_view();
    let mut counts: StringMap<usize> = StringMap::new();
    let mut i: usize = 0;
    while i < paths.len()
        invariant
            i <= paths@.len(),
            all == paths.deep_view(),
            counts@ == path_counts(all, i as int),
            forall|path: Seq<char>| #[trigger] counts@.contains_key(path) ==> counts@[path] <= i,
        decreases paths@.len() - i,
    {
        assert(all[i as int] == paths@[i as int]@);
        let next: usize = match counts.get(paths[i].as_str()) {
            Some(count) => {
                assert(counts@.contains_key(all[i as int]));
                *count + 1
            },
            None => 1,
        };
        counts.insert(paths[i].clone(), next);
        i += 1;
    }
    counts
}

/// How many paths are printed with their counts.
pub const COUNTED_PATHS: usize = 8;

/// The first `n` paths with their counts.
pub open spec fn counts_text(counts: Map<Seq<char>, usize>, n: int) -> Seq<char>
    decreases n,
{
    if n <= 0 {
        seq![]
    } else {
        let path = ordered(counts.dom())[n - 1];
        counts_text(counts, n - 1) + ("  - "@ + path + ": "@ + decimal(counts[path] as nat)
            + "\n"@)
    }
}

/// Paths with their counts, up to a number.
pub open spec fn path_summary(counts: Map<Seq<char>, usize>) -> Seq<char> {
    let count = ordered(counts.dom()).len();
    if count > COUNTED_PATHS {
        counts_text(counts, COUNTED_PATHS as int) + "  - … "@ + decimal(
            (count - COUNTED_PATHS) as nat,
        ) + " additional files\n"@
    } else {
        counts_text(counts, count as int)
    }
}

/// Paths with their counts, up to a number.
fn summarize_paths(counts: &StringMap<usize>) -> (r: String)
    ensures
        r@ == path_summary(counts@),
{
    let count: usize = counts.len();
    let shown: usize = if count > COUNTED_PATHS {
        COUNTED_PATHS
    } else {
        count
    };
    let mut out = String::new();
    let mut i: usize = 0;
    assert(out@ =~= seq![]);
    while i < shown
        invariant
            i <= shown,
            shown <= count,
            count == ordered(counts@.dom()).len(),
            out@ == counts_text(counts@, i as int),
        decreases shown - i,
    {
        let mut text = "  - ".to_owned();
        text.push_str(counts.key_at(i).as_str());
        text.push_str(": ");
        text.push_str(number(*counts.value_at(i)).as_str());
        text.push_str("\n");
        out.push_str(text.as_str());
        i += 1;
    }
    if count > COUNTED_PATHS {
        out.push_str("  - … ");
        out.push_str(number(count - COUNTED_PATHS).as_str());
        out.push_str(" additional files\n");
    }
    out
}

/// The paths of lines that are left out.
pub open spec fn filtered_paths(filtered: Seq<FilteredRangeView>) -> Seq<Seq<char>> {
    filtered.map_values(|range: FilteredRangeView| range.path)
}

/// The paths of tests that are left out.
pub open spec fn section_paths(tests: Seq<TestSectionView>) -> Seq<Seq<char>> {
    tests.map_values(|section: TestSectionView| section.path)
}

/// What is printed of source that is left out.
pub open spec fn omitted_text(
    filtered: Seq<FilteredRangeView>,
    tests: Seq<TestSectionView>,
    budget: BudgetView,
    omitted: Seq<Seq<char>>,
) -> Seq<char> {
    let unread = ordered(omitted.to_set());
    let by_filter = path_counts(filtered_paths(filtered), filtered.len() as int);
    let by_test = path_counts(section_paths(tests), tests.len() as int);
    let by_budget = path_counts(budget.omitted, budget.omitted.len() as int);
    if filtered.len() == 0 && tests.len() == 0 && budget.omitted.len() == 0 && omitted.len() == 0 {
        ""@
    } else {
        "\n## Omitted source excerpts\n"@ + (if filtered.len() == 0 {
            ""@
        } else {
            "- Source filters excluded "@ + decimal(filtered.len())
                + " anchored ranges across "@ + decimal(ordered(by_filter.dom()).len())
                + " files.\n"@ + path_summary(by_filter)
        }) + (if tests.len() == 0 {
            ""@
        } else {
            "- Omitted "@ + decimal(tests.len()) + " Rust test sections across "@ + decimal(
                ordered(by_test.dom()).len(),
            ) + " files.\n"@
        }) + (if budget.omitted.len() == 0 {
            ""@
        } else {
            "- Context budget omitted "@ + decimal(budget.omitted.len())
                + " complete source excerpts (~"@ + decimal(budget.tokens)
                + " tokens) across "@ + decimal(ordered(by_budget.dom()).len()) + " files.\n"@
                + path_summary(by_budget)
        }) + list_text(unread, unread.len() as int)
    }
}

/// The paths of lines that are left out.
fn paths_of_filtered(filtered: &Vec<FilteredRange>) -> (r: Vec<String>)
    ensures
        r.deep_view() == filtered_paths(filtered.deep_view()),
{
    let ghost all = filtered.deep_view();
    let mut out: Vec<String> = Vec::new();
    let mut i: usize = 0;
    while i < filtered.len()
        invariant
            i <= filtered@.len(),
            all == filtered.deep_view(),
            out@.len() == i,
            forall|k: int| 0 <= k < i ==> #[trigger] out@[k]@ == all[k].path,
        decreases filtered@.len() - i,
    {
        assert(all[i as int] == filtered@[i as int]@);
        out.push(filtered[i].path.clone());
        i += 1;
    }
    assert(out.deep_view() =~= filtered_paths(all));
    out
}

/// The paths of tests that are left out.
fn paths_of_sections(tests: &Vec<TestSection>) -> (r: Vec<String>)
    ensures
        r.deep_view() == section_paths(tests.deep_view()),
{
    let ghost all = tests.deep_view();
    let mut out: Vec<String> = Vec::new();
    let mut i: usize = 0;
    while i < tests.len()
        invariant
            i <= tests@.len(),
            all == tests.deep_view(),
            out@.len() == i,
            forall|k: int| 0 <= k < i ==> #[trigger] out@[k]@ == all[k].path,
        decreases tests@.len() - i,
    {
        assert(all[i as int] == tests@[i as int]@);
        out.push(tests[i].path.clone());
        i += 1;
    }
    assert(out.deep_view() =~= section_paths(all));
    out
}

/// The texts of a set as a list, a line each.
fn text_of_set(items: &StringSet) -> (r: String)
    ensures
        r@ == list_text(ordered(items@), ordered(items@).len() as int),
{
    let n: usize = items.len();
    let mut out = String::new();
    let mut i: usize = 0;
    assert(out@ =~= seq![]);
    while i < n
        invariant
            i <= n,
            n == ordered(items@).len(),
            out@ == list_text(ordered(items@), i as int),
        decreases n - i,
    {
        let mut text = "- ".to_owned();
        text.push_str(items.item_at(i).as_str());
        text.push_str("\n");
        out.push_str(text.as_str());
        i += 1;
    }
    out
}

/// What is printed of source that is left out.
fn text_of_omitted(
    filtered: &Vec<FilteredRange>,
    tests: &Vec<TestSection>,
    budget: &Budget,
    omitted: &Vec<String>,
) -> (r: String)
    ensures
        r@ == omitted_text(
            filtered.deep_view(),
            tests.deep_view(),
            (BudgetView {
                included: budget.included.deep_view(),
                omitted: budget.omitted.deep_view(),
                tokens: budget.tokens as nat,
            }),
            omitted.deep_view(),
        ),
{
    assert(filtered@.len() == filtered.deep_view().len());
    assert(tests@.len() == tests.deep_view().len());
    assert(budget.omitted@.len() == budget.omitted.deep_view().len());
    assert(omitted@.len() == omitted.deep_view().len());
    if filtered.len() == 0 && tests.len() == 0 && budget.omitted.len() == 0 && omitted.len() == 0 {
        return "".to_owned();
    }
    let mut out = "\n## Omitted source excerpts\n".to_owned();
    if filtered.len() == 0 {
        out.push_str("");
    } else {
        let paths = paths_of_filtered(filtered);
        assert(paths@.len() == paths.deep_view().len());
        let counts = count_paths(&paths);
        let mut text = "- Source filters excluded ".to_owned();
        text.push_str(number(filtered.len()).as_str());
        text.push_str(" anchored ranges across ");
        text.push_str(number(counts.len()).as_str());
        text.push_str(" files.\n");
        text.push_str(summarize_paths(&counts).as_str());
        out.push_str(text.as_str());
    }
    if tests.len() == 0 {
        out.push_str("");
    } else {
        let paths = paths_of_sections(tests);
        assert(paths@.len() == paths.deep_view().len());
        let counts = count_paths(&paths);
        let mut text = "- Omitted ".to_owned();
        text.push_str(number(tests.len()).as_str());
        text.push_str(" Rust test sections across ");
        text.push_str(number(counts.len()).as_str());
        text.push_str(" files.\n");
        out.push_str(text.as_str());
    }
    if budget.omitted.len() == 0 {
        out.push_str("");
    } else {
        let counts = count_paths(&budget.omitted);
        let mut text = "- Context budget omitted ".to_owned();
        text.push_str(number(budget.omitted.len()).as_str());
        text.push_str(" complete source excerpts (~");
        text.push_str(wide_decimal_text(budget.tokens).as_str());
        text.push_str(" tokens) across ");
        text.push_str(number(counts.len()).as_str());
        text.push_str(" files.\n");
        text.push_str(summarize_paths(&counts).as_str());
        out.push_str(text.as_str());
    }
    let unread = set_of(omitted);
    out.push_str(text_of_set(&unread).as_str());
    out
}

/// How many diagnostics are printed.
pub const SHOWN_DIAGNOSTICS: usize = 20;

/// What is printed of a diagnostic.
pub open spec fn diagnostic_text(diagnostic: DiagnosticView) -> Seq<char> {
    "- "@ + severity_name(diagnostic.severity) + " ["@ + diagnostic.code + "] "@ + (match
    diagnostic.path {
        Some(path) => path,
        None => "-"@,
    }) + (match diagnostic.line {
        Some(line) => ":"@ + decimal(line as nat),
        None => ""@,
    }) + ": "@ + diagnostic.message + "\n"@
}

/// The diagnostics among the first `n` that are more than information.
pub open spec fn graver(diagnostics: Seq<DiagnosticView>, n: int) -> Seq<DiagnosticView>
    decreases n,
{
    if n <= 0 {
        seq![]
    } else if diagnostics[n - 1].severity == Severity::Info {
        graver(diagnostics, n - 1)
    } else {
        graver(diagnostics, n - 1).push(diagnostics[n - 1])
    }
}

/// What is printed of the first `n` diagnostics.
pub open spec fn diagnostics_list(diagnostics: Seq<DiagnosticView>, n: int) -> Seq<char>
    decreases n,
{
    if n <= 0 {
        seq![]
    } else {
        diagnostics_list(diagnostics, n - 1) + diagnostic_text(diagnostics[n - 1])
    }
}

/// What is printed of diagnostics.
pub open spec fn diagnostics_text(diagnostics: Seq<DiagnosticView>) -> Seq<char> {
    let all = graver(diagnostics, diagnostics.len() as int);
    if all.len() == 0 {
        ""@
    } else if all.len() > SHOWN_DIAGNOSTICS {
        "\n## Diagnostics\n"@ + diagnostics_list(all, SHOWN_DIAGNOSTICS as int) + "- … "@
            + decimal((all.len() - SHOWN_DIAGNOSTICS) as nat)
            + " additional diagnostics omitted by context budget\n"@
    } else {
        "\n## Diagnostics\n"@ + diagnostics_list(all, all.len() as int)
    }
}

/// What is printed of a diagnostic.
fn text_of_diagnostic(diagnostic: &Diagnostic) -> (r: String)
    ensures
        r@ == diagnostic_text(diagnostic@),
{
    let mut text = "- ".to_owned();
    text.push_str(name_of_severity(diagnostic.severity));
    text.push_str(" [");
    text.push_str(diagnostic.code.as_str());
    text.push_str("] ");
    match &diagnostic.path {
        Some(path) => text.push_str(path.as_str()),
        None => text.push_str("-"),
    }
    match diagnostic.line {
        Some(line) => {
            let mut place = ":".to_owned();
            place.push_str(decimal_text(line as u64).as_str());
            text.push_str(place.as_str());
        },
        None => text.push_str(""),
    }
    text.push_str(": ");
    text.push_str(diagnostic.message.as_str());
    text.push_str("\n");
    text
}

/// The diagnostics that are more than information.
fn graver_diagnostics(diagnostics: &Vec<Diagnostic>) -> (r: Vec<Diagnostic>)
    ensures
        r.deep_view() == graver(diagnostics.deep_view(), diagnostics@.len() as int),
{
    let ghost all = diagnostics.deep_view();
    let mut out: Vec<Diagnostic> = Vec::new();
    let mut i: usize = 0;
    assert(out.deep_view() =~= seq![]);
    while i < diagnostics.len()
        invariant
            i <= diagnostics@.len(),
            all == diagnostics.deep_view(),
            out.deep_view() == graver(all, i as int),
        decreases diagnostics@.len() - i,
    {
        assert(all[i as int] == diagnostics@[i as int]@);
        if diagnostics[i].severity != Severity::Info {
            push_item(&mut out, diagnostics[i].duplicate());
        }
        i += 1;
    }
    out
}

/// What is printed of diagnostics.
fn text_of_diagnostics(diagnostics: &Vec<Diagnostic>) -> (r: String)
    ensures
        r@ == diagnostics_text(diagnostics.deep_view()),
{
    assert(diagnostics@.len() == diagnostics.deep_view().len());
    let all = graver_diagnostics(diagnostics);
    let ghost views = all.deep_view();
    assert(all@.len() == views.len());
    if all.len() == 0 {
        return "".to_owned();
    }
    let shown: usize = if all.len() > SHOWN_DIAGNOSTICS {
        SHOWN_DIAGNOSTICS
    } else {
        all.len()
    };
    let mut list = String::new();
    let mut i: usize = 0;
    assert(list@ =~= seq![]);
    while i < shown
        invariant
            i <= shown,
            shown <= all@.len(),
            views == all.deep_view(),
            list@ == diagnostics_list(views, i as int),
        decreases shown - i,
    {
        assert(views[i as int] == all@[i as int]@);
        list.push_str(text_of_diagnostic(&all[i]).as_str());
        i += 1;
    }
    let mut out = "\n## Diagnostics\n".to_owned();
    out.push_str(list.as_str());
    if all.len() > SHOWN_DIAGNOSTICS {
        out.push_str("- … ");
        out.push_str(number(all.len() - SHOWN_DIAGNOSTICS).as_str());
        out.push_str(" additional diagnostics omitted by context budget\n");
    }
    out
}

/// What is printed of source.
pub open spec fn source_text(excerpts: Seq<ExcerptView>, options: RenderOptionsView) -> Seq<char> {
    if options.source == ContextSource::Nothing {
        ""@
    } else {
        "\n## Source excerpts ("@ + decimal(excerpts.len()) + ")\n"@ + (if
        options.include_rust_tests {
            ""@
        } else {
            "Rust test sections are omitted by default; use `--include-tests` to include them.\n"@
        }) + excerpts_text(excerpts, excerpts.len() as int)
    }
}

/// What is printed of source.
fn text_of_source(excerpts: &Vec<Excerpt>, options: &RenderOptions) -> (r: String)
    ensures
        r@ == source_text(excerpts.deep_view(), options@),
{
    assert(excerpts@.len() == excerpts.deep_view().len());
    if options.source == ContextSource::Nothing {
        return "".to_owned();
    }
    let mut out = "\n## Source excerpts (".to_owned();
    out.push_str(number(excerpts.len()).as_str());
    out.push_str(")\n");
    if options.include_rust_tests {
        out.push_str("");
    } else {
        out.push_str(
            "Rust test sections are omitted by default; use `--include-tests` to include them.\n",
        );
    }
    out.push_str(text_of_excerpts(excerpts).as_str());
    out
}

/// The files whose content is wanted, or what is wrong with the options.
pub open spec fn wanted_paths(packet: ContextPacketView, options: RenderOptionsView) -> Result<
    Set<Seq<char>>,
    Seq<char>,
> {
    match filters_of(options) {
        Err(message) => Err(message),
        Ok(filters) => {
            let requests = requests_of(packet, options, filters).0;
            Ok(request_paths(requests, requests.len() as int))
        },
    }
}

/// The files whose content is wanted.
pub fn requested_paths(packet: &ContextPacket, options: &RenderOptions) -> (r: Result<
    StringSet,
    String,
>)
    ensures
        outcome(r) == wanted_paths(packet@, options@),
{
    let filters = match SourceFilters::new(options) {
        Ok(filters) => filters,
        Err(message) => {
            return Err(message);
        },
    };
    let (requests, _) = collect_requests(packet, options, &filters);
    assert(requests@.len() == requests.deep_view().len());
    Ok(paths_of_requests(&requests))
}

/// The excerpts that are printed of loaded source, and what the budget leaves out.
pub open spec fn budgeted(excerpts: Seq<ExcerptView>, budget: Option<usize>) -> BudgetView {
    let sorted = sort_excerpts(excerpts);
    let selection = selected(sorted, budget, sorted.len() as int);
    let accounted_for = accounted(
        merged_excerpts(selection.included),
        selection.excluded,
        selection.excluded.len() as int,
    );
    BudgetView { included: sort_excerpts(accounted_for.included), ..accounted_for }
}

/// What is printed of requests whose source was loaded.
pub open spec fn printed(
    packet: ContextPacketView,
    options: RenderOptionsView,
    filtered: Seq<FilteredRangeView>,
    loaded: LoadedSourceView,
) -> Seq<char> {
    let budget = budgeted(loaded.excerpts, options.token_budget);
    selection_text(packet, options.focused_anchors.dom()) + source_text(budget.included, options)
        + omitted_text(filtered, loaded.tests, budget, loaded.omitted) + diagnostics_text(
        packet.diagnostics,
    )
}

/// The context that is printed. `contents` holds the content of each wanted file.
pub open spec fn rendered(
    packet: ContextPacketView,
    options: RenderOptionsView,
    contents: Map<Seq<char>, FileContentView>,
) -> Result<Seq<char>, Seq<char>> {
    match filters_of(options) {
        Err(message) => Err(message),
        Ok(filters) => {
            let (requests, filtered) = requests_of(packet, options, filters);
            let paths = ordered(request_paths(requests, requests.len() as int));
            Ok(
                printed(
                    packet,
                    options,
                    filtered,
                    source_of(requests, contents, options, paths.len() as int),
                ),
            )
        },
    }
}

/// The excerpts that are printed of loaded source, and what the budget leaves out.
fn apply_budget(excerpts: &Vec<Excerpt>, budget: Option<usize>) -> (r: Budget)
    ensures
        budgeted(excerpts.deep_view(), budget) == (BudgetView {
            included: r.included.deep_view(),
            omitted: r.omitted.deep_view(),
            tokens: r.tokens as nat,
        }),
{
    let sorted = sorted_excerpts(excerpts);
    assert(sorted@.len() == sorted.deep_view().len());
    let (included, excluded) = select_excerpts(&sorted, budget);
    assert(excluded@.len() == excluded.deep_view().len());
    let merged = merge_included_excerpts(&included);
    let all = account_for(merged, &excluded);
    let shown = sorted_excerpts(&all.included);
    Budget { included: shown, omitted: all.omitted, tokens: all.tokens }
}

/// Whether the content of each wanted file is there.
pub open spec fn is_loaded(
    packet: ContextPacketView,
    options: RenderOptionsView,
    contents: Map<Seq<char>, FileContentView>,
) -> bool {
    wanted_paths(packet, options) matches Ok(paths) ==> forall|path: Seq<char>|
        paths.contains(path) ==> #[trigger] contents.contains_key(path)
}

/// The context that is printed, where the content of each wanted file is there.
pub fn render_loaded(
    packet: &ContextPacket,
    options: &RenderOptions,
    contents: &StringMap<FileContent>,
) -> (r: Option<Result<String, String>>)
    ensures
        match r {
            Some(text) => is_loaded(packet@, options@, contents@) && outcome(text) == rendered(
                packet@,
                options@,
                contents@,
            ),
            None => !is_loaded(packet@, options@, contents@),
        },
{
    match requested_paths(packet, options) {
        Ok(paths) => {
            let count: usize = paths.len();
            let mut i: usize = 0;
            while i < count
                invariant
                    i <= count,
                    count == ordered(paths@).len(),
                    ordered(paths@).to_set() == paths@,
                    wanted_paths(packet@, options@) == Ok::<Set<Seq<char>>, Seq<char>>(paths@),
                    forall|k: int|
                        0 <= k < i ==> contents@.contains_key(#[trigger] ordered(paths@)[k]),
                decreases count - i,
            {
                let path = paths.item_at(i);
                if !contents.contains_key(path.as_str()) {
                    return None;
                }
                i += 1;
            }
            assert forall|path: Seq<char>| paths@.contains(path) implies contents@.contains_key(
                path,
            ) by {
                assert(ordered(paths@).to_set().contains(path));
                let k = ordered(paths@).index_of(path);
                assert(ordered(paths@)[k] == path);
            }
        },
        Err(_) => {},
    }
    Some(render(packet, options, contents))
}

/// The context that is printed. `contents` holds the content of each wanted file.
pub fn render(
    packet: &ContextPacket,
    options: &RenderOptions,
    contents: &StringMap<FileContent>,
) -> (r: Result<String, String>)
    requires
        is_loaded(packet@, options@, contents@),
    ensures
        outcome(r) == rendered(packet@, options@, contents@),
{
    let filters = match SourceFilters::new(options) {
        Ok(filters) => filters,
        Err(message) => {
            return Err(message);
        },
    };
    let (requests, filtered) = collect_requests(packet, options, &filters);
    assert(requests@.len() == requests.deep_view().len());
    proof {
        lemma_requests_start(packet@, options@, filters@);
    }
    let loaded = load_excerpts(&requests, contents, options);
    let budget = apply_budget(&loaded.excerpts, options.token_budget);
    let mut out = text_of_selection(packet, &options.focused_anchors);
    out.push_str(text_of_source(&budget.included, options).as_str());
    out.push_str(text_of_omitted(&filtered, &loaded.tests, &budget, &loaded.omitted).as_str());
    out.push_str(text_of_diagnostics(&packet.diagnostics).as_str());
    Ok(out)
}

/// All requests start at a line.
pub(crate) proof fn lemma_requests_start(
    packet: ContextPacketView,
    options: RenderOptionsView,
    filters: SourceFiltersView,
)
    ensures
        starts_are_lines(requests_of(packet, options, filters).0),
{
    let hits = if options.source == ContextSource::Direct || options.source == ContextSource::All {
        hit_requests(
            options.source_matches,
            options.context_lines,
            options.source_matches.len() as int,
        )
    } else {
        seq![]
    };
    lemma_hit_starts(
        options.source_matches,
        options.context_lines,
        options.source_matches.len() as int,
    );
    lemma_all_strand_starts(hits, packet.strands, options, packet.strands.len() as int);
    lemma_related_starts(
        with_all_strand_requests(hits, packet.strands, options, packet.strands.len() as int),
        packet.related_anchors,
        options,
        packet.related_anchors.len() as int,
    );
    let wanted = wanted_requests(packet, options);
    lemma_bounded_starts(wanted, wanted.len() as int);
    let bounded = without_redundant(wanted, wanted.len() as int);
    lemma_allowed_starts(bounded, filters, bounded.len() as int);
}

proof fn lemma_hit_starts(hits: Seq<SearchHitView>, context: u32, n: int)
    ensures
        starts_are_lines(hit_requests(hits, context, n)),
    decreases n,
{
    if n > 0 {
        lemma_hit_starts(hits, context, n - 1);
    }
}

proof fn lemma_strand_starts(
    requests: Seq<RequestView>,
    strand: AffectedStrandView,
    options: RenderOptionsView,
    n: int,
)
    requires
        starts_are_lines(requests),
    ensures
        starts_are_lines(with_strand_requests(requests, strand, options, n)),
    decreases n,
{
    if n > 0 {
        lemma_strand_starts(requests, strand, options, n - 1);
    }
}

proof fn lemma_all_strand_starts(
    requests: Seq<RequestView>,
    strands: Seq<AffectedStrandView>,
    options: RenderOptionsView,
    n: int,
)
    requires
        starts_are_lines(requests),
    ensures
        starts_are_lines(with_all_strand_requests(requests, strands, options, n)),
    decreases n,
{
    if n > 0 {
        lemma_all_strand_starts(requests, strands, options, n - 1);
        lemma_strand_starts(
            with_all_strand_requests(requests, strands, options, n - 1),
            strands[n - 1],
            options,
            strands[n - 1].anchors.len() as int,
        );
    }
}

proof fn lemma_related_starts(
    requests: Seq<RequestView>,
    anchors: Seq<AffectedAnchorView>,
    options: RenderOptionsView,
    n: int,
)
    requires
        starts_are_lines(requests),
    ensures
        starts_are_lines(with_related_requests(requests, anchors, options, n)),
    decreases n,
{
    if n > 0 {
        lemma_related_starts(requests, anchors, options, n - 1);
    }
}

proof fn lemma_bounded_starts(requests: Seq<RequestView>, n: int)
    requires
        starts_are_lines(requests),
        n <= requests.len(),
    ensures
        starts_are_lines(without_redundant(requests, n)),
    decreases n,
{
    if n > 0 {
        lemma_bounded_starts(requests, n - 1);
    }
}

proof fn lemma_allowed_starts(requests: Seq<RequestView>, filters: SourceFiltersView, n: int)
    requires
        starts_are_lines(requests),
        n <= requests.len(),
    ensures
        starts_are_lines(allowed_requests(requests, filters, n).0),
    decreases n,
{
    if n > 0 {
        lemma_allowed_starts(requests, filters, n - 1);
    }
}

} // verus!

//! Sets of glob patterns.

use vstd::prelude::*;

use crate::text::{debug_quoted, debug_text};

verus! {

/// A glob pattern.
#[verifier::external_type_specification]
#[verifier::external_body]
pub struct ExGlob(globset::Glob);

/// Glob patterns that are put together.
#[verifier::external_type_specification]
#[verifier::external_body]
pub struct ExGlobSetBuilder(globset::GlobSetBuilder);

/// A set of glob patterns.
#[verifier::external_type_specification]
#[verifier::external_body]
pub struct ExGlobSet(globset::GlobSet);

/// The text of a pattern, as `globset::Glob::glob` gives it.
pub uninterp spec fn glob_text(glob: globset::Glob) -> Seq<char>;

/// The texts of the patterns that are put together, in the order added.
pub uninterp spec fn builder_globs(builder: globset::GlobSetBuilder) -> Seq<Seq<char>>;

/// The texts of the patterns of a set, in the order added.
pub uninterp spec fn set_globs(set: globset::GlobSet) -> Seq<Seq<char>>;

/// Why a text is no pattern, if so.
pub uninterp spec fn glob_problem(text: Seq<char>) -> Option<Seq<char>>;

/// Why patterns make no set, if so.
pub uninterp spec fn set_problem(globs: Seq<Seq<char>>) -> Option<Seq<char>>;

/// Whether a pattern matches a path.
pub uninterp spec fn glob_matches(glob: Seq<char>, path: Seq<char>) -> bool;

/// Reads a pattern with `globset::Glob::new`, which keeps its text. Which texts are patterns
/// is left to that function.
#[verifier::external_body]
pub(crate) fn read_glob(text: &str) -> (r: Result<globset::Glob, String>)
    ensures
        match r {
            Ok(glob) => glob_problem(text@) is None && glob_text(glob) == text@,
            Err(message) => glob_problem(text@) == Some(message@),
        },
{
    globset::Glob::new(text).map_err(|error| error.to_string())
}

/// Starts with no pattern, with `globset::GlobSetBuilder::new`.
#[verifier::external_body]
pub(crate) fn new_builder() -> (r: globset::GlobSetBuilder)
    ensures
        builder_globs(r) == Seq::<Seq<char>>::empty(),
{
    globset::GlobSetBuilder::new()
}

/// Adds a pattern behind the others, with `globset::GlobSetBuilder::add`.
#[verifier::external_body]
pub(crate) fn add_glob(builder: &mut globset::GlobSetBuilder, glob: globset::Glob)
    ensures
        builder_globs(*final(builder)) == builder_globs(*old(builder)).push(glob_text(glob)),
{
    builder.add(glob);
}

/// Makes a set of all patterns added, with `globset::GlobSetBuilder::build`. Which patterns
/// are too large for a set is left to that function.
#[verifier::external_body]
pub(crate) fn build_set(builder: &globset::GlobSetBuilder) -> (r: Result<globset::GlobSet, String>)
    ensures
        match r {
            Ok(set) => set_problem(builder_globs(*builder)) is None && set_globs(set)
                == builder_globs(*builder),
            Err(message) => set_problem(builder_globs(*builder)) == Some(message@),
        },
{
    builder.build().map_err(|error| error.to_string())
}

/// Tells whether one of the patterns of a set matches a path, with
/// `globset::GlobSet::is_match`. What a pattern matches is left to that function.
#[verifier::external_body]
pub(crate) fn set_matches(set: &globset::GlobSet, path: &str) -> (r: bool)
    ensures
        r == (exists|i: int|
            0 <= i < set_globs(*set).len() && glob_matches(#[trigger] set_globs(*set)[i], path@)),
{
    set.is_match(path)
}

/// Whether one of some patterns matches a path.
pub open spec fn one_matches(globs: Seq<Seq<char>>, path: Seq<char>) -> bool {
    exists|i: int| 0 <= i < globs.len() && glob_matches(#[trigger] globs[i], path)
}

/// What is wrong with the first `n` patterns of a field: the first that is none.
pub open spec fn globs_problem(globs: Seq<Seq<char>>, field: Seq<char>, n: int) -> Option<Seq<char>>
    decreases n,
{
    if n <= 0 {
        None
    } else {
        match globs_problem(globs, field, n - 1) {
            Some(message) => Some(message),
            None => match glob_problem(globs[n - 1]) {
                None => None,
                Some(reason) => Some(
                    "invalid glob in "@ + field + ": "@ + debug_quoted(globs[n - 1]) + ": "@
                        + reason,
                ),
            },
        }
    }
}

/// What is wrong with the patterns of a field.
pub open spec fn compile_problem(globs: Seq<Seq<char>>, field: Seq<char>) -> Option<Seq<char>> {
    match globs_problem(globs, field, globs.len() as int) {
        Some(message) => Some(message),
        None => match set_problem(globs) {
            None => None,
            Some(reason) => Some("failed to compile glob set"@ + ": "@ + reason),
        },
    }
}

proof fn lemma_globs_problem(globs: Seq<Seq<char>>, field: Seq<char>, n: int, m: int)
    requires
        n <= m,
        globs_problem(globs, field, n) is Some,
    ensures
        globs_problem(globs, field, m) == globs_problem(globs, field, n),
    decreases m - n,
{
    if n < m {
        lemma_globs_problem(globs, field, n, m - 1);
    }
}

/// The set of the patterns of a field.
pub fn compile_globs(patterns: &Vec<String>, field: &str) -> (r: Result<globset::GlobSet, String>)
    ensures
        match r {
            Ok(set) => compile_problem(patterns.deep_view(), field@) is None && set_globs(set)
                == patterns.deep_view(),
            Err(message) => compile_problem(patterns.deep_view(), field@) == Some(message@),
        },
{
    let ghost all = patterns.deep_view();
    let mut builder = new_builder();
    let mut i: usize = 0;
    assert(all.take(0) =~= seq![]);
    while i < patterns.len()
        invariant
            i <= patterns@.len(),
            all == patterns.deep_view(),
            builder_globs(builder) == all.take(i as int),
            globs_problem(all, field@, i as int) is None,
        decreases patterns@.len() - i,
    {
        assert(all[i as int] == patterns@[i as int]@);
        match read_glob(patterns[i].as_str()) {
            Ok(glob) => {
                add_glob(&mut builder, glob);
            },
            Err(reason) => {
                let mut message = "invalid glob in ".to_owned();
                message.push_str(field);
                message.push_str(": ");
                message.push_str(debug_text(patterns[i].as_str()).as_str());
                message.push_str(": ");
                message.push_str(reason.as_str());
                proof {
                    lemma_globs_problem(all, field@, i + 1, all.len() as int);
                }
                return Err(message);
            },
        }
        assert(all.take(i + 1) =~= all.take(i as int).push(all[i as int]));
        i += 1;
    }
    assert(all.take(all.len() as int) =~= all);
    match build_set(&builder) {
        Ok(set) => Ok(set),
        Err(reason) => {
            let mut message = "failed to compile glob set".to_owned();
            message.push_str(": ");
            message.push_str(reason.as_str());
            Err(message)
        },
    }
}

} // verus!

//! Changes of a repository, as git tells them.

use vstd::prelude::*;

use crate::annotations::without_here;
use crate::cli::ChangeArgs;
use crate::collections::{increasing, ordered, StringMap};
use crate::config::{climbs, path_climbs, GitConfig, GitConfigView};
use crate::model::{
    ChangeSet, ChangeSetView, ChangeStatus, ChangedFile, ChangedFileView, LineRange, LineRangeView,
    RemovedLine, RemovedLineView,
};
use crate::paths::{below, is_absolute, path_below};
use crate::patterns::{compile, groups, pattern_groups, pattern_of, pattern_problem};
use crate::text::{
    chars_of, ends_with, has_prefix, has_suffix, lines, lines_of, match_at, matches_at, parse_u32,
    replace, replaced, same_option, slice_of, starts_with, string_of, substring, trim, trimmed,
    u32_of,
};
use crate::views::{outcome, push_item, Duplicate};

verus! {

broadcast use crate::views::lemma_chars_deep_view;

/// The header of a hunk of a patch.
pub const HUNK_HEADER: &'static str = r"^@@ -(\d+)(?:,(\d+))? \+(\d+)(?:,(\d+))? @@";

/// Why a patch cannot be read.
#[derive(Debug, Clone, PartialEq, Eq)]
pub enum PatchError {
    /// The pattern of hunk headers does not compile.
    Pattern(String),
    /// A number in a hunk header does not fit in 32 bits.
    Number(String),
}

/// The mathematical content of a [`PatchError`].
pub ghost enum PatchErrorView {
    Pattern(Seq<char>),
    Number(Seq<char>),
}

impl View for PatchError {
    type V = PatchErrorView;

    open spec fn view(&self) -> PatchErrorView {
        match self {
            PatchError::Pattern(message) => PatchErrorView::Pattern(message@),
            PatchError::Number(digits) => PatchErrorView::Number(digits@),
        }
    }
}

/// What is read of a patch so far.
#[verifier::ext_equal]
pub ghost struct PatchView {
    /// The files that change.
    pub files: Map<Seq<char>, ChangedFileView>,
    /// The lines that are taken away.
    pub removed: Seq<RemovedLineView>,
    /// The file before the change.
    pub old_path: Option<Seq<char>>,
    /// The file after the change.
    pub new_path: Option<Seq<char>>,
    /// What the file was named before.
    pub rename_from: Option<Seq<char>>,
    /// What it is named after.
    pub rename_to: Option<Seq<char>>,
    /// What the file was copied from.
    pub copy_from: Option<Seq<char>>,
    /// What it was copied to.
    pub copy_to: Option<Seq<char>>,
    /// The line before the change.
    pub old_line: u32,
    /// Whether a hunk is open.
    pub in_hunk: bool,
    /// How many lines the hunk is still to give of the file before the change.
    pub old_left: u32,
    /// How many lines the hunk is still to give of the file after the change.
    pub new_left: u32,
}

/// What is read of a patch so far.
pub struct Patch {
    /// The files that change.
    pub files: StringMap<ChangedFile>,
    /// The lines that are taken away.
    pub removed: Vec<RemovedLine>,
    /// The file before the change.
    pub old_path: Option<String>,
    /// The file after the change.
    pub new_path: Option<String>,
    /// What the file was named before.
    pub rename_from: Option<String>,
    /// What it is named after.
    pub rename_to: Option<String>,
    /// What the file was copied from.
    pub copy_from: Option<String>,
    /// What it was copied to.
    pub copy_to: Option<String>,
    /// The line before the change.
    pub old_line: u32,
    /// Whether a hunk is open.
    pub in_hunk: bool,
    /// How many lines the hunk is still to give of the file before the change.
    pub old_left: u32,
    /// How many lines the hunk is still to give of the file after the change.
    pub new_left: u32,
}

impl View for Patch {
    type V = PatchView;

    open spec fn view(&self) -> PatchView {
        PatchView {
            files: self.files@,
            removed: self.removed.deep_view(),
            old_path: self.old_path.deep_view(),
            new_path: self.new_path.deep_view(),
            rename_from: self.rename_from.deep_view(),
            rename_to: self.rename_to.deep_view(),
            copy_from: self.copy_from.deep_view(),
            copy_to: self.copy_to.deep_view(),
            old_line: self.old_line,
            in_hunk: self.in_hunk,
            old_left: self.old_left,
            new_left: self.new_left,
        }
    }
}

/// The first of two paths that is there.
pub open spec fn either(a: Option<Seq<char>>, b: Option<Seq<char>>) -> Option<Seq<char>> {
    if a is Some {
        a
    } else {
        b
    }
}

/// The first of two paths that is there.
fn first_of(a: &Option<String>, b: &Option<String>) -> (r: Option<String>)
    ensures
        r.deep_view() == either(a.deep_view(), b.deep_view()),
{
    match a {
        Some(a) => Some(a.clone()),
        None => b.duplicate(),
    }
}

/// The characters that a quoted path stands for, from position `i` on.
pub open spec fn unescaped(s: Seq<char>, i: int) -> Seq<char>
    decreases s.len() - i,
{
    if i < 0 || i >= s.len() {
        seq![]
    } else if s[i] != '\\' {
        seq![s[i]] + unescaped(s, i + 1)
    } else if i + 1 >= s.len() {
        seq!['\\']
    } else {
        seq![escape_of(s[i + 1])] + unescaped(s, i + 2)
    }
}

/// The character that stands behind a backslash as `c`.
pub open spec fn escape_of(c: char) -> char {
    if c == 'n' {
        '\n'
    } else if c == 't' {
        '\t'
    } else if c == 'r' {
        '\r'
    } else {
        c
    }
}

/// The path that a patch writes, which may be quoted. A quote alone is no quoted path.
pub open spec fn unquoted(text: Seq<char>) -> Seq<char> {
    let value = trim(text);
    if value.len() >= 2 && value[0] == '"' && value.last() == '"' {
        unescaped(value.subrange(1, value.len() - 1), 0)
    } else {
        value
    }
}

/// The path that a patch writes, which may be quoted.
fn unquote_path(text: &[char]) -> (r: String)
    ensures
        r@ == unquoted(text@),
{
    let value = trimmed(text);
    if !(value.len() >= 2 && value[0] == '"' && value[value.len() - 1] == '"') {
        return string_of(&value);
    }
    let inner = slice_of(&value, 1, value.len() - 1);
    let mut out = String::new();
    let mut i: usize = 0;
    assert(out@ =~= seq![]);
    while i < inner.len()
        invariant
            i <= inner@.len(),
            out@ + unescaped(inner@, i as int) =~= unescaped(inner@, 0),
        decreases inner@.len() - i,
    {
        let c = inner[i];
        let ghost before = out@;
        if c != '\\' {
            out.push(c);
            i += 1;
        } else if i + 1 >= inner.len() {
            out.push('\\');
            assert(out@ =~= before + unescaped(inner@, i as int));
            i += 1;
        } else {
            let next = inner[i + 1];
            let plain: char = if next == 'n' {
                '\n'
            } else if next == 't' {
                '\t'
            } else if next == 'r' {
                '\r'
            } else {
                next
            };
            out.push(plain);
            i += 2;
        }
    }
    assert(out@ =~= unescaped(inner@, 0));
    out
}

/// The file that a line of a patch names behind `---` or `+++`; none for `/dev/null`.
pub open spec fn named_file(text: Seq<char>, prefix: Seq<char>) -> Option<Seq<char>> {
    if text == "/dev/null"@ {
        None
    } else {
        let path = unquoted(text);
        if starts_with(path, prefix) {
            Some(path.skip(prefix.len() as int))
        } else {
            Some(path)
        }
    }
}

/// The file that a line of a patch names behind `---` or `+++`.
fn patch_path(text: &[char], prefix: &str) -> (r: Option<String>)
    ensures
        r.deep_view() == named_file(text@, prefix@),
{
    if crate::text::chars_are(text, "/dev/null") {
        return None;
    }
    let path = unquote_path(text);
    let chars = chars_of(path.as_str());
    if has_prefix(&chars, prefix) {
        let n: usize = chars_of(prefix).len();
        let rest = substring(&chars, n, chars.len());
        assert(rest@ =~= path@.skip(prefix@.len() as int));
        return Some(rest);
    }
    Some(path)
}

/// Ranges with one more behind them: joined with the last one where it starts in it or on
/// the line behind it.
pub open spec fn with_range(ranges: Seq<LineRangeView>, next: LineRangeView) -> Seq<LineRangeView> {
    if ranges.len() > 0 && next.start <= ranges.last().end + 1 {
        ranges.drop_last().push(
            LineRangeView {
                start: ranges.last().start,
                end: if ranges.last().end >= next.end {
                    ranges.last().end
                } else {
                    next.end
                },
            },
        )
    } else {
        ranges.push(next)
    }
}

/// Adds a range behind others.
pub fn merge_range(ranges: &mut Vec<LineRange>, next: LineRange)
    ensures
        final(ranges).deep_view() == with_range(old(ranges).deep_view(), next@),
{
    let n: usize = ranges.len();
    if n > 0 {
        assert(ranges.deep_view().last() == ranges@[n - 1]@);
        let start = ranges[n - 1].start;
        let last_end = ranges[n - 1].end;
        if next.start as u64 <= last_end as u64 + 1 {
            let end: u32 = if last_end >= next.end {
                last_end
            } else {
                next.end
            };
            let ghost before = ranges.deep_view();
            ranges.set(n - 1, LineRange { start, end });
            assert(ranges.deep_view() =~= before.drop_last().push(LineRangeView { start, end }));
            return;
        }
    }
    push_item(ranges, next);
}

/// The lines that a hunk touches after the change: at least the line where it stands.
pub open spec fn hunk_range(new_line: u32, new_count: u32) -> LineRangeView {
    let start: u32 = if new_line >= 1 {
        new_line
    } else {
        1
    };
    LineRangeView {
        start,
        end: if new_count == 0 {
            start
        } else if start + (new_count - 1) > u32::MAX {
            u32::MAX
        } else {
            (start + (new_count - 1)) as u32
        },
    }
}

/// What a hunk header says: the line before the change, and the line and the number of
/// lines after it. The groups are those of the header's pattern.
pub open spec fn hunk_numbers(groups: Seq<Option<Seq<char>>>) -> Result<
    (u32, u32, u32),
    PatchErrorView,
> {
    let old_line = groups[1]->0;
    let new_line = groups[3]->0;
    if parse_u32(old_line) is None {
        Err(PatchErrorView::Number(old_line))
    } else if parse_u32(new_line) is None {
        Err(PatchErrorView::Number(new_line))
    } else if groups[4] is Some && parse_u32(groups[4]->0) is None {
        Err(PatchErrorView::Number(groups[4]->0))
    } else {
        Ok(
            (
                parse_u32(old_line)->0,
                parse_u32(new_line)->0,
                match groups[4] {
                    Some(count) => parse_u32(count)->0,
                    None => 1,
                },
            ),
        )
    }
}

/// Whether groups are those of a hunk header.
pub open spec fn is_hunk(groups: Option<Seq<Option<Seq<char>>>>) -> bool {
    groups matches Some(g) && g.len() > 4 && g[1] is Some && g[3] is Some
}

/// The files once the file that a patch is about is known by its whole header.
pub open spec fn finished_files(p: PatchView) -> Map<Seq<char>, ChangedFileView> {
    let old = either(either(p.rename_from, p.copy_from), p.old_path);
    let new = either(either(p.rename_to, p.copy_to), p.new_path);
    match either(new, old) {
        None => p.files,
        Some(path) => {
            let changed = if p.files.contains_key(path) {
                p.files[path]
            } else {
                ChangedFileView {
                    path,
                    old_path: None,
                    status: ChangeStatus::Modified,
                    ranges: seq![],
                    whole_file: true,
                }
            };
            p.files.insert(
                path,
                if p.rename_from is Some && p.rename_to is Some {
                    ChangedFileView {
                        status: ChangeStatus::Renamed,
                        old_path: p.rename_from,
                        ..changed
                    }
                } else if p.copy_from is Some && p.copy_to is Some {
                    ChangedFileView {
                        status: ChangeStatus::Copied,
                        old_path: p.copy_from,
                        ..changed
                    }
                } else if p.new_path is None {
                    ChangedFileView {
                        status: ChangeStatus::Deleted,
                        old_path: p.old_path,
                        ..changed
                    }
                } else if p.old_path is None {
                    ChangedFileView { status: ChangeStatus::Added, ..changed }
                } else {
                    changed
                },
            )
        },
    }
}

/// The files once the file that a patch is about is known by its whole header.
fn finalize_file(p: &mut Patch)
    ensures
        final(p)@ == (PatchView { files: finished_files(old(p)@), ..old(p)@ }),
{
    let old_name = first_of(&first_of(&p.rename_from, &p.copy_from), &p.old_path);
    let new_name = first_of(&first_of(&p.rename_to, &p.copy_to), &p.new_path);
    match first_of(&new_name, &old_name) {
        None => {},
        Some(path) => {
            let mut changed = match p.files.take(path.as_str()) {
                Some(changed) => changed,
                None => {
                    let fresh = ChangedFile {
                        path: path.clone(),
                        old_path: None,
                        status: ChangeStatus::Modified,
                        ranges: Vec::new(),
                        whole_file: true,
                    };
                    assert(fresh@.ranges =~= seq![]);
                    fresh
                },
            };
            if p.rename_from.is_some() && p.rename_to.is_some() {
                changed.status = ChangeStatus::Renamed;
                changed.old_path = p.rename_from.duplicate();
            } else if p.copy_from.is_some() && p.copy_to.is_some() {
                changed.status = ChangeStatus::Copied;
                changed.old_path = p.copy_from.duplicate();
            } else if p.new_path.is_none() {
                changed.status = ChangeStatus::Deleted;
                changed.old_path = p.old_path.duplicate();
            } else if p.old_path.is_none() {
                changed.status = ChangeStatus::Added;
            }
            let ghost view = changed@;
            let ghost key = path@;
            p.files.insert(path, changed);
            assert(p.files@ =~= old(p).files@.insert(key, view));
        },
    }
}

/// The files once the line `+++` of a patch is read.
pub open spec fn opened_files(
    files: Map<Seq<char>, ChangedFileView>,
    old_path: Option<Seq<char>>,
    new_path: Option<Seq<char>>,
) -> Map<Seq<char>, ChangedFileView> {
    match either(new_path, old_path) {
        None => files,
        Some(path) => if files.contains_key(path) {
            files
        } else {
            files.insert(
                path,
                ChangedFileView {
                    path,
                    old_path: if old_path == new_path {
                        None
                    } else {
                        old_path
                    },
                    status: if old_path is None {
                        ChangeStatus::Added
                    } else if new_path is None {
                        ChangeStatus::Deleted
                    } else {
                        ChangeStatus::Modified
                    },
                    ranges: seq![],
                    whole_file: false,
                },
            )
        },
    }
}

/// The files once a hunk header is read.
pub open spec fn files_with_hunk(
    files: Map<Seq<char>, ChangedFileView>,
    old_path: Option<Seq<char>>,
    new_path: Option<Seq<char>>,
    range: LineRangeView,
) -> Map<Seq<char>, ChangedFileView> {
    match either(new_path, old_path) {
        None => files,
        Some(path) => {
            let changed = if files.contains_key(path) {
                files[path]
            } else {
                ChangedFileView {
                    path,
                    old_path,
                    status: ChangeStatus::Modified,
                    ranges: seq![],
                    whole_file: false,
                }
            };
            files.insert(
                path,
                ChangedFileView { ranges: with_range(changed.ranges, range), ..changed },
            )
        },
    }
}

/// One line more, but not beyond what fits.
pub open spec fn next_line(line: u32) -> u32 {
    if line < u32::MAX {
        (line + 1) as u32
    } else {
        line
    }
}

/// The files that a line about a binary file names, before and after the change. Only a file
/// that is added, deleted or changed in place is named; a renamed one is known by other lines.
pub open spec fn binary_files(line: Seq<char>) -> Option<(Option<Seq<char>>, Option<Seq<char>>)> {
    let head = "Binary files "@.len() as int;
    let tail = " differ"@.len() as int;
    if !starts_with(line, "Binary files "@) || !ends_with(line, " differ"@) || line.len() < head
        + tail {
        None
    } else {
        names_in(line.subrange(head, line.len() - tail))
    }
}

/// The files that `OLD and NEW` names.
pub open spec fn names_in(text: Seq<char>) -> Option<(Option<Seq<char>>, Option<Seq<char>>)> {
    let half = (text.len() - " and "@.len()) / 2;
    if starts_with(text, "/dev/null and "@) {
        Some((None, named_file(text.skip("/dev/null and "@.len() as int), "b/"@)))
    } else if ends_with(text, " and /dev/null"@) {
        Some((named_file(text.take(text.len() - " and /dev/null"@.len()), "a/"@), None))
    } else if matches_at(text, " and "@, half) && named_file(text.take(half), "a/"@) == named_file(
        text.skip(half + " and "@.len()),
        "b/"@,
    ) {
        Some(
            (
                named_file(text.take(half), "a/"@),
                named_file(text.skip(half + " and "@.len()), "b/"@),
            ),
        )
    } else {
        None
    }
}

/// The files that a line about a binary file names.
fn read_binary_files(line: &Vec<char>) -> (r: Option<(Option<String>, Option<String>)>)
    ensures
        match r {
            Some(names) => binary_files(line@) == Some(
                (names.0.deep_view(), names.1.deep_view()),
            ),
            None => binary_files(line@) is None,
        },
{
    let head: usize = chars_of("Binary files ").len();
    let tail: usize = chars_of(" differ").len();
    if !has_prefix(line, "Binary files ") || !has_suffix(line, " differ") {
        return None;
    }
    if line.len() < head || line.len() - head < tail {
        return None;
    }
    let text = slice_of(line, head, line.len() - tail);
    read_names(&text)
}

/// The files that `OLD and NEW` names.
fn read_names(text: &Vec<char>) -> (r: Option<(Option<String>, Option<String>)>)
    ensures
        match r {
            Some(names) => names_in(text@) == Some((names.0.deep_view(), names.1.deep_view())),
            None => names_in(text@) is None,
        },
{
    let none: Option<String> = None;
    if has_prefix(text, "/dev/null and ") {
        let start: usize = chars_of("/dev/null and ").len();
        let rest = slice_of(text, start, text.len());
        assert(rest@ =~= text@.skip(start as int));
        return Some((none, patch_path(&rest, "b/")));
    }
    if has_suffix(text, " and /dev/null") {
        let end: usize = text.len() - chars_of(" and /dev/null").len();
        let rest = slice_of(text, 0, end);
        assert(rest@ =~= text@.take(end as int));
        return Some((patch_path(&rest, "a/"), none));
    }
    let between = chars_of(" and ");
    if text.len() < between.len() {
        return None;
    }
    let half: usize = (text.len() - between.len()) / 2;
    if !match_at(text, &between, half) {
        return None;
    }
    let before = slice_of(text, 0, half);
    let after = slice_of(text, half + between.len(), text.len());
    assert(before@ =~= text@.take(half as int));
    assert(after@ =~= text@.skip(half + between@.len()));
    let old_path = patch_path(&before, "a/");
    let new_path = patch_path(&after, "b/");
    if same_option(&old_path, &new_path) {
        Some((old_path, new_path))
    } else {
        None
    }
}

/// How many lines a hunk header says that the file before the change has in the hunk. A
/// number too large to be read stands for the largest.
pub open spec fn old_count(groups: Seq<Option<Seq<char>>>) -> u32 {
    match groups[2] {
        None => 1,
        Some(count) => match parse_u32(count) {
            Some(n) => n,
            None => u32::MAX,
        },
    }
}

/// Whether a line of a patch shows a line of the file before the change.
pub open spec fn shows_old(line: Seq<char>) -> bool {
    line.len() > 0 && (line[0] == '-' || line[0] == ' ')
}

/// Whether a line of a patch shows a line of the file after the change.
pub open spec fn shows_new(line: Seq<char>) -> bool {
    line.len() > 0 && (line[0] == '+' || line[0] == ' ')
}

/// Whether a line of a patch shows a line that is taken away.
pub open spec fn shows_removed(line: Seq<char>) -> bool {
    line.len() > 0 && line[0] == '-'
}

/// Whether a line can stand in a hunk.
pub open spec fn fits_hunk(line: Seq<char>) -> bool {
    shows_old(line) || shows_new(line) || (line.len() > 0 && line[0] == '\\')
}

/// Whether a line belongs to the hunk that is open.
pub open spec fn is_hunk_line(p: PatchView, line: Seq<char>) -> bool {
    (p.old_left > 0 || p.new_left > 0) && fits_hunk(line)
}

/// One line fewer.
pub open spec fn one_fewer(count: u32) -> u32 {
    if count > 0 {
        (count - 1) as u32
    } else {
        0
    }
}

/// What is read of a patch once a line of a hunk is.
pub open spec fn after_hunk_line(p: PatchView, line: Seq<char>) -> PatchView {
    PatchView {
        removed: match either(p.old_path, p.new_path) {
            Some(path) if shows_removed(line) => p.removed.push(
                RemovedLineView { path, line: p.old_line, text: line.skip(1) },
            ),
            _ => p.removed,
        },
        old_line: if shows_old(line) {
            next_line(p.old_line)
        } else {
            p.old_line
        },
        old_left: if shows_old(line) {
            one_fewer(p.old_left)
        } else {
            p.old_left
        },
        new_left: if shows_new(line) {
            one_fewer(p.new_left)
        } else {
            p.new_left
        },
        ..p
    }
}

/// What is read of a patch once one more line is, given the groups of the hunk header that
/// the line may be. While a hunk is to give more lines, a line that fits it is one of them,
/// whatever else it looks like.
pub open spec fn after_patch_line(
    p: PatchView,
    line: Seq<char>,
    groups: Option<Seq<Option<Seq<char>>>>,
) -> Result<PatchView, PatchErrorView> {
    if is_hunk_line(p, line) {
        Ok(after_hunk_line(p, line))
    } else if starts_with(line, "diff --git "@) {
        Ok(
            PatchView {
                files: finished_files(p),
                old_path: None,
                new_path: None,
                rename_from: None,
                rename_to: None,
                copy_from: None,
                copy_to: None,
                in_hunk: false,
                old_left: 0,
                new_left: 0,
                ..p
            },
        )
    } else if starts_with(line, "rename from "@) {
        Ok(PatchView { rename_from: Some(unquoted(line.skip("rename from "@.len() as int))), ..p })
    } else if starts_with(line, "rename to "@) {
        Ok(PatchView { rename_to: Some(unquoted(line.skip("rename to "@.len() as int))), ..p })
    } else if starts_with(line, "copy from "@) {
        Ok(PatchView { copy_from: Some(unquoted(line.skip("copy from "@.len() as int))), ..p })
    } else if starts_with(line, "copy to "@) {
        Ok(PatchView { copy_to: Some(unquoted(line.skip("copy to "@.len() as int))), ..p })
    } else if starts_with(line, "--- "@) {
        Ok(PatchView { old_path: named_file(line.skip("--- "@.len() as int), "a/"@), ..p })
    } else if starts_with(line, "+++ "@) {
        let new_path = named_file(line.skip("+++ "@.len() as int), "b/"@);
        Ok(PatchView { new_path, files: opened_files(p.files, p.old_path, new_path), ..p })
    } else if binary_files(line) is Some {
        let (old_path, new_path) = binary_files(line)->0;
        Ok(PatchView { old_path, new_path, files: opened_files(p.files, old_path, new_path), ..p })
    } else if is_hunk(groups) {
        match hunk_numbers(groups->0) {
            Err(error) => Err(error),
            Ok((old_line, new_line, count)) => Ok(
                PatchView {
                    old_line,
                    in_hunk: true,
                    old_left: old_count(groups->0),
                    new_left: count,
                    files: files_with_hunk(
                        p.files,
                        p.old_path,
                        p.new_path,
                        hunk_range(new_line, count),
                    ),
                    ..p
                },
            ),
        }
    } else if p.in_hunk {
        Ok(after_hunk_line(p, line))
    } else {
        Ok(p)
    }
}

/// What follows a prefix in a line.
fn after_prefix(line: &Vec<char>, prefix: &str) -> (r: Option<Vec<char>>)
    ensures
        match r {
            Some(rest) => starts_with(line@, prefix@) && rest@ == line@.skip(prefix@.len() as int),
            None => !starts_with(line@, prefix@),
        },
{
    if !has_prefix(line, prefix) {
        return None;
    }
    let n: usize = chars_of(prefix).len();
    let rest = slice_of(line, n, line.len());
    assert(rest@ =~= line@.skip(prefix@.len() as int));
    Some(rest)
}

/// A number of a hunk header.
fn hunk_number(digits: &String) -> (r: Result<u32, PatchError>)
    ensures
        match r {
            Ok(n) => parse_u32(digits@) == Some(n),
            Err(error) => parse_u32(digits@) is None && error@ == PatchErrorView::Number(digits@)
                && error is Number,
        },
{
    match u32_of(&chars_of(digits.as_str())) {
        Some(n) => Ok(n),
        None => Err(PatchError::Number(digits.clone())),
    }
}

/// What a hunk header says.
fn read_hunk(groups: &Vec<Option<String>>) -> (r: Option<Result<(u32, u32, u32), PatchError>>)
    ensures
        match r {
            None => !is_hunk(Some(groups.deep_view())),
            Some(Ok(numbers)) => is_hunk(Some(groups.deep_view())) && hunk_numbers(
                groups.deep_view(),
            ) == Ok::<(u32, u32, u32), PatchErrorView>(numbers),
            Some(Err(error)) => is_hunk(Some(groups.deep_view())) && hunk_numbers(
                groups.deep_view(),
            ) == Err::<(u32, u32, u32), PatchErrorView>(error@) && error is Number,
        },
{
    if groups.len() <= 4 {
        return None;
    }
    assert(groups.deep_view()[1] == groups@[1].deep_view());
    assert(groups.deep_view()[3] == groups@[3].deep_view());
    assert(groups.deep_view()[4] == groups@[4].deep_view());
    match (&groups[1], &groups[3]) {
        (Some(old_line), Some(new_line)) => {
            let old_line = match hunk_number(old_line) {
                Err(error) => {
                    return Some(Err(error));
                },
                Ok(n) => n,
            };
            let new_line = match hunk_number(new_line) {
                Err(error) => {
                    return Some(Err(error));
                },
                Ok(n) => n,
            };
            let count: u32 = match &groups[4] {
                None => 1,
                Some(count) => match hunk_number(count) {
                    Err(error) => {
                        return Some(Err(error));
                    },
                    Ok(n) => n,
                },
            };
            Some(Ok((old_line, new_line, count)))
        },
        _ => None,
    }
}

/// How many lines a hunk header says that the file before the change has in the hunk.
fn read_old_count(groups: &Vec<Option<String>>) -> (r: u32)
    requires
        groups@.len() > 2,
    ensures
        r == old_count(groups.deep_view()),
{
    assert(groups.deep_view()[2] == groups@[2].deep_view());
    match &groups[2] {
        None => 1,
        Some(count) => match u32_of(&chars_of(count.as_str())) {
            Some(n) => n,
            None => u32::MAX,
        },
    }
}

/// Reads a line of a hunk.
fn read_hunk_line(p: &mut Patch, line: &Vec<char>)
    ensures
        final(p)@ == after_hunk_line(old(p)@, line@),
{
    if line.len() == 0 {
        return;
    }
    let first: char = line[0];
    if first == '-' {
        match first_of(&p.old_path, &p.new_path) {
            Some(path) => {
                let text = substring(line, 1, line.len());
                assert(text@ =~= line@.skip(1));
                let old_line: u32 = p.old_line;
                push_item(&mut p.removed, RemovedLine { path, line: old_line, text });
            },
            None => {},
        }
    }
    if first == '-' || first == ' ' {
        if p.old_line < u32::MAX {
            p.old_line = p.old_line + 1;
        }
        if p.old_left > 0 {
            p.old_left = p.old_left - 1;
        }
    }
    if first == '+' || first == ' ' {
        if p.new_left > 0 {
            p.new_left = p.new_left - 1;
        }
    }
}

/// Opens the file that the line `+++` of a patch names.
fn open_file(p: &mut Patch, new_path: Option<String>)
    ensures
        final(p)@ == (PatchView {
            new_path: new_path.deep_view(),
            files: opened_files(old(p)@.files, old(p)@.old_path, new_path.deep_view()),
            ..old(p)@
        }),
{
    match first_of(&new_path, &p.old_path) {
        None => {},
        Some(path) => {
            if !p.files.contains_key(path.as_str()) {
                let old_path = if crate::text::same_option(&p.old_path, &new_path) {
                    None
                } else {
                    p.old_path.duplicate()
                };
                let status: ChangeStatus = if p.old_path.is_none() {
                    ChangeStatus::Added
                } else if new_path.is_none() {
                    ChangeStatus::Deleted
                } else {
                    ChangeStatus::Modified
                };
                let changed = ChangedFile {
                    path: path.clone(),
                    old_path,
                    status,
                    ranges: Vec::new(),
                    whole_file: false,
                };
                assert(changed@.ranges =~= seq![]);
                p.files.insert(path, changed);
            }
        },
    }
    p.new_path = new_path;
}

/// Adds the lines of a hunk to the file that the patch is about.
fn add_hunk(p: &mut Patch, new_line: u32, count: u32)
    ensures
        final(p)@ == (PatchView {
            files: files_with_hunk(
                old(p)@.files,
                old(p)@.old_path,
                old(p)@.new_path,
                hunk_range(new_line, count),
            ),
            ..old(p)@
        }),
{
    match first_of(&p.new_path, &p.old_path) {
        None => {},
        Some(path) => {
            let mut changed = match p.files.take(path.as_str()) {
                Some(changed) => changed,
                None => {
                    let fresh = ChangedFile {
                        path: path.clone(),
                        old_path: p.old_path.duplicate(),
                        status: ChangeStatus::Modified,
                        ranges: Vec::new(),
                        whole_file: false,
                    };
                    assert(fresh@.ranges =~= seq![]);
                    fresh
                },
            };
            let start: u32 = if new_line >= 1 {
                new_line
            } else {
                1
            };
            let end: u32 = if count == 0 {
                start
            } else if start as u64 + (count - 1) as u64 > u32::MAX as u64 {
                u32::MAX
            } else {
                start + (count - 1)
            };
            let ghost before = changed@;
            merge_range(&mut changed.ranges, LineRange { start, end });
            let ghost view = changed@;
            assert(view == ChangedFileView {
                ranges: with_range(before.ranges, hunk_range(new_line, count)),
                ..before
            });
            let ghost key = path@;
            p.files.insert(path, changed);
            assert(p.files@ =~= old(p).files@.insert(key, view));
        },
    }
}

/// Reads one more line of a patch, given the groups of the hunk header that it may be.
pub fn read_patch_line(p: &mut Patch, line: &Vec<char>, groups: &Option<Vec<Option<String>>>) -> (r:
    Result<(), PatchError>)
    ensures
        match r {
            Ok(_) => after_patch_line(old(p)@, line@, groups.deep_view()) == Ok::<
                PatchView,
                PatchErrorView,
            >(final(p)@),
            Err(error) => after_patch_line(old(p)@, line@, groups.deep_view()) == Err::<
                PatchView,
                PatchErrorView,
            >(error@) && error is Number && final(p)@ == old(p)@,
        },
{
    if (p.old_left > 0 || p.new_left > 0) && line.len() > 0 && (line[0] == '-' || line[0] == '+'
        || line[0] == ' ' || line[0] == '\\') {
        read_hunk_line(p, line);
        return Ok(());
    }
    if has_prefix(line, "diff --git ") {
        finalize_file(p);
        p.old_path = None;
        p.new_path = None;
        p.rename_from = None;
        p.rename_to = None;
        p.copy_from = None;
        p.copy_to = None;
        p.in_hunk = false;
        p.old_left = 0;
        p.new_left = 0;
        return Ok(());
    }
    match after_prefix(line, "rename from ") {
        Some(rest) => {
            p.rename_from = Some(unquote_path(&rest));
            return Ok(());
        },
        None => {},
    }
    match after_prefix(line, "rename to ") {
        Some(rest) => {
            p.rename_to = Some(unquote_path(&rest));
            return Ok(());
        },
        None => {},
    }
    match after_prefix(line, "copy from ") {
        Some(rest) => {
            p.copy_from = Some(unquote_path(&rest));
            return Ok(());
        },
        None => {},
    }
    match after_prefix(line, "copy to ") {
        Some(rest) => {
            p.copy_to = Some(unquote_path(&rest));
            return Ok(());
        },
        None => {},
    }
    match after_prefix(line, "--- ") {
        Some(rest) => {
            p.old_path = patch_path(&rest, "a/");
            return Ok(());
        },
        None => {},
    }
    match after_prefix(line, "+++ ") {
        Some(rest) => {
            let new_path = patch_path(&rest, "b/");
            open_file(p, new_path);
            return Ok(());
        },
        None => {},
    }
    match read_binary_files(line) {
        Some((old_path, new_path)) => {
            p.old_path = old_path;
            open_file(p, new_path);
            return Ok(());
        },
        None => {},
    }
    match groups {
        Some(groups) => match read_hunk(groups) {
            Some(Ok((old_line, new_line, count))) => {
                add_hunk(p, new_line, count);
                p.old_line = old_line;
                p.in_hunk = true;
                p.old_left = read_old_count(groups);
                p.new_left = count;
                return Ok(());
            },
            Some(Err(error)) => {
                return Err(error);
            },
            None => {},
        },
        None => {},
    }
    if p.in_hunk {
        read_hunk_line(p, line);
    }
    Ok(())
}

/// What is read of a patch once its first `n` lines are, given the groups of each line.
pub open spec fn after_patch_lines(
    p: PatchView,
    all: Seq<Seq<char>>,
    groups: spec_fn(Seq<char>) -> Option<Seq<Option<Seq<char>>>>,
    n: int,
) -> Result<PatchView, PatchErrorView>
    decreases n,
{
    if n <= 0 {
        Ok(p)
    } else {
        match after_patch_lines(p, all, groups, n - 1) {
            Err(error) => Err(error),
            Ok(before) => after_patch_line(before, all[n - 1], groups(all[n - 1])),
        }
    }
}

/// What is read of the first `n` lines of a patch, up to the first that cannot be read.
pub open spec fn read_of_patch(
    p: PatchView,
    all: Seq<Seq<char>>,
    groups: spec_fn(Seq<char>) -> Option<Seq<Option<Seq<char>>>>,
    n: int,
) -> PatchView
    decreases n,
{
    if n <= 0 {
        p
    } else {
        match after_patch_lines(p, all, groups, n) {
            Ok(after) => after,
            Err(_) => read_of_patch(p, all, groups, n - 1),
        }
    }
}

/// Once a patch cannot be read, it stays so.
pub(crate) proof fn lemma_patch_error(
    p: PatchView,
    all: Seq<Seq<char>>,
    groups: spec_fn(Seq<char>) -> Option<Seq<Option<Seq<char>>>>,
    n: int,
    m: int,
)
    requires
        n <= m,
        after_patch_lines(p, all, groups, n) is Err,
    ensures
        after_patch_lines(p, all, groups, m) == after_patch_lines(p, all, groups, n),
        read_of_patch(p, all, groups, m) == read_of_patch(p, all, groups, n),
    decreases m - n,
{
    if n < m {
        lemma_patch_error(p, all, groups, n, m - 1);
    }
}

/// A file without ranges counts as changed as a whole.
pub open spec fn whole_without_ranges(changed: ChangedFileView) -> ChangedFileView {
    ChangedFileView { whole_file: changed.whole_file || changed.ranges.len() == 0, ..changed }
}

/// Files of which each without ranges counts as changed as a whole.
pub open spec fn all_whole_without_ranges(files: Map<Seq<char>, ChangedFileView>) -> Map<
    Seq<char>,
    ChangedFileView,
> {
    files.map_values(|changed: ChangedFileView| whole_without_ranges(changed))
}

/// Marks the files without ranges as changed as a whole.
fn mark_whole_files(files: &mut StringMap<ChangedFile>)
    ensures
        final(files)@ == all_whole_without_ranges(old(files)@),
{
    let n: usize = files.len();
    let ghost start = files@;
    let ghost keys = ordered(files@.dom());
    let mut i: usize = 0;
    while i < n
        invariant
            i <= n,
            n == keys.len(),
            keys == ordered(start.dom()),
            keys.to_set() == start.dom(),
            files@.dom() == start.dom(),
            increasing(keys),
            forall|k: int|
                0 <= k < i ==> files@[#[trigger] keys[k]] == whole_without_ranges(start[keys[k]]),
            forall|k: int| i <= k < n ==> files@[#[trigger] keys[k]] == start[keys[k]],
        decreases n - i,
    {
        let key = files.key_at(i).clone();
        proof {
            crate::collections::lemma_increasing_distinct(keys);
        }
        let ghost before = files@;
        match files.take(key.as_str()) {
            Some(changed) => {
                let mut changed = changed;
                if changed.ranges.len() == 0 {
                    changed.whole_file = true;
                }
                assert(changed@ == whole_without_ranges(start[keys[i as int]]));
                files.insert(key, changed);
            },
            None => {},
        }
        assert(files@.dom() =~= start.dom());
        assert forall|k: int| 0 <= k < i + 1 implies files@[#[trigger] keys[k]]
            == whole_without_ranges(start[keys[k]]) by {
            if k < i {
                assert(keys[k] != keys[i as int]);
                assert(files@[keys[k]] == before[keys[k]]);
            }
        }
        assert forall|k: int| i + 1 <= k < n implies files@[#[trigger] keys[k]] == start[keys[k]] by {
            assert(keys[k] != keys[i as int]);
            assert(files@[keys[k]] == before[keys[k]]);
        }
        i += 1;
    }
    proof {
        assert forall|x: Seq<char>| start.contains_key(x) implies files@[x]
            == all_whole_without_ranges(start)[x] by {
            assert(keys.to_set().contains(x));
            let k = keys.index_of(x);
            assert(keys[k] == x);
        }
        assert(files@ =~= all_whole_without_ranges(start));
    }
}

/// The groups of the hunk header that a line of a patch may be.
pub open spec fn hunk_groups() -> spec_fn(Seq<char>) -> Option<Seq<Option<Seq<char>>>> {
    |line: Seq<char>| pattern_groups(HUNK_HEADER@, line)
}

/// The start of reading a patch.
pub open spec fn patch_start(
    files: Map<Seq<char>, ChangedFileView>,
    removed: Seq<RemovedLineView>,
) -> PatchView {
    PatchView {
        files,
        removed,
        old_path: None,
        new_path: None,
        rename_from: None,
        rename_to: None,
        copy_from: None,
        copy_to: None,
        old_line: 0,
        in_hunk: false,
        old_left: 0,
        new_left: 0,
    }
}

/// What a patch adds to changed files and removed lines.
pub open spec fn patch_of(
    patch: Seq<char>,
    files: Map<Seq<char>, ChangedFileView>,
    removed: Seq<RemovedLineView>,
) -> Result<(Map<Seq<char>, ChangedFileView>, Seq<RemovedLineView>), PatchErrorView> {
    if pattern_problem(HUNK_HEADER@) is Some {
        Err(PatchErrorView::Pattern(pattern_problem(HUNK_HEADER@)->0))
    } else {
        match after_patch_lines(
            patch_start(files, removed),
            lines(patch),
            hunk_groups(),
            lines(patch).len() as int,
        ) {
            Err(error) => Err(error),
            Ok(p) => Ok((all_whole_without_ranges(finished_files(p)), p.removed)),
        }
    }
}

/// Reads a patch into changed files and removed lines. Where a number in it cannot be read,
/// both hold what was read up to there.
pub fn parse_patch(
    patch: &str,
    files: &mut StringMap<ChangedFile>,
    removed_lines: &mut Vec<RemovedLine>,
) -> (r: Result<(), PatchError>)
    ensures
        match r {
            Ok(_) => patch_of(patch@, old(files)@, old(removed_lines).deep_view()) == Ok::<
                (Map<Seq<char>, ChangedFileView>, Seq<RemovedLineView>),
                PatchErrorView,
            >((final(files)@, final(removed_lines).deep_view())),
            Err(error) => patch_of(patch@, old(files)@, old(removed_lines).deep_view()) == Err::<
                (Map<Seq<char>, ChangedFileView>, Seq<RemovedLineView>),
                PatchErrorView,
            >(error@) && match error {
                PatchError::Pattern(_) => *final(files) == *old(files) && *final(removed_lines)
                    == *old(removed_lines),
                PatchError::Number(_) => {
                    let read = read_of_patch(
                        patch_start(old(files)@, old(removed_lines).deep_view()),
                        lines(patch@),
                        hunk_groups(),
                        lines(patch@).len() as int,
                    );
                    final(files)@ == read.files && final(removed_lines).deep_view() == read.removed
                },
            },
        },
{
    let hunk = match compile(HUNK_HEADER) {
        Err(message) => {
            return Err(PatchError::Pattern(message));
        },
        Ok(hunk) => hunk,
    };
    let ghost start = patch_start(files@, removed_lines.deep_view());
    let ghost groups_of = hunk_groups();
    let mut taken_files: StringMap<ChangedFile> = StringMap::new();
    std::mem::swap(&mut taken_files, files);
    let mut taken_lines: Vec<RemovedLine> = Vec::new();
    std::mem::swap(&mut taken_lines, removed_lines);
    let mut p = Patch {
        files: taken_files,
        removed: taken_lines,
        old_path: None,
        new_path: None,
        rename_from: None,
        rename_to: None,
        copy_from: None,
        copy_to: None,
        old_line: 0,
        in_hunk: false,
        old_left: 0,
        new_left: 0,
    };
    assert(p@ =~= start);
    let chars = chars_of(patch);
    let all = lines_of(&chars);
    let mut i: usize = 0;
    while i < all.len()
        invariant
            i <= all@.len(),
            all.deep_view() == lines(patch@),
            pattern_of(hunk) == HUNK_HEADER@,
            groups_of == hunk_groups(),
            pattern_problem(HUNK_HEADER@) is None,
            start == patch_start(old(files)@, old(removed_lines).deep_view()),
            after_patch_lines(start, lines(patch@), groups_of, i as int) == Ok::<
                PatchView,
                PatchErrorView,
            >(p@),
        decreases all@.len() - i,
    {
        assert(lines(patch@)[i as int] == all@[i as int]@);
        let text = string_of(&all[i]);
        let found = groups(&hunk, text.as_str());
        match read_patch_line(&mut p, &all[i], &found) {
            Err(error) => {
                assert(error is Number);
                assert(read_of_patch(start, lines(patch@), groups_of, i as int) == p@);
                assert(read_of_patch(start, lines(patch@), groups_of, i + 1) == p@);
                proof {
                    lemma_patch_error(
                        start,
                        lines(patch@),
                        groups_of,
                        i + 1,
                        lines(patch@).len() as int,
                    );
                }
                *files = p.files;
                *removed_lines = p.removed;
                return Err(error);
            },
            Ok(_) => {},
        }
        i += 1;
    }
    finalize_file(&mut p);
    let mut done = p.files;
    mark_whole_files(&mut done);
    *files = done;
    *removed_lines = p.removed;
    Ok(())
}

/// The repository path that an explicit path stands for.
pub open spec fn explicit_path(root: Seq<char>, value: Seq<char>) -> Result<Seq<char>, Seq<char>> {
    if is_absolute(value) {
        match below(value, root) {
            Some(rest) => Ok(replace(rest, '\\', "/"@)),
            None => Err(value + " is outside "@ + root),
        }
    } else {
        let path = replace(without_here(value), '\\', "/"@);
        if climbs(path) {
            Err("explicit path may not escape the repository: "@ + value)
        } else {
            Ok(path)
        }
    }
}

/// The repository path that an explicit path stands for.
pub fn normalize_explicit_path(root: &str, value: &str) -> (r: Result<String, String>)
    ensures
        outcome(r) == explicit_path(root@, value@),
{
    let chars = chars_of(value);
    if chars.len() > 0 && chars[0] == '/' {
        match path_below(value, root) {
            Some(rest) => {
                let rest = chars_of(rest.as_str());
                return Ok(string_of(&replaced(&rest, '\\', "/")));
            },
            None => {
                let mut message = value.to_owned();
                message.push_str(" is outside ");
                message.push_str(root);
                return Err(message);
            },
        }
    }
    let mut start: usize = 0;
    assert(chars@.skip(0) =~= chars@);
    while chars.len() - start >= 2 && chars[start] == '.' && chars[start + 1] == '/'
        invariant
            start <= chars@.len(),
            without_here(chars@) == without_here(chars@.skip(start as int)),
        decreases chars@.len() - start,
    {
        assert(chars@.skip(start as int).skip(2) =~= chars@.skip(start + 2));
        start += 2;
    }
    let rest = slice_of(&chars, start, chars.len());
    assert(rest@ =~= chars@.skip(start as int));
    let path = string_of(&replaced(&rest, '\\', "/"));
    if path_climbs(path.as_str()) {
        let mut message = "explicit path may not escape the repository: ".to_owned();
        message.push_str(value);
        return Err(message);
    }
    Ok(path)
}

/// A file that changed as a whole.
pub open spec fn whole_change(path: Seq<char>, status: ChangeStatus) -> ChangedFileView {
    ChangedFileView { path, old_path: None, status, ranges: seq![], whole_file: true }
}

/// A file that changed as a whole.
fn changed_as_whole(path: String, status: ChangeStatus) -> (r: ChangedFile)
    ensures
        r@ == whole_change(path@, status),
{
    let r = ChangedFile { path, old_path: None, status, ranges: Vec::new(), whole_file: true };
    assert(r@.ranges =~= seq![]);
    r
}

/// The first `n` explicit paths as changed files.
pub open spec fn explicit_changes(root: Seq<char>, paths: Seq<Seq<char>>, n: int) -> Result<
    Map<Seq<char>, ChangedFileView>,
    Seq<char>,
>
    decreases n,
{
    if n <= 0 {
        Ok(Map::empty())
    } else {
        match explicit_changes(root, paths, n - 1) {
            Err(message) => Err(message),
            Ok(files) => match explicit_path(root, paths[n - 1]) {
                Err(message) => Err(message),
                Ok(path) => Ok(files.insert(path, whole_change(path, ChangeStatus::Modified))),
            },
        }
    }
}

/// Once an explicit path is wrong, the paths stay so.
proof fn lemma_explicit_error(root: Seq<char>, paths: Seq<Seq<char>>, n: int, m: int)
    requires
        n <= m,
        explicit_changes(root, paths, n) is Err,
    ensures
        explicit_changes(root, paths, m) == explicit_changes(root, paths, n),
    decreases m - n,
{
    if n < m {
        lemma_explicit_error(root, paths, n, m - 1);
    }
}

/// Explicit paths as changed files.
fn explicit_files(root: &str, paths: &Vec<String>) -> (r: Result<StringMap<ChangedFile>, String>)
    ensures
        outcome(r) == explicit_changes(root@, paths.deep_view(), paths@.len() as int),
{
    let mut files: StringMap<ChangedFile> = StringMap::new();
    let mut i: usize = 0;
    let ghost all = paths.deep_view();
    while i < paths.len()
        invariant
            i <= paths@.len(),
            all == paths.deep_view(),
            explicit_changes(root@, all, i as int) == Ok::<
                Map<Seq<char>, ChangedFileView>,
                Seq<char>,
            >(files@),
        decreases paths@.len() - i,
    {
        assert(all[i as int] == paths@[i as int]@);
        match normalize_explicit_path(root, paths[i].as_str()) {
            Err(message) => {
                proof {
                    lemma_explicit_error(root@, all, i + 1, all.len() as int);
                }
                return Err(message);
            },
            Ok(path) => {
                files.insert(path.clone(), changed_as_whole(path, ChangeStatus::Modified));
            },
        }
        i += 1;
    }
    Ok(files)
}

/// Whether git is asked for changes: where no file is named, or where an option of git is.
pub open spec fn asks_git(args: ChangeArgs) -> bool {
    args.files@.len() == 0 || args.diff is Some || args.staged || args.worktree || args.untracked
}

/// Whether git is asked for changes.
pub fn uses_git(args: &ChangeArgs) -> (r: bool)
    ensures
        r == asks_git(*args),
{
    args.files.len() == 0 || args.diff.is_some() || args.staged || args.worktree || args.untracked
}

/// What git is asked for.
#[derive(Debug, Clone, PartialEq, Eq)]
pub enum DiffSource {
    /// The staged changes.
    Staged,
    /// The changes that are not staged.
    Worktree,
    /// The changes since a revision.
    Revision(String),
    /// Everything, in a repository without a commit.
    Initial,
}

/// The mathematical content of a [`DiffSource`].
pub ghost enum DiffSourceView {
    Staged,
    Worktree,
    Revision(Seq<char>),
    Initial,
}

impl View for DiffSource {
    type V = DiffSourceView;

    open spec fn view(&self) -> DiffSourceView {
        match self {
            DiffSource::Staged => DiffSourceView::Staged,
            DiffSource::Worktree => DiffSourceView::Worktree,
            DiffSource::Revision(revision) => DiffSourceView::Revision(revision@),
            DiffSource::Initial => DiffSourceView::Initial,
        }
    }
}

/// What git is asked for, given whether the repository has a commit.
pub open spec fn asked_diff(
    diff: Option<Seq<char>>,
    staged: bool,
    worktree: bool,
    config: GitConfigView,
    has_head: bool,
) -> DiffSourceView {
    if staged {
        DiffSourceView::Staged
    } else if worktree {
        DiffSourceView::Worktree
    } else if has_head {
        DiffSourceView::Revision(
            match diff {
                Some(diff) => diff,
                None => config.default_diff,
            },
        )
    } else {
        DiffSourceView::Initial
    }
}

/// What git is asked for, given whether the repository has a commit.
pub fn diff_source(args: &ChangeArgs, config: &GitConfig, has_head: bool) -> (r: DiffSource)
    ensures
        r@ == asked_diff(args.diff.deep_view(), args.staged, args.worktree, config@, has_head),
{
    if args.staged {
        DiffSource::Staged
    } else if args.worktree {
        DiffSource::Worktree
    } else if has_head {
        DiffSource::Revision(
            match &args.diff {
                Some(diff) => diff.clone(),
                None => config.default_diff.clone(),
            },
        )
    } else {
        DiffSource::Initial
    }
}

/// What the changes are called that git is asked for.
pub open spec fn diff_description(source: DiffSourceView) -> Seq<char> {
    match source {
        DiffSourceView::Staged => "staged changes"@,
        DiffSourceView::Worktree => "worktree changes"@,
        DiffSourceView::Revision(revision) => "diff "@ + revision,
        DiffSourceView::Initial => "initial repository changes"@,
    }
}

/// What the changes are called that git is asked for.
fn describe(source: &DiffSource) -> (r: String)
    ensures
        r@ == diff_description(source@),
{
    match source {
        DiffSource::Staged => "staged changes".to_owned(),
        DiffSource::Worktree => "worktree changes".to_owned(),
        DiffSource::Revision(revision) => {
            let mut out = "diff ".to_owned();
            out.push_str(revision.as_str());
            out
        },
        DiffSource::Initial => "initial repository changes".to_owned(),
    }
}

/// The arguments with which git is asked.
pub open spec fn diff_command(source: DiffSourceView, detect_renames: bool) -> Seq<Seq<char>> {
    let common = seq![
        "-c"@,
        "core.quotePath=false"@,
        "diff"@,
        "--unified=0"@,
        "--no-color"@,
        "--no-ext-diff"@,
        "--src-prefix=a/"@,
        "--dst-prefix=b/"@,
    ];
    let renames = if detect_renames {
        seq!["--find-renames"@, "--find-copies"@]
    } else {
        seq!["--no-renames"@]
    };
    let what = match source {
        DiffSourceView::Worktree => seq![],
        DiffSourceView::Revision(revision) => seq![revision],
        _ => seq!["--cached"@],
    };
    common + renames + what + seq!["--"@]
}

/// The arguments with which git is asked.
pub fn diff_arguments(source: &DiffSource, detect_renames: bool) -> (r: Vec<String>)
    ensures
        r.deep_view() == diff_command(source@, detect_renames),
{
    let mut out: Vec<String> = vec![
        "-c".to_owned(),
        "core.quotePath=false".to_owned(),
        "diff".to_owned(),
        "--unified=0".to_owned(),
        "--no-color".to_owned(),
        "--no-ext-diff".to_owned(),
        "--src-prefix=a/".to_owned(),
        "--dst-prefix=b/".to_owned(),
    ];
    if detect_renames {
        push_item(&mut out, "--find-renames".to_owned());
        push_item(&mut out, "--find-copies".to_owned());
    } else {
        push_item(&mut out, "--no-renames".to_owned());
    }
    match source {
        DiffSource::Worktree => {},
        DiffSource::Revision(revision) => {
            push_item(&mut out, revision.clone());
        },
        _ => {
            push_item(&mut out, "--cached".to_owned());
        },
    }
    push_item(&mut out, "--".to_owned());
    assert(out.deep_view() =~= diff_command(source@, detect_renames));
    out
}

/// Whether untracked files count as changed.
pub open spec fn counts_untracked(args: ChangeArgs, config: GitConfigView) -> bool {
    !args.no_untracked && (args.untracked || (config.include_untracked && !args.staged))
}

/// Whether untracked files count as changed.
pub fn wants_untracked(args: &ChangeArgs, config: &GitConfig) -> (r: bool)
    ensures
        r == counts_untracked(*args, config@),
{
    !args.no_untracked && (args.untracked || (config.include_untracked && !args.staged))
}

/// Changed files with the first `n` untracked ones added.
pub open spec fn with_untracked(
    files: Map<Seq<char>, ChangedFileView>,
    paths: Seq<Seq<char>>,
    n: int,
) -> Map<Seq<char>, ChangedFileView>
    decreases n,
{
    if n <= 0 {
        files
    } else {
        let before = with_untracked(files, paths, n - 1);
        if before.contains_key(paths[n - 1]) {
            before
        } else {
            before.insert(paths[n - 1], whole_change(paths[n - 1], ChangeStatus::Untracked))
        }
    }
}

/// Adds untracked files to changed ones.
fn add_untracked(files: &mut StringMap<ChangedFile>, paths: &Vec<String>)
    ensures
        final(files)@ == with_untracked(old(files)@, paths.deep_view(), paths@.len() as int),
{
    let mut i: usize = 0;
    let ghost all = paths.deep_view();
    let ghost start = files@;
    while i < paths.len()
        invariant
            i <= paths@.len(),
            all == paths.deep_view(),
            files@ == with_untracked(start, all, i as int),
        decreases paths@.len() - i,
    {
        assert(all[i as int] == paths@[i as int]@);
        if !files.contains_key(paths[i].as_str()) {
            files.insert(
                paths[i].clone(),
                changed_as_whole(paths[i].clone(), ChangeStatus::Untracked),
            );
        }
        i += 1;
    }
}

/// Bytes as text, with what is not UTF-8 replaced.
pub uninterp spec fn lossy_utf8(bytes: Seq<u8>) -> Seq<char>;

/// Reads bytes with `String::from_utf8_lossy`: UTF-8 is read as it is; what stands for the
/// rest is left to that function.
#[verifier::external_body]
fn lossy_text(bytes: &[u8]) -> (r: String)
    ensures
        r@ == lossy_utf8(bytes@),
        vstd::utf8::valid_utf8(bytes@) ==> r@ == vstd::utf8::decode_utf8(bytes@),
{
    String::from_utf8_lossy(bytes).into_owned()
}

/// The first position at or after `i` that holds a zero byte, or the length.
pub open spec fn zero_from(bytes: Seq<u8>, i: int) -> int
    decreases bytes.len() - i,
{
    if i < 0 || i >= bytes.len() {
        bytes.len() as int
    } else if bytes[i] == 0 {
        i
    } else {
        zero_from(bytes, i + 1)
    }
}

/// The paths that zero bytes separate, from position `i` on, without empty ones.
pub open spec fn listed_paths(bytes: Seq<u8>, i: int) -> Seq<Seq<char>>
    decreases bytes.len() - i,
{
    if i < 0 || i >= bytes.len() {
        seq![]
    } else {
        let end = zero_from(bytes, i);
        let rest = if i <= end < bytes.len() {
            listed_paths(bytes, end + 1)
        } else {
            seq![]
        };
        if end <= i {
            rest
        } else {
            seq![replace(lossy_utf8(bytes.subrange(i, end)), '\\', "/"@)] + rest
        }
    }
}

/// Bytes from `start` to `end`.
fn byte_range(bytes: &[u8], start: usize, end: usize) -> (r: Vec<u8>)
    requires
        start <= end <= bytes@.len(),
    ensures
        r@ == bytes@.subrange(start as int, end as int),
{
    let mut out: Vec<u8> = Vec::new();
    let mut i: usize = start;
    while i < end
        invariant
            start <= i <= end <= bytes@.len(),
            out@ == bytes@.subrange(start as int, i as int),
        decreases end - i,
    {
        out.push(bytes[i]);
        assert(bytes@.subrange(start as int, i + 1) =~= bytes@.subrange(
            start as int,
            i as int,
        ).push(bytes@[i as int]));
        i += 1;
    }
    out
}

/// The paths that zero bytes separate in what git prints.
pub fn untracked_paths(output: &[u8]) -> (r: Vec<String>)
    ensures
        r.deep_view() == listed_paths(output@, 0),
{
    let mut out: Vec<String> = Vec::new();
    let mut i: usize = 0;
    assert(out.deep_view() =~= seq![]);
    while i < output.len()
        invariant
            i <= output@.len(),
            out.deep_view() + listed_paths(output@, i as int) =~= listed_paths(output@, 0),
        decreases output@.len() - i,
    {
        let mut end: usize = i;
        while end < output.len() && output[end] != 0
            invariant
                i <= end <= output@.len(),
                zero_from(output@, i as int) == zero_from(output@, end as int),
            decreases output@.len() - end,
        {
            end += 1;
        }
        let ghost before = out.deep_view();
        if end > i {
            let name = lossy_text(&byte_range(output, i, end));
            push_item(&mut out, string_of(&replaced(&chars_of(name.as_str()), '\\', "/")));
        }
        if end == output.len() {
            assert(out.deep_view() =~= before + listed_paths(output@, i as int));
            assert(listed_paths(output@, end as int) =~= seq![]);
            i = end;
        } else {
            assert(before + listed_paths(output@, i as int) =~= out.deep_view() + listed_paths(
                output@,
                end + 1,
            ));
            i = end + 1;
        }
    }
    assert(listed_paths(output@, output@.len() as int) =~= seq![]);
    out
}

/// What git says when it is asked for changes.
#[derive(Debug, Clone)]
pub struct GitReport {
    /// Whether the repository has a commit.
    pub has_head: bool,
    /// The patch.
    pub patch: String,
    /// The untracked files, where they count.
    pub untracked: Vec<String>,
}

/// Why changes cannot be told.
#[derive(Debug, Clone, PartialEq, Eq)]
pub enum ChangeError {
    /// An explicit path is wrong.
    Path(String),
    /// The patch cannot be read.
    Patch(PatchError),
}

/// The mathematical content of a [`ChangeError`].
pub ghost enum ChangeErrorView {
    Path(Seq<char>),
    Patch(PatchErrorView),
}

impl View for ChangeError {
    type V = ChangeErrorView;

    open spec fn view(&self) -> ChangeErrorView {
        match self {
            ChangeError::Path(message) => ChangeErrorView::Path(message@),
            ChangeError::Patch(error) => ChangeErrorView::Patch(error@),
        }
    }
}

/// The values of a map in the order of its keys.
pub open spec fn values_in_order<V>(map: Map<Seq<char>, V>) -> Seq<V> {
    ordered(map.dom()).map_values(|key: Seq<char>| map[key])
}

/// The changed files in the order of their paths.
fn files_in_order(files: &StringMap<ChangedFile>) -> (r: Vec<ChangedFile>)
    ensures
        r.deep_view() == values_in_order(files@),
{
    let n: usize = files.len();
    let mut out: Vec<ChangedFile> = Vec::new();
    let mut i: usize = 0;
    while i < n
        invariant
            i <= n,
            n == ordered(files@.dom()).len(),
            out@.len() == i,
            forall|k: int|
                0 <= k < i ==> #[trigger] out@[k]@ == files@[ordered(files@.dom())[k]],
        decreases n - i,
    {
        out.push(files.value_at(i).duplicate());
        i += 1;
    }
    assert(out.deep_view() =~= values_in_order(files@));
    out
}

/// The change that the arguments ask for, without its fingerprint, given what git says.
pub open spec fn asked_changes(
    root: Seq<char>,
    args: ChangeArgs,
    config: GitConfigView,
    has_head: bool,
    patch: Seq<char>,
    untracked: Seq<Seq<char>>,
) -> Result<ChangeSetView, ChangeErrorView> {
    match explicit_changes(root, args.files.deep_view(), args.files@.len() as int) {
        Err(message) => Err(ChangeErrorView::Path(message)),
        Ok(explicit) => if !asks_git(args) {
            Ok(
                ChangeSetView {
                    description: "explicit files"@,
                    fingerprint: seq![],
                    files: values_in_order(explicit),
                    removed_lines: seq![],
                },
            )
        } else {
            let source = asked_diff(
                args.diff.deep_view(),
                args.staged,
                args.worktree,
                config,
                has_head,
            );
            match patch_of(patch, explicit, seq![]) {
                Err(error) => Err(ChangeErrorView::Patch(error)),
                Ok((files, removed_lines)) => Ok(
                    if counts_untracked(args, config) {
                        ChangeSetView {
                            description: diff_description(source) + " and "@
                                + "untracked files"@,
                            fingerprint: seq![],
                            files: values_in_order(
                                with_untracked(files, untracked, untracked.len() as int),
                            ),
                            removed_lines,
                        }
                    } else {
                        ChangeSetView {
                            description: diff_description(source),
                            fingerprint: seq![],
                            files: values_in_order(files),
                            removed_lines,
                        }
                    },
                ),
            }
        },
    }
}

/// The change that the arguments ask for, without its fingerprint, given what git says where
/// it is asked.
pub fn changes(root: &str, args: &ChangeArgs, config: &GitConfig, report: &GitReport) -> (r: Result<
    ChangeSet,
    ChangeError,
>)
    ensures
        match r {
            Ok(set) => asked_changes(
                root@,
                *args,
                config@,
                report.has_head,
                report.patch@,
                report.untracked.deep_view(),
            ) == Ok::<ChangeSetView, ChangeErrorView>(set@),
            Err(error) => asked_changes(
                root@,
                *args,
                config@,
                report.has_head,
                report.patch@,
                report.untracked.deep_view(),
            ) == Err::<ChangeSetView, ChangeErrorView>(error@),
        },
{
    let mut files = match explicit_files(root, &args.files) {
        Err(message) => {
            return Err(ChangeError::Path(message));
        },
        Ok(files) => files,
    };
    let mut removed_lines: Vec<RemovedLine> = Vec::new();
    assert(removed_lines.deep_view() =~= seq![]);
    let empty = String::new();
    assert(empty@ =~= seq![]);
    if !uses_git(args) {
        return Ok(
            ChangeSet {
                description: "explicit files".to_owned(),
                fingerprint: empty,
                files: files_in_order(&files),
                removed_lines,
            },
        );
    }
    let source = diff_source(args, config, report.has_head);
    match parse_patch(report.patch.as_str(), &mut files, &mut removed_lines) {
        Err(error) => {
            return Err(ChangeError::Patch(error));
        },
        Ok(_) => {},
    }
    let mut description = describe(&source);
    if wants_untracked(args, config) {
        add_untracked(&mut files, &report.untracked);
        description.push_str(" and ");
        description.push_str("untracked files");
    }
    Ok(ChangeSet { description, fingerprint: empty, files: files_in_order(&files), removed_lines })
}

/// The change with its fingerprint: the hash of the change as JSON without a fingerprint.
pub fn with_fingerprint(set: ChangeSet, json: &[u8]) -> (r: ChangeSet)
    ensures
        r@ == (ChangeSetView { fingerprint: crate::digest::blake3_hex(json@), ..set@ }),
{
    let mut set = set;
    set.fingerprint = crate::digest::hash_bytes(json);
    set
}

/// Whether every range of every file starts at line 1 or later and does not end before it
/// starts.
pub open spec fn ranges_are_ordered(files: Map<Seq<char>, ChangedFileView>) -> bool {
    forall|path: Seq<char>, i: int|
        #![trigger files[path].ranges[i]]
        files.contains_key(path) && 0 <= i < files[path].ranges.len() ==> 1
            <= files[path].ranges[i].start <= files[path].ranges[i].end
}

/// One more range keeps ranges ordered.
proof fn lemma_with_range(ranges: Seq<LineRangeView>, next: LineRangeView)
    requires
        forall|i: int|
            0 <= i < ranges.len() ==> 1 <= (#[trigger] ranges[i]).start <= ranges[i].end,
        1 <= next.start <= next.end,
    ensures
        forall|i: int|
            0 <= i < with_range(ranges, next).len() ==> 1 <= (#[trigger] with_range(
                ranges,
                next,
            )[i]).start <= with_range(ranges, next)[i].end,
{
    let more = with_range(ranges, next);
    assert forall|i: int| 0 <= i < more.len() implies 1 <= (#[trigger] more[i]).start
        <= more[i].end by {
        if i < ranges.len() {
            assert(1 <= ranges[i].start <= ranges[i].end);
        }
    }
}

/// Reading a line of a patch keeps the ranges of the files ordered.
proof fn lemma_patch_line_keeps_ranges(
    p: PatchView,
    line: Seq<char>,
    groups: Option<Seq<Option<Seq<char>>>>,
)
    requires
        ranges_are_ordered(p.files),
    ensures
        after_patch_line(p, line, groups) matches Ok(after) ==> ranges_are_ordered(after.files),
{
    assert(ranges_are_ordered(finished_files(p))) by {
        lemma_finished_keeps_ranges(p);
    }
    match after_patch_line(p, line, groups) {
        Ok(after) => {
            assert forall|path: Seq<char>, i: int|
                #![trigger after.files[path].ranges[i]]
                after.files.contains_key(path) && 0 <= i < after.files[path].ranges.len() implies 1
                <= after.files[path].ranges[i].start <= after.files[path].ranges[i].end by {
                if p.files.contains_key(path) {
                    if 0 <= i < p.files[path].ranges.len() {
                        assert(1 <= p.files[path].ranges[i].start);
                    }
                    match hunk_numbers(groups->0) {
                        Ok((_, new_line, count)) => {
                            assert forall|k: int| 0 <= k < p.files[path].ranges.len() implies 1 <= (
                            #[trigger] p.files[path].ranges[k]).start
                                <= p.files[path].ranges[k].end by {}
                            lemma_with_range(p.files[path].ranges, hunk_range(new_line, count));
                        },
                        Err(_) => {},
                    }
                } else {
                    match hunk_numbers(groups->0) {
                        Ok((_, new_line, count)) => {
                            lemma_with_range(seq![], hunk_range(new_line, count));
                        },
                        Err(_) => {},
                    }
                }
            }
        },
        Err(_) => {},
    }
}

proof fn lemma_finished_keeps_ranges(p: PatchView)
    requires
        ranges_are_ordered(p.files),
    ensures
        ranges_are_ordered(finished_files(p)),
{
    let after = finished_files(p);
    assert forall|path: Seq<char>, i: int|
        #![trigger after[path].ranges[i]]
        after.contains_key(path) && 0 <= i < after[path].ranges.len() implies 1
        <= after[path].ranges[i].start <= after[path].ranges[i].end by {
        if p.files.contains_key(path) {
            assert(1 <= p.files[path].ranges[i].start);
        }
    }
}

proof fn lemma_patch_keeps_ranges(
    p: PatchView,
    all: Seq<Seq<char>>,
    groups: spec_fn(Seq<char>) -> Option<Seq<Option<Seq<char>>>>,
    n: int,
)
    requires
        ranges_are_ordered(p.files),
    ensures
        after_patch_lines(p, all, groups, n) matches Ok(after) ==> ranges_are_ordered(after.files),
    decreases n,
{
    if n > 0 {
        lemma_patch_keeps_ranges(p, all, groups, n - 1);
        match after_patch_lines(p, all, groups, n - 1) {
            Ok(before) => {
                lemma_patch_line_keeps_ranges(before, all[n - 1], groups(all[n - 1]));
            },
            Err(_) => {},
        }
    }
}

/// A patch that can be read adds only ranges that start at line 1 or later and do not end
/// before they start, and leaves no file that is changed neither in a range nor as a whole.
pub proof fn patches_change_something(
    patch: Seq<char>,
    files: Map<Seq<char>, ChangedFileView>,
    removed: Seq<RemovedLineView>,
)
    requires
        ranges_are_ordered(files),
    ensures
        patch_of(patch, files, removed) matches Ok(after) ==> {
            &&& ranges_are_ordered(after.0)
            &&& forall|path: Seq<char>|
                #[trigger] after.0.contains_key(path) ==> after.0[path].whole_file
                    || after.0[path].ranges.len() > 0
        },
{
    let groups = hunk_groups();
    lemma_patch_keeps_ranges(
        patch_start(files, removed),
        lines(patch),
        groups,
        lines(patch).len() as int,
    );
    match after_patch_lines(
        patch_start(files, removed),
        lines(patch),
        groups,
        lines(patch).len() as int,
    ) {
        Ok(p) => {
            lemma_finished_keeps_ranges(p);
            let done = finished_files(p);
            let after = all_whole_without_ranges(done);
            assert forall|path: Seq<char>, i: int|
                #![trigger after[path].ranges[i]]
                after.contains_key(path) && 0 <= i < after[path].ranges.len() implies 1
                <= after[path].ranges[i].start <= after[path].ranges[i].end by {
                assert(1 <= done[path].ranges[i].start);
            }
        },
        Err(_) => {},
    }
}

/// A patch takes no removed line away that was there before.
pub proof fn patches_keep_removed_lines(
    patch: Seq<char>,
    files: Map<Seq<char>, ChangedFileView>,
    removed: Seq<RemovedLineView>,
)
    ensures
        patch_of(patch, files, removed) matches Ok(after) ==> removed.is_prefix_of(after.1),
{
    lemma_removed_grow(
        patch_start(files, removed),
        lines(patch),
        hunk_groups(),
        0,
        lines(patch).len() as int,
    );
}

proof fn lemma_removed_grow(
    p: PatchView,
    all: Seq<Seq<char>>,
    groups: spec_fn(Seq<char>) -> Option<Seq<Option<Seq<char>>>>,
    n: int,
    m: int,
)
    requires
        0 <= n <= m,
        after_patch_lines(p, all, groups, n) is Ok,
    ensures
        after_patch_lines(p, all, groups, m) matches Ok(after) ==> after_patch_lines(
            p,
            all,
            groups,
            n,
        )->Ok_0.removed.is_prefix_of(after.removed),
    decreases m - n,
{
    if n < m {
        lemma_removed_grow(p, all, groups, n, m - 1);
    }
}

/// How many of the lines from `from` up to `to` show a line of the file before the change.
pub open spec fn old_lines(all: Seq<Seq<char>>, from: int, to: int) -> nat
    decreases to - from,
{
    if to <= from {
        0
    } else {
        old_lines(all, from, to - 1) + if shows_old(all[to - 1]) {
            1nat
        } else {
            0nat
        }
    }
}

/// How many of the lines from `from` up to `to` show a line of the file after the change.
pub open spec fn new_lines(all: Seq<Seq<char>>, from: int, to: int) -> nat
    decreases to - from,
{
    if to <= from {
        0
    } else {
        new_lines(all, from, to - 1) + if shows_new(all[to - 1]) {
            1nat
        } else {
            0nat
        }
    }
}

/// How many of the lines from `from` up to `to` show a line that is taken away.
pub open spec fn gone_lines(all: Seq<Seq<char>>, from: int, to: int) -> nat
    decreases to - from,
{
    if to <= from {
        0
    } else {
        gone_lines(all, from, to - 1) + if shows_removed(all[to - 1]) {
            1nat
        } else {
            0nat
        }
    }
}

/// Whether line `i` belongs to the hunk that line `h` opens: every line between them fits a
/// hunk, and those before line `i` are fewer than the header tells of one of the two files.
pub open spec fn belongs_to_hunk(
    all: Seq<Seq<char>>,
    groups: spec_fn(Seq<char>) -> Option<Seq<Option<Seq<char>>>>,
    h: int,
    i: int,
) -> bool {
    &&& 0 <= h < i < all.len()
    &&& starts_with(all[h], "@@ "@)
    &&& is_hunk(groups(all[h]))
    &&& hunk_numbers(groups(all[h])->0) is Ok
    &&& forall|k: int| h < k <= i ==> fits_hunk(#[trigger] all[k])
    &&& old_lines(all, h + 1, i) < old_count(groups(all[h])->0) || new_lines(all, h + 1, i)
        < hunk_numbers(groups(all[h])->0)->Ok_0.2
}

/// More lines show no fewer.
proof fn lemma_counts_grow(all: Seq<Seq<char>>, from: int, m: int, n: int)
    requires
        m <= n,
    ensures
        old_lines(all, from, m) <= old_lines(all, from, n),
        new_lines(all, from, m) <= new_lines(all, from, n),
    decreases n - m,
{
    if m < n {
        lemma_counts_grow(all, from, m, n - 1);
    }
}

/// A line that starts with a text starts with its first character.
pub(crate) proof fn lemma_first_char(line: Seq<char>, prefix: Seq<char>)
    requires
        prefix.len() > 0,
    ensures
        starts_with(line, prefix) ==> line.len() > 0 && line[0] == prefix[0],
{
    if starts_with(line, prefix) {
        assert(line.subrange(0, prefix.len() as int)[0] == line[0]);
    }
}

/// A hunk header is no other line of a header.
pub(crate) proof fn lemma_hunk_header(line: Seq<char>)
    requires
        starts_with(line, "@@ "@),
    ensures
        !fits_hunk(line),
        !starts_with(line, "diff --git "@),
        !starts_with(line, "rename from "@),
        !starts_with(line, "rename to "@),
        !starts_with(line, "copy from "@),
        !starts_with(line, "copy to "@),
        !starts_with(line, "--- "@),
        !starts_with(line, "+++ "@),
        binary_files(line) is None,
{
    reveal_strlit("@@ ");
    reveal_strlit("Binary files ");
    reveal_strlit("diff --git ");
    reveal_strlit("rename from ");
    reveal_strlit("rename to ");
    reveal_strlit("copy from ");
    reveal_strlit("copy to ");
    reveal_strlit("--- ");
    reveal_strlit("+++ ");
    lemma_first_char(line, "@@ "@);
    lemma_first_char(line, "Binary files "@);
    lemma_first_char(line, "diff --git "@);
    lemma_first_char(line, "rename from "@);
    lemma_first_char(line, "rename to "@);
    lemma_first_char(line, "copy from "@);
    lemma_first_char(line, "copy to "@);
    lemma_first_char(line, "--- "@);
    lemma_first_char(line, "+++ "@);
}

/// A number of lines further on, as far as a line can be told.
pub open spec fn lines_on(line: u32, count: nat) -> u32 {
    if line + count <= u32::MAX {
        (line + count) as u32
    } else {
        u32::MAX
    }
}

/// The state inside a hunk is told by the header and by the lines in between.
proof fn lemma_inside_hunk(
    p: PatchView,
    all: Seq<Seq<char>>,
    groups: spec_fn(Seq<char>) -> Option<Seq<Option<Seq<char>>>>,
    h: int,
    i: int,
    m: int,
)
    requires
        belongs_to_hunk(all, groups, h, i),
        h < m <= i,
        after_patch_lines(p, all, groups, h) is Ok,
    ensures
        after_patch_lines(p, all, groups, m) matches Ok(q) && {
            let before = after_patch_lines(p, all, groups, h)->Ok_0;
            let (old_line, new_line, count) = hunk_numbers(groups(all[h])->0)->Ok_0;
            &&& q.old_path == before.old_path
            &&& q.new_path == before.new_path
            &&& q.old_line == lines_on(old_line, old_lines(all, h + 1, m))
            &&& q.old_left + old_lines(all, h + 1, m) == old_count(groups(all[h])->0)
                || q.old_left == 0 && old_lines(all, h + 1, m) >= old_count(groups(all[h])->0)
            &&& q.new_left + new_lines(all, h + 1, m) == count || q.new_left == 0 && new_lines(
                all,
                h + 1,
                m,
            ) >= count
            &&& either(before.old_path, before.new_path) is Some ==> q.removed.len()
                == before.removed.len() + gone_lines(all, h + 1, m)
        },
    decreases m - h,
{
    if m == h + 1 {
        lemma_hunk_header(all[h]);
    } else {
        lemma_inside_hunk(p, all, groups, h, i, m - 1);
        lemma_counts_grow(all, h + 1, m - 1, i);
        assert(fits_hunk(all[m - 1]));
    }
}

/// Every line that a hunk takes away is kept, whatever it holds: the line that a hunk shows
/// as the line `i` of the patch stands among the removed lines behind those from before the
/// hunk and those that the hunk takes away before it.
pub proof fn hunks_keep_removed_lines(
    patch: Seq<char>,
    files: Map<Seq<char>, ChangedFileView>,
    removed: Seq<RemovedLineView>,
    h: int,
    i: int,
)
    requires
        ({
            let groups = hunk_groups();
            belongs_to_hunk(lines(patch), groups, h, i)
        }),
        shows_removed(lines(patch)[i]),
    ensures
        patch_of(patch, files, removed) matches Ok(after) ==> {
            let all = lines(patch);
            let groups = hunk_groups();
            let before = read_of_patch(patch_start(files, removed), all, groups, h);
            let at = before.removed.len() + gone_lines(all, h + 1, i);
            either(before.old_path, before.new_path) matches Some(path) ==> {
                &&& before.removed.is_prefix_of(after.1)
                &&& at < after.1.len()
                &&& after.1[at as int] == RemovedLineView {
                    path,
                    line: lines_on(
                        hunk_numbers(groups(all[h])->0)->Ok_0.0,
                        old_lines(all, h + 1, i),
                    ),
                    text: all[i].skip(1),
                }
            }
        },
{
    let all = lines(patch);
    let start = patch_start(files, removed);
    let groups = hunk_groups();
    let count = all.len() as int;
    if after_patch_lines(start, all, groups, h) is Err {
        lemma_patch_error(start, all, groups, h, count);
    } else {
        let before = after_patch_lines(start, all, groups, h)->Ok_0;
        assert(read_of_patch(start, all, groups, h) == before);
        lemma_inside_hunk(start, all, groups, h, i, i);
        let q = after_patch_lines(start, all, groups, i)->Ok_0;
        assert(fits_hunk(all[i]));
        assert(is_hunk_line(q, all[i]));
        assert(after_patch_lines(start, all, groups, i + 1) == Ok::<PatchView, PatchErrorView>(
            after_hunk_line(q, all[i]),
        ));
        lemma_removed_grow(start, all, groups, h, count);
        lemma_removed_grow(start, all, groups, i + 1, count);
        match patch_of(patch, files, removed) {
            Ok(after) => {
                let last = after_patch_lines(start, all, groups, count)->Ok_0;
                assert(after.1 == last.removed);
                if either(before.old_path, before.new_path) is Some {
                    let next = after_hunk_line(q, all[i]);
                    assert(next.removed[q.removed.len() as int] == after.1[q.removed.len() as int]);
                }
            },
            Err(_) => {},
        }
    }
}

/// Every file that a line about a binary file names is among the changed files, with the
/// files that were there before.
pub proof fn binary_changes_are_told(
    patch: Seq<char>,
    files: Map<Seq<char>, ChangedFileView>,
    removed: Seq<RemovedLineView>,
    i: int,
    path: Seq<char>,
)
    requires
        0 <= i < lines(patch).len(),
        files.contains_key(path) || (binary_files(lines(patch)[i]) matches Some(names) && either(
            names.1,
            names.0,
        ) == Some(path)),
    ensures
        patch_of(patch, files, removed) matches Ok(after) ==> after.0.contains_key(path),
{
    let start = patch_start(files, removed);
    let all = lines(patch);
    let groups = hunk_groups();
    let count = all.len() as int;
    if files.contains_key(path) {
        lemma_files_grow(start, all, groups, 0, count, path);
    } else {
        if after_patch_lines(start, all, groups, i + 1) is Err {
            lemma_patch_error(start, all, groups, i + 1, count);
        } else {
            lemma_binary_line(all[i]);
            lemma_files_grow(start, all, groups, i + 1, count, path);
        }
    }
}

/// A line about a binary file is no other line of a header.
proof fn lemma_binary_line(line: Seq<char>)
    requires
        starts_with(line, "Binary files "@),
    ensures
        !starts_with(line, "diff --git "@),
        !starts_with(line, "rename from "@),
        !starts_with(line, "rename to "@),
        !starts_with(line, "copy from "@),
        !starts_with(line, "copy to "@),
        !starts_with(line, "--- "@),
        !starts_with(line, "+++ "@),
        !fits_hunk(line),
{
    reveal_strlit("Binary files ");
    reveal_strlit("diff --git ");
    reveal_strlit("rename from ");
    reveal_strlit("rename to ");
    reveal_strlit("copy from ");
    reveal_strlit("copy to ");
    reveal_strlit("--- ");
    reveal_strlit("+++ ");
    lemma_first_char(line, "Binary files "@);
    lemma_first_char(line, "diff --git "@);
    lemma_first_char(line, "rename from "@);
    lemma_first_char(line, "rename to "@);
    lemma_first_char(line, "copy from "@);
    lemma_first_char(line, "copy to "@);
    lemma_first_char(line, "--- "@);
    lemma_first_char(line, "+++ "@);
}

/// A file stays among the changed files.
proof fn lemma_files_grow(
    p: PatchView,
    all: Seq<Seq<char>>,
    groups: spec_fn(Seq<char>) -> Option<Seq<Option<Seq<char>>>>,
    n: int,
    m: int,
    path: Seq<char>,
)
    requires
        0 <= n <= m,
        after_patch_lines(p, all, groups, n) matches Ok(before) && before.files.contains_key(path),
    ensures
        after_patch_lines(p, all, groups, m) matches Ok(after) ==> after.files.contains_key(path),
    decreases m - n,
{
    if n < m {
        lemma_files_grow(p, all, groups, n, m - 1, path);
    }
}

} // verus!

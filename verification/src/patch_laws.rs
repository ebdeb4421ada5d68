//! What a patch tells of the files that it changes.

use vstd::prelude::*;

use crate::git::{
    after_patch_line, after_patch_lines, all_whole_without_ranges, binary_files, finished_files,
    hunk_groups, lemma_first_char, lemma_hunk_header, lemma_patch_error, named_file, patch_of,
    patch_start, unquoted, with_range, PatchErrorView, PatchView, HUNK_HEADER,
};
use crate::line_laws::lines_behind_a_position;
use crate::model::{ChangeStatus, ChangedFileView, LineRangeView, RemovedLineView};
use crate::patterns::{pattern_groups, pattern_problem};
use crate::text::{
    index_from, is_space, lines, lines_from, parse_u32, starts_with, trim, trim_end, trim_start,
};

verus! {

/// Whether one of some ranges holds a line.
pub open spec fn covers(ranges: Seq<LineRangeView>, line: int) -> bool {
    exists|r: int| 0 <= r < ranges.len() && (#[trigger] ranges[r]).start <= line <= ranges[r].end
}

/// Whether a text is written in a patch as it is: it holds something and has no white space at
/// its end.
pub open spec fn is_plain_name(name: Seq<char>) -> bool {
    name.len() > 0 && !is_space(name.last())
}

/// Whether a line of a patch names a file behind a mark, or says that there is none.
pub open spec fn names_file(
    line: Seq<char>,
    mark: Seq<char>,
    prefix: Seq<char>,
    name: Option<Seq<char>>,
) -> bool {
    match name {
        None => line == mark + "/dev/null"@,
        Some(path) => is_plain_name(path) && line == mark + (prefix + path),
    }
}

/// Whether a line is no header that a hunk or a file has.
pub open spec fn is_aside(line: Seq<char>) -> bool {
    &&& pattern_groups(HUNK_HEADER@, line) is None
    &&& !starts_with(line, "diff --git "@)
    &&& !starts_with(line, "--- "@)
    &&& !starts_with(line, "+++ "@)
    &&& !starts_with(line, "Binary files "@)
}

/// Whether a line says that a file is renamed or copied.
pub open spec fn is_about_names(line: Seq<char>) -> bool {
    ||| starts_with(line, "rename from "@)
    ||| starts_with(line, "rename to "@)
    ||| starts_with(line, "copy from "@)
    ||| starts_with(line, "copy to "@)
}

/// The numbers of a hunk header.
pub ghost struct HunkNumbers {
    /// Where the hunk starts in the file before the change.
    pub old_start: u32,
    /// How many lines it has there.
    pub old_count: u32,
    /// Where it starts in the file after the change.
    pub new_start: u32,
    /// How many lines it has there.
    pub new_count: u32,
}

/// Whether a text writes a number; where it is left out, the number is one.
pub open spec fn writes_count(text: Option<Seq<char>>, n: u32) -> bool {
    match text {
        None => n == 1,
        Some(digits) => parse_u32(digits) == Some(n),
    }
}

/// Whether a line is a hunk header with some numbers.
pub open spec fn is_header_with(line: Seq<char>, n: HunkNumbers) -> bool {
    &&& starts_with(line, "@@ "@)
    &&& pattern_groups(HUNK_HEADER@, line) matches Some(g) && {
        &&& g.len() == 5
        &&& g[1] is Some
        &&& parse_u32(g[1]->0) == Some(n.old_start)
        &&& writes_count(g[2], n.old_count)
        &&& g[3] is Some
        &&& parse_u32(g[3]->0) == Some(n.new_start)
        &&& writes_count(g[4], n.new_count)
    }
}

/// The numbers of a hunk header.
pub open spec fn numbers_of(line: Seq<char>) -> HunkNumbers {
    choose|n: HunkNumbers| #[trigger] is_header_with(line, n)
}

/// Whether a line is a hunk header that can be read.
pub open spec fn is_header(line: Seq<char>) -> bool {
    exists|n: HunkNumbers| #[trigger] is_header_with(line, n)
}

/// Where the lines of a hunk start in the file after the change: the first line is line 1.
pub open spec fn first_new_line(n: HunkNumbers) -> int {
    if n.new_start >= 1 {
        n.new_start as int
    } else {
        1
    }
}

/// Where they end: a hunk that only takes lines away touches the line where it stands.
pub open spec fn last_new_line(n: HunkNumbers) -> int {
    let end = if n.new_count == 0 {
        first_new_line(n)
    } else {
        first_new_line(n) + n.new_count - 1
    };
    if end <= u32::MAX {
        end
    } else {
        u32::MAX as int
    }
}

/// Whether a line starts with one of two characters.
pub open spec fn is_marked(line: Seq<char>, a: char, b: char) -> bool {
    line.len() > 0 && (line[0] == a || line[0] == b)
}

/// How many of the lines from `from` up to `to` start with one of two characters.
pub open spec fn marked_lines(all: Seq<Seq<char>>, from: int, to: int, a: char, b: char) -> nat
    decreases to - from,
{
    if to <= from {
        0
    } else {
        marked_lines(all, from, to - 1, a, b) + if is_marked(all[to - 1], a, b) {
            1nat
        } else {
            0nat
        }
    }
}

/// Whether line `i` is one of the lines of the hunk with the header at line `h`: it and those
/// before it start as lines of a hunk do, and the hunk is to give more lines of a file.
pub open spec fn is_line_of_hunk(all: Seq<Seq<char>>, h: int, i: int) -> bool {
    &&& is_header(all[h])
    &&& forall|k: int|
        h < k <= i ==> is_marked(#[trigger] all[k], '-', ' ') || is_marked(all[k], '+', '\\')
    &&& marked_lines(all, h + 1, i, '-', ' ') < numbers_of(all[h]).old_count || marked_lines(
        all,
        h + 1,
        i,
        '+',
        ' ',
    ) < numbers_of(all[h]).new_count
}

/// Whether the first `t` lines of a patch are one section of it: the line `diff --git`, lines
/// aside, the names of the file before and after the change at lines `m` and `m + 1`, and hunks.
pub open spec fn is_section(
    all: Seq<Seq<char>>,
    m: int,
    t: int,
    old: Option<Seq<char>>,
    new: Option<Seq<char>>,
) -> bool {
    &&& 0 < m
    &&& m + 2 <= t <= all.len()
    &&& starts_with(all[0], "diff --git "@)
    &&& forall|k: int| 0 < k < m ==> is_aside(#[trigger] all[k])
    &&& names_file(all[m], "--- "@, "a/"@, old)
    &&& names_file(all[m + 1], "+++ "@, "b/"@, new)
    &&& old is Some || new is Some
    &&& forall|k: int|
        m + 2 <= k < t ==> is_header(#[trigger] all[k]) || exists|h: int|
            m + 2 <= h < k && #[trigger] is_line_of_hunk(all, h, k)
    &&& forall|g: int, h: int|
        m + 2 <= g < h < t && is_header(all[g]) && is_header(all[h]) ==> first_new_line(
            numbers_of(#[trigger] all[g]),
        ) <= first_new_line(numbers_of(#[trigger] all[h]))
}

/// The name under which a changed file is known.
pub open spec fn known_as(old: Option<Seq<char>>, new: Option<Seq<char>>) -> Seq<char> {
    match new {
        Some(path) => path,
        None => old->0,
    }
}

/// The last hunk header from `from` up to `to`.
spec fn last_header(all: Seq<Seq<char>>, from: int, to: int) -> Option<int>
    decreases to - from,
{
    if to <= from {
        None
    } else if is_header(all[to - 1]) {
        Some(to - 1)
    } else {
        last_header(all, from, to - 1)
    }
}

proof fn lemma_last_header(all: Seq<Seq<char>>, from: int, to: int)
    ensures
        match last_header(all, from, to) {
            Some(h) => from <= h < to && is_header(all[h]) && forall|k: int|
                h < k < to ==> !is_header(#[trigger] all[k]),
            None => forall|k: int| from <= k < to ==> !is_header(#[trigger] all[k]),
        },
    decreases to - from,
{
    if to > from && !is_header(all[to - 1]) {
        lemma_last_header(all, from, to - 1);
    }
}

proof fn lemma_marked_starts(line: Seq<char>)
    requires
        is_marked(line, '-', ' ') || is_marked(line, '+', '\\'),
    ensures
        !is_header(line),
{
    reveal_strlit("@@ ");
    lemma_first_char(line, "@@ "@);
    if is_header(line) {
        let n = choose|n: HunkNumbers| #[trigger] is_header_with(line, n);
        assert(starts_with(line, "@@ "@));
    }
}

proof fn lemma_trimmed(s: Seq<char>)
    requires
        s.len() > 0,
        !is_space(s[0]),
        !is_space(s.last()),
    ensures
        trim(s) == s,
{
    assert(trim_start(s) == s);
    assert(trim_end(s) == s);
}

proof fn lemma_named(
    line: Seq<char>,
    mark: Seq<char>,
    prefix: Seq<char>,
    first: char,
    name: Option<Seq<char>>,
)
    requires
        names_file(line, mark, prefix, name),
        prefix == seq![first, '/'],
        first == 'a' || first == 'b',
    ensures
        starts_with(line, mark),
        named_file(line.skip(mark.len() as int), prefix) == name,
{
    reveal_strlit("/dev/null");
    assert(line.subrange(0, mark.len() as int) =~= mark);
    match name {
        None => {
            assert(line.skip(mark.len() as int) =~= "/dev/null"@);
        },
        Some(path) => {
            let rest = prefix + path;
            assert(line.skip(mark.len() as int) =~= rest);
            assert(rest[0] == first);
            assert("/dev/null"@[0] == '/');
            assert(rest.last() == path.last());
            lemma_trimmed(rest);
            assert(unquoted(rest) == rest);
            assert(rest.subrange(0, 2) =~= prefix);
            assert(rest.skip(2) =~= path);
        },
    }
}

/// Two characters at the start of a line tell marks apart.
proof fn lemma_no_other_mark(line: Seq<char>)
    ensures
        starts_with(line, "--- "@) ==> !is_about_names(line) && !starts_with(line, "diff --git "@)
            && !starts_with(line, "+++ "@) && !starts_with(line, "Binary files "@),
        starts_with(line, "+++ "@) ==> !is_about_names(line) && !starts_with(line, "diff --git "@)
            && !starts_with(line, "--- "@) && !starts_with(line, "Binary files "@),
        is_about_names(line) ==> !starts_with(line, "diff --git "@) && !starts_with(line, "+++ "@)
            && !starts_with(line, "--- "@) && !starts_with(line, "Binary files "@),
        !starts_with(line, "Binary files "@) ==> binary_files(line) is None,
        starts_with(line, "rename from "@) ==> !starts_with(line, "rename to "@) && !starts_with(
            line,
            "copy from "@,
        ) && !starts_with(line, "copy to "@),
        starts_with(line, "rename to "@) ==> !starts_with(line, "copy from "@) && !starts_with(
            line,
            "copy to "@,
        ),
        starts_with(line, "diff --git "@) ==> !is_marked(line, '-', ' ') && !is_marked(
            line,
            '+',
            '\\',
        ),
{
    reveal_strlit("Binary files ");
    reveal_strlit("diff --git ");
    reveal_strlit("rename from ");
    reveal_strlit("rename to ");
    reveal_strlit("copy from ");
    reveal_strlit("copy to ");
    reveal_strlit("--- ");
    reveal_strlit("+++ ");
    lemma_first_char(line, "Binary files "@);
    lemma_first_char(line, "diff --git "@);
    lemma_first_char(line, "rename from "@);
    lemma_first_char(line, "rename to "@);
    lemma_first_char(line, "copy from "@);
    lemma_first_char(line, "copy to "@);
    lemma_first_char(line, "--- "@);
    lemma_first_char(line, "+++ "@);
    if starts_with(line, "rename from "@) {
        assert(line.subrange(0, 12)[7] == line[7]);
        if starts_with(line, "rename to "@) {
            assert(line.subrange(0, 10)[7] == line[7]);
        }
    }
}

/// What is read of a patch before its first hunk.
proof fn lemma_read_aside(p: PatchView, all: Seq<Seq<char>>, k: int, m: int)
    requires
        p.old_left == 0,
        p.new_left == 0,
        !p.in_hunk,
        p.old_path is None,
        p.new_path is None,
        p.rename_from is None,
        p.rename_to is None,
        p.copy_from is None,
        p.copy_to is None,
        0 < k <= m <= all.len(),
        starts_with(all[0], "diff --git "@),
        forall|i: int| 0 < i < m ==> is_aside(#[trigger] all[i]),
    ensures
        after_patch_lines(p, all, hunk_groups(), k) matches Ok(q) && {
            &&& q.files == p.files
            &&& q.removed == p.removed
            &&& q.old_path is None
            &&& q.new_path is None
            &&& !q.in_hunk
            &&& q.old_left == 0
            &&& q.new_left == 0
            &&& (forall|i: int| 0 < i < k ==> !is_about_names(#[trigger] all[i])) ==> {
                &&& q.rename_from is None
                &&& q.rename_to is None
                &&& q.copy_from is None
                &&& q.copy_to is None
            }
        },
    decreases k,
{
    lemma_no_other_mark(all[k - 1]);
    if k == 1 {
        assert(after_patch_lines(p, all, hunk_groups(), 0) == Ok::<PatchView, PatchErrorView>(p));
        lemma_no_other_mark(all[0]);
        assert(finished_files(p) == p.files);
    } else {
        lemma_read_aside(p, all, k - 1, m);
        assert(is_aside(all[k - 1]));
    }
}

/// The state with which the hunks of a section are read.
spec fn hunk_state(
    base: PatchView,
    q: PatchView,
    all: Seq<Seq<char>>,
    from: int,
    k: int,
    old: Option<Seq<char>>,
    new: Option<Seq<char>>,
) -> bool {
    let path = known_as(old, new);
    &&& q.old_path == old
    &&& q.new_path == new
    &&& q.rename_from == base.rename_from
    &&& q.rename_to == base.rename_to
    &&& q.copy_from == base.copy_from
    &&& q.copy_to == base.copy_to
    &&& base.files.contains_key(path)
    &&& q.files == base.files.insert(
        path,
        ChangedFileView { ranges: q.files[path].ranges, ..base.files[path] },
    )
    &&& forall|line: int| #[trigger]
        covers(q.files[path].ranges, line) <==> exists|h: int|
            from <= h < k && is_header(#[trigger] all[h]) && first_new_line(numbers_of(all[h]))
                <= line <= last_new_line(numbers_of(all[h]))
    &&& match last_header(all, from, k) {
        None => {
            &&& q.files[path].ranges.len() == 0
            &&& q.old_left == 0
            &&& q.new_left == 0
            &&& q.removed == base.removed
        },
        Some(h) => {
            let n = numbers_of(all[h]);
            let shown_old = marked_lines(all, h + 1, k, '-', ' ');
            let shown_new = marked_lines(all, h + 1, k, '+', ' ');
            &&& q.in_hunk
            &&& q.files[path].ranges.len() > 0
            &&& q.files[path].ranges.last().start <= first_new_line(n)
            &&& q.old_left == if shown_old <= n.old_count {
                n.old_count - shown_old
            } else {
                0
            }
            &&& q.new_left == if shown_new <= n.new_count {
                n.new_count - shown_new
            } else {
                0
            }
            &&& q.old_line == capped(n.old_start + shown_old)
        }
    }
    &&& q.removed.len() == base.removed.len() + marked_lines(all, from, k, '-', '-')
    &&& base.removed.is_prefix_of(q.removed)
    &&& forall|i: int, h: int|
        #![trigger is_line_of_hunk(all, h, i)]
        from <= h < i < k && is_line_of_hunk(all, h, i) && all[i][0] == '-' ==> q.removed[(
        base.removed.len() + marked_lines(all, from, i, '-', '-')) as int]
            == removed_as(all, h, i, old, new)
}

/// A line number, as far as it fits.
pub open spec fn capped(line: int) -> int {
    if line <= u32::MAX {
        line
    } else {
        u32::MAX as int
    }
}

/// The line that a hunk takes away with line `i` of a patch.
pub open spec fn removed_as(
    all: Seq<Seq<char>>,
    h: int,
    i: int,
    old: Option<Seq<char>>,
    new: Option<Seq<char>>,
) -> RemovedLineView {
    RemovedLineView {
        path: match old {
            Some(path) => path,
            None => new->0,
        },
        line: capped(numbers_of(all[h]).old_start + marked_lines(all, h + 1, i, '-', ' ')) as u32,
        text: all[i].skip(1),
    }
}

proof fn lemma_range_added(ranges: Seq<LineRangeView>, next: LineRangeView, line: int)
    requires
        ranges.len() > 0 ==> ranges.last().start <= next.start,
        next.start <= next.end,
    ensures
        covers(with_range(ranges, next), line) <==> covers(ranges, line) || next.start <= line
            <= next.end,
        with_range(ranges, next).len() > 0,
        with_range(ranges, next).last().start <= next.start,
{
    let more = with_range(ranges, next);
    let n = ranges.len() as int;
    if covers(ranges, line) {
        let r = choose|r: int| 0 <= r < n && (#[trigger] ranges[r]).start <= line <= ranges[r].end;
        if r < n - 1 {
            assert(more[r] == ranges[r]);
        } else {
            assert(more[r].start <= line <= more[r].end);
        }
    }
    if next.start <= line <= next.end {
        assert(more[more.len() - 1].start <= line <= more[more.len() - 1].end);
    }
    if covers(more, line) {
        let r = choose|r: int| 0 <= r < more.len() && (#[trigger] more[r]).start <= line <= more[r].end;
        if r < n {
            assert(ranges[r].start <= line <= ranges[r].end || next.start <= line <= next.end);
        }
    }
}

proof fn lemma_marked_grow(all: Seq<Seq<char>>, from: int, k: int, m: int, a: char, b: char)
    requires
        k <= m,
    ensures
        marked_lines(all, from, k, a, b) <= marked_lines(all, from, m, a, b),
    decreases m - k,
{
    if k < m {
        lemma_marked_grow(all, from, k, m - 1, a, b);
    }
}

/// A hunk header is read.
#[verifier::spinoff_prover]
#[verifier::rlimit(60)]
proof fn lemma_header_read(
    base: PatchView,
    q: PatchView,
    all: Seq<Seq<char>>,
    m: int,
    t: int,
    i: int,
    old: Option<Seq<char>>,
    new: Option<Seq<char>>,
)
    requires
        is_section(all, m, t, old, new),
        m + 2 <= i < t,
        hunk_state(base, q, all, m + 2, i, old, new),
        is_header(all[i]),
    ensures
        after_patch_line(q, all[i], pattern_groups(HUNK_HEADER@, all[i])) matches Ok(after)
            && hunk_state(base, after, all, m + 2, i + 1, old, new),
{
    let from = m + 2;
    let k = i + 1;
    let line = all[i];
    let path = known_as(old, new);
    let groups = pattern_groups(HUNK_HEADER@, line);
    lemma_last_header(all, from, i);
    lemma_last_header(all, from, k);
    let n = numbers_of(line);
    assert(is_header_with(line, n));
    lemma_hunk_header(line);
    let range = LineRangeView {
        start: first_new_line(n) as u32,
        end: last_new_line(n) as u32,
    };
    let after = after_patch_line(q, line, groups)->Ok_0;
    let ranges = q.files[path].ranges;
    assert(after.files[path].ranges == with_range(ranges, range));
    assert(ranges.len() > 0 ==> ranges.last().start <= range.start) by {
        match last_header(all, from, i) {
            Some(h) => {
                assert(first_new_line(numbers_of(all[h])) <= first_new_line(
                    numbers_of(all[i]),
                ));
            },
            None => {},
        }
    }
    assert forall|l: int| #[trigger]
        covers(after.files[path].ranges, l) <==> exists|h: int|
            from <= h < k && is_header(#[trigger] all[h]) && first_new_line(
                numbers_of(all[h]),
            ) <= l <= last_new_line(numbers_of(all[h])) by {
        lemma_range_added(ranges, range, l);
        assert(covers(ranges, l) <==> exists|h: int|
            from <= h < i && is_header(#[trigger] all[h]) && first_new_line(
                numbers_of(all[h]),
            ) <= l <= last_new_line(numbers_of(all[h])));
        if covers(ranges, l) {
            let h = choose|h: int|
                from <= h < i && is_header(#[trigger] all[h]) && first_new_line(
                    numbers_of(all[h]),
                ) <= l <= last_new_line(numbers_of(all[h]));
            assert(is_header(all[h]));
        }
        if range.start <= l <= range.end {
            assert(is_header(all[i]));
        }
        if exists|h: int|
            from <= h < k && is_header(#[trigger] all[h]) && first_new_line(
                numbers_of(all[h]),
            ) <= l <= last_new_line(numbers_of(all[h])) {
            let h = choose|h: int|
                from <= h < k && is_header(#[trigger] all[h]) && first_new_line(
                    numbers_of(all[h]),
                ) <= l <= last_new_line(numbers_of(all[h]));
            if h < i {
                assert(is_header(all[h]));
            }
        }
    }
    lemma_range_added(ranges, range, range.start as int);
    assert(after.files =~= base.files.insert(
        path,
        ChangedFileView { ranges: after.files[path].ranges, ..base.files[path] },
    ));
    assert(!is_marked(line, '-', '-')) by {
        if is_marked(line, '-', ' ') {
            lemma_marked_starts(line);
        }
    }
    assert(last_header(all, from, k) == Some(i));
    assert forall|j: int, h: int|
        #![trigger is_line_of_hunk(all, h, j)]
        from <= h < j < k && is_line_of_hunk(all, h, j) && all[j][0] == '-' implies
        after.removed[(base.removed.len() + marked_lines(all, from, j, '-', '-')) as int]
        == removed_as(all, h, j, old, new) by {
        if j == i {
            lemma_marked_starts(all[i]);
        }
    }
}

/// A line of a hunk is read.
#[verifier::spinoff_prover]
#[verifier::rlimit(60)]
proof fn lemma_line_read(
    base: PatchView,
    q: PatchView,
    all: Seq<Seq<char>>,
    m: int,
    t: int,
    i: int,
    old: Option<Seq<char>>,
    new: Option<Seq<char>>,
)
    requires
        is_section(all, m, t, old, new),
        m + 2 <= i < t,
        hunk_state(base, q, all, m + 2, i, old, new),
        !is_header(all[i]),
    ensures
        after_patch_line(q, all[i], pattern_groups(HUNK_HEADER@, all[i])) matches Ok(after)
            && hunk_state(base, after, all, m + 2, i + 1, old, new),
{
    let from = m + 2;
    let k = i + 1;
    let line = all[i];
    let path = known_as(old, new);
    let groups = pattern_groups(HUNK_HEADER@, line);
    lemma_last_header(all, from, i);
    lemma_last_header(all, from, k);
    let h = choose|h: int| from <= h < i && #[trigger] is_line_of_hunk(all, h, i);
    assert(is_line_of_hunk(all, h, i));
    assert(is_marked(all[i], '-', ' ') || is_marked(all[i], '+', '\\'));
    assert forall|j: int| h < j <= i implies !is_header(#[trigger] all[j]) by {
        lemma_marked_starts(all[j]);
    }
    let g = last_header(all, from, i)->0;
    assert(last_header(all, from, i) is Some) by {
        if last_header(all, from, i) is None {
            assert(!is_header(all[h]));
        }
    }
    assert(g == h) by {
        if g < h {
            assert(!is_header(all[h]));
        }
        if g > h {
            assert(!is_header(all[g]));
        }
    }
    assert(last_header(all, from, k) == Some(h));
    assert(q.old_left > 0 || q.new_left > 0);
    let after = after_patch_line(q, all[i], groups)->Ok_0;
    assert(after.files == q.files);
    assert forall|l: int| #[trigger]
        covers(after.files[path].ranges, l) <==> exists|x: int|
            from <= x < k && is_header(#[trigger] all[x]) && first_new_line(
                numbers_of(all[x]),
            ) <= l <= last_new_line(numbers_of(all[x])) by {
        assert(covers(q.files[path].ranges, l) <==> exists|x: int|
            from <= x < i && is_header(#[trigger] all[x]) && first_new_line(
                numbers_of(all[x]),
            ) <= l <= last_new_line(numbers_of(all[x])));
        if exists|x: int|
            from <= x < k && is_header(#[trigger] all[x]) && first_new_line(
                numbers_of(all[x]),
            ) <= l <= last_new_line(numbers_of(all[x])) {
            let x = choose|x: int|
                from <= x < k && is_header(#[trigger] all[x]) && first_new_line(
                    numbers_of(all[x]),
                ) <= l <= last_new_line(numbers_of(all[x]));
            assert(x < i);
            assert(is_header(all[x]));
        }
        if exists|x: int|
            from <= x < i && is_header(#[trigger] all[x]) && first_new_line(
                numbers_of(all[x]),
            ) <= l <= last_new_line(numbers_of(all[x])) {
            let x = choose|x: int|
                from <= x < i && is_header(#[trigger] all[x]) && first_new_line(
                    numbers_of(all[x]),
                ) <= l <= last_new_line(numbers_of(all[x]));
            assert(is_header(all[x]));
        }
    }
    assert forall|j: int, x: int|
        #![trigger is_line_of_hunk(all, x, j)]
        from <= x < j < k && is_line_of_hunk(all, x, j) && all[j][0] == '-' implies
        after.removed[(base.removed.len() + marked_lines(all, from, j, '-', '-')) as int]
        == removed_as(all, x, j, old, new) by {
        if j < i {
            lemma_marked_grow(all, from, j + 1, i, '-', '-');
            assert(marked_lines(all, from, j + 1, '-', '-') == marked_lines(
                all,
                from,
                j,
                '-',
                '-',
            ) + 1);
        } else {
            assert(x == h) by {
                assert forall|y: int| x < y <= i implies !is_header(#[trigger] all[y]) by {
                    lemma_marked_starts(all[y]);
                }
                if x < h {
                    assert(!is_header(all[h]));
                }
                if h < x {
                    assert(!is_header(all[x]));
                }
            }
            assert(after.removed.last() == removed_as(all, h, i, old, new));
        }
    }
}

proof fn lemma_hunks_read(
    p: PatchView,
    base: PatchView,
    all: Seq<Seq<char>>,
    m: int,
    t: int,
    k: int,
    old: Option<Seq<char>>,
    new: Option<Seq<char>>,
)
    requires
        is_section(all, m, t, old, new),
        m + 2 <= k <= t,
        after_patch_lines(p, all, hunk_groups(), m + 2) == Ok::<PatchView, PatchErrorView>(base),
        hunk_state(base, base, all, m + 2, m + 2, old, new),
    ensures
        after_patch_lines(p, all, hunk_groups(), k) matches Ok(q) && hunk_state(
            base,
            q,
            all,
            m + 2,
            k,
            old,
            new,
        ),
    decreases k,
{
    if k > m + 2 {
        let i = k - 1;
        lemma_hunks_read(p, base, all, m, t, i, old, new);
        let q = after_patch_lines(p, all, hunk_groups(), i)->Ok_0;
        assert(hunk_groups()(all[i]) == pattern_groups(HUNK_HEADER@, all[i]));
        if is_header(all[i]) {
            lemma_header_read(base, q, all, m, t, i, old, new);
        } else {
            lemma_line_read(base, q, all, m, t, i, old, new);
        }
    }
}

proof fn lemma_section_read(
    files: Map<Seq<char>, ChangedFileView>,
    removed: Seq<RemovedLineView>,
    all: Seq<Seq<char>>,
    m: int,
    t: int,
    old: Option<Seq<char>>,
    new: Option<Seq<char>>,
) -> (base: PatchView)
    requires
        is_section(all, m, t, old, new),
        !files.contains_key(known_as(old, new)),
    ensures
        after_patch_lines(patch_start(files, removed), all, hunk_groups(), t) matches Ok(q)
            && hunk_state(base, q, all, m + 2, t, old, new),
        base.removed == removed,
        ({
            let path = known_as(old, new);
            &&& base.files == files.insert(path, base.files[path])
            &&& base.files[path].path == path
            &&& base.files[path].old_path == if old == new {
                None
            } else {
                old
            }
            &&& base.files[path].status == if old is None {
                ChangeStatus::Added
            } else if new is None {
                ChangeStatus::Deleted
            } else {
                ChangeStatus::Modified
            }
            &&& !base.files[path].whole_file
        }),
        (forall|i: int| 0 < i < m ==> !is_about_names(#[trigger] all[i])) ==> {
            &&& base.rename_from is None
            &&& base.rename_to is None
            &&& base.copy_from is None
            &&& base.copy_to is None
        },
        after_patch_lines(patch_start(files, removed), all, hunk_groups(), m) matches Ok(named) && {
            &&& base.rename_from == named.rename_from
            &&& base.rename_to == named.rename_to
        },
{
    let p = patch_start(files, removed);
    let groups = hunk_groups();
    lemma_read_aside(p, all, m, m);
    let before = after_patch_lines(p, all, groups, m)->Ok_0;
    reveal_strlit("a/");
    reveal_strlit("b/");
    assert("a/"@ =~= seq!['a', '/']);
    assert("b/"@ =~= seq!['b', '/']);
    lemma_named(all[m], "--- "@, "a/"@, 'a', old);
    lemma_named(all[m + 1], "+++ "@, "b/"@, 'b', new);
    lemma_no_other_mark(all[m]);
    lemma_no_other_mark(all[m + 1]);
    let first = after_patch_lines(p, all, groups, m + 1)->Ok_0;
    assert(first.old_path == old);
    let base = after_patch_lines(p, all, groups, m + 2)->Ok_0;
    let path = known_as(old, new);
    assert(base.files =~= files.insert(path, base.files[path]));
    assert(hunk_state(base, base, all, m + 2, m + 2, old, new)) by {
        assert(base.files[path].ranges =~= seq![]);
        assert(base.files =~= base.files.insert(
            path,
            ChangedFileView { ranges: base.files[path].ranges, ..base.files[path] },
        ));
    }
    lemma_hunks_read(p, base, all, m, t, t, old, new);
    base
}

/// A section of a patch tells of its file exactly the lines of its hunks: every line of every
/// hunk after the change, and the line where it stands of a hunk that only takes lines away;
/// and no other line. Where it has no hunk, the whole file counts as changed.
pub proof fn sections_tell_the_lines_of_every_hunk(
    patch: Seq<char>,
    files: Map<Seq<char>, ChangedFileView>,
    removed: Seq<RemovedLineView>,
    m: int,
    old: Option<Seq<char>>,
    new: Option<Seq<char>>,
)
    requires
        pattern_problem(HUNK_HEADER@) is None,
        is_section(lines(patch), m, lines(patch).len() as int, old, new),
        !files.contains_key(known_as(old, new)),
    ensures
        patch_of(patch, files, removed) matches Ok(after) && {
            let all = lines(patch);
            let path = known_as(old, new);
            &&& after.0.contains_key(path)
            &&& after.0[path].path == path
            &&& forall|line: int| #[trigger]
                covers(after.0[path].ranges, line) <==> exists|h: int|
                    m + 2 <= h < all.len() && is_header(#[trigger] all[h]) && first_new_line(
                        numbers_of(all[h]),
                    ) <= line <= last_new_line(numbers_of(all[h]))
            &&& after.0[path].whole_file <==> forall|h: int|
                m + 2 <= h < all.len() ==> !is_header(#[trigger] all[h])
        },
{
    let all = lines(patch);
    let t = all.len() as int;
    let path = known_as(old, new);
    let base = lemma_section_read(files, removed, all, m, t, old, new);
    let q = after_patch_lines(patch_start(files, removed), all, hunk_groups(), t)->Ok_0;
    let done = finished_files(q);
    let after = all_whole_without_ranges(done);
    assert(q.files.contains_key(path));
    assert(done.contains_key(path));
    assert(done[path].ranges == q.files[path].ranges);
    assert(done[path].whole_file == q.files[path].whole_file);
    assert(after[path].ranges == q.files[path].ranges);
    lemma_last_header(all, m + 2, t);
    assert forall|line: int| #[trigger]
        covers(after[path].ranges, line) <==> exists|h: int|
            m + 2 <= h < all.len() && is_header(#[trigger] all[h]) && first_new_line(
                numbers_of(all[h]),
            ) <= line <= last_new_line(numbers_of(all[h])) by {
        assert(covers(q.files[path].ranges, line) == covers(after[path].ranges, line));
    }
}

/// Whether the lines that a section takes away are kept behind others.
pub open spec fn keeps_removed(
    all: Seq<Seq<char>>,
    m: int,
    old: Option<Seq<char>>,
    new: Option<Seq<char>>,
    removed: Seq<RemovedLineView>,
    after: Seq<RemovedLineView>,
) -> bool {
    &&& removed.is_prefix_of(after)
    &&& after.len() == removed.len() + marked_lines(all, m + 2, all.len() as int, '-', '-')
    &&& forall|i: int, h: int|
        #![trigger is_line_of_hunk(all, h, i)]
        m + 2 <= h < i < all.len() && is_line_of_hunk(all, h, i) && all[i][0] == '-' ==> {
            let at = removed.len() + marked_lines(all, m + 2, i, '-', '-');
            at < after.len() && after[at as int] == removed_as(all, h, i, old, new)
        }
}

#[verifier::spinoff_prover]
proof fn lemma_removed_kept(
    base: PatchView,
    q: PatchView,
    all: Seq<Seq<char>>,
    m: int,
    old: Option<Seq<char>>,
    new: Option<Seq<char>>,
)
    requires
        hunk_state(base, q, all, m + 2, all.len() as int, old, new),
    ensures
        keeps_removed(all, m, old, new, base.removed, q.removed),
{
    let t = all.len() as int;
    let removed = base.removed;
    assert forall|i: int, h: int|
        #![trigger is_line_of_hunk(all, h, i)]
        m + 2 <= h < i < all.len() && is_line_of_hunk(all, h, i) && all[i][0] == '-' implies {
        let at = removed.len() + marked_lines(all, m + 2, i, '-', '-');
        at < q.removed.len() && q.removed[at as int] == removed_as(all, h, i, old, new)
    } by {
        lemma_marked_grow(all, m + 2, i + 1, t, '-', '-');
        assert(is_marked(all[i], '-', ' ') || is_marked(all[i], '+', '\\'));
        assert(is_marked(all[i], '-', '-'));
        assert(marked_lines(all, m + 2, i + 1, '-', '-') == marked_lines(all, m + 2, i, '-', '-')
            + 1);
    }
}

/// A section of a patch keeps every line that it takes away, in order, with the file and the
/// line where it stood; other lines are not kept.
pub proof fn sections_keep_every_removed_line(
    patch: Seq<char>,
    files: Map<Seq<char>, ChangedFileView>,
    removed: Seq<RemovedLineView>,
    m: int,
    old: Option<Seq<char>>,
    new: Option<Seq<char>>,
)
    requires
        pattern_problem(HUNK_HEADER@) is None,
        is_section(lines(patch), m, lines(patch).len() as int, old, new),
        !files.contains_key(known_as(old, new)),
    ensures
        patch_of(patch, files, removed) matches Ok(after) && keeps_removed(
            lines(patch),
            m,
            old,
            new,
            removed,
            after.1,
        ),
{
    let all = lines(patch);
    let t = all.len() as int;
    let base = lemma_section_read(files, removed, all, m, t, old, new);
    let q = after_patch_lines(patch_start(files, removed), all, hunk_groups(), t)->Ok_0;
    lemma_removed_kept(base, q, all, m, old, new);
}

/// A section of a patch that renames and copies nothing tells whether its file is added,
/// deleted or modified, and leaves all other files as they are.
pub proof fn sections_tell_what_became_of_their_file(
    patch: Seq<char>,
    files: Map<Seq<char>, ChangedFileView>,
    removed: Seq<RemovedLineView>,
    m: int,
    old: Option<Seq<char>>,
    new: Option<Seq<char>>,
)
    requires
        pattern_problem(HUNK_HEADER@) is None,
        is_section(lines(patch), m, lines(patch).len() as int, old, new),
        forall|k: int| 0 < k < m ==> !is_about_names(#[trigger] lines(patch)[k]),
        !files.contains_key(known_as(old, new)),
        forall|path: Seq<char>| #[trigger]
            files.contains_key(path) ==> files[path].whole_file || files[path].ranges.len() > 0,
    ensures
        patch_of(patch, files, removed) matches Ok(after) && {
            let path = known_as(old, new);
            &&& after.0 == files.insert(path, after.0[path])
            &&& after.0[path].status == if old is None {
                ChangeStatus::Added
            } else if new is None {
                ChangeStatus::Deleted
            } else {
                ChangeStatus::Modified
            }
            &&& after.0[path].old_path == if new is None {
                old
            } else if old == new {
                None
            } else {
                old
            }
        },
{
    let all = lines(patch);
    let t = all.len() as int;
    let path = known_as(old, new);
    let base = lemma_section_read(files, removed, all, m, t, old, new);
    let q = after_patch_lines(patch_start(files, removed), all, hunk_groups(), t)->Ok_0;
    let done = finished_files(q);
    let after = all_whole_without_ranges(done);
    assert(done =~= files.insert(path, done[path]));
    assert forall|other: Seq<char>| #[trigger] files.contains_key(other) implies after[other]
        == files[other] by {
        assert(done[other] == files[other]);
    }
    assert(after =~= files.insert(path, after[path]));
}

proof fn lemma_lines_of_both(first: Seq<char>, second: Seq<char>, i: int)
    requires
        first.len() > 0,
        first.last() == '\n',
        0 <= i <= first.len(),
    ensures
        lines_from(first + second, i) == lines_from(first, i) + lines_from(
            first + second,
            first.len() as int,
        ),
    decreases first.len() - i,
{
    let s = first + second;
    if i == first.len() {
        assert(lines_from(first, i) =~= seq![]);
        assert(lines_from(s, i) =~= seq![] + lines_from(s, i));
    } else {
        lemma_index_in_first(first, second, i);
        let at = index_from(first, '\n', i);
        assert(s.subrange(i, at) =~= first.subrange(i, at));
        lemma_lines_of_both(first, second, at + 1);
        assert(lines_from(s, i) =~= lines_from(first, i) + lines_from(s, first.len() as int));
    }
}

proof fn lemma_index_in_first(first: Seq<char>, second: Seq<char>, i: int)
    requires
        first.len() > 0,
        first.last() == '\n',
        0 <= i < first.len(),
    ensures
        i <= index_from(first, '\n', i) < first.len(),
        index_from(first + second, '\n', i) == index_from(first, '\n', i),
    decreases first.len() - i,
{
    assert((first + second)[i] == first[i]);
    if first[i] != '\n' {
        lemma_index_in_first(first, second, i + 1);
    }
}

proof fn lemma_lines_join(first: Seq<char>, second: Seq<char>)
    requires
        first.len() == 0 || first.last() == '\n',
    ensures
        lines(first + second) == lines(first) + lines(second),
{
    if first.len() == 0 {
        assert(first + second =~= second);
        assert(lines(first) =~= seq![]);
        assert(lines(first + second) =~= lines(first) + lines(second));
    } else {
        lemma_lines_of_both(first, second, 0);
        lines_behind_a_position(first + second, first.len() as int, 0);
        assert((first + second).skip(first.len() as int) =~= second);
    }
}

proof fn lemma_read_first(p: PatchView, a: Seq<Seq<char>>, b: Seq<Seq<char>>, n: int)
    requires
        0 <= n <= a.len(),
    ensures
        after_patch_lines(p, a + b, hunk_groups(), n) == after_patch_lines(p, a, hunk_groups(), n),
    decreases n,
{
    if n > 0 {
        lemma_read_first(p, a, b, n - 1);
        assert((a + b)[n - 1] == a[n - 1]);
    }
}

proof fn lemma_read_second(p: PatchView, q: PatchView, a: Seq<Seq<char>>, b: Seq<Seq<char>>, n: int)
    requires
        0 <= n <= b.len(),
        after_patch_lines(p, a, hunk_groups(), a.len() as int) == Ok::<PatchView, PatchErrorView>(
            q,
        ),
    ensures
        after_patch_lines(p, a + b, hunk_groups(), a.len() + n) == after_patch_lines(
            q,
            b,
            hunk_groups(),
            n,
        ),
    decreases n,
{
    if n == 0 {
        lemma_read_first(p, a, b, a.len() as int);
    } else {
        lemma_read_second(p, q, a, b, n - 1);
        assert((a + b)[a.len() + n - 1] == b[n - 1]);
    }
}

/// Whether files are those of two kinds together: those that only one of them has are as it has
/// them.
pub open spec fn are_of_both(
    first: Map<Seq<char>, ChangedFileView>,
    second: Map<Seq<char>, ChangedFileView>,
    all: Map<Seq<char>, ChangedFileView>,
) -> bool {
    &&& forall|path: Seq<char>| #[trigger]
        all.contains_key(path) <==> first.contains_key(path) || second.contains_key(path)
    &&& forall|path: Seq<char>|
        first.contains_key(path) && !second.contains_key(path) ==> #[trigger] all[path]
            == first[path]
    &&& forall|path: Seq<char>|
        !first.contains_key(path) && second.contains_key(path) ==> #[trigger] all[path]
            == second[path]
}

/// Whether one patch is read as another is behind what was read before.
spec fn reads_alike(
    files: Map<Seq<char>, ChangedFileView>,
    removed: Seq<RemovedLineView>,
    p: PatchView,
    q: PatchView,
) -> bool {
    &&& are_of_both(files, q.files, p.files)
    &&& p.removed == removed + q.removed
    &&& p.old_path == q.old_path
    &&& p.new_path == q.new_path
    &&& p.rename_from == q.rename_from
    &&& p.rename_to == q.rename_to
    &&& p.copy_from == q.copy_from
    &&& p.copy_to == q.copy_to
    &&& p.in_hunk == q.in_hunk
    &&& p.in_hunk ==> p.old_line == q.old_line
    &&& p.old_left == q.old_left
    &&& p.new_left == q.new_left
    &&& !p.in_hunk ==> p.old_left == 0 && p.new_left == 0
}

proof fn lemma_finished_alike(
    files: Map<Seq<char>, ChangedFileView>,
    removed: Seq<RemovedLineView>,
    p: PatchView,
    q: PatchView,
)
    requires
        reads_alike(files, removed, p, q),
    ensures
        are_of_both(files, finished_files(q), finished_files(p)),
{
    let a = finished_files(p);
    let b = finished_files(q);
    assert forall|path: Seq<char>| !files.contains_key(path) && b.contains_key(path) implies
        #[trigger] a[path] == b[path] by {
        if q.files.contains_key(path) {
            assert(p.files[path] == q.files[path]);
        } else {
            assert(!p.files.contains_key(path));
        }
    }
    assert forall|path: Seq<char>| files.contains_key(path) && !b.contains_key(path) implies
        #[trigger] a[path] == files[path] by {
        assert(p.files[path] == files[path]);
    }
}

#[verifier::spinoff_prover]
#[verifier::rlimit(40)]
proof fn lemma_reads_alike(
    files: Map<Seq<char>, ChangedFileView>,
    removed: Seq<RemovedLineView>,
    p: PatchView,
    q: PatchView,
    line: Seq<char>,
    groups: Option<Seq<Option<Seq<char>>>>,
)
    requires
        reads_alike(files, removed, p, q),
    ensures
        match (after_patch_line(p, line, groups), after_patch_line(q, line, groups)) {
            (Ok(a), Ok(b)) => reads_alike(files, removed, a, b),
            (Err(a), Err(b)) => a == b,
            _ => false,
        },
{
    lemma_finished_alike(files, removed, p, q);
    match (after_patch_line(p, line, groups), after_patch_line(q, line, groups)) {
        (Ok(a), Ok(b)) => {
            assert forall|path: Seq<char>|
                !files.contains_key(path) && b.files.contains_key(path) implies
                #[trigger] a.files[path] == b.files[path] by {
                if q.files.contains_key(path) {
                    assert(p.files[path] == q.files[path]);
                } else {
                    assert(!p.files.contains_key(path));
                }
            }
            assert forall|path: Seq<char>|
                files.contains_key(path) && !b.files.contains_key(path) implies
                #[trigger] a.files[path] == files[path] by {
                if !q.files.contains_key(path) {
                    assert(p.files[path] == files[path]);
                }
            }
            assert forall|path: Seq<char>| #[trigger]
                a.files.contains_key(path) <==> files.contains_key(path) || b.files.contains_key(
                    path,
                ) by {
                assert(p.files.contains_key(path) <==> files.contains_key(path)
                    || q.files.contains_key(path));
            }
            assert(a.removed =~= removed + b.removed);
        },
        _ => {},
    }
}

proof fn lemma_section_reads_alike(
    before: PatchView,
    b: Seq<Seq<char>>,
    n: int,
)
    requires
        0 < n <= b.len(),
        starts_with(b[0], "diff --git "@),
    ensures
        match (
            after_patch_lines(before, b, hunk_groups(), n),
            after_patch_lines(patch_start(Map::empty(), seq![]), b, hunk_groups(), n),
        ) {
            (Ok(p), Ok(q)) => reads_alike(finished_files(before), before.removed, p, q),
            (Err(p), Err(q)) => p == q,
            _ => false,
        },
    decreases n,
{
    let none = patch_start(Map::empty(), seq![]);
    let groups = hunk_groups();
    if n == 1 {
        lemma_no_other_mark(b[0]);
        assert(after_patch_lines(before, b, groups, 0) == Ok::<PatchView, PatchErrorView>(before));
        assert(after_patch_lines(none, b, groups, 0) == Ok::<PatchView, PatchErrorView>(none));
        let p = after_patch_lines(before, b, groups, 1)->Ok_0;
        let q = after_patch_lines(none, b, groups, 1)->Ok_0;
        assert(q.files == finished_files(none));
        assert(finished_files(none) =~= Map::empty());
        assert(p.removed =~= before.removed + q.removed);
    } else {
        lemma_section_reads_alike(before, b, n - 1);
        match (after_patch_lines(before, b, groups, n - 1), after_patch_lines(none, b, groups, n - 1)) {
            (Ok(p), Ok(q)) => {
                lemma_reads_alike(
                    finished_files(before),
                    before.removed,
                    p,
                    q,
                    b[n - 1],
                    groups(b[n - 1]),
                );
            },
            _ => {},
        }
    }
}

/// The sections of a patch are read one after the other: where a patch goes on with another
/// section, the files of both are told, and those that only one of them changes are told as it
/// does alone; the removed lines of one stand behind those of the other.
pub proof fn sections_are_read_one_after_the_other(
    first: Seq<char>,
    second: Seq<char>,
    files: Map<Seq<char>, ChangedFileView>,
    removed: Seq<RemovedLineView>,
)
    requires
        first.len() == 0 || first.last() == '\n',
        starts_with(second, "diff --git "@),
    ensures
        match (
            patch_of(first, files, removed),
            patch_of(second, Map::empty(), seq![]),
            patch_of(first + second, files, removed),
        ) {
            (Ok(before), Ok(alone), Ok(after)) => are_of_both(before.0, alone.0, after.0)
                && after.1 == before.1 + alone.1,
            (Err(error), _, after) => after == Err::<
                (Map<Seq<char>, ChangedFileView>, Seq<RemovedLineView>),
                PatchErrorView,
            >(error),
            (Ok(_), Err(error), after) => after == Err::<
                (Map<Seq<char>, ChangedFileView>, Seq<RemovedLineView>),
                PatchErrorView,
            >(error),
            _ => false,
        },
{
    let a = lines(first);
    let b = lines(second);
    let groups = hunk_groups();
    let p = patch_start(files, removed);
    let none = patch_start(Map::empty(), seq![]);
    if pattern_problem(HUNK_HEADER@) is None {
        lemma_lines_join(first, second);
        lemma_first_line(second);
        let n = b.len() as int;
        match after_patch_lines(p, a, groups, a.len() as int) {
            Err(_) => {
                lemma_read_first(p, a, b, a.len() as int);
                lemma_patch_error(p, a + b, groups, a.len() as int, (a + b).len() as int);
            },
            Ok(before) => {
                lemma_read_second(p, before, a, b, n);
                lemma_section_reads_alike(before, b, n);
                match (after_patch_lines(before, b, groups, n), after_patch_lines(none, b, groups, n)) {
                    (Ok(x), Ok(y)) => {
                        let base = finished_files(before);
                        lemma_finished_alike(base, before.removed, x, y);
                        assert(are_of_both(
                            all_whole_without_ranges(base),
                            all_whole_without_ranges(finished_files(y)),
                            all_whole_without_ranges(finished_files(x)),
                        ));
                    },
                    _ => {},
                }
            },
        }
    }
}

/// The first line of a text that starts as a section does starts so, too.
proof fn lemma_first_line(s: Seq<char>)
    requires
        starts_with(s, "diff --git "@),
    ensures
        lines(s).len() > 0,
        starts_with(lines(s)[0], "diff --git "@),
{
    reveal_strlit("diff --git ");
    let mark = "diff --git "@;
    let at = index_from(s, '\n', 0);
    assert forall|i: int| 0 <= i < mark.len() implies s[i] == mark[i] && s[i] != '\n' && s[i]
        != '\r' by {
        assert(s.subrange(0, mark.len() as int)[i] == s[i]);
    }
    lemma_index_behind(s, 0, mark.len() as int);
    let line = lines(s)[0];
    assert(line.len() >= mark.len()) by {
        if at < s.len() && at == mark.len() {
            assert(s.subrange(0, at).last() == s[at - 1]);
        }
    }
    assert(line.subrange(0, mark.len() as int) =~= mark);
}

proof fn lemma_index_behind(s: Seq<char>, from: int, to: int)
    requires
        0 <= from <= to <= s.len(),
        forall|i: int| from <= i < to ==> s[i] != '\n',
    ensures
        to <= index_from(s, '\n', from) <= s.len(),
    decreases to - from,
{
    if from < to {
        lemma_index_behind(s, from + 1, to);
    } else {
        lemma_index_bound(s, from);
    }
}

proof fn lemma_index_bound(s: Seq<char>, from: int)
    requires
        0 <= from <= s.len(),
    ensures
        from <= index_from(s, '\n', from) <= s.len(),
    decreases s.len() - from,
{
    if from < s.len() && s[from] != '\n' {
        lemma_index_bound(s, from + 1);
    }
}

/// Whether the lines before line `m` say once that a file is renamed, and nothing else of names.
pub open spec fn renames(
    all: Seq<Seq<char>>,
    m: int,
    a: int,
    b: int,
    from: Seq<char>,
    to: Seq<char>,
) -> bool {
    &&& 0 < a < m
    &&& 0 < b < m
    &&& is_plain_name(from)
    &&& !is_space(from[0])
    &&& from[0] != '"'
    &&& is_plain_name(to)
    &&& !is_space(to[0])
    &&& to[0] != '"'
    &&& all[a] == "rename from "@ + from
    &&& all[b] == "rename to "@ + to
    &&& forall|k: int| 0 < k < m && k != a && k != b ==> !is_about_names(#[trigger] all[k])
}

proof fn lemma_plain(line: Seq<char>, mark: Seq<char>, name: Seq<char>)
    requires
        line == mark + name,
        is_plain_name(name),
        !is_space(name[0]),
        name[0] != '"',
    ensures
        starts_with(line, mark),
        unquoted(line.skip(mark.len() as int)) == name,
{
    assert(line.subrange(0, mark.len() as int) =~= mark);
    assert(line.skip(mark.len() as int) =~= name);
    lemma_trimmed(name);
}

proof fn lemma_names_read(
    p: PatchView,
    all: Seq<Seq<char>>,
    k: int,
    m: int,
    a: int,
    b: int,
    from: Seq<char>,
    to: Seq<char>,
)
    requires
        p.old_left == 0,
        p.new_left == 0,
        !p.in_hunk,
        p.old_path is None,
        p.new_path is None,
        p.rename_from is None,
        p.rename_to is None,
        p.copy_from is None,
        p.copy_to is None,
        0 < k <= m <= all.len(),
        starts_with(all[0], "diff --git "@),
        forall|i: int| 0 < i < m ==> is_aside(#[trigger] all[i]),
        renames(all, m, a, b, from, to),
    ensures
        after_patch_lines(p, all, hunk_groups(), k) matches Ok(q) && {
            &&& q.rename_from == if a < k {
                Some(from)
            } else {
                None
            }
            &&& q.rename_to == if b < k {
                Some(to)
            } else {
                None
            }
            &&& q.copy_from is None
            &&& q.copy_to is None
        },
    decreases k,
{
    lemma_read_aside(p, all, k, m);
    lemma_no_other_mark(all[k - 1]);
    if k == 1 {
        lemma_read_aside(p, all, 1, m);
        assert forall|i: int| 0 < i < 1 implies !is_about_names(#[trigger] all[i]) by {}
    } else {
        lemma_names_read(p, all, k - 1, m, a, b, from, to);
        lemma_read_aside(p, all, k - 1, m);
        assert(is_aside(all[k - 1]));
        if k - 1 == a {
            lemma_plain(all[a], "rename from "@, from);
        }
        if k - 1 == b {
            lemma_plain(all[b], "rename to "@, to);
        }
        if a == b {
            lemma_plain(all[a], "rename from "@, from);
            lemma_plain(all[b], "rename to "@, to);
            lemma_no_other_mark(all[a]);
        }
    }
}

/// A section of a patch that only renames a file tells that it is renamed, from where, and
/// that it counts as changed as a whole; it leaves all other files as they are.
pub proof fn plain_renames_are_told(
    patch: Seq<char>,
    files: Map<Seq<char>, ChangedFileView>,
    removed: Seq<RemovedLineView>,
    a: int,
    b: int,
    from: Seq<char>,
    to: Seq<char>,
)
    requires
        pattern_problem(HUNK_HEADER@) is None,
        lines(patch).len() > 0,
        starts_with(lines(patch)[0], "diff --git "@),
        forall|k: int| 0 < k < lines(patch).len() ==> is_aside(#[trigger] lines(patch)[k]),
        renames(lines(patch), lines(patch).len() as int, a, b, from, to),
        !files.contains_key(to),
        forall|path: Seq<char>| #[trigger]
            files.contains_key(path) ==> files[path].whole_file || files[path].ranges.len() > 0,
    ensures
        patch_of(patch, files, removed) matches Ok(after) && {
            &&& after.0 == files.insert(
                to,
                ChangedFileView {
                    path: to,
                    old_path: Some(from),
                    status: ChangeStatus::Renamed,
                    ranges: seq![],
                    whole_file: true,
                },
            )
            &&& after.1 == removed
        },
{
    let all = lines(patch);
    let n = all.len() as int;
    let p = patch_start(files, removed);
    lemma_names_read(p, all, n, n, a, b, from, to);
    lemma_read_aside(p, all, n, n);
    let q = after_patch_lines(p, all, hunk_groups(), n)->Ok_0;
    let after = all_whole_without_ranges(finished_files(q));
    let told = ChangedFileView {
        path: to,
        old_path: Some(from),
        status: ChangeStatus::Renamed,
        ranges: seq![],
        whole_file: true,
    };
    assert(finished_files(q)[to] =~= told);
    assert(after =~= files.insert(to, told));
}

/// A section of a patch that renames a file and changes it tells that it is renamed, and from
/// where.
pub proof fn renames_with_changes_are_told(
    patch: Seq<char>,
    files: Map<Seq<char>, ChangedFileView>,
    removed: Seq<RemovedLineView>,
    m: int,
    a: int,
    b: int,
    from: Seq<char>,
    to: Seq<char>,
)
    requires
        pattern_problem(HUNK_HEADER@) is None,
        is_section(lines(patch), m, lines(patch).len() as int, Some(from), Some(to)),
        renames(lines(patch), m, a, b, from, to),
        !files.contains_key(to),
    ensures
        patch_of(patch, files, removed) matches Ok(after) && {
            &&& after.0.contains_key(to)
            &&& after.0[to].status == ChangeStatus::Renamed
            &&& after.0[to].old_path == Some(from)
        },
{
    let all = lines(patch);
    let t = all.len() as int;
    let p = patch_start(files, removed);
    lemma_names_read(p, all, m, m, a, b, from, to);
    let base = lemma_section_read(files, removed, all, m, t, Some(from), Some(to));
    let q = after_patch_lines(p, all, hunk_groups(), t)->Ok_0;
    assert(base.rename_from == Some(from) && base.rename_to == Some(to));
}

} // verus!

//! What changes, reviews and rewritten files are told of.

use vstd::prelude::*;

use crate::annotations::AnnotationScanView;
use crate::cli::ChangeArgs;
use crate::collections::{lemma_orderable, ordered};
use crate::config::{AnnotationConfigView, GitConfigView};
use crate::git::{
    asked_changes, asked_diff, asks_git, counts_untracked, diff_command, explicit_changes,
    explicit_path, listed_paths, lossy_utf8, values_in_order, with_untracked, zero_from,
    DiffSourceView,
};
use crate::index::changed_set;
use crate::migration::{
    bodies_of, counted, equivalence_problem, identities, identity_of, insert_pending,
    lemma_begins_with, line_end, migrated_body, migrated_from, migrated_line, migrated_text,
    migrated_whole_line, pending_files, pending_less, sort_pendings, text_between, told_members,
    told_relations, with_bodies, PendingFileView, SourceFileView,
};
use crate::model::{ChangeStatus, ChangedFileView, FileRecordView, ReviewView};
use crate::print_laws::holds_text;
use crate::review::{insert_review, opened_before, sort_reviews};
use crate::text::replace;

verus! {

/// Whether a file is told as changed as a whole.
pub open spec fn is_whole_change(
    file: ChangedFileView,
    path: Seq<char>,
    status: ChangeStatus,
) -> bool {
    &&& file.path == path
    &&& file.old_path is None
    &&& file.status == status
    &&& file.whole_file
    &&& file.ranges.len() == 0
}

proof fn lemma_values<V>(map: Map<Seq<char>, V>, value: V)
    requires
        map.dom().finite(),
    ensures
        values_in_order(map).contains(value) <==> exists|key: Seq<char>| #[trigger]
            map.contains_key(key) && map[key] == value,
{
    lemma_orderable(map.dom());
    let keys = ordered(map.dom());
    let all = values_in_order(map);
    if all.contains(value) {
        let k = all.index_of(value);
        assert(keys.to_set().contains(keys[k]));
        assert(map.contains_key(keys[k]));
    }
    if exists|key: Seq<char>| #[trigger] map.contains_key(key) && map[key] == value {
        let key = choose|key: Seq<char>| #[trigger] map.contains_key(key) && map[key] == value;
        assert(keys.to_set().contains(key));
        let k = keys.index_of(key);
        assert(all[k] == value);
    }
}

proof fn lemma_explicit(root: Seq<char>, paths: Seq<Seq<char>>, n: int)
    requires
        0 <= n <= paths.len(),
        explicit_changes(root, paths, n) is Ok,
    ensures
        ({
            let files = explicit_changes(root, paths, n)->Ok_0;
            &&& files.dom().finite()
            &&& forall|k: int|
                0 <= k < n ==> explicit_path(root, #[trigger] paths[k]) is Ok
                    && files.contains_key(explicit_path(root, paths[k])->Ok_0)
            &&& forall|path: Seq<char>| #[trigger]
                files.contains_key(path) ==> is_whole_change(
                    files[path],
                    path,
                    ChangeStatus::Modified,
                ) && exists|k: int|
                    0 <= k < n && explicit_path(root, #[trigger] paths[k]) == Ok::<
                        Seq<char>,
                        Seq<char>,
                    >(path)
        }),
    decreases n,
{
    if n > 0 {
        lemma_explicit(root, paths, n - 1);
        let before = explicit_changes(root, paths, n - 1)->Ok_0;
        let now = explicit_changes(root, paths, n)->Ok_0;
        assert forall|path: Seq<char>| #[trigger] now.contains_key(path) implies is_whole_change(
            now[path],
            path,
            ChangeStatus::Modified,
        ) && exists|k: int|
            0 <= k < n && explicit_path(root, #[trigger] paths[k]) == Ok::<Seq<char>, Seq<char>>(
                path,
            ) by {
            if before.contains_key(path) {
                let k = choose|k: int|
                    0 <= k < n - 1 && explicit_path(root, #[trigger] paths[k]) == Ok::<
                        Seq<char>,
                        Seq<char>,
                    >(path);
                assert(explicit_path(root, paths[k]) == Ok::<Seq<char>, Seq<char>>(path));
            } else {
                assert(explicit_path(root, paths[n - 1]) == Ok::<Seq<char>, Seq<char>>(path));
            }
        }
    }
}

/// Where files are named and nothing else is asked for, the change is of exactly these files,
/// each as a whole.
pub proof fn named_files_are_the_change(
    root: Seq<char>,
    args: ChangeArgs,
    config: GitConfigView,
    has_head: bool,
    patch: Seq<char>,
    untracked: Seq<Seq<char>>,
    k: int,
)
    requires
        !asks_git(args),
        asked_changes(root, args, config, has_head, patch, untracked) is Ok,
    ensures
        ({
            let files = asked_changes(root, args, config, has_head, patch, untracked)->Ok_0.files;
            let asked = args.files.deep_view();
            &&& 0 <= k < asked.len() ==> explicit_path(root, asked[k]) is Ok && exists|i: int|
                0 <= i < files.len() && is_whole_change(
                    #[trigger] files[i],
                    explicit_path(root, asked[k])->Ok_0,
                    ChangeStatus::Modified,
                )
            &&& 0 <= k < files.len() ==> exists|j: int|
                0 <= j < asked.len() && explicit_path(root, #[trigger] asked[j]) is Ok
                    && is_whole_change(
                    files[k],
                    explicit_path(root, asked[j])->Ok_0,
                    ChangeStatus::Modified,
                )
        }),
{
    let asked = args.files.deep_view();
    let known = explicit_changes(root, asked, asked.len() as int)->Ok_0;
    lemma_explicit(root, asked, asked.len() as int);
    let files = asked_changes(root, args, config, has_head, patch, untracked)->Ok_0.files;
    if 0 <= k < asked.len() {
        assert(explicit_path(root, asked[k]) is Ok);
        let path = explicit_path(root, asked[k])->Ok_0;
        assert(known.contains_key(path));
        lemma_values(known, known[path]);
        let i = files.index_of(known[path]);
        assert(is_whole_change(files[i], path, ChangeStatus::Modified));
    }
    if 0 <= k < files.len() {
        assert(files.contains(files[k]));
        lemma_values(known, files[k]);
        let path = choose|path: Seq<char>| #[trigger]
            known.contains_key(path) && known[path] == files[k];
        let j = choose|j: int|
            0 <= j < asked.len() && explicit_path(root, #[trigger] asked[j]) == Ok::<
                Seq<char>,
                Seq<char>,
            >(path);
        assert(explicit_path(root, asked[j]) is Ok);
    }
}

/// Untracked files are added to a change, each as a whole; what is known of a file already
/// stays as it is.
pub proof fn untracked_files_are_added(
    files: Map<Seq<char>, ChangedFileView>,
    paths: Seq<Seq<char>>,
    n: int,
    path: Seq<char>,
)
    requires
        0 <= n <= paths.len(),
    ensures
        ({
            let now = with_untracked(files, paths, n);
            &&& now.contains_key(path) <==> files.contains_key(path) || paths.take(n).contains(path)
            &&& files.contains_key(path) ==> now[path] == files[path]
            &&& !files.contains_key(path) && paths.take(n).contains(path) ==> is_whole_change(
                now[path],
                path,
                ChangeStatus::Untracked,
            )
        }),
    decreases n,
{
    if n > 0 {
        untracked_files_are_added(files, paths, n - 1, path);
        assert(paths.take(n) =~= paths.take(n - 1).push(paths[n - 1]));
        lemma_added(paths.take(n - 1), paths[n - 1], path);
    } else {
        assert(paths.take(0) =~= seq![]);
    }
}

proof fn lemma_added<T>(all: Seq<T>, x: T, y: T)
    ensures
        all.push(x).contains(y) <==> all.contains(y) || x == y,
{
    let more = all.push(x);
    if more.contains(y) {
        let k = more.index_of(y);
        if k < all.len() {
            assert(all[k] == y);
        }
    }
    if all.contains(y) {
        let k = all.index_of(y);
        assert(more[k] == y);
    }
    assert(more[all.len() as int] == x);
}

proof fn lemma_zero_from(bytes: Seq<u8>, i: int, end: int)
    requires
        0 <= i <= end < bytes.len(),
        bytes[end] == 0,
        forall|k: int| i <= k < end ==> bytes[k] != 0,
    ensures
        zero_from(bytes, i) == end,
    decreases end - i,
{
    if i < end {
        lemma_zero_from(bytes, i + 1, end);
    }
}

/// Every path that a zero byte ends is read, in order and with slashes, and so are those behind
/// it; empty ones are passed over.
pub proof fn every_listed_path_is_read(bytes: Seq<u8>, i: int, end: int)
    requires
        0 <= i <= end < bytes.len(),
        bytes[end] == 0,
        forall|k: int| i <= k < end ==> bytes[k] != 0,
    ensures
        listed_paths(bytes, i) == (if i < end {
            seq![replace(lossy_utf8(bytes.subrange(i, end)), '\\', "/"@)]
        } else {
            seq![]
        }) + listed_paths(bytes, end + 1),
{
    lemma_zero_from(bytes, i, end);
    assert(seq![] + listed_paths(bytes, end + 1) =~= listed_paths(bytes, end + 1));
}

proof fn lemma_review_inserted(sorted: Seq<ReviewView>, x: ReviewView)
    requires
        forall|i: int, j: int|
            0 <= i < j < sorted.len() ==> !opened_before(#[trigger] sorted[j], #[trigger] sorted[i]),
    ensures
        ({
            let now = insert_review(sorted, x);
            &&& now.len() == sorted.len() + 1
            &&& forall|y: ReviewView| #[trigger]
                now.contains(y) <==> sorted.contains(y) || x == y
            &&& forall|i: int, j: int|
                0 <= i < j < now.len() ==> !opened_before(#[trigger] now[j], #[trigger] now[i])
        }),
    decreases sorted.len(),
{
    let now = insert_review(sorted, x);
    if sorted.len() == 0 || !opened_before(x, sorted.last()) {
        assert forall|y: ReviewView| #[trigger] now.contains(y) <==> sorted.contains(y) || x == y by {
            lemma_added(sorted, x, y);
        }
        assert forall|i: int, j: int| 0 <= i < j < now.len() implies !opened_before(
            #[trigger] now[j],
            #[trigger] now[i],
        ) by {
            assert(now[i] == sorted[i]);
            if j < sorted.len() {
                assert(now[j] == sorted[j]);
            } else if i < sorted.len() - 1 {
                assert(!opened_before(sorted[sorted.len() - 1], sorted[i]));
            }
        }
    } else {
        let front = sorted.drop_last();
        let last = sorted.last();
        lemma_review_inserted(front, x);
        let before = insert_review(front, x);
        assert(front.push(last) =~= sorted);
        assert forall|y: ReviewView| #[trigger] now.contains(y) <==> sorted.contains(y) || x == y by {
            lemma_added(before, last, y);
            lemma_added(front, last, y);
        }
        assert forall|i: int, j: int| 0 <= i < j < now.len() implies !opened_before(
            #[trigger] now[j],
            #[trigger] now[i],
        ) by {
            assert(now[i] == before[i]);
            if j < before.len() {
                assert(now[j] == before[j]);
            } else {
                assert(before.contains(before[i]));
                if front.contains(before[i]) {
                    let k = front.index_of(before[i]);
                    assert(sorted[k] == before[i]);
                }
            }
        }
    }
}

/// All reviews are listed, none twice, in the order in which they were opened.
pub proof fn all_reviews_are_listed(all: Seq<ReviewView>)
    ensures
        sort_reviews(all).len() == all.len(),
        forall|y: ReviewView| #[trigger] sort_reviews(all).contains(y) <==> all.contains(y),
        forall|i: int, j: int|
            0 <= i < j < all.len() ==> !opened_before(
                #[trigger] sort_reviews(all)[j],
                #[trigger] sort_reviews(all)[i],
            ),
    decreases all.len(),
{
    if all.len() > 0 {
        let front = all.drop_last();
        all_reviews_are_listed(front);
        lemma_review_inserted(sort_reviews(front), all.last());
        assert(all =~= front.push(all.last()));
        assert forall|y: ReviewView| #[trigger] sort_reviews(all).contains(y) <==> all.contains(y) by {
            lemma_added(front, all.last(), y);
        }
    }
}

proof fn lemma_pending_inserted(sorted: Seq<PendingFileView>, x: PendingFileView, y: PendingFileView)
    ensures
        insert_pending(sorted, x).contains(y) <==> sorted.contains(y) || x == y,
        insert_pending(sorted, x).len() == sorted.len() + 1,
    decreases sorted.len(),
{
    lemma_added(sorted, x, y);
    if sorted.len() > 0 && pending_less(x, sorted.last()) {
        let front = sorted.drop_last();
        assert(sorted =~= front.push(sorted.last()));
        lemma_pending_inserted(front, x, y);
        lemma_added(insert_pending(front, x), sorted.last(), y);
        lemma_added(front, sorted.last(), y);
    }
}

/// Putting rewritten files in order keeps all of them.
pub proof fn all_rewritten_files_are_kept(all: Seq<PendingFileView>, y: PendingFileView)
    ensures
        sort_pendings(all).contains(y) <==> all.contains(y),
        sort_pendings(all).len() == all.len(),
    decreases all.len(),
{
    if all.len() > 0 {
        let front = all.drop_last();
        assert(all =~= front.push(all.last()));
        all_rewritten_files_are_kept(front, y);
        lemma_pending_inserted(sort_pendings(front), all.last(), y);
        lemma_added(front, all.last(), y);
    }
}

/// Every text file in which something is to be rewritten is rewritten, with all that is
/// rewritten in it.
pub proof fn every_file_is_rewritten(
    root: Seq<char>,
    config: AnnotationConfigView,
    files: Seq<SourceFileView>,
    n: int,
    i: int,
)
    requires
        0 <= i < n <= files.len(),
        pending_files(root, config, files, n) is Ok,
        files[i].content is Bytes,
        !files[i].content->Bytes_0.contains(0),
        vstd::utf8::valid_utf8(files[i].content->Bytes_0),
    ensures
        ({
            let text = vstd::utf8::decode_utf8(files[i].content->Bytes_0);
            &&& migrated_text(text, config) is Ok
            &&& migrated_text(text, config)->Ok_0.1 > 0 ==> exists|k: int|
                0 <= k < pending_files(root, config, files, n)->Ok_0.len() && ({
                    let pending = #[trigger] pending_files(root, config, files, n)->Ok_0[k];
                    &&& pending.path == files[i].path
                    &&& pending.text == migrated_text(text, config)->Ok_0.0
                    &&& pending.annotations == counted(migrated_text(text, config)->Ok_0.1)
                })
        }),
    decreases n,
{
    let now = pending_files(root, config, files, n)->Ok_0;
    let before = pending_files(root, config, files, n - 1)->Ok_0;
    let text = vstd::utf8::decode_utf8(files[i].content->Bytes_0);
    if i < n - 1 {
        every_file_is_rewritten(root, config, files, n - 1, i);
        if migrated_text(text, config)->Ok_0.1 > 0 {
            let k = choose|k: int|
                0 <= k < before.len() && ({
                    let pending = #[trigger] before[k];
                    &&& pending.path == files[i].path
                    &&& pending.text == migrated_text(text, config)->Ok_0.0
                    &&& pending.annotations == counted(migrated_text(text, config)->Ok_0.1)
                });
            assert(now[k] == before[k]);
        }
    } else if migrated_text(text, config)->Ok_0.1 > 0 {
        assert(now[now.len() - 1].path == files[i].path);
    }
}

proof fn lemma_bodies_counted(line: Seq<char>, bodies: Seq<(int, int)>, n: int)
    requires
        0 <= n <= bodies.len(),
    ensures
        with_bodies(line, bodies, n).1 >= 0,
        with_bodies(line, bodies, n).1 == 0 <==> forall|k: int|
            0 <= k < n ==> migrated_body(line.subrange((#[trigger] bodies[k]).0, bodies[k].1)) is None,
        with_bodies(line, bodies, n).1 <= n,
        with_bodies(line, bodies, n).1 == n <==> forall|k: int|
            0 <= k < n ==> migrated_body(line.subrange((#[trigger] bodies[k]).0, bodies[k].1)) is Some,
    decreases n,
{
    if n > 0 {
        lemma_bodies_counted(line, bodies, n - 1);
    }
}

/// Every anchor of a line is rewritten that has to be: in its place stands what becomes of its
/// body, or the body itself where it stays. No rewriting is counted exactly where all stay.
pub proof fn every_anchor_of_a_line_is_rewritten(
    line: Seq<char>,
    config: AnnotationConfigView,
    n: int,
)
    requires
        0 <= n < bodies_of(line, config).len(),
    ensures
        ({
            let bodies = bodies_of(line, config);
            let after = migrated_line(line, config).0;
            let body = line.subrange(bodies[n].0, bodies[n].1);
            let new = match migrated_body(body) {
                None => body,
                Some(text) => text,
            };
            &&& holds_text(after, new)
            &&& migrated_line(line, config).1 == 0 <==> forall|k: int|
                0 <= k < bodies.len() ==> migrated_body(
                    line.subrange((#[trigger] bodies[k]).0, bodies[k].1),
                ) is None
            &&& migrated_line(line, config).1 == bodies.len() <==> forall|k: int|
                0 <= k < bodies.len() ==> migrated_body(
                    line.subrange((#[trigger] bodies[k]).0, bodies[k].1),
                ) is Some
        }),
{
    let bodies = bodies_of(line, config);
    let all = bodies.len() as int;
    let after = migrated_line(line, config).0;
    let body = line.subrange(bodies[n].0, bodies[n].1);
    let new = match migrated_body(body) {
        None => body,
        Some(text) => text,
    };
    lemma_bodies_counted(line, bodies, all);
    lemma_begins_with(line, bodies, n + 1, all);
    let begun = with_bodies(line, bodies, n).0 + text_between(line, bodies, n);
    let more = with_bodies(line, bodies, n + 1).0;
    assert(more == begun + new);
    let at = begun.len() as int;
    let last = with_bodies(line, bodies, all).0;
    assert(after == last + text_between(line, bodies, all));
    assert(more.is_prefix_of(last));
    assert(more.len() == at + new.len());
    assert(last.subrange(0, more.len() as int) =~= more);
    let shown = after.subrange(at, at + new.len());
    assert forall|k: int| 0 <= k < new.len() implies #[trigger] shown[k] == new[k] by {
        assert(after[at + k] == last[at + k]);
        assert(last[at + k] == last.subrange(0, more.len() as int)[at + k]);
        assert(more[at + k] == new[k]);
    }
    assert(shown =~= new);
    assert(holds_text(after, new));
}

proof fn lemma_line_end_shifts(text: Seq<char>, from: int, i: int)
    requires
        0 <= from <= text.len(),
        0 <= i <= text.len() - from,
    ensures
        line_end(text, from + i) == from + line_end(text.skip(from), i),
        i < text.len() - from ==> i < line_end(text.skip(from), i) <= text.len() - from,
    decreases text.len() - from - i,
{
    if from + i < text.len() && text[from + i] != '\n' {
        lemma_line_end_shifts(text, from, i + 1);
    }
}

proof fn lemma_migrated_shifts(text: Seq<char>, config: AnnotationConfigView, from: int, i: int)
    requires
        0 <= from <= text.len(),
        0 <= i <= text.len() - from,
    ensures
        migrated_from(text, config, from + i) == migrated_from(text.skip(from), config, i),
    decreases text.len() - from - i,
{
    if i < text.len() - from {
        lemma_line_end_shifts(text, from, i);
        let end = line_end(text.skip(from), i);
        assert(text.subrange(from + i, from + end) =~= text.skip(from).subrange(i, end));
        lemma_migrated_shifts(text, config, from, end);
    }
}

proof fn lemma_first_line(line: Seq<char>, rest: Seq<char>, i: int)
    requires
        line.len() > 0,
        line.last() == '\n',
        forall|k: int| 0 <= k < line.len() - 1 ==> line[k] != '\n',
        0 <= i < line.len(),
    ensures
        line_end(line + rest, i) == line.len(),
    decreases line.len() - i,
{
    let text = line + rest;
    assert(text[i] == line[i]);
    if i < line.len() - 1 {
        lemma_first_line(line, rest, i + 1);
    }
}

/// A text is rewritten line by line, down to its last one: first the first line, then all that
/// follows.
pub proof fn texts_are_rewritten_to_their_end(
    line: Seq<char>,
    rest: Seq<char>,
    config: AnnotationConfigView,
)
    requires
        line.len() > 0,
        line.last() == '\n',
        forall|k: int| 0 <= k < line.len() - 1 ==> line[k] != '\n',
    ensures
        migrated_from(line + rest, config, 0).0 == migrated_whole_line(line, config).0
            + migrated_from(rest, config, 0).0,
        migrated_from(line + rest, config, 0).1 == migrated_whole_line(line, config).1
            + migrated_from(rest, config, 0).1,
{
    let text = line + rest;
    lemma_first_line(line, rest, 0);
    assert(text.subrange(0, line.len() as int) =~= line);
    assert(text.skip(line.len() as int) =~= rest);
    lemma_migrated_shifts(text, config, line.len() as int, 0);
}

/// What is asked of git fits what is asked for: the staged changes, the changes that are not
/// staged, or the changes since the revision that is given, or since that of the configuration
/// where none is; and renames are looked for where the configuration wants them.
pub proof fn diffs_are_asked_for(
    diff: Option<Seq<char>>,
    staged: bool,
    worktree: bool,
    config: GitConfigView,
    has_head: bool,
)
    ensures
        ({
            let source = asked_diff(diff, staged, worktree, config, has_head);
            let asked = diff_command(source, config.detect_renames);
            &&& asked.contains("diff"@)
            &&& asked.contains("--unified=0"@)
            &&& staged ==> asked.contains("--cached"@)
            &&& !staged && !worktree && has_head && diff is Some ==> asked.contains(diff->0)
            &&& !staged && !worktree && has_head && diff is None ==> asked.contains(
                config.default_diff,
            )
            &&& !staged && !worktree && !has_head ==> asked.contains("--cached"@)
            &&& !staged && worktree ==> source == DiffSourceView::Worktree
            &&& config.detect_renames ==> asked.contains("--find-renames"@) && asked.contains(
                "--find-copies"@,
            )
            &&& !config.detect_renames ==> asked.contains("--no-renames"@)
        }),
{
    let source = asked_diff(diff, staged, worktree, config, has_head);
    let asked = diff_command(source, config.detect_renames);
    assert(asked[2] == "diff"@);
    assert(asked[3] == "--unified=0"@);
    if config.detect_renames {
        assert(asked[8] == "--find-renames"@);
        assert(asked[9] == "--find-copies"@);
        if !(source is Worktree) {
            assert(asked.contains(asked[10]));
        }
    } else {
        assert(asked[8] == "--no-renames"@);
        if !(source is Worktree) {
            assert(asked.contains(asked[9]));
        }
    }
}

/// Untracked files count where they are asked for, unless they are left out; without a word on
/// them they count where the configuration says so and not only the staged changes are asked
/// for.
pub proof fn untracked_files_count_where_asked(args: ChangeArgs, config: GitConfigView)
    ensures
        args.no_untracked ==> !counts_untracked(args, config),
        !args.no_untracked && args.untracked ==> counts_untracked(args, config),
        !args.no_untracked && !args.untracked && args.staged ==> !counts_untracked(args, config),
        !args.no_untracked && !args.untracked && !args.staged ==> counts_untracked(args, config)
            == config.include_untracked,
{
}

/// A file is read again where it is new, where it is gone, and where its size or its time
/// differs from what is known of it; what is known of any other file still fits it.
pub proof fn changed_files_are_read_again(
    known: Map<Seq<char>, FileRecordView>,
    files: Map<Seq<char>, FileRecordView>,
    path: Seq<char>,
)
    ensures
        files.contains_key(path) && !known.contains_key(path) ==> changed_set(
            known,
            files,
        ).contains(path),
        known.contains_key(path) && !files.contains_key(path) ==> changed_set(
            known,
            files,
        ).contains(path),
        files.contains_key(path) && known.contains_key(path) && (files[path].size
            != known[path].size || files[path].modified_ns != known[path].modified_ns)
            ==> changed_set(known, files).contains(path),
        files.contains_key(path) && !changed_set(known, files).contains(path) ==> (
        known.contains_key(path) && files[path].size == known[path].size && files[path].modified_ns
            == known[path].modified_ns),
{
}

/// A rewritten file is accepted only where it says the same: the same anchors, up to where they
/// are, the same members and the same relations, each in its place.
pub proof fn rewritten_files_say_the_same(
    relative: Seq<char>,
    before: AnnotationScanView,
    after: AnnotationScanView,
    i: int,
)
    requires
        equivalence_problem(relative, before, after) is None,
    ensures
        before.anchors.len() == after.anchors.len(),
        before.memberships.len() == after.memberships.len(),
        before.relations.len() == after.relations.len(),
        0 <= i < before.anchors.len() ==> {
            &&& before.anchors[i].0.id == after.anchors[i].0.id
            &&& before.anchors[i].0.target == after.anchors[i].0.target
            &&& before.anchors[i].0.kind == after.anchors[i].0.kind
            &&& before.anchors[i].0.tags == after.anchors[i].0.tags
        },
        0 <= i < before.memberships.len() ==> {
            &&& before.memberships[i].strand == after.memberships[i].strand
            &&& before.memberships[i].member == after.memberships[i].member
        },
        0 <= i < before.relations.len() ==> {
            &&& before.relations[i].strand == after.relations[i].strand
            &&& before.relations[i].relation == after.relations[i].relation
        },
{
    let a = identities(before.anchors);
    let b = identities(after.anchors);
    assert(a.len() == before.anchors.len());
    assert(b.len() == after.anchors.len());
    let c = told_members(before.memberships);
    let d = told_members(after.memberships);
    assert(c.len() == before.memberships.len());
    assert(d.len() == after.memberships.len());
    let e = told_relations(before.relations);
    let f = told_relations(after.relations);
    assert(e.len() == before.relations.len());
    assert(f.len() == after.relations.len());
    if 0 <= i < a.len() {
        assert(a[i] == identity_of(before.anchors[i].0));
        assert(b[i] == identity_of(after.anchors[i].0));
    }
    if 0 <= i < c.len() {
        assert(c[i] == (before.memberships[i].strand, before.memberships[i].member));
        assert(d[i] == (after.memberships[i].strand, after.memberships[i].member));
    }
    if 0 <= i < e.len() {
        assert(e[i] == (before.relations[i].strand, before.relations[i].relation));
        assert(f[i] == (after.relations[i].strand, after.relations[i].relation));
    }
}

} // verus!

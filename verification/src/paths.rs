//! Paths with `/` between their parts.

use vstd::prelude::*;

use crate::text::{chars_are, chars_of, slice_of, split, split_on, string_of};

verus! {

broadcast use crate::views::lemma_chars_deep_view;

/// The last of the first `n` parts that names something: not an empty part, nor `.`, nor
/// `..`, which names nothing of its own.
pub open spec fn last_name(parts: Seq<Seq<char>>, n: int) -> Option<Seq<char>>
    decreases n,
{
    if n <= 0 {
        None
    } else if parts[n - 1].len() == 0 || parts[n - 1] == "."@ {
        last_name(parts, n - 1)
    } else if parts[n - 1] == ".."@ {
        None
    } else {
        Some(parts[n - 1])
    }
}

/// The file that a path names.
pub open spec fn file_name(path: Seq<char>) -> Option<Seq<char>> {
    last_name(split(path, '/'), split(path, '/').len() as int)
}

/// The position after the last `.` among the first `n` characters, or 0.
pub open spec fn after_dot(name: Seq<char>, n: int) -> int
    decreases n,
{
    if n <= 0 {
        0
    } else if name[n - 1] == '.' {
        n
    } else {
        after_dot(name, n - 1)
    }
}

/// What follows the last `.` of the file name, unless that is where the name starts.
pub open spec fn extension(path: Seq<char>) -> Option<Seq<char>> {
    match file_name(path) {
        None => None,
        Some(name) => {
            let at = after_dot(name, name.len() as int);
            if at <= 1 {
                None
            } else {
                Some(name.subrange(at, name.len() as int))
            }
        },
    }
}

/// The file that a path names.
pub fn file_name_of(path: &str) -> (r: Option<Vec<char>>)
    ensures
        match r {
            Some(name) => file_name(path@) == Some(name@),
            None => file_name(path@) is None,
        },
{
    let chars = chars_of(path);
    let parts = split_on(&chars, '/');
    let mut n: usize = parts.len();
    while n > 0
        invariant
            n <= parts@.len(),
            parts.deep_view() == split(path@, '/'),
            file_name(path@) == last_name(parts.deep_view(), n as int),
        decreases n,
    {
        let part = &parts[n - 1];
        assert(parts.deep_view()[n - 1] == part@);
        if part.len() == 0 || chars_are(part, ".") {
            n -= 1;
        } else if chars_are(part, "..") {
            return None;
        } else {
            return Some(slice_of(part, 0, part.len()));
        }
    }
    None
}

/// What follows the last `.` of the file name, unless that is where the name starts.
pub fn extension_of(path: &str) -> (r: Option<String>)
    ensures
        r.deep_view() == extension(path@),
{
    let name = match file_name_of(path) {
        Some(name) => name,
        None => {
            return None;
        },
    };
    let mut n: usize = name.len();
    while n > 0 && name[n - 1] != '.'
        invariant
            n <= name@.len(),
            after_dot(name@, name@.len() as int) == after_dot(name@, n as int),
        decreases n,
    {
        n -= 1;
    }
    if n <= 1 {
        return None;
    }
    let tail = slice_of(&name, n, name.len());
    Some(string_of(&tail))
}

/// The start of the next part of a path at or after position `i`, which is where a part may
/// start; empty parts and `.` are passed over. The length where there is none.
pub open spec fn next_part(path: Seq<char>, i: int) -> int
    decreases path.len() - i,
{
    if i < 0 || i >= path.len() {
        path.len() as int
    } else if path[i] == '/' || (path[i] == '.' && (i + 1 == path.len() || path[i + 1] == '/')) {
        next_part(path, i + 1)
    } else {
        i
    }
}

/// Whether a path starts at the root.
pub open spec fn is_absolute(path: Seq<char>) -> bool {
    path.len() > 0 && path[0] == '/'
}

/// The start of the first part of a path. A relative path may start with the part `.`.
pub open spec fn first_part(path: Seq<char>) -> int {
    if is_absolute(path) {
        next_part(path, 0)
    } else {
        0
    }
}

/// The position in `path` behind the parts of `base`, from positions `i` and `j` on, where
/// `path` has those parts.
pub open spec fn behind_parts(path: Seq<char>, i: int, base: Seq<char>, j: int) -> Option<int>
    decreases base.len() - j,
{
    if j < 0 || j >= base.len() {
        Some(i)
    } else if i < 0 || i >= path.len() {
        None
    } else {
        let path_end = crate::text::index_from(path, '/', i);
        let base_end = crate::text::index_from(base, '/', j);
        if path.subrange(i, path_end) == base.subrange(j, base_end) && j < next_part(
            base,
            base_end,
        ) <= base.len() {
            behind_parts(path, next_part(path, path_end), base, next_part(base, base_end))
        } else {
            None
        }
    }
}

/// The end of the last part of a path that starts behind position `i`: empty parts and `.`
/// at the end are left out.
pub open spec fn last_part_end(path: Seq<char>, i: int, end: int) -> int
    decreases end - i,
{
    if end <= i {
        i
    } else if path[end - 1] == '/' || (path[end - 1] == '.' && (end - 1 == i || path[end - 2]
        == '/')) {
        last_part_end(path, i, end - 1)
    } else {
        end
    }
}

/// How much of a path stands for its root or for the directory that it starts from.
pub open spec fn fixed_start(path: Seq<char>) -> int {
    if is_absolute(path) || (path.len() > 0 && path[0] == '.' && (path.len() == 1 || path[1]
        == '/')) {
        1
    } else {
        0
    }
}

/// What is left of a path below a directory, part by part; nothing where the path is not
/// below it.
pub open spec fn below(path: Seq<char>, base: Seq<char>) -> Option<Seq<char>> {
    if base.len() == 0 {
        Some(path.take(last_part_end(path, fixed_start(path), path.len() as int)))
    } else if is_absolute(path) != is_absolute(base) {
        None
    } else {
        match behind_parts(path, first_part(path), base, first_part(base)) {
            None => None,
            Some(i) => Some(path.subrange(i, last_part_end(path, i, path.len() as int))),
        }
    }
}

/// The start of the next part of a path at or after position `from`.
pub fn find_next_part(path: &[char], from: usize) -> (r: usize)
    requires
        from <= path@.len(),
    ensures
        r == next_part(path@, from as int),
        from <= r <= path@.len(),
{
    let mut i: usize = from;
    while i < path.len() && (path[i] == '/' || (path[i] == '.' && (i + 1 == path.len() || path[i
        + 1] == '/')))
        invariant
            from <= i <= path@.len(),
            next_part(path@, from as int) == next_part(path@, i as int),
        decreases path@.len() - i,
    {
        i += 1;
    }
    i
}

/// The end of the last part of a path that starts behind position `i`.
fn find_last_part_end(p: &[char], i: usize) -> (end: usize)
    requires
        i <= p@.len(),
    ensures
        end == last_part_end(p@, i as int, p@.len() as int),
        i <= end <= p@.len(),
{
    let mut end: usize = p.len();
    while end > i && (p[end - 1] == '/' || (p[end - 1] == '.' && (end - 1 == i || p[end - 2] == '/')))
        invariant
            i <= end <= p@.len(),
            last_part_end(p@, i as int, p@.len() as int) == last_part_end(
                p@,
                i as int,
                end as int,
            ),
        decreases end - i,
    {
        end -= 1;
    }
    end
}

/// What is left of a path below a directory, part by part.
pub fn path_below(path: &str, base: &str) -> (r: Option<String>)
    ensures
        r.deep_view() == below(path@, base@),
{
    let p = chars_of(path);
    let b = chars_of(base);
    let absolute = p.len() > 0 && p[0] == '/';
    if b.len() == 0 {
        let fixed: usize = if absolute || (p.len() > 0 && p[0] == '.' && (p.len() == 1 || p[1]
            == '/')) {
            1
        } else {
            0
        };
        let end = find_last_part_end(&p, fixed);
        let whole = crate::text::substring(&p, 0, end);
        assert(whole@ =~= path@.take(end as int));
        return Some(whole);
    }
    if absolute != (b[0] == '/') {
        return None;
    }
    let mut i: usize = if absolute {
        find_next_part(&p, 0)
    } else {
        0
    };
    let mut j: usize = if absolute {
        find_next_part(&b, 0)
    } else {
        0
    };
    while j < b.len()
        invariant
            p@ == path@,
            b@ == base@,
            i <= p@.len(),
            j <= b@.len(),
            is_absolute(path@) == is_absolute(base@),
            behind_parts(p@, first_part(p@), b@, first_part(b@)) == behind_parts(
                p@,
                i as int,
                b@,
                j as int,
            ),
        decreases b@.len() - j,
    {
        if i >= p.len() {
            return None;
        }
        let path_end = crate::text::index_of(&p, '/', i);
        let base_end = crate::text::index_of(&b, '/', j);
        let same = crate::text::same_chars(
            &slice_of(&p, i, path_end),
            &slice_of(&b, j, base_end),
        );
        let next = find_next_part(&b, base_end);
        if !same || next <= j {
            return None;
        }
        i = find_next_part(&p, path_end);
        j = next;
    }
    let end = find_last_part_end(&p, i);
    Some(crate::text::substring(&p, i, end))
}

/// The file name without its extension.
pub open spec fn file_stem(path: Seq<char>) -> Option<Seq<char>> {
    match file_name(path) {
        None => None,
        Some(name) => {
            let at = after_dot(name, name.len() as int);
            if at <= 1 {
                Some(name)
            } else {
                Some(name.take(at - 1))
            }
        },
    }
}

/// The file name without its extension.
pub fn file_stem_of(path: &str) -> (r: Option<Vec<char>>)
    ensures
        r.deep_view() == file_stem(path@),
{
    let name = match file_name_of(path) {
        None => {
            return None;
        },
        Some(name) => name,
    };
    let mut n: usize = name.len();
    while n > 0 && name[n - 1] != '.'
        invariant
            n <= name@.len(),
            after_dot(name@, name@.len() as int) == after_dot(name@, n as int),
        decreases n,
    {
        n -= 1;
    }
    if n <= 1 {
        Some(name)
    } else {
        let stem = slice_of(&name, 0, n - 1);
        assert(stem@ =~= name@.take(n - 1));
        Some(stem)
    }
}

/// A path below a directory.
pub open spec fn joined(directory: Seq<char>, name: Seq<char>) -> Seq<char> {
    if is_absolute(name) {
        name
    } else if directory.len() == 0 || directory.last() == '/' {
        directory + name
    } else {
        directory + "/"@ + name
    }
}

/// A path below a directory.
pub fn join_path(directory: &str, name: &str) -> (r: String)
    ensures
        r@ == joined(directory@, name@),
{
    let end = chars_of(name);
    if end.len() > 0 && end[0] == '/' {
        return name.to_owned();
    }
    let start = chars_of(directory);
    let mut path = directory.to_owned();
    if start.len() > 0 && start[start.len() - 1] != '/' {
        path.push_str("/");
    }
    path.push_str(name);
    path
}

/// The parts among the first `n` that lead somewhere: empty parts are passed over, and `.`
/// too unless a path starts with it.
pub open spec fn leading_parts(parts: Seq<Seq<char>>, n: int) -> Seq<Seq<char>>
    decreases n,
{
    if n <= 0 {
        seq![]
    } else if parts[n - 1].len() == 0 || (parts[n - 1] == "."@ && n > 1) {
        leading_parts(parts, n - 1)
    } else {
        leading_parts(parts, n - 1).push(parts[n - 1])
    }
}

/// The parts of a path that lead somewhere.
pub open spec fn parts_of(path: Seq<char>) -> Seq<Seq<char>> {
    leading_parts(split(path, '/'), split(path, '/').len() as int)
}

/// Where a part stands in the order of parts: `.`, then `..`, then names.
pub open spec fn part_rank(part: Seq<char>) -> int {
    if part == "."@ {
        0
    } else if part == ".."@ {
        1
    } else {
        2
    }
}

/// Whether a part comes before another.
pub open spec fn part_less(a: Seq<char>, b: Seq<char>) -> bool {
    part_rank(a) < part_rank(b) || (part_rank(a) == part_rank(b) && crate::text::text_less(a, b))
}

/// Whether parts come before others, from position `i` on.
pub open spec fn parts_less(a: Seq<Seq<char>>, b: Seq<Seq<char>>, i: int) -> bool
    decreases a.len() - i,
{
    if i >= b.len() {
        false
    } else if i >= a.len() {
        true
    } else if a[i] == b[i] {
        parts_less(a, b, i + 1)
    } else {
        part_less(a[i], b[i])
    }
}

/// Whether a path comes before another, part by part; one that starts at the root comes
/// before one that does not, unless that has no parts.
pub open spec fn path_less(a: Seq<char>, b: Seq<char>) -> bool {
    if is_absolute(a) == is_absolute(b) {
        parts_less(parts_of(a), parts_of(b), 0)
    } else if is_absolute(a) {
        parts_of(b).len() > 0
    } else {
        parts_of(a).len() == 0
    }
}

/// Whether two paths have the same parts.
pub open spec fn is_same_path(a: Seq<char>, b: Seq<char>) -> bool {
    is_absolute(a) == is_absolute(b) && parts_of(a) == parts_of(b)
}

/// The parts of a path that lead somewhere.
fn path_parts(path: &str) -> (r: Vec<Vec<char>>)
    ensures
        r.deep_view() == parts_of(path@),
{
    let chars = chars_of(path);
    let all = split_on(&chars, '/');
    let ghost texts = all.deep_view();
    let mut out: Vec<Vec<char>> = Vec::new();
    let mut i: usize = 0;
    assert(out.deep_view() =~= seq![]);
    while i < all.len()
        invariant
            i <= all@.len(),
            texts == all.deep_view(),
            out.deep_view() == leading_parts(texts, i as int),
        decreases all@.len() - i,
    {
        assert(texts[i as int] == all@[i as int]@);
        if !(all[i].len() == 0 || (chars_are(&all[i], ".") && i > 0)) {
            let part = slice_of(&all[i], 0, all[i].len());
            assert(part@ =~= all@[i as int]@);
            crate::views::push_item(&mut out, part);
        }
        i += 1;
    }
    out
}

/// Where a part stands in the order of parts.
fn rank_of(part: &[char]) -> (r: u8)
    ensures
        r == part_rank(part@),
{
    if chars_are(part, ".") {
        0
    } else if chars_are(part, "..") {
        1
    } else {
        2
    }
}

/// Whether a path starts at the root.
fn starts_at_root(path: &str) -> (r: bool)
    ensures
        r == is_absolute(path@),
{
    let chars = chars_of(path);
    chars.len() > 0 && chars[0] == '/'
}

/// Whether a path comes before another.
pub fn path_before(a: &str, b: &str) -> (r: bool)
    ensures
        r == path_less(a@, b@),
{
    let x = path_parts(a);
    let y = path_parts(b);
    let first = starts_at_root(a);
    let second = starts_at_root(b);
    let ghost left = x.deep_view();
    let ghost right = y.deep_view();
    if first != second {
        return if first {
            y.len() > 0
        } else {
            x.len() == 0
        };
    }
    let mut i: usize = 0;
    while i < x.len() && i < y.len()
        invariant
            i <= x@.len(),
            i <= y@.len(),
            left == x.deep_view(),
            right == y.deep_view(),
            left == parts_of(a@),
            right == parts_of(b@),
            is_absolute(a@) == is_absolute(b@),
            parts_less(left, right, 0) == parts_less(left, right, i as int),
        decreases x@.len() - i,
    {
        assert(left[i as int] == x@[i as int]@);
        assert(right[i as int] == y@[i as int]@);
        if !crate::text::same_chars(&x[i], &y[i]) {
            let p: u8 = rank_of(&x[i]);
            let q: u8 = rank_of(&y[i]);
            if p != q {
                return p < q;
            }
            let s = string_of(&x[i]);
            let t = string_of(&y[i]);
            return crate::text::text_before(s.as_str(), t.as_str());
        }
        i += 1;
    }
    i >= x.len() && i < y.len()
}

/// Whether two paths have the same parts.
pub fn same_path(a: &str, b: &str) -> (r: bool)
    ensures
        r == is_same_path(a@, b@),
{
    if starts_at_root(a) != starts_at_root(b) {
        return false;
    }
    let x = path_parts(a);
    let y = path_parts(b);
    let ghost left = x.deep_view();
    let ghost right = y.deep_view();
    if x.len() != y.len() {
        assert(left.len() != right.len());
        return false;
    }
    let mut i: usize = 0;
    while i < x.len()
        invariant
            i <= x@.len(),
            x@.len() == y@.len(),
            left == x.deep_view(),
            right == y.deep_view(),
            left == parts_of(a@),
            right == parts_of(b@),
            forall|k: int| 0 <= k < i ==> #[trigger] left[k] == right[k],
        decreases x@.len() - i,
    {
        assert(left[i as int] == x@[i as int]@);
        assert(right[i as int] == y@[i as int]@);
        if !crate::text::same_chars(&x[i], &y[i]) {
            return false;
        }
        i += 1;
    }
    assert(left =~= right);
    true
}

/// A path put behind the last one that does not come after it.
pub open spec fn insert_path(sorted: Seq<Seq<char>>, path: Seq<char>) -> Seq<Seq<char>>
    decreases sorted.len(),
{
    if sorted.len() == 0 || !path_less(path, sorted.last()) {
        sorted.push(path)
    } else {
        insert_path(sorted.drop_last(), path).push(sorted.last())
    }
}

/// Paths in order; paths with the same parts stay as they came.
pub open spec fn sort_paths(paths: Seq<Seq<char>>) -> Seq<Seq<char>>
    decreases paths.len(),
{
    if paths.len() == 0 {
        paths
    } else {
        insert_path(sort_paths(paths.drop_last()), paths.last())
    }
}

proof fn lemma_insert_path(sorted: Seq<Seq<char>>, path: Seq<char>, at: int)
    requires
        0 <= at <= sorted.len(),
        forall|k: int| at <= k < sorted.len() ==> path_less(path, #[trigger] sorted[k]),
        at > 0 ==> !path_less(path, sorted[at - 1]),
    ensures
        insert_path(sorted, path) == sorted.insert(at, path),
    decreases sorted.len(),
{
    if at == sorted.len() {
        assert(sorted.insert(at, path) =~= sorted.push(path));
    } else {
        lemma_insert_path(sorted.drop_last(), path, at);
        assert(sorted.insert(at, path) =~= sorted.drop_last().insert(at, path).push(
            sorted.last(),
        ));
    }
}

/// Paths in order.
pub fn sorted_paths(paths: &Vec<String>) -> (r: Vec<String>)
    ensures
        r.deep_view() == sort_paths(paths.deep_view()),
{
    let mut out: Vec<String> = Vec::new();
    let ghost all = paths.deep_view();
    let mut i: usize = 0;
    assert(all.take(0) =~= seq![]);
    assert(out.deep_view() =~= sort_paths(all.take(0)));
    while i < paths.len()
        invariant
            i <= paths@.len(),
            all == paths.deep_view(),
            out.deep_view() == sort_paths(all.take(i as int)),
        decreases paths@.len() - i,
    {
        let x = paths[i].clone();
        assert(all[i as int] == x@);
        assert(all.take(i + 1).drop_last() =~= all.take(i as int));
        let ghost before = out.deep_view();
        let mut at: usize = out.len();
        while at > 0
            invariant
                at <= out@.len(),
                before == out.deep_view(),
                forall|k: int| at <= k < before.len() ==> path_less(x@, #[trigger] before[k]),
            ensures
                at <= out@.len(),
                forall|k: int| at <= k < before.len() ==> path_less(x@, #[trigger] before[k]),
                at > 0 ==> !path_less(x@, before[at - 1]),
            decreases at,
        {
            assert(before[at - 1] == out@[at - 1]@);
            if !path_before(x.as_str(), out[at - 1].as_str()) {
                break;
            }
            at -= 1;
        }
        proof {
            lemma_insert_path(before, x@, at as int);
        }
        let ghost view = x@;
        out.insert(at, x);
        assert(out.deep_view() =~= before.insert(at as int, view));
        i += 1;
    }
    assert(all.take(all.len() as int) =~= all);
    out
}

/// The first `n` paths without those that repeat the one kept before.
pub open spec fn distinct_paths(paths: Seq<Seq<char>>, n: int) -> Seq<Seq<char>>
    decreases n,
{
    if n <= 0 {
        seq![]
    } else {
        let before = distinct_paths(paths, n - 1);
        if before.len() > 0 && is_same_path(before.last(), paths[n - 1]) {
            before
        } else {
            before.push(paths[n - 1])
        }
    }
}

/// Paths without those that repeat the one kept before.
pub fn without_repeats(paths: &Vec<String>) -> (r: Vec<String>)
    ensures
        r.deep_view() == distinct_paths(paths.deep_view(), paths@.len() as int),
{
    let ghost all = paths.deep_view();
    let mut out: Vec<String> = Vec::new();
    let mut i: usize = 0;
    assert(out.deep_view() =~= seq![]);
    while i < paths.len()
        invariant
            i <= paths@.len(),
            all == paths.deep_view(),
            out.deep_view() == distinct_paths(all, i as int),
        decreases paths@.len() - i,
    {
        assert(all[i as int] == paths@[i as int]@);
        let n: usize = out.len();
        let repeated = if n > 0 {
            assert(out.deep_view().last() == out@[n - 1]@);
            same_path(out[n - 1].as_str(), paths[i].as_str())
        } else {
            false
        };
        if !repeated {
            crate::views::push_item(&mut out, paths[i].clone());
        }
        i += 1;
    }
    out
}

} // verus!

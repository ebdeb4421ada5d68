//! What holds of texts and their lines.

use vstd::prelude::*;

use crate::text::{
    index_from, is_blank, is_space, join, lines, lines_from, trim, trim_start, without_return,
};

verus! {

/// Whether a piece of text stands in another as a whole line.
pub open spec fn stands_as_line(text: Seq<char>, piece: Seq<char>) -> bool {
    exists|at: int| #[trigger] stands_at(text, piece, at)
}

/// Whether a piece of text stands in another as a whole line, at a position.
pub open spec fn stands_at(text: Seq<char>, piece: Seq<char>, at: int) -> bool {
    &&& 0 <= at
    &&& at + piece.len() <= text.len()
    &&& text.subrange(at, at + piece.len()) == piece
    &&& at == 0 || text[at - 1] == '\n'
    &&& at + piece.len() == text.len() || text[at + piece.len()] == '\n'
}

/// Whether a text shows a line, up to a carriage return at its end.
pub open spec fn shows_line(text: Seq<char>, line: Seq<char>) -> bool {
    stands_as_line(text, line) || stands_as_line(text, without_return(line))
}

/// A line stays a line where a text is put between lines of another.
pub proof fn lines_stay_lines(before: Seq<char>, text: Seq<char>, after: Seq<char>, piece: Seq<char>)
    requires
        stands_as_line(text, piece),
        before.len() == 0 || before.last() == '\n',
        after.len() == 0 || after[0] == '\n',
    ensures
        stands_as_line(before + text + after, piece),
{
    let at = choose|at: int| #[trigger] stands_at(text, piece, at);
    let whole = before + text + after;
    let place = before.len() + at;
    assert(whole.subrange(place, place + piece.len()) =~= text.subrange(at, at + piece.len()));
    assert(stands_at(whole, piece, place));
}

/// The parts of a text that is joined by line feeds stand in it as lines.
pub proof fn joined_parts_are_lines(parts: Seq<Seq<char>>, k: int)
    requires
        0 <= k < parts.len(),
    ensures
        stands_as_line(join(parts, seq!['\n']), parts[k]),
    decreases parts.len(),
{
    let whole = join(parts, seq!['\n']);
    let last = parts.last();
    if parts.len() == 1 {
        assert(whole.subrange(0, whole.len() as int) =~= whole);
        assert(stands_at(whole, parts[0], 0));
    } else {
        let front = join(parts.drop_last(), seq!['\n']);
        if k < parts.len() - 1 {
            joined_parts_are_lines(parts.drop_last(), k);
            let none: Seq<char> = seq![];
            let rest = seq!['\n'] + last;
            lines_stay_lines(none, front, rest, parts[k]);
            assert(none + front + rest =~= whole);
        } else {
            let at = front.len() as int + 1;
            assert(whole.subrange(at, at + last.len()) =~= last);
            assert(stands_at(whole, last, at));
        }
    }
}

proof fn lemma_index_shift(s: Seq<char>, c: char, from: int, i: int)
    requires
        0 <= from <= s.len(),
        0 <= i <= s.len() - from,
    ensures
        index_from(s, c, from + i) == from + index_from(s.skip(from), c, i),
    decreases s.len() - from - i,
{
    if from + i < s.len() && s[from + i] != c {
        lemma_index_shift(s, c, from, i + 1);
    }
}

/// The lines of a text from a position on are those of what stands there.
pub proof fn lines_behind_a_position(s: Seq<char>, from: int, i: int)
    requires
        0 <= from <= s.len(),
        0 <= i <= s.len() - from,
    ensures
        lines_from(s, from + i) == lines_from(s.skip(from), i),
    decreases s.len() - from - i,
{
    let rest = s.skip(from);
    lemma_index_shift(s, '\n', from, i);
    let at = index_from(rest, '\n', i);
    lemma_index_bounds(rest, '\n', i);
    if i < rest.len() {
        if at >= rest.len() {
            assert(s.subrange(from + i, s.len() as int) =~= rest.subrange(i, rest.len() as int));
        } else {
            assert(s.subrange(from + i, from + at) =~= rest.subrange(i, at));
            lines_behind_a_position(s, from, at + 1);
        }
    }
}

proof fn lemma_index_bounds(s: Seq<char>, c: char, from: int)
    requires
        0 <= from <= s.len(),
    ensures
        from <= index_from(s, c, from) <= s.len(),
        index_from(s, c, from) < s.len() ==> s[index_from(s, c, from)] == c,
        forall|k: int| from <= k < index_from(s, c, from) ==> s[k] != c,
    decreases s.len() - from,
{
    if from < s.len() && s[from] != c {
        lemma_index_bounds(s, c, from + 1);
    }
}

proof fn lemma_index_at(s: Seq<char>, c: char, from: int, at: int)
    requires
        0 <= from <= at <= s.len(),
        at < s.len() ==> s[at] == c,
        forall|k: int| from <= k < at ==> s[k] != c,
    ensures
        index_from(s, c, from) == at,
    decreases at - from,
{
    if from < at {
        lemma_index_at(s, c, from + 1, at);
    }
}

/// A text whose first line is known has that line and those of the rest.
pub proof fn first_line_and_the_rest(line: Seq<char>, rest: Seq<char>)
    requires
        !line.contains('\n'),
    ensures
        lines(line + seq!['\n'] + rest) == seq![without_return(line)] + lines(rest),
{
    let s = line + seq!['\n'] + rest;
    let at = line.len() as int;
    assert forall|k: int| 0 <= k < at implies s[k] != '\n' by {
        assert(s[k] == line[k]);
        assert(line.contains(line[k]));
    }
    lemma_index_at(s, '\n', 0, at);
    assert(s.subrange(0, at) =~= line);
    assert(s.skip(at + 1) =~= rest);
    lines_behind_a_position(s, at + 1, 0);
}

/// A text that holds no line feed is one line.
pub proof fn one_line_text(s: Seq<char>)
    requires
        s.len() > 0,
        !s.contains('\n'),
    ensures
        lines(s) == seq![s],
{
    assert forall|k: int| 0 <= k < s.len() implies s[k] != '\n' by {
        assert(s.contains(s[k]));
    }
    lemma_index_at(s, '\n', 0, s.len() as int);
    assert(s.subrange(0, s.len() as int) =~= s);
}

proof fn lemma_join_front(parts: Seq<Seq<char>>, sep: Seq<char>)
    requires
        parts.len() >= 2,
    ensures
        join(parts, sep) == parts[0] + sep + join(parts.drop_first(), sep),
    decreases parts.len(),
{
    let rest = parts.drop_first();
    if parts.len() == 2 {
        assert(parts.drop_last().len() == 1);
        assert(join(parts.drop_last(), sep) == parts[0]);
        assert(join(rest, sep) == parts[1]);
    } else {
        let front = parts.drop_last();
        lemma_join_front(front, sep);
        assert(front.drop_first() =~= rest.drop_last());
        assert(join(parts, sep) =~= parts[0] + sep + join(rest, sep));
    }
}

/// The lines of a text that is joined from lines are these lines, each up to a carriage return
/// at its end; of empty lines the last one may be missing.
pub proof fn lines_of_joined_lines(parts: Seq<Seq<char>>)
    requires
        forall|k: int| 0 <= k < parts.len() ==> !(#[trigger] parts[k]).contains('\n'),
    ensures
        ({
            let all = lines(join(parts, seq!['\n']));
            &&& all.len() <= parts.len() <= all.len() + 1
            &&& all.len() < parts.len() ==> parts.last().len() == 0
            &&& forall|k: int|
                0 <= k < all.len() ==> #[trigger] all[k] == parts[k] || all[k] == without_return(
                    parts[k],
                )
        }),
    decreases parts.len(),
{
    let s = join(parts, seq!['\n']);
    if parts.len() == 0 {
    } else if parts.len() == 1 {
        if s.len() > 0 {
            one_line_text(s);
        }
    } else {
        let rest = parts.drop_first();
        lemma_join_front(parts, seq!['\n']);
        first_line_and_the_rest(parts[0], join(rest, seq!['\n']));
        assert forall|k: int| 0 <= k < rest.len() implies !(#[trigger] rest[k]).contains('\n') by {
            assert(rest[k] == parts[k + 1]);
        }
        lines_of_joined_lines(rest);
        let all = lines(s);
        let others = lines(join(rest, seq!['\n']));
        assert(rest.last() == parts.last());
        assert forall|k: int| 0 <= k < all.len() implies #[trigger] all[k] == parts[k] || all[k]
            == without_return(parts[k]) by {
            if k > 0 {
                assert(all[k] == others[k - 1]);
                assert(rest[k - 1] == parts[k]);
            }
        }
    }
}

/// No line of a text holds a line feed.
pub proof fn lines_hold_no_line_feed(s: Seq<char>, from: int)
    requires
        0 <= from,
    ensures
        forall|k: int|
            0 <= k < lines_from(s, from).len() ==> !(#[trigger] lines_from(s, from)[k]).contains(
                '\n',
            ),
    decreases s.len() - from,
{
    if from < s.len() {
        let at = index_from(s, '\n', from);
        lemma_index_bounds(s, '\n', from);
        let all = lines_from(s, from);
        if at < s.len() {
            lines_hold_no_line_feed(s, at + 1);
        }
        assert forall|k: int| 0 <= k < all.len() implies !(#[trigger] all[k]).contains('\n') by {
            if k == 0 {
                if all[0].contains('\n') {
                    let i = all[0].index_of('\n');
                    assert(s[from + i] == '\n');
                }
            } else {
                assert(all[k] == lines_from(s, at + 1)[k - 1]);
            }
        }
    }
}

/// A line that is not blank holds more than a carriage return.
pub proof fn shown_lines_hold_something(line: Seq<char>)
    requires
        !is_blank(line),
    ensures
        without_return(line).len() > 0,
{
    if without_return(line).len() == 0 {
        assert(trim_start(line).len() == 0) by {
            reveal_with_fuel(trim_start, 2);
            if line.len() > 0 {
                assert(is_space('\r'));
                assert(line.drop_first().len() == 0);
            }
        }
        assert(trim(line).len() == 0);
    }
}

} // verus!

//! Which lines of a source file belong to an annotation, or around a line.

use vstd::prelude::*;

use crate::paths::{extension, extension_of};
use crate::span_laws::{attached_nodes_follow_their_annotation, ends_with_feed};
use crate::syntax::{
    parse, parse_outcome, parsed_from, spanning_nodes, syntax_nodes, tree_nodes, tree_span, Grammar,
    SyntaxNode, SyntaxNodeView,
};
use crate::text::{
    byte_len, byte_offset, chars_are, chars_of, contains, contains_text, decimal, decimal_text,
    ends_with, find, has_prefix, has_suffix, index_from, index_of, is_blank, is_letter_or_digit,
    is_space, leading_space, lines, lines_of, lower_ascii, same_text, slice_of, starts_with,
    to_ascii_lower, trim, trim_start, trimmed, width_of,
};
use crate::views::{outcome, Duplicate};

verus! {

broadcast use crate::views::lemma_chars_deep_view;

/// A range of lines, both ends included.
#[derive(Debug, Clone, Copy, PartialEq, Eq, Structural)]
pub struct Span {
    /// The first line.
    pub start_line: u32,
    /// The last line.
    pub end_line: u32,
}

impl DeepView for Span {
    type V = Span;

    open spec fn deep_view(&self) -> Span {
        *self
    }
}

impl Duplicate for Span {
    fn duplicate(&self) -> (r: Self) {
        *self
    }
}

/// How the construct that follows an annotation is found.
pub ghost enum EngineView {
    /// In the syntax tree of the file.
    Tree(Grammar),
    /// As a declaration that lasts until the next anchor.
    Declaration,
    /// By counting brackets.
    Brackets,
}

/// How the construct that follows an annotation is found in files with an extension.
pub open spec fn engine_for(ext: Option<Seq<char>>) -> EngineView {
    match grammar_for(ext) {
        Some(grammar) => EngineView::Tree(grammar),
        None => if ext == Some("lean"@) || ext == Some("tla"@) {
            EngineView::Declaration
        } else {
            EngineView::Brackets
        },
    }
}

/// The grammar of files with an extension.
pub open spec fn grammar_for(ext: Option<Seq<char>>) -> Option<Grammar> {
    if ext == Some("rs"@) {
        Some(Grammar::Rust)
    } else if ext == Some("js"@) || ext == Some("jsx"@) || ext == Some("mjs"@) || ext == Some(
        "cjs"@,
    ) {
        Some(Grammar::JavaScript)
    } else if ext == Some("py"@) {
        Some(Grammar::Python)
    } else if ext == Some("sh"@) || ext == Some("bash"@) || ext == Some("zsh"@) {
        Some(Grammar::Bash)
    } else {
        None
    }
}

/// The grammar of files with an extension.
fn grammar_of(ext: &str) -> (r: Option<Grammar>)
    ensures
        r == grammar_for(Some(ext@)),
{
    if same_text(ext, "rs") {
        Some(Grammar::Rust)
    } else if same_text(ext, "js") || same_text(ext, "jsx") || same_text(ext, "mjs") || same_text(
        ext,
        "cjs",
    ) {
        Some(Grammar::JavaScript)
    } else if same_text(ext, "py") {
        Some(Grammar::Python)
    } else if same_text(ext, "sh") || same_text(ext, "bash") || same_text(ext, "zsh") {
        Some(Grammar::Bash)
    } else {
        None
    }
}

/// Whether the construct that follows an annotation in a file can be told from its text
/// alone, so that an anchor there moves with the code.
pub fn supports_dynamic(path: &str) -> (r: bool)
    ensures
        r == !(engine_for(extension(path@)) is Brackets),
{
    match extension_of(path) {
        Some(ext) => {
            grammar_of(ext.as_str()).is_some() || same_text(ext.as_str(), "lean") || same_text(
                ext.as_str(),
                "tla",
            )
        },
        None => false,
    }
}

/// The position at which a line starts, the first line being 1.
pub open spec fn line_start(s: Seq<char>, line: int) -> Option<int>
    decreases line,
{
    if line <= 0 {
        None
    } else if line == 1 {
        Some(0)
    } else {
        match line_start(s, line - 1) {
            None => None,
            Some(at) => {
                let end = index_from(s, '\n', at);
                if end < s.len() {
                    Some(end + 1)
                } else {
                    None
                }
            },
        }
    }
}

/// The position after the end of a line.
pub open spec fn line_end(s: Seq<char>, line: int) -> Option<int> {
    match line_start(s, line) {
        None => None,
        Some(at) => {
            let end = index_from(s, '\n', at);
            if end < s.len() {
                Some(end + 1)
            } else {
                Some(s.len() as int)
            }
        },
    }
}

/// Where one line does not start, no later line does.
proof fn lemma_no_line_start(s: Seq<char>, line: int, later: int)
    requires
        1 <= line <= later,
        line_start(s, line) is None,
    ensures
        line_start(s, later) is None,
    decreases later - line,
{
    if line < later {
        lemma_no_line_start(s, line, later - 1);
    }
}

/// The position at which a line starts.
fn line_start_index(chars: &[char], line: usize) -> (r: Option<usize>)
    ensures
        match r {
            Some(at) => line_start(chars@, line as int) == Some(at as int) && at <= chars@.len(),
            None => line_start(chars@, line as int) is None,
        },
{
    if line == 0 {
        return None;
    }
    let mut at: usize = 0;
    let mut current: usize = 1;
    while current < line
        invariant
            1 <= current <= line,
            at <= chars@.len(),
            line_start(chars@, current as int) == Some(at as int),
        decreases line - current,
    {
        let end = index_of(chars, '\n', at);
        if end == chars.len() {
            proof {
                lemma_no_line_start(chars@, current + 1, line as int);
            }
            return None;
        }
        at = end + 1;
        current += 1;
    }
    Some(at)
}

/// The position after the end of a line.
fn line_end_index(chars: &[char], line: usize) -> (r: Option<usize>)
    ensures
        match r {
            Some(at) => line_end(chars@, line as int) == Some(at as int) && at <= chars@.len(),
            None => line_end(chars@, line as int) is None,
        },
{
    match line_start_index(chars, line) {
        None => None,
        Some(start) => {
            let end = index_of(chars, '\n', start);
            if end < chars.len() {
                Some(end + 1)
            } else {
                Some(chars.len())
            }
        },
    }
}

/// How many line feeds a text has.
pub open spec fn newlines(s: Seq<char>) -> nat
    decreases s.len(),
{
    if s.len() == 0 {
        0
    } else {
        newlines(s.drop_last()) + if s.last() == '\n' {
            1nat
        } else {
            0nat
        }
    }
}

/// The line in which a position lies.
pub open spec fn line_at(s: Seq<char>, at: int) -> int {
    newlines(s.take(at)) as int + 1
}

/// How many line feeds stand before a position.
fn newlines_before(chars: &[char], at: usize) -> (r: usize)
    requires
        at <= chars@.len(),
    ensures
        r == newlines(chars@.take(at as int)),
        r <= at,
{
    let mut count: usize = 0;
    let mut i: usize = 0;
    while i < at
        invariant
            i <= at <= chars@.len(),
            count <= i,
            count == newlines(chars@.take(i as int)),
        decreases at - i,
    {
        assert(chars@.take(i + 1).drop_last() =~= chars@.take(i as int));
        if chars[i] == '\n' {
            count += 1;
        }
        i += 1;
    }
    count
}

/// The message for a line number that does not fit.
pub open spec fn line_overflow() -> Seq<char> {
    "resolved source line exceeds u32"@
}

/// The message for a line that the source does not have.
pub open spec fn outside_message(line: int) -> Seq<char> {
    "annotation line "@ + decimal(line as nat) + " is outside the source"@
}

/// The span of two lines, where their numbers fit.
pub open spec fn span_of(start: int, end: int) -> Result<Span, Seq<char>> {
    if start <= u32::MAX && end <= u32::MAX {
        Ok(Span { start_line: start as u32, end_line: end as u32 })
    } else {
        Err(line_overflow())
    }
}

/// The span of two lines, where their numbers fit.
fn make_span(start: u128, end: u128) -> (r: Result<Span, String>)
    ensures
        outcome(r) == span_of(start as int, end as int),
{
    if start <= u32::MAX as u128 && end <= u32::MAX as u128 {
        Ok(Span { start_line: start as u32, end_line: end as u32 })
    } else {
        Err("resolved source line exceeds u32".to_owned())
    }
}

/// The error for a line that the source does not have.
fn outside_error(line: usize) -> (r: String)
    ensures
        r@ == outside_message(line as int),
{
    let mut message = "annotation line ".to_owned();
    message.push_str(decimal_text(line as u64).as_str());
    message.push_str(" is outside the source");
    message
}

/// Whether a trimmed line is nothing but a comment.
pub open spec fn is_comment(line: Seq<char>) -> bool {
    ||| starts_with(line, "//"@)
    ||| starts_with(line, "#"@)
    ||| starts_with(line, "--"@)
    ||| starts_with(line, "\\*"@)
    ||| starts_with(line, "/*"@)
    ||| starts_with(line, "(*"@)
}

/// Whether a trimmed line is nothing but a comment.
fn is_comment_only(line: &[char]) -> (r: bool)
    ensures
        r == is_comment(line@),
{
    has_prefix(line, "//") || has_prefix(line, "#") || has_prefix(line, "--") || has_prefix(
        line,
        "\\*",
    ) || has_prefix(line, "/*") || has_prefix(line, "(*")
}

/// Whether a line holds something besides comments.
pub open spec fn is_code(line: Seq<char>) -> bool {
    !is_blank(line) && !is_comment(trim(line))
}

/// The first line at or after position `i` that holds something besides comments.
pub open spec fn first_code(ls: Seq<Seq<char>>, i: int) -> Option<int>
    decreases ls.len() - i,
{
    if i < 0 || i >= ls.len() {
        None
    } else if is_code(ls[i]) {
        Some(i)
    } else {
        first_code(ls, i + 1)
    }
}

/// `first_code` finds a line that holds code, with none before it.
pub proof fn lemma_first_code(ls: Seq<Seq<char>>, i: int)
    requires
        0 <= i,
    ensures
        match first_code(ls, i) {
            Some(k) => i <= k < ls.len() && is_code(ls[k]) && forall|j: int|
                i <= j < k ==> !is_code(#[trigger] ls[j]),
            None => forall|j: int| i <= j < ls.len() ==> !is_code(#[trigger] ls[j]),
        },
    decreases ls.len() - i,
{
    if i < ls.len() && !is_code(ls[i]) {
        lemma_first_code(ls, i + 1);
    }
}

/// The first line at or after position `from` that holds something besides comments.
fn first_code_line(ls: &Vec<Vec<char>>, from: usize) -> (r: Option<usize>)
    ensures
        match r {
            Some(k) => first_code(ls.deep_view(), from as int) == Some(k as int) && from <= k
                && k < ls@.len(),
            None => first_code(ls.deep_view(), from as int) is None,
        },
{
    let mut i: usize = from;
    while i < ls.len()
        invariant
            from <= i,
            first_code(ls.deep_view(), from as int) == first_code(ls.deep_view(), i as int),
        decreases ls@.len() - i,
    {
        assert(ls.deep_view()[i as int] == ls@[i as int]@);
        let content = trimmed(&ls[i]);
        if content.len() != 0 && !is_comment_only(&content) {
            return Some(i);
        }
        i += 1;
    }
    None
}

/// How many bytes of white space a line starts with.
pub open spec fn indentation(line: Seq<char>) -> int {
    byte_len(line) - byte_len(trim_start(line))
}

/// How many bytes of white space a line starts with.
fn indentation_of(line: &[char]) -> (r: u128)
    ensures
        r == indentation(line@),
{
    let n = leading_space(line);
    let mut sum: u128 = 0;
    let mut i: usize = 0;
    assert(line@.take(0) =~= Seq::<char>::empty());
    while i < n
        invariant
            i <= n <= line@.len(),
            sum == byte_len(line@.take(i as int)),
            sum <= 4 * i,
        decreases n - i,
    {
        proof {
            crate::text::lemma_byte_len_take(line@, i as int);
        }
        sum += width_of(line[i]) as u128;
        i += 1;
    }
    proof {
        assert(line@ =~= line@.take(n as int) + trim_start(line@));
        crate::text::lemma_byte_len_add(line@.take(n as int), trim_start(line@));
    }
    sum
}

/// Whether a line is a comment that starts a new anchor, indented no more than `indent`.
pub open spec fn starts_anchor(line: Seq<char>, indent: int) -> bool {
    indentation(line) <= indent && is_comment(trim(line)) && contains(line, "@anchor"@)
}

/// The first line at or after position `i` that starts a new anchor, or the number of lines.
pub open spec fn next_anchor(ls: Seq<Seq<char>>, i: int, indent: int) -> int
    decreases ls.len() - i,
{
    if i < 0 || i >= ls.len() {
        ls.len() as int
    } else if starts_anchor(ls[i], indent) {
        i
    } else {
        next_anchor(ls, i + 1, indent)
    }
}

/// The last line before position `end` and not before `start` that is not blank, or `start`.
pub open spec fn last_filled(ls: Seq<Seq<char>>, start: int, end: int) -> int
    decreases end - start,
{
    if end <= start {
        start
    } else if !is_blank(ls[end - 1]) {
        end - 1
    } else {
        last_filled(ls, start, end - 1)
    }
}

/// The declaration that follows an annotation: from the next line with code to the last
/// line with anything on it before the next anchor.
pub open spec fn declaration_span(s: Seq<char>, marker_line: int) -> Result<Span, Seq<char>> {
    let ls = lines(s);
    if marker_line <= 0 || marker_line > ls.len() {
        Err(outside_message(marker_line))
    } else {
        match first_code(ls, marker_line) {
            None => Err("no declaration follows the annotation"@),
            Some(start) => {
                let end = next_anchor(ls, start + 1, indentation(ls[marker_line - 1]));
                span_of(start + 1, last_filled(ls, start, end) + 1)
            },
        }
    }
}

/// The declaration that follows an annotation.
fn resolve_declaration(text: &str, marker_line: usize) -> (r: Result<Span, String>)
    ensures
        outcome(r) == declaration_span(text@, marker_line as int),
{
    let chars = chars_of(text);
    let ls = lines_of(&chars);
    let ghost spec_lines = lines(text@);
    if marker_line == 0 || marker_line > ls.len() {
        return Err(outside_error(marker_line));
    }
    assert(spec_lines[marker_line - 1] == ls@[marker_line - 1]@);
    let indent = indentation_of(&ls[marker_line - 1]);
    let start = match first_code_line(&ls, marker_line) {
        None => {
            return Err("no declaration follows the annotation".to_owned());
        },
        Some(start) => start,
    };
    let marker: Vec<char> = chars_of("@anchor");
    let mut end: usize = start + 1;
    loop
        invariant
            start < end <= ls@.len(),
            ls.deep_view() == spec_lines,
            marker@ == "@anchor"@,
            next_anchor(spec_lines, start + 1, indent as int) == next_anchor(
                spec_lines,
                end as int,
                indent as int,
            ),
        ensures
            start < end <= ls@.len(),
            end == next_anchor(spec_lines, start + 1, indent as int),
        decreases ls@.len() - end,
    {
        if end == ls.len() {
            break;
        }
        assert(spec_lines[end as int] == ls@[end as int]@);
        let line = &ls[end];
        if indentation_of(line) <= indent {
            let content = trimmed(line);
            if is_comment_only(&content) && find(line, &marker, 0).is_some() {
                break;
            }
        }
        end += 1;
    }
    let ghost stop = end as int;
    while end > start
        invariant
            start <= end <= ls@.len(),
            ls.deep_view() == spec_lines,
            last_filled(spec_lines, start as int, stop) == last_filled(
                spec_lines,
                start as int,
                end as int,
            ),
        ensures
            end <= ls@.len(),
            last_filled(spec_lines, start as int, stop) == if end > start {
                end - 1
            } else {
                start as int
            },
        decreases end - start,
    {
        assert(spec_lines[end - 1] == ls@[end - 1]@);
        if trimmed(&ls[end - 1]).len() != 0 {
            break;
        }
        end -= 1;
    }
    let last: usize = if end > start {
        end - 1
    } else {
        start
    };
    make_span(start as u128 + 1, last as u128 + 1)
}

/// What is open at a position of a source text.
#[verifier::ext_equal]
pub ghost struct ScanState {
    /// The brackets that are open, the innermost last.
    pub stack: Seq<char>,
    /// The quote of the text that is open.
    pub quote: Option<char>,
    /// Whether the next character of that text is escaped.
    pub escaped: bool,
    /// Whether a comment is open that ends with the line.
    pub line_comment: bool,
    /// Whether a comment is open that ends at `*/`.
    pub block_comment: bool,
    /// Whether a brace was opened.
    pub saw_brace: bool,
}

/// Nothing is open.
pub open spec fn fresh_scan() -> ScanState {
    ScanState {
        stack: seq![],
        quote: None,
        escaped: false,
        line_comment: false,
        block_comment: false,
        saw_brace: false,
    }
}

/// Whether `c` opens a bracket.
pub open spec fn opens(c: char) -> bool {
    c == '(' || c == '[' || c == '{'
}

/// The bracket that `c` closes.
pub open spec fn opener(c: char) -> Option<char> {
    if c == ')' {
        Some('(')
    } else if c == ']' {
        Some('[')
    } else if c == '}' {
        Some('{')
    } else {
        None
    }
}

/// Whether a quoted text starts at `c`.
pub open spec fn is_quote(c: char) -> bool {
    c == '\'' || c == '"' || c == '`'
}

/// Whether a position is in a comment or in a quoted text.
pub open spec fn is_shielded(st: ScanState) -> bool {
    st.line_comment || st.block_comment || st.quote is Some
}

/// What is open after the character `c`, with `next` behind it, and how many characters
/// that took.
pub open spec fn scan_step(st: ScanState, c: char, next: Option<char>) -> (ScanState, int) {
    if st.line_comment {
        (ScanState { line_comment: c != '\n', ..st }, 1)
    } else if st.block_comment {
        if c == '*' && next == Some('/') {
            (ScanState { block_comment: false, ..st }, 2)
        } else {
            (st, 1)
        }
    } else if st.quote is Some {
        if st.escaped {
            (ScanState { escaped: false, ..st }, 1)
        } else if c == '\\' {
            (ScanState { escaped: true, ..st }, 1)
        } else if Some(c) == st.quote {
            (ScanState { quote: None, ..st }, 1)
        } else {
            (st, 1)
        }
    } else if c == '/' && next == Some('/') {
        (ScanState { line_comment: true, ..st }, 2)
    } else if c == '/' && next == Some('*') {
        (ScanState { block_comment: true, ..st }, 2)
    } else if is_quote(c) {
        (ScanState { quote: Some(c), ..st }, 1)
    } else if opens(c) {
        (ScanState { stack: st.stack.push(c), saw_brace: st.saw_brace || c == '{', ..st }, 1)
    } else if opener(c) is Some && st.stack.len() > 0 && Some(st.stack.last()) == opener(c) {
        (ScanState { stack: st.stack.drop_last(), ..st }, 1)
    } else {
        (st, 1)
    }
}

/// Whether a construct ends at `c`: with the brace that closes its outermost bracket, or
/// with a semicolon outside brackets.
pub open spec fn ends_construct(st: ScanState, c: char) -> bool {
    &&& !is_shielded(st)
    &&& ({
        ||| c == ';' && st.stack.len() == 0
        ||| c == '}' && st.saw_brace && st.stack.len() == 1 && st.stack[0] == '{'
    })
}

/// The position at which the construct ends that goes on at position `i`.
pub open spec fn construct_end(s: Seq<char>, i: int, st: ScanState) -> Option<int>
    decreases s.len() - i,
{
    if i < 0 || i >= s.len() {
        None
    } else if ends_construct(st, s[i]) {
        Some(i)
    } else {
        let next = if i + 1 < s.len() {
            Some(s[i + 1])
        } else {
            None
        };
        let (after, taken) = scan_step(st, s[i], next);
        construct_end(s, i + taken, after)
    }
}

/// The construct that follows an annotation, found by counting brackets from the next line
/// with code.
pub open spec fn structural_span(s: Seq<char>, marker_line: int) -> Result<Span, Seq<char>> {
    let ls = lines(s);
    if marker_line <= 0 || marker_line > ls.len() {
        Err(outside_message(marker_line))
    } else {
        match first_code(ls, marker_line) {
            None => Err("no source construct follows the annotation"@),
            Some(start) => match line_start(s, start + 1) {
                None => Err("failed to locate source construct"@),
                Some(at) => match construct_end(s, at, fresh_scan()) {
                    None => Err("could not find the end of the following source construct"@),
                    Some(end) => span_of(start + 1, line_at(s, end)),
                },
            },
        }
    }
}

/// The position at which the construct ends that starts at `start`.
fn find_construct_end(chars: &[char], start: usize) -> (r: Option<usize>)
    requires
        start <= chars@.len(),
    ensures
        match r {
            Some(at) => construct_end(chars@, start as int, fresh_scan()) == Some(at as int) && at
                < chars@.len(),
            None => construct_end(chars@, start as int, fresh_scan()) is None,
        },
{
    let mut stack: Vec<char> = Vec::new();
    let mut quote: Option<char> = None;
    let mut escaped = false;
    let mut line_comment = false;
    let mut block_comment = false;
    let mut saw_brace = false;
    let mut index: usize = start;
    assert(stack@ =~= fresh_scan().stack);
    while index < chars.len()
        invariant
            index <= chars@.len(),
            construct_end(chars@, start as int, fresh_scan()) == construct_end(
                chars@,
                index as int,
                (ScanState { stack: stack@, quote, escaped, line_comment, block_comment, saw_brace }),
            ),
        decreases chars@.len() - index,
    {
        let c = chars[index];
        let next: Option<char> = if index + 1 < chars.len() {
            Some(chars[index + 1])
        } else {
            None
        };
        if line_comment {
            line_comment = c != '\n';
            index += 1;
        } else if block_comment {
            if c == '*' && next == Some('/') {
                block_comment = false;
                index += 2;
            } else {
                index += 1;
            }
        } else if quote.is_some() {
            if escaped {
                escaped = false;
            } else if c == '\\' {
                escaped = true;
            } else if quote == Some(c) {
                quote = None;
            }
            index += 1;
        } else if c == '/' && next == Some('/') {
            line_comment = true;
            index += 2;
        } else if c == '/' && next == Some('*') {
            block_comment = true;
            index += 2;
        } else if c == '\'' || c == '"' || c == '`' {
            quote = Some(c);
            index += 1;
        } else if c == '(' || c == '[' || c == '{' {
            stack.push(c);
            saw_brace = saw_brace || c == '{';
            index += 1;
        } else if c == ')' || c == ']' || c == '}' {
            let expected: char = if c == ')' {
                '('
            } else if c == ']' {
                '['
            } else {
                '{'
            };
            if stack.len() > 0 && stack[stack.len() - 1] == expected {
                if c == '}' && saw_brace && stack.len() == 1 {
                    return Some(index);
                }
                let ghost before = stack@;
                let _ = stack.pop();
                assert(stack@ =~= before.drop_last());
            }
            index += 1;
        } else if c == ';' && stack.len() == 0 {
            return Some(index);
        } else {
            index += 1;
        }
    }
    None
}

/// The construct that follows an annotation, found by counting brackets.
fn resolve_structural(text: &str, marker_line: usize) -> (r: Result<Span, String>)
    ensures
        outcome(r) == structural_span(text@, marker_line as int),
{
    let chars = chars_of(text);
    let ls = lines_of(&chars);
    if marker_line == 0 || marker_line > ls.len() {
        return Err(outside_error(marker_line));
    }
    let start = match first_code_line(&ls, marker_line) {
        None => {
            return Err("no source construct follows the annotation".to_owned());
        },
        Some(start) => start,
    };
    match line_start_index(&chars, start + 1) {
        None => Err("failed to locate source construct".to_owned()),
        Some(at) => match find_construct_end(&chars, at) {
            None => Err("could not find the end of the following source construct".to_owned()),
            Some(end) => {
                let line = newlines_before(&chars, end);
                make_span(start as u128 + 1, line as u128 + 1)
            },
        },
    }
}

/// Whether a Rust annotation can attach to a node of this kind.
pub open spec fn is_rust_target(kind: Seq<char>) -> bool {
    ||| kind == "function_item"@
    ||| kind == "function_signature_item"@
    ||| kind == "closure_expression"@
    ||| kind == "macro_invocation"@
}

/// Whether a Rust annotation can attach to a node of this kind.
fn rust_node(kind: &str) -> (r: bool)
    ensures
        r == is_rust_target(kind@),
{
    same_text(kind, "function_item")
        || same_text(kind, "function_signature_item")
        || same_text(kind, "closure_expression")
        || same_text(kind, "macro_invocation")
}

/// Whether a JavaScript annotation can attach to a node of this kind.
pub open spec fn is_javascript_target(kind: Seq<char>) -> bool {
    ||| kind == "export_statement"@
    ||| kind == "function_declaration"@
    ||| kind == "generator_function_declaration"@
    ||| kind == "method_definition"@
    ||| kind == "variable_declaration"@
    ||| kind == "lexical_declaration"@
    ||| kind == "expression_statement"@
    ||| kind == "call_expression"@
    ||| kind == "arrow_function"@
    ||| kind == "function_expression"@
    ||| kind == "generator_function"@
}

/// Whether a JavaScript annotation can attach to a node of this kind.
fn javascript_node(kind: &str) -> (r: bool)
    ensures
        r == is_javascript_target(kind@),
{
    same_text(kind, "export_statement")
        || same_text(kind, "function_declaration")
        || same_text(kind, "generator_function_declaration")
        || same_text(kind, "method_definition")
        || same_text(kind, "variable_declaration")
        || same_text(kind, "lexical_declaration")
        || same_text(kind, "expression_statement")
        || same_text(kind, "call_expression")
        || same_text(kind, "arrow_function")
        || same_text(kind, "function_expression")
        || same_text(kind, "generator_function")
}

/// Whether a Python annotation can attach to a node of this kind.
pub open spec fn is_python_target(kind: Seq<char>) -> bool {
    ||| kind == "decorated_definition"@
    ||| kind == "function_definition"@
    ||| kind == "class_definition"@
    ||| kind == "expression_statement"@
    ||| kind == "assignment"@
}

/// Whether a Python annotation can attach to a node of this kind.
fn python_node(kind: &str) -> (r: bool)
    ensures
        r == is_python_target(kind@),
{
    same_text(kind, "decorated_definition")
        || same_text(kind, "function_definition")
        || same_text(kind, "class_definition")
        || same_text(kind, "expression_statement")
        || same_text(kind, "assignment")
}

/// Whether a Bash annotation can attach to a node of this kind.
pub open spec fn is_bash_target(kind: Seq<char>) -> bool {
    ||| kind == "function_definition"@
    ||| kind == "command"@
    ||| kind == "variable_assignment"@
    ||| kind == "if_statement"@
    ||| kind == "for_statement"@
    ||| kind == "while_statement"@
    ||| kind == "case_statement"@
}

/// Whether a Bash annotation can attach to a node of this kind.
fn bash_node(kind: &str) -> (r: bool)
    ensures
        r == is_bash_target(kind@),
{
    same_text(kind, "function_definition")
        || same_text(kind, "command")
        || same_text(kind, "variable_assignment")
        || same_text(kind, "if_statement")
        || same_text(kind, "for_statement")
        || same_text(kind, "while_statement")
        || same_text(kind, "case_statement")
}

/// Whether a Rust node of this kind is shown as a whole.
pub open spec fn is_rust_unit(kind: Seq<char>) -> bool {
    ||| kind == "function_item"@
    ||| kind == "struct_item"@
    ||| kind == "enum_item"@
    ||| kind == "union_item"@
    ||| kind == "type_item"@
    ||| kind == "const_item"@
    ||| kind == "static_item"@
    ||| kind == "trait_item"@
    ||| kind == "macro_definition"@
    ||| kind == "macro_invocation"@
    ||| kind == "mod_item"@
}

/// Whether a Rust node of this kind is shown as a whole.
fn rust_context_node(kind: &str) -> (r: bool)
    ensures
        r == is_rust_unit(kind@),
{
    same_text(kind, "function_item")
        || same_text(kind, "struct_item")
        || same_text(kind, "enum_item")
        || same_text(kind, "union_item")
        || same_text(kind, "type_item")
        || same_text(kind, "const_item")
        || same_text(kind, "static_item")
        || same_text(kind, "trait_item")
        || same_text(kind, "macro_definition")
        || same_text(kind, "macro_invocation")
        || same_text(kind, "mod_item")
}

/// Whether a JavaScript node of this kind is shown as a whole.
pub open spec fn is_javascript_unit(kind: Seq<char>) -> bool {
    ||| kind == "export_statement"@
    ||| kind == "function_declaration"@
    ||| kind == "generator_function_declaration"@
    ||| kind == "method_definition"@
    ||| kind == "variable_declaration"@
    ||| kind == "lexical_declaration"@
    ||| kind == "expression_statement"@
    ||| kind == "arrow_function"@
    ||| kind == "function_expression"@
    ||| kind == "generator_function"@
    ||| kind == "class_declaration"@
}

/// Whether a JavaScript node of this kind is shown as a whole.
fn javascript_context_node(kind: &str) -> (r: bool)
    ensures
        r == is_javascript_unit(kind@),
{
    same_text(kind, "export_statement")
        || same_text(kind, "function_declaration")
        || same_text(kind, "generator_function_declaration")
        || same_text(kind, "method_definition")
        || same_text(kind, "variable_declaration")
        || same_text(kind, "lexical_declaration")
        || same_text(kind, "expression_statement")
        || same_text(kind, "arrow_function")
        || same_text(kind, "function_expression")
        || same_text(kind, "generator_function")
        || same_text(kind, "class_declaration")
}

/// Whether a Python node of this kind is shown as a whole.
pub open spec fn is_python_unit(kind: Seq<char>) -> bool {
    ||| kind == "decorated_definition"@
    ||| kind == "function_definition"@
    ||| kind == "class_definition"@
    ||| kind == "expression_statement"@
    ||| kind == "assignment"@
}

/// Whether a Python node of this kind is shown as a whole.
fn python_context_node(kind: &str) -> (r: bool)
    ensures
        r == is_python_unit(kind@),
{
    same_text(kind, "decorated_definition")
        || same_text(kind, "function_definition")
        || same_text(kind, "class_definition")
        || same_text(kind, "expression_statement")
        || same_text(kind, "assignment")
}

/// Whether an annotation can attach to a node of this kind.
pub open spec fn is_target(grammar: Grammar, kind: Seq<char>) -> bool {
    match grammar {
        Grammar::Rust => is_rust_target(kind),
        Grammar::JavaScript => is_javascript_target(kind),
        Grammar::Python => is_python_target(kind),
        Grammar::Bash => is_bash_target(kind),
    }
}

/// Whether an annotation can attach to a node of this kind.
fn accepts_annotation(grammar: Grammar, kind: &str) -> (r: bool)
    ensures
        r == is_target(grammar, kind@),
{
    match grammar {
        Grammar::Rust => rust_node(kind),
        Grammar::JavaScript => javascript_node(kind),
        Grammar::Python => python_node(kind),
        Grammar::Bash => bash_node(kind),
    }
}

/// Whether a node of this kind is shown as a whole.
pub open spec fn is_unit(grammar: Grammar, kind: Seq<char>) -> bool {
    match grammar {
        Grammar::Rust => is_rust_unit(kind),
        Grammar::JavaScript => is_javascript_unit(kind),
        Grammar::Python => is_python_unit(kind),
        Grammar::Bash => is_bash_target(kind),
    }
}

/// Whether a node of this kind is shown as a whole.
fn is_context_node(grammar: Grammar, kind: &str) -> (r: bool)
    ensures
        r == is_unit(grammar, kind@),
{
    match grammar {
        Grammar::Rust => rust_context_node(kind),
        Grammar::JavaScript => javascript_context_node(kind),
        Grammar::Python => python_context_node(kind),
        Grammar::Bash => bash_node(kind),
    }
}

/// The last line of a node.
pub open spec fn node_end(node: SyntaxNodeView) -> int {
    if node.end_column == 0 {
        if node.end_row >= 1 {
            node.end_row as int
        } else {
            1
        }
    } else {
        node.end_row + 1
    }
}

/// The last line of a node.
fn node_end_line(node: &SyntaxNode) -> (r: u128)
    ensures
        r == node_end(node@),
{
    if node.end_column == 0 {
        if node.end_row >= 1 {
            node.end_row as u128
        } else {
            1
        }
    } else {
        node.end_row as u128 + 1
    }
}

/// For the node before position `n` and each node above it, from the root down: whether the
/// search for nodes that end at or behind `from` gets there. It starts at the root and goes
/// on to named children that end at or behind `from`.
pub open spec fn search_path(nodes: Seq<(usize, SyntaxNodeView)>, n: int, from: int) -> Seq<bool>
    decreases n,
{
    if n <= 0 {
        seq![]
    } else {
        let above = search_path(nodes, n - 1, from);
        let depth = nodes[n - 1].0 as int;
        let node = nodes[n - 1].1;
        let parents = if depth <= above.len() {
            above.take(depth)
        } else {
            above
        };
        parents.push(
            depth == 0 || (depth <= above.len() && above[depth - 1] && node.named && node.end_byte
                >= from),
        )
    }
}

/// Moves the search path on to the next node.
fn advance_path(
    path: &mut Vec<bool>,
    depth: usize,
    node: &SyntaxNode,
    from: usize,
    Ghost(nodes): Ghost<Seq<(usize, SyntaxNodeView)>>,
    Ghost(n): Ghost<int>,
) -> (r: bool)
    requires
        0 <= n < nodes.len(),
        nodes[n] == (depth, node@),
        old(path)@ == search_path(nodes, n, from as int),
    ensures
        final(path)@ == search_path(nodes, n + 1, from as int),
        r == final(path)@.last(),
{
    let reached = depth == 0 || (depth <= path.len() && path[depth - 1] && node.named
        && node.end_byte >= from);
    let ghost above = path@;
    if depth <= path.len() {
        path.truncate(depth);
        assert(path@ =~= above.take(depth as int));
    }
    path.push(reached);
    reached
}

/// Whether the node at position `i` is one that an annotation ending at byte `from` can
/// attach to.
pub open spec fn is_candidate(
    grammar: Grammar,
    nodes: Seq<(usize, SyntaxNodeView)>,
    i: int,
    from: int,
) -> bool {
    &&& search_path(nodes, i + 1, from).last()
    &&& nodes[i].1.start_byte >= from
    &&& is_target(grammar, nodes[i].1.kind)
}

/// Whether a node is nearer than another: it starts before it, or with it and ends later.
pub open spec fn is_nearer(a: SyntaxNodeView, b: SyntaxNodeView) -> bool {
    a.start_byte < b.start_byte || (a.start_byte == b.start_byte && a.end_byte > b.end_byte)
}

/// The nearest of the first `n` nodes that an annotation ending at byte `from` can attach to.
pub open spec fn nearest(
    grammar: Grammar,
    nodes: Seq<(usize, SyntaxNodeView)>,
    n: int,
    from: int,
) -> Option<int>
    decreases n,
{
    if n <= 0 {
        None
    } else {
        let before = nearest(grammar, nodes, n - 1, from);
        if is_candidate(grammar, nodes, n - 1, from) && (before is None || is_nearer(
            nodes[n - 1].1,
            nodes[before->0].1,
        )) {
            Some(n - 1)
        } else {
            before
        }
    }
}

/// The nearest node that an annotation ending at byte `from` can attach to.
fn nearest_node(grammar: Grammar, nodes: &Vec<(usize, SyntaxNode)>, from: usize) -> (r: Option<
    usize,
>)
    ensures
        match r {
            Some(i) => i < nodes@.len() && nearest(
                grammar,
                nodes.deep_view(),
                nodes@.len() as int,
                from as int,
            ) == Some(i as int),
            None => nearest(
                grammar,
                nodes.deep_view(),
                nodes@.len() as int,
                from as int,
            ) is None,
        },
{
    let mut best: Option<usize> = None;
    let mut path: Vec<bool> = Vec::new();
    let mut i: usize = 0;
    let ghost all = nodes.deep_view();
    while i < nodes.len()
        invariant
            i <= nodes@.len(),
            all == nodes.deep_view(),
            path@ == search_path(all, i as int, from as int),
            match best {
                Some(b) => b < i && nearest(grammar, all, i as int, from as int) == Some(b as int),
                None => nearest(grammar, all, i as int, from as int) is None,
            },
        decreases nodes@.len() - i,
    {
        let depth = nodes[i].0;
        let node = &nodes[i].1;
        assert(all[i as int] == (depth, node@));
        let reached = advance_path(&mut path, depth, node, from, Ghost(all), Ghost(i as int));
        if reached && node.start_byte >= from && accepts_annotation(grammar, node.kind.as_str()) {
            best = match best {
                None => Some(i),
                Some(b) => {
                    assert(all[b as int].1 == nodes@[b as int].1@);
                    let other = &nodes[b].1;
                    if node.start_byte < other.start_byte || (node.start_byte == other.start_byte
                        && node.end_byte > other.end_byte) {
                        Some(i)
                    } else {
                        Some(b)
                    }
                },
            };
        }
        i += 1;
    }
    best
}

/// `n` less one, but not below 0.
pub open spec fn one_less(n: int) -> int {
    if n > 0 {
        n - 1
    } else {
        0
    }
}

/// The byte at which the character at a position starts.
pub open spec fn byte_at(s: Seq<char>, at: int) -> usize {
    byte_len(s.take(at)) as usize
}

/// The node that an annotation attaches to, given the nodes of the syntax tree and the node
/// that spans the line of the annotation, with its ancestors.
pub open spec fn tree_span_in(
    grammar: Grammar,
    s: Seq<char>,
    marker_line: int,
    nodes: Seq<(usize, SyntaxNodeView)>,
    spanning: Seq<SyntaxNodeView>,
) -> Result<Span, Seq<char>> {
    match line_end(s, marker_line) {
        None => Err(outside_message(marker_line)),
        Some(end) => if spanning.len() > 0 && (contains(spanning[0].kind, "string"@) || contains(
            spanning[0].kind,
            "template"@,
        )) {
            Err("annotation is embedded in a string literal"@)
        } else {
            match nearest(grammar, nodes, nodes.len() as int, byte_at(s, end) as int) {
                None => Err("no attachable syntax node follows the annotation"@),
                Some(i) => {
                    let node = nodes[i].1;
                    let start = node.start_row + 1;
                    if start - marker_line > 32 {
                        Err(
                            "nearest syntax node starts "@ + decimal((start - marker_line) as nat)
                                + " lines after the annotation"@,
                        )
                    } else {
                        span_of(start, node_end(node))
                    }
                },
            }
        },
    }
}

/// The node that spans a line in the syntax tree of a text, with its ancestors.
pub open spec fn line_nodes(grammar: Grammar, s: Seq<char>, line: int) -> Seq<SyntaxNodeView> {
    match (line_start(s, line), line_end(s, line)) {
        (Some(start), Some(end)) => spanning_nodes(
            grammar,
            s,
            byte_at(s, start),
            one_less(byte_at(s, end) as int) as usize,
        ),
        _ => seq![],
    }
}

/// The node that an annotation attaches to in the syntax tree of a text.
pub open spec fn tree_resolution(grammar: Grammar, s: Seq<char>, marker_line: int) -> Result<
    Span,
    Seq<char>,
> {
    tree_span_in(
        grammar,
        s,
        marker_line,
        syntax_nodes(grammar, s),
        line_nodes(grammar, s, marker_line),
    )
}

/// The node that an annotation attaches to, given the nodes of the syntax tree and the node
/// that spans the line of the annotation, with its ancestors.
pub fn resolve_in_nodes(
    grammar: Grammar,
    text: &str,
    marker_line: usize,
    nodes: &Vec<(usize, SyntaxNode)>,
    spanning: &Vec<SyntaxNode>,
) -> (r: Result<Span, String>)
    ensures
        outcome(r) == tree_span_in(
            grammar,
            text@,
            marker_line as int,
            nodes.deep_view(),
            spanning.deep_view(),
        ),
{
    let chars = chars_of(text);
    let end = match line_end_index(&chars, marker_line) {
        None => {
            return Err(outside_error(marker_line));
        },
        Some(end) => end,
    };
    if spanning.len() > 0 {
        assert(spanning.deep_view()[0] == spanning@[0]@);
        let kind = spanning[0].kind.as_str();
        if contains_text(kind, "string") || contains_text(kind, "template") {
            return Err("annotation is embedded in a string literal".to_owned());
        }
    }
    let marker_end = byte_offset(text, &chars, end);
    match nearest_node(grammar, nodes, marker_end) {
        None => Err("no attachable syntax node follows the annotation".to_owned()),
        Some(i) => {
            let node = &nodes[i].1;
            assert(nodes.deep_view()[i as int].1 == node@);
            let start: u128 = node.start_row as u128 + 1;
            if start > marker_line as u128 && start - marker_line as u128 > 32 {
                let mut message = "nearest syntax node starts ".to_owned();
                let distance: u64 = (start - marker_line as u128) as u64;
                message.push_str(decimal_text(distance).as_str());
                message.push_str(" lines after the annotation");
                return Err(message);
            }
            make_span(start, node_end_line(node))
        },
    }
}

/// Whether the line of an annotation is told apart from what it attaches to. In a syntax tree
/// it is where the line ends with a line feed and the text is not too long.
pub open spec fn is_told_apart(engine: EngineView, s: Seq<char>, marker_line: int) -> bool {
    engine is Tree ==> ends_with_feed(s, marker_line) && byte_len(s) <= u32::MAX
}

/// The node that an annotation attaches to in a syntax tree.
fn resolve_tree(text: &str, marker_line: usize, tree: &tree_sitter::Tree, grammar: Grammar) -> (r:
    Result<Span, String>)
    requires
        parsed_from(*tree) == (grammar, text@),
    ensures
        outcome(r) == tree_resolution(grammar, text@, marker_line as int),
        is_told_apart(EngineView::Tree(grammar), text@, marker_line as int) ==> (r matches Ok(span)
            ==> marker_line < span.start_line),
{
    let chars = chars_of(text);
    let nodes = tree_nodes(tree);
    let spanning: Vec<SyntaxNode> = match (
        line_start_index(&chars, marker_line),
        line_end_index(&chars, marker_line),
    ) {
        (Some(start), Some(end)) => {
            let first = byte_offset(text, &chars, start);
            let last = byte_offset(text, &chars, end);
            tree_span(
                tree,
                first,
                if last > 0 {
                    last - 1
                } else {
                    0
                },
            )
        },
        _ => {
            let none: Vec<SyntaxNode> = Vec::new();
            assert(none.deep_view() =~= seq![]);
            none
        },
    };
    proof {
        if is_told_apart(EngineView::Tree(grammar), text@, marker_line as int) {
            attached_nodes_follow_their_annotation(
                grammar,
                text@,
                marker_line as int,
                nodes.deep_view(),
                spanning.deep_view(),
            );
        }
    }
    resolve_in_nodes(grammar, text, marker_line, &nodes, &spanning)
}

/// Whether a Rust node of this kind is an item without being shown as a whole.
pub open spec fn is_rust_extra_item(kind: Seq<char>) -> bool {
    ||| kind == "impl_item"@
    ||| kind == "use_declaration"@
    ||| kind == "extern_crate_declaration"@
}

/// Whether a Rust node of this kind is an item without being shown as a whole.
fn rust_extra_item(kind: &str) -> (r: bool)
    ensures
        r == is_rust_extra_item(kind@),
{
    same_text(kind, "impl_item")
        || same_text(kind, "use_declaration")
        || same_text(kind, "extern_crate_declaration")
}

/// Whether a Rust node of this kind is a comment.
pub open spec fn is_rust_comment(kind: Seq<char>) -> bool {
    ||| kind == "line_comment"@
    ||| kind == "block_comment"@
}

/// Whether a Rust node of this kind is a comment.
fn is_tree_comment(kind: &str) -> (r: bool)
    ensures
        r == is_rust_comment(kind@),
{
    same_text(kind, "line_comment")
        || same_text(kind, "block_comment")
}

/// Whether a Rust node of this kind can carry a test attribute.
pub open spec fn is_rust_item(kind: Seq<char>) -> bool {
    is_rust_unit(kind) || is_rust_extra_item(kind)
}

/// The first named node at or after position `k` at the given depth, before the tree rises
/// above that depth.
pub open spec fn next_named(nodes: Seq<(usize, SyntaxNodeView)>, depth: usize, k: int) -> Option<int>
    decreases nodes.len() - k,
{
    if k < 0 || k >= nodes.len() || nodes[k].0 < depth {
        None
    } else if nodes[k].0 == depth && nodes[k].1.named {
        Some(k)
    } else {
        next_named(nodes, depth, k + 1)
    }
}

/// The last named node at or before position `k` at the given depth, before the tree rises
/// above that depth.
pub open spec fn previous_named(
    nodes: Seq<(usize, SyntaxNodeView)>,
    depth: usize,
    k: int,
) -> Option<int>
    decreases k + 1,
{
    if k < 0 || k >= nodes.len() || nodes[k].0 < depth {
        None
    } else if nodes[k].0 == depth && nodes[k].1.named {
        Some(k)
    } else {
        previous_named(nodes, depth, k - 1)
    }
}

/// The item that attributes before position `k` are for: the next named node at the given
/// depth that is neither an attribute nor a comment, where it is an item.
pub open spec fn attributed_item(
    nodes: Seq<(usize, SyntaxNodeView)>,
    depth: usize,
    k: int,
) -> Option<int>
    decreases nodes.len() - k,
{
    match next_named(nodes, depth, k) {
        None => None,
        Some(j) => {
            let kind = nodes[j].1.kind;
            if j < k || j >= nodes.len() {
                None
            } else if kind == "attribute_item"@ || is_rust_comment(kind) {
                attributed_item(nodes, depth, j + 1)
            } else if is_rust_item(kind) {
                Some(j)
            } else {
                None
            }
        },
    }
}

/// The first of the attributes that stand together with the one at position `i`.
pub open spec fn first_attribute(
    nodes: Seq<(usize, SyntaxNodeView)>,
    depth: usize,
    i: int,
) -> int
    decreases i,
{
    match previous_named(nodes, depth, i - 1) {
        None => i,
        Some(j) => if 0 <= j < i && nodes[j].1.kind == "attribute_item"@ {
            first_attribute(nodes, depth, j)
        } else {
            i
        },
    }
}

/// The first named node at or after position `k` at the given depth.
fn find_next_named(nodes: &Vec<(usize, SyntaxNode)>, depth: usize, k: usize) -> (r: Option<usize>)
    ensures
        match r {
            Some(j) => next_named(nodes.deep_view(), depth, k as int) == Some(j as int) && k <= j
                && j < nodes@.len(),
            None => next_named(nodes.deep_view(), depth, k as int) is None,
        },
{
    let mut i: usize = k;
    let ghost all = nodes.deep_view();
    while i < nodes.len()
        invariant
            k <= i,
            all == nodes.deep_view(),
            next_named(all, depth, k as int) == next_named(all, depth, i as int),
        decreases nodes@.len() - i,
    {
        assert(all[i as int] == (nodes@[i as int].0, nodes@[i as int].1@));
        if nodes[i].0 < depth {
            return None;
        }
        if nodes[i].0 == depth && nodes[i].1.named {
            return Some(i);
        }
        i += 1;
    }
    None
}

/// The last named node before position `k` at the given depth.
fn find_previous_named(nodes: &Vec<(usize, SyntaxNode)>, depth: usize, k: usize) -> (r: Option<
    usize,
>)
    requires
        k <= nodes@.len(),
    ensures
        match r {
            Some(j) => previous_named(nodes.deep_view(), depth, k - 1) == Some(j as int) && j < k,
            None => previous_named(nodes.deep_view(), depth, k - 1) is None,
        },
{
    let mut i: usize = k;
    let ghost all = nodes.deep_view();
    while i > 0
        invariant
            i <= k <= nodes@.len(),
            all == nodes.deep_view(),
            previous_named(all, depth, k - 1) == previous_named(all, depth, i - 1),
        decreases i,
    {
        assert(all[i - 1] == (nodes@[i - 1].0, nodes@[i - 1].1@));
        if nodes[i - 1].0 < depth {
            return None;
        }
        if nodes[i - 1].0 == depth && nodes[i - 1].1.named {
            return Some(i - 1);
        }
        i -= 1;
    }
    None
}

/// The item that attributes before position `k` are for.
fn next_rust_item(nodes: &Vec<(usize, SyntaxNode)>, depth: usize, k: usize) -> (r: Option<usize>)
    ensures
        match r {
            Some(j) => attributed_item(nodes.deep_view(), depth, k as int) == Some(j as int) && j
                < nodes@.len(),
            None => attributed_item(nodes.deep_view(), depth, k as int) is None,
        },
{
    let mut i: usize = k;
    let count: usize = nodes.len();
    let ghost all = nodes.deep_view();
    loop
        invariant
            k <= i,
            count == nodes@.len(),
            k <= nodes@.len() ==> i <= nodes@.len(),
            all == nodes.deep_view(),
            attributed_item(all, depth, k as int) == attributed_item(all, depth, i as int),
        decreases nodes@.len() - i,
    {
        match find_next_named(nodes, depth, i) {
            None => {
                return None;
            },
            Some(j) => {
                assert(all[j as int].1 == nodes@[j as int].1@);
                let kind = nodes[j].1.kind.as_str();
                if same_text(kind, "attribute_item") || is_tree_comment(kind) {
                    i = j + 1;
                } else if rust_context_node(kind) || rust_extra_item(kind) {
                    return Some(j);
                } else {
                    return None;
                }
            },
        }
    }
}

/// The first of the attributes that stand together with the one at position `i`.
fn attribute_block_start(nodes: &Vec<(usize, SyntaxNode)>, depth: usize, i: usize) -> (r: usize)
    requires
        i < nodes@.len(),
    ensures
        r == first_attribute(nodes.deep_view(), depth, i as int),
        r <= i,
{
    let mut at: usize = i;
    let ghost all = nodes.deep_view();
    loop
        invariant
            at <= i < nodes@.len(),
            all == nodes.deep_view(),
            first_attribute(all, depth, i as int) == first_attribute(all, depth, at as int),
        decreases at,
    {
        match find_previous_named(nodes, depth, at) {
            None => {
                return at;
            },
            Some(j) => {
                assert(all[j as int].1 == nodes@[j as int].1@);
                if same_text(nodes[j].1.kind.as_str(), "attribute_item") {
                    at = j;
                } else {
                    return at;
                }
            },
        }
    }
}

/// The characters that are not white space.
pub open spec fn compact(s: Seq<char>) -> Seq<char>
    decreases s.len(),
{
    if s.len() == 0 {
        s
    } else if is_space(s.last()) {
        compact(s.drop_last())
    } else {
        compact(s.drop_last()).push(s.last())
    }
}

/// The characters that are not white space.
fn compacted(s: &[char]) -> (r: Vec<char>)
    ensures
        r@ == compact(s@),
{
    let mut out: Vec<char> = Vec::new();
    let mut i: usize = 0;
    while i < s.len()
        invariant
            i <= s@.len(),
            out@ == compact(s@.take(i as int)),
        decreases s@.len() - i,
    {
        assert(s@.take(i + 1).drop_last() =~= s@.take(i as int));
        if !s[i].is_whitespace() {
            out.push(s[i]);
        }
        i += 1;
    }
    assert(s@.take(s@.len() as int) =~= s@);
    out
}

/// Whether `c` is part of a word: a letter, a digit or an underscore.
pub open spec fn is_word_char(c: char) -> bool {
    is_letter_or_digit(c) || c == '_'
}

/// Whether `c` is part of a word.
fn word_char(c: char) -> (r: bool)
    ensures
        r == is_word_char(c),
{
    c.is_alphanumeric() || c == '_'
}

/// The first position at or after `i` that is not part of a word, or the length.
pub open spec fn word_end(s: Seq<char>, i: int) -> int
    decreases s.len() - i,
{
    if i < 0 || i >= s.len() {
        s.len() as int
    } else if is_word_char(s[i]) {
        word_end(s, i + 1)
    } else {
        i
    }
}

/// The words of `s[i..]`, with ASCII letters in lower case.
pub open spec fn words(s: Seq<char>, i: int) -> Seq<Seq<char>>
    decreases s.len() - i,
{
    if i < 0 || i >= s.len() {
        seq![]
    } else if !is_word_char(s[i]) {
        words(s, i + 1)
    } else {
        let end = word_end(s, i);
        if end <= i || end > s.len() {
            seq![]
        } else {
            seq![to_ascii_lower(s.subrange(i, end))] + words(s, end)
        }
    }
}

/// What stands between `open` at the start of a text and `close` at the end of the rest.
pub open spec fn between(s: Seq<char>, open: Seq<char>, close: Seq<char>) -> Option<Seq<char>> {
    let rest = s.skip(open.len() as int);
    if starts_with(s, open) && ends_with(rest, close) {
        Some(rest.take(rest.len() - close.len()))
    } else {
        None
    }
}

/// What stands between `open` at the start of a text and `close` at the end of the rest.
fn strip(s: &[char], open: &str, close: &str) -> (r: Option<Vec<char>>)
    ensures
        match r {
            Some(inner) => between(s@, open@, close@) == Some(inner@),
            None => between(s@, open@, close@) is None,
        },
{
    let head = chars_of(open);
    let tail = chars_of(close);
    if !has_prefix(s, open) {
        return None;
    }
    let rest = slice_of(s, head.len(), s.len());
    assert(rest@ =~= s@.skip(open@.len() as int));
    if !has_suffix(&rest, close) {
        return None;
    }
    let inner = slice_of(&rest, 0, rest.len() - tail.len());
    assert(inner@ =~= rest@.take(rest@.len() - close@.len()));
    Some(inner)
}

/// Whether the innermost of some groups is negated; outside of groups nothing is.
pub open spec fn is_negated(groups: Seq<bool>) -> bool {
    groups.len() > 0 && groups.last()
}

/// Whether the condition `s[i..]` of a configuration asks for tests: it holds the word `test`
/// where that is not negated by `not(..)`. `groups` tells of each group that is open whether it
/// is negated, and `quoted` whether `i` is in a string, where parentheses are no groups.
pub open spec fn asks_for_test(s: Seq<char>, i: int, groups: Seq<bool>, quoted: bool) -> bool
    decreases s.len() - i,
{
    if i < 0 || i >= s.len() {
        false
    } else if is_word_char(s[i]) {
        let end = word_end(s, i);
        if end <= i || end > s.len() {
            false
        } else {
            let word = to_ascii_lower(s.subrange(i, end));
            if word == "test"@ && !is_negated(groups) {
                true
            } else if word == "not"@ && !quoted && end < s.len() && s[end] == '(' {
                asks_for_test(s, end + 1, groups.push(!is_negated(groups)), false)
            } else {
                asks_for_test(s, end, groups, quoted)
            }
        }
    } else if s[i] == '"' {
        asks_for_test(s, i + 1, groups, !quoted)
    } else if quoted {
        if s[i] == '\\' && i + 1 < s.len() && (s[i + 1] == '\\' || s[i + 1] == '"') {
            asks_for_test(s, i + 2, groups, true)
        } else {
            asks_for_test(s, i + 1, groups, true)
        }
    } else if s[i] == '(' {
        asks_for_test(s, i + 1, groups.push(is_negated(groups)), false)
    } else if s[i] == ')' && groups.len() > 0 {
        asks_for_test(s, i + 1, groups.drop_last(), false)
    } else {
        asks_for_test(s, i + 1, groups, false)
    }
}

/// Whether the innermost of some groups is negated.
fn last_is_negated(groups: &Vec<bool>) -> (r: bool)
    ensures
        r == is_negated(groups@),
{
    groups.len() > 0 && groups[groups.len() - 1]
}

/// Whether the condition of a configuration asks for tests.
fn condition_asks_for_test(s: &[char]) -> (r: bool)
    ensures
        r == asks_for_test(s@, 0, seq![], false),
{
    let len: usize = s.len();
    let mut groups: Vec<bool> = Vec::new();
    let mut quoted = false;
    let mut i: usize = 0;
    assert(groups@ =~= seq![]);
    while i < len
        invariant
            i <= len,
            len == s@.len(),
            asks_for_test(s@, 0, seq![], false) == asks_for_test(s@, i as int, groups@, quoted),
        decreases len - i,
    {
        if word_char(s[i]) {
            let mut end: usize = i + 1;
            while end < len && word_char(s[end])
                invariant
                    i < end <= len,
                    len == s@.len(),
                    word_end(s@, i as int) == word_end(s@, end as int),
                decreases len - end,
            {
                end += 1;
            }
            let word = lower_ascii(&slice_of(s, i, end));
            let negated = last_is_negated(&groups);
            if chars_are(&word, "test") && !negated {
                return true;
            }
            if chars_are(&word, "not") && !quoted && end < len && s[end] == '(' {
                groups.push(!negated);
                i = end + 1;
            } else {
                i = end;
            }
        } else if s[i] == '"' {
            quoted = !quoted;
            i += 1;
        } else if quoted {
            if s[i] == '\\' && len - i > 1 && (s[i + 1] == '\\' || s[i + 1] == '"') {
                i += 2;
            } else {
                i += 1;
            }
        } else {
            if s[i] == '(' {
                let negated = last_is_negated(&groups);
                groups.push(negated);
            } else if s[i] == ')' && groups.len() > 0 {
                let ghost before = groups@;
                groups.pop();
                assert(groups@ =~= before.drop_last());
            }
            i += 1;
        }
    }
    false
}

proof fn lemma_word_end(s: Seq<char>, i: int)
    requires
        0 <= i < s.len(),
        is_word_char(s[i]),
    ensures
        i < word_end(s, i) <= s.len(),
    decreases s.len() - i,
{
    reveal_with_fuel(word_end, 2);
    if i + 1 < s.len() && is_word_char(s[i + 1]) {
        lemma_word_end(s, i + 1);
    }
}

/// A condition that negates nothing asks for tests where the word `test` is in it.
pub proof fn plain_conditions_name_tests(s: Seq<char>, i: int, groups: Seq<bool>, quoted: bool)
    requires
        0 <= i,
        !words(s, i).contains("not"@),
        forall|k: int| 0 <= k < groups.len() ==> !(#[trigger] groups[k]),
    ensures
        asks_for_test(s, i, groups, quoted) == words(s, i).contains("test"@),
    decreases s.len() - i,
{
    if i < s.len() {
        if is_word_char(s[i]) {
            let end = word_end(s, i);
            lemma_word_end(s, i);
            let word = to_ascii_lower(s.subrange(i, end));
            let rest = words(s, end);
            assert(words(s, i) == seq![word] + rest);
            assert(words(s, i)[0] == word);
            assert forall|other: Seq<char>| #[trigger] rest.contains(other) implies words(
                s,
                i,
            ).contains(other) by {
                let k = rest.index_of(other);
                assert(words(s, i)[k + 1] == other);
            }
            plain_conditions_name_tests(s, end, groups, quoted);
            if words(s, i).contains("test"@) && word != "test"@ {
                let k = words(s, i).index_of("test"@);
                assert(rest[k - 1] == "test"@);
            }
        } else if s[i] == '"' {
            plain_conditions_name_tests(s, i + 1, groups, !quoted);
        } else if quoted {
            if s[i] == '\\' && i + 1 < s.len() && (s[i + 1] == '\\' || s[i + 1] == '"') {
                assert(!is_word_char(s[i + 1]));
                assert(words(s, i + 1) == words(s, i + 2));
                plain_conditions_name_tests(s, i + 2, groups, true);
            } else {
                plain_conditions_name_tests(s, i + 1, groups, true);
            }
        } else if s[i] == '(' {
            plain_conditions_name_tests(s, i + 1, groups.push(false), false);
        } else if s[i] == ')' && groups.len() > 0 {
            plain_conditions_name_tests(s, i + 1, groups.drop_last(), false);
        } else {
            plain_conditions_name_tests(s, i + 1, groups, false);
        }
    }
}

/// Whether a Rust attribute marks test code.
pub open spec fn marks_test(attribute: Seq<char>) -> bool {
    match between(compact(attribute), "#["@, "]"@) {
        None => false,
        Some(inner) => match between(inner, "cfg("@, ")"@) {
            Some(condition) => asks_for_test(condition, 0, seq![], false),
            None => {
                let name = inner.take(index_from(inner, '(', 0));
                name == "test"@ || ends_with(name, "::test"@) || name == "rstest"@ || name
                    == "proptest"@ || name == "test_case"@
            },
        },
    }
}

/// Whether a Rust attribute marks test code.
fn is_rust_test_attribute(attribute: &[char]) -> (r: bool)
    ensures
        r == marks_test(attribute@),
{
    let squeezed = compacted(attribute);
    let inner = match strip(&squeezed, "#[", "]") {
        None => {
            return false;
        },
        Some(inner) => inner,
    };
    match strip(&inner, "cfg(", ")") {
        Some(condition) => condition_asks_for_test(&condition),
        None => {
            let name = slice_of(&inner, 0, index_of(&inner, '(', 0));
            assert(name@ =~= inner@.take(index_from(inner@, '(', 0)));
            chars_are(&name, "test") || has_suffix(&name, "::test") || chars_are(&name, "rstest")
                || chars_are(&name, "proptest") || chars_are(&name, "test_case")
        },
    }
}

/// The position of the character that starts at a byte, where one does.
pub open spec fn char_at_byte(s: Seq<char>, i: int, byte: int) -> Option<int>
    decreases s.len() + 1 - i,
{
    if i < 0 || i > s.len() {
        None
    } else if byte_len(s.take(i)) == byte {
        Some(i)
    } else {
        char_at_byte(s, i + 1, byte)
    }
}

/// The text from one byte to another, where both are the start of a character or the end.
pub open spec fn byte_slice(s: Seq<char>, start: int, end: int) -> Option<Seq<char>> {
    match (char_at_byte(s, 0, start), char_at_byte(s, 0, end)) {
        (Some(a), Some(b)) => if start <= end && a <= b {
            Some(s.subrange(a, b))
        } else {
            None
        },
        _ => None,
    }
}

/// The position of the character that starts at a byte, where one does.
fn find_byte(chars: &[char], byte: usize) -> (r: Option<usize>)
    ensures
        match r {
            Some(i) => char_at_byte(chars@, 0, byte as int) == Some(i as int) && i <= chars@.len(),
            None => char_at_byte(chars@, 0, byte as int) is None,
        },
{
    let mut sum: u128 = 0;
    let mut i: usize = 0;
    assert(chars@.take(0) =~= Seq::<char>::empty());
    loop
        invariant
            i <= chars@.len(),
            sum == byte_len(chars@.take(i as int)),
            sum <= 4 * i,
            char_at_byte(chars@, 0, byte as int) == char_at_byte(chars@, i as int, byte as int),
        decreases chars@.len() - i,
    {
        if sum == byte as u128 {
            return Some(i);
        }
        if i == chars.len() {
            assert(char_at_byte(chars@, i + 1, byte as int) is None);
            return None;
        }
        proof {
            crate::text::lemma_byte_len_take(chars@, i as int);
        }
        sum += width_of(chars[i]) as u128;
        i += 1;
    }
}

/// The lines of the test that the attribute at position `i` marks, if it marks one.
pub open spec fn marked_span(
    s: Seq<char>,
    nodes: Seq<(usize, SyntaxNodeView)>,
    i: int,
) -> Option<Span> {
    let depth = nodes[i].0;
    let node = nodes[i].1;
    if depth > 0 && search_path(nodes, i + 1, 0).last() && node.kind == "attribute_item"@ {
        match byte_slice(s, node.start_byte as int, node.end_byte as int) {
            Some(attribute) => if marks_test(attribute) {
                match attributed_item(nodes, depth, i + 1) {
                    Some(item) => match span_of(
                        nodes[first_attribute(nodes, depth, i)].1.start_row + 1,
                        node_end(nodes[item].1),
                    ) {
                        Ok(span) => Some(span),
                        Err(_) => None,
                    },
                    None => None,
                }
            } else {
                None
            },
            None => None,
        }
    } else {
        None
    }
}

/// The lines of the tests that attributes among the first `n` nodes mark.
pub open spec fn marked_spans(
    s: Seq<char>,
    nodes: Seq<(usize, SyntaxNodeView)>,
    n: int,
) -> Seq<Span>
    decreases n,
{
    if n <= 0 {
        seq![]
    } else {
        match marked_span(s, nodes, n - 1) {
            Some(span) => marked_spans(s, nodes, n - 1).push(span),
            None => marked_spans(s, nodes, n - 1),
        }
    }
}

/// The lines of the tests that attributes mark.
fn collect_rust_test_ranges(text: &str, nodes: &Vec<(usize, SyntaxNode)>) -> (r: Vec<Span>)
    ensures
        r@ == marked_spans(text@, nodes.deep_view(), nodes@.len() as int),
{
    let chars = chars_of(text);
    let mut out: Vec<Span> = Vec::new();
    let mut path: Vec<bool> = Vec::new();
    let mut i: usize = 0;
    let ghost all = nodes.deep_view();
    while i < nodes.len()
        invariant
            i <= nodes@.len(),
            all == nodes.deep_view(),
            chars@ == text@,
            path@ == search_path(all, i as int, 0),
            out@ == marked_spans(text@, all, i as int),
        decreases nodes@.len() - i,
    {
        let depth = nodes[i].0;
        let node = &nodes[i].1;
        assert(all[i as int] == (depth, node@));
        let reached = advance_path(&mut path, depth, node, 0, Ghost(all), Ghost(i as int));
        if depth > 0 && reached && same_text(node.kind.as_str(), "attribute_item") {
            match (find_byte(&chars, node.start_byte), find_byte(&chars, node.end_byte)) {
                (Some(a), Some(b)) => {
                    if node.start_byte <= node.end_byte && a <= b && is_rust_test_attribute(
                        &slice_of(&chars, a, b),
                    ) {
                        match next_rust_item(nodes, depth, i + 1) {
                            Some(item) => {
                                let first = attribute_block_start(nodes, depth, i);
                                assert(all[first as int].1 == nodes@[first as int].1@);
                                assert(all[item as int].1 == nodes@[item as int].1@);
                                match make_span(
                                    nodes[first].1.start_row as u128 + 1,
                                    node_end_line(&nodes[item].1),
                                ) {
                                    Ok(span) => {
                                        out.push(span);
                                    },
                                    Err(_) => {},
                                }
                            },
                            None => {},
                        }
                    }
                },
                _ => {},
            }
        }
        i += 1;
    }
    out
}

/// Whether a span comes before another: it starts before it, or with it and ends later.
pub open spec fn span_before(a: Span, b: Span) -> bool {
    a.start_line < b.start_line || (a.start_line == b.start_line && a.end_line > b.end_line)
}

/// `x` put into its place among sorted spans.
pub open spec fn insert_span(sorted: Seq<Span>, x: Span) -> Seq<Span>
    decreases sorted.len(),
{
    if sorted.len() == 0 || !span_before(x, sorted.last()) {
        sorted.push(x)
    } else {
        insert_span(sorted.drop_last(), x).push(sorted.last())
    }
}

/// The spans in order.
pub open spec fn sort_spans(spans: Seq<Span>) -> Seq<Span>
    decreases spans.len(),
{
    if spans.len() == 0 {
        spans
    } else {
        insert_span(sort_spans(spans.drop_last()), spans.last())
    }
}

/// Putting `x` behind the last span that does not come after it is `insert_span`.
proof fn lemma_insert_span(sorted: Seq<Span>, x: Span, at: int)
    requires
        0 <= at <= sorted.len(),
        forall|k: int| at <= k < sorted.len() ==> span_before(x, #[trigger] sorted[k]),
        at > 0 ==> !span_before(x, sorted[at - 1]),
    ensures
        insert_span(sorted, x) == sorted.insert(at, x),
    decreases sorted.len(),
{
    if at == sorted.len() {
        assert(sorted.insert(at, x) =~= sorted.push(x));
    } else {
        lemma_insert_span(sorted.drop_last(), x, at);
        assert(sorted.insert(at, x) =~= sorted.drop_last().insert(at, x).push(sorted.last()));
    }
}

/// The spans in order.
fn sorted_spans(spans: &Vec<Span>) -> (r: Vec<Span>)
    ensures
        r@ == sort_spans(spans@),
{
    let mut out: Vec<Span> = Vec::new();
    let mut i: usize = 0;
    assert(spans@.take(0) =~= Seq::<Span>::empty());
    while i < spans.len()
        invariant
            i <= spans@.len(),
            out@ == sort_spans(spans@.take(i as int)),
        decreases spans@.len() - i,
    {
        let x = spans[i];
        let mut at: usize = out.len();
        while at > 0 && (x.start_line < out[at - 1].start_line || (x.start_line == out[at
            - 1].start_line && x.end_line > out[at - 1].end_line))
            invariant
                at <= out@.len(),
                forall|k: int| at <= k < out@.len() ==> span_before(x, #[trigger] out@[k]),
            decreases at,
        {
            at -= 1;
        }
        proof {
            lemma_insert_span(out@, x, at as int);
            assert(spans@.take(i + 1).drop_last() =~= spans@.take(i as int));
        }
        out.insert(at, x);
        i += 1;
    }
    assert(spans@.take(spans@.len() as int) =~= spans@);
    out
}

/// The merged spans after one more: it is dropped where the last one covers it, joined with
/// the last one where it starts in it or on the line behind it, and appended otherwise.
pub open spec fn merge_span(merged: Seq<Span>, span: Span) -> Seq<Span> {
    if merged.len() == 0 {
        merged.push(span)
    } else {
        let last = merged.last();
        if span.start_line >= last.start_line && span.end_line <= last.end_line {
            merged
        } else if span.start_line <= last.end_line + 1 {
            merged.drop_last().push(
                Span {
                    start_line: last.start_line,
                    end_line: if last.end_line >= span.end_line {
                        last.end_line
                    } else {
                        span.end_line
                    },
                },
            )
        } else {
            merged.push(span)
        }
    }
}

/// The spans merged, in the order given.
pub open spec fn merge_spans(spans: Seq<Span>) -> Seq<Span>
    decreases spans.len(),
{
    if spans.len() == 0 {
        spans
    } else {
        merge_span(merge_spans(spans.drop_last()), spans.last())
    }
}

/// Sorts spans and merges those that touch.
pub fn merged_spans(spans: &Vec<Span>) -> (r: Vec<Span>)
    ensures
        r@ == merge_spans(sort_spans(spans@)),
{
    let sorted = sorted_spans(spans);
    let mut merged: Vec<Span> = Vec::new();
    let mut i: usize = 0;
    assert(sorted@.take(0) =~= Seq::<Span>::empty());
    while i < sorted.len()
        invariant
            i <= sorted@.len(),
            merged@ == merge_spans(sorted@.take(i as int)),
        decreases sorted@.len() - i,
    {
        assert(sorted@.take(i + 1).drop_last() =~= sorted@.take(i as int));
        let span = sorted[i];
        let n: usize = merged.len();
        if n == 0 {
            merged.push(span);
        } else {
            let last = merged[n - 1];
            if span.start_line >= last.start_line && span.end_line <= last.end_line {
            } else if span.start_line as u64 <= last.end_line as u64 + 1 {
                let end_line: u32 = if last.end_line >= span.end_line {
                    last.end_line
                } else {
                    span.end_line
                };
                let joined = Span { start_line: last.start_line, end_line };
                let ghost before = merged@;
                merged.set(n - 1, joined);
                assert(merged@ =~= before.drop_last().push(joined));
            } else {
                merged.push(span);
            }
        }
        i += 1;
    }
    assert(sorted@.take(sorted@.len() as int) =~= sorted@);
    merged
}

/// Whether a file can hold Rust tests at all: a Rust file with an attribute and the word
/// `test` in it.
pub open spec fn may_hold_tests(path: Seq<char>, text: Seq<char>) -> bool {
    extension(path) == Some("rs"@) && contains(text, "#["@) && contains(text, "test"@)
}

/// The lines of a file that hold Rust tests, given the nodes of its syntax tree.
pub open spec fn test_spans_in(text: Seq<char>, nodes: Seq<(usize, SyntaxNodeView)>) -> Seq<Span> {
    merge_spans(sort_spans(marked_spans(text, nodes, nodes.len() as int)))
}

/// The lines of a file that hold Rust tests.
pub open spec fn test_spans(path: Seq<char>, text: Seq<char>) -> Seq<Span> {
    if may_hold_tests(path, text) && parse_outcome(Grammar::Rust, text) == Ok::<bool, Seq<char>>(
        true,
    ) {
        test_spans_in(text, syntax_nodes(Grammar::Rust, text))
    } else {
        seq![]
    }
}

/// The lines of a file that hold Rust tests, given the nodes of its syntax tree.
pub fn rust_test_ranges_in(text: &str, nodes: &Vec<(usize, SyntaxNode)>) -> (r: Vec<Span>)
    ensures
        r@ == test_spans_in(text@, nodes.deep_view()),
{
    merged_spans(&collect_rust_test_ranges(text, nodes))
}

/// The lines of a file that hold Rust tests, told from their attributes.
pub fn rust_test_ranges(path: &str, text: &str) -> (r: Vec<Span>)
    ensures
        r@ == test_spans(path@, text@),
{
    let is_rust = match extension_of(path) {
        Some(ext) => same_text(ext.as_str(), "rs"),
        None => false,
    };
    if !is_rust || !contains_text(text, "#[") || !contains_text(text, "test") {
        return Vec::new();
    }
    match parse(Grammar::Rust, text) {
        Ok(Some(tree)) => {
            let nodes = tree_nodes(&tree);
            rust_test_ranges_in(text, &nodes)
        },
        _ => Vec::new(),
    }
}

/// Whether a trimmed line is a heading.
pub open spec fn is_heading(line: Seq<char>) -> bool {
    ||| starts_with(line, "#"@)
    ||| starts_with(line, "section "@)
    ||| starts_with(line, "namespace "@)
    ||| starts_with(line, "module "@)
}

/// Whether a trimmed line is a heading.
fn heading(line: &[char]) -> (r: bool)
    ensures
        r == is_heading(line@),
{
    has_prefix(line, "#") || has_prefix(line, "section ") || has_prefix(line, "namespace ")
        || has_prefix(line, "module ")
}

/// How many lines a section has at most.
pub const MAX_SECTION_LINES: usize = 80;

/// The first line of the section around the line at position `selected`: back from `start`
/// to a heading, to the line behind a blank one, or half a section.
pub open spec fn section_start(ls: Seq<Seq<char>>, selected: int, start: int) -> int
    decreases start,
{
    if start > 0 && selected - start < MAX_SECTION_LINES / 2 && !is_blank(ls[start - 1])
        && !is_heading(trim(ls[start])) {
        section_start(ls, selected, start - 1)
    } else {
        start
    }
}

/// The last line of the section that starts at position `start`: on from `end` to the line
/// before a blank one or a heading, or a whole section.
pub open spec fn section_end(ls: Seq<Seq<char>>, start: int, end: int) -> int
    decreases ls.len() - end,
{
    if end + 1 < ls.len() && end + 1 - start < MAX_SECTION_LINES && !is_blank(ls[end + 1])
        && !is_heading(trim(ls[end + 1])) {
        section_end(ls, start, end + 1)
    } else {
        end
    }
}

/// The section around a line.
pub open spec fn section_span(s: Seq<char>, line: int) -> Option<Span> {
    let ls = lines(s);
    if ls.len() == 0 {
        None
    } else {
        let start = section_start(ls, line - 1, line - 1);
        match span_of(start + 1, section_end(ls, start, line - 1) + 1) {
            Ok(span) => Some(span),
            Err(_) => None,
        }
    }
}

/// The section around a line.
fn enclosing_section(ls: &Vec<Vec<char>>, line: usize, Ghost(s): Ghost<Seq<char>>) -> (r: Option<
    Span,
>)
    requires
        ls.deep_view() == lines(s),
        ls@.len() > 0 ==> 1 <= line <= ls@.len(),
    ensures
        r == section_span(s, line as int),
{
    if ls.len() == 0 {
        return None;
    }
    let ghost all = lines(s);
    let selected: usize = line - 1;
    let mut start: usize = selected;
    let count: usize = ls.len();
    while start > 0
        invariant
            start <= selected < ls@.len(),
            all == ls.deep_view(),
            section_start(all, selected as int, selected as int) == section_start(
                all,
                selected as int,
                start as int,
            ),
        ensures
            start <= selected,
            start == section_start(all, selected as int, selected as int),
        decreases start,
    {
        assert(all[start - 1] == ls@[start - 1]@);
        assert(all[start as int] == ls@[start as int]@);
        if selected - start >= MAX_SECTION_LINES / 2 || trimmed(&ls[start - 1]).len() == 0
            || heading(&trimmed(&ls[start])) {
            break;
        }
        start -= 1;
    }
    let mut end: usize = selected;
    while end + 1 < count
        invariant
            start <= selected <= end < ls@.len(),
            count == ls@.len(),
            all == ls.deep_view(),
            section_end(all, start as int, selected as int) == section_end(
                all,
                start as int,
                end as int,
            ),
        ensures
            end < ls@.len(),
            end == section_end(all, start as int, selected as int),
        decreases ls@.len() - end,
    {
        assert(all[end + 1] == ls@[end + 1]@);
        if end + 1 - start >= MAX_SECTION_LINES || trimmed(&ls[end + 1]).len() == 0 || heading(
            &trimmed(&ls[end + 1]),
        ) {
            break;
        }
        end += 1;
    }
    match make_span(start as u128 + 1, end as u128 + 1) {
        Ok(span) => Some(span),
        Err(_) => None,
    }
}

/// The span of the first node from position `i` on that is shown as a whole.
pub open spec fn unit_span(grammar: Grammar, spanning: Seq<SyntaxNodeView>, i: int) -> Option<Span>
    decreases spanning.len() - i,
{
    if i < 0 || i >= spanning.len() {
        None
    } else if is_unit(grammar, spanning[i].kind) {
        match span_of(spanning[i].start_row + 1, node_end(spanning[i])) {
            Ok(span) => Some(span),
            Err(_) => None,
        }
    } else {
        unit_span(grammar, spanning, i + 1)
    }
}

/// The smallest unit of a syntax tree among a node and its ancestors.
fn unit_of(grammar: Grammar, spanning: &Vec<SyntaxNode>) -> (r: Option<Span>)
    ensures
        r == unit_span(grammar, spanning.deep_view(), 0),
{
    let ghost all = spanning.deep_view();
    let mut i: usize = 0;
    while i < spanning.len()
        invariant
            i <= spanning@.len(),
            all == spanning.deep_view(),
            unit_span(grammar, all, 0) == unit_span(grammar, all, i as int),
        decreases spanning@.len() - i,
    {
        assert(all[i as int] == spanning@[i as int]@);
        let node = &spanning[i];
        if is_context_node(grammar, node.kind.as_str()) {
            return match make_span(node.start_row as u128 + 1, node_end_line(node)) {
                Ok(span) => Some(span),
                Err(_) => None,
            };
        }
        i += 1;
    }
    None
}

/// The nodes around a line in the syntax tree of a file, from the smallest to the root, where
/// the file has a syntax tree and the line.
pub open spec fn nodes_around(path: Seq<char>, s: Seq<char>, line: int) -> Seq<SyntaxNodeView> {
    match (grammar_for(extension(path)), line_start(s, line), line_end(s, line)) {
        (Some(grammar), Some(start), Some(end)) => {
            let first = byte_at(s, start);
            let last = one_less(byte_at(s, end) as int);
            if parse_outcome(grammar, s) == Ok::<bool, Seq<char>>(true) {
                spanning_nodes(
                    grammar,
                    s,
                    first,
                    if last >= first {
                        last as usize
                    } else {
                        first
                    },
                )
            } else {
                seq![]
            }
        },
        _ => seq![],
    }
}

/// The nodes around a line in the syntax tree of a file.
fn find_nodes_around(grammar: Option<Grammar>, text: &str, line: usize, Ghost(path): Ghost<
    Seq<char>,
>) -> (r: Vec<SyntaxNode>)
    requires
        grammar == grammar_for(extension(path)),
    ensures
        r.deep_view() == nodes_around(path, text@, line as int),
{
    let chars = chars_of(text);
    match (grammar, line_start_index(&chars, line), line_end_index(&chars, line)) {
        (Some(grammar), Some(start), Some(end)) => match parse(grammar, text) {
            Ok(Some(tree)) => {
                let first = byte_offset(text, &chars, start);
                let last = byte_offset(text, &chars, end);
                let last: usize = if last > 0 {
                    last - 1
                } else {
                    0
                };
                return tree_span(
                    &tree,
                    first,
                    if last >= first {
                        last
                    } else {
                        first
                    },
                );
            },
            _ => {},
        },
        _ => {},
    }
    let none: Vec<SyntaxNode> = Vec::new();
    assert(none.deep_view() =~= seq![]);
    none
}

/// The line nearest to `line` that a text of `count` lines has.
pub open spec fn nearest_line(line: int, count: int) -> int {
    if line < 1 {
        1
    } else if line > count {
        if count >= 1 {
            count
        } else {
            1
        }
    } else {
        line
    }
}

/// The smallest coherent unit around a line, given the nodes around it.
pub open spec fn enclosing_span_in(
    path: Seq<char>,
    s: Seq<char>,
    line: int,
    spanning: Seq<SyntaxNodeView>,
) -> Span {
    let count = lines(s).len() as int;
    let unit = match grammar_for(extension(path)) {
        Some(grammar) => unit_span(grammar, spanning, 0),
        None => None,
    };
    match unit {
        Some(span) => span,
        None => match section_span(s, nearest_line(line, count)) {
            Some(span) => span,
            None => Span {
                start_line: 1,
                end_line: if count > u32::MAX {
                    u32::MAX
                } else if count >= 1 {
                    count as u32
                } else {
                    1
                },
            },
        },
    }
}

/// The smallest coherent unit around a line.
pub open spec fn enclosing_span(path: Seq<char>, s: Seq<char>, line: int) -> Span {
    enclosing_span_in(
        path,
        s,
        line,
        nodes_around(path, s, nearest_line(line, lines(s).len() as int)),
    )
}

/// The smallest coherent unit around a line, given the nodes around it in the syntax tree,
/// from the smallest to the root.
pub fn enclosing_in_nodes(path: &str, text: &str, line: usize, spanning: &Vec<SyntaxNode>) -> (r:
    Span)
    ensures
        r == enclosing_span_in(path@, text@, line as int, spanning.deep_view()),
{
    let chars = chars_of(text);
    let ls = lines_of(&chars);
    let count: usize = ls.len();
    let line: usize = if line < 1 {
        1
    } else if line > count {
        if count >= 1 {
            count
        } else {
            1
        }
    } else {
        line
    };
    let unit = match extension_of(path) {
        Some(ext) => match grammar_of(ext.as_str()) {
            Some(grammar) => unit_of(grammar, spanning),
            None => None,
        },
        None => None,
    };
    match unit {
        Some(span) => span,
        None => match enclosing_section(&ls, line, Ghost(text@)) {
            Some(span) => span,
            None => Span {
                start_line: 1,
                end_line: if count as u128 > u32::MAX as u128 {
                    u32::MAX
                } else if count >= 1 {
                    count as u32
                } else {
                    1
                },
            },
        },
    }
}

/// The smallest coherent unit around a line: the declaration that holds it in the syntax
/// tree, else the section that holds it, else the whole file. A line that the text does not
/// have stands for the nearest one.
pub fn enclosing(path: &str, text: &str, line: usize) -> (r: Span)
    ensures
        r == enclosing_span(path@, text@, line as int),
{
    let chars = chars_of(text);
    let count: usize = lines_of(&chars).len();
    let near: usize = if line < 1 {
        1
    } else if line > count {
        if count >= 1 {
            count
        } else {
            1
        }
    } else {
        line
    };
    let grammar: Option<Grammar> = match extension_of(path) {
        Some(ext) => grammar_of(ext.as_str()),
        None => None,
    };
    let spanning = find_nodes_around(grammar, text, near, Ghost(path@));
    enclosing_in_nodes(path, text, line, &spanning)
}

/// How the construct that follows an annotation is found.
enum Engine {
    Tree(tree_sitter::Tree, Grammar),
    Declaration,
    Brackets,
}

/// Finds the constructs that follow annotations in one file.
pub struct Resolver<'a> {
    text: &'a str,
    engine: Engine,
}

impl<'a> Resolver<'a> {
    /// The text of the file.
    pub closed spec fn source(&self) -> Seq<char> {
        self.text@
    }

    /// How constructs are found.
    pub closed spec fn engine(&self) -> EngineView {
        match self.engine {
            Engine::Tree(_, grammar) => EngineView::Tree(grammar),
            Engine::Declaration => EngineView::Declaration,
            Engine::Brackets => EngineView::Brackets,
        }
    }

    #[verifier::type_invariant]
    spec fn tree_is_of_text(&self) -> bool {
        match self.engine {
            Engine::Tree(tree, grammar) => parsed_from(tree) == (grammar, self.text@),
            _ => true,
        }
    }
}

/// Why no resolver can be made for a text, if so.
pub open spec fn resolver_problem(engine: EngineView, text: Seq<char>) -> Option<Seq<char>> {
    match engine {
        EngineView::Tree(grammar) => match parse_outcome(grammar, text) {
            Ok(true) => None,
            Ok(false) => Some("source parser returned no syntax tree"@),
            Err(message) => Some("failed to load source parser: "@ + message),
        },
        _ => None,
    }
}

/// The construct that follows an annotation.
pub open spec fn resolution(engine: EngineView, s: Seq<char>, marker_line: int) -> Result<
    Span,
    Seq<char>,
> {
    match engine {
        EngineView::Tree(grammar) => match tree_resolution(grammar, s, marker_line) {
            Ok(span) => Ok(span),
            Err(tree_error) => match structural_span(s, marker_line) {
                Ok(span) => Ok(span),
                Err(other) => Err(tree_error + "; structural fallback failed: "@ + other),
            },
        },
        EngineView::Declaration => declaration_span(s, marker_line),
        EngineView::Brackets => structural_span(s, marker_line),
    }
}

impl<'a> Resolver<'a> {
    /// A resolver for a file, by the extension of its path. It fails where the outside
    /// parser gives no syntax tree.
    pub fn new(path: &str, text: &'a str) -> (r: Result<Self, String>)
        ensures
            match r {
                Ok(resolver) => resolver_problem(engine_for(extension(path@)), text@) is None
                    && resolver.source() == text@ && resolver.engine() == engine_for(
                    extension(path@),
                ),
                Err(message) => resolver_problem(engine_for(extension(path@)), text@) == Some(
                    message@,
                ),
            },
    {
        let ext = extension_of(path);
        let grammar: Option<Grammar> = match &ext {
            Some(ext) => grammar_of(ext.as_str()),
            None => None,
        };
        match grammar {
            Some(grammar) => match parse(grammar, text) {
                Ok(Some(tree)) => Ok(Resolver { text, engine: Engine::Tree(tree, grammar) }),
                Ok(None) => Err("source parser returned no syntax tree".to_owned()),
                Err(error) => {
                    let mut message = "failed to load source parser: ".to_owned();
                    message.push_str(error.as_str());
                    Err(message)
                },
            },
            None => {
                let declares = match &ext {
                    Some(ext) => same_text(ext.as_str(), "lean") || same_text(ext.as_str(), "tla"),
                    None => false,
                };
                if declares {
                    Ok(Resolver { text, engine: Engine::Declaration })
                } else {
                    Ok(Resolver { text, engine: Engine::Brackets })
                }
            },
        }
    }

    /// The construct that follows an annotation on a line. It starts behind that line, but
    /// for a syntax tree whose text is too long or ends with the line.
    pub fn resolve(&self, marker_line: usize) -> (r: Result<Span, String>)
        ensures
            outcome(r) == resolution(self.engine(), self.source(), marker_line as int),
            is_told_apart(self.engine(), self.source(), marker_line as int) ==> (r matches Ok(span)
                ==> marker_line < span.start_line),
    {
        proof {
            use_type_invariant(self);
            declarations_follow_their_annotation(self.text@, marker_line as int);
            constructs_follow_their_annotation(self.text@, marker_line as int);
        }
        match &self.engine {
            Engine::Tree(tree, grammar) => match resolve_tree(
                self.text,
                marker_line,
                tree,
                *grammar,
            ) {
                Ok(span) => Ok(span),
                Err(tree_error) => match resolve_structural(self.text, marker_line) {
                    Ok(span) => Ok(span),
                    Err(other) => {
                        let mut message = tree_error;
                        message.push_str("; structural fallback failed: ");
                        message.push_str(other.as_str());
                        Err(message)
                    },
                },
            },
            Engine::Declaration => resolve_declaration(self.text, marker_line),
            Engine::Brackets => resolve_structural(self.text, marker_line),
        }
    }
}

/// The construct that follows an annotation in a file.
pub open spec fn file_resolution(path: Seq<char>, text: Seq<char>, marker_line: int) -> Result<
    Span,
    Seq<char>,
> {
    match resolver_problem(engine_for(extension(path)), text) {
        Some(message) => Err(message),
        None => resolution(engine_for(extension(path)), text, marker_line),
    }
}

/// The construct that follows an annotation on a line of a file. It starts behind that line,
/// but for a syntax tree whose text is too long or ends with the line.
pub fn resolve(path: &str, text: &str, marker_line: usize) -> (r: Result<Span, String>)
    ensures
        outcome(r) == file_resolution(path@, text@, marker_line as int),
        is_told_apart(engine_for(extension(path@)), text@, marker_line as int) ==> (
        r matches Ok(span) ==> marker_line < span.start_line),
{
    match Resolver::new(path, text) {
        Ok(resolver) => resolver.resolve(marker_line),
        Err(message) => Err(message),
    }
}

/// Whether a line lies in one of the spans.
pub open spec fn covers(spans: Seq<Span>, line: int) -> bool {
    exists|i: int|
        0 <= i < spans.len() && (#[trigger] spans[i]).start_line <= line <= spans[i].end_line
}

/// Whether no span ends before it starts.
pub open spec fn all_filled(spans: Seq<Span>) -> bool {
    forall|i: int| 0 <= i < spans.len() ==> (#[trigger] spans[i]).start_line <= spans[i].end_line
}

/// Whether spans are in order with at least one line between any two.
pub open spec fn separated(spans: Seq<Span>) -> bool {
    forall|i: int, j: int|
        0 <= i < j < spans.len() ==> (#[trigger] spans[i]).end_line + 1 < (
        #[trigger] spans[j]).start_line
}

/// Whether no span starts before the one in front of it.
spec fn by_start(spans: Seq<Span>) -> bool {
    forall|i: int, j: int|
        0 <= i < j < spans.len() ==> (#[trigger] spans[i]).start_line <= (
        #[trigger] spans[j]).start_line
}

/// A span more covers its own lines more.
proof fn lemma_covers_push(spans: Seq<Span>, x: Span, line: int)
    ensures
        covers(spans.push(x), line) == (covers(spans, line) || x.start_line <= line <= x.end_line),
{
    let more = spans.push(x);
    if covers(spans, line) {
        let i = choose|i: int|
            0 <= i < spans.len() && (#[trigger] spans[i]).start_line <= line <= spans[i].end_line;
        assert(more[i] == spans[i]);
    }
    if x.start_line <= line <= x.end_line {
        assert(more[spans.len() as int] == x);
    }
    if covers(more, line) {
        let i = choose|i: int|
            0 <= i < more.len() && (#[trigger] more[i]).start_line <= line <= more[i].end_line;
        if i < spans.len() {
            assert(more[i] == spans[i]);
        }
    }
}

/// Putting a span in its place keeps the order and adds its lines.
proof fn lemma_insert_keeps(sorted: Seq<Span>, x: Span, line: int)
    requires
        by_start(sorted),
        all_filled(sorted),
        x.start_line <= x.end_line,
    ensures
        by_start(insert_span(sorted, x)),
        all_filled(insert_span(sorted, x)),
        covers(insert_span(sorted, x), line) == (covers(sorted, line) || x.start_line <= line
            <= x.end_line),
        forall|k: int|
            0 <= k < insert_span(sorted, x).len() ==> ({
                let y = #[trigger] insert_span(sorted, x)[k];
                y == x || sorted.contains(y)
            }),
    decreases sorted.len(),
{
    if sorted.len() == 0 || !span_before(x, sorted.last()) {
        lemma_covers_push(sorted, x, line);
        let r = sorted.push(x);
        assert forall|k: int| 0 <= k < r.len() implies ({
            let y = #[trigger] r[k];
            y == x || sorted.contains(y)
        }) by {
            if k < sorted.len() {
                assert(sorted[k] == r[k]);
            }
        }
        assert forall|i: int, j: int| 0 <= i < j < r.len() implies (#[trigger] r[i]).start_line <= (
        #[trigger] r[j]).start_line by {
            if j == sorted.len() {
                assert(sorted[i] == r[i]);
                if i < sorted.len() - 1 {
                    assert(sorted[i].start_line <= sorted[sorted.len() - 1].start_line);
                }
            }
        }
    } else {
        let shorter = sorted.drop_last();
        let last = sorted.last();
        assert(sorted =~= shorter.push(last));
        lemma_insert_keeps(shorter, x, line);
        let inner = insert_span(shorter, x);
        lemma_covers_push(inner, last, line);
        lemma_covers_push(shorter, last, line);
        let r = inner.push(last);
        assert forall|k: int| 0 <= k < r.len() implies ({
            let y = #[trigger] r[k];
            y == x || sorted.contains(y)
        }) by {
            if k < inner.len() {
                assert(r[k] == inner[k]);
                if inner[k] != x {
                    let m = shorter.index_of(inner[k]);
                    assert(sorted[m] == inner[k]);
                }
            } else {
                assert(sorted[sorted.len() - 1] == last);
            }
        }
        assert forall|i: int, j: int| 0 <= i < j < r.len() implies (#[trigger] r[i]).start_line <= (
        #[trigger] r[j]).start_line by {
            assert(r[i] == inner[i]);
            if j == inner.len() {
                if inner[i] != x {
                    let m = shorter.index_of(inner[i]);
                    assert(sorted[m] == inner[i]);
                    assert(sorted[m].start_line <= sorted[sorted.len() - 1].start_line);
                }
            } else {
                assert(r[j] == inner[j]);
            }
        }
    }
}

/// Sorting spans keeps their lines.
proof fn lemma_sort_keeps(spans: Seq<Span>, line: int)
    requires
        all_filled(spans),
    ensures
        by_start(sort_spans(spans)),
        all_filled(sort_spans(spans)),
        covers(sort_spans(spans), line) == covers(spans, line),
    decreases spans.len(),
{
    if spans.len() > 0 {
        let shorter = spans.drop_last();
        assert(spans =~= shorter.push(spans.last()));
        lemma_sort_keeps(shorter, line);
        lemma_insert_keeps(sort_spans(shorter), spans.last(), line);
        lemma_covers_push(shorter, spans.last(), line);
    }
}

/// Merging sorted spans keeps their lines and separates them.
proof fn lemma_merge_keeps(spans: Seq<Span>, line: int)
    requires
        by_start(spans),
        all_filled(spans),
    ensures
        all_filled(merge_spans(spans)),
        separated(merge_spans(spans)),
        covers(merge_spans(spans), line) == covers(spans, line),
        spans.len() > 0 ==> merge_spans(spans).len() > 0 && merge_spans(spans).last().start_line
            <= spans.last().start_line,
    decreases spans.len(),
{
    if spans.len() > 0 {
        let shorter = spans.drop_last();
        let x = spans.last();
        assert(spans =~= shorter.push(x));
        lemma_merge_keeps(shorter, line);
        lemma_covers_push(shorter, x, line);
        let m = merge_spans(shorter);
        if m.len() == 0 {
            lemma_covers_push(m, x, line);
            if shorter.len() > 0 {
                assert(false);
            }
        } else {
            let last = m.last();
            assert(shorter.len() > 0);
            assert(last.start_line <= x.start_line) by {
                assert(shorter.last() == spans[spans.len() - 2]);
                assert(spans[spans.len() - 2].start_line <= spans[spans.len() - 1].start_line);
            }
            if x.start_line >= last.start_line && x.end_line <= last.end_line {
                if x.start_line <= line <= x.end_line {
                    assert(m[m.len() - 1].start_line <= line <= m[m.len() - 1].end_line);
                }
            } else if x.start_line <= last.end_line + 1 {
                let front = m.drop_last();
                assert(m =~= front.push(last));
                let joined = merge_span(m, x).last();
                lemma_covers_push(front, last, line);
                lemma_covers_push(front, joined, line);
                let r = front.push(joined);
                assert forall|i: int, j: int| 0 <= i < j < r.len() implies (
                #[trigger] r[i]).end_line + 1 < (#[trigger] r[j]).start_line by {
                    assert(m[i] == r[i]);
                    assert(m[j].start_line == r[j].start_line);
                }
            } else {
                lemma_covers_push(m, x, line);
                let r = m.push(x);
                assert forall|i: int, j: int| 0 <= i < j < r.len() implies (
                #[trigger] r[i]).end_line + 1 < (#[trigger] r[j]).start_line by {
                    assert(m[i] == r[i]);
                    if j == m.len() && i < m.len() - 1 {
                        assert(m[i].end_line + 1 < m[m.len() - 1].start_line);
                    }
                }
            }
        }
    }
}

/// Merged spans hold exactly the lines of the spans that they were made of, in order and
/// with at least one line between any two of them.
pub proof fn merged_spans_keep_their_lines(spans: Seq<Span>)
    requires
        all_filled(spans),
    ensures
        forall|line: int|
            #[trigger] covers(merge_spans(sort_spans(spans)), line) == covers(spans, line),
        separated(merge_spans(sort_spans(spans))),
        all_filled(merge_spans(sort_spans(spans))),
{
    assert forall|line: int|
        #[trigger] covers(merge_spans(sort_spans(spans)), line) == covers(spans, line) by {
        lemma_sort_keeps(spans, line);
        lemma_merge_keeps(sort_spans(spans), line);
    }
    lemma_sort_keeps(spans, 0);
    lemma_merge_keeps(sort_spans(spans), 0);
}

/// `last_filled` stays in the lines that it looks at.
proof fn lemma_last_filled(ls: Seq<Seq<char>>, start: int, end: int)
    ensures
        start <= last_filled(ls, start, end),
        last_filled(ls, start, end) <= start || last_filled(ls, start, end) < end,
    decreases end - start,
{
    if end > start && is_blank(ls[end - 1]) {
        lemma_last_filled(ls, start, end - 1);
    }
}

/// A declaration starts behind its annotation, where there is code, and does not end before
/// it starts.
pub proof fn declarations_follow_their_annotation(s: Seq<char>, marker_line: int)
    ensures
        declaration_span(s, marker_line) matches Ok(span) ==> {
            &&& marker_line < span.start_line <= span.end_line
            &&& span.start_line <= lines(s).len()
            &&& is_code(lines(s)[span.start_line - 1])
            &&& forall|line: int|
                marker_line < line < span.start_line ==> !is_code(#[trigger] lines(s)[line - 1])
        },
{
    let ls = lines(s);
    if 0 < marker_line <= ls.len() {
        lemma_first_code(ls, marker_line);
        match first_code(ls, marker_line) {
            Some(start) => {
                let end = next_anchor(ls, start + 1, indentation(ls[marker_line - 1]));
                lemma_last_filled(ls, start, end);
            },
            None => {},
        }
    }
}

/// A construct found by its brackets starts behind its annotation, where there is code.
pub proof fn constructs_follow_their_annotation(s: Seq<char>, marker_line: int)
    ensures
        structural_span(s, marker_line) matches Ok(span) ==> {
            &&& marker_line < span.start_line <= lines(s).len()
            &&& is_code(lines(s)[span.start_line - 1])
            &&& forall|line: int|
                marker_line < line < span.start_line ==> !is_code(#[trigger] lines(s)[line - 1])
        },
{
    let ls = lines(s);
    if 0 < marker_line <= ls.len() {
        lemma_first_code(ls, marker_line);
    }
}

/// The section around a line holds that line and is no longer than a section may be.
pub proof fn sections_hold_their_line(s: Seq<char>, line: int)
    requires
        1 <= line <= lines(s).len(),
    ensures
        section_span(s, line) matches Some(span) ==> {
            &&& span.start_line <= line <= span.end_line <= lines(s).len()
            &&& span.end_line - span.start_line < MAX_SECTION_LINES
        },
{
    let ls = lines(s);
    lemma_section_start(ls, line - 1, line - 1);
    let start = section_start(ls, line - 1, line - 1);
    lemma_section_end(ls, start, line - 1);
}

proof fn lemma_section_start(ls: Seq<Seq<char>>, selected: int, start: int)
    requires
        0 <= start <= selected,
        selected - start <= MAX_SECTION_LINES / 2,
    ensures
        0 <= section_start(ls, selected, start) <= start,
        selected - section_start(ls, selected, start) <= MAX_SECTION_LINES / 2,
    decreases start,
{
    if start > 0 && selected - start < MAX_SECTION_LINES / 2 && !is_blank(ls[start - 1])
        && !is_heading(trim(ls[start])) {
        lemma_section_start(ls, selected, start - 1);
    }
}

proof fn lemma_section_end(ls: Seq<Seq<char>>, start: int, end: int)
    requires
        0 <= start <= end < ls.len(),
        end - start < MAX_SECTION_LINES,
    ensures
        end <= section_end(ls, start, end) < ls.len(),
        section_end(ls, start, end) - start < MAX_SECTION_LINES,
    decreases ls.len() - end,
{
    if end + 1 < ls.len() && end + 1 - start < MAX_SECTION_LINES && !is_blank(ls[end + 1])
        && !is_heading(trim(ls[end + 1])) {
        lemma_section_end(ls, start, end + 1);
    }
}

} // verus!

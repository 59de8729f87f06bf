//! Where what a compile says, and where the editor is, is marked on the last pages
//! that were rendered.

use vstd::prelude::*;
use vstd::slice::*;
use vstd::string::*;
use vstd::utf8::*;

use crate::bytes::{
    boundary, byte_len, chars_between, get, get_part, lemma_boundary_concat, lemma_boundary_inside,
    lemma_boundary_skip, lemma_boundary_take, lemma_encode_concat, lemma_encoded, lemma_same_bytes,
    slice,
};
use crate::preview::overlay::{
    candidates, cursor_paragraph, error_messages, marked, marked_errors, marks, messages,
    paragraph_of, pick_marks, probe_offsets, probes, spots, top_level, Diagnostic, SourceSpot,
    MAX_ANCHOR_WALK_BACK, MAX_LOCATIONS, MAX_MESSAGE_LINES,
};
use crate::preview::pins::AnnotationPin;
use crate::syntax::{enclosing_nodes, syntax_tree};
use crate::text::{chars_of, string_of, texts};

verus! {

// --------------------------------------------------------------------------- the lines

/// Whether a character ends a line: a line feed, a vertical tab, a form feed, a carriage
/// return, a next line, a line separator or a paragraph separator.
pub open spec fn ends_line(c: char) -> bool {
    ||| c == '\n'
    ||| c == '\x0b'
    ||| c == '\x0c'
    ||| c == '\r'
    ||| c == '\u{85}'
    ||| c == '\u{2028}'
    ||| c == '\u{2029}'
}

/// Whether a character ends a line.
pub fn is_line_end(c: char) -> (r: bool)
    ensures
        r == ends_line(c),
{
    c == '\n' || c == '\x0b' || c == '\x0c' || c == '\r' || c == '\u{85}' || c == '\u{2028}' || c
        == '\u{2029}'
}

/// Where the lines begin that begin after the first `n` characters of a text: after each
/// character that ends a line, but not between a carriage return and the line feed after it.
pub open spec fn line_starts_after(text: Seq<char>, n: int) -> Seq<int>
    decreases text.len() - n,
{
    if n < 0 || n >= text.len() {
        seq![]
    } else if ends_line(text[n]) && !(text[n] == '\r' && n + 1 < text.len() && text[n + 1] == '\n') {
        seq![encode_utf8(text.take(n + 1)).len() as int] + line_starts_after(text, n + 1)
    } else {
        line_starts_after(text, n + 1)
    }
}

/// Where each line of a text begins.
pub open spec fn line_starts_of(text: Seq<char>) -> Seq<int> {
    seq![0int] + line_starts_after(text, 0)
}

/// A text can be cut after any of its characters, and further on after more of them.
proof fn lemma_cut_after(text: Seq<char>, n: int)
    requires
        0 <= n < text.len(),
    ensures
        encode_utf8(text.take(n)).len() < encode_utf8(text.take(n + 1)).len(),
        boundary(text, encode_utf8(text.take(n + 1)).len() as int),
{
    let head = text.take(n + 1);
    let tail = text.skip(n + 1);
    let c = seq![text[n]];
    assert(head =~= text.take(n) + c);
    lemma_encode_concat(text.take(n), c);
    assert(encode_utf8(c).len() >= 1);
    assert(text =~= head + tail);
    lemma_encode_concat(head, tail);
    lemma_encoded(head);
    lemma_encoded(tail);
    lemma_boundary_concat(encode_utf8(head), encode_utf8(tail), encode_utf8(head).len() as int);
}

/// The lines after some characters begin after those, one after another, and where
/// characters do.
proof fn lemma_lines_after(text: Seq<char>, n: int)
    requires
        0 <= n <= text.len(),
    ensures
        ({
            let starts = line_starts_after(text, n);
            &&& forall|i: int|
                0 <= i < starts.len() ==> encode_utf8(text.take(n)).len() < (#[trigger] starts[i])
                    && boundary(text, starts[i])
            &&& forall|i: int, j: int| 0 <= i < j < starts.len() ==> starts[i] < starts[j]
        }),
    decreases text.len() - n,
{
    if n < text.len() {
        lemma_cut_after(text, n);
        lemma_lines_after(text, n + 1);
        let starts = line_starts_after(text, n);
        let rest = line_starts_after(text, n + 1);
        if starts.len() > rest.len() {
            assert forall|i: int| 0 <= i < starts.len() implies encode_utf8(text.take(n)).len()
                < (#[trigger] starts[i]) && boundary(text, starts[i]) by {
                if i > 0 {
                    assert(starts[i] == rest[i - 1]);
                }
            }
            assert forall|i: int, j: int| 0 <= i < j < starts.len() implies starts[i]
                < starts[j] by {
                assert(starts[j] == rest[j - 1]);
                if i > 0 {
                    assert(starts[i] == rest[i - 1]);
                }
            }
        }
    }
}

/// `typst_syntax::Source::len_lines` and `line_to_byte`: where each line of a text begins,
/// the first at its head, and the others after the characters that end a line.
#[verifier::external_body]
fn source_lines(text: &str) -> (r: Vec<usize>)
    ensures
        r@.map_values(|n: usize| n as int) == line_starts_of(text@),
{
    let source = typst_syntax::Source::detached(text);
    (0..source.len_lines()).filter_map(|line| source.line_to_byte(line)).collect()
}

/// Where each line of a text begins. The first begins the text, each later one further on,
/// and all where a character does.
fn line_starts(text: &str) -> (r: Vec<usize>)
    ensures
        r@.map_values(|n: usize| n as int) == line_starts_of(text@),
        r@.len() > 0 && r@[0] == 0,
        forall|i: int| 0 <= i < r@.len() ==> boundary(text@, #[trigger] r@[i] as int),
        forall|i: int, j: int| 0 <= i < j < r@.len() ==> r@[i] < r@[j],
{
    let r: Vec<usize> = source_lines(text);
    proof {
        let all = line_starts_of(text@);
        let rest = line_starts_after(text@, 0);
        lemma_encoded(text@);
        lemma_lines_after(text@, 0);
        assert(r@.map_values(|n: usize| n as int).len() == r@.len());
        assert(r@[0] == all[0]);
        assert forall|i: int| 0 <= i < r@.len() implies boundary(text@, #[trigger] r@[i] as int) by {
            assert(r@[i] == all[i]);
            if i > 0 {
                assert(all[i] == rest[i - 1]);
            }
        }
        assert forall|i: int, j: int| 0 <= i < j < r@.len() implies r@[i] < r@[j] by {
            assert(r@[i] == all[i] && r@[j] == all[j]);
            assert(all[j] == rest[j - 1]);
            if i > 0 {
                assert(all[i] == rest[i - 1]);
            }
        }
    }
    r
}

/// Which of the first of some lines a place is on: the last that begins at or before
/// it.
pub open spec fn line_upto(starts: Seq<int>, n: nat, at: int) -> int
    decreases n,
{
    if n == 0 || n > starts.len() {
        0
    } else if starts[n - 1] <= at {
        n - 1
    } else {
        line_upto(starts, (n - 1) as nat, at)
    }
}

/// Which line a place is on, and how many characters into it.
pub open spec fn line_and_column(text: Seq<char>, at: int) -> Option<(int, int)> {
    if boundary(text, at) {
        let starts = line_starts_of(text);
        let line = line_upto(starts, starts.len(), at);
        Some((line, chars_between(text, starts[line], at).len() as int))
    } else {
        None
    }
}

/// Which of some lines a place is on.
fn find_line(starts: &Vec<usize>, at: usize) -> (r: usize)
    requires
        starts@.len() > 0 && starts@[0] == 0,
    ensures
        r < starts@.len(),
        starts@[r as int] <= at,
        r == line_upto(
            starts@.map_values(|n: usize| n as int),
            starts@.len(),
            at as int,
        ),
{
    let ghost all = starts@.map_values(|n: usize| n as int);
    let mut n: usize = starts.len();
    while starts[n - 1] > at
        invariant
            0 < n <= starts@.len(),
            starts@[0] == 0,
            all == starts@.map_values(|n: usize| n as int),
            line_upto(all, n as nat, at as int) == line_upto(all, starts@.len(), at as int),
        decreases n,
    {
        assert(all[n - 1] == starts@[n - 1]);
        n = n - 1;
    }
    assert(all[n - 1] == starts@[n - 1]);
    n - 1
}

/// A place in a file, as it is found and as it is shown. None where it is no place to
/// cut the text at.
pub fn spot_at(path: &str, file: usize, text: &str, cursor: usize) -> (r: Option<SourceSpot>)
    ensures
        match line_and_column(text@, cursor as int) {
            Some((line, column)) => r is Some && r->0.path@ == path@ && r->0.file == file
                && r->0.cursor == cursor && r->0.line == line && r->0.column == column,
            None => r is None,
        },
{
    if !text.is_char_boundary(cursor) {
        return None;
    }
    let starts: Vec<usize> = line_starts(text);
    let line: usize = find_line(&starts, cursor);
    let ghost all = line_starts_of(text@);
    assert(all[line as int] == starts@[line as int]);
    assert(all.len() == starts@.len());
    let column: usize = chars_of(slice(text, starts[line], cursor)).len();
    Some(SourceSpot { path: path.to_owned(), file, cursor, line, column })
}

/// Where a line ends: where the next begins, or with the text.
pub open spec fn line_end(text: Seq<char>, starts: Seq<int>, line: int) -> int {
    if line + 1 < starts.len() {
        starts[line + 1]
    } else {
        encode_utf8(text).len() as int
    }
}

/// The text of a line.
pub open spec fn line_text(text: Seq<char>, line: int) -> Seq<char> {
    let starts = line_starts_of(text);
    chars_between(text, starts[line], line_end(text, starts, line))
}

/// The text of a line, and where it begins.
fn line_of<'a>(text: &'a str, starts: &Vec<usize>, line: usize) -> (r: (&'a str, usize))
    requires
        line < starts@.len(),
        starts@.map_values(|n: usize| n as int) == line_starts_of(text@),
        forall|i: int| 0 <= i < starts@.len() ==> boundary(text@, #[trigger] starts@[i] as int),
        forall|i: int, j: int| 0 <= i < j < starts@.len() ==> starts@[i] < starts@[j],
    ensures
        r.0@ == line_text(text@, line as int),
        r.1 == line_starts_of(text@)[line as int],
        r.1 + encode_utf8(r.0@).len() <= encode_utf8(text@).len(),
        boundary(text@, r.1 as int),
{
    let ghost all = starts@.map_values(|n: usize| n as int);
    assert(all[line as int] == starts@[line as int]);
    let total: usize = byte_len(text);
    let n: usize = starts.len();
    let start: usize = starts[line];
    let end: usize = if line < n - 1 {
        assert(all[line + 1] == starts@[line + 1]);
        starts[line + 1]
    } else {
        total
    };
    proof {
        lemma_encoded(text@);
        lemma_boundary_inside(encode_utf8(text@), start as int);
        lemma_boundary_inside(encode_utf8(text@), end as int);
    }
    (slice(text, start, end), start)
}

/// The place at a line and a number of characters into it, or the line's end where it
/// has fewer.
pub open spec fn place_at(text: Seq<char>, line: int, column: int) -> Option<int> {
    let starts = line_starts_of(text);
    if 0 <= line < starts.len() {
        let t = line_text(text, line);
        let n = if column <= t.len() {
            column
        } else {
            t.len() as int
        };
        Some(starts[line] + encode_utf8(t.take(n)).len())
    } else {
        None
    }
}

/// The place at a line and a number of characters into it.
pub fn line_column_to_byte(text: &str, line: usize, column: usize) -> (r: Option<usize>)
    ensures
        match r {
            Some(at) => place_at(text@, line as int, column as int) == Some(at as int),
            None => place_at(text@, line as int, column as int) is None,
        },
{
    let starts: Vec<usize> = line_starts(text);
    let ghost all = line_starts_of(text@);
    assert(all.len() == starts@.len());
    if line >= starts.len() {
        return None;
    }
    let total: usize = byte_len(text);
    let (t, start): (&str, usize) = line_of(text, &starts, line);
    let chars: Vec<char> = chars_of(t);
    let n: usize = if column <= chars.len() {
        column
    } else {
        chars.len()
    };
    let head: String = string_of(slice_subrange(chars.as_slice(), 0, n));
    proof {
        assert(head@ =~= t@.take(n as int));
        assert(t@ =~= t@.take(n as int) + t@.skip(n as int));
        lemma_encode_concat(t@.take(n as int), t@.skip(n as int));
    }
    Some(start + byte_len(head.as_str()))
}

// ------------------------------------------------------------------- where places land

/// A place on a page.
#[derive(Debug, Clone, Copy, PartialEq, Eq, Structural)]
pub struct PagePos {
    /// The page, counted from one.
    pub page: usize,
    /// How far from the left.
    pub x: i64,
    /// How far from the top.
    pub y: i64,
}

/// A place in a file that landed on a page.
#[derive(Debug, Clone, Copy, PartialEq, Eq, Structural)]
pub struct Jump {
    /// The file.
    pub file: usize,
    /// The place in it.
    pub cursor: usize,
    /// Where it landed.
    pub to: PagePos,
}

/// Where a place landed, of the jumps from one on.
pub open spec fn landing_from(jumps: Seq<Jump>, file: usize, cursor: int, from: int) -> Option<PagePos>
    decreases jumps.len() - from,
{
    if from < 0 || from >= jumps.len() {
        None
    } else if jumps[from].file == file && jumps[from].cursor == cursor {
        Some(jumps[from].to)
    } else {
        landing_from(jumps, file, cursor, from + 1)
    }
}

/// Where a place landed, if it did.
pub open spec fn landing(jumps: Seq<Jump>, file: usize, cursor: int) -> Option<PagePos> {
    landing_from(jumps, file, cursor, 0)
}

/// Where the first of some places that landed did, from one on.
pub open spec fn first_landing(jumps: Seq<Jump>, file: usize, places: Seq<int>, from: int) -> Option<
    PagePos,
>
    decreases places.len() - from,
{
    if from < 0 || from >= places.len() {
        None
    } else {
        match landing(jumps, file, places[from]) {
            Some(p) => Some(p),
            None => first_landing(jumps, file, places, from + 1),
        }
    }
}

/// Where a place landed, if it did.
fn find_landing(jumps: &Vec<Jump>, file: usize, cursor: usize) -> (r: Option<PagePos>)
    ensures
        r == landing(jumps@, file, cursor as int),
{
    let mut i: usize = 0;
    while i < jumps.len()
        invariant
            i <= jumps@.len(),
            landing_from(jumps@, file, cursor as int, i as int) == landing(
                jumps@,
                file,
                cursor as int,
            ),
        decreases jumps@.len() - i,
    {
        if jumps[i].file == file && jumps[i].cursor == cursor {
            return Some(jumps[i].to);
        }
        i = i + 1;
    }
    None
}

/// Where the first of some places that landed did.
fn find_first_landing(jumps: &Vec<Jump>, file: usize, places: &Vec<usize>) -> (r: Option<PagePos>)
    ensures
        r == first_landing(jumps@, file, places@.map_values(|n: usize| n as int), 0),
{
    let ghost all = places@.map_values(|n: usize| n as int);
    let mut i: usize = 0;
    while i < places.len()
        invariant
            i <= places@.len(),
            all == places@.map_values(|n: usize| n as int),
            first_landing(jumps@, file, all, i as int) == first_landing(jumps@, file, all, 0),
        decreases places@.len() - i,
    {
        assert(all[i as int] == places@[i as int]);
        if let Some(p) = find_landing(jumps, file, places[i]) {
            return Some(p);
        }
        i = i + 1;
    }
    None
}

/// How many places of a line are tried.
pub const LINE_PROBES: usize = 24;

/// How many places from either end of a paragraph are tried.
pub const PARAGRAPH_PROBES: usize = 40;

/// The places of a line that are tried.
pub open spec fn line_probes(text: Seq<char>, line: int) -> Seq<int> {
    let starts = line_starts_of(text);
    if 0 <= line < starts.len() {
        probes(line_text(text, line), starts[line], LINE_PROBES as int, false)
    } else {
        seq![]
    }
}

/// The places that are tried above a place, nearest line first: those of its own line
/// and of `left` lines before.
pub open spec fn above_places(text: Seq<char>, line: int, left: nat) -> Seq<int>
    decreases left,
{
    if line <= 0 || left == 0 {
        line_probes(text, line)
    } else {
        line_probes(text, line) + above_places(text, line - 1, (left - 1) as nat)
    }
}

/// The places that are tried below a place, nearest line first: those of `left` lines
/// from one on.
pub open spec fn below_places(text: Seq<char>, line: int, left: nat) -> Seq<int>
    decreases left,
{
    if left == 0 {
        seq![]
    } else {
        line_probes(text, line) + below_places(text, line + 1, (left - 1) as nat)
    }
}

/// No line behind the last is tried.
proof fn lemma_below_the_end(text: Seq<char>, line: int, left: nat)
    requires
        line >= line_starts_of(text).len(),
    ensures
        below_places(text, line, left) == Seq::<int>::empty(),
    decreases left,
{
    if left > 0 {
        lemma_below_the_end(text, line + 1, (left - 1) as nat);
    }
}

/// Adds the places of a line that are tried.
fn add_probes(out: &mut Vec<usize>, text: &str, starts: &Vec<usize>, line: usize)
    requires
        starts@.map_values(|n: usize| n as int) == line_starts_of(text@),
        forall|i: int| 0 <= i < starts@.len() ==> boundary(text@, #[trigger] starts@[i] as int),
        forall|i: int, j: int| 0 <= i < j < starts@.len() ==> starts@[i] < starts@[j],
    ensures
        final(out)@.map_values(|n: usize| n as int) == old(out)@.map_values(|n: usize| n as int)
            + line_probes(text@, line as int),
{
    let ghost all = starts@.map_values(|n: usize| n as int);
    let ghost before = out@.map_values(|n: usize| n as int);
    assert(all.len() == starts@.len());
    if line >= starts.len() {
        assert(before + line_probes(text@, line as int) =~= before);
        return ;
    }
    let total: usize = byte_len(text);
    let (t, start): (&str, usize) = line_of(text, starts, line);
    let mut more: Vec<usize> = probe_offsets(t, start, LINE_PROBES, false);
    let ghost was = out@;
    let ghost new = more@;
    out.append(&mut more);
    assert(out@.map_values(|n: usize| n as int) =~= before + new.map_values(|n: usize| n as int));
}

/// The places that are tried above a place on a line, nearest first.
pub fn places_above(text: &str, line: usize) -> (r: Vec<usize>)
    ensures
        r@.map_values(|n: usize| n as int) == above_places(
            text@,
            line as int,
            MAX_ANCHOR_WALK_BACK as nat,
        ),
{
    let starts: Vec<usize> = line_starts(text);
    let mut out: Vec<usize> = Vec::new();
    let mut at: usize = line;
    let mut left: usize = MAX_ANCHOR_WALK_BACK;
    let ghost want = above_places(text@, line as int, MAX_ANCHOR_WALK_BACK as nat);
    assert(out@.map_values(|n: usize| n as int) + want =~= want);
    while at > 0 && left > 0
        invariant
            starts@.map_values(|n: usize| n as int) == line_starts_of(text@),
            forall|i: int| 0 <= i < starts@.len() ==> boundary(text@, #[trigger] starts@[i] as int),
            forall|i: int, j: int| 0 <= i < j < starts@.len() ==> starts@[i] < starts@[j],
            out@.map_values(|n: usize| n as int) + above_places(text@, at as int, left as nat)
                == want,
        decreases left,
    {
        let ghost before = out@.map_values(|n: usize| n as int);
        add_probes(&mut out, text, &starts, at);
        at = at - 1;
        left = left - 1;
        assert(out@.map_values(|n: usize| n as int) + above_places(text@, at as int, left as nat)
            =~= before + above_places(text@, at + 1, (left + 1) as nat));
    }
    add_probes(&mut out, text, &starts, at);
    out
}

/// The places that are tried below a place on a line, nearest first.
pub fn places_below(text: &str, line: usize) -> (r: Vec<usize>)
    ensures
        r@.map_values(|n: usize| n as int) == below_places(
            text@,
            line + 1,
            MAX_ANCHOR_WALK_BACK as nat,
        ),
{
    let starts: Vec<usize> = line_starts(text);
    let mut out: Vec<usize> = Vec::new();
    let count: usize = starts.len();
    let ghost want = below_places(text@, line + 1, MAX_ANCHOR_WALK_BACK as nat);
    assert(out@.map_values(|n: usize| n as int) + want =~= want);
    assert(line_starts_of(text@).len() == count);
    if line >= count {
        proof {
            lemma_below_the_end(text@, line + 1, MAX_ANCHOR_WALK_BACK as nat);
        }
        return out;
    }
    let mut at: usize = line + 1;
    let mut left: usize = MAX_ANCHOR_WALK_BACK;
    while at < count && left > 0
        invariant
            at <= count,
            count == starts@.len(),
            starts@.map_values(|n: usize| n as int) == line_starts_of(text@),
            forall|i: int| 0 <= i < starts@.len() ==> boundary(text@, #[trigger] starts@[i] as int),
            forall|i: int, j: int| 0 <= i < j < starts@.len() ==> starts@[i] < starts@[j],
            out@.map_values(|n: usize| n as int) + below_places(text@, at as int, left as nat)
                == want,
        decreases left,
    {
        let ghost before = out@.map_values(|n: usize| n as int);
        add_probes(&mut out, text, &starts, at);
        at = at + 1;
        left = left - 1;
        assert(out@.map_values(|n: usize| n as int) + below_places(text@, at as int, left as nat)
            =~= before + below_places(text@, at - 1, (left + 1) as nat));
    }
    proof {
        if left > 0 {
            lemma_below_the_end(text@, at as int, left as nat);
        }
        assert(out@.map_values(|n: usize| n as int) + Seq::<int>::empty() =~= out@.map_values(
            |n: usize| n as int,
        ));
    }
    out
}

// ----------------------------------------------------------------- where it is marked

/// A place on the pages that is marked.
#[derive(Debug, Clone, Copy, PartialEq, Eq, Structural)]
pub struct OverlayLocation {
    /// The page, counted from one.
    pub page: usize,
    /// How far from the left.
    pub x: i64,
    /// How far from the top.
    pub y: i64,
    /// Where it ends, where it is a band that brackets what could not be found.
    pub y_end: Option<i64>,
    /// How wide the page is.
    pub page_width: i64,
    /// How high the page is.
    pub page_height: i64,
}

/// A place on a page, with how large the page is.
pub open spec fn location_v(pos: PagePos, sizes: Seq<(i64, i64)>) -> Option<OverlayLocation> {
    if 1 <= pos.page <= sizes.len() {
        Some(
            OverlayLocation {
                page: pos.page,
                x: pos.x,
                y: pos.y,
                y_end: None,
                page_width: sizes[pos.page - 1].0,
                page_height: sizes[pos.page - 1].1,
            },
        )
    } else {
        None
    }
}

/// A place that may be none on a page, with how large the page is.
pub open spec fn located(pos: Option<PagePos>, sizes: Seq<(i64, i64)>) -> Option<OverlayLocation> {
    match pos {
        Some(pos) => location_v(pos, sizes),
        None => None,
    }
}

/// A place on a page, with how large the page is.
pub fn location_of(pos: PagePos, sizes: &Vec<(i64, i64)>) -> (r: Option<OverlayLocation>)
    ensures
        r == location_v(pos, sizes@),
{
    if pos.page == 0 || pos.page > sizes.len() {
        return None;
    }
    let size: (i64, i64) = sizes[pos.page - 1];
    Some(
        OverlayLocation {
            page: pos.page,
            x: pos.x,
            y: pos.y,
            y_end: None,
            page_width: size.0,
            page_height: size.1,
        },
    )
}

/// The band from a place above to one below, where they are on one page and in order.
pub open spec fn banded(above: OverlayLocation, below: Option<OverlayLocation>) -> OverlayLocation {
    OverlayLocation {
        y_end: match below {
            Some(end) if end.page == above.page && end.y > above.y => Some(end.y),
            _ => None,
        },
        ..above
    }
}

/// Where a place in a file is marked: where it landed, or else the band between the
/// nearest places above and below that did.
pub open spec fn resolved(
    text: Seq<char>,
    file: usize,
    cursor: int,
    line: int,
    jumps: Seq<Jump>,
    sizes: Seq<(i64, i64)>,
) -> Option<OverlayLocation> {
    match landing(jumps, file, cursor) {
        Some(p) => location_v(p, sizes),
        None => {
            let walk = MAX_ANCHOR_WALK_BACK as nat;
            let above = first_landing(jumps, file, above_places(text, line, walk), 0);
            let below = first_landing(jumps, file, below_places(text, line + 1, walk), 0);
            match above {
                Some(p) => match location_v(p, sizes) {
                    Some(loc) => Some(banded(loc, located(below, sizes))),
                    None => None,
                },
                None => located(below, sizes),
            }
        },
    }
}

/// Where a place in a file is marked.
pub fn resolve_location(
    text: &str,
    file: usize,
    cursor: usize,
    line: usize,
    jumps: &Vec<Jump>,
    sizes: &Vec<(i64, i64)>,
) -> (r: Option<OverlayLocation>)
    ensures
        r == resolved(text@, file, cursor as int, line as int, jumps@, sizes@),
{
    if let Some(p) = find_landing(jumps, file, cursor) {
        return location_of(p, sizes);
    }
    let above: Option<PagePos> = find_first_landing(jumps, file, &places_above(text, line));
    let below: Option<PagePos> = find_first_landing(jumps, file, &places_below(text, line));
    let end: Option<OverlayLocation> = match below {
        Some(p) => location_of(p, sizes),
        None => None,
    };
    match above {
        Some(p) => match location_of(p, sizes) {
            Some(loc) => {
                let y_end: Option<i64> = match end {
                    Some(end) => if end.page == loc.page && end.y > loc.y {
                        Some(end.y)
                    } else {
                        None
                    },
                    None => None,
                };
                Some(
                    OverlayLocation {
                        page: loc.page,
                        x: loc.x,
                        y: loc.y,
                        y_end,
                        page_width: loc.page_width,
                        page_height: loc.page_height,
                    },
                )
            },
            None => None,
        },
        None => end,
    }
}


/// Where the first of some places that can be marked is, from one on.
pub open spec fn first_resolved(
    list: Seq<(usize, usize, usize)>,
    files: Seq<Seq<char>>,
    jumps: Seq<Jump>,
    sizes: Seq<(i64, i64)>,
    from: int,
) -> Option<OverlayLocation>
    decreases list.len() - from,
{
    if from < 0 || from >= list.len() {
        None
    } else {
        let (file, cursor, line) = list[from];
        let here = if file < files.len() {
            resolved(files[file as int], file, cursor as int, line as int, jumps, sizes)
        } else {
            None
        };
        match here {
            Some(loc) => Some(loc),
            None => first_resolved(list, files, jumps, sizes, from + 1),
        }
    }
}

/// Where a diagnostic is marked.
fn mark_one(
    d: &Diagnostic,
    files: &Vec<String>,
    jumps: &Vec<Jump>,
    sizes: &Vec<(i64, i64)>,
) -> (r: Option<OverlayLocation>)
    ensures
        r == first_resolved(spots(*d), texts(files@), jumps@, sizes@, 0),
{
    let list: Vec<(usize, usize, usize)> = candidates(d);
    let ghost all = texts(files@);
    let mut i: usize = 0;
    while i < list.len()
        invariant
            i <= list@.len(),
            list@ == spots(*d),
            all == texts(files@),
            first_resolved(list@, all, jumps@, sizes@, i as int) == first_resolved(
                list@,
                all,
                jumps@,
                sizes@,
                0,
            ),
        decreases list@.len() - i,
    {
        let (file, cursor, line): (usize, usize, usize) = list[i];
        assert(all.len() == files@.len());
        if file < files.len() {
            assert(all[file as int] == files@[file as int]@);
            let here: Option<OverlayLocation> = resolve_location(
                files[file].as_str(),
                file,
                cursor,
                line,
                jumps,
                sizes,
            );
            if here.is_some() {
                return here;
            }
        }
        i = i + 1;
    }
    None
}

/// Where the last edit is marked. One behind the end of the file is taken for its end.
pub open spec fn edit_mark(
    last_edit: Option<(usize, usize)>,
    files: Seq<Seq<char>>,
    jumps: Seq<Jump>,
    sizes: Seq<(i64, i64)>,
) -> Option<OverlayLocation> {
    match last_edit {
        Some((file, offset)) if file < files.len() => {
            let text = files[file as int];
            let total = encode_utf8(text).len();
            let cursor = if offset <= total {
                offset as int
            } else {
                total as int
            };
            let starts = line_starts_of(text);
            resolved(text, file, cursor, line_upto(starts, starts.len(), cursor), jumps, sizes)
        },
        _ => None,
    }
}

/// Where the last edit is marked.
fn mark_edit(
    last_edit: Option<(usize, usize)>,
    files: &Vec<String>,
    jumps: &Vec<Jump>,
    sizes: &Vec<(i64, i64)>,
) -> (r: Option<OverlayLocation>)
    ensures
        r == edit_mark(last_edit, texts(files@), jumps@, sizes@),
{
    let ghost all = texts(files@);
    assert(all.len() == files@.len());
    match last_edit {
        Some((file, offset)) => {
            if file >= files.len() {
                return None;
            }
            assert(all[file as int] == files@[file as int]@);
            let text: &str = files[file].as_str();
            let total: usize = byte_len(text);
            let cursor: usize = if offset <= total {
                offset
            } else {
                total
            };
            let starts: Vec<usize> = line_starts(text);
            assert(line_starts_of(text@).len() == starts@.len());
            resolve_location(text, file, cursor, find_line(&starts, cursor), jumps, sizes)
        },
        None => None,
    }
}

/// What the overlay shows.
#[derive(Debug)]
pub struct OverlayPayload {
    /// Whether the last compile succeeded.
    pub ok: bool,
    /// What it says, cut to a few lines.
    pub messages: Vec<String>,
    /// Where that is marked.
    pub locations: Vec<OverlayLocation>,
    /// The paragraph the editor's cursor is in.
    pub cursor: Option<BlockExtent>,
    /// Whether colours are inverted for a light document seen in the dark.
    pub smart_invert: bool,
    /// Whether the document is dark, where that is known.
    pub doc_dark: Option<bool>,
    /// The annotations.
    pub annotations: Vec<AnnotationPin>,
}

impl Default for OverlayPayload {
    fn default() -> (r: Self)
        ensures
            r.ok,
            r.messages@.len() == 0,
            r.locations@.len() == 0,
            r.cursor is None,
            !r.smart_invert,
            r.doc_dark is None,
            r.annotations@.len() == 0,
    {
        OverlayPayload {
            ok: true,
            messages: Vec::new(),
            locations: Vec::new(),
            cursor: None,
            smart_invert: false,
            doc_dark: None,
            annotations: Vec::new(),
        }
    }
}

/// Where the errors of a compile are marked, each as far as it can be.
pub open spec fn error_marks(
    list: Seq<Diagnostic>,
    files: Seq<Seq<char>>,
    jumps: Seq<Jump>,
    sizes: Seq<(i64, i64)>,
) -> Seq<Option<OverlayLocation>> {
    marked(list).map_values(
        |i: int| first_resolved(spots(list[i]), files, jumps, sizes, 0),
    )
}

/// What the overlay shows of a compile. `files` are the texts of the files by number,
/// `jumps` where the places in them that were asked for landed on the last pages that
/// were rendered, and `sizes` how large those are: none where none ever were.
pub fn diagnostics_payload(
    ok: bool,
    list: &Vec<Diagnostic>,
    files: &Vec<String>,
    jumps: &Vec<Jump>,
    sizes: &Vec<(i64, i64)>,
    last_edit: Option<(usize, usize)>,
) -> (r: OverlayPayload)
    requires
        list@.len() < usize::MAX,
    ensures
        r.ok == ok,
        texts(r.messages@) == if ok {
            seq![]
        } else {
            messages(list@)
        },
        r.messages@.len() <= MAX_MESSAGE_LINES,
        r.locations@ == if ok {
            seq![]
        } else {
            marks(
                error_marks(list@, texts(files@), jumps@, sizes@),
                edit_mark(last_edit, texts(files@), jumps@, sizes@),
            )
        },
        r.locations@.len() <= MAX_LOCATIONS,
        r.cursor is None,
        !r.smart_invert,
        r.doc_dark is None,
        r.annotations@.len() == 0,
{
    let mut out: OverlayPayload = OverlayPayload {
        ok,
        messages: Vec::new(),
        locations: Vec::new(),
        cursor: None,
        smart_invert: false,
        doc_dark: None,
        annotations: Vec::new(),
    };
    if ok {
        assert(texts(out.messages@) =~= seq![]);
        return out;
    }
    let which: Vec<usize> = marked_errors(list);
    let ghost places = which@.map_values(|i: usize| i as int);
    let ghost all = texts(files@);
    let ghost want = error_marks(list@, all, jumps@, sizes@);
    proof {
        lemma_marked_inside(list@);
    }
    let mut found: Vec<Option<OverlayLocation>> = Vec::new();
    let mut i: usize = 0;
    while i < which.len()
        invariant
            i <= which@.len(),
            places == which@.map_values(|i: usize| i as int),
            places == marked(list@),
            all == texts(files@),
            want == error_marks(list@, all, jumps@, sizes@),
            forall|k: int| 0 <= k < places.len() ==> 0 <= #[trigger] places[k] < list@.len(),
            found@ =~= want.take(i as int),
        decreases which@.len() - i,
    {
        assert(places[i as int] == which@[i as int]);
        let at: Option<OverlayLocation> = mark_one(&list[which[i]], files, jumps, sizes);
        found.push(at);
        assert(want[i as int] == at);
        assert(want.take(i + 1) =~= want.take(i as int).push(at));
        i = i + 1;
    }
    assert(want.take(want.len() as int) =~= want);
    out.messages = error_messages(list);
    out.locations = pick_marks(&found, mark_edit(last_edit, files, jumps, sizes));
    out
}

/// The diagnostics that are marked are among those there are.
proof fn lemma_marked_inside(list: Seq<Diagnostic>)
    ensures
        forall|k: int|
            0 <= k < marked(list).len() ==> 0 <= #[trigger] marked(list)[k] < list.len(),
    decreases list.len(),
{
    if list.len() > 0 {
        let before = marked(list.drop_last());
        lemma_marked_inside(list.drop_last());
        assert forall|k: int| 0 <= k < marked(list).len() implies 0 <= #[trigger] marked(list)[k]
            < list.len() by {
            if k < before.len() {
                assert(marked(list)[k] == before[k]);
            }
        }
    }
}

// -------------------------------------------------------------- the cursor's paragraph

/// How far down a page a block reaches.
#[derive(Debug, Clone, Copy, PartialEq, Eq, Structural)]
pub struct BlockExtent {
    /// The page, counted from one.
    pub page: usize,
    /// Where it begins from the left.
    pub x0: i64,
    /// Its top.
    pub y0: i64,
    /// Its bottom.
    pub y1: i64,
    /// How wide the page is.
    pub page_width: i64,
    /// How high the page is.
    pub page_height: i64,
}

/// How far above a line its letters reach, in points.
pub const ASCENT: i64 = 12;

/// How far below a line its letters reach, in points.
pub const DESCENT: i64 = 6;

/// The extent of a block on the page a cursor is on, from where its first and its last
/// letters are: what is on other pages is cut off.
pub open spec fn extent(
    point: OverlayLocation,
    start: OverlayLocation,
    end: OverlayLocation,
    unit: u32,
) -> BlockExtent {
    let top = if start.page == point.page {
        start.y as int
    } else {
        0
    };
    let bottom = if end.page == point.page {
        end.y as int
    } else if start.page == point.page {
        start.page_height as int
    } else {
        point.page_height as int
    };
    BlockExtent {
        page: point.page,
        x0: if start.x <= end.x {
            start.x
        } else {
            end.x
        },
        y0: (if top - ASCENT * unit > 0 {
            top - ASCENT * unit
        } else {
            0
        }) as i64,
        y1: (if bottom + DESCENT * unit < point.page_height {
            bottom + DESCENT * unit
        } else {
            point.page_height as int
        }) as i64,
        page_width: point.page_width,
        page_height: point.page_height,
    }
}

/// The extent of a block on the page a cursor is on.
pub fn block_extent(
    point: OverlayLocation,
    start: OverlayLocation,
    end: OverlayLocation,
    unit: u32,
) -> (r: BlockExtent)
    ensures
        r == extent(point, start, end, unit),
{
    let top: i64 = if start.page == point.page {
        start.y
    } else {
        0
    };
    let bottom: i64 = if end.page == point.page {
        end.y
    } else if start.page == point.page {
        start.page_height
    } else {
        point.page_height
    };
    let up: i64 = 12 * (unit as i64);
    let low: i128 = (bottom as i128) + 6 * (unit as i128);
    let y0: i64 = if top > up {
        top - up
    } else {
        0
    };
    let y1: i64 = if low < point.page_height as i128 {
        low as i64
    } else {
        point.page_height
    };
    BlockExtent {
        page: point.page,
        x0: if start.x <= end.x {
            start.x
        } else {
            end.x
        },
        y0,
        y1,
        page_width: point.page_width,
        page_height: point.page_height,
    }
}

/// Where the paragraph around a cursor is, in a file.
pub open spec fn around_cursor(text: Seq<char>, cursor: int) -> Option<(int, int)> {
    paragraph_of(enclosing_nodes(text, cursor), top_level(syntax_tree(text)))
}

/// The extent of the paragraph around a cursor, where that can be told from the letters
/// near its ends.
pub open spec fn cursor_extent(
    text: Seq<char>,
    file: usize,
    cursor: int,
    jumps: Seq<Jump>,
    sizes: Seq<(i64, i64)>,
    unit: u32,
) -> Option<BlockExtent> {
    match around_cursor(text, cursor) {
        Some((from, to)) if get_part(text, from, to) is Some => {
            let part = chars_between(text, from, to);
            let count = PARAGRAPH_PROBES as int;
            let point = located(landing(jumps, file, cursor), sizes);
            let start = located(
                first_landing(jumps, file, probes(part, from, count, false), 0),
                sizes,
            );
            let end = located(
                first_landing(jumps, file, probes(part, from, count, true), 0),
                sizes,
            );
            match (point, start, end) {
                (Some(point), Some(start), Some(end)) => Some(extent(point, start, end, unit)),
                _ => None,
            }
        },
        _ => None,
    }
}

/// The places that are tried for the ends of the paragraph around a cursor: for its
/// first letters, and for its last.
pub fn paragraph_places(text: &str, cursor: usize) -> (r: Option<(Vec<usize>, Vec<usize>)>)
    ensures
        match around_cursor(text@, cursor as int) {
            Some((from, to)) if get_part(text@, from, to) is Some => {
                let part = chars_between(text@, from, to);
                let count = PARAGRAPH_PROBES as int;
                &&& r is Some
                &&& (r->0).0@.map_values(|n: usize| n as int) == probes(part, from, count, false)
                &&& (r->0).1@.map_values(|n: usize| n as int) == probes(part, from, count, true)
            },
            _ => r is None,
        },
{
    match cursor_paragraph(text, cursor) {
        Some(range) => match get(text, range.start, range.end) {
            Some(part) => {
                proof {
                    lemma_encoded(text@);
                    lemma_boundary_inside(encode_utf8(text@), range.end as int);
                }
                let total: usize = byte_len(text);
                Some(
                    (
                        probe_offsets(part, range.start, PARAGRAPH_PROBES, false),
                        probe_offsets(part, range.start, PARAGRAPH_PROBES, true),
                    ),
                )
            },
            None => None,
        },
        None => None,
    }
}

/// The extent of the paragraph around the editor's cursor, on the last pages that were
/// rendered. Only a cursor on text has one.
pub fn cursor_overlay(
    text: &str,
    file: usize,
    line: usize,
    column: usize,
    jumps: &Vec<Jump>,
    sizes: &Vec<(i64, i64)>,
    unit: u32,
) -> (r: Option<BlockExtent>)
    ensures
        r == match place_at(text@, line as int, column as int) {
            Some(cursor) => cursor_extent(text@, file, cursor, jumps@, sizes@, unit),
            None => None,
        },
{
    let cursor: usize = match line_column_to_byte(text, line, column) {
        Some(cursor) => cursor,
        None => {
            return None;
        },
    };
    let (first, last): (Vec<usize>, Vec<usize>) = match paragraph_places(text, cursor) {
        Some(places) => places,
        None => {
            return None;
        },
    };
    let point: PagePos = match find_landing(jumps, file, cursor) {
        Some(p) => p,
        None => {
            return None;
        },
    };
    let start: PagePos = match find_first_landing(jumps, file, &first) {
        Some(p) => p,
        None => {
            return None;
        },
    };
    let end: PagePos = match find_first_landing(jumps, file, &last) {
        Some(p) => p,
        None => {
            return None;
        },
    };
    match (location_of(point, sizes), location_of(start, sizes), location_of(end, sizes)) {
        (Some(point), Some(start), Some(end)) => Some(block_extent(point, start, end, unit)),
        _ => None,
    }
}

// ---------------------------------------------------------------------------- the laws

/// What is marked is on a page that is there, and a band on it goes downward.
pub proof fn marks_are_on_pages(
    text: Seq<char>,
    file: usize,
    cursor: int,
    line: int,
    jumps: Seq<Jump>,
    sizes: Seq<(i64, i64)>,
)
    ensures
        resolved(text, file, cursor, line, jumps, sizes) matches Some(loc) ==> {
            &&& 1 <= loc.page <= sizes.len()
            &&& (loc.page_width, loc.page_height) == sizes[loc.page - 1]
            &&& loc.y_end matches Some(end) ==> loc.y < end
        },
{
}

/// A place that landed is marked right there, and no band around it.
pub proof fn an_exact_place_is_marked_exactly(
    text: Seq<char>,
    file: usize,
    cursor: int,
    line: int,
    jumps: Seq<Jump>,
    sizes: Seq<(i64, i64)>,
)
    requires
        landing(jumps, file, cursor) is Some,
    ensures
        resolved(text, file, cursor, line, jumps, sizes) == location_v(
            landing(jumps, file, cursor)->0,
            sizes,
        ),
{
}

/// A paragraph's extent begins on the page and ends on it.
pub proof fn an_extent_stays_on_its_page(
    point: OverlayLocation,
    start: OverlayLocation,
    end: OverlayLocation,
    unit: u32,
)
    ensures
        extent(point, start, end, unit).page == point.page,
        0 <= extent(point, start, end, unit).y0,
        extent(point, start, end, unit).y1 <= point.page_height,
{
}

// ------------------------------------------------------- where a place is written

/// A stretch between two boundaries is the encoding of its characters.
proof fn lemma_stretch(text: Seq<char>, from: int, to: int)
    requires
        boundary(text, from),
        boundary(text, to),
        0 <= from <= to <= encode_utf8(text).len(),
    ensures
        encode_utf8(chars_between(text, from, to)) == encode_utf8(text).subrange(from, to),
{
    let bytes = encode_utf8(text);
    lemma_encoded(text);
    lemma_boundary_take(bytes, from, to);
    lemma_boundary_skip(bytes.subrange(0, to), from, to);
    assert(bytes.subrange(0, to).subrange(from, to) =~= bytes.subrange(from, to));
    decode_utf8_encode_utf8(bytes.subrange(from, to));
}

/// Every line starts on a boundary.
proof fn lemma_starts(text: Seq<char>, n: int)
    requires
        0 <= n,
    ensures
        forall|i: int|
            0 <= i < line_starts_after(text, n).len() ==> boundary(
                text,
                #[trigger] line_starts_after(text, n)[i],
            ),
    decreases text.len() - n,
{
    if n < text.len() {
        lemma_starts(text, n + 1);
        let at = encode_utf8(text.take(n + 1)).len() as int;
        let tail = text.skip(n + 1);
        assert(text =~= text.take(n + 1) + tail);
        lemma_encoded(text.take(n + 1));
        lemma_encoded(tail);
        lemma_encode_concat(text.take(n + 1), tail);
        lemma_boundary_concat(encode_utf8(text.take(n + 1)), encode_utf8(tail), at);
        let all = line_starts_after(text, n);
        let rest = line_starts_after(text, n + 1);
        assert forall|i: int| 0 <= i < all.len() implies boundary(text, #[trigger] all[i]) by {
            if all.len() == rest.len() {
                assert(all == rest);
            } else if i > 0 {
                assert(all[i] == rest[i - 1]);
            }
        }
    }
}

/// The line of a place is the last that starts at or before it.
proof fn lemma_line_upto(starts: Seq<int>, n: nat, at: int)
    requires
        0 < n <= starts.len(),
        starts[0] <= at,
    ensures
        0 <= line_upto(starts, n, at) < n,
        starts[line_upto(starts, n, at)] <= at,
        line_upto(starts, n, at) + 1 < n ==> starts[line_upto(starts, n, at) + 1] > at,
    decreases n,
{
    if starts[n - 1] > at {
        lemma_line_upto(starts, (n - 1) as nat, at);
    }
}

/// A place is had back from its line and its column.
pub proof fn a_place_is_its_line_and_column(text: Seq<char>, at: int)
    requires
        boundary(text, at),
    ensures
        line_and_column(text, at) matches Some((line, column)) && place_at(text, line, column)
            == Some(at),
{
    let bytes = encode_utf8(text);
    let starts = line_starts_of(text);
    lemma_encoded(text);
    lemma_boundary_inside(bytes, at);
    lemma_starts(text, 0);
    assert(starts[0] == 0);
    lemma_line_upto(starts, starts.len(), at);
    let line = line_upto(starts, starts.len(), at);
    let from = starts[line];
    let to = line_end(text, starts, line);
    if line > 0 {
        assert(from == line_starts_after(text, 0)[line - 1]);
    }
    if line + 1 < starts.len() {
        assert(to == line_starts_after(text, 0)[line]);
    }
    lemma_boundary_inside(bytes, from);
    lemma_boundary_inside(bytes, to);
    lemma_stretch(text, from, to);
    lemma_stretch(text, from, at);
    lemma_stretch(text, at, to);
    let head = chars_between(text, from, at);
    let tail = chars_between(text, at, to);
    lemma_encode_concat(head, tail);
    assert(bytes.subrange(from, at) + bytes.subrange(at, to) =~= bytes.subrange(from, to));
    lemma_same_bytes(head + tail, chars_between(text, from, to));
    assert((head + tail).take(head.len() as int) =~= head);
}

/// What comes of a place in a file is what some place of that file came to.
pub proof fn a_mark_is_of_its_file(
    text: Seq<char>,
    file: usize,
    cursor: int,
    line: int,
    jumps: Seq<Jump>,
    sizes: Seq<(i64, i64)>,
)
    ensures
        resolved(text, file, cursor, line, jumps, sizes) matches Some(loc) ==> exists|j: int|
            0 <= j < jumps.len() && (#[trigger] jumps[j]).file == file && jumps[j].to.page == loc.page
                && jumps[j].to.x == loc.x && jumps[j].to.y == loc.y,
{
    let walk = MAX_ANCHOR_WALK_BACK as nat;
    lemma_landing(jumps, file, cursor, 0);
    lemma_first_landing(jumps, file, above_places(text, line, walk), 0);
    lemma_first_landing(jumps, file, below_places(text, line + 1, walk), 0);
}

/// Where a place lands is where a jump from it goes, and one is found when there is one.
proof fn lemma_landing(jumps: Seq<Jump>, file: usize, cursor: int, from: int)
    requires
        0 <= from,
    ensures
        landing_from(jumps, file, cursor, from) matches Some(p) ==> exists|j: int|
            from <= j < jumps.len() && (#[trigger] jumps[j]).file == file && jumps[j].cursor == cursor
                && jumps[j].to == p,
        landing_from(jumps, file, cursor, from) is None ==> forall|j: int|
            from <= j < jumps.len() ==> !((#[trigger] jumps[j]).file == file && jumps[j].cursor
                == cursor),
    decreases jumps.len() - from,
{
    if from < jumps.len() && !(jumps[from].file == file && jumps[from].cursor == cursor) {
        lemma_landing(jumps, file, cursor, from + 1);
    }
}

/// The first of some places that lands lands where a jump from it goes.
proof fn lemma_first_landing(jumps: Seq<Jump>, file: usize, places: Seq<int>, from: int)
    requires
        0 <= from,
    ensures
        first_landing(jumps, file, places, from) matches Some(p) ==> exists|j: int|
            0 <= j < jumps.len() && (#[trigger] jumps[j]).file == file && places.contains(
                jumps[j].cursor as int,
            ) && jumps[j].to == p,
        first_landing(jumps, file, places, from) is None ==> forall|i: int|
            from <= i < places.len() ==> landing(jumps, file, #[trigger] places[i]) is None,
    decreases places.len() - from,
{
    if from < places.len() {
        lemma_landing(jumps, file, places[from], 0);
        lemma_first_landing(jumps, file, places, from + 1);
    }
}

/// A place that something before it in its line, or in one of the lines looked back at, came of
/// is marked from there; one with nothing before it is marked by what comes after.
pub proof fn what_is_before_marks_a_place(
    text: Seq<char>,
    file: usize,
    cursor: int,
    line: int,
    jumps: Seq<Jump>,
    sizes: Seq<(i64, i64)>,
    j: int,
)
    requires
        0 <= j < jumps.len(),
        jumps[j].file == file,
        forall|i: int| 0 <= i < jumps.len() ==> 1 <= (#[trigger] jumps[i]).to.page <= sizes.len(),
        jumps[j].cursor == cursor || above_places(text, line, MAX_ANCHOR_WALK_BACK as nat).contains(
            jumps[j].cursor as int,
        ) || below_places(text, line + 1, MAX_ANCHOR_WALK_BACK as nat).contains(
            jumps[j].cursor as int,
        ),
    ensures
        resolved(text, file, cursor, line, jumps, sizes) is Some,
{
    let walk = MAX_ANCHOR_WALK_BACK as nat;
    let above = above_places(text, line, walk);
    let below = below_places(text, line + 1, walk);
    lemma_landing(jumps, file, cursor, 0);
    lemma_landing(jumps, file, jumps[j].cursor as int, 0);
    lemma_first_landing(jumps, file, above, 0);
    lemma_first_landing(jumps, file, below, 0);
    if above.contains(jumps[j].cursor as int) {
        let i = above.index_of(jumps[j].cursor as int);
        assert(landing(jumps, file, above[i]) is Some);
    }
    if below.contains(jumps[j].cursor as int) {
        let i = below.index_of(jumps[j].cursor as int);
        assert(landing(jumps, file, below[i]) is Some);
    }
}

/// The lines looked at for a place are its own and those before it, nearest first; and, where
/// those have nothing, the lines after it.
pub proof fn nearer_lines_are_tried_first(text: Seq<char>, line: int, left: nat, back: int)
    requires
        0 < back <= left,
        back <= line,
    ensures
        above_places(text, line, left) == line_probes(text, line) + above_places(
            text,
            line - 1,
            (left - 1) as nat,
        ),
        forall|at: int| #[trigger]
            line_probes(text, line - back).contains(at) ==> above_places(text, line, left).contains(at),
        forall|at: int| #[trigger]
            line_probes(text, line + back - 1).contains(at) ==> below_places(text, line, left).contains(
                at,
            ),
{
    lemma_above(text, line, left, back);
    lemma_below(text, line, left, back - 1);
    assert(line + (back - 1) == line + back - 1);
}

/// The lines above a place are all looked at, as far back as it goes.
proof fn lemma_above(text: Seq<char>, line: int, left: nat, back: int)
    requires
        0 <= back <= left,
        back <= line,
    ensures
        forall|at: int| #[trigger]
            line_probes(text, line - back).contains(at) ==> above_places(text, line, left).contains(at),
    decreases left,
{
    let here = line_probes(text, line);
    let all = above_places(text, line, left);
    if line > 0 && left > 0 {
        let rest = above_places(text, line - 1, (left - 1) as nat);
        if back > 0 {
            lemma_above(text, line - 1, (left - 1) as nat, back - 1);
            assert(line - 1 - (back - 1) == line - back);
        }
        assert forall|at: int| #[trigger] line_probes(text, line - back).contains(at) implies all.contains(
            at,
        ) by {
            if back == 0 {
                let i = here.index_of(at);
                assert(all[i] == at);
            } else {
                assert(rest.contains(at));
                let i = rest.index_of(at);
                assert(all[here.len() + i] == at);
            }
        }
    }
}

/// The lines below a place are all looked at, as far on as it goes.
proof fn lemma_below(text: Seq<char>, line: int, left: nat, on: int)
    requires
        0 <= on < left,
    ensures
        forall|at: int| #[trigger]
            line_probes(text, line + on).contains(at) ==> below_places(text, line, left).contains(at),
    decreases left,
{
    let here = line_probes(text, line);
    let rest = below_places(text, line + 1, (left - 1) as nat);
    let all = below_places(text, line, left);
    if on > 0 {
        lemma_below(text, line + 1, (left - 1) as nat, on - 1);
        assert(line + 1 + (on - 1) == line + on);
    }
    assert forall|at: int| #[trigger] line_probes(text, line + on).contains(at) implies all.contains(
        at,
    ) by {
        if on == 0 {
            let i = here.index_of(at);
            assert(all[i] == at);
        } else {
            assert(rest.contains(at));
            let i = rest.index_of(at);
            assert(all[here.len() + i] == at);
        }
    }
}

} // verus!

//! The block of source an annotation sits in: the smallest piece of a document
//! that can be rewritten whole and still mean something.

use std::ops::Range;

use vstd::prelude::*;
use vstd::string::*;
use vstd::utf8::*;

use crate::bytes::{
    boundary, chars_between, find_bytes, lemma_ascii_alone, lemma_boundary_inside, lemma_encoded,
    slice, stands_bytes,
};
use crate::num::{fnv, fnv_continues, fnv_more, hex, push_hex, FNV_OFFSET};
use crate::ranges::{
    a_paragraph_ends_at_blank_lines, all_space, find_line_start, is_all_space, line_start,
    paragraph_end, paragraph_is_around, paragraph_range, paragraph_start,
};
use crate::syntax::{enclosing, enclosing_nodes, node, nodes};
use crate::text::{
    begins, chars_of, contains, count_of, cut, find, find_at, find_from, is_space,
    lemma_drop_end_while, lemma_drop_while, lemma_find_from, lemma_find_one, lines, lines_of,
    occurs, only, opt_text, parts_and_lines_are_counted, same, split, split_on, stands_at,
    starts_with, string_of, texts, to_upper, trim, trim_slice, trim_start_char,
    trim_start_char_slice, trimmed, upper,
};

verus! {

// ---------------------------------------------------------------- the block

/// The kinds of node that can be rewritten whole.
pub open spec fn is_block_kind(kind: Seq<char>) -> bool {
    ||| kind == "ListItem"@
    ||| kind == "EnumItem"@
    ||| kind == "TermItem"@
    ||| kind == "Heading"@
    ||| kind == "Equation"@
    ||| kind == "Raw"@
    ||| kind == "CodeBlock"@
    ||| kind == "FuncCall"@
}

/// Where a node starts as a block: a call begins with the `#` before it.
pub open spec fn block_start(bytes: Seq<u8>, n: (Seq<char>, int, int)) -> int {
    if n.0 == "FuncCall"@ && n.1 > 0 && bytes[n.1 - 1] == 35 {
        n.1 - 1
    } else {
        n.1
    }
}

/// Whether nothing but white space stands before a place on its line, and
/// nothing at all on the first one.
pub open spec fn heads_line(text: Seq<char>, at: int) -> bool {
    let line = line_start(encode_utf8(text), at);
    if line == 0 {
        at == 0
    } else {
        all_space(chars_between(text, line, at))
    }
}

/// Whether a node is a block: one of the kinds, and a call or raw text only
/// where it heads its line.
pub open spec fn is_block(text: Seq<char>, n: (Seq<char>, int, int)) -> bool {
    &&& is_block_kind(n.0)
    &&& (n.0 == "FuncCall"@ || n.0 == "Raw"@) ==> heads_line(
        text,
        block_start(encode_utf8(text), n),
    )
}

/// The first block among some nodes.
pub open spec fn first_block(text: Seq<char>, list: Seq<(Seq<char>, int, int)>) -> Option<(int, int)>
    decreases list.len(),
{
    if list.len() == 0 {
        None
    } else if is_block(text, list[0]) {
        Some((block_start(encode_utf8(text), list[0]), list[0].2))
    } else {
        first_block(text, list.skip(1))
    }
}

/// Whether the ranges of some nodes are places to cut a text at.
pub open spec fn cut_in(text: Seq<char>, list: Seq<(String, usize, usize)>) -> bool {
    forall|i: int|
        0 <= i < list.len() ==> (#[trigger] list[i]).1 <= list[i].2 && boundary(
            text,
            list[i].1 as int,
        ) && boundary(text, list[i].2 as int)
}

/// Whether a kind is one that can be rewritten whole.
fn block_kind(kind: &str) -> (r: bool)
    ensures
        r == is_block_kind(kind@),
{
    same(kind, "ListItem") || same(kind, "EnumItem") || same(kind, "TermItem") || same(
        kind,
        "Heading",
    ) || same(kind, "Equation") || same(kind, "Raw") || same(kind, "CodeBlock") || same(
        kind,
        "FuncCall",
    )
}

/// The first block among the nodes that enclose a place, innermost first.
pub fn pick_block(text: &str, list: &Vec<(String, usize, usize)>) -> (r: Option<Range<usize>>)
    requires
        cut_in(text@, list@),
    ensures
        match r {
            Some(range) => first_block(text@, nodes(list@)) == Some(
                (range.start as int, range.end as int),
            ),
            None => first_block(text@, nodes(list@)) is None,
        },
        r matches Some(range) ==> range.start <= range.end && boundary(text@, range.start as int)
            && boundary(text@, range.end as int),
{
    let bytes: &[u8] = text.as_bytes();
    let ghost all = nodes(list@);
    let mut i: usize = 0;
    assert(all.skip(0) =~= all);
    proof {
        lemma_encoded(text@);
    }
    while i < list.len()
        invariant
            i <= list@.len(),
            all == nodes(list@),
            cut_in(text@, list@),
            bytes@ == encode_utf8(text@),
            valid_utf8(bytes@),
            first_block(text@, all) == first_block(text@, all.skip(i as int)),
        decreases list@.len() - i,
    {
        let kind: &str = list[i].0.as_str();
        let from: usize = list[i].1;
        let end: usize = list[i].2;
        let ghost n = all.skip(i as int)[0];
        assert(n == node(list@[i as int]));
        assert(all.skip(i as int).skip(1) =~= all.skip(i + 1));
        proof {
            lemma_boundary_inside(bytes@, from as int);
            lemma_boundary_inside(bytes@, end as int);
        }
        if block_kind(kind) {
            let call: bool = same(kind, "FuncCall");
            let start: usize = if call && from > 0 && bytes[from - 1] == 35 {
                from - 1
            } else {
                from
            };
            proof {
                if start < from {
                    lemma_ascii_alone(bytes@, start as int);
                }
            }
            assert(start == block_start(bytes@, n));
            if !call && !same(kind, "Raw") {
                return Some(Range { start, end });
            }
            let line: usize = find_line_start(text, start);
            let heads: bool = if line == 0 {
                start == 0
            } else {
                is_all_space(slice(text, line, start))
            };
            if heads {
                return Some(Range { start, end });
            }
        }
        i = i + 1;
    }
    None
}

/// The innermost thing right before a place that can be rewritten whole.
pub open spec fn block_before(text: Seq<char>, at: int) -> Option<(int, int)> {
    first_block(text, enclosing_nodes(text, at))
}

/// The innermost thing right before a place that can be rewritten whole, if
/// there is one.
pub fn block_at(text: &str, at: usize) -> (r: Option<Range<usize>>)
    ensures
        match r {
            Some(range) => block_before(text@, at as int) == Some(
                (range.start as int, range.end as int),
            ),
            None => block_before(text@, at as int) is None,
        },
        r matches Some(range) ==> range.start <= range.end && boundary(text@, range.start as int)
            && boundary(text@, range.end as int),
{
    let list: Vec<(String, usize, usize)> = enclosing(text, at);
    pick_block(text, &list)
}

// ---------------------------------------------------------- trailing anchors

/// What an anchor begins with.
pub const ANCHOR_OPENING: &'static str = "<anno.";

/// The place after the anchors written one after another at a place.
pub open spec fn after_anchors(bytes: Seq<u8>, at: int) -> int
    decreases bytes.len() - at,
{
    if at < 0 || !stands_at(bytes, encode_utf8(ANCHOR_OPENING@), at) {
        at
    } else {
        match find_from(bytes, seq![62u8], at) {
            None => at,
            Some(close) => {
                proof {
                    lemma_find_from(bytes, seq![62u8], at);
                }
                after_anchors(bytes, close + 1)
            },
        }
    }
}

/// Extends a range over the anchors written immediately after it.
pub fn with_trailing_anchors(text: &str, range: Range<usize>) -> (r: Range<usize>)
    requires
        boundary(text@, range.end as int),
    ensures
        r.start == range.start,
        r.end == after_anchors(encode_utf8(text@), range.end as int),
        range.end <= r.end,
        boundary(text@, r.end as int),
{
    let bytes: &[u8] = text.as_bytes();
    let total: usize = bytes.len();
    let open: &[u8] = ANCHOR_OPENING.as_bytes();
    let close: Vec<u8> = vec![62];
    let mut end: usize = range.end;
    assert(close@ =~= seq![62u8]);
    proof {
        lemma_encoded(text@);
    }
    while stands_bytes(bytes, open, end)
        invariant
            total == bytes@.len(),
            bytes@ == encode_utf8(text@),
            valid_utf8(bytes@),
            open@ == encode_utf8(ANCHOR_OPENING@),
            close@ == seq![62u8],
            range.end <= end,
            boundary(text@, end as int),
            after_anchors(bytes@, range.end as int) == after_anchors(bytes@, end as int),
        decreases total - end,
    {
        match find_bytes(bytes, close.as_slice(), end) {
            None => {
                return Range { start: range.start, end };
            },
            Some(at) => {
                proof {
                    assert(bytes@.subrange(at as int, at + 1)[0] == 62);
                    lemma_ascii_alone(bytes@, at as int);
                }
                end = at + 1;
            },
        }
    }
    Range { start: range.start, end }
}

/// The block around a place, with the anchors attached to it: what stands
/// before the place, or right before that, or else the paragraph. Of a place
/// inside a character there is no paragraph.
pub open spec fn block_extent(text: Seq<char>, at: int) -> Option<(int, int)> {
    let bytes = encode_utf8(text);
    let range = match block_before(text, at) {
        Some(range) => Some(range),
        None => match if at > 0 {
            block_before(text, at - 1)
        } else {
            None
        } {
            Some(range) => Some(range),
            None => if boundary(text, at) {
                Some((paragraph_start(bytes, at), paragraph_end(bytes, at)))
            } else {
                None
            },
        },
    };
    match range {
        Some((start, end)) => Some((start, after_anchors(bytes, end))),
        None => None,
    }
}

/// The block around any place, or nothing for a place inside a character that
/// no block is around.
pub fn block_around(text: &str, at: usize) -> (r: Option<Range<usize>>)
    ensures
        match r {
            Some(range) => block_extent(text@, at as int) == Some(
                (range.start as int, range.end as int),
            ),
            None => block_extent(text@, at as int) is None,
        },
        r matches Some(range) ==> {
            &&& range.start <= range.end
            &&& boundary(text@, range.start as int)
            &&& boundary(text@, range.end as int)
        },
        boundary(text@, at as int) ==> r is Some,
{
    let range: Range<usize> = match block_at(text, at) {
        Some(range) => range,
        None => {
            let before: Option<Range<usize>> = if at > 0 {
                block_at(text, at - 1)
            } else {
                None
            };
            match before {
                Some(range) => range,
                None => {
                    if text.is_char_boundary(at) {
                        paragraph_range(text, at)
                    } else {
                        return None;
                    }
                },
            }
        },
    };
    Some(with_trailing_anchors(text, range))
}

/// The block around a place: the innermost thing that can be rewritten whole
/// and still mean something, with the anchors attached to it.
pub fn block_range(text: &str, at: usize) -> (r: Range<usize>)
    requires
        boundary(text@, at as int),
    ensures
        block_extent(text@, at as int) == Some((r.start as int, r.end as int)),
        r.start <= r.end,
        boundary(text@, r.start as int),
        boundary(text@, r.end as int),
{
    match block_around(text, at) {
        Some(range) => range,
        None => Range { start: at, end: at },
    }
}

// ------------------------------------------------------------------ its name

/// The bytes of a number, lowest first.
pub open spec fn le_bytes(n: nat, count: nat) -> Seq<u8>
    decreases count,
{
    if count == 0 {
        seq![]
    } else {
        seq![(n % 256) as u8] + le_bytes(n / 256, (count - 1) as nat)
    }
}

/// The eight bytes of a number, lowest first.
pub fn to_le_bytes(n: u64) -> (r: Vec<u8>)
    ensures
        r@ == le_bytes(n as nat, 8),
{
    let mut out: Vec<u8> = Vec::new();
    let mut left: u8 = 8;
    let mut rest: u64 = n;
    while left > 0
        invariant
            left <= 8,
            out@ + le_bytes(rest as nat, left as nat) == le_bytes(n as nat, 8),
        decreases left,
    {
        let ghost before = out@;
        let ghost was = rest;
        out.push((rest % 256) as u8);
        rest = rest / 256;
        left = left - 1;
        assert(before + le_bytes(was as nat, (left + 1) as nat) =~= out@ + le_bytes(
            rest as nat,
            left as nat,
        ));
    }
    assert(out@ + le_bytes(rest as nat, 0) =~= out@);
    out
}

/// A digest of a block: the file it is in, where it starts, and what it says.
pub open spec fn digest(file: Seq<char>, start: nat, text: Seq<char>) -> Seq<char> {
    hex(fnv(encode_utf8(file) + le_bytes(start, 8) + encode_utf8(text)) as nat, 16)
}

/// A digest of a block: the file it is in, where it starts, and what it says.
pub fn block_id(file: &str, start: usize, text: &str) -> (r: String)
    ensures
        r@ == digest(file@, start as nat, text@),
{
    let place: Vec<u8> = to_le_bytes(start as u64);
    let a: u64 = fnv_more(FNV_OFFSET, file.as_bytes());
    let b: u64 = fnv_more(a, place.as_slice());
    let c: u64 = fnv_more(b, text.as_bytes());
    proof {
        fnv_continues(FNV_OFFSET, encode_utf8(file@), place@);
        fnv_continues(FNV_OFFSET, encode_utf8(file@) + place@, encode_utf8(text@));
    }
    let mut out: String = String::new();
    push_hex(&mut out, c, 16);
    assert(out@ =~= digest(file@, start as nat, text@));
    out
}

// ------------------------------------------------------- what is above it

/// The heading a line is: how deep it is, and its title up to the first label.
pub open spec fn heading_of(line: Seq<char>) -> Option<(nat, Seq<char>)> {
    let rest = trim_start_char(line, '=');
    let depth = (line.len() - rest.len()) as nat;
    let title = trim(upto(trim(rest), '<'));
    if depth == 0 || rest.len() == 0 || rest[0] != ' ' || title.len() == 0 {
        None
    } else {
        Some((depth, title))
    }
}

/// A text up to the first `c` in it.
pub open spec fn upto(text: Seq<char>, c: char) -> Seq<char> {
    match find(text, seq![c]) {
        Some(at) => text.take(at),
        None => text,
    }
}

/// The headings that stay open when another of a depth comes: those above it.
pub open spec fn open_above(path: Seq<(nat, Seq<char>)>, depth: nat) -> Seq<(nat, Seq<char>)>
    decreases path.len(),
{
    if path.len() > 0 && path.last().0 >= depth {
        open_above(path.drop_last(), depth)
    } else {
        path
    }
}

/// The headings that are open after some lines, outermost first.
pub open spec fn headings(lines: Seq<Seq<char>>) -> Seq<(nat, Seq<char>)>
    decreases lines.len(),
{
    if lines.len() == 0 {
        seq![]
    } else {
        let path = headings(lines.drop_last());
        match heading_of(lines.last()) {
            Some(heading) => open_above(path, heading.0).push(heading),
            None => path,
        }
    }
}

/// The headings above a place, outermost first.
pub open spec fn headings_above(text: Seq<char>, at: int) -> Seq<Seq<char>> {
    headings(lines(chars_between(text, 0, at))).map_values(|h: (nat, Seq<char>)| h.1)
}

/// A path of headings goes deeper with every one of them.
pub proof fn headings_nest(lines: Seq<Seq<char>>, i: int, j: int)
    requires
        0 <= i < j < headings(lines).len(),
    ensures
        headings(lines)[i].0 < headings(lines)[j].0,
    decreases lines.len(),
{
    let path = headings(lines.drop_last());
    match heading_of(lines.last()) {
        Some(heading) => {
            lemma_open_above(path, heading.0);
            let kept = open_above(path, heading.0);
            if j < kept.len() {
                assert(headings(lines)[i] == path[i]);
                assert(headings(lines)[j] == path[j]);
                headings_nest(lines.drop_last(), i, j);
            } else {
                assert(headings(lines)[i] == path[i]);
                if i < kept.len() - 1 {
                    headings_nest(lines.drop_last(), i, kept.len() - 1);
                }
            }
        },
        None => {
            headings_nest(lines.drop_last(), i, j);
        },
    }
}

/// What stays open is the start of the path, and its last heading is above.
proof fn lemma_open_above(path: Seq<(nat, Seq<char>)>, depth: nat)
    ensures
        open_above(path, depth).len() <= path.len(),
        open_above(path, depth) == path.take(open_above(path, depth).len() as int),
        open_above(path, depth).len() > 0 ==> open_above(path, depth).last().0 < depth,
    decreases path.len(),
{
    if path.len() > 0 && path.last().0 >= depth {
        lemma_open_above(path.drop_last(), depth);
        let n = open_above(path, depth).len() as int;
        assert(path.drop_last().take(n) =~= path.take(n));
    } else {
        assert(path.take(path.len() as int) =~= path);
    }
}

/// Whether a line is a heading that no later one of some lines closes: every heading after it
/// is deeper.
pub open spec fn stays_open(lines: Seq<Seq<char>>, i: int) -> bool {
    &&& 0 <= i < lines.len()
    &&& heading_of(lines[i]) is Some
    &&& forall|j: int|
        i < j < lines.len() && heading_of(#[trigger] lines[j]) is Some ==> (heading_of(
            lines[j],
        )->Some_0).0 > (heading_of(lines[i])->Some_0).0
}

/// Whether a path is that of the headings on some lines, in the order of the lines, and those
/// are all the headings that stay open.
pub open spec fn is_path_of(
    lines: Seq<Seq<char>>,
    at: Seq<int>,
    path: Seq<(nat, Seq<char>)>,
) -> bool {
    &&& at.len() == path.len()
    &&& forall|k: int|
        0 <= k < at.len() ==> stays_open(lines, #[trigger] at[k]) && heading_of(lines[at[k]])
            == Some(path[k])
    &&& forall|k: int, l: int| 0 <= k < l < at.len() ==> at[k] < at[l]
    &&& forall|i: int| #[trigger] stays_open(lines, i) ==> at.contains(i)
}

/// The headings above a place are those, and only those, that no later heading before the
/// place is as shallow as: each of them is in the path, in the order of the lines.
pub proof fn the_path_holds_every_open_heading(lines: Seq<Seq<char>>)
    ensures
        exists|at: Seq<int>| #[trigger] is_path_of(lines, at, headings(lines)),
{
    let at = lemma_path_lines(lines);
    assert(is_path_of(lines, at, headings(lines)));
}

/// The lines of the headings that stay open.
proof fn lemma_path_lines(lines: Seq<Seq<char>>) -> (at: Seq<int>)
    ensures
        is_path_of(lines, at, headings(lines)),
    decreases lines.len(),
{
    if lines.len() == 0 {
        Seq::empty()
    } else {
        let before = lines.drop_last();
        let last = lines.len() - 1;
        let old_at = lemma_path_lines(before);
        let path = headings(before);
        assert(forall|i: int| 0 <= i < last ==> before[i] == lines[i]);
        match heading_of(lines.last()) {
            None => {
                assert forall|i: int| #[trigger] stays_open(lines, i) implies old_at.contains(i) by {
                    assert(stays_open(before, i));
                }
                assert forall|k: int| 0 <= k < old_at.len() implies stays_open(
                    lines,
                    #[trigger] old_at[k],
                ) && heading_of(lines[old_at[k]]) == Some(path[k]) by {
                    assert(stays_open(before, old_at[k]));
                }
                old_at
            },
            Some(h) => {
                lemma_open_above(path, h.0);
                lemma_closed_are_deep(path, h.0);
                let n = open_above(path, h.0).len() as int;
                let at = old_at.take(n).push(last);
                let new_path = headings(lines);
                assert forall|k: int| 0 <= k < at.len() implies stays_open(
                    lines,
                    #[trigger] at[k],
                ) && heading_of(lines[at[k]]) == Some(new_path[k]) by {
                    if k < n {
                        assert(at[k] == old_at[k]);
                        assert(stays_open(before, old_at[k]));
                        assert(new_path[k] == path[k]);
                        if k < n - 1 {
                            headings_nest(before, k, n - 1);
                        }
                        assert(path[n - 1] == open_above(path, h.0).last());
                    }
                }
                assert forall|k: int, l: int| 0 <= k < l < at.len() implies at[k] < at[l] by {
                    assert(at[k] == old_at[k]);
                    assert(stays_open(before, old_at[k]));
                }
                assert forall|i: int| #[trigger] stays_open(lines, i) implies at.contains(i) by {
                    if i < last {
                        assert(stays_open(before, i));
                        let k = old_at.index_of(i);
                        assert(old_at[k] == i);
                        assert(lines[last] == lines.last());
                        assert(path[k].0 < h.0);
                        assert(k < n);
                        assert(at[k] == i);
                    } else {
                        assert(at[n] == i);
                    }
                }
                at
            },
        }
    }
}

/// What does not stay open is as deep as what closes it, or deeper, where a path goes deeper.
proof fn lemma_closed_are_deep(path: Seq<(nat, Seq<char>)>, depth: nat)
    ensures
        forall|k: int|
            open_above(path, depth).len() <= k < path.len() ==> (#[trigger] path[k]).0 >= depth,
    decreases path.len(),
{
    if path.len() > 0 && path.last().0 >= depth {
        let rest = path.drop_last();
        lemma_closed_are_deep(rest, depth);
        assert forall|k: int| open_above(path, depth).len() <= k < path.len() implies (
        #[trigger] path[k]).0 >= depth by {
            if k < rest.len() {
                assert(rest[k] == path[k]);
            }
        }
    }
}

/// A line of some equals signs, a space and a title is a heading: as deep as there are equals
/// signs, and with that title, where no label or white space is at its edges or in it.
pub proof fn equals_signs_make_a_heading(depth: nat, title: Seq<char>)
    requires
        depth > 0,
        title.len() > 0,
        !is_space(title[0]),
        !is_space(title.last()),
        forall|i: int| 0 <= i < title.len() ==> #[trigger] title[i] != '<',
    ensures
        heading_of(Seq::new(depth, |i: int| '=') + seq![' '] + title) == Some((depth, title)),
{
    let marks = Seq::new(depth, |i: int| '=');
    let rest = seq![' '] + title;
    let line = marks + rest;
    assert(marks + seq![' '] + title =~= line);
    lemma_drop_while(line, only('='), depth as int);
    assert(line.skip(depth as int) =~= rest);
    let space = |c: char| is_space(c);
    lemma_drop_while(rest, space, 1);
    assert(rest.skip(1) =~= title);
    lemma_drop_end_while(title, space, title.len() as int);
    assert(title.take(title.len() as int) =~= title);
    assert(trim(rest) == title);
    lemma_find_one(title, '<', title.len() as int);
    lemma_drop_while(title, space, 0);
    assert(title.skip(0) =~= title);
}

/// A line that does not begin with an equals sign is no heading.
pub proof fn nothing_else_is_a_heading(line: Seq<char>)
    requires
        line.len() == 0 || line[0] != '=',
    ensures
        heading_of(line) is None,
{
    lemma_drop_while(line, only('='), 0);
    assert(line.skip(0) =~= line);
}

/// The heading a line is, if it is one.
fn read_heading(line: &str) -> (r: Option<(usize, String)>)
    ensures
        match r {
            Some(h) => heading_of(line@) == Some((h.0 as nat, h.1@)),
            None => heading_of(line@) is None,
        },
{
    let t: Vec<char> = chars_of(line);
    let rest: &[char] = trim_start_char_slice(t.as_slice(), '=');
    proof {
        lemma_trim_start_shorter(line@, '=');
    }
    let depth: usize = t.len() - rest.len();
    if depth == 0 || rest.len() == 0 || rest[0] != ' ' {
        return None;
    }
    let body: &[char] = trim_slice(rest);
    let stop: Vec<char> = vec!['<'];
    assert(stop@ =~= seq!['<']);
    let title: &[char] = match find_at(body, stop.as_slice(), 0) {
        Some(at) => cut(body, at, 0).0,
        None => body,
    };
    let title: &[char] = trim_slice(title);
    if title.len() == 0 {
        None
    } else {
        Some((depth, string_of(title)))
    }
}

/// Trimming takes nothing but what it trims.
proof fn lemma_trim_start_shorter(text: Seq<char>, c: char)
    ensures
        trim_start_char(text, c).len() <= text.len(),
    decreases text.len(),
{
    if text.len() > 0 && text[0] == c {
        lemma_trim_start_shorter(text.skip(1), c);
    }
}

/// How deep the headings of a path are, and their titles.
pub open spec fn path_view(path: Seq<(usize, String)>) -> Seq<(nat, Seq<char>)> {
    path.map_values(|h: (usize, String)| (h.0 as nat, h.1@))
}

/// The headings above a place, outermost first.
pub fn heading_path(text: &str, at: usize) -> (r: Vec<String>)
    requires
        boundary(text@, at as int),
    ensures
        texts(r@) == headings_above(text@, at as int),
{
    proof {
        lemma_encoded(text@);
        lemma_boundary_inside(encode_utf8(text@), at as int);
    }
    let before: Vec<String> = lines_of(slice(text, 0, at));
    let ghost all = lines(chars_between(text@, 0, at as int));
    assert(texts(before@) == all);
    let mut path: Vec<(usize, String)> = Vec::new();
    let mut i: usize = 0;
    assert(all.take(0) =~= Seq::empty());
    assert(path_view(path@) =~= headings(all.take(0)));
    while i < before.len()
        invariant
            i <= before@.len(),
            texts(before@) == all,
            path_view(path@) == headings(all.take(i as int)),
        decreases before@.len() - i,
    {
        let found: Option<(usize, String)> = read_heading(before[i].as_str());
        proof {
            assert(all[i as int] == texts(before@)[i as int]);
            assert(all.take(i + 1).drop_last() =~= all.take(i as int));
            assert(all.take(i + 1).last() == before@[i as int]@);
        }
        match found {
            Some(heading) => {
                let ghost was = path_view(path@);
                let ghost depth = heading.0 as nat;
                while path.len() > 0 && path[path.len() - 1].0 >= heading.0
                    invariant
                        depth == heading.0,
                        open_above(was, depth) == open_above(path_view(path@), depth),
                    decreases path@.len(),
                {
                    let ghost now = path_view(path@);
                    assert(now.last().0 == path@.last().0);
                    path.pop();
                    assert(path_view(path@) =~= now.drop_last());
                }
                proof {
                    if path@.len() > 0 {
                        assert(path_view(path@).last().0 == path@.last().0);
                    }
                }
                let ghost kept = path_view(path@);
                let ghost h = (heading.0 as nat, heading.1@);
                path.push(heading);
                assert(path_view(path@) =~= kept.push(h));
            },
            None => {},
        }
        i = i + 1;
    }
    assert(all.take(i as int) =~= all);
    let mut out: Vec<String> = Vec::new();
    let mut j: usize = 0;
    while j < path.len()
        invariant
            j <= path@.len(),
            out@.len() == j,
            forall|k: int| 0 <= k < j ==> (#[trigger] out@[k])@ == path@[k].1@,
        decreases path@.len() - j,
    {
        out.push(path[j].1.clone());
        j = j + 1;
    }
    assert(texts(out@) =~= headings_above(text@, at as int)) by {
        let want = headings(all);
        assert forall|k: int| 0 <= k < out@.len() implies texts(out@)[k] == want[k].1 by {
            assert(path_view(path@)[k] == want[k]);
        }
    }
    out
}

/// The number of the line a place is on, from one.
pub open spec fn line_number(text: Seq<char>, at: int) -> nat {
    split(chars_between(text, 0, at), '\n').len()
}

/// The numbers of the first and the last line of a stretch of text, from one. A newline
/// at its end begins no line of it.
pub open spec fn line_span(text: Seq<char>, start: int, end: int) -> (nat, nat) {
    let first = line_number(text, start);
    let last = lines(chars_between(text, 0, end)).len();
    (
        first,
        if last > first {
            last
        } else {
            first
        },
    )
}

/// The numbers of the first and the last line of a stretch of text, from one.
pub fn lines_across(text: &str, start: usize, end: usize) -> (r: (usize, usize))
    requires
        boundary(text@, start as int),
        boundary(text@, end as int),
    ensures
        (r.0 as nat, r.1 as nat) == line_span(text@, start as int, end as int),
{
    proof {
        lemma_encoded(text@);
        lemma_boundary_inside(encode_utf8(text@), start as int);
        lemma_boundary_inside(encode_utf8(text@), end as int);
    }
    let before: Vec<String> = split_on(slice(text, 0, start), '\n');
    let upto: Vec<String> = lines_of(slice(text, 0, end));
    assert(texts(before@).len() == before@.len());
    assert(texts(upto@).len() == upto@.len());
    let first: usize = before.len();
    let last: usize = upto.len();
    (
        first,
        if last > first {
            last
        } else {
            first
        },
    )
}

// --------------------------------------------------------- generated files

/// How many lines at the top of a file can say that it is generated.
pub const DECLARATION_LINES: usize = 8;

/// What a line says about the file being generated, when it does: a comment
/// that shouts `GENERATED`, or says not to edit, without its slashes.
pub open spec fn declares_generated(line: Seq<char>) -> Option<Seq<char>> {
    let said = trim(line);
    if (begins(said, "//"@) || begins(said, "#"@)) && (occurs(said, "GENERATED"@) || occurs(
        upper(said),
        "DO NOT EDIT"@,
    )) {
        Some(trim(trim_start_char(said, '/')))
    } else {
        None
    }
}

/// What the first of some lines that says so says about the file being
/// generated.
pub open spec fn first_declaration(lines: Seq<Seq<char>>) -> Option<Seq<char>>
    decreases lines.len(),
{
    if lines.len() == 0 {
        None
    } else {
        match declares_generated(lines[0]) {
            Some(said) => Some(said),
            None => first_declaration(lines.skip(1)),
        }
    }
}

/// What a file says about being generated.
pub open spec fn declaration(text: Seq<char>) -> Option<Seq<char>> {
    let all = lines(text);
    first_declaration(
        all.take(
            if all.len() < DECLARATION_LINES {
                all.len() as int
            } else {
                DECLARATION_LINES as int
            },
        ),
    )
}

/// What a line says about the file being generated.
fn read_declaration(line: &str) -> (r: Option<String>)
    ensures
        opt_text(r) == declares_generated(line@),
{
    let said: String = trimmed(line);
    let s: &str = said.as_str();
    if !starts_with(s, "//") && !starts_with(s, "#") {
        return None;
    }
    let shouted: String = to_upper(s);
    if contains(s, "GENERATED") || contains(shouted.as_str(), "DO NOT EDIT") {
        let t: Vec<char> = chars_of(s);
        Some(string_of(trim_slice(trim_start_char_slice(t.as_slice(), '/'))))
    } else {
        None
    }
}

/// The line in which a file says it is generated, if there is one.
///
/// Such files declare themselves in their first lines, and the declaration is
/// returned so a caller can quote it. `GENERATED` has to be shouted: a comment
/// that mentions that something was generated is prose.
pub fn generated_note(text: &str) -> (r: Option<String>)
    ensures
        opt_text(r) == declaration(text@),
{
    let all: Vec<String> = lines_of(text);
    let n: usize = if all.len() < DECLARATION_LINES {
        all.len()
    } else {
        DECLARATION_LINES
    };
    let ghost top = lines(text@).take(n as int);
    assert(texts(all@).len() == all@.len());
    let mut i: usize = 0;
    assert(top.skip(0) =~= top);
    while i < n
        invariant
            i <= n <= all@.len(),
            texts(all@) == lines(text@),
            top == lines(text@).take(n as int),
            declaration(text@) == first_declaration(top.skip(i as int)),
        decreases n - i,
    {
        assert(top.skip(i as int)[0] == texts(all@)[i as int]);
        assert(top.skip(i as int).skip(1) =~= top.skip(i + 1));
        match read_declaration(all[i].as_str()) {
            Some(said) => {
                return Some(said);
            },
            None => {},
        }
        i = i + 1;
    }
    assert(top.skip(i as int) =~= Seq::empty());
    None
}

// ------------------------------------------------------ what is said of a block

/// The labels written right after a block go with it, every one of them, and nothing else does.
pub proof fn labels_after_a_block_go_with_it(bytes: Seq<u8>, at: int)
    requires
        0 <= at <= bytes.len(),
    ensures
        ({
            let end = after_anchors(bytes, at);
            let opening = encode_utf8(ANCHOR_OPENING@);
            &&& at <= end <= bytes.len()
            &&& forall|close: int|
                end <= close < bytes.len() && #[trigger] bytes[close] == 62 ==> !stands_at(
                    bytes,
                    opening,
                    end,
                )
            &&& end > at ==> stands_at(bytes, opening, at) && bytes[end - 1] == 62
        }),
    decreases bytes.len() - at,
{
    lemma_find_from(bytes, seq![62u8], at);
    match find_from(bytes, seq![62u8], at) {
        None => {
            assert forall|close: int| at <= close < bytes.len() implies #[trigger] bytes[close] != 62 by {
                if bytes[close] == 62 {
                    assert(bytes.subrange(close, close + 1) =~= seq![62u8]);
                    assert(stands_at(bytes, seq![62u8], close));
                }
            }
        },
        Some(close) => {
            assert(bytes.subrange(close, close + 1)[0] == 62);
            if stands_at(bytes, encode_utf8(ANCHOR_OPENING@), at) {
                labels_after_a_block_go_with_it(bytes, close + 1);
            }
        },
    }
}

/// One label written right after a block goes with it, together with what follows the label.
pub proof fn a_label_is_passed_over(bytes: Seq<u8>, at: int, close: int)
    requires
        0 <= at < close < bytes.len(),
        stands_at(bytes, encode_utf8(ANCHOR_OPENING@), at),
        bytes[close] == 62,
        forall|i: int| at <= i < close ==> #[trigger] bytes[i] != 62,
    ensures
        after_anchors(bytes, at) == after_anchors(bytes, close + 1),
{
    lemma_find_from(bytes, seq![62u8], at);
    assert(bytes.subrange(close, close + 1) =~= seq![62u8]);
    assert(stands_at(bytes, seq![62u8], close));
    if let Some(found) = find_from(bytes, seq![62u8], at) {
        assert(bytes.subrange(found, found + 1)[0] == 62);
    }
}

/// A stretch of a text goes from the line that its start is in, counted from one by the newlines
/// before it, to the line of its last character.
pub proof fn lines_are_counted_by_newlines(text: Seq<char>, start: int, end: int)
    ensures
        ({
            let before = chars_between(text, 0, start);
            let upto = chars_between(text, 0, end);
            let first = count_of(before, '\n') + 1;
            let last = if upto.len() > 0 && upto.last() != '\n' {
                count_of(upto, '\n') + 1
            } else {
                count_of(upto, '\n')
            };
            &&& line_span(text, start, end).0 == first
            &&& line_span(text, start, end).1 == if last > first {
                last
            } else {
                first
            }
        }),
{
    parts_and_lines_are_counted(chars_between(text, 0, start), '\n');
    parts_and_lines_are_counted(chars_between(text, 0, end), '\n');
}

/// The number that some bytes stand for, the least of them first.
pub open spec fn le_number(bytes: Seq<u8>) -> nat
    decreases bytes.len(),
{
    if bytes.len() == 0 {
        0
    } else {
        bytes[0] as nat + 256 * le_number(bytes.skip(1))
    }
}

/// How many numbers some bytes can stand for.
pub open spec fn le_limit(count: nat) -> nat
    decreases count,
{
    if count == 0 {
        1
    } else {
        256 * le_limit((count - 1) as nat)
    }
}

/// A number is had back from its bytes.
pub proof fn a_number_is_its_bytes(n: nat, count: nat)
    requires
        n < le_limit(count),
    ensures
        le_bytes(n, count).len() == count,
        le_number(le_bytes(n, count)) == n,
    decreases count,
{
    if count > 0 {
        a_number_is_its_bytes(n / 256, (count - 1) as nat);
        let bytes = le_bytes(n, count);
        assert(bytes.skip(1) =~= le_bytes(n / 256, (count - 1) as nat));
        assert(bytes[0] as nat == n % 256);
    }
}

/// The innermost node around a place is the block when it is an item, a heading, an equation or
/// a code block, wherever in its line it stands, and reaches over exactly that node.
pub proof fn the_innermost_block_is_taken(text: Seq<char>, list: Seq<(Seq<char>, int, int)>)
    requires
        list.len() > 0,
        list[0].0 == "ListItem"@ || list[0].0 == "EnumItem"@ || list[0].0 == "TermItem"@
            || list[0].0 == "Heading"@ || list[0].0 == "Equation"@ || list[0].0 == "CodeBlock"@,
    ensures
        first_block(text, list) == Some((list[0].1, list[0].2)),
{
    reveal_strlit("ListItem");
    reveal_strlit("EnumItem");
    reveal_strlit("TermItem");
    reveal_strlit("Heading");
    reveal_strlit("Equation");
    reveal_strlit("CodeBlock");
    reveal_strlit("FuncCall");
    reveal_strlit("Raw");
    assert("FuncCall"@[0] == 'F' && "ListItem"@[0] == 'L' && "EnumItem"@[0] == 'E'
        && "TermItem"@[0] == 'T' && "Heading"@[0] == 'H' && "Equation"@[0] == 'E' && "CodeBlock"@[0]
        == 'C' && "Raw"@[0] == 'R');
}

/// A call is the block when it stands at the head of its line, together with the hash before it.
pub proof fn a_call_at_the_head_of_a_line_is_a_block(
    text: Seq<char>,
    list: Seq<(Seq<char>, int, int)>,
)
    requires
        list.len() > 0,
        list[0].0 == "FuncCall"@,
        list[0].1 > 0,
        encode_utf8(text)[list[0].1 - 1] == 35,
    ensures
        heads_line(text, list[0].1 - 1) ==> first_block(text, list) == Some(
            (list[0].1 - 1, list[0].2),
        ),
        !heads_line(text, list[0].1 - 1) ==> first_block(text, list) == first_block(
            text,
            list.skip(1),
        ),
{
}

/// A node inside a block is passed over on the way out to it.
pub proof fn other_nodes_are_passed_over(text: Seq<char>, list: Seq<(Seq<char>, int, int)>, n: int)
    requires
        0 <= n <= list.len(),
        forall|i: int|
            0 <= i < n ==> (#[trigger] list[i]).0 == "Text"@ || list[i].0 == "Strong"@ || list[i].0
                == "Emph"@ || list[i].0 == "Markup"@ || list[i].0 == "ContentBlock"@,
    ensures
        first_block(text, list) == first_block(text, list.skip(n)),
    decreases n,
{
    reveal_strlit("ListItem");
    reveal_strlit("EnumItem");
    reveal_strlit("TermItem");
    reveal_strlit("Heading");
    reveal_strlit("Equation");
    reveal_strlit("CodeBlock");
    reveal_strlit("FuncCall");
    reveal_strlit("Raw");
    reveal_strlit("Text");
    reveal_strlit("Strong");
    reveal_strlit("Emph");
    reveal_strlit("Markup");
    reveal_strlit("ContentBlock");
    if n == 0 {
        assert(list.skip(0) =~= list);
    } else {
        let kind = list[0].0;
        assert(kind.len() != 7 && kind.len() != 8 && kind.len() != 9 && kind.len() != 3);
        assert(!is_block_kind(kind));
        let rest = list.skip(1);
        assert forall|i: int| 0 <= i < n - 1 implies (#[trigger] rest[i]).0 == "Text"@ || rest[i].0
            == "Strong"@ || rest[i].0 == "Emph"@ || rest[i].0 == "Markup"@ || rest[i].0
            == "ContentBlock"@ by {
            assert(rest[i] == list[i + 1]);
        }
        other_nodes_are_passed_over(text, rest, n - 1);
        assert(rest.skip(n - 1) =~= list.skip(n));
    }
}

/// A document is generated when one of its first lines is a comment, or a line of code, that
/// says so, and is not when none is.
pub proof fn a_generated_document_says_so(text: Seq<char>)
    ensures
        declaration(text) is Some <==> exists|i: int|
            0 <= i < lines(text).len() && i < 8 && declares_generated(#[trigger] lines(text)[i])
                is Some,
{
    let all = lines(text);
    let n = if all.len() < 8 {
        all.len() as int
    } else {
        8
    };
    lemma_first_declaration(all.take(n));
    assert forall|i: int| 0 <= i < n implies #[trigger] all[i] == all.take(n)[i] by {}
    if declaration(text) is Some {
        let i = choose|i: int|
            0 <= i < n && declares_generated(#[trigger] all.take(n)[i]) is Some;
        assert(declares_generated(all[i]) is Some);
    }
    if exists|i: int|
        0 <= i < all.len() && i < 8 && declares_generated(#[trigger] all[i]) is Some {
        let i = choose|i: int|
            0 <= i < all.len() && i < 8 && declares_generated(#[trigger] all[i]) is Some;
        assert(declares_generated(all.take(n)[i]) is Some);
    }
}

/// There is a declaration among lines exactly when one of them is one.
proof fn lemma_first_declaration(list: Seq<Seq<char>>)
    ensures
        first_declaration(list) is Some <==> exists|i: int|
            0 <= i < list.len() && declares_generated(#[trigger] list[i]) is Some,
    decreases list.len(),
{
    if list.len() > 0 && declares_generated(list[0]) is None {
        let rest = list.skip(1);
        lemma_first_declaration(rest);
        if first_declaration(rest) is Some {
            let i = choose|i: int| 0 <= i < rest.len() && declares_generated(#[trigger] rest[i]) is Some;
            assert(rest[i] == list[i + 1]);
        }
        if exists|i: int| 0 <= i < list.len() && declares_generated(#[trigger] list[i]) is Some {
            let i = choose|i: int| 0 <= i < list.len() && declares_generated(#[trigger] list[i]) is Some;
            assert(rest[i - 1] == list[i]);
        }
    }
}

/// The headings told above a place are the titles of all that are still open there, outermost
/// first, and of no other line before it.
pub proof fn the_path_above_a_place_is_told(text: Seq<char>, at: int)
    ensures
        exists|places: Seq<int>, path: Seq<(nat, Seq<char>)>| #[trigger]
            is_path_of(lines(chars_between(text, 0, at)), places, path) && headings_above(text, at).len()
                == path.len() && forall|k: int|
                0 <= k < path.len() ==> headings_above(text, at)[k] == (#[trigger] path[k]).1,
{
    let before = lines(chars_between(text, 0, at));
    the_path_holds_every_open_heading(before);
    let places = choose|places: Seq<int>| #[trigger] is_path_of(before, places, headings(before));
    let path = headings(before);
    assert(is_path_of(before, places, path));
    assert forall|k: int| 0 <= k < path.len() implies headings_above(text, at)[k] == (
    #[trigger] path[k]).1 by {}
}

/// A block is the node around a place, or the one that ends just before it, with the labels right
/// after it; and where there is neither, the paragraph around the place.
pub proof fn a_block_is_around_its_place(text: Seq<char>, at: int)
    requires
        boundary(text, at),
    ensures
        ({
            let bytes = encode_utf8(text);
            let here = first_block(text, enclosing_nodes(text, at));
            let before = first_block(text, enclosing_nodes(text, at - 1));
            let found = block_extent(text, at);
            &&& here matches Some((start, end)) ==> found == Some((start, after_anchors(bytes, end)))
            &&& here is None && at > 0 ==> (before matches Some((start, end)) ==> found == Some(
                (start, after_anchors(bytes, end)),
            ))
            &&& here is None && (at == 0 || before is None) ==> (found matches Some((start, end)) && start
                <= at <= end && (start == 0 || (bytes[start - 2] == 10 && bytes[start - 1] == 10)))
        }),
{
    let bytes = encode_utf8(text);
    lemma_encoded(text);
    lemma_boundary_inside(bytes, at);
    paragraph_is_around(bytes, at);
    a_paragraph_ends_at_blank_lines(bytes, at);
    labels_after_a_block_go_with_it(bytes, paragraph_end(bytes, at));
}

} // verus!

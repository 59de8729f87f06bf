//! The words of a rendered document, and the regions they make up: what a page
//! needs to tell what is under the cursor without asking.

use std::ops::Range;

use vstd::prelude::*;
use vstd::string::*;
use vstd::utf8::*;

use crate::bytes::{
    boundary, boundary_from, byte_len, chars_between, lemma_boundary_inside, lemma_boundary_take,
    lemma_encoded, next_boundary, slice,
};
use crate::preview::layout::{
    around, extend_to_marker, hull, is_level, level, marked_left, max_of, most, page_rail, rail_v,
    AnnotRect, Area, Glyph, Piece, Run,
};
use crate::ranges::{pair, paragraphs, paragraphs_from};
use crate::syntax::{branch, branches, syntax_tree, tree_of};
use crate::text::{chars_of, is_space, is_whitespace, same};

verus! {

// ------------------------------------------------------------------ characters

/// The character that begins at a place of a text.
pub open spec fn char_at(text: Seq<char>, at: int) -> char {
    chars_between(text, at, boundary_from(text, at + 1))[0]
}

/// Whether there is a gap at a place of a text: white space, or no character that
/// begins there.
pub open spec fn gap_at(text: Seq<char>, at: int) -> bool {
    !boundary(text, at) || at >= encode_utf8(text).len() || is_space(char_at(text, at))
}

/// A stretch of text that is not empty has a character.
proof fn lemma_some_char(text: Seq<char>, from: int, to: int)
    requires
        from < to,
        boundary(text, from),
        boundary(text, to),
    ensures
        chars_between(text, from, to).len() > 0,
{
    let bytes = encode_utf8(text);
    lemma_encoded(text);
    lemma_boundary_inside(bytes, from);
    lemma_boundary_inside(bytes, to);
    lemma_boundary_take(bytes, from, to);
    let head = bytes.subrange(0, to);
    valid_utf8_split(head, from);
    let part = head.subrange(from, head.len() as int);
    assert(part =~= bytes.subrange(from, to));
    if decode_utf8(part).len() == 0 {
        decode_utf8_encode_utf8(part);
        assert(decode_utf8(part) =~= seq![]);
        assert(encode_utf8(seq![]) =~= seq![]);
    }
}

/// Whether there is a gap at a place of a text.
pub fn is_gap_at(text: &str, at: usize) -> (r: bool)
    ensures
        r == gap_at(text@, at as int),
{
    let end: usize = byte_len(text);
    if at >= end || !text.is_char_boundary(at) {
        return true;
    }
    let next: usize = next_boundary(text, at + 1);
    proof {
        lemma_some_char(text@, at as int, next as int);
    }
    let part: &str = slice(text, at, next);
    let chars: Vec<char> = chars_of(part);
    is_whitespace(chars[0])
}

/// Where the word ends that a place is in, no further than `end`.
pub open spec fn word_stop(text: Seq<char>, at: int, end: int) -> int
    decreases encode_utf8(text).len() - at,
{
    if at < end && !gap_at(text, at) {
        let next = boundary_from(text, at + 1);
        if at < next <= encode_utf8(text).len() {
            word_stop(text, next, end)
        } else {
            at
        }
    } else {
        at
    }
}

/// Where the word ends that a place is in, no further than `end`.
pub fn find_word_stop(text: &str, at: usize, end: usize) -> (r: usize)
    requires
        boundary(text@, at as int),
    ensures
        r == word_stop(text@, at as int, end as int),
        boundary(text@, r as int),
        at <= r,
{
    let total: usize = byte_len(text);
    let mut i: usize = at;
    proof {
        lemma_encoded(text@);
        lemma_boundary_inside(encode_utf8(text@), at as int);
    }
    while i < end && !is_gap_at(text, i)
        invariant
            total == encode_utf8(text@).len(),
            at <= i <= total,
            boundary(text@, i as int),
            word_stop(text@, at as int, end as int) == word_stop(text@, i as int, end as int),
        decreases total - i,
    {
        i = next_boundary(text, i + 1);
    }
    i
}

// ------------------------------------------------------------------- the words

/// A word as rendered: its box, and the source behind it.
#[derive(Debug, Clone, Copy, PartialEq, Eq, Structural)]
pub struct LayoutWord {
    /// The page, counted from one.
    pub page: usize,
    /// Its box.
    pub area: Area,
    /// Where it begins in the source.
    pub s: usize,
    /// Where it ends in the source.
    pub e: usize,
}

/// Where a glyph's source ends, taken to be a byte at least.
pub open spec fn glyph_stop(at: usize, len: usize) -> usize {
    let end = at + (if len == 0 {
        1
    } else {
        len as int
    });
    if end <= usize::MAX {
        end as usize
    } else {
        usize::MAX
    }
}

/// The words found so far, with the one that is being put together at the end.
pub open spec fn flushed(out: Seq<LayoutWord>, word: Option<LayoutWord>) -> Seq<LayoutWord> {
    match word {
        Some(w) => out.push(w),
        None => out,
    }
}

/// Whether a glyph goes on with a word: their sources meet, and they are of one
/// line.
pub open spec fn goes_on(w: LayoutWord, s: usize, area: Area, unit: u32) -> bool {
    s <= w.e && level(w.area.y1, area.y1, unit)
}

/// What reading a glyph comes to: the words found so far, and the one that is
/// being put together.
pub open spec fn read_glyph(
    state: (Seq<LayoutWord>, Option<LayoutWord>),
    g: Glyph,
    page: usize,
    text: Seq<char>,
    unit: u32,
) -> (Seq<LayoutWord>, Option<LayoutWord>) {
    match g.at {
        Some(s) if !gap_at(text, s as int) => {
            let e = glyph_stop(s, g.len);
            match state.1 {
                Some(w) if goes_on(w, s, g.area, unit) => (
                    state.0,
                    Some(
                        LayoutWord {
                            area: Area { x1: most(g.area.x1, w.area.x1), ..w.area },
                            e: if e > w.e {
                                e
                            } else {
                                w.e
                            },
                            ..w
                        },
                    ),
                ),
                _ => (
                    flushed(state.0, state.1),
                    Some(LayoutWord { page, area: g.area, s, e }),
                ),
            }
        },
        _ => (flushed(state.0, state.1), None),
    }
}

/// What reading the first of some glyphs comes to.
pub open spec fn read_glyphs(
    glyphs: Seq<Glyph>,
    n: nat,
    out: Seq<LayoutWord>,
    page: usize,
    text: Seq<char>,
    unit: u32,
) -> (Seq<LayoutWord>, Option<LayoutWord>)
    decreases n,
{
    if n == 0 || n > glyphs.len() {
        (out, None)
    } else {
        read_glyph(
            read_glyphs(glyphs, (n - 1) as nat, out, page, text, unit),
            glyphs[n - 1],
            page,
            text,
            unit,
        )
    }
}

/// The words found so far and those of a piece.
pub open spec fn piece_words(
    p: Piece,
    out: Seq<LayoutWord>,
    page: usize,
    text: Seq<char>,
    unit: u32,
) -> Seq<LayoutWord>
    decreases p, 0nat,
{
    match p {
        Piece::Group(_, inner) => pieces_words(inner@, inner@.len(), out, page, text, unit),
        Piece::Run(run) => {
            let read = read_glyphs(run.glyphs@, run.glyphs@.len(), out, page, text, unit);
            flushed(read.0, read.1)
        },
        Piece::Solid(_, _) => out,
    }
}

/// The words found so far and those of the first of some pieces.
pub open spec fn pieces_words(
    pieces: Seq<Piece>,
    n: nat,
    out: Seq<LayoutWord>,
    page: usize,
    text: Seq<char>,
    unit: u32,
) -> Seq<LayoutWord>
    decreases pieces, n,
{
    if n == 0 || n > pieces.len() {
        out
    } else {
        piece_words(
            pieces[n - 1],
            pieces_words(pieces, (n - 1) as nat, out, page, text, unit),
            page,
            text,
            unit,
        )
    }
}

/// Adds the words of a run.
fn read_run(run: &Run, out: &mut Vec<LayoutWord>, page: usize, text: &str, unit: u32)
    ensures
        final(out)@ == ({
            let read = read_glyphs(
                run.glyphs@,
                run.glyphs@.len(),
                old(out)@,
                page,
                text@,
                unit,
            );
            flushed(read.0, read.1)
        }),
{
    let mut word: Option<LayoutWord> = None;
    let mut i: usize = 0;
    while i < run.glyphs.len()
        invariant
            i <= run.glyphs@.len(),
            (out@, word) == read_glyphs(run.glyphs@, i as nat, old(out)@, page, text@, unit),
        decreases run.glyphs@.len() - i,
    {
        let g: Glyph = run.glyphs[i];
        let here: Option<usize> = match g.at {
            Some(s) => if is_gap_at(text, s) {
                None
            } else {
                Some(s)
            },
            None => None,
        };
        match here {
            Some(s) => {
                let e: usize = s.saturating_add(
                    if g.len == 0 {
                        1
                    } else {
                        g.len
                    },
                );
                let on: bool = match word {
                    Some(w) => s <= w.e && is_level(w.area.y1, g.area.y1, unit),
                    None => false,
                };
                match word {
                    Some(w) => {
                        if on {
                            word =
                            Some(
                                LayoutWord {
                                    page: w.page,
                                    area: Area {
                                        x0: w.area.x0,
                                        y0: w.area.y0,
                                        x1: max_of(g.area.x1, w.area.x1),
                                        y1: w.area.y1,
                                    },
                                    s: w.s,
                                    e: if e > w.e {
                                        e
                                    } else {
                                        w.e
                                    },
                                },
                            );
                        } else {
                            out.push(w);
                            word = Some(LayoutWord { page, area: g.area, s, e });
                        }
                    },
                    None => {
                        word = Some(LayoutWord { page, area: g.area, s, e });
                    },
                }
            },
            None => {
                if let Some(w) = word {
                    out.push(w);
                }
                word = None;
            },
        }
        i = i + 1;
    }
    if let Some(w) = word {
        out.push(w);
    }
}

/// Adds the words of a piece.
fn read_piece(p: &Piece, out: &mut Vec<LayoutWord>, page: usize, text: &str, unit: u32)
    ensures
        final(out)@ == piece_words(*p, old(out)@, page, text@, unit),
    decreases *p, 0nat,
{
    match p {
        Piece::Group(_, inner) => read_pieces(inner, out, page, text, unit),
        Piece::Run(run) => read_run(run, out, page, text, unit),
        Piece::Solid(_, _) => {},
    }
}

/// Adds the words of some pieces.
fn read_pieces(pieces: &Vec<Piece>, out: &mut Vec<LayoutWord>, page: usize, text: &str, unit: u32)
    ensures
        final(out)@ == pieces_words(pieces@, pieces@.len(), old(out)@, page, text@, unit),
    decreases pieces@, 1nat,
{
    let mut i: usize = 0;
    while i < pieces.len()
        invariant
            i <= pieces@.len(),
            out@ == pieces_words(pieces@, i as nat, old(out)@, page, text@, unit),
        decreases pieces@.len() - i,
    {
        assert(decreases_to!(pieces@ => pieces@[i as int]));
        read_piece(&pieces[i], out, page, text, unit);
        i = i + 1;
    }
}

/// The words of the first of some pages.
pub open spec fn words_v(pages: Seq<Vec<Piece>>, n: nat, text: Seq<char>, unit: u32) -> Seq<
    LayoutWord,
>
    decreases n,
{
    if n == 0 || n > pages.len() {
        seq![]
    } else {
        let page = pages[n - 1]@;
        pieces_words(
            page,
            page.len(),
            words_v(pages, (n - 1) as nat, text, unit),
            n as usize,
            text,
            unit,
        )
    }
}

/// Every rendered word of a file, with the source behind it.
pub fn layout_words(pages: &Vec<Vec<Piece>>, text: &str, unit: u32) -> (r: Vec<LayoutWord>)
    ensures
        r@ == words_v(pages@, pages@.len(), text@, unit),
{
    let mut out: Vec<LayoutWord> = Vec::new();
    let total: usize = pages.len();
    let mut i: usize = 0;
    while i < total
        invariant
            i <= total,
            total == pages@.len(),
            out@ == words_v(pages@, i as nat, text@, unit),
        decreases total - i,
    {
        read_pieces(&pages[i], &mut out, i + 1, text, unit);
        i = i + 1;
    }
    out
}

/// The first of some words that came from a stretch of source.
pub open spec fn words_inside(words: Seq<LayoutWord>, n: nat, start: int, end: int) -> Seq<
    LayoutWord,
>
    decreases n,
{
    if n == 0 || n > words.len() {
        seq![]
    } else {
        let before = words_inside(words, (n - 1) as nat, start, end);
        let w = words[n - 1];
        if start <= w.s && w.e <= end {
            before.push(w)
        } else {
            before
        }
    }
}

/// The words that came from a stretch of source.
pub fn words_in_range(words: &Vec<LayoutWord>, range: Range<usize>) -> (r: Vec<LayoutWord>)
    ensures
        r@ == words_inside(words@, words@.len(), range.start as int, range.end as int),
{
    let mut out: Vec<LayoutWord> = Vec::new();
    let mut i: usize = 0;
    while i < words.len()
        invariant
            i <= words@.len(),
            out@ == words_inside(words@, i as nat, range.start as int, range.end as int),
        decreases words@.len() - i,
    {
        let w: LayoutWord = words[i];
        if range.start <= w.s && w.e <= range.end {
            out.push(w);
        }
        i = i + 1;
    }
    out
}

/// Some rows with a word added: to the last, where it is on its page and of its
/// line.
pub open spec fn with_word(rows: Seq<AnnotRect>, w: LayoutWord, unit: u32) -> Seq<AnnotRect> {
    if rows.len() > 0 && rows.last().page == w.page && level(rows.last().area.y1, w.area.y1, unit) {
        rows.drop_last().push(
            AnnotRect { page: w.page, area: hull(rows.last().area, w.area) },
        )
    } else {
        rows.push(AnnotRect { page: w.page, area: w.area })
    }
}

/// The boxes of the first of some words, a line each.
pub open spec fn word_rows(words: Seq<LayoutWord>, n: nat, unit: u32) -> Seq<AnnotRect>
    decreases n,
{
    if n == 0 || n > words.len() {
        seq![]
    } else {
        with_word(word_rows(words, (n - 1) as nat, unit), words[n - 1], unit)
    }
}

/// The boxes of the words that came from a stretch of source, a line each.
pub open spec fn word_rects(words: Seq<LayoutWord>, start: int, end: int, unit: u32) -> Seq<
    AnnotRect,
> {
    let inside = words_inside(words, words.len(), start, end);
    word_rows(inside, inside.len(), unit)
}

/// The boxes of the words that came from a stretch of source, a line each.
pub fn rects_from_words(words: &Vec<LayoutWord>, range: Range<usize>, unit: u32) -> (r: Vec<
    AnnotRect,
>)
    ensures
        r@ == word_rects(words@, range.start as int, range.end as int, unit),
{
    let inside: Vec<LayoutWord> = words_in_range(words, range);
    let mut rows: Vec<AnnotRect> = Vec::new();
    let mut i: usize = 0;
    while i < inside.len()
        invariant
            i <= inside@.len(),
            rows@ == word_rows(inside@, i as nat, unit),
        decreases inside@.len() - i,
    {
        let w: LayoutWord = inside[i];
        let n: usize = rows.len();
        let ghost before = rows@;
        let on: bool = n > 0 && rows[n - 1].page == w.page && is_level(
            rows[n - 1].area.y1,
            w.area.y1,
            unit,
        );
        if on {
            let area: Area = around(rows[n - 1].area, w.area);
            rows.set(n - 1, AnnotRect { page: w.page, area });
            assert(rows@ =~= before.drop_last().push(AnnotRect { page: w.page, area }));
        } else {
            rows.push(AnnotRect { page: w.page, area: w.area });
        }
        i = i + 1;
    }
    rows
}

// ----------------------------------------------------------------- the regions

/// What a region is.
#[derive(Debug, Clone, Copy, PartialEq, Eq, Structural)]
pub enum RegionKind {
    /// A heading.
    Heading,
    /// An item of a list.
    Item,
    /// A paragraph.
    Para,
}

/// The name of a kind of region.
pub open spec fn region_name(kind: RegionKind) -> Seq<char> {
    match kind {
        RegionKind::Heading => "heading"@,
        RegionKind::Item => "item"@,
        RegionKind::Para => "para"@,
    }
}

impl RegionKind {
    /// The name of the kind.
    pub fn name(self) -> (r: &'static str)
        ensures
            r@ == region_name(self),
    {
        match self {
            RegionKind::Heading => "heading",
            RegionKind::Item => "item",
            RegionKind::Para => "para",
        }
    }
}

/// A region of the document: what a click there would annotate at the
/// granularity of a block.
#[derive(Debug)]
pub struct LayoutBlock {
    /// What it is.
    pub kind: RegionKind,
    /// Where it begins in the source.
    pub s: usize,
    /// Where it ends in the source.
    pub e: usize,
    /// Its boxes, a line each.
    pub rects: Vec<AnnotRect>,
    /// Where its own mark belongs: left of a list item's marker, or at the edge of
    /// the text.
    pub gutter_x: i64,
    /// The leftmost place on its page.
    pub rail_x: i64,
}

/// A region of the document.
pub struct BlockV {
    pub kind: RegionKind,
    pub s: int,
    pub e: int,
    pub rects: Seq<AnnotRect>,
    pub gutter_x: i64,
    pub rail_x: i64,
}

impl View for LayoutBlock {
    type V = BlockV;

    open spec fn view(&self) -> BlockV {
        BlockV {
            kind: self.kind,
            s: self.s as int,
            e: self.e as int,
            rects: self.rects@,
            gutter_x: self.gutter_x,
            rail_x: self.rail_x,
        }
    }
}

/// Some regions.
pub open spec fn blocks_v(list: Seq<LayoutBlock>) -> Seq<BlockV> {
    list.map_values(|b: LayoutBlock| b@)
}

/// What kind of region a node of the syntax tree makes, if any.
pub open spec fn region_of(kind: Seq<char>) -> Option<RegionKind> {
    if kind == "Heading"@ {
        Some(RegionKind::Heading)
    } else if kind == "ListItem"@ || kind == "EnumItem"@ || kind == "TermItem"@ {
        Some(RegionKind::Item)
    } else {
        None
    }
}

/// What is measured for regions: the rendered pages, the words on them, and how
/// many units make a point.
pub struct Sheet {
    pub pages: Seq<Vec<Piece>>,
    pub words: Seq<LayoutWord>,
    pub unit: u32,
}

/// Where a region's own mark belongs, and the leftmost place on its page.
pub open spec fn margins(sheet: Sheet, kind: RegionKind, first: AnnotRect) -> (i64, i64) {
    if 1 <= first.page <= sheet.pages.len() {
        let page = sheet.pages[first.page - 1]@;
        (
            if kind == RegionKind::Item {
                marked_left(page, first.area, sheet.unit)
            } else {
                first.area.x0
            },
            rail_v(page),
        )
    } else {
        (first.area.x0, 0)
    }
}

/// Some regions with one added, where anything of it was rendered.
pub open spec fn with_region(
    list: Seq<BlockV>,
    sheet: Sheet,
    kind: RegionKind,
    s: int,
    e: int,
) -> Seq<BlockV> {
    let rects = word_rects(sheet.words, s, e, sheet.unit);
    if rects.len() == 0 {
        list
    } else {
        let edges = margins(sheet, kind, rects[0]);
        list.push(BlockV { kind, s, e, rects, gutter_x: edges.0, rail_x: edges.1 })
    }
}

/// The regions that the first of some nodes make.
pub open spec fn tree_regions(
    tree: Seq<(int, Seq<char>, int, int)>,
    n: nat,
    sheet: Sheet,
) -> Seq<BlockV>
    decreases n,
{
    if n == 0 || n > tree.len() {
        seq![]
    } else {
        let before = tree_regions(tree, (n - 1) as nat, sheet);
        let node = tree[n - 1];
        match region_of(node.1) {
            Some(kind) => with_region(before, sheet, kind, node.2, node.3),
            None => before,
        }
    }
}

/// Some regions and those that the first of some paragraphs make.
pub open spec fn para_regions(list: Seq<BlockV>, paras: Seq<(int, int)>, n: nat, sheet: Sheet) -> Seq<
    BlockV,
>
    decreases n,
{
    if n == 0 || n > paras.len() {
        list
    } else {
        with_region(
            para_regions(list, paras, (n - 1) as nat, sheet),
            sheet,
            RegionKind::Para,
            paras[n - 1].0,
            paras[n - 1].1,
        )
    }
}

/// How far left a region reaches with the first of some regions, where they are
/// in it.
pub open spec fn reach(list: Seq<BlockV>, n: nat, b: BlockV) -> i64
    decreases n,
{
    if n == 0 || n > list.len() {
        b.gutter_x
    } else {
        let before = reach(list, (n - 1) as nat, b);
        let inner = list[n - 1];
        if b.s <= inner.s && inner.e <= b.e && inner.gutter_x < before {
            inner.gutter_x
        } else {
            before
        }
    }
}

/// Some regions, each reaching as far left as anything in it: a paragraph made of
/// bullets owns their markers.
pub open spec fn reaching(list: Seq<BlockV>) -> Seq<BlockV> {
    list.map_values(|b: BlockV| BlockV { gutter_x: reach(list, list.len(), b), ..b })
}

/// The regions of a document: its headings and items as the syntax has them, and
/// its paragraphs.
pub open spec fn regions(
    tree: Seq<(int, Seq<char>, int, int)>,
    paras: Seq<(int, int)>,
    sheet: Sheet,
) -> Seq<BlockV> {
    reaching(para_regions(tree_regions(tree, tree.len(), sheet), paras, paras.len(), sheet))
}

/// Adds a region, where anything of it was rendered.
fn add_region(
    list: &mut Vec<LayoutBlock>,
    pages: &Vec<Vec<Piece>>,
    words: &Vec<LayoutWord>,
    unit: u32,
    kind: RegionKind,
    s: usize,
    e: usize,
)
    ensures
        blocks_v(final(list)@) == with_region(
            blocks_v(old(list)@),
            Sheet { pages: pages@, words: words@, unit },
            kind,
            s as int,
            e as int,
        ),
{
    let ghost sheet = Sheet { pages: pages@, words: words@, unit };
    let rects: Vec<AnnotRect> = rects_from_words(words, s..e, unit);
    if rects.len() == 0 {
        return;
    }
    let first: AnnotRect = rects[0];
    let inside: bool = 1 <= first.page && first.page <= pages.len();
    let gutter_x: i64 = if inside && kind == RegionKind::Item {
        extend_to_marker(&pages[first.page - 1], first.area, unit)
    } else {
        first.area.x0
    };
    let rail_x: i64 = if inside {
        page_rail(&pages[first.page - 1])
    } else {
        0
    };
    let b: LayoutBlock = LayoutBlock { kind, s, e, rects, gutter_x, rail_x };
    let ghost before = blocks_v(list@);
    let ghost v = b@;
    list.push(b);
    assert(blocks_v(list@) =~= before.push(v));
}

/// The regions of a document, of what its syntax is.
pub fn regions_from(
    pages: &Vec<Vec<Piece>>,
    words: &Vec<LayoutWord>,
    unit: u32,
    tree: &Vec<(usize, String, usize, usize)>,
    paras: &Vec<Range<usize>>,
) -> (r: Vec<LayoutBlock>)
    ensures
        blocks_v(r@) == regions(
            branches(tree@),
            paras@.map_values(|p: Range<usize>| pair(p)),
            Sheet { pages: pages@, words: words@, unit },
        ),
{
    let ghost sheet = Sheet { pages: pages@, words: words@, unit };
    let ghost nodes = branches(tree@);
    let ghost spans = paras@.map_values(|p: Range<usize>| pair(p));
    let mut out: Vec<LayoutBlock> = Vec::new();
    let mut i: usize = 0;
    assert(blocks_v(out@) =~= tree_regions(nodes, 0, sheet));
    while i < tree.len()
        invariant
            i <= tree@.len(),
            sheet == (Sheet { pages: pages@, words: words@, unit }),
            nodes == branches(tree@),
            blocks_v(out@) == tree_regions(nodes, i as nat, sheet),
        decreases tree@.len() - i,
    {
        assert(nodes[i as int] == branch(tree@[i as int]));
        let kind: &str = tree[i].1.as_str();
        if same(kind, "Heading") {
            add_region(&mut out, pages, words, unit, RegionKind::Heading, tree[i].2, tree[i].3);
        } else if same(kind, "ListItem") || same(kind, "EnumItem") || same(kind, "TermItem") {
            add_region(&mut out, pages, words, unit, RegionKind::Item, tree[i].2, tree[i].3);
        }
        i = i + 1;
    }
    let ghost base = blocks_v(out@);
    let mut j: usize = 0;
    while j < paras.len()
        invariant
            j <= paras@.len(),
            sheet == (Sheet { pages: pages@, words: words@, unit }),
            spans == paras@.map_values(|p: Range<usize>| pair(p)),
            blocks_v(out@) == para_regions(base, spans, j as nat, sheet),
        decreases paras@.len() - j,
    {
        assert(spans[j as int] == pair(paras@[j as int]));
        add_region(&mut out, pages, words, unit, RegionKind::Para, paras[j].start, paras[j].end);
        j = j + 1;
    }
    let ghost all = blocks_v(out@);
    let mut reached: Vec<i64> = Vec::new();
    let mut k: usize = 0;
    while k < out.len()
        invariant
            k <= out@.len(),
            all == blocks_v(out@),
            reached@.len() == k,
            forall|m: int| 0 <= m < k ==> #[trigger] reached@[m] == reach(all, all.len(), all[m]),
        decreases out@.len() - k,
    {
        let mut x: i64 = out[k].gutter_x;
        let mut m: usize = 0;
        assert(all[k as int] == out@[k as int]@);
        while m < out.len()
            invariant
                k < out@.len(),
                m <= out@.len(),
                all == blocks_v(out@),
                x == reach(all, m as nat, all[k as int]),
            decreases out@.len() - m,
        {
            assert(all[m as int] == out@[m as int]@);
            assert(all[k as int] == out@[k as int]@);
            if out[k].s <= out[m].s && out[m].e <= out[k].e && out[m].gutter_x < x {
                x = out[m].gutter_x;
            }
            m = m + 1;
        }
        reached.push(x);
        k = k + 1;
    }
    let mut n: usize = 0;
    while n < out.len()
        invariant
            n <= out@.len(),
            reached@.len() == out@.len(),
            all.len() == out@.len(),
            forall|m: int| 0 <= m < all.len() ==> #[trigger] reached@[m] == reach(all, all.len(), all[m]),
            forall|m: int|
                0 <= m < n ==> #[trigger] blocks_v(out@)[m] == (BlockV {
                    gutter_x: reach(all, all.len(), all[m]),
                    ..all[m]
                }),
            forall|m: int| n <= m < all.len() ==> #[trigger] blocks_v(out@)[m] == all[m],
        decreases out@.len() - n,
    {
        let ghost before = blocks_v(out@);
        out[n].gutter_x = reached[n];
        proof {
            assert(before[n as int] == all[n as int]);
            assert(blocks_v(out@) =~= before.update(
                n as int,
                BlockV { gutter_x: reached@[n as int], ..before[n as int] },
            ));
        }
        n = n + 1;
    }
    assert(blocks_v(out@) =~= reaching(all));
    out
}

/// The regions of a document, as a page is sent them.
pub fn layout_map(pages: &Vec<Vec<Piece>>, text: &str, unit: u32) -> (r: Vec<LayoutBlock>)
    requires
        encode_utf8(text@).len() + 2 <= usize::MAX,
    ensures
        blocks_v(r@) == regions(
            syntax_tree(text@),
            paragraphs_from(encode_utf8(text@), 0),
            Sheet { pages: pages@, words: words_v(pages@, pages@.len(), text@, unit), unit },
        ),
{
    let words: Vec<LayoutWord> = layout_words(pages, text, unit);
    let tree: Vec<(usize, String, usize, usize)> = tree_of(text);
    let paras: Vec<Range<usize>> = paragraphs(text);
    regions_from(pages, &words, unit, &tree, &paras)
}

/// A region reaches at least as far left as any region in it.
pub proof fn a_region_holds_its_marks(list: Seq<BlockV>, n: nat, b: BlockV, k: int)
    requires
        0 <= k < n <= list.len(),
        b.s <= list[k].s,
        list[k].e <= b.e,
    ensures
        reach(list, n, b) <= list[k].gutter_x,
        reach(list, n, b) <= b.gutter_x,
    decreases n,
{
    lemma_reach(list, n, b);
    if k < n - 1 {
        a_region_holds_its_marks(list, (n - 1) as nat, b, k);
    }
}

proof fn lemma_reach(list: Seq<BlockV>, n: nat, b: BlockV)
    ensures
        reach(list, n, b) <= b.gutter_x,
    decreases n,
{
    if 0 < n <= list.len() {
        lemma_reach(list, (n - 1) as nat, b);
    }
}

// --------------------------------------------------------------- what is in a word

/// The words in a stretch of the source are those that lie in it whole.
pub proof fn words_lie_in_their_stretch(words: Seq<LayoutWord>, n: nat, start: int, end: int, w: LayoutWord)
    requires
        n <= words.len(),
    ensures
        words_inside(words, n, start, end).contains(w) <==> start <= w.s && w.e <= end && words.take(
            n as int,
        ).contains(w),
    decreases n,
{
    let all = words_inside(words, n, start, end);
    if n > 0 {
        let before = words_inside(words, (n - 1) as nat, start, end);
        words_lie_in_their_stretch(words, (n - 1) as nat, start, end, w);
        let head = words.take(n as int);
        let rest = words.take(n - 1);
        if all.contains(w) {
            let k = all.index_of(w);
            if k < before.len() {
                assert(before[k] == w);
                let i = rest.index_of(w);
                assert(head[i] == w);
            } else {
                assert(head[n - 1] == w);
            }
        }
        if start <= w.s && w.e <= end && head.contains(w) {
            let i = head.index_of(w);
            if i < n - 1 {
                assert(rest[i] == w);
                let k = before.index_of(w);
                assert(all[k] == w);
            } else {
                assert(all[before.len() as int] == w);
            }
        }
    }
}

/// Whether one of some boxes on a word's page reaches around the word.
pub open spec fn word_boxed(rows: Seq<AnnotRect>, w: LayoutWord) -> bool {
    exists|i: int|
        0 <= i < rows.len() && (#[trigger] rows[i]).page == w.page && rows[i].area.x0 <= w.area.x0
            && rows[i].area.y0 <= w.area.y0 && w.area.x1 <= rows[i].area.x1 && w.area.y1
            <= rows[i].area.y1
}

/// Every word is boxed in on its page.
pub proof fn every_word_is_boxed(words: Seq<LayoutWord>, n: nat, unit: u32, k: int)
    requires
        0 <= k < n <= words.len(),
    ensures
        word_boxed(word_rows(words, n, unit), words[k]),
    decreases n,
{
    let before = word_rows(words, (n - 1) as nat, unit);
    let after = word_rows(words, n, unit);
    let w = words[n - 1];
    if k == n - 1 {
        assert(after.last().page == w.page);
        assert(after[after.len() - 1].area.x0 <= w.area.x0);
    } else {
        every_word_is_boxed(words, (n - 1) as nat, unit, k);
        let i = choose|i: int|
            0 <= i < before.len() && (#[trigger] before[i]).page == words[k].page && before[i].area.x0
                <= words[k].area.x0 && before[i].area.y0 <= words[k].area.y0 && words[k].area.x1
                <= before[i].area.x1 && words[k].area.y1 <= before[i].area.y1;
        assert(after[i].page == words[k].page);
    }
}

/// Between an offset and the first boundary from it on there is none.
proof fn lemma_first_boundary(text: Seq<char>, at: int)
    ensures
        at <= boundary_from(text, at),
        forall|i: int| at <= i < boundary_from(text, at) ==> !boundary(text, i),
    decreases encode_utf8(text).len() - at,
{
    if !(boundary(text, at) || at >= encode_utf8(text).len()) {
        lemma_first_boundary(text, at + 1);
    }
}

/// A word stops at the first white space after a place in it, or at the end that was given.
pub proof fn a_word_stops_at_white_space(text: Seq<char>, at: int, end: int)
    requires
        boundary(text, at),
        boundary(text, end),
    ensures
        ({
            let stop = word_stop(text, at, end);
            &&& at <= stop
            &&& forall|i: int| at <= i < stop && boundary(text, i) ==> !gap_at(text, i)
            &&& stop >= end || gap_at(text, stop)
            &&& at <= end ==> stop <= end
        }),
    decreases encode_utf8(text).len() - at,
{
    let n = encode_utf8(text).len() as int;
    lemma_encoded(text);
    lemma_boundary_inside(encode_utf8(text), end);
    if at < end && !gap_at(text, at) {
        let next = boundary_from(text, at + 1);
        lemma_first_boundary(text, at + 1);
        lemma_next_inside(text, at + 1);
        a_word_stops_at_white_space(text, next, end);
        let stop = word_stop(text, at, end);
        assert forall|i: int| at <= i < stop && boundary(text, i) implies !gap_at(text, i) by {
            if i > at && i < next {
                assert(!boundary(text, i));
            }
        }
    }
}

/// There is a boundary at or after any offset in a text.
proof fn lemma_next_inside(text: Seq<char>, at: int)
    requires
        0 <= at <= encode_utf8(text).len(),
    ensures
        boundary_from(text, at) <= encode_utf8(text).len(),
        boundary(text, boundary_from(text, at)),
    decreases encode_utf8(text).len() - at,
{
    lemma_encoded(text);
    if !boundary(text, at) && at < encode_utf8(text).len() {
        lemma_next_inside(text, at + 1);
    }
}

/// Whether a word on a page reaches as far as a glyph does, in the source and to the right.
pub open spec fn reads_glyph(w: LayoutWord, g: Glyph, page: usize) -> bool {
    w.page == page && w.e >= glyph_stop(g.at->Some_0, g.len) && g.area.x1 <= w.area.x1
}

/// Every glyph that is not white space is read into a word.
pub proof fn every_glyph_is_read(
    glyphs: Seq<Glyph>,
    n: nat,
    out: Seq<LayoutWord>,
    page: usize,
    text: Seq<char>,
    unit: u32,
    k: int,
)
    requires
        0 <= k < n <= glyphs.len(),
        glyphs[k].at matches Some(at) && !gap_at(text, at as int),
    ensures
        ({
            let read = read_glyphs(glyphs, n, out, page, text, unit);
            ||| read.1 matches Some(w) && reads_glyph(w, glyphs[k], page)
            ||| exists|i: int| 0 <= i < read.0.len() && reads_glyph(#[trigger] read.0[i], glyphs[k], page)
        }),
    decreases n,
{
    lemma_open_word(glyphs, n, out, page, text, unit);
    lemma_open_word(glyphs, (n - 1) as nat, out, page, text, unit);
    let read = read_glyphs(glyphs, n, out, page, text, unit);
    let before = read_glyphs(glyphs, (n - 1) as nat, out, page, text, unit);
    if k < n - 1 {
        every_glyph_is_read(glyphs, (n - 1) as nat, out, page, text, unit, k);
        if exists|i: int|
            0 <= i < before.0.len() && reads_glyph(#[trigger] before.0[i], glyphs[k], page) {
            let i = choose|i: int|
                0 <= i < before.0.len() && reads_glyph(#[trigger] before.0[i], glyphs[k], page);
            assert(read.0[i] == before.0[i]);
        } else {
            let w = before.1->Some_0;
            if read.0.len() > before.0.len() {
                assert(read.0[before.0.len() as int] == w);
            }
        }
    }
}

/// The word being read is on its page.
proof fn lemma_open_word(
    glyphs: Seq<Glyph>,
    n: nat,
    out: Seq<LayoutWord>,
    page: usize,
    text: Seq<char>,
    unit: u32,
)
    ensures
        read_glyphs(glyphs, n, out, page, text, unit).1 matches Some(w) ==> w.page == page,
    decreases n,
{
    if 0 < n <= glyphs.len() {
        lemma_open_word(glyphs, (n - 1) as nat, out, page, text, unit);
    }
}

/// Every heading and every item that has a word on a page is a region, and so is every paragraph;
/// each reaches over exactly its stretch of the source.
pub proof fn every_block_with_words_is_a_region(
    tree: Seq<(int, Seq<char>, int, int)>,
    n: nat,
    sheet: Sheet,
    k: int,
)
    requires
        0 <= k < n <= tree.len(),
        tree[k].1 == "Heading"@ || tree[k].1 == "ListItem"@ || tree[k].1 == "EnumItem"@ || tree[k].1
            == "TermItem"@,
        word_rects(sheet.words, tree[k].2, tree[k].3, sheet.unit).len() > 0,
    ensures
        exists|i: int|
            0 <= i < tree_regions(tree, n, sheet).len() && (#[trigger] tree_regions(tree, n, sheet)[i]).s
                == tree[k].2 && tree_regions(tree, n, sheet)[i].e == tree[k].3 && tree_regions(
                tree,
                n,
                sheet,
            )[i].rects == word_rects(sheet.words, tree[k].2, tree[k].3, sheet.unit) && (
            tree_regions(tree, n, sheet)[i].kind == RegionKind::Heading <==> tree[k].1 == "Heading"@),
    decreases n,
{
    reveal_strlit("Heading");
    reveal_strlit("ListItem");
    reveal_strlit("EnumItem");
    reveal_strlit("TermItem");
    assert("Heading"@.len() == 7 && "ListItem"@.len() == 8 && "EnumItem"@.len() == 8
        && "TermItem"@.len() == 8);
    let before = tree_regions(tree, (n - 1) as nat, sheet);
    let all = tree_regions(tree, n, sheet);
    if k < n - 1 {
        every_block_with_words_is_a_region(tree, (n - 1) as nat, sheet, k);
        let i = choose|i: int|
            0 <= i < before.len() && (#[trigger] before[i]).s == tree[k].2 && before[i].e == tree[k].3
                && before[i].rects == word_rects(sheet.words, tree[k].2, tree[k].3, sheet.unit) && (
            before[i].kind == RegionKind::Heading <==> tree[k].1 == "Heading"@);
        assert(all[i] == before[i]);
    } else {
        assert(all[before.len() as int].s == tree[k].2);
    }
}

/// Every paragraph that has a word on a page is a region, after those there were.
pub proof fn every_paragraph_with_words_is_a_region(
    list: Seq<BlockV>,
    paras: Seq<(int, int)>,
    n: nat,
    sheet: Sheet,
    k: int,
)
    requires
        0 <= k < n <= paras.len(),
        word_rects(sheet.words, paras[k].0, paras[k].1, sheet.unit).len() > 0,
    ensures
        exists|i: int|
            list.len() <= i < para_regions(list, paras, n, sheet).len() && (#[trigger] para_regions(
                list,
                paras,
                n,
                sheet,
            )[i]).s == paras[k].0 && para_regions(list, paras, n, sheet)[i].e == paras[k].1
                && para_regions(list, paras, n, sheet)[i].kind == RegionKind::Para,
    decreases n,
{
    lemma_regions_stay(list, paras, (n - 1) as nat, sheet);
    let before = para_regions(list, paras, (n - 1) as nat, sheet);
    let all = para_regions(list, paras, n, sheet);
    if k < n - 1 {
        every_paragraph_with_words_is_a_region(list, paras, (n - 1) as nat, sheet, k);
        let i = choose|i: int|
            list.len() <= i < before.len() && (#[trigger] before[i]).s == paras[k].0 && before[i].e
                == paras[k].1 && before[i].kind == RegionKind::Para;
        assert(all[i] == before[i]);
    } else {
        assert(all[before.len() as int].s == paras[k].0);
    }
}

/// The regions there were stay.
proof fn lemma_regions_stay(list: Seq<BlockV>, paras: Seq<(int, int)>, n: nat, sheet: Sheet)
    requires
        n <= paras.len(),
    ensures
        list.len() <= para_regions(list, paras, n, sheet).len(),
    decreases n,
{
    if n > 0 {
        lemma_regions_stay(list, paras, (n - 1) as nat, sheet);
    }
}

} // verus!

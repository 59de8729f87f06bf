//! Where annotations stand on the rendered pages.

use std::ops::Range;

use vstd::prelude::*;
use vstd::string::*;
use vstd::utf8::*;

use crate::bytes::{boundary, byte_len, chars_between, lemma_boundary_inside, lemma_encoded};
use crate::preview::anchors::{
    anchors_of, can_seek, find_anchors, places, scope_name, FoundAnchor, Scope,
};
use crate::preview::click::{climb, climbed, Point};
use crate::preview::layout::{
    gutter_of, gutter_v, page_rail, rail_v, range_rects, rects_v, AnnotRect, Glyph, Piece, Run,
    Sought,
};
use crate::preview::sidecar::{
    copy_replies, records, replies, AnnotationRecord, AnnotationReply, RecordView,
};
use crate::ranges::{
    a_paragraph_ends_at_blank_lines, a_sentence_ends_at_its_first_stop, a_word_has_no_white_space,
    paragraph_end, paragraph_is_around, paragraph_range, paragraph_start, sentence_end,
    sentence_is_inside, sentence_range, sentence_start, word_range, word_start,
};
use crate::syntax::{enclosing, enclosing_nodes, node, nodes};
use crate::text::{ends, ends_with, same};

verus! {

/// A file of the document: its text, and the pages as they came from it.
#[derive(Debug)]
pub struct Shown {
    /// The text.
    pub text: String,
    /// The pages. A glyph says where in this file it came from.
    pub pages: Vec<Vec<Piece>>,
}

// ---------------------------------------------------------------- what is meant

/// Where the last anchor behind the first of a list begins that ends a span, among
/// the first of the list.
pub open spec fn span_stop(text: Seq<char>, list: Seq<(int, Scope, int)>, n: nat) -> Option<int>
    decreases n,
{
    if n == 0 || n > list.len() {
        None
    } else if list[n - 1].0 > list[0].0 && ends(
        chars_between(text, list[n - 1].0, list[n - 1].2),
        ".end>"@,
    ) {
        Some(list[n - 1].0)
    } else {
        span_stop(text, list, (n - 1) as nat)
    }
}

/// Whether a node is a block of text of its own.
pub open spec fn is_item(kind: Seq<char>) -> bool {
    kind == "ListItem"@ || kind == "EnumItem"@ || kind == "TermItem"@ || kind == "Heading"@
}

/// The innermost block of text among some nodes, from one on.
pub open spec fn item_from(list: Seq<(Seq<char>, int, int)>, from: int) -> Option<(int, int)>
    decreases list.len() - from,
{
    if from < 0 || from >= list.len() {
        None
    } else if is_item(list[from].0) {
        Some((list[from].1, list[from].2))
    } else {
        item_from(list, from + 1)
    }
}

/// The stretch of source an annotation refers to, read off its anchors and the
/// syntax around the first. A point refers to none; one that stands in no syntax at
/// all where that is asked for cannot be shown.
pub open spec fn referent(
    text: Seq<char>,
    list: Seq<(int, Scope, int)>,
    around: Seq<(Seq<char>, int, int)>,
) -> Option<Option<(int, int)>> {
    let bytes = encode_utf8(text);
    let at = list[0].0;
    match list[0].1 {
        Scope::Point => Some(None),
        Scope::Word => Some(Some((word_start(bytes, at), at))),
        Scope::Sentence => Some(Some((sentence_start(bytes, at), sentence_end(bytes, at)))),
        Scope::Para => Some(Some((paragraph_start(bytes, at), paragraph_end(bytes, at)))),
        Scope::Span => Some(
            Some(
                (
                    list[0].2,
                    match span_stop(text, list, list.len()) {
                        Some(stop) => stop,
                        None => list[0].2,
                    },
                ),
            ),
        ),
        Scope::Item => if around.len() == 0 {
            None
        } else {
            Some(
                match item_from(around, 0) {
                    Some(range) => Some(range),
                    None => Some((paragraph_start(bytes, at), paragraph_end(bytes, at))),
                },
            )
        },
        Scope::Block => if around.len() == 0 {
            None
        } else {
            let i = climbed(around, 0);
            Some(Some((around[i].1, around[i].2)))
        },
    }
}

/// A stretch that may be none.
pub open spec fn stretch(range: Option<Range<usize>>) -> Option<(int, int)> {
    match range {
        Some(range) => Some((range.start as int, range.end as int)),
        None => None,
    }
}

/// A stretch that may be none, if it can be said at all.
pub open spec fn stretches(range: Option<Option<Range<usize>>>) -> Option<Option<(int, int)>> {
    match range {
        Some(range) => Some(stretch(range)),
        None => None,
    }
}

/// Where the last anchor behind the first begins that ends a span.
fn find_span_stop(text: &str, anchors: &Vec<FoundAnchor>) -> (r: Option<usize>)
    requires
        anchors@.len() > 0,
        forall|i: int|
            0 <= i < anchors@.len() ==> (#[trigger] anchors@[i]).label@ == chars_between(
                text@,
                anchors@[i].place().0,
                anchors@[i].place().2,
            ),
    ensures
        match r {
            Some(stop) => span_stop(text@, places(anchors@), anchors@.len()) == Some(stop as int),
            None => span_stop(text@, places(anchors@), anchors@.len()) is None,
        },
{
    let ghost list = places(anchors@);
    assert(list[0] == anchors@[0].place());
    let mut n: usize = anchors.len();
    while n > 0
        invariant
            n <= anchors@.len(),
            anchors@.len() > 0,
            list == places(anchors@),
            list[0] == anchors@[0].place(),
            span_stop(text@, list, n as nat) == span_stop(text@, list, anchors@.len()),
            forall|i: int|
                0 <= i < anchors@.len() ==> (#[trigger] anchors@[i]).label@ == chars_between(
                    text@,
                    anchors@[i].place().0,
                    anchors@[i].place().2,
                ),
        decreases n,
    {
        assert(list[n - 1] == anchors@[n - 1].place());
        if anchors[n - 1].at > anchors[0].at && ends_with(anchors[n - 1].label.as_str(), ".end>") {
            return Some(anchors[n - 1].at);
        }
        n = n - 1;
    }
    None
}

/// The innermost block of text among some nodes.
fn find_item(list: &Vec<(String, usize, usize)>) -> (r: Option<Range<usize>>)
    ensures
        stretch(r) == item_from(nodes(list@), 0),
{
    let ghost all = nodes(list@);
    let mut i: usize = 0;
    while i < list.len()
        invariant
            i <= list@.len(),
            all == nodes(list@),
            item_from(all, i as int) == item_from(all, 0),
        decreases list@.len() - i,
    {
        assert(all[i as int] == node(list@[i as int]));
        let kind: &str = list[i].0.as_str();
        if same(kind, "ListItem") || same(kind, "EnumItem") || same(kind, "TermItem") || same(
            kind,
            "Heading",
        ) {
            return Some(list[i].1..list[i].2);
        }
        i = i + 1;
    }
    None
}

/// The stretch of source an annotation refers to.
pub fn refers_to(
    text: &str,
    anchors: &Vec<FoundAnchor>,
    around: &Vec<(String, usize, usize)>,
) -> (r: Option<Option<Range<usize>>>)
    requires
        anchors@.len() > 0,
        boundary(text@, anchors@[0].place().0),
        boundary(text@, anchors@[0].place().2),
        forall|i: int|
            0 <= i < anchors@.len() ==> (#[trigger] anchors@[i]).label@ == chars_between(
                text@,
                anchors@[i].place().0,
                anchors@[i].place().2,
            ),
    ensures
        stretches(r) == referent(text@, places(anchors@), nodes(around@)),
{
    let ghost list = places(anchors@);
    assert(list[0] == anchors@[0].place());
    proof {
        lemma_encoded(text@);
        lemma_boundary_inside(encode_utf8(text@), list[0].0);
        lemma_boundary_inside(encode_utf8(text@), list[0].2);
    }
    let at: usize = anchors[0].at;
    match anchors[0].scope {
        Scope::Point => Some(None),
        Scope::Word => Some(Some(word_range(text, at))),
        Scope::Sentence => Some(Some(sentence_range(text, at))),
        Scope::Para => Some(Some(paragraph_range(text, at))),
        Scope::Span => {
            let total: usize = byte_len(text);
            let after: usize = at + byte_len(anchors[0].label.as_str());
            let stop: usize = match find_span_stop(text, anchors) {
                Some(stop) => stop,
                None => after,
            };
            Some(Some(after..stop))
        },
        Scope::Item => if around.len() == 0 {
            None
        } else {
            match find_item(around) {
                Some(range) => Some(Some(range)),
                None => Some(Some(paragraph_range(text, at))),
            }
        },
        Scope::Block => if around.len() == 0 {
            None
        } else {
            let i: usize = climb(around);
            assert(nodes(around@)[i as int] == node(around@[i as int]));
            Some(Some(around[i].1..around[i].2))
        },
    }
}

// ------------------------------------------------------------------ the exact place

/// Where a caret for a place in the source would stand, as far as is known: right
/// before the first glyph at or behind the place, or, before one is found, right
/// behind the last glyph that ends at or before it.
#[derive(Debug, Clone, Copy, PartialEq, Eq, Structural)]
pub struct Caret {
    /// Before the first glyph at or behind the place.
    pub exact: Option<Point>,
    /// Behind the last glyph that ends at or before it.
    pub after: Option<Point>,
}

/// A caret with one glyph more looked at. Only glyphs of the leaf the place is in
/// count.
pub open spec fn caret_glyph(g: Glyph, baseline: i64, leaf: (int, int), at: int, c: Caret) -> Caret {
    match g.at {
        Some(start) if c.exact is None && g.from == leaf.0 && g.stop == leaf.1 => if at <= start {
            Caret { exact: Some(Point { x: g.area.x0, y: baseline }), after: c.after }
        } else if start + g.len <= at {
            Caret { exact: c.exact, after: Some(Point { x: g.area.x1, y: baseline }) }
        } else {
            c
        },
        _ => c,
    }
}

/// A caret with the first glyphs of a run looked at.
pub open spec fn caret_run(
    glyphs: Seq<Glyph>,
    n: nat,
    baseline: i64,
    leaf: (int, int),
    at: int,
    c: Caret,
) -> Caret
    decreases n,
{
    if n == 0 || n > glyphs.len() {
        c
    } else {
        caret_glyph(
            glyphs[n - 1],
            baseline,
            leaf,
            at,
            caret_run(glyphs, (n - 1) as nat, baseline, leaf, at, c),
        )
    }
}

/// A caret with one thing more looked at.
pub open spec fn caret_piece(p: Piece, leaf: (int, int), at: int, c: Caret) -> Caret
    decreases p, 0nat,
{
    match p {
        Piece::Group(_, inner) => caret_pieces(inner@, inner@.len(), leaf, at, c),
        Piece::Run(run) => caret_run(run.glyphs@, run.glyphs@.len(), run.baseline, leaf, at, c),
        Piece::Solid(_, _) => c,
    }
}

/// A caret with the first of some things looked at.
pub open spec fn caret_pieces(list: Seq<Piece>, n: nat, leaf: (int, int), at: int, c: Caret) -> Caret
    decreases list, n,
{
    if n == 0 || n > list.len() {
        c
    } else {
        caret_piece(list[n - 1], leaf, at, caret_pieces(list, (n - 1) as nat, leaf, at, c))
    }
}

/// A caret with one thing more looked at.
fn look_at_piece(p: &Piece, leaf: (usize, usize), at: usize, c: Caret) -> (r: Caret)
    ensures
        r == caret_piece(*p, (leaf.0 as int, leaf.1 as int), at as int, c),
    decreases *p, 0nat,
{
    match p {
        Piece::Group(_, inner) => look_at_pieces(inner, leaf, at, c),
        Piece::Run(run) => {
            let ghost whole = (leaf.0 as int, leaf.1 as int);
            let mut caret: Caret = c;
            let mut i: usize = 0;
            while i < run.glyphs.len()
                invariant
                    i <= run.glyphs@.len(),
                    whole == (leaf.0 as int, leaf.1 as int),
                    caret == caret_run(run.glyphs@, i as nat, run.baseline, whole, at as int, c),
                decreases run.glyphs@.len() - i,
            {
                let g: Glyph = run.glyphs[i];
                if let Some(start) = g.at {
                    if caret.exact.is_none() && g.from == leaf.0 && g.stop == leaf.1 {
                        if at <= start {
                            caret =
                            Caret {
                                exact: Some(Point { x: g.area.x0, y: run.baseline }),
                                after: caret.after,
                            };
                        } else if g.len <= at - start {
                            caret =
                            Caret {
                                exact: caret.exact,
                                after: Some(Point { x: g.area.x1, y: run.baseline }),
                            };
                        }
                    }
                }
                i = i + 1;
            }
            caret
        },
        Piece::Solid(_, _) => c,
    }
}

/// A caret with some things looked at.
fn look_at_pieces(list: &Vec<Piece>, leaf: (usize, usize), at: usize, c: Caret) -> (r: Caret)
    ensures
        r == caret_pieces(list@, list@.len(), (leaf.0 as int, leaf.1 as int), at as int, c),
    decreases list@, 1nat,
{
    let ghost whole = (leaf.0 as int, leaf.1 as int);
    let mut caret: Caret = c;
    let mut i: usize = 0;
    while i < list.len()
        invariant
            i <= list@.len(),
            whole == (leaf.0 as int, leaf.1 as int),
            caret == caret_pieces(list@, i as nat, whole, at as int, c),
        decreases list@.len() - i,
    {
        assert(decreases_to!(list@ => list@[i as int]));
        caret = look_at_piece(&list[i], leaf, at, caret);
        i = i + 1;
    }
    caret
}

/// Where on a page a caret for a place in the source stands.
pub open spec fn caret_on(page: Seq<Piece>, leaf: (int, int), at: int) -> Option<Point> {
    let c = caret_pieces(page, page.len(), leaf, at, Caret { exact: None, after: None });
    if c.exact is Some {
        c.exact
    } else {
        c.after
    }
}

/// The first page, from one on, that has a caret for a place in the source, counted
/// from one, and where it stands there.
pub open spec fn caret_from(
    pages: Seq<Vec<Piece>>,
    leaf: (int, int),
    at: int,
    from: int,
) -> Option<(int, Point)>
    decreases pages.len() - from,
{
    if from < 0 || from >= pages.len() {
        None
    } else {
        match caret_on(pages[from]@, leaf, at) {
            Some(p) => Some((from + 1, p)),
            None => caret_from(pages, leaf, at, from + 1),
        }
    }
}

/// The exact place on the pages of a place in the source. Only text has one.
pub open spec fn exact_place(
    pages: Seq<Vec<Piece>>,
    around: Seq<(Seq<char>, int, int)>,
    at: int,
) -> Option<(int, Point)> {
    if around.len() > 0 && around[0].0 == "Text"@ && around[0].1 <= at {
        caret_from(pages, (around[0].1, around[0].2), at, 0)
    } else {
        None
    }
}

/// A page and a place.
pub open spec fn on_sheet(p: Option<(usize, Point)>) -> Option<(int, Point)> {
    match p {
        Some((page, p)) => Some((page as int, p)),
        None => None,
    }
}

/// The exact place on the pages of a place in the source. `around` are the nodes of
/// the syntax around it, innermost first.
pub fn exact_anchor_position(
    pages: &Vec<Vec<Piece>>,
    around: &Vec<(String, usize, usize)>,
    at: usize,
) -> (r: Option<(usize, Point)>)
    ensures
        on_sheet(r) == exact_place(pages@, nodes(around@), at as int),
{
    if around.len() == 0 {
        return None;
    }
    assert(nodes(around@)[0] == node(around@[0]));
    if !same(around[0].0.as_str(), "Text") || around[0].1 > at {
        return None;
    }
    let leaf: (usize, usize) = (around[0].1, around[0].2);
    let ghost whole = (leaf.0 as int, leaf.1 as int);
    let total: usize = pages.len();
    let mut i: usize = 0;
    while i < total
        invariant
            i <= total,
            total == pages@.len(),
            whole == (leaf.0 as int, leaf.1 as int),
            exact_place(pages@, nodes(around@), at as int) == caret_from(
                pages@,
                whole,
                at as int,
                i as int,
            ),
        decreases total - i,
    {
        let c: Caret = look_at_pieces(&pages[i], leaf, at, Caret { exact: None, after: None });
        let found: Option<Point> = if c.exact.is_some() {
            c.exact
        } else {
            c.after
        };
        if let Some(p) = found {
            return Some((i + 1, p));
        }
        i = i + 1;
    }
    None
}

// ------------------------------------------------------------------------- the spot

/// The middle of two numbers.
pub open spec fn middle(a: i64, b: i64) -> i64 {
    ((a + b) / 2) as i64
}

/// The middle of two numbers.
pub fn middle_of(a: i64, b: i64) -> (r: i64)
    ensures
        r == middle(a, b),
        r == (a + b) / 2,
{
    let sum: i128 = (a as i128) + (b as i128);
    let half: i128 = if sum >= 0 {
        sum / 2
    } else {
        -((1 - sum) / 2)
    };
    assert(half == (a + b) / 2);
    half as i64
}

/// Where the marker of a region stands: an item's beside its bullet, a block's
/// before its middle, and any other's under the middle of its last line.
pub open spec fn region_spot(scope: Scope, rects: Seq<AnnotRect>, gutter: i64) -> (usize, i64, i64) {
    let first = rects[0];
    let last = rects.last();
    match scope {
        Scope::Item => (first.page, gutter, middle(first.area.y0, first.area.y1)),
        Scope::Block | Scope::Para => (
            first.page,
            first.area.x0,
            middle(first.area.y0, last.area.y1),
        ),
        _ => (last.page, middle(last.area.x0, last.area.x1), last.area.y1),
    }
}

/// Where the marker of a region stands.
pub fn place_region(scope: Scope, rects: &Vec<AnnotRect>, gutter: i64) -> (r: (usize, i64, i64))
    requires
        rects@.len() > 0,
    ensures
        r == region_spot(scope, rects@, gutter),
{
    let first: AnnotRect = rects[0];
    let last: AnnotRect = rects[rects.len() - 1];
    match scope {
        Scope::Item => (first.page, gutter, middle_of(first.area.y0, first.area.y1)),
        Scope::Block | Scope::Para => (
            first.page,
            first.area.x0,
            middle_of(first.area.y0, last.area.y1),
        ),
        _ => (last.page, middle_of(last.area.x0, last.area.x1), last.area.y1),
    }
}

// ------------------------------------------------------------------------- the pins

/// An annotation and where it stands on the rendered pages.
#[derive(Debug)]
pub struct AnnotationPin {
    /// What kind of remark it is.
    pub rtype: String,
    /// Its name.
    pub uuid: String,
    /// The letter it is shown under.
    pub letter: String,
    /// Who wrote it.
    pub author: String,
    /// What it says.
    pub content: String,
    /// When, ISO 8601 UTC.
    pub time: String,
    /// How far it has got.
    pub status: String,
    /// The discussion, in order.
    pub discussion: Vec<AnnotationReply>,
    /// The page its marker is on, counted from one.
    pub page: usize,
    /// How far from the left its marker is.
    pub x: i64,
    /// How far from the top its marker is.
    pub y: i64,
    /// How wide the page is.
    pub page_width: i64,
    /// How high the page is.
    pub page_height: i64,
    /// What the annotation refers to.
    pub scope: &'static str,
    /// The boxes of what it refers to, one for each line.
    pub rects: Vec<AnnotRect>,
    /// The leftmost place on the page.
    pub rail_x: i64,
    /// The leftmost thing of what it refers to, with the bullets and numbers of any
    /// list items in it.
    pub gutter_x: i64,
}

/// What a pin says.
pub struct PinView {
    /// The annotation.
    pub record: RecordView,
    /// The page its marker is on, and where.
    pub spot: (usize, i64, i64),
    /// How large the page is.
    pub size: (i64, i64),
    /// What the annotation refers to.
    pub scope: Seq<char>,
    /// The boxes of what it refers to.
    pub rects: Seq<AnnotRect>,
    /// The leftmost place on the page.
    pub rail: i64,
    /// The leftmost thing of what it refers to.
    pub gutter: i64,
}

impl View for AnnotationPin {
    type V = PinView;

    open spec fn view(&self) -> PinView {
        PinView {
            record: RecordView {
                rtype: self.rtype@,
                uuid: self.uuid@,
                letter: self.letter@,
                author: self.author@,
                content: self.content@,
                time: self.time@,
                status: self.status@,
                discussion: replies(self.discussion@),
            },
            spot: (self.page, self.x, self.y),
            size: (self.page_width, self.page_height),
            scope: self.scope@,
            rects: self.rects@,
            rail: self.rail_x,
            gutter: self.gutter_x,
        }
    }
}

/// The boxes of what an annotation refers to.
pub open spec fn boxes(
    pages: Seq<Vec<Piece>>,
    range: Option<(int, int)>,
    scope: Scope,
    unit: u32,
) -> Seq<AnnotRect> {
    match range {
        Some((start, end)) => rects_v(
            pages,
            pages.len(),
            Sought { start: start as usize, end: end as usize, whole: scope == Scope::Block, unit },
        ),
        None => seq![],
    }
}

/// The leftmost thing of some boxes, or the edge where there are none.
pub open spec fn gutter_x(pages: Seq<Vec<Piece>>, rects: Seq<AnnotRect>, unit: u32) -> i64 {
    match gutter_v(pages, rects, rects.len(), unit) {
        Some(x) => x,
        None => 0,
    }
}

/// The pin of an annotation whose anchors a file holds.
pub open spec fn pin_in(
    record: RecordView,
    file: Shown,
    sizes: Seq<(i64, i64)>,
    unit: u32,
) -> Option<PinView> {
    let list = anchors_of(file.text@, record.uuid);
    let at = list[0].0;
    let scope = list[0].1;
    let around = enclosing_nodes(file.text@, at);
    match referent(file.text@, list, around) {
        None => None,
        Some(range) => {
            let rects = boxes(file.pages@, range, scope, unit);
            let gutter = gutter_x(file.pages@, rects, unit);
            let spot = if rects.len() > 0 && scope != Scope::Point {
                Some(region_spot(scope, rects, gutter))
            } else {
                match exact_place(file.pages@, around, at) {
                    Some((page, p)) => Some((page as usize, p.x, p.y)),
                    None => None,
                }
            };
            match spot {
                Some(spot) if 1 <= spot.0 <= sizes.len() && spot.0 <= file.pages@.len() => Some(
                    PinView {
                        record,
                        spot,
                        size: sizes[spot.0 - 1],
                        scope: scope_name(scope),
                        rects,
                        rail: rail_v(file.pages@[spot.0 - 1]@),
                        gutter,
                    },
                ),
                _ => None,
            }
        },
    }
}

/// The pin of an annotation: in the first file, from one on, that has an anchor of
/// it.
pub open spec fn pin_from(
    record: RecordView,
    files: Seq<Shown>,
    sizes: Seq<(i64, i64)>,
    unit: u32,
    from: int,
) -> Option<PinView>
    decreases files.len() - from,
{
    if from < 0 || from >= files.len() {
        None
    } else if anchors_of(files[from].text@, record.uuid).len() > 0 {
        pin_in(record, files[from], sizes, unit)
    } else {
        pin_from(record, files, sizes, unit, from + 1)
    }
}

/// The pins of the first of some annotations. One that cannot be placed has none.
pub open spec fn pins_of(
    list: Seq<RecordView>,
    files: Seq<Shown>,
    sizes: Seq<(i64, i64)>,
    unit: u32,
    n: nat,
) -> Seq<PinView>
    decreases n,
{
    if n == 0 || n > list.len() {
        seq![]
    } else {
        let before = pins_of(list, files, sizes, unit, (n - 1) as nat);
        match pin_from(list[n - 1], files, sizes, unit, 0) {
            Some(pin) => before.push(pin),
            None => before,
        }
    }
}

/// What some pins say.
pub open spec fn pin_views(list: Seq<AnnotationPin>) -> Seq<PinView> {
    list.map_values(|p: AnnotationPin| p@)
}

/// The pin of an annotation whose anchors a file holds.
fn place_pin(
    record: &AnnotationRecord,
    file: &Shown,
    anchors: &Vec<FoundAnchor>,
    sizes: &Vec<(i64, i64)>,
    unit: u32,
) -> (r: Option<AnnotationPin>)
    requires
        anchors@.len() > 0,
        places(anchors@) == anchors_of(file.text@, record.uuid@),
        boundary(file.text@, anchors@[0].place().0),
        boundary(file.text@, anchors@[0].place().2),
        forall|i: int|
            0 <= i < anchors@.len() ==> (#[trigger] anchors@[i]).label@ == chars_between(
                file.text@,
                anchors@[i].place().0,
                anchors@[i].place().2,
            ),
    ensures
        match r {
            Some(pin) => pin_in(record@, *file, sizes@, unit) == Some(pin@),
            None => pin_in(record@, *file, sizes@, unit) is None,
        },
{
    let ghost list = places(anchors@);
    assert(list[0] == anchors@[0].place());
    let text: &str = file.text.as_str();
    let at: usize = anchors[0].at;
    let scope: Scope = anchors[0].scope;
    let around: Vec<(String, usize, usize)> = enclosing(text, at);
    let range: Option<Range<usize>> = match refers_to(text, anchors, &around) {
        Some(range) => range,
        None => {
            return None;
        },
    };
    let rects: Vec<AnnotRect> = match &range {
        Some(range) => range_rects(
            &file.pages,
            Sought {
                start: range.start,
                end: range.end,
                whole: matches!(scope, Scope::Block),
                unit,
            },
        ),
        None => Vec::new(),
    };
    assert(rects@ =~= boxes(file.pages@, stretch(range), scope, unit));
    let gutter: i64 = gutter_of(&file.pages, &rects, unit);
    let spot: (usize, i64, i64) = if rects.len() > 0 && !matches!(scope, Scope::Point) {
        place_region(scope, &rects, gutter)
    } else {
        match exact_anchor_position(&file.pages, &around, at) {
            Some((page, p)) => (page, p.x, p.y),
            None => {
                return None;
            },
        }
    };
    if spot.0 == 0 || spot.0 > sizes.len() || spot.0 > file.pages.len() {
        return None;
    }
    let size: (i64, i64) = sizes[spot.0 - 1];
    let rail: i64 = page_rail(&file.pages[spot.0 - 1]);
    Some(
        AnnotationPin {
            rtype: record.rtype.as_str().to_owned(),
            uuid: record.uuid.as_str().to_owned(),
            letter: record.letter.as_str().to_owned(),
            author: record.author.as_str().to_owned(),
            content: record.content.as_str().to_owned(),
            time: record.time.as_str().to_owned(),
            status: record.status.as_str().to_owned(),
            discussion: copy_replies(&record.discussion),
            page: spot.0,
            x: spot.1,
            y: spot.2,
            page_width: size.0,
            page_height: size.1,
            scope: scope.as_str(),
            rects,
            rail_x: rail,
            gutter_x: gutter,
        },
    )
}

/// The pin of an annotation.
fn pin_of(record: &AnnotationRecord, files: &Vec<Shown>, sizes: &Vec<(i64, i64)>, unit: u32) -> (r:
    Option<AnnotationPin>)
    requires
        forall|f: int|
            0 <= f < files@.len() ==> can_seek((#[trigger] files@[f]).text@, record.uuid@),
    ensures
        match r {
            Some(pin) => pin_from(record@, files@, sizes@, unit, 0) == Some(pin@),
            None => pin_from(record@, files@, sizes@, unit, 0) is None,
        },
{
    let mut i: usize = 0;
    while i < files.len()
        invariant
            i <= files@.len(),
            forall|f: int|
                0 <= f < files@.len() ==> can_seek((#[trigger] files@[f]).text@, record.uuid@),
            pin_from(record@, files@, sizes@, unit, i as int) == pin_from(
                record@,
                files@,
                sizes@,
                unit,
                0,
            ),
        decreases files@.len() - i,
    {
        let anchors: Vec<FoundAnchor> = find_anchors(files[i].text.as_str(), record.uuid.as_str());
        let ghost list = places(anchors@);
        assert(list.len() == anchors@.len());
        if anchors.len() > 0 {
            assert(list[0] == anchors@[0].place());
            return place_pin(record, &files[i], &anchors, sizes, unit);
        }
        i = i + 1;
    }
    None
}

/// Every annotation on the rendered pages. `files` are the files of the document, in
/// the order they are looked through, and `sizes` is how large each page is.
pub fn annotation_pins(
    list: &Vec<AnnotationRecord>,
    files: &Vec<Shown>,
    sizes: &Vec<(i64, i64)>,
    unit: u32,
) -> (r: Vec<AnnotationPin>)
    requires
        forall|i: int, f: int|
            0 <= i < list@.len() && 0 <= f < files@.len() ==> can_seek(
                (#[trigger] files@[f]).text@,
                (#[trigger] list@[i]).uuid@,
            ),
    ensures
        pin_views(r@) == pins_of(
            records(list@),
            files@,
            sizes@,
            unit,
            list@.len(),
        ),
{
    let ghost all = records(list@);
    let mut out: Vec<AnnotationPin> = Vec::new();
    let mut i: usize = 0;
    assert(pin_views(out@) =~= pins_of(all, files@, sizes@, unit, 0));
    while i < list.len()
        invariant
            i <= list@.len(),
            all == records(list@),
            forall|k: int, f: int|
                0 <= k < list@.len() && 0 <= f < files@.len() ==> can_seek(
                    (#[trigger] files@[f]).text@,
                    (#[trigger] list@[k]).uuid@,
                ),
            pin_views(out@) == pins_of(all, files@, sizes@, unit, i as nat),
        decreases list@.len() - i,
    {
        let ghost before = out@;
        assert(all[i as int] == list@[i as int]@);
        if let Some(pin) = pin_of(&list[i], files, sizes, unit) {
            out.push(pin);
            assert(pin_views(out@) =~= pin_views(before).push(pin@));
        }
        i = i + 1;
    }
    out
}

// ---------------------------------------------------------------------- a look ahead

/// What an annotation would refer to, and where its marker would stand.
#[derive(Debug)]
pub struct ProbeResult {
    /// What it would refer to.
    pub scope: &'static str,
    /// The boxes of that.
    pub rects: Vec<AnnotRect>,
    /// The page its marker would be on, counted from one.
    pub page: usize,
    /// How far from the left.
    pub x: i64,
    /// How far from the top.
    pub y: i64,
}

/// Where the marker of a word or a block would stand: with its boxes, or at the exact
/// place of the anchor, or where the click was.
pub open spec fn probed(
    scope: Scope,
    rects: Seq<AnnotRect>,
    exact: Option<(int, Point)>,
    click: (usize, i64, i64),
) -> (usize, i64, i64) {
    if rects.len() > 0 {
        region_spot(scope, rects, 0)
    } else {
        match exact {
            Some((page, p)) => (page as usize, p.x, p.y),
            None => click,
        }
    }
}

/// What a click would annotate: the block it was on, or else the word before `at`,
/// the place its anchor would go. `file` is the file that was clicked in.
pub fn probe_annotate(
    file: &Shown,
    at: usize,
    block: Option<Range<usize>>,
    click: (usize, i64, i64),
    unit: u32,
) -> (r: ProbeResult)
    requires
        boundary(file.text@, at as int),
    ensures
        ({
            let scope = if block is Some {
                Scope::Block
            } else {
                Scope::Word
            };
            let range = match block {
                Some(range) => (range.start as int, range.end as int),
                None => (word_start(encode_utf8(file.text@), at as int), at as int),
            };
            let rects = boxes(file.pages@, Some(range), scope, unit);
            let exact = exact_place(
                file.pages@,
                enclosing_nodes(file.text@, at as int),
                at as int,
            );
            &&& r.scope@ == scope_name(scope)
            &&& r.rects@ == rects
            &&& (r.page, r.x, r.y) == probed(scope, rects, exact, click)
        }),
{
    proof {
        lemma_encoded(file.text@);
        lemma_boundary_inside(encode_utf8(file.text@), at as int);
    }
    let text: &str = file.text.as_str();
    let scope: Scope = if block.is_some() {
        Scope::Block
    } else {
        Scope::Word
    };
    let range: Range<usize> = match block {
        Some(range) => range,
        None => word_range(text, at),
    };
    let rects: Vec<AnnotRect> = range_rects(
        &file.pages,
        Sought {
            start: range.start,
            end: range.end,
            whole: matches!(scope, Scope::Block),
            unit,
        },
    );
    let (page, x, y): (usize, i64, i64) = if rects.len() > 0 {
        place_region(scope, &rects, 0)
    } else {
        match exact_anchor_position(&file.pages, &enclosing(text, at), at) {
            Some((page, p)) => (page, p.x, p.y),
            None => click,
        }
    };
    ProbeResult { scope: scope.as_str(), rects, page, x, y }
}

/// What a drag would annotate: the stretch between its ends. Its marker would stand
/// under the last line, or where the drag began.
pub fn probe_span(file: &Shown, range: Range<usize>, click: (usize, i64, i64), unit: u32) -> (r:
    ProbeResult)
    ensures
        ({
            let rects = boxes(
                file.pages@,
                Some((range.start as int, range.end as int)),
                Scope::Span,
                unit,
            );
            &&& r.scope@ == "span"@
            &&& r.rects@ == rects
            &&& (r.page, r.x, r.y) == probed(Scope::Span, rects, None, click)
        }),
{
    let rects: Vec<AnnotRect> = range_rects(
        &file.pages,
        Sought { start: range.start, end: range.end, whole: false, unit },
    );
    let (page, x, y): (usize, i64, i64) = if rects.len() > 0 {
        place_region(Scope::Span, &rects, 0)
    } else {
        click
    };
    ProbeResult { scope: Scope::Span.as_str(), rects, page, x, y }
}

// ------------------------------------------------------------------------- the laws

/// Every pin is of an annotation, on a page that is there.
pub proof fn pins_are_on_pages(
    list: Seq<RecordView>,
    files: Seq<Shown>,
    sizes: Seq<(i64, i64)>,
    unit: u32,
    n: nat,
)
    requires
        n <= list.len(),
    ensures
        pins_of(list, files, sizes, unit, n).len() <= n,
        forall|i: int|
            0 <= i < pins_of(list, files, sizes, unit, n).len() ==> {
                let pin = #[trigger] pins_of(list, files, sizes, unit, n)[i];
                &&& 1 <= pin.spot.0 <= sizes.len()
                &&& pin.size == sizes[pin.spot.0 - 1]
                &&& list.contains(pin.record)
            },
    decreases n,
{
    if n > 0 {
        pins_are_on_pages(list, files, sizes, unit, (n - 1) as nat);
        lemma_pin_from(list[n - 1], files, sizes, unit, 0);
        let before = pins_of(list, files, sizes, unit, (n - 1) as nat);
        assert(list.contains(list[n - 1]));
        assert forall|i: int| 0 <= i < pins_of(list, files, sizes, unit, n).len() implies ({
            let pin = #[trigger] pins_of(list, files, sizes, unit, n)[i];
            &&& 1 <= pin.spot.0 <= sizes.len()
            &&& pin.size == sizes[pin.spot.0 - 1]
            &&& list.contains(pin.record)
        }) by {
            if i < before.len() {
                assert(pins_of(list, files, sizes, unit, n)[i] == before[i]);
            }
        }
    }
}

/// A pin is of its annotation, on a page that is there.
proof fn lemma_pin_from(
    record: RecordView,
    files: Seq<Shown>,
    sizes: Seq<(i64, i64)>,
    unit: u32,
    from: int,
)
    ensures
        pin_from(record, files, sizes, unit, from) matches Some(pin) ==> 1 <= pin.spot.0
            <= sizes.len() && pin.size == sizes[pin.spot.0 - 1] && pin.record == record,
    decreases files.len() - from,
{
    if 0 <= from < files.len() && anchors_of(files[from].text@, record.uuid).len() == 0 {
        lemma_pin_from(record, files, sizes, unit, from + 1);
    }
}

/// An annotation that no file has an anchor of is not shown.
pub proof fn an_unanchored_note_is_not_shown(
    record: RecordView,
    files: Seq<Shown>,
    sizes: Seq<(i64, i64)>,
    unit: u32,
    from: int,
)
    requires
        0 <= from,
        forall|i: int|
            from <= i < files.len() ==> anchors_of(
                (#[trigger] files[i]).text@,
                record.uuid,
            ).len() == 0,
    ensures
        pin_from(record, files, sizes, unit, from) is None,
    decreases files.len() - from,
{
    if from < files.len() {
        an_unanchored_note_is_not_shown(record, files, sizes, unit, from + 1);
    }
}

// ----------------------------------------------------- what an annotation refers to

/// The part an annotation refers to goes by its scope: a point has none, a word ends at the
/// label and has no white space in it, a sentence and a paragraph are those around the label.
pub proof fn a_scope_says_how_far_it_reaches(
    text: Seq<char>,
    list: Seq<(int, Scope, int)>,
    around: Seq<(Seq<char>, int, int)>,
)
    requires
        list.len() > 0,
        0 <= list[0].0 <= encode_utf8(text).len(),
    ensures
        ({
            let bytes = encode_utf8(text);
            let at = list[0].0;
            let found = referent(text, list, around);
            &&& list[0].1 == Scope::Point ==> found == Some(None::<(int, int)>)
            &&& list[0].1 == Scope::Word ==> (found matches Some(Some((start, end))) && end == at
                && start <= at && forall|i: int|
                start <= i < at ==> #[trigger] bytes[i] != 32 && bytes[i] != 10)
            &&& list[0].1 == Scope::Sentence ==> (found matches Some(Some((start, end)))
                && paragraph_start(bytes, at) <= start && at <= end <= paragraph_end(bytes, at))
            &&& list[0].1 == Scope::Para ==> (found matches Some(Some((start, end))) && start <= at
                <= end && (end == bytes.len() || (bytes[end] == 10 && bytes[end + 1] == 10)) && (
            start == 0 || (bytes[start - 2] == 10 && bytes[start - 1] == 10)))
        }),
{
    let bytes = encode_utf8(text);
    let at = list[0].0;
    a_word_has_no_white_space(bytes, at);
    sentence_is_inside(bytes, at);
    a_sentence_ends_at_its_first_stop(bytes, at);
    paragraph_is_around(bytes, at);
    a_paragraph_ends_at_blank_lines(bytes, at);
}

/// An annotation of a span refers to what is between its two labels.
pub proof fn a_span_is_between_its_labels(
    text: Seq<char>,
    list: Seq<(int, Scope, int)>,
    around: Seq<(Seq<char>, int, int)>,
    k: int,
)
    requires
        0 < k < list.len(),
        list[0].1 == Scope::Span,
        list[k].0 > list[0].0,
        ends(chars_between(text, list[k].0, list[k].2), ".end>"@),
        forall|i: int|
            k < i < list.len() ==> !((#[trigger] list[i]).0 > list[0].0 && ends(
                chars_between(text, list[i].0, list[i].2),
                ".end>"@,
            )),
    ensures
        referent(text, list, around) == Some(Some((list[0].2, list[k].0))),
{
    lemma_span_stop(text, list, list.len(), k);
}

/// The last label that closes a span is where it stops.
proof fn lemma_span_stop(text: Seq<char>, list: Seq<(int, Scope, int)>, n: nat, k: int)
    requires
        0 < k < n <= list.len(),
        list[k].0 > list[0].0,
        ends(chars_between(text, list[k].0, list[k].2), ".end>"@),
        forall|i: int|
            k < i < n ==> !((#[trigger] list[i]).0 > list[0].0 && ends(
                chars_between(text, list[i].0, list[i].2),
                ".end>"@,
            )),
    ensures
        span_stop(text, list, n) == Some(list[k].0),
    decreases n,
{
    if k < n - 1 {
        assert(!(list[n - 1].0 > list[0].0 && ends(
            chars_between(text, list[n - 1].0, list[n - 1].2),
            ".end>"@,
        )));
        lemma_span_stop(text, list, (n - 1) as nat, k);
    }
}

/// An annotation of an item refers to the innermost list item, term or heading around it, all of
/// it; with none around, to its paragraph.
pub proof fn an_item_is_the_innermost(
    text: Seq<char>,
    list: Seq<(int, Scope, int)>,
    around: Seq<(Seq<char>, int, int)>,
    k: int,
)
    requires
        list.len() > 0,
        list[0].1 == Scope::Item,
        around.len() > 0,
        0 <= k <= around.len(),
        forall|i: int|
            0 <= i < k ==> (#[trigger] around[i]).0 != "ListItem"@ && around[i].0 != "EnumItem"@
                && around[i].0 != "TermItem"@ && around[i].0 != "Heading"@,
        k < around.len() ==> around[k].0 == "ListItem"@ || around[k].0 == "EnumItem"@ || around[k].0
            == "TermItem"@ || around[k].0 == "Heading"@,
    ensures
        k < around.len() ==> referent(text, list, around) == Some(
            Some((around[k].1, around[k].2)),
        ),
        k == around.len() ==> referent(text, list, around) == Some(
            Some(
                (
                    paragraph_start(encode_utf8(text), list[0].0),
                    paragraph_end(encode_utf8(text), list[0].0),
                ),
            ),
        ),
{
    lemma_item_from(around, 0, k);
}

/// The first item from a node on is found.
proof fn lemma_item_from(around: Seq<(Seq<char>, int, int)>, from: int, k: int)
    requires
        0 <= from <= k <= around.len(),
        forall|i: int|
            from <= i < k ==> (#[trigger] around[i]).0 != "ListItem"@ && around[i].0 != "EnumItem"@
                && around[i].0 != "TermItem"@ && around[i].0 != "Heading"@,
        k < around.len() ==> around[k].0 == "ListItem"@ || around[k].0 == "EnumItem"@ || around[k].0
            == "TermItem"@ || around[k].0 == "Heading"@,
    ensures
        item_from(around, from) == if k < around.len() {
            Some((around[k].1, around[k].2))
        } else {
            None
        },
    decreases k - from,
{
    if from < k {
        assert(around[from].0 != "ListItem"@);
        lemma_item_from(around, from + 1, k);
    }
}

/// A mark stands on the boxes of what it is about: at the middle of the height of an item's first
/// line, beside the text; at the middle of the height of a block, on its left edge; and under the
/// middle of anything else's last line.
pub proof fn a_mark_stands_by_its_boxes(scope: Scope, rects: Seq<AnnotRect>, gutter: i64)
    requires
        rects.len() > 0,
        forall|i: int|
            0 <= i < rects.len() ==> (#[trigger] rects[i]).area.y0 <= rects[i].area.y1
                && rects[i].area.x0 <= rects[i].area.x1,
    ensures
        ({
            let first = rects[0];
            let last = rects[rects.len() - 1];
            let (page, x, y) = region_spot(scope, rects, gutter);
            &&& scope == Scope::Item ==> page == first.page && x == gutter && first.area.y0 <= y
                <= first.area.y1
            &&& scope == Scope::Block || scope == Scope::Para ==> page == first.page && x
                == first.area.x0 && (first.area.y0 <= last.area.y1 ==> first.area.y0 <= y <= last.area.y1)
            &&& scope == Scope::Word || scope == Scope::Sentence || scope == Scope::Span || scope
                == Scope::Point ==> page == last.page && y == last.area.y1 && last.area.x0 <= x
                <= last.area.x1
        }),
{
    assert(rects[0].area.y0 <= rects[0].area.y1);
    assert(rects[rects.len() - 1].area.x0 <= rects[rects.len() - 1].area.x1);
}

/// An annotation is shown by the first file that holds a label of it.
pub proof fn the_first_file_with_a_label_shows_it(
    record: RecordView,
    files: Seq<Shown>,
    sizes: Seq<(i64, i64)>,
    unit: u32,
    k: int,
)
    requires
        0 <= k < files.len(),
        anchors_of(files[k].text@, record.uuid).len() > 0,
        forall|i: int|
            0 <= i < k ==> anchors_of((#[trigger] files[i]).text@, record.uuid).len() == 0,
    ensures
        pin_from(record, files, sizes, unit, 0) == pin_in(record, files[k], sizes, unit),
{
    lemma_first_shown(record, files, sizes, unit, 0, k);
}

/// From any file on the first that holds a label shows an annotation.
proof fn lemma_first_shown(
    record: RecordView,
    files: Seq<Shown>,
    sizes: Seq<(i64, i64)>,
    unit: u32,
    from: int,
    k: int,
)
    requires
        0 <= from <= k < files.len(),
        anchors_of(files[k].text@, record.uuid).len() > 0,
        forall|i: int|
            from <= i < k ==> anchors_of((#[trigger] files[i]).text@, record.uuid).len() == 0,
    ensures
        pin_from(record, files, sizes, unit, from) == pin_in(record, files[k], sizes, unit),
    decreases k - from,
{
    if from < k {
        assert(anchors_of(files[from].text@, record.uuid).len() == 0);
        lemma_first_shown(record, files, sizes, unit, from + 1, k);
    }
}

/// Every annotation that has somewhere to be shown is shown, and carries what its record says.
pub proof fn what_can_be_shown_is_shown(
    list: Seq<RecordView>,
    files: Seq<Shown>,
    sizes: Seq<(i64, i64)>,
    unit: u32,
    n: nat,
    i: int,
)
    requires
        0 <= i < n <= list.len(),
        pin_from(list[i], files, sizes, unit, 0) is Some,
    ensures
        pins_of(list, files, sizes, unit, n).contains(
            pin_from(list[i], files, sizes, unit, 0)->Some_0,
        ),
        (pin_from(list[i], files, sizes, unit, 0)->Some_0).record == list[i],
    decreases n,
{
    let all = pins_of(list, files, sizes, unit, n);
    let before = pins_of(list, files, sizes, unit, (n - 1) as nat);
    lemma_pin_record(list[i], files, sizes, unit, 0);
    let pin = pin_from(list[i], files, sizes, unit, 0)->Some_0;
    if i < n - 1 {
        what_can_be_shown_is_shown(list, files, sizes, unit, (n - 1) as nat, i);
        let k = before.index_of(pin);
        assert(all[k] == pin);
    } else {
        assert(all.last() == pin);
    }
}

/// What is shown of a record is the record.
proof fn lemma_pin_record(
    record: RecordView,
    files: Seq<Shown>,
    sizes: Seq<(i64, i64)>,
    unit: u32,
    from: int,
)
    requires
        0 <= from,
    ensures
        pin_from(record, files, sizes, unit, from) matches Some(pin) ==> pin.record == record,
    decreases files.len() - from,
{
    if from < files.len() {
        lemma_pin_record(record, files, sizes, unit, from + 1);
    }
}

/// A label in a run of text stands at the left edge of the first glyph of it that comes at or after
/// the label.
pub proof fn a_caret_is_before_its_glyph(
    glyphs: Seq<Glyph>,
    n: nat,
    baseline: i64,
    leaf: (int, int),
    at: int,
    c: Caret,
    k: int,
)
    requires
        0 <= k < n <= glyphs.len(),
        c.exact is None,
        glyphs[k].from == leaf.0 && glyphs[k].stop == leaf.1,
        glyphs[k].at matches Some(start) && at <= start,
        forall|i: int|
            0 <= i < k ==> !((#[trigger] glyphs[i]).from == leaf.0 && glyphs[i].stop == leaf.1 && (
            glyphs[i].at matches Some(start) && at <= start)),
    ensures
        caret_run(glyphs, n, baseline, leaf, at, c).exact == Some(
            Point { x: glyphs[k].area.x0, y: baseline },
        ),
    decreases n,
{
    if k < n - 1 {
        a_caret_is_before_its_glyph(glyphs, (n - 1) as nat, baseline, leaf, at, c, k);
    } else {
        lemma_no_caret(glyphs, (n - 1) as nat, baseline, leaf, at, c);
    }
}

/// Without a glyph at or after a label there is no place right before one.
proof fn lemma_no_caret(
    glyphs: Seq<Glyph>,
    n: nat,
    baseline: i64,
    leaf: (int, int),
    at: int,
    c: Caret,
)
    requires
        n <= glyphs.len(),
        c.exact is None,
        forall|i: int|
            0 <= i < n ==> !((#[trigger] glyphs[i]).from == leaf.0 && glyphs[i].stop == leaf.1 && (
            glyphs[i].at matches Some(start) && at <= start)),
    ensures
        caret_run(glyphs, n, baseline, leaf, at, c).exact is None,
    decreases n,
{
    if n > 0 {
        lemma_no_caret(glyphs, (n - 1) as nat, baseline, leaf, at, c);
        assert(!(glyphs[n - 1].from == leaf.0 && glyphs[n - 1].stop == leaf.1 && (glyphs[n - 1].at
            matches Some(start) && at <= start)));
    }
}

/// A label after all of its text stands at the right edge of the last glyph.
pub proof fn a_caret_is_after_the_last_glyph(
    glyphs: Seq<Glyph>,
    baseline: i64,
    leaf: (int, int),
    at: int,
    c: Caret,
)
    requires
        glyphs.len() > 0,
        c.exact is None,
        forall|i: int|
            0 <= i < glyphs.len() ==> !((#[trigger] glyphs[i]).from == leaf.0 && glyphs[i].stop == leaf.1
                && (glyphs[i].at matches Some(start) && at <= start)),
        glyphs.last().from == leaf.0 && glyphs.last().stop == leaf.1,
        glyphs.last().at matches Some(start) && start + glyphs.last().len <= at,
    ensures
        ({
            let found = caret_run(glyphs, glyphs.len(), baseline, leaf, at, c);
            found.exact is None && found.after == Some(
                Point { x: glyphs.last().area.x1, y: baseline },
            )
        }),
{
    let n = glyphs.len();
    assert(!(glyphs[n - 1].from == leaf.0 && glyphs[n - 1].stop == leaf.1 && (glyphs[n - 1].at
        matches Some(start) && at <= start)));
    lemma_no_caret(glyphs, (n - 1) as nat, baseline, leaf, at, c);
}

} // verus!

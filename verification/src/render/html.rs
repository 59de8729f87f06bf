//! Labelling: every element of a rendered document says where in the source it
//! came from, and carries an id the map knows it by.

use std::ops::Range;

use vstd::prelude::*;
use vstd::string::*;
use vstd::utf8::*;

use crate::bytes::boundary;
use crate::num::{decimal, decimal_of, push_decimal};
use crate::render::drawing::{drawn_at, is_range, source_of};
use crate::render::map::{
    hull, hull_of, kind_of, node_with, room_after, slot, tag_kind, uid_text, uids, uids_differ,
    what_is_recorded_is_read, with_node, MapView, Mapper, NodeKind, NodeView, Place, Segment,
    SrcRange,
};
use crate::syntax::{enclosing, enclosing_nodes, node, nodes};
use crate::text::{lemma_find_one, lemma_found_one, push, same};

verus! {

/// The attribute that holds where an element came from, as `start:end` byte
/// offsets into the document.
pub const SRC_ATTR: &'static str = "data-typst-src";

/// The attribute of a run that cannot take an annotation inside it. It holds
/// the offset just past the expression that produced the run, which is where an
/// annotation on the whole thing anchors.
pub const ATOM_ATTR: &'static str = "data-typst-atom";

/// The attribute that holds where a run of text came from, which is what
/// annotations land on.
pub const TEXT_ATTR: &'static str = "data-typst-text";

/// The attribute an element carries its id in. Not `id`, which link
/// destinations use; a drawing can carry nothing else, and is the exception.
pub const UID_ATTR: &'static str = "data-uid";

// ------------------------------------------------------------------ the tree

/// A node of a rendered document.
#[derive(Debug)]
pub enum HtmlNode {
    /// An element, with what is inside it.
    Element(HtmlElement),
    /// A run of text, and where it came from.
    Text(String, Option<Place>),
    /// A drawing.
    Frame(HtmlFrame),
    /// Something that is not drawn, by a number that tells it apart.
    Other(usize),
}

/// An element of a rendered document.
#[derive(Debug)]
pub struct HtmlElement {
    /// The element's tag.
    pub tag: String,
    /// Its attributes, in the order they are written.
    pub attrs: Vec<(String, String)>,
    /// Where it came from.
    pub place: Option<Place>,
    /// What is inside it.
    pub children: Vec<HtmlNode>,
}

/// A drawing in a rendered document.
#[derive(Debug)]
pub struct HtmlFrame {
    /// The id the drawing carries, when something links to it.
    pub id: Option<String>,
    /// Where each piece of ink in it came from.
    pub ink: Vec<Option<Place>>,
    /// A number that tells the drawing apart.
    pub number: usize,
}

/// What a node holds.
pub enum NodeV {
    Element(ElementV),
    Text(Seq<char>, Option<Place>),
    Frame(FrameV),
    Other(usize),
}

/// What an element holds.
pub struct ElementV {
    pub tag: Seq<char>,
    pub attrs: Seq<(Seq<char>, Seq<char>)>,
    pub place: Option<Place>,
    pub children: Seq<NodeV>,
}

/// What a drawing holds.
pub struct FrameV {
    pub id: Option<Seq<char>>,
    pub ink: Seq<Option<Place>>,
    pub number: usize,
}

/// What some attributes are named and hold.
pub open spec fn attr_views(attrs: Seq<(String, String)>) -> Seq<(Seq<char>, Seq<char>)> {
    attrs.map_values(|a: (String, String)| (a.0@, a.1@))
}

/// What a node holds.
pub open spec fn node_v(n: HtmlNode) -> NodeV
    decreases n, 0nat,
{
    match n {
        HtmlNode::Element(e) => NodeV::Element(element_v(e)),
        HtmlNode::Text(text, place) => NodeV::Text(text@, place),
        HtmlNode::Frame(f) => NodeV::Frame(
            FrameV {
                id: match f.id {
                    Some(id) => Some(id@),
                    None => None,
                },
                ink: f.ink@,
                number: f.number,
            },
        ),
        HtmlNode::Other(number) => NodeV::Other(number),
    }
}

/// What an element holds.
pub open spec fn element_v(e: HtmlElement) -> ElementV
    decreases e, 1nat,
{
    ElementV {
        tag: e.tag@,
        attrs: attr_views(e.attrs@),
        place: e.place,
        children: nodes_v(e.children@, e.children@.len()),
    }
}

/// What the first of some nodes hold.
pub open spec fn nodes_v(list: Seq<HtmlNode>, n: nat) -> Seq<NodeV>
    decreases list, n,
{
    if n == 0 || n > list.len() {
        seq![]
    } else {
        nodes_v(list, (n - 1) as nat).push(node_v(list[n - 1]))
    }
}

/// A node as it is.
fn copy_node(n: &HtmlNode) -> (r: HtmlNode)
    ensures
        node_v(r) == node_v(*n),
    decreases *n, 0nat,
{
    match n {
        HtmlNode::Element(e) => HtmlNode::Element(
            HtmlElement {
                tag: e.tag.clone(),
                attrs: copy_attrs(&e.attrs),
                place: e.place,
                children: copy_nodes(&e.children),
            },
        ),
        HtmlNode::Text(text, place) => HtmlNode::Text(text.clone(), *place),
        HtmlNode::Frame(f) => {
            let id: Option<String> = match &f.id {
                Some(id) => Some(id.clone()),
                None => None,
            };
            HtmlNode::Frame(HtmlFrame { id, ink: copy_ink(&f.ink), number: f.number })
        },
        HtmlNode::Other(number) => HtmlNode::Other(*number),
    }
}

/// Some nodes as they are.
fn copy_nodes(list: &Vec<HtmlNode>) -> (r: Vec<HtmlNode>)
    ensures
        r@.len() == list@.len(),
        nodes_v(r@, r@.len()) == nodes_v(list@, list@.len()),
    decreases list@, 1nat,
{
    let mut out: Vec<HtmlNode> = Vec::new();
    let mut i: usize = 0;
    while i < list.len()
        invariant
            i <= list@.len(),
            out@.len() == i,
            nodes_v(out@, i as nat) == nodes_v(list@, i as nat),
        decreases list@.len() - i,
    {
        let ghost before = out@;
        let n: &HtmlNode = &list[i];
        proof {
            assert(decreases_to!(list@ => list@[i as int]));
        }
        out.push(copy_node(n));
        proof {
            lemma_nodes_push(before, out@.last());
            assert(out@ =~= before.push(out@.last()));
        }
        i = i + 1;
    }
    out
}

/// What some nodes and one more hold.
proof fn lemma_nodes_push(list: Seq<HtmlNode>, n: HtmlNode)
    ensures
        nodes_v(list.push(n), list.len() + 1) == nodes_v(list, list.len()).push(node_v(n)),
{
    lemma_nodes_prefix(list, n, list.len());
}

/// What the first of some nodes hold does not depend on the ones after.
proof fn lemma_nodes_prefix(list: Seq<HtmlNode>, n: HtmlNode, k: nat)
    requires
        k <= list.len(),
    ensures
        nodes_v(list.push(n), k) == nodes_v(list, k),
    decreases k,
{
    if k > 0 {
        lemma_nodes_prefix(list, n, (k - 1) as nat);
    }
}

/// Some attributes as they are.
fn copy_attrs(attrs: &Vec<(String, String)>) -> (r: Vec<(String, String)>)
    ensures
        attr_views(r@) == attr_views(attrs@),
{
    let mut out: Vec<(String, String)> = Vec::new();
    let mut i: usize = 0;
    while i < attrs.len()
        invariant
            i <= attrs@.len(),
            attr_views(out@) == attr_views(attrs@).take(i as int),
        decreases attrs@.len() - i,
    {
        let ghost before = attr_views(out@);
        out.push((attrs[i].0.clone(), attrs[i].1.clone()));
        assert(attr_views(out@) =~= before.push((attrs@[i as int].0@, attrs@[i as int].1@)));
        assert(attr_views(out@) =~= attr_views(attrs@).take(i + 1));
        i = i + 1;
    }
    assert(attr_views(attrs@).take(i as int) =~= attr_views(attrs@));
    out
}

/// Some ink as it is.
fn copy_ink(ink: &Vec<Option<Place>>) -> (r: Vec<Option<Place>>)
    ensures
        r@ == ink@,
{
    let mut out: Vec<Option<Place>> = Vec::new();
    let mut i: usize = 0;
    while i < ink.len()
        invariant
            i <= ink@.len(),
            out@ == ink@.take(i as int),
        decreases ink@.len() - i,
    {
        out.push(ink[i]);
        assert(out@ =~= ink@.take(i + 1));
        i = i + 1;
    }
    assert(ink@.take(i as int) =~= ink@);
    out
}

// --------------------------------------------------------- atoms and their runs

/// The kinds of syntax a label can be written next to.
pub open spec fn is_prose(kind: Seq<char>) -> bool {
    ||| kind == "Text"@
    ||| kind == "Space"@
    ||| kind == "Parbreak"@
    ||| kind == "SmartQuote"@
}

/// The range of the outermost of some nodes that markup directly contains, from
/// the innermost out.
pub open spec fn in_markup(list: Seq<(Seq<char>, int, int)>) -> Option<(int, int)>
    decreases list.len(),
{
    if list.len() < 2 {
        None
    } else if list[1].0 == "Markup"@ {
        Some((list[0].1, list[0].2))
    } else {
        in_markup(list.skip(1))
    }
}

/// The expression around a place that text came out of, when its innermost node
/// is not prose.
pub open spec fn expression_in(list: Seq<(Seq<char>, int, int)>) -> Option<(int, int)> {
    if list.len() == 0 || is_prose(list[0].0) {
        None
    } else {
        in_markup(list)
    }
}

/// The expression around a place that text came out of.
pub fn pick_expression(list: &Vec<(String, usize, usize)>) -> (r: Option<Range<usize>>)
    ensures
        is_range(r, expression_in(nodes(list@))),
{
    let ghost all = nodes(list@);
    if list.len() == 0 {
        return None;
    }
    assert(all[0] == node(list@[0]));
    let kind: &str = list[0].0.as_str();
    if same(kind, "Text") || same(kind, "Space") || same(kind, "Parbreak") || same(
        kind,
        "SmartQuote",
    ) {
        return None;
    }
    let mut i: usize = 1;
    assert(all.skip(0) =~= all);
    while i < list.len()
        invariant
            1 <= i <= list@.len(),
            all == nodes(list@),
            in_markup(all) == in_markup(all.skip(i - 1)),
            expression_in(all) == in_markup(all),
        decreases list@.len() - i,
    {
        let ghost rest = all.skip(i - 1);
        assert(rest[0] == node(list@[i - 1]));
        assert(rest[1] == node(list@[i as int]));
        assert(rest.skip(1) =~= all.skip(i as int));
        if same(list[i].0.as_str(), "Markup") {
            return Some(Range { start: list[i - 1].1, end: list[i - 1].2 });
        }
        i = i + 1;
    }
    None
}

/// The last place at or before `at` where a character of a text begins, but
/// none before `from`.
pub open spec fn back_to(text: Seq<char>, at: int, from: int) -> int
    decreases at - from,
{
    if at <= from || boundary(text, at) {
        at
    } else {
        back_to(text, at - 1, from)
    }
}

/// The middle of a stretch of a text. Asked at a boundary, a syntax tree
/// answers with whichever side it likes, so it is asked from inside.
pub open spec fn middle(text: Seq<char>, start: int, end: int) -> int {
    back_to(
        text,
        if start < end {
            start + (end - start) / 2
        } else {
            start
        },
        start,
    )
}

/// The expression a stretch of rendered text came out of, when it came out of
/// one.
pub open spec fn atom(text: Seq<char>, start: int, end: int) -> Option<(int, int)> {
    expression_in(enclosing_nodes(text, middle(text, start, end)))
}

/// The expression a run of text came out of, when it came out of one.
///
/// Text written as markup can take a label beside it: the label goes next to
/// the word it names. Text that came out of code cannot, since a label written
/// there would land inside the code and break it. What can be named is the
/// expression as a whole.
pub fn atom_expression(text: &str, range: Range<usize>) -> (r: Option<Range<usize>>)
    ensures
        is_range(r, atom(text@, range.start as int, range.end as int)),
{
    let mut at: usize = if range.start < range.end {
        range.start + (range.end - range.start) / 2
    } else {
        range.start
    };
    while at > range.start && !text.is_char_boundary(at)
        invariant
            range.start <= at,
            back_to(text@, at as int, range.start as int) == middle(
                text@,
                range.start as int,
                range.end as int,
            ),
        decreases at,
    {
        at = at - 1;
    }
    let list: Vec<(String, usize, usize)> = enclosing(text, at);
    pick_expression(&list)
}

/// Where a label attaching to a whole expression goes, for text that came out
/// of one.
pub fn atom_end(text: &str, range: Range<usize>) -> (r: Option<usize>)
    ensures
        match r {
            Some(end) => atom(text@, range.start as int, range.end as int) matches Some(e) && e.1
                == end,
            None => atom(text@, range.start as int, range.end as int) is None,
        },
{
    match atom_expression(text, range) {
        Some(expr) => Some(expr.end),
        None => None,
    }
}

/// Two offsets with a colon between.
pub open spec fn span_text(start: nat, end: nat) -> Seq<char> {
    decimal(start) + seq![':'] + decimal(end)
}

/// Two offsets with a colon between.
fn write_span(start: usize, end: usize) -> (r: String)
    ensures
        r@ == span_text(start as nat, end as nat),
{
    let mut out: String = decimal_of(start as u64);
    push(&mut out, ':');
    push_decimal(&mut out, end as u64);
    assert(out@ =~= span_text(start as nat, end as nat));
    out
}

/// How a run says where it came from: its range, or, where a label cannot go
/// inside it, the end of the expression that produced it.
pub open spec fn run_label(text: Seq<char>, start: int, end: int) -> (Seq<char>, Seq<char>) {
    match atom(text, start, end) {
        Some(e) => (ATOM_ATTR@, decimal(e.1 as nat)),
        None => (TEXT_ATTR@, span_text(start as nat, end as nat)),
    }
}

/// How a run says where it came from.
pub fn run_attr(text: &str, range: Range<usize>) -> (r: (String, String))
    ensures
        (r.0@, r.1@) == run_label(text@, range.start as int, range.end as int),
{
    let start: usize = range.start;
    let end: usize = range.end;
    match atom_end(text, range) {
        Some(stop) => (ATOM_ATTR.to_string(), decimal_of(stop as u64)),
        None => (TEXT_ATTR.to_string(), write_span(start, end)),
    }
}

// ---------------------------------------------------------------- labelling

/// The elements that cannot be pointed at, and get no id.
pub open spec fn is_unseen(tag: Seq<char>) -> bool {
    tag == "html"@ || is_opaque(tag)
}

/// The elements whose contents are not part of the page.
pub open spec fn is_opaque(tag: Seq<char>) -> bool {
    ||| tag == "head"@
    ||| tag == "title"@
    ||| tag == "script"@
    ||| tag == "style"@
}

/// The value of an attribute, where it is there.
pub open spec fn attr_value(attrs: Seq<(Seq<char>, Seq<char>)>, name: Seq<char>) -> Option<Seq<char>>
    decreases attrs.len(),
{
    if attrs.len() == 0 {
        None
    } else if attrs[0].0 == name {
        Some(attrs[0].1)
    } else {
        attr_value(attrs.skip(1), name)
    }
}

/// A place's range, when it is in the document.
pub open spec fn here(main: usize, place: Option<Place>) -> Option<(usize, usize)> {
    match place {
        Some(p) if p.file == main => Some((p.start, p.end)),
        _ => None,
    }
}

/// A stretch of the document itself.
pub open spec fn of_document(range: Option<(int, int)>) -> Option<SrcRange> {
    match range {
        Some(r) => Some(SrcRange { file: 0, start: r.0 as usize, end: r.1 as usize }),
        None => None,
    }
}

/// The stretch of the document around what was covered and one stretch more.
pub open spec fn widened(covered: Option<SrcRange>, range: Option<SrcRange>) -> Option<SrcRange> {
    match range {
        Some(r) if r.file == 0 => match covered {
            Some(known) => Some(hull(known, r)),
            None => Some(r),
        },
        _ => covered,
    }
}

/// What labelling gives: the labelled element, the map after it, and the
/// stretch of source the element and its contents came from.
pub struct Labelled {
    pub element: ElementV,
    pub map: MapView,
    pub range: Option<SrcRange>,
}

/// What labelling some children gives: the labelled children, the map after
/// them, and the stretch of the document they came from.
pub struct Covered {
    pub children: Seq<NodeV>,
    pub map: MapView,
    pub range: Option<SrcRange>,
}

/// The attributes an element has once it says what it is: its own, its id if it
/// gets one, and where in the document it came from if it came from there.
pub open spec fn own_attrs(e: ElementV, uid: Seq<char>, main: usize) -> Seq<(Seq<char>, Seq<char>)> {
    e.attrs + (if is_unseen(e.tag) {
        seq![]
    } else {
        seq![(UID_ATTR@, uid)]
    }) + (match here(main, e.place) {
        Some(range) => seq![(SRC_ATTR@, span_text(range.0 as nat, range.1 as nat))],
        None => seq![],
    })
}

/// A labelled element.
///
/// Everything that can be pointed at gets an id, whether or not it turned out
/// to have a source range. An equation is one thing, and only the elements in
/// it are labelled. An element that holds nothing but one run of text says
/// itself where that run came from. Of any other element each child is
/// labelled, and the element covers what its children came from.
pub open spec fn label(e: ElementV, text: Seq<char>, in_math: bool, m: MapView) -> Labelled
    decreases e, 0nat,
{
    let uid = uid_text(m.next() as nat);
    let seen = !is_unseen(e.tag);
    let start = if seen {
        m.counted().with_whole(
            uid,
            tag_kind(e.tag, attr_value(e.attrs, "display"@) == Some("block"@)),
            e.place,
        )
    } else {
        m
    };
    let attrs = own_attrs(e, uid, m.main);
    let main = m.main;
    if is_opaque(e.tag) {
        Labelled { element: ElementV { attrs, ..e }, map: start, range: None }
    } else if in_math || e.tag == "math"@ {
        let inside = label_math(e.children, e.children.len(), text, start);
        Labelled {
            element: ElementV { attrs, children: inside.children, ..e },
            map: inside.map,
            range: if seen {
                inside.map.at(uid)
            } else {
                None
            },
        }
    } else if e.children.len() == 1 && e.children[0] is Text {
        let run = e.children[0]->Text_0;
        let place = e.children[0]->Text_1;
        match here(main, place) {
            None => Labelled {
                element: ElementV { attrs, ..e },
                map: start,
                range: if seen {
                    start.at(uid)
                } else {
                    None
                },
            },
            Some(range) => {
                let found = atom(text, range.0 as int, range.1 as int);
                let map = if !seen {
                    start
                } else if found is Some {
                    start.with(uid, NodeKind::Inline, of_document(found), seq![])
                } else {
                    start.as_text(uid).with_text(uid, run.len(), place)
                };
                Labelled {
                    element: ElementV {
                        attrs: attrs.push(run_label(text, range.0 as int, range.1 as int)),
                        ..e
                    },
                    map,
                    range: if seen {
                        map.at(uid)
                    } else {
                        None
                    },
                }
            },
        }
    } else {
        let inside = label_children(e.children, e.children.len(), text, start);
        let element = ElementV { attrs, children: inside.children, ..e };
        if seen {
            let map = match inside.range {
                Some(range) => inside.map.covered(uid, range),
                None => inside.map,
            };
            Labelled {
                element,
                map,
                range: match map.at(uid) {
                    Some(range) => Some(range),
                    None => inside.range,
                },
            }
        } else {
            Labelled { element, map: inside.map, range: inside.range }
        }
    }
}

/// The first children of an equation, labelled: its elements, and nothing else.
pub open spec fn label_math(list: Seq<NodeV>, n: nat, text: Seq<char>, m: MapView) -> Covered
    decreases list, n,
{
    if n == 0 || n > list.len() {
        Covered { children: seq![], map: m, range: None }
    } else {
        let before = label_math(list, (n - 1) as nat, text, m);
        match list[n - 1] {
            NodeV::Element(e) => {
                let l = label(e, text, true, before.map);
                Covered {
                    children: before.children.push(NodeV::Element(l.element)),
                    map: l.map,
                    range: None,
                }
            },
            other => Covered { children: before.children.push(other), ..before },
        }
    }
}

/// The first children of an element, labelled.
pub open spec fn label_children(list: Seq<NodeV>, n: nat, text: Seq<char>, m: MapView) -> Covered
    decreases list, n,
{
    if n == 0 || n > list.len() {
        Covered { children: seq![], map: m, range: None }
    } else {
        let before = label_children(list, (n - 1) as nat, text, m);
        match list[n - 1] {
            NodeV::Element(e) => {
                let l = label(e, text, false, before.map);
                Covered {
                    children: before.children.push(NodeV::Element(l.element)),
                    map: l.map,
                    range: widened(before.range, l.range),
                }
            },
            NodeV::Text(run, place) => label_run(before, run, place, text),
            NodeV::Frame(f) => label_frame(before, f, text),
            other => Covered { children: before.children.push(other), ..before },
        }
    }
}

/// A run of text with siblings, labelled: it has nowhere of its own to keep its
/// range, so it gets a wrapper. One from elsewhere stays as it is.
pub open spec fn label_run(
    before: Covered,
    run: Seq<char>,
    place: Option<Place>,
    text: Seq<char>,
) -> Covered {
    match here(before.map.main, place) {
        None => Covered { children: before.children.push(NodeV::Text(run, place)), ..before },
        Some(range) => {
            let uid = uid_text(before.map.next() as nat);
            let found = atom(text, range.0 as int, range.1 as int);
            let map = before.map.counted();
            Covered {
                children: before.children.push(
                    NodeV::Element(
                        ElementV {
                            tag: "span"@,
                            attrs: seq![
                                run_label(text, range.0 as int, range.1 as int),
                                (UID_ATTR@, uid),
                            ],
                            place,
                            children: seq![NodeV::Text(run, place)],
                        },
                    ),
                ),
                map: if found is Some {
                    map.with(uid, NodeKind::Inline, of_document(found), seq![])
                } else {
                    map.with_run(uid, NodeKind::Text, run.len(), place)
                },
                range: widened(
                    before.range,
                    Some(SrcRange { file: 0, start: range.0, end: range.1 }),
                ),
            }
        },
    }
}

/// A drawing, labelled: an id already there is a link destination, and is
/// adopted rather than replaced.
pub open spec fn label_frame(before: Covered, f: FrameV, text: Seq<char>) -> Covered {
    let uid = match f.id {
        Some(id) => id,
        None => uid_text(before.map.next() as nat),
    };
    let map = if f.id is Some {
        before.map
    } else {
        before.map.counted()
    };
    let range = of_document(drawn_at(f.ink, text, before.map.main));
    Covered {
        children: before.children.push(NodeV::Frame(FrameV { id: Some(uid), ..f })),
        map: map.with(uid, NodeKind::Svg, range, seq![]),
        range: widened(before.range, range),
    }
}

/// Whether an element can be pointed at.
fn seen_tag(tag: &str) -> (r: bool)
    ensures
        r == !is_unseen(tag@),
{
    !same(tag, "html") && !opaque_tag(tag)
}

/// Whether an element's contents are not part of the page.
fn opaque_tag(tag: &str) -> (r: bool)
    ensures
        r == is_opaque(tag@),
{
    same(tag, "head") || same(tag, "title") || same(tag, "script") || same(tag, "style")
}

/// Whether an attribute has a value.
fn attr_is(attrs: &Vec<(String, String)>, name: &str, value: &str) -> (r: bool)
    ensures
        r == (attr_value(attr_views(attrs@), name@) == Some(value@)),
{
    let ghost all = attr_views(attrs@);
    let mut i: usize = 0;
    assert(all.skip(0) =~= all);
    while i < attrs.len()
        invariant
            i <= attrs@.len(),
            all == attr_views(attrs@),
            attr_value(all, name@) == attr_value(all.skip(i as int), name@),
        decreases attrs@.len() - i,
    {
        assert(all.skip(i as int)[0] == (attrs@[i as int].0@, attrs@[i as int].1@));
        assert(all.skip(i as int).skip(1) =~= all.skip(i + 1));
        if same(attrs[i].0.as_str(), name) {
            return same(attrs[i].1.as_str(), value);
        }
        i = i + 1;
    }
    false
}

/// A place's range, when it is in the document.
fn in_document(main: usize, place: Option<Place>) -> (r: Option<(usize, usize)>)
    ensures
        r == here(main, place),
{
    match place {
        Some(p) => if p.file == main {
            Some((p.start, p.end))
        } else {
            None
        },
        None => None,
    }
}

/// A stretch of the document itself.
fn document_range(range: Option<Range<usize>>, Ghost(want): Ghost<Option<(int, int)>>) -> (r: Option<
    SrcRange,
>)
    requires
        is_range(range, want),
    ensures
        r == of_document(want),
{
    match range {
        Some(r) => Some(SrcRange { file: 0, start: r.start, end: r.end }),
        None => None,
    }
}

/// The stretch of the document around what was covered and one stretch more.
fn widen(covered: Option<SrcRange>, range: Option<SrcRange>) -> (r: Option<SrcRange>)
    ensures
        r == widened(covered, range),
{
    match range {
        Some(r) => if r.file == 0 {
            match covered {
                Some(known) => Some(hull_of(known, r)),
                None => Some(r),
            }
        } else {
            covered
        },
        None => covered,
    }
}

/// Puts an attribute after some others.
fn push_attr(attrs: &mut Vec<(String, String)>, name: &str, value: String)
    ensures
        attr_views(final(attrs)@) == attr_views(old(attrs)@).push((name@, value@)),
{
    attrs.push((name.to_string(), value));
    assert(attr_views(attrs@) =~= attr_views(old(attrs)@).push((name@, value@)));
}

/// Puts a labelled child after some others.
fn push_child(out: &mut Vec<HtmlNode>, n: HtmlNode)
    ensures
        final(out)@.len() == old(out)@.len() + 1,
        nodes_v(final(out)@, final(out)@.len()) == nodes_v(old(out)@, old(out)@.len()).push(
            node_v(n),
        ),
{
    proof {
        lemma_nodes_push(out@, n);
    }
    out.push(n);
}

/// One of some nodes as it is among what they hold.
proof fn lemma_nodes_at(list: Seq<HtmlNode>, n: nat, k: int)
    requires
        n <= list.len(),
        0 <= k < n,
    ensures
        nodes_v(list, n).len() == n,
        nodes_v(list, n)[k] == node_v(list[k]),
    decreases n,
{
    reveal_with_fuel(nodes_v, 2);
    if k < n - 1 {
        lemma_nodes_at(list, (n - 1) as nat, k);
    } else if n > 1 {
        lemma_nodes_at(list, (n - 1) as nat, 0);
    }
}

/// Labels a run of text that has siblings.
fn label_text(
    run: &String,
    place: Option<Place>,
    text: &str,
    main: usize,
    covered: Option<SrcRange>,
    mapper: &mut Mapper,
    out: &mut Vec<HtmlNode>,
) -> (r: Option<SrcRange>)
    requires
        old(mapper)@.main == main,
    ensures
        ({
            let done = label_run(
                Covered {
                    children: nodes_v(old(out)@, old(out)@.len()),
                    map: old(mapper)@,
                    range: covered,
                },
                run@,
                place,
                text@,
            );
            &&& nodes_v(final(out)@, final(out)@.len()) == done.children
            &&& final(mapper)@ == done.map
            &&& r == done.range
        }),
{
    match in_document(main, place) {
        None => {
            push_child(out, HtmlNode::Text(run.clone(), place));
            covered
        },
        Some((start, end)) => {
            let (name, value) = run_attr(text, Range { start, end });
            let uid: String = mapper.uid();
            let ghost found = atom(text@, start as int, end as int);
            let expr: Option<Range<usize>> = atom_expression(text, Range { start, end });
            if expr.is_some() {
                let range: Option<SrcRange> = document_range(expr, Ghost(found));
                mapper.node_at(uid.as_str(), NodeKind::Inline, range);
            } else {
                mapper.text(uid.as_str(), NodeKind::Text, run.as_str(), place);
            }
            let mut attrs: Vec<(String, String)> = Vec::new();
            attrs.push((name, value));
            attrs.push((UID_ATTR.to_string(), uid));
            let mut children: Vec<HtmlNode> = Vec::new();
            push_child(&mut children, HtmlNode::Text(run.clone(), place));
            let e: HtmlElement = HtmlElement { tag: "span".to_string(), attrs, place, children };
            proof {
                assert(element_v(e).attrs =~= seq![
                    run_label(text@, start as int, end as int),
                    (UID_ATTR@, uid_text(old(mapper)@.next() as nat)),
                ]);
                assert(element_v(e).children =~= seq![NodeV::Text(run@, place)]);
            }
            push_child(out, HtmlNode::Element(e));
            widen(covered, Some(SrcRange { file: 0, start, end }))
        },
    }
}

/// Labels a drawing.
fn label_drawing(
    f: &HtmlFrame,
    text: &str,
    main: usize,
    covered: Option<SrcRange>,
    mapper: &mut Mapper,
    out: &mut Vec<HtmlNode>,
) -> (r: Option<SrcRange>)
    requires
        old(mapper)@.main == main,
    ensures
        ({
            let done = label_frame(
                Covered {
                    children: nodes_v(old(out)@, old(out)@.len()),
                    map: old(mapper)@,
                    range: covered,
                },
                node_v(HtmlNode::Frame(*f))->Frame_0,
                text@,
            );
            &&& nodes_v(final(out)@, final(out)@.len()) == done.children
            &&& final(mapper)@ == done.map
            &&& r == done.range
        }),
{
    let uid: String = match &f.id {
        Some(id) => id.clone(),
        None => mapper.uid(),
    };
    let drawn: Option<Range<usize>> = source_of(&f.ink, text, main);
    let range: Option<SrcRange> = document_range(drawn, Ghost(drawn_at(f.ink@, text@, main)));
    mapper.node_at(uid.as_str(), NodeKind::Svg, range);
    push_child(
        out,
        HtmlNode::Frame(HtmlFrame { id: Some(uid), ink: copy_ink(&f.ink), number: f.number }),
    );
    widen(covered, range)
}

/// Labels an element and what is inside it, and records what it was made of.
/// Gives the labelled element and the stretch of the document it came from,
/// which is what an element around it is given.
#[verifier::rlimit(60)]
pub fn label_within(element: &HtmlElement, text: &str, in_math: bool, mapper: &mut Mapper) -> (r: (
    HtmlElement,
    Option<SrcRange>,
))
    ensures
        ({
            let done = label(element_v(*element), text@, in_math, old(mapper)@);
            &&& element_v(r.0) == done.element
            &&& final(mapper)@ == done.map
            &&& r.1 == done.range
        }),
    decreases *element,
{
    let main: usize = mapper.document_file();
    let tag: &str = element.tag.as_str();
    let seen: bool = seen_tag(tag);
    let mut attrs: Vec<(String, String)> = copy_attrs(&element.attrs);
    let mut uid: String = String::new();
    let ghost e = element_v(*element);
    let ghost m = mapper@;
    let ghost id = uid_text(m.next() as nat);
    if seen {
        uid = mapper.uid();
        let kind: NodeKind = kind_of(tag, attr_is(&element.attrs, "display", "block"));
        mapper.node(uid.as_str(), kind, element.place);
        push_attr(&mut attrs, UID_ATTR, uid.clone());
    }
    if let Some((start, end)) = in_document(main, element.place) {
        push_attr(&mut attrs, SRC_ATTR, write_span(start, end));
    }
    assert(attr_views(attrs@) =~= own_attrs(e, id, main));
    let ghost start = mapper@;
    if opaque_tag(tag) {
        let children: Vec<HtmlNode> = copy_nodes(&element.children);
        return (
            HtmlElement { tag: element.tag.clone(), attrs, place: element.place, children },
            None,
        );
    }
    let list: &Vec<HtmlNode> = &element.children;
    let n: usize = list.len();
    let ghost kids = nodes_v(list@, n as nat);
    assert(kids == e.children);
    proof {
        if n > 0 {
            lemma_nodes_at(list@, n as nat, 0);
        }
    }
    let mut out: Vec<HtmlNode> = Vec::new();
    assert(nodes_v(out@, 0) =~= seq![]);
    let mut i: usize = 0;
    if in_math || same(tag, "math") {
        while i < n
            invariant
                i <= n,
                n == list@.len(),
                *list == element.children,
                kids == nodes_v(list@, n as nat),
                nodes_v(out@, out@.len()) == label_math(kids, i as nat, text@, start).children,
                mapper@ == label_math(kids, i as nat, text@, start).map,
            decreases n - i,
        {
            proof {
                lemma_nodes_at(list@, n as nat, i as int);
                assert(decreases_to!(element => element.children@[i as int]));
            }
            match &list[i] {
                HtmlNode::Element(child) => {
                    let (labelled, _) = label_within(child, text, true, mapper);
                    push_child(&mut out, HtmlNode::Element(labelled));
                },
                other => {
                    push_child(&mut out, copy_node(other));
                },
            }
            i = i + 1;
        }
        let range: Option<SrcRange> = if seen {
            mapper.range_at(uid.as_str())
        } else {
            None
        };
        return (
            HtmlElement { tag: element.tag.clone(), attrs, place: element.place, children: out },
            range,
        );
    }
    if n == 1 {
        if let HtmlNode::Text(run, place) = &list[0] {
            if let Some((from, to)) = in_document(main, *place) {
                let ghost found = atom(text@, from as int, to as int);
                if seen {
                    let expr: Option<Range<usize>> = atom_expression(
                        text,
                        Range { start: from, end: to },
                    );
                    if expr.is_some() {
                        let range: Option<SrcRange> = document_range(expr, Ghost(found));
                        mapper.node_at(uid.as_str(), NodeKind::Inline, range);
                    } else {
                        proof {
                            lemma_fresh_entry(
                                m.counted().with_place(element.place),
                                id,
                                tag_kind(e.tag, attr_value(e.attrs, "display"@) == Some("block"@)),
                                m.counted().located(element.place),
                            );
                        }
                        mapper.set_text(uid.as_str(), run.as_str(), *place);
                    }
                }
                let (name, value) = run_attr(text, Range { start: from, end: to });
                push_attr(&mut attrs, name.as_str(), value);
            }
            let children: Vec<HtmlNode> = copy_nodes(list);
            let range: Option<SrcRange> = if seen {
                mapper.range_at(uid.as_str())
            } else {
                None
            };
            return (
                HtmlElement { tag: element.tag.clone(), attrs, place: element.place, children },
                range,
            );
        }
    }
    let mut covered: Option<SrcRange> = None;
    proof {
        lemma_keeps_main(kids, 0, text@, start);
    }
    while i < n
        invariant
            i <= n,
            n == list@.len(),
            *list == element.children,
            kids == nodes_v(list@, n as nat),
            nodes_v(out@, out@.len()) == label_children(kids, i as nat, text@, start).children,
            mapper@ == label_children(kids, i as nat, text@, start).map,
            covered == label_children(kids, i as nat, text@, start).range,
            start.main == main,
        decreases n - i,
    {
        proof {
            lemma_nodes_at(list@, n as nat, i as int);
            assert(decreases_to!(element => element.children@[i as int]));
            lemma_keeps_main(kids, i as nat, text@, start);
        }
        match &list[i] {
            HtmlNode::Element(child) => {
                let (labelled, range) = label_within(child, text, false, mapper);
                push_child(&mut out, HtmlNode::Element(labelled));
                covered = widen(covered, range);
            },
            HtmlNode::Text(run, place) => {
                covered = label_text(run, *place, text, main, covered, mapper, &mut out);
            },
            HtmlNode::Frame(f) => {
                covered = label_drawing(f, text, main, covered, mapper, &mut out);
            },
            other => {
                push_child(&mut out, copy_node(other));
            },
        }
        i = i + 1;
    }
    let range: Option<SrcRange> = if seen {
        if let Some(r) = covered {
            mapper.cover(uid.as_str(), r);
        }
        match mapper.range_at(uid.as_str()) {
            Some(r) => Some(r),
            None => covered,
        }
    } else {
        covered
    };
    (HtmlElement { tag: element.tag.clone(), attrs, place: element.place, children: out }, range)
}

/// A node just recorded without text has room for some.
proof fn lemma_fresh_entry(m: MapView, uid: Seq<char>, kind: NodeKind, range: Option<SrcRange>)
    ensures
        room_after(m.with(uid, kind, range, seq![]).nodes, uid),
{
    let n = NodeView { uid, kind, range, segments: seq![] };
    let after = with_node(m.nodes, n);
    lemma_found_one(uids(m.nodes), uid);
    lemma_found_one(uids(after), uid);
    let ids = uids(after);
    match slot(m.nodes, uid) {
        Some(at) => {
            assert(ids =~= uids(m.nodes));
        },
        None => {
            assert(ids[m.nodes.len() as int] == uid);
            assert(forall|k: int|
                0 <= k < m.nodes.len() ==> ids[k] == uids(m.nodes)[k]);
        },
    }
}

/// Labelling changes nothing about which file is the document.
proof fn lemma_label_main(e: ElementV, text: Seq<char>, in_math: bool, m: MapView)
    ensures
        label(e, text, in_math, m).map.main == m.main,
    decreases e, 0nat,
{
    let uid = uid_text(m.next() as nat);
    let start = if !is_unseen(e.tag) {
        m.counted().with_whole(
            uid,
            tag_kind(e.tag, attr_value(e.attrs, "display"@) == Some("block"@)),
            e.place,
        )
    } else {
        m
    };
    lemma_math_main(e.children, e.children.len(), text, start);
    lemma_keeps_main(e.children, e.children.len(), text, start);
}

/// Labelling the children of an equation changes nothing about which file is
/// the document.
proof fn lemma_math_main(list: Seq<NodeV>, n: nat, text: Seq<char>, m: MapView)
    ensures
        label_math(list, n, text, m).map.main == m.main,
    decreases list, n,
{
    if 0 < n <= list.len() {
        lemma_math_main(list, (n - 1) as nat, text, m);
        match list[n - 1] {
            NodeV::Element(e) => {
                lemma_label_main(e, text, true, label_math(list, (n - 1) as nat, text, m).map);
            },
            _ => {},
        }
    }
}

/// Labelling the children of an element changes nothing about which file is the
/// document.
proof fn lemma_keeps_main(list: Seq<NodeV>, n: nat, text: Seq<char>, m: MapView)
    ensures
        label_children(list, n, text, m).map.main == m.main,
    decreases list, n,
{
    if 0 < n <= list.len() {
        lemma_keeps_main(list, (n - 1) as nat, text, m);
        match list[n - 1] {
            NodeV::Element(e) => {
                lemma_label_main(e, text, false, label_children(list, (n - 1) as nat, text, m).map);
            },
            _ => {},
        }
    }
}

// ------------------------------------------------------- what labelling keeps

/// What an element says, all its runs of text one after another.
pub open spec fn said(e: ElementV) -> Seq<char>
    decreases e, 0nat,
{
    said_in(e.children, e.children.len())
}

/// What the first of some nodes say.
pub open spec fn said_in(list: Seq<NodeV>, n: nat) -> Seq<char>
    decreases list, n,
{
    if n == 0 || n > list.len() {
        seq![]
    } else {
        said_in(list, (n - 1) as nat) + match list[n - 1] {
            NodeV::Element(e) => said(e),
            NodeV::Text(run, _) => run,
            _ => seq![],
        }
    }
}

/// What a node says after others does not change what they say.
proof fn lemma_said_push(list: Seq<NodeV>, n: NodeV, k: nat)
    requires
        k <= list.len(),
    ensures
        said_in(list.push(n), k) == said_in(list, k),
    decreases k,
{
    if k > 0 {
        lemma_said_push(list, n, (k - 1) as nat);
    }
}

/// Labelling an element changes nothing of what the page says: the text, the
/// tag, and the attributes that were there are as they were.
pub proof fn labelling_keeps_the_page(e: ElementV, text: Seq<char>, in_math: bool, m: MapView)
    ensures
        said(label(e, text, in_math, m).element) == said(e),
        label(e, text, in_math, m).element.tag == e.tag,
        label(e, text, in_math, m).element.attrs.take(e.attrs.len() as int) == e.attrs,
    decreases e, 0nat,
{
    let uid = uid_text(m.next() as nat);
    let start = if !is_unseen(e.tag) {
        m.counted().with_whole(
            uid,
            tag_kind(e.tag, attr_value(e.attrs, "display"@) == Some("block"@)),
            e.place,
        )
    } else {
        m
    };
    lemma_math_said(e.children, e.children.len(), text, start);
    lemma_children_said(e.children, e.children.len(), text, start);
    assert(label(e, text, in_math, m).element.attrs.take(e.attrs.len() as int) =~= e.attrs);
}

/// Labelling the children of an equation changes nothing of what they say.
proof fn lemma_math_said(list: Seq<NodeV>, n: nat, text: Seq<char>, m: MapView)
    requires
        n <= list.len(),
    ensures
        label_math(list, n, text, m).children.len() == n,
        said_in(label_math(list, n, text, m).children, n) == said_in(list, n),
    decreases list, n,
{
    if n > 0 {
        let before = label_math(list, (n - 1) as nat, text, m);
        lemma_math_said(list, (n - 1) as nat, text, m);
        match list[n - 1] {
            NodeV::Element(e) => {
                labelling_keeps_the_page(e, text, true, before.map);
            },
            _ => {},
        }
        lemma_said_push(
            before.children,
            label_math(list, n, text, m).children.last(),
            (n - 1) as nat,
        );
    }
}

/// Labelling the children of an element changes nothing of what they say.
proof fn lemma_children_said(list: Seq<NodeV>, n: nat, text: Seq<char>, m: MapView)
    requires
        n <= list.len(),
    ensures
        label_children(list, n, text, m).children.len() == n,
        said_in(label_children(list, n, text, m).children, n) == said_in(list, n),
    decreases list, n,
{
    if n > 0 {
        let before = label_children(list, (n - 1) as nat, text, m);
        lemma_children_said(list, (n - 1) as nat, text, m);
        let last = label_children(list, n, text, m).children.last();
        match list[n - 1] {
            NodeV::Element(e) => {
                labelling_keeps_the_page(e, text, false, before.map);
            },
            NodeV::Text(run, place) => {
                match last {
                    NodeV::Element(wrapper) => {
                        reveal_with_fuel(said, 2);
                        reveal_with_fuel(said_in, 3);
                        assert(said(wrapper) =~= run);
                    },
                    _ => {},
                }
            },
            _ => {},
        }
        lemma_said_push(before.children, last, (n - 1) as nat);
    }
}

// ------------------------------------------------------ what the map knows

/// Whether a map knows an id.
pub open spec fn knows(m: MapView, uid: Seq<char>) -> bool {
    slot(m.nodes, uid) is Some
}

/// Whether one map knows every id another knows.
pub open spec fn grown(m: MapView, next: MapView) -> bool {
    forall|uid: Seq<char>| #[trigger] knows(m, uid) ==> knows(next, uid)
}

/// Whether everything in an element that can be pointed at carries an id a map
/// knows.
pub open spec fn mapped(e: ElementV, in_math: bool, m: MapView) -> bool
    decreases e, 0nat,
{
    is_opaque(e.tag) || {
        &&& !is_unseen(e.tag) ==> exists|uid: Seq<char>|
            e.attrs.contains((UID_ATTR@, uid)) && #[trigger] knows(m, uid)
        &&& mapped_in(e.children, e.children.len(), in_math || e.tag == "math"@, m)
    }
}

/// Whether everything in the first of some nodes that can be pointed at carries
/// an id a map knows. In an equation only elements can be.
pub open spec fn mapped_in(list: Seq<NodeV>, n: nat, in_math: bool, m: MapView) -> bool
    decreases list, n,
{
    if n == 0 || n > list.len() {
        true
    } else {
        mapped_in(list, (n - 1) as nat, in_math, m) && match list[n - 1] {
            NodeV::Element(e) => mapped(e, in_math, m),
            NodeV::Frame(f) => in_math || (f.id matches Some(id) && knows(m, id)),
            _ => true,
        }
    }
}

/// Recording a node makes a map know its id and forget none.
proof fn lemma_with(m: MapView, uid: Seq<char>, n: NodeView)
    requires
        n.uid == uid,
    ensures
        grown(m, m.with(uid, n.kind, n.range, n.segments)),
        knows(m.with(uid, n.kind, n.range, n.segments), uid),
{
    let next = m.with(uid, n.kind, n.range, n.segments);
    lemma_found_one(uids(m.nodes), uid);
    assert forall|other: Seq<char>| #[trigger] knows(m, other) implies knows(next, other) by {
        lemma_found_one(uids(m.nodes), other);
        lemma_found_one(uids(next.nodes), other);
        let at = slot(m.nodes, other).unwrap();
        assert(uids(next.nodes)[at] == uids(m.nodes)[at]);
    }
    lemma_found_one(uids(next.nodes), uid);
    match slot(m.nodes, uid) {
        Some(at) => {
            assert(uids(next.nodes)[at] == uid);
        },
        None => {
            assert(uids(next.nodes)[m.nodes.len() as int] == uid);
        },
    }
}

/// What one map knows of an element, a map that knows more does too.
proof fn lemma_mapped_grown(e: ElementV, in_math: bool, m: MapView, next: MapView)
    requires
        mapped(e, in_math, m),
        grown(m, next),
    ensures
        mapped(e, in_math, next),
    decreases e, 0nat,
{
    if !is_opaque(e.tag) {
        lemma_mapped_in_grown(
            e.children,
            e.children.len(),
            in_math || e.tag == "math"@,
            m,
            next,
        );
        if !is_unseen(e.tag) {
            let uid = choose|uid: Seq<char>|
                e.attrs.contains((UID_ATTR@, uid)) && #[trigger] knows(m, uid);
            assert(knows(next, uid));
        }
    }
}

/// What one map knows of some nodes, a map that knows more does too.
proof fn lemma_mapped_in_grown(
    list: Seq<NodeV>,
    n: nat,
    in_math: bool,
    m: MapView,
    next: MapView,
)
    requires
        mapped_in(list, n, in_math, m),
        grown(m, next),
    ensures
        mapped_in(list, n, in_math, next),
    decreases list, n,
{
    if 0 < n <= list.len() {
        lemma_mapped_in_grown(list, (n - 1) as nat, in_math, m, next);
        match list[n - 1] {
            NodeV::Element(e) => {
                lemma_mapped_grown(e, in_math, m, next);
            },
            NodeV::Frame(f) => {
                if !in_math {
                    assert(knows(m, f.id.unwrap()));
                }
            },
            _ => {},
        }
    }
}

/// What a map knows of some nodes does not depend on the ones after.
proof fn lemma_mapped_push(list: Seq<NodeV>, n: NodeV, k: nat, in_math: bool, m: MapView)
    requires
        k <= list.len(),
    ensures
        mapped_in(list.push(n), k, in_math, m) == mapped_in(list, k, in_math, m),
    decreases k,
{
    if k > 0 {
        lemma_mapped_push(list, n, (k - 1) as nat, in_math, m);
    }
}

/// Everything in a labelled element that can be pointed at carries an id, and
/// the map knows that id, along with every id it knew before.
pub proof fn labelled_is_mapped(e: ElementV, text: Seq<char>, m: MapView)
    ensures
        mapped(label(e, text, false, m).element, false, label(e, text, false, m).map),
        grown(m, label(e, text, false, m).map),
{
    lemma_labelled(e, text, false, m);
}

/// A labelled element carries ids the map knows, in an equation too.
#[verifier::rlimit(40)]
proof fn lemma_labelled(e: ElementV, text: Seq<char>, in_math: bool, m: MapView)
    ensures
        mapped(label(e, text, in_math, m).element, in_math, label(e, text, in_math, m).map),
        grown(m, label(e, text, in_math, m).map),
    decreases e, 0nat,
{
    let uid = uid_text(m.next() as nat);
    let kind = tag_kind(e.tag, attr_value(e.attrs, "display"@) == Some("block"@));
    let seen = !is_unseen(e.tag);
    let start = if seen {
        m.counted().with_whole(uid, kind, e.place)
    } else {
        m
    };
    let out = label(e, text, in_math, m);
    let attrs = own_attrs(e, uid, m.main);
    if seen {
        lemma_with(
            m.counted().with_place(e.place),
            uid,
            NodeView { uid, kind, range: m.counted().located(e.place), segments: seq![] },
        );
        assert(grown(m, m.counted().with_place(e.place)));
        assert(grown(m, start));
        assert(attrs[e.attrs.len() as int] == (UID_ATTR@, uid));
        assert(attrs.contains((UID_ATTR@, uid)));
    }
    if !is_opaque(e.tag) {
        let n = e.children.len();
        if in_math || e.tag == "math"@ {
            lemma_math_labelled(e.children, n, text, start);
            lemma_math_said(e.children, n, text, start);
            assert(grown(start, out.map));
        } else if n == 1 && e.children[0] is Text {
            reveal_with_fuel(mapped, 2);
            reveal_with_fuel(mapped_in, 3);
            let place = e.children[0]->Text_1;
            if let Some(range) = here(m.main, place) {
                let found = atom(text, range.0 as int, range.1 as int);
                if seen {
                    if found is Some {
                        lemma_with(
                            start,
                            uid,
                            NodeView {
                                uid,
                                kind: NodeKind::Inline,
                                range: of_document(found),
                                segments: seq![],
                            },
                        );
                    } else {
                        lemma_text_grown(start, uid, e.children[0]->Text_0.len(), place);
                    }
                }
                let last = run_label(text, range.0 as int, range.1 as int);
                if seen {
                    assert(attrs.push(last)[e.attrs.len() as int] == (UID_ATTR@, uid));
                }
            }
            assert(grown(start, out.map));
        } else {
            lemma_children_labelled(e.children, n, text, start);
            lemma_children_said(e.children, n, text, start);
            let inside = label_children(e.children, n, text, start);
            if seen {
                if let Some(range) = inside.range {
                    lemma_cover_grown(inside.map, uid, range);
                    lemma_mapped_in_grown(inside.children, n, false, inside.map, out.map);
                }
            }
            assert(grown(start, out.map));
        }
        if seen {
            assert(knows(start, uid));
            assert(knows(out.map, uid));
            assert(out.element.attrs.contains((UID_ATTR@, uid))) by {
                assert(out.element.attrs[e.attrs.len() as int] == (UID_ATTR@, uid));
            }
        }
    }
}

/// Turning a node into text makes a map forget nothing.
proof fn lemma_text_grown(m: MapView, uid: Seq<char>, len: nat, place: Option<Place>)
    ensures
        grown(m, m.as_text(uid).with_text(uid, len, place)),
{
    let first = m.as_text(uid);
    lemma_found_one(uids(m.nodes), uid);
    if let Some(n) = node_with(m.nodes, uid) {
        lemma_with(m, uid, NodeView { uid, kind: NodeKind::Text, ..n });
    }
    assert(grown(m, first));
    let next = first.with_place(place);
    assert(grown(first, next));
    if let Some(r) = first.located(place) {
        if let Some(n) = node_with(next.nodes, uid) {
            let added = Segment {
                at: if n.segments.len() == 0 {
                    0
                } else {
                    (n.segments.last().at + n.segments.last().len) as usize
                },
                len: len as usize,
                file: r.file,
                offset: r.start,
            };
            lemma_with(
                next,
                uid,
                NodeView {
                    uid,
                    kind: n.kind,
                    range: n.range,
                    segments: n.segments.push(added),
                },
            );
        }
    }
}

/// Giving a node a range makes a map forget nothing.
proof fn lemma_cover_grown(m: MapView, uid: Seq<char>, range: SrcRange)
    ensures
        grown(m, m.covered(uid, range)),
{
    if let Some(n) = node_with(m.nodes, uid) {
        match n.range {
            None => {
                lemma_with(m, uid, NodeView { uid, range: Some(range), ..n });
            },
            Some(known) => {
                lemma_with(m, uid, NodeView { uid, range: Some(hull(known, range)), ..n });
            },
        }
    }
}

/// The labelled elements of an equation carry ids the map knows.
proof fn lemma_math_labelled(list: Seq<NodeV>, n: nat, text: Seq<char>, m: MapView)
    requires
        n <= list.len(),
    ensures
        label_math(list, n, text, m).children.len() == n,
        grown(m, label_math(list, n, text, m).map),
        mapped_in(label_math(list, n, text, m).children, n, true, label_math(list, n, text, m).map),
    decreases list, n,
{
    if n > 0 {
        let before = label_math(list, (n - 1) as nat, text, m);
        let after = label_math(list, n, text, m);
        lemma_math_labelled(list, (n - 1) as nat, text, m);
        match list[n - 1] {
            NodeV::Element(e) => {
                lemma_labelled(e, text, true, before.map);
            },
            _ => {},
        }
        lemma_mapped_in_grown(before.children, (n - 1) as nat, true, before.map, after.map);
        lemma_mapped_push(
            before.children,
            after.children.last(),
            (n - 1) as nat,
            true,
            after.map,
        );
        assert(after.children =~= before.children.push(after.children.last()));
    }
}

/// The labelled children of an element carry ids the map knows.
proof fn lemma_children_labelled(list: Seq<NodeV>, n: nat, text: Seq<char>, m: MapView)
    requires
        n <= list.len(),
    ensures
        label_children(list, n, text, m).children.len() == n,
        grown(m, label_children(list, n, text, m).map),
        mapped_in(
            label_children(list, n, text, m).children,
            n,
            false,
            label_children(list, n, text, m).map,
        ),
    decreases list, n,
{
    if n > 0 {
        let before = label_children(list, (n - 1) as nat, text, m);
        let after = label_children(list, n, text, m);
        lemma_children_labelled(list, (n - 1) as nat, text, m);
        match list[n - 1] {
            NodeV::Element(e) => {
                lemma_labelled(e, text, false, before.map);
            },
            NodeV::Text(run, place) => {
                lemma_run_labelled(before, run, place, text);
            },
            NodeV::Frame(f) => {
                let uid = after.children.last()->Frame_0.id.unwrap();
                let map = if f.id is Some {
                    before.map
                } else {
                    before.map.counted()
                };
                lemma_with(
                    map,
                    uid,
                    NodeView {
                        uid,
                        kind: NodeKind::Svg,
                        range: of_document(drawn_at(f.ink, text, before.map.main)),
                        segments: seq![],
                    },
                );
                assert(grown(before.map, map));
            },
            _ => {},
        }
        lemma_mapped_in_grown(before.children, (n - 1) as nat, false, before.map, after.map);
        lemma_mapped_push(
            before.children,
            after.children.last(),
            (n - 1) as nat,
            false,
            after.map,
        );
        assert(after.children =~= before.children.push(after.children.last()));
    }
}

/// A labelled run of text carries an id the map knows.
proof fn lemma_run_labelled(before: Covered, run: Seq<char>, place: Option<Place>, text: Seq<char>)
    ensures
        grown(before.map, label_run(before, run, place, text).map),
        label_run(before, run, place, text).children.last() matches NodeV::Element(e) ==> mapped(
            e,
            false,
            label_run(before, run, place, text).map,
        ),
        label_run(before, run, place, text).children.last() !is Frame,
{
    let after = label_run(before, run, place, text);
    if let Some(range) = here(before.map.main, place) {
        let uid = uid_text(before.map.next() as nat);
        let found = atom(text, range.0 as int, range.1 as int);
        let map = before.map.counted();
        assert(grown(before.map, map));
        if found is Some {
            lemma_with(
                map,
                uid,
                NodeView { uid, kind: NodeKind::Inline, range: of_document(found), segments: seq![] },
            );
        } else {
            let at = map.located(place);
            lemma_with(
                map.with_place(place),
                uid,
                NodeView {
                    uid,
                    kind: NodeKind::Text,
                    range: at,
                    segments: match at {
                        Some(r) => seq![
                            Segment { at: 0, len: run.len() as usize, file: r.file, offset: r.start },
                        ],
                        None => seq![],
                    },
                },
            );
            assert(grown(map, map.with_place(place)));
        }
        let e = after.children.last()->Element_0;
        assert(e.attrs[1] == (UID_ATTR@, uid));
        assert(e.attrs.contains((UID_ATTR@, uid)) && knows(after.map, uid));
        reveal_with_fuel(mapped, 2);
        reveal_with_fuel(mapped_in, 3);
    }
}

// ------------------------------------------------- what a region reaches around

/// The most ids that labelling an element gives out.
pub open spec fn ids_in(e: ElementV) -> nat
    decreases e, 0nat,
{
    1 + ids_among(e.children, e.children.len())
}

/// The most ids that labelling the first of some nodes gives out.
pub open spec fn ids_among(list: Seq<NodeV>, n: nat) -> nat
    decreases list, n,
{
    if n == 0 || n > list.len() {
        0
    } else {
        ids_among(list, (n - 1) as nat) + match list[n - 1] {
            NodeV::Element(e) => ids_in(e),
            _ => 1,
        }
    }
}

/// Whether an id is one of those that labelling gives out.
pub open spec fn is_given(id: Seq<char>) -> bool {
    exists|k: nat| id == #[trigger] uid_text(k)
}

/// Whether nothing in an element carries an id yet that labelling could give out.
pub open spec fn unlabelled(e: ElementV) -> bool
    decreases e, 0nat,
{
    &&& forall|v: Seq<char>| !#[trigger] e.attrs.contains((UID_ATTR@, v))
    &&& all_unlabelled(e.children, e.children.len())
}

/// Whether nothing in the first of some nodes carries an id yet that labelling could give out.
pub open spec fn all_unlabelled(list: Seq<NodeV>, n: nat) -> bool
    decreases list, n,
{
    n == 0 || n > list.len() || {
        &&& all_unlabelled(list, (n - 1) as nat)
        &&& match list[n - 1] {
            NodeV::Element(e) => unlabelled(e),
            NodeV::Frame(f) => f.id matches Some(id) ==> !is_given(id),
            _ => true,
        }
    }
}

/// Whether a map says that an id is that of a region or a container of the document, and where
/// it is.
pub open spec fn is_region(m: MapView, uid: Seq<char>) -> bool {
    &&& node_with(m.nodes, uid) matches Some(n) && (n.kind == NodeKind::Para || n.kind
        == NodeKind::Item || n.kind == NodeKind::Block || n.kind == NodeKind::Group)
    &&& m.at(uid) matches Some(r) && r.file == 0
}

/// Whether what is recorded of a child lies inside a range, where it came out of the document.
/// What a piece of code in a line put out is recorded as that code, which may reach further.
pub open spec fn child_within(child: NodeV, r: SrcRange, m: MapView) -> bool {
    match child {
        NodeV::Element(x) => forall|id: Seq<char>|
            x.attrs.contains((UID_ATTR@, id)) && (#[trigger] m.at(id) matches Some(c) && c.file == 0)
                && !(x.tag == "span"@ && (node_with(m.nodes, id)->Some_0).kind == NodeKind::Inline)
                ==> r.start <= (m.at(id)->Some_0).start && (m.at(id)->Some_0).end <= r.end,
        NodeV::Frame(f) => f.id matches Some(id) ==> is_given(id) ==> (m.at(id) matches Some(c)
            && c.file == 0) ==> r.start <= (m.at(id)->Some_0).start && (m.at(id)->Some_0).end
            <= r.end,
        _ => true,
    }
}

/// Whether every region and every container of the document in a labelled element reaches
/// around all that is directly in it. An equation is one thing, and its parts are not looked at.
pub open spec fn reaches_around(e: ElementV, m: MapView) -> bool
    decreases e, 0nat,
{
    is_opaque(e.tag) || e.tag == "math"@ || {
        &&& forall|uid: Seq<char>|
            e.attrs.contains((UID_ATTR@, uid)) && #[trigger] is_region(m, uid) ==> forall|i: int|
                0 <= i < e.children.len() ==> child_within(
                    #[trigger] e.children[i],
                    m.at(uid)->Some_0,
                    m,
                )
        &&& all_reach_around(e.children, e.children.len(), m)
    }
}

/// Whether every region in the first of some labelled nodes reaches around what is in it.
pub open spec fn all_reach_around(list: Seq<NodeV>, n: nat, m: MapView) -> bool
    decreases list, n,
{
    n == 0 || n > list.len() || {
        &&& all_reach_around(list, (n - 1) as nat, m)
        &&& list[n - 1] matches NodeV::Element(e) ==> reaches_around(e, m)
    }
}

/// On a labelled page every paragraph, item, block and container reaches around all that is
/// directly in it: the range recorded for it contains the range recorded for each run of text,
/// each element and each drawing inside it.
pub proof fn a_region_holds_what_is_in_it(
    page: ElementV,
    text: Seq<char>,
    main: usize,
    hidden: Seq<usize>,
)
    requires
        unlabelled(page),
        ids_in(page) <= u64::MAX,
    ensures
        ({
            let done = label(page, text, false, MapView::start(main, hidden));
            reaches_around(done.element, done.map)
        }),
{
    let m = MapView::start(main, hidden);
    lemma_reaches(page, text, m, label(page, text, false, m).map);
}

/// Whether two maps agree on the ids with the numbers after one up to another.
spec fn agree(a: MapView, b: MapView, lo: int, hi: int) -> bool {
    forall|k: nat|
        lo < k <= hi ==> #[trigger] node_with(a.nodes, uid_text(k)) == node_with(
            b.nodes,
            uid_text(k),
        )
}

/// Whether a map comes after another: it knows at least as many ids, and what was known of the
/// ids given out before is still known.
spec fn follows(m: MapView, next: MapView, most: int) -> bool {
    &&& next.main == m.main
    &&& m.given <= next.given <= most
    &&& m.files.len() > 0 && m.files[0] == m.main ==> next.files.len() > 0 && next.files[0]
        == m.main
    &&& agree(m, next, -1, m.given as int)
}

/// Recording the next id changes nothing of the ones before.
proof fn lemma_next_recorded(
    m: MapView,
    kind: NodeKind,
    range: Option<SrcRange>,
    segments: Seq<Segment>,
    place: Option<Place>,
)
    requires
        m.given < u64::MAX,
    ensures
        ({
            let uid = uid_text((m.given + 1) as nat);
            &&& uid_text(m.next() as nat) == uid
            &&& follows(m, m.counted().with(uid, kind, range, segments), m.given + 1)
            &&& follows(
                m,
                m.counted().with_place(place).with(uid, kind, range, segments),
                m.given + 1,
            )
        }),
{
    let uid = uid_text((m.given + 1) as nat);
    let a = m.counted();
    let b = m.counted().with_place(place);
    what_is_recorded_is_read(a, uid, kind, range, segments);
    what_is_recorded_is_read(b, uid, kind, range, segments);
    assert forall|k: nat| -1 < k <= m.given implies #[trigger] node_with(m.nodes, uid_text(k))
        == node_with(a.with(uid, kind, range, segments).nodes, uid_text(k)) && node_with(
        m.nodes,
        uid_text(k),
    ) == node_with(b.with(uid, kind, range, segments).nodes, uid_text(k)) by {
        uids_differ(k, (m.given + 1) as nat);
    }
}

/// Recording an id that is not one of those given out changes nothing of those.
proof fn lemma_foreign_recorded(m: MapView, id: Seq<char>, range: Option<SrcRange>)
    requires
        !is_given(id),
    ensures
        follows(m, m.with(id, NodeKind::Svg, range, seq![]), m.given as int),
{
    let next = m.with(id, NodeKind::Svg, range, seq![]);
    what_is_recorded_is_read(m, id, NodeKind::Svg, range, seq![]);
    assert forall|k: nat| -1 < k <= m.given implies #[trigger] node_with(m.nodes, uid_text(k))
        == node_with(next.nodes, uid_text(k)) by {
        assert(uid_text(k) != id);
    }
}

/// Changing what is known of one id changes nothing of the others.
proof fn lemma_changed(m: MapView, number: nat, kind: NodeKind, range: Option<SrcRange>, segments: Seq<Segment>)
    ensures
        forall|k: nat|
            k != number ==> #[trigger] node_with(
                m.with(uid_text(number), kind, range, segments).nodes,
                uid_text(k),
            ) == node_with(m.nodes, uid_text(k)),
{
    what_is_recorded_is_read(m, uid_text(number), kind, range, segments);
    assert forall|k: nat| k != number implies #[trigger] node_with(
        m.with(uid_text(number), kind, range, segments).nodes,
        uid_text(k),
    ) == node_with(m.nodes, uid_text(k)) by {
        uids_differ(k, number);
    }
}

/// Turning a node into text, with text added, changes nothing of the others.
proof fn lemma_text_changed(m: MapView, number: nat, len: nat, place: Option<Place>)
    ensures
        ({
            let next = m.as_text(uid_text(number)).with_text(uid_text(number), len, place);
            &&& next.main == m.main && next.given == m.given
            &&& m.files.len() > 0 && m.files[0] == m.main ==> next.files.len() > 0 && next.files[0]
                == m.main
            &&& forall|k: nat|
                k != number ==> #[trigger] node_with(next.nodes, uid_text(k)) == node_with(
                    m.nodes,
                    uid_text(k),
                )
        }),
{
    let uid = uid_text(number);
    let first = m.as_text(uid);
    if let Some(n) = node_with(m.nodes, uid) {
        lemma_changed(m, number, NodeKind::Text, n.range, n.segments);
    }
    let next = first.with_place(place);
    if let Some(r) = first.located(place) {
        if let Some(n) = node_with(next.nodes, uid) {
            let added = Segment {
                at: if n.segments.len() == 0 {
                    0
                } else {
                    (n.segments.last().at + n.segments.last().len) as usize
                },
                len: len as usize,
                file: r.file,
                offset: r.start,
            };
            lemma_changed(next, number, n.kind, n.range, n.segments.push(added));
        }
    }
}

/// Giving a node a range changes nothing of the others.
proof fn lemma_cover_changed(m: MapView, number: nat, range: SrcRange)
    ensures
        ({
            let next = m.covered(uid_text(number), range);
            &&& next.main == m.main && next.given == m.given && next.files == m.files
            &&& forall|k: nat|
                k != number ==> #[trigger] node_with(next.nodes, uid_text(k)) == node_with(
                    m.nodes,
                    uid_text(k),
                )
            &&& node_with(m.nodes, uid_text(number)) matches Some(n) ==> (node_with(
                next.nodes,
                uid_text(number),
            ) matches Some(a) && a.kind == n.kind && (n.range is None ==> a.range == Some(range))
                && (n.range matches Some(known) ==> a.range == Some(
                if (n.kind == NodeKind::Para || n.kind == NodeKind::Item || n.kind
                    == NodeKind::Block || n.kind == NodeKind::Group) && known.file == range.file {
                    hull(known, range)
                } else {
                    known
                },
            )))
        }),
{
    if let Some(n) = node_with(m.nodes, uid_text(number)) {
        match n.range {
            None => {
                lemma_changed(m, number, n.kind, Some(range), n.segments);
                what_is_recorded_is_read(m, uid_text(number), n.kind, Some(range), n.segments);
            },
            Some(known) => {
                let wide = Some(hull(known, range));
                lemma_changed(m, number, n.kind, wide, n.segments);
                what_is_recorded_is_read(m, uid_text(number), n.kind, wide, n.segments);
            },
        }
    }
}

/// Labelling an element changes nothing of the ids given out before.
proof fn lemma_label_follows(e: ElementV, text: Seq<char>, in_math: bool, m: MapView)
    requires
        unlabelled(e),
        m.given + ids_in(e) <= u64::MAX,
    ensures
        follows(m, label(e, text, in_math, m).map, m.given + ids_in(e)),
    decreases e, 0nat,
{
    let uid = uid_text(m.next() as nat);
    let kind = tag_kind(e.tag, attr_value(e.attrs, "display"@) == Some("block"@));
    let seen = !is_unseen(e.tag);
    let start = if seen {
        m.counted().with_whole(uid, kind, e.place)
    } else {
        m
    };
    let number = (m.given + 1) as nat;
    lemma_next_recorded(m, kind, m.counted().located(e.place), seq![], e.place);
    assert(follows(m, start, m.given + 1));
    let n = e.children.len();
    lemma_math_follows(e.children, n, text, start);
    lemma_children_follows(e.children, n, text, start);
    let out = label(e, text, in_math, m);
    if !is_opaque(e.tag) {
        if in_math || e.tag == "math"@ {
            lemma_follows_on(m, start, out.map, m.given + ids_in(e));
        } else if n == 1 && e.children[0] is Text {
            let place = e.children[0]->Text_1;
            if let Some(range) = here(m.main, place) {
                let found = atom(text, range.0 as int, range.1 as int);
                if seen {
                    if found is Some {
                        lemma_changed(start, number, NodeKind::Inline, of_document(found), seq![]);
                    } else {
                        lemma_text_changed(start, number, e.children[0]->Text_0.len(), place);
                    }
                }
            }
        } else {
            let inside = label_children(e.children, n, text, start);
            lemma_follows_on(m, start, inside.map, m.given + ids_in(e));
            if let Some(range) = inside.range {
                lemma_cover_changed(inside.map, number, range);
            }
        }
    }
}

/// What comes after what comes after a map comes after it.
proof fn lemma_follows_on(a: MapView, b: MapView, c: MapView, most: int)
    requires
        follows(a, b, b.given as int),
        follows(b, c, c.given as int),
        c.given <= most,
    ensures
        follows(a, c, most),
{
    assert forall|k: nat| -1 < k <= a.given implies #[trigger] node_with(a.nodes, uid_text(k))
        == node_with(c.nodes, uid_text(k)) by {
        assert(node_with(a.nodes, uid_text(k)) == node_with(b.nodes, uid_text(k)));
        assert(node_with(b.nodes, uid_text(k)) == node_with(c.nodes, uid_text(k)));
    }
}

/// Labelling an equation's children changes nothing of the ids given out before.
proof fn lemma_math_follows(list: Seq<NodeV>, n: nat, text: Seq<char>, m: MapView)
    requires
        n <= list.len(),
        all_unlabelled(list, n),
        m.given + ids_among(list, n) <= u64::MAX,
    ensures
        follows(m, label_math(list, n, text, m).map, m.given + ids_among(list, n)),
    decreases list, n,
{
    if n > 0 {
        lemma_math_follows(list, (n - 1) as nat, text, m);
        let before = label_math(list, (n - 1) as nat, text, m);
        let after = label_math(list, n, text, m);
        if let NodeV::Element(e) = list[n - 1] {
            lemma_label_follows(e, text, true, before.map);
            lemma_follows_on(m, before.map, after.map, m.given + ids_among(list, n));
        }
    }
}

/// Labelling one more child changes nothing of the ids given out before.
proof fn lemma_child_follows(list: Seq<NodeV>, n: nat, text: Seq<char>, m: MapView)
    requires
        0 < n <= list.len(),
        all_unlabelled(list, n),
        label_children(list, (n - 1) as nat, text, m).map.given + (match list[n - 1] {
            NodeV::Element(e) => ids_in(e),
            _ => 1,
        }) <= u64::MAX,
    ensures
        follows(
            label_children(list, (n - 1) as nat, text, m).map,
            label_children(list, n, text, m).map,
            label_children(list, (n - 1) as nat, text, m).map.given + (match list[n - 1] {
                NodeV::Element(e) => ids_in(e),
                _ => 1,
            }),
        ),
    decreases list, n, 0nat,
{
    let before = label_children(list, (n - 1) as nat, text, m);
    match list[n - 1] {
        NodeV::Element(e) => {
            lemma_label_follows(e, text, false, before.map);
        },
        NodeV::Text(run, place) => {
            if let Some(range) = here(before.map.main, place) {
                let found = atom(text, range.0 as int, range.1 as int);
                lemma_next_recorded(
                    before.map,
                    NodeKind::Inline,
                    of_document(found),
                    seq![],
                    place,
                );
                let at = before.map.counted().located(place);
                lemma_next_recorded(
                    before.map,
                    NodeKind::Text,
                    at,
                    match at {
                        Some(r) => seq![
                            Segment { at: 0, len: run.len() as usize, file: r.file, offset: r.start },
                        ],
                        None => seq![],
                    },
                    place,
                );
            }
        },
        NodeV::Frame(f) => {
            let range = of_document(drawn_at(f.ink, text, before.map.main));
            match f.id {
                Some(id) => {
                    lemma_foreign_recorded(before.map, id, range);
                },
                None => {
                    lemma_next_recorded(before.map, NodeKind::Svg, range, seq![], None);
                },
            }
        },
        _ => {},
    }
}

/// Labelling an element's children changes nothing of the ids given out before.
proof fn lemma_children_follows(list: Seq<NodeV>, n: nat, text: Seq<char>, m: MapView)
    requires
        n <= list.len(),
        all_unlabelled(list, n),
        m.given + ids_among(list, n) <= u64::MAX,
    ensures
        follows(m, label_children(list, n, text, m).map, m.given + ids_among(list, n)),
    decreases list, n, 1nat,
{
    if n > 0 {
        lemma_children_follows(list, (n - 1) as nat, text, m);
        let before = label_children(list, (n - 1) as nat, text, m);
        let after = label_children(list, n, text, m);
        lemma_child_follows(list, n, text, m);
        lemma_follows_on(m, before.map, after.map, m.given + ids_among(list, n));
    }
}

/// The attributes that say where something came from are not the one that holds its id.
proof fn lemma_attr_names()
    ensures
        SRC_ATTR@ != UID_ATTR@,
        TEXT_ATTR@ != UID_ATTR@,
        ATOM_ATTR@ != UID_ATTR@,
{
    reveal_strlit("data-typst-src");
    reveal_strlit("data-typst-text");
    reveal_strlit("data-typst-atom");
    reveal_strlit("data-uid");
    assert(SRC_ATTR@.len() == 14 && TEXT_ATTR@.len() == 15 && ATOM_ATTR@.len() == 15
        && UID_ATTR@.len() == 8);
}

/// The id a labelled element carries is the one it was given.
proof fn lemma_own_id(e: ElementV, text: Seq<char>, m: MapView, id: Seq<char>)
    requires
        unlabelled(e),
        label(e, text, false, m).element.attrs.contains((UID_ATTR@, id)),
    ensures
        id == uid_text(m.next() as nat),
        !is_unseen(e.tag),
{
    lemma_attr_names();
    let attrs = label(e, text, false, m).element.attrs;
    let own = own_attrs(e, uid_text(m.next() as nat), m.main);
    let k = attrs.index_of((UID_ATTR@, id));
    assert(attrs[k] == (UID_ATTR@, id));
    if k < e.attrs.len() {
        assert(own[k] == e.attrs[k]);
        assert(e.attrs.contains((UID_ATTR@, id)));
    }
}

/// What lies in a range lies in one around it.
proof fn lemma_widened(covered: Option<SrcRange>, range: Option<SrcRange>)
    ensures
        covered matches Some(a) ==> (widened(covered, range) matches Some(w) && w.start <= a.start
            && a.end <= w.end),
        range matches Some(b) ==> b.file == 0 ==> (widened(covered, range) matches Some(w) && w.start
            <= b.start && b.end <= w.end),
        (covered matches Some(a) ==> a.file == 0) ==> (widened(covered, range) matches Some(w)
            ==> w.file == 0),
{
}

/// The regions of some labelled nodes do not depend on the nodes after.
proof fn lemma_reach_push(list: Seq<NodeV>, n: NodeV, k: nat, m: MapView)
    requires
        k <= list.len(),
    ensures
        all_reach_around(list.push(n), k, m) == all_reach_around(list, k, m),
    decreases k,
{
    if k > 0 {
        lemma_reach_push(list, n, (k - 1) as nat, m);
    }
}

/// The regions of a labelled element reach around what is in them, in any map that knows of its
/// ids what the labelling recorded.
#[verifier::rlimit(40)]
proof fn lemma_reaches(e: ElementV, text: Seq<char>, m: MapView, last: MapView)
    requires
        unlabelled(e),
        m.given + ids_in(e) <= u64::MAX,
        m.files.len() > 0 && m.files[0] == m.main,
        agree(
            label(e, text, false, m).map,
            last,
            m.given as int,
            label(e, text, false, m).map.given as int,
        ),
    ensures
        reaches_around(label(e, text, false, m).element, last),
    decreases e, 0nat,
{
    let number = (m.given + 1) as nat;
    let uid = uid_text(m.next() as nat);
    assert(uid == uid_text(number));
    let kind = tag_kind(e.tag, attr_value(e.attrs, "display"@) == Some("block"@));
    let seen = !is_unseen(e.tag);
    let start = if seen {
        m.counted().with_whole(uid, kind, e.place)
    } else {
        m
    };
    let out = label(e, text, false, m);
    let n = e.children.len();
    if !is_opaque(e.tag) && e.tag != "math"@ {
        lemma_next_recorded(m, kind, m.counted().located(e.place), seq![], e.place);
        lemma_label_follows(e, text, false, m);
        if n == 1 && e.children[0] is Text {
            assert(out.element.children == e.children);
            assert(all_reach_around(e.children, 0, last));
            assert(all_reach_around(e.children, 1, last));
            assert(forall|r: SrcRange| child_within(e.children[0], r, last));
        } else {
            let inside = label_children(e.children, n, text, start);
            lemma_children_follows(e.children, n, text, start);
            lemma_children_said(e.children, n, text, start);
            if seen {
                if let Some(range) = inside.range {
                    lemma_cover_changed(inside.map, number, range);
                }
            }
            assert(agree(inside.map, last, start.given as int, inside.map.given as int)) by {
                assert forall|k: nat| start.given < k <= inside.map.given implies #[trigger] node_with(
                    inside.map.nodes,
                    uid_text(k),
                ) == node_with(last.nodes, uid_text(k)) by {
                    assert(node_with(out.map.nodes, uid_text(k)) == node_with(
                        last.nodes,
                        uid_text(k),
                    ));
                }
            }
            lemma_children_reach(e.children, n, text, start, last);
            assert(out.element.children == inside.children);
            assert forall|id: Seq<char>|
                out.element.attrs.contains((UID_ATTR@, id)) && #[trigger] is_region(
                    last,
                    id,
                ) implies forall|i: int|
                0 <= i < out.element.children.len() ==> child_within(
                    #[trigger] out.element.children[i],
                    last.at(id)->Some_0,
                    last,
                ) by {
                lemma_own_id(e, text, m, id);
                assert(node_with(out.map.nodes, uid_text(number)) == node_with(
                    last.nodes,
                    uid_text(number),
                ));
                what_is_recorded_is_read(
                    m.counted().with_place(e.place),
                    uid,
                    kind,
                    m.counted().located(e.place),
                    seq![],
                );
                assert(node_with(start.nodes, uid_text(number)) == node_with(
                    inside.map.nodes,
                    uid_text(number),
                ));
                let r = last.at(id)->Some_0;
                assert(inside.range matches Some(x) ==> r.start <= x.start && x.end <= r.end);
            }
            assert(all_reach_around(out.element.children, n, last));
        }
    }
}

/// What is recorded of one more labelled child lies in the stretch that the children came from,
/// and its regions reach around what is in them.
#[verifier::rlimit(40)]
proof fn lemma_child_reaches(
    list: Seq<NodeV>,
    n: nat,
    text: Seq<char>,
    m: MapView,
    last: MapView,
    r: SrcRange,
)
    requires
        0 < n <= list.len(),
        all_unlabelled(list, n),
        m.given + ids_among(list, n) <= u64::MAX,
        m.files.len() > 0 && m.files[0] == m.main,
        agree(
            label_children(list, n, text, m).map,
            last,
            m.given as int,
            label_children(list, n, text, m).map.given as int,
        ),
    ensures
        label_children(list, n, text, m).children.len() == n,
        (label_children(list, n, text, m).range matches Some(x) ==> r.start <= x.start && x.end
            <= r.end) ==> child_within(label_children(list, n, text, m).children[n - 1], r, last),
        label_children(list, n, text, m).children[n - 1] matches NodeV::Element(x)
            ==> reaches_around(x, last),
    decreases list, n, 0nat,
{
    let before = label_children(list, (n - 1) as nat, text, m);
    let after = label_children(list, n, text, m);
    lemma_children_said(list, (n - 1) as nat, text, m);
    lemma_children_said(list, n, text, m);
    lemma_children_follows(list, (n - 1) as nat, text, m);
    lemma_child_follows(list, n, text, m);
    let child = after.children[n - 1];
    let number = (before.map.given + 1) as nat;
    match list[n - 1] {
        NodeV::Element(e) => {
            let l = label(e, text, false, before.map);
            assert(agree(l.map, last, before.map.given as int, l.map.given as int));
            lemma_reaches(e, text, before.map, last);
            lemma_widened(before.range, l.range);
            if after.range matches Some(x) ==> r.start <= x.start && x.end <= r.end {
                assert forall|id: Seq<char>|
                    l.element.attrs.contains((UID_ATTR@, id)) && (#[trigger] last.at(id) matches Some(
                        c,
                    ) && c.file == 0) && !(l.element.tag == "span"@ && (node_with(
                        last.nodes,
                        id,
                    )->Some_0).kind == NodeKind::Inline) implies r.start <= (last.at(
                    id,
                )->Some_0).start && (last.at(id)->Some_0).end <= r.end by {
                    lemma_own_id(e, text, before.map, id);
                    lemma_seen_counts(e, text, before.map);
                    assert(id == uid_text(number));
                    assert(node_with(l.map.nodes, uid_text(number)) == node_with(
                        last.nodes,
                        uid_text(number),
                    ));
                }
            }
        },
        NodeV::Text(run, place) => {
            if let Some(range) = here(before.map.main, place) {
                lemma_run_reaches(before, run, place, text, last, r);
            }
        },
        NodeV::Frame(f) => {
            let range = of_document(drawn_at(f.ink, text, before.map.main));
            lemma_widened(before.range, range);
            if f.id is None {
                what_is_recorded_is_read(
                    before.map.counted(),
                    uid_text(number),
                    NodeKind::Svg,
                    range,
                    seq![],
                );
                assert(node_with(after.map.nodes, uid_text(number)) == node_with(
                    last.nodes,
                    uid_text(number),
                ));
            }
        },
        _ => {},
    }
}

/// An element that can be pointed at is given an id.
proof fn lemma_seen_counts(e: ElementV, text: Seq<char>, m: MapView)
    requires
        unlabelled(e),
        !is_unseen(e.tag),
        m.given + ids_in(e) <= u64::MAX,
    ensures
        label(e, text, false, m).map.given >= m.given + 1,
        label(e, text, false, m).map.at(uid_text((m.given + 1) as nat)) is Some ==> label(
            e,
            text,
            false,
            m,
        ).range == label(e, text, false, m).map.at(uid_text((m.given + 1) as nat)),
{
    let uid = uid_text(m.next() as nat);
    let number = (m.given + 1) as nat;
    let kind = tag_kind(e.tag, attr_value(e.attrs, "display"@) == Some("block"@));
    let start = m.counted().with_whole(uid, kind, e.place);
    let n = e.children.len();
    lemma_math_follows(e.children, n, text, start);
    lemma_children_follows(e.children, n, text, start);
    if n == 1 && e.children[0] is Text {
        lemma_text_changed(start, number, e.children[0]->Text_0.len(), e.children[0]->Text_1);
    }
    let inside = label_children(e.children, n, text, start);
    if let Some(range) = inside.range {
        lemma_cover_changed(inside.map, number, range);
    }
}

/// What is recorded of a labelled run of text lies in the stretch that the children came from.
proof fn lemma_run_reaches(
    before: Covered,
    run: Seq<char>,
    place: Option<Place>,
    text: Seq<char>,
    last: MapView,
    r: SrcRange,
)
    requires
        here(before.map.main, place) is Some,
        before.map.given < u64::MAX,
        before.map.files.len() > 0 && before.map.files[0] == before.map.main,
        agree(
            label_run(before, run, place, text).map,
            last,
            before.map.given as int,
            before.map.given + 1,
        ),
    ensures
        (label_run(before, run, place, text).range matches Some(x) ==> r.start <= x.start && x.end
            <= r.end) ==> child_within(
            label_run(before, run, place, text).children.last(),
            r,
            last,
        ),
        label_run(before, run, place, text).children.last() matches NodeV::Element(x)
            ==> reaches_around(x, last),
{
    lemma_attr_names();
    let after = label_run(before, run, place, text);
    let range = here(before.map.main, place)->Some_0;
    let found = atom(text, range.0 as int, range.1 as int);
    let number = (before.map.given + 1) as nat;
    let uid = uid_text(number);
    let map = before.map.counted();
    let wrapper = after.children.last()->Element_0;
    lemma_widened(before.range, Some(SrcRange { file: 0, start: range.0, end: range.1 }));
    lemma_find_one(map.files, map.main, 0);
    if found is Some {
        what_is_recorded_is_read(map, uid, NodeKind::Inline, of_document(found), seq![]);
    } else {
        let at = map.located(place);
        what_is_recorded_is_read(
            map.with_place(place),
            uid,
            NodeKind::Text,
            at,
            match at {
                Some(r) => seq![
                    Segment { at: 0, len: run.len() as usize, file: r.file, offset: r.start },
                ],
                None => seq![],
            },
        );
    }
    assert(node_with(after.map.nodes, uid) == node_with(last.nodes, uid));
    assert forall|id: Seq<char>| wrapper.attrs.contains((UID_ATTR@, id)) implies id == uid by {
        let k = wrapper.attrs.index_of((UID_ATTR@, id));
        assert(wrapper.attrs[k] == (UID_ATTR@, id));
    }
    reveal_with_fuel(all_reach_around, 2);
    reveal_with_fuel(reaches_around, 2);
    assert forall|id: Seq<char>|
        wrapper.attrs.contains((UID_ATTR@, id)) && #[trigger] is_region(last, id) implies forall|
        i: int,
    |
        0 <= i < wrapper.children.len() ==> child_within(
            #[trigger] wrapper.children[i],
            last.at(id)->Some_0,
            last,
        ) by {
        assert(id == uid);
    }
}

/// What is recorded of labelled children lies in the stretch they came from, and their regions
/// reach around what is in them.
proof fn lemma_children_reach(
    list: Seq<NodeV>,
    n: nat,
    text: Seq<char>,
    m: MapView,
    last: MapView,
)
    requires
        n <= list.len(),
        all_unlabelled(list, n),
        m.given + ids_among(list, n) <= u64::MAX,
        m.files.len() > 0 && m.files[0] == m.main,
        agree(
            label_children(list, n, text, m).map,
            last,
            m.given as int,
            label_children(list, n, text, m).map.given as int,
        ),
    ensures
        ({
            let inside = label_children(list, n, text, m);
            &&& inside.children.len() == n
            &&& inside.range matches Some(x) ==> x.file == 0
            &&& all_reach_around(inside.children, n, last)
            &&& forall|i: int, r: SrcRange|
                0 <= i < n && (inside.range matches Some(x) ==> r.start <= x.start && x.end
                    <= r.end) ==> #[trigger] child_within(inside.children[i], r, last)
        }),
    decreases list, n, 1nat,
{
    if n > 0 {
        let before = label_children(list, (n - 1) as nat, text, m);
        let after = label_children(list, n, text, m);
        lemma_children_follows(list, (n - 1) as nat, text, m);
        lemma_child_follows(list, n, text, m);
        lemma_children_said(list, (n - 1) as nat, text, m);
        lemma_children_said(list, n, text, m);
        assert(agree(before.map, last, m.given as int, before.map.given as int)) by {
            assert forall|k: nat| m.given < k <= before.map.given implies #[trigger] node_with(
                before.map.nodes,
                uid_text(k),
            ) == node_with(last.nodes, uid_text(k)) by {
                assert(node_with(before.map.nodes, uid_text(k)) == node_with(
                    after.map.nodes,
                    uid_text(k),
                ));
                assert(node_with(after.map.nodes, uid_text(k)) == node_with(
                    last.nodes,
                    uid_text(k),
                ));
            }
        }
        lemma_children_reach(list, (n - 1) as nat, text, m, last);
        let child = after.children[n - 1];
        assert(after.children =~= before.children.push(child));
        lemma_reach_push(before.children, child, (n - 1) as nat, last);
        let any = SrcRange { file: 0, start: 0, end: 0 };
        lemma_child_reaches(list, n, text, m, last, any);
        let added = match list[n - 1] {
            NodeV::Element(e) => label(e, text, false, before.map).range,
            NodeV::Text(run, place) => match here(before.map.main, place) {
                Some(range) => Some(SrcRange { file: 0, start: range.0, end: range.1 }),
                None => None,
            },
            NodeV::Frame(f) => of_document(drawn_at(f.ink, text, before.map.main)),
            _ => None,
        };
        lemma_widened(before.range, added);
        assert(after.range == widened(before.range, added));
        assert forall|i: int, r: SrcRange|
            0 <= i < n && (after.range matches Some(x) ==> r.start <= x.start && x.end
                <= r.end) implies #[trigger] child_within(after.children[i], r, last) by {
            if i < n - 1 {
                assert(child_within(before.children[i], r, last));
            } else {
                lemma_child_reaches(list, n, text, m, last, r);
            }
        }
    }
}

/// An element that came out of the document says where it came from, in bytes from the start of the
/// document, and a run of text in it is labelled so too, or with where the code that made it ends.
pub proof fn an_element_says_where_it_came_from(
    e: ElementV,
    text: Seq<char>,
    in_math: bool,
    m: MapView,
    start: usize,
    end: usize,
)
    ensures
        e.place == Some(Place { file: m.main, start, end }) ==> label(e, text, in_math, m).element.attrs.contains(
            ("data-typst-src"@, decimal(start as nat) + seq![':'] + decimal(end as nat)),
        ),
        atom(text, start as int, end as int) is None ==> run_label(text, start as int, end as int) == (
            "data-typst-text"@,
            decimal(start as nat) + seq![':'] + decimal(end as nat),
        ),
        atom(text, start as int, end as int) matches Some(code) ==> run_label(
            text,
            start as int,
            end as int,
        ) == ("data-typst-atom"@, decimal(code.1 as nat)),
{
    let attrs = label(e, text, in_math, m).element.attrs;
    let own = own_attrs(e, uid_text(m.next() as nat), m.main);
    assert(own.is_prefix_of(attrs));
    if e.place == Some(Place { file: m.main, start, end }) {
        let k = own.len() - 1;
        assert(own[k] == (SRC_ATTR@, span_text(start as nat, end as nat)));
        assert(attrs[k] == own[k]);
    }
}

/// Every attribute that an element had it keeps, and one that can be pointed at is given an id.
pub proof fn an_element_keeps_its_attributes(
    e: ElementV,
    text: Seq<char>,
    in_math: bool,
    m: MapView,
    i: int,
)
    ensures
        0 <= i < e.attrs.len() ==> label(e, text, in_math, m).element.attrs[i] == e.attrs[i],
        e.tag != "html"@ && e.tag != "head"@ && e.tag != "title"@ && e.tag != "script"@ && e.tag
            != "style"@ ==> label(e, text, in_math, m).element.attrs.contains(
            ("data-uid"@, uid_text(m.next() as nat)),
        ),
        label(e, text, in_math, m).element.tag == e.tag,
{
    let attrs = label(e, text, in_math, m).element.attrs;
    let own = own_attrs(e, uid_text(m.next() as nat), m.main);
    assert(own.is_prefix_of(attrs));
    if 0 <= i < e.attrs.len() {
        assert(attrs[i] == own[i]);
    }
    if !is_unseen(e.tag) {
        let k = e.attrs.len() as int;
        assert(own[k] == (UID_ATTR@, uid_text(m.next() as nat)));
        assert(attrs[k] == own[k]);
    }
}

/// What a run of text came from, when it is not prose, is the outermost node that is still inside
/// the markup around it; prose is no code.
pub proof fn code_is_what_markup_holds(list: Seq<(Seq<char>, int, int)>, k: int)
    requires
        list.len() > 0,
        0 <= k < list.len(),
        forall|i: int| 0 < i <= k ==> (#[trigger] list[i]).0 != "Markup"@,
    ensures
        list[0].0 == "Text"@ || list[0].0 == "Space"@ || list[0].0 == "Parbreak"@ || list[0].0
            == "SmartQuote"@ ==> expression_in(list) is None,
        list[0].0 != "Text"@ && list[0].0 != "Space"@ && list[0].0 != "Parbreak"@ && list[0].0
            != "SmartQuote"@ && k + 1 < list.len() && list[k + 1].0 == "Markup"@ ==> expression_in(list)
            == Some((list[k].1, list[k].2)),
        k + 1 == list.len() ==> expression_in(list) is None,
{
    lemma_in_markup(list, k);
}

/// The last node before markup is found.
proof fn lemma_in_markup(list: Seq<(Seq<char>, int, int)>, k: int)
    requires
        0 <= k < list.len(),
        forall|i: int| 0 < i <= k ==> (#[trigger] list[i]).0 != "Markup"@,
    ensures
        k + 1 < list.len() && list[k + 1].0 == "Markup"@ ==> in_markup(list) == Some(
            (list[k].1, list[k].2),
        ),
        k + 1 == list.len() ==> in_markup(list) is None,
    decreases list.len(),
{
    if k > 0 {
        assert(list[1].0 != "Markup"@);
        let rest = list.skip(1);
        assert forall|i: int| 0 < i <= k - 1 implies (#[trigger] rest[i]).0 != "Markup"@ by {
            assert(rest[i] == list[i + 1]);
        }
        lemma_in_markup(rest, k - 1);
    }
}

} // verus!

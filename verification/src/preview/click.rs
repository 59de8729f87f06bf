//! What a click on a rendered page means in the source.

use std::ops::Range;

use vstd::prelude::*;
use vstd::string::*;
use vstd::utf8::*;

use crate::bytes::{boundary, lemma_boundary_inside, lemma_encoded};
use crate::preview::layout::{apart, distance, Area};
use crate::preview::words::{find_word_stop, word_stop};
use crate::ranges::{word_range, word_start};
use crate::syntax::{node, nodes};
use crate::text::same;

verus! {

/// A place on a page.
#[derive(Debug, Clone, Copy, PartialEq, Eq, Structural)]
pub struct Point {
    /// How far from the left.
    pub x: i64,
    /// How far from the top.
    pub y: i64,
}

/// One thing a click may land on. What it came from in the source is told by a
/// mark, where it came from any.
#[derive(Debug)]
pub enum Target {
    /// Several things together, and the box around them.
    Group(Area, Vec<Target>),
    /// A run of text: where it stands, and the mark of each of its glyphs.
    Run(Point, Vec<Option<usize>>),
    /// A shape or a picture: its box, where it has one, and its mark.
    Solid(Option<Area>, Option<usize>),
}

// ------------------------------------------------------------------ the first mark

/// The first mark in a target.
pub open spec fn mark_of(t: Target) -> Option<usize>
    decreases t, 0nat,
{
    match t {
        Target::Group(_, inner) => first_mark(inner@, inner@.len()),
        Target::Run(_, marks) => if marks@.len() > 0 {
            marks@[0]
        } else {
            None
        },
        Target::Solid(_, mark) => mark,
    }
}

/// The first mark in the first of some targets.
pub open spec fn first_mark(list: Seq<Target>, n: nat) -> Option<usize>
    decreases list, n,
{
    if n == 0 || n > list.len() {
        None
    } else {
        match first_mark(list, (n - 1) as nat) {
            Some(m) => Some(m),
            None => mark_of(list[n - 1]),
        }
    }
}

/// The first mark in a target.
fn find_mark(t: &Target) -> (r: Option<usize>)
    ensures
        r == mark_of(*t),
    decreases *t, 0nat,
{
    match t {
        Target::Group(_, inner) => find_first_mark(inner),
        Target::Run(_, marks) => if marks.len() > 0 {
            marks[0]
        } else {
            None
        },
        Target::Solid(_, mark) => *mark,
    }
}

/// The first mark in some targets.
pub fn find_first_mark(list: &Vec<Target>) -> (r: Option<usize>)
    ensures
        r == first_mark(list@, list@.len()),
    decreases list@, 1nat,
{
    let mut found: Option<usize> = None;
    let mut i: usize = 0;
    while i < list.len()
        invariant
            i <= list@.len(),
            found == first_mark(list@, i as nat),
        decreases list@.len() - i,
    {
        assert(decreases_to!(list@ => list@[i as int]));
        if found.is_none() {
            found = find_mark(&list[i]);
        }
        i = i + 1;
    }
    found
}

// ------------------------------------------------------------- what lies under it

/// Whether a place is inside a box.
pub open spec fn inside(area: Area, p: Point) -> bool {
    area.x0 <= p.x <= area.x1 && area.y0 <= p.y <= area.y1
}

/// How large a box is.
pub open spec fn size_of(area: Area) -> int {
    apart(area.x0, area.x1) * apart(area.y0, area.y1)
}

/// How large a box is.
fn area_size(area: Area) -> (r: u128)
    ensures
        r == size_of(area),
{
    let w: u128 = distance(area.x0, area.x1) as u128;
    let h: u128 = distance(area.y0, area.y1) as u128;
    assert(w * h <= 0xffff_ffff_ffff_ffff * 0xffff_ffff_ffff_ffff) by (nonlinear_arith)
        requires
            w <= 0xffff_ffff_ffff_ffff,
            h <= 0xffff_ffff_ffff_ffff,
    ;
    w * h
}

/// The smaller of what is found so far and a box under a place that has a mark.
pub open spec fn smaller(
    best: Option<(int, usize)>,
    area: Area,
    mark: Option<usize>,
    p: Point,
) -> Option<(int, usize)> {
    match mark {
        Some(m) if inside(area, p) && (best matches Some(b) ==> size_of(area) < b.0) => Some(
            (size_of(area), m),
        ),
        _ => best,
    }
}

/// The smallest thing under a place that has a mark, with what is found so far. A
/// group is one itself: what is in it stands in where nothing is smaller.
pub open spec fn under(t: Target, p: Point, best: Option<(int, usize)>) -> Option<(int, usize)>
    decreases t, 0nat,
{
    match t {
        Target::Group(area, inner) => smaller(
            under_all(inner@, inner@.len(), p, best),
            area,
            first_mark(inner@, inner@.len()),
            p,
        ),
        Target::Run(_, _) => best,
        Target::Solid(area, mark) => match area {
            Some(area) => smaller(best, area, mark, p),
            None => best,
        },
    }
}

/// The smallest thing under a place that has a mark, among the first of some.
pub open spec fn under_all(list: Seq<Target>, n: nat, p: Point, best: Option<(int, usize)>) -> Option<
    (int, usize),
>
    decreases list, n,
{
    if n == 0 || n > list.len() {
        best
    } else {
        under(list[n - 1], p, under_all(list, (n - 1) as nat, p, best))
    }
}

/// A size and a mark.
pub open spec fn sized(best: Option<(u128, usize)>) -> Option<(int, usize)> {
    match best {
        Some(b) => Some((b.0 as int, b.1)),
        None => None,
    }
}

/// The smaller of what is found so far and a box under a place that has a mark.
fn pick_smaller(best: Option<(u128, usize)>, area: Area, mark: Option<usize>, p: Point) -> (r: Option<
    (u128, usize),
>)
    ensures
        sized(r) == smaller(sized(best), area, mark, p),
{
    match mark {
        Some(m) => {
            let within: bool = area.x0 <= p.x && p.x <= area.x1 && area.y0 <= p.y && p.y <= area.y1;
            let size: u128 = area_size(area);
            let less: bool = match best {
                Some(b) => size < b.0,
                None => true,
            };
            if within && less {
                Some((size, m))
            } else {
                best
            }
        },
        None => best,
    }
}

/// The smallest thing under a place that has a mark.
fn find_under(t: &Target, p: Point, best: Option<(u128, usize)>) -> (r: Option<(u128, usize)>)
    ensures
        sized(r) == under(*t, p, sized(best)),
    decreases *t, 0nat,
{
    match t {
        Target::Group(area, inner) => {
            let held: Option<(u128, usize)> = find_under_all(inner, p, best);
            pick_smaller(held, *area, find_first_mark(inner), p)
        },
        Target::Run(_, _) => best,
        Target::Solid(area, mark) => match area {
            Some(area) => pick_smaller(best, *area, *mark, p),
            None => best,
        },
    }
}

/// The smallest thing under a place that has a mark.
fn find_under_all(list: &Vec<Target>, p: Point, best: Option<(u128, usize)>) -> (r: Option<
    (u128, usize),
>)
    ensures
        sized(r) == under_all(list@, list@.len(), p, sized(best)),
    decreases list@, 1nat,
{
    let mut found: Option<(u128, usize)> = best;
    let mut i: usize = 0;
    while i < list.len()
        invariant
            i <= list@.len(),
            sized(found) == under_all(list@, i as nat, p, sized(best)),
        decreases list@.len() - i,
    {
        assert(decreases_to!(list@ => list@[i as int]));
        found = find_under(&list[i], p, found);
        i = i + 1;
    }
    found
}

// ---------------------------------------------------------------- what is nearest

/// How far two places are apart, squared, as far as can be told.
pub open spec fn away(a: Point, b: Point) -> int {
    let d = apart(a.x, b.x) * apart(a.x, b.x) + apart(a.y, b.y) * apart(a.y, b.y);
    if d <= u128::MAX {
        d
    } else {
        u128::MAX as int
    }
}

/// How far two places are apart, squared, as far as can be told.
fn far(a: Point, b: Point) -> (r: u128)
    ensures
        r == away(a, b),
{
    let dx: u128 = distance(a.x, b.x) as u128;
    let dy: u128 = distance(a.y, b.y) as u128;
    assert(dx * dx <= 0xffff_ffff_ffff_ffff * 0xffff_ffff_ffff_ffff) by (nonlinear_arith)
        requires
            dx <= 0xffff_ffff_ffff_ffff,
    ;
    assert(dy * dy <= 0xffff_ffff_ffff_ffff * 0xffff_ffff_ffff_ffff) by (nonlinear_arith)
        requires
            dy <= 0xffff_ffff_ffff_ffff,
    ;
    let xx: u128 = dx * dx;
    let yy: u128 = dy * dy;
    if xx <= u128::MAX - yy {
        xx + yy
    } else {
        u128::MAX
    }
}

/// The nearer of what is found so far and the first of a run's glyphs that has a
/// mark.
pub open spec fn nearer(best: Option<(int, usize)>, at: Point, marks: Seq<Option<usize>>, n: nat, p: Point) -> Option<
    (int, usize),
>
    decreases n,
{
    if n == 0 || n > marks.len() {
        best
    } else {
        let before = nearer(best, at, marks, (n - 1) as nat, p);
        match marks[n - 1] {
            Some(m) if (before matches Some(b) ==> away(at, p) < b.0) => Some((away(at, p), m)),
            _ => before,
        }
    }
}

/// The text nearest to a place, with what is found so far.
pub open spec fn nearest(t: Target, p: Point, best: Option<(int, usize)>) -> Option<(int, usize)>
    decreases t, 0nat,
{
    match t {
        Target::Group(_, inner) => nearest_all(inner@, inner@.len(), p, best),
        Target::Run(at, marks) => nearer(best, at, marks@, marks@.len(), p),
        Target::Solid(_, _) => best,
    }
}

/// The text nearest to a place, among the first of some targets.
pub open spec fn nearest_all(list: Seq<Target>, n: nat, p: Point, best: Option<(int, usize)>) -> Option<
    (int, usize),
>
    decreases list, n,
{
    if n == 0 || n > list.len() {
        best
    } else {
        nearest(list[n - 1], p, nearest_all(list, (n - 1) as nat, p, best))
    }
}

/// The text nearest to a place.
fn find_nearest(t: &Target, p: Point, best: Option<(u128, usize)>) -> (r: Option<(u128, usize)>)
    ensures
        sized(r) == nearest(*t, p, sized(best)),
    decreases *t, 0nat,
{
    match t {
        Target::Group(_, inner) => find_nearest_all(inner, p, best),
        Target::Run(at, marks) => {
            let d: u128 = far(*at, p);
            let mut found: Option<(u128, usize)> = best;
            let mut i: usize = 0;
            while i < marks.len()
                invariant
                    i <= marks@.len(),
                    d == away(*at, p),
                    sized(found) == nearer(sized(best), *at, marks@, i as nat, p),
                decreases marks@.len() - i,
            {
                if let Some(m) = marks[i] {
                    let less: bool = match found {
                        Some(b) => d < b.0,
                        None => true,
                    };
                    if less {
                        found = Some((d, m));
                    }
                }
                i = i + 1;
            }
            found
        },
        Target::Solid(_, _) => best,
    }
}

/// The text nearest to a place.
fn find_nearest_all(list: &Vec<Target>, p: Point, best: Option<(u128, usize)>) -> (r: Option<
    (u128, usize),
>)
    ensures
        sized(r) == nearest_all(list@, list@.len(), p, sized(best)),
    decreases list@, 1nat,
{
    let mut found: Option<(u128, usize)> = best;
    let mut i: usize = 0;
    while i < list.len()
        invariant
            i <= list@.len(),
            sized(found) == nearest_all(list@, i as nat, p, sized(best)),
        decreases list@.len() - i,
    {
        assert(decreases_to!(list@ => list@[i as int]));
        found = find_nearest(&list[i], p, found);
        i = i + 1;
    }
    found
}

// ---------------------------------------------------------------- what is clicked

/// What a click landed on.
#[derive(Debug, Clone, Copy, PartialEq, Eq, Structural)]
pub struct Landed {
    /// The mark of what it came from.
    pub mark: usize,
    /// How far into it the click was.
    pub offset: usize,
    /// Whether it was text itself, rather than what is around or near.
    pub direct: bool,
}

/// How near text has to be to stand in for what has no mark of its own, in
/// points.
pub const NEAR: u32 = 120;

/// What a click landed on: text, or else the smallest thing under it, or else the
/// text nearby: the caption of a figure, or a label in a drawing.
pub open spec fn landed(
    text: Option<(usize, usize)>,
    list: Seq<Target>,
    p: Point,
    unit: u32,
) -> Option<Landed> {
    match text {
        Some((mark, offset)) => Some(Landed { mark, offset, direct: true }),
        None => match under_all(list, list.len(), p, None) {
            Some((_, mark)) => Some(Landed { mark, offset: 0, direct: false }),
            None => match nearest_all(list, list.len(), p, None) {
                Some((d, mark)) if d < (NEAR * unit) * (NEAR * unit) => Some(
                    Landed { mark, offset: 0, direct: false },
                ),
                _ => None,
            },
        },
    }
}

/// What a click landed on. `text` is the text right under it, where there is any:
/// its mark, and how far into it the click was.
pub fn land(text: Option<(usize, usize)>, list: &Vec<Target>, p: Point, unit: u32) -> (r: Result<
    Landed,
    String,
>)
    ensures
        match landed(text, list@, p, unit) {
            Some(l) => r is Ok && r->Ok_0 == l,
            None => r is Err && r->Err_0@ == "nothing annotatable under the click"@,
        },
{
    if let Some((mark, offset)) = text {
        return Ok(Landed { mark, offset, direct: true });
    }
    if let Some((_, mark)) = find_under_all(list, p, None) {
        return Ok(Landed { mark, offset: 0, direct: false });
    }
    if let Some((d, mark)) = find_nearest_all(list, p, None) {
        let reach: u128 = 120 * (unit as u128);
        assert(reach * reach <= 0xff_ffff_ffff * 0xff_ffff_ffff) by (nonlinear_arith)
            requires
                reach <= 0xff_ffff_ffff,
        ;
        if d < reach * reach {
            return Ok(Landed { mark, offset: 0, direct: false });
        }
    }
    Err("nothing annotatable under the click".to_string())
}

/// Which of some pages a number names, counted from one.
pub fn page_index(pages: usize, page_no: usize) -> (r: Result<usize, String>)
    ensures
        if page_no == 0 {
            r is Err && r->Err_0@ == "bad page"@
        } else if page_no > pages {
            r is Err && r->Err_0@ == "no such page"@
        } else {
            r is Ok && r->Ok_0 == page_no - 1
        },
{
    if page_no == 0 {
        Err("bad page".to_string())
    } else if page_no > pages {
        Err("no such page".to_string())
    } else {
        Ok(page_no - 1)
    }
}

// ------------------------------------------------------------ where an anchor goes

/// Which of the nodes around a place, innermost first, is the outermost that is no
/// markup, from one on.
pub open spec fn climbed(list: Seq<(Seq<char>, int, int)>, from: int) -> int
    decreases list.len() - from,
{
    if 0 <= from && from + 1 < list.len() && list[from + 1].0 != "Markup"@ {
        climbed(list, from + 1)
    } else {
        from
    }
}

/// Which of some nodes, innermost first, is the outermost that is no markup.
pub fn climb(list: &Vec<(String, usize, usize)>) -> (r: usize)
    requires
        list@.len() > 0,
    ensures
        r == climbed(nodes(list@), 0),
        r < list@.len(),
{
    let ghost all = nodes(list@);
    let n: usize = list.len();
    let mut at: usize = 0;
    while at < n - 1 && !same(list[at + 1].0.as_str(), "Markup")
        invariant
            at < n,
            n == list@.len(),
            all == nodes(list@),
            climbed(all, 0) == climbed(all, at as int),
        decreases n - at,
    {
        assert(all[at + 1] == node(list@[at + 1]));
        at = at + 1;
    }
    proof {
        if at < n - 1 {
            assert(all[at + 1] == node(list@[at + 1]));
        }
    }
    at
}

/// Where the anchor of a click goes, and the block it is for, where it is not for
/// a word: behind the word that was clicked, or behind the whole expression that
/// made what was, which is itself in markup.
pub open spec fn anchor_goes(
    text: Seq<char>,
    list: Seq<(Seq<char>, int, int)>,
    direct: bool,
    offset: int,
) -> Result<(int, Option<(int, int)>), Seq<char>> {
    if list.len() > 0 && direct && list[0].0 == "Text"@ {
        let from = if list[0].1 + offset <= list[0].2 {
            list[0].1 + offset
        } else {
            list[0].2
        };
        Ok((word_stop(text, from, list[0].2), None))
    } else {
        let at = climbed(list, 0);
        if at + 1 >= list.len() {
            Err("annotations can only anchor in markup"@)
        } else {
            Ok((list[at].2, Some((list[at].1, list[at].2))))
        }
    }
}

/// A place and a block.
pub open spec fn goes_view(r: Result<(usize, Option<Range<usize>>), String>) -> Result<
    (int, Option<(int, int)>),
    Seq<char>,
> {
    match r {
        Ok((at, block)) => Ok(
            (
                at as int,
                match block {
                    Some(range) => Some((range.start as int, range.end as int)),
                    None => None,
                },
            ),
        ),
        Err(e) => Err(e@),
    }
}

/// Where the anchor of a click goes. `list` are the nodes of the syntax around what
/// was clicked, innermost first.
pub fn anchor_place(
    text: &str,
    list: &Vec<(String, usize, usize)>,
    direct: bool,
    offset: usize,
) -> (r: Result<(usize, Option<Range<usize>>), String>)
    requires
        list@.len() > 0 && list@[0].1 <= list@[0].2 && (list@[0].1 + offset < list@[0].2
            ==> boundary(text@, list@[0].1 + offset)) && boundary(text@, list@[0].2 as int),
    ensures
        goes_view(r) == anchor_goes(text@, nodes(list@), direct, offset as int),
{
    let ghost all = nodes(list@);
    assert(all[0] == node(list@[0]));
    if direct && same(list[0].0.as_str(), "Text") {
        let end: usize = list[0].2;
        let from: usize = if offset <= end - list[0].1 {
            list[0].1 + offset
        } else {
            end
        };
        return Ok((find_word_stop(text, from, end), None));
    }
    let n: usize = list.len();
    let at: usize = climb(list);
    assert(all[at as int] == node(list@[at as int]));
    if at + 1 >= n {
        Err("annotations can only anchor in markup".to_string())
    } else {
        Ok((list[at].2, Some(list[at].1..list[at].2)))
    }
}

/// The stretch of source a drag between two clicks covers: from the start of the
/// first word to the end of the last.
pub open spec fn dragged(text: Seq<char>, a: int, b: int) -> (int, int) {
    let lo = if a <= b {
        a
    } else {
        b
    };
    let hi = if a <= b {
        b
    } else {
        a
    };
    (word_start(encode_utf8(text), lo), hi)
}

/// The stretch of source a drag between two clicks covers. The two have to be in
/// one file.
pub fn span_range(text: &str, one_file: bool, a: usize, b: usize) -> (r: Result<
    Range<usize>,
    String,
>)
    requires
        one_file ==> boundary(text@, a as int) && boundary(text@, b as int),
    ensures
        if one_file {
            r is Ok && (r->Ok_0.start as int, r->Ok_0.end as int) == dragged(
                text@,
                a as int,
                b as int,
            ) && r->Ok_0.start <= r->Ok_0.end && boundary(text@, r->Ok_0.start as int) && boundary(
                text@,
                r->Ok_0.end as int,
            )
        } else {
            r is Err && r->Err_0@ == "a span cannot cross files"@
        },
{
    if !one_file {
        return Err("a span cannot cross files".to_string());
    }
    proof {
        lemma_encoded(text@);
        lemma_boundary_inside(encode_utf8(text@), a as int);
        lemma_boundary_inside(encode_utf8(text@), b as int);
    }
    let (lo, hi): (usize, usize) = if a <= b {
        (a, b)
    } else {
        (b, a)
    };
    let word: Range<usize> = word_range(text, lo);
    Ok(word.start..hi)
}

/// A drag means the same whichever end it began at.
pub proof fn a_drag_has_no_direction(text: Seq<char>, a: int, b: int)
    ensures
        dragged(text, a, b) == dragged(text, b, a),
{
}

// ------------------------------------------------------------ what a click comes to

/// Whether something with a mark and a box of a size is under a place, among things or inside
/// them.
pub open spec fn lies_under(t: Target, p: Point, size: int, mark: usize) -> bool
    decreases t, 0nat,
{
    match t {
        Target::Group(area, inner) => {
            ||| first_mark(inner@, inner@.len()) == Some(mark) && is_box_of(area, p, size)
            ||| any_under(inner@, inner@.len(), p, size, mark)
        },
        Target::Run(_, _) => false,
        Target::Solid(area, own) => own == Some(mark) && (area matches Some(area) && is_box_of(
            area,
            p,
            size,
        )),
    }
}

/// Whether something with a mark and a box of a size is under a place, among the first of some
/// things.
pub open spec fn any_under(list: Seq<Target>, n: nat, p: Point, size: int, mark: usize) -> bool
    decreases list, n,
{
    0 < n <= list.len() && (any_under(list, (n - 1) as nat, p, size, mark) || lies_under(
        list[n - 1],
        p,
        size,
        mark,
    ))
}

/// Whether a box has a size and reaches over a place.
pub open spec fn is_box_of(area: Area, p: Point, size: int) -> bool {
    let width = if area.x0 <= area.x1 {
        area.x1 - area.x0
    } else {
        area.x0 - area.x1
    };
    let height = if area.y0 <= area.y1 {
        area.y1 - area.y0
    } else {
        area.y0 - area.y1
    };
    area.x0 <= p.x <= area.x1 && area.y0 <= p.y <= area.y1 && size == width * height
}

/// A click that hits no text lands on the smallest thing under it: on something that is under
/// it, such that nothing under it is smaller, and it lands on one whenever there is one.
pub proof fn the_smallest_thing_under_a_click_is_hit(list: Seq<Target>, p: Point)
    ensures
        under_all(list, list.len(), p, None) matches Some(b) ==> any_under(
            list,
            list.len(),
            p,
            b.0,
            b.1,
        ),
        forall|size: int, mark: usize| #[trigger]
            any_under(list, list.len(), p, size, mark) ==> (under_all(list, list.len(), p, None)
                matches Some(b) && b.0 <= size),
{
    lemma_under_all(list, list.len(), p, None);
}

/// What is found under a place in one thing is there or was found before, and is the smallest.
proof fn lemma_under(t: Target, p: Point, best: Option<(int, usize)>)
    ensures
        under(t, p, best) matches Some(b) ==> lies_under(t, p, b.0, b.1) || best == Some(b),
        best matches Some(a) ==> (under(t, p, best) matches Some(b) && b.0 <= a.0),
        forall|size: int, mark: usize| #[trigger]
            lies_under(t, p, size, mark) ==> (under(t, p, best) matches Some(b) && b.0 <= size),
    decreases t, 0nat,
{
    if let Target::Group(area, inner) = t {
        lemma_under_all(inner@, inner@.len(), p, best);
        assert forall|size: int, mark: usize| #[trigger] lies_under(t, p, size, mark) implies (under(
            t,
            p,
            best,
        ) matches Some(b) && b.0 <= size) by {
            if !any_under(inner@, inner@.len(), p, size, mark) {
                assert(size_of(area) == size);
            }
        }
    }
}

/// What is found under a place in some things is there or was found before, and is the smallest.
proof fn lemma_under_all(list: Seq<Target>, n: nat, p: Point, best: Option<(int, usize)>)
    requires
        n <= list.len(),
    ensures
        under_all(list, n, p, best) matches Some(b) ==> any_under(list, n, p, b.0, b.1) || best
            == Some(b),
        best matches Some(a) ==> (under_all(list, n, p, best) matches Some(b) && b.0 <= a.0),
        forall|size: int, mark: usize| #[trigger]
            any_under(list, n, p, size, mark) ==> (under_all(list, n, p, best) matches Some(b) && b.0
                <= size),
    decreases list, n,
{
    if n > 0 {
        lemma_under_all(list, (n - 1) as nat, p, best);
        lemma_under(list[n - 1], p, under_all(list, (n - 1) as nat, p, best));
        assert forall|size: int, mark: usize| #[trigger]
            any_under(list, n, p, size, mark) implies (under_all(list, n, p, best) matches Some(b) && b.0
            <= size) by {
            if !lies_under(list[n - 1], p, size, mark) {
                assert(any_under(list, (n - 1) as nat, p, size, mark));
            }
        }
    }
}

/// Whether a run of text with a mark in it stands at a place, among things or inside them.
pub open spec fn is_written(t: Target, at: Point, mark: usize) -> bool
    decreases t, 0nat,
{
    match t {
        Target::Group(_, inner) => any_written(inner@, inner@.len(), at, mark),
        Target::Run(own, marks) => own == at && marks@.contains(Some(mark)),
        Target::Solid(_, _) => false,
    }
}

/// Whether a run of text with a mark in it stands at a place, among the first of some things.
pub open spec fn any_written(list: Seq<Target>, n: nat, at: Point, mark: usize) -> bool
    decreases list, n,
{
    0 < n <= list.len() && (any_written(list, (n - 1) as nat, at, mark) || is_written(
        list[n - 1],
        at,
        mark,
    ))
}

/// Where nothing else is hit the nearest text is meant: there is none nearer, and there is one
/// whenever any text has a mark.
pub proof fn the_nearest_text_is_meant(list: Seq<Target>, p: Point)
    ensures
        nearest_all(list, list.len(), p, None) matches Some(b) ==> exists|at: Point| #[trigger]
            any_written(list, list.len(), at, b.1) && b.0 == away(at, p),
        forall|at: Point, mark: usize| #[trigger]
            any_written(list, list.len(), at, mark) ==> (nearest_all(list, list.len(), p, None)
                matches Some(b) && b.0 <= away(at, p)),
{
    lemma_nearest_all(list, list.len(), p, None);
}

/// What is near in a run of text is a mark of it or was found before, and nothing is nearer.
proof fn lemma_nearer(
    best: Option<(int, usize)>,
    at: Point,
    marks: Seq<Option<usize>>,
    n: nat,
    p: Point,
)
    requires
        n <= marks.len(),
    ensures
        nearer(best, at, marks, n, p) matches Some(b) ==> (b.0 == away(at, p) && marks.contains(
            Some(b.1),
        )) || best == Some(b),
        best matches Some(a) ==> (nearer(best, at, marks, n, p) matches Some(b) && b.0 <= a.0),
        forall|i: int|
            0 <= i < n && (#[trigger] marks[i]) is Some ==> (nearer(best, at, marks, n, p) matches Some(
                b,
            ) && b.0 <= away(at, p)),
    decreases n,
{
    if n > 0 {
        lemma_nearer(best, at, marks, (n - 1) as nat, p);
        assert(marks.contains(marks[n - 1]));
    }
}

/// What is near in one thing is written there or was found before, and nothing is nearer.
proof fn lemma_nearest(t: Target, p: Point, best: Option<(int, usize)>)
    ensures
        nearest(t, p, best) matches Some(b) ==> best == Some(b) || exists|at: Point| #[trigger]
            is_written(t, at, b.1) && b.0 == away(at, p),
        best matches Some(a) ==> (nearest(t, p, best) matches Some(b) && b.0 <= a.0),
        forall|at: Point, mark: usize| #[trigger]
            is_written(t, at, mark) ==> (nearest(t, p, best) matches Some(b) && b.0 <= away(at, p)),
    decreases t, 0nat,
{
    match t {
        Target::Group(_, inner) => {
            lemma_nearest_all(inner@, inner@.len(), p, best);
            if let Some(b) = nearest(t, p, best) {
                if best != Some(b) {
                    let at = choose|at: Point| #[trigger]
                        any_written(inner@, inner@.len(), at, b.1) && b.0 == away(at, p);
                    assert(is_written(t, at, b.1));
                }
            }
            assert forall|at: Point, mark: usize| #[trigger] is_written(t, at, mark) implies (nearest(
                t,
                p,
                best,
            ) matches Some(b) && b.0 <= away(at, p)) by {
                assert(any_written(inner@, inner@.len(), at, mark));
            }
        },
        Target::Run(own, marks) => {
            lemma_nearer(best, own, marks@, marks@.len(), p);
            if let Some(b) = nearest(t, p, best) {
                if best != Some(b) {
                    assert(is_written(t, own, b.1));
                }
            }
            assert forall|at: Point, mark: usize| #[trigger] is_written(t, at, mark) implies (nearest(
                t,
                p,
                best,
            ) matches Some(b) && b.0 <= away(at, p)) by {
                let i = marks@.index_of(Some(mark));
                assert(marks@[i] is Some);
            }
        },
        Target::Solid(_, _) => {},
    }
}

/// What is near in some things is written there or was found before, and nothing is nearer.
proof fn lemma_nearest_all(list: Seq<Target>, n: nat, p: Point, best: Option<(int, usize)>)
    requires
        n <= list.len(),
    ensures
        nearest_all(list, n, p, best) matches Some(b) ==> best == Some(b) || exists|at: Point| #[trigger]
            any_written(list, n, at, b.1) && b.0 == away(at, p),
        best matches Some(a) ==> (nearest_all(list, n, p, best) matches Some(b) && b.0 <= a.0),
        forall|at: Point, mark: usize| #[trigger]
            any_written(list, n, at, mark) ==> (nearest_all(list, n, p, best) matches Some(b) && b.0
                <= away(at, p)),
    decreases list, n,
{
    if n > 0 {
        let before = nearest_all(list, (n - 1) as nat, p, best);
        lemma_nearest_all(list, (n - 1) as nat, p, best);
        lemma_nearest(list[n - 1], p, before);
        assert forall|at: Point, mark: usize| #[trigger] any_written(list, n, at, mark) implies (
        nearest_all(list, n, p, best) matches Some(b) && b.0 <= away(at, p)) by {
            if !is_written(list[n - 1], at, mark) {
                assert(any_written(list, (n - 1) as nat, at, mark));
            }
        }
        if let Some(b) = nearest_all(list, n, p, best) {
            if best != Some(b) {
                if before == Some(b) {
                    let at = choose|at: Point| #[trigger]
                        any_written(list, (n - 1) as nat, at, b.1) && b.0 == away(at, p);
                    assert(any_written(list, n, at, b.1));
                } else {
                    let at = choose|at: Point| #[trigger]
                        is_written(list[n - 1], at, b.1) && b.0 == away(at, p);
                    assert(any_written(list, n, at, b.1));
                }
            }
        }
    }
}

/// A click on text lands in it, directly; any other lands on what is under it; and where nothing
/// is, on the nearest text, when that is nearer than a hundred and twenty units.
pub proof fn a_click_lands_on_text_first(
    text: Option<(usize, usize)>,
    list: Seq<Target>,
    p: Point,
    unit: u32,
)
    requires
        unit <= 1_000_000,
    ensures
        text matches Some(hit) ==> landed(text, list, p, unit) == Some(
            Landed { mark: hit.0, offset: hit.1, direct: true },
        ),
        text is None ==> (landed(text, list, p, unit) matches Some(l) ==> !l.direct && l.offset == 0),
        text is None && under_all(list, list.len(), p, None) is Some ==> (landed(text, list, p, unit)
            matches Some(l) && l.mark == (under_all(list, list.len(), p, None)->Some_0).1),
        text is None && under_all(list, list.len(), p, None) is None ==> (landed(text, list, p, unit)
            is Some <==> (nearest_all(list, list.len(), p, None) matches Some(b) && b.0 < 14400 * (
        unit * unit))),
{
    assert((120 * unit) * (120 * unit) == 14400 * (unit * unit)) by (nonlinear_arith);
}

/// From the node that was clicked the way goes out to the last one that is still inside the
/// markup around it.
pub proof fn the_way_out_stops_at_markup(list: Seq<(Seq<char>, int, int)>)
    requires
        list.len() > 0,
    ensures
        ({
            let at = climbed(list, 0);
            &&& 0 <= at < list.len()
            &&& forall|i: int| 0 < i <= at ==> (#[trigger] list[i]).0 != "Markup"@
            &&& at + 1 == list.len() || list[at + 1].0 == "Markup"@
        }),
{
    lemma_climbed(list, 0);
}

/// From any node on the way goes out to the last one before markup.
proof fn lemma_climbed(list: Seq<(Seq<char>, int, int)>, from: int)
    requires
        0 <= from < list.len(),
    ensures
        ({
            let at = climbed(list, from);
            &&& from <= at < list.len()
            &&& forall|i: int| from < i <= at ==> (#[trigger] list[i]).0 != "Markup"@
            &&& at + 1 == list.len() || list[at + 1].0 == "Markup"@
        }),
    decreases list.len() - from,
{
    if from + 1 < list.len() && list[from + 1].0 != "Markup"@ {
        lemma_climbed(list, from + 1);
    }
}

/// What is clicked that is not text is marked after its end, as a whole; and what no markup
/// is around cannot be marked.
pub proof fn other_things_are_marked_whole(
    text: Seq<char>,
    list: Seq<(Seq<char>, int, int)>,
    direct: bool,
    offset: int,
    n: int,
)
    requires
        0 <= n < list.len(),
        !direct || list[0].0 != "Text"@,
        forall|i: int| 0 < i <= n ==> (#[trigger] list[i]).0 != "Markup"@,
        n + 1 == list.len() || list[n + 1].0 == "Markup"@,
    ensures
        n + 1 < list.len() ==> anchor_goes(text, list, direct, offset) == Ok::<_, Seq<char>>(
            (list[n].2, Some((list[n].1, list[n].2))),
        ),
        n + 1 == list.len() ==> anchor_goes(text, list, direct, offset) is Err,
{
    lemma_climbed(list, 0);
    let at = climbed(list, 0);
    if at < n {
        assert(list[at + 1].0 != "Markup"@);
    }
    if at > n {
        assert(list[n + 1].0 != "Markup"@);
    }
}

} // verus!

//! A rendered page as boxes, and which of them came from a stretch of source.
//!
//! A place on a page is a whole number of a small unit, from the page's top left
//! corner; how many of them make a point is said where it matters.

use vstd::prelude::*;

verus! {

/// A box on a page.
#[derive(Debug, Clone, Copy, PartialEq, Eq, Structural)]
pub struct Area {
    /// The left edge.
    pub x0: i64,
    /// The top edge.
    pub y0: i64,
    /// The right edge.
    pub x1: i64,
    /// The bottom edge.
    pub y1: i64,
}

/// One glyph of a run of text.
#[derive(Debug, Clone, Copy, PartialEq, Eq, Structural)]
pub struct Glyph {
    /// Its box.
    pub area: Area,
    /// Where in the source it begins, if it came from the file that is looked at.
    pub at: Option<usize>,
    /// How many bytes it stands for.
    pub len: usize,
    /// Where the piece of source it came from begins.
    pub from: usize,
    /// Where the piece of source it came from ends.
    pub stop: usize,
}

/// A run of text.
#[derive(Debug)]
pub struct Run {
    /// Where it begins.
    pub x0: i64,
    /// Where it ends.
    pub x1: i64,
    /// The line it stands on.
    pub baseline: i64,
    /// Its glyphs.
    pub glyphs: Vec<Glyph>,
}

/// One thing on a page.
#[derive(Debug)]
pub enum Piece {
    /// Several things together, and the box around them.
    Group(Area, Vec<Piece>),
    /// A run of text.
    Run(Run),
    /// A shape or a picture, and where in the source it came from.
    Solid(Area, Option<(usize, usize)>),
}

/// The boxes of a stretch of source are looked for.
#[derive(Debug, Clone, Copy, PartialEq, Eq, Structural)]
pub struct Sought {
    /// Where the stretch begins.
    pub start: usize,
    /// Where it ends.
    pub end: usize,
    /// Whether a hit counts for the whole of the outermost group it is in: the
    /// rest of a figure or a diagram came from nowhere of its own.
    pub whole: bool,
    /// How many units make a point.
    pub unit: u32,
}

// -------------------------------------------------------------------- the rows

/// The smaller of two numbers.
pub open spec fn least(a: i64, b: i64) -> i64 {
    if a <= b {
        a
    } else {
        b
    }
}

/// The larger of two numbers.
pub open spec fn most(a: i64, b: i64) -> i64 {
    if a <= b {
        b
    } else {
        a
    }
}

/// The box around two boxes.
pub open spec fn hull(a: Area, b: Area) -> Area {
    Area { x0: least(a.x0, b.x0), y0: least(a.y0, b.y0), x1: most(a.x1, b.x1), y1: most(a.y1, b.y1) }
}

/// The smaller of two numbers.
pub fn min_of(a: i64, b: i64) -> (r: i64)
    ensures
        r == least(a, b),
{
    if a <= b {
        a
    } else {
        b
    }
}

/// The larger of two numbers.
pub fn max_of(a: i64, b: i64) -> (r: i64)
    ensures
        r == most(a, b),
{
    if a <= b {
        b
    } else {
        a
    }
}

/// The box around two boxes.
pub fn around(a: Area, b: Area) -> (r: Area)
    ensures
        r == hull(a, b),
{
    Area {
        x0: min_of(a.x0, b.x0),
        y0: min_of(a.y0, b.y0),
        x1: max_of(a.x1, b.x1),
        y1: max_of(a.y1, b.y1),
    }
}

/// How far two numbers are apart.
pub open spec fn apart(a: i64, b: i64) -> int {
    if a <= b {
        b - a
    } else {
        a - b
    }
}

/// How far two numbers are apart.
pub fn distance(a: i64, b: i64) -> (r: i128)
    ensures
        r == apart(a, b),
        0 <= r <= 0xffff_ffff_ffff_ffff,
{
    if a <= b {
        b as i128 - a as i128
    } else {
        a as i128 - b as i128
    }
}

/// Whether two bottom edges are of one line: less than a point and a half apart.
pub open spec fn level(a: i64, b: i64, unit: u32) -> bool {
    2 * apart(a, b) < 3 * unit
}

/// Whether two bottom edges are of one line.
pub fn is_level(a: i64, b: i64, unit: u32) -> (r: bool)
    ensures
        r == level(a, b, unit),
{
    2 * distance(a, b) < 3 * (unit as i128)
}

/// Whether one box holds another.
pub open spec fn holds_area(outer: Area, inner: Area) -> bool {
    &&& outer.x0 <= inner.x0
    &&& outer.y0 <= inner.y0
    &&& inner.x1 <= outer.x1
    &&& inner.y1 <= outer.y1
}

/// The first of some rows that a bottom edge is level with, from one on.
pub open spec fn row_at(rows: Seq<Area>, y1: i64, unit: u32, from: int) -> Option<int>
    decreases rows.len() - from,
{
    if from < 0 || from >= rows.len() {
        None
    } else if level(rows[from].y1, y1, unit) {
        Some(from)
    } else {
        row_at(rows, y1, unit, from + 1)
    }
}

/// Some rows with a box added: to the row it is level with, or as one of its own.
pub open spec fn with_area(rows: Seq<Area>, area: Area, unit: u32) -> Seq<Area> {
    match row_at(rows, area.y1, unit, 0) {
        Some(i) => rows.update(i, hull(rows[i], area)),
        None => rows.push(area),
    }
}

/// Adds a box to some rows.
fn add_area(rows: &mut Vec<Area>, area: Area, unit: u32)
    ensures
        final(rows)@ == with_area(old(rows)@, area, unit),
{
    let n: usize = rows.len();
    let mut i: usize = 0;
    while i < n
        invariant
            i <= n,
            n == rows@.len(),
            rows@ == old(rows)@,
            row_at(rows@, area.y1, unit, 0) == row_at(rows@, area.y1, unit, i as int),
        decreases n - i,
    {
        let row: Area = rows[i];
        if is_level(row.y1, area.y1, unit) {
            rows.set(i, around(row, area));
            return;
        }
        i = i + 1;
    }
    rows.push(area);
}

proof fn lemma_row_at(rows: Seq<Area>, y1: i64, unit: u32, from: int)
    ensures
        row_at(rows, y1, unit, from) matches Some(i) ==> 0 <= i < rows.len(),
    decreases rows.len() - from,
{
    if 0 <= from < rows.len() && !level(rows[from].y1, y1, unit) {
        lemma_row_at(rows, y1, unit, from + 1);
    }
}

/// A box that is added is in one of the rows, and so is every box that was.
pub proof fn no_box_is_lost(rows: Seq<Area>, area: Area, unit: u32, k: int)
    requires
        0 <= k < rows.len(),
    ensures
        k < with_area(rows, area, unit).len(),
        holds_area(with_area(rows, area, unit)[k], rows[k]),
        exists|i: int|
            0 <= i < with_area(rows, area, unit).len() && holds_area(
                #[trigger] with_area(rows, area, unit)[i],
                area,
            ),
{
    let new = with_area(rows, area, unit);
    lemma_row_at(rows, area.y1, unit, 0);
    match row_at(rows, area.y1, unit, 0) {
        Some(i) => {
            assert(holds_area(new[i], area));
        },
        None => {
            assert(holds_area(new[rows.len() as int], area));
        },
    }
}

// ------------------------------------------------------------------- what is hit

/// Where in the source a glyph ends, no further than the piece it came from.
pub open spec fn glyph_end(g: Glyph) -> int {
    let end = g.at->Some_0 + g.len;
    if end <= g.stop {
        end
    } else {
        g.stop as int
    }
}

/// Whether a glyph came from a stretch of source.
pub open spec fn glyph_hit(g: Glyph, start: usize, end: usize) -> bool {
    g.at is Some && start <= g.at->Some_0 && glyph_end(g) <= end
}

/// Whether a shape or a picture came from a stretch of source.
pub open spec fn solid_hit(source: Option<(usize, usize)>, start: usize, end: usize) -> bool {
    source matches Some((s, e)) && start <= s && e <= end
}

/// What a hit counts for: the group it is in, where there is one, or itself.
pub open spec fn counted(group: Option<Area>, area: Area) -> Area {
    match group {
        Some(g) => g,
        None => area,
    }
}

/// Some rows with the first of some glyphs added that came from the source.
pub open spec fn glyph_rows(
    glyphs: Seq<Glyph>,
    n: nat,
    rows: Seq<Area>,
    group: Option<Area>,
    sought: Sought,
) -> Seq<Area>
    decreases n,
{
    if n == 0 || n > glyphs.len() {
        rows
    } else {
        let before = glyph_rows(glyphs, (n - 1) as nat, rows, group, sought);
        let g = glyphs[n - 1];
        if glyph_hit(g, sought.start, sought.end) {
            with_area(before, counted(group, g.area), sought.unit)
        } else {
            before
        }
    }
}

/// The group a hit inside a group counts for.
pub open spec fn group_in(group: Option<Area>, area: Area, whole: bool) -> Option<Area> {
    match group {
        Some(g) => Some(g),
        None => if whole {
            Some(area)
        } else {
            None
        },
    }
}

/// Some rows with what of a piece came from the source added.
pub open spec fn piece_rows(p: Piece, rows: Seq<Area>, group: Option<Area>, sought: Sought) -> Seq<
    Area,
>
    decreases p, 0nat,
{
    match p {
        Piece::Group(area, inner) => pieces_rows(
            inner@,
            inner@.len(),
            rows,
            group_in(group, area, sought.whole),
            sought,
        ),
        Piece::Run(run) => glyph_rows(run.glyphs@, run.glyphs@.len(), rows, group, sought),
        Piece::Solid(area, source) => if solid_hit(source, sought.start, sought.end) {
            with_area(rows, counted(group, area), sought.unit)
        } else {
            rows
        },
    }
}

/// Some rows with what of the first of some pieces came from the source added.
pub open spec fn pieces_rows(
    pieces: Seq<Piece>,
    n: nat,
    rows: Seq<Area>,
    group: Option<Area>,
    sought: Sought,
) -> Seq<Area>
    decreases pieces, n,
{
    if n == 0 || n > pieces.len() {
        rows
    } else {
        piece_rows(
            pieces[n - 1],
            pieces_rows(pieces, (n - 1) as nat, rows, group, sought),
            group,
            sought,
        )
    }
}

/// Whether a glyph came from a stretch of source.
pub fn hits_glyph(g: &Glyph, start: usize, end: usize) -> (r: bool)
    ensures
        r == glyph_hit(*g, start, end),
{
    match g.at {
        Some(at) => {
            let reach: u128 = at as u128 + g.len as u128;
            let stop: u128 = if reach <= g.stop as u128 {
                reach
            } else {
                g.stop as u128
            };
            start <= at && stop <= end as u128
        },
        None => false,
    }
}

/// Adds what of a run came from the source to some rows.
fn walk_glyphs(glyphs: &Vec<Glyph>, rows: &mut Vec<Area>, group: Option<Area>, sought: Sought)
    ensures
        final(rows)@ == glyph_rows(glyphs@, glyphs@.len(), old(rows)@, group, sought),
{
    let mut i: usize = 0;
    while i < glyphs.len()
        invariant
            i <= glyphs@.len(),
            rows@ == glyph_rows(glyphs@, i as nat, old(rows)@, group, sought),
        decreases glyphs@.len() - i,
    {
        if hits_glyph(&glyphs[i], sought.start, sought.end) {
            let area: Area = match group {
                Some(g) => g,
                None => glyphs[i].area,
            };
            add_area(rows, area, sought.unit);
        }
        i = i + 1;
    }
}

/// Adds what of a piece came from the source to some rows.
fn walk_piece(p: &Piece, rows: &mut Vec<Area>, group: Option<Area>, sought: Sought)
    ensures
        final(rows)@ == piece_rows(*p, old(rows)@, group, sought),
    decreases *p, 0nat,
{
    match p {
        Piece::Group(area, inner) => {
            let within: Option<Area> = match group {
                Some(g) => Some(g),
                None => if sought.whole {
                    Some(*area)
                } else {
                    None
                },
            };
            walk_pieces(inner, rows, within, sought);
        },
        Piece::Run(run) => {
            walk_glyphs(&run.glyphs, rows, group, sought);
        },
        Piece::Solid(area, source) => {
            let hit: bool = match source {
                Some((s, e)) => sought.start <= *s && *e <= sought.end,
                None => false,
            };
            if hit {
                let shown: Area = match group {
                    Some(g) => g,
                    None => *area,
                };
                add_area(rows, shown, sought.unit);
            }
        },
    }
}

/// Adds what of some pieces came from the source to some rows.
fn walk_pieces(pieces: &Vec<Piece>, rows: &mut Vec<Area>, group: Option<Area>, sought: Sought)
    ensures
        final(rows)@ == pieces_rows(pieces@, pieces@.len(), old(rows)@, group, sought),
    decreases pieces@, 1nat,
{
    let mut i: usize = 0;
    while i < pieces.len()
        invariant
            i <= pieces@.len(),
            rows@ == pieces_rows(pieces@, i as nat, old(rows)@, group, sought),
        decreases pieces@.len() - i,
    {
        assert(decreases_to!(pieces@ => pieces@[i as int]));
        walk_piece(&pieces[i], rows, group, sought);
        i = i + 1;
    }
}

// ------------------------------------------------------------------- their order

/// A row put among others by its bottom edge, behind those it is even with.
pub open spec fn sunk(rows: Seq<Area>, row: Area) -> Seq<Area>
    decreases rows.len(),
{
    if rows.len() == 0 || rows.last().y1 <= row.y1 {
        rows.push(row)
    } else {
        sunk(rows.drop_last(), row).push(rows.last())
    }
}

/// Some rows from top to bottom.
pub open spec fn by_bottom(rows: Seq<Area>) -> Seq<Area>
    decreases rows.len(),
{
    if rows.len() == 0 {
        seq![]
    } else {
        sunk(by_bottom(rows.drop_last()), rows.last())
    }
}

/// Whether rows go from top to bottom.
pub open spec fn downward(rows: Seq<Area>) -> bool {
    forall|i: int, j: int|
        0 <= i <= j < rows.len() ==> (#[trigger] rows[i]).y1 <= (#[trigger] rows[j]).y1
}

proof fn lemma_sunk(rows: Seq<Area>, row: Area)
    requires
        downward(rows),
    ensures
        downward(sunk(rows, row)),
        sunk(rows, row).len() == rows.len() + 1,
        sunk(rows, row).to_multiset() == rows.to_multiset().insert(row),
        forall|i: int|
            0 <= i < sunk(rows, row).len() ==> (#[trigger] sunk(rows, row)[i]) == row
                || rows.contains(sunk(rows, row)[i]),
    decreases rows.len(),
{
    broadcast use vstd::seq_lib::group_to_multiset_ensures;

    if rows.len() == 0 || rows.last().y1 <= row.y1 {
        let all = rows.push(row);
        assert forall|i: int, j: int| 0 <= i <= j < all.len() implies (#[trigger] all[i]).y1
            <= (#[trigger] all[j]).y1 by {
            if j == rows.len() && i < j {
                assert(rows[i].y1 <= rows[rows.len() - 1].y1);
            }
        }
        assert forall|i: int| 0 <= i < all.len() implies (#[trigger] all[i]) == row
            || rows.contains(all[i]) by {
            if i < rows.len() {
                assert(rows[i] == all[i]);
            }
        }
    } else {
        let head = rows.drop_last();
        let last = rows.last();
        assert forall|i: int, j: int| 0 <= i <= j < head.len() implies (#[trigger] head[i]).y1
            <= (#[trigger] head[j]).y1 by {
            assert(rows[i].y1 <= rows[j].y1);
        }
        lemma_sunk(head, row);
        let inner = sunk(head, row);
        let all = inner.push(last);
        assert forall|i: int, j: int| 0 <= i <= j < all.len() implies (#[trigger] all[i]).y1
            <= (#[trigger] all[j]).y1 by {
            if j == inner.len() && i < j {
                if inner[i] != row {
                    let k = choose|k: int| 0 <= k < head.len() && head[k] == inner[i];
                    assert(rows[k].y1 <= rows[rows.len() - 1].y1);
                }
            } else if j < inner.len() {
                assert(inner[i].y1 <= inner[j].y1);
            }
        }
        assert(rows =~= head.push(last));
        assert(all.to_multiset() =~= rows.to_multiset().insert(row));
        assert forall|i: int| 0 <= i < all.len() implies (#[trigger] all[i]) == row
            || rows.contains(all[i]) by {
            if i < inner.len() {
                if inner[i] != row {
                    let k = choose|k: int| 0 <= k < head.len() && head[k] == inner[i];
                    assert(rows[k] == all[i]);
                }
            } else {
                assert(rows[rows.len() - 1] == last);
            }
        }
    }
}

/// Rows that are put in order go from top to bottom, and are the rows they were.
pub proof fn rows_go_downward(rows: Seq<Area>)
    ensures
        downward(by_bottom(rows)),
        by_bottom(rows).to_multiset() == rows.to_multiset(),
    decreases rows.len(),
{
    broadcast use vstd::seq_lib::group_to_multiset_ensures;

    if rows.len() > 0 {
        rows_go_downward(rows.drop_last());
        lemma_sunk(by_bottom(rows.drop_last()), rows.last());
        assert(rows =~= rows.drop_last().push(rows.last()));
    }
}

/// Some rows from top to bottom.
fn sort_rows(rows: &Vec<Area>) -> (r: Vec<Area>)
    ensures
        r@ == by_bottom(rows@),
{
    let mut out: Vec<Area> = Vec::new();
    let mut i: usize = 0;
    assert(rows@.take(0) =~= seq![]);
    while i < rows.len()
        invariant
            i <= rows@.len(),
            out@ == by_bottom(rows@.take(i as int)),
        decreases rows@.len() - i,
    {
        let row: Area = rows[i];
        proof {
            assert(rows@.take(i + 1).drop_last() =~= rows@.take(i as int));
            assert(rows@.take(i + 1).last() == row);
        }
        let ghost held = out@;
        let mut at: usize = out.len();
        assert(held.take(at as int) =~= held);
        assert(held.skip(at as int) =~= seq![]);
        assert(sunk(held, row) =~= sunk(held.take(at as int), row) + held.skip(at as int));
        while at > 0 && out[at - 1].y1 > row.y1
            invariant
                at <= out@.len(),
                out@ == held,
                sunk(held, row) == sunk(held.take(at as int), row) + held.skip(at as int),
            decreases at,
        {
            proof {
                let here = held.take(at as int);
                assert(here.last() == held[at - 1]);
                assert(here.drop_last() =~= held.take(at - 1));
                assert(sunk(here.drop_last(), row).push(here.last()) + held.skip(at as int)
                    =~= sunk(held.take(at - 1), row) + held.skip(at - 1));
            }
            at = at - 1;
        }
        proof {
            if at > 0 {
                assert(held.take(at as int).last() == held[at - 1]);
            }
            assert(sunk(held.take(at as int), row) == held.take(at as int).push(row));
        }
        out.insert(at, row);
        assert(out@ =~= held.take(at as int).push(row) + held.skip(at as int));
        i = i + 1;
    }
    assert(rows@.take(i as int) =~= rows@);
    out
}

// ------------------------------------------------------------------- the boxes

/// A box on one of several pages, counted from one.
#[derive(Debug, Clone, Copy, PartialEq, Eq, Structural)]
pub struct AnnotRect {
    /// The page.
    pub page: usize,
    /// The box.
    pub area: Area,
}

/// Some boxes on a page.
pub open spec fn on_page(rows: Seq<Area>, page: usize) -> Seq<AnnotRect> {
    rows.map_values(|a: Area| AnnotRect { page, area: a })
}

/// The boxes of a stretch of source on the first of some pages, a line each: text
/// wraps, so a stretch is several boxes rather than one.
pub open spec fn rects_v(pages: Seq<Vec<Piece>>, n: nat, sought: Sought) -> Seq<AnnotRect>
    decreases n,
{
    if n == 0 || n > pages.len() {
        seq![]
    } else {
        let page = pages[n - 1]@;
        rects_v(pages, (n - 1) as nat, sought) + on_page(
            by_bottom(pieces_rows(page, page.len(), seq![], None, sought)),
            n as usize,
        )
    }
}

/// The boxes of a stretch of source, a line each.
pub fn range_rects(pages: &Vec<Vec<Piece>>, sought: Sought) -> (r: Vec<AnnotRect>)
    ensures
        r@ == rects_v(pages@, pages@.len(), sought),
{
    let mut out: Vec<AnnotRect> = Vec::new();
    let total: usize = pages.len();
    let mut i: usize = 0;
    while i < total
        invariant
            i <= total,
            total == pages@.len(),
            out@ == rects_v(pages@, i as nat, sought),
        decreases total - i,
    {
        let mut rows: Vec<Area> = Vec::new();
        walk_pieces(&pages[i], &mut rows, None, sought);
        let order: Vec<Area> = sort_rows(&rows);
        let ghost held = out@;
        let mut j: usize = 0;
        assert(on_page(order@, (i + 1) as usize).take(0) =~= seq![]);
        while j < order.len()
            invariant
                i < total,
                j <= order@.len(),
                out@ == held + on_page(order@, (i + 1) as usize).take(j as int),
            decreases order@.len() - j,
        {
            out.push(AnnotRect { page: i + 1, area: order[j] });
            assert(out@ =~= held + on_page(order@, (i + 1) as usize).take(j + 1));
            j = j + 1;
        }
        assert(on_page(order@, (i + 1) as usize).take(j as int) =~= on_page(
            order@,
            (i + 1) as usize,
        ));
        i = i + 1;
    }
    out
}

/// Every box is on a page there is, and boxes come in the order of their pages.
pub proof fn boxes_are_on_pages(pages: Seq<Vec<Piece>>, n: nat, sought: Sought, k: int)
    requires
        n <= pages.len() <= usize::MAX,
        0 <= k < rects_v(pages, n, sought).len(),
    ensures
        1 <= rects_v(pages, n, sought)[k].page <= n,
    decreases n,
{
    let before = rects_v(pages, (n - 1) as nat, sought);
    if k < before.len() {
        boxes_are_on_pages(pages, (n - 1) as nat, sought, k);
    }
}

// -------------------------------------------------------------------- the edges

/// The leftmost place a page draws on, with what is found so far.
pub open spec fn piece_left(p: Piece, best: Option<i64>) -> Option<i64>
    decreases p, 0nat,
{
    match p {
        Piece::Group(_, inner) => pieces_left(inner@, inner@.len(), best),
        Piece::Run(run) => lefter(best, run.x0),
        Piece::Solid(area, _) => lefter(best, area.x0),
    }
}

/// The leftmost place the first of some pieces draw on.
pub open spec fn pieces_left(pieces: Seq<Piece>, n: nat, best: Option<i64>) -> Option<i64>
    decreases pieces, n,
{
    if n == 0 || n > pieces.len() {
        best
    } else {
        piece_left(pieces[n - 1], pieces_left(pieces, (n - 1) as nat, best))
    }
}

/// The further left of a place and what is found so far.
pub open spec fn lefter(best: Option<i64>, x: i64) -> Option<i64> {
    match best {
        Some(b) => Some(least(b, x)),
        None => Some(x),
    }
}

/// The further left of a place and what is found so far.
fn more_left(best: Option<i64>, x: i64) -> (r: Option<i64>)
    ensures
        r == lefter(best, x),
{
    match best {
        Some(b) => Some(min_of(b, x)),
        None => Some(x),
    }
}

/// The leftmost place a piece draws on.
fn left_of(p: &Piece, best: Option<i64>) -> (r: Option<i64>)
    ensures
        r == piece_left(*p, best),
    decreases *p, 0nat,
{
    match p {
        Piece::Group(_, inner) => left_of_all(inner, best),
        Piece::Run(run) => more_left(best, run.x0),
        Piece::Solid(area, _) => more_left(best, area.x0),
    }
}

/// The leftmost place some pieces draw on.
fn left_of_all(pieces: &Vec<Piece>, best: Option<i64>) -> (r: Option<i64>)
    ensures
        r == pieces_left(pieces@, pieces@.len(), best),
    decreases pieces@, 1nat,
{
    let mut found: Option<i64> = best;
    let mut i: usize = 0;
    while i < pieces.len()
        invariant
            i <= pieces@.len(),
            found == pieces_left(pieces@, i as nat, best),
        decreases pieces@.len() - i,
    {
        assert(decreases_to!(pieces@ => pieces@[i as int]));
        found = left_of(&pieces[i], found);
        i = i + 1;
    }
    found
}

/// The leftmost place on a page, or its edge where it is empty.
pub open spec fn rail_v(page: Seq<Piece>) -> i64 {
    match pieces_left(page, page.len(), None) {
        Some(x) => x,
        None => 0,
    }
}

/// The leftmost place on a page: a strip there is outside everything the page
/// draws.
pub fn page_rail(page: &Vec<Piece>) -> (r: i64)
    ensures
        r == rail_v(page@),
{
    match left_of_all(page, None) {
        Some(x) => x,
        None => 0,
    }
}

/// Whether a run of text is what stands before a line of a list: on its line, to
/// its left, and near.
pub open spec fn is_marker_of(run: Run, area: Area, unit: u32) -> bool {
    &&& apart(run.baseline, area.y1) < 3 * unit
    &&& run.x0 < area.x0
    &&& run.x1 <= area.x0 + unit
    &&& area.x0 - run.x0 < 60 * unit
}

/// The leftmost of the markers before a line, with what is found so far.
pub open spec fn piece_marker(p: Piece, area: Area, unit: u32, best: Option<i64>) -> Option<i64>
    decreases p, 0nat,
{
    match p {
        Piece::Group(_, inner) => pieces_marker(inner@, inner@.len(), area, unit, best),
        Piece::Run(run) => if is_marker_of(run, area, unit) {
            lefter(best, run.x0)
        } else {
            best
        },
        Piece::Solid(_, _) => best,
    }
}

/// The leftmost of the markers before a line, among the first of some pieces.
pub open spec fn pieces_marker(
    pieces: Seq<Piece>,
    n: nat,
    area: Area,
    unit: u32,
    best: Option<i64>,
) -> Option<i64>
    decreases pieces, n,
{
    if n == 0 || n > pieces.len() {
        best
    } else {
        piece_marker(
            pieces[n - 1],
            area,
            unit,
            pieces_marker(pieces, (n - 1) as nat, area, unit, best),
        )
    }
}

/// The leftmost of the markers before a line.
fn marker_in(p: &Piece, area: Area, unit: u32, best: Option<i64>) -> (r: Option<i64>)
    ensures
        r == piece_marker(*p, area, unit, best),
    decreases *p, 0nat,
{
    match p {
        Piece::Group(_, inner) => marker_in_all(inner, area, unit, best),
        Piece::Run(run) => {
            let u: i128 = unit as i128;
            if distance(run.baseline, area.y1) < 3 * u && run.x0 < area.x0 && run.x1 as i128
                <= area.x0 as i128 + u && area.x0 as i128 - (run.x0 as i128) < 60 * u {
                more_left(best, run.x0)
            } else {
                best
            }
        },
        Piece::Solid(_, _) => best,
    }
}

/// The leftmost of the markers before a line.
fn marker_in_all(pieces: &Vec<Piece>, area: Area, unit: u32, best: Option<i64>) -> (r: Option<i64>)
    ensures
        r == pieces_marker(pieces@, pieces@.len(), area, unit, best),
    decreases pieces@, 1nat,
{
    let mut found: Option<i64> = best;
    let mut i: usize = 0;
    while i < pieces.len()
        invariant
            i <= pieces@.len(),
            found == pieces_marker(pieces@, i as nat, area, unit, best),
        decreases pieces@.len() - i,
    {
        assert(decreases_to!(pieces@ => pieces@[i as int]));
        found = marker_in(&pieces[i], area, unit, found);
        i = i + 1;
    }
    found
}

/// Where a line begins with its marker: bullets and numbers are laid out by the
/// list, so they are no part of what is in it.
pub open spec fn marked_left(page: Seq<Piece>, area: Area, unit: u32) -> i64 {
    match pieces_marker(page, page.len(), area, unit, None) {
        Some(x) => x,
        None => area.x0,
    }
}

/// Where a line begins with its marker.
pub fn extend_to_marker(page: &Vec<Piece>, area: Area, unit: u32) -> (r: i64)
    ensures
        r == marked_left(page@, area, unit),
{
    match marker_in_all(page, area, unit, None) {
        Some(x) => x,
        None => area.x0,
    }
}

/// Where a box begins with its marker, on the page it is on.
pub open spec fn rect_left(pages: Seq<Vec<Piece>>, rect: AnnotRect, unit: u32) -> i64 {
    if 1 <= rect.page <= pages.len() {
        marked_left(pages[rect.page - 1]@, rect.area, unit)
    } else {
        rect.area.x0
    }
}

/// The leftmost place the first of some boxes begin at, with their markers.
pub open spec fn gutter_v(
    pages: Seq<Vec<Piece>>,
    rects: Seq<AnnotRect>,
    n: nat,
    unit: u32,
) -> Option<i64>
    decreases n,
{
    if n == 0 || n > rects.len() {
        None
    } else {
        lefter(
            gutter_v(pages, rects, (n - 1) as nat, unit),
            rect_left(pages, rects[n - 1], unit),
        )
    }
}

/// The leftmost place some boxes begin at, with their markers: for a region made
/// of list items, the column of the bullets.
pub fn gutter_of(pages: &Vec<Vec<Piece>>, rects: &Vec<AnnotRect>, unit: u32) -> (r: i64)
    ensures
        r == match gutter_v(pages@, rects@, rects@.len(), unit) {
            Some(x) => x,
            None => 0,
        },
{
    let mut best: Option<i64> = None;
    let mut i: usize = 0;
    while i < rects.len()
        invariant
            i <= rects@.len(),
            best == gutter_v(pages@, rects@, i as nat, unit),
        decreases rects@.len() - i,
    {
        let rect: AnnotRect = rects[i];
        let x: i64 = if 1 <= rect.page && rect.page <= pages.len() {
            extend_to_marker(&pages[rect.page - 1], rect.area, unit)
        } else {
            rect.area.x0
        };
        best = more_left(best, x);
        i = i + 1;
    }
    match best {
        Some(x) => x,
        None => 0,
    }
}

// ------------------------------------------------------------- what a search boxes in

/// Whether something with a box came from a stretch of the source, among what is drawn or inside
/// it: a glyph, or a shape.
pub open spec fn is_drawn(p: Piece, start: usize, end: usize, area: Area) -> bool
    decreases p, 0nat,
{
    match p {
        Piece::Group(_, inner) => any_drawn(inner@, inner@.len(), start, end, area),
        Piece::Run(run) => exists|i: int|
            0 <= i < run.glyphs@.len() && (#[trigger] run.glyphs@[i]).area == area && is_cut_from(
                run.glyphs@[i],
                start,
                end,
            ),
        Piece::Solid(own, source) => own == area && (source matches Some((s, e)) && start <= s && e
            <= end),
    }
}

/// Whether a glyph came from a stretch of the source.
pub open spec fn is_cut_from(g: Glyph, start: usize, end: usize) -> bool {
    g.at matches Some(at) && start <= at && (at + g.len <= end || g.stop <= end)
}

/// Whether something with a box came from a stretch of the source, among the first of what is
/// drawn.
pub open spec fn any_drawn(pieces: Seq<Piece>, n: nat, start: usize, end: usize, area: Area) -> bool
    decreases pieces, n,
{
    0 < n <= pieces.len() && (any_drawn(pieces, (n - 1) as nat, start, end, area) || is_drawn(
        pieces[n - 1],
        start,
        end,
        area,
    ))
}

/// Whether one of some boxes reaches around an area.
pub open spec fn boxed(rows: Seq<Area>, area: Area) -> bool {
    exists|i: int| 0 <= i < rows.len() && holds_area(#[trigger] rows[i], area)
}

/// What was boxed in stays so when a box is added, and so is what is added.
proof fn lemma_boxed(rows: Seq<Area>, new: Area, unit: u32)
    ensures
        boxed(with_area(rows, new, unit), new),
        forall|area: Area| #[trigger] boxed(rows, area) ==> boxed(with_area(rows, new, unit), area),
{
    let after = with_area(rows, new, unit);
    lemma_row_at(rows, new.y1, unit, 0);
    match row_at(rows, new.y1, unit, 0) {
        Some(i) => {
            assert(holds_area(after[i], new));
        },
        None => {
            assert(holds_area(after[rows.len() as int], new));
        },
    }
    assert forall|area: Area| #[trigger] boxed(rows, area) implies boxed(after, area) by {
        let k = choose|k: int| 0 <= k < rows.len() && holds_area(#[trigger] rows[k], area);
        no_box_is_lost(rows, new, unit, k);
        assert(holds_area(after[k], area));
    }
}

/// Every glyph of a run that is sought is boxed in.
proof fn lemma_glyphs_boxed(glyphs: Seq<Glyph>, n: nat, rows: Seq<Area>, sought: Sought)
    requires
        n <= glyphs.len(),
    ensures
        ({
            let after = glyph_rows(glyphs, n, rows, None, sought);
            &&& forall|area: Area| #[trigger] boxed(rows, area) ==> boxed(after, area)
            &&& forall|i: int|
                0 <= i < n && is_cut_from(#[trigger] glyphs[i], sought.start, sought.end) ==> boxed(
                    after,
                    glyphs[i].area,
                )
        }),
    decreases n,
{
    if n > 0 {
        let before = glyph_rows(glyphs, (n - 1) as nat, rows, None, sought);
        lemma_glyphs_boxed(glyphs, (n - 1) as nat, rows, sought);
        lemma_boxed(before, glyphs[n - 1].area, sought.unit);
    }
}

/// All that is sought in a piece is boxed in.
proof fn lemma_piece_boxed(p: Piece, rows: Seq<Area>, sought: Sought)
    requires
        !sought.whole,
    ensures
        ({
            let after = piece_rows(p, rows, None, sought);
            &&& forall|area: Area| #[trigger] boxed(rows, area) ==> boxed(after, area)
            &&& forall|area: Area| #[trigger]
                is_drawn(p, sought.start, sought.end, area) ==> boxed(after, area)
        }),
    decreases p, 0nat,
{
    let after = piece_rows(p, rows, None, sought);
    match p {
        Piece::Group(_, inner) => {
            lemma_pieces_boxed(inner@, inner@.len(), rows, sought);
            assert forall|area: Area| #[trigger] is_drawn(p, sought.start, sought.end, area) implies boxed(
                after,
                area,
            ) by {
                assert(any_drawn(inner@, inner@.len(), sought.start, sought.end, area));
            }
        },
        Piece::Run(run) => {
            lemma_glyphs_boxed(run.glyphs@, run.glyphs@.len(), rows, sought);
        },
        Piece::Solid(area, source) => {
            lemma_boxed(rows, area, sought.unit);
        },
    }
}

/// All that is sought in some pieces is boxed in.
proof fn lemma_pieces_boxed(pieces: Seq<Piece>, n: nat, rows: Seq<Area>, sought: Sought)
    requires
        n <= pieces.len(),
        !sought.whole,
    ensures
        ({
            let after = pieces_rows(pieces, n, rows, None, sought);
            &&& forall|area: Area| #[trigger] boxed(rows, area) ==> boxed(after, area)
            &&& forall|area: Area| #[trigger]
                any_drawn(pieces, n, sought.start, sought.end, area) ==> boxed(after, area)
        }),
    decreases pieces, n,
{
    if n > 0 {
        let before = pieces_rows(pieces, (n - 1) as nat, rows, None, sought);
        let after = pieces_rows(pieces, n, rows, None, sought);
        lemma_pieces_boxed(pieces, (n - 1) as nat, rows, sought);
        lemma_piece_boxed(pieces[n - 1], before, sought);
        assert forall|area: Area| #[trigger]
            any_drawn(pieces, n, sought.start, sought.end, area) implies boxed(after, area) by {
            if !is_drawn(pieces[n - 1], sought.start, sought.end, area) {
                assert(any_drawn(pieces, (n - 1) as nat, sought.start, sought.end, area));
            }
        }
    }
}

/// All that came from a stretch of the source is boxed in on its page, wherever in the pages it
/// is.
pub proof fn what_is_sought_is_boxed(
    pages: Seq<Vec<Piece>>,
    n: nat,
    sought: Sought,
    page: int,
    area: Area,
)
    requires
        0 <= page < n <= pages.len() <= usize::MAX,
        !sought.whole,
        any_drawn(pages[page]@, pages[page]@.len(), sought.start, sought.end, area),
    ensures
        exists|i: int|
            0 <= i < rects_v(pages, n, sought).len() && (#[trigger] rects_v(pages, n, sought)[i]).page
                == page + 1 && holds_area(rects_v(pages, n, sought)[i].area, area),
    decreases n,
{
    let all = rects_v(pages, n, sought);
    let before = rects_v(pages, (n - 1) as nat, sought);
    if page < n - 1 {
        what_is_sought_is_boxed(pages, (n - 1) as nat, sought, page, area);
        let i = choose|i: int|
            0 <= i < before.len() && (#[trigger] before[i]).page == page + 1 && holds_area(
                before[i].area,
                area,
            );
        assert(all[i] == before[i]);
    } else {
        let pieces = pages[page]@;
        let rows = pieces_rows(pieces, pieces.len(), seq![], None, sought);
        lemma_pieces_boxed(pieces, pieces.len(), seq![], sought);
        assert(boxed(rows, area));
        let k = choose|k: int| 0 <= k < rows.len() && holds_area(#[trigger] rows[k], area);
        rows_go_downward(rows);
        let sorted = by_bottom(rows);
        rows.to_multiset_ensures();
        sorted.to_multiset_ensures();
        assert(rows.contains(rows[k]));
        assert(rows.to_multiset().count(rows[k]) > 0);
        assert(sorted.to_multiset().count(rows[k]) > 0);
        assert(sorted.contains(rows[k]));
        let j = sorted.index_of(rows[k]);
        assert(all[before.len() + j] == AnnotRect { page: n as usize, area: sorted[j] });
    }
}

/// Where nothing came from a stretch of the source there are no boxes.
pub proof fn nothing_else_is_boxed(pages: Seq<Vec<Piece>>, n: nat, sought: Sought)
    requires
        n <= pages.len(),
        forall|page: int, area: Area|
            0 <= page < n ==> !(#[trigger] any_drawn(
                pages[page]@,
                pages[page]@.len(),
                sought.start,
                sought.end,
                area,
            )),
    ensures
        rects_v(pages, n, sought).len() == 0,
    decreases n,
{
    if n > 0 {
        nothing_else_is_boxed(pages, (n - 1) as nat, sought);
        let page = pages[n - 1]@;
        assert forall|area: Area| !(#[trigger] any_drawn(
            page,
            page.len(),
            sought.start,
            sought.end,
            area,
        )) by {
            assert(pages[n - 1]@ == page);
        }
        lemma_none_drawn(page, page.len(), None, sought);
        let rows = pieces_rows(page, page.len(), seq![], None, sought);
        assert(by_bottom(rows).len() == 0);
    }
}

/// A run with nothing that is sought adds no box.
proof fn lemma_no_glyph(glyphs: Seq<Glyph>, n: nat, rows: Seq<Area>, group: Option<Area>, sought: Sought)
    requires
        n <= glyphs.len(),
        forall|i: int|
            0 <= i < glyphs.len() ==> !is_cut_from(#[trigger] glyphs[i], sought.start, sought.end),
    ensures
        glyph_rows(glyphs, n, rows, group, sought) == rows,
    decreases n,
{
    if n > 0 {
        assert(!is_cut_from(glyphs[n - 1], sought.start, sought.end));
        lemma_no_glyph(glyphs, (n - 1) as nat, rows, group, sought);
    }
}

/// A piece with nothing that is sought adds no box.
proof fn lemma_nothing_drawn(p: Piece, rows: Seq<Area>, group: Option<Area>, sought: Sought)
    requires
        rows.len() == 0,
        forall|area: Area| !(#[trigger] is_drawn(p, sought.start, sought.end, area)),
    ensures
        piece_rows(p, rows, group, sought).len() == 0,
    decreases p, 0nat,
{
    match p {
        Piece::Group(area, inner) => {
            assert(rows =~= seq![]);
            assert forall|a: Area| !(#[trigger] any_drawn(
                inner@,
                inner@.len(),
                sought.start,
                sought.end,
                a,
            )) by {
                assert(!is_drawn(p, sought.start, sought.end, a));
            }
            lemma_none_drawn(inner@, inner@.len(), group_in(group, area, sought.whole), sought);
        },
        Piece::Run(run) => {
            assert forall|i: int| 0 <= i < run.glyphs@.len() implies !is_cut_from(
                #[trigger] run.glyphs@[i],
                sought.start,
                sought.end,
            ) by {
                assert(!is_drawn(p, sought.start, sought.end, run.glyphs@[i].area));
            }
            lemma_no_glyph(run.glyphs@, run.glyphs@.len(), rows, group, sought);
        },
        Piece::Solid(area, source) => {
            assert(!is_drawn(p, sought.start, sought.end, area));
        },
    }
}

/// Pieces with nothing that is sought have no box.
proof fn lemma_none_drawn(pieces: Seq<Piece>, n: nat, group: Option<Area>, sought: Sought)
    requires
        n <= pieces.len(),
        forall|area: Area| !(#[trigger] any_drawn(pieces, n, sought.start, sought.end, area)),
    ensures
        pieces_rows(pieces, n, seq![], group, sought).len() == 0,
    decreases pieces, n,
{
    if n > 0 {
        assert forall|area: Area| !(#[trigger] any_drawn(
            pieces,
            (n - 1) as nat,
            sought.start,
            sought.end,
            area,
        )) by {
            assert(!any_drawn(pieces, n, sought.start, sought.end, area));
        }
        assert forall|area: Area| !(#[trigger] is_drawn(
            pieces[n - 1],
            sought.start,
            sought.end,
            area,
        )) by {
            assert(!any_drawn(pieces, n, sought.start, sought.end, area));
        }
        lemma_none_drawn(pieces, (n - 1) as nat, group, sought);
        let before = pieces_rows(pieces, (n - 1) as nat, seq![], group, sought);
        lemma_nothing_drawn(pieces[n - 1], before, group, sought);
    }
}

/// Whether the left edge of something drawn, or of something inside it, is at a place.
pub open spec fn begins_at(p: Piece, x: i64) -> bool
    decreases p, 0nat,
{
    match p {
        Piece::Group(_, inner) => any_begins_at(inner@, inner@.len(), x),
        Piece::Run(run) => run.x0 == x,
        Piece::Solid(area, _) => area.x0 == x,
    }
}

/// Whether the left edge of one of the first of some things is at a place.
pub open spec fn any_begins_at(pieces: Seq<Piece>, n: nat, x: i64) -> bool
    decreases pieces, n,
{
    0 < n <= pieces.len() && (any_begins_at(pieces, (n - 1) as nat, x) || begins_at(pieces[n - 1], x))
}

/// The rail of a page is at the left edge of something on it, and nothing begins further left.
pub proof fn a_rail_is_at_the_left(page: Seq<Piece>)
    ensures
        forall|x: i64| #[trigger] any_begins_at(page, page.len(), x) ==> rail_v(page) <= x,
        (exists|x: i64| #[trigger] any_begins_at(page, page.len(), x)) ==> any_begins_at(
            page,
            page.len(),
            rail_v(page),
        ),
{
    lemma_pieces_left(page, page.len(), None);
    if exists|x: i64| #[trigger] any_begins_at(page, page.len(), x) {
        let x = choose|x: i64| #[trigger] any_begins_at(page, page.len(), x);
        assert(pieces_left(page, page.len(), None) is Some);
    }
}

/// The left edge of a piece is the leftmost in it.
proof fn lemma_piece_left(p: Piece, best: Option<i64>)
    ensures
        ({
            let left = piece_left(p, best);
            &&& best matches Some(b) ==> (left matches Some(l) && l <= b)
            &&& forall|x: i64| #[trigger] begins_at(p, x) ==> (left matches Some(l) && l <= x)
            &&& left matches Some(l) ==> left == best || begins_at(p, l)
        }),
    decreases p, 0nat,
{
    if let Piece::Group(_, inner) = p {
        lemma_pieces_left(inner@, inner@.len(), best);
        assert forall|x: i64| #[trigger] begins_at(p, x) implies (piece_left(p, best) matches Some(l) && l
            <= x) by {
            assert(any_begins_at(inner@, inner@.len(), x));
        }
    }
}

/// The left edge of some pieces is the leftmost in them.
proof fn lemma_pieces_left(pieces: Seq<Piece>, n: nat, best: Option<i64>)
    requires
        n <= pieces.len(),
    ensures
        ({
            let left = pieces_left(pieces, n, best);
            &&& best matches Some(b) ==> (left matches Some(l) && l <= b)
            &&& forall|x: i64| #[trigger] any_begins_at(pieces, n, x) ==> (left matches Some(l) && l <= x)
            &&& left matches Some(l) ==> left == best || any_begins_at(pieces, n, l)
        }),
    decreases pieces, n,
{
    if n > 0 {
        lemma_pieces_left(pieces, (n - 1) as nat, best);
        lemma_piece_left(pieces[n - 1], pieces_left(pieces, (n - 1) as nat, best));
        assert forall|x: i64| #[trigger] any_begins_at(pieces, n, x) implies (pieces_left(pieces, n, best)
            matches Some(l) && l <= x) by {
            if !begins_at(pieces[n - 1], x) {
                assert(any_begins_at(pieces, (n - 1) as nat, x));
            }
        }
    }
}

/// The gutter beside some boxes is left of all of them, with what marks them.
pub proof fn a_gutter_is_left_of_its_boxes(
    pages: Seq<Vec<Piece>>,
    rects: Seq<AnnotRect>,
    n: nat,
    unit: u32,
    k: int,
)
    requires
        0 <= k < n <= rects.len(),
    ensures
        gutter_v(pages, rects, n, unit) matches Some(x) && x <= rect_left(pages, rects[k], unit),
    decreases n,
{
    if k < n - 1 {
        a_gutter_is_left_of_its_boxes(pages, rects, (n - 1) as nat, unit, k);
    }
}

} // verus!

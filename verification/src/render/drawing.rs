//! Where a drawing came from.
//!
//! A drawing reaches the page as a picture laid out elsewhere, and the picture
//! as a whole is attributed to the rule that framed it, which is the same place
//! for every drawing there is. What is drawn carries better information: each
//! piece of ink has the place it was laid out from, so where the drawing came
//! from is derived from those.

use std::ops::Range;

use vstd::prelude::*;
use vstd::string::*;

use crate::render::map::Place;
use crate::syntax::{branch, branches, syntax_tree, tree_of};
use crate::text::same;

verus! {

/// How far apart the pieces of a drawing may be before what encloses them all
/// stops being believable.
pub const MAX_SPREAD: usize = 4000;

/// The first place of the document any of some ink came from.
pub open spec fn ink_from(ink: Seq<Option<Place>>, main: usize) -> Option<int>
    decreases ink.len(),
{
    if ink.len() == 0 {
        None
    } else {
        let before = ink_from(ink.drop_last(), main);
        match ink.last() {
            Some(place) if place.file == main => match before {
                Some(lo) if lo <= place.start => Some(lo),
                _ => Some(place.start as int),
            },
            _ => before,
        }
    }
}

/// The last place of the document any of some ink came from.
pub open spec fn ink_upto(ink: Seq<Option<Place>>, main: usize) -> Option<int>
    decreases ink.len(),
{
    if ink.len() == 0 {
        None
    } else {
        let before = ink_upto(ink.drop_last(), main);
        match ink.last() {
            Some(place) if place.file == main => match before {
                Some(hi) if hi >= place.end => Some(hi),
                _ => Some(place.end as int),
            },
            _ => before,
        }
    }
}

/// The stretch of the document some ink came from, from the first place to the
/// last.
pub fn ink_range(ink: &Vec<Option<Place>>, main: usize) -> (r: Option<(usize, usize)>)
    ensures
        match r {
            Some(range) => ink_from(ink@, main) == Some(range.0 as int) && ink_upto(ink@, main)
                == Some(range.1 as int),
            None => ink_from(ink@, main) is None && ink_upto(ink@, main) is None,
        },
{
    let mut out: Option<(usize, usize)> = None;
    let mut i: usize = 0;
    while i < ink.len()
        invariant
            i <= ink@.len(),
            match out {
                Some(range) => ink_from(ink@.take(i as int), main) == Some(range.0 as int)
                    && ink_upto(ink@.take(i as int), main) == Some(range.1 as int),
                None => ink_from(ink@.take(i as int), main) is None && ink_upto(
                    ink@.take(i as int),
                    main,
                ) is None,
            },
        decreases ink@.len() - i,
    {
        assert(ink@.take(i + 1).drop_last() =~= ink@.take(i as int));
        assert(ink@.take(i + 1).last() == ink@[i as int]);
        if let Some(place) = ink[i] {
            if place.file == main {
                out = match out {
                    None => Some((place.start, place.end)),
                    Some((lo, hi)) => Some(
                        (
                            if lo <= place.start {
                                lo
                            } else {
                                place.start
                            },
                            if hi >= place.end {
                                hi
                            } else {
                                place.end
                            },
                        ),
                    ),
                };
            }
        }
        i = i + 1;
    }
    assert(ink@.take(i as int) =~= ink@);
    out
}

/// The kinds of node that say which document they are in, and not which
/// expression.
pub open spec fn is_container(kind: Seq<char>) -> bool {
    ||| kind == "Markup"@
    ||| kind == "Code"@
    ||| kind == "CodeBlock"@
    ||| kind == "ContentBlock"@
}

/// Which nodes of a tree a range is inside, outermost first, from a node's
/// descendants at `at` on: at each depth the first child that holds all of it.
pub open spec fn holding(
    tree: Seq<(int, Seq<char>, int, int)>,
    at: int,
    depth: int,
    lo: int,
    hi: int,
) -> Seq<(int, Seq<char>, int, int)>
    decreases tree.len() - at,
{
    if at < 0 || at >= tree.len() || tree[at].0 <= depth {
        seq![]
    } else if tree[at].0 == depth + 1 && tree[at].2 <= lo && hi <= tree[at].3 {
        seq![tree[at]] + holding(tree, at + 1, depth + 1, lo, hi)
    } else {
        holding(tree, at + 1, depth, lo, hi)
    }
}

/// The range of the last call among some nodes.
pub open spec fn last_call(nodes: Seq<(int, Seq<char>, int, int)>) -> Option<(int, int)>
    decreases nodes.len(),
{
    if nodes.len() == 0 {
        None
    } else if nodes.last().1 == "FuncCall"@ {
        Some((nodes.last().2, nodes.last().3))
    } else {
        last_call(nodes.drop_last())
    }
}

/// The range of the last expression among some nodes that is not a call.
pub open spec fn last_expression(nodes: Seq<(int, Seq<char>, int, int)>) -> Option<(int, int)>
    decreases nodes.len(),
{
    if nodes.len() == 0 {
        None
    } else if nodes.last().1 != "FuncCall"@ && !is_container(nodes.last().1) {
        Some((nodes.last().2, nodes.last().3))
    } else {
        last_expression(nodes.drop_last())
    }
}

/// The expression in a tree that a range belongs to: the deepest call it is
/// inside, or else the deepest expression.
pub open spec fn call_around(
    tree: Seq<(int, Seq<char>, int, int)>,
    lo: int,
    hi: int,
) -> Option<(int, int)> {
    let nodes = holding(tree, 1, 0, lo, hi);
    match last_call(nodes) {
        Some(range) => Some(range),
        None => last_expression(nodes),
    }
}

/// What a scan of a tree has found after one node more.
proof fn lemma_one_more(
    before: Seq<(int, Seq<char>, int, int)>,
    n: (int, Seq<char>, int, int),
)
    ensures
        last_call(before.push(n)) == (if n.1 == "FuncCall"@ {
            Some((n.2, n.3))
        } else {
            last_call(before)
        }),
        last_expression(before.push(n)) == (if n.1 != "FuncCall"@ && !is_container(n.1) {
            Some((n.2, n.3))
        } else {
            last_expression(before)
        }),
{
    assert(before.push(n).drop_last() =~= before);
}

/// Whether a found range is what is wanted.
pub open spec fn is_range(found: Option<Range<usize>>, want: Option<(int, int)>) -> bool {
    match found {
        Some(range) => want == Some((range.start as int, range.end as int)),
        None => want is None,
    }
}

/// The expression in a tree that a range belongs to.
pub fn pick_call(tree: &Vec<(usize, String, usize, usize)>, lo: usize, hi: usize) -> (r: Option<
    Range<usize>,
>)
    ensures
        is_range(r, call_around(branches(tree@), lo as int, hi as int)),
{
    let ghost all = branches(tree@);
    let ghost nodes = holding(all, 1, 0, lo as int, hi as int);
    let ghost mut seen: Seq<(int, Seq<char>, int, int)> = seq![];
    let mut call: Option<Range<usize>> = None;
    let mut best: Option<Range<usize>> = None;
    let mut depth: usize = 0;
    let mut at: usize = 1;
    assert(seen + holding(all, 1, 0, lo as int, hi as int) =~= nodes);
    while at < tree.len() && tree[at].0 > depth
        invariant
            all == branches(tree@),
            seen + holding(all, at as int, depth as int, lo as int, hi as int) == nodes,
            is_range(call, last_call(seen)),
            is_range(best, last_expression(seen)),
        decreases tree@.len() - at,
    {
        let n: &(usize, String, usize, usize) = &tree[at];
        let ghost v = branch(*n);
        assert(all[at as int] == v);
        if n.0 - 1 == depth && n.2 <= lo && hi <= n.3 {
            proof {
                lemma_one_more(seen, v);
                let rest = holding(all, at + 1, depth + 1, lo as int, hi as int);
                assert(seen + (seq![v] + rest) =~= seen.push(v) + rest);
                seen = seen.push(v);
            }
            let kind: &str = n.1.as_str();
            if same(kind, "FuncCall") {
                call = Some(Range { start: n.2, end: n.3 });
            } else if !same(kind, "Markup") && !same(kind, "Code") && !same(kind, "CodeBlock")
                && !same(kind, "ContentBlock") {
                best = Some(Range { start: n.2, end: n.3 });
            }
            depth = n.0;
        }
        at = at + 1;
    }
    assert(seen + holding(all, at as int, depth as int, lo as int, hi as int) =~= seen);
    match call {
        Some(range) => Some(range),
        None => best,
    }
}

/// The place in a document a drawing was made from, if it can be told: the
/// expression around all of its ink, unless the ink is too far apart.
pub open spec fn drawn_at(
    ink: Seq<Option<Place>>,
    text: Seq<char>,
    main: usize,
) -> Option<(int, int)> {
    match (ink_from(ink, main), ink_upto(ink, main)) {
        (Some(lo), Some(hi)) => if lo > hi || hi - lo > MAX_SPREAD {
            None
        } else {
            call_around(syntax_tree(text), lo, hi)
        },
        _ => None,
    }
}

/// The place in the document a drawing was made from, if it can be told.
///
/// For a diagram written in the document that is the call that drew it. Ink
/// that came from elsewhere says nothing; ink from places too far apart would
/// give most of the document, and gives nothing instead.
pub fn source_of(ink: &Vec<Option<Place>>, text: &str, main: usize) -> (r: Option<Range<usize>>)
    ensures
        is_range(r, drawn_at(ink@, text@, main)),
{
    match ink_range(ink, main) {
        None => None,
        Some((lo, hi)) => {
            if lo > hi || hi - lo > MAX_SPREAD {
                None
            } else {
                let tree: Vec<(usize, String, usize, usize)> = tree_of(text);
                pick_call(&tree, lo, hi)
            }
        },
    }
}

/// What is drawn comes from as far back and as far on as any of its ink in the document does, and
/// no further.
pub proof fn ink_is_all_reached(ink: Seq<Option<Place>>, main: usize, k: int)
    requires
        0 <= k < ink.len(),
        ink[k] matches Some(place) && place.file == main,
    ensures
        ink_from(ink, main) matches Some(lo) && lo <= (ink[k]->Some_0).start,
        ink_upto(ink, main) matches Some(hi) && (ink[k]->Some_0).end <= hi,
        exists|i: int|
            0 <= i < ink.len() && (#[trigger] ink[i] matches Some(p) && p.file == main && Some(
                p.start as int,
            ) == ink_from(ink, main)),
        exists|i: int|
            0 <= i < ink.len() && (#[trigger] ink[i] matches Some(p) && p.file == main && Some(
                p.end as int,
            ) == ink_upto(ink, main)),
    decreases ink.len(),
{
    let before = ink.drop_last();
    let n = ink.len() - 1;
    lemma_no_ink(before, main);
    if exists|j: int| 0 <= j < before.len() && (#[trigger] before[j] matches Some(p) && p.file == main) {
        let j = choose|j: int|
            0 <= j < before.len() && (#[trigger] before[j] matches Some(p) && p.file == main);
        ink_is_all_reached(before, main, if k < n {
            k
        } else {
            j
        });
        let a = choose|i: int|
            0 <= i < before.len() && (#[trigger] before[i] matches Some(p) && p.file == main && Some(
                p.start as int,
            ) == ink_from(before, main));
        let b = choose|i: int|
            0 <= i < before.len() && (#[trigger] before[i] matches Some(p) && p.file == main && Some(
                p.end as int,
            ) == ink_upto(before, main));
        assert(ink[a] == before[a] && ink[b] == before[b]);
        if ink_from(ink, main) != ink_from(before, main) {
            assert(ink[n] is Some && (ink[n]->Some_0).file == main);
        }
        if ink_upto(ink, main) != ink_upto(before, main) {
            assert(ink[n] is Some && (ink[n]->Some_0).file == main);
        }
        if k < n {
            assert(before[k] == ink[k]);
        }
    } else {
        if k < n {
            assert(before[k] == ink[k]);
        }
        assert(ink[n] is Some && (ink[n]->Some_0).file == main);
    }
}

/// Without ink from the document there is nothing it comes from.
pub proof fn lemma_no_ink(ink: Seq<Option<Place>>, main: usize)
    ensures
        (forall|i: int| 0 <= i < ink.len() ==> !(#[trigger] ink[i] matches Some(p) && p.file == main))
            ==> ink_from(ink, main) is None && ink_upto(ink, main) is None,
    decreases ink.len(),
{
    if ink.len() > 0 {
        lemma_no_ink(ink.drop_last(), main);
        if forall|i: int| 0 <= i < ink.len() ==> !(#[trigger] ink[i] matches Some(p) && p.file == main) {
            let n = ink.len() - 1;
            assert(!(ink[n] matches Some(p) && p.file == main));
            assert forall|i: int| 0 <= i < ink.drop_last().len() implies !(#[trigger] ink.drop_last()[i]
                matches Some(p) && p.file == main) by {
                assert(ink[i] == ink.drop_last()[i]);
            }
        }
    }
}

/// The call that a drawing is of is the innermost one around its ink; where no call is, the
/// innermost expression that is no container.
pub proof fn the_innermost_call_is_meant(nodes: Seq<(int, Seq<char>, int, int)>, k: int)
    requires
        0 <= k < nodes.len(),
    ensures
        nodes[k].1 == "FuncCall"@ && (forall|i: int|
            k < i < nodes.len() ==> (#[trigger] nodes[i]).1 != "FuncCall"@) ==> last_call(nodes) == Some(
            (nodes[k].2, nodes[k].3),
        ),
        (forall|i: int| 0 <= i < nodes.len() ==> (#[trigger] nodes[i]).1 != "FuncCall"@) ==> last_call(
            nodes,
        ) is None,
    decreases nodes.len(),
{
    let n = nodes.len() - 1;
    let before = nodes.drop_last();
    if nodes[n].1 != "FuncCall"@ {
        if k < n {
            the_innermost_call_is_meant(before, k);
        }
        if forall|i: int| 0 <= i < nodes.len() ==> (#[trigger] nodes[i]).1 != "FuncCall"@ {
            assert forall|i: int| 0 <= i < before.len() implies (#[trigger] before[i]).1 != "FuncCall"@ by {
                assert(nodes[i].1 != "FuncCall"@);
            }
            if n > 0 {
                the_innermost_call_is_meant(before, 0);
            }
        }
    }
}

/// Every node that is looked at for a drawing reaches around all its ink, each inside the one
/// before.
pub proof fn what_is_looked_at_holds_the_ink(
    tree: Seq<(int, Seq<char>, int, int)>,
    at: int,
    depth: int,
    lo: int,
    hi: int,
    i: int,
)
    requires
        0 <= i < holding(tree, at, depth, lo, hi).len(),
    ensures
        holding(tree, at, depth, lo, hi)[i].2 <= lo,
        hi <= holding(tree, at, depth, lo, hi)[i].3,
        holding(tree, at, depth, lo, hi)[i].0 == depth + 1 + i,
    decreases tree.len() - at,
{
    let all = holding(tree, at, depth, lo, hi);
    if tree[at].0 == depth + 1 && tree[at].2 <= lo && hi <= tree[at].3 {
        let rest = holding(tree, at + 1, depth + 1, lo, hi);
        if i > 0 {
            assert(all[i] == rest[i - 1]);
            what_is_looked_at_holds_the_ink(tree, at + 1, depth + 1, lo, hi, i - 1);
        }
    } else {
        what_is_looked_at_holds_the_ink(tree, at + 1, depth, lo, hi, i);
    }
}

} // verus!

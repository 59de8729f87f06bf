//! Carrying an edit over to a file that has moved on.
//!
//! An edit is worked out against the source as it was compiled. When the file
//! on disk says the same, the edit is made there as it is; when it does not,
//! the place is looked for again by the text around it.

use std::ops::Range;

use vstd::prelude::*;
use vstd::string::*;
use vstd::utf8::*;

use crate::bytes::{
    boundary, boundary_from, boundary_upto, byte_len, count_hits, get, get_part, hits,
    lemma_boundary_inside, lemma_boundary_skip, lemma_boundary_take, lemma_encoded, lemma_hit_once,
    lemma_match_on_boundaries, next_boundary, prev_boundary, splice, spliced, stands_once, Hits,
};
use crate::text::{lemma_find_from, same, stands_at};

verus! {

/// How much text around an edit is tried as its context, longest first.
pub open spec fn windows() -> Seq<int> {
    seq![48, 24, 12]
}

/// The shortest context that is worth looking for.
pub const SHORTEST_CONTEXT: usize = 4;

/// Up to `len` bytes of text before a place, whole characters only.
pub open spec fn context_before(source: Seq<char>, at: int, len: int) -> Option<Seq<u8>> {
    let from = if at > len {
        at - len
    } else {
        0
    };
    get_part(source, boundary_from(source, from), at)
}

/// Up to `len` bytes of text after a place, whole characters only.
pub open spec fn context_after(source: Seq<char>, at: int, len: int) -> Option<Seq<u8>> {
    let n = encode_utf8(source).len();
    let to = if at + len < n {
        at + len
    } else {
        n as int
    };
    get_part(source, at, boundary_upto(source, to))
}

/// Where an insertion goes by the text before it: right after the one place
/// that text stands. A window that stands nowhere gives way to a shorter one;
/// one that stands in several places ends the search.
pub open spec fn place_by_before(disk: Seq<u8>, source: Seq<char>, at: int, window: int) -> Option<
    int,
>
    decreases 3 - window,
{
    if window < 0 || window >= 3 {
        None
    } else {
        match context_before(source, at, windows()[window]) {
            Some(context) => if context.len() < SHORTEST_CONTEXT {
                place_by_before(disk, source, at, window + 1)
            } else {
                match hits(disk, context) {
                    None => place_by_before(disk, source, at, window + 1),
                    Some(Some(i)) => Some(i + context.len()),
                    Some(None) => None,
                }
            },
            None => place_by_before(disk, source, at, window + 1),
        }
    }
}

/// Where an insertion goes by the text after it: right before the one place
/// that text stands.
pub open spec fn place_by_after(disk: Seq<u8>, source: Seq<char>, at: int, window: int) -> Option<
    int,
>
    decreases 3 - window,
{
    if window < 0 || window >= 3 {
        None
    } else {
        match context_after(source, at, windows()[window]) {
            Some(context) => if context.len() < SHORTEST_CONTEXT {
                place_by_after(disk, source, at, window + 1)
            } else {
                match hits(disk, context) {
                    None => place_by_after(disk, source, at, window + 1),
                    Some(Some(i)) => Some(i),
                    Some(None) => None,
                }
            },
            None => place_by_after(disk, source, at, window + 1),
        }
    }
}

/// Where an insertion goes: by the text before it, or failing that by the text
/// after it.
pub open spec fn insertion_place(disk: Seq<u8>, source: Seq<char>, start: int, end: int) -> Option<
    int,
> {
    match place_by_before(disk, source, start, 0) {
        Some(i) => Some(i),
        None => place_by_after(disk, source, end, 0),
    }
}

/// The file with the edit in it, where there is one place the edit can mean.
pub open spec fn patched(
    disk: Seq<u8>,
    source: Seq<char>,
    start: int,
    end: int,
    insert: Seq<u8>,
) -> Option<Seq<u8>> {
    if insert.len() == 0 {
        match get_part(source, start, end) {
            Some(gone) => match hits(disk, gone) {
                Some(Some(i)) => Some(spliced(disk, i, i + gone.len(), seq![])),
                _ => None,
            },
            None => None,
        }
    } else {
        match insertion_place(disk, source, start, end) {
            Some(i) => Some(spliced(disk, i, i, insert)),
            None => None,
        }
    }
}

/// The encoding of an optional text.
pub open spec fn opt_bytes(text: Option<String>) -> Option<Seq<u8>> {
    match text {
        Some(text) => Some(encode_utf8(text@)),
        None => None,
    }
}

/// What the tried window lengths are.
fn window_of(k: usize) -> (r: usize)
    requires
        k < 3,
    ensures
        r == windows()[k as int],
        r <= 48,
{
    if k == 0 {
        48
    } else if k == 1 {
        24
    } else {
        12
    }
}

/// Where an insertion goes by the text before it.
fn find_by_before(disk: &str, source: &str, at: usize) -> (r: Option<usize>)
    ensures
        match r {
            Some(i) => place_by_before(encode_utf8(disk@), source@, at as int, 0) == Some(i as int),
            None => place_by_before(encode_utf8(disk@), source@, at as int, 0) is None,
        },
        r matches Some(i) ==> boundary(disk@, i as int) && i <= encode_utf8(disk@).len(),
{
    if at > byte_len(source) {
        proof {
            reveal_with_fuel(place_by_before, 4);
            lemma_encoded(source@);
            if boundary(source@, at as int) {
                lemma_boundary_inside(encode_utf8(source@), at as int);
            }
        }
        return None;
    }
    let mut k: usize = 0;
    while k < 3
        invariant
            k <= 3,
            at <= encode_utf8(source@).len(),
            place_by_before(encode_utf8(disk@), source@, at as int, 0) == place_by_before(
                encode_utf8(disk@),
                source@,
                at as int,
                k as int,
            ),
        decreases 3 - k,
    {
        let len: usize = window_of(k);
        let from: usize = if at > len {
            at - len
        } else {
            0
        };
        let start: usize = next_boundary(source, from);
        match get(source, start, at) {
            Some(context) => {
                let size: usize = byte_len(context);
                if size >= SHORTEST_CONTEXT {
                    match count_hits(disk, context) {
                        Hits::Once(i) => {
                            let total: usize = byte_len(disk);
                            return Some(i + size);
                        },
                        Hits::Often => {
                            return None;
                        },
                        Hits::Nowhere => {},
                    }
                }
            },
            None => {},
        }
        k = k + 1;
    }
    None
}

/// Where an insertion goes by the text after it.
fn find_by_after(disk: &str, source: &str, at: usize) -> (r: Option<usize>)
    ensures
        match r {
            Some(i) => place_by_after(encode_utf8(disk@), source@, at as int, 0) == Some(i as int),
            None => place_by_after(encode_utf8(disk@), source@, at as int, 0) is None,
        },
        r matches Some(i) ==> boundary(disk@, i as int) && i <= encode_utf8(disk@).len(),
{
    let mut k: usize = 0;
    while k < 3
        invariant
            k <= 3,
            place_by_after(encode_utf8(disk@), source@, at as int, 0) == place_by_after(
                encode_utf8(disk@),
                source@,
                at as int,
                k as int,
            ),
        decreases 3 - k,
    {
        let len: usize = window_of(k);
        let total: usize = byte_len(source);
        let to: usize = if at < total && len < total - at {
            at + len
        } else {
            total
        };
        let end: usize = prev_boundary(source, to);
        match get(source, at, end) {
            Some(context) => {
                let size: usize = byte_len(context);
                if size >= SHORTEST_CONTEXT {
                    match count_hits(disk, context) {
                        Hits::Once(i) => {
                            return Some(i);
                        },
                        Hits::Often => {
                            return None;
                        },
                        Hits::Nowhere => {},
                    }
                }
            },
            None => {},
        }
        k = k + 1;
    }
    None
}

/// Makes an edit in a file that differs from the source it was worked out
/// against, where the file leaves no doubt about the place.
///
/// A deletion looks for the text it deletes; an insertion looks for the text
/// around it. Nothing is done where more than one place would do.
pub fn best_effort_patch(disk: &str, source_text: &str, range: Range<usize>, insert: &str) -> (r:
    Option<String>)
    ensures
        opt_bytes(r) == patched(
            encode_utf8(disk@),
            source_text@,
            range.start as int,
            range.end as int,
            encode_utf8(insert@),
        ),
{
    proof {
        lemma_encoded(disk@);
        lemma_nothing_encoded(insert@);
    }
    if insert.is_empty() {
        return match get(source_text, range.start, range.end) {
            Some(gone) => {
                match count_hits(disk, gone) {
                    Hits::Once(i) => {
                        let total: usize = byte_len(disk);
                        let size: usize = byte_len(gone);
                        assert(encode_utf8(""@) =~= Seq::<u8>::empty()) by {
                            reveal_strlit("");
                            lemma_nothing_encoded(""@);
                        }
                        Some(splice(disk, i, i + size, ""))
                    },
                    _ => None,
                }
            },
            None => None,
        };
    }
    match find_by_before(disk, source_text, range.start) {
        Some(i) => Some(splice(disk, i, i, insert)),
        None => match find_by_after(disk, source_text, range.end) {
            Some(i) => Some(splice(disk, i, i, insert)),
            None => None,
        },
    }
}

/// A text is empty when its encoding is.
pub proof fn lemma_nothing_encoded(text: Seq<char>)
    ensures
        encode_utf8(text).len() == 0 <==> text.len() == 0,
{
    if text.len() > 0 {
        encode_utf8_first_scalar(text);
    }
}

/// What a file becomes, and whether an editor's buffer has to be edited too.
///
/// `disk` is what the file says, or nothing when it cannot be read. A file that
/// says what was compiled takes the edit as it is; any other takes the best
/// effort, and the buffer stays the authoritative copy.
pub fn disk_edit(disk: Option<&str>, source_text: &str, range: Range<usize>, insert: &str) -> (r: (
    Option<String>,
    bool,
))
    requires
        disk matches Some(disk) ==> disk@ == source_text@ ==> {
            &&& range.start <= range.end
            &&& boundary(source_text@, range.start as int)
            &&& boundary(source_text@, range.end as int)
        },
    ensures
        match disk {
            None => r.0 is None && r.1,
            Some(disk) => if disk@ == source_text@ {
                &&& opt_bytes(r.0) == Some(
                    spliced(
                        encode_utf8(disk@),
                        range.start as int,
                        range.end as int,
                        encode_utf8(insert@),
                    ),
                )
                &&& !r.1
            } else {
                &&& opt_bytes(r.0) == patched(
                    encode_utf8(disk@),
                    source_text@,
                    range.start as int,
                    range.end as int,
                    encode_utf8(insert@),
                )
                &&& r.1
            },
        },
{
    match disk {
        None => (None, true),
        Some(disk) => {
            if same(disk, source_text) {
                (Some(splice(disk, range.start, range.end, insert)), false)
            } else {
                (best_effort_patch(disk, source_text, range, insert), true)
            }
        },
    }
}

/// An insertion only inserts: the file before is the file after without what
/// was put in, at a place where a character begins.
pub proof fn insertion_only_inserts(
    disk: Seq<char>,
    source: Seq<char>,
    start: int,
    end: int,
    insert: Seq<u8>,
)
    requires
        insert.len() > 0,
        patched(encode_utf8(disk), source, start, end, insert) is Some,
    ensures
        exists|i: int|
            #![trigger boundary(disk, i)]
            boundary(disk, i) && patched(encode_utf8(disk), source, start, end, insert) == Some(
                spliced(encode_utf8(disk), i, i, insert),
            ),
{
    let bytes = encode_utf8(disk);
    lemma_encoded(disk);
    lemma_place_by_before(disk, source, start, 0);
    lemma_place_by_after(disk, source, end, 0);
    let i = insertion_place(bytes, source, start, end)->0;
    assert(boundary(disk, i));
}

/// Whether an edit goes to the file by a text that stands there once: what is deleted, or
/// what stands before the insertion, or what stands after it.
pub open spec fn patched_by(
    disk: Seq<u8>,
    source: Seq<char>,
    start: int,
    end: int,
    insert: Seq<u8>,
    context: Seq<u8>,
    at: int,
) -> bool {
    let result = patched(disk, source, start, end, insert);
    let after = at + context.len();
    &&& stands_once(disk, context, at)
    &&& {
        ||| insert.len() == 0 && get_part(source, start, end) == Some(context) && result == Some(
            spliced(disk, at, after, seq![]),
        )
        ||| insert.len() > 0 && result == Some(spliced(disk, after, after, insert)) && exists|
            w: int,
        |
            0 <= w < 3 && context_before(source, start, #[trigger] windows()[w]) == Some(context)
        ||| insert.len() > 0 && result == Some(spliced(disk, at, at, insert)) && exists|w: int|
            0 <= w < 3 && context_after(source, end, #[trigger] windows()[w]) == Some(context)
    }
}

/// The text before an insertion that it goes by.
proof fn lemma_by_before(disk: Seq<u8>, source: Seq<char>, at: int, window: int) -> (r: Seq<u8>)
    requires
        0 <= window,
    ensures
        place_by_before(disk, source, at, window) matches Some(i) ==> {
            &&& stands_once(disk, r, i - r.len())
            &&& exists|w: int|
                0 <= w < 3 && context_before(source, at, #[trigger] windows()[w]) == Some(r)
        },
    decreases 3 - window,
{
    if window < 3 {
        let rest = lemma_by_before(disk, source, at, window + 1);
        match context_before(source, at, windows()[window]) {
            Some(context) => {
                lemma_hit_once(disk, context);
                if context.len() < SHORTEST_CONTEXT || hits(disk, context) is None {
                    rest
                } else {
                    context
                }
            },
            None => rest,
        }
    } else {
        seq![]
    }
}

/// The text after an insertion that it goes by.
proof fn lemma_by_after(disk: Seq<u8>, source: Seq<char>, at: int, window: int) -> (r: Seq<u8>)
    requires
        0 <= window,
    ensures
        place_by_after(disk, source, at, window) matches Some(i) ==> {
            &&& stands_once(disk, r, i)
            &&& exists|w: int|
                0 <= w < 3 && context_after(source, at, #[trigger] windows()[w]) == Some(r)
        },
    decreases 3 - window,
{
    if window < 3 {
        let rest = lemma_by_after(disk, source, at, window + 1);
        match context_after(source, at, windows()[window]) {
            Some(context) => {
                lemma_hit_once(disk, context);
                if context.len() < SHORTEST_CONTEXT || hits(disk, context) is None {
                    rest
                } else {
                    context
                }
            },
            None => rest,
        }
    } else {
        seq![]
    }
}

/// A place that could be meant in two ways is never patched: a file is patched by a text that
/// stands in it once, and nowhere else in it, not even across itself.
pub proof fn no_ambiguous_place_is_patched(
    disk: Seq<u8>,
    source: Seq<char>,
    start: int,
    end: int,
    insert: Seq<u8>,
)
    requires
        patched(disk, source, start, end, insert) is Some,
    ensures
        exists|context: Seq<u8>, at: int| #[trigger]
            patched_by(disk, source, start, end, insert, context, at),
{
    if insert.len() == 0 {
        let gone = get_part(source, start, end)->0;
        lemma_hit_once(disk, gone);
        let at = hits(disk, gone)->0->0;
        assert(patched_by(disk, source, start, end, insert, gone, at));
    } else {
        let i = insertion_place(disk, source, start, end)->0;
        if place_by_before(disk, source, start, 0) is Some {
            let context = lemma_by_before(disk, source, start, 0);
            assert(patched_by(disk, source, start, end, insert, context, i - context.len()));
        } else {
            let context = lemma_by_after(disk, source, end, 0);
            assert(patched_by(disk, source, start, end, insert, context, i));
        }
    }
}

/// The place found by the text before it is one where a character begins.
proof fn lemma_place_by_before(disk: Seq<char>, source: Seq<char>, at: int, window: int)
    ensures
        place_by_before(encode_utf8(disk), source, at, window) matches Some(i) ==> boundary(
            disk,
            i,
        ),
    decreases 3 - window,
{
    if 0 <= window < 3 {
        lemma_place_by_before(disk, source, at, window + 1);
        match context_before(source, at, windows()[window]) {
            Some(context) => {
                lemma_hit_on_boundaries(disk, source, context);
            },
            None => {},
        }
    }
}

/// The place found by the text after it is one where a character begins.
proof fn lemma_place_by_after(disk: Seq<char>, source: Seq<char>, at: int, window: int)
    ensures
        place_by_after(encode_utf8(disk), source, at, window) matches Some(i) ==> boundary(
            disk,
            i,
        ),
    decreases 3 - window,
{
    if 0 <= window < 3 {
        lemma_place_by_after(disk, source, at, window + 1);
        match context_after(source, at, windows()[window]) {
            Some(context) => {
                lemma_hit_on_boundaries(disk, source, context);
            },
            None => {},
        }
    }
}

/// The one place a part of a text stands in another is cut on boundaries.
proof fn lemma_hit_on_boundaries(disk: Seq<char>, source: Seq<char>, part: Seq<u8>)
    requires
        exists|from: int, to: int| #[trigger] get_part(source, from, to) == Some(part),
    ensures
        part.len() > 0 ==> (hits(encode_utf8(disk), part) matches Some(Some(i)) ==> boundary(
            disk,
            i,
        ) && boundary(disk, i + part.len())),
{
    let (from, to): (int, int) = choose|from: int, to: int| #[trigger]
        get_part(source, from, to) == Some(part);
    let bytes = encode_utf8(source);
    lemma_encoded(source);
    lemma_encoded(disk);
    lemma_boundary_inside(bytes, from);
    lemma_boundary_inside(bytes, to);
    lemma_boundary_take(bytes, from, to);
    lemma_boundary_skip(bytes.subrange(0, to), from, to);
    assert(bytes.subrange(0, to).subrange(from, to) =~= part);
    assert(valid_utf8(part));
    if part.len() > 0 {
        lemma_find_from(encode_utf8(disk), part, 0);
        match hits(encode_utf8(disk), part) {
            Some(Some(i)) => {
                lemma_match_on_boundaries(encode_utf8(disk), part, i);
            },
            _ => {},
        }
    }
}

/// Where something stands once is known.
proof fn lemma_once_hit(hay: Seq<u8>, needle: Seq<u8>, at: int)
    requires
        needle.len() > 0,
        stands_once(hay, needle, at),
    ensures
        hits(hay, needle) == Some(Some(at)),
{
    lemma_find_from(hay, needle, 0);
    lemma_find_from(hay, needle, at + 1);
}

/// What is inserted goes after what stood before it in the source, when that stands in the file
/// exactly once.
pub proof fn an_insertion_follows_its_context(
    disk: Seq<u8>,
    source: Seq<char>,
    start: int,
    end: int,
    insert: Seq<u8>,
    context: Seq<u8>,
    at: int,
)
    requires
        insert.len() > 0,
        context.len() >= 4,
        boundary(source, start),
        boundary_from(source, if start > 48 {
            start - 48
        } else {
            0
        }) <= start,
        boundary(source, boundary_from(source, if start > 48 {
            start - 48
        } else {
            0
        })),
        context == encode_utf8(source).subrange(
            boundary_from(source, if start > 48 {
                start - 48
            } else {
                0
            }),
            start,
        ),
        stands_once(disk, context, at),
    ensures
        patched(disk, source, start, end, insert) == Some(
            disk.subrange(0, at + context.len()) + insert + disk.subrange(
                at + context.len(),
                disk.len() as int,
            ),
        ),
{
    lemma_once_hit(disk, context, at);
    assert(windows()[0] == 48);
    assert(context_before(source, start, 48) == Some(context));
}

/// What is taken out of the source is taken out of the file, when it stands there exactly once; when
/// it does not stand there, or more than once, the file is left alone.
pub proof fn a_removal_takes_what_stands_once(
    disk: Seq<u8>,
    source: Seq<char>,
    start: int,
    end: int,
    at: int,
    other: int,
)
    requires
        boundary(source, start),
        boundary(source, end),
        0 <= start < end <= encode_utf8(source).len(),
    ensures
        ({
            let gone = encode_utf8(source).subrange(start, end);
            &&& stands_once(disk, gone, at) ==> patched(disk, source, start, end, seq![]) == Some(
                disk.subrange(0, at) + disk.subrange(at + gone.len(), disk.len() as int),
            )
            &&& at != other && stands_at(disk, gone, at) && stands_at(disk, gone, other) ==> patched(
                disk,
                source,
                start,
                end,
                seq![],
            ) is None
            &&& (forall|i: int| !stands_at(disk, gone, i)) ==> patched(disk, source, start, end, seq![])
                is None
        }),
{
    let gone = encode_utf8(source).subrange(start, end);
    lemma_hit_once(disk, gone);
    lemma_find_from(disk, gone, 0);
    if stands_once(disk, gone, at) {
        lemma_once_hit(disk, gone, at);
        assert(spliced(disk, at, at + gone.len(), seq![]) =~= disk.subrange(0, at) + disk.subrange(
            at + gone.len(),
            disk.len() as int,
        ));
    }
}

} // verus!

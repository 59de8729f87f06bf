//! Text, as the bytes that encode it.
//!
//! A place in a document is a byte offset, and an offset means something only
//! where a character begins. What is here finds offsets, cuts text at them and
//! says which of them are places where a character begins.

use vstd::prelude::*;
use vstd::slice::slice_subrange;
use vstd::string::*;
use vstd::utf8::*;

use crate::text::{find_from, lemma_find_from, lemma_find_from_skip, rfind_upto, stands_at};

verus! {

// --------------------------------------------------------------- boundaries

/// Whether a character of this text begins at a byte offset, or the text ends
/// there.
pub open spec fn boundary(text: Seq<char>, at: int) -> bool {
    is_char_boundary(encode_utf8(text), at)
}

/// The encoding of a text is valid, and begins and ends on a boundary.
pub proof fn lemma_encoded(text: Seq<char>)
    ensures
        valid_utf8(encode_utf8(text)),
        boundary(text, 0),
        boundary(text, encode_utf8(text).len() as int),
{
    encode_utf8_valid_utf8(text);
    is_char_boundary_start_end_of_seq(encode_utf8(text));
}

/// A boundary is inside the text or at its end.
pub proof fn lemma_boundary_inside(bytes: Seq<u8>, at: int)
    requires
        valid_utf8(bytes),
        is_char_boundary(bytes, at),
    ensures
        0 <= at <= bytes.len(),
    decreases bytes.len(),
{
    if at != 0 {
        if at < 0 || bytes.len() < at {
            assert(false);
        }
    }
}

/// The text one encoding stands for is the only one it stands for.
pub proof fn lemma_same_bytes(a: Seq<char>, b: Seq<char>)
    requires
        encode_utf8(a) == encode_utf8(b),
    ensures
        a == b,
{
    encode_utf8_decode_utf8(a);
    encode_utf8_decode_utf8(b);
}

/// Two texts encoded one after the other are the two encodings one after the
/// other.
pub proof fn lemma_encode_concat(a: Seq<char>, b: Seq<char>)
    ensures
        encode_utf8(a + b) == encode_utf8(a) + encode_utf8(b),
    decreases a.len(),
{
    if a.len() == 0 {
        assert(a + b =~= b);
        assert(encode_utf8(a) + encode_utf8(b) =~= encode_utf8(b));
    } else {
        lemma_encode_concat(a.drop_first(), b);
        assert((a + b).drop_first() =~= a.drop_first() + b);
        assert((a + b)[0] == a[0]);
        assert(encode_utf8(a + b) =~= encode_utf8(a) + encode_utf8(b));
    }
}

/// An ASCII byte is a character by itself: one begins there, and another right
/// after it.
pub proof fn lemma_ascii_alone(bytes: Seq<u8>, at: int)
    requires
        valid_utf8(bytes),
        0 <= at < bytes.len(),
        bytes[at] < 0x80,
    ensures
        is_char_boundary(bytes, at),
        is_char_boundary(bytes, at + 1),
    decreases bytes.len(),
{
    let first = length_of_first_scalar(bytes);
    if at < first {
        reveal_with_fuel(is_char_boundary, 3);
        assert(at == 0);
        assert(first == 1);
    } else {
        let rest = pop_first_scalar(bytes);
        assert(rest[at - first] == bytes[at]);
        lemma_ascii_alone(rest, at - first);
    }
}

/// A boundary of a text is one of the part of it that reaches at least as far.
pub proof fn lemma_boundary_take(bytes: Seq<u8>, at: int, end: int)
    requires
        valid_utf8(bytes),
        is_char_boundary(bytes, at),
        is_char_boundary(bytes, end),
        0 <= at <= end <= bytes.len(),
    ensures
        valid_utf8(bytes.subrange(0, end)),
        is_char_boundary(bytes.subrange(0, end), at),
{
    let part = bytes.subrange(0, end);
    valid_utf8_split(bytes, end);
    if at == end {
        is_char_boundary_start_end_of_seq(part);
    } else {
        is_char_boundary_iff_not_is_continuation_byte(bytes, at);
        is_char_boundary_iff_not_is_continuation_byte(part, at);
        assert(part[at] == bytes[at]);
    }
}

/// A boundary of a text is one of the part of it that begins no later, counted
/// from where that begins; and the other way round.
pub proof fn lemma_boundary_skip(bytes: Seq<u8>, from: int, at: int)
    requires
        valid_utf8(bytes),
        is_char_boundary(bytes, from),
        0 <= from <= at <= bytes.len(),
    ensures
        valid_utf8(bytes.subrange(from, bytes.len() as int)),
        is_char_boundary(bytes.subrange(from, bytes.len() as int), at - from) == is_char_boundary(
            bytes,
            at,
        ),
{
    let part = bytes.subrange(from, bytes.len() as int);
    valid_utf8_split(bytes, from);
    if at == bytes.len() {
        is_char_boundary_start_end_of_seq(part);
        is_char_boundary_start_end_of_seq(bytes);
    } else {
        is_char_boundary_iff_not_is_continuation_byte(bytes, at);
        is_char_boundary_iff_not_is_continuation_byte(part, at - from);
        assert(part[at - from] == bytes[at]);
    }
}

/// Where one text stands in another, its characters are characters of the
/// other: it begins on a boundary and ends on one.
pub proof fn lemma_match_on_boundaries(hay: Seq<u8>, needle: Seq<u8>, at: int)
    requires
        valid_utf8(hay),
        valid_utf8(needle),
        0 < needle.len(),
        stands_at(hay, needle, at),
    ensures
        is_char_boundary(hay, at),
        is_char_boundary(hay, at + needle.len()),
    decreases needle.len(),
{
    let part = hay.subrange(at, at + needle.len());
    assert(part[0] == hay[at]);
    is_char_boundary_iff_not_is_continuation_byte(hay, at);
    is_char_boundary_iff_not_is_continuation_byte(needle, 0);
    is_char_boundary_start_end_of_seq(needle);
    lemma_boundary_skip(hay, at, at);
    let tail = hay.subrange(at, hay.len() as int);
    let n = length_of_first_scalar(needle);
    assert(tail[0] == needle[0]);
    assert(n == length_of_first_scalar(tail));
    assert(is_char_boundary(tail, n)) by {
        reveal_with_fuel(is_char_boundary, 2);
    }
    lemma_boundary_skip(hay, at, at + n);
    let rest = pop_first_scalar(needle);
    if rest.len() > 0 {
        assert(hay.subrange(at + n, at + n + rest.len()) =~= rest) by {
            assert forall|i: int| 0 <= i < rest.len() implies hay[at + n + i] == rest[i] by {
                assert(part[n + i] == needle[n + i]);
            }
        }
        lemma_match_on_boundaries(hay, rest, at + n);
    }
}

/// A boundary of one text is one of that text with another after it.
pub proof fn lemma_boundary_concat(a: Seq<u8>, b: Seq<u8>, at: int)
    requires
        valid_utf8(a),
        valid_utf8(b),
        is_char_boundary(a, at),
    ensures
        valid_utf8(a + b),
        is_char_boundary(a + b, at),
{
    valid_utf8_concat(a, b);
    lemma_boundary_inside(a, at);
    let joined = a + b;
    if at < a.len() {
        is_char_boundary_iff_not_is_continuation_byte(a, at);
        is_char_boundary_iff_not_is_continuation_byte(joined, at);
        assert(joined[at] == a[at]);
    } else if b.len() == 0 {
        is_char_boundary_start_end_of_seq(joined);
    } else {
        is_char_boundary_start_end_of_seq(b);
        is_char_boundary_iff_not_is_continuation_byte(b, 0);
        is_char_boundary_iff_not_is_continuation_byte(joined, at);
        assert(joined[at] == b[0]);
    }
}

/// What stands before a change keeps its boundaries.
pub proof fn lemma_boundary_spliced(bytes: Seq<u8>, from: int, to: int, insert: Seq<u8>, at: int)
    requires
        valid_utf8(bytes),
        valid_utf8(insert),
        is_char_boundary(bytes, from),
        is_char_boundary(bytes, to),
        is_char_boundary(bytes, at),
        at <= from <= to,
    ensures
        valid_utf8(spliced(bytes, from, to, insert)),
        is_char_boundary(spliced(bytes, from, to, insert), at),
{
    lemma_boundary_inside(bytes, at);
    lemma_boundary_inside(bytes, to);
    lemma_boundary_take(bytes, at, from);
    valid_utf8_split(bytes, to);
    let head = bytes.subrange(0, from);
    let tail = bytes.subrange(to, bytes.len() as int);
    lemma_boundary_concat(head, insert, at);
    lemma_boundary_concat(head + insert, tail, at);
}

// ------------------------------------------------------------------ cutting

/// How many bytes a text takes.
pub fn byte_len(text: &str) -> (r: usize)
    ensures
        r == encode_utf8(text@).len(),
{
    text.as_bytes().len()
}

/// The characters encoded between two offsets of a text.
pub open spec fn chars_between(text: Seq<char>, from: int, to: int) -> Seq<char> {
    decode_utf8(encode_utf8(text).subrange(from, to))
}

/// The part of a text between two offsets.
pub fn slice<'a>(text: &'a str, from: usize, to: usize) -> (r: &'a str)
    requires
        from <= to,
        boundary(text@, from as int),
        boundary(text@, to as int),
    ensures
        encode_utf8(r@) == encode_utf8(text@).subrange(from as int, to as int),
        r@ == chars_between(text@, from as int, to as int),
{
    proof {
        lemma_encoded(text@);
        lemma_boundary_inside(encode_utf8(text@), to as int);
        lemma_boundary_take(encode_utf8(text@), from as int, to as int);
    }
    let (head, _) = text.split_at(to);
    let (_, part) = head.split_at(from);
    assert(part.spec_bytes() =~= text.spec_bytes().subrange(from as int, to as int));
    proof {
        encode_utf8_decode_utf8(part@);
    }
    part
}

/// The part of a text between two offsets, where both are places to cut it at.
pub open spec fn get_part(text: Seq<char>, from: int, to: int) -> Option<Seq<u8>> {
    if from <= to && boundary(text, from) && boundary(text, to) {
        Some(encode_utf8(text).subrange(from, to))
    } else {
        None
    }
}

/// The part of a text between two offsets, where both are places to cut it at.
pub fn get<'a>(text: &'a str, from: usize, to: usize) -> (r: Option<&'a str>)
    ensures
        match r {
            Some(part) => get_part(text@, from as int, to as int) == Some(encode_utf8(part@)),
            None => get_part(text@, from as int, to as int) is None,
        },
        r matches Some(part) ==> part@ == chars_between(text@, from as int, to as int),
{
    if from <= to && text.is_char_boundary(from) && text.is_char_boundary(to) {
        Some(slice(text, from, to))
    } else {
        None
    }
}

/// A text with what stands between two offsets replaced.
pub open spec fn spliced(bytes: Seq<u8>, from: int, to: int, insert: Seq<u8>) -> Seq<u8> {
    bytes.subrange(0, from) + insert + bytes.subrange(to, bytes.len() as int)
}

/// A text with what stands between two offsets replaced.
pub fn splice(text: &str, from: usize, to: usize, insert: &str) -> (r: String)
    requires
        from <= to,
        boundary(text@, from as int),
        boundary(text@, to as int),
    ensures
        encode_utf8(r@) == spliced(
            encode_utf8(text@),
            from as int,
            to as int,
            encode_utf8(insert@),
        ),
{
    proof {
        lemma_encoded(text@);
        lemma_boundary_inside(encode_utf8(text@), from as int);
        lemma_boundary_inside(encode_utf8(text@), to as int);
    }
    let end: usize = byte_len(text);
    let head: &str = slice(text, 0, from);
    let tail: &str = slice(text, to, end);
    let mut out: String = head.to_owned();
    out.append(insert);
    proof {
        lemma_encode_concat(head@, insert@);
        lemma_encode_concat(head@ + insert@, tail@);
    }
    out.append(tail);
    out
}

// ---------------------------------------------------------------- searching

/// Whether `needle` stands in `hay` at `at`.
pub fn stands_bytes(hay: &[u8], needle: &[u8], at: usize) -> (r: bool)
    ensures
        r == stands_at(hay@, needle@, at as int),
{
    if needle.len() > hay.len() || at > hay.len() - needle.len() {
        return false;
    }
    let mut i: usize = 0;
    while i < needle.len()
        invariant
            i <= needle@.len(),
            needle@.len() <= hay@.len() <= usize::MAX,
            at <= hay@.len() - needle@.len(),
            forall|k: int| 0 <= k < i ==> hay@[at + k] == needle@[k],
        decreases needle@.len() - i,
    {
        if hay[at + i] != needle[i] {
            assert(hay@.subrange(at as int, at + needle@.len())[i as int] != needle@[i as int]);
            return false;
        }
        i = i + 1;
    }
    assert(hay@.subrange(at as int, at + needle@.len()) =~= needle@);
    true
}

/// The first place at or after `from` where `needle` stands in `hay`.
pub fn find_bytes(hay: &[u8], needle: &[u8], from: usize) -> (r: Option<usize>)
    requires
        0 < needle@.len(),
    ensures
        match r {
            Some(at) => find_from(hay@, needle@, from as int) == Some(at as int),
            None => find_from(hay@, needle@, from as int) is None,
        },
        r matches Some(at) ==> {
            &&& from <= at
            &&& at + needle@.len() <= hay@.len()
            &&& stands_at(hay@, needle@, at as int)
        },
{
    if needle.len() > hay.len() {
        return None;
    }
    let last: usize = hay.len() - needle.len();
    let mut i: usize = from;
    proof {
        lemma_find_from(hay@, needle@, from as int);
    }
    while i <= last
        invariant
            0 < needle@.len() <= hay@.len() <= usize::MAX,
            last == hay@.len() - needle@.len(),
            from <= i,
            i <= last + 1 || i == from,
            forall|k: int| from <= k < i ==> !stands_at(hay@, needle@, k),
        decreases last + 1 - i,
    {
        if stands_bytes(hay, needle, i) {
            proof {
                lemma_find_from_skip(hay@, needle@, from as int, i as int);
            }
            return Some(i);
        }
        i = i + 1;
    }
    proof {
        lemma_find_from_skip(hay@, needle@, from as int, i as int);
    }
    None
}

/// The last place where `needle` stands in `hay` and ends at or before `end`.
pub fn rfind_bytes(hay: &[u8], needle: &[u8], end: usize) -> (r: Option<usize>)
    requires
        0 < needle@.len(),
        end <= hay@.len(),
    ensures
        match r {
            Some(at) => rfind_upto(hay@, needle@, end - needle@.len()) == Some(at as int),
            None => rfind_upto(hay@, needle@, end - needle@.len()) is None,
        },
        r matches Some(at) ==> {
            &&& at + needle@.len() <= end
            &&& stands_at(hay@, needle@, at as int)
        },
{
    if needle.len() > end {
        return None;
    }
    let mut i: usize = end - needle.len();
    loop
        invariant
            end <= hay@.len(),
            0 < needle@.len() <= end,
            i <= end - needle@.len(),
            rfind_upto(hay@, needle@, end - needle@.len()) == rfind_upto(hay@, needle@, i as int),
        decreases i,
    {
        if stands_bytes(hay, needle, i) {
            return Some(i);
        }
        if i == 0 {
            assert(rfind_upto(hay@, needle@, -1) is None);
            return None;
        }
        i = i - 1;
    }
}

/// How often one text stands in another, as far as it matters: not at all, in
/// one place, or in more than one. Places that overlap an earlier one do not
/// count.
pub enum Hits {
    /// Nowhere.
    Nowhere,
    /// In one place.
    Once(usize),
    /// In more than one place.
    Often,
}

/// Where `needle` stands in `hay`, as far as it matters.
pub open spec fn hits(hay: Seq<u8>, needle: Seq<u8>) -> Option<Option<int>> {
    if needle.len() == 0 {
        if hay.len() == 0 {
            Some(Some(0))
        } else {
            Some(None)
        }
    } else {
        match find_from(hay, needle, 0) {
            None => None,
            Some(at) => match find_from(hay, needle, at + 1) {
                None => Some(Some(at)),
                Some(_) => Some(None),
            },
        }
    }
}

/// Whether `needle` stands in `hay` at one place, and nowhere else.
pub open spec fn stands_once(hay: Seq<u8>, needle: Seq<u8>, at: int) -> bool {
    &&& stands_at(hay, needle, at)
    &&& forall|i: int| stands_at(hay, needle, i) ==> i == at
}

/// What is said to stand once does.
pub proof fn lemma_hit_once(hay: Seq<u8>, needle: Seq<u8>)
    ensures
        hits(hay, needle) matches Some(Some(at)) ==> stands_once(hay, needle, at),
{
    if needle.len() == 0 {
        assert(hay.subrange(0, 0) =~= needle);
    } else {
        lemma_find_from(hay, needle, 0);
        if let Some(at) = find_from(hay, needle, 0) {
            lemma_find_from(hay, needle, at + 1);
        }
    }
}

/// Counts where one text stands in another.
pub fn count_hits(hay: &str, needle: &str) -> (r: Hits)
    ensures
        match r {
            Hits::Nowhere => hits(encode_utf8(hay@), encode_utf8(needle@)) is None,
            Hits::Once(at) => hits(encode_utf8(hay@), encode_utf8(needle@)) == Some(
                Some(at as int),
            ),
            Hits::Often => hits(encode_utf8(hay@), encode_utf8(needle@)) == Some(None::<int>),
        },
        r matches Hits::Once(at) ==> {
            &&& at + encode_utf8(needle@).len() <= encode_utf8(hay@).len()
            &&& boundary(hay@, at as int)
            &&& boundary(hay@, at + encode_utf8(needle@).len())
        },
{
    let h: &[u8] = hay.as_bytes();
    let n: &[u8] = needle.as_bytes();
    proof {
        lemma_encoded(hay@);
        lemma_encoded(needle@);
    }
    if n.len() == 0 {
        return if h.len() == 0 {
            Hits::Once(0)
        } else {
            Hits::Often
        };
    }
    match find_bytes(h, n, 0) {
        None => Hits::Nowhere,
        Some(at) => {
            proof {
                lemma_match_on_boundaries(h@, n@, at as int);
            }
            let end: usize = h.len();
            match find_bytes(h, n, at + 1) {
                None => Hits::Once(at),
                Some(_) => Hits::Often,
            }
        },
    }
}

// --------------------------------------------------------- finding boundaries

/// The first boundary at or after an offset.
pub open spec fn boundary_from(text: Seq<char>, at: int) -> int
    decreases encode_utf8(text).len() - at,
{
    if boundary(text, at) || at >= encode_utf8(text).len() {
        at
    } else {
        boundary_from(text, at + 1)
    }
}

/// The last boundary at or before an offset.
pub open spec fn boundary_upto(text: Seq<char>, at: int) -> int
    decreases at,
{
    if boundary(text, at) || at <= 0 {
        at
    } else {
        boundary_upto(text, at - 1)
    }
}

/// The first boundary at or after an offset.
pub fn next_boundary(text: &str, at: usize) -> (r: usize)
    requires
        at <= encode_utf8(text@).len(),
    ensures
        r == boundary_from(text@, at as int),
        at <= r <= encode_utf8(text@).len(),
        boundary(text@, r as int),
{
    let end: usize = byte_len(text);
    proof {
        lemma_encoded(text@);
    }
    let mut i: usize = at;
    while !text.is_char_boundary(i)
        invariant
            at <= i <= end,
            end == encode_utf8(text@).len(),
            boundary(text@, end as int),
            boundary_from(text@, at as int) == boundary_from(text@, i as int),
        decreases end - i,
    {
        i = i + 1;
    }
    i
}

/// The last boundary at or before an offset.
pub fn prev_boundary(text: &str, at: usize) -> (r: usize)
    ensures
        r == boundary_upto(text@, at as int),
        r <= at,
        boundary(text@, r as int),
{
    proof {
        lemma_encoded(text@);
    }
    let mut i: usize = at;
    while !text.is_char_boundary(i)
        invariant
            i <= at,
            boundary(text@, 0),
            boundary_upto(text@, at as int) == boundary_upto(text@, i as int),
        decreases i,
    {
        i = i - 1;
    }
    i
}

} // verus!

//! The paragraph, the sentence and the word around a place in a document, and
//! where a label can be written so that it binds to the text it belongs to.
//!
//! Every place is a byte offset into the source.

use std::ops::Range;

use vstd::prelude::*;
use vstd::string::*;
use vstd::utf8::*;

use crate::bytes::{
    boundary, boundary_from, chars_between, find_bytes, lemma_ascii_alone,
    lemma_boundary_inside, lemma_encoded, next_boundary, rfind_bytes, slice,
};
use crate::scan::{first_in, last_in, lemma_first_in, lemma_last_in};
use crate::text::{
    chars_of, find_from, is_space, is_whitespace, lemma_find_from, lemma_find_from_skip, rfind_upto,
    stands_at,
};

verus! {

// ------------------------------------------------------------- byte classes

/// The newline.
pub const NEWLINE: u8 = 10;

/// ASCII white space: space, tab, newline, form feed, carriage return.
pub open spec fn blank(b: u8) -> bool {
    b == 32 || b == 9 || b == 10 || b == 12 || b == 13
}

/// White space that does not end a line.
pub open spec fn gap(b: u8) -> bool {
    b == 32 || b == 9
}

/// The ASCII digits.
pub open spec fn digit_byte(b: u8) -> bool {
    48 <= b <= 57
}

/// Whether a byte is ASCII white space.
pub fn is_blank(b: u8) -> (r: bool)
    ensures
        r == blank(b),
{
    b == 32 || b == 9 || b == 10 || b == 12 || b == 13
}

/// Whether a byte is white space that does not end a line.
pub fn is_gap(b: u8) -> (r: bool)
    ensures
        r == gap(b),
{
    b == 32 || b == 9
}

// ------------------------------------------------------------- predicates

/// The places whose byte is white space.
pub open spec fn blanks(bytes: Seq<u8>) -> spec_fn(int) -> bool {
    |i: int| blank(bytes[i])
}

/// The places whose byte is not white space.
pub open spec fn inked(bytes: Seq<u8>) -> spec_fn(int) -> bool {
    |i: int| !blank(bytes[i])
}

/// The places whose byte is not white space within a line.
pub open spec fn not_gaps(bytes: Seq<u8>) -> spec_fn(int) -> bool {
    |i: int| !gap(bytes[i])
}

/// The places whose byte is not `b`.
pub open spec fn other_than(bytes: Seq<u8>, b: u8) -> spec_fn(int) -> bool {
    |i: int| bytes[i] != b
}

/// The places whose byte is `b`.
pub open spec fn equal_to(bytes: Seq<u8>, b: u8) -> spec_fn(int) -> bool {
    |i: int| bytes[i] == b
}

/// The places whose byte is not a digit.
pub open spec fn not_digits(bytes: Seq<u8>) -> spec_fn(int) -> bool {
    |i: int| !digit_byte(bytes[i])
}

/// Whether a sentence ends with the byte at a place: a full stop, an
/// exclamation mark or a question mark, with white space or nothing after it.
pub open spec fn ends_sentence(bytes: Seq<u8>, i: int) -> bool {
    &&& bytes[i] == 46 || bytes[i] == 33 || bytes[i] == 63
    &&& i + 1 >= bytes.len() || blank(bytes[i + 1])
}

/// The places a sentence ends with.
pub open spec fn sentence_ends(bytes: Seq<u8>) -> spec_fn(int) -> bool {
    |i: int| ends_sentence(bytes, i)
}

/// Whether a sentence ends with the byte at a place.
fn is_sentence_end(bytes: &[u8], i: usize) -> (r: bool)
    requires
        i < bytes@.len(),
    ensures
        r == ends_sentence(bytes@, i as int),
{
    let n: usize = bytes.len();
    (bytes[i] == 46 || bytes[i] == 33 || bytes[i] == 63) && (i + 1 >= n || is_blank(bytes[i + 1]))
}

// ---------------------------------------------------------------- paragraphs

/// A blank line: two newlines in a row.
pub open spec fn blank_line() -> Seq<u8> {
    seq![NEWLINE, NEWLINE]
}

/// Where the paragraph around a place starts: after the last blank line before
/// it.
pub open spec fn paragraph_start(bytes: Seq<u8>, at: int) -> int {
    match rfind_upto(bytes, blank_line(), at - 2) {
        Some(i) => i + 2,
        None => 0,
    }
}

/// Where it ends: at the first blank line after it.
pub open spec fn paragraph_end(bytes: Seq<u8>, at: int) -> int {
    match find_from(bytes, blank_line(), at) {
        Some(i) => i,
        None => bytes.len() as int,
    }
}

/// The last match at or before a place is one, and there is none after it.
pub proof fn lemma_rfind_upto<T>(hay: Seq<T>, needle: Seq<T>, upto: int)
    ensures
        match rfind_upto(hay, needle, upto) {
            Some(at) => {
                &&& 0 <= at <= upto
                &&& stands_at(hay, needle, at)
                &&& forall|i: int| at < i <= upto ==> !stands_at(hay, needle, i)
            },
            None => forall|i: int| 0 <= i <= upto ==> !stands_at(hay, needle, i),
        },
    decreases upto + 1,
{
    if upto >= 0 && !stands_at(hay, needle, upto) {
        lemma_rfind_upto(hay, needle, upto - 1);
    }
}

/// A paragraph is around the place it was asked for.
pub proof fn paragraph_is_around(bytes: Seq<u8>, at: int)
    requires
        0 <= at <= bytes.len(),
    ensures
        0 <= paragraph_start(bytes, at) <= at <= paragraph_end(bytes, at) <= bytes.len(),
{
    lemma_rfind_upto(bytes, blank_line(), at - 2);
    lemma_find_from(bytes, blank_line(), at);
}

/// Both ends of a paragraph are places to cut the text at.
pub proof fn paragraph_on_boundaries(text: Seq<char>, at: int)
    requires
        boundary(text, at),
    ensures
        boundary(text, paragraph_start(encode_utf8(text), at)),
        boundary(text, paragraph_end(encode_utf8(text), at)),
{
    let bytes = encode_utf8(text);
    lemma_encoded(text);
    lemma_boundary_inside(bytes, at);
    lemma_rfind_upto(bytes, blank_line(), at - 2);
    lemma_find_from(bytes, blank_line(), at);
    match rfind_upto(bytes, blank_line(), at - 2) {
        Some(i) => {
            assert(bytes.subrange(i, i + 2)[1] == blank_line()[1]);
            lemma_ascii_alone(bytes, i + 1);
        },
        None => {},
    }
    match find_from(bytes, blank_line(), at) {
        Some(i) => {
            assert(bytes.subrange(i, i + 2)[0] == blank_line()[0]);
            lemma_ascii_alone(bytes, i);
        },
        None => {},
    }
}

/// Two places in one paragraph are in the same paragraph: no blank line stands
/// between them, so both see the same one.
pub proof fn paragraph_is_shared(bytes: Seq<u8>, at: int, other: int)
    requires
        0 <= at <= bytes.len(),
        paragraph_start(bytes, at) <= other <= paragraph_end(bytes, at),
        other >= at,
    ensures
        paragraph_end(bytes, other) == paragraph_end(bytes, at),
{
    lemma_find_from(bytes, blank_line(), at);
    lemma_find_from(bytes, blank_line(), other);
    lemma_find_from_skip(bytes, blank_line(), at, other);
}

/// A paragraph goes as far as a blank line in each direction: it starts with the text or after
/// two newlines, ends with the text or before two newlines, and holds none on either side of
/// the place.
pub proof fn a_paragraph_ends_at_blank_lines(bytes: Seq<u8>, at: int)
    requires
        0 <= at <= bytes.len(),
    ensures
        ({
            let start = paragraph_start(bytes, at);
            let end = paragraph_end(bytes, at);
            &&& start == 0 || (start >= 2 && bytes[start - 2] == 10 && bytes[start - 1] == 10)
            &&& end == bytes.len() || (end + 1 < bytes.len() && bytes[end] == 10 && bytes[end + 1]
                == 10)
            &&& forall|i: int|
                start <= i && i + 1 < at ==> !(#[trigger] bytes[i] == 10 && bytes[i + 1] == 10)
            &&& forall|i: int|
                at <= i < end && i + 1 < bytes.len() ==> !(#[trigger] bytes[i] == 10 && bytes[i + 1]
                    == 10)
        }),
{
    let start = paragraph_start(bytes, at);
    let end = paragraph_end(bytes, at);
    let two = blank_line();
    lemma_rfind_upto(bytes, two, at - 2);
    lemma_find_from(bytes, two, at);
    assert forall|i: int| 0 <= i && i + 1 < bytes.len() && !stands_at(bytes, two, i) implies !(
    #[trigger] bytes[i] == 10 && bytes[i + 1] == 10) by {
        if bytes[i] == 10 && bytes[i + 1] == 10 {
            assert(bytes.subrange(i, i + 2) =~= two);
        }
    }
    if start > 0 {
        let part = bytes.subrange(start - 2, start);
        assert(part[0] == two[0] && part[1] == two[1]);
    }
    if end < bytes.len() {
        let part = bytes.subrange(end, end + 2);
        assert(part[0] == two[0] && part[1] == two[1]);
    }
}

/// The paragraph around a place: the markup between blank lines.
pub fn paragraph_range(text: &str, at: usize) -> (r: Range<usize>)
    requires
        boundary(text@, at as int),
    ensures
        r.start == paragraph_start(encode_utf8(text@), at as int),
        r.end == paragraph_end(encode_utf8(text@), at as int),
        r.start <= at <= r.end <= encode_utf8(text@).len(),
        boundary(text@, r.start as int),
        boundary(text@, r.end as int),
{
    let bytes: &[u8] = text.as_bytes();
    let line: Vec<u8> = vec![NEWLINE, NEWLINE];
    proof {
        lemma_encoded(text@);
        lemma_boundary_inside(bytes@, at as int);
        paragraph_is_around(bytes@, at as int);
        paragraph_on_boundaries(text@, at as int);
        assert(line@ =~= blank_line());
    }
    let start: usize = match rfind_bytes(bytes, line.as_slice(), at) {
        Some(i) => i + 2,
        None => 0,
    };
    let end: usize = match find_bytes(bytes, line.as_slice(), at) {
        Some(i) => i,
        None => bytes.len(),
    };
    Range { start, end }
}

// ----------------------------------------------------------------- sentences

/// Where the sentence around a place starts: after the last sentence end
/// before it in its paragraph, and past the white space there.
pub open spec fn sentence_start(bytes: Seq<u8>, at: int) -> int {
    let lo = paragraph_start(bytes, at);
    let hi = paragraph_end(bytes, at);
    let from = match last_in(lo, at, sentence_ends(bytes)) {
        Some(i) => i + 1,
        None => lo,
    };
    first_in(from, hi, inked(bytes))
}

/// Where it ends: after the first sentence end at or after the place, or with
/// its paragraph; but not before it starts.
pub open spec fn sentence_end(bytes: Seq<u8>, at: int) -> int {
    let hi = paragraph_end(bytes, at);
    let stop = first_in(at, hi, sentence_ends(bytes));
    let end = if stop < hi {
        stop + 1
    } else {
        hi
    };
    if end < sentence_start(bytes, at) {
        sentence_start(bytes, at)
    } else {
        end
    }
}

/// A sentence lies inside its paragraph.
pub proof fn sentence_is_inside(bytes: Seq<u8>, at: int)
    requires
        0 <= at <= bytes.len(),
    ensures
        paragraph_start(bytes, at) <= sentence_start(bytes, at) <= sentence_end(bytes, at)
            <= paragraph_end(bytes, at),
{
    paragraph_is_around(bytes, at);
    let lo = paragraph_start(bytes, at);
    let hi = paragraph_end(bytes, at);
    lemma_last_in(lo, at, sentence_ends(bytes));
    let from = match last_in(lo, at, sentence_ends(bytes)) {
        Some(i) => i + 1,
        None => lo,
    };
    lemma_first_in(from, hi, inked(bytes));
    lemma_first_in(at, hi, sentence_ends(bytes));
}

/// A sentence ends where the first full stop, exclamation or question mark does that comes at
/// or after the place with white space or nothing behind it, or else with its paragraph.
pub proof fn a_sentence_ends_at_its_first_stop(bytes: Seq<u8>, at: int)
    requires
        0 <= at <= bytes.len(),
    ensures
        ({
            let end = sentence_end(bytes, at);
            let hi = paragraph_end(bytes, at);
            &&& forall|i: int|
                at <= i < end - 1 ==> !((#[trigger] bytes[i] == 46 || bytes[i] == 33 || bytes[i]
                    == 63) && (i + 1 >= bytes.len() || bytes[i + 1] == 32 || bytes[i + 1] == 9
                    || bytes[i + 1] == 10 || bytes[i + 1] == 12 || bytes[i + 1] == 13))
            &&& at <= end
            &&& end == hi || {
                &&& at < end
                &&& bytes[end - 1] == 46 || bytes[end - 1] == 33 || bytes[end - 1] == 63
                &&& end >= bytes.len() || bytes[end] == 32 || bytes[end] == 9 || bytes[end] == 10
                    || bytes[end] == 12 || bytes[end] == 13
            }
        }),
{
    paragraph_is_around(bytes, at);
    let lo = paragraph_start(bytes, at);
    let hi = paragraph_end(bytes, at);
    let ends = sentence_ends(bytes);
    lemma_last_in(lo, at, ends);
    let from = match last_in(lo, at, ends) {
        Some(i) => i + 1,
        None => lo,
    };
    lemma_first_in(from, hi, inked(bytes));
    lemma_first_in(at, hi, ends);
    let stop = first_in(at, hi, ends);
    if stop < hi {
        assert(ends(stop));
        assert(inked(bytes)(stop));
        assert(sentence_start(bytes, at) <= stop);
    }
    assert forall|i: int| at <= i < sentence_end(bytes, at) - 1 implies !((#[trigger] bytes[i] == 46
        || bytes[i] == 33 || bytes[i] == 63) && (i + 1 >= bytes.len() || bytes[i + 1] == 32
        || bytes[i + 1] == 9 || bytes[i + 1] == 10 || bytes[i + 1] == 12 || bytes[i + 1] == 13)) by {
        assert(!ends(i));
    }
}

/// Whether there is nothing but white space between two places.
pub open spec fn only_white(bytes: Seq<u8>, from: int, to: int) -> bool {
    forall|i: int|
        from <= i < to ==> (#[trigger] bytes[i] == 32 || bytes[i] == 9 || bytes[i] == 10 || bytes[i]
            == 12 || bytes[i] == 13)
}

/// A sentence starts with what is written after the one before it: no stop lies between its
/// start and the place, it starts with no white space, and nothing but white space is between
/// its start and the stop before it, or the start of its paragraph.
pub proof fn a_sentence_starts_after_the_last_stop(bytes: Seq<u8>, at: int)
    requires
        0 <= at <= bytes.len(),
    ensures
        ({
            let start = sentence_start(bytes, at);
            let lo = paragraph_start(bytes, at);
            let hi = paragraph_end(bytes, at);
            &&& forall|i: int|
                start <= i < at ==> !((#[trigger] bytes[i] == 46 || bytes[i] == 33 || bytes[i] == 63)
                    && (i + 1 >= bytes.len() || bytes[i + 1] == 32 || bytes[i + 1] == 9
                    || bytes[i + 1] == 10 || bytes[i + 1] == 12 || bytes[i + 1] == 13))
            &&& start == hi || !(bytes[start] == 32 || bytes[start] == 9 || bytes[start] == 10
                || bytes[start] == 12 || bytes[start] == 13)
            &&& exists|from: int|
                lo <= from <= start && from <= at && (from == lo || bytes[from - 1] == 46
                    || bytes[from - 1] == 33 || bytes[from - 1] == 63) && #[trigger] only_white(
                    bytes,
                    from,
                    start,
                )
        }),
{
    paragraph_is_around(bytes, at);
    let lo = paragraph_start(bytes, at);
    let hi = paragraph_end(bytes, at);
    let ends = sentence_ends(bytes);
    let start = sentence_start(bytes, at);
    lemma_last_in(lo, at, ends);
    let from = match last_in(lo, at, ends) {
        Some(i) => i + 1,
        None => lo,
    };
    lemma_first_in(from, hi, inked(bytes));
    if from > lo {
        assert(ends(from - 1));
    }
    assert forall|i: int| start <= i < at implies !((#[trigger] bytes[i] == 46 || bytes[i] == 33
        || bytes[i] == 63) && (i + 1 >= bytes.len() || bytes[i + 1] == 32 || bytes[i + 1] == 9
        || bytes[i + 1] == 10 || bytes[i + 1] == 12 || bytes[i + 1] == 13)) by {
        assert(!ends(i));
    }
    if start < hi {
        assert(inked(bytes)(start));
    }
    assert(only_white(bytes, from, start)) by {
        assert forall|i: int| from <= i < start implies (#[trigger] bytes[i] == 32 || bytes[i] == 9
            || bytes[i] == 10 || bytes[i] == 12 || bytes[i] == 13) by {
            assert(!inked(bytes)(i));
        }
    }
}

/// The sentence around a place, clipped to its paragraph.
pub fn sentence_range(text: &str, at: usize) -> (r: Range<usize>)
    requires
        boundary(text@, at as int),
    ensures
        r.start == sentence_start(encode_utf8(text@), at as int),
        r.end == sentence_end(encode_utf8(text@), at as int),
        r.start <= r.end <= encode_utf8(text@).len(),
{
    let para: Range<usize> = paragraph_range(text, at);
    let bytes: &[u8] = text.as_bytes();
    proof {
        sentence_is_inside(bytes@, at as int);
    }
    let mut start: usize = at;
    while start > para.start && !is_sentence_end(bytes, start - 1)
        invariant
            para.start <= start <= at <= para.end <= bytes@.len(),
            last_in(para.start as int, at as int, sentence_ends(bytes@)) == last_in(
                para.start as int,
                start as int,
                sentence_ends(bytes@),
            ),
        decreases start,
    {
        start = start - 1;
    }
    let ghost from = start as int;
    while start < para.end && is_blank(bytes[start])
        invariant
            from <= start <= para.end <= bytes@.len(),
            first_in(from, para.end as int, inked(bytes@)) == first_in(
                start as int,
                para.end as int,
                inked(bytes@),
            ),
        decreases para.end - start,
    {
        start = start + 1;
    }
    let mut stop: usize = at;
    while stop < para.end && !is_sentence_end(bytes, stop)
        invariant
            at <= stop <= para.end <= bytes@.len(),
            first_in(at as int, para.end as int, sentence_ends(bytes@)) == first_in(
                stop as int,
                para.end as int,
                sentence_ends(bytes@),
            ),
        decreases para.end - stop,
    {
        stop = stop + 1;
    }
    let end: usize = if stop < para.end {
        stop + 1
    } else {
        para.end
    };
    Range {
        start,
        end: if end < start {
            start
        } else {
            end
        },
    }
}

// --------------------------------------------------------------------- words

/// Where the word that ends at a place starts: after the last white space
/// before it.
pub open spec fn word_start(bytes: Seq<u8>, at: int) -> int {
    match last_in(0, at, blanks(bytes)) {
        Some(i) => i + 1,
        None => 0,
    }
}

/// A word is what is written without a break before a place: no white space is in it, and it
/// begins with the text or after white space.
pub proof fn a_word_has_no_white_space(bytes: Seq<u8>, at: int)
    requires
        0 <= at <= bytes.len(),
    ensures
        ({
            let start = word_start(bytes, at);
            &&& 0 <= start <= at
            &&& forall|i: int|
                start <= i < at ==> !(#[trigger] bytes[i] == 32 || bytes[i] == 9 || bytes[i] == 10
                    || bytes[i] == 12 || bytes[i] == 13)
            &&& start == 0 || bytes[start - 1] == 32 || bytes[start - 1] == 9 || bytes[start - 1]
                == 10 || bytes[start - 1] == 12 || bytes[start - 1] == 13
        }),
{
    let gaps = blanks(bytes);
    lemma_last_in(0, at, gaps);
    assert forall|i: int| word_start(bytes, at) <= i < at implies !(#[trigger] bytes[i] == 32
        || bytes[i] == 9 || bytes[i] == 10 || bytes[i] == 12 || bytes[i] == 13) by {
        assert(!gaps(i));
    }
    if word_start(bytes, at) > 0 {
        assert(gaps(word_start(bytes, at) - 1));
    }
}

/// The word that ends at a place.
pub fn word_range(text: &str, at: usize) -> (r: Range<usize>)
    requires
        at <= encode_utf8(text@).len(),
    ensures
        r.start == word_start(encode_utf8(text@), at as int),
        r.end == at,
        r.start <= r.end,
        boundary(text@, at as int) ==> boundary(text@, r.start as int),
{
    let bytes: &[u8] = text.as_bytes();
    let mut start: usize = at;
    while start > 0 && !is_blank(bytes[start - 1])
        invariant
            start <= at <= bytes@.len(),
            last_in(0, at as int, blanks(bytes@)) == last_in(0, start as int, blanks(bytes@)),
        decreases start,
    {
        start = start - 1;
    }
    proof {
        lemma_encoded(text@);
        if start > 0 {
            assert(last_in(0, start as int, blanks(bytes@)) == Some(start - 1));
            lemma_ascii_alone(bytes@, start - 1);
        }
    }
    Range { start, end: at }
}

// ------------------------------------------------------------------- markers

/// Where the line around a place starts.
pub open spec fn line_start(bytes: Seq<u8>, at: int) -> int {
    match last_in(0, at, equal_to(bytes, NEWLINE)) {
        Some(i) => i + 1,
        None => 0,
    }
}

/// Whether a text is white space and nothing else.
pub open spec fn all_space(text: Seq<char>) -> bool {
    forall|i: int| 0 <= i < text.len() ==> is_space(#[trigger] text[i])
}

/// Where what looks like a marker at a place ends: a list item's `-`, `+` or
/// `/`, a heading's run of `=`, or an enumerator such as `12.` or `12)`. With
/// nothing of the kind there, the place itself.
pub open spec fn marker_end(bytes: Seq<u8>, i: int) -> int {
    let n = bytes.len() as int;
    if i >= n {
        i
    } else if bytes[i] == 45 || bytes[i] == 43 || bytes[i] == 47 {
        i + 1
    } else if bytes[i] == 61 {
        first_in(i, n, other_than(bytes, 61))
    } else if digit_byte(bytes[i]) {
        let j = first_in(i, n, not_digits(bytes));
        if j < n && (bytes[j] == 46 || bytes[j] == 41) {
            j + 1
        } else {
            i
        }
    } else {
        i
    }
}

/// Whether it is one: only with a space after it.
pub open spec fn is_marker(bytes: Seq<u8>, i: int) -> bool {
    let end = marker_end(bytes, i);
    i < end < bytes.len() && gap(bytes[end])
}

/// The end of the last word of a line.
pub open spec fn last_word_end(bytes: Seq<u8>, i: int) -> int {
    let line = first_in(i, bytes.len() as int, equal_to(bytes, NEWLINE));
    match last_in(i, line, not_gaps(bytes)) {
        Some(k) => k + 1,
        None => i,
    }
}

/// The end of the first word at or after a place.
pub open spec fn first_word_end(text: Seq<char>, i: int) -> int {
    let bytes = encode_utf8(text);
    let n = bytes.len() as int;
    let word = first_in(i, n, not_gaps(bytes));
    boundary_from(text, first_in(word, n, blanks(bytes)))
}

/// Where a label asked for at a place binds to the text it belongs to.
///
/// A place with text before it on its line is left alone. Otherwise the label
/// goes past the marker the line starts with: after the last word of a heading,
/// and after the first word of anything else, or where its line ends when it
/// holds no word. Only where the text itself ends before there is anything to
/// bind to does the label stay.
pub open spec fn past_marker(text: Seq<char>, at: int) -> int {
    let bytes = encode_utf8(text);
    let n = bytes.len() as int;
    if !all_space(chars_between(text, line_start(bytes, at), at)) {
        at
    } else {
        let i = first_in(at, n, not_gaps(bytes));
        if is_marker(bytes, i) && bytes[i] == 61 {
            last_word_end(bytes, marker_end(bytes, i))
        } else {
            let body = if is_marker(bytes, i) {
                marker_end(bytes, i)
            } else {
                i
            };
            if first_in(body, n, not_gaps(bytes)) < n {
                first_word_end(text, body)
            } else {
                at
            }
        }
    }
}

/// The first place at or after `from` that is not white space within a line.
fn skip_gaps(bytes: &[u8], from: usize) -> (r: usize)
    requires
        from <= bytes@.len(),
    ensures
        r == first_in(from as int, bytes@.len() as int, not_gaps(bytes@)),
        from <= r <= bytes@.len(),
{
    let mut i: usize = from;
    while i < bytes.len() && is_gap(bytes[i])
        invariant
            from <= i <= bytes@.len(),
            first_in(from as int, bytes@.len() as int, not_gaps(bytes@)) == first_in(
                i as int,
                bytes@.len() as int,
                not_gaps(bytes@),
            ),
        decreases bytes@.len() - i,
    {
        i = i + 1;
    }
    i
}

/// Where what looks like a marker at a place ends.
fn find_marker_end(bytes: &[u8], i: usize) -> (r: usize)
    requires
        i <= bytes@.len(),
    ensures
        r == marker_end(bytes@, i as int),
        i <= r <= bytes@.len(),
{
    let n: usize = bytes.len();
    if i >= n {
        return i;
    }
    let b: u8 = bytes[i];
    if b == 45 || b == 43 || b == 47 {
        i + 1
    } else if b == 61 {
        let mut j: usize = i;
        while j < n && bytes[j] == 61
            invariant
                i <= j <= n,
                n == bytes@.len(),
                first_in(i as int, n as int, other_than(bytes@, 61)) == first_in(
                    j as int,
                    n as int,
                    other_than(bytes@, 61),
                ),
            decreases n - j,
        {
            j = j + 1;
        }
        j
    } else if 48 <= b && b <= 57 {
        let mut j: usize = i;
        while j < n && 48 <= bytes[j] && bytes[j] <= 57
            invariant
                i <= j <= n,
                n == bytes@.len(),
                first_in(i as int, n as int, not_digits(bytes@)) == first_in(
                    j as int,
                    n as int,
                    not_digits(bytes@),
                ),
            decreases n - j,
        {
            j = j + 1;
        }
        if j < n && (bytes[j] == 46 || bytes[j] == 41) {
            j + 1
        } else {
            i
        }
    } else {
        i
    }
}

/// The end of the last word of a line.
fn find_last_word_end(bytes: &[u8], i: usize) -> (r: usize)
    requires
        i <= bytes@.len(),
    ensures
        r == last_word_end(bytes@, i as int),
        i <= r <= bytes@.len(),
        r == i || r == bytes@.len() || bytes@[r as int] < 0x80,
{
    let n: usize = bytes.len();
    let mut line: usize = i;
    while line < n && bytes[line] != NEWLINE
        invariant
            i <= line <= n,
            n == bytes@.len(),
            first_in(i as int, n as int, equal_to(bytes@, NEWLINE)) == first_in(
                line as int,
                n as int,
                equal_to(bytes@, NEWLINE),
            ),
        decreases n - line,
    {
        line = line + 1;
    }
    let mut end: usize = line;
    while end > i && is_gap(bytes[end - 1])
        invariant
            i <= end <= line <= n,
            n == bytes@.len(),
            end == line ==> (end == n || bytes@[end as int] == NEWLINE),
            end < line ==> gap(bytes@[end as int]),
            last_in(i as int, line as int, not_gaps(bytes@)) == last_in(
                i as int,
                end as int,
                not_gaps(bytes@),
            ),
        decreases end,
    {
        end = end - 1;
    }
    end
}

/// The end of the first word at or after a place.
fn find_first_word_end(text: &str, from: usize) -> (r: usize)
    requires
        from <= encode_utf8(text@).len(),
    ensures
        r == first_word_end(text@, from as int),
        from <= r <= encode_utf8(text@).len(),
        boundary(text@, r as int),
{
    let bytes: &[u8] = text.as_bytes();
    let word: usize = skip_gaps(bytes, from);
    let mut end: usize = word;
    while end < bytes.len() && !is_blank(bytes[end])
        invariant
            word <= end <= bytes@.len(),
            first_in(word as int, bytes@.len() as int, blanks(bytes@)) == first_in(
                end as int,
                bytes@.len() as int,
                blanks(bytes@),
            ),
        decreases bytes@.len() - end,
    {
        end = end + 1;
    }
    next_boundary(text, end)
}

/// Whether a text is white space and nothing else.
pub fn is_all_space(text: &str) -> (r: bool)
    ensures
        r == all_space(text@),
{
    let t: Vec<char> = chars_of(text);
    let mut i: usize = 0;
    while i < t.len()
        invariant
            i <= t@.len(),
            t@ == text@,
            forall|k: int| 0 <= k < i ==> is_space(#[trigger] text@[k]),
        decreases t@.len() - i,
    {
        if !is_whitespace(t[i]) {
            assert(!is_space(text@[i as int]));
            return false;
        }
        i = i + 1;
    }
    true
}

/// Where the line around a place starts.
pub fn find_line_start(text: &str, at: usize) -> (r: usize)
    requires
        at <= encode_utf8(text@).len(),
    ensures
        r == line_start(encode_utf8(text@), at as int),
        r <= at,
        boundary(text@, r as int),
{
    let bytes: &[u8] = text.as_bytes();
    let mut i: usize = at;
    while i > 0 && bytes[i - 1] != NEWLINE
        invariant
            i <= at <= bytes@.len(),
            last_in(0, at as int, equal_to(bytes@, NEWLINE)) == last_in(
                0,
                i as int,
                equal_to(bytes@, NEWLINE),
            ),
        decreases i,
    {
        i = i - 1;
    }
    proof {
        lemma_encoded(text@);
        if i > 0 {
            lemma_ascii_alone(bytes@, i - 1);
        }
    }
    i
}

/// Where a label asked for at a place binds to the text it belongs to.
pub fn snap_past_marker(text: &str, at: usize) -> (r: usize)
    requires
        boundary(text@, at as int),
    ensures
        r == past_marker(text@, at as int),
        at <= r <= encode_utf8(text@).len(),
        boundary(text@, r as int),
{
    let bytes: &[u8] = text.as_bytes();
    proof {
        lemma_encoded(text@);
        lemma_boundary_inside(bytes@, at as int);
    }
    let line: usize = find_line_start(text, at);
    if !is_all_space(slice(text, line, at)) {
        return at;
    }
    let i: usize = skip_gaps(bytes, at);
    let end: usize = find_marker_end(bytes, i);
    let marked: bool = i < end && end < bytes.len() && is_gap(bytes[end]);
    if marked && bytes[i] == 61 {
        let r: usize = find_last_word_end(bytes, end);
        proof {
            if r < bytes@.len() {
                lemma_ascii_alone(bytes@, r as int);
            }
        }
        return r;
    }
    let body: usize = if marked {
        end
    } else {
        i
    };
    if skip_gaps(bytes, body) < bytes.len() {
        find_first_word_end(text, body)
    } else {
        at
    }
}

// -------------------------------------------------------- all the paragraphs

/// The ranges of the paragraphs of a text from a place on, in order: each one
/// that is not empty, and on past the blank line that ends it.
pub open spec fn paragraphs_from(bytes: Seq<u8>, at: int) -> Seq<(int, int)>
    decreases bytes.len() - at,
{
    if at < 0 || at >= bytes.len() {
        seq![]
    } else {
        let start = paragraph_start(bytes, at);
        let end = paragraph_end(bytes, at);
        let next = if end + 2 > at + 1 {
            end + 2
        } else {
            at + 1
        };
        let rest = if next < bytes.len() {
            paragraphs_from(bytes, next)
        } else {
            seq![]
        };
        if end > start {
            seq![(start, end)] + rest
        } else {
            rest
        }
    }
}

/// The range two offsets make.
pub open spec fn pair(r: Range<usize>) -> (int, int) {
    (r.start as int, r.end as int)
}

/// The ranges of the paragraphs of a text, in order.
pub fn paragraphs(text: &str) -> (r: Vec<Range<usize>>)
    requires
        encode_utf8(text@).len() + 2 <= usize::MAX,
    ensures
        r@.map_values(|p: Range<usize>| pair(p)) == paragraphs_from(encode_utf8(text@), 0),
{
    let bytes: &[u8] = text.as_bytes();
    let n: usize = bytes.len();
    let mut out: Vec<Range<usize>> = Vec::new();
    let mut at: usize = 0;
    let ghost as_pair = |p: Range<usize>| pair(p);
    proof {
        lemma_encoded(text@);
    }
    assert(out@.map_values(as_pair) + paragraphs_from(bytes@, 0) =~= paragraphs_from(bytes@, 0));
    while at < n
        invariant
            n == bytes@.len(),
            n + 2 <= usize::MAX,
            bytes@ == encode_utf8(text@),
            as_pair == (|p: Range<usize>| pair(p)),
            at <= n ==> boundary(text@, at as int),
            at <= n + 2,
            out@.map_values(as_pair) + paragraphs_from(bytes@, at as int) == paragraphs_from(
                bytes@,
                0,
            ),
        decreases n + 2 - at,
    {
        let ghost before = out@.map_values(as_pair);
        let ghost here = at as int;
        let range: Range<usize> = paragraph_range(text, at);
        let next: usize = if range.end + 2 > at + 1 {
            range.end + 2
        } else {
            at + 1
        };
        proof {
            lemma_encoded(text@);
            lemma_find_from(bytes@, blank_line(), at as int);
            if next <= n {
                assert(bytes@.subrange(range.end as int, range.end + 2)[1] == blank_line()[1]);
                lemma_ascii_alone(bytes@, range.end + 1);
            }
        }
        let nonempty: bool = range.end > range.start;
        let ghost this = pair(range);
        if nonempty {
            out.push(range);
            assert(out@.map_values(as_pair) =~= before.push(this));
            assert(before + paragraphs_from(bytes@, here) =~= out@.map_values(as_pair)
                + paragraphs_from(bytes@, next as int));
        }
        at = next;
    }
    assert(paragraphs_from(bytes@, at as int) =~= Seq::empty());
    assert(out@.map_values(as_pair) + Seq::empty() =~= out@.map_values(as_pair));
    out
}

/// Whether a place starts a paragraph as the list of them is made.
spec fn opens(bytes: Seq<u8>, at: int) -> bool {
    at == 0 || (at >= 2 && stands_at(bytes, blank_line(), at - 2))
}

/// A paragraph that is looked for from its start begins there.
proof fn lemma_opens(bytes: Seq<u8>, at: int)
    requires
        0 <= at <= bytes.len(),
        opens(bytes, at),
    ensures
        paragraph_start(bytes, at) == at,
        at <= paragraph_end(bytes, at) <= bytes.len(),
        paragraph_end(bytes, at) < bytes.len() ==> opens(bytes, paragraph_end(bytes, at) + 2)
            && paragraph_end(bytes, at) + 2 <= bytes.len() && bytes[paragraph_end(bytes, at)] == 10
            && bytes[paragraph_end(bytes, at) + 1] == 10,
        forall|i: int|
            at <= i < paragraph_end(bytes, at) && i + 1 < bytes.len() ==> !(#[trigger] bytes[i] == 10
                && bytes[i + 1] == 10),
{
    a_paragraph_ends_at_blank_lines(bytes, at);
    lemma_find_from(bytes, blank_line(), at);
    lemma_rfind_upto(bytes, blank_line(), at - 2);
}

/// Every byte of a text that is not a newline lies in one of its paragraphs.
pub proof fn every_line_is_in_a_paragraph(bytes: Seq<u8>, i: int)
    requires
        0 <= i < bytes.len(),
        bytes[i] != 10,
    ensures
        exists|k: int|
            0 <= k < paragraphs_from(bytes, 0).len() && (#[trigger] paragraphs_from(bytes, 0)[k]).0
                <= i < paragraphs_from(bytes, 0)[k].1,
{
    lemma_in_a_paragraph(bytes, 0, i);
}

/// Every byte from the start of a paragraph on that is not a newline lies in a paragraph.
proof fn lemma_in_a_paragraph(bytes: Seq<u8>, at: int, i: int)
    requires
        0 <= at <= i < bytes.len(),
        opens(bytes, at),
        bytes[i] != 10,
    ensures
        exists|k: int|
            0 <= k < paragraphs_from(bytes, at).len() && (#[trigger] paragraphs_from(bytes, at)[k]).0
                <= i < paragraphs_from(bytes, at)[k].1,
    decreases bytes.len() - at,
{
    lemma_opens(bytes, at);
    let end = paragraph_end(bytes, at);
    let list = paragraphs_from(bytes, at);
    if i < end {
        assert(list[0] == (at, end));
    } else {
        let rest = paragraphs_from(bytes, end + 2);
        lemma_in_a_paragraph(bytes, end + 2, i);
        let k = choose|k: int| 0 <= k < rest.len() && (#[trigger] rest[k]).0 <= i < rest[k].1;
        if end > at {
            assert(list[k + 1] == rest[k]);
        } else {
            assert(list[k] == rest[k]);
        }
    }
}

/// The paragraphs of a text are in order with a blank line between any two, none is empty, and
/// none holds a blank line.
pub proof fn paragraphs_are_apart(bytes: Seq<u8>, j: int, k: int)
    requires
        0 <= j < paragraphs_from(bytes, 0).len(),
        0 <= k < paragraphs_from(bytes, 0).len(),
    ensures
        ({
            let list = paragraphs_from(bytes, 0);
            &&& 0 <= list[j].0 < list[j].1 <= bytes.len()
            &&& j < k ==> list[j].1 + 2 <= list[k].0
            &&& forall|i: int|
                list[j].0 <= i && i + 1 < list[j].1 ==> !(#[trigger] bytes[i] == 10 && bytes[i + 1]
                    == 10)
        }),
{
    lemma_apart(bytes, 0, j, k);
}

/// The paragraphs from the start of one on are in order.
proof fn lemma_apart(bytes: Seq<u8>, at: int, j: int, k: int)
    requires
        0 <= at <= bytes.len(),
        opens(bytes, at),
        0 <= j < paragraphs_from(bytes, at).len(),
        0 <= k < paragraphs_from(bytes, at).len(),
    ensures
        ({
            let list = paragraphs_from(bytes, at);
            &&& at <= list[j].0 < list[j].1 <= bytes.len()
            &&& at <= list[k].0
            &&& j < k ==> list[j].1 + 2 <= list[k].0
            &&& forall|i: int|
                list[j].0 <= i && i + 1 < list[j].1 ==> !(#[trigger] bytes[i] == 10 && bytes[i + 1]
                    == 10)
        }),
    decreases bytes.len() - at,
{
    if at < bytes.len() {
        lemma_opens(bytes, at);
        let end = paragraph_end(bytes, at);
        let list = paragraphs_from(bytes, at);
        if end < bytes.len() {
            let rest = paragraphs_from(bytes, end + 2);
            let off: int = if end > at {
                1
            } else {
                0
            };
            assert(forall|n: int| 0 <= n < rest.len() ==> #[trigger] list[n + off] == rest[n]);
            if j >= off && k >= off {
                lemma_apart(bytes, end + 2, j - off, k - off);
                assert(list[j - off + off] == rest[j - off]);
                assert(list[k - off + off] == rest[k - off]);
            } else if j >= off {
                lemma_apart(bytes, end + 2, j - off, j - off);
                assert(list[j - off + off] == rest[j - off]);
            } else if k >= off {
                lemma_apart(bytes, end + 2, k - off, k - off);
                assert(list[k - off + off] == rest[k - off]);
            }
        }
    }
}

// ----------------------------------------------------- where a label is written

/// Whether a place in a text has only white space before it in its line.
pub open spec fn heads_its_line(text: Seq<char>, line: int, at: int) -> bool {
    let bytes = encode_utf8(text);
    &&& 0 <= line <= at
    &&& line == 0 || bytes[line - 1] == 10
    &&& forall|i: int| line <= i < at ==> #[trigger] bytes[i] != 10
    &&& forall|i: int|
        0 <= i < chars_between(text, line, at).len() ==> is_space(
            #[trigger] chars_between(text, line, at)[i],
        )
}

/// Whether a stretch of bytes is made of spaces and tabs.
pub open spec fn only_gaps(bytes: Seq<u8>, from: int, to: int) -> bool {
    forall|i: int| from <= i < to ==> #[trigger] bytes[i] == 32 || bytes[i] == 9
}

/// Whether a byte is a space, a tab, or one that ends a line or a page.
pub open spec fn is_white(b: u8) -> bool {
    b == 32 || b == 9 || b == 10 || b == 12 || b == 13
}

/// Whether a word of a text, with no white space in it, reaches from a place to the next white
/// space.
pub open spec fn is_word(bytes: Seq<u8>, from: int, to: int) -> bool {
    &&& from <= to <= bytes.len()
    &&& forall|i: int| from <= i < to ==> !is_white(#[trigger] bytes[i])
    &&& to < bytes.len() ==> is_white(bytes[to])
}

/// A line starts where the last newline before a place was.
proof fn lemma_line(text: Seq<char>, line: int, at: int)
    requires
        heads_its_line(text, line, at),
        at <= encode_utf8(text).len(),
    ensures
        line_start(encode_utf8(text), at) == line,
{
    let bytes = encode_utf8(text);
    lemma_last_in(0, at, equal_to(bytes, NEWLINE));
    match last_in(0, at, equal_to(bytes, NEWLINE)) {
        Some(i) => {
            assert(bytes[i] == 10);
            if i < line - 1 {
                assert(!equal_to(bytes, NEWLINE)(line - 1));
            }
        },
        None => {
            if line > 0 {
                assert(!equal_to(bytes, NEWLINE)(line - 1));
            }
        },
    }
}

/// The first place that is not a space or a tab is after all those that are.
proof fn lemma_gaps(bytes: Seq<u8>, from: int, to: int)
    requires
        0 <= from <= to <= bytes.len(),
        only_gaps(bytes, from, to),
        to < bytes.len() ==> bytes[to] != 32 && bytes[to] != 9,
    ensures
        first_in(from, bytes.len() as int, not_gaps(bytes)) == to,
{
    let found = first_in(from, bytes.len() as int, not_gaps(bytes));
    lemma_first_in(from, bytes.len() as int, not_gaps(bytes));
    if found < to {
        assert(not_gaps(bytes)(found));
        assert(bytes[found] == 32 || bytes[found] == 9);
    }
    if found > to {
        assert(!not_gaps(bytes)(to));
    }
}

/// A word ends at the next white space.
proof fn lemma_word_end(text: Seq<char>, gaps: int, from: int, to: int)
    requires
        0 <= gaps <= from < encode_utf8(text).len(),
        only_gaps(encode_utf8(text), gaps, from),
        encode_utf8(text)[from] != 32 && encode_utf8(text)[from] != 9,
        is_word(encode_utf8(text), from, to),
    ensures
        first_word_end(text, gaps) == to,
{
    let bytes = encode_utf8(text);
    let n = bytes.len() as int;
    lemma_encoded(text);
    lemma_gaps(bytes, gaps, from);
    let found = first_in(from, n, blanks(bytes));
    lemma_first_in(from, n, blanks(bytes));
    if found < to {
        assert(blanks(bytes)(found));
        assert(is_white(bytes[found]));
    }
    if to < n {
        lemma_ascii_alone(bytes, to);
        if found > to {
            assert(!blanks(bytes)(to));
        }
    }
}

/// A label asked for at the head of a line of plain text is written after the first word.
pub proof fn a_label_follows_the_first_word(text: Seq<char>, line: int, at: int, word: int, end: int)
    requires
        ({
            let bytes = encode_utf8(text);
            &&& heads_its_line(text, line, at)
            &&& at <= word < bytes.len()
            &&& only_gaps(bytes, at, word)
            &&& bytes[word] != 32 && bytes[word] != 9
            &&& bytes[word] != 45 && bytes[word] != 43 && bytes[word] != 47 && bytes[word] != 61
            &&& !(48 <= bytes[word] <= 57)
            &&& is_word(bytes, word, end)
        }),
    ensures
        past_marker(text, at) == end,
{
    let bytes = encode_utf8(text);
    lemma_line(text, line, at);
    lemma_gaps(bytes, at, word);
    lemma_gaps(bytes, word, word);
    lemma_word_end(text, word, word, end);
}

/// A label asked for at the head of an item, one that is marked with a dash, a plus, a slash or
/// a number, is written after the first word of what the item says.
pub proof fn a_label_follows_an_items_first_word(
    text: Seq<char>,
    line: int,
    at: int,
    mark: int,
    body: int,
    word: int,
    end: int,
)
    requires
        ({
            let bytes = encode_utf8(text);
            &&& heads_its_line(text, line, at)
            &&& at <= mark < body < word < bytes.len()
            &&& only_gaps(bytes, at, mark)
            &&& {
                ||| body == mark + 1 && (bytes[mark] == 45 || bytes[mark] == 43 || bytes[mark] == 47)
                ||| mark + 1 < body && (bytes[body - 1] == 46 || bytes[body - 1] == 41) && forall|i: int|
                    mark <= i < body - 1 ==> 48 <= #[trigger] bytes[i] <= 57
            }
            &&& only_gaps(bytes, body, word)
            &&& bytes[word] != 32 && bytes[word] != 9
            &&& is_word(bytes, word, end)
        }),
    ensures
        past_marker(text, at) == end,
{
    let bytes = encode_utf8(text);
    let n = bytes.len() as int;
    lemma_line(text, line, at);
    lemma_gaps(bytes, at, mark);
    assert(bytes[body] == 32 || bytes[body] == 9);
    if mark + 1 < body {
        assert(48 <= bytes[mark] <= 57);
        let found = first_in(mark, n, not_digits(bytes));
        lemma_first_in(mark, n, not_digits(bytes));
        if found < body - 1 {
            assert(48 <= bytes[found] <= 57);
            assert(not_digits(bytes)(found));
        }
        if found > body - 1 {
            assert(!not_digits(bytes)(body - 1));
        }
    }
    lemma_gaps(bytes, body, word);
    lemma_word_end(text, body, word, end);
}

/// A label asked for at the head of a heading is written after the last word of its line.
pub proof fn a_label_ends_a_heading(
    text: Seq<char>,
    line: int,
    at: int,
    mark: int,
    body: int,
    last: int,
    end: int,
)
    requires
        ({
            let bytes = encode_utf8(text);
            &&& heads_its_line(text, line, at)
            &&& at <= mark < body < last <= end <= bytes.len()
            &&& only_gaps(bytes, at, mark)
            &&& forall|i: int| mark <= i < body ==> #[trigger] bytes[i] == 61
            &&& bytes[body] == 32 || bytes[body] == 9
            &&& forall|i: int| body <= i < end ==> #[trigger] bytes[i] != 10
            &&& end < bytes.len() ==> bytes[end] == 10
            &&& bytes[last - 1] != 32 && bytes[last - 1] != 9
            &&& only_gaps(bytes, last, end)
        }),
    ensures
        past_marker(text, at) == last,
{
    let bytes = encode_utf8(text);
    let n = bytes.len() as int;
    lemma_line(text, line, at);
    assert(bytes[mark] == 61);
    lemma_gaps(bytes, at, mark);
    let found = first_in(mark, n, other_than(bytes, 61));
    lemma_first_in(mark, n, other_than(bytes, 61));
    if found < body {
        assert(bytes[found] == 61);
        assert(other_than(bytes, 61)(found));
    }
    if found > body {
        assert(!other_than(bytes, 61)(body));
    }
    let stop = first_in(body, n, equal_to(bytes, NEWLINE));
    lemma_first_in(body, n, equal_to(bytes, NEWLINE));
    if stop < end {
        assert(equal_to(bytes, NEWLINE)(stop));
    }
    if stop > end {
        assert(!equal_to(bytes, NEWLINE)(end));
    }
    lemma_last_in(body, end, not_gaps(bytes));
    match last_in(body, end, not_gaps(bytes)) {
        Some(k) => {
            if k >= last {
                assert(bytes[k] == 32 || bytes[k] == 9);
                assert(not_gaps(bytes)(k));
            }
            if k < last - 1 {
                assert(!not_gaps(bytes)(last - 1));
            }
        },
        None => {
            assert(!not_gaps(bytes)(last - 1));
        },
    }
}

/// A label asked for inside a line, after something written there, is written where it was asked
/// for.
pub proof fn a_label_inside_a_line_stays(text: Seq<char>, at: int, i: int)
    requires
        ({
            let line = line_start(encode_utf8(text), at);
            let before = chars_between(text, line, at);
            0 <= i < before.len() && !is_space(before[i])
        }),
    ensures
        past_marker(text, at) == at,
{
}

} // verus!

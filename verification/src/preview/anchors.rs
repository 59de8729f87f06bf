//! Anchors: the labels that tie an annotation to a place in a document.
//!
//! An anchor such as `<7C42.word>` names the annotation and says what it refers
//! to. It is written into the document, so what an annotation is about is
//! always read off the source.

use std::ops::Range;

use vstd::prelude::*;
use vstd::string::*;
use vstd::utf8::*;

use crate::bytes::{
    boundary, byte_len, chars_between, find_bytes, lemma_ascii_alone, lemma_boundary_inside,
    lemma_boundary_skip, lemma_boundary_spliced, lemma_boundary_take, lemma_encode_concat,
    lemma_encoded, slice, splice, spliced,
};
use crate::labels::is_label;
use crate::text::{find_from, is_alnum, lemma_find_from, lemma_find_from_skip, same, stands_at};

verus! {

/// What an annotation refers to.
#[derive(Debug, Clone, Copy, PartialEq, Eq, Structural)]
pub enum Scope {
    /// A position between words.
    Point,
    /// The word the anchor follows.
    Word,
    /// The sentence containing the anchor.
    Sentence,
    /// The text between a pair of anchors.
    Span,
    /// A generated block: a figure, a call.
    Block,
    /// A single list item.
    Item,
    /// The paragraph containing the anchor.
    Para,
}

/// What a scope is called.
pub open spec fn scope_name(scope: Scope) -> Seq<char> {
    match scope {
        Scope::Point => "point"@,
        Scope::Word => "word"@,
        Scope::Sentence => "sentence"@,
        Scope::Span => "span"@,
        Scope::Block => "block"@,
        Scope::Item => "item"@,
        Scope::Para => "para"@,
    }
}

/// The scope an anchor's suffix names.
pub open spec fn scope_of(suffix: Seq<char>) -> Option<Scope> {
    if suffix == "point"@ {
        Some(Scope::Point)
    } else if suffix == "word"@ {
        Some(Scope::Word)
    } else if suffix == "sentence"@ {
        Some(Scope::Sentence)
    } else if suffix == "span.begin"@ || suffix == "span.end"@ {
        Some(Scope::Span)
    } else if suffix == "block"@ {
        Some(Scope::Block)
    } else if suffix == "item"@ {
        Some(Scope::Item)
    } else if suffix == "para"@ {
        Some(Scope::Para)
    } else {
        None
    }
}

/// The suffix an anchor of a scope is written with.
pub open spec fn scope_suffix(scope: Scope) -> Seq<char> {
    match scope {
        Scope::Span => "span.begin"@,
        _ => scope_name(scope),
    }
}

impl Scope {
    /// The scope an anchor's suffix names.
    pub fn from_suffix(suffix: &str) -> (r: Option<Self>)
        ensures
            r == scope_of(suffix@),
    {
        if same(suffix, "point") {
            Some(Scope::Point)
        } else if same(suffix, "word") {
            Some(Scope::Word)
        } else if same(suffix, "sentence") {
            Some(Scope::Sentence)
        } else if same(suffix, "span.begin") || same(suffix, "span.end") {
            Some(Scope::Span)
        } else if same(suffix, "block") {
            Some(Scope::Block)
        } else if same(suffix, "item") {
            Some(Scope::Item)
        } else if same(suffix, "para") {
            Some(Scope::Para)
        } else {
            None
        }
    }

    /// What the scope is called.
    pub fn as_str(self) -> (r: &'static str)
        ensures
            r@ == scope_name(self),
    {
        match self {
            Scope::Point => "point",
            Scope::Word => "word",
            Scope::Sentence => "sentence",
            Scope::Span => "span",
            Scope::Block => "block",
            Scope::Item => "item",
            Scope::Para => "para",
        }
    }
}

/// What the names of the scopes spell.
proof fn lemma_names()
    ensures
        "point"@ =~= seq!['p', 'o', 'i', 'n', 't'],
        "word"@ =~= seq!['w', 'o', 'r', 'd'],
        "sentence"@ =~= seq!['s', 'e', 'n', 't', 'e', 'n', 'c', 'e'],
        "span"@ =~= seq!['s', 'p', 'a', 'n'],
        "span.begin"@ =~= seq!['s', 'p', 'a', 'n', '.', 'b', 'e', 'g', 'i', 'n'],
        "span.end"@ =~= seq!['s', 'p', 'a', 'n', '.', 'e', 'n', 'd'],
        "block"@ =~= seq!['b', 'l', 'o', 'c', 'k'],
        "item"@ =~= seq!['i', 't', 'e', 'm'],
        "para"@ =~= seq!['p', 'a', 'r', 'a'],
{
    reveal_strlit("point");
    reveal_strlit("word");
    reveal_strlit("sentence");
    reveal_strlit("span");
    reveal_strlit("span.begin");
    reveal_strlit("span.end");
    reveal_strlit("block");
    reveal_strlit("item");
    reveal_strlit("para");
}

/// The suffix a scope is written with names that scope.
pub proof fn suffix_names_its_scope(scope: Scope)
    ensures
        scope_of(scope_suffix(scope)) == Some(scope),
{
    lemma_names();
    let s = scope_suffix(scope);
    assert(s.len() == 5 ==> s[0] == 'p' || s[0] == 'b');
    assert("point"@[0] == 'p');
    assert("block"@[0] == 'b');
    assert("word"@[0] == 'w');
    assert("item"@[0] == 'i');
    assert("para"@[0] == 'p');
    assert("sentence"@[1] == 'e');
    assert("span.end"@[1] == 'p');
}

/// The anchor of an annotation, as it is written.
pub open spec fn anchor_chars(uuid: Seq<char>, scope: Scope) -> Seq<char> {
    seq!['<'] + uuid + seq!['.'] + scope_suffix(scope) + seq!['>']
}

/// The anchor of an annotation, such as `<7C42.word>`.
pub fn anchor_text(uuid: &str, scope: Scope) -> (r: String)
    ensures
        r@ == anchor_chars(uuid@, scope),
{
    proof {
        reveal_strlit("<");
        reveal_strlit(".");
        reveal_strlit(">");
    }
    let suffix: &str = match scope {
        Scope::Span => "span.begin",
        _ => scope.as_str(),
    };
    let mut out: String = "<".to_owned();
    out.append(uuid);
    out.append(".");
    out.append(suffix);
    out.append(">");
    assert(out@ =~= anchor_chars(uuid@, scope));
    out
}

// ----------------------------------------------------------- finding anchors

/// What every anchor of an annotation begins with.
pub open spec fn anchor_prefix(uuid: Seq<char>) -> Seq<char> {
    seq!['<'] + uuid + seq!['.']
}

/// The closing bracket, as bytes.
pub open spec fn closing() -> Seq<u8> {
    seq![62u8]
}

/// The anchors of an annotation from a place on: where each begins, its scope,
/// and the place after it. Of something that begins like an anchor and ends in
/// no scope the beginning alone is passed over: an anchor may follow before the
/// next closing bracket.
pub open spec fn anchors_from(text: Seq<char>, prefix: Seq<u8>, from: int) -> Seq<(int, Scope, int)>
    decreases encode_utf8(text).len() - from,
{
    let bytes = encode_utf8(text);
    if prefix.len() == 0 || from < 0 {
        seq![]
    } else {
        match find_from(bytes, prefix, from) {
            None => seq![],
            Some(start) => match find_from(bytes, closing(), start) {
                None => seq![],
                Some(close) => {
                    proof {
                        lemma_find_from(bytes, prefix, from);
                        lemma_find_from(bytes, closing(), start);
                    }
                    match scope_of(chars_between(text, start + prefix.len(), close)) {
                        Some(scope) => seq![(start, scope, close + 1)] + anchors_from(
                            text,
                            prefix,
                            close + 1,
                        ),
                        None => anchors_from(text, prefix, (start + prefix.len()) as int),
                    }
                },
            },
        }
    }
}

/// The anchors of an annotation in a text.
pub open spec fn anchors_of(text: Seq<char>, uuid: Seq<char>) -> Seq<(int, Scope, int)> {
    anchors_from(text, encode_utf8(anchor_prefix(uuid)), 0)
}

/// One anchor found in a text.
#[derive(Debug)]
pub struct FoundAnchor {
    /// Where it begins.
    pub at: usize,
    /// What it refers to.
    pub scope: Scope,
    /// The anchor itself.
    pub label: String,
}

impl FoundAnchor {
    /// Where it begins, its scope, and the place after it.
    pub open spec fn place(self) -> (int, Scope, int) {
        (self.at as int, self.scope, self.at + encode_utf8(self.label@).len())
    }
}

/// Where the anchors in a list stand.
pub open spec fn places(found: Seq<FoundAnchor>) -> Seq<(int, Scope, int)> {
    found.map_values(|a: FoundAnchor| a.place())
}

/// Whether the anchors of a list stand in a text one after another, each cut
/// where characters begin.
pub open spec fn laid_out(text: Seq<char>, list: Seq<(int, Scope, int)>) -> bool {
    &&& forall|i: int|
        0 <= i < list.len() ==> (#[trigger] list[i]).0 < list[i].2 && boundary(text, list[i].0)
            && boundary(text, list[i].2)
    &&& forall|i: int, j: int| 0 <= i < j < list.len() ==> list[i].2 <= list[j].0
}

/// The prefix of an anchor begins with a bracket, ends with a full stop, and
/// holds no closing bracket of its own where the name does not.
proof fn lemma_prefix(uuid: Seq<char>)
    ensures
        ({
            let p = encode_utf8(anchor_prefix(uuid));
            &&& p.len() >= 2
            &&& p[0] == 60
            &&& p.last() == 46
            &&& valid_utf8(p)
            &&& !uuid.contains('>') ==> forall|i: int| 0 <= i < p.len() ==> p[i] != 62
        }),
{
    let a = seq!['<'];
    let b = seq!['.'];
    lemma_encode_concat(a, uuid);
    lemma_encode_concat(a + uuid, b);
    lemma_encoded(anchor_prefix(uuid));
    is_ascii_chars_encode_utf8(a);
    is_ascii_chars_encode_utf8(b);
    assert(a[0] as u8 == 60);
    assert(b[0] as u8 == 46);
    let p = encode_utf8(anchor_prefix(uuid));
    assert(p =~= encode_utf8(a) + encode_utf8(uuid) + encode_utf8(b));
    if !uuid.contains('>') {
        lemma_no_byte(uuid, '>');
        assert forall|i: int| 0 <= i < p.len() implies p[i] != 62 by {
            if i == 0 {
            } else if i < p.len() - 1 {
                assert(p[i] == encode_utf8(uuid)[i - 1]);
            }
        }
    }
}

/// An ASCII character that a text does not hold is not among its bytes.
pub proof fn lemma_no_byte(text: Seq<char>, c: char)
    requires
        c as u32 <= 0x7f,
        !text.contains(c),
    ensures
        forall|i: int| 0 <= i < encode_utf8(text).len() ==> encode_utf8(text)[i] != c as u8,
    decreases text.len(),
{
    if text.len() > 0 {
        let rest = text.drop_first();
        assert(!rest.contains(c)) by {
            if rest.contains(c) {
                let i = choose|i: int| 0 <= i < rest.len() && rest[i] == c;
                assert(text[i + 1] == c);
            }
        }
        lemma_no_byte(rest, c);
        assert(text[0] != c) by {
            if text[0] == c {
                assert(text.contains(text[0]));
            }
        }
        let head = encode_scalar(text[0] as u32);
        lemma_scalar_bytes(text[0]);
        assert(encode_utf8(text) =~= head + encode_utf8(rest));
        assert forall|i: int| 0 <= i < encode_utf8(text).len() implies encode_utf8(text)[i]
            != c as u8 by {
            if i < head.len() {
                assert(encode_utf8(text)[i] == head[i]);
                if text[0] as u32 <= 0x7f {
                    lemma_ascii_differs(text[0], c);
                    assert(head == seq![text[0] as u8]);
                } else {
                    assert(head[i] >= 0x80);
                }
            } else {
                assert(encode_utf8(text)[i] == encode_utf8(rest)[i - head.len()]);
            }
        }
    }
}

/// Two ASCII characters that differ are two bytes that differ.
proof fn lemma_ascii_differs(a: char, b: char)
    requires
        a != b,
        a as u32 <= 0x7f,
        b as u32 <= 0x7f,
    ensures
        a as u8 != b as u8,
{
}

/// A character is one ASCII byte, its own, or several that are not ASCII.
proof fn lemma_scalar_bytes(c: char)
    ensures
        c as u32 <= 0x7f ==> encode_scalar(c as u32) == seq![c as u8],
        c as u32 > 0x7f ==> forall|i: int|
            0 <= i < encode_scalar(c as u32).len() ==> (#[trigger] encode_scalar(c as u32)[i])
                >= 0x80,
{
    let n = c as u32;
    if n <= 0x7f {
        assert((n & 0x7F) as u8 == n as u8) by (bit_vector)
            requires
                n <= 0x7f,
        ;
    } else {
        assert(forall|x: u32| #![trigger leading_byte_width_2(x)] leading_byte_width_2(x) >= 0x80)
            by {
            assert forall|x: u32| #![trigger leading_byte_width_2(x)] leading_byte_width_2(x)
                >= 0x80 by {
                assert((0xC0u8 | ((x >> 6) & 0x1F) as u8) >= 0x80) by (bit_vector);
            }
        }
        assert(forall|x: u32| #![trigger leading_byte_width_3(x)] leading_byte_width_3(x) >= 0x80)
            by {
            assert forall|x: u32| #![trigger leading_byte_width_3(x)] leading_byte_width_3(x)
                >= 0x80 by {
                assert((0xE0u8 | ((x >> 12) & 0x0F) as u8) >= 0x80) by (bit_vector);
            }
        }
        assert(forall|x: u32| #![trigger leading_byte_width_4(x)] leading_byte_width_4(x) >= 0x80)
            by {
            assert forall|x: u32| #![trigger leading_byte_width_4(x)] leading_byte_width_4(x)
                >= 0x80 by {
                assert((0xF0u8 | ((x >> 18) & 0x7) as u8) >= 0x80) by (bit_vector);
            }
        }
        lemma_continuation(n);
    }
}

/// The bytes after the first of a character are not ASCII.
proof fn lemma_continuation(n: u32)
    ensures
        last_continuation_byte(n) >= 0x80,
        second_last_continuation_byte(n) >= 0x80,
        third_last_continuation_byte(n) >= 0x80,
{
    assert((0x80u8 | (n & 0x3F) as u8) >= 0x80) by (bit_vector);
    assert((0x80u8 | ((n >> 6) & 0x3F) as u8) >= 0x80) by (bit_vector);
    assert((0x80u8 | ((n >> 12) & 0x3F) as u8) >= 0x80) by (bit_vector);
}

/// Whether the anchors of a name can be looked for in a text: a name with a closing bracket
/// in it can only be one that the text does not have.
pub open spec fn can_seek(text: Seq<char>, uuid: Seq<char>) -> bool {
    !uuid.contains('>') || find_from(encode_utf8(text), encode_utf8(anchor_prefix(uuid)), 0) is None
}

/// Finds every anchor of an annotation in a text, in document order.
pub fn find_anchors(text: &str, uuid: &str) -> (r: Vec<FoundAnchor>)
    requires
        can_seek(text@, uuid@),
    ensures
        places(r@) == anchors_of(text@, uuid@),
        laid_out(text@, anchors_of(text@, uuid@)),
        forall|i: int|
            0 <= i < r@.len() ==> (#[trigger] r@[i]).label@ == chars_between(
                text@,
                r@[i].place().0,
                r@[i].place().2,
            ),
{
    let bytes: &[u8] = text.as_bytes();
    let mut prefix: String = "<".to_owned();
    prefix.append(uuid);
    prefix.append(".");
    proof {
        reveal_strlit("<");
        reveal_strlit(".");
        assert(prefix@ =~= anchor_prefix(uuid@));
        lemma_prefix(uuid@);
        lemma_encoded(text@);
    }
    let needle: &[u8] = prefix.as_str().as_bytes();
    let close: Vec<u8> = vec![62];
    assert(close@ =~= closing());
    let mut out: Vec<FoundAnchor> = Vec::new();
    let mut from: usize = 0;
    let total: usize = bytes.len();
    let ghost all = anchors_of(text@, uuid@);
    assert(places(out@) + anchors_from(text@, needle@, 0) =~= all);
    if find_bytes(bytes, needle, 0).is_none() {
        assert(anchors_from(text@, needle@, 0) =~= Seq::empty());
        assert(places(out@) =~= all);
        return out;
    }
    loop
        invariant
            bytes@ == encode_utf8(text@),
            valid_utf8(bytes@),
            needle@ == encode_utf8(anchor_prefix(uuid@)),
            needle@.len() >= 2,
            needle@[0] == 60,
            needle@.last() == 46,
            forall|i: int| 0 <= i < needle@.len() ==> needle@[i] != 62,
            close@ == closing(),
            from <= bytes@.len() == total,
            all == anchors_of(text@, uuid@),
            places(out@) + anchors_from(text@, needle@, from as int) == all,
            laid_out(text@, places(out@)),
            forall|i: int| 0 <= i < out@.len() ==> (#[trigger] places(out@)[i]).2 <= from,
            forall|i: int|
                0 <= i < out@.len() ==> (#[trigger] out@[i]).label@ == chars_between(
                    text@,
                    out@[i].place().0,
                    out@[i].place().2,
                ),
        decreases bytes@.len() - from,
    {
        match find_bytes(bytes, needle, from) {
            None => {
                assert(anchors_from(text@, needle@, from as int) =~= Seq::empty());
                assert(places(out@) =~= all);
                return out;
            },
            Some(start) => {
                match find_bytes(bytes, close.as_slice(), start) {
                    None => {
                        assert(anchors_from(text@, needle@, from as int) =~= Seq::empty());
                        assert(places(out@) =~= all);
                        return out;
                    },
                    Some(end) => {
                        let body: usize = start + needle.len();
                        let next: usize = end + 1;
                        proof {
                            let part = bytes@.subrange(start as int, start + needle@.len());
                            assert(part[0] == bytes@[start as int]);
                            assert(part.last() == bytes@[body - 1]);
                            assert(bytes@.subrange(end as int, end + 1)[0] == closing()[0]);
                            assert(body <= end) by {
                                if end < body {
                                    assert(part[end - start] == bytes@[end as int]);
                                }
                            }
                            lemma_ascii_alone(bytes@, start as int);
                            lemma_ascii_alone(bytes@, body - 1);
                            lemma_ascii_alone(bytes@, end as int);
                        }
                        let ghost before = places(out@);
                        let ghost old_out = out@;
                        let rest = Ghost(anchors_from(text@, needle@, next as int));
                        match Scope::from_suffix(slice(text, body, end)) {
                            Some(scope) => {
                                let label: String = slice(text, start, next).to_owned();
                                let found = FoundAnchor { at: start, scope, label };
                                assert(found.place() == (start as int, scope, next as int));
                                out.push(found);
                                assert(places(out@) =~= before.push((
                                    start as int,
                                    scope,
                                    next as int,
                                )));
                                assert(before + (seq![(start as int, scope, next as int)] + rest@)
                                    =~= places(out@) + rest@);
                                assert forall|i: int| 0 <= i < places(out@).len() implies (
                                #[trigger] places(out@)[i]).2 <= next by {
                                    if i < before.len() {
                                        assert(places(out@)[i] == before[i]);
                                    }
                                }
                                assert(laid_out(text@, places(out@))) by {
                                    let now = places(out@);
                                    assert forall|i: int| 0 <= i < now.len() implies (#[trigger]
                                    now[i]).0 < now[i].2 && boundary(text@, now[i].0) && boundary(
                                        text@,
                                        now[i].2,
                                    ) by {
                                        if i < before.len() {
                                            assert(now[i] == before[i]);
                                        }
                                    }
                                    assert forall|i: int, j: int|
                                        0 <= i < j < now.len() implies now[i].2 <= now[j].0 by {
                                        assert(now[i] == before[i]);
                                        if j < before.len() {
                                            assert(now[j] == before[j]);
                                        }
                                    }
                                }
                                from = next;
                            },
                            None => {
                                from = body;
                            },
                        }
                    },
                }
            },
        }
    }
}

// ---------------------------------------------------------- removing anchors

/// A text without the anchors of a list.
pub open spec fn without(bytes: Seq<u8>, list: Seq<(int, Scope, int)>) -> Seq<u8>
    decreases list.len(),
{
    if list.len() == 0 {
        bytes
    } else {
        without(spliced(bytes, list.last().0, list.last().2, seq![]), list.drop_last())
    }
}

/// Takes the anchors of a list out of a text, last first so that the places of
/// the others stay what they are.
pub fn strip_anchors(text: &str, anchors: &Vec<FoundAnchor>) -> (r: String)
    requires
        laid_out(text@, places(anchors@)),
    ensures
        encode_utf8(r@) == without(encode_utf8(text@), places(anchors@)),
{
    let mut out: String = text.to_owned();
    let mut left: usize = anchors.len();
    let ghost list = places(anchors@);
    assert(list.take(left as int) =~= list);
    while left > 0
        invariant
            left <= anchors@.len(),
            list == places(anchors@),
            laid_out(out@, list.take(left as int)),
            without(encode_utf8(out@), list.take(left as int)) == without(
                encode_utf8(text@),
                list,
            ),
        decreases left,
    {
        let ghost now = list.take(left as int);
        let ghost was = out@;
        left = left - 1;
        let anchor: &FoundAnchor = &anchors[left];
        assert(now[left as int] == anchor.place());
        assert(now.last() == anchor.place());
        proof {
            lemma_encoded(was);
            lemma_boundary_inside(encode_utf8(was), now[left as int].2);
        }
        let total: usize = byte_len(out.as_str());
        let end: usize = anchor.at + byte_len(anchor.label.as_str());
        assert(encode_utf8(""@) =~= Seq::<u8>::empty()) by {
            reveal_strlit("");
        }
        out = splice(out.as_str(), anchor.at, end, "");
        proof {
            assert(now.drop_last() =~= list.take(left as int));
            assert(laid_out(out@, list.take(left as int))) by {
                let rest = list.take(left as int);
                assert forall|i: int| 0 <= i < rest.len() implies (#[trigger] rest[i]).0
                    < rest[i].2 && boundary(out@, rest[i].0) && boundary(out@, rest[i].2) by {
                    assert(rest[i] == now[i]);
                    assert(now[i].2 <= now[left as int].0);
                    lemma_boundary_spliced(
                        encode_utf8(was),
                        anchor.at as int,
                        end as int,
                        encode_utf8(""@),
                        rest[i].0,
                    );
                    lemma_boundary_spliced(
                        encode_utf8(was),
                        anchor.at as int,
                        end as int,
                        encode_utf8(""@),
                        rest[i].2,
                    );
                }
                assert forall|i: int, j: int| 0 <= i < j < rest.len() implies rest[i].2
                    <= rest[j].0 by {
                    assert(rest[i] == now[i]);
                    assert(rest[j] == now[j]);
                }
            }
        }
    }
    assert(list.take(0) =~= Seq::empty());
    out
}

// ------------------------------------------------------------ writing a span

/// The two anchors of a span, as they are written.
pub open spec fn span_anchor(uuid: Seq<char>, end: bool) -> Seq<char> {
    seq!['<'] + uuid + seq!['.'] + (if end {
        "span.end"@
    } else {
        "span.begin"@
    }) + seq!['>']
}

/// One of the two anchors of a span.
pub fn span_anchor_text(uuid: &str, end: bool) -> (r: String)
    ensures
        r@ == span_anchor(uuid@, end),
{
    proof {
        reveal_strlit("<");
        reveal_strlit(".");
        reveal_strlit(">");
    }
    let mut out: String = "<".to_owned();
    out.append(uuid);
    out.append(".");
    out.append(if end {
        "span.end"
    } else {
        "span.begin"
    });
    out.append(">");
    assert(out@ =~= span_anchor(uuid@, end));
    out
}

/// A text with the two anchors of a span written around a part of it.
pub open spec fn with_span(bytes: Seq<u8>, start: int, end: int, uuid: Seq<char>) -> Seq<u8> {
    let closed = spliced(bytes, end, end, encode_utf8(span_anchor(uuid, true)));
    spliced(closed, start, start, encode_utf8(span_anchor(uuid, false)))
}

/// Writes the two anchors of a span around a part of a text. The end goes in
/// first, so that the start stays where it was.
pub fn span_source(text: &str, range: Range<usize>, uuid: &str) -> (r: Result<String, String>)
    requires
        range.start < range.end ==> boundary(text@, range.start as int) && boundary(
            text@,
            range.end as int,
        ),
    ensures
        match r {
            Ok(out) => range.start < range.end && encode_utf8(out@) == with_span(
                encode_utf8(text@),
                range.start as int,
                range.end as int,
                uuid@,
            ),
            Err(why) => range.start >= range.end && why@ == "empty span"@,
        },
{
    if range.start >= range.end {
        return Err("empty span".to_owned());
    }
    let begin: String = span_anchor_text(uuid, false);
    let end: String = span_anchor_text(uuid, true);
    proof {
        lemma_encoded(text@);
        lemma_encoded(end@);
        lemma_boundary_spliced(
            encode_utf8(text@),
            range.end as int,
            range.end as int,
            encode_utf8(end@),
            range.start as int,
        );
    }
    let closed: String = splice(text, range.end, range.end, end.as_str());
    Ok(splice(closed.as_str(), range.start, range.start, begin.as_str()))
}

// --------------------------------------------------------------------- laws

/// Taking out what was put in gives back what was there.
pub proof fn removing_takes_back(bytes: Seq<u8>, at: int, insert: Seq<u8>)
    requires
        0 <= at <= bytes.len(),
    ensures
        spliced(spliced(bytes, at, at, insert), at, at + insert.len(), seq![]) == bytes,
{
    let put = spliced(bytes, at, at, insert);
    let back = spliced(put, at, at + insert.len(), seq![]);
    assert(put.subrange(0, at) =~= bytes.subrange(0, at));
    assert(put.subrange(at + insert.len(), put.len() as int) =~= bytes.subrange(
        at,
        bytes.len() as int,
    ));
    assert(back =~= bytes);
}

/// A name holds no bracket.
proof fn lemma_label_plain(uuid: Seq<char>)
    requires
        is_label(uuid),
    ensures
        !uuid.contains('>'),
{
    if uuid.contains('>') {
        let k = uuid.index_of('>');
        assert(uuid[k] == '>');
    }
}

/// The letters of a scope's suffix hold no bracket.
proof fn lemma_suffix_plain(scope: Scope)
    ensures
        is_ascii_chars(scope_suffix(scope)),
        !scope_suffix(scope).contains('>'),
        !scope_suffix(scope).contains('<'),
        scope_suffix(scope).len() > 0,
{
    lemma_names();
}

/// An anchor in a text is the next that is found, where nothing before it looks like one
/// of the same annotation.
proof fn lemma_next_anchor(
    text: Seq<char>,
    uuid: Seq<char>,
    suffix: Seq<char>,
    scope: Scope,
    from: int,
    at: int,
)
    requires
        !uuid.contains('>'),
        !suffix.contains('>'),
        scope_of(suffix) == Some(scope),
        0 <= from <= at,
        ({
            let whole = encode_utf8(anchor_prefix(uuid) + suffix + seq!['>']);
            at + whole.len() <= encode_utf8(text).len() && encode_utf8(text).subrange(
                at,
                at + whole.len(),
            ) == whole
        }),
        forall|i: int|
            from <= i < at ==> !stands_at(encode_utf8(text), encode_utf8(anchor_prefix(uuid)), i),
    ensures
        ({
            let end = at + encode_utf8(anchor_prefix(uuid) + suffix + seq!['>']).len();
            anchors_from(text, encode_utf8(anchor_prefix(uuid)), from) == seq![(at, scope, end)]
                + anchors_from(text, encode_utf8(anchor_prefix(uuid)), end)
        }),
{
    let bytes = encode_utf8(text);
    let prefix = encode_utf8(anchor_prefix(uuid));
    let whole = encode_utf8(anchor_prefix(uuid) + suffix + seq!['>']);
    let p = prefix.len() as int;
    let m = encode_utf8(suffix).len() as int;
    lemma_prefix(uuid);
    lemma_no_byte(suffix, '>');
    lemma_encode_concat(anchor_prefix(uuid), suffix);
    lemma_encode_concat(anchor_prefix(uuid) + suffix, seq!['>']);
    is_ascii_chars_encode_utf8(seq!['>']);
    assert(seq!['>'][0] as u8 == 62);
    assert(whole =~= prefix + encode_utf8(suffix) + encode_utf8(seq!['>']));
    let part = bytes.subrange(at, at + whole.len());
    assert(bytes.subrange(at, at + p) =~= part.subrange(0, p));
    assert(whole.subrange(0, p) =~= prefix);
    assert(stands_at(bytes, prefix, at));
    lemma_find_from_skip(bytes, prefix, from, at);
    assert(find_from(bytes, prefix, from) == Some(at));
    let close = at + p + m;
    assert(bytes.subrange(close, close + 1) =~= part.subrange(p + m, p + m + 1));
    assert(whole.subrange(p + m, p + m + 1) =~= closing());
    assert(stands_at(bytes, closing(), close));
    assert forall|i: int| at <= i < close implies !stands_at(bytes, closing(), i) by {
        assert(bytes.subrange(i, i + 1)[0] == bytes[i]);
        assert(bytes[i] == part[i - at]);
        if i < at + p {
            assert(whole[i - at] == prefix[i - at]);
        } else {
            assert(whole[i - at] == encode_utf8(suffix)[i - at - p]);
        }
    }
    lemma_find_from_skip(bytes, closing(), at, close);
    assert(find_from(bytes, closing(), at) == Some(close));
    assert(bytes.subrange(at + p, close) =~= part.subrange(p, p + m));
    assert(whole.subrange(p, p + m) =~= encode_utf8(suffix));
    encode_utf8_decode_utf8(suffix);
}

/// Where nothing looks like an anchor any more, none is found.
proof fn lemma_no_more_anchors(text: Seq<char>, uuid: Seq<char>, from: int)
    requires
        0 <= from,
        forall|i: int|
            from <= i ==> !stands_at(encode_utf8(text), encode_utf8(anchor_prefix(uuid)), i),
    ensures
        anchors_from(text, encode_utf8(anchor_prefix(uuid)), from) == Seq::<
            (int, Scope, int),
        >::empty(),
{
    lemma_find_from(encode_utf8(text), encode_utf8(anchor_prefix(uuid)), from);
}

/// The prefix of an anchor, and an anchor, have a bracket at their head and no other.
proof fn lemma_one_bracket(uuid: Seq<char>, suffix: Seq<char>)
    requires
        is_label(uuid),
        is_ascii_chars(suffix),
        !suffix.contains('<'),
    ensures
        ({
            let prefix = encode_utf8(anchor_prefix(uuid));
            let whole = encode_utf8(anchor_prefix(uuid) + suffix + seq!['>']);
            &&& prefix.len() >= 2 && prefix[0] == 60 && whole.len() >= 2 && whole[0] == 60
            &&& forall|i: int| 0 < i < prefix.len() ==> prefix[i] != 60
            &&& forall|i: int| 0 < i < whole.len() ==> whole[i] != 60
        }),
{
    let body = uuid + seq!['.'];
    let tail = body + suffix + seq!['>'];
    assert forall|i: int| 0 <= i < uuid.len() implies uuid[i] != '<' && (uuid[i] as u32) < 128 by {
        assert(is_alnum(uuid[i]) || uuid[i] == '_');
    }
    assert(!body.contains('<')) by {
        if body.contains('<') {
            let k = body.index_of('<');
            assert(body[k] == '<');
        }
    }
    assert(!tail.contains('<')) by {
        if tail.contains('<') {
            let k = tail.index_of('<');
            assert(tail[k] == '<');
            if k < body.len() {
                assert(body[k] == '<');
            } else if k < body.len() + suffix.len() {
                assert(suffix[k - body.len()] == '<');
            }
        }
    }
    lemma_no_byte(body, '<');
    lemma_no_byte(tail, '<');
    assert(anchor_prefix(uuid) =~= seq!['<'] + body);
    assert(anchor_prefix(uuid) + suffix + seq!['>'] =~= seq!['<'] + tail);
    lemma_encode_concat(seq!['<'], body);
    lemma_encode_concat(seq!['<'], tail);
    is_ascii_chars_encode_utf8(seq!['<']);
    assert(seq!['<'][0] as u8 == 60);
    lemma_encode_concat(uuid, seq!['.']);
    is_ascii_chars_encode_utf8(seq!['.']);
    lemma_encode_concat(body + suffix, seq!['>']);
    is_ascii_chars_encode_utf8(seq!['>']);
}

/// What stands in a text with two pieces put in stands at the head of one of them, or
/// stood in the text, where it and the pieces have a bracket at their head and no other.
proof fn lemma_stands_in_parts(
    a: Seq<u8>,
    x: Seq<u8>,
    b: Seq<u8>,
    y: Seq<u8>,
    c: Seq<u8>,
    needle: Seq<u8>,
    i: int,
)
    requires
        needle.len() >= 1 && needle[0] == 60,
        forall|k: int| 0 < k < needle.len() ==> needle[k] != 60,
        x.len() >= 1 && x[0] == 60,
        forall|k: int| 0 < k < x.len() ==> x[k] != 60,
        y.len() >= 1 ==> y[0] == 60,
        forall|k: int| 0 < k < y.len() ==> y[k] != 60,
        forall|k: int| !stands_at(a + b + c, needle, k),
        stands_at(a + x + b + y + c, needle, i),
    ensures
        i == a.len() || (y.len() >= 1 && i == a.len() + x.len() + b.len()),
{
    let hay = a + x + b + y + c;
    let old_text = a + b + c;
    let n = needle.len() as int;
    let part = hay.subrange(i, i + n);
    assert forall|k: int| 0 <= k < n implies hay[i + k] == needle[k] by {
        assert(part[k] == hay[i + k]);
    }
    assert(hay[i + 0] == needle[0]);
    let second = a.len() + x.len();
    let third = second + b.len();
    let fourth = third + y.len();
    if i < a.len() {
        if i + n <= a.len() {
            assert(old_text.subrange(i, i + n) =~= needle);
            assert(stands_at(old_text, needle, i));
        } else {
            assert(hay[i + (a.len() - i)] == needle[a.len() - i]);
            assert(hay[a.len() as int] == x[0]);
        }
    } else if i == a.len() {
    } else if i < second {
        assert(hay[i] == x[i - a.len()]);
    } else if i < third {
        if i + n <= third {
            assert(old_text.subrange(i - x.len(), i - x.len() + n) =~= needle);
            assert(stands_at(old_text, needle, i - x.len()));
        } else if y.len() >= 1 {
            assert(hay[i + (third - i)] == needle[third - i]);
            assert(hay[third as int] == y[0]);
        } else {
            assert(old_text.subrange(i - x.len(), i - x.len() + n) =~= needle);
            assert(stands_at(old_text, needle, i - x.len()));
        }
    } else if y.len() >= 1 && i == third {
    } else if i < fourth {
        assert(hay[i] == y[i - third]);
    } else {
        let at = i - x.len() - y.len();
        assert(old_text.subrange(at, at + n) =~= needle);
        assert(stands_at(old_text, needle, at));
    }
}

/// What names a scope holds no bracket.
proof fn lemma_scope_plain(suffix: Seq<char>)
    requires
        scope_of(suffix) is Some,
    ensures
        is_ascii_chars(suffix),
        !suffix.contains('>'),
        !suffix.contains('<'),
{
    lemma_names();
}

/// An anchor in a text is among those found from any place before it on.
proof fn lemma_anchor_found(
    text: Seq<char>,
    uuid: Seq<char>,
    suffix: Seq<char>,
    from: int,
    at: int,
)
    requires
        is_label(uuid),
        scope_of(suffix) is Some,
        0 <= from <= at,
        stands_at(
            encode_utf8(text),
            encode_utf8(anchor_prefix(uuid) + suffix + seq!['>']),
            at,
        ),
    ensures
        anchors_from(text, encode_utf8(anchor_prefix(uuid)), from).contains(
            (
                at,
                scope_of(suffix)->0,
                at + encode_utf8(anchor_prefix(uuid) + suffix + seq!['>']).len(),
            ),
        ),
    decreases encode_utf8(text).len() - from,
{
    let bytes = encode_utf8(text);
    let prefix = encode_utf8(anchor_prefix(uuid));
    let whole = encode_utf8(anchor_prefix(uuid) + suffix + seq!['>']);
    let p = prefix.len() as int;
    let scope = scope_of(suffix)->0;
    let found = (at, scope, at + whole.len());
    lemma_encoded(text);
    lemma_scope_plain(suffix);
    lemma_label_plain(uuid);
    lemma_prefix(uuid);
    lemma_one_bracket(uuid, suffix);
    lemma_encode_concat(anchor_prefix(uuid), suffix);
    lemma_encode_concat(anchor_prefix(uuid) + suffix, seq!['>']);
    is_ascii_chars_encode_utf8(seq!['>']);
    assert(seq!['>'][0] as u8 == 62);
    let part = bytes.subrange(at, at + whole.len());
    assert(bytes[at] == part[0]);
    assert(bytes.subrange(at, at + p) =~= part.subrange(0, p));
    assert(whole.subrange(0, p) =~= prefix);
    assert(stands_at(bytes, prefix, at));
    lemma_find_from(bytes, prefix, from);
    let start = find_from(bytes, prefix, from)->0;
    if start == at {
        lemma_next_anchor(text, uuid, suffix, scope, from, at);
        assert(anchors_from(text, prefix, from)[0] == found);
    } else {
        let last = at + whole.len() - 1;
        assert(part[whole.len() - 1] == bytes[last]);
        assert(bytes.subrange(last, last + 1) =~= closing());
        assert(stands_at(bytes, closing(), last));
        lemma_find_from(bytes, closing(), start);
        let close = find_from(bytes, closing(), start)->0;
        let body = start + p;
        let head = bytes.subrange(start, body);
        assert(body <= at) by {
            if at < body {
                assert(head[at - start] == bytes[at]);
            }
        }
        let name = chars_between(text, body, close);
        assert(bytes.subrange(close, close + 1)[0] == bytes[close]);
        assert(body <= close) by {
            if close < body {
                assert(head[close - start] == bytes[close]);
            }
        }
        if scope_of(name) is Some {
            assert(close < at) by {
                if at < close {
                    assert(head.last() == bytes[body - 1]);
                    lemma_ascii_alone(bytes, body - 1);
                    lemma_ascii_alone(bytes, close);
                    lemma_boundary_take(bytes, body, close);
                    let upto = bytes.subrange(0, close);
                    lemma_boundary_skip(upto, body, close);
                    assert(upto.subrange(body, close) =~= bytes.subrange(body, close));
                    decode_utf8_encode_utf8(bytes.subrange(body, close));
                    lemma_scope_plain(name);
                    lemma_no_byte(name, '<');
                    assert(bytes.subrange(body, close)[at - body] == bytes[at]);
                }
            }
            lemma_anchor_found(text, uuid, suffix, close + 1, at);
            let rest = anchors_from(text, prefix, close + 1);
            let k = rest.index_of(found);
            assert(rest[k] == found);
            assert(anchors_from(text, prefix, from)[k + 1] == found);
        } else {
            lemma_anchor_found(text, uuid, suffix, body, at);
        }
    }
}

/// Every anchor of an annotation that stands in a text is found, whatever stands before it:
/// where it begins, with the scope it names, and where it ends.
pub proof fn every_anchor_is_found(text: Seq<char>, uuid: Seq<char>, suffix: Seq<char>, at: int)
    requires
        is_label(uuid),
        scope_of(suffix) is Some,
        stands_at(
            encode_utf8(text),
            encode_utf8(anchor_prefix(uuid) + suffix + seq!['>']),
            at,
        ),
    ensures
        anchors_of(text, uuid).contains(
            (
                at,
                scope_of(suffix)->0,
                at + encode_utf8(anchor_prefix(uuid) + suffix + seq!['>']).len(),
            ),
        ),
{
    lemma_anchor_found(text, uuid, suffix, 0, at);
}

/// An anchor that is written into a text that has none of that annotation is found: it
/// alone, where it is, with its scope.
pub proof fn written_anchor_is_found(
    before: Seq<char>,
    uuid: Seq<char>,
    scope: Scope,
    after: Seq<char>,
)
    requires
        is_label(uuid),
        forall|i: int|
            !stands_at(encode_utf8(before + after), encode_utf8(anchor_prefix(uuid)), i),
    ensures
        anchors_of(before + anchor_chars(uuid, scope) + after, uuid) == seq![
            (
                encode_utf8(before).len() as int,
                scope,
                (encode_utf8(before).len() + encode_utf8(anchor_chars(uuid, scope)).len()) as int,
            ),
        ],
{
    let anchor = anchor_chars(uuid, scope);
    let text = before + anchor + after;
    let bytes = encode_utf8(text);
    let suffix = scope_suffix(scope);
    let prefix = encode_utf8(anchor_prefix(uuid));
    let whole = encode_utf8(anchor);
    let at = encode_utf8(before).len() as int;
    lemma_suffix_plain(scope);
    lemma_label_plain(uuid);
    lemma_one_bracket(uuid, suffix);
    lemma_encode_concat(before, anchor);
    lemma_encode_concat(before + anchor, after);
    lemma_encode_concat(before, after);
    assert(anchor =~= anchor_prefix(uuid) + suffix + seq!['>']);
    suffix_names_its_scope(scope);
    let none = Seq::<u8>::empty();
    assert(encode_utf8(before) + whole + encode_utf8(after) + none + none =~= bytes);
    assert(encode_utf8(before) + encode_utf8(after) + none =~= encode_utf8(before + after));
    assert(bytes.subrange(at, at + whole.len()) =~= whole);
    assert forall|i: int| i != at implies !stands_at(bytes, prefix, i) by {
        if stands_at(bytes, prefix, i) {
            lemma_stands_in_parts(
                encode_utf8(before),
                whole,
                encode_utf8(after),
                none,
                none,
                prefix,
                i,
            );
        }
    }
    lemma_next_anchor(text, uuid, suffix, scope, 0, at);
    lemma_no_more_anchors(text, uuid, at + whole.len());
    assert(anchors_of(text, uuid) =~= seq![(at, scope, at + whole.len())]);
}

/// The two anchors of a stretch that are written into a text that has none of that
/// annotation are found: they alone, where they are.
pub proof fn written_span_is_found(
    a: Seq<char>,
    b: Seq<char>,
    c: Seq<char>,
    uuid: Seq<char>,
)
    requires
        is_label(uuid),
        forall|i: int| !stands_at(encode_utf8(a + b + c), encode_utf8(anchor_prefix(uuid)), i),
    ensures
        ({
            let begin = span_anchor(uuid, false);
            let end = span_anchor(uuid, true);
            let start = encode_utf8(a).len() as int;
            let stop = (start + encode_utf8(begin).len() + encode_utf8(b).len()) as int;
            anchors_of(a + begin + b + end + c, uuid) == seq![
                (start, Scope::Span, start + encode_utf8(begin).len()),
                (stop, Scope::Span, stop + encode_utf8(end).len()),
            ]
        }),
{
    let begin = span_anchor(uuid, false);
    let end = span_anchor(uuid, true);
    let text = a + begin + b + end + c;
    let bytes = encode_utf8(text);
    let prefix = encode_utf8(anchor_prefix(uuid));
    let first = encode_utf8(begin);
    let last = encode_utf8(end);
    let start = encode_utf8(a).len() as int;
    let stop = (start + first.len() + encode_utf8(b).len()) as int;
    lemma_names();
    lemma_label_plain(uuid);
    lemma_one_bracket(uuid, "span.begin"@);
    lemma_one_bracket(uuid, "span.end"@);
    assert(begin =~= anchor_prefix(uuid) + "span.begin"@ + seq!['>']);
    assert(end =~= anchor_prefix(uuid) + "span.end"@ + seq!['>']);
    lemma_encode_concat(a, begin);
    lemma_encode_concat(a + begin, b);
    lemma_encode_concat(a + begin + b, end);
    lemma_encode_concat(a + begin + b + end, c);
    lemma_encode_concat(a, b);
    lemma_encode_concat(a + b, c);
    assert(bytes =~= encode_utf8(a) + first + encode_utf8(b) + last + encode_utf8(c));
    assert(encode_utf8(a + b + c) =~= encode_utf8(a) + encode_utf8(b) + encode_utf8(c));
    assert(bytes.subrange(start, start + first.len()) =~= first);
    assert(bytes.subrange(stop, stop + last.len()) =~= last);
    assert forall|i: int| i != start && i != stop implies !stands_at(bytes, prefix, i) by {
        if stands_at(bytes, prefix, i) {
            lemma_stands_in_parts(
                encode_utf8(a),
                first,
                encode_utf8(b),
                last,
                encode_utf8(c),
                prefix,
                i,
            );
        }
    }
    lemma_next_anchor(text, uuid, "span.begin"@, Scope::Span, 0, start);
    lemma_next_anchor(text, uuid, "span.end"@, Scope::Span, start + first.len(), stop);
    lemma_no_more_anchors(text, uuid, stop + last.len());
    assert(anchors_of(text, uuid) =~= seq![
        (start, Scope::Span, start + first.len()),
        (stop, Scope::Span, stop + last.len()),
    ]);
}

} // verus!

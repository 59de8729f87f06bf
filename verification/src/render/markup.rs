//! Rendered HTML as text: the parts a page is put together from, and the
//! drawings that are in it.

use std::ops::Range;

use vstd::prelude::*;
use vstd::slice::slice_subrange;
use vstd::string::*;

use crate::num::{decimal, decimal_reads_back, parse_uint, parse_within};
use crate::render::html::SRC_ATTR;
use crate::text::{
    begins, chars_of, cut, ends, ends_with, find, find_at, find_from, is_alnum, is_digit,
    is_ascii_alphanumeric, lemma_find_from, lemma_find_from_skip, lemma_find_one, lemma_take_while,
    lemma_take_while_prefix, opt_text, same, stands, stands_at, string_of, take_while, texts, trim,
    trim_slice, trimmed, words, words_of,
};

verus! {

// ------------------------------------------------------------ the two parts

/// The document as a page wants it: its title, and the contents of its body.
#[derive(Debug)]
pub struct HtmlFragment {
    /// The document's title, if it declared one.
    pub title: String,
    /// Everything between `<body>` and `</body>`.
    pub body: String,
}

/// What stands between the first opening of a tag and the first closing after
/// it.
pub open spec fn element_text(html: Seq<char>, open: Seq<char>, close: Seq<char>) -> Option<Seq<char>> {
    match find(html, open) {
        None => None,
        Some(at) => match find_from(html, seq!['>'], at) {
            None => None,
            Some(gt) => match find_from(html, close, gt + 1) {
                None => None,
                Some(end) => Some(html.subrange(gt + 1, end)),
            },
        },
    }
}

/// What stands between the first opening of a tag and the first closing after
/// it.
fn between(html: &[char], open: &str, close: &str) -> (r: Option<String>)
    requires
        0 < open@.len(),
        0 < close@.len(),
    ensures
        match r {
            Some(s) => element_text(html@, open@, close@) == Some(s@),
            None => element_text(html@, open@, close@) is None,
        },
{
    let o: Vec<char> = chars_of(open);
    let c: Vec<char> = chars_of(close);
    let gt: Vec<char> = vec!['>'];
    let total: usize = html.len();
    assert(gt@ =~= seq!['>']);
    match find_at(html, o.as_slice(), 0) {
        None => None,
        Some(at) => match find_at(html, gt.as_slice(), at) {
            None => None,
            Some(end) => match find_at(html, c.as_slice(), end + 1) {
                None => None,
                Some(stop) => Some(string_of(slice_subrange(html, end + 1, stop))),
            },
        },
    }
}

/// The contents of a page's body, or all of it where it has none.
pub open spec fn page_body(html: Seq<char>) -> Seq<char> {
    match element_text(html, "<body"@, "</body>"@) {
        Some(body) => body,
        None => html,
    }
}

/// Splits a rendered document into the parts a page needs. Without a title that
/// is empty; without a body it is all of it.
pub fn fragment(html: &str) -> (r: HtmlFragment)
    ensures
        r.title@ == match element_text(html@, "<title"@, "</title>"@) {
            Some(title) => title,
            None => seq![],
        },
        r.body@ == page_body(html@),
{
    proof {
        reveal_strlit("<title");
        reveal_strlit("</title>");
        reveal_strlit("<body");
        reveal_strlit("</body>");
    }
    let h: Vec<char> = chars_of(html);
    let title: String = match between(h.as_slice(), "<title", "</title>") {
        Some(title) => title,
        None => {
            let none: String = String::new();
            assert(none@ =~= seq![]);
            none
        },
    };
    let body: String = match between(h.as_slice(), "<body", "</body>") {
        Some(body) => body,
        None => html.to_string(),
    };
    HtmlFragment { title, body }
}

/// What a page puts in a body is what splitting the page gives back, as long as
/// nothing before it opens one and nothing in it closes one.
pub proof fn body_is_given_back(before: Seq<char>, body: Seq<char>, after: Seq<char>)
    requires
        find(before + "<body"@, "<body"@) == Some(before.len() as int),
        find(body + "</body>"@, "</body>"@) == Some(body.len() as int),
    ensures
        element_text(
            before + "<body>"@ + body + "</body>"@ + after,
            "<body"@,
            "</body>"@,
        ) == Some(body),
{
    reveal_strlit("<body");
    reveal_strlit("<body>");
    reveal_strlit("</body>");
    let open = "<body"@;
    let close = "</body>"@;
    let html = before + "<body>"@ + body + close + after;
    let b = before.len() as int;
    let first = before + open;
    lemma_find_from(first, open, 0);
    assert forall|i: int| 0 <= i < b implies !stands_at(html, open, i) by {
        assert(html.subrange(i, i + open.len()) =~= first.subrange(i, i + open.len()));
        assert(!stands_at(first, open, i));
    }
    assert(html.subrange(b, b + 5) =~= open);
    lemma_find_from_skip(html, open, 0, b);
    assert(find(html, open) == Some(b));
    let gt = seq!['>'];
    assert forall|i: int| b <= i < b + 5 implies !stands_at(html, gt, i) by {
        assert(html.subrange(i, i + 1)[0] == open[i - b]);
    }
    assert(html.subrange(b + 5, b + 6) =~= gt) by {
        assert(html[b + 5] == "<body>"@[5]);
    }
    lemma_find_from_skip(html, gt, b, b + 5);
    assert(find_from(html, gt, b) == Some(b + 5));
    let s = b + 6;
    let second = body + close;
    lemma_find_from(second, close, 0);
    assert forall|i: int| s <= i < s + body.len() implies !stands_at(html, close, i) by {
        assert(html.subrange(i, i + close.len()) =~= second.subrange(i - s, i - s + close.len()));
        assert(!stands_at(second, close, i - s));
    }
    assert(html.subrange(s + body.len(), s + body.len() + 7) =~= close);
    lemma_find_from_skip(html, close, s, s + body.len());
    assert(find_from(html, close, s) == Some(s + body.len()));
    assert(html.subrange(s, s + body.len()) =~= body);
}

// ----------------------------------------------------------------- drawings

/// A drawing found in a rendered body.
#[derive(Debug)]
pub struct FramedDrawing {
    /// The source range of the innermost thing around it that came from the
    /// document.
    pub range: Range<usize>,
    /// The drawing, as it stands in the page.
    pub svg: String,
}

/// A drawing found in a rendered body.
pub struct Drawing {
    pub start: int,
    pub end: int,
    pub svg: Seq<char>,
}

impl View for FramedDrawing {
    type V = Drawing;

    open spec fn view(&self) -> Drawing {
        Drawing { start: self.range.start as int, end: self.range.end as int, svg: self.svg@ }
    }
}

/// The tags that never close, and so never nest anything.
pub open spec fn is_void(tag: Seq<char>) -> bool {
    ||| tag == "area"@
    ||| tag == "base"@
    ||| tag == "br"@
    ||| tag == "col"@
    ||| tag == "embed"@
    ||| tag == "hr"@
    ||| tag == "img"@
    ||| tag == "input"@
    ||| tag == "link"@
    ||| tag == "meta"@
    ||| tag == "source"@
    ||| tag == "track"@
    ||| tag == "wbr"@
}

/// Whether a tag never closes.
fn void_tag(tag: &str) -> (r: bool)
    ensures
        r == is_void(tag@),
{
    same(tag, "area") || same(tag, "base") || same(tag, "br") || same(tag, "col") || same(
        tag,
        "embed",
    ) || same(tag, "hr") || same(tag, "img") || same(tag, "input") || same(tag, "link") || same(
        tag,
        "meta",
    ) || same(tag, "source") || same(tag, "track") || same(tag, "wbr")
}

/// Where a tag ends that is read up to `at`, with a quote open or none: after
/// the first `>` that is not inside an attribute's value.
pub open spec fn tag_stop(body: Seq<char>, at: int, quote: Option<char>) -> Option<int>
    decreases body.len() - at,
{
    if at < 0 || at >= body.len() {
        None
    } else {
        match quote {
            Some(q) => tag_stop(
                body,
                at + 1,
                if body[at] == q {
                    None
                } else {
                    Some(q)
                },
            ),
            None => if body[at] == '>' {
                Some(at + 1)
            } else if body[at] == '"' || body[at] == '\'' {
                tag_stop(body, at + 1, Some(body[at]))
            } else {
                tag_stop(body, at + 1, None)
            },
        }
    }
}

/// Where an open tag beginning at `open` ends, ignoring `>` inside attribute
/// values.
pub fn tag_end(body: &[char], open: usize) -> (r: Option<usize>)
    ensures
        match r {
            Some(end) => tag_stop(body@, open as int, None) == Some(end as int) && open < end
                <= body@.len(),
            None => tag_stop(body@, open as int, None) is None,
        },
{
    let mut quote: Option<char> = None;
    let mut at: usize = open;
    while at < body.len()
        invariant
            open <= at,
            tag_stop(body@, open as int, None) == tag_stop(body@, at as int, quote),
        decreases body@.len() - at,
    {
        let c: char = body[at];
        match quote {
            Some(q) => {
                if c == q {
                    quote = None;
                }
            },
            None => {
                if c == '>' {
                    return Some(at + 1);
                }
                if c == '"' || c == '\'' {
                    quote = Some(c);
                }
            },
        }
        at = at + 1;
    }
    None
}

/// What the attribute that holds a source range is written with.
pub open spec fn src_opening() -> Seq<char> {
    SRC_ATTR@ + "=\""@
}

/// Two numbers with a colon between, as a range.
pub open spec fn range_in(value: Seq<char>) -> Option<(nat, nat)> {
    match find(value, seq![':']) {
        None => None,
        Some(at) => match (
            parse_uint(value.take(at), usize::MAX as nat),
            parse_uint(value.skip(at + 1), usize::MAX as nat),
        ) {
            (Some(start), Some(end)) => Some((start, end)),
            _ => None,
        },
    }
}

/// The source range an open tag carries, if it carries one.
pub open spec fn tag_range(tag: Seq<char>) -> Option<(nat, nat)> {
    match find(tag, src_opening()) {
        None => None,
        Some(at) => {
            let from = at + src_opening().len();
            match find_from(tag, seq!['"'], from) {
                None => None,
                Some(end) => range_in(tag.subrange(from, end)),
            }
        },
    }
}

/// A range as numbers.
pub open spec fn range_view(r: Option<Range<usize>>) -> Option<(nat, nat)> {
    match r {
        Some(r) => Some((r.start as nat, r.end as nat)),
        None => None,
    }
}

/// Two numbers with a colon between, as a range.
fn read_range(value: &[char]) -> (r: Option<Range<usize>>)
    ensures
        range_view(r) == range_in(value@),
{
    let colon: Vec<char> = vec![':'];
    assert(colon@ =~= seq![':']);
    match find_at(value, colon.as_slice(), 0) {
        None => None,
        Some(at) => {
            let (head, tail) = cut(value, at, 1);
            let start: Option<u64> = parse_within(head, usize::MAX as u64);
            let end: Option<u64> = parse_within(tail, usize::MAX as u64);
            match (start, end) {
                (Some(start), Some(end)) => Some(Range { start: start as usize, end: end as usize }),
                _ => None,
            }
        },
    }
}

/// The source range an open tag carries, if it carries one.
pub fn attr_range(open_tag: &[char]) -> (r: Option<Range<usize>>)
    ensures
        range_view(r) == tag_range(open_tag@),
{
    let mut needle: String = SRC_ATTR.to_string();
    needle.append("=\"");
    let n: Vec<char> = chars_of(needle.as_str());
    let quote: Vec<char> = vec!['"'];
    assert(quote@ =~= seq!['"']);
    proof {
        reveal_strlit("=\"");
    }
    assert(n@ == src_opening());
    let total: usize = open_tag.len();
    match find_at(open_tag, n.as_slice(), 0) {
        None => None,
        Some(at) => {
            let from: usize = at + n.len();
            match find_at(open_tag, quote.as_slice(), from) {
                None => None,
                Some(end) => read_range(slice_subrange(open_tag, from, end)),
            }
        },
    }
}

/// Where the `</svg>` sits that closes the outermost of `depth` drawings that
/// are open at `at`, counting the ones nested inside.
pub open spec fn svg_stop(body: Seq<char>, at: int, depth: nat) -> Option<int>
    decreases body.len() - at,
{
    if at < 0 {
        None
    } else {
        match find_from(body, "</svg>"@, at) {
            None => None,
            Some(close) => {
                proof {
                    reveal_strlit("</svg>");
                    reveal_strlit("<svg");
                    lemma_find_from(body, "</svg>"@, at);
                    lemma_find_from(body, "<svg"@, at);
                }
                match find_from(body, "<svg"@, at) {
                    Some(open) if open < close => svg_stop(body, open + "<svg"@.len(), depth + 1),
                    _ => if depth <= 1 {
                        Some(close + "</svg>"@.len())
                    } else {
                        svg_stop(body, close + "</svg>"@.len(), (depth - 1) as nat)
                    },
                }
            },
        }
    }
}

/// Where the `</svg>` that closes an SVG opened before `from` ends, counting
/// the ones nested inside it.
pub fn closing_svg(body: &[char], from: usize) -> (r: Option<usize>)
    requires
        from <= body@.len(),
    ensures
        match r {
            Some(end) => svg_stop(body@, from as int, 1) == Some(end as int) && from < end
                <= body@.len(),
            None => svg_stop(body@, from as int, 1) is None,
        },
{
    proof {
        reveal_strlit("</svg>");
        reveal_strlit("<svg");
    }
    let total: usize = body.len();
    let o: Vec<char> = chars_of("<svg");
    let c: Vec<char> = chars_of("</svg>");
    let mut depth: usize = 1;
    let mut at: usize = from;
    loop
        invariant
            total == body@.len(),
            o@ == "<svg"@,
            c@ == "</svg>"@,
            o@.len() == 4,
            c@.len() == 6,
            from <= at <= total,
            1 <= depth <= 1 + (at - from),
            svg_stop(body@, from as int, 1) == svg_stop(body@, at as int, depth as nat),
        decreases total - at,
    {
        let close: usize = match find_at(body, c.as_slice(), at) {
            None => {
                return None;
            },
            Some(close) => close,
        };
        let open: Option<usize> = find_at(body, o.as_slice(), at);
        match open {
            Some(open) => {
                if open < close {
                    depth = depth + 1;
                    at = open + 4;
                    continue;
                }
            },
            None => {},
        }
        if depth == 1 {
            return Some(close + 6);
        }
        depth = depth - 1;
        at = close + 6;
    }
}

/// The characters a tag's name is made of.
pub open spec fn names_tag() -> spec_fn(char) -> bool {
    |c: char| is_alnum(c) || c == '-'
}

/// The name of the tag whose `<` is at a place.
pub open spec fn tag_name(body: Seq<char>, at: int) -> Seq<char> {
    take_while(body.skip(at + 1), names_tag())
}

/// The name of the tag whose `<` is at a place.
fn name_at(body: &[char], at: usize) -> (r: String)
    requires
        at < body@.len(),
    ensures
        r@ == tag_name(body@, at as int),
{
    let n: usize = body.len();
    let mut end: usize = at + 1;
    while end < n && (is_ascii_alphanumeric(body[end]) || body[end] == '-')
        invariant
            at + 1 <= end <= n,
            n == body@.len(),
            forall|k: int| at < k < end ==> names_tag()(#[trigger] body@[k]),
        decreases n - end,
    {
        end = end + 1;
    }
    proof {
        lemma_take_while(body@.skip(at + 1), names_tag(), end - at - 1);
        assert(body@.skip(at + 1).take(end - at - 1) =~= body@.subrange(at + 1, end as int));
    }
    string_of(slice_subrange(body, at + 1, end))
}

/// Where reading goes on after a tag that opens nothing: after its `>`, or
/// after the character it begins with where it has none.
pub open spec fn after_tag(body: Seq<char>, at: int) -> int {
    match find_from(body, seq!['>'], at + 1) {
        Some(gt) => gt + 1,
        None => at + 2,
    }
}

/// The innermost range among those of the elements that are open.
pub open spec fn innermost(open: Seq<Option<(nat, nat)>>) -> Option<(nat, nat)>
    decreases open.len(),
{
    if open.len() == 0 {
        None
    } else {
        match open.last() {
            Some(range) => Some(range),
            None => innermost(open.drop_last()),
        }
    }
}

/// The elements that are open after one is closed.
pub open spec fn closed(open: Seq<Option<(nat, nat)>>) -> Seq<Option<(nat, nat)>> {
    if open.len() == 0 {
        open
    } else {
        open.drop_last()
    }
}

/// Where the drawing stops whose tag is at `at` and ends at `end`: only a
/// drawing inside something that says where it came from is one.
pub open spec fn drawing_stop(
    body: Seq<char>,
    at: int,
    end: int,
    open: Seq<Option<(nat, nat)>>,
) -> Option<int> {
    if tag_name(body, at) == "svg"@ && innermost(open) is Some {
        svg_stop(body, end, 1)
    } else {
        None
    }
}

/// The drawings in a body from a place on, with the source ranges of the
/// elements that are open there.
pub open spec fn drawings(body: Seq<char>, from: int, open: Seq<Option<(nat, nat)>>) -> Seq<Drawing>
    decreases body.len() - from,
{
    match find_from(body, seq!['<'], from) {
        None => seq![],
        Some(at) => if from < 0 {
            seq![]
        } else {
            proof {
                lemma_find_from(body, seq!['<'], from);
                lemma_find_from(body, seq!['>'], at + 1);
                lemma_tag_stop(body, at, None);
            }
            if at + 1 < body.len() && body[at + 1] == '/' {
                drawings(body, after_tag(body, at), closed(open))
            } else if at + 1 < body.len() && body[at + 1] == '!' {
                drawings(body, after_tag(body, at), open)
            } else {
                match tag_stop(body, at, None) {
                    None => seq![],
                    Some(end) => if tag_name(body, at).len() == 0 {
                        drawings(body, at + 1, open)
                    } else {
                        match drawing_stop(body, at, end, open) {
                            Some(stop) => {
                                proof {
                                    lemma_svg_stop(body, end, 1);
                                }
                                seq![
                                    Drawing {
                                        start: innermost(open).unwrap().0 as int,
                                        end: innermost(open).unwrap().1 as int,
                                        svg: body.subrange(at, stop),
                                    },
                                ] + drawings(body, stop, open)
                            },
                            None => {
                                let tag = body.subrange(at, end);
                                drawings(
                                    body,
                                    end,
                                    if ends(tag, "/>"@) || is_void(tag_name(body, at)) {
                                        open
                                    } else {
                                        open.push(tag_range(tag))
                                    },
                                )
                            },
                        }
                    },
                }
            }
        },
    }
}

/// A tag ends after it begins, and inside the text.
pub proof fn lemma_tag_stop(body: Seq<char>, at: int, quote: Option<char>)
    ensures
        tag_stop(body, at, quote) matches Some(end) ==> at < end <= body.len(),
    decreases body.len() - at,
{
    if 0 <= at < body.len() {
        match quote {
            Some(q) => {
                lemma_tag_stop(
                    body,
                    at + 1,
                    if body[at] == q {
                        None
                    } else {
                        Some(q)
                    },
                );
            },
            None => {
                lemma_tag_stop(body, at + 1, Some(body[at]));
                lemma_tag_stop(body, at + 1, None);
            },
        }
    }
}

/// A drawing closes after it begins, inside the text, and with `</svg>`.
pub proof fn lemma_svg_stop(body: Seq<char>, at: int, depth: nat)
    ensures
        svg_stop(body, at, depth) matches Some(end) ==> {
            &&& at + 6 <= end <= body.len()
            &&& stands_at(body, "</svg>"@, end - 6)
        },
    decreases body.len() - at,
{
    if at >= 0 && find_from(body, "</svg>"@, at) is Some {
        let close = find_from(body, "</svg>"@, at).unwrap();
        reveal_strlit("</svg>");
        reveal_strlit("<svg");
        lemma_find_from(body, "</svg>"@, at);
        lemma_find_from(body, "<svg"@, at);
        match find_from(body, "<svg"@, at) {
            Some(open) if open < close => {
                lemma_svg_stop(body, open + 4, depth + 1);
            },
            _ => if depth > 1 {
                lemma_svg_stop(body, close + 6, (depth - 1) as nat);
            },
        }
    }
}

/// Every drawing that is found is one whole `<svg>` element.
pub proof fn drawings_are_whole(
    body: Seq<char>,
    from: int,
    open: Seq<Option<(nat, nat)>>,
    i: int,
)
    requires
        0 <= i < drawings(body, from, open).len(),
    ensures
        begins(drawings(body, from, open)[i].svg, "<svg"@),
        ends(drawings(body, from, open)[i].svg, "</svg>"@),
    decreases body.len() - from,
{
    let at = find_from(body, seq!['<'], from).unwrap();
    lemma_find_from(body, seq!['<'], from);
    lemma_find_from(body, seq!['>'], at + 1);
    lemma_tag_stop(body, at, None);
    if at + 1 < body.len() && body[at + 1] == '/' {
        drawings_are_whole(body, after_tag(body, at), closed(open), i);
    } else if at + 1 < body.len() && body[at + 1] == '!' {
        drawings_are_whole(body, after_tag(body, at), open, i);
    } else {
        let end = tag_stop(body, at, None).unwrap();
        if tag_name(body, at).len() == 0 {
            drawings_are_whole(body, at + 1, open, i);
        } else {
            match drawing_stop(body, at, end, open) {
                Some(stop) => {
                    lemma_svg_stop(body, end, 1);
                    if i > 0 {
                        drawings_are_whole(body, stop, open, i - 1);
                    } else {
                        let svg = body.subrange(at, stop);
                        reveal_strlit("<svg");
                        reveal_strlit("svg");
                        reveal_strlit("</svg>");
                        lemma_name_stands(body, at);
                        assert(body.subrange(at, at + 1)[0] == '<');
                        let name = body.subrange(at + 1, at + 4);
                        assert(name[0] == 's' && name[1] == 'v' && name[2] == 'g');
                        assert(svg.subrange(0, 4) =~= "<svg"@);
                        assert(svg.subrange(svg.len() - 6, svg.len() as int) =~= body.subrange(
                            stop - 6,
                            stop,
                        ));
                    }
                },
                None => {
                    let tag = body.subrange(at, end);
                    drawings_are_whole(
                        body,
                        end,
                        if ends(tag, "/>"@) || is_void(tag_name(body, at)) {
                            open
                        } else {
                            open.push(tag_range(tag))
                        },
                        i,
                    );
                },
            }
        }
    }
}

/// Whether an element opens at a place, by a tag that ends at or before another and says that
/// the element came from a range of the source.
pub open spec fn opens_from(body: Seq<char>, at: int, upto: int, range: (nat, nat)) -> bool {
    &&& 0 <= at < body.len()
    &&& body[at] == '<'
    &&& tag_name(body, at).len() > 0
    &&& tag_stop(body, at, None) matches Some(end) && {
        &&& at < end <= upto
        &&& !ends(body.subrange(at, end), "/>"@)
        &&& !is_void(tag_name(body, at))
        &&& tag_range(body.subrange(at, end)) == Some(range)
    }
}

/// Whether a drawing is what stands in a body between two places, one whole `<svg>` element,
/// under the range that the tag of an element opened before it says.
pub open spec fn drawn_at(body: Seq<char>, d: Drawing, start: int, end: int) -> bool {
    &&& 0 <= start < end <= body.len()
    &&& d.svg == body.subrange(start, end)
    &&& begins(d.svg, "<svg"@)
    &&& ends(d.svg, "</svg>"@)
    &&& 0 <= d.start
    &&& 0 <= d.end
    &&& exists|at: int| #[trigger] opens_from(body, at, start, (d.start as nat, d.end as nat))
}

/// Whether drawings stand in a body at some places, from `from` on and each after the one
/// before it.
pub open spec fn drawn_in_order(
    body: Seq<char>,
    from: int,
    list: Seq<Drawing>,
    places: Seq<(int, int)>,
) -> bool {
    &&& places.len() == list.len()
    &&& forall|i: int|
        0 <= i < list.len() ==> from <= (#[trigger] places[i]).0 && drawn_at(
            body,
            list[i],
            places[i].0,
            places[i].1,
        )
    &&& forall|i: int, j: int| 0 <= i < j < places.len() ==> places[i].1 <= places[j].0
}

/// The innermost range is that of one of the elements that are open.
proof fn lemma_innermost(open: Seq<Option<(nat, nat)>>)
    ensures
        innermost(open) is Some ==> exists|k: int|
            0 <= k < open.len() && #[trigger] open[k] == innermost(open),
    decreases open.len(),
{
    if open.len() > 0 && open.last() is None {
        lemma_innermost(open.drop_last());
        if innermost(open) is Some {
            let rest = open.drop_last();
            let k = choose|k: int| 0 <= k < rest.len() && #[trigger] rest[k] == innermost(rest);
            assert(open[k] == innermost(open));
        }
    } else if open.len() > 0 {
        assert(open[open.len() - 1] == innermost(open));
    }
}

/// Drawings that follow a place stand in order from any place before it on.
proof fn lemma_drawn_earlier(
    body: Seq<char>,
    from: int,
    later: int,
    list: Seq<Drawing>,
    places: Seq<(int, int)>,
)
    requires
        from <= later,
        drawn_in_order(body, later, list, places),
    ensures
        drawn_in_order(body, from, list, places),
{
}

/// A drawing and those that follow it stand in order.
proof fn lemma_drawn_first(
    body: Seq<char>,
    from: int,
    d: Drawing,
    start: int,
    end: int,
    list: Seq<Drawing>,
    places: Seq<(int, int)>,
)
    requires
        from <= start,
        drawn_at(body, d, start, end),
        drawn_in_order(body, end, list, places),
    ensures
        drawn_in_order(body, from, seq![d] + list, seq![(start, end)] + places),
{
    let all = seq![d] + list;
    let at = seq![(start, end)] + places;
    assert forall|i: int| 0 <= i < all.len() implies from <= (#[trigger] at[i]).0 && drawn_at(
        body,
        all[i],
        at[i].0,
        at[i].1,
    ) by {
        if i > 0 {
            assert(at[i] == places[i - 1]);
            assert(all[i] == list[i - 1]);
        }
    }
    assert forall|i: int, j: int| 0 <= i < j < at.len() implies at[i].1 <= at[j].0 by {
        assert(at[j] == places[j - 1]);
        if i > 0 {
            assert(at[i] == places[i - 1]);
        }
    }
}

/// Where the drawings in a body stand from a place on, with the elements that are open there
/// and where each of them was opened.
proof fn lemma_drawn(
    body: Seq<char>,
    from: int,
    open: Seq<Option<(nat, nat)>>,
    tags: Seq<int>,
) -> (places: Seq<(int, int)>)
    requires
        0 <= from,
        tags.len() == open.len(),
        forall|k: int|
            0 <= k < open.len() && (#[trigger] open[k]) is Some ==> opens_from(
                body,
                tags[k],
                from,
                open[k]->0,
            ),
    ensures
        drawn_in_order(body, from, drawings(body, from, open), places),
    decreases body.len() - from,
{
    let none = Seq::<(int, int)>::empty();
    lemma_find_from(body, seq!['<'], from);
    let at = find_from(body, seq!['<'], from).unwrap();
    if find_from(body, seq!['<'], from) is Some {
        lemma_find_from(body, seq!['>'], at + 1);
        lemma_tag_stop(body, at, None);
        assert(body.subrange(at, at + 1)[0] == '<');
    }
    if find_from(body, seq!['<'], from) is None {
        none
    } else if at + 1 < body.len() && body[at + 1] == '/' {
        let later = after_tag(body, at);
        let fewer = if open.len() == 0 {
            tags
        } else {
            tags.drop_last()
        };
        let places = lemma_drawn(body, later, closed(open), fewer);
        lemma_drawn_earlier(body, from, later, drawings(body, later, closed(open)), places);
        places
    } else if at + 1 < body.len() && body[at + 1] == '!' {
        let later = after_tag(body, at);
        let places = lemma_drawn(body, later, open, tags);
        lemma_drawn_earlier(body, from, later, drawings(body, later, open), places);
        places
    } else if tag_stop(body, at, None) is None {
        none
    } else {
        let end = tag_stop(body, at, None).unwrap();
        if tag_name(body, at).len() == 0 {
            let places = lemma_drawn(body, at + 1, open, tags);
            lemma_drawn_earlier(body, from, at + 1, drawings(body, at + 1, open), places);
            places
        } else {
            match drawing_stop(body, at, end, open) {
                Some(stop) => {
                    lemma_svg_stop(body, end, 1);
                    let places = lemma_drawn(body, stop, open, tags);
                    drawings_are_whole(body, from, open, 0);
                    let d = drawings(body, from, open)[0];
                    lemma_innermost(open);
                    let k = choose|k: int|
                        0 <= k < open.len() && #[trigger] open[k] == innermost(open);
                    assert(opens_from(body, tags[k], at, (d.start as nat, d.end as nat)));
                    lemma_drawn_first(
                        body,
                        from,
                        d,
                        at,
                        stop,
                        drawings(body, stop, open),
                        places,
                    );
                    seq![(at, stop)] + places
                },
                None => {
                    let tag = body.subrange(at, end);
                    let nests = !(ends(tag, "/>"@) || is_void(tag_name(body, at)));
                    let more = if nests {
                        open.push(tag_range(tag))
                    } else {
                        open
                    };
                    let opened = if nests {
                        tags.push(at)
                    } else {
                        tags
                    };
                    let places = lemma_drawn(body, end, more, opened);
                    lemma_drawn_earlier(body, from, end, drawings(body, end, more), places);
                    places
                },
            }
        }
    }
}

/// The drawings of a body stand in it in the order they are found in, none inside or across
/// another: each is one whole `<svg>` element, and the range it is under is the one that the
/// tag of an element opened before it says.
pub proof fn drawings_are_in_order(body: Seq<char>)
    ensures
        exists|places: Seq<(int, int)>| #[trigger]
            drawn_in_order(body, 0, drawings(body, 0, seq![]), places),
{
    let places = lemma_drawn(body, 0, seq![], seq![]);
    assert(drawn_in_order(body, 0, drawings(body, 0, seq![]), places));
}

/// A tag's name stands right after its `<`.
proof fn lemma_name_stands(body: Seq<char>, at: int)
    requires
        0 <= at < body.len(),
    ensures
        tag_name(body, at).len() <= body.len() - at - 1,
        body.subrange(at + 1, at + 1 + tag_name(body, at).len()) == tag_name(body, at),
{
    lemma_take_while_prefix(body.skip(at + 1), names_tag());
    let n = tag_name(body, at).len() as int;
    assert(body.skip(at + 1).take(n) =~= body.subrange(at + 1, at + 1 + n));
}

/// The ranges of the elements that are open.
pub open spec fn open_view(open: Seq<Option<Range<usize>>>) -> Seq<Option<(nat, nat)>> {
    open.map_values(|r: Option<Range<usize>>| range_view(r))
}

/// The drawings found so far.
pub open spec fn found_view(found: Seq<FramedDrawing>) -> Seq<Drawing> {
    found.map_values(|d: FramedDrawing| d@)
}

/// The innermost range among those of the elements that are open.
fn innermost_of(open: &Vec<Option<Range<usize>>>) -> (r: Option<Range<usize>>)
    ensures
        range_view(r) == innermost(open_view(open@)),
{
    let ghost all = open_view(open@);
    let mut i: usize = open.len();
    assert(all.take(i as int) =~= all);
    while i > 0
        invariant
            i <= open@.len(),
            all == open_view(open@),
            innermost(all) == innermost(all.take(i as int)),
        decreases i,
    {
        i = i - 1;
        assert(all.take(i + 1).last() == range_view(open@[i as int]));
        assert(all.take(i + 1).drop_last() =~= all.take(i as int));
        match &open[i] {
            Some(range) => {
                return Some(Range { start: range.start, end: range.end });
            },
            None => {},
        }
    }
    None
}

/// Every framed drawing in a rendered body, with the piece of document it sits
/// inside: the innermost enclosing element that says where it came from.
pub fn framed_drawings(body: &str) -> (r: Vec<FramedDrawing>)
    ensures
        found_view(r@) == drawings(body@, 0, seq![]),
{
    let b: Vec<char> = chars_of(body);
    let t: &[char] = b.as_slice();
    let total: usize = t.len();
    let lt: Vec<char> = vec!['<'];
    let gt: Vec<char> = vec!['>'];
    let slash: Vec<char> = chars_of("/>");
    assert(lt@ =~= seq!['<']);
    assert(gt@ =~= seq!['>']);
    let ghost whole = drawings(body@, 0, seq![]);
    let mut found: Vec<FramedDrawing> = Vec::new();
    let mut open: Vec<Option<Range<usize>>> = Vec::new();
    let mut from: usize = 0;
    assert(open_view(open@) =~= seq![]);
    assert(found_view(found@) + whole =~= whole);
    loop
        invariant
            t@ == body@,
            total == t@.len(),
            lt@ == seq!['<'],
            gt@ == seq!['>'],
            slash@ == "/>"@,
            from <= total,
            whole == drawings(body@, 0, seq![]),
            found_view(found@) + drawings(t@, from as int, open_view(open@)) == whole,
        decreases total - from,
    {
        let at: usize = match find_at(t, lt.as_slice(), from) {
            Some(at) => at,
            None => {
                assert(found_view(found@) + Seq::<Drawing>::empty() =~= found_view(found@));
                return found;
            },
        };
        proof {
            lemma_find_from(t@, lt@, from as int);
            lemma_find_from(t@, gt@, at + 1);
        }
        let ghost before = found_view(found@);
        let closes: bool = at + 1 < total && t[at + 1] == '/';
        if closes || (at + 1 < total && t[at + 1] == '!') {
            if closes {
                let ghost was = open_view(open@);
                let _ = open.pop();
                assert(open_view(open@) =~= closed(was));
            }
            from = match find_at(t, gt.as_slice(), at + 1) {
                Some(end) => end + 1,
                None => at + 2,
            };
            continue;
        }
        let end: usize = match tag_end(t, at) {
            Some(end) => end,
            None => {
                assert(found_view(found@) + Seq::<Drawing>::empty() =~= found_view(found@));
                return found;
            },
        };
        let tag: String = name_at(t, at);
        if chars_of(tag.as_str()).len() == 0 {
            from = at + 1;
            continue;
        }
        if same(tag.as_str(), "svg") {
            if let Some(range) = innermost_of(&open) {
                if let Some(stop) = closing_svg(t, end) {
                    let d: FramedDrawing = FramedDrawing {
                        range,
                        svg: string_of(slice_subrange(t, at, stop)),
                    };
                    let ghost v = d@;
                    found.push(d);
                    assert(found_view(found@) =~= before.push(v));
                    assert(before + (seq![v] + drawings(t@, stop as int, open_view(open@)))
                        =~= before.push(v) + drawings(t@, stop as int, open_view(open@)));
                    from = stop;
                    continue;
                }
            }
        }
        let text: &[char] = slice_subrange(t, at, end);
        let whole_tag: bool = slash.len() <= text.len() && stands(
            text,
            slash.as_slice(),
            text.len() - slash.len(),
        );
        if !whole_tag && !void_tag(tag.as_str()) {
            let ghost was = open_view(open@);
            let range: Option<Range<usize>> = attr_range(text);
            let ghost v = range_view(range);
            open.push(range);
            assert(open_view(open@) =~= was.push(v));
        }
        from = end;
    }
}

// ------------------------------------------------------------ how big one is

/// The tag a drawing opens with, up to its `>`.
pub open spec fn svg_tag(svg: Seq<char>) -> Option<Seq<char>> {
    match find(svg, seq!['>']) {
        Some(at) => Some(svg.take(at)),
        None => None,
    }
}

/// What an attribute of a tag is written with.
pub open spec fn attr_opening(name: Seq<char>) -> Seq<char> {
    " "@ + name + "=\""@
}

/// The value of an attribute of the tag a drawing opens with.
pub open spec fn svg_value(svg: Seq<char>, name: Seq<char>) -> Option<Seq<char>> {
    match svg_tag(svg) {
        None => None,
        Some(tag) => match find(tag, attr_opening(name)) {
            None => None,
            Some(at) => {
                let from = at + attr_opening(name).len();
                match find_from(tag, seq!['"'], from) {
                    None => None,
                    Some(end) => Some(tag.subrange(from, end)),
                }
            },
        },
    }
}

/// The value of an attribute of the tag a drawing opens with.
pub fn svg_attr(svg: &str, name: &str) -> (r: Option<String>)
    ensures
        opt_text(r) == svg_value(svg@, name@),
{
    proof {
        reveal_strlit(" ");
        reveal_strlit("=\"");
    }
    let s: Vec<char> = chars_of(svg);
    let gt: Vec<char> = vec!['>'];
    let quote: Vec<char> = vec!['"'];
    assert(gt@ =~= seq!['>']);
    assert(quote@ =~= seq!['"']);
    let mut needle: String = " ".to_string();
    needle.append(name);
    needle.append("=\"");
    let n: Vec<char> = chars_of(needle.as_str());
    assert(n@ == attr_opening(name@));
    match find_at(s.as_slice(), gt.as_slice(), 0) {
        None => None,
        Some(at) => {
            let (tag, _) = cut(s.as_slice(), at, 0);
            let total: usize = tag.len();
            match find_at(tag, n.as_slice(), 0) {
                None => None,
                Some(at) => {
                    let from: usize = at + n.len();
                    match find_at(tag, quote.as_slice(), from) {
                        None => None,
                        Some(end) => Some(string_of(slice_subrange(tag, from, end))),
                    }
                },
            }
        },
    }
}

/// The width and height in a `viewBox`: its third number and its fourth, as
/// they are written.
pub open spec fn box_size(svg: Seq<char>) -> Option<(Seq<char>, Seq<char>)> {
    match svg_value(svg, "viewBox"@) {
        None => None,
        Some(value) => if words(value).len() < 4 {
            None
        } else {
            Some((words(value)[2], words(value)[3]))
        },
    }
}

/// The width and height in a drawing's `viewBox`, as they are written.
pub fn view_box_size(svg: &str) -> (r: Option<(String, String)>)
    ensures
        match r {
            Some(size) => box_size(svg@) == Some((size.0@, size.1@)),
            None => box_size(svg@) is None,
        },
{
    match svg_attr(svg, "viewBox") {
        None => None,
        Some(value) => {
            let parts: Vec<String> = words_of(value.as_str());
            assert(texts(parts@).len() == parts@.len());
            if parts.len() < 4 {
                None
            } else {
                assert(texts(parts@)[2] == parts@[2]@ && texts(parts@)[3] == parts@[3]@);
                Some((parts[2].clone(), parts[3].clone()))
            }
        },
    }
}

/// The units a length is written in.
#[derive(Clone, Copy, Debug, PartialEq, Eq, Structural)]
pub enum CssUnit {
    /// Points.
    Pt,
    /// Pixels, which a bare number is too.
    Px,
    /// Millimetres.
    Mm,
    /// Centimetres.
    Cm,
    /// Inches.
    In,
}

/// The unit a length ends with, and how many characters name it.
pub open spec fn length_unit(value: Seq<char>) -> (CssUnit, int) {
    if ends(value, "pt"@) {
        (CssUnit::Pt, 2)
    } else if ends(value, "px"@) {
        (CssUnit::Px, 2)
    } else if ends(value, "mm"@) {
        (CssUnit::Mm, 2)
    } else if ends(value, "cm"@) {
        (CssUnit::Cm, 2)
    } else if ends(value, "in"@) {
        (CssUnit::In, 2)
    } else {
        (CssUnit::Px, 0)
    }
}

/// A length taken apart: its number, as it is written, and its unit.
pub fn css_length(value: &str) -> (r: (String, CssUnit))
    ensures
        r.1 == length_unit(trim(value@)).0,
        r.0@ == trim(trim(value@).take(trim(value@).len() - length_unit(trim(value@)).1)),
{
    proof {
        reveal_strlit("pt");
        reveal_strlit("px");
        reveal_strlit("mm");
        reveal_strlit("cm");
        reveal_strlit("in");
    }
    let whole: String = trimmed(value);
    let s: &str = whole.as_str();
    let unit: (CssUnit, usize) = if ends_with(s, "pt") {
        (CssUnit::Pt, 2)
    } else if ends_with(s, "px") {
        (CssUnit::Px, 2)
    } else if ends_with(s, "mm") {
        (CssUnit::Mm, 2)
    } else if ends_with(s, "cm") {
        (CssUnit::Cm, 2)
    } else if ends_with(s, "in") {
        (CssUnit::In, 2)
    } else {
        (CssUnit::Px, 0)
    };
    let t: Vec<char> = chars_of(s);
    let (number, _) = cut(t.as_slice(), t.len() - unit.1, 0);
    (string_of(trim_slice(number)), unit.0)
}

/// A tag says where it came from by two numbers with a colon between them.
pub proof fn a_tag_says_where_it_came_from(before: Seq<char>, start: nat, end: nat, after: Seq<char>)
    requires
        !before.contains(' ') && !before.contains('d'),
        start <= usize::MAX,
        end <= usize::MAX,
    ensures
        tag_range(
            before + ("data-typst-src"@ + "=\""@) + (decimal(start) + seq![':'] + decimal(end)) + seq![
                '"',
            ] + after,
        ) == Some((start, end)),
{
    reveal_strlit("data-typst-src");
    reveal_strlit("=\"");
    let opening = src_opening();
    let value = decimal(start) + seq![':'] + decimal(end);
    let tag = before + opening + value + seq!['"'] + after;
    let n = before.len() as int;
    assert(opening[0] == 'd');
    assert forall|i: int| 0 <= i < n implies !stands_at(tag, opening, i) by {
        if stands_at(tag, opening, i) {
            assert(tag.subrange(i, i + opening.len())[0] == opening[0]);
            assert(before[i] == 'd');
        }
    }
    lemma_find_from_skip(tag, opening, 0, n);
    assert(tag.subrange(n, n + opening.len()) =~= opening);
    assert(stands_at(tag, opening, n));
    let from = n + opening.len();
    let to = from + value.len();
    lemma_digits(start);
    lemma_digits(end);
    let first = decimal(start).len() as int;
    assert forall|i: int| from <= i < to implies !stands_at(tag, seq!['"'], i) by {
        if stands_at(tag, seq!['"'], i) {
            assert(tag.subrange(i, i + 1)[0] == '"');
            assert(tag[i] == value[i - from]);
            if i - from < first {
                assert(decimal(start)[i - from] == '"');
            } else if i - from > first {
                assert(decimal(end)[i - from - first - 1] == '"');
            }
        }
    }
    lemma_find_from_skip(tag, seq!['"'], from, to);
    assert(tag.subrange(to, to + 1) =~= seq!['"']);
    assert(stands_at(tag, seq!['"'], to));
    assert(tag.subrange(from, to) =~= value);
    assert forall|k: int| 0 <= k < first implies value[k] != ':' by {
        assert(value[k] == decimal(start)[k]);
    }
    lemma_find_one(value, ':', first);
    assert(value.take(first) =~= decimal(start));
    assert(value.skip(first + 1) =~= decimal(end));
    decimal_reads_back(start);
    decimal_reads_back(end);
}

/// A number is written with digits only.
proof fn lemma_digits(n: nat)
    ensures
        forall|i: int| 0 <= i < decimal(n).len() ==> '0' <= #[trigger] decimal(n)[i] <= '9',
{
    decimal_reads_back(n);
    assert forall|i: int| 0 <= i < decimal(n).len() implies '0' <= #[trigger] decimal(n)[i] <= '9' by {
        assert(is_digit(decimal(n)[i]));
    }
}

/// A tag ends at the first bracket outside quotes, and what stands in quotes is passed over.
pub proof fn a_tag_ends_outside_quotes(body: Seq<char>, at: int, open: int, close: int, end: int)
    requires
        0 <= at <= open < close < end < body.len(),
        forall|i: int|
            at <= i < open || close < i < end ==> #[trigger] body[i] != '>' && body[i] != '"' && body[i]
                != '\'',
        body[open] == '"' || body[open] == '\'',
        body[close] == body[open],
        forall|i: int| open < i < close ==> #[trigger] body[i] != body[open],
        body[end] == '>',
    ensures
        tag_stop(body, at, None) == Some(end + 1),
{
    lemma_tag_text(body, at, open);
    lemma_in_quotes(body, open + 1, close, body[open]);
    lemma_tag_text(body, close + 1, end);
}

/// Plain text in a tag is passed over.
proof fn lemma_tag_text(body: Seq<char>, at: int, to: int)
    requires
        0 <= at <= to < body.len(),
        forall|i: int|
            at <= i < to ==> #[trigger] body[i] != '>' && body[i] != '"' && body[i] != '\'',
    ensures
        tag_stop(body, at, None) == tag_stop(body, to, None),
    decreases to - at,
{
    if at < to {
        lemma_tag_text(body, at + 1, to);
    }
}

/// What stands in quotes in a tag is passed over.
proof fn lemma_in_quotes(body: Seq<char>, at: int, close: int, quote: char)
    requires
        0 <= at <= close < body.len(),
        body[close] == quote,
        forall|i: int| at <= i < close ==> #[trigger] body[i] != quote,
    ensures
        tag_stop(body, at, Some(quote)) == tag_stop(body, close + 1, None),
    decreases close - at,
{
    if at < close {
        lemma_in_quotes(body, at + 1, close, quote);
    }
}

/// What is drawn belongs to the innermost element around it that came from the document.
pub proof fn a_drawing_is_of_the_innermost(open: Seq<Option<(nat, nat)>>, k: int)
    requires
        0 <= k < open.len(),
        open[k] is Some,
        forall|i: int| k < i < open.len() ==> (#[trigger] open[i]) is None,
    ensures
        innermost(open) == open[k],
    decreases open.len(),
{
    if k < open.len() - 1 {
        assert(open[open.len() - 1] is None);
        a_drawing_is_of_the_innermost(open.drop_last(), k);
    }
}

/// A length is a number and its unit, and pixels where it says none.
pub proof fn a_length_ends_in_its_unit(number: Seq<char>)
    requires
        number.len() > 0,
        forall|i: int| 0 <= i < number.len() ==> '0' <= #[trigger] number[i] <= '9' || number[i] == '.',
    ensures
        length_unit(number + "pt"@) == (CssUnit::Pt, 2int),
        length_unit(number + "px"@) == (CssUnit::Px, 2int),
        length_unit(number + "mm"@) == (CssUnit::Mm, 2int),
        length_unit(number + "cm"@) == (CssUnit::Cm, 2int),
        length_unit(number + "in"@) == (CssUnit::In, 2int),
        length_unit(number) == (CssUnit::Px, 0int),
{
    reveal_strlit("pt");
    reveal_strlit("px");
    reveal_strlit("mm");
    reveal_strlit("cm");
    reveal_strlit("in");
    let n = number.len() as int;
    lemma_unit(number, "pt"@);
    lemma_unit(number, "px"@);
    lemma_unit(number, "mm"@);
    lemma_unit(number, "cm"@);
    lemma_unit(number, "in"@);
    assert("pt"@[0] == 'p' && "pt"@[1] == 't' && "px"@[0] == 'p' && "px"@[1] == 'x' && "mm"@[0] == 'm'
        && "cm"@[0] == 'c' && "in"@[0] == 'i');
    if n >= 2 {
        assert(number.subrange(n - 2, n)[1] == number[n - 1]);
    }
}

/// What ends in a unit of two letters ends in no other.
proof fn lemma_unit(number: Seq<char>, unit: Seq<char>)
    requires
        unit.len() == 2,
    ensures
        ends(number + unit, unit),
        forall|other: Seq<char>| other.len() == 2 && #[trigger] ends(number + unit, other) ==> other
            == unit,
{
    let n = number.len() as int;
    assert((number + unit).subrange(n, n + 2) =~= unit);
}

} // verus!

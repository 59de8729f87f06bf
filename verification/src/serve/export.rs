//! The document itself, rather than a page for reading it: its source, a PDF of
//! it, or a standalone HTML file.

use vstd::prelude::*;
use vstd::string::*;
use vstd::utf8::*;

use crate::paths::{file_stem, path_stem};
use crate::render::html::{ATOM_ATTR, SRC_ATTR, TEXT_ATTR, UID_ATTR};
use crate::render::markup::{lemma_tag_stop, tag_end, tag_stop};
use crate::serve::http::{unescape, unescaped, unescaped_from};
use crate::text::{
    after_prefix, begins, chars_of, find_at, find_from, is_digit, join, joined, lemma_find_from,
    lemma_find_from_skip, lemma_found_one, opt_str, opt_text, parts_follow_each_other, push, same,
    split, split_on, stands, stands_at, strip_prefix, texts,
};

verus! {

// ----------------------------------------------------------------- the formats

/// What a URL can ask a document for.
#[derive(Debug, Clone, Copy, PartialEq, Eq, Structural)]
pub enum Format {
    /// The Typst source, as it is on disk.
    Typ,
    /// A standalone HTML file.
    Html,
    /// The document laid out in pages.
    Pdf,
    /// The annotations, as they are on disk.
    Annos,
}

/// The format a value names.
pub open spec fn format_named(value: Seq<char>) -> Option<Format> {
    if value == "typ"@ || value == "typst"@ || value == "source"@ {
        Some(Format::Typ)
    } else if value == "html"@ {
        Some(Format::Html)
    } else if value == "pdf"@ {
        Some(Format::Pdf)
    } else if value == "anno.json"@ || value == "annos.json"@ || value == "annos"@ {
        Some(Format::Annos)
    } else {
        None
    }
}

/// The extension a saved file takes.
pub open spec fn saved_as(format: Format) -> Seq<char> {
    match format {
        Format::Typ => "typ"@,
        Format::Html => "html"@,
        Format::Pdf => "pdf"@,
        Format::Annos => "annos.json"@,
    }
}

/// What a file of a format says it is. The source is read rather than run: a
/// browser asked for it shows it.
pub open spec fn said_to_be(format: Format) -> Seq<char> {
    match format {
        Format::Typ => "text/plain; charset=utf-8"@,
        Format::Html => "text/html; charset=utf-8"@,
        Format::Pdf => "application/pdf"@,
        Format::Annos => "application/json; charset=utf-8"@,
    }
}

impl Format {
    /// The format a `fmt` value names.
    pub fn parse(value: &str) -> (r: Result<Self, String>)
        ensures
            match format_named(value@) {
                Some(format) => r is Ok && r->Ok_0 == format,
                None => r is Err && r->Err_0@ == "cannot give you "@ + value@
                    + ": fmt is typ, html, pdf or anno.json\n"@,
            },
    {
        if same(value, "typ") || same(value, "typst") || same(value, "source") {
            Ok(Format::Typ)
        } else if same(value, "html") {
            Ok(Format::Html)
        } else if same(value, "pdf") {
            Ok(Format::Pdf)
        } else if same(value, "anno.json") || same(value, "annos.json") || same(value, "annos") {
            Ok(Format::Annos)
        } else {
            let mut out: String = "cannot give you ".to_string();
            out.append(value);
            out.append(": fmt is typ, html, pdf or anno.json\n");
            Err(out)
        }
    }

    /// The extension a saved file takes.
    pub fn extension(self) -> (r: &'static str)
        ensures
            r@ == saved_as(self),
    {
        match self {
            Format::Typ => "typ",
            Format::Html => "html",
            Format::Pdf => "pdf",
            Format::Annos => "annos.json",
        }
    }

    /// What the answer says it is.
    pub fn mime(self) -> (r: &'static str)
        ensures
            r@ == said_to_be(self),
    {
        match self {
            Format::Typ => "text/plain; charset=utf-8",
            Format::Html => "text/html; charset=utf-8",
            Format::Pdf => "application/pdf",
            Format::Annos => "application/json; charset=utf-8",
        }
    }
}

/// The extension a file is saved under names the format it is in.
pub proof fn a_saved_file_says_its_format(format: Format)
    ensures
        format_named(saved_as(format)) == Some(format),
{
    reveal_strlit("typ");
    reveal_strlit("typst");
    reveal_strlit("source");
    reveal_strlit("html");
    reveal_strlit("pdf");
    reveal_strlit("anno.json");
    reveal_strlit("annos.json");
    reveal_strlit("annos");
    assert("html"@[0] == 'h' && "pdf"@[0] == 'p' && "typ"@[0] == 't' && "annos.json"@[0] == 'a'
        && "typst"@[0] == 't' && "source"@[0] == 's');
}

// ------------------------------------------------------------------- the query

/// What follows a prefix in the first of some texts that begins with it.
pub open spec fn first_after(list: Seq<Seq<char>>, prefix: Seq<char>) -> Option<Seq<char>>
    decreases list.len(),
{
    if list.len() == 0 {
        None
    } else {
        match after_prefix(list[0], prefix) {
            Some(rest) => Some(rest),
            None => first_after(list.skip(1), prefix),
        }
    }
}

/// The value of a query parameter as it is written.
pub open spec fn query_raw(query: Option<Seq<char>>, key: Seq<char>) -> Option<Seq<char>> {
    match query {
        Some(query) => first_after(split(query, '&'), key + "="@),
        None => None,
    }
}

/// The value of a query parameter, with its escapes read back.
pub open spec fn query_read(query: Option<Seq<char>>, key: Seq<char>) -> Option<Seq<char>> {
    match query_raw(query, key) {
        Some(value) => Some(unescaped(value, true)),
        None => None,
    }
}

/// The value of a query parameter as it is written, if the query has one.
pub fn raw_query_value(query: Option<&str>, key: &str) -> (r: Option<String>)
    ensures
        opt_text(r) == query_raw(opt_str(query), key@),
{
    let written: &str = match query {
        Some(written) => written,
        None => {
            return None;
        },
    };
    let mut prefix: String = key.to_string();
    prefix.append("=");
    let parts: Vec<String> = split_on(written, '&');
    let ghost all = texts(parts@);
    let mut i: usize = 0;
    assert(all.skip(0) =~= all);
    while i < parts.len()
        invariant
            i <= parts@.len(),
            all == texts(parts@),
            opt_str(query) == Some(written@),
            all == split(written@, '&'),
            prefix@ == key@ + "="@,
            first_after(all, prefix@) == first_after(all.skip(i as int), prefix@),
        decreases parts@.len() - i,
    {
        proof {
            assert(all.skip(i as int)[0] == parts@[i as int]@);
            assert(all.skip(i as int).skip(1) =~= all.skip(i + 1));
        }
        if let Some(rest) = strip_prefix(parts[i].as_str(), prefix.as_str()) {
            return Some(rest);
        }
        i = i + 1;
    }
    None
}

/// The value of a query parameter, if the query has one.
pub fn query_value(query: Option<&str>, key: &str) -> (r: Option<String>)
    ensures
        opt_text(r) == query_read(opt_str(query), key@),
        r matches Some(value) ==> {
            let raw = query_raw(opt_str(query), key@)->0;
            valid_utf8(unescaped_from(encode_utf8(raw), 0, true)) ==> encode_utf8(value@)
                == unescaped_from(encode_utf8(raw), 0, true)
        },
{
    match raw_query_value(query, key) {
        Some(value) => Some(unescape(value.as_str(), true)),
        None => None,
    }
}

// -------------------------------------------------------------- standing alone

/// Where an attribute ends that is written with `opening` at a place of a tag.
pub open spec fn attr_stop(tag: Seq<char>, at: int, opening: Seq<char>) -> Option<int> {
    if stands_at(tag, opening, at) {
        match find_from(tag, seq!['"'], at + opening.len()) {
            Some(quote) => Some(quote + 1),
            None => None,
        }
    } else {
        None
    }
}

/// What an attribute that a server keeps its books in is written with.
pub open spec fn book_opening(name: Seq<char>) -> Seq<char> {
    " "@ + name + "=\""@
}

/// How many digits stand at a place.
pub open spec fn digits_at(tag: Seq<char>, at: int) -> nat
    decreases tag.len() - at,
{
    if 0 <= at < tag.len() && is_digit(tag[at]) {
        1 + digits_at(tag, at + 1)
    } else {
        0
    }
}

/// Where the number of an element ends that is written at a place of a tag:
/// ` id="n7"`, and no other id.
pub open spec fn number_stop(tag: Seq<char>, at: int) -> Option<int> {
    let from = at + " id=\"n"@.len();
    let n = digits_at(tag, from);
    if stands_at(tag, " id=\"n"@, at) && n > 0 && from + n < tag.len() && tag[from + n] == '"' {
        Some(from + n + 1)
    } else {
        None
    }
}

/// Where a piece of bookkeeping ends that is written at a place of a tag: an
/// element's number, or an attribute that says where it came from.
pub open spec fn book_stop(tag: Seq<char>, at: int) -> Option<int> {
    if let Some(end) = number_stop(tag, at) {
        Some(end)
    } else if let Some(end) = attr_stop(tag, at, book_opening(UID_ATTR@)) {
        Some(end)
    } else if let Some(end) = attr_stop(tag, at, book_opening(SRC_ATTR@)) {
        Some(end)
    } else if let Some(end) = attr_stop(tag, at, book_opening(ATOM_ATTR@)) {
        Some(end)
    } else {
        attr_stop(tag, at, book_opening(TEXT_ATTR@))
    }
}

/// A tag from a place on, without the bookkeeping.
pub open spec fn plain_tag(tag: Seq<char>, at: int) -> Seq<char>
    decreases tag.len() - at,
{
    if at < 0 || at >= tag.len() {
        seq![]
    } else {
        match book_stop(tag, at) {
            Some(end) => {
                proof {
                    lemma_book_stop(tag, at);
                }
                plain_tag(tag, end)
            },
            None => seq![tag[at]] + plain_tag(tag, at + 1),
        }
    }
}

/// A page from a place on, without the bookkeeping in its tags.
pub open spec fn plain_page(html: Seq<char>, at: int) -> Seq<char>
    decreases html.len() - at,
{
    if at < 0 || at >= html.len() {
        seq![]
    } else if html[at] == '<' && tag_stop(html, at, None) is Some {
        let end = tag_stop(html, at, None)->Some_0;
        proof {
            lemma_tag_stop(html, at, None);
        }
        plain_tag(html.subrange(at, end), 0) + plain_page(html, end)
    } else {
        seq![html[at]] + plain_page(html, at + 1)
    }
}

/// A piece of bookkeeping ends after it begins.
pub proof fn lemma_book_stop(tag: Seq<char>, at: int)
    requires
        0 <= at,
    ensures
        book_stop(tag, at) matches Some(end) ==> at < end <= tag.len(),
{
    lemma_attr_stop(tag, at, book_opening(UID_ATTR@));
    lemma_attr_stop(tag, at, book_opening(SRC_ATTR@));
    lemma_attr_stop(tag, at, book_opening(ATOM_ATTR@));
    lemma_attr_stop(tag, at, book_opening(TEXT_ATTR@));
}

proof fn lemma_attr_stop(tag: Seq<char>, at: int, opening: Seq<char>)
    requires
        0 <= at,
    ensures
        attr_stop(tag, at, opening) matches Some(end) ==> at < end <= tag.len(),
{
    lemma_find_from(tag, seq!['"'], at + opening.len());
}

/// Where an attribute ends that is written with `opening` at a place of a tag.
fn attr_end(tag: &[char], at: usize, opening: &[char]) -> (r: Option<usize>)
    ensures
        match r {
            Some(end) => attr_stop(tag@, at as int, opening@) == Some(end as int),
            None => attr_stop(tag@, at as int, opening@) is None,
        },
{
    let total: usize = tag.len();
    if !stands(tag, opening, at) {
        return None;
    }
    let quote: Vec<char> = vec!['"'];
    assert(quote@ =~= seq!['"']);
    match find_at(tag, quote.as_slice(), at + opening.len()) {
        Some(end) => if end < total {
            Some(end + 1)
        } else {
            None
        },
        None => None,
    }
}

/// Where the number of an element ends that is written at a place of a tag.
fn number_end(tag: &[char], at: usize) -> (r: Option<usize>)
    ensures
        match r {
            Some(end) => number_stop(tag@, at as int) == Some(end as int),
            None => number_stop(tag@, at as int) is None,
        },
{
    let total: usize = tag.len();
    let opening: Vec<char> = chars_of(" id=\"n");
    if !stands(tag, opening.as_slice(), at) {
        return None;
    }
    let from: usize = at + opening.len();
    let mut end: usize = from;
    while end < total && '0' <= tag[end] && tag[end] <= '9'
        invariant
            from <= end <= total,
            total == tag@.len(),
            digits_at(tag@, from as int) == (end - from) + digits_at(tag@, end as int),
        decreases total - end,
    {
        end = end + 1;
    }
    assert(digits_at(tag@, end as int) == 0);
    if end > from && end < total && tag[end] == '"' {
        Some(end + 1)
    } else {
        None
    }
}

/// Where a piece of bookkeeping ends that is written at a place of a tag.
fn book_end(tag: &[char], at: usize) -> (r: Option<usize>)
    ensures
        match r {
            Some(end) => book_stop(tag@, at as int) == Some(end as int) && at < end <= tag@.len(),
            None => book_stop(tag@, at as int) is None,
        },
{
    proof {
        lemma_book_stop(tag@, at as int);
    }
    if let Some(end) = number_end(tag, at) {
        return Some(end);
    }
    if let Some(end) = attr_end(tag, at, opening_of(UID_ATTR).as_slice()) {
        return Some(end);
    }
    if let Some(end) = attr_end(tag, at, opening_of(SRC_ATTR).as_slice()) {
        return Some(end);
    }
    if let Some(end) = attr_end(tag, at, opening_of(ATOM_ATTR).as_slice()) {
        return Some(end);
    }
    attr_end(tag, at, opening_of(TEXT_ATTR).as_slice())
}

/// What an attribute that a server keeps its books in is written with.
fn opening_of(name: &str) -> (r: Vec<char>)
    ensures
        r@ == book_opening(name@),
{
    let mut out: String = " ".to_string();
    out.append(name);
    out.append("=\"");
    chars_of(out.as_str())
}

/// The rendering as a file that stands on its own: without the element numbers
/// and source ranges that the server asked for and that mean nothing outside it.
pub fn standalone(rendered: &str) -> (r: String)
    ensures
        r@ == plain_page(rendered@, 0),
{
    let html: Vec<char> = chars_of(rendered);
    let total: usize = html.len();
    let ghost whole = plain_page(html@, 0);
    let mut out: String = String::new();
    let mut at: usize = 0;
    assert(out@ + plain_page(html@, 0) =~= whole);
    while at < total
        invariant
            at <= total,
            total == html@.len(),
            out@ + plain_page(html@, at as int) == whole,
        decreases total - at,
    {
        let ghost held = out@;
        let found: Option<usize> = if html[at] == '<' {
            tag_end(html.as_slice(), at)
        } else {
            None
        };
        match found {
            Some(end) => {
                let tag: &[char] = vstd::slice::slice_subrange(html.as_slice(), at, end);
                let size: usize = tag.len();
                let mut i: usize = 0;
                while i < size
                    invariant
                        i <= size,
                        size == tag@.len(),
                        out@ + plain_tag(tag@, i as int) == held + plain_tag(tag@, 0),
                    decreases size - i,
                {
                    match book_end(tag, i) {
                        Some(stop) => {
                            i = stop;
                        },
                        None => {
                            let ghost now = out@;
                            push(&mut out, tag[i]);
                            assert(out@ + plain_tag(tag@, i + 1) =~= now + (seq![tag@[i as int]]
                                + plain_tag(tag@, i + 1)));
                            i = i + 1;
                        },
                    }
                }
                assert(out@ =~= held + plain_tag(tag@, 0));
                assert(out@ + plain_page(html@, end as int) =~= held + (plain_tag(tag@, 0)
                    + plain_page(html@, end as int)));
                at = end;
            },
            None => {
                push(&mut out, html[at]);
                assert(out@ + plain_page(html@, at + 1) =~= held + (seq![html@[at as int]]
                    + plain_page(html@, at + 1)));
                at = at + 1;
            },
        }
    }
    assert(out@ =~= whole);
    out
}

/// A page that keeps no books is given back as it is.
pub proof fn a_plain_page_stays(html: Seq<char>, at: int)
    requires
        0 <= at <= html.len(),
        forall|i: int, j: int, k: int|
            0 <= i <= j <= html.len() && 0 <= k < j - i ==> (#[trigger] book_stop(
                html.subrange(i, j),
                k,
            )) is None,
    ensures
        plain_page(html, at) == html.skip(at),
    decreases html.len() - at,
{
    if at < html.len() {
        if html[at] == '<' && tag_stop(html, at, None) is Some {
            let end = tag_stop(html, at, None)->Some_0;
            lemma_tag_stop(html, at, None);
            let tag = html.subrange(at, end);
            assert forall|k: int| 0 <= k < tag.len() implies book_stop(tag, k) is None by {
                assert(book_stop(html.subrange(at, end), k) is None);
            }
            lemma_plain_tag(tag, 0);
            a_plain_page_stays(html, end);
            assert(tag.skip(0) + html.skip(end) =~= html.skip(at));
        } else {
            a_plain_page_stays(html, at + 1);
            assert(seq![html[at]] + html.skip(at + 1) =~= html.skip(at));
        }
    } else {
        assert(html.skip(at) =~= seq![]);
    }
}

proof fn lemma_plain_tag(tag: Seq<char>, at: int)
    requires
        0 <= at <= tag.len(),
        forall|k: int| 0 <= k < tag.len() ==> book_stop(tag, k) is None,
    ensures
        plain_tag(tag, at) == tag.skip(at),
    decreases tag.len() - at,
{
    if at < tag.len() {
        lemma_plain_tag(tag, at + 1);
        assert(seq![tag[at]] + tag.skip(at + 1) =~= tag.skip(at));
    } else {
        assert(tag.skip(at) =~= seq![]);
    }
}

// ------------------------------------------------------------------ the answer

/// The document in one of its formats: the bytes, what they are, and the name
/// they should be saved under.
#[derive(Debug)]
pub struct Export {
    /// The file itself.
    pub bytes: Vec<u8>,
    /// Its content type.
    pub mime: &'static str,
    /// What a browser saving it should call it.
    pub filename: String,
}

/// What a file of a document is saved under.
pub open spec fn saved_name(format: Format, document: Seq<char>) -> Seq<char> {
    (match path_stem(document) {
        Some(stem) => stem,
        None => "document"@,
    }) + "."@ + saved_as(format)
}

/// What a document's bytes are in a format: of the rendering for a standalone
/// page, and what was given otherwise.
pub open spec fn exported(
    format: Format,
    rendered: Option<Seq<char>>,
    given: Result<Seq<u8>, Seq<char>>,
) -> Result<Seq<u8>, Seq<char>> {
    match format {
        Format::Html => match rendered {
            Some(html) => Ok(encode_utf8(plain_page(html, 0))),
            None => Err("nothing compiled yet\n"@),
        },
        _ => given,
    }
}

/// Bytes, or what is wrong.
pub open spec fn given_view(given: Result<Vec<u8>, String>) -> Result<Seq<u8>, Seq<char>> {
    match given {
        Ok(bytes) => Ok(bytes@),
        Err(e) => Err(e@),
    }
}

/// The document as the format asks for it. `rendered` is the page the server
/// already has, and `given` the file that is not made of it: the source, the
/// PDF, or the annotations.
pub fn export(
    format: Format,
    document: &str,
    rendered: Option<&str>,
    given: Result<Vec<u8>, String>,
) -> (r: Result<Export, String>)
    ensures
        match exported(format, opt_str(rendered), given_view(given)) {
            Ok(bytes) => r is Ok && r->Ok_0.bytes@ == bytes && r->Ok_0.mime@ == said_to_be(format)
                && r->Ok_0.filename@ == saved_name(format, document@),
            Err(e) => r is Err && r->Err_0@ == e,
        },
{
    let bytes: Vec<u8> = match format {
        Format::Html => match rendered {
            Some(html) => {
                let page: String = standalone(html);
                bytes_of(page.as_str())
            },
            None => {
                return Err("nothing compiled yet\n".to_string());
            },
        },
        _ => match given {
            Ok(bytes) => bytes,
            Err(e) => {
                return Err(e);
            },
        },
    };
    let mut filename: String = match file_stem(document) {
        Some(stem) => stem,
        None => "document".to_string(),
    };
    filename.append(".");
    filename.append(format.extension());
    Ok(Export { bytes, mime: format.mime(), filename })
}

/// The bytes of a text.
fn bytes_of(text: &str) -> (r: Vec<u8>)
    ensures
        r@ == encode_utf8(text@),
{
    let bytes: &[u8] = text.as_bytes();
    let mut out: Vec<u8> = Vec::new();
    let mut i: usize = 0;
    while i < bytes.len()
        invariant
            i <= bytes@.len(),
            out@ == bytes@.take(i as int),
        decreases bytes@.len() - i,
    {
        out.push(bytes[i]);
        assert(out@ =~= bytes@.take(i + 1));
        i = i + 1;
    }
    assert(bytes@.take(i as int) =~= bytes@);
    out
}

/// What is said where a file cannot be read.
pub fn cannot_read(path: &str, why: &str) -> (r: String)
    ensures
        r@ == "cannot read "@ + path@ + ": "@ + why@ + "\n"@,
{
    let mut out: String = "cannot read ".to_string();
    out.append(path);
    out.append(": ");
    out.append(why);
    out.append("\n");
    out
}

/// What is said where a document does not come to pages: what the compiler said
/// of it, a line each.
pub open spec fn no_pages(said: Seq<Seq<char>>) -> Seq<char> {
    if said.len() == 0 {
        "the document does not compile to pages\n"@
    } else {
        join(said, "\n"@) + "\n"@
    }
}

/// What is said where a document does not come to pages.
pub fn not_paged(said: &Vec<String>) -> (r: String)
    ensures
        r@ == no_pages(texts(said@)),
{
    if said.len() == 0 {
        return "the document does not compile to pages\n".to_string();
    }
    let mut out: String = joined(said, "\n");
    out.append("\n");
    out
}

/// Whether an attribute with some name stands in a tag, and where it ends.
pub open spec fn attr_stands(tag: Seq<char>, name: Seq<char>, at: int, end: int) -> bool {
    let opening = " "@ + name + "=\""@;
    &&& stands_at(tag, opening, at)
    &&& at + opening.len() < end <= tag.len()
    &&& tag[end - 1] == '"'
    &&& forall|i: int| at + opening.len() <= i < end - 1 ==> #[trigger] tag[i] != '"'
}

/// An attribute ends at the quote after it.
proof fn lemma_attr_ends(tag: Seq<char>, name: Seq<char>, at: int, end: int)
    requires
        attr_stands(tag, name, at, end),
    ensures
        attr_stop(tag, at, book_opening(name)) == Some(end),
{
    let from = at + book_opening(name).len();
    assert forall|i: int| from <= i < end - 1 implies !stands_at(tag, seq!['"'], i) by {
        if stands_at(tag, seq!['"'], i) {
            assert(tag.subrange(i, i + 1)[0] == '"');
        }
    }
    lemma_find_from_skip(tag, seq!['"'], from, end - 1);
    assert(tag.subrange(end - 1, end) =~= seq!['"']);
    assert(stands_at(tag, seq!['"'], end - 1));
}

/// What a page was labelled with is left out of a page that is to stand alone, each label whole.
pub proof fn labels_are_left_out(tag: Seq<char>, at: int, end: int)
    requires
        attr_stands(tag, "data-uid"@, at, end) || attr_stands(tag, "data-typst-src"@, at, end)
            || attr_stands(tag, "data-typst-atom"@, at, end) || attr_stands(
            tag,
            "data-typst-text"@,
            at,
            end,
        ),
    ensures
        plain_tag(tag, at) == plain_tag(tag, end),
{
    reveal_strlit(" ");
    reveal_strlit("=\"");
    reveal_strlit(" id=\"n");
    reveal_strlit("data-uid");
    reveal_strlit("data-typst-src");
    reveal_strlit("data-typst-atom");
    reveal_strlit("data-typst-text");
    let name = if attr_stands(tag, "data-uid"@, at, end) {
        "data-uid"@
    } else if attr_stands(tag, "data-typst-src"@, at, end) {
        "data-typst-src"@
    } else if attr_stands(tag, "data-typst-atom"@, at, end) {
        "data-typst-atom"@
    } else {
        "data-typst-text"@
    };
    lemma_attr_ends(tag, name, at, end);
    let opening = book_opening(name);
    assert(tag.subrange(at, at + opening.len()) == opening);
    assert forall|i: int| 0 <= i < opening.len() implies #[trigger] tag[at + i] == opening[i] by {
        assert(tag.subrange(at, at + opening.len())[i] == tag[at + i]);
    }
    assert(opening[1] == name[0] && name[0] == 'd');
    assert(tag[at + 1] == 'd');
    if stands_at(tag, " id=\"n"@, at) {
        assert(tag.subrange(at, at + 6)[1] == 'i');
    }
    assert(opening[6] == name[5]);
    assert(tag[at + 6] == name[5]);
    if name != "data-uid"@ {
        assert("data-uid"@[5] == 'u' && name[5] == 't');
        lemma_other_attr(tag, "data-uid"@, at, 6);
        assert(opening[12] == name[11]);
        assert(tag[at + 12] == name[11]);
        assert("data-typst-src"@[11] == 's' && "data-typst-atom"@[11] == 'a' && "data-typst-text"@[11]
            == 't');
        if name != "data-typst-src"@ {
            lemma_other_attr(tag, "data-typst-src"@, at, 12);
            if name != "data-typst-atom"@ {
                lemma_other_attr(tag, "data-typst-atom"@, at, 12);
            }
        }
    }
}

/// An attribute that differs from what stands in a tag does not stand there.
proof fn lemma_other_attr(tag: Seq<char>, name: Seq<char>, at: int, i: int)
    requires
        1 <= i <= name.len(),
        tag[at + i] != name[i - 1],
    ensures
        attr_stop(tag, at, book_opening(name)) is None,
{
    reveal_strlit(" ");
    let opening = book_opening(name);
    if stands_at(tag, opening, at) {
        assert(tag.subrange(at, at + opening.len())[i] == opening[i]);
        assert(opening[i] == name[i - 1]);
    }
}

/// What is no tag stays in a page that is to stand alone.
pub proof fn plain_text_stays(html: Seq<char>, at: int, n: int)
    requires
        0 <= at <= n <= html.len(),
        forall|i: int| at <= i < n ==> #[trigger] html[i] != '<',
    ensures
        plain_page(html, at) == html.subrange(at, n) + plain_page(html, n),
    decreases n - at,
{
    if at < n {
        plain_text_stays(html, at + 1, n);
        assert(html.subrange(at, n) =~= seq![html[at]] + html.subrange(at + 1, n));
        assert(plain_page(html, at) =~= html.subrange(at, n) + plain_page(html, n));
    } else {
        assert(html.subrange(at, n) + plain_page(html, n) =~= plain_page(html, n));
    }
}

/// A value of a query is found by its key, the first that has it, and no other.
pub proof fn a_value_is_found_by_its_key(
    key: Seq<char>,
    value: Seq<char>,
    other: Seq<char>,
    rest: Seq<char>,
)
    requires
        !key.contains('&') && !value.contains('&') && !other.contains('&'),
        !begins(other, key + "="@),
    ensures
        query_raw(Some(key + "="@ + value), key) == Some(value),
        query_raw(Some(key + "="@ + value + seq!['&'] + rest), key) == Some(value),
        query_raw(Some(other + seq!['&'] + rest), key) == query_raw(Some(rest), key),
        query_raw(None, key) is None,
{
    reveal_strlit("=");
    let prefix = key + "="@;
    let pair = prefix + value;
    lemma_one_part(other);
    assert(!pair.contains('&')) by {
        if pair.contains('&') {
            let k = pair.index_of('&');
            if k < key.len() {
                assert(key[k] == '&');
            } else if k > key.len() {
                assert(value[k - key.len() - 1] == '&');
            }
        }
    }
    lemma_one_part(pair);
    assert(pair.subrange(0, prefix.len() as int) =~= prefix);
    assert(pair.skip(prefix.len() as int) =~= value);
    parts_follow_each_other(pair, rest, '&');
    assert((seq![pair] + split(rest, '&'))[0] == pair);
    parts_follow_each_other(other, rest, '&');
    assert((seq![other] + split(rest, '&'))[0] == other);
    assert((seq![other] + split(rest, '&')).skip(1) =~= split(rest, '&'));
}

/// A text without an ampersand is one part of a query.
proof fn lemma_one_part(text: Seq<char>)
    requires
        !text.contains('&'),
    ensures
        split(text, '&') == seq![text],
{
    lemma_found_one(text, '&');
    assert forall|k: int| 0 <= k < text.len() implies text[k] != '&' by {
        assert(text.contains(text[k]));
    }
}

} // verus!

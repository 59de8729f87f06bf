//! The document as a page: labelled, encoded, and named after what it says.

use vstd::prelude::*;
use vstd::utf8::*;

use crate::digest::{hash_of, short_hash};
use crate::render::html::{element_v, label, label_within, HtmlElement};
use crate::render::map::{
    node_views, with_inferred, without_wrappers, MapView, Mapper, RenderMap,
};
use crate::render::markup::{fragment, page_body};

verus! {

/// What compiling a document came to.
#[derive(Debug)]
pub enum Compiled {
    /// It has not been compiled yet.
    NotYet,
    /// It did not compile.
    Failed,
    /// It compiled to pages.
    Paged,
    /// It compiled to a page of HTML.
    Page(HtmlElement),
}

/// Why a document has no page, if it has none.
pub open spec fn why_no_page(compiled: Compiled) -> Option<Seq<char>> {
    match compiled {
        Compiled::NotYet => Some("nothing compiled yet"@),
        Compiled::Failed => Some("no document"@),
        Compiled::Paged => Some(
            "this document is not compiled for HTML; run with --format html"@,
        ),
        Compiled::Page(_) => None,
    }
}

/// The page a document compiled to.
pub fn page_of(compiled: &Compiled) -> (r: Result<&HtmlElement, String>)
    ensures
        match r {
            Ok(page) => *compiled == Compiled::Page(*page),
            Err(why) => why_no_page(*compiled) == Some(why@),
        },
{
    match compiled {
        Compiled::NotYet => Err("nothing compiled yet".to_string()),
        Compiled::Failed => Err("no document".to_string()),
        Compiled::Paged => Err(
            "this document is not compiled for HTML; run with --format html".to_string(),
        ),
        Compiled::Page(page) => Ok(page),
    }
}

/// A page with every part of it that can be pointed at labelled, and what is known of those
/// parts. `text` is what the document says, `main` its file, `hidden` the files whose places
/// are nobody's business.
pub fn label_page(page: &HtmlElement, text: &str, main: usize, hidden: Vec<usize>) -> (r: (
    HtmlElement,
    Mapper,
))
    ensures
        ({
            let done = label(element_v(*page), text@, false, MapView::start(main, hidden@));
            &&& element_v(r.0) == done.element
            &&& r.1@ == done.map
        }),
{
    let mut mapper: Mapper = Mapper::new(main, hidden);
    let labelled: HtmlElement = label_within(page, text, false, &mut mapper).0;
    (labelled, mapper)
}

/// The map of a page. The rendering is named after itself: a document that comes to the same
/// page keeps the same name for it.
pub fn finish_page(mapper: Mapper, html: &str, text: &str) -> (r: RenderMap)
    ensures
        r.render@ == short_hash(encode_utf8(html@)),
        r.files@ == mapper@.files,
        node_views(r.nodes@) == without_wrappers(with_inferred(mapper@.nodes, text@)),
{
    mapper.finish(hash_of(html.as_bytes()), text)
}

/// The body a reader is given, and its version: what was written when the document last
/// compiled, or what it comes to now, which has no version.
pub open spec fn given_body(
    held: Option<(Seq<char>, u64)>,
    page: Option<Seq<char>>,
) -> (Seq<char>, u64) {
    match held {
        Some(body) => body,
        None => match page {
            Some(html) => (page_body(html), 0),
            None => (seq![], 0),
        },
    }
}

/// The body a reader is given, and its version. `held` is what was written to disk, `page`
/// what the document comes to now.
pub fn body_for(held: Option<(String, u64)>, page: Option<&str>) -> (r: (String, u64))
    ensures
        (r.0@, r.1) == given_body(
            match held {
                Some(body) => Some((body.0@, body.1)),
                None => None,
            },
            match page {
                Some(html) => Some(html@),
                None => None,
            },
        ),
{
    match held {
        Some(body) => body,
        None => match page {
            Some(html) => (fragment(html).body, 0),
            None => {
                let none: String = String::new();
                assert(none@ =~= seq![]);
                (none, 0)
            },
        },
    }
}

} // verus!

//! What a document server answers, and with what.
//!
//! Everything a served document answers: the annotator's page and its assets,
//! the rendered body, the annotation endpoints, the sidecar view, stored
//! captures, the event log, the listing, and the agent endpoint at `/m/`.

use vstd::prelude::*;
use vstd::string::*;
use vstd::utf8::*;

use crate::bytes::lemma_encoded;
use crate::num::{decimal, parse_u64, parse_uint, push_decimal};
use crate::paths::{extension, path_extension};
use crate::preview::anchors::lemma_no_byte;
use crate::preview::http::{entity_tag, version_tag};
use crate::serve::site::Located;
use crate::text::{
    a_part_stands_in_its_text, after_prefix, around_first, around_last, begins, chars_of, empty,
    find, find_at, is_empty, lemma_find_one, lemma_found_one, lower, occurs, opt_str, opt_text,
    parts_follow_each_other, replace, replaced, rsplit_once, same, split, split_on, split_once,
    stands_at, starts_with, strip_prefix, texts, to_lower, trim, trim_start_char, trimmed,
    trimmed_start_of,
};
use crate::webapp::icons::IconRole;
use crate::webapp::{path_role, role_of_path};

verus! {

// --------------------------------------------------------------- the escapes

/// The number a hexadecimal digit's byte writes, in either case.
pub open spec fn hex_byte(b: u8) -> Option<int> {
    if 48 <= b <= 57 {
        Some(b - 48)
    } else if 97 <= b <= 102 {
        Some(b - 87)
    } else if 65 <= b <= 70 {
        Some(b - 55)
    } else {
        None
    }
}

/// The byte two characters after a `%` stand for: two hexadecimal digits, or
/// one after a plus sign.
pub open spec fn escaped_byte(a: u8, b: u8) -> Option<u8> {
    match (hex_byte(a), hex_byte(b)) {
        (Some(x), Some(y)) => Some((x * 16 + y) as u8),
        (None, Some(y)) => if a == 43 {
            Some(y as u8)
        } else {
            None
        },
        _ => None,
    }
}

/// Some bytes with their escapes read back, from a place on.
pub open spec fn unescaped_from(bytes: Seq<u8>, at: int, plus_is_space: bool) -> Seq<u8>
    decreases bytes.len() - at,
{
    if at < 0 || at >= bytes.len() {
        seq![]
    } else if bytes[at] == 37 && at + 2 < bytes.len() && escaped_byte(
        bytes[at + 1],
        bytes[at + 2],
    ) is Some {
        seq![escaped_byte(bytes[at + 1], bytes[at + 2]).unwrap()] + unescaped_from(
            bytes,
            at + 3,
            plus_is_space,
        )
    } else if bytes[at] == 43 && plus_is_space {
        seq![32u8] + unescaped_from(bytes, at + 1, plus_is_space)
    } else {
        seq![bytes[at]] + unescaped_from(bytes, at + 1, plus_is_space)
    }
}

/// Some bytes as text, where what is no text is replaced.
pub uninterp spec fn lossy(bytes: Seq<u8>) -> Seq<char>;

/// `String::from_utf8_lossy`: some bytes as text. Bytes that encode a text are
/// that text.
#[verifier::external_body]
fn lossy_text(bytes: &[u8]) -> (r: String)
    ensures
        r@ == lossy(bytes@),
        valid_utf8(bytes@) ==> encode_utf8(r@) == bytes@,
{
    String::from_utf8_lossy(bytes).into_owned()
}

/// The number a hexadecimal digit's byte writes.
fn hex_of_byte(b: u8) -> (r: Option<u8>)
    ensures
        match r {
            Some(n) => hex_byte(b) == Some(n as int) && n < 16,
            None => hex_byte(b) is None,
        },
{
    if 48 <= b && b <= 57 {
        Some(b - 48)
    } else if 97 <= b && b <= 102 {
        Some(b - 87)
    } else if 65 <= b && b <= 70 {
        Some(b - 55)
    } else {
        None
    }
}

/// The byte two characters after a `%` stand for.
fn read_escape(a: u8, b: u8) -> (r: Option<u8>)
    ensures
        r == escaped_byte(a, b),
{
    match (hex_of_byte(a), hex_of_byte(b)) {
        (Some(x), Some(y)) => Some(x * 16 + y),
        (None, Some(y)) => if a == 43 {
            Some(y)
        } else {
            None
        },
        _ => None,
    }
}

/// The bytes of a text with its escapes read back.
pub fn unescape_bytes(value: &str, plus_is_space: bool) -> (r: Vec<u8>)
    ensures
        r@ == unescaped_from(encode_utf8(value@), 0, plus_is_space),
{
    let bytes: &[u8] = value.as_bytes();
    let total: usize = bytes.len();
    let mut out: Vec<u8> = Vec::new();
    let mut at: usize = 0;
    let ghost whole = unescaped_from(bytes@, 0, plus_is_space);
    assert(out@ + whole =~= whole);
    while at < total
        invariant
            at <= total,
            total == bytes@.len(),
            whole == unescaped_from(bytes@, 0, plus_is_space),
            out@ + unescaped_from(bytes@, at as int, plus_is_space) == whole,
        decreases total - at,
    {
        let ghost before = out@;
        let ghost was = at;
        let b: u8 = bytes[at];
        let escape: Option<u8> = if b == 37 && total - at > 2 {
            read_escape(bytes[at + 1], bytes[at + 2])
        } else {
            None
        };
        match escape {
            Some(byte) => {
                out.push(byte);
                at = at + 3;
            },
            None => {
                if b == 43 && plus_is_space {
                    out.push(32);
                } else {
                    out.push(b);
                }
                at = at + 1;
            },
        }
        assert(out@ + unescaped_from(bytes@, at as int, plus_is_space) =~= before
            + unescaped_from(bytes@, was as int, plus_is_space));
    }
    assert(out@ + unescaped_from(bytes@, at as int, plus_is_space) =~= out@);
    out
}

/// The text that some bytes encode; where they encode none, what is no text in them is
/// replaced.
pub open spec fn as_text(bytes: Seq<u8>) -> Seq<char> {
    if valid_utf8(bytes) {
        decode_utf8(bytes)
    } else {
        lossy(bytes)
    }
}

/// A value with its escapes read back.
pub open spec fn unescaped(value: Seq<char>, plus_is_space: bool) -> Seq<char> {
    as_text(unescaped_from(encode_utf8(value), 0, plus_is_space))
}

/// A value with its escapes read back.
///
/// `plus_is_space` is the difference between a query, where a `+` stands for a
/// space, and a path, where it is a character a file name may have.
pub fn unescape(value: &str, plus_is_space: bool) -> (r: String)
    ensures
        r@ == unescaped(value@, plus_is_space),
        valid_utf8(unescaped_from(encode_utf8(value@), 0, plus_is_space)) ==> encode_utf8(r@)
            == unescaped_from(encode_utf8(value@), 0, plus_is_space),
{
    let bytes: Vec<u8> = unescape_bytes(value, plus_is_space);
    let text: String = lossy_text(bytes.as_slice());
    proof {
        encode_utf8_decode_utf8(text@);
    }
    text
}

/// Bytes without a `%`, and without a `+` where that stands for a space, read
/// back as they are.
pub proof fn nothing_escaped_stays(bytes: Seq<u8>, at: int, plus_is_space: bool)
    requires
        0 <= at <= bytes.len(),
        forall|i: int|
            0 <= i < bytes.len() ==> #[trigger] bytes[i] != 37 && (plus_is_space ==> bytes[i] != 43),
    ensures
        unescaped_from(bytes, at, plus_is_space) == bytes.skip(at),
    decreases bytes.len() - at,
{
    if at < bytes.len() {
        nothing_escaped_stays(bytes, at + 1, plus_is_space);
        assert(bytes.skip(at) =~= seq![bytes[at]] + bytes.skip(at + 1));
    } else {
        assert(bytes.skip(at) =~= seq![]);
    }
}

/// A value without a `%`, and without a `+` where that stands for a space, is read back as it
/// is.
pub proof fn a_plain_value_stays(value: Seq<char>, plus_is_space: bool)
    requires
        !value.contains('%'),
        plus_is_space ==> !value.contains('+'),
    ensures
        unescaped(value, plus_is_space) == value,
{
    let bytes = encode_utf8(value);
    lemma_no_byte(value, '%');
    if plus_is_space {
        lemma_no_byte(value, '+');
    }
    nothing_escaped_stays(bytes, 0, plus_is_space);
    assert(bytes.skip(0) =~= bytes);
    lemma_encoded(value);
    encode_utf8_decode_utf8(value);
}

// ---------------------------------------------------------- what is asked for

/// Whether a path climbs out of what is being served, or cannot be a path.
pub open spec fn climbs(path: Seq<char>) -> bool {
    exists|i: int|
        0 <= i < split(path, '/').len() && {
            let part = #[trigger] split(path, '/')[i];
            part == ".."@ || occurs(part, seq!['\0'])
        }
}

/// Whether a path climbs out of what is being served: one of its parts says
/// `..`, or holds what no name can.
pub fn path_climbs(path: &str) -> (r: bool)
    ensures
        r == climbs(path@),
{
    let parts: Vec<String> = split_on(path, '/');
    let ghost all = split(path@, '/');
    assert(texts(parts@).len() == parts@.len());
    let mut i: usize = 0;
    while i < parts.len()
        invariant
            i <= parts@.len(),
            texts(parts@) == all,
            all == split(path@, '/'),
            all.len() == parts@.len(),
            forall|k: int|
                0 <= k < i ==> !(#[trigger] all[k] == ".."@ || occurs(all[k], seq!['\0'])),
        decreases parts@.len() - i,
    {
        assert(all[i as int] == parts@[i as int]@);
        let part: Vec<char> = chars_of(parts[i].as_str());
        let zero: Vec<char> = vec!['\0'];
        assert(zero@ =~= seq!['\0']);
        if same(parts[i].as_str(), "..") || find_at(part.as_slice(), zero.as_slice(), 0).is_some() {
            assert(all[i as int] == ".."@ || occurs(all[i as int], seq!['\0']));
            return true;
        }
        i = i + 1;
    }
    false
}

/// A path as it was sent, read back, unless it climbs out of what is being
/// served. Reading it back is how it would: the raw path cannot say `..`.
pub fn read_path(raw: &str) -> (r: Option<String>)
    ensures
        match r {
            Some(path) => path@ == unescaped(raw@, false) && !climbs(path@),
            None => climbs(unescaped(raw@, false)),
        },
        r matches Some(path) ==> valid_utf8(unescaped_from(encode_utf8(raw@), 0, false))
            ==> encode_utf8(path@) == unescaped_from(encode_utf8(raw@), 0, false),
{
    let path: String = unescape(raw, false);
    if path_climbs(path.as_str()) {
        None
    } else {
        Some(path)
    }
}

/// What a request is about, before anything is looked for.
#[derive(Debug)]
pub enum Ask {
    /// An endpoint, under a mode.
    Endpoint {
        /// The mode.
        role: IconRole,
        /// The path of the endpoint.
        path: String,
    },
    /// Something in the directory being served, under a mode.
    Lookup {
        /// The mode.
        role: IconRole,
        /// The path under the directory.
        rest: String,
    },
    /// Something named absolutely, under no mode.
    Plain,
}

/// What a request is about.
pub enum AskV {
    Endpoint(IconRole, Seq<char>),
    Lookup(IconRole, Seq<char>),
    Plain,
}

impl View for Ask {
    type V = AskV;

    open spec fn view(&self) -> AskV {
        match self {
            Ask::Endpoint { role, path } => AskV::Endpoint(*role, path@),
            Ask::Lookup { role, rest } => AskV::Lookup(*role, rest@),
            Ask::Plain => AskV::Plain,
        }
    }
}

/// What a request is about. What a path names under a directory is the
/// directory's own business; its endpoints are not a document called `dev`.
pub open spec fn ask_of(path: Seq<char>, listing: bool) -> AskV {
    match path_role(path) {
        None => AskV::Plain,
        Some(found) => if listing && !begins(found.1, "dev/"@) {
            AskV::Lookup(found.0, found.1)
        } else {
            AskV::Endpoint(found.0, "/"@ + found.1)
        },
    }
}

/// What a request is about: which mode it is under, and what it asks of it.
pub fn ask(path: &str, listing: bool) -> (r: Ask)
    ensures
        r@ == ask_of(path@, listing),
{
    match role_of_path(path) {
        None => Ask::Plain,
        Some((role, rest)) => {
            if listing && !starts_with(rest.as_str(), "dev/") {
                Ask::Lookup { role, rest }
            } else {
                let mut path: String = "/".to_string();
                path.append(rest.as_str());
                Ask::Endpoint { role, path }
            }
        },
    }
}

/// What was found for a path under a directory.
#[derive(Clone, Copy, Debug, PartialEq, Eq, Structural)]
pub enum Found {
    /// Nothing was looked for.
    Unasked,
    /// A document.
    Document,
    /// A file to hand over as it is.
    File,
    /// A directory.
    Directory,
    /// Nothing.
    Missing,
}

/// What a request turned out to be about.
#[derive(Debug)]
pub struct Target {
    /// The mode it is under, if any.
    pub role: Option<IconRole>,
    /// The document, where a directory has several.
    pub slug: String,
    /// What is asked of it.
    pub path: String,
    /// What was found.
    pub found: Found,
}

/// What a request turned out to be about.
pub struct TargetV {
    pub role: Option<IconRole>,
    pub slug: Seq<char>,
    pub path: Seq<char>,
    pub found: Found,
}

impl View for Target {
    type V = TargetV;

    open spec fn view(&self) -> TargetV {
        TargetV { role: self.role, slug: self.slug@, path: self.path@, found: self.found }
    }
}

/// What a request turned out to be about, of what was found for it: the name of
/// a document and what is asked of it, where it was one.
pub open spec fn target_of(
    asked: AskV,
    raw: Seq<char>,
    found: Found,
    slug: Seq<char>,
    tail: Seq<char>,
) -> TargetV {
    match asked {
        AskV::Endpoint(role, path) => TargetV {
            role: Some(role),
            slug: seq![],
            path,
            found: Found::Unasked,
        },
        AskV::Lookup(role, _) => if found == Found::Document {
            TargetV { role: Some(role), slug, path: "/"@ + tail, found }
        } else {
            TargetV { role: Some(role), slug: seq![], path: seq![], found }
        },
        AskV::Plain => TargetV { role: None, slug: seq![], path: raw, found: Found::Unasked },
    }
}

/// What a request turned out to be about.
pub fn target(asked: Ask, raw: &str, found: Found, slug: &str, tail: &str) -> (r: Target)
    ensures
        r@ == target_of(asked@, raw@, found, slug@, tail@),
{
    match asked {
        Ask::Endpoint { role, path } => Target {
            role: Some(role),
            slug: empty(),
            path,
            found: Found::Unasked,
        },
        Ask::Lookup { role, rest: _ } => if found == Found::Document {
            let mut path: String = "/".to_string();
            path.append(tail);
            Target { role: Some(role), slug: slug.to_string(), path, found }
        } else {
            Target { role: Some(role), slug: empty(), path: empty(), found }
        },
        Ask::Plain => Target {
            role: None,
            slug: empty(),
            path: raw.to_string(),
            found: Found::Unasked,
        },
    }
}

/// What a directory says of a path: what is there, and where it is a document, its name and
/// what is asked of it. Nothing where the directory was not asked.
pub open spec fn located_v(located: Option<Located>) -> (Found, Seq<char>, Seq<char>) {
    match located {
        None => (Found::Unasked, seq![], seq![]),
        Some(Located::Document { slug, tail }) => (Found::Document, slug@, tail@),
        Some(Located::File(_)) => (Found::File, seq![], seq![]),
        Some(Located::Listing(_)) => (Found::Directory, seq![], seq![]),
        Some(Located::Missing) => (Found::Missing, seq![], seq![]),
    }
}

/// What a request turned out to be about, of what the directory said of its path.
pub fn target_at(asked: Ask, raw: &str, located: &Option<Located>) -> (r: Target)
    ensures
        ({
            let found = located_v(*located);
            r@ == target_of(asked@, raw@, found.0, found.1, found.2)
        }),
{
    proof {
        reveal_strlit("");
        assert(""@ =~= seq![]);
    }
    match located {
        None => target(asked, raw, Found::Unasked, "", ""),
        Some(Located::Document { slug, tail }) => target(
            asked,
            raw,
            Found::Document,
            slug.as_str(),
            tail.as_str(),
        ),
        Some(Located::File(_)) => target(asked, raw, Found::File, "", ""),
        Some(Located::Listing(_)) => target(asked, raw, Found::Directory, "", ""),
        Some(Located::Missing) => target(asked, raw, Found::Missing, "", ""),
    }
}

/// Whether a request is one that needs its document: building one is compiling
/// it, so it happens when one is asked for and not before.
pub open spec fn needs_document(t: TargetV, listing: bool) -> bool {
    (t.role is Some || begins(t.path, "/dev/"@)) && !(listing && t.slug.len() == 0)
}

/// Whether a request is one that needs its document.
pub fn wants_document(t: &Target, listing: bool) -> (r: bool)
    ensures
        r == needs_document(t@, listing),
{
    (t.role.is_some() || starts_with(t.path.as_str(), "/dev/")) && !(listing && is_empty(
        t.slug.as_str(),
    ))
}

// ---------------------------------------------------------------- the routes

/// What a request to a document server is answered with.
#[derive(Clone, Copy, Debug, PartialEq, Eq, Structural)]
pub enum Route {
    /// The connection becomes a websocket.
    Websocket,
    /// The reader's own stylesheet.
    Stylesheet,
    /// An icon.
    Icon,
    /// A web app's manifest.
    Manifest,
    /// A file the directory holds, as it is.
    File,
    /// Nothing is there.
    Missing,
    /// A directory's front page.
    Listing,
    /// There is no document of that name.
    NoDocument,
    /// The same address with a slash at its end.
    AddSlash,
    /// A document's page.
    Page,
    /// Agents are not served.
    NoAgents,
    /// Agents have to post.
    PostOnly,
    /// An agent's call.
    Agent,
    /// The server stops.
    Stop,
    /// What the server has said.
    Events,
    /// What a directory holds.
    Docs,
    /// The stream of diagnostics.
    Diagnostics,
    /// The script that draws them.
    Overlay,
    /// Which build is answering.
    Build,
    /// A page's own errors.
    ClientLog,
    /// The sidecar as a page.
    Sidecar,
    /// One stored capture.
    Capture,
    /// The rendered document.
    Body,
    /// The client's script.
    ClientScript,
    /// The client's stylesheet.
    ClientStyle,
    /// Locations of one rendering in terms of another.
    Relocate,
    /// The rendering and its map.
    HtmlDoc,
    /// The annotations there are.
    HtmlPins,
    /// No such endpoint of a rendering.
    HtmlUnknown,
    /// A new annotation.
    Annotate,
    /// An annotation goes.
    AnnotateDelete,
    /// A reply to one.
    AnnotateReply,
    /// Whether one is claimed, or done.
    AnnotateFlags,
    /// No such endpoint of annotations.
    AnnotateUnknown,
    /// Into the server's own mode.
    IntoMode,
}

/// What there is to answer with.
#[derive(Clone, Copy, Debug, PartialEq, Eq, Structural)]
pub struct Ready {
    /// Whether the request asks to become a websocket.
    pub upgrade: bool,
    /// Whether the path names an icon.
    pub icon: bool,
    /// Whether the path names a manifest.
    pub manifest: bool,
    /// Whether the site is a directory.
    pub listing: bool,
    /// Whether the document is there.
    pub document: bool,
    /// Whether agents are served.
    pub agents: bool,
    /// Whether the request posts.
    pub post: bool,
}

/// What a page is answered with: what the directory holds under its name, or
/// the document, at an address that ends in a slash.
pub open spec fn page_route(t: TargetV, ready: Ready) -> Route {
    if t.found == Found::File {
        Route::File
    } else if t.found == Found::Missing {
        Route::Missing
    } else if ready.listing && t.slug.len() == 0 {
        Route::Listing
    } else if !ready.document {
        Route::NoDocument
    } else if t.path.len() == 0 {
        Route::AddSlash
    } else {
        Route::Page
    }
}

/// What an agent is answered with.
pub open spec fn agent_route(ready: Ready) -> Route {
    if !ready.agents {
        Route::NoAgents
    } else if !ready.post {
        Route::PostOnly
    } else {
        Route::Agent
    }
}

/// What a request for something of a rendering is answered with.
pub open spec fn html_route(path: Seq<char>) -> Route {
    if path == "/dev/html/doc"@ {
        Route::HtmlDoc
    } else if path == "/dev/html/pins"@ {
        Route::HtmlPins
    } else {
        Route::HtmlUnknown
    }
}

/// What a request to change annotations is answered with.
pub open spec fn annotate_route(path: Seq<char>) -> Route {
    if path == "/dev/annotate"@ {
        Route::Annotate
    } else if path == "/dev/annotate/delete"@ {
        Route::AnnotateDelete
    } else if path == "/dev/annotate/reply"@ {
        Route::AnnotateReply
    } else if path == "/dev/annotate/flags"@ {
        Route::AnnotateFlags
    } else {
        Route::AnnotateUnknown
    }
}

/// What a request for an endpoint is answered with.
pub open spec fn endpoint_route(raw: Seq<char>, path: Seq<char>, ready: Ready) -> Route {
    if path == "/dev/events"@ {
        Route::Events
    } else if path == "/dev/docs"@ && ready.listing {
        Route::Docs
    } else if path == "/dev/diagnostics"@ && ready.document {
        Route::Diagnostics
    } else if path == "/dev/overlay.js"@ && ready.document {
        Route::Overlay
    } else if path == "/dev/build"@ {
        Route::Build
    } else if path == "/dev/clientlog"@ {
        Route::ClientLog
    } else if path == "/sidecar"@ && ready.document {
        Route::Sidecar
    } else if begins(path, "/dev/capture/"@) {
        Route::Capture
    } else if path == "/body.html"@ && ready.document {
        Route::Body
    } else if path == "/dev/html/annotate.js"@ {
        Route::ClientScript
    } else if path == "/dev/html/annotate.css"@ {
        Route::ClientStyle
    } else if path == "/dev/html/relocate"@ && ready.document {
        Route::Relocate
    } else if begins(path, "/dev/html/"@) && ready.document {
        html_route(path)
    } else if begins(path, "/dev/annotate"@) && ready.document {
        annotate_route(path)
    } else if path_role(raw) is Some {
        // A path that already names a mode is not sent anywhere: redirecting it
        // into the mode it is in is how a browser ends up following `/a/a/a/`.
        Route::Missing
    } else {
        Route::IntoMode
    }
}

/// What a request to a document server is answered with: the furniture, then
/// pages, then agents, then endpoints.
pub open spec fn route_of(raw: Seq<char>, css: Seq<char>, t: TargetV, ready: Ready) -> Route {
    if ready.upgrade {
        Route::Websocket
    } else if raw == css {
        Route::Stylesheet
    } else if ready.icon {
        Route::Icon
    } else if ready.manifest {
        Route::Manifest
    } else if asks_page(raw, css, t, ready) {
        page_route(t, ready)
    } else if raw == "/m"@ || begins(raw, "/m/"@) {
        agent_route(ready)
    } else if raw == "/dev/stop"@ {
        Route::Stop
    } else {
        endpoint_route(raw, t.path, ready)
    }
}

/// Whether a request asks for a page of a mode: not for the furniture, and for nothing under
/// what the mode shows.
pub open spec fn asks_page(raw: Seq<char>, css: Seq<char>, t: TargetV, ready: Ready) -> bool {
    &&& !ready.upgrade
    &&& raw != css
    &&& !ready.icon
    &&& !ready.manifest
    &&& t.role is Some
    &&& t.path.len() == 0 || t.path == "/"@
}

/// Whether a request asks for a page of a mode, which is said when it does.
pub fn page_asked(raw: &str, css: &str, t: &Target, ready: Ready) -> (r: bool)
    ensures
        r == asks_page(raw@, css@, t@, ready),
{
    !ready.upgrade && !same(raw, css) && !ready.icon && !ready.manifest && t.role.is_some() && (
    is_empty(t.path.as_str()) || same(t.path.as_str(), "/"))
}

/// What a page is answered with.
fn route_page(t: &Target, ready: Ready) -> (r: Route)
    ensures
        r == page_route(t@, ready),
{
    if t.found == Found::File {
        Route::File
    } else if t.found == Found::Missing {
        Route::Missing
    } else if ready.listing && is_empty(t.slug.as_str()) {
        Route::Listing
    } else if !ready.document {
        Route::NoDocument
    } else if is_empty(t.path.as_str()) {
        Route::AddSlash
    } else {
        Route::Page
    }
}

/// What a request to change annotations is answered with.
fn route_annotate(path: &str) -> (r: Route)
    ensures
        r == annotate_route(path@),
{
    if same(path, "/dev/annotate") {
        Route::Annotate
    } else if same(path, "/dev/annotate/delete") {
        Route::AnnotateDelete
    } else if same(path, "/dev/annotate/reply") {
        Route::AnnotateReply
    } else if same(path, "/dev/annotate/flags") {
        Route::AnnotateFlags
    } else {
        Route::AnnotateUnknown
    }
}

/// What a request for an endpoint is answered with.
fn route_endpoint(raw: &str, path: &str, ready: Ready) -> (r: Route)
    ensures
        r == endpoint_route(raw@, path@, ready),
{
    if same(path, "/dev/events") {
        Route::Events
    } else if same(path, "/dev/docs") && ready.listing {
        Route::Docs
    } else if same(path, "/dev/diagnostics") && ready.document {
        Route::Diagnostics
    } else if same(path, "/dev/overlay.js") && ready.document {
        Route::Overlay
    } else if same(path, "/dev/build") {
        Route::Build
    } else if same(path, "/dev/clientlog") {
        Route::ClientLog
    } else if same(path, "/sidecar") && ready.document {
        Route::Sidecar
    } else if starts_with(path, "/dev/capture/") {
        Route::Capture
    } else if same(path, "/body.html") && ready.document {
        Route::Body
    } else if same(path, "/dev/html/annotate.js") {
        Route::ClientScript
    } else if same(path, "/dev/html/annotate.css") {
        Route::ClientStyle
    } else if same(path, "/dev/html/relocate") && ready.document {
        Route::Relocate
    } else if starts_with(path, "/dev/html/") && ready.document {
        if same(path, "/dev/html/doc") {
            Route::HtmlDoc
        } else if same(path, "/dev/html/pins") {
            Route::HtmlPins
        } else {
            Route::HtmlUnknown
        }
    } else if starts_with(path, "/dev/annotate") && ready.document {
        route_annotate(path)
    } else if role_of_path(raw).is_some() {
        Route::Missing
    } else {
        Route::IntoMode
    }
}

/// What a request to a document server is answered with. `raw` is the path that
/// was asked for, `css` the path of the reader's own stylesheet.
pub fn route(raw: &str, css: &str, t: &Target, ready: Ready) -> (r: Route)
    ensures
        r == route_of(raw@, css@, t@, ready),
{
    if ready.upgrade {
        return Route::Websocket;
    }
    if same(raw, css) {
        return Route::Stylesheet;
    }
    if ready.icon {
        return Route::Icon;
    }
    if ready.manifest {
        return Route::Manifest;
    }
    if t.role.is_some() && (is_empty(t.path.as_str()) || same(t.path.as_str(), "/")) {
        return route_page(t, ready);
    }
    if same(raw, "/m") || starts_with(raw, "/m/") {
        return if !ready.agents {
            Route::NoAgents
        } else if !ready.post {
            Route::PostOnly
        } else {
            Route::Agent
        };
    }
    if same(raw, "/dev/stop") {
        return Route::Stop;
    }
    route_endpoint(raw, t.path.as_str(), ready)
}

/// A path that names a mode is never sent into one: what is not there is said
/// not to be there.
pub proof fn a_mode_is_not_sent_into_itself(raw: Seq<char>, css: Seq<char>, t: TargetV, ready: Ready)
    requires
        path_role(raw) is Some,
    ensures
        route_of(raw, css, t, ready) != Route::IntoMode,
{
}

/// Annotations are changed only where there is a document to change them of.
pub proof fn changes_need_a_document(raw: Seq<char>, css: Seq<char>, t: TargetV, ready: Ready)
    requires
        !ready.document,
    ensures
        route_of(raw, css, t, ready) != Route::Annotate,
        route_of(raw, css, t, ready) != Route::AnnotateDelete,
        route_of(raw, css, t, ready) != Route::AnnotateReply,
        route_of(raw, css, t, ready) != Route::AnnotateFlags,
        route_of(raw, css, t, ready) != Route::Relocate,
        route_of(raw, css, t, ready) != Route::Body,
{
}

// -------------------------------------------------------------- the answers

/// What an answer that is not read from anywhere says.
#[derive(Debug)]
pub struct Reply {
    /// The status.
    pub status: u16,
    /// Where to go instead, for a redirection.
    pub location: Option<String>,
    /// What is said, as plain text.
    pub body: String,
}

/// What an answer that is not read from anywhere says.
pub struct ReplyV {
    pub status: u16,
    pub location: Option<Seq<char>>,
    pub body: Seq<char>,
}

impl View for Reply {
    type V = ReplyV;

    open spec fn view(&self) -> ReplyV {
        ReplyV { status: self.status, location: opt_text(self.location), body: self.body@ }
    }
}

/// The answer to a path that is refused.
pub fn refusal() -> (r: Reply)
    ensures
        r@ == (ReplyV { status: 400, location: None, body: "no\n"@ }),
{
    Reply { status: 400, location: None, body: "no\n".to_string() }
}

/// What a route that is not read from anywhere is answered with. `prefix` is
/// where the server's own mode lives.
pub open spec fn reply_of(
    route: Route,
    raw: Seq<char>,
    slug: Seq<char>,
    prefix: Seq<char>,
) -> Option<ReplyV> {
    match route {
        Route::Missing => Some(
            ReplyV { status: 404, location: None, body: "nothing here: "@ + raw + "\n"@ },
        ),
        Route::NoDocument => Some(
            ReplyV { status: 404, location: None, body: "no document named "@ + slug + "\n"@ },
        ),
        Route::AddSlash => Some(
            ReplyV { status: 301, location: Some(raw + "/"@), body: Seq::<char>::empty() },
        ),
        Route::NoAgents => Some(
            ReplyV {
                status: 404,
                location: None,
                body: "this server was not started with --mcp\n"@,
            },
        ),
        Route::PostOnly => Some(
            ReplyV { status: 405, location: None, body: Seq::<char>::empty() },
        ),
        Route::Stop => Some(ReplyV { status: 200, location: None, body: "stopping\n"@ }),
        Route::ClientLog => Some(
            ReplyV { status: 200, location: None, body: Seq::<char>::empty() },
        ),
        Route::IntoMode => Some(
            ReplyV {
                status: 302,
                location: Some(prefix + trim_start_char(raw, '/')),
                body: Seq::<char>::empty(),
            },
        ),
        _ => None,
    }
}

/// What a route that is not read from anywhere is answered with.
pub fn reply(route: Route, raw: &str, slug: &str, prefix: &str) -> (r: Option<Reply>)
    ensures
        match r {
            Some(reply) => reply_of(route, raw@, slug@, prefix@) == Some(reply@),
            None => reply_of(route, raw@, slug@, prefix@) is None,
        },
{
    match route {
        Route::Missing => {
            let mut body: String = "nothing here: ".to_string();
            body.append(raw);
            body.append("\n");
            Some(Reply { status: 404, location: None, body })
        },
        Route::NoDocument => {
            let mut body: String = "no document named ".to_string();
            body.append(slug);
            body.append("\n");
            Some(Reply { status: 404, location: None, body })
        },
        Route::AddSlash => {
            let mut to: String = raw.to_string();
            to.append("/");
            Some(Reply { status: 301, location: Some(to), body: empty() })
        },
        Route::NoAgents => Some(
            Reply {
                status: 404,
                location: None,
                body: "this server was not started with --mcp\n".to_string(),
            },
        ),
        Route::PostOnly => Some(Reply { status: 405, location: None, body: empty() }),
        Route::Stop => Some(Reply { status: 200, location: None, body: "stopping\n".to_string() }),
        Route::ClientLog => Some(Reply { status: 200, location: None, body: empty() }),
        Route::IntoMode => {
            let mut to: String = prefix.to_string();
            to.append(trimmed_start_of(raw, '/').as_str());
            Some(Reply { status: 302, location: Some(to), body: empty() })
        },
        _ => None,
    }
}

/// What is said where something that is read is not there.
pub open spec fn absent_text(route: Route) -> Seq<char> {
    match route {
        Route::Stylesheet => "no stylesheet\n"@,
        Route::File => "cannot read that file\n"@,
        Route::Capture => "no such capture\n"@,
        _ => Seq::<char>::empty(),
    }
}

/// What is said where something that is read is not there.
pub fn absent(route: Route) -> (r: Reply)
    ensures
        r@ == (ReplyV { status: 404, location: None, body: absent_text(route) }),
{
    let body: String = match route {
        Route::Stylesheet => "no stylesheet\n".to_string(),
        Route::File => "cannot read that file\n".to_string(),
        Route::Capture => "no such capture\n".to_string(),
        _ => empty(),
    };
    Reply { status: 404, location: None, body }
}

/// What an answer that is read or made says it is, where its route alone says
/// so.
pub open spec fn route_type(route: Route) -> Option<Seq<char>> {
    match route {
        Route::Stylesheet => Some("text/css; charset=utf-8"@),
        Route::Icon => Some("image/png"@),
        Route::Manifest => Some("application/manifest+json"@),
        Route::Listing | Route::Page | Route::Sidecar | Route::Body => Some(
            "text/html; charset=utf-8"@,
        ),
        Route::Agent | Route::Events | Route::Docs | Route::Relocate | Route::HtmlDoc
        | Route::HtmlPins | Route::HtmlUnknown | Route::Annotate | Route::AnnotateDelete
        | Route::AnnotateReply | Route::AnnotateFlags | Route::AnnotateUnknown => Some(
            "application/json"@,
        ),
        Route::Diagnostics => Some("text/event-stream"@),
        Route::Overlay | Route::ClientScript => Some("application/javascript"@),
        Route::ClientStyle => Some("text/css"@),
        Route::Build => Some("text/plain"@),
        _ => None,
    }
}

/// How long an answer may be kept, where it says so. An icon is the same for an
/// hour; a capture is named by what is in it, and stays the same.
pub open spec fn route_cache(route: Route) -> Option<Seq<char>> {
    match route {
        Route::Stylesheet | Route::File | Route::Diagnostics | Route::Overlay | Route::Body
        | Route::ClientScript | Route::ClientStyle | Route::Relocate | Route::HtmlDoc
        | Route::HtmlPins | Route::HtmlUnknown => Some("no-cache"@),
        Route::Icon => Some("max-age=3600"@),
        Route::Capture => Some("max-age=86400, immutable"@),
        Route::Events | Route::Build | Route::Sidecar => Some("no-store"@),
        _ => None,
    }
}

/// What an answer says it is.
pub fn content_type(route: Route) -> (r: Option<&'static str>)
    ensures
        opt_str(r) == route_type(route),
{
    match route {
        Route::Stylesheet => Some("text/css; charset=utf-8"),
        Route::Icon => Some("image/png"),
        Route::Manifest => Some("application/manifest+json"),
        Route::Listing | Route::Page | Route::Sidecar | Route::Body => Some(
            "text/html; charset=utf-8",
        ),
        Route::Agent | Route::Events | Route::Docs | Route::Relocate | Route::HtmlDoc
        | Route::HtmlPins | Route::HtmlUnknown | Route::Annotate | Route::AnnotateDelete
        | Route::AnnotateReply | Route::AnnotateFlags | Route::AnnotateUnknown => Some(
            "application/json",
        ),
        Route::Diagnostics => Some("text/event-stream"),
        Route::Overlay | Route::ClientScript => Some("application/javascript"),
        Route::ClientStyle => Some("text/css"),
        Route::Build => Some("text/plain"),
        _ => None,
    }
}

/// How long an answer may be kept.
pub fn cache_control(route: Route) -> (r: Option<&'static str>)
    ensures
        opt_str(r) == route_cache(route),
{
    match route {
        Route::Stylesheet | Route::File | Route::Diagnostics | Route::Overlay | Route::Body
        | Route::ClientScript | Route::ClientStyle | Route::Relocate | Route::HtmlDoc
        | Route::HtmlPins | Route::HtmlUnknown => Some("no-cache"),
        Route::Icon => Some("max-age=3600"),
        Route::Capture => Some("max-age=86400, immutable"),
        Route::Events | Route::Build | Route::Sidecar => Some("no-store"),
        _ => None,
    }
}

/// What a file says it is, by its extension. Anything unrecognised is offered
/// as bytes, which a browser will download rather than mangle.
pub open spec fn mime_text(path: Seq<char>) -> Seq<char> {
    match path_extension(path) {
        None => "application/octet-stream"@,
        Some(ext) => {
            let e = lower(ext);
            if e == "pdf"@ {
                "application/pdf"@
            } else if e == "png"@ {
                "image/png"@
            } else if e == "jpg"@ || e == "jpeg"@ {
                "image/jpeg"@
            } else if e == "gif"@ {
                "image/gif"@
            } else if e == "webp"@ {
                "image/webp"@
            } else if e == "svg"@ {
                "image/svg+xml"@
            } else if e == "html"@ {
                "text/html; charset=utf-8"@
            } else if e == "json"@ {
                "application/json"@
            } else if e == "csv"@ {
                "text/csv; charset=utf-8"@
            } else if e == "md"@ || e == "txt"@ {
                "text/plain; charset=utf-8"@
            } else {
                "application/octet-stream"@
            }
        },
    }
}

/// What a file says it is, by its extension.
pub fn mime_of(path: &str) -> (r: &'static str)
    ensures
        r@ == mime_text(path@),
{
    match extension(path) {
        None => "application/octet-stream",
        Some(ext) => {
            let small: String = to_lower(ext.as_str());
            let e: &str = small.as_str();
            if same(e, "pdf") {
                "application/pdf"
            } else if same(e, "png") {
                "image/png"
            } else if same(e, "jpg") || same(e, "jpeg") {
                "image/jpeg"
            } else if same(e, "gif") {
                "image/gif"
            } else if same(e, "webp") {
                "image/webp"
            } else if same(e, "svg") {
                "image/svg+xml"
            } else if same(e, "html") {
                "text/html; charset=utf-8"
            } else if same(e, "json") {
                "application/json"
            } else if same(e, "csv") {
                "text/csv; charset=utf-8"
            } else if same(e, "md") || same(e, "txt") {
                "text/plain; charset=utf-8"
            } else {
                "application/octet-stream"
            }
        },
    }
}

/// Which capture a path names: what it is stored under, what it is stored as,
/// and what that says it is.
pub open spec fn capture_of(path: Seq<char>) -> Option<(Seq<char>, Seq<char>, Seq<char>)> {
    match after_prefix(path, "/dev/capture/"@) {
        None => None,
        Some(name) => match around_last(name, '.') {
            None => None,
            Some(parts) => Some(
                (
                    parts.0,
                    parts.1,
                    if parts.1 == "svg"@ {
                        "image/svg+xml"@
                    } else if parts.1 == "png"@ {
                        "image/png"@
                    } else {
                        "application/octet-stream"@
                    },
                ),
            ),
        },
    }
}

/// Which capture a path names.
pub fn capture_name(path: &str) -> (r: Option<(String, String, &'static str)>)
    ensures
        match r {
            Some(c) => capture_of(path@) == Some((c.0@, c.1@, c.2@)),
            None => capture_of(path@) is None,
        },
{
    match strip_prefix(path, "/dev/capture/") {
        None => None,
        Some(name) => match rsplit_once(name.as_str(), '.') {
            None => None,
            Some((hash, format)) => {
                let mime: &'static str = if same(format.as_str(), "svg") {
                    "image/svg+xml"
                } else if same(format.as_str(), "png") {
                    "image/png"
                } else {
                    "application/octet-stream"
                };
                Some((hash, format, mime))
            },
        },
    }
}

/// Whether a browser that sends a tag already has a version.
pub fn already_has(sent: Option<&str>, version: u64) -> (r: bool)
    ensures
        r == (opt_str(sent) == Some(version_tag(version as nat))),
{
    match sent {
        Some(sent) => same(sent, entity_tag(version).as_str()),
        None => false,
    }
}

/// A directory's front page, with what it asks for named from where the mode
/// lives: the same page is served at every depth, and a relative name would ask
/// for a stylesheet inside a directory.
pub fn listing_page(page: &str, prefix: &str) -> (r: String)
    ensures
        r@ == replace(
            replace(page@, "href=\"dev/"@, "href=\""@ + prefix@ + "dev/"@),
            "src=\"dev/"@,
            "src=\""@ + prefix@ + "dev/"@,
        ),
{
    proof {
        reveal_strlit("href=\"dev/");
        reveal_strlit("src=\"dev/");
    }
    let mut href: String = "href=\"".to_string();
    href.append(prefix);
    href.append("dev/");
    let mut src: String = "src=\"".to_string();
    src.append(prefix);
    src.append("dev/");
    let linked: String = replaced(page, "href=\"dev/", href.as_str());
    replaced(linked.as_str(), "src=\"dev/", src.as_str())
}

/// What the sidecar's page is called: after the document, or what is served, or
/// nothing better.
pub open spec fn sidecar_title_text(named: Seq<char>, root_name: Option<Seq<char>>) -> Seq<char> {
    (if named.len() > 0 {
        named
    } else {
        match root_name {
            Some(name) => name,
            None => "document"@,
        }
    }) + " — sidecar"@
}

/// What the sidecar's page is called.
pub fn sidecar_title(named: &str, root_name: Option<&str>) -> (r: String)
    ensures
        r@ == sidecar_title_text(named@, opt_str(root_name)),
{
    let mut out: String = if !is_empty(named) {
        named.to_string()
    } else {
        match root_name {
            Some(name) => name.to_string(),
            None => "document".to_string(),
        }
    };
    out.append(" — sidecar");
    out
}

/// Where the document of a sidecar's page is.
pub fn sidecar_where(root: &str, slug: &str) -> (r: String)
    ensures
        r@ == (if slug@.len() == 0 {
            root@
        } else {
            root@ + "/"@ + slug@ + ".typ"@
        }),
{
    let mut out: String = root.to_string();
    if !is_empty(slug) {
        out.append("/");
        out.append(slug);
        out.append(".typ");
    }
    out
}

/// The first of some pairs of a query with a name, without its escapes read
/// back.
pub open spec fn query_pair(pairs: Seq<Seq<char>>, name: Seq<char>) -> Option<Seq<char>>
    decreases pairs.len(),
{
    if pairs.len() == 0 {
        None
    } else {
        match around_first(pairs[0], '=') {
            Some(pair) => if pair.0 == name {
                Some(pair.1)
            } else {
                query_pair(pairs.skip(1), name)
            },
            None => query_pair(pairs.skip(1), name),
        }
    }
}

/// The value a query gives a name, without its escapes read back.
pub open spec fn query_param(query: Seq<char>, name: Seq<char>) -> Option<Seq<char>> {
    query_pair(split(query, '&'), name)
}

/// The value a query gives a name, without its escapes read back.
pub fn raw_param(query: &str, name: &str) -> (r: Option<String>)
    ensures
        opt_text(r) == query_param(query@, name@),
{
    let pairs: Vec<String> = split_on(query, '&');
    let ghost all = split(query@, '&');
    assert(texts(pairs@).len() == pairs@.len());
    assert(all.skip(0) =~= all);
    let mut i: usize = 0;
    while i < pairs.len()
        invariant
            i <= pairs@.len(),
            texts(pairs@) == all,
            all == split(query@, '&'),
            all.len() == pairs@.len(),
            query_pair(all, name@) == query_pair(all.skip(i as int), name@),
        decreases pairs@.len() - i,
    {
        assert(all.skip(i as int)[0] == texts(pairs@)[i as int]);
        assert(all.skip(i as int).skip(1) =~= all.skip(i + 1));
        match split_once(pairs[i].as_str(), '=') {
            Some((key, value)) => {
                if same(key.as_str(), name) {
                    return Some(value);
                }
            },
            None => {},
        }
        i = i + 1;
    }
    None
}

/// The longest a request may wait for something to happen, in seconds.
pub const MAX_WAIT: u64 = 300;

/// A number a query gives a name, or zero.
pub open spec fn query_number(query: Seq<char>, name: Seq<char>) -> nat {
    match query_param(query, name) {
        Some(text) => match parse_uint(text, u64::MAX as nat) {
            Some(n) => n,
            None => 0,
        },
        None => 0,
    }
}

/// A number a query gives a name, or zero.
fn number_param(query: &str, name: &str) -> (r: u64)
    ensures
        r == query_number(query@, name@),
{
    match raw_param(query, name) {
        Some(text) => match parse_u64(text.as_str()) {
            Some(n) => n,
            None => 0,
        },
        None => 0,
    }
}

/// What a request for events asks: the last it saw, and how long it will wait
/// for the next.
pub fn event_query(query: &str) -> (r: (u64, u64))
    ensures
        r.0 == query_number(query@, "since"@),
        r.1 == (if query_number(query@, "wait"@) > MAX_WAIT {
            MAX_WAIT as nat
        } else {
            query_number(query@, "wait"@)
        }),
{
    let wait: u64 = number_param(query, "wait");
    (
        number_param(query, "since"),
        if wait > MAX_WAIT {
            MAX_WAIT
        } else {
            wait
        },
    )
}

/// The first of some pairs that begins with `under=`, after that.
pub open spec fn under_pair(pairs: Seq<Seq<char>>) -> Option<Seq<char>>
    decreases pairs.len(),
{
    if pairs.len() == 0 {
        None
    } else {
        match after_prefix(pairs[0], "under="@) {
            Some(value) => Some(value),
            None => under_pair(pairs.skip(1)),
        }
    }
}

/// Which directory under the one being served a listing is asked for, by its
/// query: the path is the endpoint's. Without one it is the one being served.
pub fn listing_under(query: &str) -> (r: String)
    ensures
        r@ == match under_pair(split(query@, '&')) {
            Some(value) => unescaped(value, true),
            None => Seq::<char>::empty(),
        },
        under_pair(split(query@, '&')) matches Some(value) ==> valid_utf8(
            unescaped_from(encode_utf8(value), 0, true),
        ) ==> encode_utf8(r@) == unescaped_from(encode_utf8(value), 0, true),
{
    let pairs: Vec<String> = split_on(query, '&');
    let ghost all = split(query@, '&');
    assert(texts(pairs@).len() == pairs@.len());
    assert(all.skip(0) =~= all);
    let mut i: usize = 0;
    while i < pairs.len()
        invariant
            i <= pairs@.len(),
            texts(pairs@) == all,
            all == split(query@, '&'),
            all.len() == pairs@.len(),
            under_pair(all) == under_pair(all.skip(i as int)),
        decreases pairs@.len() - i,
    {
        assert(all.skip(i as int)[0] == texts(pairs@)[i as int]);
        assert(all.skip(i as int).skip(1) =~= all.skip(i + 1));
        match strip_prefix(pairs[i].as_str(), "under=") {
            Some(value) => {
                return unescape(value.as_str(), true);
            },
            None => {},
        }
        i = i + 1;
    }
    empty()
}

// ------------------------------------------------------------------ who asks

/// The identity a request carries, when it has one: what a proxy the client
/// cannot forge put in the header.
pub open spec fn author_of(header: Option<Seq<char>>) -> Option<Seq<char>> {
    match header {
        Some(value) => if trim(value).len() > 0 {
            Some(trim(value))
        } else {
            None
        },
        None => None,
    }
}

/// The identity a request carries, when it has one. It is read from the header
/// and never from the body.
pub fn request_author(header: Option<&str>) -> (r: Option<String>)
    ensures
        opt_text(r) == author_of(opt_str(header)),
{
    match header {
        Some(value) => {
            let login: String = trimmed(value);
            if is_empty(login.as_str()) {
                None
            } else {
                Some(login)
            }
        },
        None => None,
    }
}

/// The address a request came from: the first a proxy says it forwarded for,
/// or else the connection's far end.
pub open spec fn origin_address(forwarded: Option<Seq<char>>, peer: Seq<char>) -> Seq<char> {
    match forwarded {
        Some(value) => trim(split(value, ',')[0]),
        None => peer,
    }
}

/// The address a request came from.
pub fn client_address(forwarded: Option<&str>, peer: &str) -> (r: String)
    ensures
        r@ == origin_address(opt_str(forwarded), peer@),
{
    match forwarded {
        Some(value) => {
            let parts: Vec<String> = split_on(value, ',');
            assert(texts(parts@)[0] == parts@[0]@);
            trimmed(parts[0].as_str())
        },
        None => peer.to_string(),
    }
}

// --------------------------------------------------------- when nobody is there

/// How long an empty server waits before going, in seconds, when its window was
/// closed.
pub const CLOSED: u64 = 10;

/// The same, when an agent has been asked about a document.
pub const AGENT_HERE: u64 = 60;

/// The same, when somebody has claimed an annotation.
pub const AGENT_WORKING: u64 = 1800;

/// How long an empty server waits before going.
pub open spec fn grace_of(called: bool, working: bool) -> u64 {
    if called && working {
        AGENT_WORKING
    } else if called {
        AGENT_HERE
    } else {
        CLOSED
    }
}

/// How long an empty server waits before going, which depends on what is going
/// on in it: the claim on an annotation is the difference between a pause and
/// an ending.
pub fn grace(called: bool, working: bool) -> (r: u64)
    ensures
        r == grace_of(called, working),
{
    if called && working {
        AGENT_WORKING
    } else if called {
        AGENT_HERE
    } else {
        CLOSED
    }
}

/// When a server was last seen to be empty.
#[derive(Clone, Copy, Debug, PartialEq, Eq, Structural)]
pub struct Idle {
    /// Since when there has been nobody, in milliseconds.
    pub empty_since: Option<u64>,
}

/// What a look at a server's readers leads to: since when there has been
/// nobody, and the grace that has run out, if it has. A server that has served
/// no one yet is waited for.
pub open spec fn idle_step(
    idle: Idle,
    served: bool,
    live: usize,
    called: bool,
    working: bool,
    now: u64,
) -> (Idle, Option<u64>) {
    if !served {
        (idle, None)
    } else if live > 0 {
        (Idle { empty_since: None }, None)
    } else {
        let since = match idle.empty_since {
            Some(since) => since,
            None => now,
        };
        let next = Idle { empty_since: Some(since) };
        if now - since < grace_of(called, working) * 1000 {
            (next, None)
        } else {
            (next, Some(grace_of(called, working)))
        }
    }
}

impl Idle {
    /// A server nobody has looked at yet.
    pub fn new() -> (r: Self)
        ensures
            r.empty_since is None,
    {
        Idle { empty_since: None }
    }

    /// Looks at a server's readers, and says which grace has run out, if one
    /// has: the server has no reason to outlive its last reader by more. `now` is
    /// in milliseconds, a grace in seconds.
    pub fn look(&mut self, served: bool, live: usize, called: bool, working: bool, now: u64) -> (r:
        Option<u64>)
        ensures
            (*final(self), r) == idle_step(*old(self), served, live, called, working, now),
    {
        if !served {
            return None;
        }
        if live > 0 {
            self.empty_since = None;
            return None;
        }
        let since: u64 = match self.empty_since {
            Some(since) => since,
            None => now,
        };
        self.empty_since = Some(since);
        let wait: u64 = grace(called, working);
        if now < since || now - since < wait * 1000 {
            None
        } else {
            Some(wait)
        }
    }
}

/// A server with a reader never goes.
pub proof fn a_reader_keeps_it_up(
    idle: Idle,
    served: bool,
    live: usize,
    called: bool,
    working: bool,
    now: u64,
)
    requires
        live > 0,
    ensures
        idle_step(idle, served, live, called, working, now).1 is None,
{
}

/// A server goes only after it was empty for all of its grace.
pub proof fn it_goes_after_its_grace(
    idle: Idle,
    served: bool,
    live: usize,
    called: bool,
    working: bool,
    now: u64,
)
    requires
        idle_step(idle, served, live, called, working, now).1 is Some,
    ensures
        idle.empty_since matches Some(since) && now - since >= grace_of(called, working) * 1000,
{
}

/// Why a server goes.
pub fn farewell(grace: u64) -> (r: String)
    ensures
        r@ == "nobody reading for "@ + decimal(grace as nat) + "s"@,
{
    let mut out: String = "nobody reading for ".to_string();
    push_decimal(&mut out, grace);
    out.append("s");
    out
}

// ---------------------------------------------------------- what an address comes to

/// The byte of a hexadecimal digit.
pub open spec fn hex_digit_byte(n: int) -> u8 {
    if n < 10 {
        (48 + n) as u8
    } else {
        (55 + n) as u8
    }
}

/// Some bytes with every one of them escaped: a percent sign and the two digits of each.
pub open spec fn all_escaped(bytes: Seq<u8>) -> Seq<u8>
    decreases bytes.len(),
{
    if bytes.len() == 0 {
        seq![]
    } else {
        seq![37u8, hex_digit_byte(bytes[0] as int / 16), hex_digit_byte(bytes[0] as int % 16)]
            + all_escaped(bytes.skip(1))
    }
}

/// What is escaped is had back.
pub proof fn what_is_escaped_is_had_back(bytes: Seq<u8>, plus_is_space: bool)
    ensures
        unescaped_from(all_escaped(bytes), 0, plus_is_space) == bytes,
{
    let whole = all_escaped(bytes);
    assert(whole.skip(0) =~= whole);
    lemma_had_back(whole, 0, bytes, plus_is_space);
}

/// What is escaped from a place on is had back.
proof fn lemma_had_back(whole: Seq<u8>, at: int, bytes: Seq<u8>, plus_is_space: bool)
    requires
        0 <= at <= whole.len(),
        whole.skip(at) == all_escaped(bytes),
    ensures
        unescaped_from(whole, at, plus_is_space) == bytes,
    decreases bytes.len(),
{
    if bytes.len() == 0 {
        assert(whole.skip(at).len() == 0);
        assert(bytes =~= seq![]);
    } else {
        let rest = bytes.skip(1);
        let part = whole.skip(at);
        let b = bytes[0] as int;
        assert(part.len() >= 3);
        assert(part[0] == whole[at] && part[1] == whole[at + 1] && part[2] == whole[at + 2]);
        assert(0 <= b / 16 < 16 && 0 <= b % 16 < 16 && b == (b / 16) * 16 + b % 16);
        assert(hex_byte(hex_digit_byte(b / 16)) == Some(b / 16));
        assert(hex_byte(hex_digit_byte(b % 16)) == Some(b % 16));
        assert(escaped_byte(whole[at + 1], whole[at + 2]) == Some(bytes[0]));
        assert(whole.skip(at + 3) =~= part.skip(3));
        assert(part.skip(3) =~= all_escaped(rest));
        lemma_had_back(whole, at + 3, rest, plus_is_space);
        assert(seq![bytes[0]] + rest =~= bytes);
    }
}

/// In a query a plus stands for a space, and elsewhere for itself.
pub proof fn a_plus_is_a_space_in_a_query(bytes: Seq<u8>)
    requires
        forall|i: int| 0 <= i < bytes.len() ==> #[trigger] bytes[i] != 37,
    ensures
        unescaped_from(bytes, 0, true).len() == bytes.len(),
        forall|i: int|
            0 <= i < bytes.len() ==> #[trigger] unescaped_from(bytes, 0, true)[i] == if bytes[i] == 43 {
                32u8
            } else {
                bytes[i]
            },
        unescaped_from(bytes, 0, false) == bytes,
{
    lemma_plus(bytes, 0);
    nothing_escaped_stays(bytes, 0, false);
    assert(bytes.skip(0) =~= bytes);
}

/// From any place on a plus stands for a space.
proof fn lemma_plus(bytes: Seq<u8>, at: int)
    requires
        0 <= at <= bytes.len(),
        forall|i: int| 0 <= i < bytes.len() ==> #[trigger] bytes[i] != 37,
    ensures
        unescaped_from(bytes, at, true).len() == bytes.len() - at,
        forall|i: int|
            0 <= i < bytes.len() - at ==> #[trigger] unescaped_from(bytes, at, true)[i] == if bytes[at
                + i] == 43 {
                32u8
            } else {
                bytes[at + i]
            },
    decreases bytes.len() - at,
{
    if at < bytes.len() {
        lemma_plus(bytes, at + 1);
        let rest = unescaped_from(bytes, at + 1, true);
        let all = unescaped_from(bytes, at, true);
        assert forall|i: int| 0 <= i < bytes.len() - at implies #[trigger] all[i] == if bytes[at + i]
            == 43 {
            32u8
        } else {
            bytes[at + i]
        } by {
            if i > 0 {
                assert(all[i] == rest[i - 1]);
                assert(at + 1 + (i - 1) == at + i);
            }
        }
    }
}

/// A path that goes up a directory anywhere climbs, and one that holds no two dots together and no
/// null does not.
pub proof fn a_way_up_is_seen(before: Seq<char>, after: Seq<char>, path: Seq<char>)
    ensures
        climbs(before + seq!['/'] + ".."@ + seq!['/'] + after),
        climbs(".."@ + seq!['/'] + after),
        climbs(before + seq!['/'] + ".."@),
        (forall|i: int|
            0 <= i < path.len() ==> #[trigger] path[i] != '\0' && (i + 1 < path.len() && path[i] == '.'
                ==> path[i + 1] != '.')) ==> !climbs(path),
{
    reveal_strlit("..");
    lemma_found_one(".."@, '/');
    assert(split(".."@, '/') =~= seq![".."@]);
    let a = before + seq!['/'] + ".."@;
    parts_follow_each_other(before, ".."@, '/');
    assert(split(a, '/')[split(before, '/').len() as int] == ".."@);
    parts_follow_each_other(a, after, '/');
    assert(split(a + seq!['/'] + after, '/')[split(before, '/').len() as int] == ".."@);
    parts_follow_each_other(".."@, after, '/');
    assert(split(".."@ + seq!['/'] + after, '/')[0] == ".."@);
    if climbs(path) && forall|i: int|
        0 <= i < path.len() ==> #[trigger] path[i] != '\0' && (i + 1 < path.len() && path[i] == '.'
            ==> path[i + 1] != '.') {
        let i = choose|i: int|
            0 <= i < split(path, '/').len() && {
                let part = #[trigger] split(path, '/')[i];
                part == ".."@ || occurs(part, seq!['\0'])
            };
        let part = split(path, '/')[i];
        a_part_stands_in_its_text(path, '/', i);
        let at = choose|at: int| #[trigger] stands_at(path, part, at);
        let seen = path.subrange(at, at + part.len());
        if part == ".."@ {
            assert(seen[0] == '.' && seen[1] == '.');
            assert(path[at] == '.' && path[at + 1] == '.');
        } else {
            lemma_found_one(part, '\0');
            let k = find(part, seq!['\0'])->Some_0;
            assert(seen[k] == '\0');
            assert(path[at + k] == '\0');
        }
    }
}

/// A parameter of a query is the first that has its name.
pub proof fn a_parameter_is_found_by_name(
    name: Seq<char>,
    value: Seq<char>,
    other: Seq<char>,
    more: Seq<char>,
    rest: Seq<char>,
)
    requires
        !name.contains('=') && !name.contains('&') && !value.contains('&'),
        !other.contains('=') && !other.contains('&') && !more.contains('&'),
        other != name,
    ensures
        query_param(name + seq!['='] + value, name) == Some(value),
        query_param(name + seq!['='] + value + seq!['&'] + rest, name) == Some(value),
        query_param(other + seq!['='] + more + seq!['&'] + rest, name) == query_param(rest, name),
{
    let pair = name + seq!['='] + value;
    lemma_pair(name, value);
    parts_follow_each_other(pair, rest, '&');
    assert((seq![pair] + split(rest, '&'))[0] == pair);
    let skipped = other + seq!['='] + more;
    lemma_pair(other, more);
    parts_follow_each_other(skipped, rest, '&');
    assert((seq![skipped] + split(rest, '&')).skip(1) =~= split(rest, '&'));
    assert((seq![skipped] + split(rest, '&'))[0] == skipped);
}

/// A name and a value are the two sides of their first equals sign, and are one part of a query.
proof fn lemma_pair(name: Seq<char>, value: Seq<char>)
    requires
        !name.contains('=') && !name.contains('&') && !value.contains('&'),
    ensures
        around_first(name + seq!['='] + value, '=') == Some((name, value)),
        split(name + seq!['='] + value, '&') == seq![name + seq!['='] + value],
{
    let pair = name + seq!['='] + value;
    let n = name.len() as int;
    assert forall|k: int| 0 <= k < n implies pair[k] != '=' by {
        assert(pair[k] == name[k]);
    }
    lemma_find_one(pair, '=', n);
    assert(pair.take(n) =~= name);
    assert(pair.skip(n + 1) =~= value);
    assert forall|k: int| 0 <= k < pair.len() implies pair[k] != '&' by {
        if k < n {
            assert(pair[k] == name[k]);
        } else if k > n {
            assert(pair[k] == value[k - n - 1]);
        }
    }
    lemma_find_one(pair, '&', pair.len() as int);
}

/// Each way to change an annotation has its own address, and a page is given at the root of a
/// document.
pub proof fn each_change_has_its_address(raw: Seq<char>, css: Seq<char>, t: TargetV, ready: Ready)
    requires
        !ready.upgrade && !ready.icon && !ready.manifest,
        raw != css,
        ready.document,
        raw != "/m"@ && !begins(raw, "/m/"@) && raw != "/dev/stop"@,
    ensures
        t.path == "/dev/annotate"@ ==> route_of(raw, css, t, ready) == Route::Annotate,
        t.path == "/dev/annotate/delete"@ ==> route_of(raw, css, t, ready) == Route::AnnotateDelete,
        t.path == "/dev/annotate/reply"@ ==> route_of(raw, css, t, ready) == Route::AnnotateReply,
        t.path == "/dev/annotate/flags"@ ==> route_of(raw, css, t, ready) == Route::AnnotateFlags,
        t.path == "/dev/html/pins"@ ==> route_of(raw, css, t, ready) == Route::HtmlPins,
        t.path == "/dev/html/doc"@ ==> route_of(raw, css, t, ready) == Route::HtmlDoc,
        t.path == "/"@ && t.role is Some && t.found == Found::Unasked && !ready.listing ==> route_of(
            raw,
            css,
            t,
            ready,
        ) == Route::Page,
        t.path.len() == 0 && t.role is Some && t.found == Found::Unasked && !ready.listing
            ==> route_of(raw, css, t, ready) == Route::AddSlash,
{
    reveal_strlit("/");
    reveal_strlit("/dev/events");
    reveal_strlit("/dev/docs");
    reveal_strlit("/dev/diagnostics");
    reveal_strlit("/dev/overlay.js");
    reveal_strlit("/dev/build");
    reveal_strlit("/dev/clientlog");
    reveal_strlit("/sidecar");
    reveal_strlit("/dev/capture/");
    reveal_strlit("/body.html");
    reveal_strlit("/dev/html/annotate.js");
    reveal_strlit("/dev/html/annotate.css");
    reveal_strlit("/dev/html/relocate");
    reveal_strlit("/dev/html/");
    reveal_strlit("/dev/html/doc");
    reveal_strlit("/dev/html/pins");
    reveal_strlit("/dev/annotate");
    reveal_strlit("/dev/annotate/delete");
    reveal_strlit("/dev/annotate/reply");
    reveal_strlit("/dev/annotate/flags");
    let p = t.path;
    let own = "/dev/annotate"@;
    let html = "/dev/html/"@;
    if p == own || p == "/dev/annotate/delete"@ || p == "/dev/annotate/reply"@ || p
        == "/dev/annotate/flags"@ {
        assert(p[5] == 'a' && p.len() >= 13);
        assert(p.subrange(0, 13) =~= own);
        assert(begins(p, own));
        assert("/dev/capture/"@[5] == 'c' && html[5] == 'h');
        assert(p.subrange(0, 10)[5] == 'a');
        assert(p.subrange(0, 13)[5] == 'a');
        assert(!begins(p, html) && !begins(p, "/dev/capture/"@));
        assert("/dev/events"@[5] == 'e' && "/dev/docs"@[5] == 'd' && "/dev/diagnostics"@[5] == 'd'
            && "/dev/overlay.js"@[5] == 'o' && "/dev/build"@[5] == 'b' && "/dev/clientlog"@[5] == 'c'
            && "/sidecar"@[5] == 'c' && "/body.html"@[5] == '.' && "/dev/html/annotate.js"@[5] == 'h'
            && "/dev/html/annotate.css"@[5] == 'h' && "/dev/html/relocate"@[5] == 'h');
        if p.len() > 13 {
            assert("/dev/annotate/delete"@[14] == 'd' && "/dev/annotate/reply"@[14] == 'r'
                && "/dev/annotate/flags"@[14] == 'f');
        }
    }
    if p == "/dev/html/pins"@ || p == "/dev/html/doc"@ {
        assert(p.subrange(0, 10) =~= html);
        assert(begins(p, html));
        assert(p[5] == 'h' && p.len() <= 14);
        if p.len() >= 13 {
            assert(p.subrange(0, 13)[5] == 'h');
        }
        assert("/dev/capture/"@[5] == 'c');
        assert("/dev/events"@[5] == 'e' && "/dev/docs"@[5] == 'd' && "/dev/diagnostics"@[5] == 'd'
            && "/dev/overlay.js"@[5] == 'o' && "/dev/build"@[5] == 'b' && "/dev/clientlog"@[5] == 'c'
            && "/sidecar"@[5] == 'c' && "/body.html"@[5] == '.');
        assert("/dev/html/pins"@[10] == 'p' && "/dev/html/doc"@[10] == 'd');
    }
}

/// A server that nobody reads stays for ten seconds; for a minute when an agent has called, and for
/// half an hour while it works on something; and it goes when that long has passed.
pub proof fn it_waits_as_long_as_it_says(
    idle: Idle,
    since: u64,
    called: bool,
    working: bool,
    now: u64,
)
    requires
        idle.empty_since == Some(since),
        since <= now,
    ensures
        ({
            let out = idle_step(idle, true, 0, called, working, now);
            &&& !called ==> (out.1 is Some <==> now - since >= 10_000)
            &&& called && !working ==> (out.1 is Some <==> now - since >= 60_000)
            &&& called && working ==> (out.1 is Some <==> now - since >= 1_800_000)
            &&& out.0.empty_since == Some(since)
        }),
{
}

/// The wait begins when the last reader goes, and not before anybody came; a reader who comes ends
/// it.
pub proof fn the_wait_begins_when_it_is_empty(
    live: usize,
    called: bool,
    working: bool,
    now: u64,
    idle: Idle,
)
    ensures
        idle_step(Idle { empty_since: None }, true, 0, called, working, now).0.empty_since == Some(now),
        idle_step(Idle { empty_since: None }, true, 0, called, working, now).1 is None,
        idle_step(idle, false, live, called, working, now) == (idle, None::<u64>),
        live > 0 ==> idle_step(idle, true, live, called, working, now).0.empty_since is None,
{
}

/// A caller is where the first address that was passed on says, without white space around it.
pub proof fn the_first_address_is_the_callers(first: Seq<char>, rest: Seq<char>, peer: Seq<char>)
    requires
        !first.contains(','),
    ensures
        origin_address(Some(first), peer) == trim(first),
        origin_address(Some(first + seq![','] + rest), peer) == trim(first),
        origin_address(None, peer) == peer,
{
    lemma_found_one(first, ',');
    assert forall|k: int| 0 <= k < first.len() implies first[k] != ',' by {
        assert(first.contains(first[k]));
    }
    parts_follow_each_other(first, rest, ',');
    assert((split(first, ',') + split(rest, ','))[0] == first);
}

} // verus!

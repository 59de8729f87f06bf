//! What a previewer's server answers, and to whom.
//!
//! One document, opened by an editor, rendered as pages over a websocket. The
//! server answers for exactly that: the frontend, its diagnostics stream, and
//! the overlay script that draws them.

use vstd::prelude::*;
use vstd::string::*;

use crate::num::{decimal, decimal_of, push_decimal};
use crate::text::{
    after_prefix, begins, is_empty, opt_pair, opt_str, opt_text, replace, replaced, same,
    starts_with, strip_prefix, texts,
};

verus! {

// ---------------------------------------------------------------- the routes

/// What a request to a previewer is answered with.
#[derive(Clone, Copy, Debug, PartialEq, Eq, Structural)]
pub enum PreviewRoute {
    /// The connection becomes a websocket.
    Websocket,
    /// The document itself, when it is HTML.
    Body,
    /// The reading client's script.
    ClientScript,
    /// The reading client's stylesheet.
    ClientStyle,
    /// The annotations there are, of which a preview has none.
    Pins,
    /// The stream of diagnostics.
    Diagnostics,
    /// The script that draws them.
    Overlay,
    /// The previewer's own page.
    Page,
}

/// A path without the segment that says what kind of window asks.
pub open spec fn preview_path(path: Seq<char>) -> Seq<char> {
    match after_prefix(path, "/p"@) {
        Some(rest) => if begins(rest, "/"@) {
            rest
        } else {
            path
        },
        None => path,
    }
}

/// What a request to a previewer is answered with, of its path, of whether it
/// asks to become a websocket, and of whether there is a document in HTML and
/// a stream of diagnostics. The stream is exposed at `/dev/diagnostics`, where the
/// overlay listens, as well as beside the other endpoints.
pub open spec fn preview_route_of(
    raw: Seq<char>,
    upgrade: bool,
    body: bool,
    diagnostics: bool,
) -> PreviewRoute {
    let path = preview_path(raw);
    if upgrade {
        PreviewRoute::Websocket
    } else if path == "/body.html"@ && body {
        PreviewRoute::Body
    } else if path == "/api/html/annotate.js"@ {
        PreviewRoute::ClientScript
    } else if path == "/api/html/annotate.css"@ {
        PreviewRoute::ClientStyle
    } else if path == "/api/html/pins"@ {
        PreviewRoute::Pins
    } else if (path == "/api/diagnostics"@ || path == "/dev/diagnostics"@) && diagnostics {
        PreviewRoute::Diagnostics
    } else if path == "/api/overlay.js"@ && diagnostics {
        PreviewRoute::Overlay
    } else {
        PreviewRoute::Page
    }
}

/// What a request to a previewer is answered with.
pub fn preview_route(raw: &str, upgrade: bool, body: bool, diagnostics: bool) -> (r: PreviewRoute)
    ensures
        r == preview_route_of(raw@, upgrade, body, diagnostics),
{
    let stripped: String = match strip_prefix(raw, "/p") {
        Some(rest) => if starts_with(rest.as_str(), "/") {
            rest
        } else {
            raw.to_string()
        },
        None => raw.to_string(),
    };
    let path: &str = stripped.as_str();
    if upgrade {
        PreviewRoute::Websocket
    } else if same(path, "/body.html") && body {
        PreviewRoute::Body
    } else if same(path, "/api/html/annotate.js") {
        PreviewRoute::ClientScript
    } else if same(path, "/api/html/annotate.css") {
        PreviewRoute::ClientStyle
    } else if same(path, "/api/html/pins") {
        PreviewRoute::Pins
    } else if (same(path, "/api/diagnostics") || same(path, "/dev/diagnostics")) && diagnostics {
        PreviewRoute::Diagnostics
    } else if same(path, "/api/overlay.js") && diagnostics {
        PreviewRoute::Overlay
    } else {
        PreviewRoute::Page
    }
}

/// What an answer says it is, and how long it may be kept.
pub open spec fn preview_type_of(route: PreviewRoute) -> (Seq<char>, Option<Seq<char>>) {
    match route {
        PreviewRoute::Body => ("text/html; charset=utf-8"@, Some("no-cache"@)),
        PreviewRoute::ClientScript => ("application/javascript"@, Some("no-cache"@)),
        PreviewRoute::ClientStyle => ("text/css"@, Some("no-cache"@)),
        PreviewRoute::Pins => ("application/json"@, None),
        PreviewRoute::Diagnostics => ("text/event-stream"@, Some("no-cache"@)),
        PreviewRoute::Overlay => ("application/javascript"@, Some("no-cache"@)),
        PreviewRoute::Page => ("text/html; charset=utf-8"@, None),
        PreviewRoute::Websocket => (Seq::<char>::empty(), None),
    }
}

/// What an answer says it is, and how long it may be kept, where it says so. A
/// websocket is nothing that can be kept.
pub fn preview_type(route: PreviewRoute) -> (r: (&'static str, Option<&'static str>))
    ensures
        (r.0@, opt_str(r.1)) == preview_type_of(route),
{
    proof {
        reveal_strlit("");
        assert(""@ =~= Seq::<char>::empty());
    }
    match route {
        PreviewRoute::Body => ("text/html; charset=utf-8", Some("no-cache")),
        PreviewRoute::ClientScript => ("application/javascript", Some("no-cache")),
        PreviewRoute::ClientStyle => ("text/css", Some("no-cache")),
        PreviewRoute::Pins => ("application/json", None),
        PreviewRoute::Diagnostics => ("text/event-stream", Some("no-cache")),
        PreviewRoute::Overlay => ("application/javascript", Some("no-cache")),
        PreviewRoute::Page => ("text/html; charset=utf-8", None),
        PreviewRoute::Websocket => ("", None),
    }
}

/// The entity tag of a rendering: its version.
pub open spec fn version_tag(version: nat) -> Seq<char> {
    "\""@ + decimal(version) + "\""@
}

/// The entity tag of a rendering.
pub fn entity_tag(version: u64) -> (r: String)
    ensures
        r@ == version_tag(version as nat),
{
    let mut out: String = "\"".to_string();
    push_decimal(&mut out, version);
    out.append("\"");
    out
}

// --------------------------------------------------------------- the origins

/// What a text is as a URL: its scheme, its host, its path, and its origin as a
/// person reads it. Not every text is one.
pub uninterp spec fn url_parts(text: Seq<char>) -> Option<
    (Seq<char>, Option<Seq<char>>, Seq<char>, Seq<char>),
>;

/// A URL taken apart.
#[derive(Debug)]
pub struct UrlParts {
    /// Its scheme.
    pub scheme: String,
    /// Its host, if it has one.
    pub host: Option<String>,
    /// Its path.
    pub path: String,
    /// Its origin, as a person reads it.
    pub origin: String,
}

/// `lsp_types::Url::parse` and what it says of the scheme, the host, the path
/// and the origin of what it parsed.
#[verifier::external_body]
fn read_url(text: &str) -> (r: Option<UrlParts>)
    ensures
        match r {
            Some(u) => url_parts(text@) == Some(
                (u.scheme@, opt_text(u.host), u.path@, u.origin@),
            ),
            None => url_parts(text@) is None,
        },
{
    let url = lsp_types::Url::parse(text).ok()?;
    Some(UrlParts {
        scheme: url.scheme().to_string(),
        host: url.host_str().map(str::to_string),
        path: url.path().to_string(),
        origin: url.origin().unicode_serialization(),
    })
}

/// Whether two texts are URLs of one origin.
pub uninterp spec fn one_origin(a: Seq<char>, b: Seq<char>) -> bool;

/// `lsp_types::Url::origin`: whether two texts are URLs of one origin, which is
/// the scheme, the host and the port, given or implied.
#[verifier::external_body]
fn same_origin(a: &str, b: &str) -> (r: bool)
    ensures
        r == one_origin(a@, b@),
{
    match (lsp_types::Url::parse(a), lsp_types::Url::parse(b)) {
        (Ok(a), Ok(b)) => a.origin() == b.origin(),
        _ => false,
    }
}

/// Whether a configured origin is the one a browser sent: the same text, or the
/// same origin.
pub open spec fn admits(configured: Seq<char>, sent: Seq<char>) -> bool {
    configured == sent || one_origin(configured, sent)
}

/// Whether a configured origin is the one the browser sent. `http://typst`,
/// `http://typst/` and `http://typst:80` name one origin, which is what a
/// person writing the flag means by them, and what the browser means too.
pub fn origin_allows(configured: &str, sent: &str) -> (r: bool)
    ensures
        r == admits(configured@, sent@),
{
    same(configured, sent) || same_origin(configured, sent)
}

/// Whether a text can be an origin: a URL without a path.
pub open spec fn is_origin(sent: Seq<char>) -> bool {
    url_parts(sent) matches Some(u) && (u.2 == "/"@ || u.2 == Seq::<char>::empty())
}

/// The host a server's address names.
pub open spec fn address_host(addr: Seq<char>) -> Option<Seq<char>> {
    match url_parts("http://"@ + addr) {
        Some(u) => u.1,
        None => None,
    }
}

/// The origin a server's own pages have.
pub open spec fn own_origin(host: Seq<char>, port: u16) -> Seq<char> {
    "http://"@ + host + ":"@ + decimal(port as nat)
}

/// The origin a workspace of a hosting service has: the port and the workspace
/// are in its name.
pub open spec fn workspace_origin(port: u16, id: Seq<char>, host: Seq<char>) -> Seq<char> {
    "https://"@ + decimal(port as nat) + "-"@ + id + "."@ + host
}

/// The origin a proxy has, of the template its URLs are made with.
pub open spec fn proxy_origin(template: Seq<char>, port: u16) -> Option<Seq<char>> {
    match url_parts(replace(template, "{{port}}"@, decimal(port as nat))) {
        Some(u) => Some(u.3),
        None => None,
    }
}

/// Whether an origin is one of the editor's own web views, or of this machine.
pub open spec fn is_local(sent: Seq<char>) -> bool {
    url_parts(sent) matches Some(u) && (u.0 == "vscode-webview"@ || (u.0 == "http"@ && (u.1
        == Some("localhost"@) || u.1 == Some("127.0.0.1"@))))
}

/// Whether a browser at an origin may talk to a server: the origin is the
/// server's own, or local, or that of a workspace or proxy the server is known
/// to sit behind, or named on the command line.
pub open spec fn may_talk(
    sent: Seq<char>,
    host: Seq<char>,
    port: u16,
    workspace: Option<(Seq<char>, Seq<char>)>,
    proxy: Option<Seq<char>>,
    allowed: Seq<Seq<char>>,
) -> bool {
    is_origin(sent) && {
        ||| sent == own_origin(host, port)
        ||| is_local(sent)
        ||| (workspace matches Some(w) && sent == workspace_origin(port, w.0, w.1))
        ||| (proxy matches Some(t) && proxy_origin(t, port) == Some(sent))
        ||| exists|i: int| 0 <= i < allowed.len() && admits(#[trigger] allowed[i], sent)
    }
}

/// Whether any of the configured origins is the one the browser sent.
fn any_allows(allowed: &Vec<String>, sent: &str) -> (r: bool)
    ensures
        r == (exists|i: int|
            0 <= i < allowed@.len() && admits(#[trigger] texts(allowed@)[i], sent@)),
{
    let ghost all = texts(allowed@);
    let mut i: usize = 0;
    while i < allowed.len()
        invariant
            i <= allowed@.len(),
            all == texts(allowed@),
            forall|k: int| 0 <= k < i ==> !admits(#[trigger] all[k], sent@),
        decreases allowed@.len() - i,
    {
        assert(all[i as int] == allowed@[i as int]@);
        if origin_allows(allowed[i].as_str(), sent) {
            assert(admits(all[i as int], sent@));
            return true;
        }
        i = i + 1;
    }
    false
}

/// Whether a browser at an origin may talk to a server, of the parts the origin
/// and the server's own address have as URLs.
pub fn decide_origin(
    sent: &str,
    parts: &UrlParts,
    host: &str,
    port: u16,
    workspace: &Option<(String, String)>,
    proxy: Option<&str>,
    allowed: &Vec<String>,
) -> (r: bool)
    ensures
        r == ((parts.path@ == "/"@ || parts.path@ == Seq::<char>::empty()) && {
            ||| sent@ == own_origin(host@, port)
            ||| parts.scheme@ == "vscode-webview"@
            ||| (parts.scheme@ == "http"@ && (opt_text(parts.host) == Some("localhost"@)
                || opt_text(parts.host) == Some("127.0.0.1"@)))
            ||| (opt_pair(*workspace) matches Some(w) && sent@ == workspace_origin(port, w.0, w.1))
            ||| opt_str(proxy) == Some(sent@)
            ||| exists|i: int|
                0 <= i < allowed@.len() && admits(#[trigger] texts(allowed@)[i], sent@)
        }),
{
    if !same(parts.path.as_str(), "/") && !is_empty(parts.path.as_str()) {
        proof {
            assert(parts.path@ != Seq::<char>::empty());
        }
        return false;
    }
    proof {
        if parts.path@.len() == 0 {
            assert(parts.path@ =~= Seq::<char>::empty());
        }
    }
    let mut own: String = "http://".to_string();
    own.append(host);
    own.append(":");
    push_decimal(&mut own, port as u64);
    let scheme: &str = parts.scheme.as_str();
    if same(sent, own.as_str()) || same(scheme, "vscode-webview") {
        return true;
    }
    if let Some(h) = &parts.host {
        if same(scheme, "http") && (same(h.as_str(), "localhost") || same(h.as_str(), "127.0.0.1")) {
            return true;
        }
    }
    if let Some(w) = workspace {
        let mut name: String = "https://".to_string();
        push_decimal(&mut name, port as u64);
        name.append("-");
        name.append(w.0.as_str());
        name.append(".");
        name.append(w.1.as_str());
        if same(sent, name.as_str()) {
            return true;
        }
    }
    if let Some(p) = proxy {
        if same(p, sent) {
            return true;
        }
    }
    any_allows(allowed, sent)
}

/// Whether a browser at an origin may talk to a server at an address.
///
/// A website a person visits can try to reach a server on their own machine.
/// Browsers always say where such a request comes from, and this decides
/// whether that is a place that may ask.
pub fn is_valid_origin(
    sent: &str,
    static_file_addr: &str,
    expected_port: u16,
    workspace: &Option<(String, String)>,
    proxy: Option<&str>,
    allowed: &Vec<String>,
) -> (r: bool)
    requires
        is_origin(sent@) ==> address_host(static_file_addr@) is Some,
    ensures
        !is_origin(sent@) ==> !r,
        is_origin(sent@) ==> r == may_talk(
            sent@,
            address_host(static_file_addr@).unwrap(),
            expected_port,
            opt_pair(*workspace),
            opt_str(proxy),
            texts(allowed@),
        ),
{
    proof {
        reveal_strlit("{{port}}");
    }
    let parts: UrlParts = match read_url(sent) {
        None => {
            return false;
        },
        Some(parts) => parts,
    };
    if !same(parts.path.as_str(), "/") && !is_empty(parts.path.as_str()) {
        return false;
    }
    proof {
        if parts.path@.len() == 0 {
            assert(parts.path@ =~= Seq::<char>::empty());
        }
    }
    let mut address: String = "http://".to_string();
    address.append(static_file_addr);
    let host: String = match read_url(address.as_str()) {
        Some(u) => match u.host {
            Some(host) => host,
            None => {
                return false;
            },
        },
        None => {
            return false;
        },
    };
    let from_proxy: Option<String> = match proxy {
        None => None,
        Some(template) => {
            let number: String = decimal_of(expected_port as u64);
            let url: String = replaced(template, "{{port}}", number.as_str());
            match read_url(url.as_str()) {
                Some(u) => Some(u.origin),
                None => None,
            }
        },
    };
    let proxied: Option<&str> = match &from_proxy {
        Some(origin) => Some(origin.as_str()),
        None => None,
    };
    decide_origin(sent, &parts, host.as_str(), expected_port, workspace, proxied, allowed)
}

/// Whether a browser at an origin may talk to a server at an address, if the
/// address is one that names a host.
pub fn check_origin(
    sent: &str,
    static_file_addr: &str,
    expected_port: u16,
    workspace: &Option<(String, String)>,
    proxy: Option<&str>,
    allowed: &Vec<String>,
) -> (r: Option<bool>)
    ensures
        r is None <==> address_host(static_file_addr@) is None,
        r matches Some(ok) ==> ok == may_talk(
            sent@,
            address_host(static_file_addr@).unwrap(),
            expected_port,
            opt_pair(*workspace),
            opt_str(proxy),
            texts(allowed@),
        ),
{
    let mut address: String = "http://".to_string();
    address.append(static_file_addr);
    match read_url(address.as_str()) {
        Some(u) => if u.host.is_some() {
            Some(is_valid_origin(sent, static_file_addr, expected_port, workspace, proxy, allowed))
        } else {
            None
        },
        None => None,
    }
}

/// An origin that is named is one that may talk, whatever the server's address.
pub proof fn named_origin_may_talk(
    sent: Seq<char>,
    host: Seq<char>,
    port: u16,
    workspace: Option<(Seq<char>, Seq<char>)>,
    proxy: Option<Seq<char>>,
    allowed: Seq<Seq<char>>,
    i: int,
)
    requires
        is_origin(sent),
        0 <= i < allowed.len(),
        allowed[i] == sent,
    ensures
        may_talk(sent, host, port, workspace, proxy, allowed),
{
    assert(admits(allowed[i], sent));
}

/// Naming more origins shuts none out.
pub proof fn naming_more_shuts_none_out(
    sent: Seq<char>,
    host: Seq<char>,
    port: u16,
    workspace: Option<(Seq<char>, Seq<char>)>,
    proxy: Option<Seq<char>>,
    allowed: Seq<Seq<char>>,
    more: Seq<Seq<char>>,
)
    requires
        may_talk(sent, host, port, workspace, proxy, allowed),
    ensures
        may_talk(sent, host, port, workspace, proxy, allowed + more),
{
    if exists|i: int| 0 <= i < allowed.len() && admits(#[trigger] allowed[i], sent) {
        let i = choose|i: int| 0 <= i < allowed.len() && admits(#[trigger] allowed[i], sent);
        assert((allowed + more)[i] == allowed[i]);
    }
}

/// Whoever is at an origin that is not this server's, not on this machine, and not one that was
/// configured may not talk to the preview.
pub proof fn a_stranger_may_not_talk(
    sent: Seq<char>,
    host: Seq<char>,
    port: u16,
    scheme: Seq<char>,
    other: Option<Seq<char>>,
    path: Seq<char>,
    origin: Seq<char>,
)
    requires
        url_parts(sent) == Some((scheme, other, path, origin)),
        sent != "http://"@ + host + ":"@ + decimal(port as nat),
        scheme != "vscode-webview"@,
        scheme != "http"@ || (other != Some("localhost"@) && other != Some("127.0.0.1"@)),
    ensures
        !may_talk(sent, host, port, None, None, seq![]),
{
}

/// What is on this machine may talk to the preview, and so may an editor's own window; but no address
/// with a path after its origin may.
pub proof fn this_machine_may_talk(
    sent: Seq<char>,
    host: Seq<char>,
    port: u16,
    scheme: Seq<char>,
    other: Option<Seq<char>>,
    path: Seq<char>,
    origin: Seq<char>,
    workspace: Option<(Seq<char>, Seq<char>)>,
    proxy: Option<Seq<char>>,
    allowed: Seq<Seq<char>>,
)
    requires
        url_parts(sent) == Some((scheme, other, path, origin)),
    ensures
        (path == "/"@ || path.len() == 0) && (scheme == "vscode-webview"@ || (scheme == "http"@ && (other
            == Some("localhost"@) || other == Some("127.0.0.1"@)))) ==> may_talk(
            sent,
            host,
            port,
            workspace,
            proxy,
            allowed,
        ),
        path != "/"@ && path.len() > 0 ==> !may_talk(sent, host, port, workspace, proxy, allowed),
{
    if path.len() == 0 {
        assert(path =~= Seq::<char>::empty());
    }
}

/// A path under `/p/` is that path without it, and any other is left alone.
pub proof fn a_preview_path_is_bare(rest: Seq<char>, path: Seq<char>)
    requires
        path.len() < 3 || path[0] != '/' || path[1] != 'p' || path[2] != '/',
    ensures
        preview_path("/p"@ + seq!['/'] + rest) == seq!['/'] + rest,
        preview_path(path) == path,
{
    reveal_strlit("/p");
    reveal_strlit("/");
    let whole = "/p"@ + seq!['/'] + rest;
    assert(whole.subrange(0, 2) =~= "/p"@);
    let left = seq!['/'] + rest;
    assert(whole.skip(2) =~= left);
    assert(left.subrange(0, 1) =~= "/"@);
    if begins(path, "/p"@) {
        assert(path.subrange(0, 2)[0] == '/' && path.subrange(0, 2)[1] == 'p');
        let more = path.skip(2);
        if begins(more, "/"@) {
            assert(more.subrange(0, 1)[0] == '/');
            assert(path[2] == '/');
        }
    }
}

} // verus!

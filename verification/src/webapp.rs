//! The web app a served page presents itself as: its name, its icon, its
//! manifest, and the prefix its URLs live under.
//!
//! A page opened from a document server and a page opened from an editor's
//! previewer are both installed by a browser as apps, and both want a name in
//! the dock and an icon that says which of several they are.

pub mod icons;

use vstd::prelude::*;
use vstd::string::*;

use crate::num::{decimal, decimal_of};
use crate::text::{
    after_prefix, around_last, before_suffix, chars_of, contains, cut, empty, extend, find, find_at,
    find_from, lemma_find_from, lemma_find_from_skip, lemma_last_there, occurs,
    opt_text, rsplit_once, same, stands_at, string_of, strip_prefix, strip_suffix,
};
use crate::webapp::icons::IconRole;

verus! {

// ------------------------------------------------------------- its identity

/// What a server calls itself in the Dock: its role, and the two things an
/// operator can override, the colour and the name.
#[derive(Debug)]
pub struct WebAppIdentity {
    /// Which glyph the icon wears.
    pub role: IconRole,
    /// The tile colour, if one was chosen; otherwise derived from the port.
    pub color: Option<[u8; 3]>,
    /// What the server serves, as a person would name it.
    pub name: Option<String>,
}

/// What a server is called.
pub open spec fn subject_text(name: Option<Seq<char>>, port: u16) -> Seq<char> {
    match name {
        Some(name) => name,
        None => decimal(port as nat),
    }
}

/// The long name of a server.
pub open spec fn long_title(role: IconRole, name: Option<Seq<char>>, port: u16) -> Seq<char> {
    role.title_text() + ": "@ + subject_text(name, port)
}

/// The name a Dock app takes: what it serves first, because that is what
/// distinguishes one app from the next, and nothing after it for a plain server.
pub open spec fn dock_title(role: IconRole, name: Option<Seq<char>>, port: u16) -> Seq<char> {
    let subject = subject_text(name, port);
    match role {
        IconRole::Serve => subject,
        IconRole::Lsp => subject + " (LSP)"@,
        IconRole::Annotate => subject + " (Annotator)"@,
    }
}

impl WebAppIdentity {
    /// An identity for a role, with nothing overridden.
    pub fn new(role: IconRole) -> (r: Self)
        ensures
            r.role == role,
            r.color is None,
            r.name is None,
    {
        WebAppIdentity { role, color: None, name: None }
    }

    /// A copy of the name.
    fn name_copy(&self) -> (r: Option<String>)
        ensures
            opt_text(r) == opt_text(self.name),
    {
        match &self.name {
            Some(name) => Some(name.clone()),
            None => None,
        }
    }

    /// The identity of a page, which may be the annotating face of a server
    /// that is otherwise a plain one.
    pub fn with_role(&self, role: IconRole) -> (r: Self)
        ensures
            r.role == role,
            r.color == self.color,
            opt_text(r.name) == opt_text(self.name),
    {
        WebAppIdentity { role, color: self.color, name: self.name_copy() }
    }

    /// The identity of one document out of several: a directory's server is
    /// named after the directory, and each page in it after its own document.
    pub fn with_name(&self, name: String) -> (r: Self)
        ensures
            r.role == self.role,
            r.color == self.color,
            opt_text(r.name) == Some(name@),
    {
        WebAppIdentity { role: self.role, color: self.color, name: Some(name) }
    }

    /// What is being served, as a person would name it.
    fn subject(&self, port: u16) -> (r: String)
        ensures
            r@ == subject_text(opt_text(self.name), port),
    {
        match &self.name {
            Some(name) => name.clone(),
            None => decimal_of(port as u64),
        }
    }

    /// The long name, for the browser's tab and the manifest's `name`.
    pub fn title(&self, port: u16) -> (r: String)
        ensures
            r@ == long_title(self.role, opt_text(self.name), port),
    {
        let mut out: String = self.role.title().to_string();
        out.append(": ");
        out.append(self.subject(port).as_str());
        out
    }

    /// The name a Dock app takes, which is the manifest's `short_name`.
    pub fn short_title(&self, port: u16) -> (r: String)
        ensures
            r@ == dock_title(self.role, opt_text(self.name), port),
    {
        let mut out: String = self.subject(port);
        match self.role {
            IconRole::Serve => {},
            IconRole::Lsp => out.append(" (LSP)"),
            IconRole::Annotate => out.append(" (Annotator)"),
        }
        out
    }
}

// ------------------------------------------------------------ where it lives

/// Where each mode lives.
pub open spec fn prefix_text(role: IconRole) -> Seq<char> {
    match role {
        IconRole::Lsp => "/p/"@,
        IconRole::Serve => "/v/"@,
        IconRole::Annotate => "/a/"@,
    }
}

/// Where each mode lives, as the first segment of every URL it serves: `/p/`
/// for the editor's preview, `/v/` for a document served to be read, `/a/` for
/// one served to be annotated.
pub fn role_prefix(role: IconRole) -> (r: &'static str)
    ensures
        r@ == prefix_text(role),
{
    match role {
        IconRole::Lsp => "/p/",
        IconRole::Serve => "/v/",
        IconRole::Annotate => "/a/",
    }
}

/// What a path names under a mode: what follows its prefix, or nothing where
/// the path is the prefix without its last slash.
pub open spec fn under_role(path: Seq<char>, role: IconRole) -> Option<Seq<char>> {
    if path == prefix_text(role).take(2) {
        Some(seq![])
    } else {
        after_prefix(path, prefix_text(role))
    }
}

/// The mode a path asks for, and the document under it.
pub open spec fn path_role(path: Seq<char>) -> Option<(IconRole, Seq<char>)> {
    match under_role(path, IconRole::Lsp) {
        Some(rest) => Some((IconRole::Lsp, rest)),
        None => match under_role(path, IconRole::Serve) {
            Some(rest) => Some((IconRole::Serve, rest)),
            None => match under_role(path, IconRole::Annotate) {
                Some(rest) => Some((IconRole::Annotate, rest)),
                None => None,
            },
        },
    }
}

/// A mode and what a path names under it.
pub open spec fn role_view(r: Option<(IconRole, String)>) -> Option<(IconRole, Seq<char>)> {
    match r {
        Some(p) => Some((p.0, p.1@)),
        None => None,
    }
}

/// What a path names under a mode.
fn rest_under(path: &str, role: IconRole) -> (r: Option<String>)
    ensures
        opt_text(r) == under_role(path@, role),
{
    proof {
        reveal_strlit("/p");
        reveal_strlit("/p/");
        reveal_strlit("/v");
        reveal_strlit("/v/");
        reveal_strlit("/a");
        reveal_strlit("/a/");
        assert("/p"@ =~= "/p/"@.take(2));
        assert("/v"@ =~= "/v/"@.take(2));
        assert("/a"@ =~= "/a/"@.take(2));
    }
    let bare: &str = match role {
        IconRole::Lsp => "/p",
        IconRole::Serve => "/v",
        IconRole::Annotate => "/a",
    };
    if same(path, bare) {
        Some(empty())
    } else {
        strip_prefix(path, role_prefix(role))
    }
}

/// The mode a path asks for, and the document under it, if it names one at all.
/// `/a` and `/a/` both mean the annotator's own front page.
pub fn role_of_path(path: &str) -> (r: Option<(IconRole, String)>)
    ensures
        role_view(r) == path_role(path@),
{
    match rest_under(path, IconRole::Lsp) {
        Some(rest) => Some((IconRole::Lsp, rest)),
        None => match rest_under(path, IconRole::Serve) {
            Some(rest) => Some((IconRole::Serve, rest)),
            None => match rest_under(path, IconRole::Annotate) {
                Some(rest) => Some((IconRole::Annotate, rest)),
                None => None,
            },
        },
    }
}

/// Every path under a mode's prefix asks for that mode, and names what follows.
pub proof fn a_prefix_names_its_role(role: IconRole, rest: Seq<char>)
    ensures
        path_role(prefix_text(role) + rest) == Some((role, rest)),
{
    reveal_strlit("/p/");
    reveal_strlit("/v/");
    reveal_strlit("/a/");
    let path = prefix_text(role) + rest;
    assert(path.len() >= 3);
    assert(path.subrange(0, 3) =~= prefix_text(role));
    assert(path.skip(3) =~= rest);
    assert(path[1] == prefix_text(role)[1]);
    assert forall|other: IconRole| other != role implies under_role(path, other) is None by {
        assert(path.subrange(0, 3)[1] != prefix_text(other)[1]);
    }
}

// --------------------------------------------------------------- its furniture

/// A page without what stands between each `open` and the `close` after it,
/// and without those.
pub open spec fn without_spans(html: Seq<char>, open: Seq<char>, close: Seq<char>) -> Seq<char>
    decreases html.len(),
{
    match find(html, open) {
        None => html,
        Some(start) => match find_from(html, close, start) {
            None => html,
            Some(end) => if open.len() == 0 || close.len() == 0 {
                html
            } else {
                proof {
                    lemma_find_from(html, open, 0);
                    lemma_find_from(html, close, start);
                }
                without_spans(html.take(start) + html.skip(end + close.len()), open, close)
            },
        },
    }
}

/// Removes every `open..close` span from `html`.
pub fn strip_tags(html: &str, open: &str, close: &str) -> (r: String)
    requires
        0 < open@.len(),
        0 < close@.len(),
    ensures
        r@ == without_spans(html@, open@, close@),
{
    let o: Vec<char> = chars_of(open);
    let c: Vec<char> = chars_of(close);
    let mut out: Vec<char> = chars_of(html);
    loop
        invariant
            o@ == open@,
            c@ == close@,
            0 < open@.len(),
            0 < close@.len(),
            without_spans(html@, open@, close@) == without_spans(out@, open@, close@),
        decreases out@.len(),
    {
        let total: usize = out.len();
        let start: usize = match find_at(out.as_slice(), o.as_slice(), 0) {
            None => {
                return string_of(out.as_slice());
            },
            Some(start) => start,
        };
        let end: usize = match find_at(out.as_slice(), c.as_slice(), start) {
            None => {
                return string_of(out.as_slice());
            },
            Some(end) => end,
        };
        let (head, _) = cut(out.as_slice(), start, 0);
        let (_, tail) = cut(out.as_slice(), end, c.len());
        let mut next: Vec<char> = Vec::new();
        extend(&mut next, head);
        extend(&mut next, tail);
        assert(next@ =~= out@.take(start as int) + out@.skip(end + c@.len()));
        out = next;
    }
}

/// Whether a tag declares an icon.
pub open spec fn is_icon_link(tag: Seq<char>) -> bool {
    ||| occurs(tag, "rel=\"icon\""@)
    ||| occurs(tag, "rel=\"shortcut icon\""@)
    ||| occurs(tag, "rel=\"apple-touch-icon\""@)
}

/// A page without the links that declare icons.
pub open spec fn without_icons(html: Seq<char>) -> Seq<char>
    decreases html.len(),
{
    match find(html, "<link"@) {
        None => html,
        Some(at) => match find_from(html, seq!['>'], at) {
            None => html,
            Some(gt) => {
                proof {
                    reveal_strlit("<link");
                    lemma_find_from(html, "<link"@, 0);
                    lemma_find_from(html, seq!['>'], at);
                }
                let tag = html.subrange(at, gt + 1);
                html.take(at) + (if is_icon_link(tag) {
                    seq![]
                } else {
                    tag
                }) + without_icons(html.skip(gt + 1))
            },
        },
    }
}

/// Removes the `<link rel="icon">` and friends a page declares for itself.
pub fn strip_icon_links(html: &str) -> (r: String)
    ensures
        r@ == without_icons(html@),
{
    proof {
        reveal_strlit("<link");
    }
    let h: Vec<char> = chars_of(html);
    let link: Vec<char> = chars_of("<link");
    let gt: Vec<char> = vec!['>'];
    assert(gt@ =~= seq!['>']);
    let mut out: Vec<char> = Vec::new();
    let mut rest: &[char] = h.as_slice();
    assert(out@ + without_icons(rest@) =~= without_icons(html@));
    loop
        invariant
            link@ == "<link"@,
            link@.len() == 5,
            gt@ == seq!['>'],
            out@ + without_icons(rest@) == without_icons(html@),
        decreases rest@.len(),
    {
        let ghost before = out@;
        let ghost whole = rest@;
        let total: usize = rest.len();
        let found: Option<usize> = find_at(rest, link.as_slice(), 0);
        let end: Option<usize> = match found {
            Some(at) => find_at(rest, gt.as_slice(), at),
            None => None,
        };
        match (found, end) {
            (Some(at), Some(end)) => {
                let (head, _) = cut(rest, at, 0);
                let tag: &[char] = vstd::slice::slice_subrange(rest, at, end + 1);
                let text: String = string_of(tag);
                let icon: bool = contains(text.as_str(), "rel=\"icon\"") || contains(
                    text.as_str(),
                    "rel=\"shortcut icon\"",
                ) || contains(text.as_str(), "rel=\"apple-touch-icon\"");
                extend(&mut out, head);
                if !icon {
                    extend(&mut out, tag);
                }
                let (_, after) = cut(rest, end, 1);
                rest = after;
                assert(out@ + without_icons(rest@) =~= before + without_icons(whole));
            },
            _ => {
                extend(&mut out, rest);
                return string_of(out.as_slice());
            },
        }
    }
}

/// What a page's head is given: its title, its manifest and its icon.
pub open spec fn head_text(title: Seq<char>, manifest: Seq<char>, icon: Seq<char>) -> Seq<char> {
    "<title>"@ + title + "</title><link rel=\"manifest\" href=\""@ + manifest
        + "\"><link rel=\"apple-touch-icon\" href=\""@ + icon
        + "\"><link rel=\"icon\" type=\"image/png\" href=\""@ + icon + "\">"@
}

/// The path of a role's icon.
pub open spec fn icon_path(role: IconRole) -> Seq<char> {
    "/icon/"@ + role.icon_text() + "-192.png"@
}

/// A page with a head of its own: the title and icons it came with are gone,
/// and the new ones stand at the end of its head, or before it all where it has
/// none. A browser takes the last icon it is offered.
pub open spec fn with_head(html: Seq<char>, head: Seq<char>) -> Seq<char> {
    let bare = without_icons(without_spans(html, "<title>"@, "</title>"@));
    match find(bare, "</head>"@) {
        Some(at) => bare.take(at) + head + bare.skip(at),
        None => head + bare,
    }
}

/// A page with the head of a role.
fn put_head(html: &str, identity: &WebAppIdentity, port: u16, manifest: &str) -> (r: String)
    ensures
        r@ == with_head(
            html@,
            head_text(
                long_title(identity.role, opt_text(identity.name), port),
                manifest@,
                icon_path(identity.role),
            ),
        ),
{
    proof {
        reveal_strlit("<title>");
        reveal_strlit("</title>");
        reveal_strlit("</head>");
    }
    let mut icon: String = "/icon/".to_string();
    icon.append(identity.role.icon_name());
    icon.append("-192.png");
    let mut head: String = "<title>".to_string();
    head.append(identity.title(port).as_str());
    head.append("</title><link rel=\"manifest\" href=\"");
    head.append(manifest);
    head.append("\"><link rel=\"apple-touch-icon\" href=\"");
    head.append(icon.as_str());
    head.append("\"><link rel=\"icon\" type=\"image/png\" href=\"");
    head.append(icon.as_str());
    head.append("\">");
    let untitled: String = strip_tags(html, "<title>", "</title>");
    let bare: String = strip_icon_links(untitled.as_str());
    let b: Vec<char> = chars_of(bare.as_str());
    let close: Vec<char> = chars_of("</head>");
    match find_at(b.as_slice(), close.as_slice(), 0) {
        Some(at) => {
            let (before, after) = cut(b.as_slice(), at, 0);
            let mut out: String = string_of(before);
            out.append(head.as_str());
            out.append(string_of(after).as_str());
            out
        },
        None => {
            head.append(bare.as_str());
            head
        },
    }
}

/// The manifest of a mode's page.
pub open spec fn role_manifest(role: IconRole) -> Seq<char> {
    prefix_text(role) + "manifest.webmanifest"@
}

/// A page as a mode presents it: each mode is a page of its own, with its own
/// name, icon and manifest, so that several can live in the Dock side by side.
pub fn mode_head(html: &str, identity: &WebAppIdentity, port: u16) -> (r: String)
    ensures
        r@ == with_head(
            html@,
            head_text(
                long_title(identity.role, opt_text(identity.name), port),
                role_manifest(identity.role),
                icon_path(identity.role),
            ),
        ),
{
    let mut manifest: String = role_prefix(identity.role).to_string();
    manifest.append("manifest.webmanifest");
    put_head(html, identity, port, manifest.as_str())
}

/// The manifest of a page an editor's preview shows.
pub open spec fn preview_manifest(role: IconRole) -> Seq<char> {
    if role == IconRole::Annotate {
        "/annotate/manifest.webmanifest"@
    } else {
        "/manifest.webmanifest"@
    }
}

/// A page as an editor's preview presents it, where the annotator's scope is
/// the narrower `/annotate`.
pub fn preview_mode_head(html: &str, identity: &WebAppIdentity, port: u16) -> (r: String)
    ensures
        r@ == with_head(
            html@,
            head_text(
                long_title(identity.role, opt_text(identity.name), port),
                preview_manifest(identity.role),
                icon_path(identity.role),
            ),
        ),
{
    let manifest: &str = match identity.role {
        IconRole::Annotate => "/annotate/manifest.webmanifest",
        _ => "/manifest.webmanifest",
    };
    put_head(html, identity, port, manifest)
}

// ------------------------------------------------------------------- its icon

/// Which icon a path names: the role whose glyph it wears, and its side.
pub open spec fn named_icon(path: Seq<char>, role: IconRole) -> Option<(IconRole, int)> {
    if path == "/favicon.ico"@ || path == "/favicon.png"@ {
        Some((role, 192))
    } else {
        match after_prefix(path, "/icon/"@) {
            None => None,
            Some(file) => match before_suffix(file, ".png"@) {
                None => None,
                Some(name) => match around_last(name, '-') {
                    None => None,
                    Some(parts) => match (icon_role(parts.0), icon_side(parts.1)) {
                        (Some(role), Some(side)) => Some((role, side)),
                        _ => None,
                    },
                },
            },
        }
    }
}

/// The role an icon's path names.
pub open spec fn icon_role(name: Seq<char>) -> Option<IconRole> {
    if name == "lsp"@ {
        Some(IconRole::Lsp)
    } else if name == "serve"@ {
        Some(IconRole::Serve)
    } else if name == "anno"@ {
        Some(IconRole::Annotate)
    } else {
        None
    }
}

/// The side an icon's path names.
pub open spec fn icon_side(name: Seq<char>) -> Option<int> {
    if name == "192"@ {
        Some(192)
    } else if name == "512"@ {
        Some(512)
    } else {
        None
    }
}

/// Which icon a path names, if it names one of ours.
///
/// Icons are drawn rather than stored: the glyph comes from the role in the
/// path and the colour from the port a server is bound to. Browsers ask for
/// `/favicon.ico` whatever the page says, and get the server's own.
pub fn icon_asset(path: &str, identity: &WebAppIdentity) -> (r: Option<(IconRole, usize)>)
    ensures
        match r {
            Some(icon) => named_icon(path@, identity.role) == Some((icon.0, icon.1 as int)),
            None => named_icon(path@, identity.role) is None,
        },
{
    if same(path, "/favicon.ico") || same(path, "/favicon.png") {
        return Some((identity.role, 192));
    }
    let file: String = match strip_prefix(path, "/icon/") {
        Some(file) => file,
        None => {
            return None;
        },
    };
    let name: String = match strip_suffix(file.as_str(), ".png") {
        Some(name) => name,
        None => {
            return None;
        },
    };
    let parts: (String, String) = match rsplit_once(name.as_str(), '-') {
        Some(parts) => parts,
        None => {
            return None;
        },
    };
    let which: &str = parts.0.as_str();
    let role: IconRole = if same(which, "lsp") {
        IconRole::Lsp
    } else if same(which, "serve") {
        IconRole::Serve
    } else if same(which, "anno") {
        IconRole::Annotate
    } else {
        return None;
    };
    if same(parts.1.as_str(), "192") {
        Some((role, 192))
    } else if same(parts.1.as_str(), "512") {
        Some((role, 512))
    } else {
        None
    }
}

// --------------------------------------------------------------- its manifest

/// The manifest of a web app.
pub open spec fn manifest_text(
    name: Seq<char>,
    short: Seq<char>,
    start: Seq<char>,
    background: Seq<char>,
    icon: Seq<char>,
) -> Seq<char> {
    "{\n  \"name\": \""@ + name + "\",\n  \"short_name\": \""@ + short
        + "\",\n  \"start_url\": \""@ + start + "\",\n  \"scope\": \""@ + start
        + "\",\n  \"display\": \"standalone\",\n  \"background_color\": \""@ + background
        + "\",\n  \"icons\": [\n    { \"src\": \"/icon/"@ + icon
        + "-192.png\", \"sizes\": \"192x192\", \"type\": \"image/png\", \"purpose\": \"any maskable\" },\n    { \"src\": \"/icon/"@
        + icon
        + "-512.png\", \"sizes\": \"512x512\", \"type\": \"image/png\", \"purpose\": \"any maskable\" }\n  ]\n}\n"@
}

/// The manifest of a web app.
fn write_manifest(name: &str, short: &str, start: &str, background: &str, icon: &str) -> (r: String)
    ensures
        r@ == manifest_text(name@, short@, start@, background@, icon@),
{
    let mut out: String = "{\n  \"name\": \"".to_string();
    out.append(name);
    out.append("\",\n  \"short_name\": \"");
    out.append(short);
    out.append("\",\n  \"start_url\": \"");
    out.append(start);
    out.append("\",\n  \"scope\": \"");
    out.append(start);
    out.append("\",\n  \"display\": \"standalone\",\n  \"background_color\": \"");
    out.append(background);
    out.append("\",\n  \"icons\": [\n    { \"src\": \"/icon/");
    out.append(icon);
    out.append("-192.png\", \"sizes\": \"192x192\", \"type\": \"image/png\", \"purpose\": \"any maskable\" },\n    { \"src\": \"/icon/");
    out.append(icon);
    out.append("-512.png\", \"sizes\": \"512x512\", \"type\": \"image/png\", \"purpose\": \"any maskable\" }\n  ]\n}\n");
    out
}

/// The role whose manifest a path names: one per mode, at the mode's own
/// prefix, and the bare one for whatever the server is.
pub open spec fn manifest_role(path: Seq<char>, own: IconRole) -> Option<IconRole> {
    match path_role(path) {
        Some(found) => if found.1 == "manifest.webmanifest"@ {
            Some(found.0)
        } else {
            None
        },
        None => if path == "/manifest.webmanifest"@ {
            Some(own)
        } else {
            None
        },
    }
}

/// The manifest a path names, for a server with some background colour. The
/// scope of an installed app is its mode's prefix, so every document under it
/// belongs to that app.
pub open spec fn manifest_at(
    path: Seq<char>,
    role: IconRole,
    name: Option<Seq<char>>,
    port: u16,
    background: Seq<char>,
) -> Option<Seq<char>> {
    match manifest_role(path, role) {
        None => None,
        Some(role) => Some(
            manifest_text(
                long_title(role, name, port),
                dock_title(role, name, port),
                prefix_text(role),
                background,
                role.icon_text(),
            ),
        ),
    }
}

/// The web app manifest for a mode's path, if it names one.
pub fn web_manifest(path: &str, port: u16, identity: &WebAppIdentity, background: &str) -> (r: Option<
    String,
>)
    ensures
        opt_text(r) == manifest_at(
            path@,
            identity.role,
            opt_text(identity.name),
            port,
            background@,
        ),
{
    let role: IconRole = match role_of_path(path) {
        Some((role, rest)) => if same(rest.as_str(), "manifest.webmanifest") {
            role
        } else {
            return None;
        },
        None => if same(path, "/manifest.webmanifest") {
            identity.role
        } else {
            return None;
        },
    };
    let own: WebAppIdentity = identity.with_role(role);
    Some(
        write_manifest(
            own.title(port).as_str(),
            own.short_title(port).as_str(),
            role_prefix(role),
            background,
            role.icon_name(),
        ),
    )
}

/// The manifest a path names on an editor's preview: one for the page, and one
/// for annotating.
pub open spec fn preview_manifest_at(
    path: Seq<char>,
    role: IconRole,
    name: Option<Seq<char>>,
    port: u16,
    background: Seq<char>,
) -> Option<Seq<char>> {
    if path == "/manifest.webmanifest"@ {
        Some(
            manifest_text(
                long_title(role, name, port),
                dock_title(role, name, port),
                "/"@,
                background,
                role.icon_text(),
            ),
        )
    } else if path == "/annotate/manifest.webmanifest"@ {
        Some(
            manifest_text(
                long_title(IconRole::Annotate, name, port),
                dock_title(IconRole::Annotate, name, port),
                "/annotate"@,
                background,
                IconRole::Annotate.icon_text(),
            ),
        )
    } else {
        None
    }
}

/// The web app manifest for a path on an editor's preview, if it names one.
pub fn preview_web_manifest(
    path: &str,
    port: u16,
    identity: &WebAppIdentity,
    background: &str,
) -> (r: Option<String>)
    ensures
        opt_text(r) == preview_manifest_at(
            path@,
            identity.role,
            opt_text(identity.name),
            port,
            background@,
        ),
{
    let found: Option<(IconRole, &str)> = if same(path, "/manifest.webmanifest") {
        Some((identity.role, "/"))
    } else if same(path, "/annotate/manifest.webmanifest") {
        Some((IconRole::Annotate, "/annotate"))
    } else {
        None
    };
    match found {
        None => None,
        Some((role, start)) => {
            let own: WebAppIdentity = identity.with_role(role);
            Some(
                write_manifest(
                    own.title(port).as_str(),
                    own.short_title(port).as_str(),
                    start,
                    background,
                    role.icon_name(),
                ),
            )
        },
    }
}

// ------------------------------------------------------------- what is left of a page

/// Once what stands between two marks is taken out of a page nothing stands between them any more,
/// and a page without the first mark stays as it is.
pub proof fn no_span_is_left(html: Seq<char>, open: Seq<char>, close: Seq<char>)
    requires
        open.len() > 0,
        close.len() > 0,
    ensures
        ({
            let bare = without_spans(html, open, close);
            forall|at: int, end: int|
                at <= end && #[trigger] stands_at(bare, open, at) ==> !#[trigger] stands_at(
                    bare,
                    close,
                    end,
                )
        }),
        !occurs(html, open) ==> without_spans(html, open, close) == html,
    decreases html.len(),
{
    lemma_find_from(html, open, 0);
    let bare = without_spans(html, open, close);
    match find(html, open) {
        None => {
            assert(bare == html);
        },
        Some(start) => {
            lemma_find_from(html, close, start);
            match find_from(html, close, start) {
                None => {
                    assert(bare == html);
                    assert forall|at: int, end: int|
                        at <= end && #[trigger] stands_at(bare, open, at) implies !#[trigger] stands_at(
                        bare,
                        close,
                        end,
                    ) by {
                        if at < start {
                            assert(!stands_at(html, open, at));
                        }
                    }
                },
                Some(end) => {
                    let cut = html.take(start) + html.skip(end + close.len());
                    no_span_is_left(cut, open, close);
                    assert(bare == without_spans(cut, open, close));
                },
            }
        },
    }
}

/// A link to an icon is taken out of a page, and any other link stays.
pub proof fn icon_links_are_taken_out(before: Seq<char>, attrs: Seq<char>, after: Seq<char>)
    requires
        !before.contains('<'),
        !attrs.contains('>'),
    ensures
        ({
            let tag = "<link"@ + attrs + seq!['>'];
            &&& is_icon_link(tag) ==> without_icons(before + tag + after) == before + without_icons(after)
            &&& !is_icon_link(tag) ==> without_icons(before + tag + after) == before + tag
                + without_icons(after)
        }),
{
    reveal_strlit("<link");
    let opening = "<link"@;
    let tag = opening + attrs + seq!['>'];
    let html = before + tag + after;
    let n = before.len() as int;
    assert forall|i: int| 0 <= i < n implies !stands_at(html, opening, i) by {
        if stands_at(html, opening, i) {
            assert(html.subrange(i, i + 5)[0] == '<');
            assert(before[i] == '<');
        }
    }
    lemma_find_from_skip(html, opening, 0, n);
    assert(html.subrange(n, n + 5) =~= opening);
    assert(stands_at(html, opening, n));
    let gt = n + tag.len() - 1;
    assert forall|i: int| n <= i < gt implies !stands_at(html, seq!['>'], i) by {
        if stands_at(html, seq!['>'], i) {
            assert(html.subrange(i, i + 1)[0] == '>');
            if i < n + 5 {
                assert(html[i] == opening[i - n]);
            } else {
                assert(attrs[i - n - 5] == '>');
            }
        }
    }
    lemma_find_from_skip(html, seq!['>'], n, gt);
    assert(html.subrange(gt, gt + 1) =~= seq!['>']);
    assert(stands_at(html, seq!['>'], gt));
    assert(html.subrange(n, gt + 1) =~= tag);
    assert(html.take(n) =~= before);
    assert(html.skip(gt + 1) =~= after);
    assert(before + Seq::<char>::empty() =~= before);
}

/// What a page is given for its head is put at the end of the head, and all else stays.
pub proof fn a_head_is_put_in(before: Seq<char>, after: Seq<char>, head: Seq<char>)
    requires
        !before.contains('<'),
        !after.contains('<'),
    ensures
        with_head(before + "</head>"@ + after, head) == before + head + "</head>"@ + after,
        with_head(before, head) == head + before,
{
    reveal_strlit("</head>");
    reveal_strlit("<title>");
    reveal_strlit("<link");
    let closing = "</head>"@;
    let html = before + closing + after;
    let n = before.len() as int;
    assert forall|i: int| 0 <= i < html.len() && i != n implies html[i] != '<' by {
        if i < n {
            assert(before.contains(before[i]));
        } else if i < n + 7 {
            assert(html[i] == closing[i - n]);
        } else {
            assert(after.contains(after[i - n - 7]));
            assert(html[i] == after[i - n - 7]);
        }
    }
    assert(html[n] == '<' && html[n + 1] == '/');
    lemma_only_there(html, n, "<title>"@);
    lemma_only_there(html, n, "<link"@);
    lemma_find_from_skip(html, closing, 0, n);
    assert(html.subrange(n, n + 7) =~= closing);
    assert(stands_at(html, closing, n));
    assert(html.take(n) =~= before);
    assert(html.skip(n) =~= closing + after);
    assert(before + head + (closing + after) =~= before + head + closing + after);
    assert forall|i: int| 0 <= i < before.len() implies before[i] != '<' by {
        assert(before.contains(before[i]));
    }
    lemma_only_there(before, -1, "<title>"@);
    lemma_only_there(before, -1, "<link"@);
    lemma_only_there(before, -1, closing);
}

/// A mark that begins with a bracket does not stand where no bracket is, nor before a slash.
proof fn lemma_only_there(html: Seq<char>, n: int, mark: Seq<char>)
    requires
        mark.len() > 1,
        mark[0] == '<',
        forall|i: int| 0 <= i < html.len() && i != n ==> html[i] != '<',
        0 <= n ==> n + 1 < html.len() && html[n + 1] == '/' && mark[1] != '/',
    ensures
        find(html, mark) is None,
{
    lemma_find_from(html, mark, 0);
    if let Some(at) = find(html, mark) {
        assert(html.subrange(at, at + mark.len())[0] == '<');
        assert(html.subrange(at, at + mark.len())[1] == mark[1]);
    }
}

/// An icon is had at the address that a page gives for it.
pub proof fn an_icon_is_at_its_address(role: IconRole, own: IconRole)
    ensures
        named_icon(icon_path(role), own) == Some((role, 192int)),
{
    reveal_strlit("/icon/");
    reveal_strlit("-192.png");
    reveal_strlit(".png");
    reveal_strlit("192");
    reveal_strlit("lsp");
    reveal_strlit("serve");
    reveal_strlit("anno");
    reveal_strlit("/favicon.ico");
    reveal_strlit("/favicon.png");
    let icon = role.icon_text();
    let path = icon_path(role);
    assert(path[1] == 'i' && "/favicon.ico"@[1] == 'f' && "/favicon.png"@[1] == 'f');
    assert(path.subrange(0, 6) =~= "/icon/"@);
    let file = path.skip(6);
    assert(file =~= icon + "-192.png"@);
    let n = icon.len() as int;
    assert(file.subrange(file.len() - 4, file.len() as int) =~= ".png"@);
    let name = file.take(file.len() - 4);
    assert(name =~= icon + seq!['-'] + "192"@);
    assert(name.subrange(n, n + 1) =~= seq!['-']);
    assert(stands_at(name, seq!['-'], n));
    assert forall|i: int| n < i implies !stands_at(name, seq!['-'], i) by {
        if stands_at(name, seq!['-'], i) {
            assert(name.subrange(i, i + 1)[0] == '-');
            assert("192"@[i - n - 1] == '-');
        }
    }
    lemma_last_there(name, seq!['-'], n);
    assert(name.take(n) =~= icon);
    assert(name.skip(n + 1) =~= "192"@);
    assert("lsp"@.len() == 3 && "serve"@.len() == 5 && "anno"@.len() == 4);
}

} // verus!

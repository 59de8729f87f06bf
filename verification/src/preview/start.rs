//! Starting a preview: what it is told, where it answers, and the page it
//! answers with.

use vstd::prelude::*;
use vstd::string::*;
use vstd::utf8::*;

use crate::mcp::hub::HUB_PORT;
use crate::num::{decimal, decimal_of, fnv, fnv_more, FNV_OFFSET};
use crate::paths::{file_name, path_name};
use crate::preview::open::{
    browser_named, cdp_named, parse_cdp_port, Browser, BrowserV, OpenOptions,
};
use crate::text::{
    after_prefix, before_suffix, begins, chars_of, contains, cut, ends, find, find_at, is_empty,
    lemma_find_from, occurs, opt_str, opt_text, replace, replaced, same, starts_with, string_of,
    strip_prefix, strip_suffix, texts,
};
use crate::webapp::icons::IconRole;
use crate::webapp::WebAppIdentity;

verus! {

// --------------------------------------------------------------- what it is told

/// The kind of a preview.
#[derive(Debug, Clone, Copy, PartialEq, Eq, Structural)]
pub enum PreviewKind {
    /// Previews a specific file.
    Regular,
    /// Walks through the project and previews the main file related to the
    /// file in focus.
    Browsing,
    /// Runs a browsing preview in the background.
    Background,
}

/// What a document is compiled to.
#[derive(Debug, Clone, Copy, PartialEq, Eq, Structural)]
pub enum ExportTarget {
    /// Pages.
    Paged,
    /// A web page.
    Html,
}

/// When something is done.
#[derive(Debug, Clone, Copy, PartialEq, Eq, Structural)]
pub enum TaskWhen {
    /// Never.
    Never,
    /// Whenever something is typed.
    OnType,
    /// Whenever a file is saved.
    OnSave,
    /// Whenever a file is saved whose document has a title.
    OnDocumentHasTitle,
}

/// When a preview is refreshed.
#[derive(Debug, Clone, Copy, PartialEq, Eq, Structural)]
pub enum RefreshStyle {
    /// On save.
    OnSave,
    /// On type.
    OnType,
}

/// When a preview is refreshed.
pub open spec fn refreshed_when(style: RefreshStyle) -> TaskWhen {
    match style {
        RefreshStyle::OnSave => TaskWhen::OnSave,
        RefreshStyle::OnType => TaskWhen::OnType,
    }
}

impl RefreshStyle {
    /// When that is.
    pub fn when(self) -> (r: TaskWhen)
        ensures
            r == refreshed_when(self),
    {
        match self {
            RefreshStyle::OnSave => TaskWhen::OnSave,
            RefreshStyle::OnType => TaskWhen::OnType,
        }
    }
}

/// How previews are set up.
#[derive(Debug)]
pub struct PreviewConfig {
    /// What the document is compiled to.
    pub format: ExportTarget,
    /// Whether only the visible part of the document is rendered.
    pub enable_partial_rendering: bool,
    /// When the preview is refreshed.
    pub refresh_style: TaskWhen,
    /// How colours are inverted.
    pub invert_colors: String,
}

/// How previews are set up.
pub struct ConfigV {
    pub format: ExportTarget,
    pub enable_partial_rendering: bool,
    pub refresh_style: TaskWhen,
    pub invert_colors: Seq<char>,
}

impl View for PreviewConfig {
    type V = ConfigV;

    open spec fn view(&self) -> ConfigV {
        ConfigV {
            format: self.format,
            enable_partial_rendering: self.enable_partial_rendering,
            refresh_style: self.refresh_style,
            invert_colors: self.invert_colors@,
        }
    }
}

/// What a preview is told.
#[derive(Debug)]
pub struct PreviewArgs {
    /// What the document is compiled to.
    pub format: ExportTarget,
    /// Preview the document as HTML rather than as pages.
    pub html: bool,
    /// The title of the page.
    pub page_title: Option<String>,
    /// Only render the visible part of the document.
    pub enable_partial_rendering: Option<bool>,
    /// How colours are inverted.
    pub invert_colors: Option<String>,
    /// When the preview is refreshed.
    pub refresh_style: Option<RefreshStyle>,
}

impl PreviewArgs {
    /// What the document is compiled to.
    pub open spec fn target(&self) -> ExportTarget {
        if self.html {
            ExportTarget::Html
        } else {
            self.format
        }
    }

    /// What the document is compiled to, with the shorthand for HTML folded in.
    pub fn export_target(&self) -> (r: ExportTarget)
        ensures
            r == self.target(),
    {
        if self.html {
            ExportTarget::Html
        } else {
            self.format
        }
    }

    /// How a preview is set up: as it is told, and as previews are where it is
    /// told nothing.
    pub fn config(&self, config: &PreviewConfig) -> (r: PreviewConfig)
        ensures
            r@ == (ConfigV {
                format: self.target(),
                enable_partial_rendering: match self.enable_partial_rendering {
                    Some(b) => b,
                    None => config.enable_partial_rendering,
                },
                refresh_style: match self.refresh_style {
                    Some(style) => refreshed_when(style),
                    None => config.refresh_style,
                },
                invert_colors: match self.invert_colors {
                    Some(s) => s@,
                    None => config.invert_colors@,
                },
            }),
    {
        PreviewConfig {
            format: self.export_target(),
            enable_partial_rendering: match self.enable_partial_rendering {
                Some(b) => b,
                None => config.enable_partial_rendering,
            },
            refresh_style: match self.refresh_style {
                Some(style) => style.when(),
                None => config.refresh_style,
            },
            invert_colors: match &self.invert_colors {
                Some(s) => s.clone(),
                None => config.invert_colors.clone(),
            },
        }
    }
}

/// The title of a preview's page: as it is given, or as the file is called.
pub open spec fn page_title_v(given: Option<Seq<char>>, input: Option<Seq<char>>) -> Seq<char> {
    match given {
        Some(title) => title,
        None => match input {
            Some(path) => match path_name(path) {
                Some(name) => name,
                None => "Typst Preview"@,
            },
            None => "Typst Preview"@,
        },
    }
}

/// The title of a preview's page.
pub fn resolve_page_title(page_title: Option<&str>, input: Option<&str>) -> (r: String)
    ensures
        r@ == page_title_v(opt_str(page_title), opt_str(input)),
{
    match page_title {
        Some(title) => title.to_string(),
        None => match input {
            Some(path) => match file_name(path) {
                Some(name) => name,
                None => "Typst Preview".to_string(),
            },
            None => "Typst Preview".to_string(),
        },
    }
}

/// Whether a preview is opened in the browser: not where it is told not to, and
/// otherwise where it is told to or does so by itself.
pub fn open_in_browser(no_open: bool, open: bool, default: bool) -> (r: bool)
    ensures
        r == (!no_open && (open || default)),
{
    !no_open && (open || default)
}

/// Whether the overlay is there at all: for errors, for the cursor, or for
/// colours that are inverted where that makes sense.
pub fn overlay_enabled(error_overlay: bool, cursor_indicator: bool, invert_colors: &str) -> (r: bool)
    ensures
        r == (error_overlay || cursor_indicator || occurs(invert_colors@, "smart"@)),
{
    error_overlay || cursor_indicator || contains(invert_colors, "smart")
}

// ------------------------------------------------------------- where it answers

/// The first of the ports that previews derive.
pub const FIRST_PORT: u16 = 23700;

/// How many ports previews derive from.
pub const PORTS: u64 = 300;

/// The port of a project, from its path.
pub open spec fn project_port(root: Seq<char>) -> int {
    FIRST_PORT + (fnv(encode_utf8(root)) as int) % (PORTS as int)
}

/// The port of a project, so that each maps to the same one across restarts.
/// `root` is its path in its one spelling.
pub fn derive_preview_port(root: &str) -> (r: u16)
    ensures
        r == project_port(root@),
{
    let hash: u64 = fnv_more(FNV_OFFSET, root.as_bytes());
    let off: u64 = hash % PORTS;
    FIRST_PORT + (off as u16)
}

/// A project's port is one of those that are set aside, below the address agents
/// are told about.
pub proof fn a_derived_port_is_set_aside(root: Seq<char>)
    ensures
        23700 <= project_port(root) < 24000,
        project_port(root) < HUB_PORT,
{
}

/// What a background preview is told where nothing is said.
pub open spec fn default_background() -> Seq<Seq<char>> {
    seq!["--data-plane-host=127.0.0.1:23635"@, "--invert-colors=auto"@]
}

/// What a background preview is told where nothing is said.
pub fn default_background_args() -> (r: Vec<String>)
    ensures
        texts(r@) == default_background(),
{
    let mut out: Vec<String> = Vec::new();
    out.push("--data-plane-host=127.0.0.1:23635".to_string());
    out.push("--invert-colors=auto".to_string());
    assert(texts(out@) =~= default_background());
    out
}

/// The host of an argument that asks for a port of the project's own.
pub open spec fn auto_host_v(arg: Seq<char>) -> Option<Seq<char>> {
    match after_prefix(arg, "--data-plane-host="@) {
        Some(host) => before_suffix(host, ":auto"@),
        None => None,
    }
}

/// The host of an argument that asks for a port of the project's own.
pub fn auto_host(arg: &str) -> (r: Option<String>)
    ensures
        opt_text(r) == auto_host_v(arg@),
{
    match strip_prefix(arg, "--data-plane-host=") {
        Some(host) => strip_suffix(host.as_str(), ":auto"),
        None => None,
    }
}

/// An argument with the port it asked for.
pub open spec fn ported(arg: Seq<char>, port: u16) -> Seq<char> {
    match auto_host_v(arg) {
        Some(host) => "--data-plane-host="@ + host + ":"@ + decimal(port as nat),
        None => arg,
    }
}

/// Whether something names what is served.
pub open spec fn names_root(args: Seq<Seq<char>>) -> bool {
    exists|i: int| 0 <= i < args.len() && begins(#[trigger] args[i], "--root-name"@)
}

/// What a background preview is told: each argument that asked for a port with
/// the one it gets, and what the project is called, where nothing says it.
pub open spec fn background_v(args: Seq<Seq<char>>, ports: Seq<u16>, name: Option<Seq<char>>) -> Seq<
    Seq<char>,
> {
    let filled = Seq::new(args.len(), |i: int| ported(args[i], ports[i]));
    match name {
        Some(name) if !names_root(filled) => filled.push("--root-name="@ + name),
        _ => filled,
    }
}

/// What a background preview is told. `ports` holds the port each argument gets
/// that asks for one, which is the project's own where that is free and any
/// where it is not; `name` is what the project's directory is called: the
/// preview follows whatever file has focus, so it is named after the project.
pub fn background_args(args: Vec<String>, ports: &Vec<u16>, name: Option<&str>) -> (r: Vec<String>)
    requires
        ports@.len() == args@.len(),
    ensures
        texts(r@) == background_v(texts(args@), ports@, opt_str(name)),
{
    let ghost given = texts(args@);
    let ghost filled = Seq::new(given.len(), |i: int| ported(given[i], ports@[i]));
    let mut out: Vec<String> = Vec::new();
    let mut named: bool = false;
    let mut i: usize = 0;
    while i < args.len()
        invariant
            i <= args@.len(),
            ports@.len() == args@.len(),
            given == texts(args@),
            filled == Seq::new(given.len(), |i: int| ported(given[i], ports@[i])),
            texts(out@) == filled.take(i as int),
            named == names_root(filled.take(i as int)),
        decreases args@.len() - i,
    {
        let arg: String = match auto_host(args[i].as_str()) {
            Some(host) => {
                let mut s: String = "--data-plane-host=".to_string();
                s.append(host.as_str());
                s.append(":");
                s.append(decimal_of(ports[i] as u64).as_str());
                s
            },
            None => args[i].clone(),
        };
        let ghost before = filled.take(i as int);
        let ghost after = filled.take(i + 1);
        assert(arg@ == filled[i as int]);
        let here: bool = starts_with(arg.as_str(), "--root-name");
        proof {
            assert(after =~= before.push(arg@));
            if here {
                assert(begins(after[i as int], "--root-name"@));
            }
            if names_root(before) {
                let k = choose|k: int|
                    0 <= k < before.len() && begins(#[trigger] before[k], "--root-name"@);
                assert(begins(after[k], "--root-name"@));
            }
            if names_root(after) && !here {
                let k = choose|k: int|
                    0 <= k < after.len() && begins(#[trigger] after[k], "--root-name"@);
                assert(before[k] == after[k]);
            }
        }
        named = named || here;
        out.push(arg);
        assert(texts(out@) =~= after);
        i = i + 1;
    }
    assert(filled.take(i as int) =~= filled);
    if let Some(name) = name {
        if !named {
            let mut s: String = "--root-name=".to_string();
            s.append(name);
            let ghost v = s@;
            out.push(s);
            assert(texts(out@) =~= filled.push(v));
        }
    }
    out
}

/// A background preview that knows what the project is called says so.
pub proof fn a_background_preview_is_named(args: Seq<Seq<char>>, ports: Seq<u16>, name: Seq<char>)
    ensures
        names_root(background_v(args, ports, Some(name))),
{
    let filled = Seq::new(args.len(), |i: int| ported(args[i], ports[i]));
    if !names_root(filled) {
        let all = filled.push("--root-name="@ + name);
        reveal_strlit("--root-name");
        reveal_strlit("--root-name=");
        let last = all[all.len() - 1];
        assert(last =~= "--root-name="@ + name);
        assert(last.subrange(0, "--root-name"@.len() as int) =~= "--root-name"@);
        assert(begins(all[all.len() - 1], "--root-name"@));
    }
}

/// The file a preview's address is recorded in, under the project's path.
pub open spec fn addr_file_v(root: Seq<char>) -> Seq<char> {
    replace(root, "/"@, "_"@) + ".addr"@
}

/// The file a preview's address is recorded in, under the project's path with a
/// `_` for each slash, so that an editor's tasks can find the right window's
/// server.
pub fn addr_file_name(root: &str) -> (r: String)
    ensures
        r@ == addr_file_v(root@),
{
    proof {
        reveal_strlit("/");
    }
    let mut out: String = replaced(root, "/", "_");
    out.append(".addr");
    out
}

// ------------------------------------------------------------ whether it starts

/// Why a preview does not start, before anything is registered: the file is not
/// named from the root, the task's name is taken, or a background preview is
/// told not to be the primary one.
pub open spec fn start_refusal(
    entry: Option<Seq<char>>,
    task_id: Seq<char>,
    not_as_primary: bool,
    kind: PreviewKind,
) -> Option<Seq<char>> {
    if entry is Some && !begins(entry->Some_0, "/"@) {
        Some("entry file must be absolute path"@)
    } else if task_id == "primary"@ {
        Some("task id 'primary' is reserved"@)
    } else if not_as_primary && kind == PreviewKind::Background {
        Some("cannot start background preview as non-primary"@)
    } else {
        None
    }
}

/// Whether a preview starts, as far as what it is told goes.
pub fn check_start(
    entry: Option<&str>,
    task_id: &str,
    not_as_primary: bool,
    kind: PreviewKind,
) -> (r: Result<(), String>)
    ensures
        match start_refusal(opt_str(entry), task_id@, not_as_primary, kind) {
            Some(e) => r is Err && r->Err_0@ == e,
            None => r is Ok,
        },
{
    if let Some(path) = entry {
        if !starts_with(path, "/") {
            return Err("entry file must be absolute path".to_string());
        }
    }
    if same(task_id, "primary") {
        return Err("task id 'primary' is reserved".to_string());
    }
    if not_as_primary && kind == PreviewKind::Background {
        return Err("cannot start background preview as non-primary".to_string());
    }
    Ok(())
}

/// Whether a preview asks to be the primary one: it follows what is in focus, or
/// has a file to show, and is not told otherwise.
pub fn asks_primary(kind: PreviewKind, not_as_primary: bool, has_entry: bool) -> (r: bool)
    ensures
        r == (!not_as_primary && (kind != PreviewKind::Regular || has_entry)),
{
    !not_as_primary && (kind != PreviewKind::Regular || has_entry)
}

/// Where a preview runs.
#[derive(Debug, Clone, Copy, PartialEq, Eq, Structural)]
pub enum Placement {
    /// On the primary instance.
    Primary,
    /// On one of its own.
    Dedicated,
}

/// Where a preview runs, once it is known whether the primary instance took it.
pub open spec fn placed(kind: PreviewKind, has_entry: bool, registered: bool) -> Result<
    Placement,
    Seq<char>,
> {
    if kind == PreviewKind::Background && !registered {
        Err("failed to register background preview to the primary instance"@)
    } else if registered {
        Ok(Placement::Primary)
    } else if has_entry {
        Ok(Placement::Dedicated)
    } else {
        Err("entry file must be provided"@)
    }
}

/// Where a preview runs.
pub fn place_preview(kind: PreviewKind, has_entry: bool, registered: bool) -> (r: Result<
    Placement,
    String,
>)
    ensures
        match placed(kind, has_entry, registered) {
            Ok(p) => r is Ok && r->Ok_0 == p,
            Err(e) => r is Err && r->Err_0@ == e,
        },
{
    if kind == PreviewKind::Background && !registered {
        Err("failed to register background preview to the primary instance".to_string())
    } else if registered {
        Ok(Placement::Primary)
    } else if has_entry {
        Ok(Placement::Dedicated)
    } else {
        Err("entry file must be provided".to_string())
    }
}

/// A background preview runs on the primary instance or not at all.
pub proof fn a_background_preview_is_primary(has_entry: bool, registered: bool)
    ensures
        placed(PreviewKind::Background, has_entry, registered) matches Ok(p) ==> p
            == Placement::Primary,
{
}

/// Whether the files of a preview may be served from where it is told: only from
/// where its data comes from.
pub fn check_host(static_file_host: &str, data_plane_host: &str) -> (r: Result<(), String>)
    ensures
        if static_file_host@.len() > 0 && static_file_host@ != data_plane_host@ {
            r is Err && r->Err_0@ == "--static-file-host is removed"@
        } else {
            r is Ok
        },
{
    if !is_empty(static_file_host) && !same(static_file_host, data_plane_host) {
        Err("--static-file-host is removed".to_string())
    } else {
        Ok(())
    }
}

// -------------------------------------------------------------------- its page

/// The script that shows errors before anything else is loaded, as an element.
pub open spec fn early_script(js: Seq<char>) -> Seq<char> {
    "<script>"@ + js + "</script>"@
}

/// The script of the overlay, as an element.
pub const OVERLAY_SCRIPT: &'static str = "<script src=\"/dev/overlay.js\"></script>";

/// A page with the early script at the top of its head, or before all of it where
/// it has none.
pub open spec fn with_early(html: Seq<char>, js: Seq<char>) -> Seq<char> {
    match find(html, "<head>"@) {
        Some(at) => html.take(at + 6) + early_script(js) + html.skip(at + 6),
        None => early_script(js) + html,
    }
}

/// A page with the script of the overlay at the end of its body, or behind all of
/// it where it has none.
pub open spec fn with_overlay(html: Seq<char>) -> Seq<char> {
    if occurs(html, "</body>"@) {
        replace(html, "</body>"@, OVERLAY_SCRIPT@ + "</body>"@)
    } else {
        html + OVERLAY_SCRIPT@
    }
}

/// The page of a preview, with what shows its errors put in.
pub fn overlay_page(html: &str, early_js: &str) -> (r: String)
    ensures
        r@ == with_overlay(with_early(html@, early_js@)),
{
    proof {
        reveal_strlit("<head>");
        reveal_strlit("</body>");
    }
    let mut early: String = "<script>".to_string();
    early.append(early_js);
    early.append("</script>");
    let chars: Vec<char> = chars_of(html);
    let head: Vec<char> = chars_of("<head>");
    let total: usize = chars.len();
    assert(head@.len() == 6);
    let page: String = match find_at(chars.as_slice(), head.as_slice(), 0) {
        Some(at) => {
            let (before, after): (&[char], &[char]) = cut(chars.as_slice(), at + 6, 0);
            let mut out: String = string_of(before);
            out.append(early.as_str());
            out.append(string_of(after).as_str());
            assert(out@ =~= with_early(html@, early_js@));
            out
        },
        None => {
            let mut out: String = early;
            out.append(html);
            out
        },
    };
    if contains(page.as_str(), "</body>") {
        let mut script: String = OVERLAY_SCRIPT.to_string();
        script.append("</body>");
        replaced(page.as_str(), "</body>", script.as_str())
    } else {
        let mut out: String = page;
        out.append(OVERLAY_SCRIPT);
        out
    }
}

// ------------------------------------------------------------------ its answers

/// What starting a preview is answered with.
#[derive(Debug)]
pub struct StartPreviewResponse {
    /// The port its page is at.
    pub static_server_port: Option<u16>,
    /// The address its page is at.
    pub static_server_addr: Option<String>,
    /// The port its data is at.
    pub data_plane_port: Option<u16>,
    /// Whether it is the primary one.
    pub is_primary: bool,
}

/// What starting a preview is answered with: its page and its data are at the
/// same address.
pub fn started(port: u16, addr: String, is_primary: bool) -> (r: StartPreviewResponse)
    ensures
        r.static_server_port == Some(port),
        opt_text(r.static_server_addr) == Some(addr@),
        r.data_plane_port == Some(port),
        r.is_primary == is_primary,
{
    StartPreviewResponse {
        static_server_port: Some(port),
        static_server_addr: Some(addr),
        data_plane_port: Some(port),
        is_primary,
    }
}

/// Where a preview on this machine is opened.
pub fn local_url(port: u16) -> (r: String)
    ensures
        r@ == "http://127.0.0.1:"@ + decimal(port as nat),
{
    let mut out: String = "http://127.0.0.1:".to_string();
    out.append(decimal_of(port as u64).as_str());
    out
}

/// How a preview is opened: in the browser that was named, in a window of its own
/// or not, and under the name its project goes by.
pub fn open_options(
    open_in: Option<&str>,
    isolated: bool,
    cdp: Option<&str>,
    root_name: Option<String>,
    port: u16,
) -> (r: OpenOptions)
    ensures
        r.browser@ == match open_in {
            Some(word) => browser_named(word@),
            None => BrowserV::Default,
        },
        r.isolated == isolated,
        match cdp {
            Some(word) => match r.cdp_port {
                Some(p) => cdp_named(word@, port as nat) == Some(p as nat),
                None => cdp_named(word@, port as nat) is None,
            },
            None => r.cdp_port is None,
        },
        r.app_title@ == (match opt_text(root_name) {
            Some(name) => name,
            None => decimal(port as nat),
        }) + " (LSP)"@,
        r.key == port,
{
    let identity: WebAppIdentity = WebAppIdentity { role: IconRole::Lsp, color: None, name: root_name };
    OpenOptions {
        browser: match open_in {
            Some(word) => Browser::parse(word),
            None => Browser::Default,
        },
        isolated,
        cdp_port: match cdp {
            Some(word) => parse_cdp_port(word, port),
            None => None,
        },
        app_title: identity.short_title(port),
        key: port,
    }
}

/// A place in a file: a line and a character.
#[derive(Debug, Clone, Copy, PartialEq, Eq, Structural)]
pub struct Spot {
    /// The line.
    pub line: u32,
    /// The character.
    pub character: u32,
}

/// What is selected where a reader jumps to a file: what lies between the two ends
/// that are known, or the one that is.
pub open spec fn jump_v(start: Option<Spot>, end: Option<Spot>) -> Option<(Spot, Spot)> {
    match (start, end) {
        (Some(a), Some(b)) => Some((a, b)),
        (Some(a), None) => Some((a, a)),
        (None, Some(b)) => Some((b, b)),
        (None, None) => None,
    }
}

/// What is selected where a reader jumps to a file.
pub fn jump_range(start: Option<Spot>, end: Option<Spot>) -> (r: Option<(Spot, Spot)>)
    ensures
        r == jump_v(start, end),
{
    match start {
        Some(a) => match end {
            Some(b) => Some((a, b)),
            None => Some((a, a)),
        },
        None => match end {
            Some(b) => Some((b, b)),
            None => None,
        },
    }
}

// ---------------------------------------------------------------- what is watched

/// What a preview has last seen of the files it looks at every so often: when its
/// scripts were written, and its annotations.
#[derive(Debug)]
pub struct Watch {
    scripts: (Option<u64>, Option<u64>),
    annotations: Option<u64>,
    looked: bool,
}

/// What a preview has last seen.
pub struct WatchV {
    pub scripts: (Option<u64>, Option<u64>),
    pub annotations: Option<u64>,
    pub looked: bool,
}

impl View for Watch {
    type V = WatchV;

    closed spec fn view(&self) -> WatchV {
        WatchV { scripts: self.scripts, annotations: self.annotations, looked: self.looked }
    }
}

impl Watch {
    /// Nothing seen yet.
    pub fn new() -> (r: Self)
        ensures
            r@ == (WatchV { scripts: (None, None), annotations: None, looked: false }),
    {
        Watch { scripts: (None, None), annotations: None, looked: false }
    }

    /// Looks at the files: when the scripts were written, and the annotations
    /// where there is a document. Says whether pages load again, which they do
    /// when a script was written since, and whether they are sent the
    /// annotations, which they are when those were.
    pub fn look(
        &mut self,
        scripts: (Option<u64>, Option<u64>),
        annotations: Option<Option<u64>>,
    ) -> (r: (bool, bool))
        ensures
            r.0 == (old(self)@.looked && scripts != old(self)@.scripts),
            r.1 == (annotations matches Some(when) && when != old(self)@.annotations),
            final(self)@ == (WatchV {
                scripts,
                annotations: match annotations {
                    Some(when) => when,
                    None => old(self)@.annotations,
                },
                looked: true,
            }),
    {
        let reload: bool = self.looked && !(same_time(scripts.0, self.scripts.0) && same_time(
            scripts.1,
            self.scripts.1,
        ));
        self.scripts = scripts;
        self.looked = true;
        let refresh: bool = match annotations {
            Some(when) => {
                let moved: bool = !same_time(when, self.annotations);
                self.annotations = when;
                moved
            },
            None => false,
        };
        (reload, refresh)
    }
}

/// Whether two times are the same, where they are known.
fn same_time(a: Option<u64>, b: Option<u64>) -> (r: bool)
    ensures
        r == (a == b),
{
    match a {
        Some(x) => match b {
            Some(y) => x == y,
            None => false,
        },
        None => b.is_none(),
    }
}

/// Whether the process that started this one is watched: not where this one was
/// started detached.
pub fn watches_parent(parent: u32) -> (r: bool)
    ensures
        r == (parent > 1),
{
    parent > 1
}

/// A host that leaves its port open is given one, and every other argument stays as it is.
pub proof fn an_open_port_is_filled_in(host: Seq<char>, arg: Seq<char>, port: u16)
    requires
        !begins(arg, "--data-plane-host="@) || !ends(arg, ":auto"@),
    ensures
        ported("--data-plane-host="@ + host + ":auto"@, port) == "--data-plane-host="@ + host + ":"@
            + decimal(port as nat),
        ported(arg, port) == arg,
{
    reveal_strlit("--data-plane-host=");
    reveal_strlit(":auto");
    let prefix = "--data-plane-host="@;
    let open = prefix + host + ":auto"@;
    assert(open.subrange(0, 18) =~= prefix);
    assert(open.skip(18) =~= host + ":auto"@);
    let rest = host + ":auto"@;
    assert(rest.subrange(host.len() as int, rest.len() as int) =~= ":auto"@);
    assert(rest.take(host.len() as int) =~= host);
    if begins(arg, prefix) {
        let left = arg.skip(18);
        if ends(left, ":auto"@) {
            assert(arg.subrange(arg.len() - 5, arg.len() as int) =~= left.subrange(
                left.len() - 5,
                left.len() as int,
            ));
        }
    }
}

/// A preview in the background is given its arguments in their order, and a name when it has none.
pub proof fn arguments_stay_in_order(args: Seq<Seq<char>>, ports: Seq<u16>, name: Option<Seq<char>>, i: int)
    requires
        0 <= i < args.len(),
    ensures
        background_v(args, ports, name).len() <= args.len() + 1,
        background_v(args, ports, name)[i] == ported(args[i], ports[i]),
        name is None ==> background_v(args, ports, name).len() == args.len(),
{
}

/// A preview is started only of a file at an absolute path, never under the name of the primary, and
/// in the background only as the primary.
pub proof fn a_preview_is_refused_for_a_reason(
    entry: Option<Seq<char>>,
    task_id: Seq<char>,
    not_as_primary: bool,
    kind: PreviewKind,
)
    ensures
        start_refusal(entry, task_id, not_as_primary, kind) is None <==> (entry matches Some(path)
            ==> path.len() > 0 && path[0] == '/') && task_id != "primary"@ && !(not_as_primary && kind
            == PreviewKind::Background),
{
    reveal_strlit("/");
    if let Some(path) = entry {
        if path.len() > 0 {
            assert(path.subrange(0, 1) =~= seq![path[0]]);
            assert("/"@ =~= seq!['/']);
            if begins(path, "/"@) {
                assert(path.subrange(0, 1)[0] == '/');
            }
        }
    }
}

/// A preview goes to the primary where that took it; one that it did not take has a place of its
/// own, when it has a file to show and is not in the background.
pub proof fn a_preview_has_its_place(kind: PreviewKind, has_entry: bool)
    ensures
        placed(kind, has_entry, true) == Ok::<_, Seq<char>>(Placement::Primary),
        kind != PreviewKind::Background && has_entry ==> placed(kind, has_entry, false)
            == Ok::<_, Seq<char>>(Placement::Dedicated),
        kind == PreviewKind::Background || !has_entry ==> placed(kind, has_entry, false) is Err,
{
}

/// A page runs the early script right after its head opens, and the overlay's right before its body
/// closes; all else of the page stays.
pub proof fn scripts_are_put_in(html: Seq<char>, js: Seq<char>, at: int)
    ensures
        find(html, "<head>"@) == Some(at) ==> with_early(html, js) == html.take(at) + "<head>"@
            + "<script>"@ + js + "</script>"@ + html.skip(at + 6),
        find(html, "<head>"@) is None ==> with_early(html, js) == "<script>"@ + js + "</script>"@ + html,
        find(html, "</body>"@) == Some(at) && !occurs(html.skip(at + 7), "</body>"@) ==> with_overlay(html)
            == html.take(at) + "<script src=\"/dev/overlay.js\"></script>"@ + "</body>"@ + html.skip(
            at + 7,
        ),
        find(html, "</body>"@) is None ==> with_overlay(html) == html
            + "<script src=\"/dev/overlay.js\"></script>"@,
{
    reveal_strlit("<head>");
    reveal_strlit("</body>");
    lemma_find_from(html, "<head>"@, 0);
    lemma_find_from(html, "</body>"@, 0);
    if find(html, "<head>"@) == Some(at) {
        assert(html.take(at + 6) =~= html.take(at) + "<head>"@) by {
            assert forall|i: int| at <= i < at + 6 implies html[i] == "<head>"@[i - at] by {
                assert(html.subrange(at, at + 6)[i - at] == html[i]);
            }
        }
        assert(with_early(html, js) =~= html.take(at) + "<head>"@ + "<script>"@ + js + "</script>"@
            + html.skip(at + 6));
    }
    if find(html, "</body>"@) == Some(at) && !occurs(html.skip(at + 7), "</body>"@) {
        let rest = html.skip(at + 7);
        assert(replace(rest, "</body>"@, OVERLAY_SCRIPT@ + "</body>"@) == rest);
        assert(with_overlay(html) =~= html.take(at) + "<script src=\"/dev/overlay.js\"></script>"@
            + "</body>"@ + html.skip(at + 7));
    }
}

} // verus!

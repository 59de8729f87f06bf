//! Opening a served document in a browser.
//!
//! Three things vary, and they are independent: which browser, whether the
//! document gets a window of its own, and whether that window can be driven
//! from outside.

use vstd::prelude::*;
use vstd::string::*;

use crate::num::{decimal, decimal_of, parse_u16, parse_uint};
use crate::paths::{file_stem, join_path, path_join, path_stem};
use crate::text::{contains, occurs, opt_text, same, texts};

verus! {

/// Which browser to open with.
#[derive(Debug, PartialEq, Eq)]
pub enum Browser {
    /// Whatever the system opens URLs with.
    Default,
    Safari,
    Chrome,
    Firefox,
    /// An application named literally, as it appears among the applications.
    Named(String),
}

/// Which browser to open with.
pub enum BrowserV {
    Default,
    Safari,
    Chrome,
    Firefox,
    Named(Seq<char>),
}

impl View for Browser {
    type V = BrowserV;

    open spec fn view(&self) -> BrowserV {
        match self {
            Browser::Default => BrowserV::Default,
            Browser::Safari => BrowserV::Safari,
            Browser::Chrome => BrowserV::Chrome,
            Browser::Firefox => BrowserV::Firefox,
            Browser::Named(name) => BrowserV::Named(name@),
        }
    }
}

/// The browser a word names: the known names are in lower case, and anything
/// else is an application's.
pub open spec fn browser_named(spec_: Seq<char>) -> BrowserV {
    if spec_ == "browser"@ || spec_ == "default"@ {
        BrowserV::Default
    } else if spec_ == "safari"@ {
        BrowserV::Safari
    } else if spec_ == "chrome"@ {
        BrowserV::Chrome
    } else if spec_ == "firefox"@ {
        BrowserV::Firefox
    } else {
        BrowserV::Named(spec_)
    }
}

/// What a browser's application is called.
pub open spec fn app_called(browser: BrowserV) -> Option<Seq<char>> {
    match browser {
        BrowserV::Default => None,
        BrowserV::Safari => Some("Safari"@),
        BrowserV::Chrome => Some("Google Chrome"@),
        BrowserV::Firefox => Some("Firefox"@),
        BrowserV::Named(name) => Some(name),
    }
}

/// Where a browser's application may be, the first that is there being it: where
/// its name says, if that is a path, or else among the person's own applications
/// and then the machine's.
pub open spec fn app_places(browser: BrowserV, home: Seq<char>) -> Seq<Seq<char>> {
    match app_called(browser) {
        None => seq![],
        Some(name) => if occurs(name, "/"@) {
            seq![name]
        } else {
            seq![
                path_join(path_join(home, "Applications"@), name + ".app"@),
                path_join("/Applications"@, name + ".app"@),
            ]
        },
    }
}

impl Browser {
    /// Reads which browser to open in. The known names are in lower case;
    /// anything else is taken literally, so a specific build or a full path
    /// still works.
    pub fn parse(word: &str) -> (r: Self)
        ensures
            r@ == browser_named(word@),
    {
        if same(word, "browser") || same(word, "default") {
            Browser::Default
        } else if same(word, "safari") {
            Browser::Safari
        } else if same(word, "chrome") {
            Browser::Chrome
        } else if same(word, "firefox") {
            Browser::Firefox
        } else {
            Browser::Named(word.to_string())
        }
    }

    /// Where the application may be on this machine, and whether it is taken to
    /// be there without looking.
    pub fn apps(&self, home: &str) -> (r: (Vec<String>, bool))
        ensures
            texts(r.0@) == app_places(self@, home@),
            r.1 == (app_called(self@) matches Some(name) && occurs(name, "/"@)),
    {
        let name: &str = match self {
            Browser::Default => {
                let none: Vec<String> = Vec::new();
                assert(texts(none@) =~= seq![]);
                return (none, false);
            },
            Browser::Safari => "Safari",
            Browser::Chrome => "Google Chrome",
            Browser::Firefox => "Firefox",
            Browser::Named(name) => name.as_str(),
        };
        let mut out: Vec<String> = Vec::new();
        if contains(name, "/") {
            out.push(name.to_string());
            assert(texts(out@) =~= app_places(self@, home@));
            return (out, true);
        }
        let mut file: String = name.to_string();
        file.append(".app");
        out.push(join_path(join_path(home, "Applications").as_str(), file.as_str()));
        out.push(join_path("/Applications", file.as_str()));
        assert(texts(out@) =~= app_places(self@, home@));
        (out, false)
    }
}

/// The executable inside an application, which is called as the application is.
pub open spec fn binary_place(app: Seq<char>) -> Option<Seq<char>> {
    match path_stem(app) {
        Some(stem) => Some(path_join(path_join(app, "Contents/MacOS"@), stem)),
        None => None,
    }
}

/// The executable inside an application, for the cases that need flags.
pub fn binary_in(app: &str) -> (r: Option<String>)
    ensures
        opt_text(r) == binary_place(app@),
{
    match file_stem(app) {
        Some(stem) => Some(join_path(join_path(app, "Contents/MacOS").as_str(), stem.as_str())),
        None => None,
    }
}

/// How to open a URL.
#[derive(Debug)]
pub struct OpenOptions {
    /// The browser to use.
    pub browser: Browser,
    /// Give the document a window of its own, rather than a tab among others.
    pub isolated: bool,
    /// Expose a debugging port on that window. Chrome only.
    pub cdp_port: Option<u16>,
    /// The name a dock app installed from this URL would carry, which is what
    /// isolation looks for first.
    pub app_title: String,
    /// The server's port, which keys the profile an isolated Chrome uses so
    /// that one document's window is not another's.
    pub key: u16,
}

/// Where a web app installed under a title may be.
pub open spec fn installed_places(title: Seq<char>, home: Seq<char>) -> Seq<Seq<char>> {
    seq![
        path_join(path_join(home, "Applications"@), title + ".app"@),
        path_join(path_join(home, "Applications/Chrome Apps"@), title + ".app"@),
        path_join("/Applications"@, title + ".app"@),
    ]
}

/// Where a web app installed from a URL may be, by the name its manifest gives:
/// Safari puts one among the person's applications, and Chrome in a directory of
/// its own there.
pub fn installed_apps(title: &str, home: &str) -> (r: Vec<String>)
    ensures
        texts(r@) == installed_places(title@, home@),
{
    let mut file: String = title.to_string();
    file.append(".app");
    let mut out: Vec<String> = Vec::new();
    out.push(join_path(join_path(home, "Applications").as_str(), file.as_str()));
    out.push(join_path(join_path(home, "Applications/Chrome Apps").as_str(), file.as_str()));
    out.push(join_path("/Applications", file.as_str()));
    assert(texts(out@) =~= installed_places(title@, home@));
    out
}

/// Where an isolated Chrome keeps its profile.
pub open spec fn profile_place(cache: Seq<char>, key: nat) -> Seq<char> {
    path_join(path_join(cache, "talimist"@), "chrome-"@ + decimal(key))
}

/// Where an isolated Chrome keeps its profile: keyed to the server, since Chrome
/// refuses a debugging port for a profile that is already running.
pub fn profile_dir(cache: &str, key: u16) -> (r: String)
    ensures
        r@ == profile_place(cache@, key as nat),
{
    let mut name: String = "chrome-".to_string();
    name.append(decimal_of(key as u64).as_str());
    join_path(join_path(cache, "talimist").as_str(), name.as_str())
}

/// What Chrome is started with.
pub open spec fn chrome_args_v(
    url: Seq<char>,
    isolated: bool,
    cdp_port: Option<u16>,
    profile: Seq<char>,
) -> Seq<Seq<char>> {
    let window = if isolated {
        seq![
            "--user-data-dir="@ + profile,
            "--no-first-run"@,
            "--no-default-browser-check"@,
            "--app="@ + url,
        ]
    } else {
        seq![url]
    };
    match cdp_port {
        Some(port) => window.push("--remote-debugging-port="@ + decimal(port as nat)),
        None => window,
    }
}

/// What Chrome is started with: its own window and its own profile, and a
/// debugging port if one was asked for.
pub fn chrome_args(url: &str, opts: &OpenOptions, profile: &str) -> (r: Vec<String>)
    ensures
        texts(r@) == chrome_args_v(url@, opts.isolated, opts.cdp_port, profile@),
{
    let mut out: Vec<String> = Vec::new();
    if opts.isolated {
        let mut dir: String = "--user-data-dir=".to_string();
        dir.append(profile);
        out.push(dir);
        out.push("--no-first-run".to_string());
        out.push("--no-default-browser-check".to_string());
        let mut app: String = "--app=".to_string();
        app.append(url);
        out.push(app);
    } else {
        out.push(url.to_string());
    }
    if let Some(port) = opts.cdp_port {
        let mut arg: String = "--remote-debugging-port=".to_string();
        arg.append(decimal_of(port as u64).as_str());
        out.push(arg);
    }
    assert(texts(out@) =~= chrome_args_v(url@, opts.isolated, opts.cdp_port, profile@));
    out
}

/// One way of opening a URL.
#[derive(Debug, Clone, Copy, PartialEq, Eq, Structural)]
pub enum Way {
    /// The web app installed from it.
    Installed,
    /// Chrome, with flags.
    Chrome,
    /// The browser's application.
    App,
    /// Whatever the system opens URLs with.
    System,
}

/// The ways a URL is tried to be opened, each where those before it failed.
pub open spec fn ways_v(browser: BrowserV, isolated: bool, cdp: bool) -> Seq<Way> {
    let first = if isolated {
        seq![Way::Installed]
    } else {
        seq![]
    };
    let chrome = if browser is Chrome && (isolated || cdp) {
        first.push(Way::Chrome)
    } else {
        first
    };
    (if browser is Default {
        chrome
    } else {
        chrome.push(Way::App)
    }).push(Way::System)
}

/// The ways a URL is tried to be opened, each where those before it failed, and
/// whether to say that only Chrome takes a debugging port. A web app installed
/// from the URL comes first where the document is to have a window of its own:
/// it is the window the person already chose for it.
pub fn ways(opts: &OpenOptions) -> (r: (Vec<Way>, bool))
    ensures
        r.0@ == ways_v(opts.browser@, opts.isolated, opts.cdp_port is Some),
        r.1 == (opts.cdp_port is Some && !(opts.browser@ is Chrome)),
{
    let mut out: Vec<Way> = Vec::new();
    if opts.isolated {
        out.push(Way::Installed);
    }
    let chrome: bool = match &opts.browser {
        Browser::Chrome => true,
        _ => false,
    };
    if chrome && (opts.isolated || opts.cdp_port.is_some()) {
        out.push(Way::Chrome);
    }
    match &opts.browser {
        Browser::Default => {},
        _ => {
            out.push(Way::App);
        },
    }
    out.push(Way::System);
    assert(out@ =~= ways_v(opts.browser@, opts.isolated, opts.cdp_port is Some));
    (out, opts.cdp_port.is_some() && !chrome)
}

/// There is always a way left: what the system opens URLs with is the last
/// resort, and nothing comes behind it.
pub proof fn there_is_a_last_resort(browser: BrowserV, isolated: bool, cdp: bool)
    ensures
        ways_v(browser, isolated, cdp).last() == Way::System,
        forall|i: int|
            0 <= i < ways_v(browser, isolated, cdp).len() - 1 ==> (#[trigger] ways_v(
                browser,
                isolated,
                cdp,
            )[i]) != Way::System,
{
}

/// The debugging port a word names: a port, or one behind the server's own.
pub open spec fn cdp_named(word: Seq<char>, server_port: nat) -> Option<nat> {
    if word == "auto"@ {
        if server_port < u16::MAX {
            Some(server_port + 1)
        } else {
            None
        }
    } else if word == "none"@ || word == ""@ {
        None
    } else {
        parse_uint(word, u16::MAX as nat)
    }
}

/// Reads a debugging port: a port, or `auto` for one derived from the server's
/// own port.
pub fn parse_cdp_port(word: &str, server_port: u16) -> (r: Option<u16>)
    ensures
        match r {
            Some(port) => cdp_named(word@, server_port as nat) == Some(port as nat),
            None => cdp_named(word@, server_port as nat) is None,
        },
{
    if same(word, "auto") {
        if server_port < u16::MAX {
            Some(server_port + 1)
        } else {
            None
        }
    } else if same(word, "none") || same(word, "") {
        None
    } else {
        parse_u16(word)
    }
}

} // verus!

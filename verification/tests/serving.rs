//! What a server answers, and what it keeps.

use talimist::registry::{
    judge_note, note_name, parent_of, read_answer, request_text, slug_for, sort_notes, Announced,
    Answer, ServerNote, Verdict,
};
use talimist::serve::cache::{body_path, is_stale_site, site_dir_name, SiteCache};
use talimist::serve::directory::{assets_in, dirs_in, entries_in, FoundFile};
use talimist::serve::http::{
    absent, already_has, ask, cache_control, capture_name, client_address, content_type,
    event_query, farewell, grace, listing_page, listing_under, mime_of, page_asked, path_climbs, raw_param,
    read_path, refusal, reply, request_author, route, sidecar_title, sidecar_where, target,
    unescape, wants_document, Ask, Found, Idle, Ready, Route, Target,
};
use talimist::serve::site::{
    age_of, annotation_count, anyone_working, doc_entry, has_heading, hidden, is_asset,
    is_document, listing_json, listing_key, scan_dir, title_in, Located, SingleSite,
};
use talimist::webapp::icons::IconRole;

fn strings(list: &[&str]) -> Vec<String> {
    list.iter().map(|s| (*s).to_owned()).collect()
}

#[test]
fn a_path_is_unescaped_and_kept_inside() {
    assert_eq!(unescape("a%20b+c", false), "a b+c");
    assert_eq!(unescape("a%20b+c", true), "a b c");
    assert_eq!(unescape("100%", false), "100%");
    assert_eq!(unescape("%zz", false), "%zz");
    assert_eq!(unescape("%C3%B6", false), "ö");
    assert_eq!(unescape("%FF", false), "\u{fffd}");
    assert!(path_climbs("/a/../b"));
    assert!(path_climbs("/a\0b"));
    assert!(!path_climbs("/a..b/c"));
    assert_eq!(read_path("/a%20b").as_deref(), Some("/a b"));
    assert_eq!(read_path("/%2e%2e/b"), None);
}

#[test]
fn a_request_finds_its_mode() {
    let Ask::Lookup { role, rest } = ask("/v/report/paper", true) else {
        panic!("a directory is asked what a path is");
    };
    assert_eq!(role, IconRole::Serve);
    assert_eq!(rest, "report/paper");
    assert!(matches!(ask("/elsewhere", true), Ask::Plain));
}

fn ready() -> Ready {
    Ready {
        upgrade: false,
        icon: false,
        manifest: false,
        listing: false,
        document: true,
        agents: true,
        post: false,
    }
}

fn at(path: &str) -> Target {
    Target {
        role: Some(IconRole::Serve),
        slug: String::new(),
        path: path.to_owned(),
        found: Found::Document,
    }
}

#[test]
fn a_request_is_routed() {
    assert_eq!(route("/v/dev/html/doc", "/x.css", &at("/dev/html/doc"), ready()), Route::HtmlDoc);
    assert_eq!(route("/v/dev/html/pins", "/x.css", &at("/dev/html/pins"), ready()), Route::HtmlPins);
    assert_eq!(route("/v/", "/x.css", &at("/"), ready()), Route::Page);
    assert!(page_asked("/v/", "/x.css", &at("/"), ready()));
    assert!(page_asked("/v", "/x.css", &at(""), ready()));
    assert!(!page_asked("/v/dev/build", "/x.css", &at("/dev/build"), ready()));
    assert!(!page_asked("/x.css", "/x.css", &at("/"), ready()));
    let mut posting = ready();
    posting.post = true;
    assert_eq!(route("/v/dev/annotate", "/x.css", &at("/dev/annotate"), posting), Route::Annotate);
    assert_eq!(
        route("/v/dev/annotate/delete", "/x.css", &at("/dev/annotate/delete"), posting),
        Route::AnnotateDelete
    );
    assert_eq!(absent(Route::HtmlDoc).status, 404);
    assert_eq!((refusal().status, refusal().body.as_str()), (400, "no\n"));
    assert!(reply(Route::Page, "/v/", "", "/v/").is_none());
    let moved = reply(Route::IntoMode, "/", "", "/v/").unwrap();
    assert_eq!(moved.location.as_deref(), Some("/v/"));
    assert_eq!(content_type(Route::ClientScript), Some("application/javascript"));
    assert_eq!(content_type(Route::Diagnostics), Some("text/event-stream"));
    assert_eq!(cache_control(Route::HtmlDoc), Some("no-cache"));
    assert_eq!(cache_control(Route::Capture), Some("max-age=86400, immutable"));
    assert_eq!(cache_control(Route::Page), None);
}

#[test]
fn a_target_is_what_was_found() {
    let asked = ask("/v/report/paper", true);
    let t = target(asked, "/v/report/paper", Found::Document, "report/paper", "");
    assert_eq!(t.slug, "report/paper");
    assert_eq!(t.path, "/");
    assert!(wants_document(&t, true));
}

#[test]
fn a_file_says_what_it_is() {
    assert_eq!(mime_of("/a/b.PDF"), "application/pdf");
    assert_eq!(mime_of("/a/b.png"), "image/png");
    assert!(already_has(Some("\"7\""), 7));
    assert!(!already_has(Some("\"8\""), 7));
    assert!(!already_has(None, 7));
    let (hash, fmt, mime) = capture_name("/dev/capture/abc1.svg").unwrap();
    assert_eq!((hash.as_str(), fmt.as_str(), mime), ("abc1", "svg", "image/svg+xml"));
    assert_eq!(capture_name("/dev/capture/abc1"), None);
}

#[test]
fn a_listing_knows_where_it_is() {
    assert_eq!(
        listing_page("<link href=\"dev/a.css\"><script src=\"dev/b.js\">", "/v/"),
        "<link href=\"/v/dev/a.css\"><script src=\"/v/dev/b.js\">"
    );
    assert_eq!(listing_under("under=a%20b&x=1"), "a b");
    assert_eq!(listing_under(""), "");
    assert_eq!(raw_param("a=1&b=2", "b").as_deref(), Some("2"));
    assert_eq!(raw_param("a=1", "b"), None);
    assert_eq!(event_query("since=4&wait=1000"), (4, 300));
    assert_eq!(event_query("nonsense"), (0, 0));
    assert_eq!(sidecar_title("paper", None), "paper — sidecar");
    assert_eq!(sidecar_title("", Some("docs")), "docs — sidecar");
    assert_eq!(sidecar_title("", None), "document — sidecar");
    assert_eq!(sidecar_where("/docs", "paper"), "/docs/paper.typ");
    assert_eq!(sidecar_where("/docs/a.typ", ""), "/docs/a.typ");
}

#[test]
fn a_request_says_who_it_is() {
    assert_eq!(request_author(Some(" me@example.com ")).as_deref(), Some("me@example.com"));
    assert_eq!(request_author(Some("  ")), None);
    assert_eq!(request_author(None), None);
    assert_eq!(client_address(Some("100.64.0.7, 10.0.0.1"), "::1"), "100.64.0.7");
    assert_eq!(client_address(None, "::1"), "::1");
}

#[test]
fn a_server_goes_when_nobody_is_left() {
    let mut idle = Idle::new();
    assert_eq!(idle.look(false, 0, false, false, 0), None);
    assert_eq!(idle.look(true, 1, false, false, 5_000), None);
    assert_eq!(idle.look(true, 0, false, false, 10_900), None);
    assert_eq!(idle.look(true, 0, false, false, 20_899), None);
    assert_eq!(idle.look(true, 0, false, false, 20_900), Some(10));
    assert_eq!(grace(false, false), 10);
    assert_eq!(grace(true, false), 60);
    assert_eq!(grace(true, true), 1800);
    assert!(farewell(10).contains("10"));
}

#[test]
fn documents_are_told_from_other_files() {
    assert!(has_heading("= A\n"));
    assert!(has_heading("text\n  #figure(x)\n"));
    assert!(has_heading("$ x $\n"));
    assert!(!has_heading("=\n#let x = 1\n"));
    assert!(!has_heading("=x\n"));
    assert_eq!(title_in("#set document(title: \" My \\n\")\n= Other\n").as_deref(), Some("My \\n"));
    assert_eq!(title_in("= First $x$\n").as_deref(), Some("First"));
    let prose = "#set document(author: \"A\")\n= Real\nThe title: \"x\"\n";
    assert_eq!(title_in(prose).as_deref(), Some("Real"));
    let nested = "#set document(date: datetime(year: 2024), author: \"a) b\", title: \"T\")\n";
    assert_eq!(title_in(nested).as_deref(), Some("T"));
    let content = "#set document(title: [X], author: \"A\")\n= Real\n";
    assert_eq!(title_in(content).as_deref(), Some("Real"));
    let inside = "#set document(author: \"the \\\" title: no\", title: \"Yes\")\n";
    assert_eq!(title_in(inside).as_deref(), Some("Yes"));
    let noted = "#set document( // a) \"b\n  /* c) /* d) */ title: \"old\" */ title: /* \"e\" */ \"x\")\n= Real\n";
    assert_eq!(title_in(noted).as_deref(), Some("x"));
    let linked = "#set document(description: [see https://a.b) \"here], title: \"x\")\n= Real\n";
    assert_eq!(title_in(linked).as_deref(), Some("x"));
    let formal = "#set document(description: [for $x in [0, 1)$ and `]`], title: \"x\")\n= Real\n";
    assert_eq!(title_in(formal).as_deref(), Some("x"));
    assert_eq!(title_in("#set document(title: [My \"x\" title])\n").as_deref(), Some("x"));
    assert_eq!(title_in("no title"), None);
    assert!(is_asset("a.PNG") && !is_asset("a.typ") && !is_asset("png"));
    assert!(hidden("/a/.git") && hidden("target") && !hidden("/a/b"));
    assert!(is_document("a.typ") && !is_document("a.annos.typ"));
    assert_eq!(age_of(Some(10_000_000_000), 25_500_000_000), 15);
    assert_eq!(age_of(Some(30_000_000_000), 25_000_000_000), 0);
    assert_eq!(age_of(None, 25), 0);
}

#[test]
fn a_sidecar_is_counted_without_reading_it() {
    assert_eq!(annotation_count(None), 0);
    assert_eq!(annotation_count(Some("// an entry: <anno.X>\n#x <anno.A> and <anno.B>\n")), 2);
    assert!(anyone_working("  status: \"ongoing\",\n"));
    assert!(!anyone_working("  // status: \"ongoing\",\n"));
    assert!(!anyone_working("status: \"created\""));
}

fn file(path: &str, text: &str) -> FoundFile {
    FoundFile { path: path.to_owned(), text: Some(text.to_owned()), sidecar: None, modified: Some(5_000_000_000) }
}

#[test]
fn a_directory_is_listed_in_order() {
    let files = vec![
        file("/d/b.typ", "= Bee\n"),
        file("/d/a.typ", "= Ay\n"),
        file("/d/lib.typ", "#let x = 1\n"),
        file("/d/a.annos.typ", "= No\n"),
        file("/d/z.png", ""),
        file("/d/c.md", ""),
        file("/d/.x.md", ""),
    ];
    let entries = entries_in(&files, true);
    let titles: Vec<&str> = entries.iter().map(|entry| entry.title.as_str()).collect();
    assert_eq!(titles, vec!["Ay", "Bee"]);
    assert_eq!(entries[0].slug, "a");
    assert_eq!(entries[0].file, "a.typ");
    let plain = entries_in(&files, false);
    assert_eq!(plain.len(), 3);
    assert_eq!(plain[2].title, "lib");
    let assets = assets_in(&files);
    let names: Vec<&str> = assets.iter().map(|asset| asset.file.as_str()).collect();
    assert_eq!(names, vec!["c.md", "z.png"]);
    let dirs = dirs_in(&vec![
        ("/d/z".to_owned(), true),
        ("/d/y".to_owned(), false),
        ("/d/a".to_owned(), true),
        ("/d/.git".to_owned(), true),
    ]);
    assert_eq!(dirs, strings(&["a", "z"]));
    let json = listing_json("Docs", "/d", &entries, &dirs, &assets, 8_000_000_000);
    assert!(json.contains("\"age\":3"), "{json}");
    assert!(json.starts_with('{') && json.contains("\"title\":\"Docs\""), "{json}");
    assert!(json.contains("\"dirs\":[\"a\",\"z\"]"), "{json}");
    assert_ne!(listing_key("/d", &entries), listing_key("/e", &entries));
}

#[test]
fn a_search_sees_what_is_not_hidden() {
    let scan = scan_dir(&vec![
        ("/d/.git".to_owned(), true),
        ("/d/sub".to_owned(), true),
        ("/d/a.annos.typ".to_owned(), false),
    ]);
    assert!(!scan.found);
    assert_eq!(scan.dirs, strings(&["/d/sub"]));
    assert!(scan_dir(&vec![("/d/a.typ".to_owned(), false)]).found);
}

#[test]
fn one_file_is_a_site_too() {
    let site = SingleSite { path: Some("/d/a.typ".to_owned()) };
    assert_eq!(site.sidecars(), strings(&["/d/a.annos.typ"]));
    assert!(matches!(site.locate("dev/x"), Located::Document { slug, tail } if slug.is_empty() && tail == "dev/x"));
    assert!(SingleSite { path: None }.sidecars().is_empty());
    let entry = doc_entry("/d/a.typ", true, Some("= A\n"), Some("<anno.X>"), None).unwrap();
    assert_eq!(entry.annotations, 1);
    assert!(doc_entry("/d/a.typ", true, None, None, None).is_none());
}

#[test]
fn a_body_is_written_once() {
    let mut cache = SiteCache::new("/site".to_owned());
    assert_eq!(cache.dir(), "/site");
    assert!(cache.body("/d/a.typ").is_none());
    let first = cache.wrote("/d/a.typ");
    assert_eq!(first.version, 1);
    assert_eq!(first.path, body_path("/site", "/d/a.typ"));
    assert_eq!(cache.wrote("/d/a.typ").version, 2);
    assert_eq!(cache.wrote("/d/b.typ").version, 1);
    assert_eq!(cache.body("/d/a.typ").unwrap().version, 2);
    assert!(cache.unchanged("/d/a.typ", "x", Some("x")).is_some());
    assert!(cache.unchanged("/d/a.typ", "x", Some("y")).is_none());
    assert_ne!(body_path("/site", "/d/a.typ"), body_path("/site", "/e/a.typ"));
    assert_eq!(site_dir_name(42), "talimist-site-42");
    assert!(is_stale_site("talimist-site-41", "talimist-site-42", Some(86401)));
    assert!(!is_stale_site("talimist-site-41", "talimist-site-42", Some(86400)));
    assert!(!is_stale_site("talimist-site-42", "talimist-site-42", Some(86401)));
    assert!(!is_stale_site("other", "talimist-site-42", Some(86401)));
}

fn note(server: &str) -> ServerNote {
    ServerNote {
        server: server.to_owned(),
        path: "/d".to_owned(),
        url: "http://127.0.0.1:24123".to_owned(),
        port: 24123,
        role: "serve".to_owned(),
        mcp: true,
        directory: true,
        pid: 1,
        ppid: 0,
        hosted: false,
        fork: false,
        started: String::new(),
    }
}

#[test]
fn a_server_has_a_short_name() {
    assert_eq!(slug_for("/home/me/HGXZ/docs"), "hgxz-docs");
    assert_eq!(slug_for("/home/me/My Paper.typ"), "me-my-paper");
    assert_eq!(slug_for("/"), "documents");
    assert_eq!(parent_of("/home/me/docs").as_deref(), Some("me"));
    assert_eq!(note_name(24123), "24123.json");
    let mut announced = Announced::new();
    assert_eq!(announced.my_port(), None);
    announced.announce(24123);
    assert_eq!(announced.my_port(), Some(24123));
    let sorted = sort_notes(vec![note("b"), note("a"), note("c")]);
    let names: Vec<&str> = sorted.iter().map(|note| note.server.as_str()).collect();
    assert_eq!(names, vec!["a", "b", "c"]);
}

#[test]
fn a_note_outlives_its_server() {
    assert_eq!(judge_note(true, true, Some(9999)), Verdict::Running);
    assert_eq!(judge_note(true, false, Some(9999)), Verdict::Gone);
    assert_eq!(judge_note(true, false, Some(5)), Verdict::Starting);
}

#[test]
fn an_answer_is_read() {
    let text = request_text(24123, "POST", "/m/", Some("{}"));
    assert!(text.starts_with("POST /m/ HTTP/1."), "{text}");
    assert!(text.ends_with("\r\n\r\n{}"), "{text}");
    assert!(text.contains("Content-Length: 2"), "{text}");
    assert!(matches!(read_answer("HTTP/1.1 200 OK\r\nA: b\r\n\r\nbody"), Answer::Body(body) if body == "body"));
    assert!(matches!(read_answer("HTTP/1.1 404 Not Found\r\n\r\n"), Answer::Refused));
    assert!(matches!(read_answer("nonsense"), Answer::Broken));
}

//! A document as a page, and what a server's endpoints answer.

use talimist::json::Json;
use talimist::preview::http::{decide_origin, UrlParts};
use talimist::preview::open::Browser;
use talimist::render::document::{body_for, finish_page, label_page, page_of, Compiled};
use talimist::render::html::{HtmlElement, HtmlNode};
use talimist::render::map::{Mapper, NodeKind, Place, SrcRange};
use talimist::serve::answers::{
    change_answer, connected_event, disconnected_event, document_answer, error_answer,
    events_answer, listed_event, no_such_change, pins_answer, relocate_answer, requested_event,
    unknown_answer,
};
use talimist::serve::clients::Client;
use talimist::serve::http::{ask, target_at, Found};
use talimist::serve::pins::HtmlPin;
use talimist::serve::report::{event_of, orphaned_event};
use talimist::serve::settings::Watchers;
use talimist::serve::site::{listing_json_of, AssetEntry, DocEntry, Located};
use talimist::serve::store::{
    keep_scribble, missing_annotation, Annotation, Location, NewPicture, NewScribble, Reply,
    Scribble,
};
use talimist::webapp::icons::IconRole;

fn paragraph(text: &str) -> HtmlElement {
    let place = Some(Place { file: 3, start: 0, end: text.len() });
    HtmlElement {
        tag: "p".to_owned(),
        attrs: vec![],
        place,
        children: vec![HtmlNode::Text(text.to_owned(), place)],
    }
}

#[test]
fn only_a_page_is_a_page() {
    assert_eq!(page_of(&Compiled::NotYet).unwrap_err(), "nothing compiled yet");
    assert_eq!(page_of(&Compiled::Failed).unwrap_err(), "no document");
    assert_eq!(
        page_of(&Compiled::Paged).unwrap_err(),
        "this document is not compiled for HTML; run with --format html"
    );
    assert_eq!(page_of(&Compiled::Page(paragraph("x"))).unwrap().tag, "p");
}

#[test]
fn a_rendering_is_named_after_itself() {
    let text = "Hello there.";
    let (page, mapper) = label_page(&paragraph(text), text, 3, vec![]);
    assert!(page.attrs.iter().any(|(name, _)| name == "data-uid"));
    let one = finish_page(mapper, "abc", text);
    assert_eq!(one.render, "ba7816bf8f01cfea");
    assert_eq!(one.files, vec![3]);
    let (_, mapper) = label_page(&paragraph(text), text, 3, vec![]);
    assert_eq!(finish_page(mapper, "abc", text).render, one.render);
    let (_, mapper) = label_page(&paragraph(text), text, 3, vec![]);
    assert_ne!(finish_page(mapper, "abd", text).render, one.render);
}

#[test]
fn what_was_written_is_given_first() {
    let page = "<html><head></head><body><p>x</p></body></html>";
    assert_eq!(body_for(Some(("held".to_owned(), 4)), Some(page)), ("held".to_owned(), 4));
    assert_eq!(body_for(None, Some(page)), ("<p>x</p>".to_owned(), 0));
    assert_eq!(body_for(None, None), (String::new(), 0));
}

#[test]
fn a_map_is_told_of_what_it_covers() {
    let mut map = Mapper::new(0, vec![7]);
    assert_eq!(map.document_file(), 0);
    assert_eq!(map.document_index(), 0);
    let at = |file: usize, start: usize, end: usize| Some(Place { file, start, end });
    assert_eq!(map.range_of(at(0, 2, 5)), Some(SrcRange { file: 0, start: 2, end: 5 }));
    assert_eq!(map.range_of(at(7, 2, 5)), None);
    assert_eq!(map.range_of(None), None);
    let uid = map.uid();
    map.node_at(&uid, NodeKind::Block, None);
    assert_eq!(map.range_at(&uid), None);
    map.cover(&uid, SrcRange { file: 0, start: 4, end: 9 });
    assert_eq!(map.range_at(&uid), Some(SrcRange { file: 0, start: 4, end: 9 }));
    let text = map.uid();
    assert_ne!(text, uid);
    map.text(&text, NodeKind::Text, "abc", at(0, 10, 13));
    map.add_text(&text, "de", at(0, 13, 15));
    let made = map.finish("r".to_owned(), "");
    let node = made.nodes.iter().find(|node| node.uid == text).unwrap();
    assert_eq!(node.segments.len(), 2);
    assert_eq!((node.segments[1].at, node.segments[1].len, node.segments[1].offset), (3, 2, 13));
}

#[test]
fn a_change_says_what_it_made() {
    let (status, said) = change_answer(&Ok("u1".to_owned()));
    assert_eq!(status, 200);
    assert_eq!(said.bool_at("ok"), Some(true));
    assert_eq!(said.text_at("uuid"), Some("u1"));
    let (status, said) = change_answer(&Err("no annotation u1".to_owned()));
    assert_eq!(status, 400);
    assert_eq!(said.bool_at("ok"), Some(false));
    assert_eq!(said.text_at("error"), Some("no annotation u1"));
    assert_eq!(error_answer("why").text_at("error"), Some("why"));
    assert_eq!(unknown_answer("/dev/html/x").text_at("error"), Some("unknown endpoint: /dev/html/x"));
    assert_eq!(no_such_change("/dev/annotate/x"), "no such endpoint: /dev/annotate/x");
    assert_eq!(missing_annotation("u9"), "no annotation u9");
}

fn items(value: Option<&Json>) -> usize {
    match value {
        Some(Json::List(list)) => list.len(),
        _ => panic!("not a list"),
    }
}

#[test]
fn places_that_are_gone_are_said_to_be() {
    let said = relocate_answer(Ok(vec![Some(Json::text("here")), None]));
    assert_eq!(said.bool_at("ok"), Some(true));
    match said.get("locations") {
        Some(Json::List(list)) => {
            assert!(matches!(&list[0], Json::Text(at) if at == "here"));
            assert!(matches!(&list[1], Json::Null));
        }
        other => panic!("{other:?}"),
    }
    assert_eq!(relocate_answer(Err("gone".to_owned())).text_at("error"), Some("gone"));
}

#[test]
fn what_happened_is_told_with_where_to_go_on() {
    let one = event_of("annotation_deleted", "uuid", "u1", "t");
    assert_eq!(one.text_at("type"), Some("annotation_deleted"));
    assert_eq!(one.text_at("uuid"), Some("u1"));
    assert_eq!(one.text_at("ts"), Some("t"));
    let said = events_answer(&vec![one], 41);
    assert_eq!(items(said.get("events")), 1);
    assert_eq!(said.number_at("cursor"), Some(41));
    let lost = orphaned_event("/a.typ", "GENERATED", "t");
    assert_eq!(lost.text_at("type"), Some("annotation_orphaned"));
    assert_eq!(lost.text_at("file"), Some("/a.typ"));
    assert_eq!(lost.text_at("said"), Some("GENERATED"));
}

#[test]
fn readers_come_and_go() {
    let reader = Client {
        id: 2,
        name: "ann".to_owned(),
        ip: "10.0.0.1".to_owned(),
        useragent: "Safari".to_owned(),
    };
    let came = connected_event(5, &reader, 3, "t");
    assert_eq!(came.text_at("type"), Some("client_connected"));
    assert_eq!(came.number_at("id"), Some(5));
    assert_eq!(came.text_at("name"), Some("ann"));
    assert_eq!(came.number_at("connected"), Some(3));
    let listed = listed_event("/docs", 4, "0.25", "t");
    assert_eq!(listed.text_at("type"), Some("listed"));
    assert_eq!(listed.text_at("path"), Some("/docs"));
    assert_eq!(listed.number_at("file_count"), Some(4));
    assert!(matches!(listed.get("elapsed"), Some(Json::Literal(s)) if s == "0.25"));
    let went = disconnected_event(5, 2, "t");
    assert_eq!(went.number_at("connected"), Some(2));
    let asked = requested_event("/a/", "10.0.0.1", None, "t");
    assert_eq!(asked.text_at("url"), Some("/a/"));
    assert!(matches!(asked.get("name"), Some(Json::Null)));
    let mut watchers = Watchers::new();
    assert_eq!(watchers.arrive(), (0, 1));
    assert_eq!(watchers.arrive(), (1, 2));
    assert_eq!(watchers.leave(), 1);
    assert_eq!(watchers.arrive(), (2, 2));
}

#[test]
fn a_document_is_answered_whole() {
    let page = "<html><head><title>Paper</title></head><body><p>x</p></body></html>".to_owned();
    let said = document_answer(&Some(Ok((page, "r1".to_owned(), Json::Null))));
    assert_eq!(said.bool_at("ok"), Some(true));
    assert_eq!(said.text_at("render"), Some("r1"));
    assert_eq!(said.text_at("title"), Some("Paper"));
    assert_eq!(said.text_at("body"), Some("<p>x</p>"));
    let failed = document_answer(&Some(Err("no document".to_owned())));
    assert_eq!(failed.bool_at("waiting"), Some(false));
    let early = document_answer(&None);
    assert_eq!(early.bool_at("waiting"), Some(true));
    assert_eq!(early.text_at("error"), Some("nothing compiled yet"));
}

#[test]
fn a_pin_leaves_out_what_is_not_known() {
    let pin = HtmlPin {
        kind: "question".to_owned(),
        uuid: "u1".to_owned(),
        letter: "g".to_owned(),
        author: "ann".to_owned(),
        content: "why?".to_owned(),
        time: "t1".to_owned(),
        claimed: true,
        resolved: false,
        mtime: "t2".to_owned(),
        discussion: vec![
            Reply {
                author: "bob".to_owned(),
                time: "t2".to_owned(),
                content: "because".to_owned(),
                scribble: None,
            },
            Reply {
                author: "bob".to_owned(),
                time: "t3".to_owned(),
                content: "see".to_owned(),
                scribble: Some(Scribble {
                    id: "s1".to_owned(),
                    capture: "c1".to_owned(),
                    shapes: vec!["{\"x\":1}".to_owned()],
                }),
            },
        ],
        color: "#abc".to_owned(),
        location: None,
        snapshot: Some("was here".to_owned()),
    };
    let said = pins_answer(&vec![pin]);
    let Some(Json::List(pins)) = said.get("pins") else { panic!("{said:?}") };
    assert_eq!(pins[0].text_at("type"), Some("question"));
    assert_eq!(pins[0].bool_at("claimed"), Some(true));
    assert_eq!(pins[0].text_at("snapshot"), Some("was here"));
    assert!(pins[0].get("location").is_none());
    let Some(Json::List(talk)) = pins[0].get("discussion") else { panic!("{said:?}") };
    assert!(talk[0].get("scribble").is_none());
    let drawn = talk[1].get("scribble").unwrap();
    assert_eq!(drawn.text_at("capture"), Some("c1"));
    assert_eq!(items(drawn.get("shapes")), 1);
}

#[test]
fn a_path_is_what_the_directory_says_it_is() {
    let raw = "/a/report/paper/dev/html/doc";
    let document = Some(Located::Document {
        slug: "report/paper".to_owned(),
        tail: "dev/html/doc".to_owned(),
    });
    let found = target_at(ask(raw, true), raw, &document);
    assert_eq!(found.role, Some(IconRole::Annotate));
    assert_eq!(found.slug, "report/paper");
    assert_eq!(found.path, "/dev/html/doc");
    assert_eq!(found.found, Found::Document);
    let missing = target_at(ask(raw, true), raw, &Some(Located::Missing));
    assert_eq!((missing.slug.as_str(), missing.path.as_str()), ("", ""));
    assert_eq!(missing.found, Found::Missing);
    let listed = target_at(ask("/a/", true), "/a/", &Some(Located::Listing("/docs".to_owned())));
    assert_eq!(listed.found, Found::Directory);
    let plain = target_at(ask("/icon/x.png", true), "/icon/x.png", &None);
    assert_eq!((plain.role, plain.path.as_str()), (None, "/icon/x.png"));
}

#[test]
fn a_browser_is_looked_for_where_it_lives() {
    let (places, literal) = Browser::Chrome.apps("/Users/ann");
    assert_eq!(
        places,
        vec![
            "/Users/ann/Applications/Google Chrome.app".to_owned(),
            "/Applications/Google Chrome.app".to_owned(),
        ]
    );
    assert!(!literal);
    assert!(Browser::Default.apps("/Users/ann").0.is_empty());
    let (named, literal) = Browser::parse("/opt/My.app").apps("/Users/ann");
    assert_eq!(named, vec!["/opt/My.app".to_owned()]);
    assert!(literal);
}

#[test]
fn an_origin_is_decided_by_its_parts() {
    let parts = |scheme: &str, host: &str, path: &str| UrlParts {
        scheme: scheme.to_owned(),
        host: Some(host.to_owned()),
        path: path.to_owned(),
        origin: format!("{scheme}://{host}"),
    };
    let decide = |sent: &str, parts: &UrlParts| {
        decide_origin(sent, parts, "127.0.0.1", 23700, &None, None, &vec![])
    };
    assert!(decide("http://localhost:8080", &parts("http", "localhost", "/")));
    assert!(!decide("http://localhost:8080/x", &parts("http", "localhost", "/x")));
    assert!(!decide("https://localhost", &parts("https", "localhost", "/")));
    assert!(decide("vscode-webview://abc", &parts("vscode-webview", "abc", "")));
    assert!(!decide("http://evil.example", &parts("http", "evil.example", "/")));
    assert!(decide_origin(
        "https://23700-ws.host",
        &parts("https", "23700-ws.host", "/"),
        "127.0.0.1",
        23700,
        &Some(("ws".to_owned(), "host".to_owned())),
        None,
        &vec![],
    ));
}

fn plain(uuid: &str) -> Annotation {
    Annotation {
        uuid: uuid.to_owned(),
        letter: "a".to_owned(),
        location: Location::document(),
        snapshot: None,
        kind: "comment".to_owned(),
        color: String::new(),
        author: "ann".to_owned(),
        time: "t".to_owned(),
        mtime: "t".to_owned(),
        claimed: false,
        resolved: false,
        content: "x".to_owned(),
        scribble: None,
        discussion: vec![],
        captures: vec![],
    }
}

fn drawn(fmt: &str, data: &str) -> NewScribble {
    NewScribble {
        id: "s1".to_owned(),
        shapes: vec![],
        picture: NewPicture { fmt: fmt.to_owned(), data: data.to_owned(), width: 10, height: 20 },
    }
}

#[test]
fn a_picture_is_kept_once() {
    let mut rec = plain("u1");
    let one = keep_scribble(&mut rec, drawn("svg", "<svg/>"), true, 1, "t1").unwrap();
    let two = keep_scribble(&mut rec, drawn("svg", "<svg/>"), true, 2, "t2").unwrap();
    assert_eq!(one.capture, two.capture);
    assert_eq!(rec.captures.len(), 1);
    assert!(!Location::document().graphical());
    let png = keep_scribble(&mut rec, drawn("png", "AQID"), true, 3, "t3").unwrap();
    assert_ne!(png.capture, one.capture);
    assert_eq!(rec.captures.len(), 2);
    assert!(keep_scribble(&mut rec, drawn("png", "?"), true, 4, "t").is_err());
    assert_eq!(
        keep_scribble(&mut rec, drawn("gif", ""), true, 4, "t").unwrap_err(),
        "a capture cannot be gif"
    );
    assert_eq!(
        keep_scribble(&mut rec, drawn("svg", "<svg/>"), false, 4, "t").unwrap_err(),
        "cannot store the capture"
    );
    assert_eq!(rec.captures.len(), 2);
}

#[test]
fn a_listing_says_where_it_is() {
    let entries = vec![DocEntry {
        slug: "paper".to_owned(),
        title: "A paper".to_owned(),
        file: "paper.typ".to_owned(),
        modified: Some(40_000_000_000),
        annotations: 2,
    }];
    let assets = vec![AssetEntry { file: "plot.png".to_owned(), modified: None }];
    let said = listing_json_of("Docs", "/docs/x", &entries, &vec!["sub".to_owned()], &assets, "x", 100_500_000_000);
    let value: serde_json::Value = serde_json::from_str(&said).unwrap();
    assert_eq!(value["ok"], true);
    assert_eq!(value["under"], "x");
    assert_eq!(value["docs"][0]["age"], 60);
    assert_eq!(value["docs"][0]["annotations"], 2);
    assert_eq!(value["dirs"][0], "sub");
    assert_eq!(value["files"][0]["file"], "plot.png");
    assert_eq!(value["files"][0]["age"], 0);
}

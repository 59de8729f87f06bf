//! The annotations of a served document, and what agents do with them.

use talimist::json::{Json, JsonObject};
use talimist::mcp::answers::{
    capture_drawing, compile_report, describe_record, excerpt, excerpt_of, get_block, get_capture,
    list_annotations, list_documents, list_only_document, pick_capture, replaced, wait_answer,
    wait_since,
};
use talimist::mcp::calls::{
    await_first, await_next, choose_document, identify, no_document, plan, Call, Patience,
};
use talimist::mcp::hub::{
    await_hub, did_not_come_up, find_serving, forward_body, forwarded, hub_list, hub_plan,
    hub_refusal, hub_route, hub_tools, launched, list_answer, no_path, no_such_path, pass_on,
    server_args, server_for, server_value, shellexpand, stopped, worked, Coming, Forwarded,
    HubCall, HubRoute,
};
use talimist::mcp::rpc::{
    answer as rpc_answer, batch, call_answer, greeting, read_request, tool_result, unknown, Asked,
};
use talimist::mcp::schema::{tool_list, tools};
use talimist::mcp::tools as agent;
use talimist::registry::ServerNote;
use talimist::preview::edit::preview_author;
use talimist::serve::page::{block_text, card, escape, failed_page, page};
use talimist::serve::report::{
    added_event, audit_report, describe, each_once, extended_event, generated_among,
    replaced_event, status_event, status_report, unrepeated, Failure, FileAnchors,
};
use talimist::serve::rewrite::{AnchorPolicy, SourceAnchor};
use talimist::serve::snippet::{answer as snippet_answer, known, scratch_name, Outcome, SnippetFormat};
use talimist::serve::store::{
    author_or_local, fresh_uuid, keep_picture, local_author, picture_bytes, AnnotateRequest,
    Annotation, Capture, Location, NewPicture, NewScribble, Sidecar,
};
use talimist::serve::upkeep::{left_over, without_anchors};

fn strings(list: &[&str]) -> Vec<String> {
    list.iter().map(|s| (*s).to_owned()).collect()
}

fn annotation(uuid: &str, letter: &str) -> Annotation {
    Annotation {
        uuid: uuid.to_owned(),
        letter: letter.to_owned(),
        location: Location { kind: "word".to_owned(), labels: strings(&["anno.A100"]) },
        snapshot: Some("the word".to_owned()),
        kind: "comment".to_owned(),
        color: "#4b2e83".to_owned(),
        author: "me".to_owned(),
        time: "t1".to_owned(),
        mtime: "t1".to_owned(),
        claimed: false,
        resolved: false,
        content: "what?".to_owned(),
        scribble: None,
        discussion: vec![],
        captures: vec![],
    }
}

fn sidecar() -> Sidecar {
    Sidecar { annotations: vec![annotation("u1", "a"), annotation("u2", "b")] }
}

fn asked(text: &str) -> AnnotateRequest {
    AnnotateRequest { text: text.to_owned(), kind: None, color: None, snapshot: None, author: None }
}

#[test]
fn an_annotation_is_added_and_removed() {
    let mut held = sidecar();
    let uuid = held
        .annotate(&asked("new"), None, Location::document(), false, true, "local", 7, "t2")
        .unwrap();
    assert_eq!(held.annotations.len(), 3);
    assert_eq!(held.annotations[2].uuid, uuid);
    assert_eq!(held.annotations[2].letter, "c");
    assert_eq!(held.annotations[2].author, "local");
    assert_eq!(held.annotations[2].content, "new");
    assert_eq!(held.position("u2"), Some(1));
    assert_eq!(held.remove("u1").unwrap(), Vec::<String>::new());
    assert_eq!(held.remove("u2").unwrap(), strings(&["anno.A100"]));
    assert_eq!(held.remove("u2").unwrap_err(), "no annotation u2");
    assert_eq!(held.annotations.len(), 1);
    assert_eq!(held.labels_in_use(), Vec::<String>::new());
}

#[test]
fn an_annotation_is_replied_to_and_settled() {
    let mut held = sidecar();
    assert_eq!(held.reply("u1", "done", "you", None, true, 1, "t2"), Ok(()));
    assert_eq!(held.annotations[0].discussion[0].content, "done");
    assert_eq!(held.annotations[0].mtime, "t2");
    assert_eq!(held.reply("u9", "done", "you", None, true, 1, "t2").unwrap_err(), "no annotation u9");
    assert_eq!(held.set_flags("u1", Some(true), None, "t3"), Ok((true, false)));
    assert!(held.annotations[0].claimed);
    let (_, resolved) = held.set_flags("u1", None, Some(true), "t4").unwrap();
    assert!(resolved);
    assert!(held.set_flags("u9", None, None, "t4").is_err());
    held.drop_labels(&strings(&["anno.A100"]));
    assert!(held.annotations[0].location.labels.is_empty());
}

fn picture() -> NewPicture {
    NewPicture { fmt: "png".to_owned(), data: "AAEC".to_owned(), width: 3, height: 4 }
}

#[test]
fn a_picture_is_decoded_and_kept_once() {
    assert_eq!(picture_bytes(&picture()).unwrap(), vec![0, 1, 2]);
    let mut bad = picture();
    bad.data = "!".to_owned();
    assert!(picture_bytes(&bad).unwrap_err().starts_with("the picture is not base64: "));
    let mut odd = picture();
    odd.fmt = "bmp".to_owned();
    assert_eq!(picture_bytes(&odd).unwrap_err(), "a capture cannot be bmp");
    let mut captures: Vec<Capture> = vec![];
    let first = keep_picture(&mut captures, "h1", &picture(), "new1", "t");
    assert_eq!(captures.len(), 1);
    let again = keep_picture(&mut captures, "h1", &picture(), "new2", "t");
    assert_eq!(captures.len(), 1);
    assert_eq!(first, again);
    keep_picture(&mut captures, "h2", &picture(), "new3", "t");
    assert_eq!(captures.len(), 2);
}

#[test]
fn a_drawing_over_a_picture_is_kept_with_it() {
    let mut held = sidecar();
    let scribble = NewScribble { id: "s1".to_owned(), shapes: strings(&["<b/>"]), picture: picture() };
    assert_eq!(
        held.reply("u1", "see", "you", Some(scribble), false, 1, "t2").unwrap_err(),
        "cannot store the capture"
    );
    assert!(held.annotations[0].discussion.is_empty());
    let scribble = NewScribble { id: "s1".to_owned(), shapes: strings(&["<b/>"]), picture: picture() };
    held.reply("u1", "see", "you", Some(scribble), true, 1, "t2").unwrap();
    assert_eq!(held.annotations[0].captures.len(), 1);
    let drawn = held.annotations[0].discussion[0].scribble.as_ref().unwrap();
    assert_eq!(drawn.shapes, strings(&["<b/>"]));
}

#[test]
fn a_name_stands_in_for_nobody() {
    assert_eq!(local_author(Some("env"), Some("user")), "env");
    assert_eq!(local_author(None, Some("user")), "user");
    assert_eq!(preview_author(Some("ann"), Some("bob")), "ann");
    assert_eq!(preview_author(Some(""), Some("bob")), "");
    assert_eq!(preview_author(None, Some("bob")), "bob");
    assert_eq!(preview_author(None, None), "user");
    assert_eq!(author_or_local(Some("you"), "me"), "you");
    assert_eq!(author_or_local(None, "me"), "me");
    let one = fresh_uuid("seed", 1);
    assert_eq!(one.len(), 16);
    assert_ne!(one, fresh_uuid("seed", 2));
    assert_eq!(one, fresh_uuid("seed", 1));
}

#[test]
fn anchors_nobody_needs_are_cut_out() {
    let text = "one<anno.A100.word> two<anno.B2.word>";
    let anchors = vec![
        SourceAnchor { name: "anno.A100".to_owned(), start: 3, end: 19 },
        SourceAnchor { name: "anno.B2".to_owned(), start: 23, end: 37 },
    ];
    assert_eq!(without_anchors(text, &anchors, &strings(&["anno.A100"])), "one two<anno.B2.word>");
    assert_eq!(left_over(&strings(&["a", "b"]), &strings(&["b"])), strings(&["a"]));
}

#[test]
fn what_went_wrong_is_said() {
    assert_eq!(
        describe(&Failure::NoSuchNode("n7".to_owned())),
        "the rendering has nothing called n7"
    );
    assert_eq!(
        describe(&Failure::WrongKind("n7".to_owned())),
        "n7 is not the kind of thing that can take that"
    );
    assert!(describe(&Failure::NoSource("n7".to_owned())).starts_with("n7 is not part of this document"));
    assert_eq!(
        describe(&Failure::Lost),
        "the text this pointed at has changed since the page was drawn"
    );
    assert!(describe(&Failure::Unwritable).starts_with("an anchor cannot be written there"));
    let files = strings(&["= A\n", "// GENERATED\n"]);
    assert_eq!(generated_among(&files, &vec![0]), None);
    assert_eq!(generated_among(&files, &vec![0, 1]), Some((1, "GENERATED".to_owned())));
    assert_eq!(unrepeated(strings(&["a", "a", "b", "a"])), strings(&["a", "b", "a"]));
    assert_eq!(each_once(&strings(&["a", "b", "a"])), strings(&["a", "b"]));
}

#[test]
fn events_say_what_happened() {
    let event = status_event("u1", true, false, "t");
    assert_eq!(event.text_at("uuid"), Some("u1"));
    assert_eq!(event.bool_at("claimed"), Some(true));
    assert_eq!(event.text_at("ts"), Some("t"));
    let said = extended_event("u1", "me", "x", "t");
    assert_eq!(said.text_at("type"), Some("discussion_extended"));
    assert_eq!(said.text_at("text"), Some("x"));
    let added = added_event(Json::text("v"), "t");
    assert_eq!(added.text_at("type"), Some("annotation_added"));
    assert_eq!(added.text_at("value"), Some("v"));
    let rewritten = replaced_event("u1", "/a.typ", &strings(&["x"]), "t");
    assert_eq!(rewritten.text_at("file"), Some("/a.typ"));
    assert!(matches!(rewritten.get("dropped"), Some(Json::List(items)) if items.len() == 1));
    let report = status_report("/d/a.typ", "= A\n", true, &vec![], Some("r1"), 3, 2, strings(&["/d/a.typ"]));
    assert_eq!(report.number_at("revision"), Some(3));
    let files = vec![FileAnchors { file: "/d/a.typ".to_owned(), anchors: strings(&["anno.A100", "anno.Z9"]) }];
    let audit = audit_report("/d/a.typ", &files, &sidecar());
    assert_eq!(audit.number_at("annotations"), Some(2));
    assert_eq!(audit.number_at("anchors"), Some(2));
    assert!(matches!(audit.get("unusedAnchors"), Some(Json::List(items)) if items.len() == 1));
    assert!(matches!(audit.get("missingAnchors"), Some(Json::List(items)) if items.is_empty()));
}

fn args(fields: &[(&str, &str)]) -> Json {
    let mut object = JsonObject::new();
    for (name, value) in fields {
        object.put(name, Json::text(value));
    }
    object.done()
}

#[test]
fn a_tool_is_read_from_what_it_is_told() {
    assert!(matches!(plan("list_documents", &args(&[])), Ok(Call::ListDocuments)));
    assert!(matches!(plan("claim", &args(&[("uuid", "a")])), Ok(Call::Claim { claimed: true, .. })));
    assert!(matches!(plan("release", &args(&[])), Ok(Call::Claim { claimed: false, .. })));
    assert!(matches!(plan("wait_for_annotations", &args(&[])), Ok(Call::Wait { cursor: None, timeout: 60 })));
    assert_eq!(plan("annotate", &args(&[])).unwrap_err(), "what should it say? pass text");
    assert_eq!(plan("replace_block", &args(&[])).unwrap_err(), "which annotation? pass uuid");
    assert_eq!(plan("replace_block", &args(&[("uuid", "a")])).unwrap_err(), "which block? pass blockId");
    let full = [("uuid", "a"), ("blockId", "b"), ("text", "c"), ("anchors", "drop")];
    assert!(matches!(plan("replace_block", &args(&full)), Ok(Call::ReplaceBlock { policy: AnchorPolicy::Drop, .. })));
    let odd = [("uuid", "a"), ("blockId", "b"), ("text", "c"), ("anchors", "lose")];
    assert_eq!(plan("replace_block", &args(&odd)).unwrap_err(), "unknown anchor policy: lose");
    assert_eq!(plan("fly", &args(&[])).unwrap_err(), "no such tool: fly");
    for tool in tools() {
        assert!(
            !matches!(plan(tool.name, &args(&full[..3])), Err(why) if why.starts_with("no such tool")),
            "{}",
            tool.name
        );
    }
}

#[test]
fn an_annotation_is_named_by_id_or_letter() {
    let held = sidecar();
    assert_eq!(identify(&held, Some("u2")).unwrap(), "u2");
    assert_eq!(identify(&held, Some(" B ")).unwrap(), "u2");
    assert_eq!(identify(&held, None).unwrap_err(), "which annotation? pass uuid");
    assert_eq!(identify(&held, Some("q")).unwrap_err(), "no annotation q");
    let twice = Sidecar { annotations: vec![annotation("u1", "a"), annotation("u2", "a")] };
    assert_eq!(identify(&twice, Some("a")).unwrap_err(), "a names 2 annotations; pass one of u1, u2");
    assert_eq!(choose_document(true, &vec![], None).unwrap_err(), "this server holds no documents");
    assert_eq!(choose_document(true, &strings(&["x", "y"]), None).unwrap_err(), "say which document: x, y");
    assert_eq!(choose_document(true, &strings(&["x"]), None).unwrap(), "x");
    assert_eq!(choose_document(false, &vec![], None).unwrap(), "");
    assert!(no_document(true, "x").contains("x"));
}

#[test]
fn an_agent_works_an_annotation_through() {
    let mut held = sidecar();
    let claimed = agent::claim(&mut held, Some("a"), true, "t2").unwrap();
    assert_eq!(claimed.events.len(), 1);
    assert!(held.annotations[0].claimed);
    agent::reply(&mut held, Some("u1"), "looking", None, "local", 1, "t3").unwrap();
    assert_eq!(held.annotations[0].discussion.len(), 1);
    assert_eq!(held.annotations[0].discussion[0].author, "local");
    let done = agent::resolve(&mut held, Some("u1"), Some("fixed"), Some("you"), "local", 2, "t4").unwrap();
    assert!(!done.events.is_empty());
    assert!(held.annotations[0].resolved);
    assert!(!held.annotations[0].claimed);
    assert_eq!(held.annotations[0].discussion.len(), 2);
    assert!(agent::annotate(&mut held, "overall", None, None, "local", 3, "t5").is_ok());
    assert_eq!(held.annotations.len(), 3);
    let (_, labels) = agent::delete(&mut held, Some("b"), "t6").unwrap();
    assert!(labels.is_empty());
    assert_eq!(held.annotations.len(), 2);
    assert_eq!(agent::claim(&mut held, Some("zz"), true, "t").unwrap_err(), "no annotation zz");
}

#[test]
fn lists_are_short_enough_to_choose_from() {
    assert_eq!(excerpt("  a\n b  "), "a b");
    let long = "x".repeat(200);
    assert!(excerpt(&long).chars().count() <= 161);
    assert_eq!(excerpt_of(None, Some("snap")).as_deref(), Some("snap"));
    assert_eq!(excerpt_of(Some("block"), Some("snap")).as_deref(), Some("block"));
    assert_eq!(excerpt_of(None, None), None);
    let described = describe_record(&args(&[("uuid", "u1")]), Some("ex"));
    assert_eq!(described.text_at("excerpt"), Some("ex"));
    let held = sidecar();
    let values = vec![args(&[("uuid", "u1")]), args(&[("uuid", "u2")])];
    let all = list_annotations("/d/a.typ", &held, &values, &vec![None, None], None, None);
    assert!(matches!(all.get("annotations"), Some(Json::List(items)) if items.len() == 2));
    let mine = list_annotations("/d/a.typ", &held, &values, &vec![None, None], Some("resolved"), None);
    assert!(matches!(mine.get("annotations"), Some(Json::List(items)) if items.is_empty()));
    assert!(matches!(list_documents(&vec![]).get("documents"), Some(Json::List(items)) if items.is_empty()));
    assert!(matches!(list_only_document("A").get("documents"), Some(Json::List(items)) if items.len() == 1));
}

#[test]
fn a_capture_is_picked_and_drawn() {
    let mut rec = annotation("u1", "a");
    assert!(pick_capture(&rec, None, 0).is_err());
    keep_picture(&mut rec.captures, "h1", &picture(), "c1", "t");
    keep_picture(&mut rec.captures, "h2", &picture(), "c2", "t");
    assert_eq!(pick_capture(&rec, None, 0), Ok(1));
    assert_eq!(pick_capture(&rec, None, 1), Ok(0));
    assert_eq!(pick_capture(&rec, Some("h1"), 0), Ok(0));
    assert_eq!(pick_capture(&rec, Some("h9"), 0).unwrap_err(), "u1 has no capture h9");
    assert_eq!(pick_capture(&rec, None, 2).unwrap_err(), "u1 has only 2 captures");
    assert_eq!(
        capture_drawing(&rec.captures[0], Some(vec![1]), true).unwrap_err(),
        "captures stored as png cannot be rendered yet"
    );
    let mut svg = rec.captures.remove(0);
    svg.fmt = "svg".to_owned();
    svg.markup = Some("<b/>".to_owned());
    assert_eq!(capture_drawing(&svg, Some(b"<svg></svg>".to_vec()), true).unwrap(), "<svg><b/></svg>");
    assert_eq!(capture_drawing(&svg, Some(b"<svg></svg>".to_vec()), false).unwrap(), "<svg></svg>");
    assert_eq!(capture_drawing(&svg, Some(vec![0xff]), true).unwrap_err(), "the capture is not text");
    assert!(capture_drawing(&svg, None, true).is_err());
    let shown = get_capture(&rec, 0, false, &[0, 1, 2]);
    assert_eq!(shown.get("image").and_then(|image| image.text_at("data")), Some("AAEC"));
    assert_eq!(shown.text_at("hash"), Some("h2"));
}

#[test]
fn a_block_that_is_not_there_is_explained() {
    let rec = annotation("u1", "a");
    let out = get_block(&rec, &Err("no anchor".to_owned()), &Json::Null);
    assert_eq!(out.text_at("about"), Some("a place that is gone"));
    assert!(out.text_at("note").unwrap().contains("is gone: no anchor. It"));
    assert_eq!(compile_report(None).bool_at("compiled"), Some(false));
    assert_eq!(compile_report(Some((false, strings(&["bad"])))).bool_at("ok"), Some(false));
    assert_eq!(replaced(&vec![], Json::Null, None).bool_at("ok"), Some(true));
    assert_eq!(wait_since(Some(4), 9), 4);
    assert_eq!(wait_since(None, 9), 9);
    assert_eq!(wait_answer(&vec![], 9).number_at("cursor"), Some(9));
}

#[test]
fn patience_runs_out() {
    assert!(matches!(await_first(1, 0), Patience::Done));
    assert!(matches!(await_first(0, 29_999), Patience::Again));
    assert!(matches!(await_first(0, 30_001), Patience::Over));
    assert!(matches!(await_next(4, 5, 0), Patience::Done));
    assert!(matches!(await_next(4, 4, 0), Patience::Again));
    assert!(matches!(await_next(4, 4, 10_001), Patience::Over));
}

#[test]
fn a_request_is_answered_once() {
    let mut call = JsonObject::new();
    call.put("id", Json::Number(7));
    call.put("method", Json::text("tools/list"));
    let (id, what) = read_request(&call.done()).unwrap();
    assert!(matches!(id, Json::Number(7)));
    assert!(matches!(what, Asked::List));
    let mut note = JsonObject::new();
    note.put("method", Json::text("notifications/initialized"));
    assert!(read_request(&note.done()).is_none());
    let answered = rpc_answer(Json::Number(7), Json::text("x"));
    assert_eq!(answered.text_at("jsonrpc"), Some("2.0"));
    assert_eq!(answered.text_at("result"), Some("x"));
    let refused = unknown(Json::Number(7), "fly");
    assert_eq!(refused.get("error").and_then(|e| e.get("code")).is_some(), true);
    assert_eq!(greeting("1.0", "hi").text_at("instructions"), Some("hi"));
    assert_eq!(tool_result(&Json::text("x"), true).bool_at("isError"), Some(true));
    let failed = call_answer(Json::Number(7), Err("no".to_owned()));
    assert_eq!(failed.get("result").and_then(|r| r.bool_at("isError")), Some(true));
    assert!(batch(vec![None, None]).is_none());
    assert!(matches!(batch(vec![Some(Json::Null), None]), Some(Json::List(items)) if items.len() == 1));
    assert!(matches!(tool_list().get("tools"), Some(Json::List(items)) if items.len() == tools().len()));
}

fn note(server: &str, path: &str) -> ServerNote {
    ServerNote {
        server: server.to_owned(),
        path: path.to_owned(),
        url: "http://127.0.0.1:24123".to_owned(),
        port: 24123,
        role: "serve".to_owned(),
        mcp: true,
        directory: true,
        pid: 1,
        ppid: 0,
        hosted: false,
        fork: false,
        started: String::new(),
    }
}

#[test]
fn a_hub_finds_the_server_that_is_meant() {
    let notes = vec![note("a-docs", "/a"), note("b-docs", "/b")];
    assert_eq!(server_for(&notes, Some("b-docs")), Ok(1));
    assert_eq!(server_for(&notes, None).unwrap_err(), "say which server: a-docs, b-docs");
    assert_eq!(server_for(&notes, Some("zz")).unwrap_err(), "no server called zz; there is a-docs, b-docs");
    assert_eq!(server_for(&vec![], None).unwrap_err(), "no document server is running; launch_server starts one");
    assert_eq!(server_for(&notes[..1].iter().map(|n| note(&n.server, &n.path)).collect(), None), Ok(0));
    assert_eq!(find_serving(&notes, "/b"), Some(1));
    assert_eq!(find_serving(&notes, "//b/./"), Some(1));
    assert_eq!(find_serving(&notes, "b"), None);
    assert_eq!(find_serving(&notes, "/c"), None);
    assert!(matches!(hub_plan("list_servers", &args(&[])), HubCall::List));
    assert!(matches!(hub_plan("launch_server", &args(&[("path", "/a")])), HubCall::Launch(Some(_), false)));
    assert!(matches!(hub_plan("kill_server", &args(&[])), HubCall::Kill));
    assert!(matches!(hub_plan("claim", &args(&[])), HubCall::Forward));
    assert_eq!(shellexpand("~/x", Some("/home/me")), "/home/me/x");
    assert_eq!(shellexpand("/x", Some("/home/me")), "/x");
    assert!(server_args("/a", true).iter().any(|arg| arg == "/a"));
    assert!(did_not_come_up("/a").contains("/a"));
}

#[test]
fn a_hub_hands_calls_on() {
    assert_eq!(hub_tools().len(), 3);
    let body = forward_body("claim", &args(&[("uuid", "a"), ("server", "x")]));
    assert!(body.contains("\"name\":\"claim\""), "{body}");
    assert!(body.contains("\"uuid\":\"a\""), "{body}");
    assert!(body.contains("\"method\":\"tools/call\""), "{body}");
    let taken = forwarded(&tools()[0].written());
    assert!(taken.get("inputSchema").and_then(|s| s.get("properties")).and_then(|p| p.get("server")).is_some());
    assert!(matches!(hub_list(None).get("tools"), Some(Json::List(_))));
    assert_eq!(pass_on(&note("a", "/a"), &Forwarded::Silent).bool_at("isError"), Some(true));
    assert!(worked(&tool_result(&Json::text("x"), false)));
    assert!(!worked(&tool_result(&Json::text("x"), true)));
    assert!(matches!(launched(&note("a", "/a"), true), Json::Object(_)));
    assert!(matches!(stopped(&note("a", "/a"), true), Json::Object(_)));
    assert!(matches!(no_path(), Json::Object(_)));
    assert!(matches!(no_such_path("/a"), Json::Object(_)));
    let mut list = talimist::json::JsonList::new();
    list.push(server_value(&note("a", "/a"), None));
    assert!(matches!(list_answer(list), Json::Object(_)));
    assert!(matches!(await_hub(true, false, 0), Coming::Up));
    assert!(matches!(await_hub(false, true, 0), Coming::Exited));
    assert!(matches!(await_hub(false, false, 0), Coming::Again));
    assert!(matches!(await_hub(false, false, 1_000_000), Coming::Over));
    assert!(matches!(hub_route(true, "/m/"), HubRoute::Tools));
    assert!(matches!(hub_route(false, "/m/"), HubRoute::PostOnly));
    assert!(matches!(hub_route(false, "/api/build"), HubRoute::Build));
    assert!(matches!(hub_route(false, "/dev/build"), HubRoute::Missing));
    assert!(matches!(hub_route(false, "/x"), HubRoute::Missing));
    assert_eq!(hub_refusal(HubRoute::Missing).map(|(code, _)| code), Some(404));
    assert_eq!(hub_refusal(HubRoute::PostOnly).map(|(code, _)| code), Some(405));
    assert_eq!(hub_refusal(HubRoute::Tools), None);
}

#[test]
fn a_page_shows_the_sidecar() {
    assert_eq!(escape("<a & \"b\">"), "&lt;a &amp; &quot;b&quot;&gt;");
    let shown = card(&annotation("u1", "a"), &Err("no <block>".to_owned()), "");
    assert!(shown.contains("what?"), "{shown}");
    assert!(shown.contains("no &lt;block&gt;"), "{shown}");
    let mut pictured = annotation("u1", "a");
    pictured.captures.push(Capture {
        id: String::new(),
        time: "t".to_owned(),
        fmt: "svg".to_owned(),
        hash: "abc1".to_owned(),
        width: 3,
        height: 4,
        markup: None,
    });
    let shown = card(&pictured, &Err("no block".to_owned()), "");
    assert!(shown.contains("<img src=\"/dev/capture/abc1.svg\""), "{shown}");
    assert_eq!(
        block_text("id", "a\n<b>"),
        "<div class=\"src\"><pre><span class=\"ln\">a\n</span><span class=\"ln\">&lt;b&gt;\n</span></pre></div>"
    );
    let long = "x\n".repeat(12);
    assert!(block_text("id", &long).contains("⋯ 2 more lines"));
    let blocks = vec![Err("x".to_owned()), Err("y".to_owned())];
    let shell = "<title>${title}</title><i>${path}</i>${entries}";
    let whole = page(shell, "A & B", "/d/a.typ", &sidecar(), &blocks, "");
    assert!(whole.starts_with("<title>A &amp; B</title><i>/d/a.typ</i>"), "{whole}");
    assert!(whole.contains("what?"), "{whole}");
    let empty = Sidecar { annotations: vec![] };
    assert_eq!(
        page(shell, "A", "/d", &empty, &vec![], ""),
        "<title>A</title><i>/d</i><p class=\"none\">no annotations</p>"
    );
    assert_eq!(
        failed_page(shell, "A", "/d", "<gone>"),
        "<title>A</title><i>/d</i><p class=\"none\">&lt;gone&gt;</p>"
    );
}

#[test]
fn a_snippet_is_rendered() {
    assert!(matches!(known("png"), Ok(SnippetFormat::Png)));
    assert!(matches!(known("svg"), Ok(SnippetFormat::Svg)));
    assert!(known("bmp").is_err());
    assert_eq!(SnippetFormat::Html.name(), "html");
    assert_ne!(scratch_name(1, 2), scratch_name(1, 3));
    let out = snippet_answer(SnippetFormat::Png, &vec![], &Outcome::Picture(vec![0, 1, 2], 3, 4));
    assert_eq!(out.get("image").and_then(|image| image.text_at("data")), Some("AAEC"));
    let failed = snippet_answer(SnippetFormat::Png, &strings(&["bad"]), &Outcome::Failed);
    assert!(failed.get("image").is_none());
}

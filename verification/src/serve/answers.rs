//! What the endpoints of a document server answer its pages with.

use vstd::prelude::*;
use vstd::string::*;

use crate::json::{json_v, opt_text_v, text_or_null, Json, JsonList, JsonObject, JsonV};
use crate::mcp::tools::told;
use crate::render::markup::{element_text, fragment, page_body};
use crate::serve::clients::Client;
use crate::serve::pins::{HtmlPin, PinV};
use crate::serve::report::event_v;
use crate::serve::store::{Reply, ReplyV, Scribble, ScribbleV};
use crate::text::{opt_str, texts};

verus! {

// ------------------------------------------------------------- outcomes

/// What a change to the annotations is answered with: whether it was made, and the name of
/// what it made, or why not.
pub open spec fn change_v(outcome: Result<Seq<char>, Seq<char>>) -> (u16, JsonV) {
    match outcome {
        Ok(uuid) => (
            200,
            JsonV::Object(seq![("ok"@, JsonV::Bool(true)), ("uuid"@, JsonV::Text(uuid))]),
        ),
        Err(why) => (
            400,
            JsonV::Object(seq![("ok"@, JsonV::Bool(false)), ("error"@, JsonV::Text(why))]),
        ),
    }
}

/// What a change to the annotations is answered with.
pub fn change_answer(outcome: &Result<String, String>) -> (r: (u16, Json))
    ensures
        (r.0, json_v(r.1)) == change_v(
            match *outcome {
                Ok(uuid) => Ok(uuid@),
                Err(why) => Err(why@),
            },
        ),
{
    let mut out: JsonObject = JsonObject::new();
    match outcome {
        Ok(uuid) => {
            out.put("ok", Json::Bool(true));
            out.put("uuid", Json::text(uuid.as_str()));
            assert(out@ =~= change_v(Ok(uuid@)).1->Object_0);
            (200, out.done())
        },
        Err(why) => {
            out.put("ok", Json::Bool(false));
            out.put("error", Json::text(why.as_str()));
            assert(out@ =~= change_v(Err(why@)).1->Object_0);
            (400, out.done())
        },
    }
}

/// What is said where something did not work.
pub open spec fn error_v(why: Seq<char>) -> JsonV {
    JsonV::Object(seq![("ok"@, JsonV::Bool(false)), ("error"@, JsonV::Text(why))])
}

/// What is said where something did not work.
pub fn error_answer(why: &str) -> (r: Json)
    ensures
        json_v(r) == error_v(why@),
{
    let mut out: JsonObject = JsonObject::new();
    out.put("ok", Json::Bool(false));
    out.put("error", Json::text(why));
    assert(out@ =~= error_v(why@)->Object_0);
    out.done()
}

/// What an endpoint that is not there is answered with.
pub fn unknown_answer(path: &str) -> (r: Json)
    ensures
        json_v(r) == error_v("unknown endpoint: "@ + path@),
{
    let mut why: String = "unknown endpoint: ".to_string();
    why.append(path);
    error_answer(why.as_str())
}

/// What is said of a change that is not one.
pub fn no_such_change(path: &str) -> (r: String)
    ensures
        r@ == "no such endpoint: "@ + path@,
{
    let mut why: String = "no such endpoint: ".to_string();
    why.append(path);
    why
}

// ---------------------------------------------------------------- places

/// Places, or nothing for those that are gone.
pub open spec fn places_v(list: Seq<Option<Json>>) -> Seq<JsonV> {
    list.map_values(
        |at: Option<Json>|
            match at {
                Some(at) => json_v(at),
                None => JsonV::Null,
            },
    )
}

/// What asking where places went is answered with: each place in what the page is showing
/// now, or nothing.
pub fn relocate_answer(asked: Result<Vec<Option<Json>>, String>) -> (r: Json)
    ensures
        json_v(r) == match asked {
            Ok(list) => JsonV::Object(
                seq![("ok"@, JsonV::Bool(true)), ("locations"@, JsonV::List(places_v(list@)))],
            ),
            Err(why) => error_v(why@),
        },
{
    match asked {
        Ok(places) => {
            let ghost all = places_v(places@);
            let mut list: JsonList = JsonList::new();
            let mut i: usize = 0;
            while i < places.len()
                invariant
                    i <= places@.len(),
                    all == places_v(places@),
                    list@ == all.take(i as int),
                decreases places@.len() - i,
            {
                match &places[i] {
                    Some(at) => {
                        list.push(at.copy());
                    },
                    None => {
                        list.push(Json::Null);
                    },
                }
                assert(list@ =~= all.take(i + 1));
                i = i + 1;
            }
            assert(all.take(i as int) =~= all);
            let mut out: JsonObject = JsonObject::new();
            out.put("ok", Json::Bool(true));
            out.put("locations", list.done());
            assert(out@ =~= seq![("ok"@, JsonV::Bool(true)), ("locations"@, JsonV::List(all))]);
            out.done()
        },
        Err(why) => error_answer(why.as_str()),
    }
}

// ---------------------------------------------------------------- events

/// What happened since, and where to go on from.
pub fn events_answer(events: &Vec<Json>, cursor: u64) -> (r: Json)
    ensures
        json_v(r) == JsonV::Object(
            seq![
                ("ok"@, JsonV::Bool(true)),
                ("events"@, JsonV::List(told(events@))),
                ("cursor"@, JsonV::Number(cursor as int)),
            ],
        ),
{
    let ghost all = told(events@);
    let mut list: JsonList = JsonList::new();
    let mut i: usize = 0;
    while i < events.len()
        invariant
            i <= events@.len(),
            all == told(events@),
            list@ == all.take(i as int),
        decreases events@.len() - i,
    {
        list.push(events[i].copy());
        assert(list@ =~= all.take(i + 1));
        i = i + 1;
    }
    assert(all.take(i as int) =~= all);
    let mut out: JsonObject = JsonObject::new();
    out.put("ok", Json::Bool(true));
    out.put("events", list.done());
    out.put("cursor", Json::Number(cursor));
    assert(out@ =~= seq![
        ("ok"@, JsonV::Bool(true)),
        ("events"@, JsonV::List(all)),
        ("cursor"@, JsonV::Number(cursor as int)),
    ]);
    out.done()
}

/// What is said of a caller on first sight; every line after that names the number alone.
pub fn identified_event(client: &Client, now: &str) -> (r: Json)
    ensures
        json_v(r) == event_v(
            "client_identified"@,
            seq![
                ("client_id"@, JsonV::Number(client.id as int)),
                ("name"@, JsonV::Text(client.name@)),
                ("ip"@, JsonV::Text(client.ip@)),
                ("useragent"@, JsonV::Text(client.useragent@)),
            ],
            now@,
        ),
{
    let mut out: JsonObject = JsonObject::new();
    out.put("type", Json::text("client_identified"));
    out.put("client_id", Json::count(client.id));
    out.put("name", Json::text(client.name.as_str()));
    out.put("ip", Json::text(client.ip.as_str()));
    out.put("useragent", Json::text(client.useragent.as_str()));
    out.put("ts", Json::text(now));
    assert(out@ =~= event_v(
        "client_identified"@,
        seq![
            ("client_id"@, JsonV::Number(client.id as int)),
            ("name"@, JsonV::Text(client.name@)),
            ("ip"@, JsonV::Text(client.ip@)),
            ("useragent"@, JsonV::Text(client.useragent@)),
        ],
        now@,
    )->Object_0);
    out.done()
}

/// What is said when a directory was listed and looks different than the last time: which,
/// how many documents there are in it, and how many seconds listing them took, as they are
/// written.
pub fn listed_event(path: &str, file_count: usize, elapsed: &str, now: &str) -> (r: Json)
    ensures
        json_v(r) == event_v(
            "listed"@,
            seq![
                ("path"@, JsonV::Text(path@)),
                ("file_count"@, JsonV::Number(file_count as int)),
                ("elapsed"@, JsonV::Literal(elapsed@)),
            ],
            now@,
        ),
{
    let mut out: JsonObject = JsonObject::new();
    out.put("type", Json::text("listed"));
    out.put("path", Json::text(path));
    out.put("file_count", Json::count(file_count));
    out.put("elapsed", Json::Literal(elapsed.to_string()));
    out.put("ts", Json::text(now));
    assert(out@ =~= event_v(
        "listed"@,
        seq![
            ("path"@, JsonV::Text(path@)),
            ("file_count"@, JsonV::Number(file_count as int)),
            ("elapsed"@, JsonV::Literal(elapsed@)),
        ],
        now@,
    )->Object_0);
    out.done()
}

/// What is said when a page opens its stream: which it is, who is reading it and from where,
/// and how many there are.
pub fn connected_event(id: usize, client: &Client, connected: usize, now: &str) -> (r: Json)
    ensures
        json_v(r) == event_v(
            "client_connected"@,
            seq![
                ("id"@, JsonV::Number(id as int)),
                ("name"@, JsonV::Text(client.name@)),
                ("useragent"@, JsonV::Text(client.useragent@)),
                ("ip"@, JsonV::Text(client.ip@)),
                ("connected"@, JsonV::Number(connected as int)),
            ],
            now@,
        ),
{
    let mut out: JsonObject = JsonObject::new();
    out.put("type", Json::text("client_connected"));
    out.put("id", Json::count(id));
    out.put("name", Json::text(client.name.as_str()));
    out.put("useragent", Json::text(client.useragent.as_str()));
    out.put("ip", Json::text(client.ip.as_str()));
    out.put("connected", Json::count(connected));
    out.put("ts", Json::text(now));
    assert(out@ =~= event_v(
        "client_connected"@,
        seq![
            ("id"@, JsonV::Number(id as int)),
            ("name"@, JsonV::Text(client.name@)),
            ("useragent"@, JsonV::Text(client.useragent@)),
            ("ip"@, JsonV::Text(client.ip@)),
            ("connected"@, JsonV::Number(connected as int)),
        ],
        now@,
    )->Object_0);
    out.done()
}

/// What is said when a page closes its stream.
pub fn disconnected_event(id: usize, connected: usize, now: &str) -> (r: Json)
    ensures
        json_v(r) == event_v(
            "client_disconnected"@,
            seq![
                ("id"@, JsonV::Number(id as int)),
                ("connected"@, JsonV::Number(connected as int)),
            ],
            now@,
        ),
{
    let mut out: JsonObject = JsonObject::new();
    out.put("type", Json::text("client_disconnected"));
    out.put("id", Json::count(id));
    out.put("connected", Json::count(connected));
    out.put("ts", Json::text(now));
    assert(out@ =~= event_v(
        "client_disconnected"@,
        seq![
            ("id"@, JsonV::Number(id as int)),
            ("connected"@, JsonV::Number(connected as int)),
        ],
        now@,
    )->Object_0);
    out.done()
}

/// What is said when a page is asked for. It carries no number: a number is for a page that
/// can be counted, and this one may never open its stream.
pub fn requested_event(url: &str, ip: &str, name: Option<&str>, now: &str) -> (r: Json)
    ensures
        json_v(r) == event_v(
            "client_requested"@,
            seq![
                ("url"@, JsonV::Text(url@)),
                ("ip"@, JsonV::Text(ip@)),
                ("name"@, opt_text_v(opt_str(name))),
            ],
            now@,
        ),
{
    let mut out: JsonObject = JsonObject::new();
    out.put("type", Json::text("client_requested"));
    out.put("url", Json::text(url));
    out.put("ip", Json::text(ip));
    out.put("name", text_or_null(name));
    out.put("ts", Json::text(now));
    assert(out@ =~= event_v(
        "client_requested"@,
        seq![
            ("url"@, JsonV::Text(url@)),
            ("ip"@, JsonV::Text(ip@)),
            ("name"@, opt_text_v(opt_str(name))),
        ],
        now@,
    )->Object_0);
    out.done()
}

// -------------------------------------------------------------- the page

/// What asking for a document is answered with: its rendering and its map together, so that
/// no page pairs a body with the map of another compile; or why there is none, and whether
/// there will be.
pub open spec fn document_v(
    rendering: Option<Result<(Seq<char>, Seq<char>, JsonV), Seq<char>>>,
) -> JsonV {
    match rendering {
        Some(Ok((html, render, map))) => JsonV::Object(
            seq![
                ("ok"@, JsonV::Bool(true)),
                ("render"@, JsonV::Text(render)),
                (
                    "title"@,
                    JsonV::Text(
                        match element_text(html, "<title"@, "</title>"@) {
                            Some(title) => title,
                            None => seq![],
                        },
                    ),
                ),
                ("body"@, JsonV::Text(page_body(html))),
                ("map"@, map),
            ],
        ),
        Some(Err(why)) => JsonV::Object(
            seq![
                ("ok"@, JsonV::Bool(false)),
                ("waiting"@, JsonV::Bool(false)),
                ("error"@, JsonV::Text(why)),
            ],
        ),
        None => JsonV::Object(
            seq![
                ("ok"@, JsonV::Bool(false)),
                ("waiting"@, JsonV::Bool(true)),
                ("error"@, JsonV::Text("nothing compiled yet"@)),
            ],
        ),
    }
}

/// What asking for a document is answered with. `rendering` is its page, what the rendering
/// is called, and its map; nothing before the first compile.
pub fn document_answer(rendering: &Option<Result<(String, String, Json), String>>) -> (r: Json)
    ensures
        json_v(r) == document_v(
            match *rendering {
                Some(Ok(page)) => Some(Ok((page.0@, page.1@, json_v(page.2)))),
                Some(Err(why)) => Some(Err(why@)),
                None => None,
            },
        ),
{
    let mut out: JsonObject = JsonObject::new();
    match rendering {
        Some(Ok(page)) => {
            let part = fragment(page.0.as_str());
            out.put("ok", Json::Bool(true));
            out.put("render", Json::text(page.1.as_str()));
            out.put("title", Json::text(part.title.as_str()));
            out.put("body", Json::text(part.body.as_str()));
            out.put("map", page.2.copy());
            assert(out@ =~= document_v(
                Some(Ok((page.0@, page.1@, json_v(page.2)))),
            )->Object_0);
        },
        Some(Err(why)) => {
            out.put("ok", Json::Bool(false));
            out.put("waiting", Json::Bool(false));
            out.put("error", Json::text(why.as_str()));
            assert(out@ =~= document_v(Some(Err(why@)))->Object_0);
        },
        None => {
            out.put("ok", Json::Bool(false));
            out.put("waiting", Json::Bool(true));
            out.put("error", Json::text("nothing compiled yet"));
            assert(out@ =~= document_v(None)->Object_0);
        },
    }
    out.done()
}

// ------------------------------------------------------------------ pins

/// Some values that are kept as they are written.
pub open spec fn literals_v(list: Seq<Seq<char>>) -> Seq<JsonV> {
    list.map_values(|text: Seq<char>| JsonV::Literal(text))
}

/// A drawing as a page reads it.
pub open spec fn scribble_json(s: ScribbleV) -> JsonV {
    JsonV::Object(
        seq![
            ("id"@, JsonV::Text(s.id)),
            ("capture"@, JsonV::Text(s.capture)),
            ("shapes"@, JsonV::List(literals_v(s.shapes))),
        ],
    )
}

/// A drawing as a page reads it.
fn write_scribble(s: &Scribble) -> (r: Json)
    ensures
        json_v(r) == scribble_json(s@),
{
    let ghost all = literals_v(texts(s.shapes@));
    let mut list: JsonList = JsonList::new();
    let mut i: usize = 0;
    while i < s.shapes.len()
        invariant
            i <= s.shapes@.len(),
            all == literals_v(texts(s.shapes@)),
            list@ == all.take(i as int),
        decreases s.shapes@.len() - i,
    {
        list.push(Json::Literal(s.shapes[i].clone()));
        assert(list@ =~= all.take(i + 1));
        i = i + 1;
    }
    assert(all.take(i as int) =~= all);
    let mut out: JsonObject = JsonObject::new();
    out.put("id", Json::text(s.id.as_str()));
    out.put("capture", Json::text(s.capture.as_str()));
    out.put("shapes", list.done());
    assert(out@ =~= scribble_json(s@)->Object_0);
    out.done()
}

/// A reply as a page reads it.
pub open spec fn reply_json(a: ReplyV) -> JsonV {
    JsonV::Object(
        seq![
            ("author"@, JsonV::Text(a.author)),
            ("time"@, JsonV::Text(a.time)),
            ("content"@, JsonV::Text(a.content)),
        ] + match a.scribble {
            Some(s) => seq![("scribble"@, scribble_json(s))],
            None => seq![],
        },
    )
}

/// A reply as a page reads it.
fn write_reply(a: &Reply) -> (r: Json)
    ensures
        json_v(r) == reply_json(a@),
{
    let mut out: JsonObject = JsonObject::new();
    out.put("author", Json::text(a.author.as_str()));
    out.put("time", Json::text(a.time.as_str()));
    out.put("content", Json::text(a.content.as_str()));
    match &a.scribble {
        Some(s) => {
            out.put("scribble", write_scribble(s));
        },
        None => {},
    }
    assert(out@ =~= reply_json(a@)->Object_0);
    out.done()
}

/// The replies of a discussion as a page reads them.
pub open spec fn replies_json(list: Seq<ReplyV>) -> Seq<JsonV> {
    list.map_values(|a: ReplyV| reply_json(a))
}

/// An annotation as a page reads it: where to draw it and what was there are left out where
/// they are not known.
pub open spec fn pin_json(p: PinV) -> JsonV {
    JsonV::Object(
        seq![
            ("type"@, JsonV::Text(p.kind)),
            ("uuid"@, JsonV::Text(p.uuid)),
            ("letter"@, JsonV::Text(p.letter)),
            ("author"@, JsonV::Text(p.author)),
            ("content"@, JsonV::Text(p.content)),
            ("time"@, JsonV::Text(p.time)),
            ("claimed"@, JsonV::Bool(p.claimed)),
            ("resolved"@, JsonV::Bool(p.resolved)),
            ("mtime"@, JsonV::Text(p.mtime)),
            ("discussion"@, JsonV::List(replies_json(p.discussion))),
            ("color"@, JsonV::Text(p.color)),
        ] + match p.location {
            Some(at) => seq![("location"@, at)],
            None => seq![],
        } + match p.snapshot {
            Some(text) => seq![("snapshot"@, JsonV::Text(text))],
            None => seq![],
        },
    )
}

/// An annotation as a page reads it.
fn write_pin(p: &HtmlPin) -> (r: Json)
    ensures
        json_v(r) == pin_json(p@),
{
    let ghost all = replies_json(p@.discussion);
    let mut list: JsonList = JsonList::new();
    let mut i: usize = 0;
    while i < p.discussion.len()
        invariant
            i <= p.discussion@.len(),
            p@.discussion.len() == p.discussion@.len(),
            forall|k: int| 0 <= k < p.discussion@.len() ==> p@.discussion[k] == (
            #[trigger] p.discussion@[k])@,
            all == replies_json(p@.discussion),
            list@ == all.take(i as int),
        decreases p.discussion@.len() - i,
    {
        list.push(write_reply(&p.discussion[i]));
        assert(all[i as int] == reply_json(p.discussion@[i as int]@));
        assert(list@ =~= all.take(i + 1));
        i = i + 1;
    }
    assert(all.take(i as int) =~= all);
    let mut out: JsonObject = JsonObject::new();
    out.put("type", Json::text(p.kind.as_str()));
    out.put("uuid", Json::text(p.uuid.as_str()));
    out.put("letter", Json::text(p.letter.as_str()));
    out.put("author", Json::text(p.author.as_str()));
    out.put("content", Json::text(p.content.as_str()));
    out.put("time", Json::text(p.time.as_str()));
    out.put("claimed", Json::Bool(p.claimed));
    out.put("resolved", Json::Bool(p.resolved));
    out.put("mtime", Json::text(p.mtime.as_str()));
    out.put("discussion", list.done());
    out.put("color", Json::text(p.color.as_str()));
    match &p.location {
        Some(at) => {
            out.put("location", at.copy());
        },
        None => {},
    }
    match &p.snapshot {
        Some(text) => {
            out.put("snapshot", Json::text(text.as_str()));
        },
        None => {},
    }
    assert(out@ =~= pin_json(p@)->Object_0);
    out.done()
}

/// The annotations as a page reads them.
pub open spec fn pins_json(list: Seq<HtmlPin>) -> Seq<JsonV> {
    list.map_values(|p: HtmlPin| pin_json(p@))
}

/// What asking for the annotations is answered with.
pub fn pins_answer(pins: &Vec<HtmlPin>) -> (r: Json)
    ensures
        json_v(r) == JsonV::Object(
            seq![("ok"@, JsonV::Bool(true)), ("pins"@, JsonV::List(pins_json(pins@)))],
        ),
{
    let ghost all = pins_json(pins@);
    let mut list: JsonList = JsonList::new();
    let mut i: usize = 0;
    while i < pins.len()
        invariant
            i <= pins@.len(),
            all == pins_json(pins@),
            list@ == all.take(i as int),
        decreases pins@.len() - i,
    {
        list.push(write_pin(&pins[i]));
        assert(list@ =~= all.take(i + 1));
        i = i + 1;
    }
    assert(all.take(i as int) =~= all);
    let mut out: JsonObject = JsonObject::new();
    out.put("ok", Json::Bool(true));
    out.put("pins", list.done());
    assert(out@ =~= seq![("ok"@, JsonV::Bool(true)), ("pins"@, JsonV::List(all))]);
    out.done()
}

} // verus!

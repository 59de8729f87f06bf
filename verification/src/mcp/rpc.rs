//! What agents and servers say to each other: a request names a method, and is
//! answered under the same id. One without an id is a notification, which is
//! answered with silence.

use vstd::prelude::*;
use vstd::string::*;

use crate::json::{
    get_v, json_v, pretty, text_v, to_pretty_text, without_v, Json, JsonList, JsonObject, JsonV,
};
use crate::text::same;

verus! {

/// What a server calls itself to an agent.
pub const SERVER_NAME: &'static str = "talimist";

/// The version of the protocol that is spoken.
pub const PROTOCOL_VERSION: &'static str = "2025-06-18";

// ---------------------------------------------------------------- what is asked

/// What a request asks for.
#[derive(Debug)]
pub enum Asked {
    /// Who this is.
    Initialize,
    /// Whether it is there.
    Ping,
    /// What tools it has.
    List,
    /// To run a tool, with arguments.
    Call(String, Json),
    /// Something it does not know.
    Unknown(String),
}

/// What a request asks for.
pub enum AskedV {
    Initialize,
    Ping,
    List,
    Call(Seq<char>, JsonV),
    Unknown(Seq<char>),
}

impl View for Asked {
    type V = AskedV;

    open spec fn view(&self) -> AskedV {
        match self {
            Asked::Initialize => AskedV::Initialize,
            Asked::Ping => AskedV::Ping,
            Asked::List => AskedV::List,
            Asked::Call(name, args) => AskedV::Call(name@, json_v(*args)),
            Asked::Unknown(method) => AskedV::Unknown(method@),
        }
    }
}

/// A text, or an empty one.
pub open spec fn or_empty(s: Option<Seq<char>>) -> Seq<char> {
    match s {
        Some(s) => s,
        None => ""@,
    }
}

/// A value, or an empty object.
pub open spec fn or_object(j: Option<JsonV>) -> JsonV {
    match j {
        Some(j) => j,
        None => JsonV::Object(seq![]),
    }
}

/// What a request with an id asks for.
pub open spec fn asked_v(request: JsonV) -> AskedV {
    let method = or_empty(text_v(request, "method"@));
    let params = or_object(get_v(request, "params"@));
    if method == "initialize"@ {
        AskedV::Initialize
    } else if method == "ping"@ {
        AskedV::Ping
    } else if method == "tools/list"@ {
        AskedV::List
    } else if method == "tools/call"@ {
        AskedV::Call(
            or_empty(text_v(params, "name"@)),
            or_object(get_v(params, "arguments"@)),
        )
    } else {
        AskedV::Unknown(method)
    }
}

/// A value, or an empty object.
fn copy_or_object(j: Option<&Json>) -> (r: Json)
    ensures
        json_v(r) == or_object(
            match j {
                Some(j) => Some(json_v(*j)),
                None => None,
            },
        ),
{
    match j {
        Some(j) => j.copy(),
        None => JsonObject::new().done(),
    }
}

/// What a request asks for, and the id it is answered under. A notification has
/// none and expects no answer.
pub fn read_request(request: &Json) -> (r: Option<(Json, Asked)>)
    ensures
        match get_v(json_v(*request), "id"@) {
            Some(id) => r is Some && json_v(r->Some_0.0) == id && r->Some_0.1@ == asked_v(
                json_v(*request),
            ),
            None => r is None,
        },
{
    let id: Json = match request.get("id") {
        Some(id) => id.copy(),
        None => {
            return None;
        },
    };
    let method: &str = match request.text_at("method") {
        Some(method) => method,
        None => "",
    };
    let params: Json = copy_or_object(request.get("params"));
    let asked: Asked = if same(method, "initialize") {
        Asked::Initialize
    } else if same(method, "ping") {
        Asked::Ping
    } else if same(method, "tools/list") {
        Asked::List
    } else if same(method, "tools/call") {
        let name: &str = match params.text_at("name") {
            Some(name) => name,
            None => "",
        };
        Asked::Call(name.to_string(), copy_or_object(params.get("arguments")))
    } else {
        Asked::Unknown(method.to_string())
    };
    Some((id, asked))
}

// ------------------------------------------------------------- what is answered

/// An answer under an id.
pub open spec fn answer_v(id: JsonV, result: JsonV) -> JsonV {
    JsonV::Object(seq![("jsonrpc"@, JsonV::Text("2.0"@)), ("id"@, id), ("result"@, result)])
}

/// An answer under an id.
pub fn answer(id: Json, result: Json) -> (r: Json)
    ensures
        json_v(r) == answer_v(json_v(id), json_v(result)),
{
    let ghost want = answer_v(json_v(id), json_v(result));
    let mut out: JsonObject = JsonObject::new();
    out.put("jsonrpc", Json::text("2.0"));
    out.put("id", id);
    out.put("result", result);
    assert(out@ =~= want->Object_0);
    out.done()
}

/// The answer to a method there is none of.
pub open spec fn unknown_v(id: JsonV, method: Seq<char>) -> JsonV {
    JsonV::Object(
        seq![
            ("jsonrpc"@, JsonV::Text("2.0"@)),
            ("id"@, id),
            (
                "error"@,
                JsonV::Object(
                    seq![
                        ("code"@, JsonV::Literal("-32601"@)),
                        ("message"@, JsonV::Text("no such method: "@ + method)),
                    ],
                ),
            ),
        ],
    )
}

/// The answer to a method there is none of.
pub fn unknown(id: Json, method: &str) -> (r: Json)
    ensures
        json_v(r) == unknown_v(json_v(id), method@),
{
    let ghost want = unknown_v(json_v(id), method@);
    let mut message: String = "no such method: ".to_string();
    message.append(method);
    let mut error: JsonObject = JsonObject::new();
    error.put("code", Json::Literal("-32601".to_string()));
    error.put("message", Json::Text(message));
    assert(error@ =~= want->Object_0[2].1->Object_0);
    let mut out: JsonObject = JsonObject::new();
    out.put("jsonrpc", Json::text("2.0"));
    out.put("id", id);
    out.put("error", error.done());
    assert(out@ =~= want->Object_0);
    out.done()
}

/// Who a server says it is.
pub open spec fn greeting_v(version: Seq<char>, instructions: Seq<char>) -> JsonV {
    JsonV::Object(
        seq![
            ("protocolVersion"@, JsonV::Text(PROTOCOL_VERSION@)),
            (
                "capabilities"@,
                JsonV::Object(
                    seq![("tools"@, JsonV::Object(seq![("listChanged"@, JsonV::Bool(false))]))],
                ),
            ),
            (
                "serverInfo"@,
                JsonV::Object(
                    seq![
                        ("name"@, JsonV::Text(SERVER_NAME@)),
                        ("title"@, JsonV::Text("Talimist documents"@)),
                        ("version"@, JsonV::Text(version)),
                    ],
                ),
            ),
            ("instructions"@, JsonV::Text(instructions)),
        ],
    )
}

/// Who a server says it is, and how it is worked with.
pub fn greeting(version: &str, instructions: &str) -> (r: Json)
    ensures
        json_v(r) == greeting_v(version@, instructions@),
{
    let ghost want = greeting_v(version@, instructions@)->Object_0;
    let mut listed: JsonObject = JsonObject::new();
    listed.put("listChanged", Json::Bool(false));
    assert(listed@ =~= want[1].1->Object_0[0].1->Object_0);
    let mut able: JsonObject = JsonObject::new();
    able.put("tools", listed.done());
    assert(able@ =~= want[1].1->Object_0);
    let mut info: JsonObject = JsonObject::new();
    info.put("name", Json::text(SERVER_NAME));
    info.put("title", Json::text("Talimist documents"));
    info.put("version", Json::text(version));
    assert(info@ =~= want[2].1->Object_0);
    let mut out: JsonObject = JsonObject::new();
    out.put("protocolVersion", Json::text(PROTOCOL_VERSION));
    out.put("capabilities", able.done());
    out.put("serverInfo", info.done());
    out.put("instructions", Json::text(instructions));
    assert(out@ =~= want);
    out.done()
}

/// A piece of text in what a tool answered.
pub open spec fn text_block(text: Seq<char>) -> JsonV {
    JsonV::Object(seq![("type"@, JsonV::Text("text"@)), ("text"@, JsonV::Text(text))])
}

/// A picture in what a tool answered, of the one it put under `image`.
pub open spec fn image_block(image: JsonV) -> JsonV {
    JsonV::Object(
        seq![
            ("type"@, JsonV::Text("image"@)),
            ("data"@, JsonV::Text(or_empty(text_v(image, "data"@)))),
            (
                "mimeType"@,
                JsonV::Text(
                    match text_v(image, "mimeType"@) {
                        Some(mime) => mime,
                        None => "image/png"@,
                    },
                ),
            ),
        ],
    )
}

/// The picture a tool answered with, where it did: what it put under `image`,
/// where that has data.
pub open spec fn image_in(value: JsonV) -> Option<JsonV> {
    match get_v(value, "image"@) {
        Some(image) if get_v(image, "data"@) is Some => Some(image),
        _ => None,
    }
}

/// What a tool answered, as a client renders it: the picture as a block of its
/// own, where there is one, and the rest as text and as it is. `text` is the
/// rest, written out.
pub open spec fn shown_v(value: JsonV, text: Seq<char>, failed: bool) -> JsonV {
    JsonV::Object(
        seq![
            (
                "content"@,
                JsonV::List(
                    match image_in(value) {
                        Some(image) => seq![image_block(image), text_block(text)],
                        None => seq![text_block(text)],
                    },
                ),
            ),
            ("structuredContent"@, without_v(value, "image"@)),
            ("isError"@, JsonV::Bool(failed)),
        ],
    )
}

/// What a tool answered, as a client renders it, of the text the rest is written
/// out as.
pub fn shown(value: &Json, text: &str, failed: bool) -> (r: Json)
    ensures
        json_v(r) == shown_v(json_v(*value), text@, failed),
{
    let ghost v = json_v(*value);
    let mut content: JsonList = JsonList::new();
    if let Some(image) = value.get("image") {
        if let Some(_) = image.get("data") {
            let ghost picture = json_v(*image);
            let mut block: JsonObject = JsonObject::new();
            block.put("type", Json::text("image"));
            block.put(
                "data",
                Json::text(
                    match image.text_at("data") {
                        Some(data) => data,
                        None => "",
                    },
                ),
            );
            block.put(
                "mimeType",
                Json::text(
                    match image.text_at("mimeType") {
                        Some(mime) => mime,
                        None => "image/png",
                    },
                ),
            );
            assert(block@ =~= image_block(picture)->Object_0);
            content.push(block.done());
        }
    }
    let mut block: JsonObject = JsonObject::new();
    block.put("type", Json::text("text"));
    block.put("text", Json::text(text));
    assert(block@ =~= text_block(text@)->Object_0);
    content.push(block.done());
    proof {
        assert(content@ =~= shown_v(v, text@, failed)->Object_0[0].1->List_0);
    }
    let mut out: JsonObject = JsonObject::new();
    out.put("content", content.done());
    out.put("structuredContent", value.without("image"));
    out.put("isError", Json::Bool(failed));
    assert(out@ =~= shown_v(v, text@, failed)->Object_0);
    out.done()
}

/// What a tool answered, as a client renders it: text, because that is what every
/// client renders, and the value beside it for those that read it. A picture is
/// lifted out into a block of its own: the text beside it is no place for it.
pub fn tool_result(value: &Json, failed: bool) -> (r: Json)
    ensures
        json_v(r) == shown_v(
            json_v(*value),
            pretty(without_v(json_v(*value), "image"@)),
            failed,
        ),
{
    let rest: Json = value.without("image");
    let text: String = to_pretty_text(&rest);
    shown(value, text.as_str(), failed)
}

/// What went wrong, as a value.
pub open spec fn error_v(why: Seq<char>) -> JsonV {
    JsonV::Object(seq![("error"@, JsonV::Text(why))])
}

/// What went wrong, as a value.
pub fn error(why: &str) -> (r: Json)
    ensures
        json_v(r) == error_v(why@),
{
    let mut out: JsonObject = JsonObject::new();
    out.put("error", Json::text(why));
    assert(out@ =~= error_v(why@)->Object_0);
    out.done()
}

/// What running a tool came to: its value, or what went wrong.
pub open spec fn outcome_v(outcome: Result<JsonV, Seq<char>>) -> JsonV {
    match outcome {
        Ok(value) => value,
        Err(e) => error_v(e),
    }
}

/// What running a tool came to.
pub open spec fn outcome_view(outcome: Result<Json, String>) -> Result<JsonV, Seq<char>> {
    match outcome {
        Ok(value) => Ok(json_v(value)),
        Err(e) => Err(e@),
    }
}

/// The answer to a call. A tool that failed is not an error of the protocol: an
/// agent is meant to read what went wrong and try something else.
pub fn call_answer(id: Json, outcome: Result<Json, String>) -> (r: Json)
    ensures
        ({
            let value = outcome_v(outcome_view(outcome));
            json_v(r) == answer_v(
                json_v(id),
                shown_v(value, pretty(without_v(value, "image"@)), outcome is Err),
            )
        }),
{
    match outcome {
        Ok(value) => answer(id, tool_result(&value, false)),
        Err(e) => {
            let value: Json = error(e.as_str());
            answer(id, tool_result(&value, true))
        },
    }
}

/// The answers that are not silence.
pub open spec fn spoken(answers: Seq<Option<Json>>) -> Seq<JsonV>
    decreases answers.len(),
{
    if answers.len() == 0 {
        seq![]
    } else {
        match answers.last() {
            Some(j) => spoken(answers.drop_last()).push(json_v(j)),
            None => spoken(answers.drop_last()),
        }
    }
}

/// The answer to several requests at once: the answers of those that expect one,
/// and silence where none does.
pub fn batch(answers: Vec<Option<Json>>) -> (r: Option<Json>)
    ensures
        match r {
            Some(j) => spoken(answers@).len() > 0 && json_v(j) == JsonV::List(spoken(answers@)),
            None => spoken(answers@).len() == 0,
        },
{
    let mut out: JsonList = JsonList::new();
    let mut any: bool = false;
    let mut i: usize = 0;
    assert(answers@.take(0) =~= seq![]);
    while i < answers.len()
        invariant
            i <= answers@.len(),
            out@ == spoken(answers@.take(i as int)),
            any == (out@.len() > 0),
        decreases answers@.len() - i,
    {
        proof {
            assert(answers@.take(i + 1).drop_last() =~= answers@.take(i as int));
            assert(answers@.take(i + 1).last() == answers@[i as int]);
        }
        if let Some(j) = &answers[i] {
            out.push(j.copy());
            any = true;
        }
        i = i + 1;
    }
    assert(answers@.take(i as int) =~= answers@);
    if any {
        Some(out.done())
    } else {
        None
    }
}

} // verus!

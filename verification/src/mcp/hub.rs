//! The one address an agent is told about: it reads the register of running
//! servers, forwards each call to whichever one it names, and can start one that
//! is not up. It holds no documents and compiles nothing.

use vstd::prelude::*;
use vstd::string::*;

use crate::json::{
    bool_v, compact, field_of, get_v, items_v, json_v, lemma_items_at, pretty, text_v,
    to_pretty_text, to_text, what_is_put_is_found, with_v, Json, JsonList, JsonObject, JsonV,
};
use crate::mcp::rpc::{error, error_v, or_empty, text_block};
use crate::mcp::schema::{
    properties_v, tool_json, tool_list_v, tools, words_v, written_all, Property, PropertyV, Tool,
    ToolV,
};
use crate::paths::{join_path, path_join, same_parts, same_path};
use crate::registry::ServerNote;
use crate::text::{
    after_prefix, contains, is_empty, join, joined, occurs, opt_str, opt_text, same, strip_prefix,
    texts,
};

verus! {

/// Where the hub answers, always. Above the range document servers derive their
/// ports from, so that reserving it takes nothing away from them.
pub const HUB_PORT: u16 = 25000;

/// How a hub is worked with.
pub const HUB_INSTRUCTIONS: &'static str = "Typst documents that a person is reading and annotating. An annotation is a question or a request left in the margin of one.\n\nStart with list_servers. Each server serves one file or one directory; pass its name as `server` to every other tool. An empty list means nothing is being served yet: launch_server on a path, or ask the person to start their own — they may want it in a window they can see.\n\nThe usual sequence is wait_for_annotations, claim_annotation, get_annotated_block, replace_annotated_block, add_annotation_reply, resolve_annotation. Every step after claim_annotation is optional. Fixing the cause outside the document is a proper resolution: when a document is generated from a script or a data file, the edit belongs in what generates it, and replace_annotated_block refuses a file that says it is generated. An annotation about a picture, a layout or a number usually has no text to rewrite either. Claim it, fix whatever is really wrong, then reply and resolve it.\n\nAn annotation is named by its id or by the letter the reader sees on the page. Some are about the document rather than a place in it, and have no block to rewrite: create_annotation leaves one of those, check_annotations reports the ones that lost their place, delete_annotation removes an annotation outright (resolve_annotation is nearly always what is meant).\n\nThe document is rebuilt on its own whenever anything it is made of changes — the file, what it imports, the data it reads, the pictures it embeds. Nothing has to ask for that; document_status says whether the rebuild landed, what it said if it failed, and who is reading. render_snippet compiles a fragment beside the document to see how something would come out, without touching it.\n\nAnnotations live in a `<document>.annos.json` file beside the document. It is the person's work, belongs in version control, and is never yours to delete or edit by hand — these tools are how it changes.";

/// How a document server is worked with.
pub const INSTRUCTIONS: &'static str = "Annotations are questions and requests left on a document by whoever is reading it. Work one at a time: claim it, read the block it points at, rewrite that block, then say what you did and resolve it. wait_for_annotations blocks until there is something to do.";

// --------------------------------------------------------------- its own tools

/// What `list_servers` does.
pub const LIST_SERVERS: &'static str = "The document servers running now: a short name for each, what it is serving, and the documents in it. Everything else takes one of these names as `server`. Start here. An empty list means nothing is being served: launch_server on a path, or ask the person to start their own.";

/// The tool `list_servers`.
pub open spec fn list_servers_v() -> ToolV {
    ToolV {
        name: "list_servers"@,
        title: "List document servers"@,
        about: LIST_SERVERS@,
        properties: seq![
        ],
        required: seq![],
    }
}

/// The tool `list_servers`.
fn list_servers() -> (r: Tool)
    ensures
        r@ == list_servers_v(),
{
    let properties: Vec<Property> = vec![
    ];
    let required: Vec<&'static str> = vec![];
    assert(properties_v(properties@) =~= list_servers_v().properties);
    assert(words_v(required@) =~= list_servers_v().required);
    Tool { name: "list_servers", title: "List document servers", about: LIST_SERVERS, properties, required }
}

/// What `launch_server` does.
pub const LAUNCH_SERVER: &'static str = "Serves a file or directory, and returns the server's name. `state` says which happened: \"started\" for a server this call started, \"reused\" for one that was already serving that path. Say show: true to open a window on it, which is how to show a person what you are working on.";

/// The tool `launch_server`.
pub open spec fn launch_server_v() -> ToolV {
    ToolV {
        name: "launch_server"@,
        title: "Launch a server on a document or directory"@,
        about: LAUNCH_SERVER@,
        properties: seq![
            PropertyV {
                name: "path"@,
                kind: "string"@,
                about: "The .typ file, or a directory of them."@,
            },
            PropertyV {
                name: "show"@,
                kind: "boolean"@,
                about: "Open a browser window on it as well."@,
            },
        ],
        required: seq!["path"@],
    }
}

/// The tool `launch_server`.
fn launch_server() -> (r: Tool)
    ensures
        r@ == launch_server_v(),
{
    let properties: Vec<Property> = vec![
        Property {
            name: "path",
            kind: "string",
            about: "The .typ file, or a directory of them.",
        },
        Property {
            name: "show",
            kind: "boolean",
            about: "Open a browser window on it as well.",
        },
    ];
    let required: Vec<&'static str> = vec!["path"];
    assert(properties_v(properties@) =~= launch_server_v().properties);
    assert(words_v(required@) =~= launch_server_v().required);
    Tool { name: "launch_server", title: "Launch a server on a document or directory", about: LAUNCH_SERVER, properties, required }
}

/// What `kill_server` does.
pub const KILL_SERVER: &'static str = "Asks a server this session started to stop. A server somebody is reading in a browser is better left alone.";

/// The tool `kill_server`.
pub open spec fn kill_server_v() -> ToolV {
    ToolV {
        name: "kill_server"@,
        title: "Stop a document server"@,
        about: KILL_SERVER@,
        properties: seq![
            PropertyV {
                name: "server"@,
                kind: "string"@,
                about: "The server's name, from list_servers."@,
            },
        ],
        required: seq!["server"@],
    }
}

/// The tool `kill_server`.
fn kill_server() -> (r: Tool)
    ensures
        r@ == kill_server_v(),
{
    let properties: Vec<Property> = vec![
        Property {
            name: "server",
            kind: "string",
            about: "The server's name, from list_servers.",
        },
    ];
    let required: Vec<&'static str> = vec!["server"];
    assert(properties_v(properties@) =~= kill_server_v().properties);
    assert(words_v(required@) =~= kill_server_v().required);
    Tool { name: "kill_server", title: "Stop a document server", about: KILL_SERVER, properties, required }
}

/// The tools the hub owns, as opposed to those it forwards.
pub open spec fn hub_tools_v() -> Seq<ToolV> {
    seq![list_servers_v(), launch_server_v(), kill_server_v()]
}

/// The tools the hub owns.
pub fn hub_tools() -> (r: Vec<Tool>)
    ensures
        r@.map_values(|t: Tool| t@) == hub_tools_v(),
{
    let out: Vec<Tool> = vec![list_servers(), launch_server(), kill_server()];
    assert(out@.map_values(|t: Tool| t@) =~= hub_tools_v());
    out
}

/// What a forwarded tool is told besides: the server it is about.
pub open spec fn server_property() -> JsonV {
    JsonV::Object(
        seq![
            ("type"@, JsonV::Text("string"@)),
            (
                "description"@,
                JsonV::Text(
                    "Which document server, from list_servers. May be left out when only one is running."@,
                ),
            ),
        ],
    )
}

/// A forwarded tool: it gains the server it is about, where it says what it can
/// be told.
pub open spec fn forwarded_v(tool: JsonV) -> JsonV {
    match get_v(tool, "inputSchema"@) {
        Some(schema) => match get_v(schema, "properties"@) {
            Some(JsonV::Object(fields)) => with_v(
                tool,
                "inputSchema"@,
                with_v(
                    schema,
                    "properties"@,
                    with_v(JsonV::Object(fields), "server"@, server_property()),
                ),
            ),
            _ => tool,
        },
        None => tool,
    }
}

/// A forwarded tool.
pub fn forwarded(tool: &Json) -> (r: Json)
    ensures
        json_v(r) == forwarded_v(json_v(*tool)),
{
    let mut about: JsonObject = JsonObject::new();
    about.put("type", Json::text("string"));
    about.put(
        "description",
        Json::text(
            "Which document server, from list_servers. May be left out when only one is running.",
        ),
    );
    assert(about@ =~= server_property()->Object_0);
    match tool.get("inputSchema") {
        Some(schema) => match schema.get("properties") {
            Some(properties) => match properties {
                Json::Object(_) => {
                    let gained: Json = properties.with("server", about.done());
                    tool.with("inputSchema", schema.with("properties", gained))
                },
                _ => tool.copy(),
            },
            None => tool.copy(),
        },
        None => tool.copy(),
    }
}

/// The items of a list; none of any other value.
pub open spec fn items_of(j: JsonV) -> Seq<JsonV> {
    match j {
        JsonV::List(items) => items,
        _ => seq![],
    }
}

/// The tools a document server says it has, in what it answered; or, where it
/// did not say, those that such a server has.
pub open spec fn server_tools(answer: Option<JsonV>) -> Seq<JsonV> {
    let said = match answer {
        Some(answer) => match get_v(answer, "result"@) {
            Some(result) => get_v(result, "tools"@),
            None => None,
        },
        None => None,
    };
    match said {
        Some(list) => items_of(list),
        None => items_of(get_v(tool_list_v(), "tools"@)->Some_0),
    }
}

/// Every tool there is: the hub's own, and those of the servers, which are the
/// same list whichever server answers.
pub open spec fn hub_list_v(answer: Option<JsonV>) -> JsonV {
    JsonV::Object(
        seq![
            (
                "tools"@,
                JsonV::List(
                    hub_tools_v().map_values(|t: ToolV| tool_json(t)) + server_tools(
                        answer,
                    ).map_values(|t: JsonV| forwarded_v(t)),
                ),
            ),
        ],
    )
}

/// What a value holds, where there is one.
pub open spec fn opt_value(j: Option<&Json>) -> Option<JsonV> {
    match j {
        Some(j) => Some(json_v(*j)),
        None => None,
    }
}

/// Adds forwarded tools to a list.
fn forward_all(out: &mut JsonList, list: &Json)
    ensures
        final(out)@ == old(out)@ + items_of(json_v(*list)).map_values(|t: JsonV| forwarded_v(t)),
{
    match list {
        Json::List(items) => {
            let ghost held = out@;
            let ghost all = items_v(items@, items@.len());
            let ghost new = all.map_values(|t: JsonV| forwarded_v(t));
            let mut i: usize = 0;
            proof {
                if items@.len() > 0 {
                    lemma_items_at(items@, items@.len(), 0);
                }
                assert(held + new.take(0) =~= held);
            }
            while i < items.len()
                invariant
                    i <= items@.len(),
                    all == items_v(items@, items@.len()),
                    all.len() == items@.len(),
                    new == all.map_values(|t: JsonV| forwarded_v(t)),
                    out@ == held + new.take(i as int),
                decreases items@.len() - i,
            {
                proof {
                    lemma_items_at(items@, items@.len(), i as int);
                }
                out.push(forwarded(&items[i]));
                assert(out@ =~= held + new.take(i + 1));
                i = i + 1;
            }
            assert(new.take(i as int) =~= new);
        },
        _ => {
            assert(out@ =~= old(out)@ + items_of(json_v(*list)).map_values(
                |t: JsonV| forwarded_v(t),
            ));
        },
    }
}

/// Every tool there is. `answer` is what a document server answered when it was
/// asked for its own.
pub fn hub_list(answer: Option<&Json>) -> (r: Json)
    ensures
        json_v(r) == hub_list_v(opt_value(answer)),
{
    let own: Vec<Tool> = hub_tools();
    let mut list: JsonList = written_all(&own);
    proof {
        let given = own@.map_values(|t: Tool| t@);
        assert(list@ =~= given.map_values(|t: ToolV| tool_json(t)));
    }
    let said: Option<&Json> = match answer {
        Some(answer) => match answer.get("result") {
            Some(result) => result.get("tools"),
            None => None,
        },
        None => None,
    };
    match said {
        Some(tools_said) => {
            forward_all(&mut list, tools_said);
        },
        None => {
            let known: Vec<Tool> = tools();
            let all: JsonList = written_all(&known);
            proof {
                let given = known@.map_values(|t: Tool| t@);
                assert(all@ =~= given.map_values(|t: ToolV| tool_json(t)));
                assert(tool_list_v()->Object_0.last().0 == "tools"@);
                assert(get_v(tool_list_v(), "tools"@) == Some(JsonV::List(all@)));
            }
            forward_all(&mut list, &all.done());
        },
    }
    let mut out: JsonObject = JsonObject::new();
    out.put("tools", list.done());
    assert(out@ =~= hub_list_v(opt_value(answer))->Object_0);
    out.done()
}

/// A forwarded tool can be told which server it is about.
pub proof fn a_forwarded_tool_takes_a_server(tool: ToolV)
    ensures
        ({
            let schema = get_v(forwarded_v(tool_json(tool)), "inputSchema"@);
            schema is Some && get_v(
                get_v(schema->Some_0, "properties"@)->Some_0,
                "server"@,
            ) == Some(server_property())
        }),
{
    let j = tool_json(tool);
    reveal_strlit("type");
    reveal_strlit("properties");
    reveal_strlit("required");
    reveal_strlit("additionalProperties");
    let fields = j->Object_0;
    assert(fields.last().0 == "inputSchema"@);
    let schema = fields.last().1;
    assert(get_v(j, "inputSchema"@) == Some(schema));
    let parts = schema->Object_0;
    reveal_with_fuel(field_of, 4);
    assert(parts.last().0 == "additionalProperties"@);
    assert("additionalProperties"@.len() == 20 && "properties"@.len() == 10 && "required"@.len()
        == 8);
    assert(parts.drop_last().last() == parts[2]);
    assert(parts.drop_last().drop_last().last() == parts[1]);
    let told = get_v(schema, "properties"@)->Some_0->Object_0;
    assert(get_v(schema, "properties"@) == Some(JsonV::Object(told)));
    what_is_put_is_found(told, "server"@, server_property(), "server"@);
    what_is_put_is_found(
        parts,
        "properties"@,
        with_v(JsonV::Object(told), "server"@, server_property()),
        "server"@,
    );
    what_is_put_is_found(
        fields,
        "inputSchema"@,
        with_v(schema, "properties"@, with_v(JsonV::Object(told), "server"@, server_property())),
        "server"@,
    );
}

// ----------------------------------------------------------------- the servers

/// The names of the documents in a listing: of each of its documents that has
/// one.
pub open spec fn slugs_in(docs: Seq<JsonV>) -> Seq<JsonV>
    decreases docs.len(),
{
    if docs.len() == 0 {
        seq![]
    } else {
        match get_v(docs.last(), "slug"@) {
            Some(slug) => slugs_in(docs.drop_last()).push(slug),
            None => slugs_in(docs.drop_last()),
        }
    }
}

/// The documents a server of a directory says it has.
pub open spec fn documents_of(directory: bool, listing: Option<JsonV>) -> Seq<JsonV> {
    match listing {
        Some(listing) if directory => match get_v(listing, "docs"@) {
            Some(docs) => slugs_in(items_of(docs)),
            None => seq![],
        },
        _ => seq![],
    }
}

/// How a server describes itself to an agent.
pub open spec fn server_v(note: ServerNote, listing: Option<JsonV>) -> JsonV {
    JsonV::Object(
        seq![
            ("server"@, JsonV::Text(note.server@)),
            ("path"@, JsonV::Text(note.path@)),
            ("url"@, JsonV::Text(note.url@)),
            ("role"@, JsonV::Text(note.role@)),
            ("documents"@, JsonV::List(documents_of(note.directory, listing))),
            ("annotating"@, JsonV::Bool(note.role@ == "annotate"@)),
            ("agents"@, JsonV::Bool(note.mcp)),
        ],
    )
}

/// The names of the documents in a listing.
fn slugs(docs: &Json) -> (r: JsonList)
    ensures
        r@ == slugs_in(items_of(json_v(*docs))),
{
    let mut out: JsonList = JsonList::new();
    match docs {
        Json::List(items) => {
            let ghost all = items_v(items@, items@.len());
            let mut i: usize = 0;
            proof {
                if items@.len() > 0 {
                    lemma_items_at(items@, items@.len(), 0);
                }
                assert(all.take(0) =~= seq![]);
            }
            while i < items.len()
                invariant
                    i <= items@.len(),
                    all == items_v(items@, items@.len()),
                    all.len() == items@.len(),
                    out@ == slugs_in(all.take(i as int)),
                decreases items@.len() - i,
            {
                proof {
                    lemma_items_at(items@, items@.len(), i as int);
                    assert(all.take(i + 1).last() == all[i as int]);
                    assert(all.take(i + 1).drop_last() =~= all.take(i as int));
                }
                if let Some(slug) = items[i].get("slug") {
                    out.push(slug.copy());
                }
                i = i + 1;
            }
            assert(all.take(i as int) =~= all);
        },
        _ => {},
    }
    out
}

/// How a server describes itself to an agent. `listing` is what a server of a
/// directory says is in it.
pub fn server_value(note: &ServerNote, listing: Option<&Json>) -> (r: Json)
    ensures
        json_v(r) == server_v(*note, opt_value(listing)),
{
    let documents: JsonList = match listing {
        Some(listing) => if note.directory {
            match listing.get("docs") {
                Some(docs) => slugs(docs),
                None => JsonList::new(),
            }
        } else {
            JsonList::new()
        },
        None => JsonList::new(),
    };
    assert(documents@ =~= documents_of(note.directory, opt_value(listing)));
    let mut out: JsonObject = JsonObject::new();
    out.put("server", Json::text(note.server.as_str()));
    out.put("path", Json::text(note.path.as_str()));
    out.put("url", Json::text(note.url.as_str()));
    out.put("role", Json::text(note.role.as_str()));
    out.put("documents", documents.done());
    out.put("annotating", Json::Bool(same(note.role.as_str(), "annotate")));
    out.put("agents", Json::Bool(note.mcp));
    assert(out@ =~= server_v(*note, opt_value(listing))->Object_0);
    out.done()
}

/// The first of some servers that a test holds of, from one on.
pub open spec fn first_server(
    notes: Seq<ServerNote>,
    test: spec_fn(ServerNote) -> bool,
    from: int,
) -> Option<int>
    decreases notes.len() - from,
{
    if from < 0 || from >= notes.len() {
        None
    } else if test(notes[from]) {
        Some(from)
    } else {
        first_server(notes, test, from + 1)
    }
}

/// Holds of a server of a name.
pub open spec fn called(name: Seq<char>) -> spec_fn(ServerNote) -> bool {
    |n: ServerNote| n.server@ == name
}

/// Holds of a server whose path is written so.
pub open spec fn written(path: Seq<char>) -> spec_fn(ServerNote) -> bool {
    |n: ServerNote| n.path@ == path
}

/// Holds of a server of a path, however that is written.
pub open spec fn serving(path: Seq<char>) -> spec_fn(ServerNote) -> bool {
    |n: ServerNote| same_parts(n.path@, path)
}

/// Holds of a server whose name or path has a text in it.
pub open spec fn mentioning(text: Seq<char>) -> spec_fn(ServerNote) -> bool {
    |n: ServerNote| occurs(n.server@, text) || occurs(n.path@, text)
}

/// The names of some servers.
pub open spec fn names_of(notes: Seq<ServerNote>) -> Seq<Seq<char>> {
    notes.map_values(|n: ServerNote| n.server@)
}

/// The server a call is about: the one named, by its name, its path, or a part of
/// either, or the only one there is.
pub open spec fn server_chosen(notes: Seq<ServerNote>, asked: Option<Seq<char>>) -> Result<
    int,
    Seq<char>,
> {
    let name = or_empty(asked);
    if name.len() == 0 {
        if notes.len() == 1 {
            Ok(0)
        } else if notes.len() == 0 {
            Err("no document server is running; launch_server starts one"@)
        } else {
            Err("say which server: "@ + join(names_of(notes), ", "@))
        }
    } else if let Some(at) = first_server(notes, called(name), 0) {
        Ok(at)
    } else if let Some(at) = first_server(notes, written(name), 0) {
        Ok(at)
    } else if let Some(at) = first_server(notes, mentioning(name), 0) {
        Ok(at)
    } else {
        Err("no server called "@ + name + "; there is "@ + join(names_of(notes), ", "@))
    }
}

/// The names of some servers, with a comma between them.
fn name_list(notes: &Vec<ServerNote>) -> (r: String)
    ensures
        r@ == join(names_of(notes@), ", "@),
{
    let mut names: Vec<String> = Vec::new();
    let mut i: usize = 0;
    while i < notes.len()
        invariant
            i <= notes@.len(),
            texts(names@) == names_of(notes@).take(i as int),
        decreases notes@.len() - i,
    {
        let ghost before = texts(names@);
        names.push(notes[i].server.clone());
        assert(texts(names@) =~= before.push(notes@[i as int].server@));
        assert(texts(names@) =~= names_of(notes@).take(i + 1));
        i = i + 1;
    }
    assert(names_of(notes@).take(i as int) =~= names_of(notes@));
    joined(&names, ", ")
}

/// The first of some servers of a name.
fn find_called(notes: &Vec<ServerNote>, name: &str) -> (r: Option<usize>)
    ensures
        match r {
            Some(at) => first_server(notes@, called(name@), 0) == Some(at as int) && at
                < notes@.len(),
            None => first_server(notes@, called(name@), 0) is None,
        },
{
    let mut i: usize = 0;
    while i < notes.len()
        invariant
            i <= notes@.len(),
            first_server(notes@, called(name@), 0) == first_server(notes@, called(name@), i as int),
        decreases notes@.len() - i,
    {
        if same(notes[i].server.as_str(), name) {
            return Some(i);
        }
        i = i + 1;
    }
    None
}

/// The first of some servers whose path is written so.
fn find_written(notes: &Vec<ServerNote>, path: &str) -> (r: Option<usize>)
    ensures
        match r {
            Some(at) => first_server(notes@, written(path@), 0) == Some(at as int) && at
                < notes@.len(),
            None => first_server(notes@, written(path@), 0) is None,
        },
{
    let mut i: usize = 0;
    while i < notes.len()
        invariant
            i <= notes@.len(),
            first_server(notes@, written(path@), 0) == first_server(
                notes@,
                written(path@),
                i as int,
            ),
        decreases notes@.len() - i,
    {
        if same(notes[i].path.as_str(), path) {
            return Some(i);
        }
        i = i + 1;
    }
    None
}

/// The first of some servers of a path: one that is already serving it is the
/// one to use.
pub fn find_serving(notes: &Vec<ServerNote>, path: &str) -> (r: Option<usize>)
    ensures
        match r {
            Some(at) => first_server(notes@, serving(path@), 0) == Some(at as int) && at
                < notes@.len(),
            None => first_server(notes@, serving(path@), 0) is None,
        },
{
    let mut i: usize = 0;
    while i < notes.len()
        invariant
            i <= notes@.len(),
            first_server(notes@, serving(path@), 0) == first_server(
                notes@,
                serving(path@),
                i as int,
            ),
        decreases notes@.len() - i,
    {
        if same_path(notes[i].path.as_str(), path) {
            return Some(i);
        }
        i = i + 1;
    }
    None
}

/// The first of some servers whose name or path has a text in it.
fn find_mentioning(notes: &Vec<ServerNote>, text: &str) -> (r: Option<usize>)
    ensures
        match r {
            Some(at) => first_server(notes@, mentioning(text@), 0) == Some(at as int) && at
                < notes@.len(),
            None => first_server(notes@, mentioning(text@), 0) is None,
        },
{
    let mut i: usize = 0;
    while i < notes.len()
        invariant
            i <= notes@.len(),
            first_server(notes@, mentioning(text@), 0) == first_server(
                notes@,
                mentioning(text@),
                i as int,
            ),
        decreases notes@.len() - i,
    {
        if contains(notes[i].server.as_str(), text) || contains(notes[i].path.as_str(), text) {
            return Some(i);
        }
        i = i + 1;
    }
    None
}

/// The server a call is about, among those running.
pub fn server_for(notes: &Vec<ServerNote>, asked: Option<&str>) -> (r: Result<usize, String>)
    ensures
        match server_chosen(notes@, opt_str(asked)) {
            Ok(at) => r is Ok && r->Ok_0 == at && at < notes@.len(),
            Err(e) => r is Err && r->Err_0@ == e,
        },
{
    proof {
        reveal_strlit("");
    }
    let name: &str = match asked {
        Some(name) => name,
        None => "",
    };
    if is_empty(name) {
        if notes.len() == 1 {
            return Ok(0);
        }
        if notes.len() == 0 {
            return Err("no document server is running; launch_server starts one".to_string());
        }
        let mut out: String = "say which server: ".to_string();
        out.append(name_list(notes).as_str());
        return Err(out);
    }
    if let Some(at) = find_called(notes, name) {
        return Ok(at);
    }
    if let Some(at) = find_written(notes, name) {
        return Ok(at);
    }
    if let Some(at) = find_mentioning(notes, name) {
        return Ok(at);
    }
    let mut out: String = "no server called ".to_string();
    out.append(name);
    out.append("; there is ");
    out.append(name_list(notes).as_str());
    Err(out)
}

/// A server that is named is the one that is meant, whatever else has its name in
/// it.
pub proof fn a_named_server_is_meant(notes: Seq<ServerNote>, i: int)
    requires
        0 <= i < notes.len(),
        notes[i].server@.len() > 0,
        forall|k: int| 0 <= k < notes.len() && k != i ==> (#[trigger] notes[k]).server@
            != notes[i].server@,
    ensures
        server_chosen(notes, Some(notes[i].server@)) == Ok::<int, Seq<char>>(i),
{
    lemma_first_called(notes, notes[i].server@, 0, i);
}

proof fn lemma_first_called(notes: Seq<ServerNote>, name: Seq<char>, from: int, i: int)
    requires
        0 <= from <= i < notes.len(),
        notes[i].server@ == name,
        forall|k: int| 0 <= k < notes.len() && k != i ==> (#[trigger] notes[k]).server@ != name,
    ensures
        first_server(notes, called(name), from) == Some(i),
    decreases i - from,
{
    if from < i {
        lemma_first_called(notes, name, from + 1, i);
    }
}

// ------------------------------------------------------------------ its calls

/// What an agent asks the hub for.
#[derive(Debug)]
pub enum HubCall {
    /// The servers that are running.
    List,
    /// That a path be served, in a window or not. It may not be said which.
    Launch(Option<String>, bool),
    /// That a server be stopped.
    Kill,
    /// Something that belongs to a document server.
    Forward,
}

/// What an agent asks the hub for.
pub enum HubCallV {
    List,
    Launch(Option<Seq<char>>, bool),
    Kill,
    Forward,
}

impl View for HubCall {
    type V = HubCallV;

    open spec fn view(&self) -> HubCallV {
        match self {
            HubCall::List => HubCallV::List,
            HubCall::Launch(path, show) => HubCallV::Launch(opt_text(*path), *show),
            HubCall::Kill => HubCallV::Kill,
            HubCall::Forward => HubCallV::Forward,
        }
    }
}

/// What an agent asks the hub for.
pub open spec fn hub_call_of(name: Seq<char>, args: JsonV) -> HubCallV {
    if name == "list_servers"@ {
        HubCallV::List
    } else if name == "launch_server"@ {
        HubCallV::Launch(
            text_v(args, "path"@),
            bool_v(args, "show"@) == Some(true),
        )
    } else if name == "kill_server"@ {
        HubCallV::Kill
    } else {
        HubCallV::Forward
    }
}

/// Reads what an agent asks the hub for.
pub fn hub_plan(name: &str, args: &Json) -> (r: HubCall)
    ensures
        r@ == hub_call_of(name@, json_v(*args)),
{
    if same(name, "list_servers") {
        HubCall::List
    } else if same(name, "launch_server") {
        let path: Option<String> = match args.text_at("path") {
            Some(path) => Some(path.to_string()),
            None => None,
        };
        let show: bool = match args.bool_at("show") {
            Some(b) => b,
            None => false,
        };
        HubCall::Launch(path, show)
    } else if same(name, "kill_server") {
        HubCall::Kill
    } else {
        HubCall::Forward
    }
}

/// What the hub answers a call with, of what its value is written out as.
pub open spec fn result_v(value: JsonV, text: Seq<char>, failed: bool) -> JsonV {
    JsonV::Object(
        seq![
            ("content"@, JsonV::List(seq![text_block(text)])),
            ("structuredContent"@, value),
            ("isError"@, JsonV::Bool(failed)),
        ],
    )
}

/// What the hub answers a call with, of what its value is written out as.
pub fn result_with(value: Json, text: &str, failed: bool) -> (r: Json)
    ensures
        json_v(r) == result_v(json_v(value), text@, failed),
{
    let ghost want = result_v(json_v(value), text@, failed)->Object_0;
    let mut block: JsonObject = JsonObject::new();
    block.put("type", Json::text("text"));
    block.put("text", Json::text(text));
    assert(block@ =~= text_block(text@)->Object_0);
    let mut content: JsonList = JsonList::new();
    content.push(block.done());
    assert(content@ =~= want[0].1->List_0);
    let mut out: JsonObject = JsonObject::new();
    out.put("content", content.done());
    out.put("structuredContent", value);
    out.put("isError", Json::Bool(failed));
    assert(out@ =~= want);
    out.done()
}

/// What the hub answers a call with, in the shape a client renders.
pub fn result(value: Json, failed: bool) -> (r: Json)
    ensures
        json_v(r) == result_v(json_v(value), pretty(json_v(value)), failed),
{
    let text: String = to_pretty_text(&value);
    result_with(value, text.as_str(), failed)
}

/// What the hub answers a call with that went wrong.
pub open spec fn failed_v(why: Seq<char>) -> JsonV {
    result_v(error_v(why), pretty(error_v(why)), true)
}

/// What the hub answers a call with that went wrong.
pub fn failed(why: &str) -> (r: Json)
    ensures
        json_v(r) == failed_v(why@),
{
    result(error(why), true)
}

/// What launching a server is answered with, where no path was passed.
pub fn no_path() -> (r: Json)
    ensures
        json_v(r) == failed_v("which path? pass path"@),
{
    failed("which path? pass path")
}

/// What launching a server is answered with, where there is nothing at the path.
pub fn no_such_path(path: &str) -> (r: Json)
    ensures
        json_v(r) == failed_v(path@ + " does not exist"@),
{
    let mut out: String = path.to_string();
    out.append(" does not exist");
    failed(out.as_str())
}

/// Which server was launched, and whether it was started for it.
pub open spec fn launched_v(note: ServerNote, reused: bool) -> JsonV {
    JsonV::Object(
        seq![
            ("server"@, JsonV::Text(note.server@)),
            ("url"@, JsonV::Text(note.url@)),
            (
                "state"@,
                JsonV::Text(
                    if reused {
                        "reused"@
                    } else {
                        "started"@
                    },
                ),
            ),
        ],
    )
}

/// What launching a server is answered with.
pub fn launched(note: &ServerNote, reused: bool) -> (r: Json)
    ensures
        json_v(r) == result_v(launched_v(*note, reused), pretty(launched_v(*note, reused)), false),
{
    let mut out: JsonObject = JsonObject::new();
    out.put("server", Json::text(note.server.as_str()));
    out.put("url", Json::text(note.url.as_str()));
    out.put(
        "state",
        Json::text(
            if reused {
                "reused"
            } else {
                "started"
            },
        ),
    );
    assert(out@ =~= launched_v(*note, reused)->Object_0);
    result(out.done(), false)
}

/// Whether a server stopped.
pub open spec fn stopped_v(note: ServerNote, stopped: bool) -> JsonV {
    JsonV::Object(
        seq![("server"@, JsonV::Text(note.server@)), ("stopped"@, JsonV::Bool(stopped))],
    )
}

/// What stopping a server is answered with: it is asked to stop, not killed.
pub fn stopped(note: &ServerNote, did: bool) -> (r: Json)
    ensures
        json_v(r) == result_v(
            stopped_v(*note, did),
            pretty(stopped_v(*note, did)),
            !did,
        ),
{
    let mut out: JsonObject = JsonObject::new();
    out.put("server", Json::text(note.server.as_str()));
    out.put("stopped", Json::Bool(did));
    assert(out@ =~= stopped_v(*note, did)->Object_0);
    result(out.done(), !did)
}

/// The servers that are running, as an answer.
pub open spec fn servers_v(servers: Seq<JsonV>) -> JsonV {
    JsonV::Object(seq![("servers"@, JsonV::List(servers))])
}

/// What asking for the servers is answered with.
pub fn list_answer(servers: JsonList) -> (r: Json)
    ensures
        json_v(r) == result_v(servers_v(servers@), pretty(servers_v(servers@)), false),
{
    let mut out: JsonObject = JsonObject::new();
    out.put("servers", servers.done());
    assert(out@ =~= servers_v(servers@)->Object_0);
    result(out.done(), false)
}

/// What a call is forwarded as.
pub open spec fn forward_v(name: Seq<char>, args: JsonV) -> JsonV {
    JsonV::Object(
        seq![
            ("jsonrpc"@, JsonV::Text("2.0"@)),
            ("id"@, JsonV::Number(1)),
            ("method"@, JsonV::Text("tools/call"@)),
            (
                "params"@,
                JsonV::Object(seq![("name"@, JsonV::Text(name)), ("arguments"@, args)]),
            ),
        ],
    )
}

/// What a call is forwarded as, as a value.
pub fn forward_value(name: &str, args: &Json) -> (r: Json)
    ensures
        json_v(r) == forward_v(name@, json_v(*args)),
{
    let ghost want = forward_v(name@, json_v(*args))->Object_0;
    let mut params: JsonObject = JsonObject::new();
    params.put("name", Json::text(name));
    params.put("arguments", args.copy());
    assert(params@ =~= want[3].1->Object_0);
    let mut out: JsonObject = JsonObject::new();
    out.put("jsonrpc", Json::text("2.0"));
    out.put("id", Json::Number(1));
    out.put("method", Json::text("tools/call"));
    out.put("params", params.done());
    assert(out@ =~= want);
    out.done()
}

/// What a call is forwarded as, as it is sent.
pub fn forward_body(name: &str, args: &Json) -> (r: String)
    ensures
        r@ == compact(forward_v(name@, json_v(*args))),
{
    let value: Json = forward_value(name, args);
    to_text(&value)
}

/// What a document server answered to a forwarded call.
#[derive(Debug)]
pub enum Forwarded {
    /// Nothing.
    Silent,
    /// Something that is no value.
    Garbled,
    /// A value.
    Answered(Json),
}

/// What a forwarded call is answered with: what the server answered, where it
/// was started to answer agents and did.
pub open spec fn passed_on(note: ServerNote, answer: Forwarded) -> JsonV {
    if !note.mcp {
        failed_v(
            note.server@ + " is serving "@ + note.path@ + " but was not started with --mcp"@,
        )
    } else {
        match answer {
            Forwarded::Silent => failed_v(note.server@ + " did not answer"@),
            Forwarded::Garbled => failed_v("the server answered with nonsense"@),
            Forwarded::Answered(j) => match get_v(json_v(j), "result"@) {
                Some(result) => result,
                None => failed_v("the server answered with nonsense"@),
            },
        }
    }
}

/// What a forwarded call is answered with.
pub fn pass_on(note: &ServerNote, answer: &Forwarded) -> (r: Json)
    ensures
        json_v(r) == passed_on(*note, *answer),
{
    if !note.mcp {
        let mut out: String = note.server.clone();
        out.append(" is serving ");
        out.append(note.path.as_str());
        out.append(" but was not started with --mcp");
        return failed(out.as_str());
    }
    match answer {
        Forwarded::Silent => {
            let mut out: String = note.server.clone();
            out.append(" did not answer");
            failed(out.as_str())
        },
        Forwarded::Garbled => failed("the server answered with nonsense"),
        Forwarded::Answered(j) => match j.get("result") {
            Some(result) => result.copy(),
            None => failed("the server answered with nonsense"),
        },
    }
}

/// Whether an answer to a call says it worked.
pub fn worked(answer: &Json) -> (r: bool)
    ensures
        r == (bool_v(json_v(*answer), "isError"@) != Some(true)),
{
    match answer.bool_at("isError") {
        Some(failed) => !failed,
        None => true,
    }
}

/// A path an agent typed, with the home directory in place of a `~`.
pub open spec fn expanded(path: Seq<char>, home: Option<Seq<char>>) -> Seq<char> {
    match (after_prefix(path, "~/"@), home) {
        (Some(rest), Some(home)) => path_join(home, rest),
        _ => path,
    }
}

/// `~` in a path an agent typed, which it will type.
pub fn shellexpand(path: &str, home: Option<&str>) -> (r: String)
    ensures
        r@ == expanded(path@, opt_str(home)),
{
    match strip_prefix(path, "~/") {
        Some(rest) => match home {
            Some(home) => join_path(home, rest.as_str()),
            None => path.to_string(),
        },
        None => path.to_string(),
    }
}

// ---------------------------------------------------------------- its starting

/// What a server is started with.
pub open spec fn server_args_v(path: Seq<char>, show: bool) -> Seq<Seq<char>> {
    let args = seq!["serve"@, "--anno"@, "--mcp"@, "--daemon"@, path];
    if show {
        args.push("--open"@)
    } else {
        args
    }
}

/// What a server is started with. It is nobody's child: whoever asked for it will
/// be done long before the reader is.
pub fn server_args(path: &str, show: bool) -> (r: Vec<String>)
    ensures
        texts(r@) == server_args_v(path@, show),
{
    let mut out: Vec<String> = Vec::new();
    out.push("serve".to_string());
    out.push("--anno".to_string());
    out.push("--mcp".to_string());
    out.push("--daemon".to_string());
    out.push(path.to_string());
    if show {
        out.push("--open".to_string());
    }
    assert(texts(out@) =~= server_args_v(path@, show));
    out
}

/// What is said where a server that was started did not come up.
pub fn did_not_come_up(path: &str) -> (r: String)
    ensures
        r@ == "the server for "@ + path@ + " did not come up"@,
{
    let mut out: String = "the server for ".to_string();
    out.append(path);
    out.append(" did not come up");
    out
}

/// How long a server that was started has to come up, in milliseconds.
pub const SERVER_PATIENCE: u64 = 30000;

/// How long a hub that was started has to come up, in milliseconds.
pub const HUB_PATIENCE: u64 = 10000;

/// What becomes of waiting for a hub to come up.
#[derive(Debug, Clone, Copy, PartialEq, Eq, Structural)]
pub enum Coming {
    /// It is up.
    Up,
    /// It is not yet.
    Again,
    /// It exited, and is not coming.
    Exited,
    /// It is not waited for any longer.
    Over,
}

/// What becomes of waiting for a hub to come up: one that has already exited is
/// not waited for.
pub fn await_hub(answers: bool, exited: bool, waited: u64) -> (r: Coming)
    ensures
        r == (if waited >= HUB_PATIENCE {
            Coming::Over
        } else if answers {
            Coming::Up
        } else if exited {
            Coming::Exited
        } else {
            Coming::Again
        }),
{
    if waited >= HUB_PATIENCE {
        Coming::Over
    } else if answers {
        Coming::Up
    } else if exited {
        Coming::Exited
    } else {
        Coming::Again
    }
}

// -------------------------------------------------------------- its own address

/// What is at a path of the hub's.
#[derive(Debug, Clone, Copy, PartialEq, Eq, Structural)]
pub enum HubRoute {
    /// Which build this is.
    Build,
    /// The tools.
    Tools,
    /// The tools, which are only posted to.
    PostOnly,
    /// Nothing.
    Missing,
}

/// What is at a path of the hub's.
pub open spec fn hub_route_v(post: bool, path: Seq<char>) -> HubRoute {
    if !post && path == "/api/build"@ {
        HubRoute::Build
    } else if path == "/m"@ || path == "/m/"@ {
        if post {
            HubRoute::Tools
        } else {
            HubRoute::PostOnly
        }
    } else {
        HubRoute::Missing
    }
}

/// What is at a path of the hub's.
pub fn hub_route(post: bool, path: &str) -> (r: HubRoute)
    ensures
        r == hub_route_v(post, path@),
{
    if !post && same(path, "/api/build") {
        HubRoute::Build
    } else if same(path, "/m") || same(path, "/m/") {
        if post {
            HubRoute::Tools
        } else {
            HubRoute::PostOnly
        }
    } else {
        HubRoute::Missing
    }
}

/// What is answered where there is nothing to do: its status, and what it says.
pub fn hub_refusal(route: HubRoute) -> (r: Option<(u16, &'static str)>)
    ensures
        match route {
            HubRoute::PostOnly => r is Some && r->Some_0.0 == 405 && r->Some_0.1@
                == "post JSON-RPC here\n"@,
            HubRoute::Missing => r is Some && r->Some_0.0 == 404 && r->Some_0.1@
                == "talimist mcp: the tools are at /m/\n"@,
            _ => r is None,
        },
{
    match route {
        HubRoute::PostOnly => Some((405, "post JSON-RPC here\n")),
        HubRoute::Missing => Some((404, "talimist mcp: the tools are at /m/\n")),
        _ => None,
    }
}

// -------------------------------------------------------------- which server is meant

/// With one server running it is meant when none is named, and with more, or none, one has to be
/// named.
pub proof fn the_only_server_is_meant(notes: Seq<ServerNote>)
    ensures
        notes.len() == 1 ==> server_chosen(notes, None) == Ok::<int, Seq<char>>(0),
        notes.len() != 1 ==> server_chosen(notes, None) is Err,
{
    reveal_strlit("");
}

/// Whether a server's name or its path holds some words.
pub open spec fn tells(note: ServerNote, words: Seq<char>) -> bool {
    occurs(note.server@, words) || occurs(note.path@, words)
}

/// A server that is asked for by words is one whose name or path holds them, and one is found
/// whenever there is one; a name comes before a path, and a path before what only holds the words.
pub proof fn a_server_is_found_by_words(notes: Seq<ServerNote>, words: Seq<char>, i: int)
    requires
        words.len() > 0,
        0 <= i < notes.len(),
    ensures
        notes[i].server@ == words ==> (server_chosen(notes, Some(words)) matches Ok(at) && 0 <= at
            < notes.len() && notes[at].server@ == words),
        notes[i].path@ == words && (forall|k: int|
            0 <= k < notes.len() ==> (#[trigger] notes[k]).server@ != words) ==> (server_chosen(
            notes,
            Some(words),
        ) matches Ok(at) && 0 <= at < notes.len() && notes[at].path@ == words),
        tells(notes[i], words) ==> (server_chosen(notes, Some(words)) matches Ok(at) && 0 <= at
            < notes.len()),
        (forall|k: int|
            0 <= k < notes.len() ==> (#[trigger] notes[k]).server@ != words && notes[k].path@ != words
                && !tells(notes[k], words)) ==> server_chosen(notes, Some(words)) is Err,
{
    lemma_first_server(notes, called(words), 0);
    lemma_first_server(notes, written(words), 0);
    lemma_first_server(notes, mentioning(words), 0);
    assert(called(words)(notes[i]) == (notes[i].server@ == words));
    assert(written(words)(notes[i]) == (notes[i].path@ == words));
    assert(mentioning(words)(notes[i]) == tells(notes[i], words));
    if let Some(at) = first_server(notes, mentioning(words), 0) {
        assert(mentioning(words)(notes[at]) == tells(notes[at], words));
    }
}

/// The first server of some kind is of that kind, and none before it is.
proof fn lemma_first_server(notes: Seq<ServerNote>, test: spec_fn(ServerNote) -> bool, from: int)
    requires
        0 <= from,
    ensures
        match first_server(notes, test, from) {
            Some(at) => from <= at < notes.len() && test(notes[at]) && forall|k: int|
                from <= k < at ==> !test(#[trigger] notes[k]),
            None => forall|k: int| from <= k < notes.len() ==> !test(#[trigger] notes[k]),
        },
    decreases notes.len() - from,
{
    if from < notes.len() && !test(notes[from]) {
        lemma_first_server(notes, test, from + 1);
    }
}

/// A server's answer is handed on as it came, and only from a server that answers agents; anything
/// else is told as a failure.
pub proof fn an_answer_is_handed_on(note: ServerNote, j: Json, answer: Forwarded)
    ensures
        note.mcp && answer == Forwarded::Answered(j) && get_v(json_v(j), "result"@) is Some
            ==> passed_on(note, answer) == get_v(json_v(j), "result"@)->Some_0,
        !note.mcp || !(answer is Answered) ==> bool_v(passed_on(note, answer), "isError"@) == Some(
            true,
        ),
{
    if !note.mcp || !(answer is Answered) {
        let fields = passed_on(note, answer)->Object_0;
        assert(fields.last() == ("isError"@, JsonV::Bool(true)));
    }
}

/// A tool that is handed on keeps its name and all that it says of itself, but for what it takes.
pub proof fn a_forwarded_tool_keeps_its_name(tool: JsonV, name: Seq<char>)
    requires
        name != "inputSchema"@,
    ensures
        get_v(forwarded_v(tool), name) == get_v(tool, name),
{
    if let JsonV::Object(fields) = tool {
        if let Some(schema) = get_v(tool, "inputSchema"@) {
            if let Some(JsonV::Object(told)) = get_v(schema, "properties"@) {
                what_is_put_is_found(
                    fields,
                    "inputSchema"@,
                    with_v(
                        schema,
                        "properties"@,
                        with_v(JsonV::Object(told), "server"@, server_property()),
                    ),
                    name,
                );
            }
        }
    }
}

/// All the tools of a server are offered, after those that find, start and stop a server.
pub proof fn every_tool_is_offered(answer: Option<JsonV>, i: int)
    requires
        0 <= i < server_tools(answer).len(),
    ensures
        get_v(hub_list_v(answer), "tools"@) matches Some(JsonV::List(all)) && all.len() == 3
            + server_tools(answer).len() && all[3 + i] == forwarded_v(server_tools(answer)[i])
            && all[0] == tool_json(list_servers_v()) && all[1] == tool_json(launch_server_v())
            && all[2] == tool_json(kill_server_v()),
{
    let fields = hub_list_v(answer)->Object_0;
    assert(fields.last().0 == "tools"@);
}

/// A path under the home directory is found there, and any other is left alone.
pub proof fn a_tilde_is_the_home(rest: Seq<char>, path: Seq<char>, home: Seq<char>)
    requires
        path.len() < 2 || path[0] != '~' || path[1] != '/',
    ensures
        expanded("~/"@ + rest, Some(home)) == path_join(home, rest),
        expanded(path, Some(home)) == path,
        expanded("~/"@ + rest, None) == "~/"@ + rest,
{
    reveal_strlit("~/");
    let whole = "~/"@ + rest;
    assert(whole.subrange(0, 2) =~= "~/"@);
    assert(whole.skip(2) =~= rest);
    if path.len() >= 2 {
        assert(path.subrange(0, 2)[0] == path[0] && path.subrange(0, 2)[1] == path[1]);
    }
}

/// A window is opened on a server exactly when one was asked for.
pub proof fn a_window_is_opened_when_asked(path: Seq<char>, show: bool)
    requires
        path != "--open"@,
    ensures
        server_args_v(path, show).contains("--open"@) == show,
        server_args_v(path, show)[4] == path,
{
    reveal_strlit("--open");
    reveal_strlit("serve");
    reveal_strlit("--anno");
    reveal_strlit("--mcp");
    reveal_strlit("--daemon");
    assert("--open"@[2] == 'o' && "serve"@[2] == 'r' && "--anno"@[2] == 'a' && "--mcp"@[2] == 'm'
        && "--daemon"@[2] == 'd');
    let args = server_args_v(path, show);
    if show {
        assert(args[5] == "--open"@);
    } else {
        assert forall|i: int| 0 <= i < args.len() implies args[i] != "--open"@ by {}
    }
}

} // verus!

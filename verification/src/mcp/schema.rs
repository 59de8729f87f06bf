//! The tools an agent can call on a document, as they are described to it.
//!
//! Descriptions are read by a model, so they say what the tool does, what it
//! returns and when to use it, in plain sentences, and each carries an example.

use vstd::prelude::*;
use vstd::string::*;

use crate::json::{json_v, Json, JsonList, JsonObject, JsonV};

verus! {

/// What a tool can be told.
#[derive(Debug)]
pub struct Property {
    /// What it is called.
    pub name: &'static str,
    /// What kind of value it is.
    pub kind: &'static str,
    /// What it means.
    pub about: &'static str,
}

/// One tool, as it is described to an agent.
#[derive(Debug)]
pub struct Tool {
    /// What it is called.
    pub name: &'static str,
    /// What a person calls it.
    pub title: &'static str,
    /// What it does, what it returns and when to use it.
    pub about: &'static str,
    /// What it can be told.
    pub properties: Vec<Property>,
    /// What it has to be told.
    pub required: Vec<&'static str>,
}

/// What a tool can be told.
pub struct PropertyV {
    pub name: Seq<char>,
    pub kind: Seq<char>,
    pub about: Seq<char>,
}

/// One tool, as it is described to an agent.
pub struct ToolV {
    pub name: Seq<char>,
    pub title: Seq<char>,
    pub about: Seq<char>,
    pub properties: Seq<PropertyV>,
    pub required: Seq<Seq<char>>,
}

impl View for Property {
    type V = PropertyV;

    open spec fn view(&self) -> PropertyV {
        PropertyV { name: self.name@, kind: self.kind@, about: self.about@ }
    }
}

/// What some tools can be told.
pub open spec fn properties_v(list: Seq<Property>) -> Seq<PropertyV> {
    list.map_values(|p: Property| p@)
}

/// Some words.
pub open spec fn words_v(list: Seq<&'static str>) -> Seq<Seq<char>> {
    list.map_values(|s: &'static str| s@)
}

impl View for Tool {
    type V = ToolV;

    open spec fn view(&self) -> ToolV {
        ToolV {
            name: self.name@,
            title: self.title@,
            about: self.about@,
            properties: properties_v(self.properties@),
            required: words_v(self.required@),
        }
    }
}

// ------------------------------------------------------------- how it is written

/// What a tool can be told, as it is written.
pub open spec fn property_json(p: PropertyV) -> (Seq<char>, JsonV) {
    (
        p.name,
        JsonV::Object(
            seq![("type"@, JsonV::Text(p.kind)), ("description"@, JsonV::Text(p.about))],
        ),
    )
}

/// The shape of what a tool is told, as it is written: nothing but what it can
/// be told, and all that it has to be.
pub open spec fn schema_json(properties: Seq<PropertyV>, required: Seq<Seq<char>>) -> JsonV {
    JsonV::Object(
        seq![
            ("type"@, JsonV::Text("object"@)),
            ("properties"@, JsonV::Object(properties.map_values(|p: PropertyV| property_json(p)))),
            ("required"@, JsonV::List(required.map_values(|s: Seq<char>| JsonV::Text(s)))),
            ("additionalProperties"@, JsonV::Bool(false)),
        ],
    )
}

/// One tool, as it is written.
pub open spec fn tool_json(t: ToolV) -> JsonV {
    JsonV::Object(
        seq![
            ("name"@, JsonV::Text(t.name)),
            ("title"@, JsonV::Text(t.title)),
            ("description"@, JsonV::Text(t.about)),
            ("inputSchema"@, schema_json(t.properties, t.required)),
        ],
    )
}

/// The shape of what a tool is told.
fn schema(properties: &Vec<Property>, required: &Vec<&'static str>) -> (r: Json)
    ensures
        json_v(r) == schema_json(properties_v(properties@), words_v(required@)),
{
    let ghost told = properties_v(properties@).map_values(|p: PropertyV| property_json(p));
    let ghost owed = words_v(required@).map_values(|s: Seq<char>| JsonV::Text(s));
    let mut named: JsonObject = JsonObject::new();
    let mut i: usize = 0;
    while i < properties.len()
        invariant
            i <= properties@.len(),
            told == properties_v(properties@).map_values(|p: PropertyV| property_json(p)),
            named@ == told.take(i as int),
        decreases properties@.len() - i,
    {
        let p: &Property = &properties[i];
        let mut one: JsonObject = JsonObject::new();
        one.put("type", Json::text(p.kind));
        one.put("description", Json::text(p.about));
        assert(one@ =~= property_json(p@).1->Object_0);
        named.put(p.name, one.done());
        assert(named@ =~= told.take(i + 1));
        i = i + 1;
    }
    assert(told.take(i as int) =~= told);
    let mut words: JsonList = JsonList::new();
    let mut j: usize = 0;
    while j < required.len()
        invariant
            j <= required@.len(),
            owed == words_v(required@).map_values(|s: Seq<char>| JsonV::Text(s)),
            words@ == owed.take(j as int),
        decreases required@.len() - j,
    {
        words.push(Json::text(required[j]));
        assert(words@ =~= owed.take(j + 1));
        j = j + 1;
    }
    assert(owed.take(j as int) =~= owed);
    let mut out: JsonObject = JsonObject::new();
    out.put("type", Json::text("object"));
    out.put("properties", named.done());
    out.put("required", words.done());
    out.put("additionalProperties", Json::Bool(false));
    assert(out@ =~= schema_json(properties_v(properties@), words_v(required@))->Object_0);
    out.done()
}

impl Tool {
    /// The tool, as it is written.
    pub fn written(&self) -> (r: Json)
        ensures
            json_v(r) == tool_json(self@),
    {
        let mut out: JsonObject = JsonObject::new();
        out.put("name", Json::text(self.name));
        out.put("title", Json::text(self.title));
        out.put("description", Json::text(self.about));
        out.put("inputSchema", schema(&self.properties, &self.required));
        assert(out@ =~= tool_json(self@)->Object_0);
        out.done()
    }
}

/// Some tools, as they are written.
pub fn written_all(tools: &Vec<Tool>) -> (r: JsonList)
    ensures
        r@ == tools@.map_values(|t: Tool| tool_json(t@)),
{
    let ghost all = tools@.map_values(|t: Tool| tool_json(t@));
    let mut out: JsonList = JsonList::new();
    let mut i: usize = 0;
    while i < tools.len()
        invariant
            i <= tools@.len(),
            all == tools@.map_values(|t: Tool| tool_json(t@)),
            out@ == all.take(i as int),
        decreases tools@.len() - i,
    {
        out.push(tools[i].written());
        assert(out@ =~= all.take(i + 1));
        i = i + 1;
    }
    assert(all.take(i as int) =~= all);
    out
}

// ------------------------------------------------------------------- the tools

/// How every tool describes the annotation it works on. An annotation has an id,
/// which is what tools pass around, and a letter, which is what a reader sees on
/// the page and therefore what a person quotes.
pub const THE_ANNOTATION: &'static str = "The annotation, by id or by letter: \"82989169e6fbef9b\" or \"g\". The letter is what the reader sees on the page and what a person will quote; the id is what these tools return.";

/// What `list_documents` does.
pub const LIST_DOCUMENTS: &'static str = "Lists the documents this server holds: name, title, path, and the number of annotations by status. A server of one document lists one. Example: {}";

/// The tool `list_documents`.
pub open spec fn list_documents_v() -> ToolV {
    ToolV {
        name: "list_documents"@,
        title: "List documents"@,
        about: LIST_DOCUMENTS@,
        properties: seq![
        ],
        required: seq![],
    }
}

/// The tool `list_documents`.
fn list_documents() -> (r: Tool)
    ensures
        r@ == list_documents_v(),
{
    let properties: Vec<Property> = vec![
    ];
    let required: Vec<&'static str> = vec![];
    assert(properties_v(properties@) =~= list_documents_v().properties);
    assert(words_v(required@) =~= list_documents_v().required);
    Tool { name: "list_documents", title: "List documents", about: LIST_DOCUMENTS, properties, required }
}

/// What `list_annotations` does.
pub const LIST_ANNOTATIONS: &'static str = "Lists a document's annotations with a one-line excerpt of what each points at, which is enough to choose one without reading the document. Each entry has an id, a letter (what the reader sees on the page), a status, and a location saying what it is about: a word, a paragraph, a drawing, a position between two things, or the document itself. Use it to find work. Examples: {\"status\": \"open\"} for what nobody has taken; {} for everything.";

/// The tool `list_annotations`.
pub open spec fn list_annotations_v() -> ToolV {
    ToolV {
        name: "list_annotations"@,
        title: "List annotations"@,
        about: LIST_ANNOTATIONS@,
        properties: seq![
            PropertyV {
                name: "document"@,
                kind: "string"@,
                about: "Which document, when the server holds several. Its name in the URL."@,
            },
            PropertyV {
                name: "status"@,
                kind: "string"@,
                about: "Only these: open (nobody has it), claimed (somebody is on it), resolved (done)."@,
            },
            PropertyV {
                name: "author"@,
                kind: "string"@,
                about: "Only annotations by this author."@,
            },
        ],
        required: seq![],
    }
}

/// The tool `list_annotations`.
fn list_annotations() -> (r: Tool)
    ensures
        r@ == list_annotations_v(),
{
    let properties: Vec<Property> = vec![
        Property {
            name: "document",
            kind: "string",
            about: "Which document, when the server holds several. Its name in the URL.",
        },
        Property {
            name: "status",
            kind: "string",
            about: "Only these: open (nobody has it), claimed (somebody is on it), resolved (done).",
        },
        Property {
            name: "author",
            kind: "string",
            about: "Only annotations by this author.",
        },
    ];
    let required: Vec<&'static str> = vec![];
    assert(properties_v(properties@) =~= list_annotations_v().properties);
    assert(words_v(required@) =~= list_annotations_v().required);
    Tool { name: "list_annotations", title: "List annotations", about: LIST_ANNOTATIONS, properties, required }
}

/// What `wait_for_annotations` does.
pub const WAIT_FOR_ANNOTATIONS: &'static str = "Blocks until something happens, then reports it: an annotation added, replied to, claimed, resolved, reopened or deleted; a file changed; a document compiled. Returns as soon as there is anything, or an empty list when the wait runs out. Pass the cursor from the previous call to get everything since, including what happened while you were working. Examples: {} on the first call, which starts from now; {\"cursor\": 41, \"timeout\": 120} on every call after that, using the cursor the previous call returned.";

/// The tool `wait_for_annotations`.
pub open spec fn wait_for_annotations_v() -> ToolV {
    ToolV {
        name: "wait_for_annotations"@,
        title: "Wait for annotations"@,
        about: WAIT_FOR_ANNOTATIONS@,
        properties: seq![
            PropertyV {
                name: "cursor"@,
                kind: "integer"@,
                about: "The cursor from the previous call. Omit on the first call to start from now."@,
            },
            PropertyV {
                name: "timeout"@,
                kind: "integer"@,
                about: "Seconds to wait. Default 60, maximum 300."@,
            },
        ],
        required: seq![],
    }
}

/// The tool `wait_for_annotations`.
fn wait_for_annotations() -> (r: Tool)
    ensures
        r@ == wait_for_annotations_v(),
{
    let properties: Vec<Property> = vec![
        Property {
            name: "cursor",
            kind: "integer",
            about: "The cursor from the previous call. Omit on the first call to start from now.",
        },
        Property {
            name: "timeout",
            kind: "integer",
            about: "Seconds to wait. Default 60, maximum 300.",
        },
    ];
    let required: Vec<&'static str> = vec![];
    assert(properties_v(properties@) =~= wait_for_annotations_v().properties);
    assert(words_v(required@) =~= wait_for_annotations_v().required);
    Tool { name: "wait_for_annotations", title: "Wait for annotations", about: WAIT_FOR_ANNOTATIONS, properties, required }
}

/// What `get_annotation` does.
pub const GET_ANNOTATION: &'static str = "Returns one annotation in full: what it says, who wrote it, its status, its discussion, and its location. A location names anchors, which are labels written into the document; several annotations can share one anchor, because a Typst element carries at most one label. A location of type \"document\" means the annotation is about the whole document, either because it was written that way or because the place it pointed at has been edited away. Example: {\"uuid\": \"g\"}";

/// The tool `get_annotation`.
pub open spec fn get_annotation_v() -> ToolV {
    ToolV {
        name: "get_annotation"@,
        title: "Get an annotation"@,
        about: GET_ANNOTATION@,
        properties: seq![
            PropertyV {
                name: "uuid"@,
                kind: "string"@,
                about: THE_ANNOTATION@,
            },
        ],
        required: seq!["uuid"@],
    }
}

/// The tool `get_annotation`.
fn get_annotation() -> (r: Tool)
    ensures
        r@ == get_annotation_v(),
{
    let properties: Vec<Property> = vec![
        Property {
            name: "uuid",
            kind: "string",
            about: THE_ANNOTATION,
        },
    ];
    let required: Vec<&'static str> = vec!["uuid"];
    assert(properties_v(properties@) =~= get_annotation_v().properties);
    assert(words_v(required@) =~= get_annotation_v().required);
    Tool { name: "get_annotation", title: "Get an annotation", about: GET_ANNOTATION, properties, required }
}

/// What `claim` does.
pub const CLAIM: &'static str = "Marks an annotation as being worked on, so that the reader and other agents can see it is taken. Do this before rewriting anything. Example: {\"uuid\": \"g\"}";

/// The tool `claim`.
pub open spec fn claim_v() -> ToolV {
    ToolV {
        name: "claim"@,
        title: "Claim an annotation"@,
        about: CLAIM@,
        properties: seq![
            PropertyV {
                name: "uuid"@,
                kind: "string"@,
                about: THE_ANNOTATION@,
            },
        ],
        required: seq!["uuid"@],
    }
}

/// The tool `claim`.
fn claim() -> (r: Tool)
    ensures
        r@ == claim_v(),
{
    let properties: Vec<Property> = vec![
        Property {
            name: "uuid",
            kind: "string",
            about: THE_ANNOTATION,
        },
    ];
    let required: Vec<&'static str> = vec!["uuid"];
    assert(properties_v(properties@) =~= claim_v().properties);
    assert(words_v(required@) =~= claim_v().required);
    Tool { name: "claim", title: "Claim an annotation", about: CLAIM, properties, required }
}

/// What `release` does.
pub const RELEASE: &'static str = "Puts a claimed annotation back to open, for work that was abandoned. Better than leaving it claimed. Example: {\"uuid\": \"g\"}";

/// The tool `release`.
pub open spec fn release_v() -> ToolV {
    ToolV {
        name: "release"@,
        title: "Release an annotation"@,
        about: RELEASE@,
        properties: seq![
            PropertyV {
                name: "uuid"@,
                kind: "string"@,
                about: THE_ANNOTATION@,
            },
        ],
        required: seq!["uuid"@],
    }
}

/// The tool `release`.
fn release() -> (r: Tool)
    ensures
        r@ == release_v(),
{
    let properties: Vec<Property> = vec![
        Property {
            name: "uuid",
            kind: "string",
            about: THE_ANNOTATION,
        },
    ];
    let required: Vec<&'static str> = vec!["uuid"];
    assert(properties_v(properties@) =~= release_v().properties);
    assert(words_v(required@) =~= release_v().required);
    Tool { name: "release", title: "Release an annotation", about: RELEASE, properties, required }
}

/// What `get_block` does.
pub const GET_BLOCK: &'static str = "Returns the piece of Typst source an annotation points into: the smallest thing that can be rewritten whole, such as a paragraph, a list item, a heading or a figure. The reply has the block's id (needed to rewrite it), the headings above it, and every anchor inside it with its offset, which a rewrite must preserve. Works even when the document does not compile. An annotation about the document, or one whose anchor is gone, has no block; the reply says so and gives the text it was written against. Examples: {\"uuid\": \"g\"}; {\"uuid\": \"g\", \"context\": true} to see the blocks either side as well.";

/// The tool `get_block`.
pub open spec fn get_block_v() -> ToolV {
    ToolV {
        name: "get_block"@,
        title: "Get the block an annotation is in"@,
        about: GET_BLOCK@,
        properties: seq![
            PropertyV {
                name: "uuid"@,
                kind: "string"@,
                about: THE_ANNOTATION@,
            },
            PropertyV {
                name: "context"@,
                kind: "boolean"@,
                about: "Also return the blocks either side."@,
            },
        ],
        required: seq!["uuid"@],
    }
}

/// The tool `get_block`.
fn get_block() -> (r: Tool)
    ensures
        r@ == get_block_v(),
{
    let properties: Vec<Property> = vec![
        Property {
            name: "uuid",
            kind: "string",
            about: THE_ANNOTATION,
        },
        Property {
            name: "context",
            kind: "boolean",
            about: "Also return the blocks either side.",
        },
    ];
    let required: Vec<&'static str> = vec!["uuid"];
    assert(properties_v(properties@) =~= get_block_v().properties);
    assert(words_v(required@) =~= get_block_v().required);
    Tool { name: "get_block", title: "Get the block an annotation is in", about: GET_BLOCK, properties, required }
}

/// What `replace_block` does.
pub const REPLACE_BLOCK: &'static str = "Rewrites the block an annotation is in, waits for the document to compile, and reports whether it did. Refused if the block has changed since you read it (read it again), if the new text drops an anchor without saying so, or if it invents one. The reply includes the block as it now stands, with a fresh id. Examples: {\"uuid\": \"g\", \"blockId\": \"3f9a2c…\", \"text\": \"The rewritten paragraph<anno.A100>\"} keeps the anchor where it was; add {\"anchors\": \"reattach\"} when the rewrite has no room for it and the annotation should stay on the block.";

/// The tool `replace_block`.
pub open spec fn replace_block_v() -> ToolV {
    ToolV {
        name: "replace_block"@,
        title: "Replace a block"@,
        about: REPLACE_BLOCK@,
        properties: seq![
            PropertyV {
                name: "uuid"@,
                kind: "string"@,
                about: THE_ANNOTATION@,
            },
            PropertyV {
                name: "blockId"@,
                kind: "string"@,
                about: "The id from get_block, which says which text you are replacing."@,
            },
            PropertyV {
                name: "text"@,
                kind: "string"@,
                about: "The new Typst source for the whole block."@,
            },
            PropertyV {
                name: "anchors"@,
                kind: "string"@,
                about: "What to do with anchors the new text drops: keep (default, refuses), reattach (puts them back at the start of the block), drop (accepts it; the annotations that pointed at them become annotations about the document, and are not deleted)."@,
            },
        ],
        required: seq!["uuid"@, "blockId"@, "text"@],
    }
}

/// The tool `replace_block`.
fn replace_block() -> (r: Tool)
    ensures
        r@ == replace_block_v(),
{
    let properties: Vec<Property> = vec![
        Property {
            name: "uuid",
            kind: "string",
            about: THE_ANNOTATION,
        },
        Property {
            name: "blockId",
            kind: "string",
            about: "The id from get_block, which says which text you are replacing.",
        },
        Property {
            name: "text",
            kind: "string",
            about: "The new Typst source for the whole block.",
        },
        Property {
            name: "anchors",
            kind: "string",
            about: "What to do with anchors the new text drops: keep (default, refuses), reattach (puts them back at the start of the block), drop (accepts it; the annotations that pointed at them become annotations about the document, and are not deleted).",
        },
    ];
    let required: Vec<&'static str> = vec!["uuid", "blockId", "text"];
    assert(properties_v(properties@) =~= replace_block_v().properties);
    assert(words_v(required@) =~= replace_block_v().required);
    Tool { name: "replace_block", title: "Replace a block", about: REPLACE_BLOCK, properties, required }
}

/// What `get_capture` does.
pub const GET_CAPTURE: &'static str = "Returns an image of what a graphical annotation is about — a plot, a diagram, a framed drawing — together with anything the reader drew on top of it. The document is source, so this is the only way to see what the reader saw. Defaults to the most recent capture; earlier ones show the same drawing before it changed. Examples: {\"uuid\": \"q\"}; {\"uuid\": \"q\", \"markup\": false} for the drawing without what the reader drew on it.";

/// The tool `get_capture`.
pub open spec fn get_capture_v() -> ToolV {
    ToolV {
        name: "get_capture"@,
        title: "See what an annotation points at"@,
        about: GET_CAPTURE@,
        properties: seq![
            PropertyV {
                name: "uuid"@,
                kind: "string"@,
                about: "The annotation, by id or letter. Its captures are listed on the annotation."@,
            },
            PropertyV {
                name: "index"@,
                kind: "integer"@,
                about: "Which capture: 0 is the most recent, 1 the one before it. Default 0."@,
            },
            PropertyV {
                name: "hash"@,
                kind: "string"@,
                about: "A capture's hash, when you want that exact one."@,
            },
            PropertyV {
                name: "markup"@,
                kind: "boolean"@,
                about: "Include what the reader drew on top. Default true; pass false to see the drawing bare."@,
            },
            PropertyV {
                name: "scale"@,
                kind: "number"@,
                about: "Size, as a multiple of the drawing's own. Default is half size, or less when that would still be over 1000px on the long edge."@,
            },
            PropertyV {
                name: "document"@,
                kind: "string"@,
                about: "Which document, when the server holds several."@,
            },
        ],
        required: seq!["uuid"@],
    }
}

/// The tool `get_capture`.
fn get_capture() -> (r: Tool)
    ensures
        r@ == get_capture_v(),
{
    let properties: Vec<Property> = vec![
        Property {
            name: "uuid",
            kind: "string",
            about: "The annotation, by id or letter. Its captures are listed on the annotation.",
        },
        Property {
            name: "index",
            kind: "integer",
            about: "Which capture: 0 is the most recent, 1 the one before it. Default 0.",
        },
        Property {
            name: "hash",
            kind: "string",
            about: "A capture's hash, when you want that exact one.",
        },
        Property {
            name: "markup",
            kind: "boolean",
            about: "Include what the reader drew on top. Default true; pass false to see the drawing bare.",
        },
        Property {
            name: "scale",
            kind: "number",
            about: "Size, as a multiple of the drawing's own. Default is half size, or less when that would still be over 1000px on the long edge.",
        },
        Property {
            name: "document",
            kind: "string",
            about: "Which document, when the server holds several.",
        },
    ];
    let required: Vec<&'static str> = vec!["uuid"];
    assert(properties_v(properties@) =~= get_capture_v().properties);
    assert(words_v(required@) =~= get_capture_v().required);
    Tool { name: "get_capture", title: "See what an annotation points at", about: GET_CAPTURE, properties, required }
}

/// What `annotate` does.
pub const ANNOTATE: &'static str = "Adds an annotation about the document as a whole — something noticed while reading that is not about one place. It appears in the corner of the reader's page. Annotations about a particular word or block are made by the reader, who points at one; this tool cannot point. Example: {\"text\": \"Section 3 and section 5 give different totals.\", \"kind\": \"question\"}";

/// The tool `annotate`.
pub open spec fn annotate_v() -> ToolV {
    ToolV {
        name: "annotate"@,
        title: "Annotate the document"@,
        about: ANNOTATE@,
        properties: seq![
            PropertyV {
                name: "text"@,
                kind: "string"@,
                about: "What to say."@,
            },
            PropertyV {
                name: "kind"@,
                kind: "string"@,
                about: "What sort of remark: comment (default), question, request."@,
            },
            PropertyV {
                name: "author"@,
                kind: "string"@,
                about: "Who is saying it. Say who you are; the default is whoever is running the server."@,
            },
            PropertyV {
                name: "document"@,
                kind: "string"@,
                about: "Which document, when the server holds several."@,
            },
        ],
        required: seq!["text"@],
    }
}

/// The tool `annotate`.
fn annotate() -> (r: Tool)
    ensures
        r@ == annotate_v(),
{
    let properties: Vec<Property> = vec![
        Property {
            name: "text",
            kind: "string",
            about: "What to say.",
        },
        Property {
            name: "kind",
            kind: "string",
            about: "What sort of remark: comment (default), question, request.",
        },
        Property {
            name: "author",
            kind: "string",
            about: "Who is saying it. Say who you are; the default is whoever is running the server.",
        },
        Property {
            name: "document",
            kind: "string",
            about: "Which document, when the server holds several.",
        },
    ];
    let required: Vec<&'static str> = vec!["text"];
    assert(properties_v(properties@) =~= annotate_v().properties);
    assert(words_v(required@) =~= annotate_v().required);
    Tool { name: "annotate", title: "Annotate the document", about: ANNOTATE, properties, required }
}

/// What `audit` does.
pub const AUDIT: &'static str = "Reports what the document and its sidecar say about each other: how many annotations and anchors there are, anchors nothing points at any more, and annotations whose anchor is gone. The last of these are the ones the reader cannot see in place; they are about the document until an anchor comes back. Example: {}";

/// The tool `audit`.
pub open spec fn audit_v() -> ToolV {
    ToolV {
        name: "audit"@,
        title: "Audit the annotations"@,
        about: AUDIT@,
        properties: seq![
            PropertyV {
                name: "document"@,
                kind: "string"@,
                about: "Which document, when the server holds several."@,
            },
        ],
        required: seq![],
    }
}

/// The tool `audit`.
fn audit() -> (r: Tool)
    ensures
        r@ == audit_v(),
{
    let properties: Vec<Property> = vec![
        Property {
            name: "document",
            kind: "string",
            about: "Which document, when the server holds several.",
        },
    ];
    let required: Vec<&'static str> = vec![];
    assert(properties_v(properties@) =~= audit_v().properties);
    assert(words_v(required@) =~= audit_v().required);
    Tool { name: "audit", title: "Audit the annotations", about: AUDIT, properties, required }
}

/// What `delete` does.
pub const DELETE: &'static str = "Deletes an annotation. Prefer resolve, which keeps what was said and what was done about it; use this for one that should not have been made. Example: {\"uuid\": \"g\"}";

/// The tool `delete`.
pub open spec fn delete_v() -> ToolV {
    ToolV {
        name: "delete"@,
        title: "Delete an annotation"@,
        about: DELETE@,
        properties: seq![
            PropertyV {
                name: "uuid"@,
                kind: "string"@,
                about: THE_ANNOTATION@,
            },
        ],
        required: seq!["uuid"@],
    }
}

/// The tool `delete`.
fn delete() -> (r: Tool)
    ensures
        r@ == delete_v(),
{
    let properties: Vec<Property> = vec![
        Property {
            name: "uuid",
            kind: "string",
            about: THE_ANNOTATION,
        },
    ];
    let required: Vec<&'static str> = vec!["uuid"];
    assert(properties_v(properties@) =~= delete_v().properties);
    assert(words_v(required@) =~= delete_v().required);
    Tool { name: "delete", title: "Delete an annotation", about: DELETE, properties, required }
}

/// What `reply` does.
pub const REPLY: &'static str = "Adds a message to an annotation's discussion, where the reader sees it. Example: {\"uuid\": \"g\", \"text\": \"Rewritten; the totals now agree.\", \"author\": \"agent\"}";

/// The tool `reply`.
pub open spec fn reply_v() -> ToolV {
    ToolV {
        name: "reply"@,
        title: "Reply to an annotation"@,
        about: REPLY@,
        properties: seq![
            PropertyV {
                name: "uuid"@,
                kind: "string"@,
                about: THE_ANNOTATION@,
            },
            PropertyV {
                name: "text"@,
                kind: "string"@,
                about: "What to say."@,
            },
            PropertyV {
                name: "author"@,
                kind: "string"@,
                about: "Who is saying it. Say who you are; the default is whoever is running the server."@,
            },
        ],
        required: seq!["uuid"@, "text"@],
    }
}

/// The tool `reply`.
fn reply() -> (r: Tool)
    ensures
        r@ == reply_v(),
{
    let properties: Vec<Property> = vec![
        Property {
            name: "uuid",
            kind: "string",
            about: THE_ANNOTATION,
        },
        Property {
            name: "text",
            kind: "string",
            about: "What to say.",
        },
        Property {
            name: "author",
            kind: "string",
            about: "Who is saying it. Say who you are; the default is whoever is running the server.",
        },
    ];
    let required: Vec<&'static str> = vec!["uuid", "text"];
    assert(properties_v(properties@) =~= reply_v().properties);
    assert(words_v(required@) =~= reply_v().required);
    Tool { name: "reply", title: "Reply to an annotation", about: REPLY, properties, required }
}

/// What `resolve` does.
pub const RESOLVE: &'static str = "Says what was done and marks the annotation resolved, which ends the thread and releases the claim. Example: {\"uuid\": \"g\", \"text\": \"Fixed in the summary table.\", \"author\": \"agent\"}";

/// The tool `resolve`.
pub open spec fn resolve_v() -> ToolV {
    ToolV {
        name: "resolve"@,
        title: "Resolve an annotation"@,
        about: RESOLVE@,
        properties: seq![
            PropertyV {
                name: "uuid"@,
                kind: "string"@,
                about: THE_ANNOTATION@,
            },
            PropertyV {
                name: "text"@,
                kind: "string"@,
                about: "What was done. Added to the discussion first."@,
            },
            PropertyV {
                name: "author"@,
                kind: "string"@,
                about: "Who did it. Say who you are; the default is whoever is running the server."@,
            },
        ],
        required: seq!["uuid"@],
    }
}

/// The tool `resolve`.
fn resolve() -> (r: Tool)
    ensures
        r@ == resolve_v(),
{
    let properties: Vec<Property> = vec![
        Property {
            name: "uuid",
            kind: "string",
            about: THE_ANNOTATION,
        },
        Property {
            name: "text",
            kind: "string",
            about: "What was done. Added to the discussion first.",
        },
        Property {
            name: "author",
            kind: "string",
            about: "Who did it. Say who you are; the default is whoever is running the server.",
        },
    ];
    let required: Vec<&'static str> = vec!["uuid"];
    assert(properties_v(properties@) =~= resolve_v().properties);
    assert(words_v(required@) =~= resolve_v().required);
    Tool { name: "resolve", title: "Resolve an annotation", about: RESOLVE, properties, required }
}

/// Every tool an agent can call, in the order it will want them.
pub open spec fn tools_v() -> Seq<ToolV> {
    seq![
        list_documents_v(),
        list_annotations_v(),
        wait_for_annotations_v(),
        get_annotation_v(),
        claim_v(),
        release_v(),
        get_block_v(),
        replace_block_v(),
        get_capture_v(),
        annotate_v(),
        audit_v(),
        delete_v(),
        reply_v(),
        resolve_v(),
    ]
}

/// Every tool an agent can call, in the order it will want them.
pub fn tools() -> (r: Vec<Tool>)
    ensures
        r@.map_values(|t: Tool| t@) == tools_v(),
{
    let out: Vec<Tool> = vec![
        list_documents(),
        list_annotations(),
        wait_for_annotations(),
        get_annotation(),
        claim(),
        release(),
        get_block(),
        replace_block(),
        get_capture(),
        annotate(),
        audit(),
        delete(),
        reply(),
        resolve(),
    ];
    assert(out@.map_values(|t: Tool| t@) =~= tools_v());
    out
}

/// The list of the tools, as it is answered.
pub open spec fn tool_list_v() -> JsonV {
    JsonV::Object(
        seq![("tools"@, JsonV::List(tools_v().map_values(|t: ToolV| tool_json(t))))],
    )
}

/// The list of the tools, as it is answered.
pub fn tool_list() -> (r: Json)
    ensures
        json_v(r) == tool_list_v(),
{
    let list: Vec<Tool> = tools();
    let all: JsonList = written_all(&list);
    proof {
        let given = list@.map_values(|t: Tool| t@);
        assert(all@ =~= given.map_values(|t: ToolV| tool_json(t)));
    }
    let mut out: JsonObject = JsonObject::new();
    out.put("tools", all.done());
    assert(out@ =~= tool_list_v()->Object_0);
    out.done()
}

} // verus!

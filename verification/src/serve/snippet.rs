//! Rendering a fragment of Typst beside a document, and throwing it away.

use vstd::prelude::*;
use vstd::string::*;

use crate::json::{json_v, text_list, texts_v, Json, JsonObject, JsonV};
use crate::num::{decimal, decimal_of};
use crate::render::markup::{fragment, page_body};
use crate::text::{same, texts};

verus! {

/// What a snippet can be rendered as.
#[derive(Debug, Clone, Copy, PartialEq, Eq, Structural)]
pub enum SnippetFormat {
    /// A picture.
    Png,
    /// A page.
    Pdf,
    /// A drawing.
    Svg,
    /// A piece of a web page.
    Html,
}

/// What a snippet is rendered as where a name is given: a picture, where none
/// is.
pub open spec fn snippet_format(name: Seq<char>) -> Option<SnippetFormat> {
    if name == ""@ || name == "png"@ {
        Some(SnippetFormat::Png)
    } else if name == "pdf"@ {
        Some(SnippetFormat::Pdf)
    } else if name == "svg"@ {
        Some(SnippetFormat::Svg)
    } else if name == "html"@ {
        Some(SnippetFormat::Html)
    } else {
        None
    }
}

/// The name of a format.
pub open spec fn snippet_name(format: SnippetFormat) -> Seq<char> {
    match format {
        SnippetFormat::Png => "png"@,
        SnippetFormat::Pdf => "pdf"@,
        SnippetFormat::Svg => "svg"@,
        SnippetFormat::Html => "html"@,
    }
}

/// What a snippet can be rendered as.
pub fn known(format: &str) -> (r: Result<SnippetFormat, String>)
    ensures
        match snippet_format(format@) {
            Some(f) => r is Ok && r->Ok_0 == f,
            None => r is Err && r->Err_0@ == "cannot render a snippet as "@ + format@
                + ": png, pdf, svg or html"@,
        },
{
    if same(format, "") || same(format, "png") {
        Ok(SnippetFormat::Png)
    } else if same(format, "pdf") {
        Ok(SnippetFormat::Pdf)
    } else if same(format, "svg") {
        Ok(SnippetFormat::Svg)
    } else if same(format, "html") {
        Ok(SnippetFormat::Html)
    } else {
        let mut out: String = "cannot render a snippet as ".to_string();
        out.append(format);
        out.append(": png, pdf, svg or html");
        Err(out)
    }
}

impl SnippetFormat {
    /// The name of the format.
    pub fn name(self) -> (r: &'static str)
        ensures
            r@ == snippet_name(self),
    {
        match self {
            SnippetFormat::Png => "png",
            SnippetFormat::Pdf => "pdf",
            SnippetFormat::Svg => "svg",
            SnippetFormat::Html => "html",
        }
    }
}

/// The name of the file a snippet is compiled from, beside the document: after
/// the process and the moment, so that two asked for at once are two files.
pub fn scratch_name(pid: u32, millis: u64) -> (r: String)
    ensures
        r@ == ".snippet-"@ + decimal(pid as nat) + "-"@ + decimal(millis as nat) + ".typ"@,
{
    let mut out: String = ".snippet-".to_string();
    out.append(decimal_of(pid as u64).as_str());
    out.append("-");
    out.append(decimal_of(millis).as_str());
    out.append(".typ");
    out
}

/// Some bytes written in base64.
pub uninterp spec fn base64_text(bytes: Seq<u8>) -> Seq<char>;

/// `base64::engine::general_purpose::STANDARD.encode`: some bytes written in
/// base64.
#[verifier::external_body]
pub(crate) fn to_base64(bytes: &[u8]) -> (r: String)
    ensures
        r@ == base64_text(bytes@),
{
    let engine = base64::engine::general_purpose::STANDARD;
    base64::Engine::encode(&engine, bytes)
}

/// How a snippet came out.
#[derive(Debug)]
pub enum Outcome {
    /// It did not compile.
    Failed,
    /// The page it came to.
    Page(String),
    /// The PDF it came to.
    Pdf(Vec<u8>),
    /// The drawing it came to.
    Drawing(String),
    /// The picture it came to: its bytes, and how wide and tall it is.
    Picture(Vec<u8>, u32, u32),
}

/// A picture or a page inside an answer: what it is, and its bytes in base64.
pub open spec fn image_v(mime: Seq<char>, data: Seq<char>) -> JsonV {
    JsonV::Object(seq![("mimeType"@, JsonV::Text(mime)), ("data"@, JsonV::Text(data))])
}

/// A picture or a page inside an answer.
pub fn image(mime: &str, data: &str) -> (r: Json)
    ensures
        json_v(r) == image_v(mime@, data@),
{
    let mut out: JsonObject = JsonObject::new();
    out.put("mimeType", Json::text(mime));
    out.put("data", Json::text(data));
    assert(out@ =~= image_v(mime@, data@)->Object_0);
    out.done()
}

/// What an answer says of how a snippet came out, of its bytes in base64.
pub open spec fn outcome_v(outcome: Outcome, data: Seq<char>) -> Seq<(Seq<char>, JsonV)> {
    match outcome {
        Outcome::Failed => seq![],
        Outcome::Page(html) => seq![("html"@, JsonV::Text(page_body(html@)))],
        Outcome::Pdf(bytes) => seq![
            ("image"@, image_v("application/pdf"@, data)),
            ("bytes"@, JsonV::Number(bytes@.len() as int)),
        ],
        Outcome::Drawing(svg) => seq![("svg"@, JsonV::Text(svg@))],
        Outcome::Picture(bytes, width, height) => seq![
            ("image"@, image_v("image/png"@, data)),
            ("width"@, JsonV::Number(width as int)),
            ("height"@, JsonV::Number(height as int)),
        ],
    }
}

/// The bytes of how a snippet came out, where it came to bytes.
pub open spec fn outcome_bytes(outcome: Outcome) -> Seq<u8> {
    match outcome {
        Outcome::Pdf(bytes) => bytes@,
        Outcome::Picture(bytes, _, _) => bytes@,
        _ => seq![],
    }
}

/// What is answered where a snippet was rendered. The answer carries the
/// diagnostics whether or not it compiled: a snippet that fails is exactly the
/// case whose message is wanted.
pub open spec fn rendered_v(
    format: SnippetFormat,
    diagnostics: Seq<Seq<char>>,
    outcome: Outcome,
    data: Seq<char>,
) -> JsonV {
    JsonV::Object(
        seq![
            ("ok"@, JsonV::Bool(!(outcome is Failed))),
            ("format"@, JsonV::Text(snippet_name(format))),
            ("diagnostics"@, JsonV::List(texts_v(diagnostics))),
        ] + outcome_v(outcome, data),
    )
}

/// What is answered where a snippet was rendered, of its bytes in base64.
pub fn rendered(
    format: SnippetFormat,
    diagnostics: &Vec<String>,
    outcome: &Outcome,
    data: &str,
) -> (r: Json)
    ensures
        json_v(r) == rendered_v(format, texts(diagnostics@), *outcome, data@),
{
    let mut out: JsonObject = JsonObject::new();
    out.put(
        "ok",
        Json::Bool(
            match outcome {
                Outcome::Failed => false,
                _ => true,
            },
        ),
    );
    out.put("format", Json::text(format.name()));
    out.put("diagnostics", text_list(diagnostics));
    match outcome {
        Outcome::Failed => {},
        Outcome::Page(html) => {
            out.put("html", Json::Text(fragment(html.as_str()).body));
        },
        Outcome::Pdf(bytes) => {
            out.put("image", image("application/pdf", data));
            out.put("bytes", Json::count(bytes.len()));
        },
        Outcome::Drawing(svg) => {
            out.put("svg", Json::text(svg.as_str()));
        },
        Outcome::Picture(_, width, height) => {
            out.put("image", image("image/png", data));
            out.put("width", Json::Number(*width as u64));
            out.put("height", Json::Number(*height as u64));
        },
    }
    assert(out@ =~= rendered_v(format, texts(diagnostics@), *outcome, data@)->Object_0);
    out.done()
}

/// What is answered where a snippet was rendered.
pub fn answer(format: SnippetFormat, diagnostics: &Vec<String>, outcome: &Outcome) -> (r: Json)
    ensures
        json_v(r) == rendered_v(
            format,
            texts(diagnostics@),
            *outcome,
            base64_text(outcome_bytes(*outcome)),
        ),
{
    let data: String = match outcome {
        Outcome::Pdf(bytes) => to_base64(bytes.as_slice()),
        Outcome::Picture(bytes, _, _) => to_base64(bytes.as_slice()),
        _ => {
            let none: Vec<u8> = Vec::new();
            assert(none@ =~= seq![]);
            to_base64(none.as_slice())
        },
    };
    rendered(format, diagnostics, outcome, data.as_str())
}

} // verus!

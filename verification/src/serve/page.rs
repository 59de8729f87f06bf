//! The annotations of a document as a page, for looking at what the server
//! thinks it has: one card per annotation, its captures as pictures, its
//! discussion in order, and the block an agent would be handed for it.

use vstd::prelude::*;
use vstd::string::*;

use crate::num::{decimal, decimal_of};
use crate::serve::rewrite::{Anchor, SourceBlock};
use crate::serve::store::{
    Annotation, AnnotationV, Capture, CaptureV, Reply, ReplyV, ScribbleV, Sidecar,
};
use crate::text::{
    a_replaced_character_is_gone, begins, is_empty, join, joined, lemma_found_one, lines, lines_of,
    replace, replaced, replacing_brings_in_nothing_else, same, starts_with, texts,
};

verus! {

/// Text that is going into HTML.
pub open spec fn escaped(text: Seq<char>) -> Seq<char> {
    replace(
        replace(replace(replace(text, "&"@, "&amp;"@), "<"@, "&lt;"@), ">"@, "&gt;"@),
        "\""@,
        "&quot;"@,
    )
}

/// Text that is going into HTML.
pub fn escape(text: &str) -> (r: String)
    ensures
        r@ == escaped(text@),
{
    proof {
        reveal_strlit("&");
        reveal_strlit("<");
        reveal_strlit(">");
        reveal_strlit("\"");
    }
    let a: String = replaced(text, "&", "&amp;");
    let b: String = replaced(a.as_str(), "<", "&lt;");
    let c: String = replaced(b.as_str(), ">", "&gt;");
    replaced(c.as_str(), "\"", "&quot;")
}

/// A text as it is shown to someone debugging: in quotes, with escapes.
pub uninterp spec fn debug_text(text: Seq<char>) -> Seq<char>;

/// `format!("{:?}")` of a text: the text in quotes, with escapes.
#[verifier::external_body]
fn quoted(text: &str) -> (r: String)
    ensures
        r@ == debug_text(text@),
{
    format!("{text:?}")
}

/// Some texts as they are shown to someone debugging.
pub open spec fn debug_texts(list: Seq<Seq<char>>) -> Seq<char> {
    "["@ + join(list.map_values(|t: Seq<char>| debug_text(t)), ", "@) + "]"@
}

/// Some texts, shown as a list.
fn quoted_list(list: &Vec<String>) -> (r: String)
    ensures
        r@ == debug_texts(texts(list@)),
{
    let ghost all = texts(list@).map_values(|t: Seq<char>| debug_text(t));
    let mut parts: Vec<String> = Vec::new();
    let mut i: usize = 0;
    while i < list.len()
        invariant
            i <= list@.len(),
            all == texts(list@).map_values(|t: Seq<char>| debug_text(t)),
            texts(parts@) == all.take(i as int),
        decreases list@.len() - i,
    {
        let ghost before = texts(parts@);
        parts.push(quoted(list[i].as_str()));
        assert(texts(parts@) =~= before.push(debug_text(list@[i as int]@)));
        assert(texts(parts@) =~= all.take(i + 1));
        i = i + 1;
    }
    assert(all.take(i as int) =~= all);
    let mut out: String = "[".to_string();
    out.append(joined(&parts, ", ").as_str());
    out.append("]");
    out
}

// ------------------------------------------------------------------- the block

/// One field of a block, a line each.
pub open spec fn row_v(key: Seq<char>, value: Seq<char>) -> Seq<char> {
    "<div class=\"row\"><span class=\"key\">"@ + key + "</span>"@ + value + "</div>"@
}

/// One field of a block.
fn row(key: &str, value: &str) -> (r: String)
    ensures
        r@ == row_v(key@, value@),
{
    let mut out: String = "<div class=\"row\"><span class=\"key\">".to_string();
    out.append(key);
    out.append("</span>");
    out.append(value);
    out.append("</div>");
    out
}

/// What is shown of an anchor.
pub open spec fn anchor_v(a: Anchor) -> Seq<char> {
    "{ref: "@ + debug_text(a.reference@) + ", at: "@ + decimal(a.at as nat) + ", label: "@
        + debug_text(a.label@) + ", annotations: "@ + debug_texts(texts(a.annotations@)) + "}"@
}

/// What is shown of an anchor.
fn anchor_text(a: &Anchor) -> (r: String)
    ensures
        r@ == anchor_v(*a),
{
    let mut out: String = "{ref: ".to_string();
    out.append(quoted(a.reference.as_str()).as_str());
    out.append(", at: ");
    out.append(decimal_of(a.at as u64).as_str());
    out.append(", label: ");
    out.append(quoted(a.label.as_str()).as_str());
    out.append(", annotations: ");
    out.append(quoted_list(&a.annotations).as_str());
    out.append("}");
    out
}

/// The first of some anchors, a row each, named by its place.
pub open spec fn anchor_rows(anchors: Seq<Anchor>, n: nat) -> Seq<char>
    decreases n,
{
    if n == 0 || n > anchors.len() {
        seq![]
    } else {
        let i = (n - 1) as nat;
        anchor_rows(anchors, i) + row_v(
            "anchors["@ + decimal(i) + "]"@,
            escaped(anchor_v(anchors[i as int])),
        )
    }
}

/// The anchors of a block: a block with three of them is three lines that can be
/// read down, not one list to be counted through.
pub open spec fn anchors_v(anchors: Seq<Anchor>) -> Seq<char> {
    if anchors.len() == 0 {
        row_v("anchors"@, "[]"@)
    } else {
        anchor_rows(anchors, anchors.len())
    }
}

/// The anchors of a block.
fn anchor_fields(anchors: &Vec<Anchor>) -> (r: String)
    ensures
        r@ == anchors_v(anchors@),
{
    if anchors.len() == 0 {
        return row("anchors", "[]");
    }
    let mut out: String = String::new();
    let mut i: usize = 0;
    assert(out@ =~= anchor_rows(anchors@, 0));
    while i < anchors.len()
        invariant
            i <= anchors@.len(),
            out@ == anchor_rows(anchors@, i as nat),
        decreases anchors@.len() - i,
    {
        let mut key: String = "anchors[".to_string();
        key.append(decimal_of(i as u64).as_str());
        key.append("]");
        out.append(row(key.as_str(), escape(anchor_text(&anchors[i]).as_str()).as_str()).as_str());
        i = i + 1;
    }
    out
}

/// How many lines of a long block are shown at each end before it is folded.
pub const SHOWN_LINES: usize = 5;

/// The first of some lines, each its own element.
pub open spec fn line_spans(list: Seq<Seq<char>>, n: nat) -> Seq<char>
    decreases n,
{
    if n == 0 || n > list.len() {
        seq![]
    } else {
        line_spans(list, (n - 1) as nat) + ("<span class=\"ln\">"@ + escaped(list[n - 1])
            + "\n</span>"@)
    }
}

/// A block's source. A long one is folded to its head and tail.
pub open spec fn source_v(block_id: Seq<char>, text: Seq<char>) -> Seq<char> {
    let list = lines(text);
    let body = line_spans(list, list.len());
    if list.len() <= SHOWN_LINES * 2 {
        "<div class=\"src\"><pre>"@ + body + "</pre></div>"@
    } else {
        "<div class=\"src folded\"><input type=\"checkbox\" id=\"src-"@ + escaped(block_id)
            + "\" class=\"fold\" hidden><pre>"@ + body + "</pre><label class=\"more\" for=\"src-"@
            + escaped(block_id) + "\"><span class=\"when-folded\">⋯ "@ + decimal(
            (list.len() - SHOWN_LINES * 2) as nat,
        ) + " more lines</span><span class=\"when-open\">⋯ fold back to "@ + decimal(
            (SHOWN_LINES * 2) as nat,
        ) + " lines</span></label></div>"@
    }
}

/// A block's source, shown rather than hidden. A long one is folded to its head
/// and tail with a row of dots between, which toggles the whole thing: by a
/// checkbox, since the page has no script.
pub fn block_text(block_id: &str, text: &str) -> (r: String)
    ensures
        r@ == source_v(block_id@, text@),
{
    let list: Vec<String> = lines_of(text);
    let ghost all = lines(text@);
    assert(texts(list@).len() == list@.len());
    let mut body: String = String::new();
    let mut i: usize = 0;
    assert(body@ =~= line_spans(all, 0));
    while i < list.len()
        invariant
            i <= list@.len(),
            all == texts(list@),
            all.len() == list@.len(),
            body@ == line_spans(all, i as nat),
        decreases list@.len() - i,
    {
        let ghost before = body@;
        let mut one: String = "<span class=\"ln\">".to_string();
        one.append(escape(list[i].as_str()).as_str());
        one.append("\n</span>");
        assert(all[i as int] == list@[i as int]@);
        body.append(one.as_str());
        i = i + 1;
    }
    if list.len() <= SHOWN_LINES * 2 {
        let mut out: String = "<div class=\"src\"><pre>".to_string();
        out.append(body.as_str());
        out.append("</pre></div>");
        return out;
    }
    let id: String = escape(block_id);
    let mut out: String = "<div class=\"src folded\"><input type=\"checkbox\" id=\"src-".to_string();
    out.append(id.as_str());
    out.append("\" class=\"fold\" hidden><pre>");
    out.append(body.as_str());
    out.append("</pre><label class=\"more\" for=\"src-");
    out.append(id.as_str());
    out.append("\"><span class=\"when-folded\">⋯ ");
    out.append(decimal_of((list.len() - SHOWN_LINES * 2) as u64).as_str());
    out.append(" more lines</span><span class=\"when-open\">⋯ fold back to ");
    out.append(decimal_of((SHOWN_LINES * 2) as u64).as_str());
    out.append(" lines</span></label></div>");
    out
}

/// Two numbers and a dash between them.
pub open spec fn span_v(range: (usize, usize)) -> Seq<char> {
    decimal(range.0 as nat) + "–"@ + decimal(range.1 as nat)
}

/// Two numbers and a dash between them.
fn span_text(range: (usize, usize)) -> (r: String)
    ensures
        r@ == span_v(range),
{
    let mut out: String = decimal_of(range.0 as u64);
    out.append("–");
    out.append(decimal_of(range.1 as u64).as_str());
    out
}

/// The block an annotation sits in, field by field.
pub open spec fn block_v(block: SourceBlock) -> Seq<char> {
    "<div class=\"block\">"@ + row_v("blockId"@, escaped(block.block_id@)) + row_v(
        "file"@,
        escaped(block.file@),
    ) + row_v("range"@, span_v(block.range)) + row_v("lines"@, span_v(block.lines)) + row_v(
        "headingPath"@,
        escaped(debug_texts(texts(block.heading_path@))),
    ) + anchors_v(block.anchors@) + source_v(block.block_id@, block.text@) + "</div>"@
}

/// The block an annotation sits in, field by field: a line each, so that its
/// shape is readable down the page instead of across it.
pub fn block_fields(block: &SourceBlock) -> (r: String)
    ensures
        r@ == block_v(*block),
{
    let mut out: String = "<div class=\"block\">".to_string();
    out.append(row("blockId", escape(block.block_id.as_str()).as_str()).as_str());
    out.append(row("file", escape(block.file.as_str()).as_str()).as_str());
    out.append(row("range", span_text(block.range).as_str()).as_str());
    out.append(row("lines", span_text(block.lines).as_str()).as_str());
    out.append(
        row("headingPath", escape(quoted_list(&block.heading_path).as_str()).as_str()).as_str(),
    );
    out.append(anchor_fields(&block.anchors).as_str());
    out.append(block_text(block.block_id.as_str(), block.text.as_str()).as_str());
    out.append("</div>");
    out
}

// -------------------------------------------------------------------- the card

/// What a drawing on a capture calls it: its id, or the hash it is stored under
/// where it has none.
pub open spec fn capture_called(c: CaptureV) -> Seq<char> {
    if c.id.len() == 0 {
        c.hash
    } else {
        c.id
    }
}

/// Whether a drawing is on a picture of a name.
pub open spec fn drawn_over(s: Option<ScribbleV>, name: Seq<char>) -> bool {
    s matches Some(s) && s.capture == name
}

/// Whether anything in a record is drawn on a picture of a name: the remark that
/// made it, or a reply.
pub open spec fn scribbled_on(a: AnnotationV, name: Seq<char>) -> bool {
    drawn_over(a.scribble, name) || exists|k: int|
        0 <= k < a.discussion.len() && drawn_over((#[trigger] a.discussion[k]).scribble, name)
}

/// A picture in a card.
pub open spec fn shot_v(a: AnnotationV, c: CaptureV, root: Seq<char>) -> Seq<char> {
    "<figure style=\"margin:0\"><img src=\""@ + root + "/dev/capture/"@ + escaped(c.hash) + "."@
        + escaped(c.fmt) + "\" alt=\"capture "@ + escaped(c.hash) + "\" width=\""@ + decimal(
        c.width as nat,
    ) + "\" height=\""@ + decimal(c.height as nat) + "\"><div class=\"cap\">"@ + escaped(c.time)
        + " · "@ + escaped(c.hash) + " · "@ + decimal(c.width as nat) + "×"@ + decimal(
        c.height as nat,
    ) + (if scribbled_on(a, capture_called(c)) {
        " · scribbled on"@
    } else {
        ""@
    }) + "</div></figure>"@
}

/// The first of a record's pictures.
pub open spec fn shots_v(a: AnnotationV, root: Seq<char>, n: nat) -> Seq<char>
    decreases n,
{
    if n == 0 || n > a.captures.len() {
        seq![]
    } else {
        shots_v(a, root, (n - 1) as nat) + shot_v(a, a.captures[n - 1], root)
    }
}

/// The pictures of a record.
pub open spec fn captures_v(a: AnnotationV, root: Seq<char>) -> Seq<char> {
    if a.captures.len() == 0 {
        seq![]
    } else {
        "<div class=\"stack\">"@ + shots_v(a, root, a.captures.len()) + "</div>"@
    }
}

/// A reply in a card.
pub open spec fn reply_v(r: ReplyV) -> Seq<char> {
    "<div class=\"reply\"><span class=\"who\">"@ + escaped(r.author)
        + "</span> <span class=\"meta\">"@ + escaped(r.time) + "</span><div class=\"said\">"@
        + escaped(r.content) + "</div></div>"@
}

/// The first of some replies.
pub open spec fn reply_rows(list: Seq<ReplyV>, n: nat) -> Seq<char>
    decreases n,
{
    if n == 0 || n > list.len() {
        seq![]
    } else {
        reply_rows(list, (n - 1) as nat) + reply_v(list[n - 1])
    }
}

/// The discussion of a record.
pub open spec fn replies_v(list: Seq<ReplyV>) -> Seq<char> {
    if list.len() == 0 {
        seq![]
    } else {
        "<div class=\"replies\">"@ + reply_rows(list, list.len()) + "</div>"@
    }
}

/// A flag in a card, lit or not.
pub open spec fn flag_v(name: Seq<char>, on: bool) -> Seq<char> {
    "<span class=\"flag"@ + (if on {
        " on"@
    } else {
        ""@
    }) + "\">"@ + name + "</span>"@
}

/// The colour a card is drawn in: the annotation's, if it is one, or else grey.
pub open spec fn card_color(color: Seq<char>) -> Seq<char> {
    if begins(color, "#"@) && vstd::utf8::encode_utf8(color).len() == 7 {
        color
    } else {
        "#9aa0aa"@
    }
}

/// When a record changed, if it did since it was made.
pub open spec fn changed_v(a: AnnotationV) -> Seq<char> {
    if a.mtime.len() == 0 || a.mtime == a.time {
        seq![]
    } else {
        " · changed "@ + escaped(a.mtime)
    }
}

/// The block of a card: what an agent gets when it asks about the annotation.
pub open spec fn card_block(block: Result<SourceBlock, String>) -> Seq<char> {
    match block {
        Ok(block) => block_v(block),
        Err(e) => "<div class=\"block\">get_annotated_block failed: "@ + escaped(e@) + "</div>"@,
    }
}

/// One annotation as a card.
pub open spec fn card_v(
    a: AnnotationV,
    block: Result<SourceBlock, String>,
    root: Seq<char>,
) -> Seq<char> {
    let color = escaped(card_color(a.color));
    "<div class=\"anno"@ + (if a.resolved {
        " resolved"@
    } else {
        ""@
    }) + "\" style=\"border-left-color:"@ + color + "\" id=\""@ + escaped(a.uuid)
        + "\"><div class=\"head\"><span class=\"letter\" style=\"background:"@ + color + "\">"@
        + escaped(a.letter) + "</span><span class=\"uuid\">"@ + escaped(a.uuid)
        + "</span><span class=\"meta\">"@ + escaped(a.kind) + " · "@ + escaped(a.location.kind)
        + " · "@ + escaped(a.author) + " · "@ + escaped(a.time) + changed_v(a)
        + "</span><span class=\"flags\">"@ + flag_v("claimed"@, a.claimed) + flag_v(
        "resolved"@,
        a.resolved,
    ) + "</span></div><div class=\"body\"><div class=\"said\">"@ + escaped(a.content) + "</div>"@
        + captures_v(a, root) + replies_v(a.discussion) + card_block(block) + "</div></div>"@
}

/// A flag in a card.
fn flag(name: &str, on: bool) -> (r: String)
    ensures
        r@ == flag_v(name@, on),
{
    let mut out: String = "<span class=\"flag".to_string();
    out.append(
        if on {
            " on"
        } else {
            ""
        },
    );
    out.append("\">");
    out.append(name);
    out.append("</span>");
    out
}

/// Whether anything in a record is drawn on a picture of a name.
fn is_scribbled(rec: &Annotation, name: &str) -> (r: bool)
    ensures
        r == scribbled_on(rec@, name@),
{
    if let Some(s) = &rec.scribble {
        if same(s.capture.as_str(), name) {
            return true;
        }
    }
    let mut i: usize = 0;
    while i < rec.discussion.len()
        invariant
            i <= rec.discussion@.len(),
            !drawn_over(rec@.scribble, name@),
            forall|k: int|
                0 <= k < i ==> !drawn_over((#[trigger] rec@.discussion[k]).scribble, name@),
        decreases rec.discussion@.len() - i,
    {
        let reply: &Reply = &rec.discussion[i];
        assert(rec@.discussion[i as int] == reply@);
        if let Some(s) = &reply.scribble {
            if same(s.capture.as_str(), name) {
                assert(drawn_over(rec@.discussion[i as int].scribble, name@));
                return true;
            }
        }
        i = i + 1;
    }
    false
}

/// A picture in a card.
fn shot(rec: &Annotation, c: &Capture, root: &str) -> (r: String)
    ensures
        r@ == shot_v(rec@, c@, root@),
{
    let hash: String = escape(c.hash.as_str());
    let width: String = decimal_of(c.width as u64);
    let height: String = decimal_of(c.height as u64);
    let called: &str = if is_empty(c.id.as_str()) {
        c.hash.as_str()
    } else {
        c.id.as_str()
    };
    let mut out: String = "<figure style=\"margin:0\"><img src=\"".to_string();
    out.append(root);
    out.append("/dev/capture/");
    out.append(hash.as_str());
    out.append(".");
    out.append(escape(c.fmt.as_str()).as_str());
    out.append("\" alt=\"capture ");
    out.append(hash.as_str());
    out.append("\" width=\"");
    out.append(width.as_str());
    out.append("\" height=\"");
    out.append(height.as_str());
    out.append("\"><div class=\"cap\">");
    out.append(escape(c.time.as_str()).as_str());
    out.append(" · ");
    out.append(hash.as_str());
    out.append(" · ");
    out.append(width.as_str());
    out.append("×");
    out.append(height.as_str());
    out.append(
        if is_scribbled(rec, called) {
            " · scribbled on"
        } else {
            ""
        },
    );
    out.append("</div></figure>");
    out
}

/// The pictures of a record.
fn captures(rec: &Annotation, root: &str) -> (r: String)
    ensures
        r@ == captures_v(rec@, root@),
{
    let mut out: String = String::new();
    if rec.captures.len() == 0 {
        assert(out@ =~= seq![]);
        return out;
    }
    out.append("<div class=\"stack\">");
    let ghost opened = out@;
    let mut i: usize = 0;
    proof {
        assert(opened =~= "<div class=\"stack\">"@);
        assert(out@ =~= opened + shots_v(rec@, root@, 0));
    }
    while i < rec.captures.len()
        invariant
            i <= rec.captures@.len(),
            out@ == opened + shots_v(rec@, root@, i as nat),
        decreases rec.captures@.len() - i,
    {
        let ghost before = out@;
        let one: String = shot(rec, &rec.captures[i], root);
        assert(rec@.captures[i as int] == rec.captures@[i as int]@);
        out.append(one.as_str());
        i = i + 1;
        assert(out@ =~= opened + (shots_v(rec@, root@, (i - 1) as nat) + one@));
    }
    out.append("</div>");
    out
}

/// The discussion of a record.
fn replies(list: &Vec<Reply>, all: Ghost<Seq<ReplyV>>) -> (r: String)
    requires
        all@ == list@.map_values(|r: Reply| r@),
    ensures
        r@ == replies_v(all@),
{
    let mut out: String = String::new();
    if list.len() == 0 {
        assert(out@ =~= seq![]);
        return out;
    }
    out.append("<div class=\"replies\">");
    let ghost opened = out@;
    let mut i: usize = 0;
    proof {
        assert(opened =~= "<div class=\"replies\">"@);
        assert(out@ =~= opened + reply_rows(all@, 0));
    }
    while i < list.len()
        invariant
            i <= list@.len(),
            all@ == list@.map_values(|r: Reply| r@),
            out@ == opened + reply_rows(all@, i as nat),
        decreases list@.len() - i,
    {
        let reply: &Reply = &list[i];
        let mut one: String = "<div class=\"reply\"><span class=\"who\">".to_string();
        one.append(escape(reply.author.as_str()).as_str());
        one.append("</span> <span class=\"meta\">");
        one.append(escape(reply.time.as_str()).as_str());
        one.append("</span><div class=\"said\">");
        one.append(escape(reply.content.as_str()).as_str());
        one.append("</div></div>");
        assert(all@[i as int] == reply@);
        assert(one@ == reply_v(reply@));
        out.append(one.as_str());
        i = i + 1;
        assert(out@ =~= opened + (reply_rows(all@, (i - 1) as nat) + one@));
    }
    out.append("</div>");
    out
}

/// The colour a card is drawn in.
fn color_of(color: &str) -> (r: String)
    ensures
        r@ == card_color(color@),
{
    if starts_with(color, "#") && color.as_bytes().len() == 7 {
        color.to_string()
    } else {
        "#9aa0aa".to_string()
    }
}

/// When a record changed, if it did since it was made.
fn changed(rec: &Annotation) -> (r: String)
    ensures
        r@ == changed_v(rec@),
{
    if is_empty(rec.mtime.as_str()) || same(rec.mtime.as_str(), rec.time.as_str()) {
        let none: String = String::new();
        assert(none@ =~= seq![]);
        none
    } else {
        let mut out: String = " · changed ".to_string();
        out.append(escape(rec.mtime.as_str()).as_str());
        out
    }
}

/// The block of a card.
fn card_block_text(block: &Result<SourceBlock, String>) -> (r: String)
    ensures
        r@ == card_block(*block),
{
    match block {
        Ok(block) => block_fields(block),
        Err(e) => {
            let mut out: String = "<div class=\"block\">get_annotated_block failed: ".to_string();
            out.append(escape(e.as_str()).as_str());
            out.append("</div>");
            out
        },
    }
}

/// One annotation as a card. `block` is what an agent gets when it asks about
/// it: a wrong answer shows up here rather than only in a transcript.
pub fn card(rec: &Annotation, block: &Result<SourceBlock, String>, root: &str) -> (r: String)
    ensures
        r@ == card_v(rec@, *block, root@),
{
    let color: String = escape(color_of(rec.color.as_str()).as_str());
    let uuid: String = escape(rec.uuid.as_str());
    let mut out: String = "<div class=\"anno".to_string();
    out.append(
        if rec.resolved {
            " resolved"
        } else {
            ""
        },
    );
    out.append("\" style=\"border-left-color:");
    out.append(color.as_str());
    out.append("\" id=\"");
    out.append(uuid.as_str());
    out.append("\"><div class=\"head\"><span class=\"letter\" style=\"background:");
    out.append(color.as_str());
    out.append("\">");
    out.append(escape(rec.letter.as_str()).as_str());
    out.append("</span><span class=\"uuid\">");
    out.append(uuid.as_str());
    out.append("</span><span class=\"meta\">");
    out.append(escape(rec.kind.as_str()).as_str());
    out.append(" · ");
    out.append(escape(rec.location.kind.as_str()).as_str());
    out.append(" · ");
    out.append(escape(rec.author.as_str()).as_str());
    out.append(" · ");
    out.append(escape(rec.time.as_str()).as_str());
    out.append(changed(rec).as_str());
    out.append("</span><span class=\"flags\">");
    out.append(flag("claimed", rec.claimed).as_str());
    out.append(flag("resolved", rec.resolved).as_str());
    out.append("</span></div><div class=\"body\"><div class=\"said\">");
    out.append(escape(rec.content.as_str()).as_str());
    out.append("</div>");
    out.append(captures(rec, root).as_str());
    out.append(replies(&rec.discussion, Ghost(rec@.discussion)).as_str());
    out.append(card_block_text(block).as_str());
    out.append("</div></div>");
    out
}

// -------------------------------------------------------------------- the page

/// A page with its places filled.
pub open spec fn filled(
    shell: Seq<char>,
    title: Seq<char>,
    path: Seq<char>,
    entries: Seq<char>,
) -> Seq<char> {
    replace(
        replace(replace(shell, "${title}"@, escaped(title)), "${path}"@, escaped(path)),
        "${entries}"@,
        entries,
    )
}

/// The first of some cards.
pub open spec fn cards_v(
    list: Seq<AnnotationV>,
    blocks: Seq<Result<SourceBlock, String>>,
    root: Seq<char>,
    n: nat,
) -> Seq<char>
    decreases n,
{
    if n == 0 || n > list.len() {
        seq![]
    } else {
        cards_v(list, blocks, root, (n - 1) as nat) + card_v(list[n - 1], blocks[n - 1], root)
    }
}

/// The entries of a page.
pub open spec fn entries_v(
    list: Seq<AnnotationV>,
    blocks: Seq<Result<SourceBlock, String>>,
    root: Seq<char>,
) -> Seq<char> {
    if list.len() == 0 {
        "<p class=\"none\">no annotations</p>"@
    } else {
        cards_v(list, blocks, root, list.len())
    }
}

/// A page with its places filled.
fn fill(shell: &str, title: &str, path: &str, entries: &str) -> (r: String)
    ensures
        r@ == filled(shell@, title@, path@, entries@),
{
    proof {
        reveal_strlit("${title}");
        reveal_strlit("${path}");
        reveal_strlit("${entries}");
    }
    let a: String = replaced(shell, "${title}", escape(title).as_str());
    let b: String = replaced(a.as_str(), "${path}", escape(path).as_str());
    replaced(b.as_str(), "${entries}", entries)
}

/// The page where the annotations cannot be read.
pub fn failed_page(shell: &str, title: &str, path: &str, why: &str) -> (r: String)
    ensures
        r@ == filled(
            shell@,
            title@,
            path@,
            "<p class=\"none\">"@ + escaped(why@) + "</p>"@,
        ),
{
    let mut said: String = "<p class=\"none\">".to_string();
    said.append(escape(why).as_str());
    said.append("</p>");
    fill(shell, title, path, said.as_str())
}

/// The whole page for one document's annotations, each with the block it sits
/// in. `root` is where the captures are served from.
pub fn page(
    shell: &str,
    title: &str,
    path: &str,
    sidecar: &Sidecar,
    blocks: &Vec<Result<SourceBlock, String>>,
    root: &str,
) -> (r: String)
    requires
        blocks@.len() == sidecar@.len(),
    ensures
        r@ == filled(shell@, title@, path@, entries_v(sidecar@, blocks@, root@)),
{
    let mut entries: String = String::new();
    let n: usize = sidecar.annotations.len();
    if n == 0 {
        return fill(shell, title, path, "<p class=\"none\">no annotations</p>");
    }
    let mut i: usize = 0;
    assert(entries@ =~= cards_v(sidecar@, blocks@, root@, 0));
    while i < n
        invariant
            i <= n,
            n == sidecar.annotations@.len(),
            blocks@.len() == sidecar@.len(),
            entries@ == cards_v(sidecar@, blocks@, root@, i as nat),
        decreases n - i,
    {
        let one: String = card(&sidecar.annotations[i], &blocks[i], root);
        assert(sidecar@[i as int] == sidecar.annotations@[i as int]@);
        entries.append(one.as_str());
        i = i + 1;
    }
    fill(shell, title, path, entries.as_str())
}

/// What is escaped holds nothing that could be taken for markup.
pub proof fn nothing_escaped_is_markup(text: Seq<char>)
    ensures
        !escaped(text).contains('<'),
        !escaped(text).contains('>'),
        !escaped(text).contains('"'),
        !text.contains('&') && !text.contains('<') && !text.contains('>') && !text.contains('"')
            ==> escaped(text) == text,
{
    reveal_strlit("&");
    reveal_strlit("<");
    reveal_strlit(">");
    reveal_strlit("\"");
    reveal_strlit("&amp;");
    reveal_strlit("&lt;");
    reveal_strlit("&gt;");
    reveal_strlit("&quot;");
    assert("&"@ =~= seq!['&']);
    assert("<"@ =~= seq!['<']);
    assert(">"@ =~= seq!['>']);
    assert("\""@ =~= seq!['"']);
    let a = replace(text, "&"@, "&amp;"@);
    let b = replace(a, "<"@, "&lt;"@);
    let c = replace(b, ">"@, "&gt;"@);
    let d = replace(c, "\""@, "&quot;"@);
    a_replaced_character_is_gone(a, '<', "&lt;"@);
    a_replaced_character_is_gone(b, '>', "&gt;"@);
    a_replaced_character_is_gone(c, '"', "&quot;"@);
    replacing_brings_in_nothing_else(b, ">"@, "&gt;"@, '<');
    replacing_brings_in_nothing_else(c, "\""@, "&quot;"@, '<');
    replacing_brings_in_nothing_else(c, "\""@, "&quot;"@, '>');
    if !text.contains('&') && !text.contains('<') && !text.contains('>') && !text.contains('"') {
        lemma_not_there(text, '&', "&amp;"@);
        lemma_not_there(text, '<', "&lt;"@);
        lemma_not_there(text, '>', "&gt;"@);
        lemma_not_there(text, '"', "&quot;"@);
    }
}

/// What is not there is not replaced.
proof fn lemma_not_there(text: Seq<char>, c: char, to: Seq<char>)
    requires
        !text.contains(c),
    ensures
        replace(text, seq![c], to) == text,
{
    lemma_found_one(text, c);
    assert forall|k: int| 0 <= k < text.len() implies text[k] != c by {
        assert(text.contains(text[k]));
    }
}

} // verus!

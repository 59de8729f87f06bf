//! The sidecar of a previewed document: a Typst file of entries, one for each
//! annotation, kept beside the document.

use std::ops::Range;

use vstd::prelude::*;
use vstd::string::*;
use vstd::utf8::*;

use crate::bytes::{
    boundary, find_bytes, lemma_ascii_alone, lemma_encode_concat, lemma_encoded, rfind_bytes,
    splice, spliced,
};
use crate::labels::{is_label, valid_label};
use crate::text::{
    chars_of, expand, find_from, lemma_expand_concat, lemma_find_from_skip, lemma_rfind_upto,
    push, replace, replaced, rfind_upto, same, stands_at,
};

verus! {

/// A reply in an annotation's discussion.
#[derive(Debug)]
pub struct AnnotationReply {
    /// Who wrote it.
    pub author: String,
    /// When, ISO 8601 UTC.
    pub time: String,
    /// What it says.
    pub content: String,
}

/// An annotation as the sidecar holds it.
#[derive(Debug)]
pub struct AnnotationRecord {
    /// What kind of remark it is: a comment, a question, a request.
    pub rtype: String,
    /// Its name.
    pub uuid: String,
    /// The letter it is shown under.
    pub letter: String,
    /// Who wrote it.
    pub author: String,
    /// What it says.
    pub content: String,
    /// When, ISO 8601 UTC.
    pub time: String,
    /// How far it has got: created, ongoing or resolved.
    pub status: String,
    /// The discussion, in order.
    pub discussion: Vec<AnnotationReply>,
}

/// What a reply says.
pub struct ReplyView {
    /// Who wrote it.
    pub author: Seq<char>,
    /// When.
    pub time: Seq<char>,
    /// What it says.
    pub content: Seq<char>,
}

/// What a record says.
pub struct RecordView {
    /// What kind of remark it is.
    pub rtype: Seq<char>,
    /// Its name.
    pub uuid: Seq<char>,
    /// The letter it is shown under.
    pub letter: Seq<char>,
    /// Who wrote it.
    pub author: Seq<char>,
    /// What it says.
    pub content: Seq<char>,
    /// When.
    pub time: Seq<char>,
    /// How far it has got.
    pub status: Seq<char>,
    /// The discussion.
    pub discussion: Seq<ReplyView>,
}

impl View for AnnotationReply {
    type V = ReplyView;

    open spec fn view(&self) -> ReplyView {
        ReplyView { author: self.author@, time: self.time@, content: self.content@ }
    }
}

/// What the replies of a list say.
pub open spec fn replies(list: Seq<AnnotationReply>) -> Seq<ReplyView> {
    list.map_values(|r: AnnotationReply| r@)
}

/// The same replies again.
pub fn copy_replies(list: &Vec<AnnotationReply>) -> (r: Vec<AnnotationReply>)
    ensures
        replies(r@) == replies(list@),
{
    let mut out: Vec<AnnotationReply> = Vec::new();
    let mut i: usize = 0;
    while i < list.len()
        invariant
            i <= list@.len(),
            replies(out@) == replies(list@).take(i as int),
        decreases list@.len() - i,
    {
        let ghost before = out@;
        let reply: &AnnotationReply = &list[i];
        out.push(
            AnnotationReply {
                author: reply.author.as_str().to_owned(),
                time: reply.time.as_str().to_owned(),
                content: reply.content.as_str().to_owned(),
            },
        );
        assert(replies(out@) =~= replies(before).push(reply@));
        assert(replies(list@)[i as int] == list@[i as int]@);
        assert(replies(list@).take(i + 1) =~= replies(list@).take(i as int).push(
            replies(list@)[i as int],
        ));
        i = i + 1;
    }
    assert(replies(list@).take(list@.len() as int) =~= replies(list@));
    out
}

impl View for AnnotationRecord {
    type V = RecordView;

    open spec fn view(&self) -> RecordView {
        RecordView {
            rtype: self.rtype@,
            uuid: self.uuid@,
            letter: self.letter@,
            author: self.author@,
            content: self.content@,
            time: self.time@,
            status: self.status@,
            discussion: replies(self.discussion@),
        }
    }
}

/// What the records of a list say.
pub open spec fn records(list: Seq<AnnotationRecord>) -> Seq<RecordView> {
    list.map_values(|r: AnnotationRecord| r@)
}

// ------------------------------------------------------------------ escaping

/// A character as it is written inside a string of the sidecar.
pub open spec fn escape_char(c: char) -> Seq<char> {
    if c == '\\' {
        seq!['\\', '\\']
    } else if c == '"' {
        seq!['\\', '"']
    } else if c == '\n' {
        seq!['\\', 'n']
    } else {
        seq![c]
    }
}

/// A text as it is written inside a string of the sidecar.
pub open spec fn escaped(text: Seq<char>) -> Seq<char> {
    expand(text, |c: char| escape_char(c))
}

/// A text as it is written inside a string of the sidecar: backslashes, quotes
/// and newlines behind a backslash.
pub fn escape(text: &str) -> (r: String)
    ensures
        r@ == escaped(text@),
{
    let t: Vec<char> = chars_of(text);
    let mut out: String = String::new();
    let mut i: usize = 0;
    let ghost f = |c: char| escape_char(c);
    while i < t.len()
        invariant
            i <= t@.len(),
            t@ == text@,
            f == (|c: char| escape_char(c)),
            out@ == expand(text@.take(i as int), f),
        decreases t@.len() - i,
    {
        let c: char = t[i];
        let ghost before = out@;
        if c == '\\' {
            push(&mut out, '\\');
            push(&mut out, '\\');
        } else if c == '"' {
            push(&mut out, '\\');
            push(&mut out, '"');
        } else if c == '\n' {
            push(&mut out, '\\');
            push(&mut out, 'n');
        } else {
            push(&mut out, c);
        }
        assert(out@ =~= before + escape_char(c));
        i = i + 1;
        assert(text@.take(i as int).drop_last() =~= text@.take(i - 1));
        assert(text@.take(i as int).last() == c);
    }
    assert(text@.take(i as int) =~= text@);
    out
}

/// What an escaped text reads as: what follows a backslash stands for itself,
/// but for `n`, which stands for a newline.
pub open spec fn unescaped(text: Seq<char>) -> Seq<char>
    decreases text.len(),
{
    if text.len() == 0 {
        seq![]
    } else if text[0] == '\\' && text.len() >= 2 {
        seq![
            if text[1] == 'n' {
                '\n'
            } else {
                text[1]
            },
        ] + unescaped(text.skip(2))
    } else {
        seq![text[0]] + unescaped(text.skip(1))
    }
}

/// What is written escaped reads back as it was.
pub proof fn escape_reads_back(text: Seq<char>)
    ensures
        unescaped(escaped(text)) == text,
    decreases text.len(),
{
    let f = |c: char| escape_char(c);
    if text.len() > 0 {
        let c = text[0];
        let rest = text.skip(1);
        escape_reads_back(rest);
        assert(text =~= seq![c] + rest);
        lemma_expand_concat(seq![c], rest, f);
        assert(seq![c].drop_last() =~= Seq::<char>::empty());
        assert(expand(seq![c].drop_last(), f) =~= Seq::<char>::empty());
        assert(expand(seq![c], f) =~= escape_char(c));
        let whole = escaped(text);
        assert(whole =~= escape_char(c) + escaped(rest));
        if escape_char(c).len() == 2 {
            assert(whole.skip(2) =~= escaped(rest));
        } else {
            assert(whole.skip(1) =~= escaped(rest));
        }
        assert(unescaped(whole) =~= seq![c] + rest);
    } else {
        assert(escaped(text) =~= Seq::<char>::empty());
        assert(unescaped(escaped(text)) =~= text);
    }
}

/// An escaped text is one line, and no quote in it ends the string it is in:
/// each stands behind a backslash.
pub proof fn escape_stays_inside(text: Seq<char>, i: int)
    requires
        0 <= i < escaped(text).len(),
    ensures
        escaped(text)[i] != '\n',
        escaped(text)[i] == '"' ==> i > 0 && escaped(text)[i - 1] == '\\',
    decreases text.len(),
{
    let f = |c: char| escape_char(c);
    let head = escaped(text.drop_last());
    let tail = escape_char(text.last());
    assert(escaped(text) =~= head + tail);
    if i < head.len() {
        escape_stays_inside(text.drop_last(), i);
    }
}

// ---------------------------------------------------------- writing an entry

/// One reply, in the template for one.
pub open spec fn reply_entry(template: Seq<char>, reply: ReplyView) -> Seq<char> {
    let a = replace(template, "${author}"@, escaped(reply.author));
    let b = replace(a, "${time}"@, escaped(reply.time));
    replace(b, "${content}"@, escaped(reply.content))
}

/// The replies of a discussion, one after another.
pub open spec fn reply_entries(template: Seq<char>, list: Seq<ReplyView>) -> Seq<char>
    decreases list.len(),
{
    if list.len() == 0 {
        seq![]
    } else {
        reply_entries(template, list.drop_last()) + reply_entry(template, list.last())
    }
}

/// A discussion as an entry holds it.
pub open spec fn discussion_entry(template: Seq<char>, list: Seq<ReplyView>) -> Seq<char> {
    if list.len() == 0 {
        "()"@
    } else {
        "(\n"@ + reply_entries(template, list) + "  )"@
    }
}

/// One annotation, in the template for one.
pub open spec fn entry(
    entry_template: Seq<char>,
    reply_template: Seq<char>,
    rec: RecordView,
) -> Seq<char> {
    let a = replace(entry_template, "${type}"@, escaped(rec.rtype));
    let b = replace(a, "${uuid}"@, escaped(rec.uuid));
    let c = replace(b, "${letter}"@, escaped(rec.letter));
    let d = replace(c, "${author}"@, escaped(rec.author));
    let e = replace(d, "${content}"@, escaped(rec.content));
    let f = replace(e, "${time}"@, escaped(rec.time));
    let g = replace(f, "${status}"@, escaped(rec.status));
    replace(g, "${discussion}"@, discussion_entry(reply_template, rec.discussion))
}

/// The placeholders of the templates.
proof fn lemma_placeholders()
    ensures
        "${type}"@.len() > 0,
        "${uuid}"@.len() > 0,
        "${letter}"@.len() > 0,
        "${author}"@.len() > 0,
        "${content}"@.len() > 0,
        "${time}"@.len() > 0,
        "${status}"@.len() > 0,
        "${discussion}"@.len() > 0,
{
    reveal_strlit("${type}");
    reveal_strlit("${uuid}");
    reveal_strlit("${letter}");
    reveal_strlit("${author}");
    reveal_strlit("${content}");
    reveal_strlit("${time}");
    reveal_strlit("${status}");
    reveal_strlit("${discussion}");
}

/// One reply, in the template for one.
fn format_reply(template: &str, reply: &AnnotationReply) -> (r: String)
    ensures
        r@ == reply_entry(template@, reply@),
{
    proof {
        lemma_placeholders();
    }
    let author: String = escape(reply.author.as_str());
    let time: String = escape(reply.time.as_str());
    let content: String = escape(reply.content.as_str());
    let a: String = replaced(template, "${author}", author.as_str());
    let b: String = replaced(a.as_str(), "${time}", time.as_str());
    replaced(b.as_str(), "${content}", content.as_str())
}

/// Formats an annotation as an entry of the sidecar, in the two templates.
pub fn format_record(rec: &AnnotationRecord, entry_template: &str, reply_template: &str) -> (r:
    String)
    ensures
        r@ == entry(entry_template@, reply_template@, rec@),
{
    proof {
        lemma_placeholders();
    }
    let discussion: String = if rec.discussion.len() == 0 {
        "()".to_owned()
    } else {
        let mut out: String = "(\n".to_owned();
        let mut i: usize = 0;
        let ghost list = replies(rec.discussion@);
        assert(list.take(0) =~= Seq::empty());
        assert("(\n"@ + reply_entries(reply_template@, list.take(0)) =~= "(\n"@);
        while i < rec.discussion.len()
            invariant
                i <= rec.discussion@.len(),
                list == replies(rec.discussion@),
                out@ == "(\n"@ + reply_entries(reply_template@, list.take(i as int)),
            decreases rec.discussion@.len() - i,
        {
            let one: String = format_reply(reply_template, &rec.discussion[i]);
            let ghost before = out@;
            out.append(one.as_str());
            i = i + 1;
            assert(list.take(i as int).drop_last() =~= list.take(i - 1));
            assert(list.take(i as int).last() == rec.discussion@[i - 1]@);
            assert(out@ =~= "(\n"@ + reply_entries(reply_template@, list.take(i as int)));
        }
        assert(list.take(i as int) =~= list);
        out.append("  )");
        out
    };
    let rtype: String = escape(rec.rtype.as_str());
    let uuid: String = escape(rec.uuid.as_str());
    let letter: String = escape(rec.letter.as_str());
    let author: String = escape(rec.author.as_str());
    let content: String = escape(rec.content.as_str());
    let time: String = escape(rec.time.as_str());
    let status: String = escape(rec.status.as_str());
    let a: String = replaced(entry_template, "${type}", rtype.as_str());
    let b: String = replaced(a.as_str(), "${uuid}", uuid.as_str());
    let c: String = replaced(b.as_str(), "${letter}", letter.as_str());
    let d: String = replaced(c.as_str(), "${author}", author.as_str());
    let e: String = replaced(d.as_str(), "${content}", content.as_str());
    let f: String = replaced(e.as_str(), "${time}", time.as_str());
    let g: String = replaced(f.as_str(), "${status}", status.as_str());
    replaced(g.as_str(), "${discussion}", discussion.as_str())
}

// ---------------------------------------------------------- finding an entry

/// The label an entry ends with.
pub open spec fn note_label(uuid: Seq<char>) -> Seq<char> {
    "<note-"@ + uuid + ">"@
}

/// What an entry begins with.
pub open spec fn entry_opening() -> Seq<char> {
    "#metadata(("@
}

/// Where the entry of an annotation stands: from the opening before its label
/// to the end of the label, and the newline after it if there is one.
pub open spec fn entry_at(content: Seq<char>, uuid: Seq<char>) -> Option<(int, int)> {
    let bytes = encode_utf8(content);
    let note = encode_utf8(note_label(uuid));
    let open = encode_utf8(entry_opening());
    match find_from(bytes, note, 0) {
        None => None,
        Some(at) => match rfind_upto(bytes, open, at - open.len()) {
            None => None,
            Some(start) => {
                let end = at + note.len();
                Some((start, if end < bytes.len() && bytes[end] == 10 {
                    end + 1
                } else {
                    end
                }))
            },
        },
    }
}

/// The label of an entry and its opening begin and end with ASCII characters.
proof fn lemma_note(uuid: Seq<char>)
    ensures
        ({
            let note = encode_utf8(note_label(uuid));
            let open = encode_utf8(entry_opening());
            &&& note.len() >= 2
            &&& note.last() == 62
            &&& open.len() == 11
            &&& open[0] == 35
        }),
{
    reveal_strlit("<note-");
    reveal_strlit(">");
    reveal_strlit("#metadata((");
    lemma_encode_concat("<note-"@, uuid);
    lemma_encode_concat("<note-"@ + uuid, ">"@);
    is_ascii_chars_encode_utf8("<note-"@);
    is_ascii_chars_encode_utf8(">"@);
    is_ascii_chars_encode_utf8("#metadata(("@);
    assert(">"@[0] as u8 == 62);
    assert("#metadata(("@[0] as u8 == 35);
    let note = encode_utf8(note_label(uuid));
    assert(note =~= encode_utf8("<note-"@) + encode_utf8(uuid) + encode_utf8(">"@));
}

/// The label an entry ends with.
fn note_of(uuid: &str) -> (r: String)
    ensures
        r@ == note_label(uuid@),
{
    let mut out: String = "<note-".to_owned();
    out.append(uuid);
    out.append(">");
    out
}

/// Where the entry of an annotation stands in the sidecar.
pub fn entry_span(content: &str, uuid: &str) -> (r: Option<Range<usize>>)
    ensures
        match r {
            Some(span) => entry_at(content@, uuid@) == Some((span.start as int, span.end as int)),
            None => entry_at(content@, uuid@) is None,
        },
        r matches Some(span) ==> {
            &&& span.start <= span.end
            &&& boundary(content@, span.start as int)
            &&& boundary(content@, span.end as int)
        },
{
    let bytes: &[u8] = content.as_bytes();
    let note: String = note_of(uuid);
    let needle: &[u8] = note.as_str().as_bytes();
    let open: &[u8] = "#metadata((".as_bytes();
    let total: usize = bytes.len();
    proof {
        lemma_note(uuid@);
        lemma_encoded(content@);
    }
    match find_bytes(bytes, needle, 0) {
        None => None,
        Some(at) => match rfind_bytes(bytes, open, at) {
            None => None,
            Some(start) => {
                let end: usize = at + needle.len();
                proof {
                    assert(bytes@.subrange(start as int, start + open@.len())[0] == open@[0]);
                    assert(bytes@.subrange(at as int, end as int).last() == needle@.last());
                    lemma_ascii_alone(bytes@, start as int);
                    lemma_ascii_alone(bytes@, end - 1);
                }
                if end < total && bytes[end] == 10 {
                    proof {
                        lemma_ascii_alone(bytes@, end as int);
                    }
                    Some(Range { start, end: end + 1 })
                } else {
                    Some(Range { start, end })
                }
            },
        },
    }
}

/// The sidecar with an entry taken out.
pub open spec fn without_entry(content: Seq<char>, span: (int, int)) -> Seq<u8> {
    spliced(encode_utf8(content), span.0, span.1, seq![])
}

/// Takes the entry of an annotation out of the sidecar.
///
/// Refused for a text that cannot name an annotation, and for one that names
/// none the sidecar has.
pub fn remove_entry(content: &str, uuid: &str) -> (r: Result<String, String>)
    ensures
        match r {
            Ok(out) => is_label(uuid@) && entry_at(content@, uuid@) is Some && encode_utf8(out@)
                == without_entry(content@, entry_at(content@, uuid@)->0),
            Err(why) => if is_label(uuid@) {
                entry_at(content@, uuid@) is None && why@ == "unknown annotation: "@ + uuid@
            } else {
                why@ == "bad annotation uuid"@
            },
        },
{
    if !valid_label(uuid) {
        return Err("bad annotation uuid".to_owned());
    }
    match entry_span(content, uuid) {
        None => {
            let mut why: String = "unknown annotation: ".to_owned();
            why.append(uuid);
            Err(why)
        },
        Some(span) => {
            assert(encode_utf8(""@) =~= Seq::<u8>::empty()) by {
                reveal_strlit("");
            }
            Ok(splice(content, span.start, span.end, ""))
        },
    }
}

// -------------------------------------------------------- changing an entry

/// The first record of a name.
pub open spec fn record_named(list: Seq<RecordView>, uuid: Seq<char>) -> Option<RecordView>
    decreases list.len(),
{
    if list.len() == 0 {
        None
    } else if list[0].uuid == uuid {
        Some(list[0])
    } else {
        record_named(list.skip(1), uuid)
    }
}

/// What becomes of a sidecar when the record of a name is changed: its entry is
/// written again, in place. Refused, in this order, for a text that cannot name
/// an annotation, for one that names no record, and for one whose entry cannot
/// be found.
pub open spec fn changed(
    content: Seq<char>,
    list: Seq<RecordView>,
    uuid: Seq<char>,
    change: spec_fn(RecordView) -> RecordView,
    entry_template: Seq<char>,
    reply_template: Seq<char>,
) -> Result<Seq<u8>, Seq<char>> {
    if !is_label(uuid) {
        Err("bad annotation uuid"@)
    } else {
        match record_named(list, uuid) {
            None => Err("unknown annotation: "@ + uuid),
            Some(rec) => match entry_at(content, uuid) {
                None => Err("cannot locate the entry of "@ + uuid + " in the sidecar"@),
                Some(span) => Ok(
                    spliced(
                        encode_utf8(content),
                        span.0,
                        span.1,
                        encode_utf8(entry(entry_template, reply_template, change(rec))),
                    ),
                ),
            },
        }
    }
}

/// The result of a change, by the bytes of what it made.
pub open spec fn res_bytes(r: Result<String, String>) -> Result<Seq<u8>, Seq<char>> {
    match r {
        Ok(s) => Ok(encode_utf8(s@)),
        Err(e) => Err(e@),
    }
}

/// Where the first record of a name is.
fn find_record(list: &Vec<AnnotationRecord>, uuid: &str) -> (r: Option<usize>)
    ensures
        match r {
            Some(i) => i < list@.len() && record_named(records(list@), uuid@) == Some(
                list@[i as int]@,
            ),
            None => record_named(records(list@), uuid@) is None,
        },
{
    let mut i: usize = 0;
    let ghost all = records(list@);
    assert(all.skip(0) =~= all);
    while i < list.len()
        invariant
            i <= list@.len(),
            all == records(list@),
            record_named(all, uuid@) == record_named(all.skip(i as int), uuid@),
        decreases list@.len() - i,
    {
        assert(all.skip(i as int)[0] == list@[i as int]@);
        if same(list[i].uuid.as_str(), uuid) {
            return Some(i);
        }
        assert(all.skip(i as int).skip(1) =~= all.skip(i + 1));
        i = i + 1;
    }
    None
}

/// A record with a reply added.
pub open spec fn with_reply(rec: RecordView, reply: ReplyView) -> RecordView {
    RecordView { discussion: rec.discussion.push(reply), ..rec }
}

/// A record with another status.
pub open spec fn with_status(rec: RecordView, status: Seq<char>) -> RecordView {
    RecordView { status, ..rec }
}

/// Whether a text is a status an annotation can have.
pub open spec fn is_status(status: Seq<char>) -> bool {
    status == "created"@ || status == "ongoing"@ || status == "resolved"@
}

/// Writes the entry of a record that was changed back into the sidecar.
fn rewrite(
    content: &str,
    rec: &AnnotationRecord,
    uuid: &str,
    entry_template: &str,
    reply_template: &str,
) -> (r: Result<String, String>)
    ensures
        res_bytes(r) == match entry_at(content@, uuid@) {
            None => Err("cannot locate the entry of "@ + uuid@ + " in the sidecar"@),
            Some(span) => Ok(
                spliced(
                    encode_utf8(content@),
                    span.0,
                    span.1,
                    encode_utf8(entry(entry_template@, reply_template@, rec@)),
                ),
            ),
        },
{
    match entry_span(content, uuid) {
        None => {
            let mut why: String = "cannot locate the entry of ".to_owned();
            why.append(uuid);
            why.append(" in the sidecar");
            Err(why)
        },
        Some(span) => {
            let text: String = format_record(rec, entry_template, reply_template);
            Ok(splice(content, span.start, span.end, text.as_str()))
        },
    }
}

/// Says that no annotation has a name.
fn unknown(uuid: &str) -> (r: String)
    ensures
        r@ == "unknown annotation: "@ + uuid@,
{
    let mut why: String = "unknown annotation: ".to_owned();
    why.append(uuid);
    why
}

/// The sidecar with a reply added to an annotation's discussion. `list` is what
/// the sidecar was read as.
pub fn prepare_reply(
    content: &str,
    list: Vec<AnnotationRecord>,
    uuid: &str,
    reply: AnnotationReply,
    entry_template: &str,
    reply_template: &str,
) -> (r: Result<String, String>)
    ensures
        res_bytes(r) == changed(
            content@,
            records(list@),
            uuid@,
            |rec: RecordView| with_reply(rec, reply@),
            entry_template@,
            reply_template@,
        ),
{
    if !valid_label(uuid) {
        return Err("bad annotation uuid".to_owned());
    }
    match find_record(&list, uuid) {
        None => Err(unknown(uuid)),
        Some(i) => {
            let ghost was = list@[i as int]@;
            let ghost said = reply@;
            let mut list: Vec<AnnotationRecord> = list;
            let mut rec: AnnotationRecord = list.swap_remove(i);
            let ghost before = rec.discussion@;
            rec.discussion.push(reply);
            assert(replies(rec.discussion@) =~= replies(before).push(said));
            assert(rec@ == with_reply(was, said));
            rewrite(content, &rec, uuid, entry_template, reply_template)
        },
    }
}

/// The sidecar with another status for an annotation. `list` is what the
/// sidecar was read as.
pub fn prepare_status(
    content: &str,
    list: Vec<AnnotationRecord>,
    uuid: &str,
    status: &str,
    entry_template: &str,
    reply_template: &str,
) -> (r: Result<String, String>)
    ensures
        res_bytes(r) == if is_status(status@) {
            changed(
                content@,
                records(list@),
                uuid@,
                |rec: RecordView| with_status(rec, status@),
                entry_template@,
                reply_template@,
            )
        } else {
            Err("bad status: "@ + status@)
        },
{
    if !same(status, "created") && !same(status, "ongoing") && !same(status, "resolved") {
        let mut why: String = "bad status: ".to_owned();
        why.append(status);
        return Err(why);
    }
    if !valid_label(uuid) {
        return Err("bad annotation uuid".to_owned());
    }
    match find_record(&list, uuid) {
        None => Err(unknown(uuid)),
        Some(i) => {
            let ghost was = list@[i as int]@;
            let mut list: Vec<AnnotationRecord> = list;
            let mut rec: AnnotationRecord = list.swap_remove(i);
            rec.status = status.to_owned();
            assert(rec@ == with_status(was, status@));
            rewrite(content, &rec, uuid, entry_template, reply_template)
        },
    }
}

/// The sidecar with an entry at its end: what it said, the entry's opening, what the entry
/// says, and its label on the last line.
pub open spec fn with_entry_at_end(content: Seq<char>, body: Seq<char>, uuid: Seq<char>) -> Seq<char> {
    content + entry_opening() + body + note_label(uuid) + "\n"@
}

/// Over bytes: where the last part is found, and the opening before it.
proof fn lemma_entry_at_end(
    before: Seq<u8>,
    open: Seq<u8>,
    body: Seq<u8>,
    note: Seq<u8>,
    newline: Seq<u8>,
)
    requires
        0 < note.len(),
        0 < open.len(),
        ({
            let bytes = before + open + body + note + newline;
            let label = before.len() + open.len() + body.len();
            &&& forall|i: int| 0 <= i < label ==> !stands_at(bytes, note, i)
            &&& forall|i: int|
                before.len() < i <= label - open.len() ==> !stands_at(bytes, open, i)
        }),
    ensures
        ({
            let bytes = before + open + body + note + newline;
            let label = before.len() + open.len() + body.len();
            &&& find_from(bytes, note, 0) == Some(label as int)
            &&& rfind_upto(bytes, open, label - open.len()) == Some(before.len() as int)
        }),
{
    let bytes = before + open + body + note + newline;
    let label = (before.len() + open.len() + body.len()) as int;
    let start = before.len() as int;
    assert(bytes.subrange(label, label + note.len()) =~= note);
    assert(stands_at(bytes, note, label));
    lemma_find_from_skip(bytes, note, 0, label);
    assert(bytes.subrange(start, start + open.len()) =~= open);
    assert(stands_at(bytes, open, start));
    lemma_rfind_upto(bytes, open, label - open.len());
}

/// An entry at the end of the sidecar is found, and taking it out gives back what was there
/// before: where nothing before its label looks like the label, and nothing it says looks
/// like an opening.
pub proof fn an_entry_at_the_end_is_taken_back(content: Seq<char>, body: Seq<char>, uuid: Seq<char>)
    requires
        ({
            let bytes = encode_utf8(with_entry_at_end(content, body, uuid));
            let open = encode_utf8(entry_opening());
            let start = encode_utf8(content).len();
            let label = start + open.len() + encode_utf8(body).len();
            &&& forall|i: int|
                0 <= i < label ==> !stands_at(bytes, encode_utf8(note_label(uuid)), i)
            &&& forall|i: int| start < i <= label - open.len() ==> !stands_at(bytes, open, i)
        }),
    ensures
        ({
            let text = with_entry_at_end(content, body, uuid);
            let start = encode_utf8(content).len() as int;
            &&& entry_at(text, uuid) == Some((start, encode_utf8(text).len() as int))
            &&& without_entry(text, (start, encode_utf8(text).len() as int)) == encode_utf8(content)
        }),
{
    let text = with_entry_at_end(content, body, uuid);
    let bytes = encode_utf8(text);
    let note = encode_utf8(note_label(uuid));
    let open = encode_utf8(entry_opening());
    let start = encode_utf8(content).len() as int;
    let label = start + open.len() + encode_utf8(body).len();
    let newline = encode_utf8("\n"@);
    lemma_note(uuid);
    reveal_strlit("\n");
    is_ascii_chars_encode_utf8("\n"@);
    assert("\n"@[0] as u8 == 10);
    lemma_encode_concat(content, entry_opening());
    lemma_encode_concat(content + entry_opening(), body);
    lemma_encode_concat(content + entry_opening() + body, note_label(uuid));
    lemma_encode_concat(content + entry_opening() + body + note_label(uuid), "\n"@);
    assert(bytes =~= encode_utf8(content) + open + encode_utf8(body) + note + newline);
    lemma_entry_at_end(encode_utf8(content), open, encode_utf8(body), note, newline);
    assert(bytes[label + note.len()] == newline[0]);
    assert(without_entry(text, (start, bytes.len() as int)) =~= encode_utf8(content));
}

/// A record that is changed is written over its entry, and all else in the sidecar stays; of the
/// record only what was asked for changes.
pub proof fn only_the_entry_changes(
    content: Seq<char>,
    list: Seq<RecordView>,
    k: int,
    reply: ReplyView,
    status: Seq<char>,
    entry_template: Seq<char>,
    reply_template: Seq<char>,
    span: (int, int),
)
    requires
        0 <= k < list.len(),
        is_label(list[k].uuid),
        forall|i: int| 0 <= i < k ==> (#[trigger] list[i]).uuid != list[k].uuid,
        entry_at(content, list[k].uuid) == Some(span),
    ensures
        ({
            let bytes = encode_utf8(content);
            let head = bytes.subrange(0, span.0);
            let tail = bytes.subrange(span.1, bytes.len() as int);
            let rec = list[k];
            let said = RecordView { discussion: rec.discussion + seq![reply], ..rec };
            let moved = RecordView { status, ..rec };
            &&& changed(
                content,
                list,
                rec.uuid,
                |r: RecordView| with_reply(r, reply),
                entry_template,
                reply_template,
            ) == Ok::<_, Seq<char>>(
                head + encode_utf8(entry(entry_template, reply_template, said)) + tail,
            )
            &&& changed(
                content,
                list,
                rec.uuid,
                |r: RecordView| with_status(r, status),
                entry_template,
                reply_template,
            ) == Ok::<_, Seq<char>>(
                head + encode_utf8(entry(entry_template, reply_template, moved)) + tail,
            )
        }),
{
    let rec = list[k];
    lemma_record_named(list, k);
    assert(rec.discussion + seq![reply] =~= rec.discussion.push(reply));
}

/// The first record with an id is the one that is meant.
proof fn lemma_record_named(list: Seq<RecordView>, k: int)
    requires
        0 <= k < list.len(),
        forall|i: int| 0 <= i < k ==> (#[trigger] list[i]).uuid != list[k].uuid,
    ensures
        record_named(list, list[k].uuid) == Some(list[k]),
    decreases list.len(),
{
    if k > 0 {
        assert(list[0].uuid != list[k].uuid);
        let rest = list.skip(1);
        assert forall|i: int| 0 <= i < k - 1 implies (#[trigger] rest[i]).uuid != rest[k - 1].uuid by {
            assert(rest[i] == list[i + 1]);
        }
        lemma_record_named(rest, k - 1);
    }
}

/// An annotation is created, ongoing or resolved, and nothing else.
pub proof fn a_status_is_one_of_three(status: Seq<char>)
    ensures
        is_status("created"@) && is_status("ongoing"@) && is_status("resolved"@),
        status != "created"@ && status != "ongoing"@ && status != "resolved"@ ==> !is_status(status),
{
}

} // verus!

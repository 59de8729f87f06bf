//! The edits that make an annotation or take it away: the anchor in the document,
//! and the entry in the sidecar.

use std::ops::Range;

use vstd::prelude::*;
use vstd::string::*;
use vstd::utf8::*;

use crate::bytes::{
    boundary, byte_len, lemma_boundary_inside, lemma_encode_concat, lemma_encoded,
    lemma_same_bytes, spliced,
};
use crate::labels::{first_free, fresh_label, is_label, name_left, name_of, seed_after};
use crate::letters::{highest, letter_at, next_letter};
use crate::preview::anchors::{
    anchor_chars, anchor_prefix, anchor_text, anchors_of, find_anchors, laid_out, places,
    removing_takes_back, scope_of, span_anchor, span_anchor_text, span_source, strip_anchors,
    with_span, without, written_anchor_is_found, written_span_is_found, FoundAnchor, Scope,
};
use crate::preview::patch::{disk_edit, lemma_nothing_encoded, opt_bytes, patched};
use crate::preview::sidecar::{
    entry, entry_at, format_record, records, remove_entry, replies, without_entry, AnnotationRecord,
    AnnotationReply, RecordView, ReplyView,
};
use crate::ranges::{past_marker, snap_past_marker};
use crate::text::{opt_str, opt_text, same, stands_at, texts};

verus! {

// ------------------------------------------------------------------ what is asked for

/// A request for an annotation.
#[derive(Debug)]
pub struct AnnotateRequest {
    /// The name that is suggested for it.
    pub uuid: Option<String>,
    /// The page that was clicked, counted from one.
    pub page: Option<usize>,
    /// How far from the left the click was.
    pub x: Option<i64>,
    /// How far from the top the click was.
    pub y: Option<i64>,
    /// What it says.
    pub text: String,
    /// What it refers to, where that is settled.
    pub scope: Option<String>,
    /// Where in the source it goes, where that is settled.
    pub s: Option<usize>,
    /// Where in the source it ends.
    pub e: Option<usize>,
    /// The page a drag ended on.
    pub page2: Option<usize>,
    /// How far from the left a drag ended.
    pub x2: Option<i64>,
    /// How far from the top a drag ended.
    pub y2: Option<i64>,
}

/// What a request asks for.
#[derive(Debug, Clone, Copy, PartialEq, Eq)]
pub enum Wanted {
    /// A stretch of source.
    Stretch(usize, usize),
    /// A place in the source, and what is meant by it.
    Place(usize, Scope),
    /// What was clicked on.
    Click((usize, i64, i64)),
    /// What was dragged over.
    Drag((usize, i64, i64), (usize, i64, i64)),
}

/// What a request asks for: a stretch of source before a place in it, and that before
/// a click.
pub open spec fn wanted_v(req: AnnotateRequest) -> Result<Wanted, Seq<char>> {
    match (req.s, req.e) {
        (Some(s), Some(e)) => Ok(Wanted::Stretch(s, e)),
        (Some(s), None) => Ok(
            Wanted::Place(
                s,
                match req.scope {
                    Some(scope) => match scope_of(scope@) {
                        Some(scope) => scope,
                        None => Scope::Point,
                    },
                    None => Scope::Point,
                },
            ),
        ),
        _ => match (req.page, req.x, req.y) {
            (Some(page), Some(x), Some(y)) => match (req.page2, req.x2, req.y2) {
                (Some(page2), Some(x2), Some(y2)) => Ok(
                    Wanted::Drag((page, x, y), (page2, x2, y2)),
                ),
                _ => Ok(Wanted::Click((page, x, y))),
            },
            _ => Err("a click position or a source range is required"@),
        },
    }
}

/// What a request asks for.
pub fn wanted(req: &AnnotateRequest) -> (r: Result<Wanted, String>)
    ensures
        match wanted_v(*req) {
            Ok(w) => r is Ok && r->Ok_0 == w,
            Err(why) => r is Err && r->Err_0@ == why,
        },
{
    if let Some(s) = req.s {
        if let Some(e) = req.e {
            return Ok(Wanted::Stretch(s, e));
        }
        let scope: Scope = match &req.scope {
            Some(scope) => match Scope::from_suffix(scope.as_str()) {
                Some(scope) => scope,
                None => Scope::Point,
            },
            None => Scope::Point,
        };
        return Ok(Wanted::Place(s, scope));
    }
    if let (Some(page), Some(x), Some(y)) = (req.page, req.x, req.y) {
        if let (Some(page2), Some(x2), Some(y2)) = (req.page2, req.x2, req.y2) {
            return Ok(Wanted::Drag((page, x, y), (page2, x2, y2)));
        }
        return Ok(Wanted::Click((page, x, y)));
    }
    Err("a click position or a source range is required".to_string())
}

// ---------------------------------------------------------------------- the new record

/// A new annotation: what it says, and by whom and when.
#[derive(Debug)]
pub struct NewNote {
    /// The name that is suggested for it.
    pub uuid: Option<String>,
    /// What it says.
    pub text: String,
    /// Who wrote it.
    pub author: String,
    /// When, ISO 8601 UTC.
    pub time: String,
    /// Where the search for a name starts.
    pub seed: u64,
}

/// The texts an entry of the sidecar is written with.
#[derive(Debug)]
pub struct Templates {
    /// The text of an entry.
    pub entry: String,
    /// The text of a reply.
    pub reply: String,
}

/// The names of some annotations.
pub open spec fn names(list: Seq<RecordView>) -> Seq<Seq<char>> {
    list.map_values(|r: RecordView| r.uuid)
}

/// The letters of some annotations.
pub open spec fn letters(list: Seq<RecordView>) -> Seq<Seq<char>> {
    list.map_values(|r: RecordView| r.letter)
}

/// Whether a text is the name a new annotation gets: the one that is suggested, where
/// it can name one and is free, and otherwise the first free one the seed leads to.
pub open spec fn is_new_name(uuid: Seq<char>, list: Seq<RecordView>, new: NewNote) -> bool {
    &&& is_label(uuid)
    &&& !names(list).contains(uuid)
    &&& match opt_text(new.uuid) {
        Some(asked) if is_label(asked) && !names(list).contains(asked) => uuid == asked,
        _ => exists|steps: nat| #[trigger]
            first_free(names(list), new.seed, steps) && uuid == name_of(
                seed_after(new.seed, steps),
            ),
    }
}

/// The record of a new annotation.
pub open spec fn new_record_v(uuid: Seq<char>, list: Seq<RecordView>, new: NewNote) -> RecordView {
    RecordView {
        rtype: "comment"@,
        uuid,
        letter: letter_at(highest(letters(list)) + 1),
        author: new.author@,
        content: new.text@,
        time: new.time@,
        status: "created"@,
        discussion: seq![],
    }
}

/// Who a preview signs annotations as: `user`, as the environment's `USER` names them, or
/// else `username`, as its `USERNAME` does, or else nobody by name.
pub fn preview_author(user: Option<&str>, username: Option<&str>) -> (r: String)
    ensures
        r@ == (match opt_str(user) {
            Some(name) => name,
            None => match opt_str(username) {
                Some(name) => name,
                None => "user"@,
            },
        }),
{
    match user {
        Some(name) => name.to_string(),
        None => match username {
            Some(name) => name.to_string(),
            None => "user".to_string(),
        },
    }
}

/// Whether there is room for an annotation more: a name and a letter for it.
pub open spec fn has_room(list: Seq<RecordView>, new: NewNote) -> bool {
    name_left(names(list), opt_text(new.uuid)) && highest(letters(list)) < u64::MAX
}

/// The record of a new annotation.
pub fn new_record(list: &Vec<AnnotationRecord>, new: &NewNote) -> (r: AnnotationRecord)
    requires
        has_room(records(list@), *new),
    ensures
        is_new_name(r.uuid@, records(list@), *new),
        r@ == new_record_v(r.uuid@, records(list@), *new),
{
    let ghost all = records(list@);
    let mut taken: Vec<String> = Vec::new();
    let mut used: Vec<String> = Vec::new();
    let mut i: usize = 0;
    while i < list.len()
        invariant
            i <= list@.len(),
            all == records(list@),
            texts(taken@) == names(all).take(i as int),
            texts(used@) == letters(all).take(i as int),
        decreases list@.len() - i,
    {
        let ghost before = taken@;
        let ghost shown = used@;
        assert(all[i as int] == list@[i as int]@);
        let name: String = list[i].uuid.as_str().to_owned();
        let letter: String = list[i].letter.as_str().to_owned();
        taken.push(name);
        used.push(letter);
        assert(texts(taken@) =~= texts(before).push(name@));
        assert(texts(used@) =~= texts(shown).push(letter@));
        assert(names(all).take(i + 1) =~= names(all).take(i as int).push(all[i as int].uuid));
        assert(letters(all).take(i + 1) =~= letters(all).take(i as int).push(all[i as int].letter));
        i = i + 1;
    }
    assert(names(all).take(all.len() as int) =~= names(all));
    assert(letters(all).take(all.len() as int) =~= letters(all));
    let asked: Option<&str> = match &new.uuid {
        Some(uuid) => Some(uuid.as_str()),
        None => None,
    };
    let uuid: String = fresh_label(&taken, asked, new.seed);
    let letter: String = next_letter(&used);
    let discussion: Vec<AnnotationReply> = Vec::new();
    assert(replies(discussion@) =~= seq![]);
    AnnotationRecord {
        rtype: "comment".to_owned(),
        uuid,
        letter,
        author: new.author.as_str().to_owned(),
        content: new.text.as_str().to_owned(),
        time: new.time.as_str().to_owned(),
        status: "created".to_owned(),
        discussion,
    }
}

/// The sidecar with an entry for a record at its end.
fn with_entry(content: &str, rec: &AnnotationRecord, templates: &Templates) -> (r: String)
    ensures
        r@ == content@ + entry(templates.entry@, templates.reply@, rec@),
{
    let mut out: String = content.to_owned();
    out.append(format_record(rec, templates.entry.as_str(), templates.reply.as_str()).as_str());
    out
}

// --------------------------------------------------------------------------- the edits

/// The edits that make an annotation or take it away.
#[derive(Debug)]
pub struct AnnotationEdit {
    /// The name of the annotation.
    pub uuid: String,
    /// What the file of the document is to say, where it can be written.
    pub disk_content: Option<String>,
    /// Whether the edit has to go through an editor's buffer too.
    pub buffer_edit: bool,
    /// The stretch of source that is replaced.
    pub range: Range<usize>,
    /// What it is replaced by.
    pub new_text: String,
    /// What the sidecar is to say.
    pub sidecar_content: String,
}

/// What a file becomes by an edit that was worked out on what was compiled, and
/// whether an editor's buffer has to be edited too. `disk` is what the file says,
/// where it can be read.
pub open spec fn on_disk(
    disk: Option<Seq<char>>,
    source: Seq<char>,
    start: int,
    end: int,
    insert: Seq<char>,
) -> (Option<Seq<u8>>, bool) {
    match disk {
        None => (None, true),
        Some(disk) => if disk == source {
            (Some(spliced(encode_utf8(source), start, end, encode_utf8(insert))), false)
        } else {
            (patched(encode_utf8(disk), source, start, end, encode_utf8(insert)), true)
        },
    }
}

/// Where an anchor that is asked for at a place goes: that of a region, which begins
/// at its marker, goes into its text.
pub open spec fn anchored_at(source: Seq<char>, at: int, scope: Scope) -> int {
    match scope {
        Scope::Item | Scope::Para | Scope::Block => past_marker(source, at),
        _ => at,
    }
}

/// Makes an annotation whose anchor goes at a place in the source.
///
/// `disk` is what the file says, where it can be read; `list` what the sidecar
/// records and `content` what it says.
pub fn prepare_at(
    source: &str,
    disk: Option<&str>,
    at: usize,
    scope: Scope,
    list: &Vec<AnnotationRecord>,
    content: &str,
    new: &NewNote,
    templates: &Templates,
) -> (r: AnnotationEdit)
    requires
        boundary(source@, at as int),
        has_room(records(list@), *new),
    ensures
        is_new_name(r.uuid@, records(list@), *new),
        r.range.start == anchored_at(source@, at as int, scope),
        r.range.end == r.range.start,
        r.new_text@ == anchor_chars(r.uuid@, scope),
        (opt_bytes(r.disk_content), r.buffer_edit) == on_disk(
            opt_str(disk),
            source@,
            r.range.start as int,
            r.range.end as int,
            r.new_text@,
        ),
        r.sidecar_content@ == content@ + entry(
            templates.entry@,
            templates.reply@,
            new_record_v(r.uuid@, records(list@), *new),
        ),
{
    let at: usize = match scope {
        Scope::Item | Scope::Para | Scope::Block => snap_past_marker(source, at),
        _ => at,
    };
    let rec: AnnotationRecord = new_record(list, new);
    let sidecar_content: String = with_entry(content, &rec, templates);
    let new_text: String = anchor_text(rec.uuid.as_str(), scope);
    proof {
        lemma_encoded(source@);
        lemma_boundary_inside(encode_utf8(source@), at as int);
    }
    let (disk_content, buffer_edit): (Option<String>, bool) = disk_edit(
        disk,
        source,
        at..at,
        new_text.as_str(),
    );
    AnnotationEdit {
        uuid: rec.uuid,
        disk_content,
        buffer_edit,
        range: at..at,
        new_text,
        sidecar_content,
    }
}

/// Makes an annotation of a stretch of source, with an anchor at either end.
///
/// The file is written as a whole, and only where it says what was compiled.
pub fn prepare_span_range(
    source: &str,
    disk: Option<&str>,
    range: Range<usize>,
    list: &Vec<AnnotationRecord>,
    content: &str,
    new: &NewNote,
    templates: &Templates,
) -> (r: Result<AnnotationEdit, String>)
    requires
        range.start < range.end ==> boundary(source@, range.start as int) && boundary(
            source@,
            range.end as int,
        ),
        has_room(records(list@), *new),
    ensures
        match r {
            Ok(edit) => {
                &&& range.start < range.end
                &&& is_new_name(edit.uuid@, records(list@), *new)
                &&& edit.range.start == range.start
                &&& edit.range.end == range.start
                &&& edit.new_text@ == span_anchor(edit.uuid@, false)
                &&& opt_bytes(edit.disk_content) == if opt_str(disk) == Some(source@) {
                    Some(
                        with_span(
                            encode_utf8(source@),
                            range.start as int,
                            range.end as int,
                            edit.uuid@,
                        ),
                    )
                } else {
                    None
                }
                &&& !edit.buffer_edit
                &&& edit.sidecar_content@ == content@ + entry(
                    templates.entry@,
                    templates.reply@,
                    new_record_v(edit.uuid@, records(list@), *new),
                )
            },
            Err(why) => range.start >= range.end && why@ == "empty span"@,
        },
{
    let start: usize = range.start;
    let rec: AnnotationRecord = new_record(list, new);
    let new_source: String = match span_source(source, range, rec.uuid.as_str()) {
        Ok(text) => text,
        Err(why) => {
            return Err(why);
        },
    };
    let sidecar_content: String = with_entry(content, &rec, templates);
    let new_text: String = span_anchor_text(rec.uuid.as_str(), false);
    let unchanged: bool = match disk {
        Some(disk) => same(disk, source),
        None => false,
    };
    let disk_content: Option<String> = if unchanged {
        Some(new_source)
    } else {
        None
    };
    Ok(
        AnnotationEdit {
            uuid: rec.uuid,
            disk_content,
            buffer_edit: false,
            range: start..start,
            new_text,
            sidecar_content,
        },
    )
}

/// A file of the document.
#[derive(Debug)]
pub struct SourceFile {
    /// What was compiled.
    pub source: String,
    /// What it says now, where it can be read.
    pub disk: Option<String>,
}

/// The first file, from one on, that has an anchor of an annotation.
pub open spec fn host_from(files: Seq<SourceFile>, uuid: Seq<char>, from: int) -> Option<int>
    decreases files.len() - from,
{
    if from < 0 || from >= files.len() {
        None
    } else if anchors_of(files[from].source@, uuid).len() > 0 {
        Some(from)
    } else {
        host_from(files, uuid, from + 1)
    }
}

/// Whether edits take an annotation away whose anchors a file has: the first anchor
/// through a buffer, and every one in the file, where that says what was compiled.
pub open spec fn takes_away(
    edit: AnnotationEdit,
    file: SourceFile,
    uuid: Seq<char>,
    content: Seq<char>,
) -> bool {
    let list = anchors_of(file.source@, uuid);
    let first = on_disk(opt_text(file.disk), file.source@, list[0].0, list[0].2, seq![]);
    &&& edit.uuid@ == uuid
    &&& edit.range.start == list[0].0
    &&& edit.range.end == list[0].2
    &&& edit.new_text@ == Seq::<char>::empty()
    &&& edit.buffer_edit == first.1
    &&& opt_bytes(edit.disk_content) == if list.len() > 1 {
        if opt_text(file.disk) == Some(file.source@) {
            Some(without(encode_utf8(file.source@), list))
        } else {
            None
        }
    } else {
        first.0
    }
    &&& entry_at(content, uuid) matches Some(span) && encode_utf8(edit.sidecar_content@)
        == without_entry(content, span)
}

/// Takes an annotation away: its anchors, from whichever file has them, and its entry
/// in the sidecar. Which file it is comes with the edits.
pub fn prepare_delete(content: &str, uuid: &str, files: &Vec<SourceFile>) -> (r: Result<
    (usize, AnnotationEdit),
    String,
>)
    ensures
        if !is_label(uuid@) {
            r is Err && r->Err_0@ == "bad annotation uuid"@
        } else if entry_at(content@, uuid@) is None {
            r is Err && r->Err_0@ == "unknown annotation: "@ + uuid@
        } else {
            match host_from(files@, uuid@, 0) {
                None => r is Err && r->Err_0@ == "no anchor <"@ + uuid@
                    + "...> found in any source file"@,
                Some(i) => r is Ok && r->Ok_0.0 == i && takes_away(
                    r->Ok_0.1,
                    files@[i],
                    uuid@,
                    content@,
                ),
            }
        },
{
    let sidecar_content: String = match remove_entry(content, uuid) {
        Ok(content) => content,
        Err(why) => {
            return Err(why);
        },
    };
    proof {
        assert(!uuid@.contains('>')) by {
            if uuid@.contains('>') {
                let k = uuid@.index_of('>');
                assert(uuid@[k] == '>');
            }
        }
    }
    let mut i: usize = 0;
    while i < files.len()
        invariant
            i <= files@.len(),
            is_label(uuid@),
            !uuid@.contains('>'),
            entry_at(content@, uuid@) is Some,
            encode_utf8(sidecar_content@) == without_entry(
                content@,
                entry_at(content@, uuid@)->0,
            ),
            host_from(files@, uuid@, i as int) == host_from(files@, uuid@, 0),
        decreases files@.len() - i,
    {
        let anchors: Vec<FoundAnchor> = find_anchors(files[i].source.as_str(), uuid);
        let ghost list = places(anchors@);
        assert(list.len() == anchors@.len());
        if anchors.len() > 0 {
            assert(list[0] == anchors@[0].place());
            let (range, disk_content, buffer_edit): (Range<usize>, Option<String>, bool) =
                remove_anchors(&files[i], &anchors, uuid);
            let edit: AnnotationEdit = AnnotationEdit {
                uuid: uuid.to_owned(),
                disk_content,
                buffer_edit,
                range,
                new_text: String::new(),
                sidecar_content,
            };
            return Ok((i, edit));
        }
        i = i + 1;
    }
    let mut why: String = "no anchor <".to_owned();
    why.append(uuid);
    why.append("...> found in any source file");
    Err(why)
}

/// Takes the anchors of an annotation out of a file that has them.
fn remove_anchors(file: &SourceFile, anchors: &Vec<FoundAnchor>, uuid: &str) -> (r: (
    Range<usize>,
    Option<String>,
    bool,
))
    requires
        anchors@.len() > 0,
        places(anchors@) == anchors_of(file.source@, uuid@),
        laid_out(file.source@, places(anchors@)),
    ensures
        ({
            let list = anchors_of(file.source@, uuid@);
            let first = on_disk(opt_text(file.disk), file.source@, list[0].0, list[0].2, seq![]);
            &&& r.0.start == list[0].0
            &&& r.0.end == list[0].2
            &&& r.2 == first.1
            &&& opt_bytes(r.1) == if list.len() > 1 {
                if opt_text(file.disk) == Some(file.source@) {
                    Some(without(encode_utf8(file.source@), list))
                } else {
                    None
                }
            } else {
                first.0
            }
        }),
{
    let ghost list = places(anchors@);
    assert(list[0] == anchors@[0].place());
    let source: &str = file.source.as_str();
    proof {
        lemma_encoded(source@);
        lemma_boundary_inside(encode_utf8(source@), list[0].2);
        reveal_strlit("");
        assert(""@ =~= Seq::<char>::empty());
    }
    let total: usize = byte_len(source);
    let at: usize = anchors[0].at;
    let end: usize = at + byte_len(anchors[0].label.as_str());
    let disk: Option<&str> = match &file.disk {
        Some(disk) => Some(disk.as_str()),
        None => None,
    };
    assert(opt_str(disk) == opt_text(file.disk));
    let (single, buffer_edit): (Option<String>, bool) = disk_edit(disk, source, at..end, "");
    if anchors.len() == 1 {
        return (at..end, single, buffer_edit);
    }
    let unchanged: bool = match disk {
        Some(disk) => same(disk, source),
        None => false,
    };
    let disk_content: Option<String> = if unchanged {
        Some(strip_anchors(source, anchors))
    } else {
        None
    };
    (at..end, disk_content, buffer_edit)
}

// ------------------------------------------------------------------------ the sidecar

/// A reply as a sidecar holds it, where each part may be missing.
#[derive(Debug)]
pub struct RawReply {
    /// Who wrote it.
    pub author: Option<String>,
    /// When.
    pub time: Option<String>,
    /// What it says.
    pub content: Option<String>,
}

/// A record as a sidecar holds it, where each part may be missing.
#[derive(Debug)]
pub struct RawRecord {
    /// What kind of remark it is.
    pub rtype: Option<String>,
    /// Its name.
    pub uuid: Option<String>,
    /// The letter it is shown under.
    pub letter: Option<String>,
    /// Who wrote it.
    pub author: Option<String>,
    /// What it says.
    pub content: Option<String>,
    /// When.
    pub time: Option<String>,
    /// How far it has got.
    pub status: Option<String>,
    /// The discussion, in order.
    pub discussion: Vec<RawReply>,
}

/// A text, or another where it is missing.
pub open spec fn text_or(text: Option<String>, other: Seq<char>) -> Seq<char> {
    match text {
        Some(text) => text@,
        None => other,
    }
}

/// The replies among the first of some: those that say who wrote them and what.
pub open spec fn read_replies(list: Seq<RawReply>, n: nat) -> Seq<ReplyView>
    decreases n,
{
    if n == 0 || n > list.len() {
        seq![]
    } else {
        let before = read_replies(list, (n - 1) as nat);
        let raw = list[n - 1];
        match (raw.author, raw.content) {
            (Some(author), Some(content)) => before.push(
                ReplyView { author: author@, time: text_or(raw.time, ""@), content: content@ },
            ),
            _ => before,
        }
    }
}

/// The record a sidecar holds: one that has a name and says something.
pub open spec fn read_record(raw: RawRecord) -> Option<RecordView> {
    match (raw.uuid, raw.content) {
        (Some(uuid), Some(content)) => Some(
            RecordView {
                rtype: text_or(raw.rtype, "comment"@),
                uuid: uuid@,
                letter: text_or(raw.letter, ""@),
                author: text_or(raw.author, "unknown"@),
                content: content@,
                time: text_or(raw.time, ""@),
                status: text_or(raw.status, "created"@),
                discussion: read_replies(raw.discussion@, raw.discussion@.len()),
            },
        ),
        _ => None,
    }
}

/// A text, or another where it is missing.
fn or_else(text: &Option<String>, other: &str) -> (r: String)
    ensures
        r@ == text_or(*text, other@),
{
    match text {
        Some(text) => text.as_str().to_owned(),
        None => other.to_owned(),
    }
}

/// The record a sidecar holds.
pub fn record_from_value(raw: &RawRecord) -> (r: Option<AnnotationRecord>)
    ensures
        match r {
            Some(rec) => read_record(*raw) == Some(rec@),
            None => read_record(*raw) is None,
        },
{
    let uuid: String = match &raw.uuid {
        Some(uuid) => uuid.as_str().to_owned(),
        None => {
            return None;
        },
    };
    let content: String = match &raw.content {
        Some(content) => content.as_str().to_owned(),
        None => {
            return None;
        },
    };
    let mut discussion: Vec<AnnotationReply> = Vec::new();
    assert(replies(discussion@) =~= seq![]);
    let mut i: usize = 0;
    while i < raw.discussion.len()
        invariant
            i <= raw.discussion@.len(),
            replies(discussion@) == read_replies(raw.discussion@, i as nat),
        decreases raw.discussion@.len() - i,
    {
        let ghost before = discussion@;
        let reply: &RawReply = &raw.discussion[i];
        if let Some(author) = &reply.author {
            if let Some(said) = &reply.content {
                let new: AnnotationReply = AnnotationReply {
                    author: author.as_str().to_owned(),
                    time: or_else(&reply.time, ""),
                    content: said.as_str().to_owned(),
                };
                discussion.push(new);
                assert(replies(discussion@) =~= replies(before).push(new@));
            }
        }
        i = i + 1;
    }
    Some(
        AnnotationRecord {
            rtype: or_else(&raw.rtype, "comment"),
            uuid,
            letter: or_else(&raw.letter, ""),
            author: or_else(&raw.author, "unknown"),
            content,
            time: or_else(&raw.time, ""),
            status: or_else(&raw.status, "created"),
            discussion,
        },
    )
}

/// How often a change of the sidecar is worked out anew before it is given up.
pub const TRIES: u32 = 3;

/// What is done with a change of the sidecar that was worked out.
#[derive(Debug)]
pub enum Commit {
    /// It is written.
    Write,
    /// It is worked out anew.
    Again,
    /// It is given up, and why.
    GiveUp(String),
}

/// Decides on a change of the sidecar that was worked out for the `tries`-th time: it
/// is written only where the file stayed as it was meanwhile.
pub fn commit_sidecar(tries: u32, changed: bool) -> (r: Commit)
    ensures
        match r {
            Commit::Write => !changed,
            Commit::Again => changed && tries < TRIES,
            Commit::GiveUp(why) => changed && tries >= TRIES && why@
                == "the sidecar kept changing concurrently; giving up"@,
        },
{
    if !changed {
        Commit::Write
    } else if tries < TRIES {
        Commit::Again
    } else {
        Commit::GiveUp("the sidecar kept changing concurrently; giving up".to_string())
    }
}

/// What a file is to say that an edit goes into without an editor.
pub fn apply_doc(edit: AnnotationEdit) -> (r: Result<String, String>)
    ensures
        match edit.disk_content {
            Some(text) => r is Ok && r->Ok_0@ == text@,
            None => r is Err && r->Err_0@
                == "cannot apply the edit: the file has diverged on disk"@,
        },
{
    match edit.disk_content {
        Some(text) => Ok(text),
        None => Err("cannot apply the edit: the file has diverged on disk".to_string()),
    }
}

// ---------------------------------------------------------------------------- the laws

/// Deleting an annotation with one anchor gives the document back as it was before the
/// anchor was written, where the document had none of that name.
pub proof fn deleting_undoes_annotating(
    before: Seq<char>,
    uuid: Seq<char>,
    scope: Scope,
    after: Seq<char>,
    file: SourceFile,
    edit: AnnotationEdit,
    content: Seq<char>,
)
    requires
        is_label(uuid),
        forall|i: int|
            !stands_at(encode_utf8(before + after), encode_utf8(anchor_prefix(uuid)), i),
        file.source@ == before + anchor_chars(uuid, scope) + after,
        opt_text(file.disk) == Some(file.source@),
        takes_away(edit, file, uuid, content),
    ensures
        opt_bytes(edit.disk_content) == Some(encode_utf8(before + after)),
        !edit.buffer_edit,
{
    let anchor = anchor_chars(uuid, scope);
    written_anchor_is_found(before, uuid, scope, after);
    lemma_encode_concat(before, anchor);
    lemma_encode_concat(before + anchor, after);
    lemma_encode_concat(before, after);
    let at = encode_utf8(before).len() as int;
    let whole = encode_utf8(before + after);
    assert(spliced(whole, at, at, encode_utf8(anchor)) =~= encode_utf8(file.source@));
    removing_takes_back(whole, at, encode_utf8(anchor));
    assert(encode_utf8(Seq::<char>::empty()) =~= Seq::<u8>::empty()) by {
        lemma_nothing_encoded(Seq::<char>::empty());
    }
    assert(seq![] =~= Seq::<char>::empty());
}

/// Over bytes: writing two parts into a text, and taking them out again, last first.
proof fn lemma_two_parts(a: Seq<u8>, b: Seq<u8>, c: Seq<u8>, first: Seq<u8>, last: Seq<u8>)
    ensures
        ({
            let start = a.len() as int;
            let stop = (a.len() + b.len()) as int;
            let after = start + first.len() + b.len();
            let both = a + first + b + last + c;
            let one = a + first + b + c;
            &&& spliced(spliced(a + b + c, stop, stop, last), start, start, first) == both
            &&& spliced(both, after, after + last.len(), seq![]) == one
            &&& spliced(one, start, start + first.len(), seq![]) == a + b + c
        }),
{
    let start = a.len() as int;
    let stop = (a.len() + b.len()) as int;
    let after = start + first.len() + b.len();
    let both = a + first + b + last + c;
    let one = a + first + b + c;
    let closed = a + b + last + c;
    assert(spliced(a + b + c, stop, stop, last) =~= closed);
    assert(spliced(closed, start, start, first) =~= both);
    assert(spliced(both, after, after + last.len(), seq![]) =~= one);
    assert(spliced(one, start, start + first.len(), seq![]) =~= a + b + c);
}

/// Over bytes: the same, of the two parts in the order they stand.
proof fn lemma_two_taken(
    a: Seq<u8>,
    b: Seq<u8>,
    c: Seq<u8>,
    first: Seq<u8>,
    last: Seq<u8>,
    list: Seq<(int, Scope, int)>,
)
    requires
        ({
            let start = a.len() as int;
            let after = start + first.len() + b.len();
            list == seq![
                (start, Scope::Span, start + first.len()),
                (after, Scope::Span, after + last.len()),
            ]
        }),
    ensures
        without(a + first + b + last + c, list) == a + b + c,
{
    lemma_two_parts(a, b, c, first, last);
    let both = a + first + b + last + c;
    let one = a + first + b + c;
    let rest = list.drop_last();
    assert(list.last() == list[1]);
    assert(rest =~= seq![list[0]]);
    assert(without(both, list) == without(one, rest));
    assert(rest.last() == list[0]);
    assert(rest.drop_last() =~= seq![]);
    assert(without(one, rest) == without(a + b + c, rest.drop_last()));
}

/// Deleting an annotation of a stretch gives the document back as it was before the two
/// anchors were written, where the document had none of that name.
pub proof fn deleting_undoes_a_span(
    a: Seq<char>,
    b: Seq<char>,
    c: Seq<char>,
    uuid: Seq<char>,
    file: SourceFile,
    edit: AnnotationEdit,
    content: Seq<char>,
)
    requires
        is_label(uuid),
        forall|i: int| !stands_at(encode_utf8(a + b + c), encode_utf8(anchor_prefix(uuid)), i),
        encode_utf8(file.source@) == with_span(
            encode_utf8(a + b + c),
            encode_utf8(a).len() as int,
            encode_utf8(a + b).len() as int,
            uuid,
        ),
        opt_text(file.disk) == Some(file.source@),
        takes_away(edit, file, uuid, content),
    ensures
        opt_bytes(edit.disk_content) == Some(encode_utf8(a + b + c)),
{
    let begin = span_anchor(uuid, false);
    let end = span_anchor(uuid, true);
    let text = a + begin + b + end + c;
    let bytes = encode_utf8(a + b + c);
    let first = encode_utf8(begin);
    let last = encode_utf8(end);
    let start = encode_utf8(a).len() as int;
    let stop = encode_utf8(a + b).len() as int;
    lemma_encode_concat(a, begin);
    lemma_encode_concat(a + begin, b);
    lemma_encode_concat(a + begin + b, end);
    lemma_encode_concat(a + begin + b + end, c);
    lemma_encode_concat(a, b);
    lemma_encode_concat(a + b, c);
    let parts = (encode_utf8(a), encode_utf8(b), encode_utf8(c));
    assert(bytes == parts.0 + parts.1 + parts.2);
    assert(encode_utf8(text) == parts.0 + first + parts.1 + last + parts.2);
    lemma_two_parts(parts.0, parts.1, parts.2, first, last);
    lemma_same_bytes(file.source@, text);
    written_span_is_found(a, b, c, uuid);
    lemma_two_taken(parts.0, parts.1, parts.2, first, last, anchors_of(text, uuid));
}

/// Making an annotation keeps the entries that the sidecar has.
pub proof fn annotating_keeps_the_sidecar(
    content: Seq<char>,
    templates: Templates,
    rec: RecordView,
)
    ensures
        content.is_prefix_of(content + entry(templates.entry@, templates.reply@, rec)),
{
    let out = content + entry(templates.entry@, templates.reply@, rec);
    assert(out.subrange(0, content.len() as int) =~= content);
}

// ------------------------------------------------------- what is asked for, and done

/// A stretch of the source comes before a place in it, and that before a click; a drag needs both
/// its ends; and where none is whole, nothing is wanted.
pub proof fn the_source_comes_before_a_click(req: AnnotateRequest)
    ensures
        req.s matches Some(s) ==> req.e matches Some(e) ==> wanted_v(req) == Ok::<_, Seq<char>>(
            Wanted::Stretch(s, e),
        ),
        req.s matches Some(s) ==> req.e is None ==> (wanted_v(req) matches Ok(w) && (w matches Wanted::Place(
            at,
            _,
        ) && at == s)),
        req.s matches Some(s) ==> req.e is None && req.scope is None ==> wanted_v(req)
            == Ok::<_, Seq<char>>(Wanted::Place(s, Scope::Point)),
        req.s is None && (req.page is None || req.x is None || req.y is None) ==> wanted_v(req) is Err,
        req.s is None && req.page is Some && req.x is Some && req.y is Some ==> {
            let from = (req.page->Some_0, req.x->Some_0, req.y->Some_0);
            if req.page2 is Some && req.x2 is Some && req.y2 is Some {
                wanted_v(req) == Ok::<_, Seq<char>>(
                    Wanted::Drag(from, (req.page2->Some_0, req.x2->Some_0, req.y2->Some_0)),
                )
            } else {
                wanted_v(req) == Ok::<_, Seq<char>>(Wanted::Click(from))
            }
        },
{
}

/// A file that is as the editor has it is changed as the source is, and the editor is not asked; any
/// other is left to the editor, and at best patched.
pub proof fn only_a_file_as_edited_is_written(
    disk: Option<Seq<char>>,
    source: Seq<char>,
    start: int,
    end: int,
    insert: Seq<char>,
)
    ensures
        disk == Some(source) ==> on_disk(disk, source, start, end, insert) == (
            Some(
                encode_utf8(source).subrange(0, start) + encode_utf8(insert) + encode_utf8(
                    source,
                ).subrange(end, encode_utf8(source).len() as int),
            ),
            false,
        ),
        disk != Some(source) ==> on_disk(disk, source, start, end, insert).1,
        disk is None ==> on_disk(disk, source, start, end, insert).0 is None,
{
}

/// A label of a word, a sentence or a point is written where it was asked for.
pub proof fn a_label_in_a_line_stays(source: Seq<char>, at: int, scope: Scope)
    requires
        scope == Scope::Point || scope == Scope::Word || scope == Scope::Sentence || scope
            == Scope::Span,
    ensures
        anchored_at(source, at, scope) == at,
{
}

/// An annotation is taken out of the first file that holds a label of it.
pub proof fn the_first_file_with_a_label_is_meant(files: Seq<SourceFile>, uuid: Seq<char>)
    ensures
        match host_from(files, uuid, 0) {
            Some(k) => 0 <= k < files.len() && anchors_of(files[k].source@, uuid).len() > 0
                && forall|i: int|
                0 <= i < k ==> anchors_of((#[trigger] files[i]).source@, uuid).len() == 0,
            None => forall|i: int|
                0 <= i < files.len() ==> anchors_of((#[trigger] files[i]).source@, uuid).len() == 0,
        },
{
    lemma_host(files, uuid, 0);
}

/// From any file on the first that holds a label is found.
proof fn lemma_host(files: Seq<SourceFile>, uuid: Seq<char>, from: int)
    requires
        0 <= from,
    ensures
        match host_from(files, uuid, from) {
            Some(k) => from <= k < files.len() && anchors_of(files[k].source@, uuid).len() > 0
                && forall|i: int|
                from <= i < k ==> anchors_of((#[trigger] files[i]).source@, uuid).len() == 0,
            None => forall|i: int|
                from <= i < files.len() ==> anchors_of((#[trigger] files[i]).source@, uuid).len() == 0,
        },
    decreases files.len() - from,
{
    if from < files.len() && anchors_of(files[from].source@, uuid).len() == 0 {
        lemma_host(files, uuid, from + 1);
    }
}

/// A record says what was written of it; it needs an id and something to say.
pub proof fn a_record_says_what_was_written(raw: RawRecord)
    ensures
        read_record(raw) is Some <==> raw.uuid is Some && raw.content is Some,
        read_record(raw) matches Some(rec) ==> {
            &&& rec.uuid == (raw.uuid->Some_0)@
            &&& rec.content == (raw.content->Some_0)@
            &&& raw.author matches Some(a) ==> rec.author == a@
            &&& raw.letter matches Some(l) ==> rec.letter == l@
            &&& raw.time matches Some(t) ==> rec.time == t@
            &&& raw.status matches Some(s) ==> rec.status == s@
            &&& raw.rtype matches Some(t) ==> rec.rtype == t@
            &&& raw.status is None ==> rec.status == "created"@
            &&& raw.author is None ==> rec.author == "unknown"@
        },
{
}

/// Every reply that has an author and says something is read, in order.
pub proof fn every_whole_reply_is_read(list: Seq<RawReply>, n: nat)
    requires
        n <= list.len(),
        forall|i: int|
            0 <= i < n ==> (#[trigger] list[i]).author is Some && list[i].content is Some,
    ensures
        read_replies(list, n).len() == n,
        forall|i: int|
            0 <= i < n ==> (#[trigger] read_replies(list, n)[i]).author == (list[i].author->Some_0)@
                && read_replies(list, n)[i].content == (list[i].content->Some_0)@,
    decreases n,
{
    if n > 0 {
        every_whole_reply_is_read(list, (n - 1) as nat);
        assert(list[n - 1].author is Some);
        let before = read_replies(list, (n - 1) as nat);
        assert forall|i: int| 0 <= i < n implies (#[trigger] read_replies(list, n)[i]).author == (
        list[i].author->Some_0)@ && read_replies(list, n)[i].content == (list[i].content->Some_0)@ by {
            if i < n - 1 {
                assert(read_replies(list, n)[i] == before[i]);
            }
        }
    }
}

} // verus!

//! What a server says of itself, of a document and of its annotations to
//! whoever asks.

use vstd::prelude::*;
use vstd::string::*;
use vstd::utf8::*;

use crate::json::{
    json_v, opt_text_v, text_list, text_or_null, texts_v, Json, JsonList, JsonObject, JsonV,
};
use crate::order::{in_order, order_is_antisymmetric, sorted, text_le};
use crate::serve::blocks::{declaration, generated_note};
use crate::serve::rewrite::holds;
use crate::serve::store::{labels_used, Annotation, AnnotationV, Sidecar};
use crate::serve::upkeep::{a_label_in_use_is_kept, left_over, not_among};
use crate::text::{opt_str, same, texts};

verus! {

// ---------------------------------------------------------------- failures

/// Why a place on a page could not be found in the document.
#[derive(Debug)]
pub enum Failure {
    /// The rendering has nothing of that name.
    NoSuchNode(String),
    /// It is not a thing that has such a place.
    WrongKind(String),
    /// It came from no file of the document.
    NoSource(String),
    /// The text it pointed at has changed.
    Lost,
    /// No anchor can be written there.
    Unwritable,
}

/// A failure, in words for whoever asked.
pub open spec fn described(failure: Failure) -> Seq<char> {
    match failure {
        Failure::NoSuchNode(uid) => "the rendering has nothing called "@ + uid@,
        Failure::WrongKind(uid) => uid@ + " is not the kind of thing that can take that"@,
        Failure::NoSource(uid) => uid@
            + " is not part of this document: it was generated, or it came from a file that is not being annotated"@,
        Failure::Lost => "the text this pointed at has changed since the page was drawn"@,
        Failure::Unwritable =>
            "an anchor cannot be written there: it is inside a string, a comment or raw text"@,
    }
}

/// A failure, in words for whoever asked.
pub fn describe(failure: &Failure) -> (r: String)
    ensures
        r@ == described(*failure),
{
    match failure {
        Failure::NoSuchNode(uid) => {
            let mut out: String = "the rendering has nothing called ".to_string();
            out.append(uid.as_str());
            out
        },
        Failure::WrongKind(uid) => {
            let mut out: String = uid.clone();
            out.append(" is not the kind of thing that can take that");
            out
        },
        Failure::NoSource(uid) => {
            let mut out: String = uid.clone();
            out.append(
                " is not part of this document: it was generated, or it came from a file that is not being annotated",
            );
            out
        },
        Failure::Lost => "the text this pointed at has changed since the page was drawn".to_string(),
        Failure::Unwritable => "an anchor cannot be written there: it is inside a string, a comment or raw text".to_string(),
    }
}

// --------------------------------------------------------------- generated

/// The first of a document's files that is to be written to and says it is
/// generated, from one on, and what it says. An anchor written there lasts
/// until whatever generates the file runs again, so none is.
pub open spec fn first_generated(
    files: Seq<Seq<char>>,
    edited: Seq<usize>,
    from: int,
) -> Option<(int, Seq<char>)>
    decreases files.len() - from,
{
    if from < 0 || from >= files.len() {
        None
    } else if edited.contains(from as usize) && declaration(files[from]) is Some {
        Some((from, declaration(files[from])->Some_0))
    } else {
        first_generated(files, edited, from + 1)
    }
}

/// Whether a list holds a number.
fn has_number(list: &Vec<usize>, n: usize) -> (r: bool)
    ensures
        r == list@.contains(n),
{
    let mut i: usize = 0;
    while i < list.len()
        invariant
            i <= list@.len(),
            forall|k: int| 0 <= k < i ==> list@[k] != n,
        decreases list@.len() - i,
    {
        if list[i] == n {
            assert(list@[i as int] == n);
            return true;
        }
        i = i + 1;
    }
    false
}

/// The first of a document's files that is to be written to and says it is
/// generated, and what it says. `edited` names the files by their place.
pub fn generated_among(files: &Vec<String>, edited: &Vec<usize>) -> (r: Option<(usize, String)>)
    ensures
        match first_generated(texts(files@), edited@, 0) {
            Some((at, said)) => r is Some && r->Some_0.0 == at && r->Some_0.1@ == said,
            None => r is None,
        },
{
    let ghost all = texts(files@);
    let n: usize = files.len();
    let mut i: usize = 0;
    while i < n
        invariant
            i <= n,
            n == files@.len(),
            all == texts(files@),
            first_generated(all, edited@, 0) == first_generated(all, edited@, i as int),
        decreases n - i,
    {
        assert(all[i as int] == files@[i as int]@);
        if has_number(edited, i) {
            if let Some(said) = generated_note(files[i].as_str()) {
                return Some((i, said));
            }
        }
        i = i + 1;
    }
    None
}

/// No file that is written to says it is generated, unless one is reported.
pub proof fn no_generated_file_is_written(files: Seq<Seq<char>>, edited: Seq<usize>, k: int)
    requires
        first_generated(files, edited, 0) is None,
        0 <= k < files.len(),
        edited.contains(k as usize),
    ensures
        declaration(files[k]) is None,
{
    lemma_first_generated(files, edited, 0, k);
}

proof fn lemma_first_generated(files: Seq<Seq<char>>, edited: Seq<usize>, from: int, k: int)
    requires
        0 <= from <= k < files.len(),
        first_generated(files, edited, from) is None,
        edited.contains(k as usize),
    ensures
        declaration(files[k]) is None,
    decreases k - from,
{
    if from < k {
        lemma_first_generated(files, edited, from + 1, k);
    }
}

// ------------------------------------------------------------------- events

/// An event: what kind it is first, when it was last, and the rest in the order
/// they were given.
pub open spec fn event_v(
    kind: Seq<char>,
    fields: Seq<(Seq<char>, JsonV)>,
    now: Seq<char>,
) -> JsonV {
    JsonV::Object(
        (seq![("type"@, JsonV::Text(kind))] + fields).push(("ts"@, JsonV::Text(now))),
    )
}

/// An event whose only field is a text.
pub fn event_of(kind: &str, name: &str, value: &str, now: &str) -> (r: Json)
    ensures
        json_v(r) == event_v(kind@, seq![(name@, JsonV::Text(value@))], now@),
{
    let mut out: JsonObject = JsonObject::new();
    out.put("type", Json::text(kind));
    out.put(name, Json::text(value));
    out.put("ts", Json::text(now));
    assert(out@ =~= event_v(kind@, seq![(name@, JsonV::Text(value@))], now@)->Object_0);
    out.done()
}

/// That an annotation was made. `value` is the annotation.
pub fn added_event(value: Json, now: &str) -> (r: Json)
    ensures
        json_v(r) == event_v("annotation_added"@, seq![("value"@, json_v(value))], now@),
{
    let ghost v = json_v(value);
    let mut out: JsonObject = JsonObject::new();
    out.put("type", Json::text("annotation_added"));
    out.put("value", value);
    out.put("ts", Json::text(now));
    assert(out@ =~= event_v("annotation_added"@, seq![("value"@, v)], now@)->Object_0);
    out.done()
}

/// That an annotation could not be anchored in a file, for what the file says.
pub fn orphaned_event(file: &str, said: &str, now: &str) -> (r: Json)
    ensures
        json_v(r) == event_v(
            "annotation_orphaned"@,
            seq![("file"@, JsonV::Text(file@)), ("said"@, JsonV::Text(said@))],
            now@,
        ),
{
    let mut out: JsonObject = JsonObject::new();
    out.put("type", Json::text("annotation_orphaned"));
    out.put("file", Json::text(file));
    out.put("said", Json::text(said));
    out.put("ts", Json::text(now));
    assert(out@ =~= event_v(
        "annotation_orphaned"@,
        seq![("file"@, JsonV::Text(file@)), ("said"@, JsonV::Text(said@))],
        now@,
    )->Object_0);
    out.done()
}

/// That something was said about an annotation.
pub fn extended_event(uuid: &str, author: &str, text: &str, now: &str) -> (r: Json)
    ensures
        json_v(r) == event_v(
            "discussion_extended"@,
            seq![
                ("uuid"@, JsonV::Text(uuid@)),
                ("author"@, JsonV::Text(author@)),
                ("text"@, JsonV::Text(text@)),
            ],
            now@,
        ),
{
    let mut out: JsonObject = JsonObject::new();
    out.put("type", Json::text("discussion_extended"));
    out.put("uuid", Json::text(uuid));
    out.put("author", Json::text(author));
    out.put("text", Json::text(text));
    out.put("ts", Json::text(now));
    assert(out@ =~= event_v(
        "discussion_extended"@,
        seq![
            ("uuid"@, JsonV::Text(uuid@)),
            ("author"@, JsonV::Text(author@)),
            ("text"@, JsonV::Text(text@)),
        ],
        now@,
    )->Object_0);
    out.done()
}

/// Where an annotation stands now.
pub fn status_event(uuid: &str, claimed: bool, resolved: bool, now: &str) -> (r: Json)
    ensures
        json_v(r) == event_v(
            "annotation_status_changed"@,
            seq![
                ("uuid"@, JsonV::Text(uuid@)),
                ("claimed"@, JsonV::Bool(claimed)),
                ("resolved"@, JsonV::Bool(resolved)),
            ],
            now@,
        ),
{
    let mut out: JsonObject = JsonObject::new();
    out.put("type", Json::text("annotation_status_changed"));
    out.put("uuid", Json::text(uuid));
    out.put("claimed", Json::Bool(claimed));
    out.put("resolved", Json::Bool(resolved));
    out.put("ts", Json::text(now));
    assert(out@ =~= event_v(
        "annotation_status_changed"@,
        seq![
            ("uuid"@, JsonV::Text(uuid@)),
            ("claimed"@, JsonV::Bool(claimed)),
            ("resolved"@, JsonV::Bool(resolved)),
        ],
        now@,
    )->Object_0);
    out.done()
}

/// That a block was rewritten, and which anchors were dropped with it.
pub fn replaced_event(uuid: &str, file: &str, dropped: &Vec<String>, now: &str) -> (r: Json)
    ensures
        json_v(r) == event_v(
            "block_replaced"@,
            seq![
                ("uuid"@, JsonV::Text(uuid@)),
                ("file"@, JsonV::Text(file@)),
                ("dropped"@, JsonV::List(texts_v(texts(dropped@)))),
            ],
            now@,
        ),
{
    let mut out: JsonObject = JsonObject::new();
    out.put("type", Json::text("block_replaced"));
    out.put("uuid", Json::text(uuid));
    out.put("file", Json::text(file));
    out.put("dropped", text_list(dropped));
    out.put("ts", Json::text(now));
    assert(out@ =~= event_v(
        "block_replaced"@,
        seq![
            ("uuid"@, JsonV::Text(uuid@)),
            ("file"@, JsonV::Text(file@)),
            ("dropped"@, JsonV::List(texts_v(texts(dropped@)))),
        ],
        now@,
    )->Object_0);
    out.done()
}

// ---------------------------------------------------------------- the status

/// A list without what stands behind its like.
pub open spec fn without_repeats(list: Seq<Seq<char>>) -> Seq<Seq<char>>
    decreases list.len(),
{
    if list.len() == 0 {
        seq![]
    } else {
        let head = without_repeats(list.drop_last());
        if head.len() > 0 && head.last() == list.last() {
            head
        } else {
            head.push(list.last())
        }
    }
}

/// A list without what stands behind its like.
pub fn unrepeated(list: Vec<String>) -> (r: Vec<String>)
    ensures
        texts(r@) == without_repeats(texts(list@)),
{
    let ghost all = texts(list@);
    let mut out: Vec<String> = Vec::new();
    let mut i: usize = 0;
    assert(all.take(0) =~= seq![]);
    assert(texts(out@) =~= seq![]);
    while i < list.len()
        invariant
            i <= list@.len(),
            all == texts(list@),
            texts(out@) == without_repeats(all.take(i as int)),
        decreases list@.len() - i,
    {
        let ghost head = texts(out@);
        proof {
            assert(all.take(i + 1).drop_last() =~= all.take(i as int));
            assert(all.take(i + 1).last() == list@[i as int]@);
        }
        let n: usize = out.len();
        if n == 0 || !same(out[n - 1].as_str(), list[i].as_str()) {
            out.push(list[i].clone());
            assert(texts(out@) =~= head.push(list@[i as int]@));
        }
        i = i + 1;
    }
    assert(all.take(i as int) =~= all);
    out
}

/// What a document's server says of it.
pub struct StatusV {
    pub document: Seq<char>,
    pub compiles: bool,
    pub diagnostics: Seq<Seq<char>>,
    pub render: Option<Seq<char>>,
    pub revision: int,
    pub readers: int,
    pub generated: Option<Seq<char>>,
    pub watched: Seq<Seq<char>>,
}

/// What a document's server says of it, as an answer.
pub open spec fn status_v(s: StatusV) -> JsonV {
    JsonV::Object(
        seq![
            ("document"@, JsonV::Text(s.document)),
            ("compiles"@, JsonV::Bool(s.compiles)),
            ("diagnostics"@, JsonV::List(texts_v(s.diagnostics))),
            ("render"@, opt_text_v(s.render)),
            ("revision"@, JsonV::Number(s.revision)),
            ("readers"@, JsonV::Number(s.readers)),
            ("generated"@, opt_text_v(s.generated)),
            ("watchedDependencies"@, JsonV::List(texts_v(s.watched))),
        ],
    )
}

/// What a document's server says of it: whether it compiles, what it says about
/// being generated, what it is made of, and how many are reading it. `files` are
/// the files the last compile read, in any order; each is named once, in order.
pub fn status_report(
    document: &str,
    text: &str,
    compiles: bool,
    diagnostics: &Vec<String>,
    render: Option<&str>,
    revision: u64,
    readers: usize,
    files: Vec<String>,
) -> (r: Json)
    ensures
        exists|order: Seq<Seq<char>>| #[trigger]
            in_order(order) && order.to_multiset() == texts(files@).to_multiset() && json_v(r)
                == status_v(
                StatusV {
                    document: document@,
                    compiles,
                    diagnostics: texts(diagnostics@),
                    render: opt_str(render),
                    revision: revision as int,
                    readers: readers as int,
                    generated: declaration(text@),
                    watched: without_repeats(order),
                },
            ),
{
    let order: Vec<String> = sorted(files);
    let ghost list = texts(order@);
    let watched: Vec<String> = unrepeated(order);
    let generated: Option<String> = generated_note(text);
    let mut out: JsonObject = JsonObject::new();
    out.put("document", Json::text(document));
    out.put("compiles", Json::Bool(compiles));
    out.put("diagnostics", text_list(diagnostics));
    out.put("render", text_or_null(render));
    out.put("revision", Json::Number(revision));
    out.put("readers", Json::count(readers));
    out.put(
        "generated",
        match &generated {
            Some(said) => Json::text(said.as_str()),
            None => Json::Null,
        },
    );
    out.put("watchedDependencies", text_list(&watched));
    proof {
        let s = StatusV {
            document: document@,
            compiles,
            diagnostics: texts(diagnostics@),
            render: opt_str(render),
            revision: revision as int,
            readers: readers as int,
            generated: declaration(text@),
            watched: without_repeats(list),
        };
        assert(out@ =~= status_v(s)->Object_0);
        assert(in_order(list));
    }
    out.done()
}

/// In a list in order that says nothing twice in a row, nothing stands twice.
pub proof fn each_file_is_named_once(list: Seq<Seq<char>>)
    requires
        in_order(list),
    ensures
        without_repeats(list).no_duplicates(),
        forall|x: Seq<char>| #[trigger] without_repeats(list).contains(x) <==> list.contains(x),
{
    lemma_without_repeats(list);
}

proof fn lemma_without_repeats(list: Seq<Seq<char>>)
    requires
        in_order(list),
    ensures
        without_repeats(list).no_duplicates(),
        list.len() > 0 ==> without_repeats(list).len() > 0 && without_repeats(list).last()
            == list.last(),
        forall|x: Seq<char>| #[trigger] without_repeats(list).contains(x) <==> list.contains(x),
    decreases list.len(),
{
    if list.len() > 0 {
        let head = list.drop_last();
        let kept = without_repeats(head);
        let last = list.last();
        assert(in_order(head)) by {
            assert forall|i: int, j: int| 0 <= i <= j < head.len() implies text_le(
                #[trigger] head[i],
                #[trigger] head[j],
            ) by {
                assert(text_le(list[i], list[j]));
            }
        }
        lemma_without_repeats(head);
        assert forall|x: Seq<char>| #[trigger]
            without_repeats(list).contains(x) <==> list.contains(x) by {
            let all = kept.push(last);
            assert(all[all.len() - 1] == last);
            assert(list[list.len() - 1] == last);
            if kept.contains(x) {
                let k = choose|k: int| 0 <= k < kept.len() && kept[k] == x;
                assert(all[k] == x);
            }
            if all.contains(x) && x != last {
                let k = choose|k: int| 0 <= k < all.len() && all[k] == x;
                assert(kept[k] == x);
            }
            if head.contains(x) {
                let k = choose|k: int| 0 <= k < head.len() && head[k] == x;
                assert(list[k] == x);
            }
            if list.contains(x) && x != last {
                let k = choose|k: int| 0 <= k < list.len() && list[k] == x;
                assert(head[k] == x);
            }
            if kept.len() > 0 && kept.last() == last {
                assert(kept[kept.len() - 1] == last);
            }
        }
        if !(kept.len() > 0 && kept.last() == last) {
            // Had the last stood before, it would be the last kept as well.
            if kept.contains(last) {
                assert(head.contains(last));
                let k = choose|k: int| 0 <= k < head.len() && head[k] == last;
                let n = head.len() - 1;
                assert(text_le(list[k], list[n]));
                assert(text_le(list[n], list[list.len() - 1]));
                order_is_antisymmetric_texts(head.last(), last);
            }
            let all = kept.push(last);
            assert forall|i: int, j: int| 0 <= i < all.len() && 0 <= j < all.len() && i != j implies all[i]
                != all[j] by {
                if i == kept.len() {
                    assert(kept.contains(kept[j]));
                } else if j == kept.len() {
                    assert(kept.contains(kept[i]));
                }
            }
        }
    }
}

proof fn order_is_antisymmetric_texts(a: Seq<char>, b: Seq<char>)
    requires
        text_le(a, b),
        text_le(b, a),
    ensures
        a == b,
{
    order_is_antisymmetric(encode_utf8(a), encode_utf8(b));
    encode_utf8_decode_utf8(a);
    encode_utf8_decode_utf8(b);
}

// ------------------------------------------------------------------ the audit

/// One of a document's files and the anchors in it.
#[derive(Debug)]
pub struct FileAnchors {
    /// The file.
    pub file: String,
    /// The names of its anchors, in order.
    pub anchors: Vec<String>,
}

/// The names of all the anchors of some files.
pub open spec fn all_anchors(files: Seq<FileAnchors>) -> Seq<Seq<char>>
    decreases files.len(),
{
    if files.len() == 0 {
        seq![]
    } else {
        all_anchors(files.drop_last()) + texts(files.last().anchors@)
    }
}

/// Each of some texts once, where it first stood.
pub open spec fn once(list: Seq<Seq<char>>) -> Seq<Seq<char>>
    decreases list.len(),
{
    if list.len() == 0 {
        seq![]
    } else if once(list.drop_last()).contains(list.last()) {
        once(list.drop_last())
    } else {
        once(list.drop_last()).push(list.last())
    }
}

/// Each of some texts once, where it first stood.
pub fn each_once(list: &Vec<String>) -> (r: Vec<String>)
    ensures
        texts(r@) == once(texts(list@)),
{
    let ghost all = texts(list@);
    let mut out: Vec<String> = Vec::new();
    let mut i: usize = 0;
    assert(all.take(0) =~= seq![]);
    assert(texts(out@) =~= seq![]);
    while i < list.len()
        invariant
            i <= list@.len(),
            all == texts(list@),
            texts(out@) == once(all.take(i as int)),
        decreases list@.len() - i,
    {
        let ghost before = texts(out@);
        proof {
            assert(all.take(i + 1).drop_last() =~= all.take(i as int));
            assert(all.take(i + 1).last() == list@[i as int]@);
        }
        if !holds(&out, list[i].as_str()) {
            out.push(list[i].clone());
            assert(texts(out@) =~= before.push(list@[i as int]@));
        }
        i = i + 1;
    }
    assert(all.take(i as int) =~= all);
    out
}

/// How many anchors each file holds, as an answer.
pub open spec fn per_file_v(files: Seq<FileAnchors>) -> Seq<JsonV> {
    files.map_values(
        |f: FileAnchors|
            JsonV::Object(
                seq![
                    ("file"@, JsonV::Text(f.file@)),
                    ("anchors"@, JsonV::Number(f.anchors@.len() as int)),
                ],
            ),
    )
}

/// An annotation that names an anchor no file has, as an answer.
pub open spec fn dangling_v(a: AnnotationV, names: Seq<Seq<char>>) -> JsonV {
    JsonV::Object(
        seq![
            ("uuid"@, JsonV::Text(a.uuid)),
            ("letter"@, JsonV::Text(a.letter)),
            ("content"@, JsonV::Text(a.content)),
            ("snapshot"@, opt_text_v(a.snapshot)),
            ("lostAnchors"@, JsonV::List(texts_v(not_among(a.location.labels, names)))),
        ],
    )
}

/// The annotations that name an anchor no file has, as an answer.
pub open spec fn orphans_v(list: Seq<AnnotationV>, names: Seq<Seq<char>>) -> Seq<JsonV>
    decreases list.len(),
{
    if list.len() == 0 {
        seq![]
    } else if not_among(list.last().location.labels, names).len() == 0 {
        orphans_v(list.drop_last(), names)
    } else {
        orphans_v(list.drop_last(), names).push(dangling_v(list.last(), names))
    }
}

/// What a document and its annotations say about each other, as an answer.
pub open spec fn audit_v(
    document: Seq<char>,
    files: Seq<FileAnchors>,
    list: Seq<AnnotationV>,
) -> JsonV {
    let names = all_anchors(files);
    JsonV::Object(
        seq![
            ("document"@, JsonV::Text(document)),
            ("files"@, JsonV::List(per_file_v(files))),
            ("annotations"@, JsonV::Number(list.len() as int)),
            ("anchors"@, JsonV::Number(names.len() as int)),
            ("unusedAnchors"@, JsonV::List(texts_v(not_among(names, labels_used(list))))),
            ("missingAnchors"@, JsonV::List(texts_v(once(not_among(labels_used(list), names))))),
            ("orphaned"@, JsonV::List(orphans_v(list, names))),
        ],
    )
}

/// How many anchors each file holds.
fn per_file(files: &Vec<FileAnchors>) -> (r: Json)
    ensures
        json_v(r) == JsonV::List(per_file_v(files@)),
{
    let mut out: JsonList = JsonList::new();
    let mut i: usize = 0;
    while i < files.len()
        invariant
            i <= files@.len(),
            out@ == per_file_v(files@).take(i as int),
        decreases files@.len() - i,
    {
        let mut f: JsonObject = JsonObject::new();
        f.put("file", Json::text(files[i].file.as_str()));
        f.put("anchors", Json::count(files[i].anchors.len()));
        assert(f@ =~= per_file_v(files@)[i as int]->Object_0);
        out.push(f.done());
        assert(out@ =~= per_file_v(files@).take(i + 1));
        i = i + 1;
    }
    assert(per_file_v(files@).take(i as int) =~= per_file_v(files@));
    out.done()
}

/// The names of all the anchors of some files.
fn names_in(files: &Vec<FileAnchors>) -> (r: Vec<String>)
    ensures
        texts(r@) == all_anchors(files@),
{
    let mut out: Vec<String> = Vec::new();
    let mut i: usize = 0;
    assert(files@.take(0) =~= seq![]);
    assert(texts(out@) =~= seq![]);
    while i < files.len()
        invariant
            i <= files@.len(),
            texts(out@) == all_anchors(files@.take(i as int)),
        decreases files@.len() - i,
    {
        let list: &Vec<String> = &files[i].anchors;
        let ghost before = texts(out@);
        let mut j: usize = 0;
        while j < list.len()
            invariant
                j <= list@.len(),
                texts(out@) == before + texts(list@).take(j as int),
            decreases list@.len() - j,
        {
            let ghost held = texts(out@);
            out.push(list[j].clone());
            assert(texts(out@) =~= held.push(list@[j as int]@));
            assert(texts(out@) =~= before + texts(list@).take(j + 1));
            j = j + 1;
        }
        assert(texts(list@).take(j as int) =~= texts(list@));
        i = i + 1;
        assert(files@.take(i as int).drop_last() =~= files@.take(i - 1));
        assert(files@.take(i as int).last() == files@[i - 1]);
    }
    assert(files@.take(i as int) =~= files@);
    out
}

/// An annotation that names an anchor no file has.
fn dangling(a: &Annotation, lost: &Vec<String>, names: Ghost<Seq<Seq<char>>>) -> (r: Json)
    requires
        texts(lost@) == not_among(a@.location.labels, names@),
    ensures
        json_v(r) == dangling_v(a@, names@),
{
    let mut f: JsonObject = JsonObject::new();
    f.put("uuid", Json::text(a.uuid.as_str()));
    f.put("letter", Json::text(a.letter.as_str()));
    f.put("content", Json::text(a.content.as_str()));
    f.put(
        "snapshot",
        match &a.snapshot {
            Some(s) => Json::text(s.as_str()),
            None => Json::Null,
        },
    );
    f.put("lostAnchors", text_list(lost));
    assert(f@ =~= dangling_v(a@, names@)->Object_0);
    f.done()
}

/// What a document and its annotations say about each other: anchors nothing
/// points at, annotations pointing at anchors that are gone. Every file of the
/// document counts, the document itself first: an annotation on a heading in
/// another file is anchored in that file.
pub fn audit_report(document: &str, files: &Vec<FileAnchors>, sidecar: &Sidecar) -> (r: Json)
    ensures
        json_v(r) == audit_v(document@, files@, sidecar@),
{
    let names: Vec<String> = names_in(files);
    let used: Vec<String> = sidecar.labels_in_use();
    let unused: Vec<String> = left_over(&names, &used);
    let gone: Vec<String> = left_over(&used, &names);
    let missing: Vec<String> = each_once(&gone);
    let ghost list = sidecar@;
    let ghost all = all_anchors(files@);
    let mut orphans: JsonList = JsonList::new();
    let mut i: usize = 0;
    assert(list.take(0) =~= seq![]);
    while i < sidecar.annotations.len()
        invariant
            i <= sidecar.annotations@.len(),
            list == sidecar@,
            all == texts(names@),
            orphans@ == orphans_v(list.take(i as int), all),
        decreases sidecar.annotations@.len() - i,
    {
        let a: &Annotation = &sidecar.annotations[i];
        let lost: Vec<String> = left_over(&a.location.labels, &names);
        proof {
            assert(list.take(i + 1).drop_last() =~= list.take(i as int));
            assert(list.take(i + 1).last() == a@);
            assert(texts(lost@).len() == lost@.len());
        }
        if lost.len() > 0 {
            orphans.push(dangling(a, &lost, Ghost(all)));
        }
        i = i + 1;
    }
    assert(list.take(i as int) =~= list);
    let mut out: JsonObject = JsonObject::new();
    out.put("document", Json::text(document));
    out.put("files", per_file(files));
    out.put("annotations", Json::count(sidecar.annotations.len()));
    out.put("anchors", Json::count(names.len()));
    out.put("unusedAnchors", text_list(&unused));
    out.put("missingAnchors", text_list(&missing));
    out.put("orphaned", orphans.done());
    assert(texts(names@).len() == names@.len());
    assert(out@ =~= audit_v(document@, files@, sidecar@)->Object_0);
    out.done()
}

/// Nothing is orphaned where every anchor that is named is in a file.
pub proof fn a_whole_document_has_no_orphans(list: Seq<AnnotationV>, names: Seq<Seq<char>>)
    requires
        forall|i: int, k: int|
            0 <= i < list.len() && 0 <= k < list[i].location.labels.len() ==> names.contains(
                #[trigger] list[i].location.labels[k],
            ),
    ensures
        orphans_v(list, names) == Seq::<JsonV>::empty(),
    decreases list.len(),
{
    if list.len() > 0 {
        let head = list.drop_last();
        assert forall|i: int, k: int|
            0 <= i < head.len() && 0 <= k < head[i].location.labels.len() implies names.contains(
            #[trigger] head[i].location.labels[k],
        ) by {
            assert(names.contains(list[i].location.labels[k]));
        }
        a_whole_document_has_no_orphans(head, names);
        let labels = list.last().location.labels;
        assert forall|k: int| 0 <= k < labels.len() implies names.contains(#[trigger] labels[k]) by {
            assert(names.contains(list[list.len() - 1].location.labels[k]));
        }
        lemma_all_among(labels, names);
    }
}

proof fn lemma_all_among(labels: Seq<Seq<char>>, names: Seq<Seq<char>>)
    requires
        forall|k: int| 0 <= k < labels.len() ==> names.contains(#[trigger] labels[k]),
    ensures
        not_among(labels, names).len() == 0,
    decreases labels.len(),
{
    if labels.len() > 0 {
        let head = labels.drop_last();
        assert forall|k: int| 0 <= k < head.len() implies names.contains(#[trigger] head[k]) by {
            assert(names.contains(labels[k]));
        }
        assert(names.contains(labels[labels.len() - 1]));
        lemma_all_among(head, names);
    }
}

/// An annotation that points at a label which is in no file is told as one that lost its place, and
/// no other is.
pub proof fn what_lost_its_place_is_told(list: Seq<AnnotationV>, names: Seq<Seq<char>>, i: int, k: int)
    requires
        0 <= i < list.len(),
        0 <= k < list[i].location.labels.len(),
        !names.contains(list[i].location.labels[k]),
    ensures
        exists|j: int|
            0 <= j < orphans_v(list, names).len() && #[trigger] orphans_v(list, names)[j] == dangling_v(
                list[i],
                names,
            ),
    decreases list.len(),
{
    let before = list.drop_last();
    let found = orphans_v(before, names);
    let all = orphans_v(list, names);
    if i < before.len() {
        what_lost_its_place_is_told(before, names, i, k);
        let j = choose|j: int| 0 <= j < found.len() && #[trigger] found[j] == dangling_v(before[i], names);
        assert(all[j] == found[j]);
    } else {
        let labels = list[i].location.labels;
        a_label_in_use_is_kept(labels, names, labels[k]);
        assert(labels.contains(labels[k]));
        assert(all[found.len() as int] == dangling_v(list[i], names));
    }
}

/// Each of some names is told once, and none is lost.
pub proof fn each_name_is_told_once(list: Seq<Seq<char>>, x: Seq<char>)
    ensures
        once(list).contains(x) <==> list.contains(x),
        once(list).no_duplicates(),
    decreases list.len(),
{
    if list.len() > 0 {
        let before = list.drop_last();
        let head = once(before);
        let all = once(list);
        each_name_is_told_once(before, x);
        each_name_is_told_once(before, list.last());
        if all.contains(x) {
            let k = all.index_of(x);
            if k < head.len() {
                assert(head[k] == x);
                let i = before.index_of(x);
                assert(list[i] == x);
            } else {
                assert(list[list.len() - 1] == x);
            }
        }
        if list.contains(x) {
            let i = list.index_of(x);
            if i < before.len() {
                assert(before[i] == x);
                let k = head.index_of(x);
                assert(all[k] == x);
            } else if !head.contains(x) {
                assert(all[head.len() as int] == x);
            }
        }
        if !head.contains(list.last()) {
            assert forall|a: int, b: int| 0 <= a < all.len() && 0 <= b < all.len() && a != b implies all[a]
                != all[b] by {
                if a < head.len() && b < head.len() {
                    assert(head[a] != head[b]);
                } else if a < head.len() {
                    assert(head.contains(head[a]));
                } else {
                    assert(head.contains(head[b]));
                }
            }
        }
    }
}

/// Every label of every file is among those of the document.
pub proof fn every_label_of_a_file_counts(files: Seq<FileAnchors>, i: int, k: int)
    requires
        0 <= i < files.len(),
        0 <= k < files[i].anchors@.len(),
    ensures
        all_anchors(files).contains(files[i].anchors@[k]@),
    decreases files.len(),
{
    let before = files.drop_last();
    let all = all_anchors(files);
    let head = all_anchors(before);
    let own = texts(files.last().anchors@);
    if i < before.len() {
        every_label_of_a_file_counts(before, i, k);
        let j = head.index_of(files[i].anchors@[k]@);
        assert(all[j] == head[j]);
    } else {
        assert(own[k] == files[i].anchors@[k]@);
        assert(all[head.len() + k] == own[k]);
    }
}

} // verus!

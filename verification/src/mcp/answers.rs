//! What an agent is answered with.

use vstd::prelude::*;
use vstd::string::*;
use vstd::utf8::*;

use crate::json::{
    json_v, opt_text_v, text_list, texts_v, with_v, Json, JsonList, JsonObject, JsonV,
};
use crate::num::{decimal, decimal_of};
use crate::serve::pins::{marked, with_markup};
use crate::serve::rewrite::{Anchor, SourceBlock};
use crate::serve::site::DocEntry;
use crate::serve::snippet::{base64_text, to_base64};
use crate::serve::store::{Annotation, AnnotationV, Capture, CaptureV, Sidecar};
use crate::serve::upkeep::with_flags;
use crate::text::{
    chars_of, cut, is_space, join, joined, lemma_join_first, opt_str, opt_text, same, string_of,
    texts, words, words_are_set_apart_by_space, words_of,
};

verus! {

// --------------------------------------------------------------- the documents

/// What an agent is told of one of several documents.
pub open spec fn document_v(e: DocEntry) -> JsonV {
    JsonV::Object(
        seq![
            ("document"@, JsonV::Text(e.slug@)),
            ("title"@, JsonV::Text(e.title@)),
            ("file"@, JsonV::Text(e.file@)),
            ("annotations"@, JsonV::Number(e.annotations as int)),
        ],
    )
}

/// The documents a server holds, as an answer.
pub open spec fn documents_v(docs: Seq<JsonV>) -> JsonV {
    JsonV::Object(seq![("documents"@, JsonV::List(docs))])
}

/// The documents a server holds.
pub fn list_documents(entries: &Vec<DocEntry>) -> (r: Json)
    ensures
        json_v(r) == documents_v(entries@.map_values(|e: DocEntry| document_v(e))),
{
    let ghost all = entries@.map_values(|e: DocEntry| document_v(e));
    let mut docs: JsonList = JsonList::new();
    let mut i: usize = 0;
    while i < entries.len()
        invariant
            i <= entries@.len(),
            all == entries@.map_values(|e: DocEntry| document_v(e)),
            docs@ == all.take(i as int),
        decreases entries@.len() - i,
    {
        let e: &DocEntry = &entries[i];
        let mut one: JsonObject = JsonObject::new();
        one.put("document", Json::text(e.slug.as_str()));
        one.put("title", Json::text(e.title.as_str()));
        one.put("file", Json::text(e.file.as_str()));
        one.put("annotations", Json::count(e.annotations));
        assert(one@ =~= document_v(*e)->Object_0);
        docs.push(one.done());
        assert(docs@ =~= all.take(i + 1));
        i = i + 1;
    }
    assert(all.take(i as int) =~= all);
    let mut out: JsonObject = JsonObject::new();
    out.put("documents", docs.done());
    assert(out@ =~= documents_v(all)->Object_0);
    out.done()
}

/// The only document of a server of one.
pub fn list_only_document(title: &str) -> (r: Json)
    ensures
        json_v(r) == documents_v(
            seq![
                JsonV::Object(
                    seq![("document"@, JsonV::Text(""@)), ("title"@, JsonV::Text(title@))],
                ),
            ],
        ),
{
    let mut one: JsonObject = JsonObject::new();
    one.put("document", Json::text(""));
    one.put("title", Json::text(title));
    assert(one@ =~= seq![("document"@, JsonV::Text(""@)), ("title"@, JsonV::Text(title@))]);
    let mut docs: JsonList = JsonList::new();
    docs.push(one.done());
    let mut out: JsonObject = JsonObject::new();
    out.put("documents", docs.done());
    proof {
        let want = documents_v(
            seq![
                JsonV::Object(
                    seq![("document"@, JsonV::Text(""@)), ("title"@, JsonV::Text(title@))],
                ),
            ],
        )->Object_0;
        assert(docs@ =~= want[0].1->List_0);
        assert(out@ =~= want);
    }
    out.done()
}

// ------------------------------------------------------------- the annotations

/// How much of a text an excerpt shows.
pub const EXCERPT: usize = 160;

/// A line of a text: its words with a space between them, cut where it is long.
pub open spec fn excerpt_v(text: Seq<char>) -> Seq<char> {
    let line = join(words(text), " "@);
    if line.len() > EXCERPT {
        line.take(EXCERPT as int) + "…"@
    } else {
        line
    }
}

/// A line of a text.
pub fn excerpt(text: &str) -> (r: String)
    ensures
        r@ == excerpt_v(text@),
{
    let line: String = joined(&words_of(text), " ");
    let chars: Vec<char> = chars_of(line.as_str());
    if chars.len() > EXCERPT {
        let (head, _): (&[char], &[char]) = cut(chars.as_slice(), EXCERPT, 0);
        let mut out: String = string_of(head);
        out.append("…");
        out
    } else {
        line
    }
}

/// A line of what an annotation points at: the block it is in, or, for one about
/// the document and one whose place is gone, what it was about when it was
/// written.
pub fn excerpt_of(block: Option<&str>, snapshot: Option<&str>) -> (r: Option<String>)
    ensures
        opt_text(r) == match (opt_str(block), opt_str(snapshot)) {
            (Some(text), _) => Some(excerpt_v(text)),
            (None, Some(text)) => Some(excerpt_v(text)),
            (None, None) => None,
        },
{
    match block {
        Some(text) => Some(excerpt(text)),
        None => match snapshot {
            Some(text) => Some(excerpt(text)),
            None => None,
        },
    }
}

/// One annotation as the tools describe it: as it is, with an excerpt of what it
/// points at.
pub open spec fn described_v(value: JsonV, excerpt: Option<Seq<char>>) -> JsonV {
    match excerpt {
        Some(line) => with_v(value, "excerpt"@, JsonV::Text(line)),
        None => value,
    }
}

/// One annotation as the tools describe it.
pub fn describe_record(value: &Json, excerpt: Option<&str>) -> (r: Json)
    ensures
        json_v(r) == described_v(json_v(*value), opt_str(excerpt)),
{
    match excerpt {
        Some(line) => value.with("excerpt", Json::text(line)),
        None => value.copy(),
    }
}

/// Whether an annotation stands as a word says: done, in somebody's hands, or
/// nobody's. Any other word says nothing.
pub open spec fn stands_as(a: AnnotationV, status: Option<Seq<char>>) -> bool {
    match status {
        Some(word) => if word == "resolved"@ {
            a.resolved
        } else if word == "claimed"@ {
            a.claimed && !a.resolved
        } else if word == "open"@ {
            !a.claimed && !a.resolved
        } else {
            true
        },
        None => true,
    }
}

/// Whether an annotation is one that is asked for.
pub open spec fn wanted_v(
    a: AnnotationV,
    status: Option<Seq<char>>,
    author: Option<Seq<char>>,
) -> bool {
    stands_as(a, status) && (author matches Some(name) ==> a.author == name)
}

/// Every annotation stands in exactly one way.
pub proof fn an_annotation_stands_one_way(a: AnnotationV)
    ensures
        stands_as(a, Some("resolved"@)) || stands_as(a, Some("claimed"@)) || stands_as(
            a,
            Some("open"@),
        ),
        !(stands_as(a, Some("resolved"@)) && stands_as(a, Some("claimed"@))),
        !(stands_as(a, Some("resolved"@)) && stands_as(a, Some("open"@))),
        !(stands_as(a, Some("claimed"@)) && stands_as(a, Some("open"@))),
{
    reveal_strlit("resolved");
    reveal_strlit("claimed");
    reveal_strlit("open");
    assert("resolved"@.len() == 8 && "claimed"@.len() == 7 && "open"@.len() == 4);
}

/// What the words for how an annotation stands mean: one that is neither taken up nor done is
/// open and nothing else, one that is taken up and not done is claimed and nothing else, and
/// one that is done is resolved and nothing else, whoever took it up.
pub proof fn the_words_say_how_it_stands(a: AnnotationV)
    ensures
        !a.claimed && !a.resolved ==> stands_as(a, Some("open"@)) && !stands_as(
            a,
            Some("claimed"@),
        ) && !stands_as(a, Some("resolved"@)),
        a.claimed && !a.resolved ==> stands_as(a, Some("claimed"@)) && !stands_as(
            a,
            Some("open"@),
        ) && !stands_as(a, Some("resolved"@)),
        a.resolved ==> stands_as(a, Some("resolved"@)) && !stands_as(a, Some("open"@))
            && !stands_as(a, Some("claimed"@)),
{
    reveal_strlit("resolved");
    reveal_strlit("claimed");
    reveal_strlit("open");
    assert("resolved"@.len() == 8 && "claimed"@.len() == 7 && "open"@.len() == 4);
}

/// An annotation that is taken up is listed as claimed from then on, and no longer as open,
/// unless it is done; one that is let go of is open again; and one that is settled is listed
/// as resolved alone, whether somebody held it or not.
pub proof fn what_is_done_moves_an_annotation(a: AnnotationV, now: Seq<char>)
    ensures
        ({
            let taken = with_flags(a, Some(true), None, now);
            let freed = with_flags(taken, Some(false), None, now);
            let done = with_flags(a, Some(false), Some(true), now);
            &&& !a.resolved ==> stands_as(taken, Some("claimed"@)) && !stands_as(
                taken,
                Some("open"@),
            ) && !stands_as(taken, Some("resolved"@))
            &&& !a.resolved ==> stands_as(freed, Some("open"@)) && !stands_as(
                freed,
                Some("claimed"@),
            ) && !stands_as(freed, Some("resolved"@))
            &&& stands_as(done, Some("resolved"@)) && !stands_as(done, Some("open"@))
                && !stands_as(done, Some("claimed"@))
            &&& taken.uuid == a.uuid && taken.content == a.content && taken.discussion
                == a.discussion && taken.location == a.location && taken.author == a.author
            &&& taken.resolved == a.resolved && freed.resolved == a.resolved
        }),
{
    the_words_say_how_it_stands(with_flags(a, Some(true), None, now));
    the_words_say_how_it_stands(
        with_flags(with_flags(a, Some(true), None, now), Some(false), None, now),
    );
    the_words_say_how_it_stands(with_flags(a, Some(false), Some(true), now));
}

/// Whether an annotation is one of those a list was asked for, by how it stands and by who
/// wrote it.
pub open spec fn is_meant(a: AnnotationV, status: Seq<char>, author: Option<Seq<char>>) -> bool {
    &&& author matches Some(name) ==> a.author == name
    &&& status == "open"@ ==> !a.claimed && !a.resolved
    &&& status == "claimed"@ ==> a.claimed && !a.resolved
    &&& status == "resolved"@ ==> a.resolved
}

/// Whether a list is that of the annotations at some places, in their order, and those are all
/// that are meant.
pub open spec fn lists_exactly(
    list: Seq<AnnotationV>,
    values: Seq<Json>,
    excerpts: Seq<Option<String>>,
    status: Seq<char>,
    author: Option<Seq<char>>,
    places: Seq<int>,
    listed: Seq<JsonV>,
) -> bool {
    &&& places.len() == listed.len()
    &&& forall|k: int|
        0 <= k < places.len() ==> 0 <= (#[trigger] places[k]) < list.len() && is_meant(
            list[places[k]],
            status,
            author,
        ) && listed[k] == (match excerpts[places[k]] {
            Some(line) => with_v(json_v(values[places[k]]), "excerpt"@, JsonV::Text(line@)),
            None => json_v(values[places[k]]),
        })
    &&& forall|k: int, l: int| 0 <= k < l < places.len() ==> places[k] < places[l]
    &&& forall|i: int|
        0 <= i < list.len() && is_meant(#[trigger] list[i], status, author) ==> places.contains(i)
}

/// A list of annotations by a word holds every annotation that stands so and was written by
/// who was asked for, each once and in the order of the document, and no other.
pub proof fn a_list_holds_what_was_asked_for(
    list: Seq<AnnotationV>,
    values: Seq<Json>,
    excerpts: Seq<Option<String>>,
    status: Seq<char>,
    author: Option<Seq<char>>,
)
    requires
        status == "open"@ || status == "claimed"@ || status == "resolved"@,
    ensures
        exists|places: Seq<int>| #[trigger]
            lists_exactly(
                list,
                values,
                excerpts,
                status,
                author,
                places,
                listed_v(list, values, excerpts, Some(status), author, list.len()),
            ),
{
    let places = lemma_listed(list, values, excerpts, Some(status), author, list.len());
    let listed = listed_v(list, values, excerpts, Some(status), author, list.len());
    assert forall|i: int| 0 <= i < list.len() implies is_meant(#[trigger] list[i], status, author)
        == wanted_v(list[i], Some(status), author) by {
        the_words_say_how_it_stands(list[i]);
        reveal_strlit("resolved");
        reveal_strlit("claimed");
        reveal_strlit("open");
        assert("resolved"@.len() == 8 && "claimed"@.len() == 7 && "open"@.len() == 4);
    }
    assert(lists_exactly(list, values, excerpts, status, author, places, listed));
}

/// A list of annotations by no word holds all by who was asked for.
pub proof fn a_list_by_no_word_holds_all(
    list: Seq<AnnotationV>,
    values: Seq<Json>,
    excerpts: Seq<Option<String>>,
)
    ensures
        listed_v(list, values, excerpts, None, None, list.len()).len() == list.len(),
{
    lemma_all_listed(list, values, excerpts, list.len());
}

/// Without a word or a name every annotation is listed.
proof fn lemma_all_listed(
    list: Seq<AnnotationV>,
    values: Seq<Json>,
    excerpts: Seq<Option<String>>,
    n: nat,
)
    requires
        n <= list.len(),
    ensures
        listed_v(list, values, excerpts, None, None, n).len() == n,
    decreases n,
{
    if n > 0 {
        lemma_all_listed(list, values, excerpts, (n - 1) as nat);
    }
}

/// The places of the first annotations that are listed.
proof fn lemma_listed(
    list: Seq<AnnotationV>,
    values: Seq<Json>,
    excerpts: Seq<Option<String>>,
    status: Option<Seq<char>>,
    author: Option<Seq<char>>,
    n: nat,
) -> (places: Seq<int>)
    requires
        n <= list.len(),
    ensures
        ({
            let listed = listed_v(list, values, excerpts, status, author, n);
            &&& places.len() == listed.len()
            &&& forall|k: int|
                0 <= k < places.len() ==> 0 <= (#[trigger] places[k]) < n && wanted_v(
                    list[places[k]],
                    status,
                    author,
                ) && listed[k] == described_v(
                    json_v(values[places[k]]),
                    opt_text(excerpts[places[k]]),
                )
            &&& forall|k: int, l: int| 0 <= k < l < places.len() ==> places[k] < places[l]
            &&& forall|i: int|
                0 <= i < n && wanted_v(#[trigger] list[i], status, author) ==> places.contains(i)
        }),
    decreases n,
{
    if n == 0 {
        Seq::empty()
    } else {
        let before = lemma_listed(list, values, excerpts, status, author, (n - 1) as nat);
        let last = n - 1;
        if wanted_v(list[last], status, author) {
            let places = before.push(last);
            assert forall|i: int| 0 <= i < n && wanted_v(#[trigger] list[i], status, author) implies places.contains(
                i,
            ) by {
                if i < last {
                    let k = before.index_of(i);
                    assert(places[k] == i);
                } else {
                    assert(places[before.len() as int] == i);
                }
            }
            places
        } else {
            before
        }
    }
}

/// Whether an annotation is one that is asked for.
pub fn wanted(rec: &Annotation, status: Option<&str>, author: Option<&str>) -> (r: bool)
    ensures
        r == wanted_v(rec@, opt_str(status), opt_str(author)),
{
    let stands: bool = match status {
        Some(word) => if same(word, "resolved") {
            rec.resolved
        } else if same(word, "claimed") {
            rec.claimed && !rec.resolved
        } else if same(word, "open") {
            !rec.claimed && !rec.resolved
        } else {
            true
        },
        None => true,
    };
    stands && match author {
        Some(name) => same(rec.author.as_str(), name),
        None => true,
    }
}

/// The first of some annotations that are asked for, as the tools describe them.
pub open spec fn listed_v(
    list: Seq<AnnotationV>,
    values: Seq<Json>,
    excerpts: Seq<Option<String>>,
    status: Option<Seq<char>>,
    author: Option<Seq<char>>,
    n: nat,
) -> Seq<JsonV>
    decreases n,
{
    if n == 0 || n > list.len() {
        seq![]
    } else {
        let head = listed_v(list, values, excerpts, status, author, (n - 1) as nat);
        if wanted_v(list[n - 1], status, author) {
            head.push(described_v(json_v(values[n - 1]), opt_text(excerpts[n - 1])))
        } else {
            head
        }
    }
}

/// The annotations of a document that are asked for, as an answer.
pub open spec fn annotations_v(document: Seq<char>, listed: Seq<JsonV>) -> JsonV {
    JsonV::Object(
        seq![("document"@, JsonV::Text(document)), ("annotations"@, JsonV::List(listed))],
    )
}

/// The annotations of a document that are asked for, each as it is written and
/// with an excerpt of what it points at.
pub fn list_annotations(
    document: &str,
    sidecar: &Sidecar,
    values: &Vec<Json>,
    excerpts: &Vec<Option<String>>,
    status: Option<&str>,
    author: Option<&str>,
) -> (r: Json)
    requires
        values@.len() == sidecar@.len(),
        excerpts@.len() == sidecar@.len(),
    ensures
        json_v(r) == annotations_v(
            document@,
            listed_v(
                sidecar@,
                values@,
                excerpts@,
                opt_str(status),
                opt_str(author),
                sidecar@.len(),
            ),
        ),
{
    let mut listed: JsonList = JsonList::new();
    let n: usize = sidecar.annotations.len();
    let mut i: usize = 0;
    while i < n
        invariant
            i <= n,
            n == sidecar.annotations@.len(),
            values@.len() == sidecar@.len(),
            excerpts@.len() == sidecar@.len(),
            listed@ == listed_v(
                sidecar@,
                values@,
                excerpts@,
                opt_str(status),
                opt_str(author),
                i as nat,
            ),
        decreases n - i,
    {
        assert(sidecar@[i as int] == sidecar.annotations@[i as int]@);
        if wanted(&sidecar.annotations[i], status, author) {
            let line: Option<&str> = match &excerpts[i] {
                Some(line) => Some(line.as_str()),
                None => None,
            };
            listed.push(describe_record(&values[i], line));
        }
        i = i + 1;
    }
    let mut out: JsonObject = JsonObject::new();
    out.put("document", Json::text(document));
    out.put("annotations", listed.done());
    assert(out@ =~= annotations_v(document@, listed@)->Object_0);
    out.done()
}

// ------------------------------------------------------------------- the block

/// An anchor of a block, as an answer.
pub open spec fn anchor_json(a: Anchor) -> JsonV {
    JsonV::Object(
        seq![
            ("ref"@, JsonV::Text(a.reference@)),
            ("at"@, JsonV::Number(a.at as int)),
            ("label"@, JsonV::Text(a.label@)),
            ("annotations"@, JsonV::List(texts_v(texts(a.annotations@)))),
        ],
    )
}

/// A field that is there only where it says something.
pub open spec fn optional_field(name: Seq<char>, value: Option<Seq<char>>) -> Seq<
    (Seq<char>, JsonV),
> {
    match value {
        Some(text) => seq![(name, JsonV::Text(text))],
        None => seq![],
    }
}

/// Two numbers, as an answer.
pub open spec fn pair_json(range: (usize, usize)) -> JsonV {
    JsonV::List(seq![JsonV::Number(range.0 as int), JsonV::Number(range.1 as int)])
}

/// A block, as an answer.
pub open spec fn block_json(b: SourceBlock) -> JsonV {
    JsonV::Object(
        seq![
            ("blockId"@, JsonV::Text(b.block_id@)),
            ("file"@, JsonV::Text(b.file@)),
            ("range"@, pair_json(b.range)),
            ("lines"@, pair_json(b.lines)),
            ("text"@, JsonV::Text(b.text@)),
            ("headingPath"@, JsonV::List(texts_v(texts(b.heading_path@)))),
            ("anchors"@, JsonV::List(b.anchors@.map_values(|a: Anchor| anchor_json(a)))),
        ] + optional_field("generated"@, opt_text(b.generated)) + optional_field(
            "before"@,
            opt_text(b.before),
        ) + optional_field("after"@, opt_text(b.after)),
    )
}

/// Two numbers.
fn pair(range: (usize, usize)) -> (r: Json)
    ensures
        json_v(r) == pair_json(range),
{
    let mut out: JsonList = JsonList::new();
    out.push(Json::count(range.0));
    out.push(Json::count(range.1));
    assert(out@ =~= pair_json(range)->List_0);
    out.done()
}

/// The anchors of a block.
fn anchor_list(anchors: &Vec<Anchor>) -> (r: Json)
    ensures
        json_v(r) == JsonV::List(anchors@.map_values(|a: Anchor| anchor_json(a))),
{
    let ghost all = anchors@.map_values(|a: Anchor| anchor_json(a));
    let mut out: JsonList = JsonList::new();
    let mut i: usize = 0;
    while i < anchors.len()
        invariant
            i <= anchors@.len(),
            all == anchors@.map_values(|a: Anchor| anchor_json(a)),
            out@ == all.take(i as int),
        decreases anchors@.len() - i,
    {
        let a: &Anchor = &anchors[i];
        let mut one: JsonObject = JsonObject::new();
        one.put("ref", Json::text(a.reference.as_str()));
        one.put("at", Json::count(a.at));
        one.put("label", Json::text(a.label.as_str()));
        one.put("annotations", text_list(&a.annotations));
        assert(one@ =~= anchor_json(*a)->Object_0);
        out.push(one.done());
        assert(out@ =~= all.take(i + 1));
        i = i + 1;
    }
    assert(all.take(i as int) =~= all);
    out.done()
}

/// Puts a field in where it says something.
fn put_optional(out: &mut JsonObject, name: &str, value: &Option<String>)
    ensures
        final(out)@ == old(out)@ + optional_field(name@, opt_text(*value)),
{
    match value {
        Some(text) => {
            out.put(name, Json::text(text.as_str()));
        },
        None => {},
    }
    assert(out@ =~= old(out)@ + optional_field(name@, opt_text(*value)));
}

/// A block, as an answer.
pub fn block_value(block: &SourceBlock) -> (r: Json)
    ensures
        json_v(r) == block_json(*block),
{
    let mut out: JsonObject = JsonObject::new();
    out.put("blockId", Json::text(block.block_id.as_str()));
    out.put("file", Json::text(block.file.as_str()));
    out.put("range", pair(block.range));
    out.put("lines", pair(block.lines));
    out.put("text", Json::text(block.text.as_str()));
    out.put("headingPath", text_list(&block.heading_path));
    out.put("anchors", anchor_list(&block.anchors));
    put_optional(&mut out, "generated", &block.generated);
    put_optional(&mut out, "before", &block.before);
    put_optional(&mut out, "after", &block.after);
    assert(out@ =~= block_json(*block)->Object_0);
    out.done()
}

/// The answer where an annotation has no block: it is about the document, or the
/// place it pointed at is gone. Neither is a failure.
pub open spec fn no_block_v(a: AnnotationV, why: Seq<char>, location: JsonV) -> JsonV {
    if a.location.kind == "document"@ {
        JsonV::Object(
            seq![
                ("block"@, JsonV::Null),
                ("about"@, JsonV::Text("the document"@)),
                (
                    "note"@,
                    JsonV::Text(
                        "About the document as a whole; there is no block to read or rewrite."@,
                    ),
                ),
                ("snapshot"@, opt_text_v(a.snapshot)),
            ],
        )
    } else {
        JsonV::Object(
            seq![
                ("block"@, JsonV::Null),
                ("about"@, JsonV::Text("a place that is gone"@)),
                (
                    "note"@,
                    JsonV::Text(
                        "The place this pointed at is gone: "@ + why
                            + ". It is about the document until an anchor comes back."@,
                    ),
                ),
                ("snapshot"@, opt_text_v(a.snapshot)),
                ("location"@, location),
            ],
        )
    }
}

/// The block an annotation is in, or why it is in none, as an answer. `location`
/// is where it points, as it is written.
pub fn get_block(rec: &Annotation, block: &Result<SourceBlock, String>, location: &Json) -> (r: Json)
    ensures
        json_v(r) == match *block {
            Ok(block) => block_json(block),
            Err(e) => no_block_v(rec@, e@, json_v(*location)),
        },
{
    let why: &String = match block {
        Ok(block) => {
            return block_value(block);
        },
        Err(e) => e,
    };
    let snapshot: Json = match &rec.snapshot {
        Some(s) => Json::text(s.as_str()),
        None => Json::Null,
    };
    let ghost want = no_block_v(rec@, why@, json_v(*location))->Object_0;
    let mut out: JsonObject = JsonObject::new();
    out.put("block", Json::Null);
    if same(rec.location.kind.as_str(), "document") {
        out.put("about", Json::text("the document"));
        out.put(
            "note",
            Json::text("About the document as a whole; there is no block to read or rewrite."),
        );
        out.put("snapshot", snapshot);
    } else {
        let mut note: String = "The place this pointed at is gone: ".to_string();
        note.append(why.as_str());
        note.append(". It is about the document until an anchor comes back.");
        out.put("about", Json::text("a place that is gone"));
        out.put("note", Json::Text(note));
        out.put("snapshot", snapshot);
        out.put("location", location.copy());
    }
    assert(out@ =~= want);
    out.done()
}

/// How compiling went, where it was waited for.
pub open spec fn compile_v(report: Option<(bool, Seq<Seq<char>>)>) -> JsonV {
    JsonV::Object(
        seq![
            ("compiled"@, JsonV::Bool(report is Some)),
            (
                "ok"@,
                JsonV::Bool(
                    match report {
                        Some((ok, _)) => ok,
                        None => true,
                    },
                ),
            ),
            (
                "diagnostics"@,
                JsonV::List(
                    match report {
                        Some((_, messages)) => texts_v(messages),
                        None => seq![],
                    },
                ),
            ),
        ],
    )
}

/// How compiling went, where the document compiled again while it was waited
/// for.
pub fn compile_report(report: Option<(bool, Vec<String>)>) -> (r: Json)
    ensures
        json_v(r) == compile_v(
            match report {
                Some((ok, messages)) => Some((ok, texts(messages@))),
                None => None,
            },
        ),
{
    let mut out: JsonObject = JsonObject::new();
    match &report {
        Some((ok, messages)) => {
            out.put("compiled", Json::Bool(true));
            out.put("ok", Json::Bool(*ok));
            out.put("diagnostics", text_list(messages));
        },
        None => {
            out.put("compiled", Json::Bool(false));
            out.put("ok", Json::Bool(true));
            let none: JsonList = JsonList::new();
            out.put("diagnostics", none.done());
        },
    }
    proof {
        let want = compile_v(
            match report {
                Some((ok, messages)) => Some((ok, texts(messages@))),
                None => None,
            },
        )->Object_0;
        assert(out@ =~= want);
    }
    out.done()
}

/// What a rewrite is answered with: what it dropped, how compiling went, and the
/// block as it now stands, so that the next rewrite has an id that is not
/// already stale.
pub open spec fn replaced_v(dropped: Seq<Seq<char>>, compile: JsonV, block: JsonV) -> JsonV {
    JsonV::Object(
        seq![
            ("ok"@, JsonV::Bool(true)),
            ("dropped"@, JsonV::List(texts_v(dropped))),
            ("compile"@, compile),
            ("block"@, block),
        ],
    )
}

/// What a rewrite is answered with.
pub fn replaced(dropped: &Vec<String>, compile: Json, block: Option<&SourceBlock>) -> (r: Json)
    ensures
        json_v(r) == replaced_v(
            texts(dropped@),
            json_v(compile),
            match block {
                Some(b) => block_json(*b),
                None => JsonV::Null,
            },
        ),
{
    let ghost c = json_v(compile);
    let now: Json = match block {
        Some(b) => block_value(b),
        None => Json::Null,
    };
    let ghost b = json_v(now);
    let mut out: JsonObject = JsonObject::new();
    out.put("ok", Json::Bool(true));
    out.put("dropped", text_list(dropped));
    out.put("compile", compile);
    out.put("block", now);
    assert(out@ =~= replaced_v(texts(dropped@), c, b)->Object_0);
    out.done()
}

// ----------------------------------------------------------------- the capture

/// The first of some captures stored under a hash, from one on.
pub open spec fn capture_at(list: Seq<CaptureV>, hash: Seq<char>, from: int) -> Option<int>
    decreases list.len() - from,
{
    if from < 0 || from >= list.len() {
        None
    } else if list[from].hash == hash {
        Some(from)
    } else {
        capture_at(list, hash, from + 1)
    }
}

/// Which capture of an annotation is asked for: the one stored under a hash, or
/// so many before the most recent.
pub open spec fn capture_wanted(a: AnnotationV, hash: Option<Seq<char>>, index: int) -> Result<
    int,
    Seq<char>,
> {
    let n = a.captures.len();
    if n == 0 {
        Err(
            a.uuid
                + " has no captures: it does not point at a drawing, or the document has not compiled since it was made"@,
        )
    } else {
        match hash {
            Some(hash) => match capture_at(a.captures, hash, 0) {
                Some(at) => Ok(at),
                None => Err(a.uuid + " has no capture "@ + hash),
            },
            None => if index < n {
                Ok(n - 1 - index)
            } else {
                Err(a.uuid + " has only "@ + decimal(n) + " captures"@)
            },
        }
    }
}

/// Which capture of an annotation is asked for.
pub fn pick_capture(rec: &Annotation, hash: Option<&str>, index: u64) -> (r: Result<usize, String>)
    ensures
        match capture_wanted(rec@, opt_str(hash), index as int) {
            Ok(at) => r is Ok && r->Ok_0 == at && at < rec.captures@.len(),
            Err(e) => r is Err && r->Err_0@ == e,
        },
{
    let n: usize = rec.captures.len();
    let mut out: String = rec.uuid.clone();
    if n == 0 {
        out.append(
            " has no captures: it does not point at a drawing, or the document has not compiled since it was made",
        );
        return Err(out);
    }
    match hash {
        Some(sought) => {
            let ghost list = rec@.captures;
            let mut i: usize = 0;
            while i < n
                invariant
                    i <= n,
                    n == rec.captures@.len(),
                    list == rec@.captures,
                    n > 0,
                    opt_str(hash) == Some(sought@),
                    capture_at(list, sought@, 0) == capture_at(list, sought@, i as int),
                    capture_wanted(rec@, Some(sought@), index as int) == (match capture_at(
                        list,
                        sought@,
                        0,
                    ) {
                        Some(at) => Ok::<int, Seq<char>>(at),
                        None => Err(rec@.uuid + " has no capture "@ + sought@),
                    }),
                decreases n - i,
            {
                assert(list[i as int] == rec.captures@[i as int]@);
                if same(rec.captures[i].hash.as_str(), sought) {
                    return Ok(i);
                }
                i = i + 1;
            }
            out.append(" has no capture ");
            out.append(sought);
            Err(out)
        },
        None => {
            if index < n as u64 {
                Ok(n - 1 - index as usize)
            } else {
                out.append(" has only ");
                out.append(decimal_of(n as u64).as_str());
                out.append(" captures");
                Err(out)
            }
        },
    }
}

/// A capture that is picked is one the annotation has, and the one that was asked
/// for by its hash.
pub proof fn the_capture_asked_for_is_given(a: AnnotationV, hash: Seq<char>, index: int)
    ensures
        capture_wanted(a, Some(hash), index) matches Ok(at) ==> 0 <= at < a.captures.len()
            && a.captures[at].hash == hash,
{
    lemma_capture_at(a.captures, hash, 0);
}

proof fn lemma_capture_at(list: Seq<CaptureV>, hash: Seq<char>, from: int)
    ensures
        capture_at(list, hash, from) matches Some(at) ==> 0 <= at < list.len() && list[at].hash
            == hash,
    decreases list.len() - from,
{
    if 0 <= from < list.len() && list[from].hash != hash {
        lemma_capture_at(list, hash, from + 1);
    }
}

/// `String::from_utf8`: the text some bytes are, where they are one.
#[verifier::external_body]
fn text_of(bytes: Vec<u8>) -> (r: Option<String>)
    ensures
        match r {
            Some(text) => valid_utf8(bytes@) && encode_utf8(text@) == bytes@,
            None => !valid_utf8(bytes@),
        },
{
    String::from_utf8(bytes).ok()
}

/// The drawing a capture is, with the marks on it where they are wanted, or why it
/// cannot be shown. `stored` is what is stored of it.
pub open spec fn capture_drawn(c: CaptureV, stored: Option<Seq<u8>>, markup: bool) -> Result<
    Seq<char>,
    Seq<char>,
> {
    match stored {
        None => Err(
            "the capture "@ + c.hash
                + " is no longer stored; it is remade the next time the drawing changes"@,
        ),
        Some(bytes) => if c.fmt != "svg"@ {
            Err("captures stored as "@ + c.fmt + " cannot be rendered yet"@)
        } else if !valid_utf8(bytes) {
            Err("the capture is not text"@)
        } else {
            let svg = decode_utf8(bytes);
            match c.markup {
                Some(marks) if markup => Ok(marked(svg, marks)),
                _ => Ok(svg),
            }
        },
    }
}

/// Bytes, where there are any.
pub open spec fn opt_bytes(b: Option<Vec<u8>>) -> Option<Seq<u8>> {
    match b {
        Some(b) => Some(b@),
        None => None,
    }
}

/// A text, or why there is none.
pub open spec fn drawn_view(r: Result<String, String>) -> Result<Seq<char>, Seq<char>> {
    match r {
        Ok(s) => Ok(s@),
        Err(e) => Err(e@),
    }
}

/// The drawing a capture is, with the marks on it where they are wanted.
pub fn capture_drawing(c: &Capture, stored: Option<Vec<u8>>, markup: bool) -> (r: Result<
    String,
    String,
>)
    ensures
        drawn_view(r) == capture_drawn(c@, opt_bytes(stored), markup),
{
    let bytes: Vec<u8> = match stored {
        Some(bytes) => bytes,
        None => {
            let mut out: String = "the capture ".to_string();
            out.append(c.hash.as_str());
            out.append(" is no longer stored; it is remade the next time the drawing changes");
            return Err(out);
        },
    };
    if !same(c.fmt.as_str(), "svg") {
        let mut out: String = "captures stored as ".to_string();
        out.append(c.fmt.as_str());
        out.append(" cannot be rendered yet");
        return Err(out);
    }
    let ghost given = bytes@;
    match text_of(bytes) {
        None => Err("the capture is not text".to_string()),
        Some(svg) => {
            proof {
                encode_utf8_decode_utf8(svg@);
                assert(svg@ == decode_utf8(given));
            }
            match &c.markup {
                Some(marks) => if markup {
                    Ok(with_markup(svg.as_str(), marks.as_str()))
                } else {
                    Ok(svg)
                },
                None => Ok(svg),
            }
        },
    }
}

/// What is answered with a picture of what an annotation is about: the picture in
/// base64, and which of the captures it is.
pub open spec fn capture_v(a: AnnotationV, at: int, markup: bool, data: Seq<char>) -> JsonV {
    let c = a.captures[at];
    JsonV::Object(
        seq![
            (
                "image"@,
                JsonV::Object(
                    seq![("data"@, JsonV::Text(data)), ("mimeType"@, JsonV::Text("image/png"@))],
                ),
            ),
            ("uuid"@, JsonV::Text(a.uuid)),
            ("hash"@, JsonV::Text(c.hash)),
            ("time"@, JsonV::Text(c.time)),
            ("index"@, JsonV::Number(a.captures.len() - 1 - at)),
            ("captures"@, JsonV::Number(a.captures.len() as int)),
            ("markup"@, JsonV::Bool(c.markup is Some && markup)),
            ("width"@, JsonV::Number(c.width as int)),
            ("height"@, JsonV::Number(c.height as int)),
        ],
    )
}

/// What is answered with a picture of what an annotation is about, of the picture
/// in base64.
pub fn capture_answer(rec: &Annotation, at: usize, markup: bool, data: &str) -> (r: Json)
    requires
        at < rec.captures@.len(),
    ensures
        json_v(r) == capture_v(rec@, at as int, markup, data@),
{
    let c: &Capture = &rec.captures[at];
    let ghost want = capture_v(rec@, at as int, markup, data@)->Object_0;
    assert(rec@.captures[at as int] == c@);
    let mut image: JsonObject = JsonObject::new();
    image.put("data", Json::text(data));
    image.put("mimeType", Json::text("image/png"));
    assert(image@ =~= want[0].1->Object_0);
    let mut out: JsonObject = JsonObject::new();
    out.put("image", image.done());
    out.put("uuid", Json::text(rec.uuid.as_str()));
    out.put("hash", Json::text(c.hash.as_str()));
    out.put("time", Json::text(c.time.as_str()));
    out.put("index", Json::count(rec.captures.len() - 1 - at));
    out.put("captures", Json::count(rec.captures.len()));
    out.put("markup", Json::Bool(c.markup.is_some() && markup));
    out.put("width", Json::Number(c.width as u64));
    out.put("height", Json::Number(c.height as u64));
    assert(out@ =~= want);
    out.done()
}

/// What is answered with a picture of what an annotation is about.
pub fn get_capture(rec: &Annotation, at: usize, markup: bool, png: &[u8]) -> (r: Json)
    requires
        at < rec.captures@.len(),
    ensures
        json_v(r) == capture_v(rec@, at as int, markup, base64_text(png@)),
{
    let data: String = to_base64(png);
    capture_answer(rec, at, markup, data.as_str())
}

// --------------------------------------------------------------------- waiting

/// From where what happened is asked for again once something did: from where
/// the agent had got to, or, on its first call, from where things stood.
pub fn wait_since(cursor: Option<u64>, next: u64) -> (r: u64)
    ensures
        r == match cursor {
            Some(cursor) => cursor,
            None => next,
        },
{
    match cursor {
        Some(cursor) => cursor,
        None => next,
    }
}

/// What happened, and where to go on from, as an answer.
pub open spec fn events_v(events: Seq<Json>, cursor: int) -> JsonV {
    JsonV::Object(
        seq![
            ("events"@, JsonV::List(events.map_values(|j: Json| json_v(j)))),
            ("cursor"@, JsonV::Number(cursor)),
        ],
    )
}

/// What happened, and where to go on from.
pub fn wait_answer(events: &Vec<Json>, cursor: u64) -> (r: Json)
    ensures
        json_v(r) == events_v(events@, cursor as int),
{
    let ghost all = events@.map_values(|j: Json| json_v(j));
    let mut list: JsonList = JsonList::new();
    let mut i: usize = 0;
    while i < events.len()
        invariant
            i <= events@.len(),
            all == events@.map_values(|j: Json| json_v(j)),
            list@ == all.take(i as int),
        decreases events@.len() - i,
    {
        list.push(events[i].copy());
        assert(list@ =~= all.take(i + 1));
        i = i + 1;
    }
    assert(all.take(i as int) =~= all);
    let mut out: JsonObject = JsonObject::new();
    out.put("events", list.done());
    out.put("cursor", Json::Number(cursor));
    assert(out@ =~= events_v(events@, cursor as int)->Object_0);
    out.done()
}

// ---------------------------------------------------------------- what an answer says

/// An excerpt is at most a hundred and sixty characters and a mark that there is more; white space
/// before the text is not in it; and a text of one short word is its own excerpt.
pub proof fn an_excerpt_is_short(text: Seq<char>, word: Seq<char>, c: char)
    requires
        is_space(c),
        word.len() > 0,
        forall|k: int| 0 <= k < word.len() ==> !is_space(word[k]),
    ensures
        excerpt_v(text).len() <= 161,
        text.len() > 0 && is_space(text[0]) ==> excerpt_v(seq![c] + text) == excerpt_v(text),
        word.len() <= 160 ==> excerpt_v(word) == word,
        word.len() > 160 ==> excerpt_v(word) == word.take(160) + "…"@,
        excerpt_v(Seq::empty()).len() == 0,
{
    reveal_strlit("…");
    words_are_set_apart_by_space(word, Seq::empty(), c);
    assert(word + Seq::<char>::empty() =~= word);
    assert(words(word) =~= seq![word]);
    if text.len() > 0 && is_space(text[0]) {
        words_are_set_apart_by_space(word, text, c);
    }
}

/// Words in an excerpt are set apart by one space each, whatever stood between them.
pub proof fn an_excerpt_is_one_line(word: Seq<char>, c: char, rest: Seq<char>)
    requires
        is_space(c),
        word.len() > 0,
        forall|k: int| 0 <= k < word.len() ==> !is_space(word[k]),
        words(rest).len() > 0,
        join(words(word + seq![c] + rest), " "@).len() <= 160,
        rest.len() > 0 && is_space(rest[0]),
    ensures
        excerpt_v(word + seq![c] + rest) == word + " "@ + excerpt_v(rest),
{
    let after = seq![c] + rest;
    assert(after[0] == c);
    assert(word + after =~= word + seq![c] + rest);
    words_are_set_apart_by_space(word, after, c);
    words_are_set_apart_by_space(word, rest, c);
    lemma_join_first(word, words(rest), " "@);
}

/// A picture is asked for by how many there have been since; the newest when nothing is said.
pub proof fn captures_count_from_the_newest(a: AnnotationV, index: int)
    requires
        0 <= index,
    ensures
        index < a.captures.len() ==> capture_wanted(a, None, index) == Ok::<_, Seq<char>>(
            a.captures.len() - 1 - index,
        ),
        index >= a.captures.len() ==> capture_wanted(a, None, index) is Err,
{
}

/// A picture that is there is found by its hash, and one that is not there is refused.
pub proof fn a_capture_is_found_by_its_hash(a: AnnotationV, hash: Seq<char>, index: int, k: int)
    ensures
        0 <= k < a.captures.len() && a.captures[k].hash == hash ==> capture_wanted(
            a,
            Some(hash),
            index,
        ) is Ok,
        (forall|i: int| 0 <= i < a.captures.len() ==> (#[trigger] a.captures[i]).hash != hash)
            ==> capture_wanted(a, Some(hash), index) is Err,
{
    lemma_hash_found(a.captures, hash, 0);
}

/// From any picture on the first with a hash is found.
proof fn lemma_hash_found(list: Seq<CaptureV>, hash: Seq<char>, from: int)
    requires
        0 <= from,
    ensures
        match capture_at(list, hash, from) {
            Some(at) => from <= at < list.len() && list[at].hash == hash,
            None => forall|i: int| from <= i < list.len() ==> (#[trigger] list[i]).hash != hash,
        },
    decreases list.len() - from,
{
    if from < list.len() && list[from].hash != hash {
        lemma_hash_found(list, hash, from + 1);
    }
}

/// A picture is drawn as it was kept, with what was drawn on it when that is wanted.
pub proof fn a_capture_is_drawn_as_kept(c: CaptureV, svg: Seq<char>)
    requires
        c.fmt == "svg"@,
    ensures
        capture_drawn(c, Some(encode_utf8(svg)), false) == Ok::<_, Seq<char>>(svg),
        c.markup is None ==> capture_drawn(c, Some(encode_utf8(svg)), true) == Ok::<_, Seq<char>>(svg),
        c.markup matches Some(marks) ==> capture_drawn(c, Some(encode_utf8(svg)), true)
            == Ok::<_, Seq<char>>(marked(svg, marks)),
        capture_drawn(c, None, false) is Err,
{
    encode_utf8_valid_utf8(svg);
    encode_utf8_decode_utf8(svg);
}

} // verus!

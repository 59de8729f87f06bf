//! The tools that change a document's annotations: taking one on, answering it,
//! settling it, and leaving or deleting one.

use vstd::prelude::*;
use vstd::string::*;

use crate::json::{json_v, Json, JsonObject, JsonV};
use crate::letters::{highest, letter_at};
use crate::mcp::calls::{identified, identify, what_is_identified_is_there};
use crate::serve::report::{event_of, event_v, extended_event, status_event};
use crate::serve::store::{
    about_document, author_or_local, ids, labels_used, letters_of, new_annotation, place_of,
    resolved_author, with_annotation, AnnotateRequest, AnnotationV, Location, ReplyV, Sidecar,
};
use crate::serve::upkeep::{not_among, what_is_put_in_is_found, with_flags, with_reply, without};
use crate::text::{lemma_found_one, opt_str, texts};

verus! {

/// Where an annotation that a caller named stands among the others.
pub open spec fn place_named(list: Seq<AnnotationV>, given: Option<Seq<char>>) -> int {
    place_of(list, identified(list, given)->Ok_0)->Some_0
}

/// What a tool did: what is answered, and what is told to whoever follows along.
#[derive(Debug)]
pub struct Done {
    /// What is answered.
    pub answer: Json,
    /// What happened.
    pub events: Vec<Json>,
}

/// What happened, in order.
pub open spec fn told(events: Seq<Json>) -> Seq<JsonV> {
    events.map_values(|j: Json| json_v(j))
}

/// An annotation's place does not change with what it says.
proof fn lemma_place_stays(list: Seq<AnnotationV>, at: int, a: AnnotationV)
    requires
        0 <= at < list.len(),
        a.uuid == list[at].uuid,
    ensures
        ids(list.update(at, a)) == ids(list),
{
    assert(ids(list.update(at, a)) =~= ids(list));
}

/// A place an annotation is found at is one of the places.
proof fn lemma_place(list: Seq<AnnotationV>, uuid: Seq<char>)
    ensures
        place_of(list, uuid) matches Some(at) ==> 0 <= at < list.len() && list[at].uuid == uuid,
{
    lemma_found_one(ids(list), uuid);
    if let Some(at) = place_of(list, uuid) {
        assert(ids(list)[at] == list[at].uuid);
    }
}

// ------------------------------------------------------------------ taking on

/// What taking an annotation on, or letting go of it, is answered with.
pub open spec fn claim_v(uuid: Seq<char>, claimed: bool) -> JsonV {
    JsonV::Object(seq![("uuid"@, JsonV::Text(uuid)), ("claimed"@, JsonV::Bool(claimed))])
}

/// What is told of where an annotation stands.
pub open spec fn stands_event(a: AnnotationV, now: Seq<char>) -> JsonV {
    event_v(
        "annotation_status_changed"@,
        seq![
            ("uuid"@, JsonV::Text(a.uuid)),
            ("claimed"@, JsonV::Bool(a.claimed)),
            ("resolved"@, JsonV::Bool(a.resolved)),
        ],
        now,
    )
}

/// Marks an annotation as being worked on, or puts it back.
pub fn claim(sidecar: &mut Sidecar, given: Option<&str>, claimed: bool, now: &str) -> (r: Result<
    Done,
    String,
>)
    ensures
        match identified(old(sidecar)@, opt_str(given)) {
            Ok(uuid) => {
                let at = place_named(old(sidecar)@, opt_str(given));
                let new = with_flags(old(sidecar)@[at], Some(claimed), None, now@);
                &&& r is Ok
                &&& final(sidecar)@ == old(sidecar)@.update(at, new)
                &&& json_v(r->Ok_0.answer) == claim_v(uuid, claimed)
                &&& told(r->Ok_0.events@) == seq![stands_event(new, now@)]
                &&& 0 <= at < old(sidecar)@.len() && old(sidecar)@[at].uuid == uuid
                &&& final(sidecar)@[at].claimed == claimed
                &&& final(sidecar)@[at].resolved == old(sidecar)@[at].resolved
            },
            Err(e) => r is Err && r->Err_0@ == e && final(sidecar)@ == old(sidecar)@,
        },
{
    let uuid: String = match identify(sidecar, given) {
        Ok(uuid) => uuid,
        Err(e) => {
            return Err(e);
        },
    };
    proof {
        what_is_identified_is_there(sidecar@, opt_str(given));
        lemma_place(sidecar@, uuid@);
    }
    match sidecar.set_flags(uuid.as_str(), Some(claimed), None, now) {
        Err(e) => Err(e),
        Ok(flags) => {
            let mut events: Vec<Json> = Vec::new();
            events.push(status_event(uuid.as_str(), flags.0, flags.1, now));
            let mut out: JsonObject = JsonObject::new();
            out.put("uuid", Json::text(uuid.as_str()));
            out.put("claimed", Json::Bool(claimed));
            assert(out@ =~= claim_v(uuid@, claimed)->Object_0);
            proof {
                let at = place_named(old(sidecar)@, opt_str(given));
                let new = with_flags(old(sidecar)@[at], Some(claimed), None, now@);
                assert(told(events@) =~= seq![stands_event(new, now@)]);
            }
            Ok(Done { answer: out.done(), events })
        },
    }
}

// ------------------------------------------------------------------ answering

/// What answering an annotation is answered with.
pub open spec fn replied_v(uuid: Seq<char>) -> JsonV {
    JsonV::Object(seq![("uuid"@, JsonV::Text(uuid)), ("replied"@, JsonV::Bool(true))])
}

/// What is told of what was said about an annotation.
pub open spec fn said_event(
    uuid: Seq<char>,
    author: Seq<char>,
    text: Seq<char>,
    now: Seq<char>,
) -> JsonV {
    event_v(
        "discussion_extended"@,
        seq![
            ("uuid"@, JsonV::Text(uuid)),
            ("author"@, JsonV::Text(author)),
            ("text"@, JsonV::Text(text)),
        ],
        now,
    )
}

/// Adds a message to an annotation's discussion. `local` is who is at this
/// machine, who says what nobody else is named for.
pub fn reply(
    sidecar: &mut Sidecar,
    given: Option<&str>,
    text: &str,
    author: Option<&str>,
    local: &str,
    now_nanos: u64,
    now: &str,
) -> (r: Result<Done, String>)
    ensures
        match identified(old(sidecar)@, opt_str(given)) {
            Ok(uuid) => {
                let at = place_named(old(sidecar)@, opt_str(given));
                let who = resolved_author(opt_str(author), local@);
                &&& r is Ok
                &&& final(sidecar)@ == old(sidecar)@.update(
                    at,
                    with_reply(
                        old(sidecar)@[at],
                        ReplyV { author: who, time: now@, content: text@, scribble: None },
                    ),
                )
                &&& json_v(r->Ok_0.answer) == replied_v(uuid)
                &&& told(r->Ok_0.events@) == seq![said_event(uuid, who, text@, now@)]
                &&& 0 <= at < old(sidecar)@.len() && old(sidecar)@[at].uuid == uuid
                &&& final(sidecar)@[at].discussion.len() == old(sidecar)@[at].discussion.len() + 1
                &&& final(sidecar)@[at].discussion.last().content == text@
                &&& final(sidecar)@[at].claimed == old(sidecar)@[at].claimed
                &&& final(sidecar)@[at].resolved == old(sidecar)@[at].resolved
            },
            Err(e) => r is Err && r->Err_0@ == e && final(sidecar)@ == old(sidecar)@,
        },
{
    let uuid: String = match identify(sidecar, given) {
        Ok(uuid) => uuid,
        Err(e) => {
            return Err(e);
        },
    };
    proof {
        what_is_identified_is_there(sidecar@, opt_str(given));
        lemma_place(sidecar@, uuid@);
    }
    let who: String = author_or_local(author, local);
    match sidecar.reply(uuid.as_str(), text, who.as_str(), None, false, now_nanos, now) {
        Err(e) => Err(e),
        Ok(_) => {
            let mut events: Vec<Json> = Vec::new();
            events.push(extended_event(uuid.as_str(), who.as_str(), text, now));
            assert(told(events@) =~= seq![said_event(uuid@, who@, text@, now@)]);
            let mut out: JsonObject = JsonObject::new();
            out.put("uuid", Json::text(uuid.as_str()));
            out.put("replied", Json::Bool(true));
            assert(out@ =~= replied_v(uuid@)->Object_0);
            Ok(Done { answer: out.done(), events })
        },
    }
}

// ------------------------------------------------------------------- settling

/// An annotation with what was done about it said, where anything was.
pub open spec fn told_of(
    a: AnnotationV,
    said: Option<Seq<char>>,
    who: Seq<char>,
    now: Seq<char>,
) -> AnnotationV {
    match said {
        Some(text) => with_reply(
            a,
            ReplyV { author: who, time: now, content: text, scribble: None },
        ),
        None => a,
    }
}

/// What settling an annotation is answered with.
pub open spec fn resolved_v(uuid: Seq<char>) -> JsonV {
    JsonV::Object(
        seq![
            ("uuid"@, JsonV::Text(uuid)),
            ("claimed"@, JsonV::Bool(false)),
            ("resolved"@, JsonV::Bool(true)),
        ],
    )
}

/// What is told of settling an annotation.
pub open spec fn resolved_events(
    a: AnnotationV,
    said: Option<Seq<char>>,
    who: Seq<char>,
    now: Seq<char>,
) -> Seq<JsonV> {
    match said {
        Some(text) => seq![said_event(a.uuid, who, text, now), stands_event(a, now)],
        None => seq![stands_event(a, now)],
    }
}

/// Says what was done and marks an annotation resolved, which lets go of it as
/// well: one that nobody needs to look at again is not one anybody still holds.
pub fn resolve(
    sidecar: &mut Sidecar,
    given: Option<&str>,
    said: Option<&str>,
    author: Option<&str>,
    local: &str,
    now_nanos: u64,
    now: &str,
) -> (r: Result<Done, String>)
    ensures
        match identified(old(sidecar)@, opt_str(given)) {
            Ok(uuid) => {
                let at = place_named(old(sidecar)@, opt_str(given));
                let who = resolved_author(opt_str(author), local@);
                let new = with_flags(
                    told_of(old(sidecar)@[at], opt_str(said), who, now@),
                    Some(false),
                    Some(true),
                    now@,
                );
                &&& r is Ok
                &&& final(sidecar)@ == old(sidecar)@.update(at, new)
                &&& json_v(r->Ok_0.answer) == resolved_v(uuid)
                &&& told(r->Ok_0.events@) == resolved_events(new, opt_str(said), who, now@)
                &&& 0 <= at < old(sidecar)@.len() && old(sidecar)@[at].uuid == uuid
                &&& final(sidecar)@[at].resolved && !final(sidecar)@[at].claimed
                &&& final(sidecar)@[at].discussion.len() == old(sidecar)@[at].discussion.len() + (
                if said is Some {
                    1int
                } else {
                    0int
                })
            },
            Err(e) => r is Err && r->Err_0@ == e && final(sidecar)@ == old(sidecar)@,
        },
{
    let uuid: String = match identify(sidecar, given) {
        Ok(uuid) => uuid,
        Err(e) => {
            return Err(e);
        },
    };
    let ghost all = sidecar@;
    let ghost at = place_named(all, opt_str(given));
    let ghost who = resolved_author(opt_str(author), local@);
    let ghost mid = told_of(all[at], opt_str(said), who, now@);
    proof {
        what_is_identified_is_there(all, opt_str(given));
        lemma_place(all, uuid@);
        lemma_place_stays(all, at, mid);
        assert(all.update(at, all[at]) =~= all);
    }
    let mut events: Vec<Json> = Vec::new();
    if let Some(text) = said {
        let who: String = author_or_local(author, local);
        match sidecar.reply(uuid.as_str(), text, who.as_str(), None, false, now_nanos, now) {
            Err(e) => {
                return Err(e);
            },
            Ok(_) => {
                events.push(extended_event(uuid.as_str(), who.as_str(), text, now));
            },
        }
    }
    assert(sidecar@ == all.update(at, mid));
    match sidecar.set_flags(uuid.as_str(), Some(false), Some(true), now) {
        Err(e) => Err(e),
        Ok(flags) => {
            events.push(status_event(uuid.as_str(), flags.0, flags.1, now));
            let mut out: JsonObject = JsonObject::new();
            out.put("uuid", Json::text(uuid.as_str()));
            out.put("claimed", Json::Bool(false));
            out.put("resolved", Json::Bool(true));
            assert(out@ =~= resolved_v(uuid@)->Object_0);
            proof {
                let new = with_flags(mid, Some(false), Some(true), now@);
                assert(all.update(at, mid)[at] == mid);
                assert(sidecar@ =~= all.update(at, new));
                assert(told(events@) =~= resolved_events(new, opt_str(said), who, now@));
            }
            Ok(Done { answer: out.done(), events })
        },
    }
}

/// An annotation that is settled is done, nobody holds it, and nothing that was
/// said about it before is lost.
pub proof fn a_settled_annotation_is_done(
    a: AnnotationV,
    said: Option<Seq<char>>,
    who: Seq<char>,
    now: Seq<char>,
)
    ensures
        ({
            let new = with_flags(told_of(a, said, who, now), Some(false), Some(true), now);
            &&& new.resolved && !new.claimed
            &&& new.discussion.take(a.discussion.len() as int) == a.discussion
            &&& new.uuid == a.uuid && new.content == a.content && new.location == a.location
        }),
{
    let new = with_flags(told_of(a, said, who, now), Some(false), Some(true), now);
    assert(new.discussion.take(a.discussion.len() as int) =~= a.discussion);
}

// -------------------------------------------------------- leaving and deleting

/// What leaving an annotation is answered with.
pub open spec fn annotated_v(uuid: Seq<char>, letter: Seq<char>) -> JsonV {
    JsonV::Object(
        seq![
            ("ok"@, JsonV::Bool(true)),
            ("uuid"@, JsonV::Text(uuid)),
            ("letter"@, JsonV::Text(letter)),
        ],
    )
}

/// An annotation about the document as a whole, under the next letter.
pub open spec fn left_on(
    list: Seq<AnnotationV>,
    text: Seq<char>,
    kind: Option<Seq<char>>,
    who: Seq<char>,
    now_nanos: u64,
    now: Seq<char>,
) -> AnnotationV {
    AnnotationV {
        letter: letter_at(highest(letters_of(list)) + 1),
        ..new_annotation(text, kind, None, None, who, about_document(), now_nanos, now)
    }
}

/// Leaves an annotation about the document as a whole.
pub fn annotate(
    sidecar: &mut Sidecar,
    text: &str,
    kind: Option<&str>,
    author: Option<&str>,
    local: &str,
    now_nanos: u64,
    now: &str,
) -> (r: Result<Json, String>)
    requires
        highest(letters_of(old(sidecar)@)) < u64::MAX,
    ensures
        ({
            let who = resolved_author(opt_str(author), local@);
            let new = left_on(old(sidecar)@, text@, opt_str(kind), who, now_nanos, now@);
            &&& r is Ok
            &&& final(sidecar)@ == with_annotation(old(sidecar)@, new)
            &&& json_v(r->Ok_0) == annotated_v(new.uuid, new.letter)
        }),
{
    let ghost who = resolved_author(opt_str(author), local@);
    let ghost new = left_on(sidecar@, text@, opt_str(kind), who, now_nanos, now@);
    let req: AnnotateRequest = AnnotateRequest {
        text: text.to_string(),
        kind: match kind {
            Some(kind) => Some(kind.to_string()),
            None => None,
        },
        color: None,
        snapshot: None,
        author: match author {
            Some(author) => Some(author.to_string()),
            None => None,
        },
    };
    let made = sidecar.annotate(
        &req,
        None,
        Location::document(),
        false,
        false,
        local,
        now_nanos,
        now,
    );
    match made {
        Err(e) => Err(e),
        Ok(uuid) => {
            assert(sidecar@ == with_annotation(old(sidecar)@, new));
            proof {
                what_is_put_in_is_found(old(sidecar)@, new);
            }
            let letter: String = match sidecar.position(uuid.as_str()) {
                Some(at) => sidecar.annotations[at].letter.clone(),
                None => String::new(),
            };
            let mut out: JsonObject = JsonObject::new();
            out.put("ok", Json::Bool(true));
            out.put("uuid", Json::text(uuid.as_str()));
            out.put("letter", Json::text(letter.as_str()));
            assert(out@ =~= annotated_v(new.uuid, new.letter)->Object_0);
            Ok(out.done())
        },
    }
}

/// What deleting an annotation is answered with.
pub open spec fn deleted_v(uuid: Seq<char>) -> JsonV {
    JsonV::Object(seq![("ok"@, JsonV::Bool(true)), ("uuid"@, JsonV::Text(uuid))])
}

/// Deletes an annotation, and gives the labels it was the last to point at.
pub fn delete(sidecar: &mut Sidecar, given: Option<&str>, now: &str) -> (r: Result<
    (Done, Vec<String>),
    String,
>)
    ensures
        match identified(old(sidecar)@, opt_str(given)) {
            Ok(uuid) => {
                let at = place_named(old(sidecar)@, opt_str(given));
                &&& r is Ok
                &&& final(sidecar)@ == without(old(sidecar)@, uuid)
                &&& texts(r->Ok_0.1@) == not_among(
                    old(sidecar)@[at].location.labels,
                    labels_used(without(old(sidecar)@, uuid)),
                )
                &&& json_v(r->Ok_0.0.answer) == deleted_v(uuid)
                &&& told(r->Ok_0.0.events@) == seq![
                    event_v("annotation_deleted"@, seq![("uuid"@, JsonV::Text(uuid))], now@),
                ]
            },
            Err(e) => r is Err && r->Err_0@ == e && final(sidecar)@ == old(sidecar)@,
        },
{
    let uuid: String = match identify(sidecar, given) {
        Ok(uuid) => uuid,
        Err(e) => {
            return Err(e);
        },
    };
    proof {
        what_is_identified_is_there(sidecar@, opt_str(given));
        lemma_place(sidecar@, uuid@);
    }
    match sidecar.remove(uuid.as_str()) {
        Err(e) => Err(e),
        Ok(orphaned) => {
            let mut events: Vec<Json> = Vec::new();
            events.push(event_of("annotation_deleted", "uuid", uuid.as_str(), now));
            assert(told(events@) =~= seq![
                event_v("annotation_deleted"@, seq![("uuid"@, JsonV::Text(uuid@))], now@),
            ]);
            let mut out: JsonObject = JsonObject::new();
            out.put("ok", Json::Bool(true));
            out.put("uuid", Json::text(uuid.as_str()));
            assert(out@ =~= deleted_v(uuid@)->Object_0);
            Ok((Done { answer: out.done(), events }, orphaned))
        },
    }
}

} // verus!

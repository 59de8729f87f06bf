//! What is done to a document's annotations once they are there: taking one
//! out, answering it, saying where it stands, and asking whether the annotations
//! and the document still know of each other.

use vstd::prelude::*;
use vstd::string::*;
use vstd::utf8::*;

use crate::bytes::{boundary, lemma_boundary_spliced, lemma_encoded, splice, spliced};
use crate::letters::{highest, letter_at, next_letter_is_free};
use crate::serve::rewrite::{anchors_cut_in, holds, SourceAnchor};
use crate::serve::store::{
    about_document, base64_bytes, ids, keep_scribble, labels_used, letters_of, missing_annotation,
    new_annotation, new_record, no_annotation, opt_scribble, place_of, resolved_author, uuid_of,
    with_annotation, with_scribble, AnnotateRequest, Annotation, AnnotationV, Location, LocationV,
    NewScribble, Reply, ReplyV, Scribble, ScribbleV, Sidecar,
};
use crate::text::{copy_texts, lemma_find_one, lemma_found_one, opt_text, same, texts};

verus! {

// ------------------------------------------------------------- taking one out

/// Some annotations without those that have an id.
pub open spec fn without(list: Seq<AnnotationV>, uuid: Seq<char>) -> Seq<AnnotationV>
    decreases list.len(),
{
    if list.len() == 0 {
        seq![]
    } else if list.last().uuid == uuid {
        without(list.drop_last(), uuid)
    } else {
        without(list.drop_last(), uuid).push(list.last())
    }
}

/// Those of some labels that are not among some others, in order.
pub open spec fn not_among(labels: Seq<Seq<char>>, others: Seq<Seq<char>>) -> Seq<Seq<char>>
    decreases labels.len(),
{
    if labels.len() == 0 {
        seq![]
    } else if others.contains(labels.last()) {
        not_among(labels.drop_last(), others)
    } else {
        not_among(labels.drop_last(), others).push(labels.last())
    }
}

/// Those of some labels that are not among some others, in order.
pub fn left_over(labels: &Vec<String>, others: &Vec<String>) -> (r: Vec<String>)
    ensures
        texts(r@) == not_among(texts(labels@), texts(others@)),
{
    let mut out: Vec<String> = Vec::new();
    let ghost all = texts(labels@);
    let mut i: usize = 0;
    assert(all.take(0) =~= seq![]);
    assert(texts(out@) =~= seq![]);
    while i < labels.len()
        invariant
            i <= labels@.len(),
            all == texts(labels@),
            texts(out@) == not_among(all.take(i as int), texts(others@)),
        decreases labels@.len() - i,
    {
        let ghost before = texts(out@);
        proof {
            assert(all.take(i + 1).drop_last() =~= all.take(i as int));
            assert(all.take(i + 1).last() == labels@[i as int]@);
        }
        if !holds(others, labels[i].as_str()) {
            out.push(labels[i].clone());
            assert(texts(out@) =~= before.push(labels@[i as int]@));
        }
        i = i + 1;
    }
    assert(all.take(i as int) =~= all);
    out
}

impl Sidecar {
    /// The labels the annotations point at, in order.
    pub fn labels_in_use(&self) -> (r: Vec<String>)
        ensures
            texts(r@) == labels_used(self@),
    {
        let mut out: Vec<String> = Vec::new();
        let ghost all = self@;
        let mut i: usize = 0;
        assert(all.take(0) =~= seq![]);
        assert(texts(out@) =~= seq![]);
        while i < self.annotations.len()
            invariant
                i <= self.annotations@.len(),
                all == self@,
                texts(out@) == labels_used(all.take(i as int)),
            decreases self.annotations@.len() - i,
        {
            let labels: &Vec<String> = &self.annotations[i].location.labels;
            let ghost before = texts(out@);
            let mut j: usize = 0;
            while j < labels.len()
                invariant
                    j <= labels@.len(),
                    texts(out@) == before + texts(labels@).take(j as int),
                decreases labels@.len() - j,
            {
                let ghost held = texts(out@);
                out.push(labels[j].clone());
                assert(texts(out@) =~= held.push(labels@[j as int]@));
                assert(texts(out@) =~= before + texts(labels@).take(j + 1));
                j = j + 1;
            }
            assert(texts(labels@).take(j as int) =~= texts(labels@));
            i = i + 1;
            assert(all.take(i as int).drop_last() =~= all.take(i - 1));
            assert(all.take(i as int).last() == self.annotations@[i - 1]@);
        }
        assert(all.take(i as int) =~= all);
        out
    }

    /// Takes an annotation out, and gives the labels it was the last to point
    /// at.
    pub fn remove(&mut self, uuid: &str) -> (r: Result<Vec<String>, String>)
        ensures
            match place_of(old(self)@, uuid@) {
                Some(at) => {
                    &&& r is Ok
                    &&& final(self)@ == without(old(self)@, uuid@)
                    &&& texts(r->Ok_0@) == not_among(
                        old(self)@[at].location.labels,
                        labels_used(without(old(self)@, uuid@)),
                    )
                },
                None => r is Err && r->Err_0@ == no_annotation(uuid@) && *final(self) == *old(
                    self,
                ),
            },
    {
        let at: usize = match self.position(uuid) {
            Some(at) => at,
            None => {
                return Err(missing_annotation(uuid));
            },
        };
        let ghost all = self@;
        let labels: Vec<String> = copy_texts(&self.annotations[at].location.labels);
        assert(texts(labels@) == all[at as int].location.labels);
        let ghost mut done: int = 0;
        let mut i: usize = 0;
        proof {
            assert(all.take(0) =~= seq![]);
            assert(self@ =~= without(all.take(0), uuid@) + all.skip(0));
        }
        while i < self.annotations.len()
            invariant
                0 <= done <= all.len(),
                i == without(all.take(done), uuid@).len(),
                self@ == without(all.take(done), uuid@) + all.skip(done),
            decreases all.len() - done,
        {
            let ghost before = self@;
            let ghost head = without(all.take(done), uuid@);
            proof {
                assert(self@.len() == self.annotations@.len());
                assert(before[i as int] == all.skip(done)[0]);
                assert(before[i as int] == all[done]);
                assert(before[i as int] == self.annotations@[i as int]@);
                assert(all.take(done + 1).drop_last() =~= all.take(done));
                assert(all.take(done + 1).last() == all[done]);
            }
            if same(self.annotations[i].uuid.as_str(), uuid) {
                self.annotations.remove(i);
                assert(self@ =~= before.remove(i as int));
                assert(self@ =~= head + all.skip(done + 1));
            } else {
                i = i + 1;
                assert(before =~= head.push(all[done]) + all.skip(done + 1));
            }
            proof {
                done = done + 1;
            }
        }
        proof {
            assert(self@.len() == self.annotations@.len());
            assert(all.take(done) =~= all);
            assert(self@ =~= without(all, uuid@));
        }
        let used: Vec<String> = self.labels_in_use();
        Ok(left_over(&labels, &used))
    }
}

/// An annotation that is taken out is gone, and no other is.
pub proof fn a_removed_annotation_is_gone(list: Seq<AnnotationV>, uuid: Seq<char>)
    ensures
        place_of(without(list, uuid), uuid) is None,
        forall|a: AnnotationV|
            #[trigger] without(list, uuid).contains(a) <==> list.contains(a) && a.uuid != uuid,
{
    lemma_without(list, uuid);
    let rest = without(list, uuid);
    lemma_found_one(ids(rest), uuid);
    if place_of(rest, uuid) is Some {
        let at = place_of(rest, uuid)->Some_0;
        assert(ids(rest)[at] == rest[at].uuid);
        assert(rest.contains(rest[at]));
    }
}

/// What is left are the annotations with another id.
proof fn lemma_without(list: Seq<AnnotationV>, uuid: Seq<char>)
    ensures
        forall|a: AnnotationV|
            #[trigger] without(list, uuid).contains(a) <==> list.contains(a) && a.uuid != uuid,
    decreases list.len(),
{
    if list.len() > 0 {
        let head = list.drop_last();
        let last = list.last();
        lemma_without(head, uuid);
        assert forall|a: AnnotationV|
            #[trigger] without(list, uuid).contains(a) <==> list.contains(a) && a.uuid != uuid by {
            assert(list =~= head.push(last));
            if list.contains(a) && a != last {
                let k = choose|k: int| 0 <= k < list.len() && list[k] == a;
                assert(head[k] == a);
            }
            if head.contains(a) {
                let k = choose|k: int| 0 <= k < head.len() && head[k] == a;
                assert(list[k] == a);
            }
            assert(list[list.len() - 1] == last);
            let kept = without(head, uuid);
            if last.uuid != uuid {
                let all = kept.push(last);
                assert(all[all.len() - 1] == last);
                if kept.contains(a) {
                    let k = choose|k: int| 0 <= k < kept.len() && kept[k] == a;
                    assert(all[k] == a);
                }
                if all.contains(a) && a != last {
                    let k = choose|k: int| 0 <= k < all.len() && all[k] == a;
                    assert(kept[k] == a);
                }
            }
        }
    }
}

/// A label is left over where it is not among the others, and only there: one
/// that anybody still points at is not given up.
pub proof fn a_label_in_use_is_kept(
    labels: Seq<Seq<char>>,
    others: Seq<Seq<char>>,
    label: Seq<char>,
)
    ensures
        not_among(labels, others).contains(label) <==> labels.contains(label) && !others.contains(
            label,
        ),
    decreases labels.len(),
{
    if labels.len() > 0 {
        let head = labels.drop_last();
        a_label_in_use_is_kept(head, others, label);
        assert(labels =~= head.push(labels.last()));
        assert(labels[labels.len() - 1] == labels.last());
        if head.contains(label) {
            let k = choose|k: int| 0 <= k < head.len() && head[k] == label;
            assert(labels[k] == label);
        }
        if labels.contains(label) && label != labels.last() {
            let k = choose|k: int| 0 <= k < labels.len() && labels[k] == label;
            assert(head[k] == label);
        }
        let kept = not_among(head, others);
        let all = kept.push(labels.last());
        assert(all[all.len() - 1] == labels.last());
        if kept.contains(label) {
            let k = choose|k: int| 0 <= k < kept.len() && kept[k] == label;
            assert(all[k] == label);
        }
        if all.contains(label) && label != labels.last() {
            let k = choose|k: int| 0 <= k < all.len() && all[k] == label;
            assert(kept[k] == label);
        }
    }
}

// ------------------------------------------------------ cutting labels out

/// Whether the anchors of a list stand one behind another.
pub open spec fn in_a_line(list: Seq<SourceAnchor>) -> bool {
    forall|i: int, j: int|
        0 <= i < j < list.len() ==> (#[trigger] list[i]).end <= (#[trigger] list[j]).start
}

/// The bytes of a document without the anchors that have one of some names.
pub open spec fn cut_out(
    bytes: Seq<u8>,
    anchors: Seq<SourceAnchor>,
    names: Seq<Seq<char>>,
) -> Seq<u8>
    decreases anchors.len(),
{
    if anchors.len() == 0 {
        bytes
    } else {
        let a = anchors.last();
        cut_out(
            if names.contains(a.name@) {
                spliced(bytes, a.start as int, a.end as int, seq![])
            } else {
                bytes
            },
            anchors.drop_last(),
            names,
        )
    }
}

/// A document without the anchors that have one of some names: an anchor
/// nothing points at is removed from the document.
pub fn without_anchors(text: &str, anchors: &Vec<SourceAnchor>, names: &Vec<String>) -> (r: String)
    requires
        anchors_cut_in(text@, anchors@),
        in_a_line(anchors@),
    ensures
        encode_utf8(r@) == cut_out(encode_utf8(text@), anchors@, texts(names@)),
{
    let ghost bytes = encode_utf8(text@);
    let mut out: String = text.to_string();
    let mut i: usize = anchors.len();
    assert(anchors@.take(i as int) =~= anchors@);
    while i > 0
        invariant
            i <= anchors@.len(),
            in_a_line(anchors@),
            anchors_cut_in(out@, anchors@.take(i as int)),
            cut_out(encode_utf8(out@), anchors@.take(i as int), texts(names@)) == cut_out(
                bytes,
                anchors@,
                texts(names@),
            ),
        decreases i,
    {
        let ghost here = anchors@.take(i as int);
        i = i - 1;
        let a: &SourceAnchor = &anchors[i];
        proof {
            assert(here.drop_last() =~= anchors@.take(i as int));
            assert(here[i as int] == *a);
            assert(here.last() == *a);
            lemma_encoded(out@);
            assert(encode_utf8(""@) =~= seq![]) by {
                reveal_strlit("");
                reveal_with_fuel(encode_utf8, 1);
            }
            assert forall|k: int| 0 <= k < i implies (#[trigger] anchors@.take(i as int)[k]).start
                <= anchors@.take(i as int)[k].end && boundary(
                out@,
                anchors@.take(i as int)[k].start as int,
            ) && boundary(out@, anchors@.take(i as int)[k].end as int) by {
                assert(here[k] == anchors@[k]);
            }
        }
        if holds(names, a.name.as_str()) {
            let ghost was = out@;
            let cut: String = splice(out.as_str(), a.start, a.end, "");
            proof {
                let b = encode_utf8(was);
                assert forall|k: int|
                    0 <= k < i implies (#[trigger] anchors@.take(i as int)[k]).start
                    <= anchors@.take(i as int)[k].end && boundary(
                    cut@,
                    anchors@.take(i as int)[k].start as int,
                ) && boundary(cut@, anchors@.take(i as int)[k].end as int) by {
                    assert(here[k] == anchors@[k]);
                    assert(anchors@[k].end <= anchors@[i as int].start);
                    lemma_boundary_spliced(
                        b,
                        a.start as int,
                        a.end as int,
                        seq![],
                        anchors@[k].start as int,
                    );
                    lemma_boundary_spliced(
                        b,
                        a.start as int,
                        a.end as int,
                        seq![],
                        anchors@[k].end as int,
                    );
                }
            }
            out = cut;
        }
    }
    assert(anchors@.take(0) =~= seq![]);
    out
}

// --------------------------------------------------- answering and standing

/// An annotation with one more thing said about it.
pub open spec fn with_reply(a: AnnotationV, reply: ReplyV) -> AnnotationV {
    AnnotationV { discussion: a.discussion.push(reply), mtime: reply.time, ..a }
}

/// An annotation with what is said of it: what is not given is left alone.
pub open spec fn with_flags(
    a: AnnotationV,
    claimed: Option<bool>,
    resolved: Option<bool>,
    now: Seq<char>,
) -> AnnotationV {
    AnnotationV {
        claimed: match claimed {
            Some(b) => b,
            None => a.claimed,
        },
        resolved: match resolved {
            Some(b) => b,
            None => a.resolved,
        },
        mtime: now,
        ..a
    }
}

/// An annotation that loses some labels: it is about the document, which is
/// where an annotation goes when the place it was about is gone.
pub open spec fn losing(a: AnnotationV, gone: Seq<Seq<char>>) -> AnnotationV {
    if exists|k: int| 0 <= k < a.location.labels.len() && gone.contains(#[trigger] a.location.labels[k]) {
        AnnotationV { location: about_document(), ..a }
    } else {
        a
    }
}

/// What filing a drawing with an annotation comes to, where there is one.
pub open spec fn drawn_on(
    a: AnnotationV,
    new: Option<NewScribble>,
    decoded: Result<Seq<u8>, Seq<char>>,
    stored: bool,
    now_nanos: u64,
    now: Seq<char>,
) -> Result<(AnnotationV, Option<ScribbleV>), Seq<char>> {
    match new {
        None => Ok((a, None)),
        Some(new) => match with_scribble(a, new, decoded, stored, now_nanos, now) {
            Ok(kept) => Ok((kept.0, Some(kept.1))),
            Err(e) => Err(e),
        },
    }
}

/// What a drawing's base64 holds, where there is a drawing.
pub open spec fn decoded_of(new: Option<NewScribble>) -> Result<Seq<u8>, Seq<char>> {
    match new {
        Some(new) => base64_bytes(new.picture.data@),
        None => Ok(seq![]),
    }
}

/// Files a drawing with an annotation, where there is one.
pub fn keep_drawing(
    record: &mut Annotation,
    new: Option<NewScribble>,
    stored: bool,
    now_nanos: u64,
    now: &str,
) -> (r: Result<Option<Scribble>, String>)
    ensures
        match drawn_on(old(record)@, new, decoded_of(new), stored, now_nanos, now@) {
            Ok(kept) => r is Ok && opt_scribble(r->Ok_0) == kept.1 && final(record)@ == kept.0,
            Err(e) => r is Err && r->Err_0@ == e && *final(record) == *old(record),
        },
{
    match new {
        None => Ok(None),
        Some(new) => match keep_scribble(record, new, stored, now_nanos, now) {
            Ok(s) => Ok(Some(s)),
            Err(e) => Err(e),
        },
    }
}

impl Sidecar {
    /// Appends a reply to an annotation's discussion. `stored` says whether the
    /// picture of what was drawn could be stored.
    pub fn reply(
        &mut self,
        uuid: &str,
        text: &str,
        author: &str,
        scribble: Option<NewScribble>,
        stored: bool,
        now_nanos: u64,
        now: &str,
    ) -> (r: Result<(), String>)
        ensures
            match place_of(old(self)@, uuid@) {
                Some(at) => match drawn_on(
                    old(self)@[at],
                    scribble,
                    decoded_of(scribble),
                    stored,
                    now_nanos,
                    now@,
                ) {
                    Ok(kept) => r is Ok && final(self)@ == old(self)@.update(
                        at,
                        with_reply(
                            kept.0,
                            ReplyV { author: author@, time: now@, content: text@, scribble: kept.1 },
                        ),
                    ),
                    Err(e) => r is Err && r->Err_0@ == e && final(self)@ == old(self)@,
                },
                None => r is Err && r->Err_0@ == no_annotation(uuid@) && final(self)@ == old(self)@,
            },
    {
        let at: usize = match self.position(uuid) {
            Some(at) => at,
            None => {
                return Err(missing_annotation(uuid));
            },
        };
        let ghost all = self@;
        let mut record: Annotation = self.annotations.remove(at);
        assert(record@ == all[at as int]);
        let drawn = keep_drawing(&mut record, scribble, stored, now_nanos, now);
        let r: Result<(), String> = match drawn {
            Err(e) => Err(e),
            Ok(drawn) => {
                let reply: Reply = Reply {
                    author: author.to_string(),
                    time: now.to_string(),
                    content: text.to_string(),
                    scribble: drawn,
                };
                let ghost before = record@;
                let ghost v = reply@;
                record.discussion.push(reply);
                record.mtime = now.to_string();
                assert(record@.discussion =~= before.discussion.push(v));
                Ok(())
            },
        };
        let ghost v = record@;
        self.annotations.insert(at, record);
        assert(self@ =~= all.update(at as int, v));
        assert(v == all[at as int] ==> self@ =~= all);
        r
    }

    /// Sets an annotation's flags. Whichever is left out is left alone. Both are
    /// given back, whichever moved: whoever hears of it wants the state of the
    /// annotation, not the change that got it there.
    pub fn set_flags(
        &mut self,
        uuid: &str,
        claimed: Option<bool>,
        resolved: Option<bool>,
        now: &str,
    ) -> (r: Result<(bool, bool), String>)
        ensures
            match place_of(old(self)@, uuid@) {
                Some(at) => {
                    let new = with_flags(old(self)@[at], claimed, resolved, now@);
                    r is Ok && r->Ok_0 == (new.claimed, new.resolved) && final(self)@ == old(
                        self,
                    )@.update(at, new)
                },
                None => r is Err && r->Err_0@ == no_annotation(uuid@) && final(self)@ == old(self)@,
            },
    {
        let at: usize = match self.position(uuid) {
            Some(at) => at,
            None => {
                return Err(missing_annotation(uuid));
            },
        };
        let ghost all = self@;
        let mut record: Annotation = self.annotations.remove(at);
        assert(record@ == all[at as int]);
        if let Some(b) = claimed {
            record.claimed = b;
        }
        if let Some(b) = resolved {
            record.resolved = b;
        }
        record.mtime = now.to_string();
        let out: (bool, bool) = (record.claimed, record.resolved);
        let ghost v = record@;
        self.annotations.insert(at, record);
        assert(self@ =~= all.update(at as int, v));
        Ok(out)
    }

    /// Makes whatever pointed at one of some labels an annotation about the
    /// document.
    pub fn drop_labels(&mut self, gone: &Vec<String>)
        ensures
            final(self)@ == old(self)@.map_values(|a: AnnotationV| losing(a, texts(gone@))),
    {
        let ghost all = self@;
        let n: usize = self.annotations.len();
        let mut i: usize = 0;
        while i < n
            invariant
                i <= n,
                n == self.annotations@.len(),
                n == all.len(),
                forall|k: int| 0 <= k < i ==> #[trigger] self@[k] == losing(all[k], texts(gone@)),
                forall|k: int| i <= k < n ==> #[trigger] self@[k] == all[k],
            decreases n - i,
        {
            let labels: &Vec<String> = &self.annotations[i].location.labels;
            let ghost before = self@;
            assert(self@[i as int] == all[i as int]);
            assert(all[i as int].location.labels == texts(labels@));
            let mut lost: bool = false;
            let mut j: usize = 0;
            while j < labels.len() && !lost
                invariant
                    j <= labels@.len(),
                    all[i as int].location.labels == texts(labels@),
                    !lost ==> forall|k: int|
                        0 <= k < j ==> !texts(gone@).contains(
                            #[trigger] all[i as int].location.labels[k],
                        ),
                    lost ==> exists|k: int|
                        0 <= k < labels@.len() && texts(gone@).contains(
                            #[trigger] all[i as int].location.labels[k],
                        ),
                decreases labels@.len() - j,
            {
                assert(texts(labels@)[j as int] == labels@[j as int]@);
                if holds(gone, labels[j].as_str()) {
                    assert(texts(gone@).contains(all[i as int].location.labels[j as int]));
                    lost = true;
                }
                j = j + 1;
            }
            if lost {
                self.annotations[i].location = Location::document();
            }
            proof {
                assert(self@ =~= before.update(i as int, losing(all[i as int], texts(gone@))));
            }
            i = i + 1;
        }
        assert(self@ =~= all.map_values(|a: AnnotationV| losing(a, texts(gone@))));
    }
}

/// What making an annotation comes to: the record with what was drawn filed in
/// it, under the next letter. A place in a generated file is no place to anchor
/// anything, so what points there is about the document.
pub open spec fn annotated(
    list: Seq<AnnotationV>,
    made: AnnotationV,
    scribble: Option<NewScribble>,
    decoded: Result<Seq<u8>, Seq<char>>,
    stored: bool,
    now_nanos: u64,
) -> Result<Seq<AnnotationV>, Seq<char>> {
    match drawn_on(made, scribble, decoded, stored, now_nanos, made.time) {
        Ok(kept) => Ok(
            with_annotation(
                list,
                AnnotationV {
                    scribble: kept.1,
                    letter: letter_at(highest(letters_of(list)) + 1),
                    ..kept.0
                },
            ),
        ),
        Err(e) => Err(e),
    }
}

/// Where an annotation points, where the file it points into is generated or
/// not.
pub open spec fn settled(location: LocationV, generated: bool) -> LocationV {
    if generated {
        about_document()
    } else {
        location
    }
}

impl Sidecar {
    /// Makes an annotation, and gives its id. `generated` says whether the place
    /// is in a generated file, and `stored` whether the picture of what was
    /// drawn could be stored; `local` is who is at this machine.
    pub fn annotate(
        &mut self,
        req: &AnnotateRequest,
        scribble: Option<NewScribble>,
        location: Location,
        generated: bool,
        stored: bool,
        local: &str,
        now_nanos: u64,
        now: &str,
    ) -> (r: Result<String, String>)
        requires
            highest(letters_of(old(self)@)) < u64::MAX,
        ensures
            match annotated(
                old(self)@,
                new_annotation(
                    req.text@,
                    opt_text(req.kind),
                    opt_text(req.color),
                    opt_text(req.snapshot),
                    resolved_author(opt_text(req.author), local@),
                    settled(location@, generated),
                    now_nanos,
                    now@,
                ),
                scribble,
                decoded_of(scribble),
                stored,
                now_nanos,
            ) {
                Ok(list) => r is Ok && r->Ok_0@ == uuid_of(req.text@, now_nanos) && final(self)@
                    == list,
                Err(e) => r is Err && r->Err_0@ == e && final(self)@ == old(self)@,
            },
    {
        let place: Location = if generated {
            Location::document()
        } else {
            location
        };
        let mut record: Annotation = new_record(req, place, local, now_nanos, now);
        match keep_drawing(&mut record, scribble, stored, now_nanos, now) {
            Err(e) => Err(e),
            Ok(drawn) => {
                record.scribble = drawn;
                let uuid: String = record.uuid.clone();
                self.add(record);
                Ok(uuid)
            },
        }
    }
}

/// A new annotation is shown under a letter that no other has.
pub proof fn a_new_letter_is_its_own(list: Seq<AnnotationV>)
    ensures
        !letters_of(list).contains(letter_at(highest(letters_of(list)) + 1)),
{
    next_letter_is_free(letters_of(list));
}

/// What is put in is found again under its id.
pub proof fn what_is_put_in_is_found(list: Seq<AnnotationV>, a: AnnotationV)
    ensures
        place_of(with_annotation(list, a), a.uuid) matches Some(at) && with_annotation(list, a)[at]
            == a,
{
    lemma_found_one(ids(list), a.uuid);
    match place_of(list, a.uuid) {
        Some(at) => {
            assert(ids(list.update(at, a)) =~= ids(list).update(at, a.uuid));
            assert(ids(list)[at] == a.uuid);
            assert(ids(list.update(at, a)) =~= ids(list));
        },
        None => {
            let all = ids(list.push(a));
            assert(all =~= ids(list).push(a.uuid));
            assert forall|k: int| 0 <= k < list.len() implies all[k] != a.uuid by {
                assert(all[k] == ids(list)[k]);
            }
            lemma_find_one(all, a.uuid, list.len() as int);
        },
    }
}

/// Setting both flags a second time changes nothing but the time.
pub proof fn flags_settle(a: AnnotationV, claimed: Option<bool>, resolved: Option<bool>, now: Seq<char>)
    ensures
        with_flags(with_flags(a, claimed, resolved, now), claimed, resolved, now) == with_flags(
            a,
            claimed,
            resolved,
            now,
        ),
{
}

/// After a label is dropped, nothing points at it.
pub proof fn nothing_points_at_a_dropped_label(a: AnnotationV, gone: Seq<Seq<char>>, k: int)
    requires
        0 <= k < losing(a, gone).location.labels.len(),
    ensures
        !gone.contains(losing(a, gone).location.labels[k]),
{
}

/// A reply comes after those that were there, which stay, and nothing else of an annotation
/// changes but when it was last touched.
pub proof fn a_reply_comes_last(a: AnnotationV, reply: ReplyV)
    ensures
        ({
            let b = with_reply(a, reply);
            &&& b.discussion.len() == a.discussion.len() + 1
            &&& b.discussion[a.discussion.len() as int] == reply
            &&& forall|i: int| 0 <= i < a.discussion.len() ==> b.discussion[i] == a.discussion[i]
            &&& b.mtime == reply.time
            &&& b.uuid == a.uuid && b.letter == a.letter && b.location == a.location && b.content
                == a.content && b.author == a.author && b.time == a.time && b.claimed == a.claimed
                && b.resolved == a.resolved && b.captures == a.captures && b.kind == a.kind
        }),
{
}

/// A flag that is given is set and one that is not given stays, and nothing else of an annotation
/// changes but when it was last touched.
pub proof fn only_the_flags_given_change(
    a: AnnotationV,
    claimed: Option<bool>,
    resolved: Option<bool>,
    now: Seq<char>,
)
    ensures
        ({
            let b = with_flags(a, claimed, resolved, now);
            &&& claimed is None ==> b.claimed == a.claimed
            &&& claimed == Some(true) ==> b.claimed
            &&& claimed == Some(false) ==> !b.claimed
            &&& resolved is None ==> b.resolved == a.resolved
            &&& resolved == Some(true) ==> b.resolved
            &&& resolved == Some(false) ==> !b.resolved
            &&& b.mtime == now
            &&& b.uuid == a.uuid && b.letter == a.letter && b.location == a.location && b.content
                == a.content && b.author == a.author && b.time == a.time && b.discussion
                == a.discussion && b.captures == a.captures && b.kind == a.kind
        }),
{
}

/// An annotation whose label is dropped is about the document from then on and keeps all else; one
/// with no such label stays as it is.
pub proof fn an_annotation_outlives_its_label(a: AnnotationV, gone: Seq<Seq<char>>, k: int)
    ensures
        0 <= k < a.location.labels.len() && gone.contains(a.location.labels[k]) ==> losing(
            a,
            gone,
        ).location.kind == "document"@ && losing(a, gone).location.labels.len() == 0,
        (forall|i: int|
            0 <= i < a.location.labels.len() ==> !gone.contains(#[trigger] a.location.labels[i]))
            ==> losing(a, gone) == a,
        losing(a, gone).uuid == a.uuid && losing(a, gone).content == a.content && losing(
            a,
            gone,
        ).discussion == a.discussion && losing(a, gone).letter == a.letter,
{
}

/// What is taken out leaves the others in their order.
pub proof fn the_others_keep_their_order(
    before: Seq<AnnotationV>,
    a: AnnotationV,
    after: Seq<AnnotationV>,
)
    requires
        forall|i: int| 0 <= i < before.len() ==> (#[trigger] before[i]).uuid != a.uuid,
        forall|i: int| 0 <= i < after.len() ==> (#[trigger] after[i]).uuid != a.uuid,
    ensures
        without(before + seq![a] + after, a.uuid) == before + after,
    decreases after.len(),
{
    let list = before + seq![a] + after;
    if after.len() == 0 {
        assert(list.drop_last() =~= before);
        lemma_nothing_taken(before, a.uuid);
        assert(before + after =~= before);
    } else {
        the_others_keep_their_order(before, a, after.drop_last());
        assert(list.drop_last() =~= before + seq![a] + after.drop_last());
        assert((before + after.drop_last()).push(after.last()) =~= before + after);
    }
}

/// Where nothing has an id nothing is taken out.
proof fn lemma_nothing_taken(list: Seq<AnnotationV>, uuid: Seq<char>)
    requires
        forall|i: int| 0 <= i < list.len() ==> (#[trigger] list[i]).uuid != uuid,
    ensures
        without(list, uuid) == list,
    decreases list.len(),
{
    if list.len() > 0 {
        lemma_nothing_taken(list.drop_last(), uuid);
        assert(list.drop_last().push(list.last()) =~= list);
    } else {
        assert(without(list, uuid) =~= list);
    }
}

/// What goes in takes the place of what had its id, and comes last where nothing had; the others
/// stay where they are.
pub proof fn the_others_stay_in_place(list: Seq<AnnotationV>, a: AnnotationV, i: int)
    requires
        0 <= i < list.len(),
    ensures
        list[i].uuid != a.uuid ==> with_annotation(list, a)[i] == list[i],
        (forall|k: int| 0 <= k < list.len() ==> (#[trigger] list[k]).uuid != a.uuid)
            ==> with_annotation(list, a) == list.push(a),
        list[i].uuid == a.uuid ==> with_annotation(list, a).len() == list.len(),
{
    lemma_found_one(ids(list), a.uuid);
    assert(ids(list)[i] == list[i].uuid);
    if let Some(at) = place_of(list, a.uuid) {
        assert(ids(list)[at] == list[at].uuid);
    }
}

/// A label that is taken out of a text is gone from it, and all else stays as it was.
pub proof fn only_the_named_label_is_cut(
    bytes: Seq<u8>,
    anchors: Seq<SourceAnchor>,
    names: Seq<Seq<char>>,
    k: int,
)
    requires
        0 <= k < anchors.len(),
        names.contains(anchors[k].name@),
        forall|i: int|
            0 <= i < anchors.len() && i != k ==> !names.contains((#[trigger] anchors[i]).name@),
    ensures
        cut_out(bytes, anchors, names) == bytes.subrange(0, anchors[k].start as int)
            + bytes.subrange(anchors[k].end as int, bytes.len() as int),
    decreases anchors.len(),
{
    let n = anchors.len() - 1;
    if k == n {
        let rest = anchors.drop_last();
        lemma_nothing_cut(spliced(bytes, anchors[k].start as int, anchors[k].end as int, seq![]), rest, names);
        assert(spliced(bytes, anchors[k].start as int, anchors[k].end as int, seq![])
            =~= bytes.subrange(0, anchors[k].start as int) + bytes.subrange(
            anchors[k].end as int,
            bytes.len() as int,
        ));
    } else {
        assert(!names.contains(anchors[n].name@));
        only_the_named_label_is_cut(bytes, anchors.drop_last(), names, k);
    }
}

/// A text none of whose labels is named stays as it is.
proof fn lemma_nothing_cut(bytes: Seq<u8>, anchors: Seq<SourceAnchor>, names: Seq<Seq<char>>)
    requires
        forall|i: int| 0 <= i < anchors.len() ==> !names.contains((#[trigger] anchors[i]).name@),
    ensures
        cut_out(bytes, anchors, names) == bytes,
    decreases anchors.len(),
{
    if anchors.len() > 0 {
        assert(!names.contains(anchors[anchors.len() - 1].name@));
        lemma_nothing_cut(bytes, anchors.drop_last(), names);
    }
}

} // verus!

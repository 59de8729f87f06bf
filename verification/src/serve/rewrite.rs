//! Reading the block an annotation is anchored in, and rewriting it.
//!
//! An agent reads a block and hands back another. What it hands back is only
//! written where the block still says what was read, and where the anchors in
//! it are accounted for.

use std::ops::Range;

use vstd::prelude::*;
use vstd::string::*;
use vstd::utf8::*;

use crate::bytes::{
    boundary, byte_len, chars_between, get, get_part, lemma_same_bytes, slice, splice, spliced,
};
use crate::serve::blocks::{
    block_around, block_extent, block_id, block_range, declaration, digest, generated_note,
    heading_path, headings_above, line_span, lines_across, ANCHOR_OPENING,
};
use crate::text::{
    chars_of, contains, cut, find, find_at, join, joined, lemma_find_from, lemma_find_from_skip,
    lemma_find_one, occurs, opt_text, res_text, same, stands_at, string_of, texts,
};

verus! {

/// An anchor as the syntax of a document has it.
#[derive(Debug)]
pub struct SourceAnchor {
    /// The label, as an annotation refers to it.
    pub name: String,
    /// Where the label starts.
    pub start: usize,
    /// Where it ends.
    pub end: usize,
}

/// An annotation and the labels it points at.
#[derive(Debug)]
pub struct Mention {
    /// The annotation.
    pub uuid: String,
    /// The labels it points at.
    pub labels: Vec<String>,
}

/// An anchor as it sits inside a block.
#[derive(Debug)]
pub struct Anchor {
    /// The label, as an annotation refers to it.
    pub reference: String,
    /// Where the label starts, relative to the block.
    pub at: usize,
    /// The label itself, so a rewrite can put it back verbatim.
    pub label: String,
    /// The annotations that point at this anchor.
    pub annotations: Vec<String>,
}

/// A piece of a document, and everything needed to rewrite it safely.
#[derive(Debug)]
pub struct SourceBlock {
    /// A digest of where it is and what it says.
    pub block_id: String,
    /// The file it is in.
    pub file: String,
    /// Its byte range in that file.
    pub range: (usize, usize),
    /// Its line range, from one.
    pub lines: (usize, usize),
    /// Its source, exactly.
    pub text: String,
    /// The headings above it, outermost first.
    pub heading_path: Vec<String>,
    /// Every anchor inside it.
    pub anchors: Vec<Anchor>,
    /// The line in which the file declares itself generated.
    pub generated: Option<String>,
    /// The block before it, when asked for.
    pub before: Option<String>,
    /// The block after it, when asked for.
    pub after: Option<String>,
}

/// What an anchor inside a block is: its reference, its place, its label, and
/// the annotations that point at it.
pub struct AnchorView {
    /// The label, as an annotation refers to it.
    pub reference: Seq<char>,
    /// Where the label starts, relative to the block.
    pub at: int,
    /// The label itself.
    pub label: Seq<char>,
    /// The annotations that point at it.
    pub annotations: Seq<Seq<char>>,
}

impl View for Anchor {
    type V = AnchorView;

    open spec fn view(&self) -> AnchorView {
        AnchorView {
            reference: self.reference@,
            at: self.at as int,
            label: self.label@,
            annotations: texts(self.annotations@),
        }
    }
}

/// What the anchors of a list are.
pub open spec fn anchor_views(list: Seq<Anchor>) -> Seq<AnchorView> {
    list.map_values(|a: Anchor| a@)
}

/// Whether the anchors of a list are cut where characters begin.
pub open spec fn anchors_cut_in(text: Seq<char>, list: Seq<SourceAnchor>) -> bool {
    forall|i: int|
        0 <= i < list.len() ==> (#[trigger] list[i]).start <= list[i].end && boundary(
            text,
            list[i].start as int,
        ) && boundary(text, list[i].end as int)
}

/// The annotations that point at a label, in order.
pub open spec fn pointing_at(mentions: Seq<Mention>, label: Seq<char>) -> Seq<Seq<char>>
    decreases mentions.len(),
{
    if mentions.len() == 0 {
        seq![]
    } else {
        let rest = pointing_at(mentions.drop_last(), label);
        if texts(mentions.last().labels@).contains(label) {
            rest.push(mentions.last().uuid@)
        } else {
            rest
        }
    }
}

/// The anchors inside a range of a text, each with what points at it.
pub open spec fn anchors_inside(
    text: Seq<char>,
    found: Seq<SourceAnchor>,
    mentions: Seq<Mention>,
    start: int,
    end: int,
) -> Seq<AnchorView>
    decreases found.len(),
{
    if found.len() == 0 {
        seq![]
    } else {
        let rest = anchors_inside(text, found.drop_last(), mentions, start, end);
        let a = found.last();
        if start <= a.start && a.end <= end {
            rest.push(
                AnchorView {
                    reference: a.name@,
                    at: a.start - start,
                    label: chars_between(text, a.start as int, a.end as int),
                    annotations: pointing_at(mentions, a.name@),
                },
            )
        } else {
            rest
        }
    }
}

/// Whether a list of texts holds one.
pub fn holds(list: &Vec<String>, text: &str) -> (r: bool)
    ensures
        r == texts(list@).contains(text@),
{
    let mut i: usize = 0;
    while i < list.len()
        invariant
            i <= list@.len(),
            forall|k: int| 0 <= k < i ==> #[trigger] texts(list@)[k] != text@,
        decreases list@.len() - i,
    {
        if same(list[i].as_str(), text) {
            assert(texts(list@)[i as int] == text@);
            return true;
        }
        i = i + 1;
    }
    false
}

/// The annotations that point at a label.
fn find_pointing(mentions: &Vec<Mention>, label: &str) -> (r: Vec<String>)
    ensures
        texts(r@) == pointing_at(mentions@, label@),
{
    let mut out: Vec<String> = Vec::new();
    let mut i: usize = 0;
    assert(mentions@.take(0) =~= Seq::empty());
    assert(texts(out@) =~= pointing_at(mentions@.take(0), label@));
    while i < mentions.len()
        invariant
            i <= mentions@.len(),
            texts(out@) == pointing_at(mentions@.take(i as int), label@),
        decreases mentions@.len() - i,
    {
        let ghost before = texts(out@);
        if holds(&mentions[i].labels, label) {
            out.push(mentions[i].uuid.clone());
            assert(texts(out@) =~= before.push(mentions@[i as int].uuid@));
        }
        i = i + 1;
        assert(mentions@.take(i as int).drop_last() =~= mentions@.take(i - 1));
        assert(mentions@.take(i as int).last() == mentions@[i - 1]);
    }
    assert(mentions@.take(i as int) =~= mentions@);
    out
}

/// The anchors inside a range of a text.
fn find_inside(
    text: &str,
    found: &Vec<SourceAnchor>,
    mentions: &Vec<Mention>,
    start: usize,
    end: usize,
) -> (r: Vec<Anchor>)
    requires
        anchors_cut_in(text@, found@),
    ensures
        anchor_views(r@) == anchors_inside(text@, found@, mentions@, start as int, end as int),
{
    let mut out: Vec<Anchor> = Vec::new();
    let mut i: usize = 0;
    assert(found@.take(0) =~= Seq::empty());
    assert(anchor_views(out@) =~= anchors_inside(
        text@,
        found@.take(0),
        mentions@,
        start as int,
        end as int,
    ));
    while i < found.len()
        invariant
            i <= found@.len(),
            anchors_cut_in(text@, found@),
            anchor_views(out@) == anchors_inside(
                text@,
                found@.take(i as int),
                mentions@,
                start as int,
                end as int,
            ),
        decreases found@.len() - i,
    {
        let ghost before = anchor_views(out@);
        let a: &SourceAnchor = &found[i];
        if start <= a.start && a.end <= end {
            let anchor = Anchor {
                reference: a.name.clone(),
                at: a.start - start,
                label: slice(text, a.start, a.end).to_owned(),
                annotations: find_pointing(mentions, a.name.as_str()),
            };
            let ghost view = anchor@;
            out.push(anchor);
            assert(anchor_views(out@) =~= before.push(view));
        }
        i = i + 1;
        assert(found@.take(i as int).drop_last() =~= found@.take(i - 1));
        assert(found@.take(i as int).last() == found@[i - 1]);
    }
    assert(found@.take(i as int) =~= found@);
    out
}

/// The block before one that starts at a place, where it ends no later.
pub open spec fn neighbour_before(text: Seq<char>, start: int) -> Option<Seq<char>> {
    if start > 0 {
        match block_extent(text, start - 1) {
            Some((s, e)) => if e <= start {
                Some(chars_between(text, s, e))
            } else {
                None
            },
            None => None,
        }
    } else {
        None
    }
}

/// The block after one that ends at a place, where it starts no sooner.
pub open spec fn neighbour_after(text: Seq<char>, end: int) -> Option<Seq<char>> {
    if end + 1 < encode_utf8(text).len() {
        match block_extent(text, end + 1) {
            Some((s, e)) => if s >= end {
                Some(chars_between(text, s, e))
            } else {
                None
            },
            None => None,
        }
    } else {
        None
    }
}

/// The block before one that starts at a place.
fn find_before(text: &str, start: usize) -> (r: Option<String>)
    ensures
        opt_text(r) == neighbour_before(text@, start as int),
{
    if start == 0 {
        return None;
    }
    match block_around(text, start - 1) {
        Some(range) => {
            if range.end <= start {
                Some(slice(text, range.start, range.end).to_owned())
            } else {
                None
            }
        },
        None => None,
    }
}

/// The block after one that ends at a place.
fn find_after(text: &str, end: usize) -> (r: Option<String>)
    ensures
        opt_text(r) == neighbour_after(text@, end as int),
{
    let total: usize = byte_len(text);
    if end >= total || end + 1 >= total {
        return None;
    }
    match block_around(text, end + 1) {
        Some(range) => {
            if range.start >= end {
                Some(slice(text, range.start, range.end).to_owned())
            } else {
                None
            }
        },
        None => None,
    }
}

/// The first label of an annotation, which says where it is anchored.
pub open spec fn label_of(mentions: Seq<Mention>, uuid: Seq<char>) -> Result<Seq<char>, Seq<char>>
    decreases mentions.len(),
{
    if mentions.len() == 0 {
        Err("no annotation "@ + uuid)
    } else if mentions[0].uuid@ == uuid {
        if mentions[0].labels@.len() == 0 {
            Err("annotation "@ + uuid + " names no anchor"@)
        } else {
            Ok(mentions[0].labels@[0]@)
        }
    } else {
        label_of(mentions.skip(1), uuid)
    }
}

/// The first label of an annotation, which says where it is anchored.
pub fn anchor_label(mentions: &Vec<Mention>, uuid: &str) -> (r: Result<String, String>)
    ensures
        res_text(r) == label_of(mentions@, uuid@),
{
    let mut i: usize = 0;
    assert(mentions@.skip(0) =~= mentions@);
    while i < mentions.len()
        invariant
            i <= mentions@.len(),
            label_of(mentions@, uuid@) == label_of(mentions@.skip(i as int), uuid@),
        decreases mentions@.len() - i,
    {
        let m: &Mention = &mentions[i];
        assert(mentions@.skip(i as int)[0] == m);
        if same(m.uuid.as_str(), uuid) {
            if m.labels.len() == 0 {
                let mut why: String = "annotation ".to_owned();
                why.append(uuid);
                why.append(" names no anchor");
                return Err(why);
            }
            return Ok(m.labels[0].clone());
        }
        assert(mentions@.skip(i as int).skip(1) =~= mentions@.skip(i + 1));
        i = i + 1;
    }
    let mut why: String = "no annotation ".to_owned();
    why.append(uuid);
    Err(why)
}

/// Whether a label is the first of its name among the anchors of a file.
pub open spec fn first_named(found: Seq<SourceAnchor>, label: Seq<char>, k: int) -> bool {
    &&& 0 <= k < found.len()
    &&& found[k].name@ == label
    &&& forall|j: int| 0 <= j < k ==> (#[trigger] found[j]).name@ != label
}

/// Whether no anchor of a file has a name.
pub open spec fn none_named(found: Seq<SourceAnchor>, label: Seq<char>) -> bool {
    forall|j: int| 0 <= j < found.len() ==> (#[trigger] found[j]).name@ != label
}

/// Where the anchor of a name sits: the file, of all that a document is made of, and the
/// place in it. The first of them counts. `files` are the anchors of each file.
pub fn find_anchor(files: &Vec<Vec<SourceAnchor>>, label: &str) -> (r: Result<
    (usize, usize),
    String,
>)
    ensures
        match r {
            Ok((file, at)) => {
                &&& file < files@.len()
                &&& exists|k: int| #[trigger]
                    first_named(files@[file as int]@, label@, k) && files@[file as int]@[k].start
                        == at
                &&& forall|i: int| 0 <= i < file ==> none_named((#[trigger] files@[i])@, label@)
            },
            Err(why) => {
                &&& forall|i: int|
                    0 <= i < files@.len() ==> none_named((#[trigger] files@[i])@, label@)
                &&& why@ == "no anchor "@ + label@ + " in the document"@
            },
        },
{
    let mut i: usize = 0;
    while i < files.len()
        invariant
            i <= files@.len(),
            forall|f: int| 0 <= f < i ==> none_named((#[trigger] files@[f])@, label@),
        decreases files@.len() - i,
    {
        let found: &Vec<SourceAnchor> = &files[i];
        let mut k: usize = 0;
        while k < found.len()
            invariant
                i < files@.len(),
                *found == files@[i as int],
                k <= found@.len(),
                forall|f: int| 0 <= f < i ==> none_named((#[trigger] files@[f])@, label@),
                forall|j: int| 0 <= j < k ==> (#[trigger] found@[j]).name@ != label@,
            decreases found@.len() - k,
        {
            if same(found[k].name.as_str(), label) {
                assert(first_named(files@[i as int]@, label@, k as int));
                return Ok((i, found[k].start));
            }
            k = k + 1;
        }
        assert(none_named(files@[i as int]@, label@));
        i = i + 1;
    }
    let mut why: String = "no anchor ".to_owned();
    why.append(label);
    why.append(" in the document");
    Err(why)
}

/// The block around the anchor of an annotation.
///
/// `at` is where the anchor sits in `text`, which is what `file` says; `found`
/// are the anchors of that file and `mentions` the annotations of the document.
pub fn block_of(
    file: &str,
    text: &str,
    at: usize,
    found: &Vec<SourceAnchor>,
    mentions: &Vec<Mention>,
    context: bool,
) -> (r: SourceBlock)
    requires
        boundary(text@, at as int),
        anchors_cut_in(text@, found@),
    ensures
        block_extent(text@, at as int) == Some((r.range.0 as int, r.range.1 as int)),
        r.range.0 <= r.range.1,
        boundary(text@, r.range.0 as int),
        boundary(text@, r.range.1 as int),
        r.file@ == file@,
        r.text@ == chars_between(text@, r.range.0 as int, r.range.1 as int),
        r.block_id@ == digest(file@, r.range.0 as nat, r.text@),
        (r.lines.0 as nat, r.lines.1 as nat) == line_span(
            text@,
            r.range.0 as int,
            r.range.1 as int,
        ),
        texts(r.heading_path@) == headings_above(text@, r.range.0 as int),
        anchor_views(r.anchors@) == anchors_inside(
            text@,
            found@,
            mentions@,
            r.range.0 as int,
            r.range.1 as int,
        ),
        opt_text(r.generated) == declaration(text@),
        opt_text(r.before) == if context {
            neighbour_before(text@, r.range.0 as int)
        } else {
            None
        },
        opt_text(r.after) == if context {
            neighbour_after(text@, r.range.1 as int)
        } else {
            None
        },
{
    let range: Range<usize> = block_range(text, at);
    let source: &str = slice(text, range.start, range.end);
    let before: Option<String> = if context {
        find_before(text, range.start)
    } else {
        None
    };
    let after: Option<String> = if context {
        find_after(text, range.end)
    } else {
        None
    };
    SourceBlock {
        block_id: block_id(file, range.start, source),
        file: file.to_owned(),
        range: (range.start, range.end),
        lines: lines_across(text, range.start, range.end),
        text: source.to_owned(),
        heading_path: heading_path(text, range.start),
        anchors: find_inside(text, found, mentions, range.start, range.end),
        generated: generated_note(text),
        before,
        after,
    }
}

// ------------------------------------------------------------------ policies

/// What a rewrite is allowed to do with the anchors it was given.
#[derive(Debug, Clone, Copy, PartialEq, Eq, Structural)]
pub enum AnchorPolicy {
    /// Every anchor in the old text must be in the new text.
    Keep,
    /// Missing anchors are put back at the head of the block.
    Reattach,
    /// Missing anchors are meant.
    Drop,
}

/// The policy a name stands for.
pub open spec fn policy_named(name: Seq<char>) -> Option<AnchorPolicy> {
    if name.len() == 0 || name == "keep"@ {
        Some(AnchorPolicy::Keep)
    } else if name == "reattach"@ {
        Some(AnchorPolicy::Reattach)
    } else if name == "drop"@ {
        Some(AnchorPolicy::Drop)
    } else {
        None
    }
}

impl AnchorPolicy {
    /// Reads the policy an agent asked for.
    pub fn parse(name: &str) -> (r: Result<Self, String>)
        ensures
            match r {
                Ok(policy) => policy_named(name@) == Some(policy),
                Err(why) => policy_named(name@) is None && why@ == "unknown anchor policy: "@
                    + name@,
            },
    {
        if name.is_empty() || same(name, "keep") {
            Ok(AnchorPolicy::Keep)
        } else if same(name, "reattach") {
            Ok(AnchorPolicy::Reattach)
        } else if same(name, "drop") {
            Ok(AnchorPolicy::Drop)
        } else {
            let mut why: String = "unknown anchor policy: ".to_owned();
            why.append(name);
            Err(why)
        }
    }
}

// ----------------------------------------------------------------- rewriting

/// A rewrite of one block, ready to be written.
#[derive(Debug)]
pub struct BlockEdit {
    /// The file to write.
    pub path: String,
    /// Its content afterwards.
    pub content: String,
    /// The anchors the rewrite dropped.
    pub dropped: Vec<String>,
}

/// The anchors written in a text, in order.
pub open spec fn written_anchors(text: Seq<char>) -> Seq<Seq<char>>
    decreases text.len(),
{
    match find(text, ANCHOR_OPENING@) {
        None => seq![],
        Some(at) => match find(text.skip(at), seq!['>']) {
            None => seq![],
            Some(close) => {
                proof {
                    reveal_strlit("<anno.");
                    lemma_find_from(text, ANCHOR_OPENING@, 0);
                    lemma_find_from(text.skip(at), seq!['>'], 0);
                }
                seq![text.skip(at).take(close + 1)] + written_anchors(
                    text.skip(at).skip(close + 1),
                )
            },
        },
    }
}

/// The first of some labels that is not among others.
pub open spec fn first_unknown(labels: Seq<Seq<char>>, known: Seq<Seq<char>>) -> Option<Seq<char>>
    decreases labels.len(),
{
    if labels.len() == 0 {
        None
    } else if !known.contains(labels[0]) {
        Some(labels[0])
    } else {
        first_unknown(labels.skip(1), known)
    }
}

/// The labels of some anchors.
pub open spec fn labels_of(anchors: Seq<AnchorView>) -> Seq<Seq<char>> {
    anchors.map_values(|a: AnchorView| a.label)
}

/// The references of some anchors.
pub open spec fn references_of(anchors: Seq<AnchorView>) -> Seq<Seq<char>> {
    anchors.map_values(|a: AnchorView| a.reference)
}

/// The anchors of a block that a text does not hold, in order.
pub open spec fn missing_from(anchors: Seq<AnchorView>, text: Seq<char>) -> Seq<AnchorView>
    decreases anchors.len(),
{
    if anchors.len() == 0 {
        seq![]
    } else {
        let rest = missing_from(anchors.drop_last(), text);
        if occurs(text, anchors.last().label) {
            rest
        } else {
            rest.push(anchors.last())
        }
    }
}

/// Some texts one after another.
pub open spec fn in_a_row(parts: Seq<Seq<char>>) -> Seq<char>
    decreases parts.len(),
{
    if parts.len() == 0 {
        seq![]
    } else {
        in_a_row(parts.drop_last()) + parts.last()
    }
}

/// What is written in place of a block.
pub open spec fn replacement(
    anchors: Seq<AnchorView>,
    new_text: Seq<char>,
    policy: AnchorPolicy,
) -> Seq<char> {
    match policy {
        AnchorPolicy::Reattach => in_a_row(labels_of(missing_from(anchors, new_text))) + new_text,
        _ => new_text,
    }
}

/// Why a rewrite is refused, if it is: the block is not the one that was read,
/// the file does not hold it any more, the rewrite invents an anchor, or drops
/// one that it has to keep.
pub open spec fn refusal(
    block: SourceBlock,
    given: Seq<char>,
    disk: Seq<char>,
    new_text: Seq<char>,
    policy: AnchorPolicy,
) -> Option<Seq<char>> {
    let anchors = anchor_views(block.anchors@);
    let missing = missing_from(anchors, new_text);
    if block.block_id@ != given {
        Some("stale block: "@ + given + " is now "@ + block.block_id@ + "; read it again"@)
    } else if get_part(disk, block.range.0 as int, block.range.1 as int) != Some(
        encode_utf8(block.text@),
    ) {
        Some("stale block: the file changed since it was read"@)
    } else {
        match first_unknown(written_anchors(new_text), labels_of(anchors)) {
            Some(label) => Some(
                label
                    + " is not an anchor this block had. Labels of your own are fine; anchors must be the ones you were given."@,
            ),
            None => if policy == AnchorPolicy::Keep && missing.len() > 0 {
                Some(
                    "the rewrite drops "@ + join(labels_of(missing), ", "@)
                        + "; keep them, or say anchors=reattach or anchors=drop"@,
                )
            } else {
                None
            },
        }
    }
}

/// The first anchor written in a text that a block did not have.
fn find_invented(new_text: &str, known: &Vec<String>) -> (r: Option<String>)
    ensures
        opt_text(r) == first_unknown(written_anchors(new_text@), texts(known@)),
{
    let t: Vec<char> = chars_of(new_text);
    let open: Vec<char> = chars_of(ANCHOR_OPENING);
    let shut: Vec<char> = vec!['>'];
    let mut rest: &[char] = t.as_slice();
    assert(shut@ =~= seq!['>']);
    proof {
        reveal_strlit("<anno.");
    }
    loop
        invariant
            open@ == ANCHOR_OPENING@,
            open@.len() > 0,
            shut@ == seq!['>'],
            first_unknown(written_anchors(new_text@), texts(known@)) == first_unknown(
                written_anchors(rest@),
                texts(known@),
            ),
        decreases rest@.len(),
    {
        let ghost whole = rest@;
        match find_at(rest, open.as_slice(), 0) {
            None => {
                return None;
            },
            Some(at) => {
                let tail: &[char] = cut(rest, at, 0).1;
                let total: usize = tail.len();
                match find_at(tail, shut.as_slice(), 0) {
                    None => {
                        return None;
                    },
                    Some(close) => {
                        let label: String = string_of(cut(tail, close + 1, 0).0);
                        let after: &[char] = cut(tail, close + 1, 0).1;
                        let ghost all = written_anchors(whole);
                        assert(all == seq![label@] + written_anchors(after@));
                        assert(all[0] == label@);
                        assert(all.skip(1) =~= written_anchors(after@));
                        if !holds(known, label.as_str()) {
                            return Some(label);
                        }
                        rest = after;
                    },
                }
            },
        }
    }
}

/// The labels of the anchors of a block.
fn block_labels(anchors: &Vec<Anchor>) -> (r: Vec<String>)
    ensures
        texts(r@) == labels_of(anchor_views(anchors@)),
{
    let mut out: Vec<String> = Vec::new();
    let mut i: usize = 0;
    while i < anchors.len()
        invariant
            i <= anchors@.len(),
            out@.len() == i,
            forall|k: int| 0 <= k < i ==> (#[trigger] out@[k])@ == anchors@[k].label@,
        decreases anchors@.len() - i,
    {
        out.push(anchors[i].label.clone());
        i = i + 1;
    }
    assert(texts(out@) =~= labels_of(anchor_views(anchors@)));
    out
}

/// The labels and the references of the anchors that a text does not hold.
fn find_missing(anchors: &Vec<Anchor>, new_text: &str) -> (r: (Vec<String>, Vec<String>))
    ensures
        texts(r.0@) == labels_of(missing_from(anchor_views(anchors@), new_text@)),
        texts(r.1@) == references_of(missing_from(anchor_views(anchors@), new_text@)),
{
    let mut labels: Vec<String> = Vec::new();
    let mut references: Vec<String> = Vec::new();
    let mut i: usize = 0;
    let ghost all = anchor_views(anchors@);
    assert(all.take(0) =~= Seq::empty());
    assert(texts(labels@) =~= labels_of(missing_from(all.take(0), new_text@)));
    assert(texts(references@) =~= references_of(missing_from(all.take(0), new_text@)));
    while i < anchors.len()
        invariant
            i <= anchors@.len(),
            all == anchor_views(anchors@),
            texts(labels@) == labels_of(missing_from(all.take(i as int), new_text@)),
            texts(references@) == references_of(missing_from(all.take(i as int), new_text@)),
        decreases anchors@.len() - i,
    {
        let ghost l = texts(labels@);
        let ghost f = texts(references@);
        let ghost was = missing_from(all.take(i as int), new_text@);
        let a: &Anchor = &anchors[i];
        assert(all.take(i + 1).drop_last() =~= all.take(i as int));
        assert(all.take(i + 1).last() == a@);
        if !contains(new_text, a.label.as_str()) {
            labels.push(a.label.clone());
            references.push(a.reference.clone());
            assert(texts(labels@) =~= l.push(a@.label));
            assert(texts(references@) =~= f.push(a@.reference));
            assert(labels_of(was.push(a@)) =~= labels_of(was).push(a@.label));
            assert(references_of(was.push(a@)) =~= references_of(was).push(a@.reference));
        }
        i = i + 1;
    }
    assert(all.take(i as int) =~= all);
    (labels, references)
}

/// Some texts one after another, and then another.
fn put_before(parts: &Vec<String>, text: &str) -> (r: String)
    ensures
        r@ == in_a_row(texts(parts@)) + text@,
{
    let mut out: String = String::new();
    let mut i: usize = 0;
    let ghost all = texts(parts@);
    assert(all.take(0) =~= Seq::empty());
    while i < parts.len()
        invariant
            i <= parts@.len(),
            all == texts(parts@),
            out@ == in_a_row(all.take(i as int)),
        decreases parts@.len() - i,
    {
        out.append(parts[i].as_str());
        i = i + 1;
        assert(all.take(i as int).drop_last() =~= all.take(i - 1));
        assert(all.take(i as int).last() == parts@[i - 1]@);
    }
    assert(all.take(i as int) =~= all);
    out.append(text);
    out
}

/// Prepares a rewrite of a block. `disk` is what its file says now.
///
/// The block is identified by what it was when it was read: if the file has
/// moved on, the rewrite is refused rather than applied to the wrong text.
pub fn prepare_block_replace(
    block: &SourceBlock,
    block_id_given: &str,
    disk: &str,
    new_text: &str,
    policy: AnchorPolicy,
) -> (r: Result<BlockEdit, String>)
    ensures
        match r {
            Err(why) => refusal(*block, block_id_given@, disk@, new_text@, policy) == Some(why@),
            Ok(edit) => {
                &&& refusal(*block, block_id_given@, disk@, new_text@, policy) is None
                &&& edit.path@ == block.file@
                &&& encode_utf8(edit.content@) == spliced(
                    encode_utf8(disk@),
                    block.range.0 as int,
                    block.range.1 as int,
                    encode_utf8(replacement(anchor_views(block.anchors@), new_text@, policy)),
                )
                &&& texts(edit.dropped@) == if policy == AnchorPolicy::Drop {
                    references_of(missing_from(anchor_views(block.anchors@), new_text@))
                } else {
                    seq![]
                }
            },
        },
{
    if !same(block.block_id.as_str(), block_id_given) {
        let mut why: String = "stale block: ".to_owned();
        why.append(block_id_given);
        why.append(" is now ");
        why.append(block.block_id.as_str());
        why.append("; read it again");
        return Err(why);
    }
    let (start, end) = block.range;
    let held: bool = match get(disk, start, end) {
        Some(part) => {
            proof {
                if encode_utf8(part@) == encode_utf8(block.text@) {
                    lemma_same_bytes(part@, block.text@);
                }
            }
            same(part, block.text.as_str())
        },
        None => false,
    };
    if !held {
        return Err("stale block: the file changed since it was read".to_owned());
    }
    let known: Vec<String> = block_labels(&block.anchors);
    match find_invented(new_text, &known) {
        Some(label) => {
            let mut why: String = label;
            why.append(
                " is not an anchor this block had. Labels of your own are fine; anchors must be the ones you were given.",
            );
            return Err(why);
        },
        None => {},
    }
    let (labels, references) = find_missing(&block.anchors, new_text);
    let ghost missing = missing_from(anchor_views(block.anchors@), new_text@);
    assert(texts(labels@).len() == labels@.len());
    assert(labels_of(missing).len() == missing.len());
    let written: String = match policy {
        AnchorPolicy::Keep => {
            if labels.len() > 0 {
                let mut why: String = "the rewrite drops ".to_owned();
                let names: String = joined(&labels, ", ");
                why.append(names.as_str());
                why.append("; keep them, or say anchors=reattach or anchors=drop");
                return Err(why);
            }
            new_text.to_owned()
        },
        AnchorPolicy::Reattach => put_before(&labels, new_text),
        AnchorPolicy::Drop => new_text.to_owned(),
    };
    let dropped: Vec<String> = match policy {
        AnchorPolicy::Drop => references,
        _ => Vec::new(),
    };
    assert(policy != AnchorPolicy::Drop ==> texts(dropped@) =~= Seq::<Seq<char>>::empty());
    Ok(
        BlockEdit {
            path: block.file.clone(),
            content: splice(disk, start, end, written.as_str()),
            dropped,
        },
    )
}

// --------------------------------------------------------------------- laws

/// A text that stands somewhere in another is in it.
pub proof fn lemma_occurs(hay: Seq<char>, needle: Seq<char>, at: int)
    requires
        stands_at(hay, needle, at),
    ensures
        occurs(hay, needle),
{
    if needle.len() == 0 {
        assert(hay.subrange(0, 0) =~= needle);
    } else {
        lemma_find_from(hay, needle, 0);
    }
}

/// What is in a text is in it with more before and after.
pub proof fn lemma_occurs_more(before: Seq<char>, hay: Seq<char>, after: Seq<char>, needle: Seq<char>)
    requires
        occurs(hay, needle),
    ensures
        occurs(before + hay + after, needle),
{
    let all = before + hay + after;
    if needle.len() == 0 {
        assert(all.subrange(0, 0) =~= needle);
        lemma_occurs(all, needle, 0);
    } else {
        lemma_find_from(hay, needle, 0);
        let at = find(hay, needle)->0;
        assert(all.subrange(before.len() + at, before.len() + at + needle.len()) =~= hay.subrange(
            at,
            at + needle.len(),
        ));
        lemma_occurs(all, needle, before.len() + at);
    }
}

/// Each of some texts is in them put one after another.
proof fn lemma_in_a_row(parts: Seq<Seq<char>>, i: int)
    requires
        0 <= i < parts.len(),
    ensures
        occurs(in_a_row(parts), parts[i]),
    decreases parts.len(),
{
    let head = in_a_row(parts.drop_last());
    let last = parts.last();
    if i == parts.len() - 1 {
        assert((head + last).subrange(head.len() as int, (head.len() + last.len()) as int) =~= last);
        lemma_occurs(head + last, last, head.len() as int);
    } else {
        lemma_in_a_row(parts.drop_last(), i);
        lemma_occurs_more(seq![], head, last, parts[i]);
        assert(seq![] + head + last =~= head + last);
    }
}

/// An anchor is in the text or among those missing from it.
proof fn lemma_missing(anchors: Seq<AnchorView>, text: Seq<char>, i: int)
    requires
        0 <= i < anchors.len(),
        !occurs(text, anchors[i].label),
    ensures
        missing_from(anchors, text).contains(anchors[i]),
    decreases anchors.len(),
{
    let rest = missing_from(anchors.drop_last(), text);
    if i == anchors.len() - 1 {
        let all = rest.push(anchors.last());
        assert(all[all.len() - 1] == anchors[i]);
    } else {
        lemma_missing(anchors.drop_last(), text, i);
        let k = choose|k: int| 0 <= k < rest.len() && rest[k] == anchors[i];
        assert(missing_from(anchors, text)[k] == anchors[i]);
    }
}

/// A rewrite that has to keep the anchors keeps every one of them: each label
/// of the block is in what is written.
pub proof fn keep_keeps_every_anchor(
    block: SourceBlock,
    given: Seq<char>,
    disk: Seq<char>,
    new_text: Seq<char>,
    i: int,
)
    requires
        refusal(block, given, disk, new_text, AnchorPolicy::Keep) is None,
        0 <= i < block.anchors@.len(),
    ensures
        occurs(
            replacement(anchor_views(block.anchors@), new_text, AnchorPolicy::Keep),
            block.anchors@[i].label@,
        ),
{
    let anchors = anchor_views(block.anchors@);
    assert(anchors[i].label == block.anchors@[i].label@);
    if !occurs(new_text, anchors[i].label) {
        lemma_missing(anchors, new_text, i);
    }
}

/// A rewrite that puts missing anchors back loses none of them.
pub proof fn reattach_loses_no_anchor(anchors: Seq<AnchorView>, new_text: Seq<char>, i: int)
    requires
        0 <= i < anchors.len(),
    ensures
        occurs(replacement(anchors, new_text, AnchorPolicy::Reattach), anchors[i].label),
{
    let missing = missing_from(anchors, new_text);
    let row = in_a_row(labels_of(missing));
    if occurs(new_text, anchors[i].label) {
        lemma_occurs_more(row, new_text, seq![], anchors[i].label);
        assert(row + new_text + seq![] =~= row + new_text);
    } else {
        lemma_missing(anchors, new_text, i);
        let k = choose|k: int| 0 <= k < missing.len() && missing[k] == anchors[i];
        lemma_in_a_row(labels_of(missing), k);
        assert(labels_of(missing)[k] == anchors[i].label);
        lemma_occurs_more(seq![], row, new_text, anchors[i].label);
        assert(seq![] + row + new_text =~= row + new_text);
    }
}

/// A rewrite that may drop anchors reports every one it dropped.
pub proof fn drop_reports_every_anchor(anchors: Seq<AnchorView>, new_text: Seq<char>, i: int)
    requires
        0 <= i < anchors.len(),
    ensures
        occurs(replacement(anchors, new_text, AnchorPolicy::Drop), anchors[i].label)
            || references_of(missing_from(anchors, new_text)).contains(anchors[i].reference),
{
    if !occurs(new_text, anchors[i].label) {
        lemma_missing(anchors, new_text, i);
        let missing = missing_from(anchors, new_text);
        let k = choose|k: int| 0 <= k < missing.len() && missing[k] == anchors[i];
        assert(references_of(missing)[k] == anchors[i].reference);
    }
}

/// A rewrite that is not refused invents no anchor: every one it writes is one
/// the block had.
pub proof fn no_anchor_is_invented(
    block: SourceBlock,
    given: Seq<char>,
    disk: Seq<char>,
    new_text: Seq<char>,
    policy: AnchorPolicy,
    i: int,
)
    requires
        refusal(block, given, disk, new_text, policy) is None,
        0 <= i < written_anchors(new_text).len(),
    ensures
        labels_of(anchor_views(block.anchors@)).contains(written_anchors(new_text)[i]),
{
    lemma_first_unknown(written_anchors(new_text), labels_of(anchor_views(block.anchors@)), i);
}

/// With no unknown label found, each is known.
proof fn lemma_first_unknown(labels: Seq<Seq<char>>, known: Seq<Seq<char>>, i: int)
    requires
        first_unknown(labels, known) is None,
        0 <= i < labels.len(),
    ensures
        known.contains(labels[i]),
    decreases labels.len(),
{
    if i > 0 {
        lemma_first_unknown(labels.skip(1), known, i - 1);
        assert(labels.skip(1)[i - 1] == labels[i]);
    }
}

/// A rewrite leaves the rest of the file alone: what stood before the block
/// still does, and so does what stood after it.
pub proof fn rewrite_leaves_the_rest(disk: Seq<u8>, start: int, end: int, written: Seq<u8>)
    requires
        0 <= start <= end <= disk.len(),
    ensures
        ({
            let out = spliced(disk, start, end, written);
            &&& out.take(start) == disk.take(start)
            &&& out.skip(start + written.len()) == disk.skip(end)
            &&& out.subrange(start, start + written.len()) == written
        }),
{
    let out = spliced(disk, start, end, written);
    assert(out.take(start) =~= disk.take(start));
    assert(out.skip(start + written.len()) =~= disk.skip(end));
    assert(out.subrange(start, start + written.len()) =~= written);
}

// ----------------------------------------------------------- generated files

/// Why an edit of a file that says it is generated is refused.
pub open spec fn generated_refusal(path: Seq<char>, said: Seq<char>) -> Seq<char> {
    path + " is generated — it says so: \""@ + said
        + "\". An edit here lasts until whatever generates it runs again; fix that instead, or pass force to edit it anyway."@
}

/// Whether an edit of a file is refused for being undone by the next run of
/// whatever generates it. `text` is what the file says, if it can be read.
pub fn refuse_generated(path: &str, text: Option<&str>, force: bool) -> (r: Option<String>)
    ensures
        opt_text(r) == match text {
            Some(text) if !force => match declaration(text@) {
                Some(said) => Some(generated_refusal(path@, said)),
                None => None,
            },
            _ => None,
        },
{
    if force {
        return None;
    }
    match text {
        None => None,
        Some(text) => match generated_note(text) {
            None => None,
            Some(said) => {
                let mut why: String = path.to_owned();
                why.append(" is generated — it says so: \"");
                why.append(said.as_str());
                why.append(
                    "\". An edit here lasts until whatever generates it runs again; fix that instead, or pass force to edit it anyway.",
                );
                Some(why)
            },
        },
    }
}

// ------------------------------------------------------- what a rewrite has to meet

/// A rewrite of the block that was read, in a file that has not changed, that holds every label
/// of the block and no other, is not refused.
pub proof fn an_honest_rewrite_is_taken(
    block: SourceBlock,
    disk: Seq<char>,
    new_text: Seq<char>,
    policy: AnchorPolicy,
)
    requires
        get_part(disk, block.range.0 as int, block.range.1 as int) == Some(encode_utf8(block.text@)),
        forall|i: int|
            0 <= i < written_anchors(new_text).len() ==> labels_of(anchor_views(block.anchors@)).contains(
                #[trigger] written_anchors(new_text)[i],
            ),
        policy == AnchorPolicy::Keep ==> forall|i: int|
            0 <= i < block.anchors@.len() ==> occurs(new_text, (#[trigger] block.anchors@[i]).label@),
    ensures
        refusal(block, block.block_id@, disk, new_text, policy) is None,
{
    let anchors = anchor_views(block.anchors@);
    lemma_all_known(written_anchors(new_text), labels_of(anchors));
    if policy == AnchorPolicy::Keep {
        assert forall|i: int| 0 <= i < anchors.len() implies occurs(
            new_text,
            (#[trigger] anchors[i]).label,
        ) by {
            assert(occurs(new_text, block.anchors@[i].label@));
        }
        lemma_none_missing(anchors, new_text);
    }
}

/// Where all labels are known none is unknown.
proof fn lemma_all_known(labels: Seq<Seq<char>>, known: Seq<Seq<char>>)
    requires
        forall|i: int| 0 <= i < labels.len() ==> known.contains(#[trigger] labels[i]),
    ensures
        first_unknown(labels, known) is None,
    decreases labels.len(),
{
    if labels.len() > 0 {
        assert(known.contains(labels[0]));
        let rest = labels.skip(1);
        assert forall|i: int| 0 <= i < rest.len() implies known.contains(#[trigger] rest[i]) by {
            assert(rest[i] == labels[i + 1]);
        }
        lemma_all_known(rest, known);
    }
}

/// Where every label occurs none is missing.
proof fn lemma_none_missing(anchors: Seq<AnchorView>, text: Seq<char>)
    requires
        forall|i: int| 0 <= i < anchors.len() ==> occurs(text, (#[trigger] anchors[i]).label),
    ensures
        missing_from(anchors, text).len() == 0,
    decreases anchors.len(),
{
    if anchors.len() > 0 {
        assert(occurs(text, anchors[anchors.len() - 1].label));
        lemma_none_missing(anchors.drop_last(), text);
    }
}

/// A rewrite is refused when the block is not the one that was read, or the file has changed
/// there, whatever the rewrite says.
pub proof fn a_stale_rewrite_is_refused(
    block: SourceBlock,
    given: Seq<char>,
    disk: Seq<char>,
    new_text: Seq<char>,
    policy: AnchorPolicy,
)
    requires
        block.block_id@ != given || get_part(disk, block.range.0 as int, block.range.1 as int)
            != Some(encode_utf8(block.text@)),
    ensures
        refusal(block, given, disk, new_text, policy) is Some,
{
}

/// A label that a text writes out is seen in it.
pub proof fn a_written_label_is_seen(before: Seq<char>, name: Seq<char>, after: Seq<char>)
    requires
        !before.contains('<'),
        !name.contains('>'),
    ensures
        written_anchors(before + ("<anno."@ + name + seq!['>']) + after) == seq![
            "<anno."@ + name + seq!['>'],
        ] + written_anchors(after),
{
    reveal_strlit("<anno.");
    let opening = "<anno."@;
    let label = opening + name + seq!['>'];
    let text = before + label + after;
    let n = before.len() as int;
    assert forall|i: int| 0 <= i < n implies !stands_at(text, opening, i) by {
        if stands_at(text, opening, i) {
            assert(text.subrange(i, i + 6)[0] == opening[0]);
            assert(before[i] == '<');
        }
    }
    lemma_find_from_skip(text, opening, 0, n);
    assert(text.subrange(n, n + 6) =~= opening);
    assert(stands_at(text, opening, n));
    let rest = text.skip(n);
    let m = label.len() - 1;
    assert forall|k: int| 0 <= k < m implies rest[k] != '>' by {
        if k < 6 {
            assert(rest[k] == opening[k]);
        } else {
            assert(rest[k] == name[k - 6]);
        }
    }
    lemma_find_one(rest, '>', m);
    assert(rest.take(m + 1) =~= label);
    assert(rest.skip(m + 1) =~= after);
}

/// A block's labels are those that lie in it whole, each told from the start of the block, with
/// the annotations that point at it.
pub proof fn a_label_inside_a_block_is_its(
    text: Seq<char>,
    found: Seq<SourceAnchor>,
    mentions: Seq<Mention>,
    start: int,
    end: int,
    k: int,
)
    requires
        0 <= k < found.len(),
    ensures
        start <= found[k].start && found[k].end <= end ==> exists|i: int|
            0 <= i < anchors_inside(text, found, mentions, start, end).len() && (
            #[trigger] anchors_inside(text, found, mentions, start, end)[i]).reference
                == found[k].name@ && anchors_inside(text, found, mentions, start, end)[i].at + start
                == found[k].start && anchors_inside(text, found, mentions, start, end)[i].annotations
                == pointing_at(mentions, found[k].name@),
    decreases found.len(),
{
    let all = anchors_inside(text, found, mentions, start, end);
    let before = found.drop_last();
    let rest = anchors_inside(text, before, mentions, start, end);
    if start <= found[k].start && found[k].end <= end {
        if k == found.len() - 1 {
            assert(all[rest.len() as int].reference == found[k].name@);
        } else {
            a_label_inside_a_block_is_its(text, before, mentions, start, end, k);
            let i = choose|i: int|
                0 <= i < rest.len() && (#[trigger] rest[i]).reference == before[k].name@ && rest[i].at
                    + start == before[k].start && rest[i].annotations == pointing_at(
                    mentions,
                    before[k].name@,
                );
            assert(all[i] == rest[i]);
        }
    }
}

/// What is told as a label of a block lies in the block.
pub proof fn no_label_outside_is_told(
    text: Seq<char>,
    found: Seq<SourceAnchor>,
    mentions: Seq<Mention>,
    start: int,
    end: int,
    i: int,
)
    requires
        0 <= i < anchors_inside(text, found, mentions, start, end).len(),
    ensures
        exists|k: int|
            0 <= k < found.len() && start <= (#[trigger] found[k]).start && found[k].end <= end
                && found[k].name@ == anchors_inside(text, found, mentions, start, end)[i].reference,
    decreases found.len(),
{
    let all = anchors_inside(text, found, mentions, start, end);
    let before = found.drop_last();
    let rest = anchors_inside(text, before, mentions, start, end);
    if i < rest.len() {
        no_label_outside_is_told(text, before, mentions, start, end, i);
        let k = choose|k: int|
            0 <= k < before.len() && start <= (#[trigger] before[k]).start && before[k].end <= end
                && before[k].name@ == rest[i].reference;
        assert(found[k] == before[k]);
    } else {
        assert(found[found.len() - 1].name@ == all[i].reference);
    }
}

/// The annotations told of a label are those that name it.
pub proof fn who_names_a_label_points_at_it(mentions: Seq<Mention>, label: Seq<char>, uuid: Seq<char>)
    ensures
        pointing_at(mentions, label).contains(uuid) <==> exists|i: int|
            0 <= i < mentions.len() && (#[trigger] mentions[i]).uuid@ == uuid && texts(
                mentions[i].labels@,
            ).contains(label),
    decreases mentions.len(),
{
    if mentions.len() > 0 {
        let before = mentions.drop_last();
        let rest = pointing_at(before, label);
        let all = pointing_at(mentions, label);
        let n = mentions.len() - 1;
        who_names_a_label_points_at_it(before, label, uuid);
        if all.contains(uuid) {
            let k = all.index_of(uuid);
            if k < rest.len() {
                assert(rest[k] == uuid);
                let i = choose|i: int|
                    0 <= i < before.len() && (#[trigger] before[i]).uuid@ == uuid && texts(
                        before[i].labels@,
                    ).contains(label);
                assert(mentions[i] == before[i]);
            } else {
                assert(mentions[n].uuid@ == uuid);
            }
        }
        if exists|i: int|
            0 <= i < mentions.len() && (#[trigger] mentions[i]).uuid@ == uuid && texts(
                mentions[i].labels@,
            ).contains(label) {
            let i = choose|i: int|
                0 <= i < mentions.len() && (#[trigger] mentions[i]).uuid@ == uuid && texts(
                    mentions[i].labels@,
                ).contains(label);
            if i < n {
                assert(before[i] == mentions[i]);
                let k = rest.index_of(uuid);
                assert(all[k] == uuid);
            } else {
                assert(all[rest.len() as int] == uuid);
            }
        }
    }
}

/// An annotation is found by the first of its labels, when it has any.
pub proof fn an_annotation_is_found_by_its_first_label(mentions: Seq<Mention>, k: int)
    requires
        0 <= k < mentions.len(),
        forall|i: int| 0 <= i < k ==> (#[trigger] mentions[i]).uuid@ != mentions[k].uuid@,
    ensures
        mentions[k].labels@.len() > 0 ==> label_of(mentions, mentions[k].uuid@) == Ok::<_, Seq<char>>(
            mentions[k].labels@[0]@,
        ),
        mentions[k].labels@.len() == 0 ==> label_of(mentions, mentions[k].uuid@) is Err,
    decreases mentions.len(),
{
    if k > 0 {
        assert(mentions[0].uuid@ != mentions[k].uuid@);
        let rest = mentions.skip(1);
        assert forall|i: int| 0 <= i < k - 1 implies (#[trigger] rest[i]).uuid@ != rest[k - 1].uuid@ by {
            assert(rest[i] == mentions[i + 1]);
        }
        an_annotation_is_found_by_its_first_label(rest, k - 1);
    }
}

} // verus!

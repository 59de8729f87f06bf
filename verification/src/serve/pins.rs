//! Where the annotations land on a rendered document, and what the drawings
//! looked like when they did.

use vstd::prelude::*;
use vstd::string::*;

use crate::json::{json_v, Json, JsonV};
use crate::num::{decimal, decimal_of};
use crate::paths::{join_path, path_join};
use crate::render::markup::{found_view, Drawing, FramedDrawing};
use crate::serve::store::{
    is_graphical, missing_annotation, no_annotation, place_of, Annotation, AnnotationV, Capture,
    CaptureV, Reply, ReplyV, Scribble, Sidecar,
};
use crate::text::{
    chars_of, copy_texts, cut, is_alnum, is_ascii_alphanumeric, is_ascii_hexdigit, is_hex,
    lemma_last_there, opt_text, rfind, rfind_in, same, stands_at, string_of,
};

verus! {

// -------------------------------------------------------------------- the pins

/// One annotation, as a page needs it: what it says, and where to draw it.
#[derive(Debug)]
pub struct HtmlPin {
    /// What kind of remark it is.
    pub kind: String,
    /// The unique id.
    pub uuid: String,
    /// The display letter.
    pub letter: String,
    /// The author.
    pub author: String,
    /// The message.
    pub content: String,
    /// When it was made.
    pub time: String,
    /// Whether somebody is working on it.
    pub claimed: bool,
    /// Whether it is done.
    pub resolved: bool,
    /// When it last changed.
    pub mtime: String,
    /// The discussion.
    pub discussion: Vec<Reply>,
    /// The colour it was made in.
    pub color: String,
    /// Where to draw it on the rendering the page is showing, or nothing when
    /// its anchor is no longer in the document.
    pub location: Option<Json>,
    /// What was there when the annotation was made.
    pub snapshot: Option<String>,
}

/// One annotation, as a page needs it.
pub struct PinV {
    pub kind: Seq<char>,
    pub uuid: Seq<char>,
    pub letter: Seq<char>,
    pub author: Seq<char>,
    pub content: Seq<char>,
    pub time: Seq<char>,
    pub claimed: bool,
    pub resolved: bool,
    pub mtime: Seq<char>,
    pub discussion: Seq<ReplyV>,
    pub color: Seq<char>,
    pub location: Option<JsonV>,
    pub snapshot: Option<Seq<char>>,
}

/// A place, where there is one.
pub open spec fn opt_json(j: Option<Json>) -> Option<JsonV> {
    match j {
        Some(j) => Some(json_v(j)),
        None => None,
    }
}

impl View for HtmlPin {
    type V = PinV;

    open spec fn view(&self) -> PinV {
        PinV {
            kind: self.kind@,
            uuid: self.uuid@,
            letter: self.letter@,
            author: self.author@,
            content: self.content@,
            time: self.time@,
            claimed: self.claimed,
            resolved: self.resolved,
            mtime: self.mtime@,
            discussion: self.discussion@.map_values(|r: Reply| r@),
            color: self.color@,
            location: opt_json(self.location),
            snapshot: opt_text(self.snapshot),
        }
    }
}

/// The pin of an annotation that is drawn at a place.
pub open spec fn pin_of(a: AnnotationV, location: Option<JsonV>) -> PinV {
    PinV {
        kind: a.kind,
        uuid: a.uuid,
        letter: a.letter,
        author: a.author,
        content: a.content,
        time: a.time,
        claimed: a.claimed,
        resolved: a.resolved,
        mtime: a.mtime,
        discussion: a.discussion,
        color: a.color,
        location,
        snapshot: a.snapshot,
    }
}

impl Scribble {
    /// The same drawing again.
    pub fn copy(&self) -> (r: Self)
        ensures
            r@ == self@,
    {
        Scribble {
            id: self.id.clone(),
            capture: self.capture.clone(),
            shapes: copy_texts(&self.shapes),
        }
    }
}

impl Reply {
    /// The same reply again.
    pub fn copy(&self) -> (r: Self)
        ensures
            r@ == self@,
    {
        Reply {
            author: self.author.clone(),
            time: self.time.clone(),
            content: self.content.clone(),
            scribble: match &self.scribble {
                Some(s) => Some(s.copy()),
                None => None,
            },
        }
    }
}

/// A discussion again.
fn copy_discussion(list: &Vec<Reply>) -> (r: Vec<Reply>)
    ensures
        r@.map_values(|r: Reply| r@) == list@.map_values(|r: Reply| r@),
{
    let ghost all = list@.map_values(|r: Reply| r@);
    let mut out: Vec<Reply> = Vec::new();
    let mut i: usize = 0;
    while i < list.len()
        invariant
            i <= list@.len(),
            all == list@.map_values(|r: Reply| r@),
            out@.map_values(|r: Reply| r@) == all.take(i as int),
        decreases list@.len() - i,
    {
        let ghost before = out@.map_values(|r: Reply| r@);
        let next: Reply = list[i].copy();
        let ghost v = next@;
        out.push(next);
        assert(out@.map_values(|r: Reply| r@) =~= before.push(v));
        assert(out@.map_values(|r: Reply| r@) =~= all.take(i + 1));
        i = i + 1;
    }
    assert(all.take(i as int) =~= all);
    out
}

/// The pin of an annotation that is drawn at a place.
pub fn pin_for(rec: &Annotation, location: Option<Json>) -> (r: HtmlPin)
    ensures
        r@ == pin_of(rec@, opt_json(location)),
{
    HtmlPin {
        kind: rec.kind.clone(),
        uuid: rec.uuid.clone(),
        letter: rec.letter.clone(),
        author: rec.author.clone(),
        content: rec.content.clone(),
        time: rec.time.clone(),
        claimed: rec.claimed,
        resolved: rec.resolved,
        mtime: rec.mtime.clone(),
        discussion: copy_discussion(&rec.discussion),
        color: rec.color.clone(),
        location,
        snapshot: match &rec.snapshot {
            Some(s) => Some(s.clone()),
            None => None,
        },
    }
}

/// Every annotation of a document, placed on the rendering a page is showing.
/// `places` says where each is drawn; one that is not said is drawn nowhere.
pub fn html_pins(sidecar: &Sidecar, places: Vec<Option<Json>>) -> (r: Vec<HtmlPin>)
    requires
        places@.len() == sidecar@.len(),
    ensures
        r@.len() == sidecar@.len(),
        forall|i: int|
            0 <= i < r@.len() ==> (#[trigger] r@[i])@ == pin_of(
                sidecar@[i],
                opt_json(places@[i]),
            ),
{
    let mut out: Vec<HtmlPin> = Vec::new();
    let mut i: usize = 0;
    while i < sidecar.annotations.len()
        invariant
            i <= sidecar.annotations@.len(),
            places@.len() == sidecar@.len(),
            out@.len() == i,
            forall|k: int|
                0 <= k < i ==> (#[trigger] out@[k])@ == pin_of(sidecar@[k], opt_json(places@[k])),
        decreases sidecar.annotations@.len() - i,
    {
        let place: Option<Json> = match &places[i] {
            Some(j) => Some(j.copy()),
            None => None,
        };
        let pin: HtmlPin = pin_for(&sidecar.annotations[i], place);
        assert(pin@ == pin_of(sidecar@[i as int], opt_json(places@[i as int])));
        out.push(pin);
        i = i + 1;
    }
    out
}

// ---------------------------------------------------------------- the drawings

/// How far behind a drawing an anchor may stand and still name it.
pub const SLACK: usize = 8;

/// Whether a drawing reaches an anchor: it begins before it, and ends no more
/// than a little before it.
pub open spec fn reaches(d: Drawing, at: int) -> bool {
    d.start <= at <= d.end + SLACK
}

/// How much source a drawing came from.
pub open spec fn spread(d: Drawing) -> int {
    if d.start <= d.end {
        d.end - d.start
    } else {
        0
    }
}

/// Which of some drawings an anchor names: of those that reach it the one that
/// came from the least source, and of two alike the first.
pub open spec fn named_drawing(list: Seq<Drawing>, at: int) -> Option<int>
    decreases list.len(),
{
    if list.len() == 0 {
        None
    } else {
        let last = list.last();
        let best = named_drawing(list.drop_last(), at);
        if reaches(last, at) && (match best {
            Some(k) => spread(last) < spread(list[k]),
            None => true,
        }) {
            Some(list.len() - 1)
        } else {
            best
        }
    }
}

proof fn lemma_named(list: Seq<Drawing>, at: int)
    ensures
        match named_drawing(list, at) {
            Some(k) => 0 <= k < list.len() && reaches(list[k], at) && forall|i: int|
                0 <= i < list.len() && reaches(#[trigger] list[i], at) ==> spread(list[k])
                    <= spread(list[i]),
            None => forall|i: int| 0 <= i < list.len() ==> !reaches(#[trigger] list[i], at),
        },
    decreases list.len(),
{
    if list.len() > 0 {
        let head = list.drop_last();
        lemma_named(head, at);
        assert forall|i: int| 0 <= i < list.len() - 1 implies #[trigger] list[i] == head[i] by {}
        if let Some(k) = named_drawing(head, at) {
            assert(list[k] == head[k]);
        }
    }
}

/// The drawing an anchor names is one that reaches it, and none that reaches it
/// came from less of the source: the drawing's own container rather than the
/// section it is in.
pub proof fn the_closest_drawing_is_named(list: Seq<Drawing>, at: int, i: int)
    requires
        0 <= i < list.len(),
        reaches(list[i], at),
    ensures
        named_drawing(list, at) matches Some(k) && 0 <= k < list.len() && reaches(list[k], at)
            && spread(list[k]) <= spread(list[i]),
{
    lemma_named(list, at);
}

/// The drawing an anchor names, if one of them is. An anchor for a drawing sits
/// just after it, so the range around it ends where the anchor begins rather
/// than containing it.
pub fn drawing_at(drawings: &[FramedDrawing], at: usize) -> (r: Option<&FramedDrawing>)
    ensures
        match named_drawing(found_view(drawings@), at as int) {
            Some(k) => r is Some && *r->Some_0 == drawings@[k],
            None => r is None,
        },
{
    let ghost list = found_view(drawings@);
    let mut best: Option<usize> = None;
    let mut i: usize = 0;
    assert(list.take(0) =~= seq![]);
    while i < drawings.len()
        invariant
            i <= drawings@.len(),
            list == found_view(drawings@),
            match best {
                Some(k) => k < i && named_drawing(list.take(i as int), at as int) == Some(k as int),
                None => named_drawing(list.take(i as int), at as int) is None,
            },
        decreases drawings@.len() - i,
    {
        let d: &FramedDrawing = &drawings[i];
        proof {
            assert(list.take(i + 1).drop_last() =~= list.take(i as int));
            assert(list.take(i + 1).last() == list[i as int]);
            assert(list[i as int] == d@);
        }
        let near: bool = d.range.start <= at && (at <= d.range.end || at - d.range.end <= SLACK);
        if near {
            let wide: usize = d.range.end.saturating_sub(d.range.start);
            match best {
                None => {
                    best = Some(i);
                },
                Some(k) => {
                    assert(list.take(i + 1)[k as int] == drawings@[k as int]@);
                    let held: usize = drawings[k].range.end.saturating_sub(
                        drawings[k].range.start,
                    );
                    if wide < held {
                        best = Some(i);
                    }
                },
            }
        }
        i = i + 1;
    }
    assert(list.take(i as int) =~= list);
    match best {
        Some(k) => Some(&drawings[k]),
        None => None,
    }
}

// ---------------------------------------------------------------- the captures

/// Whether a record should have a picture of a drawing added: it names a picture
/// and last saw another one. The captures are a history of how the picture
/// changed, not of how often the document was built.
pub open spec fn capture_due(a: AnnotationV, hash: Seq<char>) -> bool {
    is_graphical(a.location) && !(a.captures.len() > 0 && a.captures.last().hash == hash)
}

/// Whether a record should have a picture of a drawing added.
pub fn needs_capture(rec: &Annotation, hash: &str) -> (r: bool)
    ensures
        r == capture_due(rec@, hash@),
{
    if !rec.location.graphical() {
        return false;
    }
    let n: usize = rec.captures.len();
    if n == 0 {
        return true;
    }
    assert(rec@.captures.last() == rec.captures@[n - 1]@);
    !same(rec.captures[n - 1].hash.as_str(), hash)
}

/// Which drawing a record is a picture of, if any: `anchor` is where its first
/// label stands in the document.
pub open spec fn pictured(a: AnnotationV, anchor: Option<usize>, list: Seq<Drawing>) -> Option<int> {
    if is_graphical(a.location) && a.location.labels.len() > 0 && anchor is Some {
        named_drawing(list, anchor->Some_0 as int)
    } else {
        None
    }
}

/// The drawing a record is a picture of.
pub fn drawing_for<'a>(
    rec: &Annotation,
    anchor: Option<usize>,
    drawings: &'a [FramedDrawing],
) -> (r: Option<&'a FramedDrawing>)
    ensures
        match pictured(rec@, anchor, found_view(drawings@)) {
            Some(k) => r is Some && *r->Some_0 == drawings@[k],
            None => r is None,
        },
{
    if !rec.location.graphical() || rec.location.labels.len() == 0 {
        return None;
    }
    match anchor {
        Some(at) => drawing_at(drawings, at),
        None => None,
    }
}

/// A record with a picture of its drawing added.
pub open spec fn with_capture(
    a: AnnotationV,
    hash: Seq<char>,
    width: u32,
    height: u32,
    now: Seq<char>,
) -> AnnotationV {
    AnnotationV {
        captures: a.captures.push(
            CaptureV {
                id: Seq::<char>::empty(),
                time: now,
                fmt: "svg"@,
                hash,
                width,
                height,
                markup: None,
            },
        ),
        ..a
    }
}

impl Sidecar {
    /// Adds a picture of what an annotation's drawing looks like now.
    pub fn record_capture(&mut self, uuid: &str, hash: &str, width: u32, height: u32, now: &str) -> (r:
        Result<(), String>)
        ensures
            match place_of(old(self)@, uuid@) {
                Some(at) => r is Ok && final(self)@ == old(self)@.update(
                    at,
                    with_capture(old(self)@[at], hash@, width, height, now@),
                ),
                None => r is Err && r->Err_0@ == no_annotation(uuid@) && final(self)@ == old(self)@,
            },
    {
        let at: usize = match self.position(uuid) {
            Some(at) => at,
            None => {
                return Err(missing_annotation(uuid));
            },
        };
        let ghost all = self@;
        let mut record: Annotation = self.annotations.remove(at);
        let ghost before = record@;
        assert(before == all[at as int]);
        let c: Capture = Capture {
            id: String::new(),
            time: now.to_string(),
            fmt: "svg".to_string(),
            hash: hash.to_string(),
            width,
            height,
            markup: None,
        };
        let ghost v = c@;
        record.captures.push(c);
        assert(record@.captures =~= before.captures.push(v));
        assert(v.id =~= Seq::<char>::empty());
        let ghost new = record@;
        self.annotations.insert(at, record);
        assert(self@ =~= all.update(at as int, new));
        Ok(())
    }
}

/// A capture that has just been added is not due again.
pub proof fn a_capture_is_taken_once(
    a: AnnotationV,
    hash: Seq<char>,
    width: u32,
    height: u32,
    now: Seq<char>,
)
    ensures
        !capture_due(with_capture(a, hash, width, height, now), hash),
{
    assert(with_capture(a, hash, width, height, now).captures.last().hash == hash);
}

// ------------------------------------------------------------------ the files

/// Whether every character of a text is one of some.
pub open spec fn made_of(text: Seq<char>, ok: spec_fn(char) -> bool) -> bool {
    forall|i: int| 0 <= i < text.len() ==> ok(#[trigger] text[i])
}

/// Hexadecimal digits.
pub open spec fn hexdigits() -> spec_fn(char) -> bool {
    |c: char| is_hex(c)
}

/// Letters and digits of ASCII.
pub open spec fn alphanumerics() -> spec_fn(char) -> bool {
    |c: char| is_alnum(c)
}

/// Where a capture is kept: under its hash and its format, which are what they
/// say they are.
pub open spec fn capture_path(dir: Seq<char>, hash: Seq<char>, fmt: Seq<char>) -> Option<Seq<char>> {
    if hash.len() > 0 && made_of(hash, hexdigits()) && fmt.len() > 0 && made_of(fmt, alphanumerics()) {
        Some(path_join(dir, hash + "."@ + fmt))
    } else {
        None
    }
}

/// Where a capture is kept, if there can be one of that name. The format is part
/// of the name: a capture says what it is, and that is how to read it.
pub fn path_of(dir: &str, hash: &str, fmt: &str) -> (r: Option<String>)
    ensures
        opt_text(r) == capture_path(dir@, hash@, fmt@),
{
    let h: Vec<char> = chars_of(hash);
    let f: Vec<char> = chars_of(fmt);
    if h.len() == 0 || f.len() == 0 {
        return None;
    }
    let mut i: usize = 0;
    while i < h.len()
        invariant
            i <= h@.len(),
            h@ == hash@,
            forall|k: int| 0 <= k < i ==> is_hex(#[trigger] h@[k]),
        decreases h@.len() - i,
    {
        if !is_ascii_hexdigit(h[i]) {
            assert(!hexdigits()(hash@[i as int]));
            return None;
        }
        i = i + 1;
    }
    let mut j: usize = 0;
    while j < f.len()
        invariant
            j <= f@.len(),
            f@ == fmt@,
            forall|k: int| 0 <= k < j ==> is_alnum(#[trigger] f@[k]),
        decreases f@.len() - j,
    {
        if !is_ascii_alphanumeric(f[j]) {
            assert(!alphanumerics()(fmt@[j as int]));
            return None;
        }
        j = j + 1;
    }
    let mut name: String = hash.to_string();
    name.append(".");
    name.append(fmt);
    Some(join_path(dir, name.as_str()))
}

/// A drawing with marks on top of it: just before it ends.
pub open spec fn marked(svg: Seq<char>, markup: Seq<char>) -> Seq<char> {
    match rfind(svg, "</svg>"@) {
        Some(at) => svg.take(at) + markup + svg.skip(at),
        None => svg,
    }
}

/// Puts the reader's own marks on top of a capture. They are written in the
/// capture's own coordinates, so they go in just before the drawing ends, which
/// is what being on top means in SVG.
pub fn with_markup(svg: &str, markup: &str) -> (r: String)
    ensures
        r@ == marked(svg@, markup@),
{
    let chars: Vec<char> = chars_of(svg);
    let needle: Vec<char> = chars_of("</svg>");
    match rfind_in(chars.as_slice(), needle.as_slice()) {
        Some(at) => {
            let (head, tail): (&[char], &[char]) = cut(chars.as_slice(), at, 0);
            let mut out: String = string_of(head);
            out.append(markup);
            out.append(string_of(tail).as_str());
            assert(out@ =~= marked(svg@, markup@));
            out
        },
        None => svg.to_string(),
    }
}

/// The drawing that holds marks for a picture of a size, of at least one pixel
/// each way.
pub open spec fn marks_drawing(markup: Seq<char>, width: nat, height: nat) -> Seq<char> {
    let w = decimal(if width == 0 { 1 } else { width });
    let h = decimal(if height == 0 { 1 } else { height });
    "<svg xmlns=\"http://www.w3.org/2000/svg\" width=\""@ + w + "\" height=\""@ + h
        + "\" viewBox=\"0 0 "@ + w + " "@ + h + "\">"@ + markup + "</svg>"@
}

/// The drawing that holds marks for a picture of a size. A capture the page
/// rasterised is no drawing, so its marks cannot be put inside it: they are
/// drawn over it, at the size the picture was taken at.
pub fn marks_over(markup: &str, width: u32, height: u32) -> (r: String)
    ensures
        r@ == marks_drawing(markup@, width as nat, height as nat),
{
    let w: String = decimal_of(if width == 0 {
        1
    } else {
        width as u64
    });
    let h: String = decimal_of(if height == 0 {
        1
    } else {
        height as u64
    });
    let mut out: String = "<svg xmlns=\"http://www.w3.org/2000/svg\" width=\"".to_string();
    out.append(w.as_str());
    out.append("\" height=\"");
    out.append(h.as_str());
    out.append("\" viewBox=\"0 0 ");
    out.append(w.as_str());
    out.append(" ");
    out.append(h.as_str());
    out.append("\">");
    out.append(markup);
    out.append("</svg>");
    out
}

/// What is drawn on a picture goes in before its end, over all else, and the picture stays as it
/// was.
pub proof fn marks_go_in_before_the_end(before: Seq<char>, markup: Seq<char>, after: Seq<char>)
    requires
        !after.contains('<'),
    ensures
        marked(before + "</svg>"@ + after, markup) == before + markup + "</svg>"@ + after,
{
    reveal_strlit("</svg>");
    let closing = "</svg>"@;
    let svg = before + closing + after;
    let n = before.len() as int;
    assert(svg.subrange(n, n + 6) =~= closing);
    assert(stands_at(svg, closing, n));
    assert forall|i: int| n < i implies !stands_at(svg, closing, i) by {
        if stands_at(svg, closing, i) {
            assert(svg.subrange(i, i + 6)[0] == '<');
            if i < n + 6 {
                assert(svg[i] == closing[i - n]);
            } else {
                assert(after[i - n - 6] == '<');
            }
        }
    }
    lemma_last_there(svg, closing, n);
    assert(svg.take(n) =~= before);
    assert(svg.skip(n) =~= closing + after);
    assert(before + markup + (closing + after) =~= before + markup + closing + after);
}

/// A picture is kept under its hash and its format, and nothing else can name one.
pub proof fn only_a_hash_names_a_picture(dir: Seq<char>, hash: Seq<char>, fmt: Seq<char>, i: int)
    ensures
        0 <= i < hash.len() && (hash[i] == '/' || hash[i] == '.') ==> capture_path(dir, hash, fmt) is None,
        0 <= i < fmt.len() && (fmt[i] == '/' || fmt[i] == '.') ==> capture_path(dir, hash, fmt) is None,
        hash.len() == 0 || fmt.len() == 0 ==> capture_path(dir, hash, fmt) is None,
        capture_path(dir, hash, fmt) matches Some(path) ==> path == path_join(dir, hash + "."@ + fmt),
{
    if 0 <= i < hash.len() && (hash[i] == '/' || hash[i] == '.') {
        assert(!hexdigits()(hash[i]));
    }
    if 0 <= i < fmt.len() && (fmt[i] == '/' || fmt[i] == '.') {
        assert(!alphanumerics()(fmt[i]));
    }
}

} // verus!

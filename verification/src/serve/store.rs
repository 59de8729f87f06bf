//! The annotations of a document, as a server keeps them: what each says, where
//! it points, and what is done to them.


use vstd::prelude::*;
use vstd::string::*;
use vstd::utf8::*;

use crate::digest::{hash_of, short_hash};
use crate::letters::{highest, letter_at, next_letter};
use crate::num::{fnv, fnv_continues, fnv_more, hex, push_hex, FNV_OFFSET};
use crate::serve::blocks::{le_bytes, to_le_bytes};
use crate::text::{
    empty, find, is_empty, lemma_find_one, opt_str, opt_text, same, texts, trim, trimmed,
};

verus! {

// ----------------------------------------------------------------- the records

/// Where an annotation points: what kind of thing it is about, and the labels
/// of the anchors that say which.
#[derive(Debug)]
pub struct Location {
    /// What kind of thing: `document` for the document as a whole.
    pub kind: String,
    /// The labels of the anchors, none for the document as a whole.
    pub labels: Vec<String>,
}

/// A picture of what an annotation pointed at.
#[derive(Debug)]
pub struct Capture {
    /// What a drawing on it calls it.
    pub id: String,
    /// When it was taken.
    pub time: String,
    /// What it is stored as.
    pub fmt: String,
    /// What it is stored under.
    pub hash: String,
    /// How wide it is on the page, in pixels.
    pub width: u32,
    /// How tall.
    pub height: u32,
    /// What the reader drew on top of it.
    pub markup: Option<String>,
}

/// What was drawn on a picture.
#[derive(Debug)]
pub struct Scribble {
    /// The name the page gave it.
    pub id: String,
    /// The picture it was drawn on.
    pub capture: String,
    /// The shapes, as the page wrote them.
    pub shapes: Vec<String>,
}

/// One reply in a discussion.
#[derive(Debug)]
pub struct Reply {
    /// Who said it.
    pub author: String,
    /// When.
    pub time: String,
    /// What.
    pub content: String,
    /// What was drawn while writing it.
    pub scribble: Option<Scribble>,
}

/// An annotation as a server holds it.
#[derive(Debug)]
pub struct Annotation {
    /// What tools and pages call it.
    pub uuid: String,
    /// What the reader sees on the page.
    pub letter: String,
    /// Where it points.
    pub location: Location,
    /// What was there when it was made.
    pub snapshot: Option<String>,
    /// What kind of remark it is.
    pub kind: String,
    /// The colour it was made in.
    pub color: String,
    /// Who made it.
    pub author: String,
    /// When.
    pub time: String,
    /// When it last changed.
    pub mtime: String,
    /// Whether somebody is working on it.
    pub claimed: bool,
    /// Whether it is done.
    pub resolved: bool,
    /// What it says.
    pub content: String,
    /// What was drawn while writing it.
    pub scribble: Option<Scribble>,
    /// What has been said about it.
    pub discussion: Vec<Reply>,
    /// What it looked like, oldest first.
    pub captures: Vec<Capture>,
}

/// A document's annotations.
#[derive(Debug)]
pub struct Sidecar {
    /// The annotations, in the order they were made.
    pub annotations: Vec<Annotation>,
}

/// Where an annotation points.
pub struct LocationV {
    pub kind: Seq<char>,
    pub labels: Seq<Seq<char>>,
}

impl View for Location {
    type V = LocationV;

    open spec fn view(&self) -> LocationV {
        LocationV { kind: self.kind@, labels: texts(self.labels@) }
    }
}

/// A picture of what an annotation pointed at.
pub struct CaptureV {
    pub id: Seq<char>,
    pub time: Seq<char>,
    pub fmt: Seq<char>,
    pub hash: Seq<char>,
    pub width: u32,
    pub height: u32,
    pub markup: Option<Seq<char>>,
}

impl View for Capture {
    type V = CaptureV;

    open spec fn view(&self) -> CaptureV {
        CaptureV {
            id: self.id@,
            time: self.time@,
            fmt: self.fmt@,
            hash: self.hash@,
            width: self.width,
            height: self.height,
            markup: opt_text(self.markup),
        }
    }
}

/// What was drawn on a picture.
pub struct ScribbleV {
    pub id: Seq<char>,
    pub capture: Seq<char>,
    pub shapes: Seq<Seq<char>>,
}

impl View for Scribble {
    type V = ScribbleV;

    open spec fn view(&self) -> ScribbleV {
        ScribbleV { id: self.id@, capture: self.capture@, shapes: texts(self.shapes@) }
    }
}

/// What was drawn, where anything was.
pub open spec fn opt_scribble(s: Option<Scribble>) -> Option<ScribbleV> {
    match s {
        Some(s) => Some(s@),
        None => None,
    }
}

/// One reply in a discussion.
pub struct ReplyV {
    pub author: Seq<char>,
    pub time: Seq<char>,
    pub content: Seq<char>,
    pub scribble: Option<ScribbleV>,
}

impl View for Reply {
    type V = ReplyV;

    open spec fn view(&self) -> ReplyV {
        ReplyV {
            author: self.author@,
            time: self.time@,
            content: self.content@,
            scribble: opt_scribble(self.scribble),
        }
    }
}

/// An annotation.
pub struct AnnotationV {
    pub uuid: Seq<char>,
    pub letter: Seq<char>,
    pub location: LocationV,
    pub snapshot: Option<Seq<char>>,
    pub kind: Seq<char>,
    pub color: Seq<char>,
    pub author: Seq<char>,
    pub time: Seq<char>,
    pub mtime: Seq<char>,
    pub claimed: bool,
    pub resolved: bool,
    pub content: Seq<char>,
    pub scribble: Option<ScribbleV>,
    pub discussion: Seq<ReplyV>,
    pub captures: Seq<CaptureV>,
}

impl View for Annotation {
    type V = AnnotationV;

    open spec fn view(&self) -> AnnotationV {
        AnnotationV {
            uuid: self.uuid@,
            letter: self.letter@,
            location: self.location@,
            snapshot: opt_text(self.snapshot),
            kind: self.kind@,
            color: self.color@,
            author: self.author@,
            time: self.time@,
            mtime: self.mtime@,
            claimed: self.claimed,
            resolved: self.resolved,
            content: self.content@,
            scribble: opt_scribble(self.scribble),
            discussion: self.discussion@.map_values(|r: Reply| r@),
            captures: self.captures@.map_values(|c: Capture| c@),
        }
    }
}

impl View for Sidecar {
    type V = Seq<AnnotationV>;

    open spec fn view(&self) -> Seq<AnnotationV> {
        self.annotations@.map_values(|a: Annotation| a@)
    }
}

/// The ids of some annotations.
pub open spec fn ids(list: Seq<AnnotationV>) -> Seq<Seq<char>> {
    list.map_values(|a: AnnotationV| a.uuid)
}

/// Which of some annotations has an id: the first that does.
pub open spec fn place_of(list: Seq<AnnotationV>, uuid: Seq<char>) -> Option<int> {
    find(ids(list), seq![uuid])
}

/// The labels that some annotations point at, in order.
pub open spec fn labels_used(list: Seq<AnnotationV>) -> Seq<Seq<char>>
    decreases list.len(),
{
    if list.len() == 0 {
        seq![]
    } else {
        labels_used(list.drop_last()) + list.last().location.labels
    }
}

/// What is said where there is no such annotation.
pub open spec fn no_annotation(uuid: Seq<char>) -> Seq<char> {
    "no annotation "@ + uuid
}

/// What is said where there is no such annotation.
pub fn missing_annotation(uuid: &str) -> (r: String)
    ensures
        r@ == no_annotation(uuid@),
{
    let mut out: String = "no annotation ".to_string();
    out.append(uuid);
    out
}

/// The location of an annotation about the document as a whole.
pub open spec fn about_document() -> LocationV {
    LocationV { kind: "document"@, labels: seq![] }
}

impl Location {
    /// The location of an annotation about the document as a whole.
    pub fn document() -> (r: Self)
        ensures
            r@ == about_document(),
    {
        let labels: Vec<String> = Vec::new();
        assert(texts(labels@) =~= seq![]);
        Location { kind: "document".to_string(), labels }
    }

    /// Whether it names a picture rather than text. Only these are captured:
    /// everything else is in the source already, where an agent can read it.
    pub fn graphical(&self) -> (r: bool)
        ensures
            r == is_graphical(self@),
    {
        same(self.kind.as_str(), "svg") || same(self.kind.as_str(), "math.block")
    }
}

/// Whether a location names a picture rather than text.
pub open spec fn is_graphical(l: LocationV) -> bool {
    l.kind == "svg"@ || l.kind == "math.block"@
}

// ------------------------------------------------------------------ the authors

/// The first of two names that is not blank, or else `someone`.
pub open spec fn chosen_author(named: Option<Seq<char>>, user: Option<Seq<char>>) -> Seq<char> {
    match named {
        Some(name) if trim(name).len() > 0 => name,
        _ => match user {
            Some(name) if trim(name).len() > 0 => name,
            _ => "someone"@,
        },
    }
}

/// Whether a name is nothing but white space.
fn blank(name: &str) -> (r: bool)
    ensures
        r == (trim(name@).len() == 0),
{
    is_empty(trimmed(name).as_str())
}

/// Who to record as the author of something written on this machine: who its
/// settings say, or else who is using it.
pub fn local_author(named: Option<&str>, user: Option<&str>) -> (r: String)
    ensures
        r@ == chosen_author(opt_str(named), opt_str(user)),
{
    if let Some(name) = named {
        if !blank(name) {
            return name.to_string();
        }
    }
    if let Some(name) = user {
        if !blank(name) {
            return name.to_string();
        }
    }
    "someone".to_string()
}

/// The author of a request: the one the server resolved, or this machine's.
pub open spec fn resolved_author(author: Option<Seq<char>>, local: Seq<char>) -> Seq<char> {
    match author {
        Some(name) if trim(name).len() > 0 => name,
        _ => local,
    }
}

/// The author of a request: the one the server resolved, or this machine's.
pub fn author_or_local(author: Option<&str>, local: &str) -> (r: String)
    ensures
        r@ == resolved_author(opt_str(author), local@),
{
    match author {
        Some(name) => if blank(name) {
            local.to_string()
        } else {
            name.to_string()
        },
        None => local.to_string(),
    }
}

/// A uuid for a new annotation: sixty-four bits of hex, from its text and the
/// time, in nanoseconds.
pub open spec fn uuid_of(seed: Seq<char>, now: u64) -> Seq<char> {
    hex(fnv(encode_utf8(seed) + le_bytes(now as nat, 8)) as nat, 16)
}

/// A uuid for a new annotation.
pub fn fresh_uuid(seed: &str, now: u64) -> (r: String)
    ensures
        r@ == uuid_of(seed@, now),
{
    let when: Vec<u8> = to_le_bytes(now);
    let a: u64 = fnv_more(FNV_OFFSET, seed.as_bytes());
    let b: u64 = fnv_more(a, when.as_slice());
    proof {
        fnv_continues(FNV_OFFSET, encode_utf8(seed@), when@);
    }
    let mut out: String = String::new();
    push_hex(&mut out, b, 16);
    assert(out@ =~= uuid_of(seed@, now));
    out
}

// ------------------------------------------------------------------- drawings

/// A picture a page took of what an annotation is about.
#[derive(Debug)]
pub struct NewPicture {
    /// `svg` or `png`.
    pub fmt: String,
    /// SVG text, or base64 for a PNG.
    pub data: String,
    /// How wide it is on the page, in pixels.
    pub width: u32,
    /// How tall.
    pub height: u32,
}

/// What the bytes of a base64 text are, or what is wrong with it.
pub uninterp spec fn base64_bytes(text: Seq<char>) -> Result<Seq<u8>, Seq<char>>;

/// `base64::engine::general_purpose::STANDARD.decode`: the bytes of a base64
/// text, or the decoder's own words about what is wrong with it.
#[verifier::external_body]
fn from_base64(text: &str) -> (r: Result<Vec<u8>, String>)
    ensures
        match r {
            Ok(bytes) => base64_bytes(text@) is Ok && base64_bytes(text@)->Ok_0 == bytes@,
            Err(e) => base64_bytes(text@) is Err && base64_bytes(text@)->Err_0 == e@,
        },
{
    let engine = base64::engine::general_purpose::STANDARD;
    base64::Engine::decode(&engine, text.as_bytes()).map_err(|err| err.to_string())
}

/// The bytes of a picture, of what its base64 holds where that is what it is.
pub open spec fn picture_of(
    fmt: Seq<char>,
    data: Seq<char>,
    decoded: Result<Seq<u8>, Seq<char>>,
) -> Result<Seq<u8>, Seq<char>> {
    if fmt == "svg"@ {
        Ok(encode_utf8(data))
    } else if fmt == "png"@ {
        match decoded {
            Ok(bytes) => Ok(bytes),
            Err(e) => Err("the picture is not base64: "@ + e),
        }
    } else {
        Err("a capture cannot be "@ + fmt)
    }
}

/// Bytes, or what is wrong.
pub open spec fn bytes_view(r: Result<Vec<u8>, String>) -> Result<Seq<u8>, Seq<char>> {
    match r {
        Ok(bytes) => Ok(bytes@),
        Err(e) => Err(e@),
    }
}

/// What is said of a picture that is not what it says.
pub fn check_decoded(decoded: Result<Vec<u8>, String>) -> (r: Result<Vec<u8>, String>)
    ensures
        bytes_view(r) == picture_of("png"@, seq![], bytes_view(decoded)),
{
    proof {
        reveal_strlit("png");
        reveal_strlit("svg");
        assert("png"@[0] != "svg"@[0]);
    }
    match decoded {
        Ok(bytes) => Ok(bytes),
        Err(e) => {
            let mut out: String = "the picture is not base64: ".to_string();
            out.append(e.as_str());
            Err(out)
        },
    }
}

/// The bytes of a picture a page took.
pub fn picture_bytes(picture: &NewPicture) -> (r: Result<Vec<u8>, String>)
    ensures
        bytes_view(r) == picture_of(picture.fmt@, picture.data@, base64_bytes(picture.data@)),
{
    proof {
        reveal_strlit("png");
        reveal_strlit("svg");
        assert("png"@[0] != "svg"@[0]);
    }
    if same(picture.fmt.as_str(), "svg") {
        let bytes: &[u8] = picture.data.as_str().as_bytes();
        let mut out: Vec<u8> = Vec::new();
        let mut i: usize = 0;
        while i < bytes.len()
            invariant
                i <= bytes@.len(),
                out@ == bytes@.take(i as int),
            decreases bytes@.len() - i,
        {
            out.push(bytes[i]);
            assert(out@ =~= bytes@.take(i + 1));
            i = i + 1;
        }
        assert(bytes@.take(i as int) =~= bytes@);
        Ok(out)
    } else if same(picture.fmt.as_str(), "png") {
        check_decoded(from_base64(picture.data.as_str()))
    } else {
        let mut out: String = "a capture cannot be ".to_string();
        out.append(picture.fmt.as_str());
        Err(out)
    }
}

/// Whether a capture is the same picture: the same bytes, and it says it is the
/// same size, since what is drawn on it is measured in that.
pub open spec fn same_picture(
    c: CaptureV,
    hash: Seq<char>,
    fmt: Seq<char>,
    width: u32,
    height: u32,
) -> bool {
    c.hash == hash && c.fmt == fmt && c.width == width && c.height == height
}

/// Which of some captures is the same picture, from one on.
pub open spec fn held_capture(
    list: Seq<CaptureV>,
    hash: Seq<char>,
    fmt: Seq<char>,
    width: u32,
    height: u32,
    from: int,
) -> Option<int>
    decreases list.len() - from,
{
    if from < 0 || from >= list.len() {
        None
    } else if same_picture(list[from], hash, fmt, width, height) {
        Some(from)
    } else {
        held_capture(list, hash, fmt, width, height, from + 1)
    }
}

/// The captures of a record after a picture came in, and which of them it is:
/// the same drawing scribbled on a second time is the same capture.
pub open spec fn with_picture(
    list: Seq<CaptureV>,
    hash: Seq<char>,
    fmt: Seq<char>,
    width: u32,
    height: u32,
    fresh: Seq<char>,
    now: Seq<char>,
) -> (Seq<CaptureV>, Seq<char>) {
    match held_capture(list, hash, fmt, width, height, 0) {
        Some(at) => (list, list[at].id),
        None => (
            list.push(CaptureV { id: fresh, time: now, fmt, hash, width, height, markup: None }),
            fresh,
        ),
    }
}

/// Files a drawing against the picture it was drawn on, and says which picture
/// that is. `fresh` is what a new picture is called.
pub fn keep_picture(
    captures: &mut Vec<Capture>,
    hash: &str,
    picture: &NewPicture,
    fresh: &str,
    now: &str,
) -> (r: String)
    ensures
        (final(captures)@.map_values(|c: Capture| c@), r@) == with_picture(
            old(captures)@.map_values(|c: Capture| c@),
            hash@,
            picture.fmt@,
            picture.width,
            picture.height,
            fresh@,
            now@,
        ),
{
    let ghost list = captures@.map_values(|c: Capture| c@);
    let n: usize = captures.len();
    let mut i: usize = 0;
    while i < n
        invariant
            i <= n,
            n == captures@.len(),
            *captures == *old(captures),
            list == captures@.map_values(|c: Capture| c@),
            held_capture(list, hash@, picture.fmt@, picture.width, picture.height, 0)
                == held_capture(
                list,
                hash@,
                picture.fmt@,
                picture.width,
                picture.height,
                i as int,
            ),
        decreases n - i,
    {
        assert(list[i as int] == captures@[i as int]@);
        if same(captures[i].hash.as_str(), hash) && same(
            captures[i].fmt.as_str(),
            picture.fmt.as_str(),
        ) && captures[i].width == picture.width && captures[i].height == picture.height {
            return captures[i].id.clone();
        }
        i = i + 1;
    }
    let c: Capture = Capture {
        id: fresh.to_string(),
        time: now.to_string(),
        fmt: picture.fmt.clone(),
        hash: hash.to_string(),
        width: picture.width,
        height: picture.height,
        markup: None,
    };
    let ghost v = c@;
    captures.push(c);
    assert(captures@.map_values(|c: Capture| c@) =~= list.push(v));
    fresh.to_string()
}

/// A drawing as it arrives from a page: the shapes, and the picture they were
/// drawn on.
#[derive(Debug)]
pub struct NewScribble {
    /// The name the page gave it.
    pub id: String,
    /// What was drawn, in the picture's coordinates, as the page wrote it.
    pub shapes: Vec<String>,
    /// The picture itself.
    pub picture: NewPicture,
}

/// A record and the scribble filed in it, or what is wrong with its picture.
/// `decoded` is what the picture's base64 holds.
pub open spec fn with_scribble(
    a: AnnotationV,
    new: NewScribble,
    decoded: Result<Seq<u8>, Seq<char>>,
    stored: bool,
    now_nanos: u64,
    now: Seq<char>,
) -> Result<(AnnotationV, ScribbleV), Seq<char>> {
    match picture_of(new.picture.fmt@, new.picture.data@, decoded) {
        Err(e) => Err(e),
        Ok(bytes) => if !stored {
            Err("cannot store the capture"@)
        } else {
            let kept = with_picture(
                a.captures,
                short_hash(bytes),
                new.picture.fmt@,
                new.picture.width,
                new.picture.height,
                uuid_of(short_hash(bytes), now_nanos),
                now,
            );
            Ok(
                (
                    AnnotationV { captures: kept.0, ..a },
                    ScribbleV { id: new.id@, capture: kept.1, shapes: texts(new.shapes@) },
                ),
            )
        },
    }
}

/// Files the picture a scribble was drawn on in a record, and gives the
/// scribble, filed against the capture it belongs to. `stored` says whether the
/// picture could be stored.
pub fn keep_scribble(
    record: &mut Annotation,
    new: NewScribble,
    stored: bool,
    now_nanos: u64,
    now: &str,
) -> (r: Result<Scribble, String>)
    ensures
        match with_scribble(
            old(record)@,
            new,
            base64_bytes(new.picture.data@),
            stored,
            now_nanos,
            now@,
        ) {
            Ok(kept) => r is Ok && r->Ok_0@ == kept.1 && final(record)@ == kept.0,
            Err(e) => r is Err && r->Err_0@ == e && *final(record) == *old(record),
        },
{
    let bytes: Vec<u8> = match picture_bytes(&new.picture) {
        Ok(bytes) => bytes,
        Err(e) => {
            return Err(e);
        },
    };
    if !stored {
        return Err("cannot store the capture".to_string());
    }
    let hash: String = hash_of(bytes.as_slice());
    let fresh: String = fresh_uuid(hash.as_str(), now_nanos);
    let capture: String = keep_picture(
        &mut record.captures,
        hash.as_str(),
        &new.picture,
        fresh.as_str(),
        now,
    );
    Ok(Scribble { id: new.id, capture, shapes: new.shapes })
}

/// A picture that is kept is one the record has.
pub proof fn a_kept_picture_is_there(
    list: Seq<CaptureV>,
    hash: Seq<char>,
    fmt: Seq<char>,
    width: u32,
    height: u32,
    fresh: Seq<char>,
    now: Seq<char>,
)
    ensures
        ({
            let kept = with_picture(list, hash, fmt, width, height, fresh, now);
            exists|i: int|
                0 <= i < kept.0.len() && same_picture(#[trigger] kept.0[i], hash, fmt, width, height)
                    && kept.0[i].id == kept.1
        }),
        with_picture(list, hash, fmt, width, height, fresh, now).0.take(list.len() as int) == list,
{
    let kept = with_picture(list, hash, fmt, width, height, fresh, now);
    lemma_held(list, hash, fmt, width, height, 0);
    match held_capture(list, hash, fmt, width, height, 0) {
        Some(at) => {
            assert(same_picture(kept.0[at], hash, fmt, width, height));
        },
        None => {
            assert(same_picture(kept.0[list.len() as int], hash, fmt, width, height));
        },
    }
    assert(kept.0.take(list.len() as int) =~= list);
}

/// A capture that is found is the same picture.
proof fn lemma_held(
    list: Seq<CaptureV>,
    hash: Seq<char>,
    fmt: Seq<char>,
    width: u32,
    height: u32,
    from: int,
)
    ensures
        held_capture(list, hash, fmt, width, height, from) matches Some(at) ==> 0 <= at < list.len()
            && same_picture(list[at], hash, fmt, width, height),
        held_capture(list, hash, fmt, width, height, from) is None && 0 <= from ==> forall|i: int|
            from <= i < list.len() ==> !same_picture(#[trigger] list[i], hash, fmt, width, height),
    decreases list.len() - from,
{
    if 0 <= from < list.len() && !same_picture(list[from], hash, fmt, width, height) {
        lemma_held(list, hash, fmt, width, height, from + 1);
    }
}

// ------------------------------------------------------------- making one

/// What a page asks for when somebody writes an annotation.
#[derive(Debug)]
pub struct AnnotateRequest {
    /// The comment text.
    pub text: String,
    /// What kind of remark it is.
    pub kind: Option<String>,
    /// The colour the page drew it in.
    pub color: Option<String>,
    /// What was there when the annotation was made.
    pub snapshot: Option<String>,
    /// Who to record as the author, as the server resolved it: a client that
    /// could name its own author could sign a colleague's name to a comment.
    pub author: Option<String>,
}

/// A new annotation: nobody is on it, and nothing has been said about it.
pub open spec fn new_annotation(
    text: Seq<char>,
    kind: Option<Seq<char>>,
    color: Option<Seq<char>>,
    snapshot: Option<Seq<char>>,
    author: Seq<char>,
    location: LocationV,
    now_nanos: u64,
    now: Seq<char>,
) -> AnnotationV {
    AnnotationV {
        uuid: uuid_of(text, now_nanos),
        letter: Seq::<char>::empty(),
        location,
        snapshot,
        kind: match kind {
            Some(kind) => kind,
            None => "comment"@,
        },
        color: match color {
            Some(color) => color,
            None => Seq::<char>::empty(),
        },
        author,
        time: now,
        mtime: now,
        claimed: false,
        resolved: false,
        content: text,
        scribble: None,
        discussion: seq![],
        captures: seq![],
    }
}

/// A copy of an optional text.
fn copy_opt(s: &Option<String>) -> (r: Option<String>)
    ensures
        opt_text(r) == opt_text(*s),
{
    match s {
        Some(s) => Some(s.clone()),
        None => None,
    }
}

/// An optional text as a slice.
fn as_opt(s: &Option<String>) -> (r: Option<&str>)
    ensures
        opt_str(r) == opt_text(*s),
{
    match s {
        Some(s) => Some(s.as_str()),
        None => None,
    }
}

/// A new annotation.
pub fn new_record(
    req: &AnnotateRequest,
    location: Location,
    local: &str,
    now_nanos: u64,
    now: &str,
) -> (r: Annotation)
    ensures
        r@ == new_annotation(
            req.text@,
            opt_text(req.kind),
            opt_text(req.color),
            opt_text(req.snapshot),
            resolved_author(opt_text(req.author), local@),
            location@,
            now_nanos,
            now@,
        ),
{
    let r: Annotation = Annotation {
        uuid: fresh_uuid(req.text.as_str(), now_nanos),
        letter: empty(),
        location,
        snapshot: copy_opt(&req.snapshot),
        kind: match &req.kind {
            Some(kind) => kind.clone(),
            None => "comment".to_string(),
        },
        color: match &req.color {
            Some(color) => color.clone(),
            None => empty(),
        },
        author: author_or_local(as_opt(&req.author), local),
        time: now.to_string(),
        mtime: now.to_string(),
        claimed: false,
        resolved: false,
        content: req.text.clone(),
        scribble: None,
        discussion: Vec::new(),
        captures: Vec::new(),
    };
    assert(r@.discussion =~= seq![]);
    assert(r@.captures =~= seq![]);
    r
}

/// The letters some annotations have.
pub open spec fn letters_of(list: Seq<AnnotationV>) -> Seq<Seq<char>> {
    list.map_values(|a: AnnotationV| a.letter)
}

/// Some annotations with one more, or with one in place of the one with its id.
pub open spec fn with_annotation(list: Seq<AnnotationV>, a: AnnotationV) -> Seq<AnnotationV> {
    match place_of(list, a.uuid) {
        Some(at) => list.update(at, a),
        None => list.push(a),
    }
}

impl Sidecar {
    /// Which annotation has an id.
    pub fn position(&self, uuid: &str) -> (r: Option<usize>)
        ensures
            match r {
                Some(at) => place_of(self@, uuid@) == Some(at as int) && at < self@.len()
                    && self@[at as int].uuid == uuid@,
                None => place_of(self@, uuid@) is None,
            },
    {
        let n: usize = self.annotations.len();
        let ghost all = ids(self@);
        let mut i: usize = 0;
        while i < n && !same(self.annotations[i].uuid.as_str(), uuid)
            invariant
                i <= n,
                n == self.annotations@.len(),
                all == ids(self@),
                forall|k: int| 0 <= k < i ==> all[k] != uuid@,
            decreases n - i,
        {
            assert(all[i as int] == self.annotations@[i as int].uuid@);
            i = i + 1;
        }
        proof {
            if i < n {
                assert(all[i as int] == self.annotations@[i as int].uuid@);
            }
            lemma_find_one(all, uuid@, i as int);
        }
        if i < n {
            Some(i)
        } else {
            None
        }
    }

    /// The letters the annotations have.
    fn letters(&self) -> (r: Vec<String>)
        ensures
            texts(r@) == letters_of(self@),
    {
        let mut out: Vec<String> = Vec::new();
        let mut i: usize = 0;
        while i < self.annotations.len()
            invariant
                i <= self.annotations@.len(),
                texts(out@) == letters_of(self@).take(i as int),
            decreases self.annotations@.len() - i,
        {
            let ghost before = texts(out@);
            out.push(self.annotations[i].letter.clone());
            assert(letters_of(self@)[i as int] == self.annotations@[i as int].letter@);
            assert(texts(out@) =~= before.push(self.annotations@[i as int].letter@));
            assert(texts(out@) =~= letters_of(self@).take(i + 1));
            i = i + 1;
        }
        assert(letters_of(self@).take(i as int) =~= letters_of(self@));
        out
    }

    /// Puts an annotation in, in place of one with its id.
    pub fn put(&mut self, a: Annotation)
        ensures
            final(self)@ == with_annotation(old(self)@, a@),
    {
        let ghost v = a@;
        match self.position(a.uuid.as_str()) {
            Some(at) => {
                self.annotations.set(at, a);
                assert(self@ =~= old(self)@.update(at as int, v));
            },
            None => {
                self.annotations.push(a);
                assert(self@ =~= old(self)@.push(v));
            },
        }
    }

    /// Puts a new annotation in, under the next letter. The letter is the
    /// server's to give: two pages composing at once would otherwise both think
    /// they have the same.
    pub fn add(&mut self, a: Annotation)
        requires
            highest(letters_of(old(self)@)) < u64::MAX,
        ensures
            final(self)@ == with_annotation(
                old(self)@,
                AnnotationV { letter: letter_at(highest(letters_of(old(self)@)) + 1), ..a@ },
            ),
    {
        let letters: Vec<String> = self.letters();
        let mut named: Annotation = a;
        named.letter = next_letter(&letters);
        self.put(named);
    }
}

/// A new annotation is open: nobody has taken it on, it is not done, and nobody has said anything
/// to it; it says what was written, of what it was written about.
pub proof fn a_new_annotation_is_open(
    text: Seq<char>,
    kind: Option<Seq<char>>,
    color: Option<Seq<char>>,
    snapshot: Option<Seq<char>>,
    author: Seq<char>,
    location: LocationV,
    now_nanos: u64,
    now: Seq<char>,
)
    ensures
        ({
            let a = new_annotation(text, kind, color, snapshot, author, location, now_nanos, now);
            &&& !a.claimed && !a.resolved
            &&& a.discussion.len() == 0 && a.captures.len() == 0
            &&& a.content == text && a.author == author && a.location == location && a.snapshot
                == snapshot
            &&& a.time == now && a.mtime == now
            &&& kind matches Some(k) ==> a.kind == k
            &&& kind is None ==> a.kind == "comment"@
            &&& color matches Some(c) ==> a.color == c
        }),
{
}

/// A name with nothing but white space in it is no name: the next one down is taken.
pub proof fn a_blank_name_is_no_name(
    named: Option<Seq<char>>,
    user: Option<Seq<char>>,
    local: Seq<char>,
)
    ensures
        named matches Some(n) ==> trim(n).len() > 0 ==> chosen_author(named, user) == n
            && resolved_author(named, local) == n,
        (named matches Some(n) ==> trim(n).len() == 0) ==> resolved_author(named, local) == local && (
        user matches Some(u) ==> trim(u).len() > 0 ==> chosen_author(named, user) == u),
        (named matches Some(n) ==> trim(n).len() == 0) && (user matches Some(u) ==> trim(u).len()
            == 0) ==> chosen_author(named, user) == "someone"@,
{
}

/// A picture that is already kept is not kept again.
pub proof fn a_picture_is_kept_once(
    list: Seq<CaptureV>,
    hash: Seq<char>,
    fmt: Seq<char>,
    width: u32,
    height: u32,
    fresh: Seq<char>,
    now: Seq<char>,
    k: int,
)
    ensures
        0 <= k < list.len() && list[k].hash == hash && list[k].fmt == fmt && list[k].width == width
            && list[k].height == height ==> with_picture(list, hash, fmt, width, height, fresh, now).0
            == list,
        (forall|i: int|
            0 <= i < list.len() ==> (#[trigger] list[i]).hash != hash || list[i].fmt != fmt
                || list[i].width != width || list[i].height != height) ==> with_picture(
            list,
            hash,
            fmt,
            width,
            height,
            fresh,
            now,
        ).0.len() == list.len() + 1,
{
    lemma_held(list, hash, fmt, width, height, 0);
    if let Some(at) = held_capture(list, hash, fmt, width, height, 0) {
        assert(same_picture(list[at], hash, fmt, width, height));
    } else if 0 <= k < list.len() {
        assert(!same_picture(list[k], hash, fmt, width, height));
    }
}

/// A drawing is kept as it was sent, and a picture as the bytes it was sent as; nothing else is
/// kept.
pub proof fn only_pictures_are_kept(
    fmt: Seq<char>,
    data: Seq<char>,
    decoded: Result<Seq<u8>, Seq<char>>,
)
    ensures
        fmt == "svg"@ ==> picture_of(fmt, data, decoded) == Ok::<_, Seq<char>>(encode_utf8(data)),
        fmt == "png"@ ==> (picture_of(fmt, data, decoded) is Ok <==> decoded is Ok) && (decoded is Ok
            ==> picture_of(fmt, data, decoded) == decoded),
        fmt != "svg"@ && fmt != "png"@ ==> picture_of(fmt, data, decoded) is Err,
{
    reveal_strlit("svg");
    reveal_strlit("png");
    assert("svg"@[0] == 's' && "png"@[0] == 'p');
}

/// Whether every label of an annotation is in use, and only those of annotations are.
pub proof fn labels_in_use_are_those_pointed_at(list: Seq<AnnotationV>, label: Seq<char>)
    ensures
        labels_used(list).contains(label) <==> exists|i: int|
            0 <= i < list.len() && (#[trigger] list[i]).location.labels.contains(label),
    decreases list.len(),
{
    if list.len() > 0 {
        let before = list.drop_last();
        let own = list.last().location.labels;
        let all = labels_used(list);
        labels_in_use_are_those_pointed_at(before, label);
        if all.contains(label) {
            let k = all.index_of(label);
            if k < labels_used(before).len() {
                assert(labels_used(before)[k] == label);
                let i = choose|i: int|
                    0 <= i < before.len() && (#[trigger] before[i]).location.labels.contains(label);
                assert(list[i] == before[i]);
            } else {
                assert(own[k - labels_used(before).len()] == label);
                assert(list[list.len() - 1].location.labels.contains(label));
            }
        }
        if exists|i: int| 0 <= i < list.len() && (#[trigger] list[i]).location.labels.contains(label) {
            let i = choose|i: int|
                0 <= i < list.len() && (#[trigger] list[i]).location.labels.contains(label);
            if i < before.len() {
                assert(before[i].location.labels.contains(label));
                let k = labels_used(before).index_of(label);
                assert(all[k] == label);
            } else {
                let k = own.index_of(label);
                assert(all[labels_used(before).len() + k] == label);
            }
        }
    }
}

} // verus!

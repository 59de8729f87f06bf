//! Which document servers are running, so that something else can find them.
//!
//! Each server leaves a note saying what it is serving and where it answers,
//! and takes the note away when it stops. Notes outlive servers that are
//! killed: a note whose port does not answer is one from a server that is gone.

use vstd::prelude::*;
use vstd::string::*;
use vstd::utf8::*;

use crate::num::{decimal, decimal_of};
use crate::order::{comes_first, order_is_total, order_is_transitive, text_le};
use crate::paths::{file_name, last_name, path_name};
use crate::text::{
    begins, chars_of, contains, cut, ends, find, find_at, is_alnum, is_ascii_alphanumeric, is_empty,
    lemma_find_from, lemma_find_from_skip, lower, occurs, opt_str, opt_text, same, split, split_on,
    stands_at, starts_with, string_of, strip_suffix, texts, to_lower, trim_end_char,
    trim_end_char_slice, trim_start_char, trim_start_char_slice,
};

verus! {

/// One running server, as its note describes it.
#[derive(Debug)]
pub struct ServerNote {
    /// A short name for the server, from the path it serves. What a person says
    /// when they mean this server, and what an agent matches against.
    pub server: String,
    /// The file or directory being served.
    pub path: String,
    /// Where it answers.
    pub url: String,
    /// The port, which is the note's own name.
    pub port: u16,
    /// Which face it wears: `serve` or `annotate`.
    pub role: String,
    /// Whether it answers agents.
    pub mcp: bool,
    /// Whether it is a directory of documents rather than one.
    pub directory: bool,
    /// The process serving it.
    pub pid: u32,
    /// The process that started that one, as it was at the time.
    pub ppid: u32,
    /// Whether that process serves this among other things.
    pub hosted: bool,
    /// Whether what it serves is a copy made for this server alone.
    pub fork: bool,
    /// When it started.
    pub started: String,
}

// -------------------------------------------------------------------- the name

/// A name without the `.typ` it ends in, however often it does.
pub open spec fn without_typ(name: Seq<char>) -> Seq<char>
    decreases name.len(),
{
    if ends(name, ".typ"@) && 0 < ".typ"@.len() {
        without_typ(name.take(name.len() - ".typ"@.len()))
    } else {
        name
    }
}

/// A name without the `.typ` it ends in, however often it does.
fn strip_typ(name: &str) -> (r: String)
    ensures
        r@ == without_typ(name@),
{
    proof {
        reveal_strlit(".typ");
    }
    let mut rest: String = name.to_string();
    loop
        invariant
            ".typ"@.len() == 4,
            without_typ(rest@) == without_typ(name@),
        ensures
            rest@ == without_typ(name@),
        decreases rest@.len(),
    {
        match strip_suffix(rest.as_str(), ".typ") {
            Some(head) => {
                rest = head;
            },
            None => {
                break;
            },
        }
    }
    rest
}

/// The parts of a path above the one it ends in.
pub open spec fn parts_above(parts: Seq<Seq<char>>) -> Seq<Seq<char>>
    decreases parts.len(),
{
    if parts.len() == 0 {
        parts
    } else if parts.last() == Seq::<char>::empty() || parts.last() == "."@ {
        parts_above(parts.drop_last())
    } else {
        parts.drop_last()
    }
}

/// The name of the directory a path's file is in.
pub open spec fn parent_name(path: Seq<char>) -> Option<Seq<char>> {
    last_name(parts_above(split(path, '/')))
}

/// Whether a part of a path says nothing.
fn says_nothing(part: &str) -> (r: bool)
    ensures
        r == (part@ == Seq::<char>::empty() || part@ == "."@),
{
    let empty: bool = is_empty(part);
    assert(empty ==> part@ =~= Seq::<char>::empty());
    empty || same(part, ".")
}

/// The name of the directory a path's file is in.
pub fn parent_of(path: &str) -> (r: Option<String>)
    ensures
        opt_text(r) == parent_name(path@),
{
    let parts: Vec<String> = split_on(path, '/');
    let ghost all = split(path@, '/');
    assert(texts(parts@).len() == parts@.len());
    let mut i: usize = parts.len();
    assert(all.take(i as int) =~= all);
    while i > 0 && says_nothing(parts[i - 1].as_str())
        invariant
            i <= parts@.len(),
            texts(parts@) == all,
            all.len() == parts@.len(),
            parts_above(all) == parts_above(all.take(i as int)),
        decreases i,
    {
        assert(all.take(i as int).last() == texts(parts@)[i - 1]);
        assert(all.take(i as int).drop_last() =~= all.take(i - 1));
        i = i - 1;
    }
    if i == 0 {
        assert(all.take(0) =~= Seq::empty());
        return None;
    }
    assert(all.take(i as int).last() == texts(parts@)[i - 1]);
    assert(all.take(i as int).drop_last() =~= all.take(i - 1));
    i = i - 1;
    let ghost above = all.take(i as int);
    while i > 0 && says_nothing(parts[i - 1].as_str())
        invariant
            i <= parts@.len(),
            texts(parts@) == all,
            all.len() == parts@.len(),
            last_name(above) == last_name(all.take(i as int)),
        decreases i,
    {
        assert(all.take(i as int).last() == texts(parts@)[i - 1]);
        assert(all.take(i as int).drop_last() =~= all.take(i - 1));
        i = i - 1;
    }
    if i == 0 {
        assert(all.take(0) =~= Seq::empty());
        return None;
    }
    assert(all.take(i as int).last() == texts(parts@)[i - 1]);
    if same(parts[i - 1].as_str(), "..") {
        None
    } else {
        Some(parts[i - 1].clone())
    }
}

/// A character that can stand in a server's name; any other is a dash.
pub open spec fn slug_char(c: char) -> char {
    if is_alnum(c) || c == '-' {
        c
    } else {
        '-'
    }
}

/// A name with what cannot stand in a server's name replaced, no dash at either
/// end, and in lower case.
pub open spec fn slug_text(name: Seq<char>) -> Seq<char> {
    lower(
        trim_end_char(trim_start_char(name.map_values(|c: char| slug_char(c)), '-'), '-'),
    )
}

/// A short name for a path: the last part, behind the one above it.
pub open spec fn slug_name(path: Seq<char>) -> Seq<char> {
    let last = match path_name(path) {
        Some(name) => without_typ(name),
        None => "documents"@,
    };
    match parent_name(path) {
        Some(parent) if without_typ(parent).len() > 0 => without_typ(parent) + "-"@ + last,
        _ => last,
    }
}

/// A short name for a path: the last directory, and the one above it, since
/// `docs` alone says nothing when three projects have one.
pub fn slug_for(path: &str) -> (r: String)
    ensures
        r@ == slug_text(slug_name(path@)),
{
    let last: String = match file_name(path) {
        Some(name) => strip_typ(name.as_str()),
        None => "documents".to_string(),
    };
    let parent: String = match parent_of(path) {
        Some(parent) => strip_typ(parent.as_str()),
        None => String::new(),
    };
    let name: String = if is_empty(parent.as_str()) {
        last
    } else {
        let mut out: String = parent.clone();
        out.append("-");
        out.append(last.as_str());
        out
    };
    assert(name@ == slug_name(path@));
    let given: Vec<char> = chars_of(name.as_str());
    let ghost all = given@.map_values(|c: char| slug_char(c));
    let mut kept: Vec<char> = Vec::new();
    let mut i: usize = 0;
    while i < given.len()
        invariant
            i <= given@.len(),
            all == given@.map_values(|c: char| slug_char(c)),
            kept@ == all.take(i as int),
        decreases given@.len() - i,
    {
        let c: char = given[i];
        if is_ascii_alphanumeric(c) || c == '-' {
            kept.push(c);
        } else {
            kept.push('-');
        }
        assert(kept@ =~= all.take(i + 1));
        i = i + 1;
    }
    assert(all.take(i as int) =~= all);
    let tail: &[char] = trim_start_char_slice(kept.as_slice(), '-');
    let both: &[char] = trim_end_char_slice(tail, '-');
    to_lower(string_of(both).as_str())
}

// ------------------------------------------------------------------- the notes

/// What a note is kept under.
pub fn note_name(port: u16) -> (r: String)
    ensures
        r@ == decimal(port as nat) + ".json"@,
{
    let mut out: String = decimal_of(port as u64);
    out.append(".json");
    out
}

/// The port this process announced itself on, if it did.
#[derive(Debug)]
pub struct Announced {
    port: u16,
}

impl View for Announced {
    type V = Option<u16>;

    closed spec fn view(&self) -> Option<u16> {
        if self.port == 0 {
            None
        } else {
            Some(self.port)
        }
    }
}

impl Announced {
    /// Not announced yet.
    pub fn new() -> (r: Self)
        ensures
            r@ is None,
    {
        Announced { port: 0 }
    }

    /// Notes that the process announced itself.
    pub fn announce(&mut self, port: u16)
        ensures
            final(self)@ == (if port == 0 {
                None
            } else {
                Some(port)
            }),
    {
        self.port = port;
    }

    /// The port this server announced itself on.
    pub fn my_port(&self) -> (r: Option<u16>)
        ensures
            r == self@,
    {
        if self.port == 0 {
            None
        } else {
            Some(self.port)
        }
    }
}

/// How long a server has to answer for before its note is believed stale, in
/// seconds: it compiles what it serves before it listens.
pub const STARTUP_GRACE: u64 = 60;

/// What becomes of a note.
#[derive(Debug, Clone, Copy, PartialEq, Eq, Structural)]
pub enum Verdict {
    /// The server is running.
    Running,
    /// It does not answer yet, which is not the same as gone.
    Starting,
    /// The note is from a server that is gone, or is no note.
    Gone,
}

/// What becomes of a note: one that can be read and whose port answers is of a
/// running server, and one that is young may be of a server on its way in.
pub open spec fn verdict(readable: bool, answers: bool, age: Option<u64>) -> Verdict {
    if !readable {
        Verdict::Gone
    } else if answers {
        Verdict::Running
    } else if age matches Some(secs) && secs < STARTUP_GRACE {
        Verdict::Starting
    } else {
        Verdict::Gone
    }
}

/// What becomes of a note. `age` is how many seconds ago it was written, where
/// that can be told.
pub fn judge_note(readable: bool, answers: bool, age: Option<u64>) -> (r: Verdict)
    ensures
        r == verdict(readable, answers, age),
{
    if !readable {
        return Verdict::Gone;
    }
    if answers {
        return Verdict::Running;
    }
    match age {
        Some(secs) => if secs < STARTUP_GRACE {
            Verdict::Starting
        } else {
            Verdict::Gone
        },
        None => Verdict::Gone,
    }
}

/// No note is taken away from a server that answers, or that was started just
/// now.
pub proof fn a_server_keeps_its_note(answers: bool, age: u64)
    requires
        answers || age < STARTUP_GRACE,
    ensures
        verdict(true, answers, Some(age)) != Verdict::Gone,
{
}

// ----------------------------------------------------------------- their order

/// A note put among others in the order of their names, behind those of the
/// same name.
pub open spec fn filed(list: Seq<ServerNote>, note: ServerNote) -> Seq<ServerNote>
    decreases list.len(),
{
    if list.len() == 0 || text_le(list.last().server@, note.server@) {
        list.push(note)
    } else {
        filed(list.drop_last(), note).push(list.last())
    }
}

/// Some notes in the order of their names, those of the same name as they were.
pub open spec fn by_name(list: Seq<ServerNote>) -> Seq<ServerNote>
    decreases list.len(),
{
    if list.len() == 0 {
        seq![]
    } else {
        filed(by_name(list.drop_last()), list.last())
    }
}

/// Whether notes are in the order of their names.
pub open spec fn ordered(list: Seq<ServerNote>) -> bool {
    forall|i: int, j: int|
        0 <= i <= j < list.len() ==> text_le((#[trigger] list[i]).server@, (#[trigger] list[j]).server@)
}

proof fn lemma_text_le(a: Seq<char>, b: Seq<char>)
    ensures
        text_le(a, b) || text_le(b, a),
{
    order_is_total(encode_utf8(a), encode_utf8(b));
}

proof fn lemma_filed(list: Seq<ServerNote>, note: ServerNote)
    requires
        ordered(list),
    ensures
        ordered(filed(list, note)),
        filed(list, note).to_multiset() == list.to_multiset().insert(note),
        forall|i: int|
            0 <= i < filed(list, note).len() ==> (#[trigger] filed(list, note)[i]) == note
                || list.contains(filed(list, note)[i]),
    decreases list.len(),
{
    broadcast use vstd::seq_lib::group_to_multiset_ensures;

    if list.len() == 0 {
        lemma_text_le(note.server@, note.server@);
    } else if text_le(list.last().server@, note.server@) {
        let all = list.push(note);
        lemma_text_le(note.server@, note.server@);
        assert forall|i: int, j: int| 0 <= i <= j < all.len() implies text_le(
            (#[trigger] all[i]).server@,
            (#[trigger] all[j]).server@,
        ) by {
            if j == list.len() && i < j {
                assert(text_le(list[i].server@, list[list.len() - 1].server@));
                order_is_transitive(
                    encode_utf8(list[i].server@),
                    encode_utf8(list.last().server@),
                    encode_utf8(note.server@),
                );
            } else if j < list.len() {
                assert(text_le(list[i].server@, list[j].server@));
            }
        }
        assert forall|i: int| 0 <= i < all.len() implies (#[trigger] all[i]) == note
            || list.contains(all[i]) by {
            if i < list.len() {
                assert(list[i] == all[i]);
            }
        }
    } else {
        let head = list.drop_last();
        let last = list.last();
        assert forall|i: int, j: int| 0 <= i <= j < head.len() implies text_le(
            (#[trigger] head[i]).server@,
            (#[trigger] head[j]).server@,
        ) by {
            assert(text_le(list[i].server@, list[j].server@));
        }
        lemma_filed(head, note);
        let inner = filed(head, note);
        let all = inner.push(last);
        lemma_text_le(last.server@, note.server@);
        lemma_text_le(last.server@, last.server@);
        assert forall|i: int, j: int| 0 <= i <= j < all.len() implies text_le(
            (#[trigger] all[i]).server@,
            (#[trigger] all[j]).server@,
        ) by {
            if j == inner.len() && i < j {
                if inner[i] != note {
                    let k = choose|k: int| 0 <= k < head.len() && head[k] == inner[i];
                    assert(text_le(list[k].server@, list[list.len() - 1].server@));
                }
            } else if j < inner.len() {
                assert(text_le(inner[i].server@, inner[j].server@));
            }
        }
        assert(list =~= head.push(last));
        assert(all.to_multiset() =~= list.to_multiset().insert(note));
        assert forall|i: int| 0 <= i < all.len() implies (#[trigger] all[i]) == note
            || list.contains(all[i]) by {
            if i < inner.len() {
                if inner[i] != note {
                    let k = choose|k: int| 0 <= k < head.len() && head[k] == inner[i];
                    assert(list[k] == all[i]);
                }
            } else {
                assert(list[list.len() - 1] == last);
            }
        }
    }
}

/// Notes that are put in order are in order, and are the notes they were.
pub proof fn notes_are_ordered(list: Seq<ServerNote>)
    ensures
        ordered(by_name(list)),
        by_name(list).to_multiset() == list.to_multiset(),
    decreases list.len(),
{
    broadcast use vstd::seq_lib::group_to_multiset_ensures;

    if list.len() > 0 {
        notes_are_ordered(list.drop_last());
        lemma_filed(by_name(list.drop_last()), list.last());
        assert(list =~= list.drop_last().push(list.last()));
    }
}

/// Some notes in the order of their names.
pub fn sort_notes(notes: Vec<ServerNote>) -> (r: Vec<ServerNote>)
    ensures
        r@ == by_name(notes@),
{
    let ghost all = notes@;
    let mut given: Vec<ServerNote> = notes;
    let mut out: Vec<ServerNote> = Vec::new();
    assert(all.take(0) =~= seq![]);
    while given.len() > 0
        invariant
            given@.len() <= all.len(),
            given@ == all.skip(all.len() - given@.len()),
            out@ == by_name(all.take(all.len() - given@.len())),
        decreases given@.len(),
    {
        let ghost n = all.len() - given@.len();
        let note: ServerNote = given.remove(0);
        proof {
            assert(note == all[n]);
            assert(given@ =~= all.skip(n + 1));
            assert(all.take(n + 1).drop_last() =~= all.take(n));
            assert(all.take(n + 1).last() == note);
        }
        let ghost held = out@;
        let mut at: usize = out.len();
        assert(held.take(at as int) =~= held);
        assert(held.skip(at as int) =~= seq![]);
        assert(filed(held, note) =~= filed(held.take(at as int), note) + held.skip(at as int));
        while at > 0 && !comes_first(out[at - 1].server.as_str(), note.server.as_str())
            invariant
                at <= out@.len(),
                out@ == held,
                filed(held, note) == filed(held.take(at as int), note) + held.skip(at as int),
            decreases at,
        {
            proof {
                let here = held.take(at as int);
                assert(here.last() == held[at - 1]);
                assert(here.drop_last() =~= held.take(at - 1));
                assert(filed(here.drop_last(), note).push(here.last()) + held.skip(at as int)
                    =~= filed(held.take(at - 1), note) + held.skip(at - 1));
            }
            at = at - 1;
        }
        proof {
            if at > 0 {
                assert(held.take(at as int).last() == held[at - 1]);
            }
            assert(filed(held.take(at as int), note) == held.take(at as int).push(note));
        }
        out.insert(at, note);
        assert(out@ =~= held.take(at as int).push(note) + held.skip(at as int));
    }
    assert(all.take(all.len() as int) =~= all);
    out
}

// ---------------------------------------------------------------- the requests

/// A request to a server on this machine.
pub open spec fn request_v(
    port: nat,
    method: Seq<char>,
    path: Seq<char>,
    body: Option<Seq<char>>,
) -> Seq<char> {
    let head = method + " "@ + path + " HTTP/1.0\r\nHost: 127.0.0.1:"@ + decimal(port)
        + "\r\nConnection: close\r\n"@;
    match body {
        Some(body) => head + "Content-Type: application/json\r\n"@ + "Content-Length: "@ + decimal(
            encode_utf8(body).len(),
        ) + "\r\n"@ + "\r\n"@ + body,
        None => head + "\r\n"@,
    }
}

/// A request to a server on this machine. Small on purpose: this is one request
/// to one process.
pub fn request_text(port: u16, method: &str, path: &str, body: Option<&str>) -> (r: String)
    ensures
        r@ == request_v(port as nat, method@, path@, opt_str(body)),
{
    let mut out: String = method.to_string();
    out.append(" ");
    out.append(path);
    out.append(" HTTP/1.0\r\nHost: 127.0.0.1:");
    out.append(decimal_of(port as u64).as_str());
    out.append("\r\nConnection: close\r\n");
    match body {
        Some(body) => {
            out.append("Content-Type: application/json\r\n");
            out.append("Content-Length: ");
            out.append(decimal_of(body.as_bytes().len() as u64).as_str());
            out.append("\r\n");
            out.append("\r\n");
            out.append(body);
        },
        None => {
            out.append("\r\n");
        },
    }
    out
}

/// What a server on this machine answered.
#[derive(Debug)]
pub enum Answer {
    /// It answered, with this.
    Body(String),
    /// It answered that it would not.
    Refused,
    /// What came back is no answer.
    Broken,
}

/// What a server answered.
pub enum AnswerV {
    Body(Seq<char>),
    Refused,
    Broken,
}

impl View for Answer {
    type V = AnswerV;

    open spec fn view(&self) -> AnswerV {
        match self {
            Answer::Body(s) => AnswerV::Body(s@),
            Answer::Refused => AnswerV::Refused,
            Answer::Broken => AnswerV::Broken,
        }
    }
}

/// What a server answered: its head and its body are divided by an empty line,
/// and the head says that it is one and that all is well.
pub open spec fn answer_in(text: Seq<char>) -> AnswerV {
    match find(text, "\r\n\r\n"@) {
        None => AnswerV::Broken,
        Some(at) => {
            let head = text.take(at);
            if begins(head, "HTTP/1."@) && occurs(head, " 200"@) {
                AnswerV::Body(text.skip(at + 4))
            } else {
                AnswerV::Refused
            }
        },
    }
}

/// What a server on this machine answered.
pub fn read_answer(text: &str) -> (r: Answer)
    ensures
        r@ == answer_in(text@),
{
    proof {
        reveal_strlit("\r\n\r\n");
    }
    let t: Vec<char> = chars_of(text);
    let gap: Vec<char> = chars_of("\r\n\r\n");
    match find_at(t.as_slice(), gap.as_slice(), 0) {
        None => Answer::Broken,
        Some(at) => {
            let (head, body): (&[char], &[char]) = cut(t.as_slice(), at, 4);
            let head: String = string_of(head);
            if starts_with(head.as_str(), "HTTP/1.") && contains(head.as_str(), " 200") {
                Answer::Body(string_of(body))
            } else {
                Answer::Refused
            }
        },
    }
}

/// A server's name is made of small letters, digits and dashes, and no dash is at its ends.
pub proof fn a_slug_is_plain(name: Seq<char>)
    ensures
        ({
            let slug = slug_text(name);
            &&& forall|i: int|
                0 <= i < slug.len() ==> ('a' <= #[trigger] slug[i] <= 'z') || ('0' <= slug[i] <= '9')
                    || slug[i] == '-'
            &&& slug.len() > 0 ==> slug[0] != '-' && slug[slug.len() - 1] != '-'
            &&& slug.len() <= name.len()
        }),
{
    let plain = name.map_values(|c: char| slug_char(c));
    let start = trim_start_char(plain, '-');
    let both = trim_end_char(start, '-');
    lemma_dashes_before(plain);
    lemma_dashes_after(start);
    let slug = lower(both);
    assert forall|i: int| 0 <= i < slug.len() implies ('a' <= #[trigger] slug[i] <= 'z') || ('0'
        <= slug[i] <= '9') || slug[i] == '-' by {
        assert(both[i] == start[i]);
        assert(start[i] == plain[i + plain.len() - start.len()]);
    }
    if slug.len() > 0 {
        assert(both[0] == start[0]);
        assert(start[0] == plain[plain.len() - start.len()]);
        let last = both.len() - 1;
        assert(both[last] == start[last]);
        assert(start[last] == plain[last + plain.len() - start.len()]);
    }
}

/// A name of small letters, digits and single dashes inside it is a server's name as it is.
pub proof fn a_plain_name_stays(name: Seq<char>)
    requires
        name.len() > 0,
        forall|i: int|
            0 <= i < name.len() ==> ('a' <= #[trigger] name[i] <= 'z') || ('0' <= name[i] <= '9')
                || name[i] == '-',
        name[0] != '-',
        name.last() != '-',
    ensures
        slug_text(name) == name,
{
    let plain = name.map_values(|c: char| slug_char(c));
    assert(plain =~= name);
    assert(lower(name) =~= name);
}

/// What is dropped from the start is dashes.
proof fn lemma_dashes_before(text: Seq<char>)
    ensures
        ({
            let left = trim_start_char(text, '-');
            &&& left.len() <= text.len()
            &&& left == text.skip(text.len() - left.len())
            &&& left.len() > 0 ==> left[0] != '-'
        }),
    decreases text.len(),
{
    if text.len() > 0 && text[0] == '-' {
        lemma_dashes_before(text.skip(1));
        let left = trim_start_char(text, '-');
        assert(text.skip(1).skip(text.len() - 1 - left.len()) =~= text.skip(
            text.len() - left.len(),
        ));
    } else {
        assert(text.skip(0) =~= text);
    }
}

/// What is dropped from the end is dashes.
proof fn lemma_dashes_after(text: Seq<char>)
    ensures
        ({
            let left = trim_end_char(text, '-');
            &&& left.len() <= text.len()
            &&& left == text.take(left.len() as int)
            &&& left.len() > 0 ==> left.last() != '-'
        }),
    decreases text.len(),
{
    if text.len() > 0 && text.last() == '-' {
        lemma_dashes_after(text.drop_last());
        let left = trim_end_char(text, '-');
        assert(text.drop_last().take(left.len() as int) =~= text.take(left.len() as int));
    } else {
        assert(text.take(text.len() as int) =~= text);
    }
}

/// What a server answers is what comes after the first empty line, when it says that all is well;
/// when it does not say so, it has refused.
pub proof fn the_body_follows_the_empty_line(head: Seq<char>, body: Seq<char>)
    requires
        forall|i: int| 0 <= i < head.len() ==> #[trigger] head[i] != '\r',
    ensures
        ({
            let text = head + "\r\n\r\n"@ + body;
            &&& begins(head, "HTTP/1."@) && occurs(head, " 200"@) ==> answer_in(text)
                == AnswerV::Body(body)
            &&& !begins(head, "HTTP/1."@) || !occurs(head, " 200"@) ==> answer_in(text)
                == AnswerV::Refused
        }),
{
    reveal_strlit("\r\n\r\n");
    let gap = "\r\n\r\n"@;
    let text = head + gap + body;
    let n = head.len() as int;
    assert forall|i: int| 0 <= i < n implies !stands_at(text, gap, i) by {
        if stands_at(text, gap, i) {
            assert(text.subrange(i, i + 4)[0] == gap[0]);
            assert(head[i] == '\r');
        }
    }
    lemma_find_from_skip(text, gap, 0, n);
    assert(text.subrange(n, n + 4) =~= gap);
    assert(stands_at(text, gap, n));
    assert(text.take(n) =~= head);
    assert(text.skip(n + 4) =~= body);
}

/// A text without an empty line in it is no answer.
pub proof fn an_answer_has_an_empty_line(text: Seq<char>)
    requires
        forall|i: int| !stands_at(text, "\r\n\r\n"@, i),
    ensures
        answer_in(text) == AnswerV::Broken,
{
    reveal_strlit("\r\n\r\n");
    lemma_find_from(text, "\r\n\r\n"@, 0);
}

} // verus!

//! What a preview shows over a document while it does not compile, and where
//! the editor's cursor is in it.

use std::ops::Range;

use vstd::prelude::*;
use vstd::string::*;
use vstd::utf8::*;

use crate::bytes::{byte_len, lemma_encode_concat};
use crate::num::{decimal, push_decimal};
use crate::render::drawing::is_range;
use crate::syntax::{
    branch, branches, enclosing, enclosing_nodes, node, nodes, syntax_tree, tree_of,
};
use crate::text::{chars_of, push, same, string_of, texts};

verus! {

/// The most lines of messages that are shown.
pub const MAX_MESSAGE_LINES: usize = 10;

/// The most places that are marked.
pub const MAX_LOCATIONS: usize = 4;

/// How many lines to look at in each direction when a place itself is not
/// drawn.
pub const MAX_ANCHOR_WALK_BACK: usize = 100;

// ---------------------------------------------------------------- messages

/// A place in a source file, as it is found and as it is shown.
#[derive(Debug)]
pub struct SourceSpot {
    /// The file's path, from the root of the project.
    pub path: String,
    /// The number of the file.
    pub file: usize,
    /// Where in the file the place is.
    pub cursor: usize,
    /// The line it is on, from zero.
    pub line: usize,
    /// The column it is in, from zero.
    pub column: usize,
}

/// A call a diagnostic came through.
#[derive(Debug)]
pub struct TraceFrame {
    /// What the frame says.
    pub message: String,
    /// Where the call is.
    pub at: Option<SourceSpot>,
}

/// How bad a diagnostic is.
#[derive(Clone, Copy, Debug, PartialEq, Eq, Structural)]
pub enum Severity {
    /// The document cannot be compiled.
    Error,
    /// The document can be compiled all the same.
    Warning,
}

/// Something a compile has to say.
#[derive(Debug)]
pub struct Diagnostic {
    /// How bad it is.
    pub severity: Severity,
    /// What is wrong.
    pub message: String,
    /// Where.
    pub at: Option<SourceSpot>,
    /// The calls it came through, innermost first.
    pub trace: Vec<TraceFrame>,
    /// What might help.
    pub hints: Vec<String>,
}

/// A place as it is written after a message, counted from one.
pub open spec fn spot_text(at: Option<SourceSpot>) -> Seq<char> {
    match at {
        None => seq![],
        Some(s) => " ("@ + s.path@ + ":"@ + decimal(s.line as nat + 1) + ":"@ + decimal(
            s.column as nat + 1,
        ) + ")"@,
    }
}

/// A frame of a trace as it is written.
pub open spec fn frame_line(f: TraceFrame) -> Seq<char> {
    "  "@ + f.message@ + spot_text(f.at)
}

/// Some frames as they are written, in the order they are in.
pub open spec fn frame_lines(frames: Seq<TraceFrame>) -> Seq<Seq<char>> {
    frames.map_values(|f: TraceFrame| frame_line(f))
}

/// The line that stands for the frames that are left out.
pub open spec fn elided(count: nat) -> Seq<char> {
    "  … "@ + decimal(count) + " more frame(s) …"@
}

/// A trace as it is written, from the document's own code to the code nearest
/// the error: of more than four frames the outer three and the innermost.
pub open spec fn trace_lines(trace: Seq<TraceFrame>) -> Seq<Seq<char>> {
    let outer = trace.reverse();
    if trace.len() <= 4 {
        frame_lines(outer)
    } else {
        frame_lines(outer.take(3)) + seq![
            elided((trace.len() - 4) as nat),
            frame_line(outer.last()),
        ]
    }
}

/// A hint as it is written.
pub open spec fn hint_line(hint: Seq<char>) -> Seq<char> {
    "  hint: "@ + hint
}

/// The line an error is said in.
pub open spec fn error_line(d: Diagnostic) -> Seq<char> {
    "error: "@ + d.message@ + spot_text(d.at)
}

/// All the lines of one diagnostic.
pub open spec fn lines_of_one(d: Diagnostic) -> Seq<Seq<char>> {
    seq![error_line(d)] + trace_lines(d.trace@) + texts(
        d.hints@,
    ).map_values(|h: Seq<char>| hint_line(h))
}

/// All the lines of the errors among some diagnostics.
pub open spec fn all_lines(list: Seq<Diagnostic>) -> Seq<Seq<char>>
    decreases list.len(),
{
    if list.len() == 0 {
        seq![]
    } else if list.last().severity == Severity::Error {
        all_lines(list.drop_last()) + lines_of_one(list.last())
    } else {
        all_lines(list.drop_last())
    }
}

/// How many errors among some diagnostics have not even their first line among the first
/// `room` lines.
pub open spec fn left_out(list: Seq<Diagnostic>, room: nat) -> nat
    decreases list.len(),
{
    if list.len() == 0 {
        0
    } else {
        left_out(list.drop_last(), room) + (if list.last().severity == Severity::Error
            && all_lines(list.drop_last()).len() >= room {
            1nat
        } else {
            0nat
        })
    }
}

/// The first of some lines, as many as are shown.
pub open spec fn shown_lines(lines: Seq<Seq<char>>) -> Seq<Seq<char>> {
    if lines.len() <= MAX_MESSAGE_LINES {
        lines
    } else {
        lines.take(MAX_MESSAGE_LINES as int)
    }
}

/// How many lines of the errors are shown: as many as there is room for, and one less where
/// errors are left out, whose number takes the last line.
pub open spec fn message_room(list: Seq<Diagnostic>) -> nat {
    if left_out(list, MAX_MESSAGE_LINES as nat) == 0 {
        MAX_MESSAGE_LINES as nat
    } else {
        (MAX_MESSAGE_LINES - 1) as nat
    }
}

/// The line that says how many errors were left out.
pub open spec fn rest_line(count: nat) -> Seq<char> {
    "… and "@ + decimal(count) + " more error(s)"@
}

/// The messages of some diagnostics: the first lines of the errors, and where they do not
/// all have a line, how many are left out.
pub open spec fn messages(list: Seq<Diagnostic>) -> Seq<Seq<char>> {
    let room = message_room(list);
    if room == MAX_MESSAGE_LINES {
        shown_lines(all_lines(list))
    } else {
        all_lines(list).take(room as int).push(rest_line(left_out(list, room)))
    }
}

/// Puts a line after some others, if there is room for it.
fn add_line(out: &mut Vec<String>, line: String, Ghost(all): Ghost<Seq<Seq<char>>>)
    requires
        texts(old(out)@) == shown_lines(all),
    ensures
        texts(final(out)@) == shown_lines(all.push(line@)),
{
    assert(texts(out@).len() == out@.len());
    if out.len() < MAX_MESSAGE_LINES {
        let ghost before = texts(out@);
        let ghost v = line@;
        out.push(line);
        assert(texts(out@) =~= before.push(v));
        assert(shown_lines(all.push(v)) =~= all.push(v));
    } else {
        assert(all.push(line@).take(MAX_MESSAGE_LINES as int) =~= all.take(
            MAX_MESSAGE_LINES as int,
        ));
    }
}

/// Writes a place after a message.
fn push_spot(out: &mut String, at: &Option<SourceSpot>)
    ensures
        final(out)@ == old(out)@ + spot_text(*at),
{
    if let Some(s) = at {
        out.append(" (");
        out.append(s.path.as_str());
        out.append(":");
        push_count(out, s.line);
        out.append(":");
        push_count(out, s.column);
        out.append(")");
    }
    assert(out@ =~= old(out)@ + spot_text(*at));
}

/// Writes a number counted from one.
fn push_count(out: &mut String, n: usize)
    ensures
        final(out)@ == old(out)@ + decimal(n as nat + 1),
{
    if n < usize::MAX {
        push_decimal(out, (n + 1) as u64);
    } else {
        let tens: u64 = (n as u64) / 10;
        let ones: u64 = (n as u64) % 10;
        // One more than the largest number ends in a digit that is not zero.
        proof {
            assert(usize::MAX == 0xffff_ffff || usize::MAX == 0xffff_ffff_ffff_ffff) by {
                assert(usize::BITS == 32 || usize::BITS == 64);
            }
            assert(n as nat + 1 >= 10);
            assert((n as nat + 1) / 10 == tens && (n as nat + 1) % 10 == ones + 1);
        }
        push_decimal(out, tens);
        let d: u8 = (ones as u8) + 49;
        push(out, d as char);
        assert(out@ =~= old(out)@ + decimal(n as nat + 1));
    }
}

/// A frame of a trace as it is written.
fn write_frame(f: &TraceFrame) -> (r: String)
    ensures
        r@ == frame_line(*f),
{
    let mut out: String = "  ".to_string();
    out.append(f.message.as_str());
    push_spot(&mut out, &f.at);
    out
}

/// Adds the lines of a trace.
fn add_trace(out: &mut Vec<String>, trace: &Vec<TraceFrame>, Ghost(all): Ghost<Seq<Seq<char>>>)
    requires
        texts(old(out)@) == shown_lines(all),
    ensures
        texts(final(out)@) == shown_lines(all + trace_lines(trace@)),
{
    let total: usize = trace.len();
    let head: usize = if total <= 4 {
        total
    } else {
        3
    };
    let ghost outer = trace@.reverse();
    let ghost want = frame_lines(outer.take(head as int));
    let mut i: usize = 0;
    assert(all + want.take(0) =~= all);
    while i < head
        invariant
            i <= head <= total,
            total == trace@.len(),
            outer == trace@.reverse(),
            want == frame_lines(outer.take(head as int)),
            texts(out@) == shown_lines(all + want.take(i as int)),
        decreases head - i,
    {
        let line: String = write_frame(&trace[total - 1 - i]);
        assert(want[i as int] == line@);
        assert((all + want.take(i as int)).push(line@) =~= all + want.take(i + 1));
        add_line(out, line, Ghost(all + want.take(i as int)));
        i = i + 1;
    }
    assert(want.take(i as int) =~= want);
    if total > 4 {
        let mut line: String = "  … ".to_string();
        push_decimal(&mut line, (total - 4) as u64);
        line.append(" more frame(s) …");
        let ghost more = line@;
        assert(more == elided((total - 4) as nat));
        add_line(out, line, Ghost(all + want));
        let last: String = write_frame(&trace[0]);
        assert(last@ == frame_line(outer.last()));
        add_line(out, last, Ghost((all + want).push(more)));
        assert((all + want).push(more).push(frame_line(outer.last())) =~= all + trace_lines(
            trace@,
        ));
    } else {
        assert(outer.take(head as int) =~= outer);
    }
}

/// Adds the lines of one diagnostic.
fn add_one(out: &mut Vec<String>, d: &Diagnostic, Ghost(all): Ghost<Seq<Seq<char>>>)
    requires
        texts(old(out)@) == shown_lines(all),
    ensures
        texts(final(out)@) == shown_lines(all + lines_of_one(*d)),
{
    let mut line: String = "error: ".to_string();
    line.append(d.message.as_str());
    push_spot(&mut line, &d.at);
    let ghost first = line@;
    add_line(out, line, Ghost(all));
    let ghost now = all.push(first);
    add_trace(out, &d.trace, Ghost(now));
    let ghost now = now + trace_lines(d.trace@);
    let ghost hints = texts(d.hints@).map_values(|h: Seq<char>| hint_line(h));
    let mut i: usize = 0;
    assert(now + hints.take(0) =~= now);
    while i < d.hints.len()
        invariant
            i <= d.hints@.len(),
            hints == texts(d.hints@).map_values(|h: Seq<char>| hint_line(h)),
            texts(out@) == shown_lines(now + hints.take(i as int)),
        decreases d.hints@.len() - i,
    {
        let mut line: String = "  hint: ".to_string();
        line.append(d.hints[i].as_str());
        assert(hints[i as int] == line@);
        assert((now + hints.take(i as int)).push(line@) =~= now + hints.take(i + 1));
        add_line(out, line, Ghost(now + hints.take(i as int)));
        i = i + 1;
    }
    assert(now + hints.take(i as int) =~= all + lines_of_one(*d));
}

/// The messages of some diagnostics, as many lines as are shown.
pub fn error_messages(list: &Vec<Diagnostic>) -> (r: Vec<String>)
    ensures
        texts(r@) == messages(list@),
        r@.len() <= MAX_MESSAGE_LINES,
{
    let mut out: Vec<String> = Vec::new();
    let mut late: usize = 0;
    let mut unsaid: usize = 0;
    let mut i: usize = 0;
    assert(texts(out@) =~= seq![]);
    while i < list.len()
        invariant
            i <= list@.len(),
            late <= i,
            unsaid <= i,
            late == left_out(list@.take(i as int), MAX_MESSAGE_LINES as nat),
            unsaid == left_out(list@.take(i as int), (MAX_MESSAGE_LINES - 1) as nat),
            texts(out@) == shown_lines(all_lines(list@.take(i as int))),
        decreases list@.len() - i,
    {
        let ghost before = list@.take(i as int);
        assert(list@.take(i + 1).drop_last() =~= before);
        assert(list@.take(i + 1).last() == list@[i as int]);
        assert(texts(out@).len() == out@.len());
        if list[i].severity == Severity::Error {
            if out.len() >= MAX_MESSAGE_LINES - 1 {
                unsaid = unsaid + 1;
            }
            if out.len() >= MAX_MESSAGE_LINES {
                late = late + 1;
                assert(shown_lines(all_lines(before) + lines_of_one(list@[i as int]))
                    =~= shown_lines(all_lines(before)));
            } else {
                add_one(&mut out, &list[i], Ghost(all_lines(before)));
            }
        }
        i = i + 1;
    }
    assert(list@.take(i as int) =~= list@);
    assert(texts(out@).len() == out@.len());
    if late > 0 {
        proof {
            lemma_more_lines(list@);
        }
        let ghost shown = texts(out@);
        let _ = out.pop();
        assert(texts(out@) =~= all_lines(list@).take(MAX_MESSAGE_LINES - 1));
        let mut line: String = "… and ".to_string();
        push_decimal(&mut line, unsaid as u64);
        line.append(" more error(s)");
        let ghost v = line@;
        out.push(line);
        assert(texts(out@) =~= all_lines(list@).take(MAX_MESSAGE_LINES - 1).push(v));
    }
    out
}

/// Where errors are left out, there are more lines than there is room for.
proof fn lemma_more_lines(list: Seq<Diagnostic>)
    ensures
        left_out(list, MAX_MESSAGE_LINES as nat) > 0 ==> all_lines(list).len()
            > MAX_MESSAGE_LINES,
    decreases list.len(),
{
    if list.len() > 0 {
        lemma_more_lines(list.drop_last());
        assert(lines_of_one(list.last()).len() >= 1);
    }
}

/// No more lines are shown than there is room for, the one that says how many errors were
/// left out among them.
pub proof fn messages_are_few(list: Seq<Diagnostic>)
    ensures
        messages(list).len() <= MAX_MESSAGE_LINES,
{
    lemma_more_lines(list);
}

/// The lines of the first diagnostics come first, and no fewer are left out of all.
proof fn lemma_lines_come_first(list: Seq<Diagnostic>, n: int, room: nat)
    requires
        0 <= n <= list.len(),
    ensures
        all_lines(list.take(n)).len() <= all_lines(list).len(),
        all_lines(list).take(all_lines(list.take(n)).len() as int) == all_lines(list.take(n)),
        left_out(list.take(n), room) <= left_out(list, room),
    decreases list.len(),
{
    if n == list.len() {
        assert(list.take(n) =~= list);
        assert(all_lines(list).take(all_lines(list).len() as int) =~= all_lines(list));
    } else {
        let before = list.drop_last();
        lemma_lines_come_first(before, n, room);
        assert(before.take(n) =~= list.take(n));
        let k = all_lines(list.take(n)).len() as int;
        assert(all_lines(list).take(k) =~= all_lines(before).take(k));
    }
}

/// Every error is said or counted: the line it is said in is shown, or it is one of those
/// whose number the last line gives.
pub proof fn every_error_is_counted(list: Seq<Diagnostic>, i: int)
    requires
        0 <= i < list.len(),
        list[i].severity == Severity::Error,
    ensures
        ({
            let room = message_room(list);
            let at = all_lines(list.take(i)).len() as int;
            if at < room {
                at < messages(list).len() && messages(list)[at] == error_line(list[i])
            } else {
                &&& messages(list).last() == rest_line(left_out(list, room))
                &&& left_out(list.take(i + 1), room) == left_out(list.take(i), room) + 1
                &&& left_out(list.take(i + 1), room) <= left_out(list, room)
            }
        }),
{
    let room = message_room(list);
    let at = all_lines(list.take(i)).len() as int;
    let upto = list.take(i + 1);
    assert(upto.drop_last() =~= list.take(i));
    assert(upto.last() == list[i]);
    lemma_lines_come_first(list, i + 1, room);
    lemma_more_lines(list);
    let lines = all_lines(upto);
    assert(lines[at] == error_line(list[i]));
    assert(all_lines(list).take(lines.len() as int)[at] == all_lines(list)[at]);
    if at >= room && room == MAX_MESSAGE_LINES {
        assert(left_out(upto, room) > 0);
    }
}

/// What an error is said in, written out: its line, its trace from the document's own code to
/// the code nearest the error, and its hints. Of a trace of at most four frames every frame has
/// its line, of a longer one the three outermost, the number of those left out, and the
/// innermost.
pub open spec fn written_out(d: Diagnostic, shown: Seq<Seq<char>>, at: int) -> bool {
    let n = d.trace@.len();
    let traced = if n <= 4 {
        n as int
    } else {
        5
    };
    &&& 0 <= at && at + traced + d.hints@.len() < shown.len()
    &&& shown[at] == "error: "@ + d.message@ + located(d.at)
    &&& n <= 4 ==> forall|k: int|
        0 <= k < n ==> #[trigger] shown[at + 1 + k] == "  "@ + d.trace@[n - 1 - k].message@
            + located(d.trace@[n - 1 - k].at)
    &&& n > 0 ==> shown[at + 1] == "  "@ + d.trace@[n - 1].message@ + located(d.trace@[n - 1].at)
    &&& n > 0 ==> shown[at + traced] == "  "@ + d.trace@[0].message@ + located(d.trace@[0].at)
    &&& n > 4 ==> {
        &&& shown[at + 2] == "  "@ + d.trace@[n - 2].message@ + located(d.trace@[n - 2].at)
        &&& shown[at + 3] == "  "@ + d.trace@[n - 3].message@ + located(d.trace@[n - 3].at)
        &&& shown[at + 4] == "  … "@ + decimal((n - 4) as nat) + " more frame(s) …"@
    }
    &&& forall|h: int|
        0 <= h < d.hints@.len() ==> shown[at + 1 + traced + h] == "  hint: "@ + (
        #[trigger] d.hints@[h])@
}

/// A place in brackets, its line and its column counted from one, and nothing for no place.
pub open spec fn located(at: Option<SourceSpot>) -> Seq<char> {
    match at {
        Some(s) => " ("@ + s.path@ + ":"@ + decimal((s.line + 1) as nat) + ":"@ + decimal(
            (s.column + 1) as nat,
        ) + ")"@,
        None => Seq::empty(),
    }
}

/// Where there is room for all lines, every error is written out with its trace and its hints,
/// after all that is said of the ones before it.
#[verifier::rlimit(80)]
#[verifier::spinoff_prover]
pub proof fn a_trace_is_shown(list: Seq<Diagnostic>, i: int)
    requires
        0 <= i < list.len(),
        list[i].severity == Severity::Error,
        all_lines(list).len() <= 10,
    ensures
        written_out(list[i], messages(list), all_lines(list.take(i)).len() as int),
{
    let at = all_lines(list.take(i)).len() as int;
    let upto = list.take(i + 1);
    let d = list[i];
    assert(upto.drop_last() =~= list.take(i));
    assert(upto.last() == d);
    lemma_more_lines(list);
    lemma_lines_come_first(list, i + 1, 10);
    assert(messages(list) == all_lines(list));
    let lines = all_lines(upto);
    let one = lines_of_one(d);
    let shown = messages(list);
    assert(lines == all_lines(list.take(i)) + one);
    assert forall|k: int| 0 <= k < one.len() implies #[trigger] shown[at + k] == one[k] by {
        assert(lines[at + k] == one[k]);
        assert(all_lines(list).take(lines.len() as int)[at + k] == all_lines(list)[at + k]);
    }
    let n = d.trace@.len();
    let traced = trace_lines(d.trace@);
    let outer = d.trace@.reverse();
    assert(forall|k: int| 0 <= k < n ==> outer[k] == d.trace@[n - 1 - k]);
    let t = traced.len() as int;
    assert(one[0] == error_line(d));
    assert(shown[at + 0] == one[0]);
    assert forall|k: int| 0 <= k < t implies #[trigger] shown[at + 1 + k] == traced[k] by {
        assert(shown[at + (1 + k)] == one[1 + k]);
    }
    let hints = texts(d.hints@).map_values(|h: Seq<char>| hint_line(h));
    assert forall|h: int| 0 <= h < d.hints@.len() implies shown[at + 1 + t + h] == "  hint: "@ + (
    #[trigger] d.hints@[h])@ by {
        assert(shown[at + (1 + t + h)] == one[1 + t + h]);
        assert(one[1 + t + h] == hints[h]);
    }
    if n <= 4 {
        assert forall|k: int| 0 <= k < n implies #[trigger] shown[at + 1 + k] == "  "@
            + d.trace@[n - 1 - k].message@ + located(d.trace@[n - 1 - k].at) by {
            assert(traced[k] == frame_line(outer[k]));
        }
        if n > 0 {
            assert(shown[at + 1 + 0] == traced[0]);
            assert(shown[at + 1 + (n - 1)] == traced[n - 1]);
            assert(traced[0] == frame_line(outer[0]));
            assert(traced[n - 1] == frame_line(outer[n - 1]));
        }
    } else {
        assert(shown[at + 1 + 0] == traced[0]);
        assert(shown[at + 1 + 1] == traced[1]);
        assert(shown[at + 1 + 2] == traced[2]);
        assert(shown[at + 1 + 3] == traced[3]);
        assert(shown[at + 1 + 4] == traced[4]);
        assert(traced[0] == frame_line(outer[0]));
        assert(traced[1] == frame_line(outer[1]));
        assert(traced[2] == frame_line(outer[2]));
        assert(outer.last() == outer[n - 1]);
    }
}

/// A compile without errors has nothing to show, whatever it warns of.
pub proof fn warnings_are_not_shown(list: Seq<Diagnostic>)
    requires
        forall|i: int| 0 <= i < list.len() ==> (#[trigger] list[i]).severity != Severity::Error,
    ensures
        messages(list).len() == 0,
        marked(list).len() == 0,
    decreases list.len(),
{
    if list.len() > 0 {
        let rest = list.drop_last();
        assert(forall|i: int| 0 <= i < rest.len() ==> rest[i] == list[i]);
        warnings_are_not_shown(rest);
        lemma_more_lines(list);
        assert(all_lines(rest).len() == 0) by {
            lemma_more_lines(rest);
        }
    }
}

/// Of more errors than there is room for, the last line says how many have no line: with one
/// line each, all but the first nine.
pub proof fn the_rest_is_counted(list: Seq<Diagnostic>)
    requires
        list.len() > 10,
        forall|i: int|
            0 <= i < list.len() ==> (#[trigger] list[i]).severity == Severity::Error
                && list[i].trace@.len() == 0 && list[i].hints@.len() == 0,
    ensures
        messages(list).len() == 10,
        forall|i: int|
            0 <= i < 9 ==> #[trigger] messages(list)[i] == "error: "@ + list[i].message@ + located(
                list[i].at,
            ),
        messages(list)[9] == "… and "@ + decimal((list.len() - 9) as nat) + " more error(s)"@,
{
    lemma_one_line_each(list, 10);
    lemma_one_line_each(list, 9);
    assert forall|i: int| 0 <= i < 9 implies #[trigger] messages(list)[i] == "error: "@
        + list[i].message@ + located(list[i].at) by {
        assert(messages(list)[i] == all_lines(list)[i]);
    }
}

/// Errors without a trace or a hint take one line each.
proof fn lemma_one_line_each(list: Seq<Diagnostic>, room: nat)
    requires
        forall|i: int|
            0 <= i < list.len() ==> (#[trigger] list[i]).severity == Severity::Error
                && list[i].trace@.len() == 0 && list[i].hints@.len() == 0,
    ensures
        all_lines(list).len() == list.len(),
        forall|i: int| 0 <= i < list.len() ==> #[trigger] all_lines(list)[i] == error_line(list[i]),
        left_out(list, room) == (if list.len() > room {
            (list.len() - room) as nat
        } else {
            0
        }),
    decreases list.len(),
{
    if list.len() > 0 {
        let rest = list.drop_last();
        assert(forall|i: int| 0 <= i < rest.len() ==> rest[i] == list[i]);
        lemma_one_line_each(rest, room);
        let d = list.last();
        assert(list[list.len() - 1] == d);
        assert(lines_of_one(d) =~= seq![error_line(d)]);
    }
}

// ------------------------------------------------------- where to mark them

/// Where a diagnostic may be marked, best first: the document's own code before
/// the code it calls, and the place of the error last.
pub open spec fn spots(d: Diagnostic) -> Seq<(usize, usize, usize)> {
    let frames = frame_spots(d.trace@);
    match d.at {
        Some(s) => frames.push((s.file, s.cursor, s.line)),
        None => frames,
    }
}

/// The places of the frames of a trace, outermost first.
pub open spec fn frame_spots(trace: Seq<TraceFrame>) -> Seq<(usize, usize, usize)>
    decreases trace.len(),
{
    if trace.len() == 0 {
        seq![]
    } else {
        (match trace.last().at {
            Some(s) => seq![(s.file, s.cursor, s.line)],
            None => seq![],
        }) + frame_spots(trace.drop_last())
    }
}

/// Where a diagnostic may be marked, best first: the file, the offset and the
/// line of each place.
pub fn candidates(d: &Diagnostic) -> (r: Vec<(usize, usize, usize)>)
    ensures
        r@ == spots(*d),
{
    let mut out: Vec<(usize, usize, usize)> = Vec::new();
    let mut i: usize = d.trace.len();
    let ghost all = d.trace@;
    assert(all.take(i as int) =~= all);
    assert(out@ + frame_spots(all) =~= frame_spots(all));
    while i > 0
        invariant
            i <= d.trace@.len(),
            all == d.trace@,
            out@ + frame_spots(all.take(i as int)) == frame_spots(all),
        decreases i,
    {
        i = i - 1;
        assert(all.take(i + 1).drop_last() =~= all.take(i as int));
        assert(all.take(i + 1).last() == all[i as int]);
        let ghost before = out@;
        if let Some(s) = &d.trace[i].at {
            out.push((s.file, s.cursor, s.line));
        }
        assert(out@ + frame_spots(all.take(i as int)) =~= before + frame_spots(all.take(i + 1)));
    }
    assert(out@ =~= frame_spots(all));
    if let Some(s) = &d.at {
        out.push((s.file, s.cursor, s.line));
    }
    out
}

/// A diagnostic is marked in the document's own code before the code that calls: of two frames
/// with a place the one further from the error comes first, and the place of the error itself
/// comes last.
pub proof fn the_outermost_place_comes_first(d: Diagnostic)
    ensures
        d.at matches Some(s) ==> spots(d).len() > 0 && spots(d).last() == (s.file, s.cursor, s.line),
        forall|k: int|
            0 <= k < d.trace@.len() && (#[trigger] d.trace@[k]).at is Some ==> spots(d).contains(
                (d.trace@[k].at->0.file, d.trace@[k].at->0.cursor, d.trace@[k].at->0.line),
            ),
        d.trace@.len() > 0 ==> (d.trace@.last().at matches Some(s) ==> spots(d)[0] == (
            s.file,
            s.cursor,
            s.line,
        )),
        spots(d).len() == count_spots(d.trace@) + (if d.at is Some {
            1nat
        } else {
            0nat
        }),
{
    lemma_frame_spots(d.trace@);
    let frames = frame_spots(d.trace@);
    assert forall|k: int| 0 <= k < d.trace@.len() && (#[trigger] d.trace@[k]).at is Some implies spots(
        d,
    ).contains((d.trace@[k].at->0.file, d.trace@[k].at->0.cursor, d.trace@[k].at->0.line)) by {
        let s = d.trace@[k].at->0;
        let j = frames.index_of((s.file, s.cursor, s.line));
        assert(spots(d)[j] == (s.file, s.cursor, s.line));
    }
}

/// How many of some frames have a place.
pub open spec fn count_spots(trace: Seq<TraceFrame>) -> nat {
    trace.filter(|f: TraceFrame| f.at is Some).len()
}

/// The places of some frames are among the places.
proof fn lemma_frame_spots(trace: Seq<TraceFrame>)
    ensures
        frame_spots(trace).len() == count_spots(trace),
        forall|k: int|
            0 <= k < trace.len() && (#[trigger] trace[k]).at is Some ==> frame_spots(
                trace,
            ).contains((trace[k].at->0.file, trace[k].at->0.cursor, trace[k].at->0.line)),
    decreases trace.len(),
{
    reveal(Seq::filter);
    if trace.len() > 0 {
        let rest = trace.drop_last();
        lemma_frame_spots(rest);
        let all = frame_spots(trace);
        let first = all.len() - frame_spots(rest).len();
        assert forall|k: int| 0 <= k < trace.len() && (#[trigger] trace[k]).at is Some implies all.contains(
            (trace[k].at->0.file, trace[k].at->0.cursor, trace[k].at->0.line),
        ) by {
            let s = trace[k].at->0;
            let want = (s.file, s.cursor, s.line);
            if k < rest.len() {
                assert(rest[k] == trace[k]);
                let j = frame_spots(rest).index_of(want);
                assert(all[first + j] == want);
            } else {
                assert(all[0] == want);
            }
        }
    }
}

/// What is marked is what was found, in the order of the errors and at most four of it; where
/// nothing was found it is the place of the last edit.
pub proof fn what_is_found_is_marked<T>(found: Seq<Option<T>>, last_edit: Option<T>)
    ensures
        marks(found, last_edit).len() <= 4,
        (forall|i: int| 0 <= i < found.len() ==> (#[trigger] found[i]) is None) ==> marks(
            found,
            last_edit,
        ) == (match last_edit {
            Some(x) => seq![x],
            None => Seq::empty(),
        }),
        forall|i: int|
            0 <= i < found.len() && (#[trigger] found[i]) is Some && (forall|j: int|
                0 <= j < i ==> (#[trigger] found[j]) is None) ==> marks(found, last_edit).len() > 0
                && marks(found, last_edit)[0] == found[i]->0,
        found.len() <= 4 ==> forall|i: int|
            0 <= i < found.len() && (#[trigger] found[i]) is Some ==> marks(
                found,
                last_edit,
            ).contains(found[i]->0),
{
    lemma_somes(found);
    assert forall|i: int|
        0 <= i < found.len() && (#[trigger] found[i]) is Some && (forall|j: int|
            0 <= j < i ==> (#[trigger] found[j]) is None) implies marks(found, last_edit).len() > 0
        && marks(found, last_edit)[0] == found[i]->0 by {
        lemma_somes_first(found, i);
    }
}

/// What is found among some results is all that is.
proof fn lemma_somes<T>(found: Seq<Option<T>>)
    ensures
        somes(found).len() <= found.len(),
        forall|i: int|
            0 <= i < found.len() && (#[trigger] found[i]) is Some ==> somes(found).contains(
                found[i]->0,
            ),
        (forall|i: int| 0 <= i < found.len() ==> (#[trigger] found[i]) is None) ==> somes(
            found,
        ).len() == 0,
    decreases found.len(),
{
    if found.len() > 0 {
        let rest = found.drop_last();
        lemma_somes(rest);
        assert(forall|i: int| 0 <= i < rest.len() ==> rest[i] == found[i]);
        let all = somes(found);
        assert forall|i: int| 0 <= i < found.len() && (#[trigger] found[i]) is Some implies all.contains(
            found[i]->0,
        ) by {
            if i < rest.len() {
                assert(rest[i] == found[i]);
                let j = somes(rest).index_of(found[i]->0);
                assert(all[j] == found[i]->0);
            } else {
                assert(all.last() == found[i]->0);
                assert(all[all.len() - 1] == found[i]->0);
            }
        }
    }
}

/// The first that is found is the first among what is found.
proof fn lemma_somes_first<T>(found: Seq<Option<T>>, i: int)
    requires
        0 <= i < found.len(),
        found[i] is Some,
        forall|j: int| 0 <= j < i ==> (#[trigger] found[j]) is None,
    ensures
        somes(found).len() > 0 && somes(found)[0] == found[i]->0,
    decreases found.len(),
{
    let rest = found.drop_last();
    assert(forall|j: int| 0 <= j < rest.len() ==> rest[j] == found[j]);
    if i < rest.len() {
        lemma_somes_first(rest, i);
    } else {
        lemma_somes(rest);
    }
}

/// The diagnostics that are marked: the errors that are shown, in order. Each
/// is one more than the last.
pub open spec fn marked(list: Seq<Diagnostic>) -> Seq<int>
    decreases list.len(),
{
    if list.len() == 0 {
        seq![]
    } else {
        let before = marked(list.drop_last());
        if list.last().severity == Severity::Error && all_lines(list.drop_last()).len()
            < MAX_MESSAGE_LINES {
            before.push(list.len() - 1)
        } else {
            before
        }
    }
}

/// Which diagnostics are marked: the errors that are shown.
pub fn marked_errors(list: &Vec<Diagnostic>) -> (r: Vec<usize>)
    ensures
        r@.map_values(|i: usize| i as int) == marked(list@),
{
    let mut out: Vec<usize> = Vec::new();
    let mut lines: Vec<String> = Vec::new();
    let mut i: usize = 0;
    assert(texts(lines@) =~= seq![]);
    assert(out@.map_values(|i: usize| i as int) =~= seq![]);
    while i < list.len()
        invariant
            i <= list@.len(),
            out@.map_values(|i: usize| i as int) == marked(list@.take(i as int)),
            texts(lines@) == shown_lines(all_lines(list@.take(i as int))),
        decreases list@.len() - i,
    {
        let ghost before = list@.take(i as int);
        let ghost was = out@.map_values(|i: usize| i as int);
        assert(list@.take(i + 1).drop_last() =~= before);
        assert(list@.take(i + 1).last() == list@[i as int]);
        assert(texts(lines@).len() == lines@.len());
        if list[i].severity == Severity::Error {
            if lines.len() < MAX_MESSAGE_LINES {
                out.push(i);
                assert(out@.map_values(|i: usize| i as int) =~= was.push(i as int));
                add_one(&mut lines, &list[i], Ghost(all_lines(before)));
            } else {
                assert(shown_lines(all_lines(before) + lines_of_one(list@[i as int]))
                    =~= shown_lines(all_lines(before)));
            }
        }
        i = i + 1;
    }
    assert(list@.take(i as int) =~= list@);
    out
}

/// What is found among some results, in order.
pub open spec fn somes<T>(found: Seq<Option<T>>) -> Seq<T>
    decreases found.len(),
{
    if found.len() == 0 {
        seq![]
    } else {
        match found.last() {
            Some(x) => somes(found.drop_last()).push(x),
            None => somes(found.drop_last()),
        }
    }
}

/// The places that are marked: the first that were found, or else the site of
/// the last edit, which is what most likely broke the compile.
pub open spec fn marks<T>(found: Seq<Option<T>>, last_edit: Option<T>) -> Seq<T> {
    let all = somes(found);
    if all.len() > MAX_LOCATIONS {
        all.take(MAX_LOCATIONS as int)
    } else if all.len() > 0 {
        all
    } else {
        match last_edit {
            Some(x) => seq![x],
            None => seq![],
        }
    }
}

/// The places that are marked, of what was found for each error that is, and of
/// what was found for the last edit.
pub fn pick_marks<T: Copy>(found: &Vec<Option<T>>, last_edit: Option<T>) -> (r: Vec<T>)
    ensures
        r@ == marks(found@, last_edit),
{
    let mut out: Vec<T> = Vec::new();
    let mut i: usize = 0;
    while i < found.len()
        invariant
            i <= found@.len(),
            out@ == (if somes(found@.take(i as int)).len() > MAX_LOCATIONS {
                somes(found@.take(i as int)).take(MAX_LOCATIONS as int)
            } else {
                somes(found@.take(i as int))
            }),
        decreases found@.len() - i,
    {
        assert(found@.take(i + 1).drop_last() =~= found@.take(i as int));
        assert(found@.take(i + 1).last() == found@[i as int]);
        let ghost before = somes(found@.take(i as int));
        if let Some(x) = found[i] {
            if out.len() < MAX_LOCATIONS {
                out.push(x);
            } else {
                assert(before.push(x).take(MAX_LOCATIONS as int) =~= out@);
            }
        }
        i = i + 1;
    }
    assert(found@.take(i as int) =~= found@);
    if out.len() == 0 {
        if let Some(x) = last_edit {
            out.push(x);
        }
    }
    out
}

// ----------------------------------------------------------- where to probe

/// Whether Unicode calls a character a letter or a number.
pub uninterp spec fn alphanumeric(c: char) -> bool;

/// `char::is_alphanumeric`: whether Unicode calls a character a letter or a
/// number.
#[verifier::external_body]
fn is_alphanumeric(c: char) -> (r: bool)
    ensures
        r == alphanumeric(c),
{
    c.is_alphanumeric()
}

/// The offsets just after each letter or number of a text.
pub open spec fn letter_ends(text: Seq<char>) -> Seq<int>
    decreases text.len(),
{
    if text.len() == 0 {
        seq![]
    } else {
        let before = letter_ends(text.drop_last());
        if alphanumeric(text.last()) {
            before.push(encode_utf8(text).len() as int)
        } else {
            before
        }
    }
}

/// The first `count` of some offsets.
pub open spec fn first_of(list: Seq<int>, count: int) -> Seq<int> {
    if list.len() <= count {
        list
    } else {
        list.take(count)
    }
}

/// The offsets just after each letter or number of a text.
fn all_letter_ends(text: &str) -> (r: Vec<usize>)
    ensures
        r@.map_values(|n: usize| n as int) == letter_ends(text@),
        forall|i: int| 0 <= i < r@.len() ==> #[trigger] r@[i] <= encode_utf8(text@).len(),
{
    let t: Vec<char> = chars_of(text);
    let total: usize = byte_len(text);
    let mut out: Vec<usize> = Vec::new();
    let mut at: usize = 0;
    let mut i: usize = 0;
    assert(out@.map_values(|n: usize| n as int) =~= letter_ends(text@.take(0)));
    assert(encode_utf8(text@.take(0)).len() == 0);
    while i < t.len()
        invariant
            i <= t@.len(),
            t@ == text@,
            total == encode_utf8(text@).len(),
            at == encode_utf8(text@.take(i as int)).len(),
            at <= total,
            out@.map_values(|n: usize| n as int) == letter_ends(text@.take(i as int)),
            forall|k: int| 0 <= k < out@.len() ==> #[trigger] out@[k] <= total,
        decreases t@.len() - i,
    {
        let c: char = t[i];
        let mut one: Vec<char> = Vec::new();
        one.push(c);
        let len: usize = byte_len(string_of(one.as_slice()).as_str());
        let ghost upto = text@.take(i + 1);
        proof {
            assert(upto =~= text@.take(i as int) + seq![c]);
            assert(one@ =~= seq![c]);
            lemma_encode_concat(text@.take(i as int), seq![c]);
            assert(text@ =~= upto + text@.skip(i + 1));
            lemma_encode_concat(upto, text@.skip(i + 1));
            assert(upto.drop_last() =~= text@.take(i as int));
        }
        let ghost before = out@.map_values(|n: usize| n as int);
        at = at + len;
        if is_alphanumeric(c) {
            out.push(at);
            assert(out@.map_values(|n: usize| n as int) =~= before.push(at as int));
        }
        i = i + 1;
    }
    assert(text@.take(i as int) =~= text@);
    out
}

/// Where to probe for a text that starts at `start`: just after each of its
/// first letters and numbers, or, from the end, just after each of its last.
pub open spec fn probes(text: Seq<char>, start: int, count: int, from_end: bool) -> Seq<int> {
    let all = letter_ends(text).map_values(|n: int| start + n);
    first_of(
        if from_end {
            all.reverse()
        } else {
            all
        },
        count,
    )
}

/// Where to probe for a text that starts at `start`, at most `count` places:
/// only letters and numbers are drawn for sure.
pub fn probe_offsets(text: &str, start: usize, count: usize, from_end: bool) -> (r: Vec<usize>)
    requires
        start + encode_utf8(text@).len() <= usize::MAX,
    ensures
        r@.map_values(|n: usize| n as int) == probes(text@, start as int, count as int, from_end),
{
    let all: Vec<usize> = all_letter_ends(text);
    let n: usize = if all.len() <= count {
        all.len()
    } else {
        count
    };
    let ghost ends = letter_ends(text@).map_values(|n: int| start + n);
    let ghost order = if from_end {
        ends.reverse()
    } else {
        ends
    };
    assert(letter_ends(text@).len() == all@.len());
    let mut out: Vec<usize> = Vec::new();
    let mut i: usize = 0;
    while i < n
        invariant
            i <= n <= all@.len(),
            all@.map_values(|n: usize| n as int) == letter_ends(text@),
            forall|i: int| 0 <= i < all@.len() ==> #[trigger] all@[i] <= encode_utf8(text@).len(),
            start + encode_utf8(text@).len() <= usize::MAX,
            ends == letter_ends(text@).map_values(|n: int| start + n),
            order == (if from_end {
                ends.reverse()
            } else {
                ends
            }),
            out@.len() == i,
            forall|k: int| 0 <= k < i ==> #[trigger] out@[k] == order[k],
        decreases n - i,
    {
        let j: usize = if from_end {
            all.len() - 1 - i
        } else {
            i
        };
        assert(letter_ends(text@)[j as int] == all@.map_values(|n: usize| n as int)[j as int]);
        assert(order[i as int] == start + all@[j as int]);
        out.push(start + all[j]);
        i = i + 1;
    }
    assert(out@.map_values(|n: usize| n as int) =~= probes(
        text@,
        start as int,
        count as int,
        from_end,
    ));
    out
}

// --------------------------------------------------- the paragraph of a cursor

/// The kinds of node that stand for themselves.
pub open spec fn stands_alone(kind: Seq<char>) -> bool {
    ||| kind == "Heading"@
    ||| kind == "ListItem"@
    ||| kind == "EnumItem"@
    ||| kind == "TermItem"@
}

/// Whether a node ends a paragraph.
pub open spec fn ends_paragraph(kind: Seq<char>) -> bool {
    kind == "Parbreak"@ || stands_alone(kind)
}

/// What is directly inside the root of a tree.
pub open spec fn top_level(tree: Seq<(int, Seq<char>, int, int)>) -> Seq<(Seq<char>, int, int)>
    decreases tree.len(),
{
    if tree.len() == 0 {
        seq![]
    } else {
        let before = top_level(tree.drop_last());
        let n = tree.last();
        if n.0 == 1 {
            before.push((n.1, n.2, n.3))
        } else {
            before
        }
    }
}

/// Which of some nodes starts at an offset.
pub open spec fn starting_at(list: Seq<(Seq<char>, int, int)>, start: int, from: int) -> Option<int>
    decreases list.len() - from,
{
    if from < 0 || from >= list.len() {
        None
    } else if list[from].1 == start {
        Some(from)
    } else {
        starting_at(list, start, from + 1)
    }
}

/// The first of the nodes before and including one that no end of a paragraph
/// is among.
pub open spec fn run_first(list: Seq<(Seq<char>, int, int)>, at: int) -> int
    decreases at,
{
    if at <= 0 || ends_paragraph(list[at - 1].0) {
        at
    } else {
        run_first(list, at - 1)
    }
}

/// The last of the nodes from one on that no end of a paragraph is among.
pub open spec fn run_last(list: Seq<(Seq<char>, int, int)>, at: int) -> int
    decreases list.len() - at,
{
    if at + 1 >= list.len() || ends_paragraph(list[at + 1].0) {
        at
    } else {
        run_last(list, at + 1)
    }
}

/// The paragraph around a cursor, of the nodes that enclose it and those that
/// are directly inside the root. Only a cursor on text has one.
pub open spec fn paragraph_of(
    around: Seq<(Seq<char>, int, int)>,
    top: Seq<(Seq<char>, int, int)>,
) -> Option<(int, int)> {
    if around.len() == 0 || !(around[0].0 == "Text"@ || around[0].0 == "MathText"@) {
        None
    } else {
        let n = if around.len() >= 2 {
            around[around.len() - 2]
        } else {
            around[0]
        };
        if stands_alone(n.0) {
            Some((n.1, n.2))
        } else {
            match starting_at(top, n.1, 0) {
                None => None,
                Some(at) => Some((top[run_first(top, at)].1, top[run_last(top, at)].2)),
            }
        }
    }
}

/// Whether a node stands for itself.
fn alone(kind: &str) -> (r: bool)
    ensures
        r == stands_alone(kind@),
{
    same(kind, "Heading") || same(kind, "ListItem") || same(kind, "EnumItem") || same(
        kind,
        "TermItem",
    )
}

/// What is directly inside the root of a tree.
fn top_of(tree: &Vec<(usize, String, usize, usize)>) -> (r: Vec<(String, usize, usize)>)
    ensures
        nodes(r@) == top_level(branches(tree@)),
{
    let ghost all = branches(tree@);
    let mut out: Vec<(String, usize, usize)> = Vec::new();
    let mut i: usize = 0;
    assert(nodes(out@) =~= top_level(all.take(0)));
    while i < tree.len()
        invariant
            i <= tree@.len(),
            all == branches(tree@),
            nodes(out@) == top_level(all.take(i as int)),
        decreases tree@.len() - i,
    {
        let ghost before = nodes(out@);
        assert(all.take(i + 1).drop_last() =~= all.take(i as int));
        assert(all.take(i + 1).last() == branch(tree@[i as int]));
        if tree[i].0 == 1 {
            out.push((tree[i].1.clone(), tree[i].2, tree[i].3));
            assert(nodes(out@) =~= before.push(node(out@.last())));
        }
        i = i + 1;
    }
    assert(all.take(i as int) =~= all);
    out
}

/// The paragraph around a cursor, of the nodes that enclose it and those that
/// are directly inside the root.
pub fn pick_paragraph(
    around: &Vec<(String, usize, usize)>,
    top: &Vec<(String, usize, usize)>,
) -> (r: Option<Range<usize>>)
    ensures
        is_range(r, paragraph_of(nodes(around@), nodes(top@))),
{
    let ghost a = nodes(around@);
    let ghost t = nodes(top@);
    let count: usize = around.len();
    if count == 0 {
        return None;
    }
    assert(a[0] == node(around@[0]));
    if !same(around[0].0.as_str(), "Text") && !same(around[0].0.as_str(), "MathText") {
        return None;
    }
    let k: usize = if count >= 2 {
        count - 2
    } else {
        0
    };
    assert(a[k as int] == node(around@[k as int]));
    let start: usize = around[k].1;
    if alone(around[k].0.as_str()) {
        return Some(Range { start, end: around[k].2 });
    }
    let n: usize = top.len();
    let mut at: usize = 0;
    while at < n && top[at].1 != start
        invariant
            at <= n,
            n == top@.len(),
            t == nodes(top@),
            starting_at(t, start as int, 0) == starting_at(t, start as int, at as int),
        decreases n - at,
    {
        assert(t[at as int] == node(top@[at as int]));
        at = at + 1;
    }
    if at == n {
        return None;
    }
    assert(t[at as int] == node(top@[at as int]));
    let mut lo: usize = at;
    while lo > 0 && !same(top[lo - 1].0.as_str(), "Parbreak") && !alone(top[lo - 1].0.as_str())
        invariant
            lo <= at < n,
            n == top@.len(),
            t == nodes(top@),
            run_first(t, at as int) == run_first(t, lo as int),
        decreases lo,
    {
        assert(t[lo - 1] == node(top@[lo - 1]));
        lo = lo - 1;
    }
    proof {
        if lo > 0 {
            assert(t[lo - 1] == node(top@[lo - 1]));
        }
    }
    let mut hi: usize = at;
    while hi + 1 < n && !same(top[hi + 1].0.as_str(), "Parbreak") && !alone(
        top[hi + 1].0.as_str(),
    )
        invariant
            at <= hi < n,
            n == top@.len(),
            t == nodes(top@),
            run_last(t, at as int) == run_last(t, hi as int),
        decreases n - hi,
    {
        assert(t[hi + 1] == node(top@[hi + 1]));
        hi = hi + 1;
    }
    proof {
        if hi + 1 < n {
            assert(t[hi + 1] == node(top@[hi + 1]));
        }
        assert(t[lo as int] == node(top@[lo as int]));
        assert(t[hi as int] == node(top@[hi as int]));
    }
    Some(Range { start: top[lo].1, end: top[hi].2 })
}

/// The paragraph around a cursor: a heading or an item for itself, and
/// otherwise the run of text between paragraph breaks. Only a cursor on text
/// has one, and none elsewhere is made up.
pub fn cursor_paragraph(text: &str, cursor: usize) -> (r: Option<Range<usize>>)
    ensures
        is_range(
            r,
            paragraph_of(enclosing_nodes(text@, cursor as int), top_level(syntax_tree(text@))),
        ),
{
    let around: Vec<(String, usize, usize)> = enclosing(text, cursor);
    let tree: Vec<(usize, String, usize, usize)> = tree_of(text);
    let top: Vec<(String, usize, usize)> = top_of(&tree);
    pick_paragraph(&around, &top)
}

/// The places tried in a text are the ends of its letters and digits, from the start on or from the
/// end back, as many as are asked for.
pub proof fn letters_are_tried(text: Seq<char>, start: int, count: int, k: int)
    requires
        0 <= k < text.len(),
        alphanumeric(text[k]),
        letter_ends(text).len() <= count,
    ensures
        probes(text, start, count, false).contains(start + encode_utf8(text.take(k + 1)).len()),
        probes(text, start, count, true).contains(start + encode_utf8(text.take(k + 1)).len()),
{
    lemma_letter_ends(text, k);
    let at = encode_utf8(text.take(k + 1)).len() as int;
    let ends = letter_ends(text);
    let i = ends.index_of(at);
    let all = ends.map_values(|n: int| start + n);
    assert(all[i] == start + at);
    assert(all.reverse()[all.len() - 1 - i] == start + at);
}

/// The end of every letter is among the ends of letters.
proof fn lemma_letter_ends(text: Seq<char>, k: int)
    requires
        0 <= k < text.len(),
        alphanumeric(text[k]),
    ensures
        letter_ends(text).contains(encode_utf8(text.take(k + 1)).len() as int),
    decreases text.len(),
{
    let before = letter_ends(text.drop_last());
    let all = letter_ends(text);
    if k == text.len() - 1 {
        assert(text.take(k + 1) =~= text);
        assert(all[before.len() as int] == encode_utf8(text).len());
    } else {
        lemma_letter_ends(text.drop_last(), k);
        assert(text.drop_last().take(k + 1) =~= text.take(k + 1));
        let i = before.index_of(encode_utf8(text.take(k + 1)).len() as int);
        assert(all[i] == before[i]);
    }
}

/// No more places are tried than were asked for, the first letters first; or the last, from the end
/// back.
pub proof fn only_so_many_are_tried(text: Seq<char>, start: int, count: int)
    requires
        0 < count,
    ensures
        probes(text, start, count, false).len() <= count,
        probes(text, start, count, true).len() <= count,
        letter_ends(text).len() > 0 ==> probes(text, start, count, false)[0] == start + letter_ends(
            text,
        )[0] && probes(text, start, count, true)[0] == start + letter_ends(text).last(),
{
    let all = letter_ends(text).map_values(|n: int| start + n);
    if letter_ends(text).len() > 0 {
        assert(all.reverse()[0] == all[all.len() - 1]);
    }
}

/// An error is looked for on the pages when something of it is among the lines that are shown, and
/// only errors are.
pub proof fn what_is_shown_is_marked(list: Seq<Diagnostic>, i: int)
    requires
        0 <= i < list.len(),
    ensures
        marked(list).contains(i) <==> list[i].severity == Severity::Error && all_lines(
            list.take(i),
        ).len() < 10,
    decreases list.len(),
{
    let before = list.drop_last();
    let head = marked(before);
    let all = marked(list);
    let n = list.len() - 1;
    lemma_marked_inside(before);
    if i < n {
        what_is_shown_is_marked(before, i);
        assert(before.take(i) =~= list.take(i));
        if all.contains(i) {
            let k = all.index_of(i);
            assert(k < head.len());
            assert(head[k] == i);
        }
        if head.contains(i) {
            let k = head.index_of(i);
            assert(all[k] == i);
        }
    } else {
        assert(list.take(i) =~= before);
        if all.contains(i) {
            let k = all.index_of(i);
            if k < head.len() {
                assert(head[k] < before.len());
            }
        }
        if all.len() > head.len() {
            assert(all[head.len() as int] == i);
        }
    }
}

/// What is marked is one of the diagnostics.
proof fn lemma_marked_inside(list: Seq<Diagnostic>)
    ensures
        forall|k: int| 0 <= k < marked(list).len() ==> 0 <= #[trigger] marked(list)[k] < list.len(),
    decreases list.len(),
{
    if list.len() > 0 {
        let before = marked(list.drop_last());
        lemma_marked_inside(list.drop_last());
        assert forall|k: int| 0 <= k < marked(list).len() implies 0 <= #[trigger] marked(list)[k]
            < list.len() by {
            if k < before.len() {
                assert(marked(list)[k] == before[k]);
            }
        }
    }
}

/// Whether a kind of node ends a paragraph of running text: a blank line, a heading, or an item.
pub open spec fn is_break(kind: Seq<char>) -> bool {
    kind == "Parbreak"@ || kind == "Heading"@ || kind == "ListItem"@ || kind == "EnumItem"@ || kind
        == "TermItem"@
}

/// The paragraph of running text around a node is all that stands with it between two breaks, and a
/// heading or an item is a paragraph by itself.
pub proof fn a_paragraph_runs_between_breaks(
    around: Seq<(Seq<char>, int, int)>,
    top: Seq<(Seq<char>, int, int)>,
    first: int,
    k: int,
    last: int,
)
    requires
        around.len() >= 2,
        around[0].0 == "Text"@,
        0 <= first <= k <= last < top.len(),
        top[k].1 == around[around.len() - 2].1,
        forall|i: int| 0 <= i < k ==> (#[trigger] top[i]).1 != top[k].1,
        forall|i: int| first <= i <= last && i != k ==> !is_break((#[trigger] top[i]).0),
        first == 0 || is_break(top[first - 1].0),
        last + 1 == top.len() || is_break(top[last + 1].0),
    ensures
        ({
            let n = around[around.len() - 2];
            let alone = n.0 == "Heading"@ || n.0 == "ListItem"@ || n.0 == "EnumItem"@ || n.0
                == "TermItem"@;
            &&& alone ==> paragraph_of(around, top) == Some((n.1, n.2))
            &&& !alone ==> paragraph_of(around, top) == Some((top[first].1, top[last].2))
        }),
{
    lemma_starting_at(top, k, 0);
    lemma_run_first(top, first, k);
    lemma_run_last(top, k, last);
}

/// What is clicked where no text is has no paragraph.
pub proof fn only_text_has_a_paragraph(
    around: Seq<(Seq<char>, int, int)>,
    top: Seq<(Seq<char>, int, int)>,
)
    requires
        around.len() == 0 || (around[0].0 != "Text"@ && around[0].0 != "MathText"@),
    ensures
        paragraph_of(around, top) is None,
{
}

/// The first node that starts at a place is found.
proof fn lemma_starting_at(list: Seq<(Seq<char>, int, int)>, k: int, from: int)
    requires
        0 <= from <= k < list.len(),
        forall|i: int| 0 <= i < k ==> (#[trigger] list[i]).1 != list[k].1,
    ensures
        starting_at(list, list[k].1, from) == Some(k),
    decreases k - from,
{
    if from < k {
        assert(list[from].1 != list[k].1);
        lemma_starting_at(list, k, from + 1);
    }
}

/// A run of text begins after the last break before it.
proof fn lemma_run_first(list: Seq<(Seq<char>, int, int)>, first: int, at: int)
    requires
        0 <= first <= at < list.len(),
        forall|i: int| first <= i < at ==> !is_break((#[trigger] list[i]).0),
        first == 0 || is_break(list[first - 1].0),
    ensures
        run_first(list, at) == first,
    decreases at,
{
    if first < at {
        assert(!is_break(list[at - 1].0));
        lemma_run_first(list, first, at - 1);
    }
}

/// A run of text ends before the first break after it.
proof fn lemma_run_last(list: Seq<(Seq<char>, int, int)>, at: int, last: int)
    requires
        0 <= at <= last < list.len(),
        forall|i: int| at < i <= last ==> !is_break((#[trigger] list[i]).0),
        last + 1 == list.len() || is_break(list[last + 1].0),
    ensures
        run_last(list, at) == last,
    decreases last - at,
{
    if at < last {
        assert(!is_break(list[at + 1].0));
        lemma_run_last(list, at + 1, last);
    }
}

/// The nodes right under the root of a tree are at the top level, and no others.
pub proof fn the_top_level_is_under_the_root(
    tree: Seq<(int, Seq<char>, int, int)>,
    n: (Seq<char>, int, int),
)
    ensures
        top_level(tree).contains(n) <==> tree.contains((1int, n.0, n.1, n.2)),
    decreases tree.len(),
{
    if tree.len() > 0 {
        let whole = (1int, n.0, n.1, n.2);
        let before = tree.drop_last();
        let head = top_level(before);
        let all = top_level(tree);
        the_top_level_is_under_the_root(before, n);
        if all.contains(n) {
            let k = all.index_of(n);
            if k < head.len() {
                assert(head[k] == n);
                let i = before.index_of(whole);
                assert(tree[i] == whole);
            } else {
                assert(tree[tree.len() - 1] == whole);
            }
        }
        if tree.contains(whole) {
            let i = tree.index_of(whole);
            if i < before.len() {
                assert(before[i] == whole);
                let k = head.index_of(n);
                assert(all[k] == n);
            } else {
                assert(all[head.len() as int] == n);
            }
        }
    }
}

} // verus!

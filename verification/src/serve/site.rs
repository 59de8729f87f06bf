//! What a directory of documents holds, as a listing shows it.

use vstd::prelude::*;
use vstd::string::*;

use crate::json::{json_v, text_list, texts_v, Json, JsonList, JsonObject, JsonV};
use crate::json::{compact, to_text};
use crate::num::{decimal, push_decimal};
use crate::paths::{
    extension, file_name, file_stem, has_extension, is_sidecar, names_sidecar, path_extension,
    path_name, path_stem, sidecar_of, sidecar_path,
};
use crate::preview::marks::{ends_line, is_line_end};
use crate::scan::{first_in, lemma_first_in};
use crate::serve::blocks::ANCHOR_OPENING;
use crate::text::{
    after_prefix, begins, chars_of, contains, empty, find, find_at, find_from, is_space, join,
    joined, lemma_drop_while, lemma_find_from, lemma_find_from_skip, lemma_rfind_upto,
    lemma_take_while, lines, lines_of, lower, occurs, only, opt_str, opt_text, push, rfind_upto,
    same, stands, stands_at, starts_with, string_of, strip_prefix, take_while, texts, to_lower,
    trim, trim_slice, trim_start, trim_start_char, trim_start_char_slice, trim_start_slice,
};

verus! {

// ------------------------------------------------------------ what a file is

/// The extensions a directory hands over as they are.
pub open spec fn is_asset_extension(ext: Seq<char>) -> bool {
    ||| ext == "pdf"@
    ||| ext == "png"@
    ||| ext == "jpg"@
    ||| ext == "jpeg"@
    ||| ext == "gif"@
    ||| ext == "webp"@
    ||| ext == "svg"@
    ||| ext == "md"@
    ||| ext == "txt"@
    ||| ext == "csv"@
    ||| ext == "json"@
    ||| ext == "html"@
}

/// Whether a path is one of a file that is handed over as it is.
pub open spec fn names_asset(path: Seq<char>) -> bool {
    match path_extension(path) {
        Some(ext) => is_asset_extension(lower(ext)),
        None => false,
    }
}

/// Whether a path is one of a file that is handed over as it is: a document's
/// pictures, the PDF it was exported to, the notes beside it.
pub fn is_asset(path: &str) -> (r: bool)
    ensures
        r == names_asset(path@),
{
    match extension(path) {
        None => false,
        Some(ext) => {
            let small: String = to_lower(ext.as_str());
            let e: &str = small.as_str();
            same(e, "pdf") || same(e, "png") || same(e, "jpg") || same(e, "jpeg") || same(e, "gif")
                || same(e, "webp") || same(e, "svg") || same(e, "md") || same(e, "txt") || same(
                e,
                "csv",
            ) || same(e, "json") || same(e, "html")
        },
    }
}

/// Whether a path is one to leave alone: dotfiles, and the directories that
/// hold what a build left behind.
pub open spec fn is_hidden(path: Seq<char>) -> bool {
    match path_name(path) {
        None => true,
        Some(name) => begins(name, "."@) || name == "target"@ || name == "node_modules"@ || name
            == "__pycache__"@,
    }
}

/// Whether a name is one to leave alone.
pub fn hidden(path: &str) -> (r: bool)
    ensures
        r == is_hidden(path@),
{
    match file_name(path) {
        None => true,
        Some(name) => {
            let n: &str = name.as_str();
            starts_with(n, ".") || same(n, "target") || same(n, "node_modules") || same(
                n,
                "__pycache__",
            )
        },
    }
}

/// Whether a path is one of a document: Typst source that is no sidecar.
pub open spec fn names_document(path: Seq<char>) -> bool {
    path_extension(path) == Some("typ"@) && !names_sidecar(path)
}

/// Whether a path is one of a document.
pub fn is_document(path: &str) -> (r: bool)
    ensures
        r == names_document(path@),
{
    has_extension(path, "typ") && !is_sidecar(path)
}

/// What a search for documents finds in one directory.
#[derive(Debug)]
pub struct DirScan {
    /// Whether there is a document directly in it.
    pub found: bool,
    /// The directories in it that are worth a look.
    pub dirs: Vec<String>,
}

/// The directories among some entries that are worth a look.
pub open spec fn dirs_among(entries: Seq<(Seq<char>, bool)>) -> Seq<Seq<char>>
    decreases entries.len(),
{
    if entries.len() == 0 {
        seq![]
    } else {
        let before = dirs_among(entries.drop_last());
        let e = entries.last();
        if e.1 && !is_hidden(e.0) {
            before.push(e.0)
        } else {
            before
        }
    }
}

/// The paths of some entries, and whether each is a directory.
pub open spec fn entry_views(entries: Seq<(String, bool)>) -> Seq<(Seq<char>, bool)> {
    entries.map_values(|e: (String, bool)| (e.0@, e.1))
}

/// Whether one entry is a document a search can see.
pub open spec fn seen_document(e: (Seq<char>, bool)) -> bool {
    !e.1 && !is_hidden(e.0) && names_document(e.0)
}

/// What a search for documents finds in one directory, of its entries and
/// whether each is a directory.
pub fn scan_dir(entries: &Vec<(String, bool)>) -> (r: DirScan)
    ensures
        r.found == (exists|i: int|
            0 <= i < entries@.len() && seen_document(#[trigger] entry_views(entries@)[i])),
        texts(r.dirs@) == dirs_among(entry_views(entries@)),
{
    let ghost all = entry_views(entries@);
    let mut found: bool = false;
    let mut dirs: Vec<String> = Vec::new();
    let mut i: usize = 0;
    assert(texts(dirs@) =~= dirs_among(all.take(0)));
    while i < entries.len()
        invariant
            i <= entries@.len(),
            all == entry_views(entries@),
            found == (exists|k: int| 0 <= k < i && seen_document(#[trigger] all[k])),
            texts(dirs@) == dirs_among(all.take(i as int)),
        decreases entries@.len() - i,
    {
        let path: &str = entries[i].0.as_str();
        let ghost before = texts(dirs@);
        assert(all[i as int] == (entries@[i as int].0@, entries@[i as int].1));
        assert(all.take(i + 1).drop_last() =~= all.take(i as int));
        assert(all.take(i + 1).last() == all[i as int]);
        if !hidden(path) {
            if entries[i].1 {
                dirs.push(path.to_string());
                assert(texts(dirs@) =~= before.push(path@));
            } else if is_document(path) {
                found = true;
                assert(seen_document(all[i as int]));
            }
        }
        i = i + 1;
    }
    assert(all.take(i as int) =~= all);
    DirScan { found, dirs }
}

// --------------------------------------------------------- what a document is

/// Whether a line of source is one of something to read: a figure, a block
/// equation or a heading.
pub open spec fn reads_as_document(line: Seq<char>) -> bool {
    let l = trim_start(line);
    let rest = trim_start_char(l, '=');
    ||| begins(l, "#figure("@)
    ||| begins(l, "$"@)
    ||| (rest.len() < l.len() && begins(rest, " "@) && trim(rest).len() > 0)
}

/// Whether source looks like something to read: a heading, a figure, or a block
/// equation, each at the start of a line where it is markup rather than part of
/// an expression.
pub fn has_heading(text: &str) -> (r: bool)
    ensures
        r == (exists|i: int|
            0 <= i < lines(text@).len() && reads_as_document(#[trigger] lines(text@)[i])),
{
    let all: Vec<String> = lines_of(text);
    let ghost want = lines(text@);
    assert(texts(all@).len() == all@.len());
    let mut i: usize = 0;
    while i < all.len()
        invariant
            i <= all@.len(),
            texts(all@) == want,
            want == lines(text@),
            want.len() == all@.len(),
            forall|k: int| 0 <= k < i ==> !reads_as_document(#[trigger] want[k]),
        decreases all@.len() - i,
    {
        assert(want[i as int] == all@[i as int]@);
        let t: Vec<char> = chars_of(all[i].as_str());
        let l: &[char] = trim_start_slice(t.as_slice());
        let line: String = string_of(l);
        if starts_with(line.as_str(), "#figure(") || starts_with(line.as_str(), "$") {
            assert(reads_as_document(want[i as int]));
            return true;
        }
        let rest: &[char] = trim_start_char_slice(l, '=');
        if rest.len() < l.len() && starts_with(string_of(rest).as_str(), " ") && trim_slice(
            rest,
        ).len() > 0 {
            assert(reads_as_document(want[i as int]));
            return true;
        }
        i = i + 1;
    }
    false
}

/// Whether a character opens a bracket.
pub open spec fn opens(c: char) -> bool {
    c == '(' || c == '[' || c == '{'
}

/// Whether a character closes a bracket.
pub open spec fn closes(c: char) -> bool {
    c == ')' || c == ']' || c == '}'
}

/// Whether a comment up to the end of its line begins at a place. The slashes of a web address
/// begin none.
pub open spec fn line_comment(text: Seq<char>, at: int) -> bool {
    &&& stands_at(text, "//"@, at)
    &&& !stands_at(text, "http://"@, at - 5)
    &&& !stands_at(text, "https://"@, at - 6)
}

/// Where a comment in stars ends that `depth` of them are open in at a place: they nest.
pub open spec fn star_comment_end(text: Seq<char>, at: int, depth: nat) -> int
    decreases text.len() - at,
{
    if at < 0 || at + 1 >= text.len() {
        text.len() as int
    } else if text[at] == '/' && text[at + 1] == '*' {
        star_comment_end(text, at + 2, depth + 1)
    } else if text[at] == '*' && text[at + 1] == '/' {
        if depth <= 1 {
            at + 2
        } else {
            star_comment_end(text, at + 2, (depth - 1) as nat)
        }
    } else {
        star_comment_end(text, at + 1, depth)
    }
}

/// Where the comment ends that begins at a place, if one does.
pub open spec fn comment_end(text: Seq<char>, at: int) -> Option<int> {
    if line_comment(text, at) {
        Some(first_in(at, text.len() as int, |i: int| ends_line(text[i])))
    } else if stands_at(text, "/*"@, at) {
        Some(star_comment_end(text, at + 2, 1))
    } else {
        None
    }
}

/// A comment ends after it begins, and inside the text.
pub proof fn lemma_comment_end(text: Seq<char>, at: int)
    ensures
        comment_end(text, at) matches Some(end) ==> at < end <= text.len(),
{
    reveal_strlit("//");
    reveal_strlit("/*");
    if line_comment(text, at) {
        let ending = |i: int| ends_line(text[i]);
        assert(text.subrange(at, at + 2)[0] == text[at]);
        assert(!ending(at));
        lemma_first_in(at, text.len() as int, ending);
    } else if stands_at(text, "/*"@, at) {
        lemma_star_comment_end(text, at + 2, 1);
    }
}

/// A comment in stars ends further on, and inside the text.
proof fn lemma_star_comment_end(text: Seq<char>, at: int, depth: nat)
    requires
        0 <= at <= text.len(),
    ensures
        at <= star_comment_end(text, at, depth) <= text.len(),
    decreases text.len() - at,
{
    if at + 1 < text.len() {
        lemma_star_comment_end(text, at + 2, depth + 1);
        lemma_star_comment_end(text, at + 1, depth);
        if depth > 1 {
            lemma_star_comment_end(text, at + 2, (depth - 1) as nat);
        }
    }
}

/// Where what is no part of the brackets around it ends that begins at a place: a comment, raw
/// text between backticks, or a formula between dollar signs.
pub open spec fn aside_end(text: Seq<char>, at: int) -> Option<int> {
    match comment_end(text, at) {
        Some(end) => Some(end),
        None => if 0 <= at < text.len() && (text[at] == '`' || text[at] == '$') {
            match find_from(text, seq![text[at]], at + 1) {
                Some(close) => Some(close + 1),
                None => None,
            }
        } else {
            None
        },
    }
}

/// It ends after it begins, and inside the text.
pub proof fn lemma_aside_end(text: Seq<char>, at: int)
    ensures
        aside_end(text, at) matches Some(end) ==> at < end <= text.len(),
{
    lemma_comment_end(text, at);
    if 0 <= at < text.len() {
        lemma_find_from(text, seq![text[at]], at + 1);
    }
}

/// The first place from `at` on where `needle` stands among the arguments of a call, or where
/// the call closes, or the end of the text. `open` are the brackets inside the call that are
/// open there, and `quoted` says whether the place is in quotes. What stands in a comment, raw
/// text, a formula, quotes or a bracket of its own is passed over; in a square bracket, where
/// text is written, only square brackets count.
pub open spec fn among_arguments(
    text: Seq<char>,
    needle: Seq<char>,
    at: int,
    open: Seq<char>,
    quoted: bool,
) -> int
    decreases text.len() - at,
{
    if at < 0 || at >= text.len() {
        text.len() as int
    } else if quoted {
        if text[at] == '\\' && at + 1 < text.len() {
            among_arguments(text, needle, at + 2, open, true)
        } else {
            among_arguments(text, needle, at + 1, open, text[at] != '"')
        }
    } else {
        proof {
            lemma_aside_end(text, at);
        }
        match aside_end(text, at) {
            Some(end) => among_arguments(text, needle, end, open, false),
            None => if open.len() == 0 {
                if closes(text[at]) || stands_at(text, needle, at) {
                    at
                } else if opens(text[at]) {
                    among_arguments(text, needle, at + 1, open.push(text[at]), false)
                } else {
                    among_arguments(text, needle, at + 1, open, text[at] == '"')
                }
            } else if open.last() == '[' {
                if text[at] == '\\' && at + 1 < text.len() {
                    among_arguments(text, needle, at + 2, open, false)
                } else if text[at] == '[' {
                    among_arguments(text, needle, at + 1, open.push('['), false)
                } else if text[at] == ']' {
                    among_arguments(text, needle, at + 1, open.drop_last(), false)
                } else {
                    among_arguments(text, needle, at + 1, open, false)
                }
            } else if closes(text[at]) {
                among_arguments(text, needle, at + 1, open.drop_last(), false)
            } else if opens(text[at]) {
                among_arguments(text, needle, at + 1, open.push(text[at]), false)
            } else {
                among_arguments(text, needle, at + 1, open, text[at] == '"')
            },
        }
    }
}

/// Where the first quote is in a text from a place on, outside comments.
pub open spec fn first_quote(text: Seq<char>, at: int) -> Option<int>
    decreases text.len() - at,
{
    if at < 0 || at >= text.len() {
        None
    } else if text[at] == '"' {
        Some(at)
    } else {
        proof {
            lemma_comment_end(text, at);
        }
        match comment_end(text, at) {
            Some(end) => first_quote(text, end),
            None => first_quote(text, at + 1),
        }
    }
}

/// The first text in quotes within a text, outside comments, without the white space around it.
pub open spec fn first_quoted(text: Seq<char>) -> Option<Seq<char>> {
    match first_quote(text, 0) {
        None => None,
        Some(open) => match find_from(text, seq!['"'], open + 1) {
            None => None,
            Some(close) => {
                let quoted = trim(text.subrange(open + 1, close));
                if quoted.len() > 0 {
                    Some(quoted)
                } else {
                    None
                }
            },
        },
    }
}

/// The title a document declares: the text in quotes that its `#set document(` is given as
/// `title:`. What stands after the call says nothing of it.
pub open spec fn declared_title(text: Seq<char>) -> Option<Seq<char>> {
    match find(text, "#set document("@) {
        None => None,
        Some(at) => {
            let key = among_arguments(
                text,
                "title:"@,
                at + "#set document("@.len(),
                seq![],
                false,
            );
            if stands_at(text, "title:"@, key) {
                let value = key + "title:"@.len();
                first_quoted(
                    text.subrange(value, among_arguments(text, seq![','], value, seq![], false)),
                )
            } else {
                None
            }
        },
    }
}

/// Holds of the characters a heading's title goes on through.
pub open spec fn plain_in_title() -> spec_fn(char) -> bool {
    |c: char| !(c == '[' || c == '$' || c == '<' || c == '#' || c == '@')
}

/// A text without what cannot be typed: only printable ASCII is left.
pub open spec fn printable(text: Seq<char>) -> Seq<char>
    decreases text.len(),
{
    if text.len() == 0 {
        seq![]
    } else {
        let before = printable(text.drop_last());
        if ' ' <= text.last() <= '~' {
            before.push(text.last())
        } else {
            before
        }
    }
}

/// The title in a line that is a first-level heading: what comes before any
/// markup in it.
pub open spec fn line_title(line: Seq<char>) -> Option<Seq<char>> {
    match after_prefix(line, "= "@) {
        None => None,
        Some(rest) => {
            let title = trim(printable(take_while(rest, plain_in_title())));
            if title.len() > 0 {
                Some(title)
            } else {
                None
            }
        },
    }
}

/// The first title among some lines.
pub open spec fn first_title(lines: Seq<Seq<char>>) -> Option<Seq<char>>
    decreases lines.len(),
{
    if lines.len() == 0 {
        None
    } else {
        match line_title(lines[0]) {
            Some(title) => Some(title),
            None => first_title(lines.skip(1)),
        }
    }
}

/// The title a document announces: the one it declares, or else that of its
/// first heading.
pub open spec fn announced_title(text: Seq<char>) -> Option<Seq<char>> {
    match declared_title(text) {
        Some(title) => Some(title),
        None => first_title(lines(text)),
    }
}

/// Where a comment in stars ends that is open at a place.
fn find_star_comment_end(text: &[char], at: usize) -> (r: usize)
    requires
        at <= text@.len(),
    ensures
        r == star_comment_end(text@, at as int, 1),
        at <= r <= text@.len(),
{
    let n: usize = text.len();
    let mut i: usize = at;
    let mut depth: usize = 1;
    while i < n && i + 1 < n
        invariant
            at <= i <= n,
            n == text@.len(),
            1 <= depth <= 1 + (i - at),
            star_comment_end(text@, i as int, depth as nat) == star_comment_end(
                text@,
                at as int,
                1,
            ),
        decreases n - i,
    {
        if text[i] == '/' && text[i + 1] == '*' {
            depth = depth + 1;
            i = i + 2;
        } else if text[i] == '*' && text[i + 1] == '/' {
            if depth == 1 {
                return i + 2;
            }
            depth = depth - 1;
            i = i + 2;
        } else {
            i = i + 1;
        }
    }
    n
}

/// Where the comment ends that begins at a place, if one does.
fn find_comment_end(text: &[char], at: usize) -> (r: Option<usize>)
    requires
        at < text@.len(),
    ensures
        match r {
            Some(end) => comment_end(text@, at as int) == Some(end as int) && at < end
                <= text@.len(),
            None => comment_end(text@, at as int) is None,
        },
{
    proof {
        reveal_strlit("/*");
        lemma_comment_end(text@, at as int);
    }
    let n: usize = text.len();
    let line: Vec<char> = chars_of("//");
    let star: Vec<char> = chars_of("/*");
    let plain: Vec<char> = chars_of("http://");
    let secure: Vec<char> = chars_of("https://");
    if stands(text, line.as_slice(), at) && !(at >= 5 && stands(text, plain.as_slice(), at - 5))
        && !(at >= 6 && stands(text, secure.as_slice(), at - 6)) {
        let ghost ending = |i: int| ends_line(text@[i]);
        let mut i: usize = at;
        while i < n && !is_line_end(text[i])
            invariant
                at <= i <= n,
                n == text@.len(),
                ending == (|i: int| ends_line(text@[i])),
                first_in(at as int, n as int, ending) == first_in(i as int, n as int, ending),
            decreases n - i,
        {
            i = i + 1;
        }
        return Some(i);
    }
    if stands(text, star.as_slice(), at) {
        return Some(find_star_comment_end(text, at + 2));
    }
    None
}

/// Where what is no part of the brackets around it ends that begins at a place, if it does.
fn find_aside_end(text: &[char], at: usize) -> (r: Option<usize>)
    requires
        at < text@.len(),
    ensures
        match r {
            Some(end) => aside_end(text@, at as int) == Some(end as int) && at < end
                <= text@.len(),
            None => aside_end(text@, at as int) is None,
        },
{
    if let Some(end) = find_comment_end(text, at) {
        return Some(end);
    }
    let total: usize = text.len();
    if text[at] == '`' || text[at] == '$' {
        let mark: Vec<char> = vec![text[at]];
        assert(mark@ =~= seq![text@[at as int]]);
        return match find_at(text, mark.as_slice(), at + 1) {
            Some(close) => Some(close + 1),
            None => None,
        };
    }
    None
}

/// The first place from `at` on where `needle` stands among the arguments of a call, or where
/// the call closes, or the end of the text.
fn find_among_arguments(text: &[char], needle: &[char], at: usize) -> (r: usize)
    requires
        at <= text@.len(),
    ensures
        r == among_arguments(text@, needle@, at as int, seq![], false),
        at <= r <= text@.len(),
{
    let mut i: usize = at;
    let mut open: Vec<char> = Vec::new();
    let mut quoted: bool = false;
    assert(open@ =~= seq![]);
    while i < text.len()
        invariant
            at <= i <= text@.len(),
            among_arguments(text@, needle@, i as int, open@, quoted) == among_arguments(
                text@,
                needle@,
                at as int,
                seq![],
                false,
            ),
        decreases text@.len() - i,
    {
        let c: char = text[i];
        let escapes: bool = c == '\\' && i + 1 < text.len();
        if quoted {
            if escapes {
                i = i + 1;
            } else {
                quoted = c != '"';
            }
            i = i + 1;
            continue;
        }
        if let Some(end) = find_aside_end(text, i) {
            i = end;
            continue;
        }
        let inside: usize = open.len();
        let closing: bool = c == ')' || c == ']' || c == '}';
        if inside == 0 {
            if closing || stands(text, needle, i) {
                return i;
            }
        } else if open[inside - 1] == '[' {
            if escapes {
                i = i + 1;
            } else if c == '[' {
                open.push(c);
            } else if c == ']' {
                let ghost was = open@;
                let _ = open.pop();
                assert(open@ =~= was.drop_last());
            }
            i = i + 1;
            continue;
        } else if closing {
            let ghost was = open@;
            let _ = open.pop();
            assert(open@ =~= was.drop_last());
            i = i + 1;
            continue;
        }
        if c == '(' || c == '[' || c == '{' {
            open.push(c);
        } else {
            quoted = c == '"';
        }
        i = i + 1;
    }
    i
}

/// The first text in quotes within a text, outside comments, without the white space around it.
fn read_first_quoted(text: &[char]) -> (r: Option<String>)
    ensures
        opt_text(r) == first_quoted(text@),
{
    let total: usize = text.len();
    let quote: Vec<char> = vec!['"'];
    assert(quote@ =~= seq!['"']);
    let mut open: usize = 0;
    while open < total && text[open] != '"'
        invariant
            open <= total,
            total == text@.len(),
            first_quote(text@, open as int) == first_quote(text@, 0),
        decreases total - open,
    {
        open = match find_comment_end(text, open) {
            Some(end) => end,
            None => open + 1,
        };
    }
    if open >= total {
        return None;
    }
    match find_at(text, quote.as_slice(), open + 1) {
        None => None,
        Some(close) => {
            let quoted: &[char] = trim_slice(vstd::slice::slice_subrange(text, open + 1, close));
            if quoted.len() > 0 {
                Some(string_of(quoted))
            } else {
                None
            }
        },
    }
}

/// The title a document declares.
fn read_declared_title(text: &str) -> (r: Option<String>)
    ensures
        opt_text(r) == declared_title(text@),
{
    proof {
        reveal_strlit("#set document(");
        reveal_strlit("title:");
    }
    let t: Vec<char> = chars_of(text);
    let total: usize = t.len();
    let set: Vec<char> = chars_of("#set document(");
    let name: Vec<char> = chars_of("title:");
    let comma: Vec<char> = vec![','];
    assert(comma@ =~= seq![',']);
    match find_at(t.as_slice(), set.as_slice(), 0) {
        None => None,
        Some(at) => {
            let key: usize = find_among_arguments(
                t.as_slice(),
                name.as_slice(),
                at + set.len(),
            );
            if stands(t.as_slice(), name.as_slice(), key) {
                let value: usize = key + name.len();
                let end: usize = find_among_arguments(t.as_slice(), comma.as_slice(), value);
                read_first_quoted(vstd::slice::slice_subrange(t.as_slice(), value, end))
            } else {
                None
            }
        },
    }
}

/// The title in a line that is a first-level heading.
fn read_line_title(line: &str) -> (r: Option<String>)
    ensures
        opt_text(r) == line_title(line@),
{
    match strip_prefix(line, "= ") {
        None => None,
        Some(rest) => {
            let t: Vec<char> = chars_of(rest.as_str());
            let mut out: Vec<char> = Vec::new();
            let mut i: usize = 0;
            assert(printable(t@.take(0)) =~= seq![]);
            while i < t.len() && !(t[i] == '[' || t[i] == '$' || t[i] == '<' || t[i] == '#' || t[i]
                == '@')
                invariant
                    i <= t@.len(),
                    forall|k: int| 0 <= k < i ==> plain_in_title()(#[trigger] t@[k]),
                    out@ == printable(t@.take(i as int)),
                decreases t@.len() - i,
            {
                let c: char = t[i];
                assert(t@.take(i + 1).drop_last() =~= t@.take(i as int));
                assert(t@.take(i + 1).last() == c);
                if ' ' <= c && c <= '~' {
                    out.push(c);
                }
                i = i + 1;
            }
            proof {
                lemma_take_while(t@, plain_in_title(), i as int);
            }
            let title: &[char] = trim_slice(out.as_slice());
            if title.len() > 0 {
                Some(string_of(title))
            } else {
                None
            }
        },
    }
}

/// The title a document announces, from its source: a parse rather than a
/// compile, since a listing is a listing.
pub fn title_in(text: &str) -> (r: Option<String>)
    ensures
        opt_text(r) == announced_title(text@),
{
    match read_declared_title(text) {
        Some(title) => {
            return Some(title);
        },
        None => {},
    }
    let all: Vec<String> = lines_of(text);
    let ghost want = lines(text@);
    assert(texts(all@).len() == all@.len());
    assert(want.skip(0) =~= want);
    let mut i: usize = 0;
    while i < all.len()
        invariant
            i <= all@.len(),
            texts(all@) == want,
            want.len() == all@.len(),
            first_title(want) == first_title(want.skip(i as int)),
            announced_title(text@) == first_title(want),
        decreases all@.len() - i,
    {
        assert(want.skip(i as int)[0] == texts(all@)[i as int]);
        assert(want.skip(i as int).skip(1) =~= want.skip(i + 1));
        match read_line_title(all[i].as_str()) {
            Some(title) => {
                return Some(title);
            },
            None => {},
        }
        i = i + 1;
    }
    None
}

// ------------------------------------------------------------ what is said of it

/// What stands before a place on its line.
pub open spec fn line_before(text: Seq<char>, at: int) -> Seq<char> {
    match rfind_upto(text, seq!['\n'], at - 1) {
        Some(nl) => text.subrange(nl + 1, at),
        None => text.subrange(0, at),
    }
}

/// How many entries a sidecar holds from a place on: the anchors in it that no
/// comment on their line shows as an example.
pub open spec fn entries_from(text: Seq<char>, from: int) -> nat
    decreases text.len() - from,
{
    if from < 0 {
        0
    } else {
        match find_from(text, ANCHOR_OPENING@, from) {
            None => 0,
            Some(at) => {
                proof {
                    reveal_strlit("<anno.");
                    lemma_find_from(text, ANCHOR_OPENING@, from);
                }
                (if occurs(line_before(text, at), "//"@) {
                    0nat
                } else {
                    1nat
                }) + entries_from(text, at + ANCHOR_OPENING@.len())
            },
        }
    }
}

/// How many annotations a sidecar holds, counted rather than evaluated. Of a
/// document without one there are none.
pub open spec fn annotation_total(sidecar: Option<Seq<char>>) -> nat {
    match sidecar {
        Some(text) => entries_from(text, 0),
        None => 0,
    }
}

/// How many annotations a sidecar holds.
pub fn annotation_count(sidecar: Option<&str>) -> (r: usize)
    ensures
        r == annotation_total(opt_str(sidecar)),
{
    let text: &str = match sidecar {
        None => {
            return 0;
        },
        Some(text) => text,
    };
    proof {
        reveal_strlit("<anno.");
    }
    let t: Vec<char> = chars_of(text);
    let total: usize = t.len();
    let open: Vec<char> = chars_of(ANCHOR_OPENING);
    let nl: Vec<char> = vec!['\n'];
    assert(nl@ =~= seq!['\n']);
    let mut count: usize = 0;
    let mut from: usize = 0;
    loop
        invariant
            t@ == text@,
            opt_str(sidecar) == Some(text@),
            total == t@.len(),
            open@ == ANCHOR_OPENING@,
            open@.len() == 6,
            nl@ == seq!['\n'],
            from <= total,
            count <= from,
            count + entries_from(text@, from as int) == entries_from(text@, 0),
        decreases total - from,
    {
        let at: usize = match find_at(t.as_slice(), open.as_slice(), from) {
            None => {
                return count;
            },
            Some(at) => at,
        };
        let mut start: usize = at;
        while start > 0 && t[start - 1] != '\n'
            invariant
                start <= at < total,
                total == t@.len(),
                t@ == text@,
                rfind_upto(text@, seq!['\n'], at - 1) == rfind_upto(text@, seq!['\n'], start - 1),
            decreases start,
        {
            proof {
                if text@.subrange(start - 1, start as int) == seq!['\n'] {
                    assert(text@.subrange(start - 1, start as int)[0] == '\n');
                }
            }
            start = start - 1;
        }
        proof {
            if start > 0 {
                assert(text@.subrange(start - 1, start as int) =~= seq!['\n']);
            }
        }
        let before: &[char] = vstd::slice::slice_subrange(t.as_slice(), start, at);
        assert(before@ == line_before(text@, at as int));
        if !contains(string_of(before).as_str(), "//") {
            count = count + 1;
        }
        from = at + 6;
    }
}

/// Whether a line of a sidecar says somebody is in the middle of something.
pub open spec fn says_ongoing(line: Seq<char>) -> bool {
    !begins(trim_start(line), "//"@) && occurs(line, "status: \"ongoing\""@)
}

/// Whether any annotation in a sidecar is being worked on: claiming one is how
/// an agent, or a person, says so. Read rather than evaluated.
pub fn anyone_working(sidecar: &str) -> (r: bool)
    ensures
        r == (exists|i: int|
            0 <= i < lines(sidecar@).len() && says_ongoing(#[trigger] lines(sidecar@)[i])),
{
    let all: Vec<String> = lines_of(sidecar);
    let ghost want = lines(sidecar@);
    assert(texts(all@).len() == all@.len());
    let mut i: usize = 0;
    while i < all.len()
        invariant
            i <= all@.len(),
            texts(all@) == want,
            want == lines(sidecar@),
            want.len() == all@.len(),
            forall|k: int| 0 <= k < i ==> !says_ongoing(#[trigger] want[k]),
        decreases all@.len() - i,
    {
        assert(want[i as int] == all@[i as int]@);
        let t: Vec<char> = chars_of(all[i].as_str());
        let l: String = string_of(trim_start_slice(t.as_slice()));
        if !starts_with(l.as_str(), "//") && contains(all[i].as_str(), "status: \"ongoing\"") {
            assert(says_ongoing(want[i as int]));
            return true;
        }
        i = i + 1;
    }
    false
}

// ------------------------------------------------------------------ the listing

/// How long ago something was written, in seconds, of when it was and what time
/// it is, both in nanoseconds. What is not known, or is still to come, is now.
pub open spec fn age(modified: Option<u64>, now: u64) -> int {
    match modified {
        Some(when) => if when <= now {
            (now - when) / 1_000_000_000
        } else {
            0
        },
        None => 0,
    }
}

/// How long ago something was written, in seconds.
pub fn age_of(modified: Option<u64>, now: u64) -> (r: u64)
    ensures
        r == age(modified, now),
{
    match modified {
        Some(when) => if when <= now {
            (now - when) / 1_000_000_000
        } else {
            0
        },
        None => 0,
    }
}

/// One document as a listing shows it.
#[derive(Debug)]
pub struct DocEntry {
    /// The name in the URL: the file's stem.
    pub slug: String,
    /// The title the document gives itself, or its stem.
    pub title: String,
    /// The file name, as it sits in the directory.
    pub file: String,
    /// When it was last written, in nanoseconds.
    pub modified: Option<u64>,
    /// How many annotations its sidecar holds.
    pub annotations: usize,
}

/// One file a directory serves as it is.
#[derive(Debug)]
pub struct AssetEntry {
    /// Its name, as it sits in the directory.
    pub file: String,
    /// When it was last written, in nanoseconds.
    pub modified: Option<u64>,
}

/// What a listing shows of a document.
pub struct EntryView {
    pub slug: Seq<char>,
    pub title: Seq<char>,
    pub file: Seq<char>,
    pub modified: Option<u64>,
    pub annotations: nat,
}

impl View for DocEntry {
    type V = EntryView;

    open spec fn view(&self) -> EntryView {
        EntryView {
            slug: self.slug@,
            title: self.title@,
            file: self.file@,
            modified: self.modified,
            annotations: self.annotations as nat,
        }
    }
}

/// What a listing shows of a file, if it shows it: with `preparse` the file is
/// read, and one that could not be, or that has nothing to read in it, is left
/// out; without, every file is a document, and its name is what it is called.
pub open spec fn listed(
    path: Seq<char>,
    preparse: bool,
    text: Option<Seq<char>>,
    sidecar: Option<Seq<char>>,
    modified: Option<u64>,
) -> Option<EntryView> {
    match (path_name(path), path_stem(path)) {
        (Some(file), Some(slug)) => {
            let annotations = annotation_total(sidecar);
            if !preparse {
                Some(EntryView { slug, title: slug, file, modified, annotations })
            } else {
                match text {
                    None => None,
                    Some(text) => if exists|i: int|
                        0 <= i < lines(text).len() && reads_as_document(#[trigger] lines(text)[i]) {
                        Some(
                            EntryView {
                                slug,
                                title: match announced_title(text) {
                                    Some(title) => title,
                                    None => slug,
                                },
                                file,
                                modified,
                                annotations,
                            },
                        )
                    } else {
                        None
                    },
                }
            }
        },
        _ => None,
    }
}

/// What a listing shows of a file, if it shows it.
///
/// A directory of documents usually holds a few files that are not documents: a
/// style file, a library of helpers. They render nothing, and a listing that
/// offers them offers blank pages.
pub fn doc_entry(
    path: &str,
    preparse: bool,
    text: Option<&str>,
    sidecar: Option<&str>,
    modified: Option<u64>,
) -> (r: Option<DocEntry>)
    ensures
        match r {
            Some(entry) => listed(
                path@,
                preparse,
                opt_str(text),
                opt_str(sidecar),
                modified,
            ) == Some(entry@),
            None => listed(
                path@,
                preparse,
                opt_str(text),
                opt_str(sidecar),
                modified,
            ) is None,
        },
{
    let file: String = match file_name(path) {
        None => {
            return None;
        },
        Some(file) => file,
    };
    let slug: String = match file_stem(path) {
        None => {
            return None;
        },
        Some(slug) => slug,
    };
    let annotations: usize = annotation_count(sidecar);
    if !preparse {
        return Some(DocEntry { title: slug.clone(), slug, file, modified, annotations });
    }
    match text {
        None => None,
        Some(text) => {
            if !has_heading(text) {
                return None;
            }
            let title: String = match title_in(text) {
                Some(title) => title,
                None => slug.clone(),
            };
            Some(DocEntry { slug, title, file, modified, annotations })
        },
    }
}

/// A document in a listing.
pub open spec fn entry_json(e: EntryView, now: u64) -> JsonV {
    JsonV::Object(
        seq![
            ("slug"@, JsonV::Text(e.slug)),
            ("title"@, JsonV::Text(e.title)),
            ("file"@, JsonV::Text(e.file)),
            ("annotations"@, JsonV::Number(e.annotations as int)),
            ("age"@, JsonV::Number(age(e.modified, now))),
        ],
    )
}

/// A file in a listing.
pub open spec fn asset_json(a: AssetEntry, now: u64) -> JsonV {
    JsonV::Object(
        seq![
            ("file"@, JsonV::Text(a.file@)),
            ("age"@, JsonV::Number(age(a.modified, now))),
        ],
    )
}

/// A listing: what it is called, where it is, where it sits under the directory
/// being served, and what is in it.
pub open spec fn listing_v(
    title: Seq<char>,
    dir: Seq<char>,
    entries: Seq<DocEntry>,
    dirs: Seq<Seq<char>>,
    assets: Seq<AssetEntry>,
    under: Seq<char>,
    now: u64,
) -> JsonV {
    JsonV::Object(
        seq![
            ("ok"@, JsonV::Bool(true)),
            ("title"@, JsonV::Text(title)),
            ("dir"@, JsonV::Text(dir)),
            ("under"@, JsonV::Text(under)),
            ("docs"@, JsonV::List(entries.map_values(|e: DocEntry| entry_json(e@, now)))),
            ("dirs"@, JsonV::List(texts_v(dirs))),
            ("files"@, JsonV::List(assets.map_values(|a: AssetEntry| asset_json(a, now)))),
        ],
    )
}

/// A document in a listing. Its age rather than a stamp: a page whose clock
/// disagrees with the server's would say it wrongly.
fn entry_of(e: &DocEntry, now: u64) -> (r: Json)
    ensures
        json_v(r) == entry_json(e@, now),
{
    let mut out: JsonObject = JsonObject::new();
    out.put("slug", Json::text(e.slug.as_str()));
    out.put("title", Json::text(e.title.as_str()));
    out.put("file", Json::text(e.file.as_str()));
    out.put("annotations", Json::count(e.annotations));
    out.put("age", Json::Number(age_of(e.modified, now)));
    assert(out@ =~= entry_json(e@, now)->Object_0);
    out.done()
}

/// A file in a listing.
fn asset_of(a: &AssetEntry, now: u64) -> (r: Json)
    ensures
        json_v(r) == asset_json(*a, now),
{
    let mut out: JsonObject = JsonObject::new();
    out.put("file", Json::text(a.file.as_str()));
    out.put("age", Json::Number(age_of(a.modified, now)));
    assert(out@ =~= asset_json(*a, now)->Object_0);
    out.done()
}

/// A listing as a value.
pub fn listing_value(
    title: &str,
    dir: &str,
    entries: &Vec<DocEntry>,
    dirs: &Vec<String>,
    assets: &Vec<AssetEntry>,
    under: &str,
    now: u64,
) -> (r: Json)
    ensures
        json_v(r) == listing_v(title@, dir@, entries@, texts(dirs@), assets@, under@, now),
{
    let mut docs: JsonList = JsonList::new();
    let ghost want = entries@.map_values(|e: DocEntry| entry_json(e@, now));
    let mut i: usize = 0;
    while i < entries.len()
        invariant
            i <= entries@.len(),
            want == entries@.map_values(|e: DocEntry| entry_json(e@, now)),
            docs@ == want.take(i as int),
        decreases entries@.len() - i,
    {
        docs.push(entry_of(&entries[i], now));
        assert(docs@ =~= want.take(i + 1));
        i = i + 1;
    }
    assert(want.take(i as int) =~= want);
    let mut files: JsonList = JsonList::new();
    let ghost wanted = assets@.map_values(|a: AssetEntry| asset_json(a, now));
    let mut j: usize = 0;
    while j < assets.len()
        invariant
            j <= assets@.len(),
            wanted == assets@.map_values(|a: AssetEntry| asset_json(a, now)),
            files@ == wanted.take(j as int),
        decreases assets@.len() - j,
    {
        files.push(asset_of(&assets[j], now));
        assert(files@ =~= wanted.take(j + 1));
        j = j + 1;
    }
    assert(wanted.take(j as int) =~= wanted);
    let mut out: JsonObject = JsonObject::new();
    out.put("ok", Json::Bool(true));
    out.put("title", Json::text(title));
    out.put("dir", Json::text(dir));
    out.put("under", Json::text(under));
    out.put("docs", docs.done());
    out.put("dirs", text_list(dirs));
    out.put("files", files.done());
    assert(out@ =~= listing_v(
        title@,
        dir@,
        entries@,
        texts(dirs@),
        assets@,
        under@,
        now,
    )->Object_0);
    out.done()
}

/// A directory somewhere under the one being served, as the listing page asks
/// for it: `under` is the path from the root, which the page needs to make
/// links with.
pub fn listing_json_of(
    title: &str,
    dir: &str,
    entries: &Vec<DocEntry>,
    dirs: &Vec<String>,
    assets: &Vec<AssetEntry>,
    under: &str,
    now: u64,
) -> (r: String)
    ensures
        r@ == compact(listing_v(title@, dir@, entries@, texts(dirs@), assets@, under@, now)),
{
    to_text(&listing_value(title, dir, entries, dirs, assets, under, now))
}

/// The directory being served, as the listing page asks for it.
pub fn listing_json(
    title: &str,
    dir: &str,
    entries: &Vec<DocEntry>,
    dirs: &Vec<String>,
    assets: &Vec<AssetEntry>,
    now: u64,
) -> (r: String)
    ensures
        r@ == compact(
            listing_v(
                title@,
                dir@,
                entries@,
                texts(dirs@),
                assets@,
                Seq::<char>::empty(),
                now,
            ),
        ),
{
    let under: String = empty();
    listing_json_of(title, dir, entries, dirs, assets, under.as_str(), now)
}

/// What tells one listing from another: where it is, what is in it, and how
/// much has been said about each.
pub open spec fn listing_mark(dir: Seq<char>, entries: Seq<DocEntry>) -> Seq<char> {
    dir + ":"@ + join(
        entries.map_values(|e: DocEntry| e.slug@ + "@"@ + decimal(e.annotations as nat)),
        ","@,
    )
}

/// What tells one listing from another, so that only one that has changed is
/// worth a line.
pub fn listing_key(dir: &str, entries: &Vec<DocEntry>) -> (r: String)
    ensures
        r@ == listing_mark(dir@, entries@),
{
    let mut parts: Vec<String> = Vec::new();
    let ghost want = entries@.map_values(
        |e: DocEntry| e.slug@ + "@"@ + decimal(e.annotations as nat),
    );
    let mut i: usize = 0;
    while i < entries.len()
        invariant
            i <= entries@.len(),
            want == entries@.map_values(
                |e: DocEntry| e.slug@ + "@"@ + decimal(e.annotations as nat),
            ),
            texts(parts@) == want.take(i as int),
        decreases entries@.len() - i,
    {
        let ghost before = texts(parts@);
        let mut part: String = entries[i].slug.clone();
        part.append("@");
        push_decimal(&mut part, entries[i].annotations as u64);
        let ghost v = part@;
        parts.push(part);
        assert(texts(parts@) =~= before.push(v));
        assert(texts(parts@) =~= want.take(i + 1));
        i = i + 1;
    }
    assert(want.take(i as int) =~= want);
    let mut out: String = dir.to_string();
    out.append(":");
    out.append(joined(&parts, ",").as_str());
    out
}

// ------------------------------------------------------------------- one site

/// What a path under a site names.
#[derive(Debug)]
pub enum Located {
    /// A document, and what is being asked of it.
    Document {
        /// Its name, which is its path under the directory without `.typ`.
        slug: String,
        /// The rest of the request.
        tail: String,
    },
    /// A file to serve as it is.
    File(String),
    /// A directory, which is a listing.
    Listing(String),
    /// Nothing of this site's.
    Missing,
}

/// A site of exactly one document, which is what a served file is.
#[derive(Debug)]
pub struct SingleSite {
    /// Where that document is, when this site is a served file rather than an
    /// editor's preview of one.
    pub path: Option<String>,
}

impl SingleSite {
    /// The sidecars of everything the site serves.
    pub fn sidecars(&self) -> (r: Vec<String>)
        ensures
            texts(r@) == match opt_text(self.path) {
                Some(path) => seq![sidecar_of(path)],
                None => seq![],
            },
    {
        let mut out: Vec<String> = Vec::new();
        match &self.path {
            Some(path) => {
                out.push(sidecar_path(path.as_str()));
                assert(texts(out@) =~= seq![sidecar_of(path@)]);
            },
            None => {
                assert(texts(out@) =~= seq![]);
            },
        }
        out
    }

    /// What a path names: a site of one document is asked nothing about paths,
    /// since everything under it is that document's.
    pub fn locate(&self, rest: &str) -> (r: Located)
        ensures
            r matches Located::Document { slug, tail } && slug@.len() == 0 && tail@ == rest@,
    {
        Located::Document { slug: empty(), tail: rest.to_string() }
    }
}

// ------------------------------------------------------------ what is said of a file

/// A heading of one equals sign is the title, when what follows it is plain.
pub proof fn a_first_heading_is_the_title(title: Seq<char>)
    requires
        title.len() > 0,
        forall|i: int|
            0 <= i < title.len() ==> ' ' <= #[trigger] title[i] <= '~' && title[i] != '[' && title[i]
                != '$' && title[i] != '<' && title[i] != '#' && title[i] != '@',
        title[0] != ' ' && title.last() != ' ',
    ensures
        line_title("= "@ + title) == Some(title),
{
    reveal_strlit("= ");
    let line = "= "@ + title;
    assert(line.subrange(0, 2) =~= "= "@);
    assert(line.skip(2) =~= title);
    lemma_take_while(title, plain_in_title(), title.len() as int);
    assert(title.take(title.len() as int) =~= title);
    lemma_printable(title);
}

/// A text of printable characters is printable as it is.
proof fn lemma_printable(text: Seq<char>)
    requires
        forall|i: int| 0 <= i < text.len() ==> ' ' <= #[trigger] text[i] <= '~',
    ensures
        printable(text) == text,
    decreases text.len(),
{
    if text.len() > 0 {
        lemma_printable(text.drop_last());
        assert(text.drop_last().push(text.last()) =~= text);
    } else {
        assert(printable(text) =~= text);
    }
}

/// A title that is declared comes before a heading, and the first heading before the others.
pub proof fn a_declared_title_comes_first(text: Seq<char>, k: int)
    ensures
        declared_title(text) is Some ==> announced_title(text) == declared_title(text),
        declared_title(text) is None && 0 <= k < lines(text).len() && line_title(lines(text)[k]) is Some
            && (forall|i: int| 0 <= i < k ==> line_title(#[trigger] lines(text)[i]) is None)
            ==> announced_title(text) == line_title(lines(text)[k]),
        declared_title(text) is None && (forall|i: int|
            0 <= i < lines(text).len() ==> line_title(#[trigger] lines(text)[i]) is None)
            ==> announced_title(text) is None,
{
    lemma_first_title(lines(text), k);
}

/// The first line that has a title gives it.
proof fn lemma_first_title(list: Seq<Seq<char>>, k: int)
    ensures
        0 <= k < list.len() && line_title(list[k]) is Some && (forall|i: int|
            0 <= i < k ==> line_title(#[trigger] list[i]) is None) ==> first_title(list) == line_title(
            list[k],
        ),
        (forall|i: int| 0 <= i < list.len() ==> line_title(#[trigger] list[i]) is None) ==> first_title(
            list,
        ) is None,
    decreases list.len(),
{
    if list.len() > 0 {
        let rest = list.skip(1);
        lemma_first_title(rest, k - 1);
        assert forall|i: int| 0 <= i < rest.len() implies #[trigger] rest[i] == list[i + 1] by {}
        if forall|i: int| 0 <= i < list.len() ==> line_title(#[trigger] list[i]) is None {
            assert forall|i: int| 0 <= i < rest.len() implies line_title(#[trigger] rest[i]) is None by {
                assert(line_title(list[i + 1]) is None);
            }
            assert(line_title(list[0]) is None);
        }
        if 0 < k < list.len() && (forall|i: int| 0 <= i < k ==> line_title(#[trigger] list[i]) is None) {
            assert(line_title(list[0]) is None);
            assert forall|i: int| 0 <= i < k - 1 implies line_title(#[trigger] rest[i]) is None by {
                assert(line_title(list[i + 1]) is None);
            }
        }
    }
}

/// A title that a document declares in its first argument is its title.
pub proof fn a_title_is_declared(before: Seq<char>, title: Seq<char>, after: Seq<char>)
    requires
        !before.contains('#'),
        title.len() > 0,
        !is_space(title[0]) && !is_space(title.last()),
        forall|i: int| 0 <= i < title.len() ==> #[trigger] title[i] != '"' && title[i] != '\\',
    ensures
        announced_title(
            before + "#set document("@ + "title:"@ + seq!['"'] + title + seq!['"', ')'] + after,
        ) == Some(title),
{
    reveal_strlit("#set document(");
    reveal_strlit("title:");
    reveal_strlit("//");
    reveal_strlit("/*");
    let opening = "#set document("@;
    let key = "title:"@;
    let text = before + opening + key + seq!['"'] + title + seq!['"', ')'] + after;
    let n = before.len() as int;
    assert forall|i: int| 0 <= i < n implies !stands_at(text, opening, i) by {
        if stands_at(text, opening, i) {
            assert(text.subrange(i, i + 14)[0] == opening[0]);
            assert(before[i] == '#');
        }
    }
    lemma_find_from_skip(text, opening, 0, n);
    assert(text.subrange(n, n + 14) =~= opening);
    assert(stands_at(text, opening, n));
    let k = n + 14;
    assert(text[k] == 't');
    lemma_no_aside(text, k);
    assert(text.subrange(k, k + 6) =~= key);
    assert(stands_at(text, key, k));
    let v = k + 6;
    assert(text[v] == '"');
    lemma_no_aside(text, v);
    assert(!stands_at(text, seq![','], v)) by {
        assert(text.subrange(v, v + 1)[0] == '"');
    }
    let end = v + 1 + title.len();
    assert forall|i: int| v + 1 <= i < end implies #[trigger] text[i] != '"' && text[i] != '\\' by {
        assert(text[i] == title[i - v - 1]);
    }
    assert(text[end] == '"' && text[end + 1] == ')');
    lemma_through_quotes(text, seq![','], v + 1, end);
    lemma_no_aside(text, end + 1);
    let value = text.subrange(v, end + 1);
    assert(among_arguments(text, seq![','], v, seq![], false) == end + 1);
    assert(value[0] == '"');
    assert(first_quote(value, 0) == Some(0int));
    let close = title.len() as int + 1;
    assert(value.subrange(1, close) =~= title);
    assert forall|i: int| 1 <= i < close implies !stands_at(value, seq!['"'], i) by {
        if stands_at(value, seq!['"'], i) {
            assert(value.subrange(i, i + 1)[0] == '"');
            assert(title[i - 1] == '"');
        }
    }
    lemma_find_from_skip(value, seq!['"'], 1, close);
    assert(value.subrange(close, close + 1) =~= seq!['"']);
    assert(stands_at(value, seq!['"'], close));
    lemma_trimmed(title);
}

/// A text without white space at its ends is trimmed already.
proof fn lemma_trimmed(text: Seq<char>)
    requires
        text.len() > 0,
        !is_space(text[0]) && !is_space(text.last()),
    ensures
        trim(text) == text,
{
}

/// What is no slash, no backtick and no dollar sign begins no aside.
proof fn lemma_no_aside(text: Seq<char>, at: int)
    requires
        0 <= at < text.len(),
        text[at] != '/' && text[at] != '`' && text[at] != '$',
    ensures
        aside_end(text, at) is None,
{
    reveal_strlit("//");
    reveal_strlit("/*");
    if stands_at(text, "//"@, at) {
        assert(text.subrange(at, at + 2)[0] == '/');
    }
    if stands_at(text, "/*"@, at) {
        assert(text.subrange(at, at + 2)[0] == '/');
    }
}

/// What stands in quotes is passed over up to the quote that ends it.
proof fn lemma_through_quotes(text: Seq<char>, needle: Seq<char>, at: int, end: int)
    requires
        0 <= at <= end < text.len(),
        text[end] == '"',
        forall|i: int| at <= i < end ==> #[trigger] text[i] != '"' && text[i] != '\\',
    ensures
        among_arguments(text, needle, at, seq![], true) == among_arguments(
            text,
            needle,
            end + 1,
            seq![],
            false,
        ),
    decreases end - at,
{
    if at < end {
        lemma_through_quotes(text, needle, at + 1, end);
    }
}

/// A line with a heading in it, a figure or an equation makes a file a document.
pub proof fn a_heading_reads_as_a_document(depth: nat, title: Seq<char>, rest: Seq<char>)
    requires
        depth > 0,
        title.len() > 0,
        !is_space(title[0]),
        !is_space(title.last()),
    ensures
        reads_as_document(Seq::new(depth, |i: int| '=') + seq![' '] + title),
        reads_as_document("#figure("@ + rest),
        reads_as_document("$"@ + rest),
{
    reveal_strlit(" ");
    reveal_strlit("$");
    reveal_strlit("#figure(");
    let signs = Seq::new(depth, |i: int| '=');
    let line = signs + seq![' '] + title;
    assert(line[0] == '=');
    assert(trim_start(line) == line);
    let n = depth as int;
    lemma_drop_while(line, only('='), n);
    let left = line.skip(n);
    assert(left =~= seq![' '] + title);
    assert(left.subrange(0, 1) =~= " "@);
    assert(left.skip(1) =~= title);
    assert(trim_start(left) == trim_start(title));
    assert(trim_start(title) == title);
    let figure = "#figure("@ + rest;
    assert(figure[0] == '#');
    assert(trim_start(figure) == figure);
    assert(figure.subrange(0, 8) =~= "#figure("@);
    let equation = "$"@ + rest;
    assert(equation[0] == '$');
    assert(trim_start(equation) == equation);
    assert(equation.subrange(0, 1) =~= "$"@);
}

/// A file's age is told in whole seconds; one from the future is of no age.
pub proof fn an_age_is_in_whole_seconds(made: u64, now: u64)
    ensures
        made <= now ==> {
            let seconds = age(Some(made), now);
            seconds * 1_000_000_000 <= now - made && now - made < (seconds + 1) * 1_000_000_000
        },
        made > now ==> age(Some(made), now) == 0,
        age(None, now) == 0,
{
}

/// A directory is looked into unless it is hidden, and every one that is not is.
pub proof fn directories_are_looked_into(entries: Seq<(Seq<char>, bool)>, path: Seq<char>)
    ensures
        dirs_among(entries).contains(path) <==> !is_hidden(path) && entries.contains((path, true)),
    decreases entries.len(),
{
    if entries.len() > 0 {
        let before = entries.drop_last();
        let found = dirs_among(before);
        let all = dirs_among(entries);
        directories_are_looked_into(before, path);
        if all.contains(path) {
            let k = all.index_of(path);
            if k < found.len() {
                assert(found[k] == path);
                let i = before.index_of((path, true));
                assert(entries[i] == (path, true));
            } else {
                assert(entries[entries.len() - 1] == (path, true));
            }
        }
        if !is_hidden(path) && entries.contains((path, true)) {
            let i = entries.index_of((path, true));
            if i < before.len() {
                assert(before[i] == (path, true));
                let k = found.index_of(path);
                assert(all[k] == path);
            } else {
                assert(all[found.len() as int] == path);
            }
        }
    }
}

/// What begins with a dot is hidden.
pub proof fn a_dot_hides_a_file(path: Seq<char>)
    ensures
        path_name(path) matches Some(name) ==> name.len() > 0 && name[0] == '.' ==> is_hidden(path),
        path_name(path) is None ==> is_hidden(path),
        path_name(path) == Some("node_modules"@) || path_name(path) == Some("target"@) || path_name(path)
            == Some("__pycache__"@) ==> is_hidden(path),
        path_name(path) matches Some(name) ==> name.len() > 0 && name[0] != '.' && name != "target"@
            && name != "node_modules"@ && name != "__pycache__"@ ==> !is_hidden(path),
{
    reveal_strlit(".");
    if let Some(name) = path_name(path) {
        if name.len() > 0 {
            assert(name.subrange(0, 1) =~= seq![name[0]]);
            assert("."@ =~= seq!['.']);
            if begins(name, "."@) {
                assert(name.subrange(0, 1)[0] == '.');
            }
        }
    }
}

/// A sidecar that holds no label holds no annotation, and none is told where there is no sidecar.
pub proof fn labels_are_counted(text: Seq<char>, before: Seq<char>, after: Seq<char>)
    requires
        !before.contains('<') && !after.contains('<'),
        !before.contains('/') || !before.contains('\n'),
    ensures
        !text.contains('<') ==> annotation_total(Some(text)) == 0,
        annotation_total(None) == 0,
        !before.contains('/') ==> annotation_total(Some(before + "<anno."@ + after)) == 1,
        occurs(before, "//"@) ==> annotation_total(Some(before + "<anno."@ + after)) == 0,
{
    reveal_strlit("<anno.");
    reveal_strlit("//");
    let opening = ANCHOR_OPENING@;
    if !text.contains('<') {
        lemma_no_label(text, 0);
    }
    let whole = before + "<anno."@ + after;
    let n = before.len() as int;
    assert forall|i: int| 0 <= i < n implies !stands_at(whole, opening, i) by {
        if stands_at(whole, opening, i) {
            assert(whole.subrange(i, i + 6)[0] == '<');
            assert(before[i] == '<');
        }
    }
    lemma_find_from_skip(whole, opening, 0, n);
    assert(whole.subrange(n, n + 6) =~= opening);
    assert(stands_at(whole, opening, n));
    lemma_find_from(whole, opening, n + 6);
    if let Some(at) = find_from(whole, opening, n + 6) {
        assert(whole.subrange(at, at + 6)[0] == '<');
        assert(after[at - n - 6] == '<');
    }
    assert(entries_from(whole, n + 6) == 0);
    let line = line_before(whole, n);
    lemma_rfind_upto(whole, seq!['\n'], n - 1);
    if !before.contains('/') {
        lemma_find_from(line, "//"@, 0);
        if let Some(at) = find(line, "//"@) {
            assert(line.subrange(at, at + 2)[0] == '/');
            assert(before.contains(line[at]));
        }
    }
    if occurs(before, "//"@) {
        lemma_find_from(before, "//"@, 0);
        let at = find(before, "//"@)->Some_0;
        assert(before.subrange(at, at + 2)[0] == '/');
        assert(before.contains(before[at]));
        if let Some(nl) = rfind_upto(whole, seq!['\n'], n - 1) {
            assert(whole.subrange(nl, nl + 1)[0] == '\n');
            assert(before[nl] == '\n');
        }
        assert(line =~= before);
    }
}

/// A text without the character a label begins with holds no label.
proof fn lemma_no_label(text: Seq<char>, from: int)
    requires
        0 <= from,
        !text.contains('<'),
    ensures
        entries_from(text, from) == 0,
{
    reveal_strlit("<anno.");
    lemma_find_from(text, ANCHOR_OPENING@, from);
    if let Some(at) = find_from(text, ANCHOR_OPENING@, from) {
        assert(text.subrange(at, at + 6)[0] == '<');
        assert(text.contains(text[at]));
    }
}

} // verus!

//! What an agent asks a document server to do: a tool by name, and what it is
//! told.

use vstd::prelude::*;
use vstd::string::*;

use crate::json::{bool_v, json_v, number_v, text_v, Json, JsonV};
use crate::mcp::rpc::or_empty;
use crate::num::{decimal, decimal_of};
use crate::serve::rewrite::{policy_named, AnchorPolicy};
use crate::serve::store::{ids, missing_annotation, no_annotation, place_of, AnnotationV, Sidecar};
use crate::text::{
    is_empty, join, joined, lemma_found_one, lower, opt_str, opt_text, res_text, same, texts,
    to_lower, trim, trimmed,
};

verus! {

// -------------------------------------------------------------------- the call

/// What an agent asks for. An annotation is named by id or by letter, where it
/// is named at all.
#[derive(Debug)]
pub enum Call {
    /// What documents there are.
    ListDocuments,
    /// What annotations there are.
    ListAnnotations { status: Option<String>, author: Option<String> },
    /// What happens, once something does.
    Wait { cursor: Option<u64>, timeout: u64 },
    /// An annotation in full.
    GetAnnotation { given: Option<String> },
    /// That an annotation be worked on, or no longer.
    Claim { given: Option<String>, claimed: bool },
    /// That an annotation be deleted.
    Delete { given: Option<String> },
    /// An annotation about the document as a whole.
    Annotate { text: String, kind: Option<String>, author: Option<String> },
    /// What the document and its annotations say about each other.
    Audit,
    /// The piece of source an annotation points into.
    GetBlock { given: Option<String>, context: bool },
    /// That that piece be rewritten.
    ReplaceBlock { named: String, block_id: String, source: String, policy: AnchorPolicy },
    /// A picture of what an annotation is about.
    GetCapture { given: Option<String>, hash: Option<String>, index: u64, markup: bool },
    /// That something be said about an annotation.
    Reply { given: Option<String>, text: String, author: Option<String> },
    /// That an annotation be done, and what was done about it.
    Resolve { given: Option<String>, said: Option<String>, author: Option<String> },
}

/// What an agent asks for.
pub enum CallV {
    ListDocuments,
    ListAnnotations { status: Option<Seq<char>>, author: Option<Seq<char>> },
    Wait { cursor: Option<int>, timeout: int },
    GetAnnotation { given: Option<Seq<char>> },
    Claim { given: Option<Seq<char>>, claimed: bool },
    Delete { given: Option<Seq<char>> },
    Annotate { text: Seq<char>, kind: Option<Seq<char>>, author: Option<Seq<char>> },
    Audit,
    GetBlock { given: Option<Seq<char>>, context: bool },
    ReplaceBlock { named: Seq<char>, block_id: Seq<char>, source: Seq<char>, policy: AnchorPolicy },
    GetCapture { given: Option<Seq<char>>, hash: Option<Seq<char>>, index: int, markup: bool },
    Reply { given: Option<Seq<char>>, text: Seq<char>, author: Option<Seq<char>> },
    Resolve { given: Option<Seq<char>>, said: Option<Seq<char>>, author: Option<Seq<char>> },
}

/// A number, where there is one.
pub open spec fn opt_number(n: Option<u64>) -> Option<int> {
    match n {
        Some(n) => Some(n as int),
        None => None,
    }
}

impl View for Call {
    type V = CallV;

    open spec fn view(&self) -> CallV {
        match self {
            Call::ListDocuments => CallV::ListDocuments,
            Call::ListAnnotations { status, author } => CallV::ListAnnotations {
                status: opt_text(*status),
                author: opt_text(*author),
            },
            Call::Wait { cursor, timeout } => CallV::Wait {
                cursor: opt_number(*cursor),
                timeout: *timeout as int,
            },
            Call::GetAnnotation { given } => CallV::GetAnnotation { given: opt_text(*given) },
            Call::Claim { given, claimed } => CallV::Claim {
                given: opt_text(*given),
                claimed: *claimed,
            },
            Call::Delete { given } => CallV::Delete { given: opt_text(*given) },
            Call::Annotate { text, kind, author } => CallV::Annotate {
                text: text@,
                kind: opt_text(*kind),
                author: opt_text(*author),
            },
            Call::Audit => CallV::Audit,
            Call::GetBlock { given, context } => CallV::GetBlock {
                given: opt_text(*given),
                context: *context,
            },
            Call::ReplaceBlock { named, block_id, source, policy } => CallV::ReplaceBlock {
                named: named@,
                block_id: block_id@,
                source: source@,
                policy: *policy,
            },
            Call::GetCapture { given, hash, index, markup } => CallV::GetCapture {
                given: opt_text(*given),
                hash: opt_text(*hash),
                index: *index as int,
                markup: *markup,
            },
            Call::Reply { given, text, author } => CallV::Reply {
                given: opt_text(*given),
                text: text@,
                author: opt_text(*author),
            },
            Call::Resolve { given, said, author } => CallV::Resolve {
                given: opt_text(*given),
                said: opt_text(*said),
                author: opt_text(*author),
            },
        }
    }
}

/// How long is waited for something to happen where nothing is said, in seconds.
pub const DEFAULT_WAIT: u64 = 60;

/// The longest that is waited for something to happen, in seconds.
pub const LONGEST_WAIT: u64 = 300;

/// How long is waited for something to happen.
pub open spec fn wait_v(asked: Option<int>) -> int {
    match asked {
        Some(n) if n < LONGEST_WAIT => n,
        Some(_) => LONGEST_WAIT as int,
        None => DEFAULT_WAIT as int,
    }
}

/// What an agent asks for, or what it left out.
pub open spec fn call_of(name: Seq<char>, args: JsonV) -> Result<CallV, Seq<char>> {
    let given = text_v(args, "uuid"@);
    let text = text_v(args, "text"@);
    let author = text_v(args, "author"@);
    if name == "list_documents"@ {
        Ok(CallV::ListDocuments)
    } else if name == "list_annotations"@ {
        Ok(CallV::ListAnnotations { status: text_v(args, "status"@), author })
    } else if name == "wait_for_annotations"@ {
        Ok(
            CallV::Wait {
                cursor: number_v(args, "cursor"@),
                timeout: wait_v(number_v(args, "timeout"@)),
            },
        )
    } else if name == "get_annotation"@ {
        Ok(CallV::GetAnnotation { given })
    } else if name == "claim"@ {
        Ok(CallV::Claim { given, claimed: true })
    } else if name == "release"@ {
        Ok(CallV::Claim { given, claimed: false })
    } else if name == "delete"@ {
        Ok(CallV::Delete { given })
    } else if name == "annotate"@ {
        match text {
            Some(text) => Ok(CallV::Annotate { text, kind: text_v(args, "kind"@), author }),
            None => Err("what should it say? pass text"@),
        }
    } else if name == "audit"@ {
        Ok(CallV::Audit)
    } else if name == "get_block"@ {
        Ok(CallV::GetBlock { given, context: bool_v(args, "context"@) == Some(true) })
    } else if name == "replace_block"@ {
        match (given, text_v(args, "blockId"@), text) {
            (None, _, _) => Err("which annotation? pass uuid"@),
            (_, None, _) => Err("which block? pass blockId"@),
            (_, _, None) => Err("what should it say? pass text"@),
            (Some(given), Some(block_id), Some(text)) => {
                let asked = or_empty(text_v(args, "anchors"@));
                match policy_named(asked) {
                    Some(policy) => Ok(
                        CallV::ReplaceBlock { named: given, block_id, source: text, policy },
                    ),
                    None => Err("unknown anchor policy: "@ + asked),
                }
            },
        }
    } else if name == "get_capture"@ {
        Ok(
            CallV::GetCapture {
                given,
                hash: text_v(args, "hash"@),
                index: match number_v(args, "index"@) {
                    Some(n) => n,
                    None => 0,
                },
                markup: bool_v(args, "markup"@) != Some(false),
            },
        )
    } else if name == "reply"@ {
        match text {
            Some(text) => Ok(CallV::Reply { given, text, author }),
            None => Err("what should it say? pass text"@),
        }
    } else if name == "resolve"@ {
        Ok(CallV::Resolve { given, said: text, author })
    } else {
        Err("no such tool: "@ + name)
    }
}

/// A text an agent passed.
fn passed(args: &Json, name: &str) -> (r: Option<String>)
    ensures
        opt_text(r) == text_v(json_v(*args), name@),
{
    match args.text_at(name) {
        Some(s) => Some(s.to_string()),
        None => None,
    }
}

/// A call, or what is wrong.
pub open spec fn call_view(r: Result<Call, String>) -> Result<CallV, Seq<char>> {
    match r {
        Ok(call) => Ok(call@),
        Err(e) => Err(e@),
    }
}

/// Reads what an agent asks for.
#[verifier::rlimit(40)]
pub fn plan(name: &str, args: &Json) -> (r: Result<Call, String>)
    ensures
        call_view(r) == call_of(name@, json_v(*args)),
{
    if same(name, "list_documents") {
        Ok(Call::ListDocuments)
    } else if same(name, "list_annotations") {
        Ok(Call::ListAnnotations { status: passed(args, "status"), author: passed(args, "author") })
    } else if same(name, "wait_for_annotations") {
        let timeout: u64 = match args.number_at("timeout") {
            Some(n) => if n < LONGEST_WAIT {
                n
            } else {
                LONGEST_WAIT
            },
            None => DEFAULT_WAIT,
        };
        Ok(Call::Wait { cursor: args.number_at("cursor"), timeout })
    } else if same(name, "get_annotation") {
        Ok(Call::GetAnnotation { given: passed(args, "uuid") })
    } else if same(name, "claim") {
        Ok(Call::Claim { given: passed(args, "uuid"), claimed: true })
    } else if same(name, "release") {
        Ok(Call::Claim { given: passed(args, "uuid"), claimed: false })
    } else if same(name, "delete") {
        Ok(Call::Delete { given: passed(args, "uuid") })
    } else if same(name, "annotate") {
        match passed(args, "text") {
            Some(text) => Ok(
                Call::Annotate { text, kind: passed(args, "kind"), author: passed(args, "author") },
            ),
            None => Err("what should it say? pass text".to_string()),
        }
    } else if same(name, "audit") {
        Ok(Call::Audit)
    } else if same(name, "get_block") {
        let context: bool = match args.bool_at("context") {
            Some(b) => b,
            None => false,
        };
        Ok(Call::GetBlock { given: passed(args, "uuid"), context })
    } else if same(name, "replace_block") {
        plan_replace(args)
    } else if same(name, "get_capture") {
        let index: u64 = match args.number_at("index") {
            Some(n) => n,
            None => 0,
        };
        let markup: bool = match args.bool_at("markup") {
            Some(b) => b,
            None => true,
        };
        Ok(
            Call::GetCapture {
                given: passed(args, "uuid"),
                hash: passed(args, "hash"),
                index,
                markup,
            },
        )
    } else if same(name, "reply") {
        match passed(args, "text") {
            Some(text) => Ok(
                Call::Reply { given: passed(args, "uuid"), text, author: passed(args, "author") },
            ),
            None => Err("what should it say? pass text".to_string()),
        }
    } else if same(name, "resolve") {
        Ok(
            Call::Resolve {
                given: passed(args, "uuid"),
                said: passed(args, "text"),
                author: passed(args, "author"),
            },
        )
    } else {
        let mut out: String = "no such tool: ".to_string();
        out.append(name);
        Err(out)
    }
}

/// Reads what is to be rewritten.
fn plan_replace(args: &Json) -> (r: Result<Call, String>)
    ensures
        call_view(r) == call_of("replace_block"@, json_v(*args)),
{
    proof {
        reveal_strlit("replace_block");
        reveal_strlit("list_documents");
        reveal_strlit("list_annotations");
        reveal_strlit("wait_for_annotations");
        reveal_strlit("get_annotation");
        reveal_strlit("claim");
        reveal_strlit("release");
        reveal_strlit("delete");
        reveal_strlit("annotate");
        reveal_strlit("audit");
        reveal_strlit("get_block");
        assert("replace_block"@.len() == 13);
        assert("replace_block"@[0] == 'r');
    }
    let given: String = match passed(args, "uuid") {
        Some(given) => given,
        None => {
            return Err("which annotation? pass uuid".to_string());
        },
    };
    let block_id: String = match passed(args, "blockId") {
        Some(id) => id,
        None => {
            return Err("which block? pass blockId".to_string());
        },
    };
    let text: String = match passed(args, "text") {
        Some(text) => text,
        None => {
            return Err("what should it say? pass text".to_string());
        },
    };
    let asked: &str = match args.text_at("anchors") {
        Some(s) => s,
        None => "",
    };
    match AnchorPolicy::parse(asked) {
        Ok(policy) => Ok(Call::ReplaceBlock { named: given, block_id, source: text, policy }),
        Err(e) => Err(e),
    }
}

// ---------------------------------------------------------------- the document

/// Which document a call is about: the one named, or the only one there is.
pub open spec fn document_chosen(
    listing: bool,
    slugs: Seq<Seq<char>>,
    asked: Option<Seq<char>>,
) -> Result<Seq<char>, Seq<char>> {
    let named = or_empty(asked);
    if !listing {
        Ok(""@)
    } else if named.len() > 0 {
        Ok(named)
    } else if slugs.len() == 1 {
        Ok(slugs[0])
    } else if slugs.len() == 0 {
        Err("this server holds no documents"@)
    } else {
        Err("say which document: "@ + join(slugs, ", "@))
    }
}

/// Which document a call is about. `listing` says whether the server holds
/// several, and `slugs` which.
pub fn choose_document(listing: bool, slugs: &Vec<String>, asked: Option<&str>) -> (r: Result<
    String,
    String,
>)
    ensures
        res_text(r) == document_chosen(listing, texts(slugs@), opt_str(asked)),
{
    if !listing {
        return Ok("".to_string());
    }
    if let Some(named) = asked {
        if !is_empty(named) {
            return Ok(named.to_string());
        }
    }
    proof {
        reveal_strlit("");
    }
    assert(texts(slugs@).len() == slugs@.len());
    if slugs.len() == 1 {
        assert(texts(slugs@)[0] == slugs@[0]@);
        Ok(slugs[0].clone())
    } else if slugs.len() == 0 {
        Err("this server holds no documents".to_string())
    } else {
        let mut out: String = "say which document: ".to_string();
        out.append(joined(slugs, ", ").as_str());
        Err(out)
    }
}

/// What is said where the document a call is about is not there.
pub fn no_document(listing: bool, slug: &str) -> (r: String)
    ensures
        r@ == (if listing {
            "no document named "@ + slug@
        } else {
            "the document is not available"@
        }),
{
    if listing {
        let mut out: String = "no document named ".to_string();
        out.append(slug);
        out
    } else {
        "the document is not available".to_string()
    }
}

// -------------------------------------------------------------- the annotation

/// The ids of the annotations shown under a letter, in either case.
pub open spec fn lettered(list: Seq<AnnotationV>, letter: Seq<char>) -> Seq<Seq<char>>
    decreases list.len(),
{
    if list.len() == 0 {
        seq![]
    } else if lower(list.last().letter) == letter {
        lettered(list.drop_last(), letter).push(list.last().uuid)
    } else {
        lettered(list.drop_last(), letter)
    }
}

/// The annotation a caller named, by id or by letter.
pub open spec fn identified(list: Seq<AnnotationV>, given: Option<Seq<char>>) -> Result<
    Seq<char>,
    Seq<char>,
> {
    match given {
        None => Err("which annotation? pass uuid"@),
        Some(given) => if place_of(list, given) is Some {
            Ok(given)
        } else {
            let found = lettered(list, lower(trim(given)));
            if found.len() == 1 {
                Ok(found[0])
            } else if found.len() == 0 {
                Err(no_annotation(given))
            } else {
                Err(
                    given + " names "@ + decimal(found.len()) + " annotations; pass one of "@
                        + join(found, ", "@),
                )
            }
        },
    }
}

/// An id that a caller's name comes to is an annotation's.
pub proof fn what_is_identified_is_there(list: Seq<AnnotationV>, given: Option<Seq<char>>)
    requires
        identified(list, given) is Ok,
    ensures
        place_of(list, identified(list, given)->Ok_0) is Some,
{
    let g = given->Some_0;
    if place_of(list, g) is None {
        let letter = lower(trim(g));
        let found = lettered(list, letter);
        lemma_lettered(list, letter, 0);
        let k = choose|k: int| 0 <= k < list.len() && list[k].uuid == found[0];
        assert(ids(list)[k] == found[0]);
        lemma_found_one(ids(list), found[0]);
    }
}

proof fn lemma_lettered(list: Seq<AnnotationV>, letter: Seq<char>, i: int)
    requires
        0 <= i < lettered(list, letter).len(),
    ensures
        exists|k: int|
            0 <= k < list.len() && (#[trigger] list[k]).uuid == lettered(list, letter)[i] && lower(
                list[k].letter,
            ) == letter,
    decreases list.len(),
{
    if list.len() > 0 {
        let head = list.drop_last();
        if i < lettered(head, letter).len() {
            lemma_lettered(head, letter, i);
            let k = choose|k: int|
                0 <= k < head.len() && (#[trigger] head[k]).uuid == lettered(head, letter)[i]
                    && lower(head[k].letter) == letter;
            assert(list[k] == head[k]);
        } else {
            assert(list[list.len() - 1] == list.last());
        }
    }
}

/// The annotation a caller named, by id or by letter. A person reads letters off
/// the page, and tools pass ids around; an id is tried first, since it cannot be
/// mistaken for anything else.
pub fn identify(sidecar: &Sidecar, given: Option<&str>) -> (r: Result<String, String>)
    ensures
        res_text(r) == identified(sidecar@, opt_str(given)),
{
    let given: &str = match given {
        Some(given) => given,
        None => {
            return Err("which annotation? pass uuid".to_string());
        },
    };
    if let Some(_) = sidecar.position(given) {
        return Ok(given.to_string());
    }
    let wanted: String = to_lower(trimmed(given).as_str());
    let ghost list = sidecar@;
    let mut found: Vec<String> = Vec::new();
    let mut i: usize = 0;
    assert(list.take(0) =~= seq![]);
    assert(texts(found@) =~= seq![]);
    while i < sidecar.annotations.len()
        invariant
            i <= sidecar.annotations@.len(),
            list == sidecar@,
            texts(found@) == lettered(list.take(i as int), wanted@),
        decreases sidecar.annotations@.len() - i,
    {
        let ghost before = texts(found@);
        proof {
            assert(list.take(i + 1).drop_last() =~= list.take(i as int));
            assert(list.take(i + 1).last() == sidecar.annotations@[i as int]@);
        }
        if same(to_lower(sidecar.annotations[i].letter.as_str()).as_str(), wanted.as_str()) {
            found.push(sidecar.annotations[i].uuid.clone());
            assert(texts(found@) =~= before.push(sidecar.annotations@[i as int].uuid@));
        }
        i = i + 1;
    }
    assert(list.take(i as int) =~= list);
    assert(texts(found@).len() == found@.len());
    if found.len() == 1 {
        assert(texts(found@)[0] == found@[0]@);
        Ok(found[0].clone())
    } else if found.len() == 0 {
        Err(missing_annotation(given))
    } else {
        let mut out: String = given.to_string();
        out.append(" names ");
        out.append(decimal_of(found.len() as u64).as_str());
        out.append(" annotations; pass one of ");
        out.append(joined(&found, ", ").as_str());
        Err(out)
    }
}

// ---------------------------------------------------------------- the patience

/// How long a document has to compile before a call about it is given up, in
/// milliseconds.
pub const COMPILE_PATIENCE: u64 = 30000;

/// How long a rewrite waits for the document to compile again, in milliseconds.
pub const REWRITE_PATIENCE: u64 = 10000;

/// How long is waited for the rest of what is happening, in milliseconds: one
/// thing happening is usually three.
pub const SETTLE: u64 = 250;

/// What becomes of waiting for a document to compile.
#[derive(Debug, Clone, Copy, PartialEq, Eq, Structural)]
pub enum Patience {
    /// It has.
    Done,
    /// It has not yet.
    Again,
    /// It has not, and is not waited for any longer.
    Over,
}

/// What becomes of waiting for a document to compile at all. `revision` counts
/// its compiles.
pub fn await_first(revision: u64, waited: u64) -> (r: Patience)
    ensures
        r == (if revision != 0 {
            Patience::Done
        } else if waited > COMPILE_PATIENCE {
            Patience::Over
        } else {
            Patience::Again
        }),
{
    if revision != 0 {
        Patience::Done
    } else if waited > COMPILE_PATIENCE {
        Patience::Over
    } else {
        Patience::Again
    }
}

/// What becomes of waiting for a document to compile again.
pub fn await_next(was: u64, revision: u64, waited: u64) -> (r: Patience)
    ensures
        r == (if waited >= REWRITE_PATIENCE {
            Patience::Over
        } else if revision != was {
            Patience::Done
        } else {
            Patience::Again
        }),
{
    if waited >= REWRITE_PATIENCE {
        Patience::Over
    } else if revision != was {
        Patience::Done
    } else {
        Patience::Again
    }
}

// -------------------------------------------------------- what a name and a word mean

/// An annotation is named by its id, whatever letters there are.
pub proof fn an_id_names_its_annotation(list: Seq<AnnotationV>, k: int)
    requires
        0 <= k < list.len(),
    ensures
        identified(list, Some(list[k].uuid)) == Ok::<_, Seq<char>>(list[k].uuid),
{
    lemma_found_one(ids(list), list[k].uuid);
    assert(ids(list)[k] == list[k].uuid);
}

/// An annotation is named by its letter too, in either case and with white space around it, when
/// no other has the letter.
pub proof fn a_letter_names_its_annotation(list: Seq<AnnotationV>, given: Seq<char>, k: int)
    requires
        0 <= k < list.len(),
        lower(list[k].letter) == lower(trim(given)),
        forall|i: int|
            0 <= i < list.len() ==> (#[trigger] list[i]).uuid != given && (i != k ==> lower(
                list[i].letter,
            ) != lower(list[k].letter)),
    ensures
        identified(list, Some(given)) == Ok::<_, Seq<char>>(list[k].uuid),
{
    lemma_found_one(ids(list), given);
    assert forall|i: int| 0 <= i < ids(list).len() implies ids(list)[i] != given by {
        assert(ids(list)[i] == list[i].uuid);
    }
    lemma_one_lettered(list, lower(trim(given)), k);
}

/// A letter that two annotations have names neither, and one that none has names none.
pub proof fn a_letter_must_be_of_one(list: Seq<AnnotationV>, given: Seq<char>)
    requires
        forall|i: int| 0 <= i < list.len() ==> (#[trigger] list[i]).uuid != given,
        (exists|i: int, k: int|
            0 <= i < k < list.len() && lower((#[trigger] list[i]).letter) == lower(trim(given))
                && lower((#[trigger] list[k]).letter) == lower(trim(given))) || forall|i: int|
            0 <= i < list.len() ==> lower((#[trigger] list[i]).letter) != lower(trim(given)),
    ensures
        identified(list, Some(given)) is Err,
{
    let letter = lower(trim(given));
    lemma_found_one(ids(list), given);
    assert forall|i: int| 0 <= i < ids(list).len() implies ids(list)[i] != given by {
        assert(ids(list)[i] == list[i].uuid);
    }
    if exists|i: int, k: int|
        0 <= i < k < list.len() && lower((#[trigger] list[i]).letter) == letter && lower(
            (#[trigger] list[k]).letter,
        ) == letter {
        let (i, k) = choose|i: int, k: int|
            0 <= i < k < list.len() && lower((#[trigger] list[i]).letter) == letter && lower(
                (#[trigger] list[k]).letter,
            ) == letter;
        lemma_some_lettered(list.take(k), letter, i);
        lemma_lettered_after(list, letter, k);
    } else {
        lemma_none_lettered(list, letter);
    }
}

/// One annotation with a letter is found by it.
proof fn lemma_one_lettered(list: Seq<AnnotationV>, letter: Seq<char>, k: int)
    requires
        0 <= k < list.len(),
        lower(list[k].letter) == letter,
        forall|i: int| 0 <= i < list.len() && i != k ==> lower((#[trigger] list[i]).letter) != letter,
    ensures
        lettered(list, letter) == seq![list[k].uuid],
    decreases list.len(),
{
    let before = list.drop_last();
    if k == list.len() - 1 {
        lemma_none_lettered(before, letter);
        assert(lettered(before, letter) =~= seq![]);
        assert(lettered(list, letter) =~= seq![list[k].uuid]);
    } else {
        lemma_one_lettered(before, letter, k);
    }
}

/// Without an annotation that has a letter none is found.
proof fn lemma_none_lettered(list: Seq<AnnotationV>, letter: Seq<char>)
    requires
        forall|i: int| 0 <= i < list.len() ==> lower((#[trigger] list[i]).letter) != letter,
    ensures
        lettered(list, letter).len() == 0,
    decreases list.len(),
{
    if list.len() > 0 {
        lemma_none_lettered(list.drop_last(), letter);
    }
}

/// With an annotation that has a letter one is found.
proof fn lemma_some_lettered(list: Seq<AnnotationV>, letter: Seq<char>, k: int)
    requires
        0 <= k < list.len(),
        lower(list[k].letter) == letter,
    ensures
        lettered(list, letter).len() > 0,
    decreases list.len(),
{
    if k < list.len() - 1 {
        lemma_some_lettered(list.drop_last(), letter, k);
    }
}

/// An annotation that has a letter adds one to what is found before it.
proof fn lemma_lettered_after(list: Seq<AnnotationV>, letter: Seq<char>, k: int)
    requires
        0 <= k < list.len(),
        lower(list[k].letter) == letter,
    ensures
        lettered(list, letter).len() > lettered(list.take(k), letter).len(),
    decreases list.len(),
{
    let before = list.drop_last();
    if k < list.len() - 1 {
        lemma_lettered_after(before, letter, k);
        assert(before.take(k) =~= list.take(k));
    } else {
        assert(list.take(k) =~= before);
    }
}

/// A wait is as long as was asked, but never more than five minutes; a minute when nothing was
/// asked.
pub proof fn a_wait_is_not_for_ever(asked: Option<int>)
    ensures
        wait_v(asked) <= 300,
        asked matches Some(n) ==> n <= 300 ==> wait_v(asked) == n,
        asked matches Some(n) ==> n > 300 ==> wait_v(asked) == 300,
        asked is None ==> wait_v(asked) == 60,
{
}

/// To claim is to take an annotation on and to release is to leave it, and both are of the
/// annotation that was named.
pub proof fn a_claim_is_not_a_release(args: JsonV)
    ensures
        call_of("claim"@, args) == Ok::<_, Seq<char>>(
            CallV::Claim { given: text_v(args, "uuid"@), claimed: true },
        ),
        call_of("release"@, args) == Ok::<_, Seq<char>>(
            CallV::Claim { given: text_v(args, "uuid"@), claimed: false },
        ),
{
    reveal_strlit("list_documents");
    reveal_strlit("list_annotations");
    reveal_strlit("wait_for_annotations");
    reveal_strlit("get_annotation");
    reveal_strlit("claim");
    reveal_strlit("release");
    assert("claim"@.len() == 5 && "release"@.len() == 7 && "list_documents"@.len() == 14
        && "list_annotations"@.len() == 16 && "wait_for_annotations"@.len() == 20
        && "get_annotation"@.len() == 14);
}

/// A server of one document means it, whatever is asked for; one of several means the one that
/// is named; and with none named, the only one there is.
pub proof fn a_document_is_chosen_by_name(
    slugs: Seq<Seq<char>>,
    asked: Option<Seq<char>>,
    listing: bool,
)
    ensures
        !listing ==> (document_chosen(listing, slugs, asked) matches Ok(s) && s.len() == 0),
        listing && (asked matches Some(name) && name.len() > 0) ==> document_chosen(
            listing,
            slugs,
            asked,
        ) == Ok::<_, Seq<char>>(asked->Some_0),
        listing && (asked matches Some(name) ==> name.len() == 0) ==> (document_chosen(
            listing,
            slugs,
            asked,
        ) is Ok <==> slugs.len() == 1),
        listing && asked is None && slugs.len() == 1 ==> document_chosen(listing, slugs, asked)
            == Ok::<_, Seq<char>>(slugs[0]),
{
    reveal_strlit("");
}

} // verus!

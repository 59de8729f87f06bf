//! Text, as the sequence of its characters.
//!
//! Every contract in this crate that speaks of a text speaks of its view, a
//! `Seq<char>`; the ones that speak of byte offsets are in `bytes`.

use vstd::prelude::*;
use vstd::string::*;
use vstd::utf8::*;

verus! {

// ------------------------------------------------------------- conversions

/// Whether two texts are the same.
pub fn same(a: &str, b: &str) -> (r: bool)
    ensures
        r == (a@ == b@),
{
    let x: &[u8] = a.as_bytes();
    let y: &[u8] = b.as_bytes();
    proof {
        encode_utf8_decode_utf8(a@);
        encode_utf8_decode_utf8(b@);
    }
    if x.len() != y.len() {
        return false;
    }
    let n: usize = x.len();
    let mut i: usize = 0;
    while i < n
        invariant
            i <= n,
            n == x@.len(),
            n == y@.len(),
            x@ == a.spec_bytes(),
            y@ == b.spec_bytes(),
            forall|k: int| 0 <= k < i ==> x@[k] == y@[k],
        decreases n - i,
    {
        if x[i] != y[i] {
            return false;
        }
        i = i + 1;
    }
    assert(x@ =~= y@);
    true
}

/// The characters of a text.
pub fn chars_of(s: &str) -> (v: Vec<char>)
    ensures
        v@ == s@,
{
    let mut v: Vec<char> = Vec::new();
    for c in it: s.chars()
        invariant
            v@ == s@.take(it.index()),
            it.seq() == s@,
    {
        v.push(c);
        assert(s@.take(it.index() + 1) =~= s@.take(it.index() as int).push(c));
    }
    assert(s@.take(s@.len() as int) =~= s@);
    v
}

/// `String::push`: puts one character at the end of a text and changes nothing
/// before it.
#[verifier::external_body]
pub(crate) fn push(out: &mut String, c: char)
    ensures
        final(out)@ == old(out)@.push(c),
{
    out.push(c);
}

/// The text made of these characters.
pub fn string_of(chars: &[char]) -> (s: String)
    ensures
        s@ == chars@,
{
    let mut out: String = String::new();
    let mut i: usize = 0;
    while i < chars.len()
        invariant
            i <= chars@.len(),
            out@ == chars@.take(i as int),
        decreases chars@.len() - i,
    {
        push(&mut out, chars[i]);
        i = i + 1;
        assert(chars@.take(i as int) =~= chars@.take(i - 1).push(chars@[i - 1]));
    }
    assert(chars@.take(i as int) =~= chars@);
    out
}

/// A text of one character.
pub fn char_string(c: char) -> (s: String)
    ensures
        s@ == seq![c],
{
    let mut out: String = String::new();
    push(&mut out, c);
    out
}

/// The texts a list of strings holds.
pub open spec fn texts(list: Seq<String>) -> Seq<Seq<char>> {
    list.map_values(|s: String| s@)
}

/// The text an optional string holds.
pub open spec fn opt_text(s: Option<String>) -> Option<Seq<char>> {
    match s {
        Some(s) => Some(s@),
        None => None,
    }
}

/// The text an optional string slice holds.
pub open spec fn opt_str(s: Option<&str>) -> Option<Seq<char>> {
    match s {
        Some(s) => Some(s@),
        None => None,
    }
}

// --------------------------------------------------------------- searching

/// Whether `needle` stands in `hay` at `at`.
pub open spec fn stands_at<T>(hay: Seq<T>, needle: Seq<T>, at: int) -> bool {
    &&& 0 <= at <= hay.len() - needle.len()
    &&& hay.subrange(at, at + needle.len()) == needle
}

/// The first place at or after `from` where `needle` stands in `hay`.
pub open spec fn find_from<T>(hay: Seq<T>, needle: Seq<T>, from: int) -> Option<int>
    decreases hay.len() - from,
{
    if from < 0 || from + needle.len() > hay.len() {
        None
    } else if stands_at(hay, needle, from) {
        Some(from)
    } else if needle.len() == 0 {
        None
    } else {
        find_from(hay, needle, from + 1)
    }
}

/// The first place where `needle` stands in `hay`.
pub open spec fn find<T>(hay: Seq<T>, needle: Seq<T>) -> Option<int> {
    find_from(hay, needle, 0)
}

/// The last place at or before `upto` where `needle` stands in `hay`.
pub open spec fn rfind_upto<T>(hay: Seq<T>, needle: Seq<T>, upto: int) -> Option<int>
    decreases upto + 1,
{
    if upto < 0 {
        None
    } else if stands_at(hay, needle, upto) {
        Some(upto)
    } else {
        rfind_upto(hay, needle, upto - 1)
    }
}

/// The last place where `needle` stands in `hay`.
pub open spec fn rfind<T>(hay: Seq<T>, needle: Seq<T>) -> Option<int> {
    rfind_upto(hay, needle, hay.len() - needle.len())
}

/// Whether `needle` stands anywhere in `hay`.
pub open spec fn occurs<T>(hay: Seq<T>, needle: Seq<T>) -> bool {
    find(hay, needle) is Some
}

/// Whether `hay` begins with `needle`.
pub open spec fn begins<T>(hay: Seq<T>, needle: Seq<T>) -> bool {
    stands_at(hay, needle, 0)
}

/// Whether `hay` ends with `needle`.
pub open spec fn ends<T>(hay: Seq<T>, needle: Seq<T>) -> bool {
    stands_at(hay, needle, hay.len() - needle.len())
}

/// What a search finds is the first match: nothing before it matches, and
/// nothing at all does when it finds nothing.
pub proof fn lemma_find_from<T>(hay: Seq<T>, needle: Seq<T>, from: int)
    requires
        0 <= from,
        0 < needle.len(),
    ensures
        match find_from(hay, needle, from) {
            Some(at) => {
                &&& from <= at
                &&& stands_at(hay, needle, at)
                &&& forall|i: int| from <= i < at ==> !stands_at(hay, needle, i)
            },
            None => forall|i: int| from <= i ==> !stands_at(hay, needle, i),
        },
    decreases hay.len() - from,
{
    if from + needle.len() <= hay.len() && !stands_at(hay, needle, from) {
        lemma_find_from(hay, needle, from + 1);
    }
}

/// A search from two places finds the same when nothing matches in between.
pub proof fn lemma_find_from_skip<T>(hay: Seq<T>, needle: Seq<T>, from: int, to: int)
    requires
        0 <= from <= to,
        0 < needle.len(),
        forall|i: int| from <= i < to ==> !stands_at(hay, needle, i),
    ensures
        find_from(hay, needle, from) == find_from(hay, needle, to),
    decreases to - from,
{
    if from < to {
        assert(!stands_at(hay, needle, from));
        lemma_find_from_skip(hay, needle, from + 1, to);
        if from + needle.len() > hay.len() {
            assert(find_from(hay, needle, to) is None);
        }
    }
}

/// The first place of one item is where the items before it are all others.
pub proof fn lemma_find_one<T>(hay: Seq<T>, item: T, n: int)
    requires
        0 <= n <= hay.len(),
        forall|k: int| 0 <= k < n ==> hay[k] != item,
        n < hay.len() ==> hay[n] == item,
    ensures
        find(hay, seq![item]) == (if n < hay.len() {
            Some(n)
        } else {
            None
        }),
{
    assert forall|k: int| 0 <= k < n implies !stands_at(hay, seq![item], k) by {
        assert(hay.subrange(k, k + 1)[0] == hay[k]);
    }
    lemma_find_from_skip(hay, seq![item], 0, n);
    if n < hay.len() {
        assert(hay.subrange(n, n + 1) =~= seq![item]);
    }
}

/// What is found of one item is the item, and no item before it is.
pub proof fn lemma_found_one<T>(hay: Seq<T>, item: T)
    ensures
        match find(hay, seq![item]) {
            Some(at) => 0 <= at < hay.len() && hay[at] == item && forall|k: int|
                0 <= k < at ==> hay[k] != item,
            None => forall|k: int| 0 <= k < hay.len() ==> hay[k] != item,
        },
{
    lemma_find_from(hay, seq![item], 0);
    assert forall|k: int| 0 <= k < hay.len() && hay[k] == item implies stands_at(
        hay,
        seq![item],
        k,
    ) by {
        assert(hay.subrange(k, k + 1) =~= seq![item]);
    }
    match find(hay, seq![item]) {
        Some(at) => {
            assert(hay.subrange(at, at + 1)[0] == item);
        },
        None => {},
    }
}

/// What a search from the end finds is the last match.
pub proof fn lemma_rfind_upto<T>(hay: Seq<T>, needle: Seq<T>, upto: int)
    ensures
        match rfind_upto(hay, needle, upto) {
            Some(at) => at <= upto && stands_at(hay, needle, at) && forall|i: int|
                at < i <= upto ==> !stands_at(hay, needle, i),
            None => forall|i: int| i <= upto ==> !stands_at(hay, needle, i),
        },
    decreases upto + 1,
{
    if upto >= 0 && !stands_at(hay, needle, upto) {
        lemma_rfind_upto(hay, needle, upto - 1);
    }
}

/// What a search from the end finds is the last match: nothing after it
/// matches, and nothing at all does when it finds nothing.
pub proof fn lemma_rfind<T>(hay: Seq<T>, needle: Seq<T>)
    ensures
        match rfind(hay, needle) {
            Some(at) => stands_at(hay, needle, at) && forall|i: int|
                at < i ==> !stands_at(hay, needle, i),
            None => forall|i: int| !stands_at(hay, needle, i),
        },
{
    lemma_rfind_upto(hay, needle, hay.len() - needle.len());
}

/// Whether `needle` stands in `hay` at `at`.
pub fn stands(hay: &[char], needle: &[char], at: usize) -> (r: bool)
    ensures
        r == stands_at(hay@, needle@, at as int),
{
    if needle.len() > hay.len() || at > hay.len() - needle.len() {
        return false;
    }
    let mut i: usize = 0;
    while i < needle.len()
        invariant
            i <= needle@.len(),
            needle@.len() <= hay@.len() <= usize::MAX,
            at <= hay@.len() - needle@.len(),
            forall|k: int| 0 <= k < i ==> hay@[at + k] == needle@[k],
        decreases needle@.len() - i,
    {
        if hay[at + i] != needle[i] {
            assert(hay@.subrange(at as int, at + needle@.len())[i as int] != needle@[i as int]);
            return false;
        }
        i = i + 1;
    }
    assert(hay@.subrange(at as int, at + needle@.len()) =~= needle@);
    true
}

/// The first place at or after `from` where `needle` stands in `hay`.
pub fn find_at(hay: &[char], needle: &[char], from: usize) -> (r: Option<usize>)
    requires
        0 < needle@.len(),
    ensures
        match r {
            Some(at) => find_from(hay@, needle@, from as int) == Some(at as int),
            None => find_from(hay@, needle@, from as int) is None,
        },
        r matches Some(at) ==> from <= at && at + needle@.len() <= hay@.len(),
{
    if needle.len() > hay.len() {
        return None;
    }
    let last: usize = hay.len() - needle.len();
    let mut i: usize = from;
    proof {
        lemma_find_from(hay@, needle@, from as int);
    }
    while i <= last
        invariant
            0 < needle@.len() <= hay@.len() <= usize::MAX,
            last == hay@.len() - needle@.len(),
            from <= i,
            i <= last + 1 || i == from,
            forall|k: int| from <= k < i ==> !stands_at(hay@, needle@, k),
        decreases last + 1 - i,
    {
        if stands(hay, needle, i) {
            proof {
                lemma_find_from_skip(hay@, needle@, from as int, i as int);
            }
            return Some(i);
        }
        i = i + 1;
    }
    proof {
        lemma_find_from_skip(hay@, needle@, from as int, i as int);
    }
    None
}

/// The last place where `needle` stands in `hay`.
pub fn rfind_in(hay: &[char], needle: &[char]) -> (r: Option<usize>)
    ensures
        match r {
            Some(at) => rfind(hay@, needle@) == Some(at as int),
            None => rfind(hay@, needle@) is None,
        },
        r matches Some(at) ==> at + needle@.len() <= hay@.len(),
{
    if needle.len() > hay.len() {
        return None;
    }
    let mut i: usize = hay.len() - needle.len();
    loop
        invariant
            needle@.len() <= hay@.len(),
            i <= hay@.len() - needle@.len(),
            rfind(hay@, needle@) == rfind_upto(hay@, needle@, i as int),
        decreases i,
    {
        if stands(hay, needle, i) {
            return Some(i);
        }
        if i == 0 {
            assert(rfind_upto(hay@, needle@, -1) is None);
            return None;
        }
        i = i - 1;
    }
}

/// Whether `needle` stands anywhere in `hay`.
pub fn contains(hay: &str, needle: &str) -> (r: bool)
    ensures
        r == occurs(hay@, needle@),
{
    let h: Vec<char> = chars_of(hay);
    let n: Vec<char> = chars_of(needle);
    if n.len() == 0 {
        assert(hay@.subrange(0, 0) =~= needle@);
        return true;
    }
    find_at(&h, &n, 0).is_some()
}

/// Whether `hay` begins with `needle`.
pub fn starts_with(hay: &str, needle: &str) -> (r: bool)
    ensures
        r == begins(hay@, needle@),
{
    let h: Vec<char> = chars_of(hay);
    let n: Vec<char> = chars_of(needle);
    stands(&h, &n, 0)
}

/// Whether `hay` ends with `needle`.
pub fn ends_with(hay: &str, needle: &str) -> (r: bool)
    ensures
        r == ends(hay@, needle@),
{
    let h: Vec<char> = chars_of(hay);
    let n: Vec<char> = chars_of(needle);
    n.len() <= h.len() && stands(&h, &n, h.len() - n.len())
}

// ------------------------------------------------- character by character

/// A text with every character replaced by what `f` makes of it.
pub open spec fn expand(text: Seq<char>, f: spec_fn(char) -> Seq<char>) -> Seq<char>
    decreases text.len(),
{
    if text.len() == 0 {
        seq![]
    } else {
        expand(text.drop_last(), f) + f(text.last())
    }
}

/// Replacing the characters of two texts joined is joining what they become.
pub proof fn lemma_expand_concat(a: Seq<char>, b: Seq<char>, f: spec_fn(char) -> Seq<char>)
    ensures
        expand(a + b, f) == expand(a, f) + expand(b, f),
    decreases b.len(),
{
    if b.len() == 0 {
        assert(a + b =~= a);
        assert(expand(a, f) + expand(b, f) =~= expand(a, f));
    } else {
        lemma_expand_concat(a, b.drop_last(), f);
        assert((a + b).drop_last() =~= a + b.drop_last());
        assert((a + b).last() == b.last());
        assert(expand(a + b, f) =~= expand(a, f) + expand(b, f));
    }
}

/// What a result holds when it is one text or another.
pub open spec fn res_text(r: Result<String, String>) -> Result<Seq<char>, Seq<char>> {
    match r {
        Ok(s) => Ok(s@),
        Err(e) => Err(e@),
    }
}

// ---------------------------------------------------------- character kinds

/// The characters Unicode calls white space.
pub open spec fn is_space(c: char) -> bool {
    let n = c as u32;
    ||| 0x09 <= n <= 0x0d
    ||| n == 0x20
    ||| n == 0x85
    ||| n == 0xa0
    ||| n == 0x1680
    ||| 0x2000 <= n <= 0x200a
    ||| n == 0x2028
    ||| n == 0x2029
    ||| n == 0x202f
    ||| n == 0x205f
    ||| n == 0x3000
}

/// Whether a character is white space.
pub fn is_whitespace(c: char) -> (r: bool)
    ensures
        r == is_space(c),
{
    let n: u32 = c as u32;
    (0x09 <= n && n <= 0x0d) || n == 0x20 || n == 0x85 || n == 0xa0 || n == 0x1680 || (0x2000 <= n
        && n <= 0x200a) || n == 0x2028 || n == 0x2029 || n == 0x202f || n == 0x205f || n == 0x3000
}

/// The ASCII digits.
pub open spec fn is_digit(c: char) -> bool {
    '0' <= c <= '9'
}

/// The ASCII letters.
pub open spec fn is_letter(c: char) -> bool {
    ('a' <= c <= 'z') || ('A' <= c <= 'Z')
}

/// The ASCII letters and digits.
pub open spec fn is_alnum(c: char) -> bool {
    is_letter(c) || is_digit(c)
}

/// The hexadecimal digits, in either case.
pub open spec fn is_hex(c: char) -> bool {
    is_digit(c) || ('a' <= c <= 'f') || ('A' <= c <= 'F')
}

/// Whether a character is an ASCII letter or digit.
pub fn is_ascii_alphanumeric(c: char) -> (r: bool)
    ensures
        r == is_alnum(c),
{
    ('a' <= c && c <= 'z') || ('A' <= c && c <= 'Z') || ('0' <= c && c <= '9')
}

/// Whether a character is a hexadecimal digit.
pub fn is_ascii_hexdigit(c: char) -> (r: bool)
    ensures
        r == is_hex(c),
{
    ('a' <= c && c <= 'f') || ('A' <= c && c <= 'F') || ('0' <= c && c <= '9')
}

/// An ASCII letter in lower case; any other character as it is.
pub open spec fn lower_char(c: char) -> char {
    if 'A' <= c <= 'Z' {
        (c as u32 + 32) as char
    } else {
        c
    }
}

/// A text with its ASCII letters in lower case.
pub open spec fn lower(text: Seq<char>) -> Seq<char> {
    text.map_values(|c: char| lower_char(c))
}

/// An ASCII letter in lower case; any other character as it is.
pub fn lower_of(c: char) -> (r: char)
    ensures
        r == lower_char(c),
{
    if 'A' <= c && c <= 'Z' {
        let n: u8 = c as u8 + 32;
        n as char
    } else {
        c
    }
}

/// A text with its ASCII letters in lower case.
pub fn to_lower(text: &str) -> (r: String)
    ensures
        r@ == lower(text@),
{
    let t: Vec<char> = chars_of(text);
    let mut out: Vec<char> = Vec::new();
    let mut i: usize = 0;
    while i < t.len()
        invariant
            i <= t@.len(),
            t@ == text@,
            out@ == lower(text@.take(i as int)),
        decreases t@.len() - i,
    {
        out.push(lower_of(t[i]));
        i = i + 1;
        assert(lower(text@.take(i as int)) =~= lower(text@.take(i - 1)).push(
            lower_char(text@[i - 1]),
        ));
    }
    assert(text@.take(i as int) =~= text@);
    string_of(&out)
}

/// An ASCII letter in upper case; any other character as it is.
pub open spec fn upper_char(c: char) -> char {
    if 'a' <= c <= 'z' {
        (c as u32 - 32) as char
    } else {
        c
    }
}

/// A text with its ASCII letters in upper case.
pub open spec fn upper(text: Seq<char>) -> Seq<char> {
    text.map_values(|c: char| upper_char(c))
}

/// A text with its ASCII letters in upper case.
pub fn to_upper(text: &str) -> (r: String)
    ensures
        r@ == upper(text@),
{
    let t: Vec<char> = chars_of(text);
    let mut out: Vec<char> = Vec::new();
    let mut i: usize = 0;
    while i < t.len()
        invariant
            i <= t@.len(),
            t@ == text@,
            out@ == upper(text@.take(i as int)),
        decreases t@.len() - i,
    {
        let c: char = t[i];
        if 'a' <= c && c <= 'z' {
            let n: u8 = c as u8 - 32;
            out.push(n as char);
        } else {
            out.push(c);
        }
        i = i + 1;
        assert(upper(text@.take(i as int)) =~= upper(text@.take(i - 1)).push(upper_char(c)));
    }
    assert(text@.take(i as int) =~= text@);
    string_of(&out)
}

// ---------------------------------------------------------------- trimming

/// What is left when the leading characters that `drop` holds of are gone.
pub open spec fn drop_while(text: Seq<char>, drop: spec_fn(char) -> bool) -> Seq<char>
    decreases text.len(),
{
    if text.len() > 0 && drop(text[0]) {
        drop_while(text.skip(1), drop)
    } else {
        text
    }
}

/// What is left when the trailing characters that `drop` holds of are gone.
pub open spec fn drop_end_while(text: Seq<char>, drop: spec_fn(char) -> bool) -> Seq<char>
    decreases text.len(),
{
    if text.len() > 0 && drop(text.last()) {
        drop_end_while(text.drop_last(), drop)
    } else {
        text
    }
}

/// The leading characters of a text that `keep` holds of.
pub open spec fn take_while(text: Seq<char>, keep: spec_fn(char) -> bool) -> Seq<char>
    decreases text.len(),
{
    if text.len() > 0 && keep(text[0]) {
        seq![text[0]] + take_while(text.skip(1), keep)
    } else {
        seq![]
    }
}

/// The leading characters end at the first one that is not kept.
pub proof fn lemma_take_while(text: Seq<char>, keep: spec_fn(char) -> bool, n: int)
    requires
        0 <= n <= text.len(),
        forall|k: int| 0 <= k < n ==> keep(text[k]),
        n < text.len() ==> !keep(text[n]),
    ensures
        take_while(text, keep) == text.take(n),
    decreases n,
{
    if n == 0 {
        assert(text.take(0) =~= seq![]);
    } else {
        lemma_take_while(text.skip(1), keep, n - 1);
        assert(seq![text[0]] + text.skip(1).take(n - 1) =~= text.take(n));
    }
}

/// The leading characters of a text are the start of it.
pub proof fn lemma_take_while_prefix(text: Seq<char>, keep: spec_fn(char) -> bool)
    ensures
        take_while(text, keep).len() <= text.len(),
        take_while(text, keep) == text.take(take_while(text, keep).len() as int),
    decreases text.len(),
{
    if text.len() > 0 && keep(text[0]) {
        lemma_take_while_prefix(text.skip(1), keep);
        let n = take_while(text, keep).len() as int;
        assert(seq![text[0]] + text.skip(1).take(n - 1) =~= text.take(n));
    } else {
        assert(text.take(0) =~= seq![]);
    }
}

/// Holds of one character alone.
pub open spec fn only(c: char) -> spec_fn(char) -> bool {
    |x: char| x == c
}

/// A text without the white space at its start.
pub open spec fn trim_start(text: Seq<char>) -> Seq<char> {
    drop_while(text, |c: char| is_space(c))
}

/// A text without the white space at its end.
pub open spec fn trim_end(text: Seq<char>) -> Seq<char> {
    drop_end_while(text, |c: char| is_space(c))
}

/// A text without the white space at either end.
pub open spec fn trim(text: Seq<char>) -> Seq<char> {
    trim_end(trim_start(text))
}

/// A text without the `c`s at its start.
pub open spec fn trim_start_char(text: Seq<char>, c: char) -> Seq<char> {
    drop_while(text, only(c))
}

/// A text without the `c`s at its end.
pub open spec fn trim_end_char(text: Seq<char>, c: char) -> Seq<char> {
    drop_end_while(text, only(c))
}

/// Dropping leading characters stops at the first one that is kept.
pub proof fn lemma_drop_while(text: Seq<char>, drop: spec_fn(char) -> bool, n: int)
    requires
        0 <= n <= text.len(),
        forall|k: int| 0 <= k < n ==> drop(text[k]),
        n < text.len() ==> !drop(text[n]),
    ensures
        drop_while(text, drop) == text.skip(n),
    decreases n,
{
    if n == 0 {
        assert(text.skip(0) =~= text);
    } else {
        lemma_drop_while(text.skip(1), drop, n - 1);
        assert(text.skip(1).skip(n - 1) =~= text.skip(n));
    }
}

/// Dropping trailing characters stops at the last one that is kept.
pub proof fn lemma_drop_end_while(text: Seq<char>, drop: spec_fn(char) -> bool, n: int)
    requires
        0 <= n <= text.len(),
        forall|k: int| n <= k < text.len() ==> drop(text[k]),
        n > 0 ==> !drop(text[n - 1]),
    ensures
        drop_end_while(text, drop) == text.take(n),
    decreases text.len() - n,
{
    if n == text.len() {
        assert(text.take(n) =~= text);
    } else {
        lemma_drop_end_while(text.drop_last(), drop, n);
        assert(text.drop_last().take(n) =~= text.take(n));
    }
}

/// Trimming the end of a text keeps a start of it.
pub proof fn lemma_trim_end(text: Seq<char>)
    ensures
        trim_end(text).len() <= text.len(),
        trim_end(text) == text.take(trim_end(text).len() as int),
    decreases text.len(),
{
    if text.len() > 0 && is_space(text.last()) {
        lemma_trim_end(text.drop_last());
        let n = trim_end(text).len() as int;
        assert(text.drop_last().take(n) =~= text.take(n));
    } else {
        assert(text.take(text.len() as int) =~= text);
    }
}

/// Trimming the start of a text keeps an end of it.
pub proof fn lemma_trim_start(text: Seq<char>)
    ensures
        trim_start(text).len() <= text.len(),
        trim_start(text) == text.skip(text.len() - trim_start(text).len()),
    decreases text.len(),
{
    if text.len() > 0 && is_space(text[0]) {
        lemma_trim_start(text.skip(1));
        let n = text.len() - trim_start(text).len();
        assert(text.skip(1).skip(n - 1) =~= text.skip(n));
    } else {
        assert(text.skip(0) =~= text);
    }
}

/// A text without the white space at its start.
pub fn trim_start_slice<'a>(text: &'a [char]) -> (r: &'a [char])
    ensures
        r@ == trim_start(text@),
{
    let mut i: usize = 0;
    while i < text.len() && is_whitespace(text[i])
        invariant
            i <= text@.len(),
            forall|k: int| 0 <= k < i ==> is_space(text@[k]),
        decreases text@.len() - i,
    {
        i = i + 1;
    }
    proof {
        lemma_drop_while(text@, |c: char| is_space(c), i as int);
    }
    assert(text@.subrange(i as int, text@.len() as int) =~= text@.skip(i as int));
    vstd::slice::slice_subrange(text, i, text.len())
}

/// A text without the white space at its end.
pub fn trim_end_slice<'a>(text: &'a [char]) -> (r: &'a [char])
    ensures
        r@ == trim_end(text@),
{
    let mut i: usize = text.len();
    while i > 0 && is_whitespace(text[i - 1])
        invariant
            i <= text@.len(),
            forall|k: int| i <= k < text@.len() ==> is_space(text@[k]),
        decreases i,
    {
        i = i - 1;
    }
    proof {
        lemma_drop_end_while(text@, |c: char| is_space(c), i as int);
    }
    assert(text@.subrange(0, i as int) =~= text@.take(i as int));
    vstd::slice::slice_subrange(text, 0, i)
}

/// A text without the white space at either end.
pub fn trim_slice<'a>(text: &'a [char]) -> (r: &'a [char])
    ensures
        r@ == trim(text@),
{
    trim_end_slice(trim_start_slice(text))
}

/// A text without the `c`s at its start.
pub fn trim_start_char_slice<'a>(text: &'a [char], c: char) -> (r: &'a [char])
    ensures
        r@ == trim_start_char(text@, c),
{
    let mut i: usize = 0;
    while i < text.len() && text[i] == c
        invariant
            i <= text@.len(),
            forall|k: int| 0 <= k < i ==> text@[k] == c,
        decreases text@.len() - i,
    {
        i = i + 1;
    }
    proof {
        lemma_drop_while(text@, only(c), i as int);
    }
    assert(text@.subrange(i as int, text@.len() as int) =~= text@.skip(i as int));
    vstd::slice::slice_subrange(text, i, text.len())
}

/// A text without the `c`s at its end.
pub fn trim_end_char_slice<'a>(text: &'a [char], c: char) -> (r: &'a [char])
    ensures
        r@ == trim_end_char(text@, c),
{
    let mut i: usize = text.len();
    while i > 0 && text[i - 1] == c
        invariant
            i <= text@.len(),
            forall|k: int| i <= k < text@.len() ==> text@[k] == c,
        decreases i,
    {
        i = i - 1;
    }
    proof {
        lemma_drop_end_while(text@, only(c), i as int);
    }
    assert(text@.subrange(0, i as int) =~= text@.take(i as int));
    vstd::slice::slice_subrange(text, 0, i)
}

/// A text without the white space at either end.
pub fn trimmed(text: &str) -> (r: String)
    ensures
        r@ == trim(text@),
{
    let t: Vec<char> = chars_of(text);
    string_of(trim_slice(t.as_slice()))
}

// ------------------------------------------------------- taking texts apart

/// A line's text without the carriage return that ends it.
pub open spec fn strip_return(line: Seq<char>) -> Seq<char> {
    if line.len() > 0 && line.last() == '\r' {
        line.drop_last()
    } else {
        line
    }
}

/// The lines of a text: what stands between newlines, without the newline and
/// a carriage return before it. A newline at the end begins no line.
pub open spec fn lines(text: Seq<char>) -> Seq<Seq<char>>
    decreases text.len(),
{
    if text.len() == 0 {
        seq![]
    } else {
        match find(text, seq!['\n']) {
            None => seq![text],
            Some(at) => {
                proof {
                    lemma_find_from(text, seq!['\n'], 0);
                }
                seq![strip_return(text.take(at))] + lines(text.skip(at + 1))
            },
        }
    }
}

/// The parts of a text between the `sep`s in it. There is always one more part
/// than there are `sep`s.
pub open spec fn split(text: Seq<char>, sep: char) -> Seq<Seq<char>>
    decreases text.len(),
{
    match find(text, seq![sep]) {
        None => seq![text],
        Some(at) => {
            proof {
                lemma_find_from(text, seq![sep], 0);
            }
            seq![text.take(at)] + split(text.skip(at + 1), sep)
        },
    }
}

/// Holds of every character that is not white space.
pub open spec fn not_space() -> spec_fn(char) -> bool {
    |c: char| !is_space(c)
}

/// The words of a text: what stands between its white space.
pub open spec fn words(text: Seq<char>) -> Seq<Seq<char>>
    decreases text.len(),
{
    let rest = trim_start(text);
    if rest.len() == 0 {
        seq![]
    } else {
        let word = take_while(rest, not_space());
        proof {
            lemma_trim_start(text);
            lemma_word(text);
            lemma_take_while_prefix(rest, not_space());
        }
        seq![word] + words(rest.skip(word.len() as int))
    }
}

/// A text that is not white space alone begins with a word once it is trimmed.
pub proof fn lemma_word(text: Seq<char>)
    ensures
        trim_start(text).len() > 0 ==> take_while(trim_start(text), not_space()).len() > 0,
    decreases text.len(),
{
    if text.len() > 0 && is_space(text[0]) {
        lemma_word(text.skip(1));
    }
}

/// The words of a text.
pub fn words_of(text: &str) -> (r: Vec<String>)
    ensures
        texts(r@) == words(text@),
{
    let t: Vec<char> = chars_of(text);
    let mut out: Vec<String> = Vec::new();
    let mut rest: &[char] = trim_start_slice(t.as_slice());
    let ghost mut left = text@;
    assert(texts(out@) + words(left) =~= words(text@));
    while rest.len() > 0
        invariant
            rest@ == trim_start(left),
            texts(out@) + words(left) == words(text@),
        decreases rest@.len(),
    {
        let n: usize = rest.len();
        let mut end: usize = 0;
        while end < n && !is_whitespace(rest[end])
            invariant
                end <= n,
                n == rest@.len(),
                forall|k: int| 0 <= k < end ==> not_space()(#[trigger] rest@[k]),
            decreases n - end,
        {
            end = end + 1;
        }
        let (word, after) = cut(rest, end, 0);
        let ghost before = texts(out@);
        proof {
            lemma_take_while(rest@, not_space(), end as int);
            lemma_word(left);
            lemma_trim_start(after@);
        }
        out.push(string_of(word));
        assert(texts(out@) =~= before.push(word@));
        assert(before + (seq![word@] + words(after@)) =~= before.push(word@) + words(after@));
        rest = trim_start_slice(after);
        proof {
            left = after@;
        }
    }
    assert(texts(out@) + words(left) =~= texts(out@));
    out
}

/// The texts in a row with `sep` between each two.
pub open spec fn join(parts: Seq<Seq<char>>, sep: Seq<char>) -> Seq<char>
    decreases parts.len(),
{
    if parts.len() == 0 {
        seq![]
    } else if parts.len() == 1 {
        parts[0]
    } else {
        join(parts.drop_last(), sep) + sep + parts.last()
    }
}

/// A text with every `from` in it replaced by `to`, from the left, without
/// looking at what was put in.
pub open spec fn replace(text: Seq<char>, from: Seq<char>, to: Seq<char>) -> Seq<char>
    decreases text.len(),
{
    if from.len() == 0 {
        text
    } else {
        match find(text, from) {
            None => text,
            Some(at) => {
                proof {
                    lemma_find_from(text, from, 0);
                }
                text.take(at) + to + replace(text.skip(at + from.len()), from, to)
            },
        }
    }
}

/// Puts a run of characters at the end of another.
pub fn extend(out: &mut Vec<char>, part: &[char])
    ensures
        final(out)@ == old(out)@ + part@,
{
    let mut i: usize = 0;
    while i < part.len()
        invariant
            i <= part@.len(),
            out@ == old(out)@ + part@.take(i as int),
        decreases part@.len() - i,
    {
        out.push(part[i]);
        i = i + 1;
        assert(part@.take(i as int) =~= part@.take(i - 1).push(part@[i - 1]));
        assert(out@ =~= old(out)@ + part@.take(i as int));
    }
    assert(part@.take(i as int) =~= part@);
}

/// What stands before and after a place.
pub fn cut<'a>(text: &'a [char], at: usize, len: usize) -> (r: (&'a [char], &'a [char]))
    requires
        at + len <= text@.len(),
    ensures
        r.0@ == text@.take(at as int),
        r.1@ == text@.skip(at + len),
{
    let end: usize = text.len();
    assert(text@.subrange(0, at as int) =~= text@.take(at as int));
    assert(text@.subrange(at + len, end as int) =~= text@.skip(at + len));
    (
        vstd::slice::slice_subrange(text, 0, at),
        vstd::slice::slice_subrange(text, at + len, end),
    )
}

/// The lines of a text.
pub fn lines_of(text: &str) -> (r: Vec<String>)
    ensures
        texts(r@) == lines(text@),
{
    let t: Vec<char> = chars_of(text);
    let nl: Vec<char> = vec!['\n'];
    let mut out: Vec<String> = Vec::new();
    let mut rest: &[char] = t.as_slice();
    assert(nl@ =~= seq!['\n']);
    assert(texts(out@) + lines(rest@) =~= lines(text@));
    while rest.len() > 0
        invariant
            nl@ == seq!['\n'],
            texts(out@) + lines(rest@) == lines(text@),
        decreases rest@.len(),
    {
        let ghost before = texts(out@);
        let ghost whole = rest@;
        match find_at(rest, nl.as_slice(), 0) {
            None => {
                out.push(string_of(rest));
                assert(texts(out@) =~= before.push(rest@));
                assert(texts(out@) =~= before + seq![rest@]);
                return out;
            },
            Some(at) => {
                proof {
                    lemma_find_from(rest@, nl@, 0);
                }
                let (line, after) = cut(rest, at, 1);
                let line: &[char] = if line.len() > 0 && line[line.len() - 1] == '\r' {
                    assert(line@.subrange(0, line@.len() - 1) =~= line@.drop_last());
                    vstd::slice::slice_subrange(line, 0, line.len() - 1)
                } else {
                    line
                };
                assert(line@ == strip_return(whole.take(at as int)));
                out.push(string_of(line));
                rest = after;
                assert(texts(out@) =~= before.push(line@));
                assert(texts(out@) + lines(rest@) =~= before + (seq![line@] + lines(rest@)));
            },
        }
    }
    assert(texts(out@) + lines(rest@) =~= texts(out@));
    out
}

/// The parts of a text between the `sep`s in it.
pub fn split_on(text: &str, sep: char) -> (r: Vec<String>)
    ensures
        texts(r@) == split(text@, sep),
        r@.len() > 0,
{
    let t: Vec<char> = chars_of(text);
    let needle: Vec<char> = vec![sep];
    let mut out: Vec<String> = Vec::new();
    let mut rest: &[char] = t.as_slice();
    assert(needle@ =~= seq![sep]);
    assert(texts(out@) + split(rest@, sep) =~= split(text@, sep));
    loop
        invariant
            needle@ == seq![sep],
            texts(out@) + split(rest@, sep) == split(text@, sep),
        decreases rest@.len(),
    {
        let ghost before = texts(out@);
        match find_at(rest, needle.as_slice(), 0) {
            None => {
                out.push(string_of(rest));
                assert(texts(out@) =~= before + seq![rest@]);
                return out;
            },
            Some(at) => {
                proof {
                    lemma_find_from(rest@, needle@, 0);
                }
                let (part, after) = cut(rest, at, 1);
                out.push(string_of(part));
                rest = after;
                assert(texts(out@) =~= before.push(part@));
                assert(texts(out@) + split(rest@, sep) =~= before + (seq![part@] + split(
                    rest@,
                    sep,
                )));
            },
        }
    }
}

/// A text with every `from` in it replaced by `to`.
pub fn replaced(text: &str, from: &str, to: &str) -> (r: String)
    requires
        0 < from@.len(),
    ensures
        r@ == replace(text@, from@, to@),
{
    let t: Vec<char> = chars_of(text);
    let f: Vec<char> = chars_of(from);
    let by: Vec<char> = chars_of(to);
    let mut out: Vec<char> = Vec::new();
    let mut rest: &[char] = t.as_slice();
    assert(out@ + replace(rest@, from@, to@) =~= replace(text@, from@, to@));
    loop
        invariant
            0 < from@.len(),
            f@ == from@,
            by@ == to@,
            out@ + replace(rest@, from@, to@) == replace(text@, from@, to@),
        decreases rest@.len(),
    {
        let ghost before = out@;
        let ghost whole = rest@;
        match find_at(rest, f.as_slice(), 0) {
            None => {
                extend(&mut out, rest);
                return string_of(&out);
            },
            Some(at) => {
                proof {
                    lemma_find_from(rest@, from@, 0);
                }
                let (head, after) = cut(rest, at, f.len());
                extend(&mut out, head);
                extend(&mut out, by.as_slice());
                rest = after;
                assert(out@ + replace(rest@, from@, to@) =~= before + (whole.take(at as int) + to@
                    + replace(rest@, from@, to@)));
            },
        }
    }
}

/// The texts in a row with `sep` between each two.
pub fn joined(parts: &Vec<String>, sep: &str) -> (r: String)
    ensures
        r@ == join(texts(parts@), sep@),
{
    let mut out: String = String::new();
    let mut i: usize = 0;
    while i < parts.len()
        invariant
            i <= parts@.len(),
            out@ == join(texts(parts@).take(i as int), sep@),
        decreases parts@.len() - i,
    {
        if i > 0 {
            out.append(sep);
        }
        out.append(parts[i].as_str());
        i = i + 1;
        let ghost upto = texts(parts@).take(i as int);
        assert(upto.drop_last() =~= texts(parts@).take(i - 1));
        assert(upto.last() == parts@[i - 1]@);
        if i == 1 {
            assert(out@ =~= upto[0]);
        }
    }
    assert(texts(parts@).take(i as int) =~= texts(parts@));
    out
}

/// What follows `prefix` in a text that begins with it.
pub open spec fn after_prefix(text: Seq<char>, prefix: Seq<char>) -> Option<Seq<char>> {
    if begins(text, prefix) {
        Some(text.skip(prefix.len() as int))
    } else {
        None
    }
}

/// What precedes `suffix` in a text that ends with it.
pub open spec fn before_suffix(text: Seq<char>, suffix: Seq<char>) -> Option<Seq<char>> {
    if ends(text, suffix) {
        Some(text.take(text.len() - suffix.len()))
    } else {
        None
    }
}

/// What stands on either side of the first `sep` in a text.
pub open spec fn around_first(text: Seq<char>, sep: char) -> Option<(Seq<char>, Seq<char>)> {
    match find(text, seq![sep]) {
        Some(at) => Some((text.take(at), text.skip(at + 1))),
        None => None,
    }
}

/// What stands on either side of the last `sep` in a text.
pub open spec fn around_last(text: Seq<char>, sep: char) -> Option<(Seq<char>, Seq<char>)> {
    match rfind(text, seq![sep]) {
        Some(at) => Some((text.take(at), text.skip(at + 1))),
        None => None,
    }
}

/// Two texts, where there are two.
pub open spec fn opt_pair(r: Option<(String, String)>) -> Option<(Seq<char>, Seq<char>)> {
    match r {
        Some(p) => Some((p.0@, p.1@)),
        None => None,
    }
}

/// What follows `prefix` in a text that begins with it.
pub fn strip_prefix(text: &str, prefix: &str) -> (r: Option<String>)
    ensures
        opt_text(r) == after_prefix(text@, prefix@),
{
    let t: Vec<char> = chars_of(text);
    let p: Vec<char> = chars_of(prefix);
    if stands(t.as_slice(), p.as_slice(), 0) {
        let (_, rest) = cut(t.as_slice(), p.len(), 0);
        Some(string_of(rest))
    } else {
        None
    }
}

/// What precedes `suffix` in a text that ends with it.
pub fn strip_suffix(text: &str, suffix: &str) -> (r: Option<String>)
    ensures
        opt_text(r) == before_suffix(text@, suffix@),
{
    let t: Vec<char> = chars_of(text);
    let s: Vec<char> = chars_of(suffix);
    if s.len() <= t.len() && stands(t.as_slice(), s.as_slice(), t.len() - s.len()) {
        let (head, _) = cut(t.as_slice(), t.len() - s.len(), 0);
        Some(string_of(head))
    } else {
        None
    }
}

/// What stands on either side of the first `sep` in a text.
pub fn split_once(text: &str, sep: char) -> (r: Option<(String, String)>)
    ensures
        opt_pair(r) == around_first(text@, sep),
{
    let t: Vec<char> = chars_of(text);
    let needle: Vec<char> = vec![sep];
    assert(needle@ =~= seq![sep]);
    match find_at(t.as_slice(), needle.as_slice(), 0) {
        Some(at) => {
            let (head, tail) = cut(t.as_slice(), at, 1);
            Some((string_of(head), string_of(tail)))
        },
        None => None,
    }
}

/// What stands on either side of the last `sep` in a text.
pub fn rsplit_once(text: &str, sep: char) -> (r: Option<(String, String)>)
    ensures
        opt_pair(r) == around_last(text@, sep),
{
    let t: Vec<char> = chars_of(text);
    let needle: Vec<char> = vec![sep];
    assert(needle@ =~= seq![sep]);
    match rfind_in(t.as_slice(), needle.as_slice()) {
        Some(at) => {
            let (head, tail) = cut(t.as_slice(), at, 1);
            Some((string_of(head), string_of(tail)))
        },
        None => None,
    }
}

/// Whether a text is empty.
pub fn is_empty(text: &str) -> (r: bool)
    ensures
        r == (text@.len() == 0),
{
    chars_of(text).len() == 0
}

/// A text without the `c`s at its start.
pub fn trimmed_start_of(text: &str, c: char) -> (r: String)
    ensures
        r@ == trim_start_char(text@, c),
{
    let t: Vec<char> = chars_of(text);
    string_of(trim_start_char_slice(t.as_slice(), c))
}

/// The text with nothing in it.
pub fn empty() -> (r: String)
    ensures
        r@ == Seq::<char>::empty(),
{
    let out: String = String::new();
    assert(out@ =~= Seq::<char>::empty());
    out
}

/// Some texts again.
pub fn copy_texts(list: &Vec<String>) -> (r: Vec<String>)
    ensures
        texts(r@) == texts(list@),
{
    let mut out: Vec<String> = Vec::new();
    let mut i: usize = 0;
    while i < list.len()
        invariant
            i <= list@.len(),
            texts(out@) == texts(list@).take(i as int),
        decreases list@.len() - i,
    {
        let ghost before = texts(out@);
        out.push(list[i].clone());
        assert(texts(out@) =~= before.push(list@[i as int]@));
        assert(texts(out@) =~= texts(list@).take(i + 1));
        i = i + 1;
    }
    assert(texts(list@).take(i as int) =~= texts(list@));
    out
}

// ------------------------------------------------- what the operations come to

/// Joining a part to others puts the separator between.
pub proof fn lemma_join_first(a: Seq<char>, rest: Seq<Seq<char>>, sep: Seq<char>)
    requires
        rest.len() > 0,
    ensures
        join(seq![a] + rest, sep) == a + sep + join(rest, sep),
    decreases rest.len(),
{
    let all = seq![a] + rest;
    reveal_with_fuel(join, 2);
    if rest.len() == 1 {
        assert(all.drop_last() =~= seq![a]);
        assert(all.last() == rest[0]);
    } else {
        lemma_join_first(a, rest.drop_last(), sep);
        assert(all.drop_last() =~= seq![a] + rest.drop_last());
        assert(join(all, sep) =~= a + sep + join(rest, sep));
    }
}

/// A text that was split is had back by joining the parts, and no part holds the separator.
pub proof fn what_is_split_joins(text: Seq<char>, sep: char)
    ensures
        split(text, sep).len() > 0,
        join(split(text, sep), seq![sep]) == text,
        forall|i: int| 0 <= i < split(text, sep).len() ==> !(#[trigger] split(text, sep)[i]).contains(sep),
    decreases text.len(),
{
    lemma_found_one(text, sep);
    match find(text, seq![sep]) {
        None => {},
        Some(at) => {
            let rest = text.skip(at + 1);
            what_is_split_joins(rest, sep);
            lemma_join_first(text.take(at), split(rest, sep), seq![sep]);
            assert(text =~= text.take(at) + seq![sep] + rest);
            let parts = split(text, sep);
            assert forall|i: int| 0 <= i < parts.len() implies !(#[trigger] parts[i]).contains(sep) by {
                if i > 0 {
                    assert(parts[i] == split(rest, sep)[i - 1]);
                }
            }
        },
    }
}

/// The lines of a text without carriage returns, joined by newlines, are the text, but for a
/// newline at its end; and no line holds a newline.
pub proof fn lines_join_to_the_text(text: Seq<char>)
    requires
        !text.contains('\r'),
    ensures
        text.len() > 0 ==> lines(text).len() > 0,
        text == join(lines(text), seq!['\n']) + (if text.len() > 0 && text.last() == '\n' {
            seq!['\n']
        } else {
            Seq::empty()
        }),
        forall|i: int| 0 <= i < lines(text).len() ==> !(#[trigger] lines(text)[i]).contains('\n'),
    decreases text.len(),
{
    lemma_found_one(text, '\n');
    if text.len() > 0 {
        match find(text, seq!['\n']) {
            None => {
                assert(text =~= text + Seq::<char>::empty());
            },
            Some(at) => {
                let line = text.take(at);
                let rest = text.skip(at + 1);
                assert(strip_return(line) == line) by {
                    if line.len() > 0 {
                        assert(text.contains(line.last()));
                    }
                }
                assert(!rest.contains('\r')) by {
                    if rest.contains('\r') {
                        let k = rest.index_of('\r');
                        assert(text[at + 1 + k] == '\r');
                    }
                }
                lines_join_to_the_text(rest);
                let all = lines(text);
                if rest.len() == 0 {
                    assert(all =~= seq![line]);
                    assert(text =~= line + seq!['\n']);
                } else {
                    lemma_join_first(line, lines(rest), seq!['\n']);
                    assert(rest.last() == text.last());
                    assert(text =~= line + seq!['\n'] + rest);
                    let end = if text.last() == '\n' {
                        seq!['\n']
                    } else {
                        Seq::empty()
                    };
                    assert(line + seq!['\n'] + (join(lines(rest), seq!['\n']) + end) =~= line + seq![
                        '\n',
                    ] + join(lines(rest), seq!['\n']) + end);
                }
                assert forall|i: int| 0 <= i < all.len() implies !(#[trigger] all[i]).contains('\n') by {
                    if i > 0 {
                        assert(all[i] == lines(rest)[i - 1]);
                    }
                }
            },
        }
    }
}

/// A carriage return before a newline belongs to neither line.
pub proof fn a_return_goes_with_its_newline(line: Seq<char>, rest: Seq<char>)
    requires
        !line.contains('\n'),
    ensures
        lines(line + seq!['\r', '\n'] + rest) == seq![line] + lines(rest),
{
    let text = line + seq!['\r', '\n'] + rest;
    let n = line.len() as int + 1;
    assert forall|k: int| 0 <= k < n implies text[k] != '\n' by {
        if k < line.len() {
            assert(text[k] == line[k]);
        }
    }
    lemma_find_one(text, '\n', n);
    assert(text.take(n) =~= line.push('\r'));
    assert(line.push('\r').drop_last() =~= line);
    assert(text.skip(n + 1) =~= rest);
}

/// How often a character occurs in a text.
pub open spec fn count_of(text: Seq<char>, c: char) -> nat
    decreases text.len(),
{
    if text.len() == 0 {
        0
    } else {
        count_of(text.drop_last(), c) + if text.last() == c {
            1nat
        } else {
            0nat
        }
    }
}

/// What occurs in two texts occurs in the two together.
proof fn lemma_count_concat(a: Seq<char>, b: Seq<char>, c: char)
    ensures
        count_of(a + b, c) == count_of(a, c) + count_of(b, c),
    decreases b.len(),
{
    if b.len() == 0 {
        assert(a + b =~= a);
    } else {
        lemma_count_concat(a, b.drop_last(), c);
        assert((a + b).drop_last() =~= a + b.drop_last());
    }
}

/// What is not in a text does not occur in it.
proof fn lemma_count_none(text: Seq<char>, c: char)
    requires
        forall|k: int| 0 <= k < text.len() ==> text[k] != c,
    ensures
        count_of(text, c) == 0,
    decreases text.len(),
{
    if text.len() > 0 {
        lemma_count_none(text.drop_last(), c);
    }
}

/// A text has one part more than separators, and a line for each newline and for what follows
/// the last.
pub proof fn parts_and_lines_are_counted(text: Seq<char>, sep: char)
    ensures
        split(text, sep).len() == count_of(text, sep) + 1,
        lines(text).len() == count_of(text, '\n') + if text.len() > 0 && text.last() != '\n' {
            1int
        } else {
            0int
        },
    decreases text.len(),
{
    lemma_found_one(text, sep);
    lemma_found_one(text, '\n');
    match find(text, seq![sep]) {
        None => {
            lemma_count_none(text, sep);
        },
        Some(at) => {
            let rest = text.skip(at + 1);
            parts_and_lines_are_counted(rest, sep);
            lemma_one_counted(text, sep, at);
        },
    }
    if text.len() > 0 {
        match find(text, seq!['\n']) {
            None => {
                lemma_count_none(text, '\n');
            },
            Some(at) => {
                let rest = text.skip(at + 1);
                parts_and_lines_are_counted(rest, sep);
                lemma_one_counted(text, '\n', at);
                if rest.len() > 0 {
                    assert(rest.last() == text.last());
                }
            },
        }
    }
}

/// The first of a character is one, and the rest come after it.
proof fn lemma_one_counted(text: Seq<char>, c: char, at: int)
    requires
        0 <= at < text.len(),
        text[at] == c,
        forall|k: int| 0 <= k < at ==> text[k] != c,
    ensures
        count_of(text, c) == 1 + count_of(text.skip(at + 1), c),
{
    lemma_count_none(text.take(at), c);
    lemma_count_concat(text.take(at), seq![c], c);
    lemma_count_concat(text.take(at) + seq![c], text.skip(at + 1), c);
    assert(text =~= text.take(at) + seq![c] + text.skip(at + 1));
    assert(seq![c].drop_last() =~= Seq::<char>::empty());
    reveal_with_fuel(count_of, 2);
}

/// Trimming takes white space from the ends of a text, all of it and nothing else.
pub proof fn trimming_takes_white_space(text: Seq<char>)
    ensures
        trim(text).len() > 0 ==> !is_space(trim(text)[0]) && !is_space(trim(text).last()),
        exists|at: int| #[trigger]
            stands_at(text, trim(text), at) && (forall|k: int| 0 <= k < at ==> is_space(text[k]))
                && (forall|k: int| at + trim(text).len() <= k < text.len() ==> is_space(text[k])),
{
    let start = trim_start(text);
    let both = trim(text);
    lemma_space_before(text);
    lemma_space_after(start);
    lemma_trim_start(text);
    lemma_trim_end(start);
    let at = text.len() - start.len();
    assert(text.subrange(at, at + both.len()) =~= both);
    assert(stands_at(text, both, at));
    if both.len() > 0 {
        assert(both[0] == start[0]);
    }
    assert forall|k: int| at + both.len() <= k < text.len() implies is_space(text[k]) by {
        assert(text[k] == start[k - at]);
    }
}

/// What is trimmed from the start is white space, and what is left does not begin with it.
proof fn lemma_space_before(text: Seq<char>)
    ensures
        trim_start(text).len() <= text.len(),
        forall|k: int| 0 <= k < text.len() - trim_start(text).len() ==> is_space(text[k]),
        trim_start(text).len() > 0 ==> !is_space(trim_start(text)[0]),
    decreases text.len(),
{
    if text.len() > 0 && is_space(text[0]) {
        lemma_space_before(text.skip(1));
        assert forall|k: int| 0 <= k < text.len() - trim_start(text).len() implies is_space(text[k]) by {
            if k > 0 {
                assert(text[k] == text.skip(1)[k - 1]);
            }
        }
    }
}

/// What is trimmed from the end is white space, and what is left does not end with it.
proof fn lemma_space_after(text: Seq<char>)
    ensures
        trim_end(text).len() <= text.len(),
        forall|k: int| trim_end(text).len() <= k < text.len() ==> is_space(text[k]),
        trim_end(text).len() > 0 ==> !is_space(trim_end(text).last()),
    decreases text.len(),
{
    if text.len() > 0 && is_space(text.last()) {
        lemma_space_after(text.drop_last());
        assert forall|k: int| trim_end(text).len() <= k < text.len() implies is_space(text[k]) by {
            if k < text.len() - 1 {
                assert(text[k] == text.drop_last()[k]);
            }
        }
    }
}

/// White space before a text is in none of its words, and what has no white space in it and is
/// followed by white space, or by nothing, is one word.
pub proof fn words_are_set_apart_by_space(word: Seq<char>, text: Seq<char>, c: char)
    requires
        is_space(c),
        word.len() > 0,
        forall|k: int| 0 <= k < word.len() ==> !is_space(word[k]),
        text.len() > 0 ==> is_space(text[0]),
    ensures
        words(seq![c] + text) == words(text),
        words(word + text) == seq![word] + words(text),
        words(Seq::empty()).len() == 0,
{
    assert((seq![c] + text).skip(1) =~= text);
    assert(trim_start(seq![c] + text) == trim_start(text));
    let all = word + text;
    assert(all[0] == word[0]);
    assert(trim_start(all) == all);
    assert forall|k: int| 0 <= k < word.len() implies not_space()(all[k]) by {
        assert(all[k] == word[k]);
    }
    if text.len() > 0 {
        assert(all[word.len() as int] == text[0]);
    }
    lemma_take_while(all, not_space(), word.len() as int);
    assert(all.take(word.len() as int) =~= word);
    assert(all.skip(word.len() as int) =~= text);
}

/// Replacing something by itself changes nothing, and neither does replacing what is not there.
pub proof fn replacing_by_the_same_changes_nothing(text: Seq<char>, from: Seq<char>, to: Seq<char>)
    ensures
        replace(text, from, from) == text,
        !occurs(text, from) ==> replace(text, from, to) == text,
    decreases text.len(),
{
    if from.len() > 0 {
        lemma_find_from(text, from, 0);
        if let Some(at) = find(text, from) {
            replacing_by_the_same_changes_nothing(text.skip(at + from.len()), from, to);
            assert(text.take(at) + from + text.skip(at + from.len()) =~= text) by {
                assert forall|k: int| at <= k < at + from.len() implies text[k] == from[k - at] by {
                    assert(text.subrange(at, at + from.len())[k - at] == text[k]);
                }
            }
        }
    }
}

/// A character that is replaced is gone, and each takes as much room as what stands in its place.
pub proof fn a_replaced_character_is_gone(text: Seq<char>, c: char, to: Seq<char>)
    requires
        !to.contains(c),
    ensures
        !replace(text, seq![c], to).contains(c),
        replace(text, seq![c], to).len() == text.len() - count_of(text, c) + count_of(text, c)
            * to.len(),
    decreases text.len(),
{
    lemma_found_one(text, c);
    match find(text, seq![c]) {
        None => {
            lemma_count_none(text, c);
        },
        Some(at) => {
            let rest = text.skip(at + 1);
            a_replaced_character_is_gone(rest, c, to);
            lemma_one_counted(text, c, at);
            let out = replace(text, seq![c], to);
            let more = replace(rest, seq![c], to);
            assert(out == text.take(at) + to + more);
            if out.contains(c) {
                let k = out.index_of(c);
                if k >= at {
                    if k < at + to.len() {
                        assert(to[k - at] == c);
                    } else {
                        assert(more[k - at - to.len()] == c);
                    }
                }
            }
            let n = count_of(rest, c) as int;
            assert((n + 1) * to.len() == n * to.len() + to.len()) by (nonlinear_arith);
        },
    }
}

/// Two texts with a separator between them have the parts of the one and then those of the other.
pub proof fn parts_follow_each_other(a: Seq<char>, b: Seq<char>, sep: char)
    ensures
        split(a + seq![sep] + b, sep) == split(a, sep) + split(b, sep),
    decreases a.len(),
{
    let text = a + seq![sep] + b;
    lemma_found_one(a, sep);
    match find(a, seq![sep]) {
        None => {
            let n = a.len() as int;
            assert forall|k: int| 0 <= k < n implies text[k] != sep by {
                assert(text[k] == a[k]);
            }
            lemma_find_one(text, sep, n);
            assert(text.take(n) =~= a);
            assert(text.skip(n + 1) =~= b);
        },
        Some(at) => {
            assert forall|k: int| 0 <= k < at implies text[k] != sep by {
                assert(text[k] == a[k]);
            }
            assert(text[at] == a[at]);
            lemma_find_one(text, sep, at);
            parts_follow_each_other(a.skip(at + 1), b, sep);
            assert(text.take(at) =~= a.take(at));
            assert(text.skip(at + 1) =~= a.skip(at + 1) + seq![sep] + b);
            assert(split(text, sep) =~= split(a, sep) + split(b, sep));
        },
    }
}

/// Each part of a text stands in it.
pub proof fn a_part_stands_in_its_text(text: Seq<char>, sep: char, i: int)
    requires
        0 <= i < split(text, sep).len(),
    ensures
        exists|at: int| #[trigger] stands_at(text, split(text, sep)[i], at),
    decreases text.len(),
{
    lemma_found_one(text, sep);
    let part = split(text, sep)[i];
    match find(text, seq![sep]) {
        None => {
            assert(text.subrange(0, text.len() as int) =~= text);
            assert(stands_at(text, part, 0));
        },
        Some(at) => {
            if i == 0 {
                assert(text.subrange(0, at) =~= text.take(at));
                assert(stands_at(text, part, 0));
            } else {
                let rest = text.skip(at + 1);
                a_part_stands_in_its_text(rest, sep, i - 1);
                let k = choose|k: int| #[trigger] stands_at(rest, split(rest, sep)[i - 1], k);
                assert(text.subrange(at + 1 + k, at + 1 + k + part.len()) =~= rest.subrange(
                    k,
                    k + part.len(),
                ));
                assert(stands_at(text, part, at + 1 + k));
            }
        },
    }
}

/// What is in a text after something was replaced was in it before, or is in what was put in.
pub proof fn replacing_brings_in_nothing_else(text: Seq<char>, from: Seq<char>, to: Seq<char>, c: char)
    requires
        !text.contains(c),
        !to.contains(c),
    ensures
        !replace(text, from, to).contains(c),
    decreases text.len(),
{
    if from.len() > 0 {
        lemma_find_from(text, from, 0);
        if let Some(at) = find(text, from) {
            let rest = text.skip(at + from.len());
            assert(!rest.contains(c)) by {
                if rest.contains(c) {
                    let k = rest.index_of(c);
                    assert(text[at + from.len() + k] == c);
                }
            }
            replacing_brings_in_nothing_else(rest, from, to, c);
            let more = replace(rest, from, to);
            let out = text.take(at) + to + more;
            if out.contains(c) {
                let k = out.index_of(c);
                if k < at {
                    assert(text[k] == c);
                } else if k < at + to.len() {
                    assert(to[k - at] == c);
                } else {
                    assert(more[k - at - to.len()] == c);
                }
            }
        }
    }
}

/// What stands at a place and nowhere after it is last there.
pub proof fn lemma_last_there<T>(hay: Seq<T>, needle: Seq<T>, n: int)
    requires
        stands_at(hay, needle, n),
        forall|i: int| n < i ==> !stands_at(hay, needle, i),
    ensures
        rfind(hay, needle) == Some(n),
{
    lemma_rfind(hay, needle);
}

} // verus!

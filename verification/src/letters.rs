//! The letters annotations are shown under: `a` to `z`, then `aa`, `ab`, and
//! so on.

use vstd::prelude::*;
use vstd::string::*;

use crate::text::{chars_of, push, texts};

verus! {

/// The lower-case ASCII letters.
pub open spec fn is_lower(c: char) -> bool {
    'a' <= c <= 'z'
}

/// What a letter counts for: one for `a`, twenty-six for `z`.
pub open spec fn weight(c: char) -> nat {
    (c as u32 - 'a' as u32 + 1) as nat
}

/// The number a row of letters stands for, in bijective base 26.
pub open spec fn letters_value(s: Seq<char>) -> nat
    decreases s.len(),
{
    if s.len() == 0 {
        0
    } else {
        letters_value(s.drop_last()) * 26 + weight(s.last())
    }
}

/// Whether a text is a display letter: lower-case letters, at least one.
pub open spec fn is_display_letter(s: Seq<char>) -> bool {
    s.len() > 0 && forall|i: int| 0 <= i < s.len() ==> is_lower(#[trigger] s[i])
}

/// Where a display letter stands in the order they are given out, from one.
pub open spec fn index_of(s: Seq<char>) -> Option<nat> {
    if is_display_letter(s) {
        Some(letters_value(s))
    } else {
        None
    }
}

/// The display letter at a place in the order, from one.
pub open spec fn letter_at(n: nat) -> Seq<char>
    decreases n,
{
    if n == 0 {
        seq![]
    } else {
        letter_at(((n - 1) / 26) as nat).push(('a' as u32 + (n - 1) % 26) as char)
    }
}

/// The letters of a text that reads as one grow in value with every letter.
proof fn lemma_value_grows(s: Seq<char>, n: int)
    requires
        forall|i: int| 0 <= i < s.len() ==> is_lower(#[trigger] s[i]),
        0 <= n <= s.len(),
    ensures
        letters_value(s.take(n)) <= letters_value(s),
    decreases s.len() - n,
{
    if n < s.len() {
        lemma_value_grows(s, n + 1);
        assert(s.take(n + 1).drop_last() =~= s.take(n));
    } else {
        assert(s.take(n) =~= s);
    }
}

/// Where a display letter stands in the order, from one.
pub fn letter_index(s: &str) -> (r: Option<u64>)
    requires
        index_of(s@) matches Some(n) ==> n <= u64::MAX,
    ensures
        match r {
            Some(n) => index_of(s@) == Some(n as nat),
            None => index_of(s@) is None,
        },
{
    let t: Vec<char> = chars_of(s);
    if t.len() == 0 {
        return None;
    }
    let mut i: usize = 0;
    while i < t.len()
        invariant
            i <= t@.len(),
            t@ == s@,
            forall|k: int| 0 <= k < i ==> is_lower(#[trigger] t@[k]),
        decreases t@.len() - i,
    {
        if t[i] < 'a' || t[i] > 'z' {
            assert(!is_lower(s@[i as int]));
            return None;
        }
        i = i + 1;
    }
    let mut acc: u64 = 0;
    let mut j: usize = 0;
    while j < t.len()
        invariant
            j <= t@.len(),
            forall|k: int| 0 <= k < t@.len() ==> is_lower(#[trigger] t@[k]),
            letters_value(t@) <= u64::MAX,
            acc == letters_value(t@.take(j as int)),
        decreases t@.len() - j,
    {
        let c: char = t[j];
        assert(is_lower(t@[j as int]));
        proof {
            lemma_value_grows(t@, j + 1);
            assert(t@.take(j + 1).drop_last() =~= t@.take(j as int));
        }
        acc = acc * 26 + (c as u64 - 96);
        j = j + 1;
    }
    assert(t@.take(j as int) =~= t@);
    Some(acc)
}

/// Writes the display letter at a place in the order at the end of a text.
fn push_letter(out: &mut String, n: u64)
    ensures
        final(out)@ == old(out)@ + letter_at(n as nat),
    decreases n,
{
    if n > 0 {
        let m: u64 = n - 1;
        push_letter(out, m / 26);
        let c: u8 = 97 + (m % 26) as u8;
        push(out, c as char);
    }
    assert(out@ =~= old(out)@ + letter_at(n as nat));
}

/// The display letter at a place in the order: 1 is `a`, 26 is `z`, 27 is
/// `aa`.
pub fn index_letter(n: u64) -> (r: String)
    ensures
        r@ == letter_at(n as nat),
{
    let mut out: String = String::new();
    push_letter(&mut out, n);
    assert(out@ =~= letter_at(n as nat));
    out
}

/// The letter at a place stands at that place.
pub proof fn letter_has_its_index(n: nat)
    requires
        n > 0,
    ensures
        index_of(letter_at(n)) == Some(n),
    decreases n,
{
    lemma_letter_value(n);
}

/// The letter at a place is made of letters and is worth the place.
proof fn lemma_letter_value(n: nat)
    ensures
        letters_value(letter_at(n)) == n,
        n > 0 ==> is_display_letter(letter_at(n)),
    decreases n,
{
    if n > 0 {
        let m = ((n - 1) / 26) as nat;
        lemma_letter_value(m);
        let s = letter_at(n);
        assert(s.drop_last() =~= letter_at(m));
        assert(is_lower(s.last()));
        assert forall|i: int| 0 <= i < s.len() implies is_lower(#[trigger] s[i]) by {
            if i < letter_at(m).len() {
                assert(s[i] == letter_at(m)[i]);
            }
        }
    }
}

/// The place of a letter has that letter.
pub proof fn index_has_its_letter(s: Seq<char>)
    requires
        is_display_letter(s),
    ensures
        letter_at(letters_value(s)) == s,
    decreases s.len(),
{
    let head = s.drop_last();
    let w = weight(s.last());
    let n = letters_value(s);
    assert(is_lower(s.last()));
    if head.len() > 0 {
        assert(forall|i: int| 0 <= i < head.len() ==> head[i] == s[i]);
        index_has_its_letter(head);
    } else {
        assert(head =~= Seq::<char>::empty());
    }
    assert(n == letters_value(head) * 26 + w);
    assert(1 <= w <= 26);
    assert((n - 1) / 26 == letters_value(head));
    assert((n - 1) % 26 == w - 1);
    assert(letter_at(letters_value(head)) =~= head);
    assert(('a' as u32 + (n - 1) % 26) as char == s.last());
    assert(letter_at(n) =~= head.push(s.last()));
    assert(head.push(s.last()) =~= s);
}

/// The highest place in use, with zero for none.
pub open spec fn highest(letters: Seq<Seq<char>>) -> nat
    decreases letters.len(),
{
    if letters.len() == 0 {
        0
    } else {
        let before = highest(letters.drop_last());
        match index_of(letters.last()) {
            Some(n) => if n > before {
                n
            } else {
                before
            },
            None => before,
        }
    }
}

/// Every letter in use stands at or below the highest place.
pub proof fn lemma_highest(letters: Seq<Seq<char>>, i: int)
    requires
        0 <= i < letters.len(),
    ensures
        index_of(letters[i]) matches Some(n) ==> n <= highest(letters),
    decreases letters.len(),
{
    if i < letters.len() - 1 {
        lemma_highest(letters.drop_last(), i);
    }
}

/// Whether a text, where it is a display letter, leaves a place after it.
fn leaves_place(s: &str) -> (r: bool)
    ensures
        r == (index_of(s@) matches Some(n) ==> n < u64::MAX),
{
    let t: Vec<char> = chars_of(s);
    if t.len() == 0 {
        return true;
    }
    let mut i: usize = 0;
    while i < t.len()
        invariant
            i <= t@.len(),
            t@ == s@,
            forall|k: int| 0 <= k < i ==> is_lower(#[trigger] t@[k]),
        decreases t@.len() - i,
    {
        if t[i] < 'a' || t[i] > 'z' {
            assert(!is_lower(s@[i as int]));
            return true;
        }
        i = i + 1;
    }
    let mut acc: u64 = 0;
    let mut j: usize = 0;
    while j < t.len()
        invariant
            j <= t@.len(),
            t@ == s@,
            t@.len() > 0,
            forall|k: int| 0 <= k < t@.len() ==> is_lower(#[trigger] t@[k]),
            acc == letters_value(t@.take(j as int)),
            acc < u64::MAX,
        decreases t@.len() - j,
    {
        let c: char = t[j];
        assert(is_lower(t@[j as int]));
        proof {
            lemma_value_grows(t@, j + 1);
            assert(t@.take(j + 1).drop_last() =~= t@.take(j as int));
        }
        let next: u128 = acc as u128 * 26 + (c as u128 - 96);
        if next >= u64::MAX as u128 {
            return false;
        }
        acc = next as u64;
        j = j + 1;
    }
    assert(t@.take(j as int) =~= t@);
    true
}

/// Whether there is a next letter to give: the highest in use can be counted past.
pub fn can_letter(letters: &Vec<String>) -> (r: bool)
    ensures
        r == (highest(texts(letters@)) < u64::MAX),
{
    let ghost all = texts(letters@);
    let mut i: usize = 0;
    while i < letters.len()
        invariant
            i <= letters@.len(),
            all == texts(letters@),
            highest(all.take(i as int)) < u64::MAX,
        decreases letters@.len() - i,
    {
        proof {
            lemma_highest(all, i as int);
            assert(all.take(i + 1).drop_last() =~= all.take(i as int));
            assert(all.take(i + 1).last() == letters@[i as int]@);
        }
        if !leaves_place(letters[i].as_str()) {
            return false;
        }
        i = i + 1;
    }
    assert(all.take(i as int) =~= all);
    true
}

/// The next free display letter: one past the highest in use.
pub fn next_letter(letters: &Vec<String>) -> (r: String)
    requires
        highest(texts(letters@)) < u64::MAX,
    ensures
        r@ == letter_at(highest(texts(letters@)) + 1),
{
    let ghost all = texts(letters@);
    let mut max: u64 = 0;
    let mut i: usize = 0;
    while i < letters.len()
        invariant
            i <= letters@.len(),
            all == texts(letters@),
            highest(all) < u64::MAX,
            max == highest(all.take(i as int)),
        decreases letters@.len() - i,
    {
        proof {
            lemma_highest(all, i as int);
            assert(all.take(i + 1).drop_last() =~= all.take(i as int));
            assert(all.take(i + 1).last() == letters@[i as int]@);
        }
        match letter_index(letters[i].as_str()) {
            Some(n) => {
                if n > max {
                    max = n;
                }
            },
            None => {},
        }
        i = i + 1;
    }
    assert(all.take(i as int) =~= all);
    index_letter(max + 1)
}

/// The next free letter is free: no annotation is shown under it.
pub proof fn next_letter_is_free(letters: Seq<Seq<char>>)
    ensures
        !letters.contains(letter_at(highest(letters) + 1)),
{
    let next = letter_at(highest(letters) + 1);
    letter_has_its_index(highest(letters) + 1);
    if letters.contains(next) {
        let i = choose|i: int| 0 <= i < letters.len() && letters[i] == next;
        lemma_highest(letters, i);
    }
}

} // verus!

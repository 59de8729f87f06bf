//! Texts in order: by their bytes, as file names are listed.

use vstd::prelude::*;
use vstd::string::*;
use vstd::utf8::*;

use crate::text::texts;

verus! {

/// Whether one run of bytes comes before another or is the same: at the first
/// place they differ its byte is smaller, or it ends there.
pub open spec fn bytes_le(a: Seq<u8>, b: Seq<u8>) -> bool
    decreases a.len(),
{
    if a.len() == 0 {
        true
    } else if b.len() == 0 {
        false
    } else if a[0] != b[0] {
        a[0] < b[0]
    } else {
        bytes_le(a.skip(1), b.skip(1))
    }
}

/// Whether one text comes before another or is the same.
pub open spec fn text_le(a: Seq<char>, b: Seq<char>) -> bool {
    bytes_le(encode_utf8(a), encode_utf8(b))
}

/// Whether some texts are in order.
pub open spec fn in_order(list: Seq<Seq<char>>) -> bool {
    forall|i: int, j: int| 0 <= i <= j < list.len() ==> text_le(#[trigger] list[i], #[trigger] list[j])
}

/// Every run of bytes is the same as itself.
proof fn lemma_le_self(a: Seq<u8>)
    ensures
        bytes_le(a, a),
    decreases a.len(),
{
    if a.len() > 0 {
        lemma_le_self(a.skip(1));
    }
}

/// Of two runs of bytes one comes before the other or they are the same.
pub proof fn order_is_total(a: Seq<u8>, b: Seq<u8>)
    ensures
        bytes_le(a, b) || bytes_le(b, a),
    decreases a.len(),
{
    if a.len() > 0 && b.len() > 0 {
        order_is_total(a.skip(1), b.skip(1));
    }
}

/// What comes before what comes before a third comes before the third.
pub proof fn order_is_transitive(a: Seq<u8>, b: Seq<u8>, c: Seq<u8>)
    requires
        bytes_le(a, b),
        bytes_le(b, c),
    ensures
        bytes_le(a, c),
    decreases a.len(),
{
    if a.len() > 0 && b.len() > 0 && c.len() > 0 && a[0] == b[0] && b[0] == c[0] {
        order_is_transitive(a.skip(1), b.skip(1), c.skip(1));
    }
}

/// Two runs of bytes that come before each other are the same.
pub proof fn order_is_antisymmetric(a: Seq<u8>, b: Seq<u8>)
    requires
        bytes_le(a, b),
        bytes_le(b, a),
    ensures
        a == b,
    decreases a.len(),
{
    if a.len() > 0 && b.len() > 0 {
        order_is_antisymmetric(a.skip(1), b.skip(1));
        assert(a =~= seq![a[0]] + a.skip(1));
        assert(b =~= seq![b[0]] + b.skip(1));
    } else {
        assert(a =~= b);
    }
}

/// Whether one text comes before another or is the same.
pub fn comes_first(a: &str, b: &str) -> (r: bool)
    ensures
        r == text_le(a@, b@),
{
    let x: &[u8] = a.as_bytes();
    let y: &[u8] = b.as_bytes();
    let n: usize = x.len();
    let m: usize = y.len();
    let mut i: usize = 0;
    assert(x@.skip(0) =~= x@);
    assert(y@.skip(0) =~= y@);
    while i < n && i < m && x[i] == y[i]
        invariant
            n == x@.len(),
            m == y@.len(),
            i <= n,
            i <= m,
            bytes_le(x@, y@) == bytes_le(x@.skip(i as int), y@.skip(i as int)),
        decreases n - i,
    {
        assert(x@.skip(i as int).skip(1) =~= x@.skip(i + 1));
        assert(y@.skip(i as int).skip(1) =~= y@.skip(i + 1));
        i = i + 1;
    }
    if i == n {
        true
    } else if i == m {
        false
    } else {
        x[i] < y[i]
    }
}

/// Where a text belongs among others that are in order: after those that come
/// before it or are the same.
fn place_for(list: &Vec<String>, text: &str) -> (r: usize)
    requires
        in_order(texts(list@)),
    ensures
        r <= list@.len(),
        forall|k: int| 0 <= k < r ==> text_le(#[trigger] texts(list@)[k], text@),
        forall|k: int| r <= k < list@.len() ==> text_le(text@, #[trigger] texts(list@)[k]),
{
    let mut i: usize = list.len();
    while i > 0 && !comes_first(list[i - 1].as_str(), text)
        invariant
            i <= list@.len(),
            forall|k: int| i <= k < list@.len() ==> text_le(text@, #[trigger] texts(list@)[k]),
        decreases i,
    {
        proof {
            order_is_total(encode_utf8(list@[i - 1]@), encode_utf8(text@));
        }
        i = i - 1;
    }
    proof {
        if i > 0 {
            let all = texts(list@);
            assert(all[i - 1] == list@[i - 1]@);
            assert forall|k: int| 0 <= k < i implies text_le(#[trigger] all[k], text@) by {
                assert(text_le(all[k], all[i - 1]));
                order_is_transitive(
                    encode_utf8(all[k]),
                    encode_utf8(all[i - 1]),
                    encode_utf8(text@),
                );
            }
        }
    }
    i
}

/// Some texts in order: the same texts, each as often.
pub fn sorted(list: Vec<String>) -> (r: Vec<String>)
    ensures
        in_order(texts(r@)),
        texts(r@).to_multiset() == texts(list@).to_multiset(),
{
    let mut out: Vec<String> = Vec::new();
    let mut i: usize = 0;
    assert(texts(out@) =~= Seq::empty());
    assert(texts(list@).take(0) =~= Seq::empty());
    while i < list.len()
        invariant
            i <= list@.len(),
            in_order(texts(out@)),
            texts(out@).to_multiset() == texts(list@).take(i as int).to_multiset(),
        decreases list@.len() - i,
    {
        let at: usize = place_for(&out, list[i].as_str());
        let ghost before = texts(out@);
        let ghost text = list@[i as int]@;
        out.insert(at, list[i].clone());
        proof {
            let after = texts(out@);
            assert(after =~= before.insert(at as int, text));
            assert forall|a: int, b: int| 0 <= a <= b < after.len() implies text_le(
                #[trigger] after[a],
                #[trigger] after[b],
            ) by {
                lemma_le_self(encode_utf8(text));
                let x = if a < at {
                    a
                } else {
                    a - 1
                };
                let y = if b < at {
                    b
                } else {
                    b - 1
                };
                if a != at {
                    assert(after[a] == before[x]);
                }
                if b != at {
                    assert(after[b] == before[y]);
                }
            }
            after.to_multiset_ensures();
            assert(after.remove(at as int) =~= before);
            assert(after[at as int] == text);
            assert(after.contains(text));
            assert(after.to_multiset() =~= before.to_multiset().insert(text));
            let done = texts(list@).take(i as int);
            done.to_multiset_ensures();
            assert(texts(list@).take(i + 1) =~= done.push(text));
        }
        i = i + 1;
    }
    assert(texts(list@).take(i as int) =~= texts(list@));
    out
}

// ------------------------------------------------------------------ by a key

/// Some numbers of texts in the order of those texts, with one more put in its place:
/// behind those that come before it or are the same.
pub open spec fn filed(order: Seq<int>, keys: Seq<Seq<char>>, k: int) -> Seq<int>
    decreases order.len(),
{
    if order.len() == 0 {
        seq![k]
    } else if text_le(keys[order.last()], keys[k]) {
        order.push(k)
    } else {
        filed(order.drop_last(), keys, k).push(order.last())
    }
}

/// The numbers of the first of some texts, in the order of the texts.
pub open spec fn ranked(keys: Seq<Seq<char>>, n: nat) -> Seq<int>
    decreases n,
{
    if n == 0 {
        seq![]
    } else {
        filed(ranked(keys, (n - 1) as nat), keys, n - 1)
    }
}

/// Numbers.
pub open spec fn ints(list: Seq<usize>) -> Seq<int> {
    list.map_values(|n: usize| n as int)
}

/// Putting one more number in leaves those behind its place as they are.
proof fn lemma_filed_split(order: Seq<int>, keys: Seq<Seq<char>>, k: int, at: int)
    requires
        0 <= at <= order.len(),
        forall|i: int| at <= i < order.len() ==> !text_le(keys[#[trigger] order[i]], keys[k]),
    ensures
        filed(order, keys, k) == filed(order.take(at), keys, k) + order.skip(at),
    decreases order.len(),
{
    if at == order.len() {
        assert(order.take(at) =~= order);
        assert(filed(order, keys, k) + order.skip(at) =~= filed(order, keys, k));
    } else {
        let head = order.drop_last();
        assert(order.last() == order[order.len() - 1]);
        lemma_filed_split(head, keys, k, at);
        assert(head.take(at) =~= order.take(at));
        assert(head.skip(at).push(order.last()) =~= order.skip(at));
        assert(filed(order, keys, k) =~= filed(order.take(at), keys, k) + order.skip(at));
    }
}

/// The numbers of some texts, in the order of the texts.
pub fn ranks(keys: &Vec<String>) -> (r: Vec<usize>)
    ensures
        ints(r@) == ranked(texts(keys@), keys@.len()),
        forall|i: int| 0 <= i < r@.len() ==> #[trigger] r@[i] < keys@.len(),
{
    let ghost all = texts(keys@);
    let mut out: Vec<usize> = Vec::new();
    let mut i: usize = 0;
    assert(ints(out@) =~= seq![]);
    while i < keys.len()
        invariant
            i <= keys@.len(),
            all == texts(keys@),
            ints(out@) == ranked(all, i as nat),
            forall|k: int| 0 <= k < out@.len() ==> #[trigger] out@[k] < keys@.len(),
        decreases keys@.len() - i,
    {
        let ghost held = ints(out@);
        assert(all[i as int] == keys@[i as int]@);
        let mut at: usize = out.len();
        while at > 0 && !comes_first(keys[out[at - 1]].as_str(), keys[i].as_str())
            invariant
                at <= out@.len(),
                i < keys@.len(),
                all == texts(keys@),
                all[i as int] == keys@[i as int]@,
                held == ints(out@),
                forall|k: int| 0 <= k < out@.len() ==> #[trigger] out@[k] < keys@.len(),
                forall|k: int|
                    at <= k < held.len() ==> !text_le(all[#[trigger] held[k]], all[i as int]),
            decreases at,
        {
            assert(held[at - 1] == out@[at - 1]);
            assert(all[held[at - 1]] == keys@[out@[at - 1] as int]@);
            at = at - 1;
        }
        proof {
            lemma_filed_split(held, all, i as int, at as int);
            if at > 0 {
                assert(held[at - 1] == out@[at - 1]);
                assert(all[held[at - 1]] == keys@[out@[at - 1] as int]@);
                assert(held.take(at as int).last() == held[at - 1]);
            }
            assert(filed(held.take(at as int), all, i as int) =~= held.take(at as int).push(
                i as int,
            ));
        }
        out.insert(at, i);
        assert(ints(out@) =~= held.take(at as int).push(i as int) + held.skip(at as int));
        i = i + 1;
    }
    out
}

/// Putting one more number in keeps the order, and puts in nothing else.
proof fn lemma_filed(order: Seq<int>, keys: Seq<Seq<char>>, k: int)
    requires
        forall|i: int, j: int|
            0 <= i <= j < order.len() ==> text_le(keys[#[trigger] order[i]], keys[#[trigger] order[j]]),
    ensures
        ({
            let all = filed(order, keys, k);
            &&& all.to_multiset() == order.to_multiset().insert(k)
            &&& forall|i: int, j: int|
                0 <= i <= j < all.len() ==> text_le(keys[#[trigger] all[i]], keys[#[trigger] all[j]])
            &&& forall|i: int|
                0 <= i < all.len() ==> #[trigger] all[i] == k || order.contains(all[i])
        }),
    decreases order.len(),
{
    broadcast use vstd::seq_lib::group_to_multiset_ensures;

    let all = filed(order, keys, k);
    lemma_le_self(encode_utf8(keys[k]));
    if order.len() == 0 {
        assert(all =~= order.push(k));
    } else {
        let last = order.last();
        assert(last == order[order.len() - 1]);
        if text_le(keys[last], keys[k]) {
            assert forall|i: int, j: int| 0 <= i <= j < all.len() implies text_le(
                keys[#[trigger] all[i]],
                keys[#[trigger] all[j]],
            ) by {
                if j == order.len() && i < order.len() {
                    assert(all[i] == order[i]);
                    assert(text_le(keys[order[i]], keys[order[order.len() - 1]]));
                    order_is_transitive(
                        encode_utf8(keys[order[i]]),
                        encode_utf8(keys[last]),
                        encode_utf8(keys[k]),
                    );
                } else if j < order.len() {
                    assert(all[i] == order[i]);
                    assert(all[j] == order[j]);
                }
            }
            assert forall|i: int| 0 <= i < all.len() implies #[trigger] all[i] == k
                || order.contains(all[i]) by {
                if i < order.len() {
                    assert(all[i] == order[i]);
                }
            }
        } else {
            let head = order.drop_last();
            let inner = filed(head, keys, k);
            assert forall|i: int, j: int| 0 <= i <= j < head.len() implies text_le(
                keys[#[trigger] head[i]],
                keys[#[trigger] head[j]],
            ) by {
                assert(head[i] == order[i]);
                assert(head[j] == order[j]);
            }
            lemma_filed(head, keys, k);
            order_is_total(encode_utf8(keys[last]), encode_utf8(keys[k]));
            lemma_le_self(encode_utf8(keys[last]));
            assert(order =~= head.push(last));
            assert(all =~= inner.push(last));
            assert forall|i: int| 0 <= i < all.len() implies #[trigger] all[i] == k
                || order.contains(all[i]) by {
                if i < inner.len() {
                    if inner[i] != k {
                        let m = choose|m: int| 0 <= m < head.len() && head[m] == inner[i];
                        assert(order[m] == all[i]);
                    }
                } else {
                    assert(order[order.len() - 1] == last);
                }
            }
            assert forall|i: int, j: int| 0 <= i <= j < all.len() implies text_le(
                keys[#[trigger] all[i]],
                keys[#[trigger] all[j]],
            ) by {
                if j < inner.len() {
                    assert(all[i] == inner[i]);
                    assert(all[j] == inner[j]);
                } else if i < inner.len() {
                    assert(all[i] == inner[i]);
                    if inner[i] != k {
                        let m = choose|m: int| 0 <= m < head.len() && head[m] == inner[i];
                        assert(order[m] == inner[i]);
                        assert(text_le(keys[order[m]], keys[order[order.len() - 1]]));
                    }
                }
            }
        }
    }
}

/// The numbers of some texts in the order of the texts: in order, and each once.
pub proof fn ranks_are_ordered(keys: Seq<Seq<char>>, n: nat)
    ensures
        ranked(keys, n).to_multiset() == Seq::new(n, |i: int| i).to_multiset(),
        forall|i: int, j: int|
            0 <= i <= j < ranked(keys, n).len() ==> text_le(
                keys[#[trigger] ranked(keys, n)[i]],
                keys[#[trigger] ranked(keys, n)[j]],
            ),
    decreases n,
{
    broadcast use vstd::seq_lib::group_to_multiset_ensures;

    if n == 0 {
        assert(ranked(keys, n) =~= Seq::new(n, |i: int| i));
    } else {
        ranks_are_ordered(keys, (n - 1) as nat);
        lemma_filed(ranked(keys, (n - 1) as nat), keys, n - 1);
        let m = (n - 1) as nat;
        assert(Seq::new(n, |i: int| i) =~= Seq::new(m, |i: int| i).push(n - 1));
    }
}

} // verus!

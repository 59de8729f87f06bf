//! Names for new annotations.
//!
//! A name is four hexadecimal digits drawn from a linear congruential
//! generator, the first that no annotation has yet. The generator goes through
//! every name before it repeats one, so as long as a name is left the search
//! ends with it.

use vstd::prelude::*;
use vstd::set_lib::{lemma_int_range, lemma_len_subset, lemma_map_size, set_int_range};
use vstd::string::*;

use crate::num::{lemma_hex_len, push_upper_hex, upper_hex, upper_hex_digit};
use crate::text::{chars_of, is_alnum, is_ascii_alphanumeric, opt_str, same, texts};

verus! {

/// How many names there are.
pub const NAMES: usize = 65536;

/// What the generator multiplies by.
pub const MULTIPLIER: u64 = 6364136223846793005;

/// What the generator adds.
pub const INCREMENT: u64 = 1442695040888963407;

// -------------------------------------------------------------- valid labels

/// Whether a text can name an annotation: one to thirty-two ASCII letters,
/// digits and underscores.
pub open spec fn is_label(s: Seq<char>) -> bool {
    &&& 0 < s.len() <= 32
    &&& forall|i: int| 0 <= i < s.len() ==> is_alnum(#[trigger] s[i]) || s[i] == '_'
}

/// Whether a text can name an annotation.
pub fn valid_label(uuid: &str) -> (r: bool)
    ensures
        r == is_label(uuid@),
{
    let t: Vec<char> = chars_of(uuid);
    if t.len() == 0 || t.len() > 32 {
        return false;
    }
    let mut i: usize = 0;
    while i < t.len()
        invariant
            i <= t@.len(),
            t@ == uuid@,
            forall|k: int| 0 <= k < i ==> is_alnum(#[trigger] uuid@[k]) || uuid@[k] == '_',
        decreases t@.len() - i,
    {
        if !is_ascii_alphanumeric(t[i]) && t[i] != '_' {
            assert(!(is_alnum(uuid@[i as int]) || uuid@[i as int] == '_'));
            return false;
        }
        i = i + 1;
    }
    true
}

// ------------------------------------------------------------- the generator

/// The seed after this one.
pub open spec fn next_seed(seed: u64) -> u64 {
    seed.wrapping_mul(MULTIPLIER).wrapping_add(INCREMENT)
}

/// The seed some steps on.
pub open spec fn seed_after(seed: u64, steps: nat) -> u64
    decreases steps,
{
    if steps == 0 {
        seed
    } else {
        next_seed(seed_after(seed, (steps - 1) as nat))
    }
}

/// Which of the names a seed stands for.
pub open spec fn name_number(seed: u64) -> nat {
    (seed as nat / 0x2_0000_0000) % 65536
}

/// A name by its number.
pub open spec fn name(number: nat) -> Seq<char> {
    upper_hex(number, 4)
}

/// The name a seed stands for.
pub open spec fn name_of(seed: u64) -> Seq<char> {
    name(name_number(seed))
}

// ---------------------------------------- the generator reaches every name

/// A power of two.
spec fn power(k: nat) -> int
    decreases k,
{
    if k == 0 {
        1
    } else {
        2 * power((k - 1) as nat)
    }
}

/// The generator over all the integers, without a modulus.
spec fn orbit(x: int, n: nat) -> int
    decreases n,
{
    if n == 0 {
        x
    } else {
        MULTIPLIER * orbit(x, (n - 1) as nat) + INCREMENT
    }
}

/// A power of the multiplier.
spec fn multiplier_power(n: nat) -> int
    decreases n,
{
    if n == 0 {
        1
    } else {
        MULTIPLIER * multiplier_power((n - 1) as nat)
    }
}

proof fn lemma_power_positive(k: nat)
    ensures
        power(k) > 0,
    decreases k,
{
    if k > 0 {
        lemma_power_positive((k - 1) as nat);
    }
}

/// Every power of the multiplier is one more than a multiple of four.
proof fn lemma_multiplier_power(n: nat) -> (q: int)
    ensures
        multiplier_power(n) == 4 * q + 1,
    decreases n,
{
    if n == 0 {
        0
    } else {
        let q = lemma_multiplier_power((n - 1) as nat);
        let m: int = MULTIPLIER as int;
        assert(m == 4 * 1591034055961698251 + 1);
        assert(m * (4 * q + 1) == 4 * (m * q + 1591034055961698251) + 1) by (nonlinear_arith)
            requires
                m == 4 * 1591034055961698251 + 1,
        ;
        m * q + 1591034055961698251
    }
}

/// The distance between two seeds is multiplied with every step.
proof fn lemma_distance(x: int, n: nat, m: nat, j: nat)
    ensures
        orbit(x, n + m + j) - orbit(x, n + j) == multiplier_power(j) * (orbit(x, n + m) - orbit(
            x,
            n,
        )),
    decreases j,
{
    let d = orbit(x, n + m) - orbit(x, n);
    if j == 0 {
        assert(multiplier_power(0) * d == d) by (nonlinear_arith)
            requires
                multiplier_power(0) == 1,
        ;
    } else {
        let i = (j - 1) as nat;
        lemma_distance(x, n, m, i);
        let a = orbit(x, n + m + i);
        let b = orbit(x, n + i);
        let p = multiplier_power(i);
        let k: int = MULTIPLIER as int;
        assert((n + m + j - 1) as nat == n + m + i);
        assert((n + j - 1) as nat == n + i);
        assert(orbit(x, n + m + j) == k * a + INCREMENT);
        assert(orbit(x, n + j) == k * b + INCREMENT);
        assert(k * a - k * b == k * (a - b)) by (nonlinear_arith);
        assert(k * (p * d) == (k * p) * d) by (nonlinear_arith);
    }
}

/// Seeds a power of two apart differ by an odd multiple of that power.
proof fn lemma_apart(x: int, n: nat, k: nat) -> (q: int)
    ensures
        orbit(x, (n + power(k)) as nat) - orbit(x, n) == power(k) * (2 * q + 1),
    decreases k,
{
    lemma_power_positive(k);
    if k == 0 {
        let m: int = MULTIPLIER as int;
        let c: int = INCREMENT as int;
        let y = orbit(x, n);
        assert((n + 1) as nat == n + 1);
        assert(orbit(x, n + 1) == m * y + c);
        assert(m == 2 * 3182068111923396502 + 1);
        assert(c == 2 * 721347520444481703 + 1);
        assert(m * y + c - y == 2 * (3182068111923396502 * y + 721347520444481703) + 1)
            by (nonlinear_arith)
            requires
                m == 2 * 3182068111923396502 + 1,
                c == 2 * 721347520444481703 + 1,
        ;
        3182068111923396502 * y + 721347520444481703
    } else {
        let h = (k - 1) as nat;
        lemma_power_positive(h);
        let half = power(h) as nat;
        let q1 = lemma_apart(x, n, h);
        let d = orbit(x, n + half) - orbit(x, n);
        lemma_distance(x, n, half, half);
        let q2 = lemma_multiplier_power(half);
        let far = orbit(x, n + half + half) - orbit(x, n + half);
        assert(n + half + half == (n + power(k)) as nat);
        let o1 = 2 * q1 + 1;
        let o2 = 2 * q2 + 1;
        assert(far == multiplier_power(half) * d);
        assert(far + d == (2 * half) * (o1 * o2)) by (nonlinear_arith)
            requires
                far == multiplier_power(half) * d,
                multiplier_power(half) == 4 * q2 + 1,
                d == half * o1,
                o2 == 2 * q2 + 1,
        ;
        assert(o1 * o2 == 2 * (q1 * o2 + q2) + 1) by (nonlinear_arith)
            requires
                o1 == 2 * q1 + 1,
                o2 == 2 * q2 + 1,
        ;
        q1 * o2 + q2
    }
}

/// The generator reaches every residue of a power of two.
proof fn lemma_reaches(x: int, k: nat, r: int) -> (n: nat)
    ensures
        exists|t: int| orbit(x, n) == r + #[trigger] (power(k) * t),
    decreases k,
{
    lemma_power_positive(k);
    if k == 0 {
        let t = x - r;
        assert(power(0) * t == t) by (nonlinear_arith)
            requires
                power(0) == 1,
        ;
        assert(orbit(x, 0) == r + power(k) * t);
        0
    } else {
        let h = (k - 1) as nat;
        lemma_power_positive(h);
        let n = lemma_reaches(x, h, r);
        let t = choose|t: int| orbit(x, n) == r + #[trigger] (power(h) * t);
        let p = power(h);
        if t % 2 == 0 {
            let s = t / 2;
            assert(p * t == (2 * p) * s) by (nonlinear_arith)
                requires
                    t == 2 * s,
            ;
            assert(orbit(x, n) == r + power(k) * s);
            n
        } else {
            let q = lemma_apart(x, n, h);
            let s = (t + 2 * q + 1) / 2;
            assert(p * t + p * (2 * q + 1) == (2 * p) * s) by (nonlinear_arith)
                requires
                    t + 2 * q + 1 == 2 * s,
            ;
            let m = (n + p) as nat;
            assert(orbit(x, m) == r + power(k) * s);
            m
        }
    }
}

/// The generator and the one over all the integers agree modulo the word.
proof fn lemma_orbit(seed: u64, n: nat) -> (t: int)
    ensures
        orbit(seed as int, n) == seed_after(seed, n) + 0x1_0000_0000_0000_0000 * t,
    decreases n,
{
    if n == 0 {
        0
    } else {
        let h = (n - 1) as nat;
        let t = lemma_orbit(seed, h);
        let s: int = seed_after(seed, h) as int;
        let m: int = MULTIPLIER as int;
        let c: int = INCREMENT as int;
        let w: int = 0x1_0000_0000_0000_0000;
        let low = (s * m) % w;
        let q1 = (s * m) / w;
        assert(s * m == w * q1 + low) by {
            vstd::arithmetic::div_mod::lemma_fundamental_div_mod(s * m, w);
        }
        assert(seed_after(seed, h).wrapping_mul(MULTIPLIER) as int == low);
        let q2 = (low + c) / w;
        assert(low + c == w * q2 + next_seed(seed_after(seed, h)));
        assert(m * (s + w * t) + c == next_seed(seed_after(seed, h)) + w * (m * t + q1 + q2))
            by (nonlinear_arith)
            requires
                s * m == w * q1 + low,
                low + c == w * q2 + next_seed(seed_after(seed, h)),
        ;
        m * t + q1 + q2
    }
}

/// Every name comes up, whatever the seed.
pub proof fn every_name_comes_up(seed: u64, number: nat) -> (steps: nat)
    requires
        number < NAMES,
    ensures
        name_number(seed_after(seed, steps)) == number,
{
    let unit: int = 0x2_0000_0000;
    let r = number * unit;
    let n = lemma_reaches(seed as int, 49, r);
    let t = choose|t: int| orbit(seed as int, n) == r + #[trigger] (power(49) * t);
    assert(power(49) == 0x2_0000_0000_0000) by {
        reveal_with_fuel(power, 50);
    }
    let u = lemma_orbit(seed, n);
    let s: int = seed_after(seed, n) as int;
    assert(s == unit * (number + 65536 * t - 0x8000_0000 * u));
    assert(s / unit == number + 65536 * (t - 0x8000 * u));
    n
}

// ------------------------------------------------------------ a name is left

/// The digits of two numbers below sixteen differ when the numbers do.
proof fn lemma_digit_differs(a: nat, b: nat)
    requires
        a < 16,
        b < 16,
        upper_hex_digit(a) == upper_hex_digit(b),
    ensures
        a == b,
{
}

/// Two names are different when their numbers are.
pub proof fn names_differ(a: nat, b: nat)
    requires
        a < NAMES,
        b < NAMES,
        name(a) == name(b),
    ensures
        a == b,
{
    reveal_with_fuel(upper_hex, 5);
    let x = name(a);
    let y = name(b);
    assert(x[3] == upper_hex_digit(a % 16));
    assert(y[3] == upper_hex_digit(b % 16));
    assert(x[2] == upper_hex_digit(a / 16 % 16));
    assert(y[2] == upper_hex_digit(b / 16 % 16));
    assert(x[1] == upper_hex_digit(a / 16 / 16 % 16));
    assert(y[1] == upper_hex_digit(b / 16 / 16 % 16));
    assert(x[0] == upper_hex_digit(a / 16 / 16 / 16 % 16));
    assert(y[0] == upper_hex_digit(b / 16 / 16 / 16 % 16));
    lemma_digit_differs(a % 16, b % 16);
    lemma_digit_differs(a / 16 % 16, b / 16 % 16);
    lemma_digit_differs(a / 16 / 16 % 16, b / 16 / 16 % 16);
    lemma_digit_differs(a / 16 / 16 / 16 % 16, b / 16 / 16 / 16 % 16);
}

/// Whether there is a name to give: the one asked for, or one of the generator's.
pub open spec fn name_left(taken: Seq<Seq<char>>, requested: Option<Seq<char>>) -> bool {
    ||| requested matches Some(asked) && is_label(asked) && !taken.contains(asked)
    ||| exists|i: int| 0 <= i < NAMES && !taken.contains(#[trigger] name(i as nat))
}

/// With fewer texts taken than there are names, a name is left.
pub proof fn a_name_is_left(taken: Seq<Seq<char>>, requested: Option<Seq<char>>)
    requires
        taken.len() < NAMES,
    ensures
        name_left(taken, requested),
{
    let numbers = set_int_range(0, NAMES as int);
    let f = |i: int| name(i as nat);
    let all = numbers.map(f);
    lemma_int_range(0, NAMES as int);
    assert(vstd::relations::injective_on(f, numbers)) by {
        assert forall|a: int, b: int|
            numbers.contains(a) && numbers.contains(b) && #[trigger] f(a) == #[trigger] f(
                b,
            ) implies a == b by {
            names_differ(a as nat, b as nat);
        }
    }
    lemma_map_size(numbers, all, f);
    taken.lemma_cardinality_of_set();
    vstd::seq_lib::seq_to_set_is_finite(taken);
    if forall|i: int| 0 <= i < NAMES ==> taken.contains(#[trigger] name(i as nat)) {
        assert(all.subset_of(taken.to_set())) by {
            assert forall|s: Seq<char>| all.contains(s) implies taken.to_set().contains(s) by {
                let i = choose|i: int| numbers.contains(i) && f(i) == s;
                assert(taken.contains(name(i as nat)));
            }
        }
        lemma_len_subset(all, taken.to_set());
        assert(false);
    }
}

/// A name is a label.
pub proof fn names_are_labels(number: nat)
    ensures
        is_label(name(number)),
{
    lemma_hex_len(number, 4);
    reveal_with_fuel(upper_hex, 5);
}

/// Whether a text is among those taken.
fn is_taken(taken: &Vec<String>, name: &str) -> (r: bool)
    ensures
        r == texts(taken@).contains(name@),
{
    let mut i: usize = 0;
    while i < taken.len()
        invariant
            i <= taken@.len(),
            forall|k: int| 0 <= k < i ==> #[trigger] texts(taken@)[k] != name@,
        decreases taken@.len() - i,
    {
        if same(taken[i].as_str(), name) {
            assert(texts(taken@)[i as int] == name@);
            return true;
        }
        i = i + 1;
    }
    false
}

/// Whether there is a name to give.
pub fn can_name(taken: &Vec<String>, requested: Option<&str>) -> (r: bool)
    ensures
        r == name_left(texts(taken@), opt_str(requested)),
{
    match requested {
        Some(asked) => {
            if valid_label(asked) && !is_taken(taken, asked) {
                return true;
            }
        },
        None => {},
    }
    let mut number: u64 = 0;
    while number < 65536
        invariant
            number <= NAMES,
            forall|i: int|
                0 <= i < number ==> texts(taken@).contains(#[trigger] name(i as nat)),
            match opt_str(requested) {
                Some(asked) => !(is_label(asked) && !texts(taken@).contains(asked)),
                None => true,
            },
        decreases 65536 - number,
    {
        let mut text: String = String::new();
        push_upper_hex(&mut text, number, 4);
        assert(text@ =~= name(number as nat));
        if !is_taken(taken, text.as_str()) {
            proof {
                let i = number as int;
                assert(0 <= i < NAMES && !texts(taken@).contains(name(i as nat)));
            }
            return true;
        }
        number = number + 1;
    }
    false
}

/// Which names are tried before a free one, and that it is free: the name
/// `steps` on from the seed, with every name between taken.
pub open spec fn first_free(taken: Seq<Seq<char>>, seed: u64, steps: nat) -> bool {
    &&& 1 <= steps
    &&& !taken.contains(name_of(seed_after(seed, steps)))
    &&& forall|k: nat|
        1 <= k < steps ==> taken.contains(name_of(#[trigger] seed_after(seed, k)))
}

/// The name for a new annotation: the one asked for when it can name one and
/// is free, and otherwise the first free one that the seed leads to.
pub fn fresh_label(taken: &Vec<String>, requested: Option<&str>, seed: u64) -> (r: String)
    requires
        name_left(texts(taken@), opt_str(requested)),
    ensures
        is_label(r@),
        !texts(taken@).contains(r@),
        match opt_str(requested) {
            Some(asked) if is_label(asked) && !texts(taken@).contains(asked) => r@ == asked,
            _ => exists|steps: nat| #[trigger]
                first_free(texts(taken@), seed, steps) && r@ == name_of(seed_after(seed, steps)),
        },
{
    match requested {
        Some(asked) => {
            if valid_label(asked) && !is_taken(taken, asked) {
                return asked.to_owned();
            }
        },
        None => {},
    }
    let ghost all = texts(taken@);
    let ghost mut reach: nat = 0;
    proof {
        let i = choose|i: int| 0 <= i < NAMES && !all.contains(#[trigger] name(i as nat));
        reach = every_name_comes_up(next_seed(seed), i as nat);
        lemma_steps_join(seed, reach);
    }
    let mut at: u64 = seed;
    let ghost mut done: nat = 0;
    loop
        invariant
            all == texts(taken@),
            done <= reach,
            at == seed_after(seed, done),
            !all.contains(name_of(seed_after(seed, reach + 1))),
            forall|k: nat|
                1 <= k <= done ==> all.contains(name_of(#[trigger] seed_after(seed, k))),
            match opt_str(requested) {
                Some(asked) => !(is_label(asked) && !all.contains(asked)),
                None => true,
            },
        decreases reach + 1 - done,
    {
        at = at.wrapping_mul(MULTIPLIER).wrapping_add(INCREMENT);
        proof {
            done = done + 1;
        }
        assert(at == seed_after(seed, done));
        let number: u64 = (at / 0x2_0000_0000) % 65536;
        let mut name: String = String::new();
        push_upper_hex(&mut name, number, 4);
        assert(name@ =~= name_of(at));
        if !is_taken(taken, name.as_str()) {
            proof {
                names_are_labels(name_number(at));
                assert(first_free(all, seed, done));
            }
            return name;
        }
    }
}

/// A step and then some more are that many and one.
proof fn lemma_steps_join(seed: u64, steps: nat)
    ensures
        seed_after(next_seed(seed), steps) == seed_after(seed, steps + 1),
    decreases steps,
{
    if steps == 0 {
        assert(seed_after(seed, 0) == seed);
        assert(seed_after(seed, 1) == next_seed(seed_after(seed, 0)));
    } else {
        lemma_steps_join(seed, (steps - 1) as nat);
        assert((steps + 1 - 1) as nat == steps);
    }
}

} // verus!

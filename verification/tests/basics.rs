//! Texts, numbers, names, times and paths.

use talimist::assets::{asset_paths, dev_asset, dev_asset_path, shims_path};
use talimist::bytes::{byte_len, count_hits, get, next_boundary, prev_boundary, slice, splice, Hits};
use talimist::clock::{iso_from, iso_now};
use talimist::digest::{hash_of, hex_of};
use talimist::json::{text_list, text_or_null, Json, JsonList, JsonObject};
use talimist::labels::{can_name, fresh_label, valid_label};
use talimist::letters::{can_letter, index_letter, letter_index, next_letter};
use talimist::num::{
    decimal_of, fnv_more, parse_u16, parse_u64, push_hex, push_upper_hex, FNV_OFFSET,
};
use talimist::order::{comes_first, ranks, sorted};
use talimist::paths::{
    extension, file_name, file_stem, has_extension, is_sidecar, join_path, same_path,
    sidecar_path, with_extension,
};
use talimist::text::{
    char_string, contains, ends_with, joined, lines_of, replaced, rsplit_once, same, split_on,
    split_once, starts_with, strip_prefix, strip_suffix, to_lower, to_upper, trimmed, words_of,
};

fn strings(list: &[&str]) -> Vec<String> {
    list.iter().map(|s| (*s).to_owned()).collect()
}

#[test]
fn a_number_is_written_and_read_back() {
    for n in [0u64, 7, 10, 65535, 65536, u64::MAX] {
        assert_eq!(decimal_of(n), n.to_string());
        assert_eq!(parse_u64(&decimal_of(n)), Some(n));
    }
    assert_eq!(parse_u64("18446744073709551616"), None);
    assert_eq!(parse_u64(""), None);
    assert_eq!(parse_u64("+12"), Some(12));
    assert_eq!(parse_u64("-1"), None);
    assert_eq!(parse_u16("65536"), None);
    assert_eq!(parse_u16("24123"), Some(24123));
    let mut out = String::new();
    push_hex(&mut out, 0x2f, 4);
    push_upper_hex(&mut out, 0xabc, 4);
    assert_eq!(out, "002f0ABC");
}

#[test]
fn a_hash_goes_on_where_it_stopped() {
    assert_eq!(fnv_more(FNV_OFFSET, b""), 0xcbf29ce484222325);
    assert_eq!(fnv_more(FNV_OFFSET, b"a"), 0xaf63dc4c8601ec8c);
    assert_eq!(fnv_more(fnv_more(FNV_OFFSET, b"foo"), b"bar"), fnv_more(FNV_OFFSET, b"foobar"));
    assert_eq!(fnv_more(FNV_OFFSET, b"foobar"), 0x85944171f73967e8);
}

#[test]
fn a_digest_is_that_of_the_bytes() {
    assert_eq!(hash_of(b"abc"), "ba7816bf8f01cfea");
    assert_eq!(hash_of(b""), "e3b0c44298fc1c14");
    assert_eq!(hex_of(&[0, 255, 16], 2), "00ff");
}

#[test]
fn letters_count_up() {
    assert_eq!(index_letter(1), "a");
    assert_eq!(index_letter(26), "z");
    assert_eq!(index_letter(27), "aa");
    assert_eq!(index_letter(703), "aaa");
    assert_eq!(letter_index("aa"), Some(27));
    assert_eq!(letter_index("A"), None);
    assert_eq!(letter_index(""), None);
    for n in [1u64, 25, 26, 27, 52, 53, 702, 703, 18278, 18279] {
        assert_eq!(letter_index(&index_letter(n)), Some(n));
    }
    assert!(can_letter(&strings(&["a", "zzzz", "Not a letter but a long name"])));
    assert!(!can_letter(&strings(&["a", "zzzzzzzzzzzzzzzz"])));
    let last = index_letter(u64::MAX);
    assert!(!can_letter(&strings(&[last.as_str()])));
    let before = index_letter(u64::MAX - 1);
    assert!(can_letter(&strings(&[before.as_str()])));
    assert_eq!(next_letter(&strings(&[before.as_str()])), last);
    assert_eq!(next_letter(&vec![]), "a");
    assert_eq!(next_letter(&strings(&["a", "z", "?"])), "aa");
}

#[test]
fn a_new_name_is_free() {
    assert!(valid_label("7C42"));
    assert!(valid_label("a_1"));
    assert!(!valid_label(""));
    assert!(!valid_label("a-b"));
    assert!(!valid_label("ä"));
    assert!(!valid_label("012345678901234567890123456789012"));
    let taken = strings(&["7C42"]);
    assert_eq!(fresh_label(&taken, Some("AAAA"), 1), "AAAA");
    let other = fresh_label(&taken, Some("7C42"), 1);
    assert_ne!(other, "7C42");
    assert_eq!(other.len(), 4);
    assert_eq!(fresh_label(&vec![], None, 1), other);
    let seed: u64 = 1u64.wrapping_mul(6364136223846793005).wrapping_add(1442695040888963407);
    assert_eq!(other, format!("{:04X}", (seed >> 33) as u16));
    let next = fresh_label(&vec![other.clone()], None, 1);
    assert_ne!(next, other);
}

#[test]
fn a_time_is_written_as_a_date() {
    assert_eq!(iso_from(0), "1970-01-01T00:00:00Z");
    assert_eq!(iso_from(951782399), "2000-02-28T23:59:59Z");
    assert_eq!(iso_from(951782400), "2000-02-29T00:00:00Z");
    assert_eq!(iso_from(1786410760), "2026-08-11T01:12:40Z");
    let now = iso_now();
    assert_eq!(now.len(), 20);
    assert!(now.as_str() > "2020-01-01T00:00:00Z", "{now}");
}

#[test]
fn a_text_is_cut_where_characters_begin() {
    let text = "aöb";
    assert_eq!(byte_len(text), 4);
    assert_eq!(slice(text, 1, 3), "ö");
    assert_eq!(get(text, 1, 3), Some("ö"));
    assert_eq!(get(text, 1, 2), None);
    assert_eq!(get(text, 3, 9), None);
    assert_eq!(splice(text, 1, 3, "--"), "a--b");
    assert_eq!(next_boundary(text, 2), 3);
    assert_eq!(prev_boundary(text, 2), 1);
    assert!(matches!(count_hits("abab", "ab"), Hits::Often));
    assert!(matches!(count_hits("aaa", "aa"), Hits::Often));
    assert!(matches!(count_hits("xab", "ab"), Hits::Once(1)));
    assert!(matches!(count_hits("x", "ab"), Hits::Nowhere));
}

#[test]
fn texts_are_taken_apart_and_put_together() {
    assert!(same("a", "a"));
    assert!(contains("abc", "bc") && !contains("abc", "cb"));
    assert!(starts_with("abc", "ab") && ends_with("abc", "bc"));
    assert_eq!(to_upper("aß1"), "Aß1");
    assert_eq!(to_lower("AÄ"), "aÄ");
    assert_eq!(trimmed(" \u{a0}x\n"), "x");
    assert_eq!(words_of(" a  b\tc "), strings(&["a", "b", "c"]));
    assert_eq!(lines_of("a\r\nb\n\nc"), strings(&["a", "b", "", "c"]));
    assert_eq!(lines_of("a\n"), strings(&["a"]));
    assert_eq!(split_on("a/b/", '/'), strings(&["a", "b", ""]));
    assert_eq!(replaced("aaa", "aa", "b"), "ba");
    assert_eq!(joined(&strings(&["a", "b"]), ", "), "a, b");
    assert_eq!(strip_prefix("abc", "ab").as_deref(), Some("c"));
    assert_eq!(strip_prefix("abc", "b"), None);
    assert_eq!(strip_suffix("abc", "bc").as_deref(), Some("a"));
    assert_eq!(split_once("a=b=c", '='), Some(("a".to_owned(), "b=c".to_owned())));
    assert_eq!(rsplit_once("a=b=c", '='), Some(("a=b".to_owned(), "c".to_owned())));
    assert_eq!(split_once("abc", '='), None);
    assert_eq!(char_string('ö'), "ö");
}

#[test]
fn texts_are_put_in_order() {
    assert!(comes_first("a", "b") && comes_first("a", "a") && !comes_first("b", "a"));
    assert!(comes_first("a", "aa"));
    assert!(comes_first("Z", "a"));
    assert_eq!(sorted(strings(&["b", "a", "c", "a"])), strings(&["a", "a", "b", "c"]));
    assert_eq!(ranks(&strings(&["b", "a", "c", "a"])), vec![1, 3, 0, 2]);
    assert_eq!(ranks(&vec![]), Vec::<usize>::new());
}

#[test]
fn paths_have_names() {
    assert_eq!(file_name("/a/b.typ").as_deref(), Some("b.typ"));
    assert_eq!(file_name("/a/b/").as_deref(), Some("b"));
    assert!(same_path("/a/b", "/a//./b/"));
    assert!(same_path("./a", "./a/"));
    assert!(!same_path("/a/b", "a/b"));
    assert!(!same_path("./a", "a"));
    assert!(!same_path("/a/b", "/a/../b"));
    assert_eq!(file_name("/"), None);
    assert_eq!(file_name(".."), None);
    assert_eq!(file_stem("/a/b.annos.typ").as_deref(), Some("b.annos"));
    assert_eq!(file_stem(".hidden").as_deref(), Some(".hidden"));
    assert_eq!(extension("/a/b.typ").as_deref(), Some("typ"));
    assert_eq!(extension(".hidden"), None);
    assert_eq!(with_extension("/a/b.typ", "annos.typ"), "/a/b.annos.typ");
    assert_eq!(join_path("/a", "b"), "/a/b");
    assert_eq!(join_path("/a", "/b"), "/b");
    assert!(has_extension("x.typ", "typ") && !has_extension("x.typst", "typ"));
    assert_eq!(sidecar_path("/a/b.typ"), "/a/b.annos.typ");
    assert!(is_sidecar("/a/b.annos.typ"));
    assert!(is_sidecar("/a/b.annos.json"));
    assert!(!is_sidecar("/a/b.typ"));
}

#[test]
fn an_asset_on_disk_goes_first() {
    assert_eq!(dev_asset(Some("new".to_owned()), "old"), "new");
    assert_eq!(dev_asset(None, "old"), "old");
    assert!(dev_asset_path("/root", "serve", "listing.html").ends_with("serve/listing.html"));
    assert!(shims_path("/root").starts_with("/root/"));
    assert!(asset_paths("/root").iter().all(|path| path.starts_with("/root/")));
}

#[test]
fn what_is_put_into_a_value_is_found_in_it() {
    let mut object = JsonObject::new();
    object.put("name", Json::text("a"));
    object.put("count", Json::count(3));
    object.put("yes", Json::Bool(true));
    let value = object.done();
    assert_eq!(value.text_at("name"), Some("a"));
    assert_eq!(value.number_at("count"), Some(3));
    assert_eq!(value.bool_at("yes"), Some(true));
    assert!(value.get("none").is_none());
    let without = value.without("count");
    assert!(without.get("count").is_none());
    assert_eq!(without.text_at("name"), Some("a"));
    let with = without.with("name", Json::text("b"));
    assert_eq!(with.text_at("name"), Some("b"));
    assert_eq!(value.copy().number_at("count"), Some(3));
    let mut list = JsonList::new();
    list.push(Json::Null);
    assert!(matches!(list.done(), Json::List(items) if items.len() == 1));
    assert!(matches!(text_or_null(None), Json::Null));
    assert!(matches!(text_list(&strings(&["a", "b"])), Json::List(items) if items.len() == 2));
}

#[test]
fn a_name_is_left_while_one_is_free() {
    let some: Vec<String> = (0..300).map(|n| format!("{n:04X}")).collect();
    assert!(can_name(&some, None));
    assert!(can_name(&some, Some("0001")));
    assert!(can_name(&some, Some("mine")));
    assert_eq!(fresh_label(&some, Some("mine"), 3), "mine");
    assert_ne!(fresh_label(&some, Some("0001"), 3), "0001");
}

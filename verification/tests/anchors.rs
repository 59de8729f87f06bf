//! Where the anchor of an annotation goes, and how it is found and taken out again.

use talimist::preview::anchors::{
    anchor_text, find_anchors, span_anchor_text, span_source, strip_anchors, Scope,
};
use talimist::preview::patch::{best_effort_patch, disk_edit};
use talimist::ranges::{
    paragraph_range, paragraphs, sentence_range, snap_past_marker, word_range,
};

fn snapped(text: &str, at: usize) -> String {
    let i = snap_past_marker(text, at);
    format!("{}<L>{}", &text[..i], &text[i..])
}

#[test]
fn snaps_past_list_markers() {
    let t = "- Agents watch the sidecar\n";
    assert_eq!(snapped(t, 0), "- Agents<L> watch the sidecar\n");
    let t = "text\n  - A nested bullet here\n";
    assert_eq!(snapped(t, 5), "text\n  - A<L> nested bullet here\n");
    let t = "+ A numbered item, first\n";
    assert_eq!(snapped(t, 0), "+ A<L> numbered item, first\n");
    let t = "12. A numbered item\n";
    assert_eq!(snapped(t, 0), "12. A<L> numbered item\n");
    let t = "This document demonstrates\n";
    assert_eq!(snapped(t, 0), "This<L> document demonstrates\n");
    let t = "-notamarker word\n";
    assert_eq!(snapped(t, 0), "-notamarker<L> word\n");
    let t = "- Agents watch\n";
    assert_eq!(snapped(t, 9), "- Agents <L>watch\n");
    let t = "= A short document\n";
    assert_eq!(snapped(t, 0), "= A short document<L>\n");
    let t = "== A second heading   \n";
    assert_eq!(snapped(t, 0), "== A second heading<L>   \n");
    let t = "=x is not a heading\n";
    assert_eq!(snapped(t, 0), "=x<L> is not a heading\n");
}

#[test]
fn snapping_reaches_a_word_at_the_end_of_the_text() {
    assert_eq!(snapped("- Agents", 0), "- Agents<L>");
    assert_eq!(snapped("word", 0), "word<L>");
    assert_eq!(snapped("text\n  12. Größe", 5), "text\n  12. Größe<L>");
    assert_eq!(snapped("= A heading", 0), "= A heading<L>");
    assert_eq!(snapped("", 0), "<L>");
    assert_eq!(snapped("  ", 0), "<L>  ");
    assert_eq!(snapped("- \nnext\n", 0), "- <L>\nnext\n");
    assert_eq!(snapped("/ Term: said\n", 0), "/ Term:<L> said\n");
    assert_eq!(snapped("1) one two\n", 0), "1) one<L> two\n");
}

#[test]
fn a_suffix_names_a_scope_and_back() {
    for scope in [
        Scope::Point,
        Scope::Word,
        Scope::Sentence,
        Scope::Block,
        Scope::Item,
        Scope::Para,
    ] {
        assert_eq!(Scope::from_suffix(scope.as_str()), Some(scope));
    }
    assert_eq!(Scope::from_suffix("span.begin"), Some(Scope::Span));
    assert_eq!(Scope::from_suffix("span.end"), Some(Scope::Span));
    assert_eq!(Scope::from_suffix("span"), None);
    assert_eq!(Scope::from_suffix("sidecar"), None);
}

#[test]
fn an_anchor_that_is_written_is_found() {
    assert_eq!(anchor_text("7C42", Scope::Word), "<7C42.word>");
    assert_eq!(anchor_text("7C42", Scope::Span), "<7C42.span.begin>");
    assert_eq!(span_anchor_text("7C42", true), "<7C42.span.end>");
    let text = "Größe<7C42.word> and <7C42.nonsense> and <OTHER.word> and <7C42.para>.";
    let found = find_anchors(text, "7C42");
    assert_eq!(found.len(), 2);
    assert_eq!(found[0].at, 7);
    assert_eq!(found[0].scope, Scope::Word);
    assert_eq!(found[0].label, "<7C42.word>");
    assert_eq!(found[1].scope, Scope::Para);
    assert_eq!(&text[found[1].at..found[1].at + found[1].label.len()], "<7C42.para>");
    assert_eq!(find_anchors("<7C42.word", "7C42").len(), 0);
    let unclosed = find_anchors("a <7C42. b <7C42.word>", "7C42");
    assert_eq!(unclosed.len(), 1);
    assert_eq!((unclosed[0].at, unclosed[0].scope), (11, Scope::Word));
    assert_eq!(unclosed[0].label, "<7C42.word>");
    assert_eq!(find_anchors("<7C42.<7C42.<7C42.para> <7C42.item>", "7C42").len(), 2);
    let bare = strip_anchors(text, &found);
    assert_eq!(bare, "Größe and <7C42.nonsense> and <OTHER.word> and .");
}

#[test]
fn a_span_is_bracketed_and_freed_again() {
    let text = "one two three four";
    let marked = span_source(text, 4..13, "A1").unwrap();
    assert_eq!(marked, "one <A1.span.begin>two three<A1.span.end> four");
    let found = find_anchors(&marked, "A1");
    assert_eq!(strip_anchors(&marked, &found), text);
    assert_eq!(span_source(text, 4..4, "A1").unwrap_err(), "empty span");
}

#[test]
fn ranges_around_a_place() {
    let text = "First one. Second here, and more.\n\nA second paragraph.\n";
    assert_eq!(&text[paragraph_range(text, 14)], "First one. Second here, and more.");
    assert_eq!(&text[paragraph_range(text, 40)], "A second paragraph.\n");
    assert_eq!(&text[sentence_range(text, 17)], "Second here, and more.");
    assert_eq!(&text[word_range(text, 17)], "Second");
    assert_eq!(&text[word_range(text, 0)], "");
    let all = paragraphs(text);
    assert_eq!(all.len(), 2);
    assert_eq!(&text[all[0].clone()], "First one. Second here, and more.");
}

#[test]
fn a_clean_file_takes_the_edit_as_it_is() {
    let text = "one two three";
    assert_eq!(disk_edit(Some(text), text, 7..7, "<A.word>"), (Some("one two<A.word> three".to_owned()), false));
    assert_eq!(disk_edit(None, text, 7..7, "<A.word>"), (None, true));
}

#[test]
fn a_file_that_moved_on_takes_it_by_what_is_around() {
    let source = "The quick brown fox jumps over the lazy dog.";
    let disk = "A new line.\nThe quick brown fox jumps over the lazy dog.";
    assert_eq!(
        best_effort_patch(disk, source, 19..19, "<A.word>").as_deref(),
        Some("A new line.\nThe quick brown fox<A.word> jumps over the lazy dog.")
    );
    assert_eq!(
        best_effort_patch(disk, source, 4..10, "").as_deref(),
        Some("A new line.\nThe brown fox jumps over the lazy dog.")
    );
    assert_eq!(best_effort_patch("nothing alike", source, 19..19, "<A.word>"), None);
    assert_eq!(best_effort_patch("The The", "The", 0..3, ""), None);
    assert_eq!(best_effort_patch(disk, source, 50..50, "<A.word>"), None);
    assert_eq!(best_effort_patch("aaaaa", "aaaa", 0..4, ""), None);
    assert_eq!(best_effort_patch("aaaaa", "aaaab", 4..4, "<A.word>"), None);
}

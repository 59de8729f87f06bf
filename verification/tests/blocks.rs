//! The block of source an agent works in.

use talimist::serve::blocks::{
    block_id, block_range, generated_note, heading_path, lines_across, with_trailing_anchors,
};
use talimist::serve::rewrite::{
    anchor_label, block_of as block_in, find_anchor, prepare_block_replace, refuse_generated,
    AnchorPolicy, Mention, SourceAnchor,
};

fn block_of(text: &str) -> String {
    let at = text.find("<anno.").expect("the test source has an anchor");
    text[block_range(text, at)].to_owned()
}

#[test]
fn a_block_anchor_names_the_whole_call() {
    let text = "Before.\n\n#figure(\n  table(\n    [a], [b],\n\n    [c], [d],\n  ),\n  caption: [Two rows.],\n)<anno.T001.block>\n\nAfter.\n";
    let block = block_of(text);
    assert!(block.starts_with("#figure("), "cut off at the blank line: {block:?}");
    assert!(block.ends_with(")<anno.T001.block>"), "stops short: {block:?}");
}

#[test]
fn a_block_carries_the_anchors_attached_to_it() {
    let text = "= Annotated example<anno.A100.word>\n\nBody.\n";
    let at = text.find("<anno.").unwrap();
    let block = &text[block_range(text, at)];
    assert_eq!(block, "= Annotated example<anno.A100.word>");
}

#[test]
fn a_paragraph_anchor_still_names_its_paragraph() {
    let text = "One.\n\nA paragraph <anno.X002.para> with an anchor in it.\n\nThree.\n";
    let block = block_of(text);
    assert!(block.starts_with("A paragraph"), "{block:?}");
    assert!(block.trim_end().ends_with("in it."), "{block:?}");
}

#[test]
fn a_shouted_marker_says_the_file_is_generated() {
    assert_eq!(
        generated_note("// GENERATED by report.py. Do not edit by hand.\n= A report\n").as_deref(),
        Some("GENERATED by report.py. Do not edit by hand.")
    );
    assert!(generated_note("// AUTOGENERATED\n").is_some());
    assert!(generated_note("// AUTO-GENERATED from parts\n").is_some());
}

#[test]
fn prose_about_being_generated_is_only_prose() {
    assert_eq!(generated_note("// The figures are generated by plot.py\n"), None);
    assert_eq!(generated_note("// Generated from the run files\n"), None);
}

#[test]
fn only_a_comment_at_the_top_counts() {
    assert_eq!(generated_note("= A report\n\nIt is GENERATED, in a way.\n"), None);
    let deep = "\n".repeat(9) + "// GENERATED by report.py\n";
    assert_eq!(generated_note(&deep), None);
}

#[test]
fn do_not_edit_is_a_marker_too() {
    assert_eq!(generated_note("#let x = 1 // do not edit\n").as_deref(), Some("#let x = 1 // do not edit"));
}

const PAPER: &str = "= Top\n\nIntro.\n\n== Inner\n\nA word<anno.A100.word> here.\n\n= Next\n";

fn anchor(name: &str) -> SourceAnchor {
    let start = PAPER.find("<anno.").unwrap();
    let end = start + "<anno.A100.word>".len();
    SourceAnchor { name: name.to_owned(), start, end }
}

fn mentions() -> Vec<Mention> {
    vec![Mention { uuid: "u1".to_owned(), labels: vec!["anno.A100".to_owned()] }]
}

#[test]
fn a_block_says_where_it_is() {
    let at = PAPER.find("<anno.").unwrap();
    assert_eq!(heading_path(PAPER, at), vec!["Top".to_owned(), "Inner".to_owned()]);
    assert_eq!(lines_across(PAPER, 0, 5), (1, 1));
    assert_eq!(lines_across(PAPER, 7, 15), (3, 4));
    assert_eq!(with_trailing_anchors("word<anno.B1> x", 0..4), 0..13);
    let block = block_in("paper.typ", PAPER, at, &vec![anchor("anno.A100")], &mentions(), true);
    assert_eq!(block.text, "A word<anno.A100.word> here.");
    assert_eq!(block.lines, (7, 7));
    assert_eq!(block.file, "paper.typ");
    assert_eq!(block.anchors.len(), 1);
    assert_eq!(block.anchors[0].at, 6);
    assert_eq!(block.anchors[0].label, "<anno.A100.word>");
    assert_eq!(block.anchors[0].annotations, vec!["u1".to_owned()]);
    assert_eq!(block.block_id, block_id("paper.typ", block.range.0, &block.text));
    assert_eq!(block.block_id.len(), 16);
    assert_ne!(block.block_id, block_id("paper.typ", block.range.0 + 1, &block.text));
}

#[test]
fn a_rewrite_keeps_what_it_is_told_to_keep() {
    let at = PAPER.find("<anno.").unwrap();
    let block = block_in("paper.typ", PAPER, at, &vec![anchor("anno.A100")], &mentions(), false);
    let id = block.block_id.clone();
    let kept = prepare_block_replace(&block, &id, PAPER, "Other<anno.A100.word> text.", AnchorPolicy::Keep).unwrap();
    assert!(kept.content.contains("Other<anno.A100.word> text."));
    assert!(!kept.content.contains("A word"));
    assert!(kept.dropped.is_empty());
    assert!(prepare_block_replace(&block, &id, PAPER, "Other text.", AnchorPolicy::Keep).is_err());
    let moved = prepare_block_replace(&block, &id, PAPER, "Other text.", AnchorPolicy::Reattach).unwrap();
    assert!(moved.content.contains("<anno.A100.word>Other text."));
    let gone = prepare_block_replace(&block, &id, PAPER, "Other text.", AnchorPolicy::Drop).unwrap();
    assert_eq!(gone.dropped.len(), 1);
    assert!(!gone.content.contains("<anno."));
    assert!(prepare_block_replace(&block, "stale", PAPER, "x<anno.A100.word>", AnchorPolicy::Keep).is_err());
    assert!(prepare_block_replace(&block, &id, PAPER, "x<anno.A100.word><anno.NEW1.word>", AnchorPolicy::Keep).is_err());
}

#[test]
fn a_policy_has_a_name() {
    assert!(matches!(AnchorPolicy::parse("keep"), Ok(AnchorPolicy::Keep)));
    assert!(matches!(AnchorPolicy::parse("reattach"), Ok(AnchorPolicy::Reattach)));
    assert!(matches!(AnchorPolicy::parse("drop"), Ok(AnchorPolicy::Drop)));
    assert!(AnchorPolicy::parse("lose").is_err());
}

#[test]
fn a_generated_file_is_left_alone() {
    assert!(refuse_generated("a.typ", Some("// GENERATED\n"), false).is_some());
    assert_eq!(refuse_generated("a.typ", Some("// GENERATED\n"), true), None);
    assert_eq!(refuse_generated("a.typ", Some("= A\n"), false), None);
    assert_eq!(refuse_generated("a.typ", None, false), None);
}

#[test]
fn an_annotation_names_its_anchor() {
    assert_eq!(anchor_label(&mentions(), "u1").unwrap(), "anno.A100");
    assert!(anchor_label(&mentions(), "u2").is_err());
}

#[test]
fn an_anchor_is_looked_for_in_every_file() {
    let at = |name: &str, start: usize| SourceAnchor { name: name.to_owned(), start, end: start + 4 };
    let files = vec![
        vec![at("anno.A100", 7)],
        vec![at("anno.B200", 3), at("anno.C300", 9), at("anno.C300", 20)],
        vec![at("anno.B200", 1)],
    ];
    assert_eq!(find_anchor(&files, "anno.A100"), Ok((0, 7)));
    assert_eq!(find_anchor(&files, "anno.B200"), Ok((1, 3)));
    assert_eq!(find_anchor(&files, "anno.C300"), Ok((1, 9)));
    assert_eq!(
        find_anchor(&files, "anno.Z"),
        Err("no anchor anno.Z in the document".to_owned())
    );
}

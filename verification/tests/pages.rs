//! Annotations on rendered pages: where they stand, what a click means, and the edits
//! that make them.

use talimist::preview::anchors::Scope;
use talimist::preview::click::{
    anchor_place, climb, find_first_mark, land, page_index, span_range, Landed, Point, Target,
};
use talimist::preview::edit::{
    apply_doc, commit_sidecar, prepare_at, prepare_delete, prepare_span_range, record_from_value,
    wanted, AnnotateRequest, Commit, NewNote, RawRecord, RawReply, SourceFile, Templates, Wanted,
};
use talimist::preview::layout::{
    gutter_of, hits_glyph, is_level, page_rail, range_rects, AnnotRect, Area, Glyph, Piece, Run,
    Sought,
};
use talimist::preview::pins::{
    annotation_pins, exact_anchor_position, middle_of, place_region, probe_annotate, probe_span,
    Shown,
};
use talimist::preview::sidecar::{
    entry_span, escape, format_record, prepare_reply, prepare_status, remove_entry,
    AnnotationRecord, AnnotationReply,
};
use talimist::preview::words::{
    find_word_stop, layout_map, layout_words, rects_from_words, words_in_range, RegionKind,
};

const UNIT: u32 = 1000;

fn area(x0: i64, y0: i64, x1: i64, y1: i64) -> Area {
    Area { x0: x0 * 1000, y0: y0 * 1000, x1: x1 * 1000, y1: y1 * 1000 }
}

/// One line of text, ten points wide for each of its letters.
fn line(text: &str, from: usize, baseline: i64) -> Piece {
    let stop = from + text.len();
    let glyphs = text
        .char_indices()
        .map(|(i, c)| {
            let x = 10 * i as i64;
            Glyph {
                area: area(x, baseline - 10, x + 10, baseline),
                at: Some(from + i),
                len: c.len_utf8(),
                from,
                stop,
            }
        })
        .collect();
    let end = 10 * text.len() as i64;
    Piece::Run(Run { x0: 0, x1: end * 1000, baseline: baseline * 1000, glyphs })
}

fn shown(text: &str) -> Shown {
    Shown { text: text.to_owned(), pages: vec![vec![line(text, 0, 20)]] }
}

#[test]
fn a_stretch_of_source_has_a_box_for_each_line() {
    let pages = vec![vec![line("one two", 0, 20), line("three", 8, 40)], vec![line("four", 14, 20)]];
    let found = range_rects(&pages, Sought { start: 4, end: 13, whole: false, unit: UNIT });
    assert_eq!(
        found,
        vec![
            AnnotRect { page: 1, area: area(40, 10, 70, 20) },
            AnnotRect { page: 1, area: area(0, 30, 50, 40) }
        ]
    );
    let last = range_rects(&pages, Sought { start: 14, end: 18, whole: false, unit: UNIT });
    assert_eq!(last, vec![AnnotRect { page: 2, area: area(0, 10, 40, 20) }]);
    assert!(range_rects(&pages, Sought { start: 90, end: 99, whole: false, unit: UNIT }).is_empty());
    assert!(is_level(20_000, 21_400, UNIT));
    assert!(!is_level(20_000, 21_500, UNIT));
}

#[test]
fn a_block_takes_its_whole_group() {
    let group = Piece::Group(area(5, 5, 200, 100), vec![line("x", 4, 20)]);
    let pages = vec![vec![group]];
    let whole = range_rects(&pages, Sought { start: 4, end: 5, whole: true, unit: UNIT });
    assert_eq!(whole, vec![AnnotRect { page: 1, area: area(5, 5, 200, 100) }]);
    let only = range_rects(&pages, Sought { start: 4, end: 5, whole: false, unit: UNIT });
    assert_eq!(only, vec![AnnotRect { page: 1, area: area(0, 10, 10, 20) }]);
}

#[test]
fn a_marker_is_left_of_its_line() {
    let bullet = Piece::Run(Run { x0: 20_000, x1: 25_000, baseline: 20_000, glyphs: vec![] });
    let pages = vec![vec![bullet, line("item", 2, 20)]];
    assert_eq!(page_rail(&pages[0]), 0);
    let rects = vec![AnnotRect { page: 1, area: area(30, 10, 70, 20) }];
    assert_eq!(gutter_of(&pages, &rects, UNIT), 20_000);
    assert_eq!(gutter_of(&pages, &vec![], UNIT), 0);
    let glyph = Glyph { area: area(0, 0, 1, 1), at: Some(4), len: 2, from: 4, stop: 9 };
    assert!(hits_glyph(&glyph, 4, 6));
    assert!(!hits_glyph(&glyph, 5, 6));
    assert!(!hits_glyph(&glyph, 4, 5));
}

#[test]
fn words_have_boxes() {
    let text = "one two";
    let pages = vec![vec![line(text, 0, 20)]];
    let words = layout_words(&pages, text, UNIT);
    assert_eq!(words.len(), 2);
    assert_eq!((words[0].s, words[0].e), (0, 3));
    assert_eq!((words[1].s, words[1].e), (4, 7));
    assert_eq!(words[1].area, area(40, 10, 70, 20));
    assert_eq!(words_in_range(&words, 4..7).len(), 1);
    let rects = rects_from_words(&words, 0..7, UNIT);
    assert_eq!(rects, vec![AnnotRect { page: 1, area: area(0, 10, 70, 20) }]);
    assert_eq!(find_word_stop("one two", 1, 7), 3);
    assert_eq!(find_word_stop("one two", 5, 6), 6);
}

#[test]
fn a_document_has_regions() {
    let text = "= Head\n\nA para here.\n";
    let pages = vec![vec![line("Head", 2, 20), line("A para here.", 8, 40)]];
    let regions = layout_map(&pages, text, UNIT);
    assert!(regions.iter().any(|r| matches!(r.kind, RegionKind::Heading) && !r.rects.is_empty()));
    assert!(regions.iter().any(|r| matches!(r.kind, RegionKind::Para) && !r.rects.is_empty()));
    assert_eq!(RegionKind::Item.name(), "item");
}

fn targets() -> Vec<Target> {
    vec![
        Target::Group(
            area(0, 0, 100, 100),
            vec![
                Target::Solid(Some(area(10, 10, 30, 30)), Some(2)),
                Target::Run(Point { x: 50_000, y: 50_000 }, vec![None, Some(3)]),
            ],
        ),
        Target::Solid(None, Some(4)),
    ]
}

#[test]
fn a_click_finds_the_smallest_thing() {
    let on_solid = land(None, &targets(), Point { x: 20_000, y: 20_000 }, UNIT).unwrap();
    assert_eq!(on_solid, Landed { mark: 2, offset: 0, direct: false });
    let in_group = land(None, &targets(), Point { x: 90_000, y: 90_000 }, UNIT).unwrap();
    assert_eq!(in_group.mark, 2);
    let near = land(None, &targets(), Point { x: 150_000, y: 50_000 }, UNIT).unwrap();
    assert_eq!(near.mark, 3);
    let far = land(None, &targets(), Point { x: 170_000, y: 50_000 }, UNIT);
    assert_eq!(far.unwrap_err(), "nothing annotatable under the click");
    let text = land(Some((7, 2)), &targets(), Point { x: 0, y: 0 }, UNIT).unwrap();
    assert_eq!(text, Landed { mark: 7, offset: 2, direct: true });
    assert_eq!(find_first_mark(&targets()), Some(2));
    assert_eq!(page_index(3, 3), Ok(2));
    assert_eq!(page_index(3, 0).unwrap_err(), "bad page");
    assert_eq!(page_index(3, 4).unwrap_err(), "no such page");
}

fn node(kind: &str, start: usize, end: usize) -> (String, usize, usize) {
    (kind.to_owned(), start, end)
}

#[test]
fn a_click_goes_behind_the_word_or_the_block() {
    let text = "one two #f(x)";
    let words = vec![node("Text", 0, 7), node("Markup", 0, 13)];
    assert_eq!(anchor_place(text, &words, true, 1), Ok((3, None)));
    assert_eq!(anchor_place(text, &words, true, 90), Ok((7, None)));
    let call = vec![node("Ident", 9, 10), node("FuncCall", 9, 13), node("Markup", 0, 13)];
    assert_eq!(anchor_place(text, &call, true, 0), Ok((13, Some(9..13))));
    assert_eq!(climb(&call), 1);
    let root = vec![node("Markup", 0, 13)];
    assert_eq!(
        anchor_place(text, &root, false, 0).unwrap_err(),
        "annotations can only anchor in markup"
    );
    assert_eq!(span_range("one two three", true, 13, 6), Ok(4..13));
    assert_eq!(span_range("one two three", true, 6, 13), Ok(4..13));
    assert_eq!(span_range("", false, 0, 0).unwrap_err(), "a span cannot cross files");
}

fn record(uuid: &str) -> AnnotationRecord {
    AnnotationRecord {
        rtype: "comment".to_owned(),
        uuid: uuid.to_owned(),
        letter: "a".to_owned(),
        author: "me".to_owned(),
        content: "say \"more\"".to_owned(),
        time: "t".to_owned(),
        status: "created".to_owned(),
        discussion: vec![],
    }
}

#[test]
fn a_pin_stands_by_its_words() {
    let text = "one two<7C42.word> three";
    let file = shown(text);
    let pins = annotation_pins(&vec![record("7C42"), record("GONE")], &vec![file], &vec![(500_000, 800_000)], UNIT);
    assert_eq!(pins.len(), 1);
    assert_eq!(pins[0].scope, "word");
    assert_eq!((pins[0].page, pins[0].x, pins[0].y), (1, 55_000, 20_000));
    assert_eq!(pins[0].rects, vec![AnnotRect { page: 1, area: area(40, 10, 70, 20) }]);
    assert_eq!((pins[0].page_width, pins[0].page_height), (500_000, 800_000));
    assert_eq!(pins[0].content, "say \"more\"");
}

#[test]
fn a_pin_of_a_stretch_or_a_point() {
    let span = "one <A1.span.begin>two three<A1.span.end> four";
    let pins = annotation_pins(&vec![record("A1")], &vec![shown(span)], &vec![(1, 1)], UNIT);
    assert_eq!(pins[0].scope, "span");
    let begin = span.find("two").unwrap() as i64;
    let end = span.find("<A1.span.end>").unwrap() as i64;
    assert_eq!(pins[0].rects[0].area, area(10 * begin, 10, 10 * end, 20));
    let point = "one two<B2.point>";
    let pins = annotation_pins(&vec![record("B2")], &vec![shown(point)], &vec![(1, 1)], UNIT);
    assert!(pins.iter().all(|pin| pin.scope == "point" && pin.rects.is_empty()));
    let para = "one two<C3.para> three";
    let pins = annotation_pins(&vec![record("C3")], &vec![shown(para)], &vec![(1, 1)], UNIT);
    assert_eq!((pins[0].x, pins[0].y), (0, 15_000));
    assert!(annotation_pins(&vec![record("C3")], &vec![shown(para)], &vec![], UNIT).is_empty());
}

#[test]
fn a_caret_stands_between_letters() {
    let text = "one two";
    let pages = vec![vec![line(text, 0, 20)]];
    let around = vec![node("Text", 0, 7), node("Markup", 0, 7)];
    assert_eq!(exact_anchor_position(&pages, &around, 3), Some((1, Point { x: 30_000, y: 20_000 })));
    assert_eq!(exact_anchor_position(&pages, &around, 7), Some((1, Point { x: 70_000, y: 20_000 })));
    assert_eq!(exact_anchor_position(&pages, &vec![node("Markup", 0, 7)], 3), None);
    assert_eq!(middle_of(3, 4), 3);
    assert_eq!(middle_of(-3, -4), -4);
    assert_eq!(middle_of(i64::MAX, i64::MAX), i64::MAX);
    let rects = vec![
        AnnotRect { page: 1, area: area(0, 0, 10, 10) },
        AnnotRect { page: 2, area: area(0, 20, 10, 30) },
    ];
    assert_eq!(place_region(Scope::Item, &rects, 7), (1, 7, 5_000));
    assert_eq!(place_region(Scope::Block, &rects, 7), (1, 0, 15_000));
    assert_eq!(place_region(Scope::Word, &rects, 7), (2, 5_000, 30_000));
}

#[test]
fn a_look_ahead_says_what_would_be_marked() {
    let file = shown("one two three");
    let word = probe_annotate(&file, 7, None, (1, 1, 1), UNIT);
    assert_eq!(word.scope, "word");
    assert_eq!((word.page, word.x, word.y), (1, 55_000, 20_000));
    let block = probe_annotate(&file, 7, Some(0..7), (1, 1, 1), UNIT);
    assert_eq!(block.scope, "block");
    assert_eq!((block.page, block.x, block.y), (1, 0, 15_000));
    let span = probe_span(&file, 4..13, (1, 1, 1), UNIT);
    assert_eq!(span.scope, "span");
    assert_eq!(span.x, 85_000);
    let nothing = probe_span(&file, 90..99, (3, 4, 5), UNIT);
    assert_eq!((nothing.page, nothing.x, nothing.y), (3, 4, 5));
}

fn request() -> AnnotateRequest {
    AnnotateRequest {
        uuid: None,
        page: None,
        x: None,
        y: None,
        text: "look".to_owned(),
        scope: None,
        s: None,
        e: None,
        page2: None,
        x2: None,
        y2: None,
    }
}

#[test]
fn a_request_asks_for_one_thing() {
    assert_eq!(
        wanted(&request()).unwrap_err(),
        "a click position or a source range is required"
    );
    let mut req = request();
    req.page = Some(1);
    req.x = Some(2);
    req.y = Some(3);
    assert_eq!(wanted(&req), Ok(Wanted::Click((1, 2, 3))));
    req.page2 = Some(1);
    req.x2 = Some(5);
    req.y2 = Some(6);
    assert_eq!(wanted(&req), Ok(Wanted::Drag((1, 2, 3), (1, 5, 6))));
    req.s = Some(9);
    assert_eq!(wanted(&req), Ok(Wanted::Place(9, Scope::Point)));
    req.scope = Some("item".to_owned());
    assert_eq!(wanted(&req), Ok(Wanted::Place(9, Scope::Item)));
    req.e = Some(12);
    assert_eq!(wanted(&req), Ok(Wanted::Stretch(9, 12)));
}

fn templates() -> Templates {
    Templates {
        entry: "#metadata((type: \"${type}\", uuid: \"${uuid}\", letter: \"${letter}\", author: \"${author}\", content: \"${content}\", time: \"${time}\", status: \"${status}\", discussion: ${discussion}))<note-${uuid}>\n".to_owned(),
        reply: "    (author: \"${author}\", time: \"${time}\", content: \"${content}\"),\n".to_owned(),
    }
}

fn note() -> NewNote {
    NewNote {
        uuid: Some("7C42".to_owned()),
        text: "say more".to_owned(),
        author: "me".to_owned(),
        time: "2026-08-11T01:12:40Z".to_owned(),
        seed: 1,
    }
}

#[test]
fn an_annotation_is_made_and_taken_away_again() {
    let source = "= Head\n\none two three\n";
    let made = prepare_at(source, Some(source), 15, Scope::Word, &vec![], "// top\n", &note(), &templates());
    assert_eq!(made.uuid, "7C42");
    assert_eq!(made.new_text, "<7C42.word>");
    assert_eq!(made.range, 15..15);
    assert!(!made.buffer_edit);
    let written = made.disk_content.clone().unwrap();
    assert_eq!(written, "= Head\n\none two<7C42.word> three\n");
    assert!(made.sidecar_content.starts_with("// top\n#metadata((type: \"comment\", uuid: \"7C42\", letter: \"a\""));
    let files = vec![
        SourceFile { source: "nothing here".to_owned(), disk: None },
        SourceFile { source: written.clone(), disk: Some(written.clone()) },
    ];
    let (which, gone) = prepare_delete(&made.sidecar_content, "7C42", &files).unwrap();
    assert_eq!(which, 1);
    assert_eq!(gone.disk_content.as_deref(), Some(source));
    assert_eq!(gone.sidecar_content, "// top\n");
    assert_eq!(gone.range, 15..26);
    assert_eq!(apply_doc(gone), Ok(source.to_owned()));
}

#[test]
fn a_region_is_anchored_in_its_text() {
    let source = "- item one\n";
    let made = prepare_at(source, None, 0, Scope::Item, &vec![record("7C42")], "", &note(), &templates());
    assert_ne!(made.uuid, "7C42");
    assert_eq!(made.range, 6..6);
    assert!(made.buffer_edit);
    assert!(made.disk_content.is_none());
    assert!(made.sidecar_content.contains("letter: \"b\""));
    assert_eq!(
        apply_doc(made).unwrap_err(),
        "cannot apply the edit: the file has diverged on disk"
    );
}

#[test]
fn a_stretch_is_made_and_taken_away_again() {
    let source = "one two three";
    let made = prepare_span_range(source, Some(source), 4..13, &vec![], "", &note(), &templates()).unwrap();
    let written = made.disk_content.clone().unwrap();
    assert_eq!(written, "one <7C42.span.begin>two three<7C42.span.end>");
    let files = vec![SourceFile { source: written.clone(), disk: Some(written) }];
    let (_, gone) = prepare_delete(&made.sidecar_content, "7C42", &files).unwrap();
    assert_eq!(gone.disk_content.as_deref(), Some(source));
    assert_eq!(
        prepare_span_range(source, None, 4..4, &vec![], "", &note(), &templates()).unwrap_err(),
        "empty span"
    );
    assert_eq!(prepare_delete("", "no!", &vec![]).unwrap_err(), "bad annotation uuid");
    assert_eq!(prepare_delete("", "7C42", &vec![]).unwrap_err(), "unknown annotation: 7C42");
    assert_eq!(
        prepare_delete(&made.sidecar_content, "7C42", &vec![]).unwrap_err(),
        "no anchor <7C42...> found in any source file"
    );
}

#[test]
fn an_entry_is_rewritten_in_place() {
    let t = templates();
    let content = format!("// top\n{}", format_record(&record("7C42"), &t.entry, &t.reply));
    assert!(content.contains("content: \"say \\\"more\\\"\""), "{content}");
    assert_eq!(escape("a\\b\n"), "a\\\\b\\n");
    let span = entry_span(&content, "7C42").unwrap();
    assert_eq!(span, 7..content.len());
    assert_eq!(remove_entry(&content, "7C42").unwrap(), "// top\n");
    let reply = AnnotationReply { author: "you".to_owned(), time: "t2".to_owned(), content: "done".to_owned() };
    let replied = prepare_reply(&content, vec![record("7C42")], "7C42", reply, &t.entry, &t.reply).unwrap();
    assert!(replied.contains("(\n    (author: \"you\", time: \"t2\", content: \"done\"),\n  )"), "{replied}");
    let moved = prepare_status(&content, vec![record("7C42")], "7C42", "resolved", &t.entry, &t.reply).unwrap();
    assert!(moved.contains("status: \"resolved\""));
    assert_eq!(
        prepare_status(&content, vec![], "7C42", "gone", &t.entry, &t.reply).unwrap_err(),
        "bad status: gone"
    );
    assert_eq!(
        prepare_status(&content, vec![], "7C42", "resolved", &t.entry, &t.reply).unwrap_err(),
        "unknown annotation: 7C42"
    );
    assert_eq!(
        prepare_status("", vec![record("7C42")], "7C42", "resolved", &t.entry, &t.reply).unwrap_err(),
        "cannot locate the entry of 7C42 in the sidecar"
    );
}

fn raw() -> RawRecord {
    RawRecord {
        rtype: None,
        uuid: Some("7C42".to_owned()),
        letter: None,
        author: None,
        content: Some("x".to_owned()),
        time: None,
        status: None,
        discussion: vec![
            RawReply { author: Some("a".to_owned()), time: None, content: Some("b".to_owned()) },
            RawReply { author: None, time: None, content: Some("b".to_owned()) },
        ],
    }
}

#[test]
fn a_record_is_filled_in() {
    let rec = record_from_value(&raw()).unwrap();
    assert_eq!(rec.rtype, "comment");
    assert_eq!(rec.author, "unknown");
    assert_eq!(rec.status, "created");
    assert_eq!(rec.discussion.len(), 1);
    let mut nameless = raw();
    nameless.uuid = None;
    assert!(record_from_value(&nameless).is_none());
    let mut silent = raw();
    silent.content = None;
    assert!(record_from_value(&silent).is_none());
}

#[test]
fn a_change_is_tried_three_times() {
    assert!(matches!(commit_sidecar(1, false), Commit::Write));
    assert!(matches!(commit_sidecar(3, false), Commit::Write));
    assert!(matches!(commit_sidecar(1, true), Commit::Again));
    assert!(matches!(commit_sidecar(2, true), Commit::Again));
    assert!(matches!(commit_sidecar(3, true), Commit::GiveUp(why) if why == "the sidecar kept changing concurrently; giving up"));
}

#[test]
fn an_entry_at_the_end_is_taken_back() {
    let t = templates();
    for before in ["", "// top\n", "#metadata((x: 1)) <note-AAAA>\n"] {
        let content = format!("{before}{}", format_record(&record("7C42"), &t.entry, &t.reply));
        assert_eq!(remove_entry(&content, "7C42").unwrap(), before);
    }
}

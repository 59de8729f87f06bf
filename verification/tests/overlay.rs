//! What a compile says, and where it is marked.

use talimist::preview::http::{entity_tag, preview_route, preview_type, PreviewRoute};
use talimist::preview::marks::{
    block_extent, cursor_overlay, diagnostics_payload, line_column_to_byte, location_of,
    paragraph_places, places_above, places_below, resolve_location, spot_at, Jump, OverlayLocation,
    OverlayPayload, PagePos,
};
use talimist::preview::overlay::{
    candidates, cursor_paragraph, error_messages, marked_errors, pick_marks, probe_offsets,
    Diagnostic, Severity, TraceFrame,
};

const TEXT: &str = "= Head\n\nOne line.\nTwo linés.\n";

fn error(message: &str, cursor: usize) -> Diagnostic {
    Diagnostic {
        severity: Severity::Error,
        message: message.to_owned(),
        at: spot_at("/main.typ", 0, TEXT, cursor),
        trace: vec![],
        hints: vec![],
    }
}

fn jump(cursor: usize, page: usize, y: i64) -> Jump {
    Jump { file: 0, cursor, to: PagePos { page, x: 10, y } }
}

#[test]
fn a_place_has_a_line_and_a_column() {
    let spot = spot_at("/main.typ", 3, TEXT, 12).unwrap();
    assert_eq!((spot.line, spot.column, spot.file, spot.cursor), (2, 4, 3, 12));
    let start = spot_at("/main.typ", 0, TEXT, 8).unwrap();
    assert_eq!((start.line, start.column), (2, 0));
    let behind = TEXT.find("s.\n").unwrap();
    assert_eq!(spot_at("/main.typ", 0, TEXT, behind).map(|s| (s.line, s.column)), Some((3, 8)));
    assert!(spot_at("/main.typ", 0, TEXT, behind - 1).is_none());
    assert!(spot_at("/main.typ", 0, TEXT, 99).is_none());
    assert_eq!(line_column_to_byte(TEXT, 3, 8), Some(behind));
    assert_eq!(line_column_to_byte(TEXT, 2, 4), Some(12));
    assert_eq!(line_column_to_byte(TEXT, 2, 99), Some(18));
    assert_eq!(line_column_to_byte(TEXT, 9, 0), None);
    let mixed = "a\r\nb\rc\u{2028}d\n";
    let starts: Vec<Option<usize>> = (0..6).map(|line| line_column_to_byte(mixed, line, 0)).collect();
    assert_eq!(starts, vec![Some(0), Some(3), Some(5), Some(9), Some(11), None]);
}

#[test]
fn messages_say_where() {
    assert_eq!(error_messages(&vec![error("bad", 12)]), vec!["error: bad (/main.typ:3:5)".to_owned()]);
    let mut traced = error("bad", 12);
    traced.hints.push("try again".to_owned());
    for n in 0..6 {
        traced.trace.push(TraceFrame { message: format!("frame {n}"), at: None });
    }
    assert_eq!(
        error_messages(&vec![traced]),
        vec![
            "error: bad (/main.typ:3:5)",
            "  frame 5",
            "  frame 4",
            "  frame 3",
            "  … 2 more frame(s) …",
            "  frame 0",
            "  hint: try again"
        ]
    );
    let many: Vec<Diagnostic> = (0..12).map(|n| error(&format!("e{n}"), 12)).collect();
    let said = error_messages(&many);
    assert_eq!(said.len(), 10);
    assert_eq!(said[8], "error: e8 (/main.typ:3:5)");
    assert_eq!(said[9], "… and 3 more error(s)");
    let ten: Vec<Diagnostic> = (0..10).map(|n| error(&format!("e{n}"), 12)).collect();
    let said = error_messages(&ten);
    assert_eq!(said.len(), 10);
    assert_eq!(said[9], "error: e9 (/main.typ:3:5)");
    assert_eq!(marked_errors(&many), vec![0, 1, 2, 3, 4, 5, 6, 7, 8, 9]);
    let mut warning = error("soft", 12);
    warning.severity = Severity::Warning;
    assert!(error_messages(&vec![warning]).is_empty());
}

#[test]
fn an_exact_place_is_marked_there() {
    let jumps = vec![jump(12, 1, 100)];
    let found = resolve_location(TEXT, 0, 12, 2, &jumps, &vec![(500, 800)]).unwrap();
    assert_eq!((found.page, found.x, found.y, found.y_end), (1, 10, 100, None));
    assert_eq!((found.page_width, found.page_height), (500, 800));
    assert!(resolve_location(TEXT, 0, 12, 2, &vec![], &vec![(500, 800)]).is_none());
    assert!(location_of(PagePos { page: 2, x: 0, y: 0 }, &vec![(1, 1)]).is_none());
    assert!(location_of(PagePos { page: 0, x: 0, y: 0 }, &vec![(1, 1)]).is_none());
}

#[test]
fn a_place_that_is_not_drawn_is_bracketed() {
    let above = places_above(TEXT, 2);
    assert_eq!(above[0], 9);
    assert_eq!(above[above.len() - 1], 6);
    let below = places_below(TEXT, 2);
    assert_eq!(below[0], 19);
    assert!(places_below(TEXT, 90).is_empty());
    let jumps = vec![jump(5, 1, 50), jump(19, 1, 150)];
    let band = resolve_location(TEXT, 0, 12, 2, &jumps, &vec![(500, 800)]).unwrap();
    assert_eq!((band.y, band.y_end), (50, Some(150)));
    let other_page = vec![jump(5, 1, 50), jump(19, 2, 150)];
    let line = resolve_location(TEXT, 0, 12, 2, &other_page, &vec![(500, 800), (500, 800)]).unwrap();
    assert_eq!((line.y, line.y_end), (50, None));
    let only_below = vec![jump(19, 1, 150)];
    let low = resolve_location(TEXT, 0, 12, 2, &only_below, &vec![(500, 800)]).unwrap();
    assert_eq!((low.y, low.y_end), (150, None));
}

#[test]
fn a_compile_that_failed_is_shown() {
    let files = vec![TEXT.to_owned()];
    let sizes = vec![(500, 800)];
    let jumps = vec![jump(12, 1, 100), jump(4, 1, 40)];
    let list: Vec<Diagnostic> = vec![error("bad", 12)];
    let shown = diagnostics_payload(false, &list, &files, &jumps, &sizes, Some((0, 4)));
    assert!(!shown.ok);
    assert_eq!(shown.messages.len(), 1);
    assert_eq!(shown.locations.len(), 1);
    assert_eq!(shown.locations[0].y, 100);
    let nowhere = vec![Diagnostic {
        severity: Severity::Error,
        message: "deep".to_owned(),
        at: None,
        trace: vec![],
        hints: vec![],
    }];
    let edit = diagnostics_payload(false, &nowhere, &files, &jumps, &sizes, Some((0, 4)));
    assert_eq!(edit.locations.len(), 1);
    assert_eq!(edit.locations[0].y, 40);
    assert!(diagnostics_payload(false, &nowhere, &files, &jumps, &sizes, None).locations.is_empty());
    let fine = diagnostics_payload(true, &list, &files, &jumps, &sizes, None);
    assert!(fine.ok && fine.messages.is_empty() && fine.locations.is_empty());
    assert!(OverlayPayload::default().ok);
}

#[test]
fn the_document_goes_before_what_it_calls() {
    let mut d = error("bad", 12);
    d.trace.push(TraceFrame { message: "inner".to_owned(), at: spot_at("/lib.typ", 1, "abc", 1) });
    d.trace.push(TraceFrame { message: "outer".to_owned(), at: spot_at("/main.typ", 0, TEXT, 8) });
    assert_eq!(candidates(&d), vec![(0, 8, 2), (1, 1, 0), (0, 12, 2)]);
    assert_eq!(pick_marks(&vec![None, Some(3), None, Some(4)], Some(9)), vec![3, 4]);
    assert_eq!(pick_marks(&vec![None], Some(9)), vec![9]);
    assert_eq!(pick_marks::<u8>(&vec![None], None), Vec::<u8>::new());
    assert_eq!(pick_marks(&vec![Some(1), Some(2), Some(3), Some(4), Some(5)], None), vec![1, 2, 3, 4]);
    assert_eq!(probe_offsets("a-b", 10, 24, false), vec![11, 13]);
    assert_eq!(probe_offsets("a-b", 10, 1, true), vec![13]);
    assert_eq!(probe_offsets("é.", 0, 24, false), vec![2]);
}

#[test]
fn a_cursor_lights_up_its_paragraph() {
    let cursor = TEXT.find("One").unwrap() + 2;
    let range = cursor_paragraph(TEXT, cursor).unwrap();
    assert_eq!(TEXT[range].trim_end(), "One line.\nTwo linés.");
    assert!(cursor_paragraph("#let x = 1", 6).is_none());
    let (first, last) = paragraph_places(TEXT, cursor).unwrap();
    assert_eq!(first[0], 9);
    let end = last[0];
    let jumps = vec![jump(cursor, 1, 100), jump(9, 1, 100), jump(end, 1, 120)];
    let extent = cursor_overlay(TEXT, 0, 2, 2, &jumps, &vec![(500, 800)], 1).unwrap();
    assert_eq!((extent.page, extent.x0, extent.y0, extent.y1), (1, 10, 88, 126));
    assert!(cursor_overlay(TEXT, 0, 2, 2, &vec![], &vec![(500, 800)], 1).is_none());
}

#[test]
fn an_extent_is_cut_to_its_page() {
    let on = |page: usize, y: i64| OverlayLocation {
        page,
        x: 10,
        y,
        y_end: None,
        page_width: 500,
        page_height: 800,
    };
    let across = block_extent(on(2, 100), on(1, 700), on(3, 50), 1);
    assert_eq!((across.y0, across.y1), (0, 800));
    let begins = block_extent(on(1, 700), on(1, 700), on(2, 50), 1);
    assert_eq!((begins.y0, begins.y1), (688, 800));
    let ends = block_extent(on(2, 50), on(1, 700), on(2, 50), 1);
    assert_eq!((ends.y0, ends.y1), (0, 56));
}

#[test]
fn a_preview_answers_by_path() {
    assert_eq!(preview_route("/", true, true, true), PreviewRoute::Websocket);
    assert_eq!(preview_route("/dev/diagnostics", false, true, true), PreviewRoute::Diagnostics);
    assert_eq!(preview_route("/p/api/diagnostics", false, true, true), PreviewRoute::Diagnostics);
    assert_eq!(preview_route("/api/diagnostics", false, true, false), PreviewRoute::Page);
    assert_eq!(preview_route("/api/overlay.js", false, true, true), PreviewRoute::Overlay);
    assert_eq!(preview_route("/dev/overlay.js", false, true, true), PreviewRoute::Page);
    assert_eq!(preview_route("/api/html/annotate.js", false, true, true), PreviewRoute::ClientScript);
    assert_eq!(preview_route("/body.html", false, true, true), PreviewRoute::Body);
    assert_eq!(preview_route("/body.html", false, false, true), PreviewRoute::Page);
    assert_eq!(preview_route("/anything", false, true, true), PreviewRoute::Page);
    assert_eq!(preview_type(PreviewRoute::Diagnostics).0, "text/event-stream");
    assert_eq!(entity_tag(7), "\"7\"");
}

//! The drawings of a page, and which of them an annotation is about.

use talimist::render::markup::{css_length, framed_drawings, fragment, svg_attr, view_box_size, CssUnit};
use talimist::serve::pins::{
    drawing_at, drawing_for, html_pins, marks_over, needs_capture, path_of, with_markup,
};
use talimist::serve::store::{Annotation, Location, Sidecar};

const BODY: &str = "<p data-typst-src=\"0:10\">before</p><figure data-typst-src=\"20:120\"><div style=\"x\"><svg viewBox=\"0 0 374 110\" width=\"374pt\" height=\"110pt\"><g><svg><circle/></svg></g></svg></div><figcaption data-typst-src=\"60:100\">a caption</figcaption></figure><p data-typst-src=\"200:210\">after</p>";

#[test]
fn finds_a_drawing_and_what_it_belongs_to() {
    let found = framed_drawings(BODY);
    assert_eq!(found.len(), 1, "one drawing, not its nested SVG");
    assert_eq!(found[0].range, 20..120);
    assert!(found[0].svg.starts_with("<svg viewBox"));
    assert!(found[0].svg.ends_with("</svg>"));
    assert_eq!(found[0].svg.matches("</svg>").count(), 2);
}

#[test]
fn drawings_are_found_in_order() {
    let body = "<svg>loose</svg><p data-typst-src=\"3:9\"><svg>one</svg> and <svg>two<svg/></svg></svg></p>\
                <figure data-typst-src=\"20:40\"><br data-typst-src=\"1:2\"><svg>three</svg></figure>";
    let found = framed_drawings(body);
    let ranges: Vec<_> = found.iter().map(|d| d.range.clone()).collect();
    assert_eq!(ranges, vec![3..9, 3..9, 20..40]);
    let mut from = 0;
    for drawing in &found {
        let at = from + body[from..].find(&drawing.svg).unwrap();
        from = at + drawing.svg.len();
    }
    assert_eq!(found[0].svg, "<svg>one</svg>");
    assert_eq!(found[1].svg, "<svg>two<svg/></svg></svg>");
}

#[test]
fn an_anchor_just_after_a_drawing_still_names_it() {
    let found = framed_drawings(BODY);
    assert!(drawing_at(&found, 121).is_some());
    assert!(drawing_at(&found, 205).is_none());
}

#[test]
fn a_drawing_says_how_large_it_is() {
    let found = framed_drawings(BODY);
    let width = svg_attr(&found[0].svg, "width").unwrap();
    let (number, unit) = css_length(&width);
    assert_eq!(number, "374");
    assert!(matches!(unit, CssUnit::Pt));
    let pixels = number.parse::<f32>().unwrap() * 4.0 / 3.0;
    assert_eq!(pixels.round() as u32, 499);
    assert_eq!(view_box_size(&found[0].svg), Some(("374".to_owned(), "110".to_owned())));
    assert_eq!(svg_attr("<svg>", "width"), None);
    let (bare, unit) = css_length(" 12 ");
    assert_eq!(bare, "12");
    assert!(matches!(unit, CssUnit::Px));
}

fn picture() -> Annotation {
    Annotation {
        uuid: "u1".to_owned(),
        letter: "a".to_owned(),
        location: Location { kind: "svg".to_owned(), labels: vec!["anno.G001".to_owned()] },
        snapshot: None,
        kind: "comment".to_owned(),
        color: "#4b2e83".to_owned(),
        author: "me".to_owned(),
        time: "t".to_owned(),
        mtime: "t".to_owned(),
        claimed: false,
        resolved: false,
        content: "what is this".to_owned(),
        scribble: None,
        discussion: vec![],
        captures: vec![],
    }
}

#[test]
fn a_picture_is_captured_once() {
    let found = framed_drawings(BODY);
    let mut sidecar = Sidecar { annotations: vec![picture()] };
    assert!(drawing_for(&sidecar.annotations[0], Some(121), &found).is_some());
    assert!(drawing_for(&sidecar.annotations[0], None, &found).is_none());
    assert!(needs_capture(&sidecar.annotations[0], "abc1"));
    assert_eq!(sidecar.record_capture("u1", "abc1", 499, 147, "later"), Ok(()));
    assert!(!needs_capture(&sidecar.annotations[0], "abc1"));
    assert!(needs_capture(&sidecar.annotations[0], "abc2"));
    assert_eq!(sidecar.annotations[0].captures.len(), 1);
    assert_eq!(sidecar.annotations[0].captures[0].width, 499);
    assert_eq!(sidecar.record_capture("u9", "abc1", 1, 1, "later"), Err("no annotation u9".to_owned()));
    let mut words = picture();
    words.location.kind = "word".to_owned();
    assert!(drawing_for(&words, Some(121), &found).is_none());
}

#[test]
fn a_capture_is_kept_under_its_hash() {
    assert_eq!(path_of("/c", "abc1", "svg").as_deref(), Some("/c/abc1.svg"));
    assert_eq!(path_of("/c", "../x", "svg"), None);
    assert_eq!(path_of("/c", "", "svg"), None);
    assert_eq!(path_of("/c", "abc1", "s/g"), None);
}

#[test]
fn marks_go_on_top() {
    assert_eq!(with_markup("<svg><a/></svg>", "<b/>"), "<svg><a/><b/></svg>");
    assert_eq!(with_markup("<svg>", "<b/>"), "<svg>");
    let over = marks_over("<b/>", 0, 20);
    assert!(over.contains("width=\"1\" height=\"20\""), "{over}");
    assert!(over.ends_with("<b/></svg>"), "{over}");
}

#[test]
fn a_pin_says_what_its_annotation_says() {
    let sidecar = Sidecar { annotations: vec![picture()] };
    let pins = html_pins(&sidecar, vec![None]);
    assert_eq!(pins.len(), 1);
    assert_eq!(pins[0].content, "what is this");
    assert!(pins[0].location.is_none());
}

#[test]
fn a_page_is_taken_apart() {
    let parts = fragment("<html><head><title>Paper</title></head><body><p>x</p></body></html>");
    assert_eq!(parts.title, "Paper");
    assert_eq!(parts.body, "<p>x</p>");
}

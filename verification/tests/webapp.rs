//! The web app's furniture, and the labelled page.

use talimist::render::drawing::{ink_range, pick_call, source_of};
use talimist::render::html::{
    atom_end, atom_expression, label_within, pick_expression, run_attr, HtmlElement, HtmlNode,
};
use talimist::render::map::{between, file_entry, hull_of, kind_of, Mapper, NodeKind, Place, SrcRange};
use talimist::render::shims::{check_shims, ShimModule, ShimRule};
use talimist::webapp::icons::{
    check_mask, encode_png, hex_color, hex_digit_value, hue_tenths, parse_hex, read_mask, IconRole,
};
use talimist::webapp::{
    icon_asset, mode_head, preview_mode_head, preview_web_manifest, role_of_path, role_prefix,
    strip_icon_links, strip_tags, web_manifest, WebAppIdentity,
};

#[test]
fn chosen_colours_are_read() {
    assert_eq!(parse_hex("#4b2e83"), Some([0x4b, 0x2e, 0x83]));
    assert_eq!(parse_hex("4b2e83"), Some([0x4b, 0x2e, 0x83]));
    assert_eq!(parse_hex("#abc"), Some([0xaa, 0xbb, 0xcc]));
    assert_eq!(parse_hex("nope"), None);
    assert_eq!(parse_hex("#12345"), None);
    assert_eq!(hex_color([0x4b, 0x2e, 0x83]), "#4b2e83");
    assert_eq!(hex_digit_value('f'), Some(15));
    assert_eq!(hex_digit_value('g'), None);
    assert!(hue_tenths(24123) < 3600);
}

#[test]
fn neighbouring_ports_look_different() {
    let close = (23700u16..24700)
        .filter(|p| {
            let (a, b) = (hue_tenths(*p) as i64, hue_tenths(p + 1) as i64);
            let d = (a - b).abs();
            d.min(3600 - d) < 120
        })
        .count();
    assert!(close < 110, "{close} of 1000 adjacent ports landed within 12°");
}

#[test]
fn a_picture_says_its_size() {
    let png = encode_png(2, &vec![255; 16]);
    assert_eq!(&png[..8], &[137, 80, 78, 71, 13, 10, 26, 10]);
    assert_eq!(&png[12..16], b"IHDR");
    assert_eq!(&png[16..24], &[0, 0, 0, 2, 0, 0, 0, 2]);
    assert_eq!(&png[png.len() - 12..], &[0, 0, 0, 0, 73, 69, 78, 68, 174, 66, 96, 130]);
}

#[test]
fn a_mask_that_is_broken_is_told() {
    assert!(read_mask(IconRole::Serve, &[1, 2, 3]).unwrap_err().starts_with("cannot inflate the Serve glyph: "));
    assert_eq!(check_mask(IconRole::Lsp, Ok(vec![0; 3])).unwrap_err(), "the Lsp glyph is 3 bytes");
    assert!(check_mask(IconRole::Lsp, Ok(vec![0; 512 * 512])).is_ok());
}

#[test]
fn a_path_names_its_mode() {
    assert_eq!(role_prefix(IconRole::Annotate), "/a/");
    assert_eq!(role_of_path("/a/x/y"), Some((IconRole::Annotate, "x/y".to_owned())));
    assert_eq!(role_of_path("/v"), Some((IconRole::Serve, String::new())));
    assert_eq!(role_of_path("/x/"), None);
}

#[test]
fn a_page_gets_a_head_of_its_own() {
    assert_eq!(strip_tags("a<link x>b<link y>c", "<link", ">"), "abc");
    assert!(!strip_icon_links("<head><link rel=\"icon\" href=\"x\"></head>").contains("rel=\"icon\""));
    let identity = WebAppIdentity::new(IconRole::Serve).with_name("Paper".to_owned());
    assert!(identity.title(24123).ends_with(": Paper"), "{}", identity.title(24123));
    assert_eq!(identity.short_title(24123), "Paper");
    assert_eq!(WebAppIdentity::new(IconRole::Lsp).short_title(24123), "24123 (LSP)");
    let head = mode_head("<html><head></head></html>", &identity, 24123);
    assert!(head.contains("manifest"), "{head}");
    assert!(preview_mode_head("<html><head></head></html>", &identity, 24123).contains("manifest"));
    assert_eq!(identity.with_role(IconRole::Annotate).role, IconRole::Annotate);
    assert_eq!(icon_asset("/favicon.ico", &identity), Some((IconRole::Serve, 192)));
    assert_eq!(icon_asset("/icon/anno-512.png", &identity), Some((IconRole::Annotate, 512)));
    assert!(icon_asset("/icon/anno-64.png", &identity).is_none());
    assert!(icon_asset("/nothing", &identity).is_none());
    let manifest = web_manifest("/a/manifest.webmanifest", 24123, &identity, "#000000").unwrap();
    assert!(manifest.contains("\"/a/\""), "{manifest}");
    assert!(manifest.contains("Paper (Annotator)"), "{manifest}");
    assert!(web_manifest("/nothing", 24123, &identity, "#000000").is_none());
    assert!(preview_web_manifest("/nothing", 24123, &identity, "#000000").is_none());
}

fn element(tag: &str, place: Option<Place>, children: Vec<HtmlNode>) -> HtmlElement {
    HtmlElement { tag: tag.to_owned(), attrs: vec![], place, children }
}

fn place(start: usize, end: usize) -> Option<Place> {
    Some(Place { file: 0, start, end })
}

#[test]
fn a_page_is_labelled_with_its_source() {
    let text = "Hello there.\n";
    let page = element(
        "p",
        place(0, 12),
        vec![HtmlNode::Text("Hello there.".to_owned(), place(0, 12))],
    );
    let mut mapper = Mapper::new(0, vec![]);
    let (labelled, range) = label_within(&page, text, false, &mut mapper);
    assert_eq!(labelled.tag, "p");
    assert!(labelled.attrs.iter().any(|(name, _)| name == "data-uid"), "{:?}", labelled.attrs);
    assert_eq!(range, Some(SrcRange { file: 0, start: 0, end: 12 }));
    let map = mapper.finish("r1".to_owned(), text);
    assert_eq!(map.render, "r1");
    assert!(!map.nodes.is_empty());
    let mut ids: Vec<&str> = map.nodes.iter().map(|node| node.uid.as_str()).collect();
    let count = ids.len();
    ids.sort();
    ids.dedup();
    assert_eq!(ids.len(), count);
}

#[test]
fn a_run_knows_its_expression() {
    assert_eq!(run_attr("Hello", 0..5).1, "0:5");
    let text = "See #strong[it] now";
    assert_eq!(atom_expression(text, 5..11).map(|r| text[r].to_owned()).as_deref(), Some("strong[it]"));
    assert_eq!(atom_end(text, 5..11), Some(15));
    assert_eq!(pick_expression(&vec![]), None);
}

#[test]
fn a_drawing_belongs_to_the_call_that_made_it() {
    let text = "Before.\n\n#figure(rect())\n\nAfter.\n";
    let start = text.find("rect").unwrap();
    let ink = vec![place(start, start + 6), None];
    assert_eq!(ink_range(&ink, 0), Some((start, start + 6)));
    assert_eq!(ink_range(&vec![None], 0), None);
    let found = source_of(&ink, text, 0).unwrap();
    assert!(text[found].contains("rect()"));
    assert_eq!(pick_call(&vec![], 0, 1), None);
}

#[test]
fn a_node_has_a_kind() {
    assert_eq!(kind_of("p", false), NodeKind::Para);
    assert_eq!(kind_of("li", false), NodeKind::Item);
    assert!(NodeKind::Para.is_block());
    assert!(!NodeKind::Text.is_block());
    let hull = hull_of(SrcRange { file: 0, start: 2, end: 4 }, SrcRange { file: 0, start: 3, end: 9 });
    assert_eq!((hull.start, hull.end), (2, 9));
    assert_eq!(between("a  b", 1, 3), None);
    assert_eq!(between("a  b", 1, 4), Some(SrcRange { file: 0, start: 3, end: 4 }));
    assert_eq!(file_entry("/a.typ", Some("abc")).hash, "ba7816bf8f01cfea");
}

#[test]
fn shims_are_checked() {
    assert_eq!(check_shims(&ShimModule::Broken(None)).unwrap_err(), "the HTML shims did not compile");
    assert_eq!(check_shims(&ShimModule::NoRules).unwrap_err(), "the HTML shims export no rules");
    assert_eq!(check_shims(&ShimModule::NotList).unwrap_err(), "the HTML shims' rules are not a list");
    assert_eq!(
        check_shims(&ShimModule::Rules(vec![ShimRule::NotPair])).unwrap_err(),
        "a shim rule is not a (selector, function) pair"
    );
    assert_eq!(check_shims(&ShimModule::Rules(vec![ShimRule::Pair(None, None)])), Ok(()));
    assert!(check_shims(&ShimModule::Rules(vec![ShimRule::Pair(Some("x".to_owned()), None)])).is_err());
}

//! Opening a page in a browser, and starting a preview.

use talimist::preview::open::{
    binary_in, chrome_args, installed_apps, parse_cdp_port, profile_dir, ways, Browser, OpenOptions,
    Way,
};
use talimist::preview::start::{
    addr_file_name, asks_primary, auto_host, background_args, check_host, check_start,
    default_background_args, derive_preview_port, jump_range, local_url, open_in_browser,
    open_options, overlay_enabled, overlay_page, place_preview, resolve_page_title, started,
    watches_parent, ExportTarget, Placement, PreviewArgs, PreviewConfig, PreviewKind, RefreshStyle,
    Spot, TaskWhen, Watch,
};

#[test]
fn reads_browser_names() {
    assert_eq!(Browser::parse("chrome"), Browser::Chrome);
    assert_eq!(Browser::parse("safari"), Browser::Safari);
    assert_eq!(Browser::parse("firefox"), Browser::Firefox);
    assert_eq!(Browser::parse("browser"), Browser::Default);
    assert_eq!(
        Browser::parse("Google Chrome Canary"),
        Browser::Named("Google Chrome Canary".into())
    );
    assert_eq!(Browser::parse("Safari"), Browser::Named("Safari".into()));
}

#[test]
fn reads_cdp_ports() {
    assert_eq!(parse_cdp_port("auto", 24123), Some(24124));
    assert_eq!(parse_cdp_port("9222", 24123), Some(9222));
    assert_eq!(parse_cdp_port("none", 24123), None);
    assert_eq!(parse_cdp_port("nonsense", 24123), None);
}

#[test]
fn the_last_port_has_none_after_it() {
    assert_eq!(parse_cdp_port("auto", 65535), None);
    assert_eq!(parse_cdp_port("", 24123), None);
}

fn options(browser: Browser) -> OpenOptions {
    OpenOptions {
        browser,
        isolated: true,
        cdp_port: Some(9222),
        app_title: "Paper".to_owned(),
        key: 24123,
    }
}

#[test]
fn a_browser_is_tried_in_several_ways() {
    let (order, ignored) = ways(&options(Browser::Chrome));
    assert_eq!(order, vec![Way::Installed, Way::Chrome, Way::App, Way::System]);
    assert!(!ignored);
    let (order, ignored) = ways(&options(Browser::Default));
    assert_eq!(order, vec![Way::Installed, Way::System]);
    assert!(ignored);
    assert!(installed_apps("Paper", "/home/me").iter().any(|app| app.ends_with("Paper.app")));
    assert_eq!(
        binary_in("/Applications/Firefox.app").as_deref(),
        Some("/Applications/Firefox.app/Contents/MacOS/Firefox")
    );
    let profile = profile_dir("/cache", 24123);
    assert!(profile.starts_with("/cache/"), "{profile}");
    assert!(profile.ends_with("24123"), "{profile}");
    let args = chrome_args("http://127.0.0.1:24123/", &options(Browser::Chrome), &profile);
    assert!(args.iter().any(|arg| arg == "--remote-debugging-port=9222"), "{args:?}");
    assert!(args.iter().any(|arg| arg.contains(&profile)), "{args:?}");
}

#[test]
fn a_port_is_derived_from_a_path() {
    let port = derive_preview_port("/home/me/paper");
    assert_eq!(port, 23893);
    assert_eq!(local_url(24123), "http://127.0.0.1:24123");
}

fn args() -> PreviewArgs {
    PreviewArgs {
        format: ExportTarget::Paged,
        html: false,
        page_title: None,
        enable_partial_rendering: None,
        invert_colors: None,
        refresh_style: None,
    }
}

#[test]
fn arguments_go_before_the_configuration() {
    let config = PreviewConfig {
        format: ExportTarget::Paged,
        enable_partial_rendering: true,
        refresh_style: TaskWhen::OnType,
        invert_colors: "never".to_owned(),
    };
    let kept = args().config(&config);
    assert!(kept.enable_partial_rendering);
    assert_eq!(kept.invert_colors, "never");
    assert!(matches!(kept.refresh_style, TaskWhen::OnType));
    let mut given = args();
    given.html = true;
    given.enable_partial_rendering = Some(false);
    given.refresh_style = Some(RefreshStyle::OnSave);
    assert!(matches!(given.export_target(), ExportTarget::Html));
    let changed = given.config(&config);
    assert!(!changed.enable_partial_rendering);
    assert!(matches!(changed.refresh_style, TaskWhen::OnSave));
    assert!(matches!(RefreshStyle::OnType.when(), TaskWhen::OnType));
}

#[test]
fn a_preview_is_told_how_to_start() {
    assert!(open_in_browser(false, true, false));
    assert!(!open_in_browser(true, true, true));
    assert!(open_in_browser(false, false, true));
    assert!(overlay_enabled(true, false, "never"));
    assert!(overlay_enabled(false, false, "smart"));
    assert!(!overlay_enabled(false, false, "never"));
    assert_eq!(resolve_page_title(Some("Mine"), Some("/a/b.typ")), "Mine");
    assert_eq!(resolve_page_title(None, Some("/a/b.typ")), "b.typ");
    assert_eq!(resolve_page_title(None, None), "Typst Preview");
    assert_eq!(check_start(Some("/a.typ"), "mine", false, PreviewKind::Regular), Ok(()));
    assert_eq!(
        check_start(Some("a.typ"), "mine", false, PreviewKind::Regular).unwrap_err(),
        "entry file must be absolute path"
    );
    assert_eq!(
        check_start(None, "primary", false, PreviewKind::Regular).unwrap_err(),
        "task id 'primary' is reserved"
    );
    assert_eq!(
        check_start(None, "mine", true, PreviewKind::Background).unwrap_err(),
        "cannot start background preview as non-primary"
    );
    assert_eq!(check_host("", "127.0.0.1:1"), Ok(()));
    assert_eq!(check_host("127.0.0.1:1", "127.0.0.1:1"), Ok(()));
    assert_eq!(
        check_host("127.0.0.1:1", "127.0.0.1:2").unwrap_err(),
        "--static-file-host is removed"
    );
}

#[test]
fn a_preview_runs_where_it_can() {
    assert_eq!(place_preview(PreviewKind::Background, true, true), Ok(Placement::Primary));
    assert_eq!(
        place_preview(PreviewKind::Background, true, false).unwrap_err(),
        "failed to register background preview to the primary instance"
    );
    assert_eq!(place_preview(PreviewKind::Regular, true, false), Ok(Placement::Dedicated));
    assert_eq!(
        place_preview(PreviewKind::Regular, false, false).unwrap_err(),
        "entry file must be provided"
    );
    assert!(asks_primary(PreviewKind::Background, false, false));
    assert!(asks_primary(PreviewKind::Regular, false, true));
    assert!(!asks_primary(PreviewKind::Regular, false, false));
    assert!(!asks_primary(PreviewKind::Browsing, true, true));
    let reply = started(24123, "127.0.0.1:24123".to_owned(), true);
    assert_eq!(reply.static_server_port, Some(24123));
    assert_eq!(reply.static_server_addr.as_deref(), Some("127.0.0.1:24123"));
    assert!(reply.is_primary);
    assert!(!watches_parent(0));
    assert!(!watches_parent(1));
    assert!(watches_parent(42));
}

#[test]
fn a_background_preview_gets_its_own_port() {
    assert_eq!(
        default_background_args(),
        vec!["--data-plane-host=127.0.0.1:23635".to_owned(), "--invert-colors=auto".to_owned()]
    );
    assert_eq!(auto_host("--data-plane-host=127.0.0.1:auto").as_deref(), Some("127.0.0.1"));
    assert_eq!(auto_host("--data-plane-host=127.0.0.1:23635"), None);
    let given = vec!["--data-plane-host=127.0.0.1:auto".to_owned(), "--open".to_owned()];
    assert_eq!(
        background_args(given, &vec![23750, 0], Some("docs")),
        vec![
            "--data-plane-host=127.0.0.1:23750".to_owned(),
            "--open".to_owned(),
            "--root-name=docs".to_owned()
        ]
    );
    let named = vec!["--root-name=mine".to_owned()];
    assert_eq!(
        background_args(named, &vec![0], Some("docs")),
        vec!["--root-name=mine".to_owned()]
    );
    assert_eq!(addr_file_name("/home/me"), "_home_me.addr");
}

#[test]
fn the_overlay_goes_into_the_page() {
    let page = overlay_page("<html><head></head><body></body></html>", "early()");
    assert_eq!(
        page,
        "<html><head><script>early()</script></head><body><script src=\"/dev/overlay.js\"></script></body></html>"
    );
    assert_eq!(
        overlay_page("x", "early()"),
        "<script>early()</script>x<script src=\"/dev/overlay.js\"></script>"
    );
}

#[test]
fn a_jump_may_have_one_end() {
    let spot = Spot { line: 3, character: 4 };
    let (from, to) = jump_range(Some(spot), None).unwrap();
    assert_eq!((from.line, from.character), (3, 4));
    assert_eq!((to.line, to.character), (3, 4));
    assert!(jump_range(None, None).is_none());
}

#[test]
fn a_change_is_seen_once() {
    let mut watch = Watch::new();
    watch.look((Some(1), Some(1)), Some(Some(1)));
    assert_eq!(watch.look((Some(1), Some(1)), Some(Some(1))), (false, false));
    assert_eq!(watch.look((Some(2), Some(1)), Some(Some(1))), (true, false));
    assert_eq!(watch.look((Some(2), Some(1)), Some(Some(2))), (false, true));
}

#[test]
fn options_come_from_the_flags() {
    let opts = open_options(Some("chrome"), true, Some("auto"), Some("paper".to_owned()), 24123);
    assert_eq!(opts.browser, Browser::Chrome);
    assert_eq!(opts.cdp_port, Some(24124));
    assert_eq!(opts.key, 24123);
    assert!(opts.isolated);
}

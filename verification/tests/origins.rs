//! Which pages may talk to a preview.

use talimist::preview::http::{check_origin as answer_origin, is_valid_origin, origin_allows};

fn check_origin(origin: &str, static_file_addr: &str, port: u16) -> bool {
    is_valid_origin(origin, static_file_addr, port, &None, None, &vec![])
}

fn check_origin_allowed(origin: &str, static_file_addr: &str, port: u16, allowed: &[&str]) -> bool {
    let allowed: Vec<String> = allowed.iter().map(|a| (*a).to_owned()).collect();
    is_valid_origin(origin, static_file_addr, port, &None, None, &allowed)
}

#[test]
fn test_allowed_origin_flag() {
    assert!(!check_origin("http://typst", "127.0.0.1:42", 42));
    assert!(check_origin_allowed("http://typst", "127.0.0.1:42", 42, &["http://typst"]));
    assert!(check_origin_allowed("http://typst", "127.0.0.1:42", 42, &["http://typst/"]));
    assert!(check_origin_allowed("http://typst", "127.0.0.1:42", 42, &["http://typst:80"]));
    assert!(check_origin_allowed(
        "http://tbwork",
        "127.0.0.1:42",
        42,
        &["http://typst", "http://tbwork"]
    ));
    assert!(!check_origin_allowed(
        "http://elsewhere",
        "127.0.0.1:42",
        42,
        &["http://typst", "http://tbwork"]
    ));
    assert!(!check_origin_allowed("https://typst", "127.0.0.1:42", 42, &["http://typst"]));
    assert!(!check_origin_allowed("http://typst.evil.com", "127.0.0.1:42", 42, &["http://typst"]));
}

#[test]
fn test_valid_origin_localhost() {
    assert!(check_origin("http://127.0.0.1:42", "127.0.0.1:42", 42));
    assert!(check_origin("http://127.0.0.1:42", "127.0.0.1:42", 42));
    assert!(check_origin("http://127.0.0.1:42", "127.0.0.1:0", 42));
    assert!(check_origin("http://localhost:42", "127.0.0.1:42", 42));
    assert!(check_origin("http://localhost:42", "127.0.0.1:0", 42));
    assert!(check_origin("http://localhost", "127.0.0.1:0", 42));

    assert!(check_origin("http://127.0.0.1:42", "localhost:42", 42));
    assert!(check_origin("http://127.0.0.1:42", "localhost:42", 42));
    assert!(check_origin("http://127.0.0.1:42", "localhost:0", 42));
    assert!(check_origin("http://localhost:42", "localhost:42", 42));
    assert!(check_origin("http://localhost:42", "localhost:0", 42));
    assert!(check_origin("http://localhost", "localhost:0", 42));
}

#[test]
fn test_invalid_origin_localhost() {
    assert!(!check_origin("https://huh.io:8080", "127.0.0.1:42", 42));
    assert!(!check_origin("http://huh.io:8080", "127.0.0.1:42", 42));
    assert!(!check_origin("https://huh.io:443", "127.0.0.1:42", 42));
    assert!(!check_origin("http://huh.io:42", "127.0.0.1:0", 42));
    assert!(!check_origin("http://huh.io", "127.0.0.1:42", 42));
    assert!(!check_origin("https://huh.io", "127.0.0.1:42", 42));

    assert!(!check_origin("https://huh.io:8080", "localhost:42", 42));
    assert!(!check_origin("http://huh.io:8080", "localhost:42", 42));
    assert!(!check_origin("https://huh.io:443", "localhost:42", 42));
    assert!(!check_origin("http://huh.io:42", "localhost:0", 42));
    assert!(!check_origin("http://huh.io", "localhost:42", 42));
    assert!(!check_origin("https://huh.io", "localhost:42", 42));
}

#[test]
fn test_invalid_origin_scheme() {
    assert!(!check_origin("ftp://127.0.0.1:42", "127.0.0.1:42", 42));
    assert!(!check_origin("ftp://localhost:42", "127.0.0.1:42", 42));
    assert!(!check_origin("ftp://127.0.0.1:42", "127.0.0.1:0", 42));
    assert!(!check_origin("ftp://localhost:42", "127.0.0.1:0", 42));

    assert!(!check_origin("127.0.0.1:42", "127.0.0.1:0", 42));
    assert!(!check_origin("localhost:42", "127.0.0.1:0", 42));
    assert!(!check_origin("localhost:42", "127.0.0.1:42", 42));
    assert!(!check_origin("127.0.0.1:42", "127.0.0.1:42", 42));
}

#[test]
fn test_valid_origin_vscode() {
    assert!(check_origin("vscode-webview://it", "127.0.0.1:42", 42));
    assert!(check_origin("vscode-webview://it", "127.0.0.1:0", 42));
}

#[test]
fn test_origin_manually_binding() {
    assert!(!check_origin("https://huh.io:8080", "huh.io:42", 42));
    assert!(!check_origin("http://huh.io:8080", "huh.io:42", 42));
    assert!(!check_origin("https://huh.io:443", "huh.io:42", 42));
    assert!(check_origin("http://huh.io:42", "huh.io:0", 42));
    assert!(!check_origin("http://huh.io", "huh.io:42", 42));
    assert!(!check_origin("https://huh.io", "huh.io:42", 42));

    assert!(check_origin("http://127.0.0.1:42", "huh.io:42", 42));
    assert!(check_origin("http://127.0.0.1:42", "huh.io:42", 42));
    assert!(check_origin("http://127.0.0.1:42", "huh.io:0", 42));
    assert!(check_origin("http://localhost:42", "huh.io:42", 42));
    assert!(check_origin("http://localhost:42", "huh.io:0", 42));

    assert!(!check_origin("https://huh2.io:8080", "huh.io:42", 42));
    assert!(!check_origin("http://huh2.io:8080", "huh.io:42", 42));
    assert!(!check_origin("https://huh2.io:443", "huh.io:42", 42));
    assert!(!check_origin("http://huh2.io:42", "huh.io:0", 42));
    assert!(!check_origin("http://huh2.io", "huh.io:42", 42));
    assert!(!check_origin("https://huh2.io", "huh.io:42", 42));
}

#[test]
fn test_valid_origin_code_server_proxy() {
    assert!(check_origin("http://localhost:8080", "127.0.0.1:42", 42));
    assert!(check_origin("http://localhost", "127.0.0.1:42", 42));
}

fn check_gitpod_origin1(origin: &str) -> bool {
    let workspace = Some(("workspace_id".to_owned(), "gitpod.typ".to_owned()));
    let explicit = is_valid_origin(origin, "127.0.0.1:42", 42, &workspace, None, &vec![]);
    let implicit = is_valid_origin(origin, "127.0.0.1:0", 42, &workspace, None, &vec![]);
    assert_eq!(explicit, implicit, "failed port binding");
    explicit
}

#[test]
fn test_valid_origin_gitpod_proxy() {
    assert!(check_gitpod_origin1("http://127.0.0.1:42"));
    assert!(check_gitpod_origin1("http://127.0.0.1:42"));
    assert!(check_gitpod_origin1("https://42-workspace_id.gitpod.typ"));
    assert!(!check_gitpod_origin1("https://42-workspace_id.gitpod.typ/path"));
    assert!(!check_gitpod_origin1("https://42-workspace_id.gitpod.typ:42"));

    assert!(!check_gitpod_origin1("https://42-workspace_id2.gitpod.typ"));
    assert!(!check_gitpod_origin1("http://huh.io"));
    assert!(!check_gitpod_origin1("https://huh.io"));
}

fn check_vscode_origin1(origin: &str, template: &str) -> bool {
    let explicit = is_valid_origin(origin, "127.0.0.1:42", 42, &None, Some(template), &vec![]);
    let implicit = is_valid_origin(origin, "127.0.0.1:0", 42, &None, Some(template), &vec![]);
    assert_eq!(explicit, implicit, "failed port binding");
    explicit
}

#[test]
fn test_valid_origin_vscode_proxy() {
    let url_path = "https://vscode.typ/proxy/{{port}}";
    let url_subdomain = "https://{{port}}.vscode.typ";
    let url_subdomain_port = "https://{{port}}.vscode.typ:1234";

    assert!(check_vscode_origin1("http://127.0.0.1:42", url_path));
    assert!(check_vscode_origin1("http://127.0.0.1:42", url_subdomain));

    assert!(check_vscode_origin1("https://vscode.typ", url_path));
    assert!(check_vscode_origin1("https://42.vscode.typ", url_subdomain));
    assert!(check_vscode_origin1("https://42.vscode.typ:1234", url_subdomain_port));
    assert!(!check_vscode_origin1("https://42.vscode.typ", url_subdomain_port));
    assert!(!check_vscode_origin1("https://42.vscode.typ:1234", url_subdomain));

    assert!(!check_vscode_origin1("https://42.vscode.typ/path", url_subdomain));

    assert!(!check_vscode_origin1("http://huh.io", url_path));
}

#[test]
fn an_address_without_a_host_is_told() {
    let none: Vec<String> = vec![];
    assert_eq!(answer_origin("http://localhost", "127.0.0.1:42", 42, &None, None, &none), Some(true));
    assert_eq!(answer_origin("http://huh.io", "127.0.0.1:42", 42, &None, None, &none), Some(false));
    assert_eq!(answer_origin("not an origin", "127.0.0.1:42", 42, &None, None, &none), Some(false));
    assert_eq!(answer_origin("http://localhost", "", 42, &None, None, &none), None);
}

#[test]
fn an_origin_is_one_however_it_is_written() {
    assert!(origin_allows("http://typst:80/", "http://typst"));
    assert!(origin_allows("https://typst:443", "https://typst"));
    assert!(!origin_allows("http://typst:81", "http://typst"));
    assert!(origin_allows("plain", "plain"));
    assert!(!origin_allows("plain", "plainer"));
}

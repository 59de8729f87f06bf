//! Who is calling, and who is watching.

use talimist::serve::answers::identified_event;
use talimist::serve::clients::{Client, Clients};
use talimist::serve::settings::{Settings, Watchers};

fn identify(clients: &mut Clients, agent: &str, forwarded: Option<&str>) -> Client {
    clients.identify(None, forwarded, Some(agent), "127.0.0.1", "me").0
}

#[test]
fn the_same_caller_keeps_its_number() {
    let mut clients = Clients::new();
    let first = identify(&mut clients, "Safari", None);
    let again = identify(&mut clients, "Safari", None);
    assert_eq!(first.id, again.id);
}

#[test]
fn a_different_browser_is_a_different_caller() {
    let mut clients = Clients::new();
    let safari = identify(&mut clients, "Safari/2", None);
    let chrome = identify(&mut clients, "Chrome/2", None);
    assert_ne!(safari.id, chrome.id);
}

#[test]
fn a_proxy_says_where_the_request_really_came_from() {
    let mut clients = Clients::new();
    let client = identify(&mut clients, "Safari/3", Some("100.64.0.7, 10.0.0.1"));
    assert_eq!(client.ip, "100.64.0.7");
}

#[test]
fn a_new_caller_is_new_once() {
    let mut clients = Clients::new();
    let (first, new) = clients.meet("me", "::1", "Safari");
    assert!(new);
    assert_eq!(first.name, "me");
    let (again, new) = clients.meet("me", "::1", "Safari");
    assert!(!new);
    assert_eq!(first, again);
    let said = identified_event(&first, "t");
    assert_eq!(said.text_at("type"), Some("client_identified"));
    assert_eq!(said.text_at("name"), Some("me"));
    assert_eq!(said.text_at("ip"), Some("::1"));
    assert_eq!(said.text_at("useragent"), Some("Safari"));
}

#[test]
fn a_server_does_as_it_is_told() {
    let mut settings = Settings::new();
    assert_eq!(settings.annotate_latency(), 0);
    assert!(settings.preparse());
    settings.set_annotate_latency(250);
    settings.set_preparse(false);
    assert_eq!(settings.annotate_latency(), 250);
    assert!(!settings.preparse());
}

#[test]
fn pages_come_and_go() {
    let mut watchers = Watchers::new();
    assert!(!watchers.served());
    assert_eq!(watchers.arrive(), (0, 1));
    assert_eq!(watchers.arrive(), (1, 2));
    assert_eq!(watchers.leave(), 1);
    assert_eq!(watchers.leave(), 0);
    assert_eq!(watchers.leave(), 0);
    assert_eq!(watchers.live_clients(), 0);
    assert!(watchers.served());
}

use obs_bot::build_res::{BuildEvent, PackageKey};
use obs_bot::common::{
    binding_patterns, prepend_prefix, BindingPolicy, ConnectionDetails, Reply, ScanLineResult,
    Subscriber,
};
use obs_bot::key::DomainKey;
use obs_bot::submitrequests::RequestKey;

fn details() -> ConnectionDetails {
    ConnectionDetails {
        domain: "obs.example.org".to_string(),
        login: "user:pass".to_string(),
        buildprefix: "build".to_string(),
        rabbitprefix: "rabbit".to_string(),
        rabbitscope: "example".to_string(),
    }
}

fn packages(prefix: Option<&str>) -> Subscriber<PackageKey> {
    Subscriber::new(details(), prefix.map(|p| p.to_string()), "package".to_string())
}

fn only_text(replies: &[Option<Reply>]) -> Vec<String> {
    replies.iter().flatten().map(|r| r.plain.clone()).collect()
}

#[test]
fn base_url_has_show_segment() {
    assert_eq!(packages(None).get_base_url(), "https://build.obs.example.org/package/show");
}

#[test]
fn scan_line_classifies_lines() {
    let sub = packages(Some("!"));
    assert_eq!(sub.scan_line("obs.example.org/package/foo/bar"), ScanLineResult::NotForMe);
    assert_eq!(sub.scan_line("!list packages"), ScanLineResult::ListCommand);
    assert_eq!(sub.scan_line("!  list packages  "), ScanLineResult::ListCommand);
    assert_eq!(sub.scan_line("!hello there"), ScanLineResult::NotForMe);
    assert_eq!(sub.scan_line("!other.org/package/foo/bar"), ScanLineResult::NotForMe);
    assert_eq!(sub.scan_line("!obs.example.org/package/foo/bar"), ScanLineResult::PossiblyForMe);
    assert_eq!(
        sub.scan_line("!unsub https://build.obs.example.org/package/show/foo/bar"),
        ScanLineResult::PossiblyForMe
    );
}

#[test]
fn empty_prefix_takes_every_line() {
    let sub = packages(None);
    assert_eq!(sub.scan_line("obs.example.org/package/foo/bar"), ScanLineResult::PossiblyForMe);
    assert_eq!(sub.scan_line("list packages"), ScanLineResult::ListCommand);
}

#[test]
fn scenario_subscribe_then_build_failure_notifies_room() {
    let mut sub = packages(Some("!"));
    let replies = sub.handle_message_helper("!obs.example.org/package/foo/bar", "R1");
    assert_eq!(only_text(&replies), vec!["Subscribing to foo/bar on obs.example.org"]);

    let event = BuildEvent {
        project: "foo".to_string(),
        package: "bar".to_string(),
        arch: "x86_64".to_string(),
        repository: "standard".to_string(),
    };
    let n = sub.delivery_wrapper("example.obs.package.build_fail", &event).unwrap().unwrap();
    assert_eq!(n.rooms, vec!["R1".to_string()]);
    for part in ["failed", "foo", "bar", "x86_64", "standard"] {
        assert!(n.plain.contains(part));
    }
    assert_eq!(n.plain, "Build failed: foo/bar (x86_64 / standard)");
    assert_eq!(
        n.html,
        "<strong>Build <u>failed</u></strong>: <a href=https://build.obs.example.org/package/show/foo/bar>foo/bar</a> (x86_64 / standard)"
    );
}

#[test]
fn build_success_is_not_underlined() {
    let mut sub = packages(None);
    sub.handle_message_helper("obs.example.org/package/foo/bar", "R1");
    let event = BuildEvent {
        project: "foo".to_string(),
        package: "bar".to_string(),
        arch: "aarch64".to_string(),
        repository: "openSUSE_Tumbleweed".to_string(),
    };
    let n = sub.delivery_wrapper("opensuse.obs.package.build_success", &event).unwrap().unwrap();
    assert_eq!(n.plain, "Build succeeded: foo/bar (aarch64 / openSUSE_Tumbleweed)");
    assert_eq!(
        n.html,
        "<strong>Build succeeded</strong>: <a href=https://build.obs.example.org/package/show/foo/bar>foo/bar</a> (aarch64 / openSUSE_Tumbleweed)"
    );
}

#[test]
fn scenario_unsubscribe_without_subscription() {
    let mut sub = packages(Some("!"));
    let replies = sub.handle_message_helper("!unsub obs.example.org/package/foo/bar", "R1");
    assert_eq!(only_text(&replies), vec!["Was not subscribed to foo/bar"]);
    assert!(only_text(&replies)[0].to_lowercase().contains("was not subscribed"));
    assert!(sub.subscriptions.is_empty());
}

#[test]
fn unsubscribe_after_subscribe_confirms() {
    let mut sub = packages(Some("!"));
    sub.handle_message_helper("!obs.example.org/package/foo/bar", "R1");
    let replies = sub.handle_message_helper("!unsub obs.example.org/package/foo/bar", "R1");
    assert_eq!(only_text(&replies), vec!["Unsubscribing room from foo/bar on obs.example.org"]);
    assert!(sub.subscriptions.is_empty());
}

#[test]
fn delivery_without_subscribers_sends_nothing() {
    let sub = packages(None);
    let event = BuildEvent {
        project: "foo".to_string(),
        package: "bar".to_string(),
        arch: "x86_64".to_string(),
        repository: "standard".to_string(),
    };
    assert!(sub.delivery_wrapper("example.obs.package.build_fail", &event).unwrap().is_none());
}

#[test]
fn delivery_with_unknown_routing_key_is_a_domain_error() {
    let mut sub = packages(None);
    sub.handle_message_helper("obs.example.org/package/foo/bar", "R1");
    let event = BuildEvent {
        project: "foo".to_string(),
        package: "bar".to_string(),
        arch: "x86_64".to_string(),
        repository: "standard".to_string(),
    };
    let err = sub.delivery_wrapper("example.obs.package.commit", &event).unwrap_err();
    assert_eq!(err.describe(), "Unknown routing key: example.obs.package.commit");
}

#[test]
fn message_with_several_lines_handles_each() {
    let mut sub = packages(Some("!"));
    let replies = sub.handle_message_helper(
        "hello\r\n!obs.example.org/package/a/b\r\n!obs.example.org/package/c/d\nbye\n",
        "R1",
    );
    assert_eq!(replies.len(), 4);
    assert!(replies[0].is_none());
    assert!(replies[3].is_none());
    assert_eq!(
        only_text(&replies),
        vec!["Subscribing to a/b on obs.example.org", "Subscribing to c/d on obs.example.org"]
    );
}

#[test]
fn list_shows_sorted_links() {
    let mut sub = packages(Some("!"));
    sub.handle_message_helper("!obs.example.org/package/zz/top\n!obs.example.org/package/aa/low", "R1");
    sub.handle_message_helper("!obs.example.org/package/mm/other", "R2");
    let replies = sub.handle_message_helper("!list packages", "R1");
    let reply = replies[0].clone().unwrap();
    let a = "<a href=https://build.obs.example.org/package/show/aa/low>aa/low</a>";
    let z = "<a href=https://build.obs.example.org/package/show/zz/top>zz/top</a>";
    assert_eq!(reply.plain, format!("On obs.example.org: {}, {}", a, z));
    assert_eq!(reply.html, Some(format!("On obs.example.org:<br>{}<br>{}", a, z)));
}

#[test]
fn list_without_subscriptions() {
    let sub = packages(None);
    let reply = sub.list_keys("R1");
    assert_eq!(reply.plain, "On obs.example.org: No subscriptions found");
    assert_eq!(reply.html, Some("On obs.example.org:<br>No subscriptions found".to_string()));
}

#[test]
fn defaults_only_subscribe() {
    let mut sub = packages(None);
    sub.subscribe_to_defaults(
        "obs.example.org/package/a/b\nunsub obs.example.org/package/a/b\nlist packages\nobs.example.org/package/e/f\nnoise",
        "R1",
    );
    let listed: Vec<String> = sub.subscriptions.list("R1").iter().map(|k| k.encode()).collect();
    assert_eq!(listed, vec!["a/b", "e/f"]);
}

#[test]
fn subscribe_and_unsubscribe_messages() {
    let mut sub: Subscriber<RequestKey> =
        Subscriber::new(details(), None, "request".to_string());
    let k = RequestKey { id: "7".to_string() };
    assert_eq!(sub.subscribe(k.duplicate(), "R1"), "Subscribing to 7 on obs.example.org");
    assert_eq!(sub.unsubscribe(k.duplicate(), "R1"), "Unsubscribing room from 7 on obs.example.org");
    assert_eq!(sub.unsubscribe(k, "R1"), "Was not subscribed to 7");
}

#[test]
fn lazy_binding_waits_for_a_subscription() {
    let mut sub = packages(None);
    assert!(sub.needs_binding(BindingPolicy::Eager, false));
    assert!(!sub.needs_binding(BindingPolicy::Eager, true));
    assert!(!sub.needs_binding(BindingPolicy::Lazy, false));
    sub.handle_message_helper("obs.example.org/package/a/b", "R1");
    assert!(sub.needs_binding(BindingPolicy::Lazy, false));
    assert!(!sub.needs_binding(BindingPolicy::Lazy, true));
}

#[test]
fn binding_patterns_put_scope_first() {
    let p = binding_patterns(&details(), &["obs.package.build_success", "obs.package.build_fail"]);
    assert_eq!(p, vec!["example.obs.package.build_success", "example.obs.package.build_fail"]);
}

#[test]
fn prepend_prefix_puts_prefix_before_commands() {
    let r = prepend_prefix(Some("!"), &[("leave", "Leave"), ("x", "y")]);
    assert_eq!(
        r,
        vec![("!leave".to_string(), "Leave".to_string()), ("!x".to_string(), "y".to_string())]
    );
    let r = prepend_prefix(None, &[("leave", "Leave")]);
    assert_eq!(r, vec![("leave".to_string(), "Leave".to_string())]);
}

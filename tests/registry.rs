use obs_bot::build_res::PackageKey;
use obs_bot::key::DomainKey;
use obs_bot::registry::Registry;
use obs_bot::submitrequests::RequestKey;

fn package(project: &str, package: &str) -> PackageKey {
    PackageKey { project: project.to_string(), package: package.to_string() }
}

fn request(id: &str) -> RequestKey {
    RequestKey { id: id.to_string() }
}

fn sorted(mut v: Vec<String>) -> Vec<String> {
    v.sort();
    v
}

#[test]
fn subscribing_twice_keeps_one_membership() {
    let mut reg: Registry<PackageKey> = Registry::new();
    reg.subscribe(package("foo", "bar"), "R1");
    reg.subscribe(package("foo", "bar"), "R1");
    assert_eq!(reg.lookup(&package("foo", "bar")), vec!["R1".to_string()]);
    assert_eq!(reg.list("R1"), vec![package("foo", "bar")]);
}

#[test]
fn unsubscribing_the_only_room_removes_the_key() {
    let mut reg: Registry<PackageKey> = Registry::new();
    reg.subscribe(package("foo", "bar"), "R1");
    assert!(!reg.is_empty());
    assert!(reg.unsubscribe(&package("foo", "bar"), "R1"));
    assert!(reg.lookup(&package("foo", "bar")).is_empty());
    assert!(reg.is_empty());
    assert!(!reg.unsubscribe(&package("foo", "bar"), "R1"));
}

#[test]
fn unsubscribing_one_of_two_rooms_keeps_the_other() {
    let mut reg: Registry<PackageKey> = Registry::new();
    reg.subscribe(package("foo", "bar"), "R1");
    reg.subscribe(package("foo", "bar"), "R2");
    assert!(reg.unsubscribe(&package("foo", "bar"), "R1"));
    assert_eq!(reg.lookup(&package("foo", "bar")), vec!["R2".to_string()]);
}

#[test]
fn unsubscribing_a_room_that_never_subscribed_changes_nothing() {
    let mut reg: Registry<PackageKey> = Registry::new();
    reg.subscribe(package("foo", "bar"), "R1");
    assert!(reg.unsubscribe(&package("foo", "bar"), "R9"));
    assert_eq!(reg.lookup(&package("foo", "bar")), vec!["R1".to_string()]);
}

#[test]
fn lookup_of_unknown_key_is_empty() {
    let reg: Registry<RequestKey> = Registry::new();
    assert!(reg.lookup(&request("1")).is_empty());
    assert!(reg.list("R1").is_empty());
}

#[test]
fn list_is_sorted_by_encoding_whatever_the_order_of_subscription() {
    let mut reg: Registry<PackageKey> = Registry::new();
    reg.subscribe(package("zeta", "a"), "R1");
    reg.subscribe(package("alpha", "b"), "R1");
    reg.subscribe(package("beta", "x"), "R2");
    reg.subscribe(package("mid", "c"), "R1");
    let listed: Vec<String> = reg.list("R1").iter().map(|k| k.encode()).collect();
    assert_eq!(listed, vec!["alpha/b", "mid/c", "zeta/a"]);
    let listed: Vec<String> = reg.list("R2").iter().map(|k| k.encode()).collect();
    assert_eq!(listed, vec!["beta/x"]);
}

#[test]
fn list_orders_a_prefix_before_its_extensions() {
    let mut reg: Registry<RequestKey> = Registry::new();
    reg.subscribe(request("2"), "R1");
    reg.subscribe(request("123"), "R1");
    reg.subscribe(request("12"), "R1");
    let listed: Vec<String> = reg.list("R1").iter().map(|k| k.encode()).collect();
    assert_eq!(listed, vec!["12", "123", "2"]);
}

#[test]
fn interleaved_changes_keep_the_rooms_whose_last_change_subscribed() {
    let mut reg: Registry<RequestKey> = Registry::new();
    let k = request("42");
    reg.subscribe(request("42"), "R1");
    reg.subscribe(request("42"), "R2");
    reg.unsubscribe(&k, "R1");
    reg.subscribe(request("42"), "R3");
    reg.unsubscribe(&k, "R2");
    reg.subscribe(request("42"), "R2");
    reg.unsubscribe(&k, "R4");
    assert_eq!(sorted(reg.lookup(&k)), vec!["R2".to_string(), "R3".to_string()]);
}

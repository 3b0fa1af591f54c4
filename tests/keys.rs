use obs_bot::build_res::PackageKey;
use obs_bot::key::{DomainKey, ParseError};
use obs_bot::openqa::QAKey;
use obs_bot::submitrequests::RequestKey;

fn package(project: &str, package: &str) -> PackageKey {
    PackageKey { project: project.to_string(), package: package.to_string() }
}

#[test]
fn package_key_from_show_url() {
    let k = PackageKey::decode("https://build.opensuse.org/package/show/foo/bar").unwrap();
    assert_eq!(k, package("foo", "bar"));
}

#[test]
fn package_key_trims_line_and_tokens() {
    let k = PackageKey::decode("  obs.example.org/package/ foo / bar  ").unwrap();
    assert_eq!(k, package("foo", "bar"));
}

#[test]
fn package_key_accepts_three_tokens() {
    let k = PackageKey::decode("package/foo/bar").unwrap();
    assert_eq!(k, package("foo", "bar"));
}

#[test]
fn package_key_refuses_two_tokens() {
    assert_eq!(PackageKey::decode("foo/bar"), Err(ParseError));
    assert_eq!(PackageKey::decode("foobar"), Err(ParseError));
    assert_eq!(PackageKey::decode(""), Err(ParseError));
}

#[test]
fn decode_refuses_several_lines() {
    assert_eq!(PackageKey::decode("a/b/c\nd/e/f"), Err(ParseError));
    assert_eq!(RequestKey::decode("a/b/1\n2"), Err(ParseError));
}

#[test]
fn package_key_encodes_project_slash_package() {
    assert_eq!(package("home:me", "pkg").encode(), "home:me/pkg");
}

#[test]
fn package_key_round_trip_through_url() {
    let k = package("devel:languages:rust", "cargo");
    let url = format!("https://build.opensuse.org/package/show/{}", k.encode());
    assert_eq!(PackageKey::decode(&url).unwrap(), k);
    let bare = format!("/{}", k.encode());
    assert_eq!(PackageKey::decode(&bare).unwrap(), k);
}

#[test]
fn request_key_from_url() {
    let k = RequestKey::decode("https://build.opensuse.org/request/show/1234").unwrap();
    assert_eq!(k.id, "1234");
    assert_eq!(k.encode(), "1234");
}

#[test]
fn request_key_refuses_two_tokens() {
    assert_eq!(RequestKey::decode("request/1234"), Err(ParseError));
}

#[test]
fn request_key_round_trip_through_url() {
    let k = RequestKey { id: "98765".to_string() };
    let url = format!("https://build.suse.de/request/show/{}", k.encode());
    assert_eq!(RequestKey::decode(&url).unwrap(), k);
}

#[test]
fn test_key_drops_closing_hash_marks() {
    let k = QAKey::decode("https://openqa.opensuse.org/tests/4321#").unwrap();
    assert_eq!(k.id, "4321");
    let k = QAKey::decode("openqa.opensuse.org/tests/ 77## ").unwrap();
    assert_eq!(k.id, "77");
}

#[test]
fn test_key_round_trip_through_url() {
    let k = QAKey { id: "5555".to_string() };
    let url = format!("https://openqa.opensuse.org/tests/{}", k.encode());
    assert_eq!(QAKey::decode(&url).unwrap(), k);
}

#[test]
fn same_key_compares_fields() {
    assert!(package("a", "b").same_key(&package("a", "b")));
    assert!(!package("a", "b").same_key(&package("a", "c")));
    assert!(!package("a", "b").same_key(&package("b", "b")));
    let r = RequestKey { id: "1".to_string() };
    assert!(r.same_key(&r.duplicate()));
    assert_eq!(package("x", "y").duplicate(), package("x", "y"));
}

//! The build-result domain: packages, keyed by project and package name.
use vstd::prelude::*;
use crate::key::{
    last_two_tokens, lemma_no_newline_concat, lemma_plain_trimmed, lemma_rfind_after,
    lemma_trim_line, lemma_trim_start_no_newline, last_token, plain_field, second_last_token,
    three_tokens, DomainKey, ParseError,
};
use crate::common::{entry_views, prefix_or_empty, prepend_prefix, Subscriber};
use crate::events::{dispatch_outcome, subscribed_rooms, DomainError, Notification};
use crate::text::{cat, contains, contains_seq, str_eq, trim, trim_start, trimmed};

verus! {

#[derive(Debug, Clone, PartialEq, Eq, Hash)]
pub struct PackageKey {
    pub project: String,
    pub package: String,
}

impl DomainKey for PackageKey {
    open spec fn id(&self) -> Seq<Seq<char>> {
        seq![self.project@, self.package@]
    }

    /// `project/package`.
    open spec fn encoding(id: Seq<Seq<char>>) -> Seq<char> {
        id[0] + seq!['/'] + id[1]
    }

    /// The last two `/`-separated tokens of the trimmed line, each trimmed.
    open spec fn decoding(line: Seq<char>) -> Option<Seq<Seq<char>>> {
        let t = trimmed(line);
        if three_tokens(t) {
            Some(seq![trimmed(second_last_token(t)), trimmed(last_token(t))])
        } else {
            None
        }
    }

    fn encode(&self) -> (r: String) {
        let mut r = self.project.clone();
        r.append("/");
        r.append(self.package.as_str());
        proof {
            reveal_strlit("/");
        }
        r
    }

    fn decode(line: &str) -> (r: Result<Self, ParseError>) {
        match last_two_tokens(line) {
            None => Err(ParseError),
            Some((project, package)) => Ok(
                PackageKey {
                    project: String::from_str(trim(project)),
                    package: String::from_str(trim(package)),
                },
            ),
        }
    }

    fn same_key(&self, other: &Self) -> (r: bool) {
        let r = self.project == other.project && self.package == other.package;
        assert(r ==> self.id() =~= other.id());
        assert(self.id() == other.id() ==> self.id()[0] == other.id()[0] && self.id()[1]
            == other.id()[1]);
        r
    }

    fn duplicate(&self) -> (r: Self) {
        PackageKey { project: self.project.clone(), package: self.package.clone() }
    }
}

/// A line that ends in `/` and the canonical text of a key decodes to that
/// key, whatever precedes it on the line, as long as the key's fields are
/// plain.
pub proof fn lemma_package_round_trip(base: Seq<char>, id: Seq<Seq<char>>)
    requires
        id.len() == 2,
        plain_field(id[0]),
        plain_field(id[1]),
        !base.contains('\n'),
    ensures
        PackageKey::decoding(base + seq!['/'] + PackageKey::encoding(id)) == Some(id),
{
    let p = id[0];
    let q = id[1];
    let tail = PackageKey::encoding(id);
    let line = base + seq!['/'] + tail;
    assert(tail.last() == if q.len() > 0 { q.last() } else { '/' });
    lemma_trim_line(base, tail);
    let tb = trim_start(base);
    let t = trimmed(line);
    assert(t =~= (tb + seq!['/'] + p) + seq!['/'] + q);
    lemma_rfind_after(tb + seq!['/'] + p, q);
    lemma_rfind_after(tb, p);
    lemma_trim_start_no_newline(base);
    lemma_no_newline_concat(tb, seq!['/']);
    lemma_no_newline_concat(tb + seq!['/'], p);
    lemma_no_newline_concat(tb + seq!['/'] + p, seq!['/']);
    lemma_no_newline_concat(tb + seq!['/'] + p + seq!['/'], q);
    assert(three_tokens(t));
    lemma_plain_trimmed(p);
    lemma_plain_trimmed(q);
    assert(seq![p, q] =~= id);
}

pub const KEY_BUILD_SUCCESS: &'static str = "obs.package.build_success";

pub const KEY_BUILD_FAIL: &'static str = "obs.package.build_fail";

/// The help entries of this domain, each command behind `prefix`.
pub open spec fn help_entries(prefix: Seq<char>) -> Seq<(Seq<char>, Seq<char>)> {
    seq![
        (prefix + "OBS_PACKAGE_URL"@, "Subscribe to a package. Get notification if build-status changes."@),
        (prefix + "unsub OBS_PACKAGE_URL"@, "Unsubscribe from a package. Get no more notifications."@),
        (prefix + "list packages"@, "List all packages currently subscribed to."@),
    ]
}

pub fn help_str(prefix: Option<&str>) -> (r: Vec<(String, String)>)
    ensures
        entry_views(r@) == help_entries(prefix_or_empty(prefix)),
{
    let without_prefix = [
        ("OBS_PACKAGE_URL", "Subscribe to a package. Get notification if build-status changes."),
        ("unsub OBS_PACKAGE_URL", "Unsubscribe from a package. Get no more notifications."),
        ("list packages", "List all packages currently subscribed to."),
    ];
    let r = prepend_prefix(prefix, &without_prefix);
    assert(entry_views(r@) =~= help_entries(prefix_or_empty(prefix)));
    r
}

/// What a build event says: which package was built where.
#[derive(Debug, Clone)]
pub struct BuildEvent {
    pub project: String,
    pub package: String,
    pub arch: String,
    pub repository: String,
}

/// The change that a routing key reports: the first known suffix it holds.
pub open spec fn build_change(routing_key: Seq<char>) -> Option<Seq<char>> {
    if contains_seq(routing_key, KEY_BUILD_SUCCESS@) {
        Some("succeeded"@)
    } else if contains_seq(routing_key, KEY_BUILD_FAIL@) {
        Some("failed"@)
    } else {
        None
    }
}

pub fn classify_build(routing_key: &str) -> (r: Option<&'static str>)
    ensures
        match r {
            Some(c) => build_change(routing_key@) == Some(c@),
            None => build_change(routing_key@) is None,
        },
{
    if contains(routing_key, KEY_BUILD_SUCCESS) {
        Some("succeeded")
    } else if contains(routing_key, KEY_BUILD_FAIL) {
        Some("failed")
    } else {
        None
    }
}

/// The plain text of a build notification.
pub open spec fn build_plain(e: BuildEvent, change: Seq<char>) -> Seq<char> {
    "Build "@ + change + ": "@ + e.project@ + "/"@ + e.package@ + " ("@ + e.arch@ + " / "@
        + e.repository@ + ")"@
}

/// The HTML of a build notification: a failure is underlined and the package
/// links to its page under `base`.
pub open spec fn build_html(base: Seq<char>, e: BuildEvent, change: Seq<char>) -> Seq<char> {
    "<strong>Build "@ + (if change == "succeeded"@ {
        change
    } else {
        "<u>"@ + change + "</u>"@
    }) + "</strong>: <a href="@ + base + "/"@ + e.project@ + "/"@ + e.package@ + ">"@
        + e.project@ + "/"@ + e.package@ + "</a> ("@ + e.arch@ + " / "@ + e.repository@ + ")"@
}

pub open spec fn event_key_id(e: BuildEvent) -> Seq<Seq<char>> {
    seq![e.project@, e.package@]
}

impl Subscriber<PackageKey> {
    pub fn generate_messages(&self, jsondata: &BuildEvent, changetype: &str) -> (r: (String, String))
        ensures
            r.0@ == build_plain(*jsondata, changetype@),
            r.1@ == build_html(self.base_url(), *jsondata, changetype@),
    {
        let mut plain = cat("Build ", changetype);
        plain.append(": ");
        plain.append(jsondata.project.as_str());
        plain.append("/");
        plain.append(jsondata.package.as_str());
        plain.append(" (");
        plain.append(jsondata.arch.as_str());
        plain.append(" / ");
        plain.append(jsondata.repository.as_str());
        plain.append(")");

        let mut html = String::from_str("<strong>Build ");
        if str_eq(changetype, "succeeded") {
            html.append(changetype);
        } else {
            html.append("<u>");
            html.append(changetype);
            html.append("</u>");
        }
        html.append("</strong>: <a href=");
        let base = self.get_base_url();
        html.append(base.as_str());
        html.append("/");
        html.append(jsondata.project.as_str());
        html.append("/");
        html.append(jsondata.package.as_str());
        html.append(">");
        html.append(jsondata.project.as_str());
        html.append("/");
        html.append(jsondata.package.as_str());
        html.append("</a> (");
        html.append(jsondata.arch.as_str());
        html.append(" / ");
        html.append(jsondata.repository.as_str());
        html.append(")");
        (plain, html)
    }

    /// Decides what to do with a decoded build event: refuse an unknown
    /// routing key, do nothing where nobody follows the package, and
    /// otherwise notify each room that does.
    pub fn delivery_wrapper(&self, routing_key: &str, jsondata: &BuildEvent) -> (r: Result<
        Option<Notification>,
        DomainError,
    >)
        requires
            self.wf(),
        ensures
            dispatch_outcome(
                r,
                self.subscriptions,
                routing_key@,
                build_change(routing_key@),
                event_key_id(*jsondata),
                (
                    build_plain(*jsondata, build_change(routing_key@)->0),
                    build_html(self.base_url(), *jsondata, build_change(routing_key@)->0),
                ),
            ),
    {
        let build_res = match classify_build(routing_key) {
            Some(c) => c,
            None => {
                return Err(
                    DomainError::UnknownRoutingKey { routing_key: String::from_str(routing_key) },
                );
            },
        };
        let key = PackageKey {
            project: jsondata.project.clone(),
            package: jsondata.package.clone(),
        };
        match subscribed_rooms(&self.subscriptions, &key) {
            None => Ok(None),
            Some(rooms) => {
                let (plain, html) = self.generate_messages(jsondata, build_res);
                Ok(Some(Notification { rooms, plain, html }))
            },
        }
    }
}

} // verus!

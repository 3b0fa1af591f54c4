//! The test domain: test runs, keyed by their job number.
use vstd::prelude::*;
use crate::key::{
    last_two_tokens, lemma_no_newline_concat, lemma_plain_trimmed, lemma_rfind_after,
    lemma_trim_line, lemma_trim_start_keeps, lemma_trim_start_no_newline, last_token,
    plain_field, three_tokens, DomainKey, ParseError,
};
use crate::submitrequests::lemma_tokens_from_base;
use crate::common::{entry_views, prefix_or_empty, prepend_prefix, Subscriber};
use crate::events::{decimal, decimal_text, dispatch_outcome, subscribed_rooms, DomainError, Notification};
use crate::text::{cat, contains, contains_seq, str_eq, strip_end, trim, trim_end_char, trim_start, trimmed};

verus! {

#[derive(Debug, Clone, PartialEq, Eq, Hash)]
pub struct QAKey {
    pub id: String,
}

impl DomainKey for QAKey {
    open spec fn id(&self) -> Seq<Seq<char>> {
        seq![self.id@]
    }

    /// The bare job number.
    open spec fn encoding(id: Seq<Seq<char>>) -> Seq<char> {
        id[0]
    }

    /// The last `/`-separated token of the trimmed line, trimmed and without
    /// the `#` marks that close it.
    open spec fn decoding(line: Seq<char>) -> Option<Seq<Seq<char>>> {
        let t = trimmed(line);
        if three_tokens(t) {
            Some(seq![strip_end(trimmed(last_token(t)), '#')])
        } else {
            None
        }
    }

    fn encode(&self) -> (r: String) {
        self.id.clone()
    }

    fn decode(line: &str) -> (r: Result<Self, ParseError>) {
        match last_two_tokens(line) {
            None => Err(ParseError),
            Some((_, last)) => Ok(QAKey { id: String::from_str(trim_end_char(trim(last), '#')) }),
        }
    }

    fn same_key(&self, other: &Self) -> (r: bool) {
        let r = self.id == other.id;
        assert(r ==> self.id() =~= other.id());
        assert(self.id() == other.id() ==> self.id()[0] == other.id()[0]);
        r
    }

    fn duplicate(&self) -> (r: Self) {
        QAKey { id: self.id.clone() }
    }
}

/// A line that ends in `/` and the canonical text of a key decodes to that
/// key, where what precedes holds a `/` of its own and the job number is
/// plain and does not end in `#`.
pub proof fn lemma_test_round_trip(base: Seq<char>, id: Seq<Seq<char>>)
    requires
        id.len() == 1,
        plain_field(id[0]),
        id[0].len() == 0 || id[0].last() != '#',
        !base.contains('\n'),
        base.contains('/'),
    ensures
        QAKey::decoding(base + seq!['/'] + QAKey::encoding(id)) == Some(id),
{
    let q = id[0];
    let line = base + seq!['/'] + q;
    lemma_trim_line(base, q);
    let tb = trim_start(base);
    let t = trimmed(line);
    lemma_rfind_after(tb, q);
    lemma_trim_start_keeps(base, '/');
    lemma_tokens_from_base(tb);
    lemma_trim_start_no_newline(base);
    lemma_no_newline_concat(tb, seq!['/']);
    lemma_no_newline_concat(tb + seq!['/'], q);
    assert(three_tokens(t));
    lemma_plain_trimmed(q);
    assert(strip_end(q, '#') == q);
    assert(seq![q] =~= id);
}

pub const KEY_JOB_DONE: &'static str = "openqa.job.done";

/// The help entries of this domain, each command behind `prefix`.
pub open spec fn help_entries(prefix: Seq<char>) -> Seq<(Seq<char>, Seq<char>)> {
    seq![
        (prefix + "OPENQA_TEST_URL"@, "Subscribe to a test. Get notification if test-status changes."@),
        (prefix + "unsub OPENQA_TEST_URL"@, "Unsubscribe from a test. Get no more notifications."@),
        (prefix + "list tests"@, "List all tests currently subscribed to."@),
    ]
}

pub fn help_str(prefix: Option<&str>) -> (r: Vec<(String, String)>)
    ensures
        entry_views(r@) == help_entries(prefix_or_empty(prefix)),
{
    let without_prefix = [
        ("OPENQA_TEST_URL", "Subscribe to a test. Get notification if test-status changes."),
        ("unsub OPENQA_TEST_URL", "Unsubscribe from a test. Get no more notifications."),
        ("list tests", "List all tests currently subscribed to."),
    ];
    let r = prepend_prefix(prefix, &without_prefix);
    assert(entry_views(r@) =~= help_entries(prefix_or_empty(prefix)));
    r
}

/// What a test event says: the job, its test and how it ended.
#[derive(Debug, Clone)]
pub struct TestEvent {
    pub id: i32,
    pub testname: String,
    pub result: String,
    pub reason: Option<String>,
}

/// The change that a routing key reports.
pub open spec fn test_change(routing_key: Seq<char>) -> Option<Seq<char>> {
    if contains_seq(routing_key, KEY_JOB_DONE@) {
        Some("done"@)
    } else {
        None
    }
}

pub fn classify_test(routing_key: &str) -> (r: Option<&'static str>)
    ensures
        match r {
            Some(c) => test_change(routing_key@) == Some(c@),
            None => test_change(routing_key@) is None,
        },
{
    if contains(routing_key, KEY_JOB_DONE) {
        Some("done")
    } else {
        None
    }
}

pub open spec fn reason_text(e: TestEvent) -> Seq<char> {
    match e.reason {
        Some(x) => " (reason: "@ + x@ + ")"@,
        None => Seq::empty(),
    }
}

pub open spec fn test_plain(e: TestEvent) -> Seq<char> {
    "Test "@ + e.result@ + ": "@ + e.testname@ + " ("@ + decimal_text(e.id as int) + ")"@
        + reason_text(e)
}

/// The HTML of a test notification: a result other than `passed` is
/// underlined and the job links to its page under `base`.
pub open spec fn test_html(base: Seq<char>, e: TestEvent) -> Seq<char> {
    "<strong>Test "@ + (if e.result@ == "passed"@ {
        e.result@
    } else {
        "<u>"@ + e.result@ + "</u>"@
    }) + ":</strong> Test "@ + e.testname@ + " (<a href="@ + base + "/"@ + decimal_text(
        e.id as int,
    ) + ">"@ + decimal_text(e.id as int) + "</a>)"@ + reason_text(e)
}

impl Subscriber<QAKey> {
    pub fn generate_messages(&self, jsondata: &TestEvent) -> (r: (String, String))
        ensures
            r.0@ == test_plain(*jsondata),
            r.1@ == test_html(self.base_url(), *jsondata),
    {
        let reason = match &jsondata.reason {
            Some(x) => {
                let mut t = cat(" (reason: ", x.as_str());
                t.append(")");
                t
            },
            None => String::new(),
        };
        let id = decimal(jsondata.id);
        let result = jsondata.result.as_str();

        let mut plain = cat("Test ", result);
        plain.append(": ");
        plain.append(jsondata.testname.as_str());
        plain.append(" (");
        plain.append(id.as_str());
        plain.append(")");
        plain.append(reason.as_str());

        let mut html = String::from_str("<strong>Test ");
        if str_eq(result, "passed") {
            html.append(result);
        } else {
            html.append("<u>");
            html.append(result);
            html.append("</u>");
        }
        html.append(":</strong> Test ");
        html.append(jsondata.testname.as_str());
        html.append(" (<a href=");
        let base = self.get_base_url();
        html.append(base.as_str());
        html.append("/");
        html.append(id.as_str());
        html.append(">");
        html.append(id.as_str());
        html.append("</a>)");
        html.append(reason.as_str());
        (plain, html)
    }

    /// Decides what to do with a decoded test event: refuse an unknown
    /// routing key, do nothing where nobody follows the job, and otherwise
    /// notify each room that does.
    pub fn delivery_wrapper(&self, routing_key: &str, jsondata: &TestEvent) -> (r: Result<
        Option<Notification>,
        DomainError,
    >)
        requires
            self.wf(),
        ensures
            dispatch_outcome(
                r,
                self.subscriptions,
                routing_key@,
                test_change(routing_key@),
                seq![decimal_text(jsondata.id as int)],
                (test_plain(*jsondata), test_html(self.base_url(), *jsondata)),
            ),
    {
        if classify_test(routing_key).is_none() {
            return Err(
                DomainError::UnknownRoutingKey { routing_key: String::from_str(routing_key) },
            );
        }
        let key = QAKey { id: decimal(jsondata.id) };
        match subscribed_rooms(&self.subscriptions, &key) {
            None => Ok(None),
            Some(rooms) => {
                let (plain, html) = self.generate_messages(jsondata);
                Ok(Some(Notification { rooms, plain, html }))
            },
        }
    }
}

} // verus!

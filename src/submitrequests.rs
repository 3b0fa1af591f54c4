//! The review-request domain: requests, keyed by their number.
use vstd::prelude::*;
use crate::key::{
    last_two_tokens, lemma_no_newline_concat, lemma_plain_trimmed, lemma_rfind_after,
    lemma_trim_line, lemma_trim_start_keeps, lemma_trim_start_no_newline, last_token,
    plain_field, three_tokens, DomainKey, ParseError,
};
use crate::common::{entry_views, prefix_or_empty, prepend_prefix, Subscriber};
use crate::events::{decimal, decimal_text, dispatch_outcome, subscribed_rooms, DomainError, Notification};
use crate::text::{cat, contains, contains_seq, rfind, str_eq, trim, trim_start, trimmed};

verus! {

#[derive(Debug, Clone, PartialEq, Eq, Hash)]
pub struct RequestKey {
    pub id: String,
}

impl DomainKey for RequestKey {
    open spec fn id(&self) -> Seq<Seq<char>> {
        seq![self.id@]
    }

    /// The bare number.
    open spec fn encoding(id: Seq<Seq<char>>) -> Seq<char> {
        id[0]
    }

    /// The last `/`-separated token of the trimmed line, trimmed.
    open spec fn decoding(line: Seq<char>) -> Option<Seq<Seq<char>>> {
        let t = trimmed(line);
        if three_tokens(t) {
            Some(seq![trimmed(last_token(t))])
        } else {
            None
        }
    }

    fn encode(&self) -> (r: String) {
        self.id.clone()
    }

    fn decode(line: &str) -> (r: Result<Self, ParseError>) {
        match last_two_tokens(line) {
            None => Err(ParseError),
            Some((_, last)) => Ok(RequestKey { id: String::from_str(trim(last)) }),
        }
    }

    fn same_key(&self, other: &Self) -> (r: bool) {
        let r = self.id == other.id;
        assert(r ==> self.id() =~= other.id());
        assert(self.id() == other.id() ==> self.id()[0] == other.id()[0]);
        r
    }

    fn duplicate(&self) -> (r: Self) {
        RequestKey { id: self.id.clone() }
    }
}

/// A line that ends in `/` and the canonical text of a key decodes to that
/// key, where what precedes holds a `/` of its own and the number is plain.
pub proof fn lemma_request_round_trip(base: Seq<char>, id: Seq<Seq<char>>)
    requires
        id.len() == 1,
        plain_field(id[0]),
        !base.contains('\n'),
        base.contains('/'),
    ensures
        RequestKey::decoding(base + seq!['/'] + RequestKey::encoding(id)) == Some(id),
{
    let q = id[0];
    let line = base + seq!['/'] + q;
    lemma_trim_line(base, q);
    let tb = trim_start(base);
    let t = trimmed(line);
    lemma_rfind_after(tb, q);
    lemma_trim_start_keeps(base, '/');
    lemma_tokens_from_base(tb);
    lemma_trim_start_no_newline(base);
    lemma_no_newline_concat(tb, seq!['/']);
    lemma_no_newline_concat(tb + seq!['/'], q);
    assert(three_tokens(t));
    lemma_plain_trimmed(q);
    assert(seq![q] =~= id);
}

/// Text that holds a `/` has a last one.
pub proof fn lemma_tokens_from_base(s: Seq<char>)
    requires
        s.contains('/'),
    ensures
        rfind(s, '/') >= 0,
    decreases s.len(),
{
    if s.last() != '/' {
        assert(s.drop_last().contains('/')) by {
            let i = choose|i: int| 0 <= i < s.len() && s[i] == '/';
            assert(s.drop_last()[i] == '/');
        }
        lemma_tokens_from_base(s.drop_last());
    }
}

pub const KEY_REQUEST_CHANGE: &'static str = "obs.request.change";

pub const KEY_REQUEST_STATECHANGE: &'static str = "obs.request.state_change";

pub const KEY_REQUEST_DELETE: &'static str = "obs.request.delete";

pub const KEY_REQUEST_COMMENT: &'static str = "obs.request.comment";

/// The help entries of this domain, each command behind `prefix`.
pub open spec fn help_entries(prefix: Seq<char>) -> Seq<(Seq<char>, Seq<char>)> {
    seq![
        (prefix + "OBS_REQUEST_URL"@, "Subscribe to a SR/MR. Get notification if state changes."@),
        (prefix + "unsub OBS_REQUEST_URL"@, "Unsubscribe from a SR/MR. Get no more notifications."@),
        (prefix + "list requests"@, "List all requests currently subscribed to."@),
    ]
}

pub fn help_str(prefix: Option<&str>) -> (r: Vec<(String, String)>)
    ensures
        entry_views(r@) == help_entries(prefix_or_empty(prefix)),
{
    let without_prefix = [
        ("OBS_REQUEST_URL", "Subscribe to a SR/MR. Get notification if state changes."),
        ("unsub OBS_REQUEST_URL", "Unsubscribe from a SR/MR. Get no more notifications."),
        ("list requests", "List all requests currently subscribed to."),
    ];
    let r = prepend_prefix(prefix, &without_prefix);
    assert(entry_views(r@) =~= help_entries(prefix_or_empty(prefix)));
    r
}

/// What a request event says: the request's number and state, and the
/// comment that came with the change.
#[derive(Debug, Clone)]
pub struct RequestEvent {
    pub state: String,
    pub number: i32,
    pub comment: Option<String>,
    pub comment_body: Option<String>,
    pub commenter: Option<String>,
}

/// The change that a routing key reports: the first known suffix it holds.
pub open spec fn request_change(routing_key: Seq<char>) -> Option<Seq<char>> {
    if contains_seq(routing_key, KEY_REQUEST_CHANGE@) {
        Some("changed by admin"@)
    } else if contains_seq(routing_key, KEY_REQUEST_STATECHANGE@) {
        Some("changed"@)
    } else if contains_seq(routing_key, KEY_REQUEST_DELETE@) {
        Some("deleted"@)
    } else if contains_seq(routing_key, KEY_REQUEST_COMMENT@) {
        Some("commented"@)
    } else {
        None
    }
}

pub fn classify_request(routing_key: &str) -> (r: Option<&'static str>)
    ensures
        match r {
            Some(c) => request_change(routing_key@) == Some(c@),
            None => request_change(routing_key@) is None,
        },
{
    if contains(routing_key, KEY_REQUEST_CHANGE) {
        Some("changed by admin")
    } else if contains(routing_key, KEY_REQUEST_STATECHANGE) {
        Some("changed")
    } else if contains(routing_key, KEY_REQUEST_DELETE) {
        Some("deleted")
    } else if contains(routing_key, KEY_REQUEST_COMMENT) {
        Some("commented")
    } else {
        None
    }
}

pub open spec fn opt_text(o: Option<String>) -> Seq<char> {
    match o {
        Some(s) => s@,
        None => Seq::empty(),
    }
}

/// The comment shown with a change: for a comment, who wrote it and what;
/// otherwise the comment of the change, if any.
pub open spec fn comment_field(e: RequestEvent, change: Seq<char>) -> Seq<char> {
    if change == "commented"@ {
        (match e.commenter {
            Some(c) => c@ + ": "@,
            None => Seq::empty(),
        }) + opt_text(e.comment_body)
    } else {
        opt_text(e.comment)
    }
}

pub open spec fn request_plain(e: RequestEvent, change: Seq<char>) -> Seq<char> {
    "Request "@ + decimal_text(e.number as int) + " was "@ + change + ". Status: "@ + e.state@
        + " ("@ + comment_field(e, change) + ")"@
}

/// The HTML of a request notification: the request links to its page under
/// `base`, the state is bold and a comment follows on a line of its own.
pub open spec fn request_html(base: Seq<char>, e: RequestEvent, change: Seq<char>) -> Seq<char> {
    "<a href="@ + base + "/"@ + decimal_text(e.number as int) + ">Request "@ + decimal_text(
        e.number as int,
    ) + "</a> was "@ + change + ". Status <strong>"@ + e.state@ + "</strong> "@ + if comment_field(
        e,
        change,
    ).len() == 0 {
        Seq::empty()
    } else {
        "<br>"@ + comment_field(e, change)
    }
}

fn append_opt(s: &mut String, o: &Option<String>)
    ensures
        final(s)@ == old(s)@ + opt_text(*o),
{
    match o {
        Some(t) => s.append(t.as_str()),
        None => {
            assert(old(s)@ + Seq::<char>::empty() =~= old(s)@);
        },
    }
}

impl Subscriber<RequestKey> {
    pub fn generate_messages(&self, jsondata: &RequestEvent, changetype: &str) -> (r: (
        String,
        String,
    ))
        ensures
            r.0@ == request_plain(*jsondata, changetype@),
            r.1@ == request_html(self.base_url(), *jsondata, changetype@),
    {
        let mut commentfield = String::new();
        if str_eq(changetype, "commented") {
            match &jsondata.commenter {
                Some(c) => {
                    commentfield.append(c.as_str());
                    commentfield.append(": ");
                },
                None => {},
            }
            append_opt(&mut commentfield, &jsondata.comment_body);
            assert(commentfield@ =~= comment_field(*jsondata, changetype@));
        } else {
            append_opt(&mut commentfield, &jsondata.comment);
            assert(commentfield@ =~= comment_field(*jsondata, changetype@));
        }
        let number = decimal(jsondata.number);

        let mut plain = cat("Request ", number.as_str());
        plain.append(" was ");
        plain.append(changetype);
        plain.append(". Status: ");
        plain.append(jsondata.state.as_str());
        plain.append(" (");
        plain.append(commentfield.as_str());
        plain.append(")");

        let mut html = String::from_str("<a href=");
        let base = self.get_base_url();
        html.append(base.as_str());
        html.append("/");
        html.append(number.as_str());
        html.append(">Request ");
        html.append(number.as_str());
        html.append("</a> was ");
        html.append(changetype);
        html.append(". Status <strong>");
        html.append(jsondata.state.as_str());
        html.append("</strong> ");
        if commentfield.unicode_len() > 0 {
            html.append("<br>");
            html.append(commentfield.as_str());
        } else {
            assert(html@ + Seq::<char>::empty() =~= html@);
        }
        (plain, html)
    }

    /// Decides what to do with a decoded request event: refuse an unknown
    /// routing key, do nothing where nobody follows the request, and
    /// otherwise notify each room that does.
    pub fn delivery_wrapper(&self, routing_key: &str, jsondata: &RequestEvent) -> (r: Result<
        Option<Notification>,
        DomainError,
    >)
        requires
            self.wf(),
        ensures
            dispatch_outcome(
                r,
                self.subscriptions,
                routing_key@,
                request_change(routing_key@),
                seq![decimal_text(jsondata.number as int)],
                (
                    request_plain(*jsondata, request_change(routing_key@)->0),
                    request_html(self.base_url(), *jsondata, request_change(routing_key@)->0),
                ),
            ),
    {
        let changetype = match classify_request(routing_key) {
            Some(c) => c,
            None => {
                return Err(
                    DomainError::UnknownRoutingKey { routing_key: String::from_str(routing_key) },
                );
            },
        };
        let key = RequestKey { id: decimal(jsondata.number) };
        match subscribed_rooms(&self.subscriptions, &key) {
            None => Ok(None),
            Some(rooms) => {
                let (plain, html) = self.generate_messages(jsondata, changetype);
                Ok(Some(Notification { rooms, plain, html }))
            },
        }
    }
}

} // verus!

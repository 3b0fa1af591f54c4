//! The chat front end of one domain: which lines of a message are commands
//! for it, what they do to its registry and what the bot answers.
use vstd::prelude::*;
use crate::key::DomainKey;
use crate::registry::{is_listing, sorted_by_encoding, subscribed, unsubscribed, Model, Registry};
use crate::text::{
    cat, contains, contains_seq, is_prefix, joined, lemma_lex_antisym, lex_le, lines_of,
    split_lines, starts_with, str_eq, trim, trimmed,
};

verus! {

/// Where one backend lives: its domain and the host prefixes and broker
/// scope derived from it.
#[derive(Debug, Clone)]
pub struct ConnectionDetails {
    pub domain: String,
    pub login: String,
    pub buildprefix: String,
    pub rabbitprefix: String,
    pub rabbitscope: String,
}

#[derive(Debug, Clone, Copy, PartialEq, Eq, Structural)]
pub enum ScanLineResult {
    NotForMe,
    ListCommand,
    PossiblyForMe,
}

/// An answer to a room: plain text, and an HTML body where there is one.
#[derive(Debug, Clone)]
pub struct Reply {
    pub plain: String,
    pub html: Option<String>,
}

pub type ReplyView = (Seq<char>, Option<Seq<char>>);

impl View for Reply {
    type V = ReplyView;

    open spec fn view(&self) -> ReplyView {
        (
            self.plain@,
            match self.html {
                Some(h) => Some(h@),
                None => None,
            },
        )
    }
}

pub open spec fn opt_reply_view(r: Option<Reply>) -> Option<ReplyView> {
    match r {
        Some(x) => Some(x@),
        None => None,
    }
}

pub open spec fn prefix_text(p: Option<String>) -> Seq<char> {
    match p {
        Some(s) => s@,
        None => Seq::empty(),
    }
}

/// `https://{buildprefix}.{domain}/{subtype}` and, but for the test
/// domain's host, `/show`.
pub open spec fn base_url_text(buildprefix: Seq<char>, domain: Seq<char>, subtype: Seq<char>) -> Seq<
    char,
> {
    "https://"@ + buildprefix + "."@ + domain + "/"@ + subtype + if buildprefix == "openqa"@ {
        Seq::empty()
    } else {
        "/show"@
    }
}

/// What follows the prefix on a line, trimmed.
pub open spec fn command_text(prefix: Seq<char>, line: Seq<char>) -> Seq<char> {
    trimmed(line.subrange(prefix.len() as int, line.len() as int))
}

pub open spec fn scan_text(prefix: Seq<char>, domain: Seq<char>, subtype: Seq<char>, line: Seq<char>) -> ScanLineResult {
    if !is_prefix(prefix, line) {
        ScanLineResult::NotForMe
    } else if is_prefix("list "@ + subtype, command_text(prefix, line)) {
        ScanLineResult::ListCommand
    } else if contains_seq(command_text(prefix, line), domain + "/"@ + subtype + "/"@) {
        ScanLineResult::PossiblyForMe
    } else {
        ScanLineResult::NotForMe
    }
}

pub open spec fn parse_error_text() -> Seq<char> {
    "Sorry, I could not parse that. Please post a submitrequest URL"@
}

pub open spec fn subscribe_text(enc: Seq<char>, domain: Seq<char>) -> Seq<char> {
    "Subscribing to "@ + enc + " on "@ + domain
}

pub open spec fn unsubscribe_text(enc: Seq<char>, domain: Seq<char>) -> Seq<char> {
    "Unsubscribing room from "@ + enc + " on "@ + domain
}

pub open spec fn not_subscribed_text(enc: Seq<char>) -> Seq<char> {
    "Was not subscribed to "@ + enc
}

/// A link to the key's page, showing the key.
pub open spec fn link_text(base: Seq<char>, enc: Seq<char>) -> Seq<char> {
    "<a href="@ + base + "/"@ + enc + ">"@ + enc + "</a>"@
}

pub open spec fn encodings<K: DomainKey>(ks: Seq<K>) -> Seq<Seq<char>> {
    Seq::new(ks.len(), |i: int| K::encoding(ks[i].id()))
}

pub open spec fn links(base: Seq<char>, encs: Seq<Seq<char>>) -> Seq<Seq<char>> {
    Seq::new(encs.len(), |i: int| link_text(base, encs[i]))
}

pub open spec fn list_body(base: Seq<char>, encs: Seq<Seq<char>>, sep: Seq<char>) -> Seq<char> {
    if encs.len() == 0 {
        "No subscriptions found"@
    } else {
        joined(links(base, encs), sep)
    }
}

/// The answer to a list command: the links to the keys, in the given order.
pub open spec fn list_reply_text(domain: Seq<char>, base: Seq<char>, encs: Seq<Seq<char>>) -> ReplyView {
    (
        "On "@ + domain + ": "@ + list_body(base, encs, ", "@),
        Some("On "@ + domain + ":<br>"@ + list_body(base, encs, "<br>"@)),
    )
}

pub open spec fn plain_reply(t: Seq<char>) -> ReplyView {
    (t, None)
}

fn plain(t: String) -> (r: Reply)
    ensures
        r@ == plain_reply(t@),
{
    Reply { plain: t, html: None }
}

pub struct Subscriber<K> {
    pub server_details: ConnectionDetails,
    pub subscriptions: Registry<K>,
    pub prefix: Option<String>,
    pub subtype: String,
}

impl<K: DomainKey> Subscriber<K> {
    pub open spec fn wf(&self) -> bool {
        self.subscriptions.wf()
    }

    /// The two subscribers differ at most in their subscriptions.
    pub open spec fn same_config(&self, other: &Self) -> bool {
        &&& self.server_details == other.server_details
        &&& self.prefix == other.prefix
        &&& self.subtype == other.subtype
    }

    pub open spec fn base_url(&self) -> Seq<char> {
        base_url_text(self.server_details.buildprefix@, self.server_details.domain@, self.subtype@)
    }

    pub open spec fn scan(&self, line: Seq<char>) -> ScanLineResult {
        scan_text(prefix_text(self.prefix), self.server_details.domain@, self.subtype@, line)
    }

    pub open spec fn command(&self, line: Seq<char>) -> Seq<char> {
        command_text(prefix_text(self.prefix), line)
    }

    /// What a line does to the registry `m`.
    pub open spec fn line_effect(&self, m: Model, line: Seq<char>, room: Seq<char>) -> Model {
        if self.scan(line) == ScanLineResult::PossiblyForMe {
            match K::decoding(self.command(line)) {
                None => m,
                Some(id) => if is_prefix("unsub"@, self.command(line)) {
                    unsubscribed(m, id, room)
                } else {
                    subscribed(m, id, room)
                },
            }
        } else {
            m
        }
    }

    /// `r` is the answer to a line, given the registry `m` before it.
    pub open spec fn line_reply(
        &self,
        m: Model,
        line: Seq<char>,
        room: Seq<char>,
        r: Option<ReplyView>,
    ) -> bool {
        let domain = self.server_details.domain@;
        match self.scan(line) {
            ScanLineResult::NotForMe => r is None,
            ScanLineResult::ListCommand => exists|ks: Seq<K>|
                is_listing(m, room, ks) && r == Some(
                    list_reply_text(domain, self.base_url(), encodings(ks)),
                ),
            ScanLineResult::PossiblyForMe => match K::decoding(self.command(line)) {
                None => r == Some(plain_reply(parse_error_text())),
                Some(id) => if is_prefix("unsub"@, self.command(line)) {
                    if m.contains_key(id) {
                        r == Some(plain_reply(unsubscribe_text(K::encoding(id), domain)))
                    } else {
                        r == Some(plain_reply(not_subscribed_text(K::encoding(id))))
                    }
                } else {
                    r == Some(plain_reply(subscribe_text(K::encoding(id), domain)))
                },
            },
        }
    }

    /// The registry after the lines, in order.
    pub open spec fn message_effect(&self, m: Model, lines: Seq<Seq<char>>, room: Seq<char>) -> Model
        decreases lines.len(),
    {
        if lines.len() == 0 {
            m
        } else {
            self.line_effect(self.message_effect(m, lines.drop_last(), room), lines.last(), room)
        }
    }

    pub fn new(server_details: ConnectionDetails, prefix: Option<String>, subtype: String) -> (r: Self)
        ensures
            r.wf(),
            r.subscriptions@ == Model::empty(),
            r.server_details == server_details,
            r.prefix == prefix,
            r.subtype == subtype,
    {
        Subscriber { server_details, subscriptions: Registry::new(), prefix, subtype }
    }

    pub fn get_base_url(&self) -> (r: String)
        ensures
            r@ == self.base_url(),
    {
        let bp = self.server_details.buildprefix.as_str();
        let mut r = cat("https://", bp);
        r.append(".");
        r.append(self.server_details.domain.as_str());
        r.append("/");
        r.append(self.subtype.as_str());
        if !str_eq(bp, "openqa") {
            r.append("/show");
        } else {
            proof {
                reveal_strlit("");
            }
            assert(r@ + Seq::<char>::empty() =~= r@);
        }
        r
    }

    fn prefix_str(&self) -> (r: &str)
        ensures
            r@ == prefix_text(self.prefix),
    {
        match &self.prefix {
            Some(p) => p.as_str(),
            None => {
                proof {
                    reveal_strlit("");
                }
                assert(""@ =~= Seq::<char>::empty());
                ""
            },
        }
    }

    /// The line after the prefix, trimmed, where the line begins with it.
    fn command_of<'a>(&self, line: &'a str) -> (r: &'a str)
        requires
            is_prefix(prefix_text(self.prefix), line@),
        ensures
            r@ == self.command(line@),
    {
        let p = self.prefix_str();
        let n = line.unicode_len();
        let k = p.unicode_len();
        trim(line.substring_char(k, n))
    }

    pub fn scan_line(&self, line: &str) -> (r: ScanLineResult)
        ensures
            r == self.scan(line@),
    {
        let p = self.prefix_str();
        if !starts_with(line, p) {
            return ScanLineResult::NotForMe;
        }
        let rest = self.command_of(line);
        let list = cat("list ", self.subtype.as_str());
        if starts_with(rest, list.as_str()) {
            return ScanLineResult::ListCommand;
        }
        let mut search_url = cat(self.server_details.domain.as_str(), "/");
        search_url.append(self.subtype.as_str());
        search_url.append("/");
        if !contains(rest, search_url.as_str()) {
            return ScanLineResult::NotForMe;
        }
        ScanLineResult::PossiblyForMe
    }

    /// Subscribes `room` to `key` and returns the confirmation.
    pub fn subscribe(&mut self, key: K, room: &str) -> (r: String)
        requires
            old(self).wf(),
        ensures
            final(self).wf(),
            final(self).same_config(old(self)),
            final(self).subscriptions@ == subscribed(old(self).subscriptions@, key.id(), room@),
            r@ == subscribe_text(K::encoding(key.id()), old(self).server_details.domain@),
    {
        let enc = key.encode();
        self.subscriptions.subscribe(key, room);
        let mut r = cat("Subscribing to ", enc.as_str());
        r.append(" on ");
        r.append(self.server_details.domain.as_str());
        r
    }

    /// Unsubscribes `room` from `key` and returns the confirmation, which
    /// says so where nobody was subscribed to the key.
    pub fn unsubscribe(&mut self, key: K, room: &str) -> (r: String)
        requires
            old(self).wf(),
        ensures
            final(self).wf(),
            final(self).same_config(old(self)),
            final(self).subscriptions@ == unsubscribed(old(self).subscriptions@, key.id(), room@),
            r@ == if old(self).subscriptions@.contains_key(key.id()) {
                unsubscribe_text(K::encoding(key.id()), old(self).server_details.domain@)
            } else {
                not_subscribed_text(K::encoding(key.id()))
            },
    {
        let enc = key.encode();
        if self.subscriptions.unsubscribe(&key, room) {
            let mut r = cat("Unsubscribing room from ", enc.as_str());
            r.append(" on ");
            r.append(self.server_details.domain.as_str());
            r
        } else {
            cat("Was not subscribed to ", enc.as_str())
        }
    }

    /// The answer to a list command: links to the keys that `room` is
    /// subscribed to, sorted by their canonical text.
    pub fn list_keys(&self, room: &str) -> (r: Reply)
        requires
            self.wf(),
        ensures
            exists|ks: Seq<K>|
                is_listing(self.subscriptions@, room@, ks) && r@ == list_reply_text(
                    self.server_details.domain@,
                    self.base_url(),
                    encodings(ks),
                ),
    {
        let keys = self.subscriptions.list(room);
        let base = self.get_base_url();
        let ghost ls = links(base@, encodings(keys@));
        let mut plain_body = String::new();
        let mut html_body = String::new();
        let mut i: usize = 0;
        while i < keys.len()
            invariant
                i <= keys@.len(),
                ls == links(base@, encodings(keys@)),
                plain_body@ == joined(ls.subrange(0, i as int), ", "@),
                html_body@ == joined(ls.subrange(0, i as int), "<br>"@),
            decreases keys@.len() - i,
        {
            let enc = keys[i].encode();
            let mut link = cat("<a href=", base.as_str());
            link.append("/");
            link.append(enc.as_str());
            link.append(">");
            link.append(enc.as_str());
            link.append("</a>");
            assert(link@ == ls[i as int]);
            assert(ls.subrange(0, i + 1).drop_last() =~= ls.subrange(0, i as int));
            if i > 0 {
                plain_body.append(", ");
                html_body.append("<br>");
            } else {
                assert(plain_body@ == Seq::<char>::empty());
                assert(html_body@ == Seq::<char>::empty());
                assert(plain_body@ + link@ =~= link@);
                assert(html_body@ + link@ =~= link@);
            }
            plain_body.append(link.as_str());
            html_body.append(link.as_str());
            i += 1;
        }
        assert(ls.subrange(0, keys@.len() as int) =~= ls);
        if keys.len() == 0 {
            plain_body = String::from_str("No subscriptions found");
            html_body = String::from_str("No subscriptions found");
        }
        let domain = self.server_details.domain.as_str();
        let mut plain = cat("On ", domain);
        plain.append(": ");
        plain.append(plain_body.as_str());
        let mut html = cat("On ", domain);
        html.append(":<br>");
        html.append(html_body.as_str());
        Reply { plain, html: Some(html) }
    }

    /// Handles one line of a message from `room` and returns the answer, if
    /// the line is for this domain.
    pub fn handle_line(&mut self, line: &str, room: &str) -> (r: Option<Reply>)
        requires
            old(self).wf(),
        ensures
            final(self).wf(),
            final(self).same_config(old(self)),
            final(self).subscriptions@ == old(self).line_effect(
                old(self).subscriptions@,
                line@,
                room@,
            ),
            old(self).line_reply(old(self).subscriptions@, line@, room@, opt_reply_view(r)),
    {
        match self.scan_line(line) {
            ScanLineResult::NotForMe => None,
            ScanLineResult::ListCommand => Some(self.list_keys(room)),
            ScanLineResult::PossiblyForMe => {
                let rest = self.command_of(line);
                match K::decode(rest) {
                    Err(_) => Some(
                        plain(
                            String::from_str(
                                "Sorry, I could not parse that. Please post a submitrequest URL",
                            ),
                        ),
                    ),
                    Ok(key) => {
                        if starts_with(rest, "unsub") {
                            Some(plain(self.unsubscribe(key, room)))
                        } else {
                            Some(plain(self.subscribe(key, room)))
                        }
                    },
                }
            },
        }
    }

    /// Handles each line of a message from `room` in turn; the answer to the
    /// line at each index, if any, stands at that index.
    pub fn handle_message_helper(&mut self, message: &str, room: &str) -> (r: Vec<Option<Reply>>)
        requires
            old(self).wf(),
        ensures
            final(self).wf(),
            final(self).same_config(old(self)),
            final(self).subscriptions@ == old(self).message_effect(
                old(self).subscriptions@,
                lines_of(message@),
                room@,
            ),
            r@.len() == lines_of(message@).len(),
            forall|k: int|
                0 <= k < r@.len() ==> old(self).line_reply(
                    old(self).message_effect(
                        old(self).subscriptions@,
                        lines_of(message@).subrange(0, k),
                        room@,
                    ),
                    lines_of(message@)[k],
                    room@,
                    opt_reply_view(#[trigger] r@[k]),
                ),
    {
        let ghost s0 = *self;
        let ghost ls = lines_of(message@);
        let lines = split_lines(message);
        let mut out: Vec<Option<Reply>> = Vec::new();
        let mut i: usize = 0;
        assert(ls.subrange(0, 0) =~= Seq::<Seq<char>>::empty());
        while i < lines.len()
            invariant
                self.wf(),
                self.same_config(&s0),
                s0.wf(),
                ls == lines_of(message@),
                lines@.len() == ls.len(),
                forall|k: int| 0 <= k < lines@.len() ==> #[trigger] lines@[k]@ == ls[k],
                i <= ls.len(),
                out@.len() == i,
                self.subscriptions@ == s0.message_effect(
                    s0.subscriptions@,
                    ls.subrange(0, i as int),
                    room@,
                ),
                forall|k: int|
                    0 <= k < i ==> s0.line_reply(
                        s0.message_effect(s0.subscriptions@, ls.subrange(0, k), room@),
                        ls[k],
                        room@,
                        opt_reply_view(#[trigger] out@[k]),
                    ),
            decreases ls.len() - i,
        {
            let ghost before = *self;
            assert(lines@[i as int]@ == ls[i as int]);
            let r = self.handle_line(lines[i].as_str(), room);
            proof {
                assert(ls.subrange(0, i + 1).drop_last() =~= ls.subrange(0, i as int));
                assert(before.line_effect(before.subscriptions@, ls[i as int], room@)
                    == s0.line_effect(before.subscriptions@, ls[i as int], room@));
                assert(before.line_reply(before.subscriptions@, ls[i as int], room@, opt_reply_view(r))
                    == s0.line_reply(before.subscriptions@, ls[i as int], room@, opt_reply_view(r)));
            }
            out.push(r);
            i += 1;
        }
        assert(ls.subrange(0, ls.len() as int) =~= ls);
        out
    }

    /// What a line of preset subscriptions does to the registry `m`: it only
    /// ever subscribes.
    pub open spec fn default_effect(&self, m: Model, line: Seq<char>, room: Seq<char>) -> Model {
        if self.scan(line) == ScanLineResult::PossiblyForMe {
            match K::decoding(self.command(line)) {
                Some(id) => if is_prefix("unsub"@, self.command(line)) {
                    m
                } else {
                    subscribed(m, id, room)
                },
                None => m,
            }
        } else {
            m
        }
    }

    pub open spec fn defaults_effect(&self, m: Model, lines: Seq<Seq<char>>, room: Seq<char>) -> Model
        decreases lines.len(),
    {
        if lines.len() == 0 {
            m
        } else {
            self.default_effect(self.defaults_effect(m, lines.drop_last(), room), lines.last(), room)
        }
    }

    /// Subscribes `room` to each key that a line of `message` names, without
    /// answering; lists and unsubscriptions are passed over.
    pub fn subscribe_to_defaults(&mut self, message: &str, room: &str)
        requires
            old(self).wf(),
        ensures
            final(self).wf(),
            final(self).same_config(old(self)),
            final(self).subscriptions@ == old(self).defaults_effect(
                old(self).subscriptions@,
                lines_of(message@),
                room@,
            ),
    {
        let ghost s0 = *self;
        let ghost ls = lines_of(message@);
        let lines = split_lines(message);
        let mut i: usize = 0;
        assert(ls.subrange(0, 0) =~= Seq::<Seq<char>>::empty());
        while i < lines.len()
            invariant
                self.wf(),
                self.same_config(&s0),
                ls == lines_of(message@),
                lines@.len() == ls.len(),
                forall|k: int| 0 <= k < lines@.len() ==> #[trigger] lines@[k]@ == ls[k],
                i <= ls.len(),
                self.subscriptions@ == s0.defaults_effect(
                    s0.subscriptions@,
                    ls.subrange(0, i as int),
                    room@,
                ),
            decreases ls.len() - i,
        {
            let line = lines[i].as_str();
            assert(line@ == ls[i as int]);
            assert(ls.subrange(0, i + 1).drop_last() =~= ls.subrange(0, i as int));
            if self.scan_line(line) == ScanLineResult::PossiblyForMe {
                let rest = self.command_of(line);
                match K::decode(rest) {
                    Ok(key) => {
                        if !starts_with(rest, "unsub") {
                            self.subscribe(key, room);
                        }
                    },
                    Err(_) => {},
                }
            }
            i += 1;
        }
        assert(ls.subrange(0, ls.len() as int) =~= ls);
    }

    /// Whether the broker binding is to be made now: at once under the eager
    /// policy, and under the lazy one once a subscription exists.
    pub fn needs_binding(&self, policy: BindingPolicy, bound: bool) -> (r: bool)
        requires
            self.wf(),
        ensures
            r == (!bound && (policy == BindingPolicy::Eager || self.subscriptions@ != Model::empty())),
    {
        if bound {
            return false;
        }
        match policy {
            BindingPolicy::Eager => true,
            BindingPolicy::Lazy => !self.subscriptions.is_empty(),
        }
    }
}

/// When a domain binds its queue to the broker.
#[derive(Debug, Clone, Copy, PartialEq, Eq, Structural)]
pub enum BindingPolicy {
    /// At start-up.
    Eager,
    /// On the first subscription.
    Lazy,
}

/// The binding pattern of each routing-key suffix: `{scope}.{suffix}`.
pub fn binding_patterns(details: &ConnectionDetails, subnames: &[&str]) -> (r: Vec<String>)
    ensures
        r@.len() == subnames@.len(),
        forall|i: int|
            0 <= i < r@.len() ==> #[trigger] r@[i]@ == details.rabbitscope@ + "."@ + subnames@[i]@,
{
    let mut out: Vec<String> = Vec::new();
    let mut i: usize = 0;
    while i < subnames.len()
        invariant
            i <= subnames@.len(),
            out@.len() == i,
            forall|k: int|
                0 <= k < i ==> #[trigger] out@[k]@ == details.rabbitscope@ + "."@ + subnames@[k]@,
        decreases subnames@.len() - i,
    {
        let mut p = cat(details.rabbitscope.as_str(), ".");
        p.append(subnames[i]);
        out.push(p);
        i += 1;
    }
    out
}

/// Help entries as pairs of texts.
pub open spec fn entry_views(v: Seq<(String, String)>) -> Seq<(Seq<char>, Seq<char>)> {
    Seq::new(v.len(), |i: int| (v[i].0@, v[i].1@))
}

/// The prefix, or nothing.
pub open spec fn prefix_or_empty(prefix: Option<&str>) -> Seq<char> {
    match prefix {
        Some(p) => p@,
        None => Seq::empty(),
    }
}

/// Each help entry with the command prefix put before its command.
pub fn prepend_prefix(prefix: Option<&str>, without_prefix: &[(&str, &str)]) -> (r: Vec<(String, String)>)
    ensures
        r@.len() == without_prefix@.len(),
        forall|i: int|
            0 <= i < r@.len() ==> (#[trigger] r@[i]).0@ == prefix_or_empty(prefix)
                + without_prefix@[i].0@ && r@[i].1@ == without_prefix@[i].1@,
{
    let p = match prefix {
        Some(p) => p,
        None => {
            proof {
                reveal_strlit("");
            }
            ""
        },
    };
    assert(p@ == prefix_or_empty(prefix));
    let mut res: Vec<(String, String)> = Vec::new();
    let mut i: usize = 0;
    while i < without_prefix.len()
        invariant
            i <= without_prefix@.len(),
            res@.len() == i,
            forall|k: int|
                0 <= k < i ==> (#[trigger] res@[k]).0@ == p@ + without_prefix@[k].0@ && res@[k].1@
                    == without_prefix@[k].1@,
        decreases without_prefix@.len() - i,
    {
        let (key, text) = without_prefix[i];
        res.push((cat(p, key), String::from_str(text)));
        i += 1;
    }
    res
}

} // verus!

verus! {

/// A key with identity `x` stands in `ks`.
pub open spec fn key_listed<K: DomainKey>(ks: Seq<K>, x: Seq<Seq<char>>) -> bool {
    exists|k: int| 0 <= k < ks.len() && ks[k].id() == x
}

proof fn lemma_sorted_equal_prefix<K: DomainKey>(b: Seq<K>, j: int, k: int)
    requires
        sorted_by_encoding(b),
        0 <= k <= j < b.len(),
        K::encoding(b[0].id()) == K::encoding(b[j].id()),
    ensures
        K::encoding(b[k].id()) == K::encoding(b[j].id()),
{
    if 0 < k < j {
        lemma_lex_antisym(K::encoding(b[k].id()), K::encoding(b[j].id()));
    }
}

/// Two lists of the same keys, each sorted by canonical text and holding
/// each key once, show the same texts in the same order.
proof fn lemma_sorted_lists_agree<K: DomainKey>(a: Seq<K>, b: Seq<K>)
    requires
        sorted_by_encoding(a),
        sorted_by_encoding(b),
        forall|p: int, q: int| 0 <= p < q < a.len() ==> a[p].id() != a[q].id(),
        forall|p: int, q: int| 0 <= p < q < b.len() ==> b[p].id() != b[q].id(),
        forall|x: Seq<Seq<char>>|
            #![trigger key_listed(a, x)]
            #![trigger key_listed(b, x)]
            key_listed(a, x) == key_listed(b, x),
    ensures
        encodings(a) == encodings(b),
    decreases a.len(),
{
    if a.len() == 0 {
        if b.len() > 0 {
            assert(key_listed(b, b[0].id()));
        }
        assert(encodings(a) =~= encodings(b));
    } else {
        let x = a[0].id();
        assert(key_listed(a, x));
        let j = choose|k: int| 0 <= k < b.len() && b[k].id() == x;
        let e = K::encoding(x);
        assert(key_listed(b, b[0].id()));
        let i0 = choose|k: int| 0 <= k < a.len() && a[k].id() == b[0].id();
        if i0 > 0 {
            assert(lex_le(e, K::encoding(a[i0].id())));
        }
        if j > 0 {
            assert(lex_le(K::encoding(b[0].id()), e));
            lemma_lex_antisym(K::encoding(b[0].id()), e);
        }
        let a1 = a.drop_first();
        let b1 = b.remove(j);
        assert forall|y: Seq<Seq<char>>|
            #![trigger key_listed(a1, y)]
            #![trigger key_listed(b1, y)]
            key_listed(a1, y) == key_listed(b1, y) by {
            if key_listed(a1, y) {
                let k = choose|k: int| 0 <= k < a1.len() && a1[k].id() == y;
                assert(a[k + 1].id() == y);
                assert(y != x);
                assert(key_listed(a, y));
                let t = choose|t: int| 0 <= t < b.len() && b[t].id() == y;
                assert(t != j);
                if t < j {
                    assert(b1[t].id() == y);
                } else {
                    assert(b1[t - 1].id() == y);
                }
            }
            if key_listed(b1, y) {
                let k = choose|k: int| 0 <= k < b1.len() && b1[k].id() == y;
                let t = if k < j {
                    k
                } else {
                    k + 1
                };
                assert(b[t].id() == y);
                assert(y != x);
                assert(key_listed(b, y));
                let u = choose|u: int| 0 <= u < a.len() && a[u].id() == y;
                assert(u != 0);
                assert(a1[u - 1].id() == y);
            }
        }
        assert forall|p: int, q: int| 0 <= p < q < b1.len() implies b1[p].id() != b1[q].id() by {
            let p0 = if p < j { p } else { p + 1 };
            let q0 = if q < j { q } else { q + 1 };
            assert(b1[p] == b[p0]);
            assert(b1[q] == b[q0]);
        }
        assert forall|p: int, q: int| 0 <= p < q < b1.len() implies lex_le(
            K::encoding(b1[p].id()),
            K::encoding(b1[q].id()),
        ) by {
            let p0 = if p < j { p } else { p + 1 };
            let q0 = if q < j { q } else { q + 1 };
            assert(b1[p] == b[p0]);
            assert(b1[q] == b[q0]);
        }
        assert forall|p: int, q: int| 0 <= p < q < a1.len() implies lex_le(
            K::encoding(a1[p].id()),
            K::encoding(a1[q].id()),
        ) by {
            assert(a1[p] == a[p + 1]);
            assert(a1[q] == a[q + 1]);
        }
        assert forall|p: int, q: int| 0 <= p < q < a1.len() implies a1[p].id() != a1[q].id() by {
            assert(a1[p] == a[p + 1]);
            assert(a1[q] == a[q + 1]);
        }
        lemma_sorted_lists_agree(a1, b1);
        assert(encodings(a1) == encodings(b1));
        assert forall|i: int| 0 <= i < a.len() implies #[trigger] encodings(a)[i] == encodings(b)[i] by {
            if i == 0 {
                if j > 0 {
                    assert(K::encoding(b[0].id()) == e);
                }
            } else {
                assert(encodings(a1)[i - 1] == encodings(a)[i]);
                assert(encodings(b1)[i - 1] == encodings(a)[i]);
                if i - 1 < j {
                    assert(b1[i - 1] == b[i - 1]);
                    lemma_sorted_equal_prefix(b, j, i - 1);
                    lemma_sorted_equal_prefix(b, j, i);
                } else {
                    assert(b1[i - 1] == b[i]);
                }
            }
        }
        assert(encodings(a) =~= encodings(b));
    }
}

/// A room's listing depends on its subscriptions alone, not on the order in
/// which they were made: any two listings of the same subscriptions show the
/// same keys' texts in the same order.
pub proof fn lemma_listing_unique<K: DomainKey>(m: Model, room: Seq<char>, a: Seq<K>, b: Seq<K>)
    requires
        is_listing(m, room, a),
        is_listing(m, room, b),
    ensures
        encodings(a) == encodings(b),
{
    assert forall|x: Seq<Seq<char>>|
        #![trigger key_listed(a, x)]
        #![trigger key_listed(b, x)]
        key_listed(a, x) == key_listed(b, x) by {
        assert(key_listed(a, x) == (m.contains_key(x) && m[x].contains(room)));
        assert(key_listed(b, x) == (m.contains_key(x) && m[x].contains(room)));
    }
    lemma_sorted_lists_agree(a, b);
}

} // verus!

//! What the registry and the command parser need of a domain key: an identity,
//! a canonical text and a decoder from a line of chat text.
use vstd::prelude::*;
use crate::text::{after_last, before_last, is_ws, rfind, trim_start, trim_end, trimmed};

verus! {

/// A line of chat text could not be read as a key.
#[derive(Debug, Clone, Copy, PartialEq, Eq)]
pub struct ParseError;

pub trait DomainKey: Sized {
    /// The key's identity: its fields, in order.
    spec fn id(&self) -> Seq<Seq<char>>;

    /// Canonical text of the key whose identity is `id`.
    spec fn encoding(id: Seq<Seq<char>>) -> Seq<char>;

    /// The identity decoded from `line`, or `None` where the line is refused.
    spec fn decoding(line: Seq<char>) -> Option<Seq<Seq<char>>>;

    fn encode(&self) -> (r: String)
        ensures
            r@ == Self::encoding(self.id()),
    ;

    fn decode(line: &str) -> (r: Result<Self, ParseError>)
        ensures
            match r {
                Ok(k) => Self::decoding(line@) == Some(k.id()),
                Err(_) => Self::decoding(line@) is None,
            },
    ;

    fn same_key(&self, other: &Self) -> (r: bool)
        ensures
            r == (self.id() == other.id()),
    ;

    fn duplicate(&self) -> (r: Self)
        ensures
            r.id() == self.id(),
    ;
}

/// A field that survives a round trip through a line: no `/`, no line break,
/// and no whitespace at either end.
pub open spec fn plain_field(f: Seq<char>) -> bool {
    !f.contains('/') && !f.contains('\n') && (f.len() == 0 || (!is_ws(f[0]) && !is_ws(f.last())))
}

/// The line, trimmed, holds no line break and splits on `/` into at least
/// three tokens.
pub open spec fn three_tokens(t: Seq<char>) -> bool {
    !t.contains('\n') && rfind(t, '/') >= 0 && rfind(before_last(t, '/'), '/') >= 0
}

/// The last `/`-separated token of `t`.
pub open spec fn last_token(t: Seq<char>) -> Seq<char> {
    after_last(t, '/')
}

/// The last but one `/`-separated token of `t`.
pub open spec fn second_last_token(t: Seq<char>) -> Seq<char> {
    after_last(before_last(t, '/'), '/')
}

/// Index of the last `c` in `s`.
pub fn rfind_char(s: &str, c: char) -> (r: Option<usize>)
    ensures
        match r {
            Some(i) => rfind(s@, c) == i as int && i < s@.len(),
            None => rfind(s@, c) == -1,
        },
{
    let n = s.unicode_len();
    let mut j: usize = n;
    assert(s@.subrange(0, n as int) =~= s@);
    while j > 0
        invariant
            j <= n,
            n == s@.len(),
            rfind(s@.subrange(0, j as int), c) == rfind(s@, c),
        decreases j,
    {
        if s.get_char(j - 1) == c {
            return Some(j - 1);
        }
        assert(s@.subrange(0, j - 1) =~= s@.subrange(0, j as int).drop_last());
        j -= 1;
    }
    None
}

/// The trimmed line and its last two `/`-separated tokens, where the line has
/// at least three and no line break.
pub fn last_two_tokens(line: &str) -> (r: Option<(&str, &str)>)
    ensures
        match r {
            Some((a, b)) => three_tokens(trimmed(line@)) && a@ == second_last_token(trimmed(line@))
                && b@ == last_token(trimmed(line@)),
            None => !three_tokens(trimmed(line@)),
        },
{
    let t = crate::text::trim(line);
    if crate::text::contains_char(t, '\n') {
        return None;
    }
    let n = t.unicode_len();
    match rfind_char(t, '/') {
        None => None,
        Some(i) => {
            let rest = t.substring_char(0, i);
            let last = t.substring_char(i + 1, n);
            assert(rest@ == before_last(t@, '/'));
            match rfind_char(rest, '/') {
                None => None,
                Some(k) => {
                    let second = rest.substring_char(k + 1, i);
                    Some((second, last))
                },
            }
        },
    }
}

pub proof fn lemma_rfind_after(a: Seq<char>, q: Seq<char>)
    requires
        !q.contains('/'),
    ensures
        rfind(a + seq!['/'] + q, '/') == a.len(),
        after_last(a + seq!['/'] + q, '/') == q,
        before_last(a + seq!['/'] + q, '/') == a,
    decreases q.len(),
{
    let s = a + seq!['/'] + q;
    if q.len() > 0 {
        assert(s.last() == q.last());
        assert(!q.drop_last().contains('/')) by {
            if q.drop_last().contains('/') {
                let i = choose|i: int| 0 <= i < q.drop_last().len() && q.drop_last()[i] == '/';
                assert(q[i] == '/');
            }
        }
        assert(s.drop_last() =~= a + seq!['/'] + q.drop_last());
        lemma_rfind_after(a, q.drop_last());
    }
    assert(s.subrange(a.len() + 1 as int, s.len() as int) =~= q);
    assert(s.subrange(0, a.len() as int) =~= a);
}

pub proof fn lemma_trim_start_concat(a: Seq<char>, b: Seq<char>)
    requires
        b.len() > 0,
        !is_ws(b[0]),
    ensures
        trim_start(a + b) == trim_start(a) + b,
    decreases a.len(),
{
    if a.len() > 0 {
        assert((a + b).drop_first() =~= a.drop_first() + b);
        lemma_trim_start_concat(a.drop_first(), b);
    } else {
        assert(a + b =~= b);
        assert(trim_start(a) + b =~= b);
    }
}

pub proof fn lemma_trim_start_keeps(s: Seq<char>, c: char)
    requires
        !is_ws(c),
    ensures
        s.contains(c) == trim_start(s).contains(c),
    decreases s.len(),
{
    if s.len() > 0 && is_ws(s[0]) {
        lemma_trim_start_keeps(s.drop_first(), c);
        if s.contains(c) {
            let i = choose|i: int| 0 <= i < s.len() && s[i] == c;
            assert(s.drop_first()[i - 1] == c);
        }
        if s.drop_first().contains(c) {
            let i = choose|i: int| 0 <= i < s.drop_first().len() && s.drop_first()[i] == c;
            assert(s[i + 1] == c);
        }
    }
}

pub proof fn lemma_trim_start_no_newline(s: Seq<char>)
    requires
        !s.contains('\n'),
    ensures
        !trim_start(s).contains('\n'),
    decreases s.len(),
{
    if s.len() > 0 && is_ws(s[0]) {
        assert(!s.drop_first().contains('\n')) by {
            if s.drop_first().contains('\n') {
                let i = choose|i: int| 0 <= i < s.drop_first().len() && s.drop_first()[i] == '\n';
                assert(s[i + 1] == '\n');
            }
        }
        lemma_trim_start_no_newline(s.drop_first());
    }
}

/// A plain field is its own trim.
pub proof fn lemma_plain_trimmed(f: Seq<char>)
    requires
        plain_field(f),
    ensures
        trimmed(f) == f,
{
    assert(trim_start(f) == f);
    assert(trim_end(f) == f);
}

/// Trimming `base + "/" + tail` only touches the base, when the tail does not
/// end in whitespace.
pub proof fn lemma_trim_line(base: Seq<char>, tail: Seq<char>)
    requires
        tail.len() == 0 || !is_ws(tail.last()),
    ensures
        trimmed(base + seq!['/'] + tail) == trim_start(base) + seq!['/'] + tail,
{
    let b = seq!['/'] + tail;
    assert(base + seq!['/'] + tail =~= base + b);
    lemma_trim_start_concat(base, b);
    let t = trim_start(base) + b;
    assert(t.last() == b.last());
    assert(trim_end(t) == t);
    assert(trim_start(base) + b =~= trim_start(base) + seq!['/'] + tail);
}

pub proof fn lemma_no_newline_concat(a: Seq<char>, b: Seq<char>)
    requires
        !a.contains('\n'),
        !b.contains('\n'),
    ensures
        !(a + b).contains('\n'),
{
    if (a + b).contains('\n') {
        let i = choose|i: int| 0 <= i < (a + b).len() && (a + b)[i] == '\n';
        if i < a.len() {
            assert(a[i] == '\n');
        } else {
            assert(b[i - a.len()] == '\n');
        }
    }
}

} // verus!

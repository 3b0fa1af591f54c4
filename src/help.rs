//! The answer to the help command: every command of every domain.
use vstd::prelude::*;
use crate::common::{entry_views, prefix_or_empty, Reply, ReplyView};
use crate::text::str_eq;
use crate::{build_res, leave, openqa, submitrequests};

verus! {

/// Width to which the plain help pads each command.
pub const COMMAND_WIDTH: usize = 35;

#[derive(Debug, Clone)]
pub struct HelpHandler {
    pub prefix: Option<String>,
}

/// `s` padded with spaces on the right to `width` characters.
pub open spec fn pad_right(s: Seq<char>, width: nat) -> Seq<char> {
    if s.len() >= width {
        s
    } else {
        s + Seq::new((width - s.len()) as nat, |i: int| ' ')
    }
}

/// All help entries: the help command itself, then those of each domain.
pub open spec fn all_entries(prefix: Seq<char>) -> Seq<(Seq<char>, Seq<char>)> {
    seq![("help"@, "Print this help"@)] + leave::help_entries(prefix) + build_res::help_entries(
        prefix,
    ) + submitrequests::help_entries(prefix) + openqa::help_entries(prefix)
}

pub open spec fn help_plain_rows(items: Seq<(Seq<char>, Seq<char>)>) -> Seq<char>
    decreases items.len(),
{
    if items.len() == 0 {
        Seq::empty()
    } else {
        help_plain_rows(items.drop_last()) + "\n"@ + pad_right(items.last().0, 35) + " - "@
            + items.last().1
    }
}

pub open spec fn help_html_rows(items: Seq<(Seq<char>, Seq<char>)>) -> Seq<char>
    decreases items.len(),
{
    if items.len() == 0 {
        Seq::empty()
    } else {
        help_html_rows(items.drop_last()) + "\n"@ + "<tr> <td>"@ + items.last().0 + "</td> <td>"@
            + items.last().1 + "</td></tr>"@
    }
}

/// The help message: a greeting, then one row per entry, as text and as an
/// HTML table.
pub open spec fn help_text(items: Seq<(Seq<char>, Seq<char>)>) -> ReplyView {
    (
        "Hi, I'm a friendly robot and provide these options:"@ + help_plain_rows(items),
        Some(
            "<h3>Hi, I'm a friendly robot and provide these options:</h3>"@ + "\n"@ + "<table>"@
                + help_html_rows(items) + "\n"@ + "</table>"@,
        ),
    )
}

fn pad(s: &str) -> (r: String)
    ensures
        r@ == pad_right(s@, 35),
{
    let mut r = String::from_str(s);
    let n = s.unicode_len();
    let mut k: usize = n;
    proof {
        reveal_strlit(" ");
    }
    while k < COMMAND_WIDTH
        invariant
            n == s@.len(),
            " "@ =~= seq![' '],
            n <= k <= 35 || (k == n && n > 35),
            r@ == s@ + Seq::new((k - n) as nat, |i: int| ' '),
        decreases 35 - k,
    {
        r.append(" ");
        assert(r@ =~= s@ + Seq::new((k + 1 - n) as nat, |i: int| ' '));
        k += 1;
    }
    assert(n >= 35 ==> r@ =~= s@);
    r
}

impl HelpHandler {
    pub open spec fn prefix_text(&self) -> Seq<char> {
        match self.prefix {
            Some(p) => p@,
            None => Seq::empty(),
        }
    }

    fn prefix_str(&self) -> (r: Option<&str>)
        ensures
            prefix_or_empty(r) == self.prefix_text(),
    {
        match &self.prefix {
            Some(p) => Some(p.as_str()),
            None => None,
        }
    }

    /// Every help entry, in the order the help shows them.
    pub fn help_items(&self) -> (r: Vec<(String, String)>)
        ensures
            entry_views(r@) == all_entries(self.prefix_text()),
    {
        let p = self.prefix_str();
        let mut items: Vec<(String, String)> = Vec::new();
        items.push((String::from_str("help"), String::from_str("Print this help")));
        let ghost first = entry_views(items@);
        let mut l = leave::help_str(p);
        let ghost lv = entry_views(l@);
        items.append(&mut l);
        let mut b = build_res::help_str(p);
        let ghost bv = entry_views(b@);
        items.append(&mut b);
        let mut s = submitrequests::help_str(p);
        let ghost sv = entry_views(s@);
        items.append(&mut s);
        let mut o = openqa::help_str(p);
        let ghost ov = entry_views(o@);
        items.append(&mut o);
        assert(entry_views(items@) =~= first + lv + bv + sv + ov);
        assert(first =~= seq![("help"@, "Print this help"@)]);
        items
    }

    /// The help message for `items`.
    pub fn render(items: &Vec<(String, String)>) -> (r: Reply)
        ensures
            r@ == help_text(entry_views(items@)),
    {
        let ghost iv = entry_views(items@);
        let mut plainmsg = String::from_str("Hi, I'm a friendly robot and provide these options:");
        let mut rows = String::new();
        let mut i: usize = 0;
        assert(iv.subrange(0, 0) =~= Seq::<(Seq<char>, Seq<char>)>::empty());
        while i < items.len()
            invariant
                i <= items@.len(),
                iv == entry_views(items@),
                plainmsg@ == "Hi, I'm a friendly robot and provide these options:"@
                    + help_plain_rows(iv.subrange(0, i as int)),
                rows@ == help_html_rows(iv.subrange(0, i as int)),
            decreases items@.len() - i,
        {
            let (key, text) = &items[i];
            assert(iv.subrange(0, i + 1).drop_last() =~= iv.subrange(0, i as int));
            assert(iv.subrange(0, i + 1).last() == (key@, text@));
            plainmsg.append("\n");
            let padded = pad(key.as_str());
            plainmsg.append(padded.as_str());
            plainmsg.append(" - ");
            plainmsg.append(text.as_str());
            rows.append("\n");
            rows.append("<tr> <td>");
            rows.append(key.as_str());
            rows.append("</td> <td>");
            rows.append(text.as_str());
            rows.append("</td></tr>");
            i += 1;
        }
        assert(iv.subrange(0, items@.len() as int) =~= iv);
        let mut htmlmsg = String::from_str(
            "<h3>Hi, I'm a friendly robot and provide these options:</h3>",
        );
        htmlmsg.append("\n");
        htmlmsg.append("<table>");
        htmlmsg.append(rows.as_str());
        htmlmsg.append("\n");
        htmlmsg.append("</table>");
        Reply { plain: plainmsg, html: Some(htmlmsg) }
    }

    /// The answer to a chat command: the help message for `help`, nothing
    /// for any other command or for a message that holds none.
    pub fn handle_message(&self, command: Option<&str>) -> (r: Option<Reply>)
        ensures
            match command {
                Some(c) if c@ == "help"@ => r is Some && r->0@ == help_text(
                    all_entries(self.prefix_text()),
                ),
                _ => r is None,
            },
    {
        match command {
            None => None,
            Some(c) => {
                if !str_eq(c, "help") {
                    return None;
                }
                let items = self.help_items();
                Some(Self::render(&items))
            },
        }
    }
}

} // verus!

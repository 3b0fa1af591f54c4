//! What the three domains share in handling a broker delivery: the error
//! taxonomy, the notification to fan out, and decimal numbers.
use vstd::prelude::*;
use crate::key::DomainKey;
use crate::registry::{distinct_rooms, room_set, rooms_of, Registry};
use crate::text::cat;

verus! {

/// A delivery that is logged and dropped, never shown in a room.
#[derive(Debug, Clone)]
pub enum DomainError {
    /// The routing key matches none of the domain's known suffixes.
    UnknownRoutingKey { routing_key: String },
    /// The payload could not be read as the domain's event.
    MalformedPayload { reason: String },
}

impl DomainError {
    /// A line for the log.
    pub fn describe(&self) -> (r: String)
        ensures
            r@ == match self {
                DomainError::UnknownRoutingKey { routing_key } => "Unknown routing key: "@
                    + routing_key@,
                DomainError::MalformedPayload { reason } => "Malformed payload: "@ + reason@,
            },
    {
        match self {
            DomainError::UnknownRoutingKey { routing_key } => cat(
                "Unknown routing key: ",
                routing_key.as_str(),
            ),
            DomainError::MalformedPayload { reason } => cat("Malformed payload: ", reason.as_str()),
        }
    }
}

/// A message to send to each of `rooms`.
#[derive(Debug, Clone)]
pub struct Notification {
    pub rooms: Vec<String>,
    pub plain: String,
    pub html: String,
}

/// `n` is the notification of `(plain, html)` to exactly the rooms that
/// `reg` holds for `id`, each once.
pub open spec fn notifies<K: DomainKey>(
    n: Notification,
    reg: Registry<K>,
    id: Seq<Seq<char>>,
    text: (Seq<char>, Seq<char>),
) -> bool {
    &&& room_set(n.rooms@) == rooms_of(reg@, id)
    &&& distinct_rooms(n.rooms@)
    &&& (n.plain@, n.html@) == text
}

/// The outcome owed for a delivery of key `id` whose change was classified
/// as `change`, with the texts that `render` gives for it.
pub open spec fn dispatch_outcome<K: DomainKey>(
    r: Result<Option<Notification>, DomainError>,
    reg: Registry<K>,
    routing_key: Seq<char>,
    change: Option<Seq<char>>,
    id: Seq<Seq<char>>,
    text: (Seq<char>, Seq<char>),
) -> bool {
    match change {
        None => match r {
            Err(DomainError::UnknownRoutingKey { routing_key: k }) => k@ == routing_key,
            _ => false,
        },
        Some(_) => match r {
            Ok(None) => rooms_of(reg@, id) == Set::<Seq<char>>::empty(),
            Ok(Some(n)) => rooms_of(reg@, id) != Set::<Seq<char>>::empty() && notifies(
                n,
                reg,
                id,
                text,
            ),
            Err(_) => false,
        },
    }
}

/// The rooms subscribed to `key`, or `None` where there are none.
pub fn subscribed_rooms<K: DomainKey>(reg: &Registry<K>, key: &K) -> (r: Option<Vec<String>>)
    requires
        reg.wf(),
    ensures
        match r {
            None => rooms_of(reg@, key.id()) == Set::<Seq<char>>::empty(),
            Some(rooms) => room_set(rooms@) == rooms_of(reg@, key.id()) && distinct_rooms(rooms@)
                && rooms_of(reg@, key.id()) != Set::<Seq<char>>::empty(),
        },
{
    let rooms = reg.lookup(key);
    if rooms.len() == 0 {
        assert(room_set(rooms@) =~= Set::<Seq<char>>::empty());
        None
    } else {
        assert(room_set(rooms@).contains(rooms@[0]@));
        Some(rooms)
    }
}

/// The decimal digit `d`.
pub open spec fn digit_char(d: nat) -> char {
    "0123456789"@[d as int]
}

/// The decimal digits of `n`, without leading zeros.
pub open spec fn digits(n: nat) -> Seq<char>
    decreases n,
{
    if n < 10 {
        seq![digit_char(n)]
    } else {
        digits(n / 10).push(digit_char(n % 10))
    }
}

/// `n` in decimal, with a leading `-` where it is negative.
pub open spec fn decimal_text(n: int) -> Seq<char> {
    if n < 0 {
        seq!['-'] + digits((-n) as nat)
    } else {
        digits(n as nat)
    }
}

fn digit_str(d: u64) -> (r: &'static str)
    requires
        d < 10,
    ensures
        r@ == seq![digit_char(d as nat)],
{
    let all = "0123456789";
    proof {
        reveal_strlit("0123456789");
    }
    let r = all.substring_char(d as usize, (d + 1) as usize);
    assert(r@ =~= seq![digit_char(d as nat)]);
    r
}

pub fn decimal(n: i32) -> (r: String)
    ensures
        r@ == decimal_text(n as int),
{
    let wide = n as i64;
    let mut v: u64 = if wide < 0 {
        (-wide) as u64
    } else {
        wide as u64
    };
    let ghost total = v as nat;
    let mut r = String::new();
    assert(digits(total) =~= digits(v as nat) + r@);
    while v >= 10
        invariant
            digits(total) == digits(v as nat) + r@,
        decreases v,
    {
        let d = v % 10;
        let ghost old_r = r@;
        r = cat(digit_str(d), r.as_str());
        assert(digits(v as nat) == digits((v / 10) as nat).push(digit_char(d as nat)));
        assert(digits(v as nat) + old_r =~= digits((v / 10) as nat) + r@);
        v = v / 10;
    }
    let ghost old_r = r@;
    r = cat(digit_str(v), r.as_str());
    assert(digits(v as nat) == seq![digit_char(v as nat)]);
    assert(digits(total) =~= r@);
    if wide < 0 {
        proof {
            reveal_strlit("-");
        }
        let s = cat("-", r.as_str());
        assert(s@ =~= seq!['-'] + digits(total));
        s
    } else {
        r
    }
}

} // verus!

//! The subscription registry: which chat rooms follow which key.
use vstd::prelude::*;
use crate::key::DomainKey;
use crate::text::{lemma_lex_total, lemma_lex_trans, lex_le, lex_le_str, str_eq};

verus! {

/// The registry as a mathematical map from a key's identity to its rooms.
pub type Model = Map<Seq<Seq<char>>, Set<Seq<char>>>;

/// The rooms held in a list of room names.
pub open spec fn room_set(rooms: Seq<String>) -> Set<Seq<char>> {
    Set::new(|r: Seq<char>| exists|k: int| 0 <= k < rooms.len() && rooms[k]@ == r)
}

pub open spec fn distinct_rooms(rooms: Seq<String>) -> bool {
    forall|a: int, b: int| 0 <= a < b < rooms.len() ==> rooms[a]@ != rooms[b]@
}

/// The rooms subscribed to `id`; empty where there are none.
pub open spec fn rooms_of(m: Model, id: Seq<Seq<char>>) -> Set<Seq<char>> {
    if m.contains_key(id) {
        m[id]
    } else {
        Set::empty()
    }
}

/// The registry after `room` subscribes to `id`.
pub open spec fn subscribed(m: Model, id: Seq<Seq<char>>, room: Seq<char>) -> Model {
    m.insert(id, rooms_of(m, id).insert(room))
}

/// The registry after `room` unsubscribes from `id`: a key whose last room
/// leaves is gone.
pub open spec fn unsubscribed(m: Model, id: Seq<Seq<char>>, room: Seq<char>) -> Model {
    if !m.contains_key(id) {
        m
    } else if m[id].remove(room) == Set::<Seq<char>>::empty() {
        m.remove(id)
    } else {
        m.insert(id, m[id].remove(room))
    }
}

/// No key maps to an empty set of rooms.
pub open spec fn no_empty_sets(m: Model) -> bool {
    forall|id: Seq<Seq<char>>| m.contains_key(id) ==> m[id] != Set::<Seq<char>>::empty()
}

/// The keys, in order, are sorted by their canonical text.
pub open spec fn sorted_by_encoding<K: DomainKey>(ks: Seq<K>) -> bool {
    forall|a: int, b: int|
        0 <= a < b < ks.len() ==> lex_le(K::encoding(ks[a].id()), K::encoding(ks[b].id()))
}

/// `ks` lists, once each and sorted by canonical text, the keys that `room`
/// is subscribed to.
pub open spec fn is_listing<K: DomainKey>(m: Model, room: Seq<char>, ks: Seq<K>) -> bool {
    &&& forall|id: Seq<Seq<char>>|
        (exists|k: int| 0 <= k < ks.len() && ks[k].id() == id) <==> (m.contains_key(id)
            && m[id].contains(room))
    &&& forall|a: int, b: int| 0 <= a < b < ks.len() ==> ks[a].id() != ks[b].id()
    &&& sorted_by_encoding(ks)
}

struct Entry<K> {
    key: K,
    rooms: Vec<String>,
}

pub struct Registry<K> {
    entries: Vec<Entry<K>>,
    model: Ghost<Model>,
}

spec fn entry_ok<K: DomainKey>(m: Model, e: Entry<K>) -> bool {
    &&& m.contains_key(e.key.id())
    &&& m[e.key.id()] == room_set(e.rooms@)
    &&& e.rooms@.len() > 0
    &&& distinct_rooms(e.rooms@)
}

spec fn table_ok<K: DomainKey>(m: Model, es: Seq<Entry<K>>) -> bool {
    &&& forall|i: int| 0 <= i < es.len() ==> #[trigger] entry_ok(m, es[i])
    &&& forall|id: Seq<Seq<char>>|
        m.contains_key(id) ==> exists|i: int| 0 <= i < es.len() && es[i].key.id() == id
    &&& forall|i: int, j: int| 0 <= i < j < es.len() ==> es[i].key.id() != es[j].key.id()
}

spec fn has_id<K: DomainKey>(ks: Seq<K>, x: Seq<Seq<char>>) -> bool {
    exists|k: int| 0 <= k < ks.len() && ks[k].id() == x
}

/// One of the first `i` entries has identity `x` and holds `room`.
spec fn seen<K: DomainKey>(es: Seq<Entry<K>>, i: int, room: Seq<char>, x: Seq<Seq<char>>) -> bool {
    exists|t: int| 0 <= t < i && es[t].key.id() == x && room_set(es[t].rooms@).contains(room)
}

impl<K: DomainKey> View for Registry<K> {
    type V = Model;

    closed spec fn view(&self) -> Model {
        self.model@
    }
}

proof fn lemma_room_set_push(rooms: Seq<String>, s: String)
    ensures
        room_set(rooms.push(s)) == room_set(rooms).insert(s@),
{
    let p = rooms.push(s);
    assert forall|r: Seq<char>| room_set(p).contains(r) <==> room_set(rooms).insert(s@).contains(r) by {
        if room_set(p).contains(r) {
            let k = choose|k: int| 0 <= k < p.len() && p[k]@ == r;
            if k < rooms.len() {
                assert(rooms[k]@ == r);
            }
        }
        if room_set(rooms).contains(r) {
            let k = choose|k: int| 0 <= k < rooms.len() && rooms[k]@ == r;
            assert(p[k]@ == r);
        }
        if r == s@ {
            assert(p[rooms.len() as int]@ == r);
        }
    }
    assert(room_set(rooms.push(s)) =~= room_set(rooms).insert(s@));
}

proof fn lemma_room_set_remove(rooms: Seq<String>, j: int)
    requires
        0 <= j < rooms.len(),
        distinct_rooms(rooms),
    ensures
        room_set(rooms.remove(j)) == room_set(rooms).remove(rooms[j]@),
        distinct_rooms(rooms.remove(j)),
{
    let p = rooms.remove(j);
    assert forall|r: Seq<char>|
        room_set(p).contains(r) <==> room_set(rooms).remove(rooms[j]@).contains(r) by {
        if room_set(p).contains(r) {
            let k = choose|k: int| 0 <= k < p.len() && p[k]@ == r;
            if k < j {
                assert(rooms[k]@ == r);
            } else {
                assert(rooms[k + 1]@ == r);
            }
        }
        if room_set(rooms).remove(rooms[j]@).contains(r) {
            let k = choose|k: int| 0 <= k < rooms.len() && rooms[k]@ == r;
            if k < j {
                assert(p[k]@ == r);
            } else {
                assert(k != j);
                assert(p[k - 1]@ == r);
            }
        }
    }
    assert(room_set(rooms.remove(j)) =~= room_set(rooms).remove(rooms[j]@));
    assert forall|a: int, b: int| 0 <= a < b < p.len() implies p[a]@ != p[b]@ by {
        let a0 = if a < j { a } else { a + 1 };
        let b0 = if b < j { b } else { b + 1 };
        assert(p[a] == rooms[a0]);
        assert(p[b] == rooms[b0]);
    }
}

/// Index of `room` in `rooms`.
fn position(rooms: &Vec<String>, room: &str) -> (r: Option<usize>)
    ensures
        match r {
            Some(j) => j < rooms@.len() && rooms@[j as int]@ == room@,
            None => !room_set(rooms@).contains(room@),
        },
{
    let mut j: usize = 0;
    while j < rooms.len()
        invariant
            j <= rooms@.len(),
            forall|t: int| 0 <= t < j ==> rooms@[t]@ != room@,
        decreases rooms@.len() - j,
    {
        if str_eq(rooms[j].as_str(), room) {
            return Some(j);
        }
        j += 1;
    }
    None
}

fn copy_rooms(rooms: &Vec<String>) -> (r: Vec<String>)
    ensures
        r@ == rooms@,
{
    let mut out: Vec<String> = Vec::new();
    let mut j: usize = 0;
    while j < rooms.len()
        invariant
            j <= rooms@.len(),
            out@ == rooms@.subrange(0, j as int),
        decreases rooms@.len() - j,
    {
        out.push(rooms[j].clone());
        assert(out@ =~= rooms@.subrange(0, j + 1));
        j += 1;
    }
    assert(rooms@.subrange(0, rooms@.len() as int) =~= rooms@);
    out
}

/// Puts `k` into `out` after the keys whose text does not exceed its own.
fn insert_sorted<K: DomainKey>(out: &mut Vec<K>, k: K) -> (p: usize)
    requires
        sorted_by_encoding(old(out)@),
    ensures
        p <= old(out)@.len(),
        final(out)@ == old(out)@.insert(p as int, k),
        sorted_by_encoding(final(out)@),
{
    let enc = k.encode();
    let mut p: usize = 0;
    while p < out.len() && lex_le_str(out[p].encode().as_str(), enc.as_str())
        invariant
            p <= out@.len(),
            out@ == old(out)@,
            sorted_by_encoding(out@),
            enc@ == K::encoding(k.id()),
            forall|a: int| 0 <= a < p ==> lex_le(K::encoding(out@[a].id()), enc@),
        decreases out@.len() - p,
    {
        p += 1;
    }
    let ghost before = out@;
    proof {
        if p < before.len() {
            lemma_lex_total(K::encoding(before[p as int].id()), enc@);
        }
    }
    out.insert(p, k);
    assert forall|a: int, b: int| 0 <= a < b < out@.len() implies lex_le(
        K::encoding(out@[a].id()),
        K::encoding(out@[b].id()),
    ) by {
        let ea = K::encoding(out@[a].id());
        let eb = K::encoding(out@[b].id());
        if b < p {
            assert(out@[a] == before[a]);
            assert(out@[b] == before[b]);
        } else if a < p && b == p {
        } else if a < p && b > p {
            assert(out@[a] == before[a]);
            assert(out@[b] == before[b - 1]);
        } else if a == p {
            assert(out@[b] == before[b - 1]);
            if b - 1 > p {
                lemma_lex_trans(enc@, K::encoding(before[p as int].id()), eb);
            }
        } else {
            assert(out@[a] == before[a - 1]);
            assert(out@[b] == before[b - 1]);
        }
    }
    p
}

impl<K: DomainKey> Registry<K> {
    pub closed spec fn wf(&self) -> bool {
        table_ok(self.model@, self.entries@)
    }

    pub fn new() -> (r: Self)
        ensures
            r.wf(),
            r@ == Model::empty(),
    {
        Registry { entries: Vec::new(), model: Ghost(Map::empty()) }
    }

    /// Every key in a registry has at least one room.
    pub proof fn lemma_no_empty_sets(&self)
        requires
            self.wf(),
        ensures
            no_empty_sets(self@),
    {
        assert forall|id: Seq<Seq<char>>| self@.contains_key(id) implies self@[id] != Set::<
            Seq<char>,
        >::empty() by {
            let i = choose|i: int|
                0 <= i < self.entries@.len() && self.entries@[i].key.id() == id;
            assert(entry_ok(self.model@, self.entries@[i]));
            let rooms = self.entries@[i].rooms@;
            assert(room_set(rooms).contains(rooms[0]@));
        }
    }

    fn find(&self, key: &K) -> (r: Option<usize>)
        requires
            self.wf(),
        ensures
            match r {
                Some(i) => i < self.entries@.len() && self.entries@[i as int].key.id() == key.id(),
                None => !self@.contains_key(key.id()),
            },
    {
        let mut i: usize = 0;
        while i < self.entries.len()
            invariant
                i <= self.entries@.len(),
                forall|t: int| 0 <= t < i ==> self.entries@[t].key.id() != key.id(),
            decreases self.entries@.len() - i,
        {
            if self.entries[i].key.same_key(key) {
                return Some(i);
            }
            i += 1;
        }
        None
    }

    /// Adds `room` to the rooms of `key`; doing so again changes nothing.
    pub fn subscribe(&mut self, key: K, room: &str)
        requires
            old(self).wf(),
        ensures
            final(self).wf(),
            final(self)@ == subscribed(old(self)@, key.id(), room@),
    {
        let ghost id = key.id();
        let ghost m = self.model@;
        let ghost es = self.entries@;
        match self.find(&key) {
            None => {
                let mut rooms: Vec<String> = Vec::new();
                rooms.push(String::from_str(room));
                proof {
                    lemma_room_set_push(Seq::empty(), rooms@[0]);
                    assert(Seq::<String>::empty().push(rooms@[0]) =~= rooms@);
                    assert(room_set(Seq::<String>::empty()) =~= Set::<Seq<char>>::empty());
                }
                self.entries.push(Entry { key, rooms });
                self.model = Ghost(m.insert(id, room_set(rooms@)));
                proof {
                    let m2 = self.model@;
                    let es2 = self.entries@;
                    assert(es2 == es.push(es2.last()));
                    assert forall|i: int| 0 <= i < es2.len() implies #[trigger] entry_ok(
                        m2,
                        es2[i],
                    ) by {
                        if i < es.len() {
                            assert(entry_ok(m, es[i]));
                            assert(es2[i] == es[i]);
                        }
                    }
                    assert forall|x: Seq<Seq<char>>| m2.contains_key(x) implies exists|i: int|
                        0 <= i < es2.len() && es2[i].key.id() == x by {
                        if x == id {
                            assert(es2[es.len() as int].key.id() == x);
                        } else {
                            let i = choose|i: int| 0 <= i < es.len() && es[i].key.id() == x;
                            assert(es2[i].key.id() == x);
                        }
                    }
                    assert forall|i: int, j: int| 0 <= i < j < es2.len() implies es2[i].key.id()
                        != es2[j].key.id() by {
                        if j == es.len() {
                            assert(entry_ok(m, es[i]));
                        }
                    }
                    assert(m2 =~= subscribed(m, id, room@));
                }
            },
            Some(i) => {
                let mut e = self.entries.remove(i);
                let ghost old_rooms = e.rooms@;
                proof {
                    assert(es[i as int] == e);
                    assert(entry_ok(m, es[i as int]));
                }
                match position(&e.rooms, room) {
                    Some(_) => {},
                    None => {
                        let s = String::from_str(room);
                        proof {
                            lemma_room_set_push(old_rooms, s);
                            assert forall|a: int, b: int|
                                0 <= a < b < old_rooms.push(s).len() implies old_rooms.push(
                                s,
                            )[a]@ != old_rooms.push(s)[b]@ by {
                                if b == old_rooms.len() {
                                    assert(room_set(old_rooms).contains(old_rooms[a]@));
                                }
                            }
                        }
                        e.rooms.push(s);
                    },
                }
                let ghost new_rooms = e.rooms@;
                proof {
                    assert(room_set(new_rooms) =~= room_set(old_rooms).insert(room@));
                }
                self.entries.insert(i, e);
                self.model = Ghost(m.insert(id, room_set(new_rooms)));
                proof {
                    let m2 = self.model@;
                    let es2 = self.entries@;
                    assert(es2.len() == es.len());
                    assert forall|j: int| 0 <= j < es2.len() implies #[trigger] entry_ok(
                        m2,
                        es2[j],
                    ) by {
                        if j != i {
                            assert(es2[j] == es[j]);
                            assert(entry_ok(m, es[j]));
                        }
                    }
                    assert forall|x: Seq<Seq<char>>| m2.contains_key(x) implies exists|j: int|
                        0 <= j < es2.len() && es2[j].key.id() == x by {
                        let j = choose|j: int| 0 <= j < es.len() && es[j].key.id() == x;
                        if j == i {
                            assert(es2[j].key.id() == x);
                        } else {
                            assert(es2[j] == es[j]);
                        }
                    }
                    assert forall|a: int, b: int| 0 <= a < b < es2.len() implies es2[a].key.id()
                        != es2[b].key.id() by {
                        if a != i {
                            assert(es2[a] == es[a]);
                        }
                        if b != i {
                            assert(es2[b] == es[b]);
                        }
                    }
                    assert(m2 =~= subscribed(m, id, room@));
                }
            },
        }
    }

    /// Takes `room` off the rooms of `key`; a key left with no room is
    /// dropped. Returns whether `key` had any room before.
    pub fn unsubscribe(&mut self, key: &K, room: &str) -> (was_known: bool)
        requires
            old(self).wf(),
        ensures
            final(self).wf(),
            final(self)@ == unsubscribed(old(self)@, key.id(), room@),
            was_known == old(self)@.contains_key(key.id()),
    {
        let ghost id = key.id();
        let ghost m = self.model@;
        let ghost es = self.entries@;
        match self.find(key) {
            None => false,
            Some(i) => {
                let mut e = self.entries.remove(i);
                let ghost old_rooms = e.rooms@;
                proof {
                    assert(es[i as int] == e);
                    assert(entry_ok(m, es[i as int]));
                }
                match position(&e.rooms, room) {
                    Some(j) => {
                        proof {
                            lemma_room_set_remove(old_rooms, j as int);
                        }
                        e.rooms.remove(j);
                    },
                    None => {
                        assert(room_set(old_rooms).remove(room@) =~= room_set(old_rooms));
                    },
                }
                let ghost new_rooms = e.rooms@;
                assert(room_set(new_rooms) == m[id].remove(room@));
                if e.rooms.len() > 0 {
                    self.entries.insert(i, e);
                    self.model = Ghost(m.insert(id, room_set(new_rooms)));
                    proof {
                        assert(room_set(new_rooms).contains(new_rooms[0]@));
                        let m2 = self.model@;
                        let es2 = self.entries@;
                        assert(es2.len() == es.len());
                        assert forall|j: int| 0 <= j < es2.len() implies #[trigger] entry_ok(
                            m2,
                            es2[j],
                        ) by {
                            if j != i {
                                assert(es2[j] == es[j]);
                                assert(entry_ok(m, es[j]));
                            }
                        }
                        assert forall|x: Seq<Seq<char>>| m2.contains_key(x) implies exists|j: int|
                            0 <= j < es2.len() && es2[j].key.id() == x by {
                            let j = choose|j: int| 0 <= j < es.len() && es[j].key.id() == x;
                            if j == i {
                                assert(es2[j].key.id() == x);
                            } else {
                                assert(es2[j] == es[j]);
                            }
                        }
                        assert forall|a: int, b: int| 0 <= a < b < es2.len() implies es2[a].key.id()
                            != es2[b].key.id() by {
                            if a != i {
                                assert(es2[a] == es[a]);
                            }
                            if b != i {
                                assert(es2[b] == es[b]);
                            }
                        }
                        assert(m2 =~= unsubscribed(m, id, room@));
                    }
                } else {
                    self.model = Ghost(m.remove(id));
                    proof {
                        assert(room_set(new_rooms) =~= Set::<Seq<char>>::empty());
                        let m2 = self.model@;
                        let es2 = self.entries@;
                        assert(es2 == es.remove(i as int));
                        assert forall|j: int| 0 <= j < es2.len() implies #[trigger] entry_ok(
                            m2,
                            es2[j],
                        ) by {
                            let j0 = if j < i { j } else { j + 1 };
                            assert(es2[j] == es[j0]);
                            assert(entry_ok(m, es[j0]));
                        }
                        assert forall|x: Seq<Seq<char>>| m2.contains_key(x) implies exists|j: int|
                            0 <= j < es2.len() && es2[j].key.id() == x by {
                            let j = choose|j: int| 0 <= j < es.len() && es[j].key.id() == x;
                            assert(j != i);
                            if j < i {
                                assert(es2[j] == es[j]);
                            } else {
                                assert(es2[j - 1] == es[j]);
                            }
                        }
                        assert forall|a: int, b: int| 0 <= a < b < es2.len() implies es2[a].key.id()
                            != es2[b].key.id() by {
                            let a0 = if a < i { a } else { a + 1 };
                            let b0 = if b < i { b } else { b + 1 };
                            assert(es2[a] == es[a0]);
                            assert(es2[b] == es[b0]);
                        }
                        assert(m2 =~= unsubscribed(m, id, room@));
                    }
                }
                true
            },
        }
    }

    /// The rooms subscribed to `key`, each once; none where the key is unknown.
    pub fn lookup(&self, key: &K) -> (r: Vec<String>)
        requires
            self.wf(),
        ensures
            room_set(r@) == rooms_of(self@, key.id()),
            distinct_rooms(r@),
    {
        match self.find(key) {
            None => {
                assert(room_set(Seq::<String>::empty()) =~= Set::<Seq<char>>::empty());
                Vec::new()
            },
            Some(i) => {
                assert(entry_ok(self.model@, self.entries@[i as int]));
                copy_rooms(&self.entries[i].rooms)
            },
        }
    }

    /// Whether no room is subscribed to anything.
    pub fn is_empty(&self) -> (r: bool)
        requires
            self.wf(),
        ensures
            r == (self@ == Model::empty()),
    {
        let r = self.entries.len() == 0;
        proof {
            if r {
                assert(self@ =~= Model::empty());
            } else {
                assert(entry_ok(self.model@, self.entries@[0]));
                assert(self@.contains_key(self.entries@[0].key.id()));
            }
        }
        r
    }

    /// The keys that `room` is subscribed to, each once, sorted by their
    /// canonical text.
    pub fn list(&self, room: &str) -> (r: Vec<K>)
        requires
            self.wf(),
        ensures
            is_listing(self@, room@, r@),
    {
        let ghost m = self.model@;
        let ghost es = self.entries@;
        let ghost rv = room@;
        let mut out: Vec<K> = Vec::new();
        let mut i: usize = 0;
        while i < self.entries.len()
            invariant
                self.wf(),
                m == self.model@,
                es == self.entries@,
                rv == room@,
                i <= es.len(),
                sorted_by_encoding(out@),
                forall|a: int, b: int| 0 <= a < b < out@.len() ==> out@[a].id() != out@[b].id(),
                forall|x: Seq<Seq<char>>| #[trigger] has_id(out@, x) == seen(es, i as int, rv, x),
            decreases es.len() - i,
        {
            assert(entry_ok(m, es[i as int]));
            let ghost before = out@;
            let found = position(&self.entries[i].rooms, room).is_some();
            if found {
                let k = self.entries[i].key.duplicate();
                let p = insert_sorted(&mut out, k);
                proof {
                    let x0 = es[i as int].key.id();
                    assert(room_set(es[i as int].rooms@).contains(rv));
                    assert forall|a: int| 0 <= a < before.len() implies before[a].id() != x0 by {
                        assert(has_id(before, before[a].id()));
                        let t = choose|t: int| 0 <= t < i && es[t].key.id() == before[a].id()
                            && room_set(es[t].rooms@).contains(rv);
                    }
                    assert forall|a: int, b: int| 0 <= a < b < out@.len() implies out@[a].id()
                        != out@[b].id() by {
                        let a0 = if a < p { a } else { a - 1 };
                        let b0 = if b < p { b } else { b - 1 };
                        if a != p {
                            assert(out@[a] == before[a0]);
                        }
                        if b != p {
                            assert(out@[b] == before[b0]);
                        }
                    }
                    assert forall|x: Seq<Seq<char>>| #[trigger] has_id(out@, x) == seen(
                        es,
                        i + 1,
                        rv,
                        x,
                    ) by {
                        assert(has_id(before, x) == seen(es, i as int, rv, x));
                        if has_id(out@, x) {
                            let k = choose|k: int| 0 <= k < out@.len() && out@[k].id() == x;
                            if k < p {
                                assert(out@[k] == before[k]);
                                assert(has_id(before, x));
                            } else if k > p {
                                assert(out@[k] == before[k - 1]);
                                assert(has_id(before, x));
                            } else {
                                assert(es[i as int].key.id() == x);
                            }
                        }
                        if seen(es, i + 1, rv, x) {
                            let t = choose|t: int|
                                0 <= t < i + 1 && es[t].key.id() == x && room_set(
                                    es[t].rooms@,
                                ).contains(rv);
                            if t < i {
                                assert(seen(es, i as int, rv, x));
                                let k = choose|k: int| 0 <= k < before.len() && before[k].id() == x;
                                if k < p {
                                    assert(out@[k] == before[k]);
                                } else {
                                    assert(out@[k + 1] == before[k]);
                                }
                            } else {
                                assert(out@[p as int].id() == x);
                            }
                        }
                    }
                }
            } else {
                proof {
                    assert forall|x: Seq<Seq<char>>| #[trigger] has_id(out@, x) == seen(
                        es,
                        i + 1,
                        rv,
                        x,
                    ) by {
                        assert(has_id(before, x) == seen(es, i as int, rv, x));
                        if seen(es, i + 1, rv, x) {
                            let t = choose|t: int|
                                0 <= t < i + 1 && es[t].key.id() == x && room_set(
                                    es[t].rooms@,
                                ).contains(rv);
                            assert(t < i);
                        }
                    }
                }
            }
            i += 1;
        }
        proof {
            assert forall|x: Seq<Seq<char>>|
                (exists|k: int| 0 <= k < out@.len() && out@[k].id() == x) <==> (m.contains_key(x)
                    && m[x].contains(rv)) by {
                assert(has_id(out@, x) == seen(es, es.len() as int, rv, x));
                if m.contains_key(x) && m[x].contains(rv) {
                    let t = choose|t: int| 0 <= t < es.len() && es[t].key.id() == x;
                    assert(entry_ok(m, es[t]));
                }
                if seen(es, es.len() as int, rv, x) {
                    let t = choose|t: int|
                        0 <= t < es.len() && es[t].key.id() == x && room_set(es[t].rooms@).contains(
                            rv,
                        );
                    assert(entry_ok(m, es[t]));
                }
            }
        }
        out
    }
}

} // verus!

verus! {

/// Subscribing a room to a key it already follows changes nothing, so the
/// room is held once, however often it subscribes.
pub proof fn lemma_subscribe_idempotent(m: Model, id: Seq<Seq<char>>, room: Seq<char>)
    ensures
        rooms_of(subscribed(m, id, room), id).contains(room),
        subscribed(subscribed(m, id, room), id, room) == subscribed(m, id, room),
{
    let m1 = subscribed(m, id, room);
    assert(rooms_of(m1, id).insert(room) =~= rooms_of(m1, id));
    assert(subscribed(m1, id, room) =~= m1);
}

/// When the only room of a key unsubscribes, the key leaves the registry and
/// a lookup of it finds no room.
pub proof fn lemma_last_room_leaves(m: Model, id: Seq<Seq<char>>, room: Seq<char>)
    requires
        m.contains_key(id),
        m[id] == Set::<Seq<char>>::empty().insert(room),
    ensures
        !unsubscribed(m, id, room).contains_key(id),
        rooms_of(unsubscribed(m, id, room), id) == Set::<Seq<char>>::empty(),
{
    assert(m[id].remove(room) =~= Set::<Seq<char>>::empty());
}

/// One subscription change of a room: `true` subscribes, `false` unsubscribes.
pub type RoomOp = (Seq<char>, bool);

/// The registry after the changes `ops`, in order, all on key `id`.
pub open spec fn apply_ops(m: Model, id: Seq<Seq<char>>, ops: Seq<RoomOp>) -> Model
    decreases ops.len(),
{
    if ops.len() == 0 {
        m
    } else {
        let prev = apply_ops(m, id, ops.drop_last());
        if ops.last().1 {
            subscribed(prev, id, ops.last().0)
        } else {
            unsubscribed(prev, id, ops.last().0)
        }
    }
}

/// The last change that `ops` makes for `room`, if any.
pub open spec fn last_op_of(ops: Seq<RoomOp>, room: Seq<char>) -> Option<bool>
    decreases ops.len(),
{
    if ops.len() == 0 {
        None
    } else if ops.last().0 == room {
        Some(ops.last().1)
    } else {
        last_op_of(ops.drop_last(), room)
    }
}

proof fn lemma_rooms_after_change(m: Model, id: Seq<Seq<char>>, room: Seq<char>)
    ensures
        rooms_of(subscribed(m, id, room), id) == rooms_of(m, id).insert(room),
        rooms_of(unsubscribed(m, id, room), id) == rooms_of(m, id).remove(room),
{
    if !m.contains_key(id) {
        assert(Set::<Seq<char>>::empty().remove(room) =~= Set::<Seq<char>>::empty());
    }
}

/// Subscription changes from any number of rooms on one key, taken in any
/// interleaving, leave the key with exactly the rooms whose last change
/// subscribed, besides the rooms that held it before and made no change.
pub proof fn lemma_changes_converge(m: Model, id: Seq<Seq<char>>, ops: Seq<RoomOp>, room: Seq<char>)
    ensures
        rooms_of(apply_ops(m, id, ops), id).contains(room) == match last_op_of(ops, room) {
            Some(sub) => sub,
            None => rooms_of(m, id).contains(room),
        },
    decreases ops.len(),
{
    if ops.len() > 0 {
        let prev = apply_ops(m, id, ops.drop_last());
        lemma_rooms_after_change(prev, id, ops.last().0);
        lemma_changes_converge(m, id, ops.drop_last(), room);
    }
}

} // verus!

//! Reassembly of fragmented payloads. Fragments are kept by packet id until as
//! many have arrived as the fragments declare, or until all of them are older
//! than a given age.
use crate::framing::{FRAGMENT_HEADER_SIZE, chunk_of, fragment_count, fragments_of, lemma_fragment_count};
use vstd::prelude::*;

verus! {

/// What the table remembers of a fragment: its index, its bytes, and the time
/// at which it arrived.
pub type FragmentModel = (u8, Seq<u8>, u64);

/// The table of pending fragments, by packet id.
pub type FragmentTable = Map<u16, Seq<FragmentModel>>;

/// A fragment payload shorter than the fragment header.
#[derive(Debug, Clone, Copy, PartialEq, Eq, Structural)]
pub struct PayloadTooSmall;

struct Fragment {
    index: u8,
    payload: Vec<u8>,
    time_received: u64,
}

impl Fragment {
    spec fn model(&self) -> FragmentModel {
        (self.index, self.payload@, self.time_received)
    }
}

/// The fragments received so far of one packet, in order of arrival.
struct FragmentSet {
    packet_id: u16,
    fragments: Vec<Fragment>,
}

impl FragmentSet {
    spec fn model(&self) -> Seq<FragmentModel> {
        self.fragments@.map_values(|f: Fragment| f.model())
    }
}

/// Pending fragments, by packet id.
pub struct Fragments {
    fragment_map: Vec<FragmentSet>,
}

/// The packet id of a fragment payload: its first two bytes, big-endian.
pub open spec fn fragment_packet_id(payload: Seq<u8>) -> u16 {
    (payload[0] as nat * 256 + payload[1] as nat) as u16
}

/// The fragment that a payload carries, as the table remembers it.
pub open spec fn fragment_model(payload: Seq<u8>, now: u64) -> FragmentModel {
    (payload[2], payload.subrange(4, payload.len() as int), now)
}

/// The fragments of a packet once `payload` has been added to what `m` holds.
pub open spec fn pending_after(m: FragmentTable, payload: Seq<u8>, now: u64) -> Seq<FragmentModel> {
    let id = fragment_packet_id(payload);
    let prior = if m.contains_key(id) {
        m[id]
    } else {
        Seq::empty()
    };
    prior.push(fragment_model(payload, now))
}

/// The bytes of the fragments, concatenated in order of arrival.
pub open spec fn joined(frags: Seq<FragmentModel>) -> Seq<u8>
    decreases frags.len(),
{
    if frags.len() == 0 {
        Seq::empty()
    } else {
        joined(frags.drop_last()) + frags.last().1
    }
}

/// The table after inserting a fragment payload (at least four bytes long),
/// and the packet that it completes, if any. A packet is complete once as
/// many fragments have arrived as the fourth byte of the payload declares.
pub open spec fn insert_spec(m: FragmentTable, payload: Seq<u8>, now: u64) -> (
    FragmentTable,
    Option<Seq<u8>>,
) {
    let id = fragment_packet_id(payload);
    let pending = pending_after(m, payload, now);
    if pending.len() >= payload[3] {
        (m.remove(id), Some(joined(pending)))
    } else {
        (m.insert(id, pending), None)
    }
}

/// How long ago `received` was at `now`; zero for a time after `now`.
pub open spec fn elapsed(received: u64, now: u64) -> nat {
    if now >= received {
        (now - received) as nat
    } else {
        0
    }
}

/// Whether one of the fragments is at most `max_age` old.
pub open spec fn has_recent(frags: Seq<FragmentModel>, max_age: u64, now: u64) -> bool {
    exists|k: int| 0 <= k < frags.len() && elapsed(#[trigger] frags[k].2, now) <= max_age
}

/// The table after purging every packet whose fragments are all older than `max_age`.
pub open spec fn purge_spec(m: FragmentTable, max_age: u64, now: u64) -> FragmentTable {
    Map::new(|id: u16| m.contains_key(id) && has_recent(m[id], max_age, now), |id: u16| m[id])
}

/// The view of a byte vector that may be absent.
pub open spec fn opt_bytes(o: Option<Vec<u8>>) -> Option<Seq<u8>> {
    match o {
        Some(v) => Some(v@),
        None => None,
    }
}

spec fn ids_unique(s: Seq<FragmentSet>) -> bool {
    forall|i: int, j: int|
        0 <= i < s.len() && 0 <= j < s.len() && i != j ==> s[i].packet_id != s[j].packet_id
}

spec fn has_id(s: Seq<FragmentSet>, id: u16) -> bool {
    exists|i: int| 0 <= i < s.len() && (#[trigger] s[i]).packet_id == id
}

spec fn entries_view(s: Seq<FragmentSet>) -> FragmentTable {
    Map::new(
        |id: u16| has_id(s, id),
        |id: u16| s[choose|i: int| 0 <= i < s.len() && (#[trigger] s[i]).packet_id == id].model(),
    )
}

proof fn lemma_view_at(s: Seq<FragmentSet>, i: int)
    requires
        ids_unique(s),
        0 <= i < s.len(),
    ensures
        entries_view(s).contains_key(s[i].packet_id),
        entries_view(s)[s[i].packet_id] == s[i].model(),
{
    let id = s[i].packet_id;
    assert(has_id(s, id));
    let j = choose|j: int| 0 <= j < s.len() && (#[trigger] s[j]).packet_id == id;
    assert(j == i);
}

proof fn lemma_view_remove(s: Seq<FragmentSet>, i: int)
    requires
        ids_unique(s),
        0 <= i < s.len(),
    ensures
        ids_unique(s.remove(i)),
        entries_view(s.remove(i)) == entries_view(s).remove(s[i].packet_id),
{
    let t = s.remove(i);
    let id = s[i].packet_id;
    assert forall|a: int, b: int|
        0 <= a < t.len() && 0 <= b < t.len() && a != b implies t[a].packet_id != t[b].packet_id by {
        let a2 = if a < i { a } else { a + 1 };
        let b2 = if b < i { b } else { b + 1 };
        assert(t[a] == s[a2] && t[b] == s[b2]);
    }
    let lhs = entries_view(t);
    let rhs = entries_view(s).remove(id);
    assert forall|k: u16| lhs.contains_key(k) <==> rhs.contains_key(k) by {
        if lhs.contains_key(k) {
            let a = choose|a: int| 0 <= a < t.len() && (#[trigger] t[a]).packet_id == k;
            let a2 = if a < i { a } else { a + 1 };
            assert(t[a] == s[a2]);
            assert(has_id(s, k));
        }
        if rhs.contains_key(k) {
            let a = choose|a: int| 0 <= a < s.len() && (#[trigger] s[a]).packet_id == k;
            assert(a != i);
            let a2 = if a < i { a } else { a - 1 };
            assert(t[a2] == s[a]);
            assert(has_id(t, k));
        }
    }
    assert forall|k: u16| #[trigger] lhs.contains_key(k) implies lhs[k] == rhs[k] by {
        let a = choose|a: int| 0 <= a < t.len() && (#[trigger] t[a]).packet_id == k;
        lemma_view_at(t, a);
        let a2 = if a < i { a } else { a + 1 };
        assert(t[a] == s[a2]);
        lemma_view_at(s, a2);
    }
    assert(lhs =~= rhs);
}

proof fn lemma_view_push(s: Seq<FragmentSet>, e: FragmentSet)
    requires
        ids_unique(s),
        !has_id(s, e.packet_id),
    ensures
        ids_unique(s.push(e)),
        entries_view(s.push(e)) == entries_view(s).insert(e.packet_id, e.model()),
{
    let t = s.push(e);
    assert forall|a: int, b: int|
        0 <= a < t.len() && 0 <= b < t.len() && a != b implies t[a].packet_id != t[b].packet_id by {
        if a < s.len() && b < s.len() {
            assert(t[a] == s[a] && t[b] == s[b]);
        } else if a < s.len() {
            assert(t[a] == s[a]);
        } else {
            assert(t[b] == s[b]);
        }
    }
    let lhs = entries_view(t);
    let rhs = entries_view(s).insert(e.packet_id, e.model());
    assert forall|k: u16| lhs.contains_key(k) <==> rhs.contains_key(k) by {
        if lhs.contains_key(k) && k != e.packet_id {
            let a = choose|a: int| 0 <= a < t.len() && (#[trigger] t[a]).packet_id == k;
            assert(t[a] == s[a]);
            assert(has_id(s, k));
        }
        if rhs.contains_key(k) {
            if k == e.packet_id {
                assert(t[s.len() as int] == e);
            } else {
                let a = choose|a: int| 0 <= a < s.len() && (#[trigger] s[a]).packet_id == k;
                assert(t[a] == s[a]);
            }
            assert(has_id(t, k));
        }
    }
    assert forall|k: u16| #[trigger] lhs.contains_key(k) implies lhs[k] == rhs[k] by {
        let a = choose|a: int| 0 <= a < t.len() && (#[trigger] t[a]).packet_id == k;
        lemma_view_at(t, a);
        if a < s.len() {
            assert(t[a] == s[a]);
            lemma_view_at(s, a);
        }
    }
    assert(lhs =~= rhs);
}

impl View for Fragments {
    type V = FragmentTable;

    closed spec fn view(&self) -> FragmentTable {
        entries_view(self.fragment_map@)
    }
}

/// Copies the bytes of `src` into a new vector.
fn copy_bytes(src: &[u8]) -> (r: Vec<u8>)
    ensures
        r@ == src@,
{
    vstd::slice::slice_to_vec(src)
}

/// Whether one of the fragments is at most `max_age` old at `now`.
fn any_recent(frags: &Vec<Fragment>, max_age: u64, now: u64) -> (r: bool)
    ensures
        r == has_recent(frags@.map_values(|f: Fragment| f.model()), max_age, now),
{
    let ghost ms = frags@.map_values(|f: Fragment| f.model());
    let mut k: usize = 0;
    while k < frags.len()
        invariant
            k <= frags@.len(),
            ms == frags@.map_values(|f: Fragment| f.model()),
            forall|j: int| 0 <= j < k ==> elapsed(#[trigger] ms[j].2, now) > max_age,
        decreases frags@.len() - k,
    {
        let t = frags[k].time_received;
        let age: u64 = if now >= t {
            now - t
        } else {
            0
        };
        if age <= max_age {
            assert(elapsed(ms[k as int].2, now) <= max_age);
            return true;
        }
        k = k + 1;
    }
    false
}

/// The bytes of the fragments, concatenated in order of arrival.
fn join_fragments(frags: &Vec<Fragment>) -> (r: Vec<u8>)
    ensures
        r@ == joined(frags@.map_values(|f: Fragment| f.model())),
{
    let ghost ms = frags@.map_values(|f: Fragment| f.model());
    let mut out: Vec<u8> = Vec::new();
    let mut k: usize = 0;
    assert(ms.subrange(0, 0) =~= Seq::<FragmentModel>::empty());
    while k < frags.len()
        invariant
            k <= frags@.len(),
            ms == frags@.map_values(|f: Fragment| f.model()),
            out@ == joined(ms.subrange(0, k as int)),
        decreases frags@.len() - k,
    {
        crate::framing::push_bytes(&mut out, frags[k].payload.as_slice());
        assert(ms.subrange(0, k + 1).drop_last() =~= ms.subrange(0, k as int));
        k = k + 1;
    }
    assert(ms.subrange(0, k as int) =~= ms);
    out
}

impl Fragments {
    /// The invariant: no packet id has two entries.
    pub closed spec fn wf(&self) -> bool {
        ids_unique(self.fragment_map@)
    }

    /// An empty table.
    pub fn new() -> (r: Fragments)
        ensures
            r.wf(),
            r@ == FragmentTable::empty(),
    {
        let r = Fragments { fragment_map: Vec::new() };
        assert(r@ =~= FragmentTable::empty());
        r
    }

    fn find(&self, id: u16) -> (r: Option<usize>)
        requires
            self.wf(),
        ensures
            match r {
                Some(i) => i < self.fragment_map@.len() && self.fragment_map@[i as int].packet_id
                    == id,
                None => !self@.contains_key(id),
            },
    {
        let mut i: usize = 0;
        while i < self.fragment_map.len()
            invariant
                i <= self.fragment_map@.len(),
                forall|j: int| 0 <= j < i ==> (#[trigger] self.fragment_map@[j]).packet_id != id,
            decreases self.fragment_map@.len() - i,
        {
            if self.fragment_map[i].packet_id == id {
                return Some(i);
            }
            i = i + 1;
        }
        None
    }

    /// Adds a fragment payload: packet id (2 bytes, big-endian), index, count,
    /// then the fragment's bytes. Returns the packet's bytes once as many
    /// fragments of it have arrived as the count says, concatenated in order
    /// of arrival, and forgets them. `now` is the time of arrival.
    pub fn insert(&mut self, payload: &[u8], now: u64) -> (r: Result<Option<Vec<u8>>, PayloadTooSmall>)
        requires
            old(self).wf(),
        ensures
            final(self).wf(),
            payload@.len() < FRAGMENT_HEADER_SIZE ==> r is Err && final(self)@ == old(self)@,
            payload@.len() >= FRAGMENT_HEADER_SIZE ==> {
                let (table, out) = insert_spec(old(self)@, payload@, now);
                &&& r matches Ok(o) && opt_bytes(o) == out
                &&& final(self)@ == table
            },
    {
        if payload.len() < FRAGMENT_HEADER_SIZE {
            return Err(PayloadTooSmall);
        }
        let id: u16 = payload[0] as u16 * 256 + payload[1] as u16;
        let index = payload[2];
        let fragment_count = payload[3];
        let fragment = Fragment {
            index,
            payload: copy_bytes(&payload[4..payload.len()]),
            time_received: now,
        };
        assert(fragment.model() == fragment_model(payload@, now));
        let ghost prior = self.fragment_map@;
        let mut set = match self.find(id) {
            Some(i) => {
                proof {
                    lemma_view_at(self.fragment_map@, i as int);
                    lemma_view_remove(self.fragment_map@, i as int);
                }
                self.fragment_map.remove(i)
            },
            None => {
                assert(entries_view(self.fragment_map@).remove(id) =~= entries_view(
                    self.fragment_map@,
                ));
                FragmentSet { packet_id: id, fragments: Vec::new() }
            },
        };
        let ghost before_push = set.model();
        assert(before_push == if entries_view(prior).contains_key(id) {
            entries_view(prior)[id]
        } else {
            Seq::empty()
        });
        set.fragments.push(fragment);
        assert(set.model() =~= before_push.push(fragment.model()));
        proof {
            assert(!entries_view(self.fragment_map@).contains_key(id));
            lemma_view_push(self.fragment_map@, set);
        }
        self.fragment_map.push(set);
        assert(self@ == entries_view(prior).remove(id).insert(id, pending_after(
            entries_view(prior),
            payload@,
            now,
        )));
        let out = self.try_fetch(id, fragment_count);
        proof {
            let m = entries_view(prior);
            let p = pending_after(m, payload@, now);
            assert(m.remove(id).insert(id, p) =~= m.insert(id, p));
            assert(m.insert(id, p).remove(id) =~= m.remove(id));
        }
        Ok(out)
    }

    /// Takes the fragments of packet `id` out of the table, concatenated, if
    /// at least `fragment_count` of them have arrived.
    fn try_fetch(&mut self, id: u16, fragment_count: u8) -> (r: Option<Vec<u8>>)
        requires
            old(self).wf(),
        ensures
            final(self).wf(),
            if old(self)@.contains_key(id) && old(self)@[id].len() >= fragment_count {
                &&& opt_bytes(r) == Some(joined(old(self)@[id]))
                &&& final(self)@ == old(self)@.remove(id)
            } else {
                &&& r is None
                &&& final(self)@ == old(self)@
            },
    {
        let i = match self.find(id) {
            None => return None,
            Some(i) => i,
        };
        proof {
            lemma_view_at(self.fragment_map@, i as int);
        }
        if self.fragment_map[i].fragments.len() < fragment_count as usize {
            return None;
        }
        proof {
            lemma_view_remove(self.fragment_map@, i as int);
        }
        let set = self.fragment_map.remove(i);
        let payload = join_fragments(&set.fragments);
        Some(payload)
    }

    /// Forgets every packet whose fragments all arrived more than `max_age`
    /// before `now`.
    pub fn clear_old_fragments(&mut self, max_age: u64, now: u64)
        requires
            old(self).wf(),
        ensures
            final(self).wf(),
            final(self)@ == purge_spec(old(self)@, max_age, now),
    {
        let ghost orig = self.fragment_map@;
        let ghost n = orig.len();
        let ghost m0 = entries_view(orig);
        let ghost mut k: int = 0;
        let mut i: usize = 0;
        assert(self.fragment_map@.subrange(0, self.fragment_map@.len() as int) =~= orig.subrange(
            0,
            n as int,
        ));
        assert(entries_view(self.fragment_map@) =~= Map::new(
            |id: u16|
                m0.contains_key(id) && (has_id(orig.subrange(0, n as int), id) || has_recent(
                    m0[id],
                    max_age,
                    now,
                )),
            |id: u16| m0[id],
        )) by {
            assert forall|id: u16| has_id(orig, id) implies has_id(orig.subrange(0, n as int), id) by {
                let a = choose|a: int| 0 <= a < orig.len() && (#[trigger] orig[a]).packet_id == id;
                assert(orig.subrange(0, n as int)[a] == orig[a]);
            }
        }
        while i < self.fragment_map.len()
            invariant
                ids_unique(orig),
                m0 == entries_view(orig),
                n == orig.len(),
                0 <= k <= n,
                i <= self.fragment_map@.len(),
                ids_unique(self.fragment_map@),
                self.fragment_map@.subrange(i as int, self.fragment_map@.len() as int)
                    == orig.subrange(k, n as int),
                entries_view(self.fragment_map@) == Map::new(
                    |id: u16|
                        m0.contains_key(id) && (has_id(orig.subrange(k, n as int), id)
                            || has_recent(m0[id], max_age, now)),
                    |id: u16| m0[id],
                ),
            decreases self.fragment_map@.len() - i,
        {
            let ghost cur = self.fragment_map@;
            let ghost id = cur[i as int].packet_id;
            assert(cur.subrange(i as int, cur.len() as int).len() == orig.subrange(k, n as int).len());
            assert(k < n);
            assert(cur[i as int] == orig[k]) by {
                assert(cur.subrange(i as int, cur.len() as int)[0] == cur[i as int]);
                assert(orig.subrange(k, n as int)[0] == orig[k]);
            }
            proof {
                lemma_view_at(orig, k);
                lemma_view_at(cur, i as int);
            }
            let keep = any_recent(&self.fragment_map[i].fragments, max_age, now);
            let ghost rest_before = orig.subrange(k, n as int);
            let ghost rest_after = orig.subrange(k + 1, n as int);
            assert forall|x: u16| x != id implies has_id(rest_before, x) == has_id(rest_after, x) by {
                if has_id(rest_before, x) {
                    let a = choose|a: int| 0 <= a < rest_before.len() && (#[trigger] rest_before[a]).packet_id == x;
                    assert(a != 0);
                    assert(rest_after[a - 1] == rest_before[a]);
                }
                if has_id(rest_after, x) {
                    let a = choose|a: int| 0 <= a < rest_after.len() && (#[trigger] rest_after[a]).packet_id == x;
                    assert(rest_before[a + 1] == rest_after[a]);
                }
            }
            assert(!has_id(rest_after, id)) by {
                if has_id(rest_after, id) {
                    let a = choose|a: int| 0 <= a < rest_after.len() && (#[trigger] rest_after[a]).packet_id == id;
                    assert(rest_after[a] == orig[k + 1 + a]);
                }
            }
            assert(has_id(rest_before, id)) by {
                assert(rest_before[0] == orig[k]);
            }
            if keep {
                i = i + 1;
                assert(self.fragment_map@.subrange(i as int, self.fragment_map@.len() as int)
                    =~= orig.subrange(k + 1, n as int)) by {
                    assert(cur.subrange(i as int, cur.len() as int) =~= cur.subrange(
                        i - 1,
                        cur.len() as int,
                    ).subrange(1, cur.len() - i + 1));
                }
            } else {
                proof {
                    lemma_view_remove(cur, i as int);
                }
                self.fragment_map.remove(i);
                assert(self.fragment_map@.subrange(i as int, self.fragment_map@.len() as int)
                    =~= orig.subrange(k + 1, n as int)) by {
                    assert(self.fragment_map@.subrange(i as int, self.fragment_map@.len() as int)
                        =~= cur.subrange(i + 1, cur.len() as int));
                    assert(cur.subrange(i + 1, cur.len() as int) =~= cur.subrange(
                        i as int,
                        cur.len() as int,
                    ).subrange(1, cur.len() - i));
                }
            }
            proof {
                k = k + 1;
            }
            assert(entries_view(self.fragment_map@) =~= Map::new(
                |id: u16|
                    m0.contains_key(id) && (has_id(orig.subrange(k, n as int), id) || has_recent(
                        m0[id],
                        max_age,
                        now,
                    )),
                |id: u16| m0[id],
            ));
        }
        assert(k == n) by {
            if k < n {
                assert(orig.subrange(k, n as int).len() > 0);
            }
        }
        assert(entries_view(self.fragment_map@) =~= purge_spec(m0, max_age, now)) by {
            assert forall|id: u16| !has_id(orig.subrange(n as int, n as int), id) by {}
        }
    }
}

/// The table after each of `datagrams` (fragment datagrams, context byte
/// first) has been inserted in turn, and what the last insertion returned.
pub open spec fn feed(m: FragmentTable, datagrams: Seq<Seq<u8>>, now: u64) -> (
    FragmentTable,
    Option<Seq<u8>>,
)
    decreases datagrams.len(),
{
    if datagrams.len() == 0 {
        (m, None)
    } else {
        let d = datagrams.last();
        insert_spec(feed(m, datagrams.drop_last(), now).0, d.subrange(1, d.len() as int), now)
    }
}

spec fn chunk_models(payload: Seq<u8>, max: nat, j: nat, now: u64) -> Seq<FragmentModel> {
    Seq::new(j, |k: int| (k as u8, chunk_of(payload, max, k as nat), now))
}

proof fn lemma_feed_prefix(m: FragmentTable, payload: Seq<u8>, max: nat, packet_id: u16, now: u64, j: nat)
    requires
        max > 0,
        fragment_count(payload.len(), max) <= 255,
        !m.contains_key(packet_id),
        j < fragment_count(payload.len(), max),
    ensures
        feed(m, fragments_of(payload, max, packet_id).take(j as int), now) == (if j == 0 {
            (m, None::<Seq<u8>>)
        } else {
            (m.insert(packet_id, chunk_models(payload, max, j, now)), None::<Seq<u8>>)
        }),
        joined(chunk_models(payload, max, j, now)) == payload.subrange(0, (j * max) as int),
    decreases j,
{
    let frags = fragments_of(payload, max, packet_id);
    let n = fragment_count(payload.len(), max);
    if j == 0 {
        assert(frags.take(0) =~= Seq::<Seq<u8>>::empty());
        assert(chunk_models(payload, max, 0, now) =~= Seq::<FragmentModel>::empty());
        assert(payload.subrange(0, 0) =~= Seq::<u8>::empty());
        assert(0 * max == 0);
        assert(joined(Seq::<FragmentModel>::empty()) == Seq::<u8>::empty());
    } else {
        let i = (j - 1) as nat;
        lemma_feed_prefix(m, payload, max, packet_id, now, i);
        lemma_fragment_count(payload.len(), max, i);
        lemma_fragment_count(payload.len(), max, j);
        assert(frags.take(j as int).drop_last() =~= frags.take(i as int));
        let d = frags[i as int];
        assert(frags.take(j as int).last() == d);
        let body = d.subrange(1, d.len() as int);
        let chunk = chunk_of(payload, max, i);
        assert(body =~= seq![(packet_id / 256) as u8, (packet_id % 256) as u8, i as u8, n as u8] + chunk);
        assert(fragment_packet_id(body) == packet_id);
        assert(body[3] == n);
        assert(body[2] == i as u8);
        assert(body.subrange(4, body.len() as int) =~= chunk);
        assert(fragment_model(body, now) == (i as u8, chunk, now));
        let prev = feed(m, frags.take(i as int), now).0;
        if i == 0 {
            assert(!prev.contains_key(packet_id));
        } else {
            assert(prev.contains_key(packet_id) && prev[packet_id] == chunk_models(payload, max, i, now));
        }
        assert(chunk_models(payload, max, j, now) =~= (if i == 0 {
            Seq::<FragmentModel>::empty()
        } else {
            chunk_models(payload, max, i, now)
        }).push((i as u8, chunk, now)));
        assert(pending_after(prev, body, now) == chunk_models(payload, max, j, now));
        assert(chunk_models(payload, max, j, now).drop_last() =~= chunk_models(payload, max, i, now));
        assert(j * max == i * max + max) by (nonlinear_arith)
            requires
                j == i + 1,
        ;
        assert(payload.subrange(0, (i * max) as int) + chunk =~= payload.subrange(0, (j * max) as int));
        if i > 0 {
            assert(m.insert(packet_id, chunk_models(payload, max, i, now)).insert(packet_id, chunk_models(payload, max, j, now))
                =~= m.insert(packet_id, chunk_models(payload, max, j, now)));
        }
    }
}

/// Fragmenting a payload that exceeds `max` and inserting its fragments, in
/// order, into a table that holds nothing for the packet id: every fragment
/// but the last returns nothing, the last returns exactly the payload, and
/// the table is left as it was.
pub proof fn lemma_fragments_reassemble(m: FragmentTable, payload: Seq<u8>, max: nat, packet_id: u16, now: u64)
    requires
        max > 0,
        payload.len() > max,
        fragment_count(payload.len(), max) <= 255,
        !m.contains_key(packet_id),
    ensures
        feed(m, fragments_of(payload, max, packet_id), now) == (m, Some(payload)),
        forall|j: int|
            0 <= j < fragments_of(payload, max, packet_id).len() ==> (#[trigger] feed(
                m,
                fragments_of(payload, max, packet_id).take(j),
                now,
            )).1 is None,
{
    let frags = fragments_of(payload, max, packet_id);
    let n = fragment_count(payload.len(), max);
    assert forall|j: int| 0 <= j < frags.len() implies (#[trigger] feed(m, frags.take(j), now)).1 is None by {
        lemma_feed_prefix(m, payload, max, packet_id, now, j as nat);
    }
    lemma_fragment_count(payload.len(), max, 1);
    assert(n >= 2);
    let i = (n - 1) as nat;
    assert(frags.len() == n);
    lemma_feed_prefix(m, payload, max, packet_id, now, i);
    lemma_fragment_count(payload.len(), max, i);
    lemma_fragment_count(payload.len(), max, n);
    assert(frags.take(n as int) =~= frags);
    assert(frags.take(n as int).drop_last() =~= frags.take(i as int));
    let d = frags[i as int];
    let body = d.subrange(1, d.len() as int);
    let chunk = chunk_of(payload, max, i);
    assert(body =~= seq![(packet_id / 256) as u8, (packet_id % 256) as u8, i as u8, n as u8] + chunk);
    assert(fragment_packet_id(body) == packet_id);
    assert(body[3] == n);
    assert(body[2] == i as u8);
    assert(body.subrange(4, body.len() as int) =~= chunk);
    assert(fragment_model(body, now) == (i as u8, chunk, now));
    let prev = feed(m, frags.take(i as int), now).0;
    assert(prev.contains_key(packet_id) && prev[packet_id] == chunk_models(payload, max, i, now));
    assert(n * max == i * max + max) by (nonlinear_arith)
        requires
            n == i + 1,
    ;
    assert(chunk_models(payload, max, n, now) =~= chunk_models(payload, max, i, now).push((i as u8, chunk, now)));
    assert(pending_after(prev, body, now) == chunk_models(payload, max, n, now));
    assert(chunk_models(payload, max, n, now).drop_last() =~= chunk_models(payload, max, i, now));
    assert(payload.subrange(0, (i * max) as int) + chunk =~= payload);
    assert(m.insert(packet_id, chunk_models(payload, max, i, now)).remove(packet_id) =~= m);
}

/// Once a packet has been completed and handed out, a later fragment with the
/// same packet id starts a new set that holds that fragment alone.
pub proof fn lemma_completed_packet_starts_fresh(
    m: FragmentTable,
    first: Seq<u8>,
    t1: u64,
    second: Seq<u8>,
    t2: u64,
)
    requires
        first.len() >= FRAGMENT_HEADER_SIZE,
        second.len() >= FRAGMENT_HEADER_SIZE,
        insert_spec(m, first, t1).1 is Some,
        fragment_packet_id(second) == fragment_packet_id(first),
    ensures
        !insert_spec(m, first, t1).0.contains_key(fragment_packet_id(first)),
        pending_after(insert_spec(m, first, t1).0, second, t2) == seq![fragment_model(second, t2)],
{
    assert(Seq::<FragmentModel>::empty().push(fragment_model(second, t2)) =~= seq![fragment_model(second, t2)]);
}

/// Purging removes every packet whose fragments are all older than
/// `max_age`, whether complete or not, and keeps every other packet with its
/// fragments unchanged.
pub proof fn lemma_purge_keeps_recent(m: FragmentTable, max_age: u64, now: u64, id: u16)
    requires
        m.contains_key(id),
    ensures
        !has_recent(m[id], max_age, now) ==> !purge_spec(m, max_age, now).contains_key(id),
        has_recent(m[id], max_age, now) ==> purge_spec(m, max_age, now).contains_key(id)
            && purge_spec(m, max_age, now)[id] == m[id],
{
}

impl Default for Fragments {
    fn default() -> (r: Fragments)
        ensures
            r.wf(),
            r@ == FragmentTable::empty(),
    {
        Fragments::new()
    }
}

} // verus!

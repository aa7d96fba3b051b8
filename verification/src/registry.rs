use vstd::prelude::*;
use crate::error::HttpError;

verus! {

/// One dispatched request whose response headers have arrived and whose body
/// may still be streaming. `status` and `headers` are captured once and
/// immutable thereafter. `buf` holds body bytes the transport has delivered
/// but the caller has not yet consumed; `consumed` is the body cursor;
/// `eof` and `failed` record that the transport finished or broke the
/// stream; `last_activity` is the timestamp of the latest successful read,
/// driving idle eviction.
pub struct InFlight {
    pub id: u64,
    pub status: u16,
    pub headers: Vec<(String, String)>,
    pub buf: Vec<u8>,
    pub consumed: u64,
    pub eof: bool,
    pub failed: bool,
    pub last_activity: u64,
}

/// What one body read yields: a (possibly empty) chunk, the single
/// end-of-body marker, or the instruction to wait for the transport to
/// deliver more before asking again.
#[derive(Debug)]
pub enum ReadStep {
    Chunk(Vec<u8>),
    EndOfBody,
    Pending,
}

/// Per-entry well-formedness: the cursor plus the undelivered buffer never
/// leaves the id's 64-bit byte space (the registry turns a longer body into
/// a stream failure rather than overflowing).
pub open spec fn entry_wf(e: InFlight, next_id: u64) -> bool {
    e.id < next_id && e.consumed + e.buf@.len() <= u64::MAX
}

/// No two entries share an id.
pub open spec fn unique_ids(s: Seq<InFlight>) -> bool {
    forall|i: int, j: int| 0 <= i < j < s.len() ==> #[trigger] s[i].id != #[trigger] s[j].id
}

/// The mapping an entry sequence denotes.
pub open spec fn reg_map(s: Seq<InFlight>) -> Map<u64, InFlight>
    decreases s.len(),
{
    if s.len() == 0 {
        Map::empty()
    } else {
        reg_map(s.drop_last()).insert(s.last().id, s.last())
    }
}

/// An id is in the mapping exactly when some entry carries it.
pub proof fn lemma_reg_map_contains(s: Seq<InFlight>, k: u64)
    ensures
        reg_map(s).contains_key(k) <==> exists|i: int| 0 <= i < s.len() && (#[trigger] s[i]).id
            == k,
    decreases s.len(),
{
    if s.len() > 0 {
        lemma_reg_map_contains(s.drop_last(), k);
        if s.last().id == k {
            assert(s[s.len() - 1].id == k);
        } else if reg_map(s).contains_key(k) {
            let i = choose|i: int| 0 <= i < s.drop_last().len() && s.drop_last()[i].id == k;
            assert(s[i].id == k);
        } else {
            assert forall|i: int| 0 <= i < s.len() implies (#[trigger] s[i]).id != k by {
                if i < s.len() - 1 {
                    assert(s.drop_last()[i] == s[i]);
                }
            }
        }
    }
}

/// Unique ids survive dropping the last entry.
proof fn lemma_unique_drop_last(s: Seq<InFlight>)
    requires
        unique_ids(s),
        s.len() > 0,
    ensures
        unique_ids(s.drop_last()),
{
    assert forall|a: int, b: int|
        0 <= a < b < s.drop_last().len() implies (#[trigger] s.drop_last()[a]).id
        != (#[trigger] s.drop_last()[b]).id by {
        assert(s.drop_last()[a] == s[a] && s.drop_last()[b] == s[b]);
    }
}

/// Under unique ids, the mapping sends each entry's id to that entry.
pub proof fn lemma_reg_map_get(s: Seq<InFlight>, i: int)
    requires
        unique_ids(s),
        0 <= i < s.len(),
    ensures
        reg_map(s).contains_key(s[i].id),
        reg_map(s)[s[i].id] == s[i],
    decreases s.len(),
{
    if i == s.len() - 1 {
    } else {
        lemma_unique_drop_last(s);
        assert(s.drop_last()[i] == s[i]);
        lemma_reg_map_get(s.drop_last(), i);
        assert(s[i].id != s[s.len() - 1].id);
    }
}

/// Appending an entry inserts its id.
pub proof fn lemma_reg_map_push(s: Seq<InFlight>, e: InFlight)
    ensures
        reg_map(s.push(e)) =~= reg_map(s).insert(e.id, e),
{
    assert(s.push(e).drop_last() =~= s);
    assert(s.push(e).last() == e);
}

/// Under unique ids, removing the entry at `i` removes exactly its id from
/// the mapping.
pub proof fn lemma_reg_map_remove(s: Seq<InFlight>, i: int)
    requires
        unique_ids(s),
        0 <= i < s.len(),
    ensures
        reg_map(s.remove(i)) =~= reg_map(s).remove(s[i].id),
    decreases s.len(),
{
    let t = s.remove(i);
    if i == s.len() - 1 {
        assert(t =~= s.drop_last());
        lemma_unique_drop_last(s);
        lemma_reg_map_contains(t, s[i].id);
        assert forall|j: int| 0 <= j < t.len() implies (#[trigger] t[j]).id != s[i].id by {
            assert(t[j] == s[j]);
        }
        assert(reg_map(t) =~= reg_map(t).insert(s[i].id, s[i]).remove(s[i].id));
    } else {
        lemma_unique_drop_last(s);
        lemma_reg_map_remove(s.drop_last(), i);
        assert(t.drop_last() =~= s.drop_last().remove(i));
        assert(t.last() == s.last());
        assert(s[i].id != s[s.len() - 1].id);
        assert(reg_map(t) =~= reg_map(s).remove(s[i].id));
    }
}

/// Unique ids survive removal.
proof fn lemma_unique_remove(s: Seq<InFlight>, i: int)
    requires
        unique_ids(s),
        0 <= i < s.len(),
    ensures
        unique_ids(s.remove(i)),
{
    let t = s.remove(i);
    assert forall|a: int, b: int|
        0 <= a < b < t.len() implies (#[trigger] t[a]).id != (#[trigger] t[b]).id by {
        let a0 = if a < i {
            a
        } else {
            a + 1
        };
        let b0 = if b < i {
            b
        } else {
            b + 1
        };
        assert(t[a] == s[a0] && t[b] == s[b0]);
    }
}

/// In `m1`, every id other than `id` is bound exactly as in `m0`.
pub open spec fn unchanged_except(m0: Map<u64, InFlight>, m1: Map<u64, InFlight>, id: u64) -> bool {
    forall|k: u64|
        k != id ==> (#[trigger] m1.contains_key(k) == m0.contains_key(k) && (m0.contains_key(k)
            ==> m1[k] == m0[k]))
}

/// What was captured at dispatch and never changes afterwards.
pub open spec fn same_dispatch_meta(e0: InFlight, e1: InFlight) -> bool {
    e1.id == e0.id && e1.status == e0.status && e1.headers == e0.headers
}

/// How many bytes one read of up to `max` bytes takes from `e`'s buffer.
pub open spec fn spec_chunk_len(e: InFlight, max: usize) -> int {
    if max as int <= e.buf@.len() {
        max as int
    } else {
        e.buf@.len() as int
    }
}

/// Entry `e1` is `e0` after a successful read of `k` body bytes at time
/// `now`: the cursor advanced past exactly the bytes handed out, the
/// buffer lost its first `k` bytes, the activity stamp was refreshed, and
/// everything captured at dispatch is untouched.
pub open spec fn entry_after_read(e0: InFlight, e1: InFlight, k: int, now: u64) -> bool {
    &&& e1.id == e0.id
    &&& e1.status == e0.status
    &&& e1.headers == e0.headers
    &&& e1.buf@ == e0.buf@.subrange(k, e0.buf@.len() as int)
    &&& e1.consumed == e0.consumed + k
    &&& e1.eof == e0.eof
    &&& e1.failed == e0.failed
    &&& e1.last_activity == now
}

/// An entry is idle at `now`: its last activity lies at least `idle_limit`
/// in the past. A stamp in the future (clock skew) counts as activity.
pub open spec fn idle(e: InFlight, now: u64, idle_limit: u64) -> bool {
    e.last_activity <= now && now - e.last_activity >= idle_limit
}

/// Splits the first `k` bytes off a byte vector.
fn split_front(v: Vec<u8>, k: usize) -> (r: (Vec<u8>, Vec<u8>))
    requires
        k <= v@.len(),
    ensures
        r.0@ == v@.subrange(0, k as int),
        r.1@ == v@.subrange(k as int, v@.len() as int),
{
    let n: usize = v.len();
    let mut head: Vec<u8> = Vec::new();
    let mut i: usize = 0;
    while i < k
        invariant
            k <= n,
            n == v@.len(),
            i <= k,
            head@ =~= v@.subrange(0, i as int),
        decreases k - i,
    {
        head.push(v[i]);
        assert(head@ =~= v@.subrange(0, i + 1));
        i += 1;
    }
    let mut tail: Vec<u8> = Vec::new();
    let mut j: usize = k;
    while j < n
        invariant
            k <= n,
            n == v@.len(),
            k <= j <= n,
            tail@ =~= v@.subrange(k as int, j as int),
        decreases n - j,
    {
        tail.push(v[j]);
        assert(tail@ =~= v@.subrange(k as int, j + 1));
        j += 1;
    }
    (head, tail)
}

/// The in-flight-request registry: the id-to-entry mapping shared by the
/// four commands. The embedding program guards it with its own lock,
/// distinct from the cookie-jar lock; each operation here is one short
/// critical section, and streaming transfers hold the lock only for the
/// buffer handoff, never for the duration of a transport wait.
pub struct Registry {
    entries: Vec<InFlight>,
    next_id: u64,
}

impl View for Registry {
    type V = Map<u64, InFlight>;

    closed spec fn view(&self) -> Map<u64, InFlight> {
        reg_map(self.entries@)
    }
}

impl Registry {
    /// The registry's entries as stored.
    pub closed spec fn entries_seq(&self) -> Seq<InFlight> {
        self.entries@
    }

    /// The next identifier to be handed out. Identifiers grow
    /// monotonically, so none is ever reused while any allocation of it
    /// could still be reachable.
    pub closed spec fn spec_next_id(&self) -> u64 {
        self.next_id
    }

    /// Well-formedness: ids are unique, every id already handed out lies
    /// below `next_id` (freshness), and every cursor stays in range.
    pub open spec fn wf(&self) -> bool {
        &&& unique_ids(self.entries_seq())
        &&& forall|i: int|
            0 <= i < self.entries_seq().len() ==> entry_wf(
                #[trigger] self.entries_seq()[i],
                self.spec_next_id(),
            )
    }

    /// Ids still available: the registry can admit another request.
    pub open spec fn spec_can_allocate(&self) -> bool {
        self.spec_next_id() < u64::MAX
    }

    /// An empty registry whose first id will be 0.
    pub fn new() -> (r: Registry)
        ensures
            r.wf(),
            r@ =~= Map::<u64, InFlight>::empty(),
            r.spec_next_id() == 0,
    {
        Registry { entries: Vec::new(), next_id: 0 }
    }

    /// Whether another id can still be allocated (64-bit id space).
    pub fn can_allocate(&self) -> (r: bool)
        ensures
            r == self.spec_can_allocate(),
    {
        self.next_id < u64::MAX
    }

    /// Whether `id` is currently in flight.
    pub fn contains(&self, id: u64) -> (r: bool)
        ensures
            r == self@.contains_key(id),
    {
        proof {
            lemma_reg_map_contains(self.entries_seq(), id);
        }
        match self.find_index(id) {
            Some(_) => true,
            None => false,
        }
    }

    /// The storage index of entry `id`, if present.
    fn find_index(&self, id: u64) -> (r: Option<usize>)
        ensures
            match r {
                Some(i) => i < self.entries_seq().len() && self.entries_seq()[i as int].id == id,
                None => forall|i: int|
                    0 <= i < self.entries_seq().len() ==> (#[trigger] self.entries_seq()[i]).id
                        != id,
            },
    {
        let n: usize = self.entries.len();
        let mut i: usize = 0;
        while i < n
            invariant
                n == self.entries_seq().len(),
                i <= n,
                forall|j: int| 0 <= j < i ==> (#[trigger] self.entries_seq()[j]).id != id,
            decreases n - i,
        {
            if self.entries[i].id == id {
                return Some(i);
            }
            i += 1;
        }
        None
    }

    /// Admits a dispatched request whose response headers just arrived:
    /// allocates the fresh id, stores the entry with an empty body buffer
    /// and zero cursor, and returns the id. Requires id space (a machine
    /// limit: identifiers are 64-bit and never reused). A failed dispatch
    /// never reaches this point, so it never allocates an id.
    pub fn insert_response(
        &mut self,
        status: u16,
        headers: Vec<(String, String)>,
        now: u64,
    ) -> (id: u64)
        requires
            old(self).wf(),
            old(self).spec_can_allocate(),
        ensures
            final(self).wf(),
            id == old(self).spec_next_id(),
            final(self).spec_next_id() == id + 1,
            !old(self)@.contains_key(id),
            final(self)@.contains_key(id),
            unchanged_except(old(self)@, final(self)@, id),
            final(self)@[id].id == id,
            final(self)@[id].status == status,
            final(self)@[id].headers == headers,
            final(self)@[id].buf@ == Seq::<u8>::empty(),
            final(self)@[id].consumed == 0,
            final(self)@[id].eof == false,
            final(self)@[id].failed == false,
            final(self)@[id].last_activity == now,
    {
        let id = self.next_id;
        let entry = InFlight {
            id,
            status,
            headers,
            buf: Vec::new(),
            consumed: 0,
            eof: false,
            failed: false,
            last_activity: now,
        };
        proof {
            lemma_reg_map_contains(self.entries_seq(), id);
            lemma_reg_map_push(self.entries_seq(), entry);
        }
        let ghost s0 = self.entries@;
        self.entries.push(entry);
        self.next_id = id + 1;
        proof {
            assert forall|a: int, b: int|
                0 <= a < b < self.entries@.len() implies (#[trigger] self.entries@[a]).id
                != (#[trigger] self.entries@[b]).id by {
                if b < s0.len() {
                    assert(s0[a].id != s0[b].id);
                } else {
                    assert(entry_wf(s0[a], id));
                }
            }
        }
        id
    }

    /// Cancels `id`: evicts the entry if present, a no-op otherwise —
    /// idempotent by design, never an error. The embedding program aborts
    /// the transport work for `id` alongside this call; any reader then
    /// finds the id gone and gets the recoverable `UnknownRequestId`.
    pub fn cancel(&mut self, id: u64)
        requires
            old(self).wf(),
        ensures
            final(self).wf(),
            final(self).spec_next_id() == old(self).spec_next_id(),
            final(self)@ =~= old(self)@.remove(id),
    {
        proof {
            lemma_reg_map_contains(self.entries_seq(), id);
        }
        match self.find_index(id) {
            Some(i) => {
                proof {
                    lemma_reg_map_remove(self.entries_seq(), i as int);
                    lemma_unique_remove(self.entries_seq(), i as int);
                }
                let ghost s0 = self.entries@;
                self.entries.remove(i);
                assert(self.entries@ =~= s0.remove(i as int));
                assert forall|j: int|
                    0 <= j < self.entries@.len() implies entry_wf(
                    #[trigger] self.entries@[j],
                    self.next_id,
                ) by {
                    let j0 = if j < i as int {
                        j
                    } else {
                        j + 1
                    };
                    assert(self.entries@[j] == s0[j0]);
                }
            },
            None => {
                assert(!self@.contains_key(id));
                assert(self@ =~= self@.remove(id));
            },
        }
    }

    /// Borrows the entry for `id`, for the embedding program to report
    /// status and headers to the caller.
    pub fn get_entry(&self, id: u64) -> (r: Option<&InFlight>)
        requires
            self.wf(),
        ensures
            match r {
                Some(e) => self@.contains_key(id) && *e == self@[id],
                None => !self@.contains_key(id),
            },
    {
        proof {
            lemma_reg_map_contains(self.entries_seq(), id);
        }
        match self.find_index(id) {
            Some(i) => {
                proof {
                    lemma_reg_map_get(self.entries_seq(), i as int);
                }
                Some(&self.entries[i])
            },
            None => None,
        }
    }

    /// The transport delivered `bytes` of the body of `id`. They are
    /// appended to the entry's buffer; if the body would outgrow the
    /// 64-bit cursor space the entry is marked failed instead (surfacing
    /// as `StreamError` on the next read). Delivery to a departed id is a
    /// no-op: the transport may race a cancellation.
    pub fn deliver(&mut self, id: u64, bytes: Vec<u8>)
        requires
            old(self).wf(),
        ensures
            final(self).wf(),
            final(self).spec_next_id() == old(self).spec_next_id(),
            !old(self)@.contains_key(id) ==> final(self)@ =~= old(self)@,
            old(self)@.contains_key(id) ==> {
                let e0 = old(self)@[id];
                let e1 = final(self)@[id];
                &&& final(self)@.contains_key(id)
                &&& unchanged_except(old(self)@, final(self)@, id)
                &&& same_dispatch_meta(e0, e1)
                &&& e1.consumed == e0.consumed
                &&& e1.eof == e0.eof
                &&& e1.last_activity == e0.last_activity
                &&& if e0.consumed + e0.buf@.len() + bytes@.len() <= u64::MAX {
                    e1.buf@ == e0.buf@ + bytes@ && e1.failed == e0.failed
                } else {
                    e1.buf@ == e0.buf@ && e1.failed == true
                }
            },
    {
        proof {
            lemma_reg_map_contains(self.entries_seq(), id);
        }
        match self.find_index(id) {
            None => {
            },
            Some(i) => {
                proof {
                    lemma_reg_map_get(self.entries_seq(), i as int);
                    lemma_reg_map_remove(self.entries_seq(), i as int);
                    lemma_unique_remove(self.entries_seq(), i as int);
                }
                let ghost m0 = self@;
                let ghost s0 = self.entries@;
                let mut e = self.entries.remove(i);
                let rem: u64 = u64::MAX - e.consumed - (e.buf.len() as u64);
                if (bytes.len() as u64) <= rem {
                    let mut bytes = bytes;
                    e.buf.append(&mut bytes);
                } else {
                    e.failed = true;
                }
                let ghost ee = e;
                proof {
                    lemma_reg_map_push(self.entries@, ee);
                }
                let ghost s1 = self.entries@;
                self.entries.push(e);
                proof {
                    assert(self.entries@ =~= s1.push(ee));
                    assert forall|a: int, b: int|
                        0 <= a < b < self.entries@.len() implies (#[trigger] self.entries@[a]).id
                        != (#[trigger] self.entries@[b]).id by {
                        let a0 = if a < i as int {
                            a
                        } else {
                            a + 1
                        };
                        if b < s1.len() {
                            let b0 = if b < i as int {
                                b
                            } else {
                                b + 1
                            };
                            assert(s0[a0].id != s0[b0].id);
                        } else {
                            assert(self.entries@[a] == s0[a0]);
                            assert(s0[a0].id != s0[i as int].id);
                        }
                    }
                    assert forall|j: int|
                        0 <= j < self.entries@.len() implies entry_wf(
                        #[trigger] self.entries@[j],
                        self.next_id,
                    ) by {
                        if j < s1.len() {
                            let j0 = if j < i as int {
                                j
                            } else {
                                j + 1
                            };
                            assert(self.entries@[j] == s0[j0]);
                        }
                    }
                    assert(self@ =~= m0.remove(id).insert(id, ee));
                }
            },
        }
    }

    /// The transport finished the body of `id`: marks end of stream, so the
    /// next read past the buffered bytes returns `EndOfBody`. No-op for a
    /// departed id.
    pub fn finish(&mut self, id: u64)
        requires
            old(self).wf(),
        ensures
            final(self).wf(),
            final(self).spec_next_id() == old(self).spec_next_id(),
            !old(self)@.contains_key(id) ==> final(self)@ =~= old(self)@,
            old(self)@.contains_key(id) ==> {
                let e0 = old(self)@[id];
                let e1 = final(self)@[id];
                &&& final(self)@.contains_key(id)
                &&& unchanged_except(old(self)@, final(self)@, id)
                &&& same_dispatch_meta(e0, e1)
                &&& e1.buf@ == e0.buf@
                &&& e1.consumed == e0.consumed
                &&& e1.eof == true
                &&& e1.failed == e0.failed
                &&& e1.last_activity == e0.last_activity
            },
    {
        proof {
            lemma_reg_map_contains(self.entries_seq(), id);
        }
        match self.find_index(id) {
            None => {
            },
            Some(i) => {
                proof {
                    lemma_reg_map_get(self.entries_seq(), i as int);
                    lemma_reg_map_remove(self.entries_seq(), i as int);
                    lemma_unique_remove(self.entries_seq(), i as int);
                }
                let ghost m0 = self@;
                let ghost s0 = self.entries@;
                let mut e = self.entries.remove(i);
                e.eof = true;
                let ghost ee = e;
                proof {
                    lemma_reg_map_push(self.entries@, ee);
                }
                let ghost s1 = self.entries@;
                self.entries.push(e);
                proof {
                    assert(self.entries@ =~= s1.push(ee));
                    assert forall|a: int, b: int|
                        0 <= a < b < self.entries@.len() implies (#[trigger] self.entries@[a]).id
                        != (#[trigger] self.entries@[b]).id by {
                        let a0 = if a < i as int {
                            a
                        } else {
                            a + 1
                        };
                        if b < s1.len() {
                            let b0 = if b < i as int {
                                b
                            } else {
                                b + 1
                            };
                            assert(s0[a0].id != s0[b0].id);
                        } else {
                            assert(self.entries@[a] == s0[a0]);
                            assert(s0[a0].id != s0[i as int].id);
                        }
                    }
                    assert forall|j: int|
                        0 <= j < self.entries@.len() implies entry_wf(
                        #[trigger] self.entries@[j],
                        self.next_id,
                    ) by {
                        if j < s1.len() {
                            let j0 = if j < i as int {
                                j
                            } else {
                                j + 1
                            };
                            assert(self.entries@[j] == s0[j0]);
                        }
                    }
                    assert(self@ =~= m0.remove(id).insert(id, ee));
                }
            },
        }
    }

    /// The transport reported a mid-stream failure for `id` (for instance a
    /// connection reset): marks the entry failed, surfacing as
    /// `StreamError` on the next read once the already-delivered bytes are
    /// drained. No-op for a departed id.
    pub fn fail(&mut self, id: u64)
        requires
            old(self).wf(),
        ensures
            final(self).wf(),
            final(self).spec_next_id() == old(self).spec_next_id(),
            !old(self)@.contains_key(id) ==> final(self)@ =~= old(self)@,
            old(self)@.contains_key(id) ==> {
                let e0 = old(self)@[id];
                let e1 = final(self)@[id];
                &&& final(self)@.contains_key(id)
                &&& unchanged_except(old(self)@, final(self)@, id)
                &&& same_dispatch_meta(e0, e1)
                &&& e1.buf@ == e0.buf@
                &&& e1.consumed == e0.consumed
                &&& e1.eof == e0.eof
                &&& e1.failed == true
                &&& e1.last_activity == e0.last_activity
            },
    {
        proof {
            lemma_reg_map_contains(self.entries_seq(), id);
        }
        match self.find_index(id) {
            None => {
            },
            Some(i) => {
                proof {
                    lemma_reg_map_get(self.entries_seq(), i as int);
                    lemma_reg_map_remove(self.entries_seq(), i as int);
                    lemma_unique_remove(self.entries_seq(), i as int);
                }
                let ghost m0 = self@;
                let ghost s0 = self.entries@;
                let mut e = self.entries.remove(i);
                e.failed = true;
                let ghost ee = e;
                proof {
                    lemma_reg_map_push(self.entries@, ee);
                }
                let ghost s1 = self.entries@;
                self.entries.push(e);
                proof {
                    assert(self.entries@ =~= s1.push(ee));
                    assert forall|a: int, b: int|
                        0 <= a < b < self.entries@.len() implies (#[trigger] self.entries@[a]).id
                        != (#[trigger] self.entries@[b]).id by {
                        let a0 = if a < i as int {
                            a
                        } else {
                            a + 1
                        };
                        if b < s1.len() {
                            let b0 = if b < i as int {
                                b
                            } else {
                                b + 1
                            };
                            assert(s0[a0].id != s0[b0].id);
                        } else {
                            assert(self.entries@[a] == s0[a0]);
                            assert(s0[a0].id != s0[i as int].id);
                        }
                    }
                    assert forall|j: int|
                        0 <= j < self.entries@.len() implies entry_wf(
                        #[trigger] self.entries@[j],
                        self.next_id,
                    ) by {
                        if j < s1.len() {
                            let j0 = if j < i as int {
                                j
                            } else {
                                j + 1
                            };
                            assert(self.entries@[j] == s0[j0]);
                        }
                    }
                    assert(self@ =~= m0.remove(id).insert(id, ee));
                }
            },
        }
    }

    /// The next up-to-`max_bytes` slice of the body of `id`, or what stands
    /// in its way. Reads for one id are issued sequentially by the caller;
    /// each call is one critical section under the registry lock.
    ///
    /// The cases, in order: an absent id is the recoverable
    /// `UnknownRequestId`; buffered bytes are handed out from the front,
    /// advancing the cursor and refreshing the activity stamp; with the
    /// buffer drained, a failed stream surfaces `StreamError` and evicts
    /// the entry; a finished stream returns `EndOfBody` exactly once and
    /// evicts the entry (so a further read meets the first case); and
    /// otherwise the caller must let the transport deliver more before
    /// asking again (`Pending`, no state change — waiting happens outside
    /// the lock).
    pub fn read_chunk(&mut self, id: u64, max_bytes: usize, now: u64) -> (r: Result<
        ReadStep,
        HttpError,
    >)
        requires
            old(self).wf(),
        ensures
            final(self).wf(),
            final(self).spec_next_id() == old(self).spec_next_id(),
            !old(self)@.contains_key(id) ==> r == Err::<ReadStep, HttpError>(
                HttpError::UnknownRequestId,
            ) && *final(self) == *old(self),
            old(self)@.contains_key(id) ==> {
                let e0 = old(self)@[id];
                if e0.buf@.len() > 0 {
                    &&& r matches Ok(ReadStep::Chunk(c)) && c@ == e0.buf@.subrange(
                        0,
                        spec_chunk_len(e0, max_bytes),
                    )
                    &&& final(self)@.contains_key(id)
                    &&& unchanged_except(old(self)@, final(self)@, id)
                    &&& entry_after_read(e0, final(self)@[id], spec_chunk_len(e0, max_bytes), now)
                } else if e0.failed {
                    &&& r == Err::<ReadStep, HttpError>(HttpError::StreamError)
                    &&& final(self)@ =~= old(self)@.remove(id)
                } else if e0.eof {
                    &&& r == Ok::<ReadStep, HttpError>(ReadStep::EndOfBody)
                    &&& final(self)@ =~= old(self)@.remove(id)
                } else {
                    &&& r == Ok::<ReadStep, HttpError>(ReadStep::Pending)
                    &&& *final(self) == *old(self)
                }
            },
    {
        proof {
            lemma_reg_map_contains(self.entries_seq(), id);
        }
        match self.find_index(id) {
            None => Err(HttpError::UnknownRequestId),
            Some(i) => {
                proof {
                    lemma_reg_map_get(self.entries_seq(), i as int);
                }
                if self.entries[i].buf.len() > 0 {
                    proof {
                        lemma_reg_map_remove(self.entries_seq(), i as int);
                        lemma_unique_remove(self.entries_seq(), i as int);
                    }
                    let ghost m0 = self@;
                    let ghost s0 = self.entries@;
                    let mut e = self.entries.remove(i);
                    let blen: usize = e.buf.len();
                    let k: usize = if max_bytes <= blen {
                        max_bytes
                    } else {
                        blen
                    };
                    let mut buf: Vec<u8> = Vec::new();
                    core::mem::swap(&mut buf, &mut e.buf);
                    let (chunk, rest) = split_front(buf, k);
                    e.buf = rest;
                    assert(entry_wf(s0[i as int], self.next_id));
                    e.consumed = e.consumed + (k as u64);
                    e.last_activity = now;
                    let ghost ee = e;
                    proof {
                        lemma_reg_map_push(self.entries@, ee);
                    }
                    let ghost s1 = self.entries@;
                    self.entries.push(e);
                    proof {
                        assert(self.entries@ =~= s1.push(ee));
                        assert forall|a: int, b: int|
                            0 <= a < b < self.entries@.len() implies (#[trigger] self.entries@[a]).id != (#[trigger] self.entries@[b]).id by {
                            let a0 = if a < i as int {
                                a
                            } else {
                                a + 1
                            };
                            if b < s1.len() {
                                let b0 = if b < i as int {
                                    b
                                } else {
                                    b + 1
                                };
                                assert(s0[a0].id != s0[b0].id);
                            } else {
                                assert(self.entries@[a] == s0[a0]);
                                assert(s0[a0].id != s0[i as int].id);
                            }
                        }
                        assert forall|j: int|
                            0 <= j < self.entries@.len() implies entry_wf(
                            #[trigger] self.entries@[j],
                            self.next_id,
                        ) by {
                            if j < s1.len() {
                                let j0 = if j < i as int {
                                    j
                                } else {
                                    j + 1
                                };
                                assert(self.entries@[j] == s0[j0]);
                            }
                        }
                        assert(self@ =~= m0.remove(id).insert(id, ee));
                    }
                    Ok(ReadStep::Chunk(chunk))
                } else if self.entries[i].failed {
                    proof {
                        lemma_reg_map_remove(self.entries_seq(), i as int);
                        lemma_unique_remove(self.entries_seq(), i as int);
                    }
                    let ghost s0 = self.entries@;
                    self.entries.remove(i);
                    proof {
                        assert forall|j: int|
                            0 <= j < self.entries@.len() implies entry_wf(
                            #[trigger] self.entries@[j],
                            self.next_id,
                        ) by {
                            let j0 = if j < i as int {
                                j
                            } else {
                                j + 1
                            };
                            assert(self.entries@[j] == s0[j0]);
                        }
                    }
                    Err(HttpError::StreamError)
                } else if self.entries[i].eof {
                    proof {
                        lemma_reg_map_remove(self.entries_seq(), i as int);
                        lemma_unique_remove(self.entries_seq(), i as int);
                    }
                    let ghost s0 = self.entries@;
                    self.entries.remove(i);
                    proof {
                        assert forall|j: int|
                            0 <= j < self.entries@.len() implies entry_wf(
                            #[trigger] self.entries@[j],
                            self.next_id,
                        ) by {
                            let j0 = if j < i as int {
                                j
                            } else {
                                j + 1
                            };
                            assert(self.entries@[j] == s0[j0]);
                        }
                    }
                    Ok(ReadStep::EndOfBody)
                } else {
                    Ok(ReadStep::Pending)
                }
            },
        }
    }

    /// The storage index of some idle entry, if one exists.
    fn find_idle(&self, now: u64, idle_limit: u64) -> (r: Option<usize>)
        ensures
            match r {
                Some(i) => i < self.entries_seq().len() && idle(
                    self.entries_seq()[i as int],
                    now,
                    idle_limit,
                ),
                None => forall|j: int|
                    0 <= j < self.entries_seq().len() ==> !idle(
                        #[trigger] self.entries_seq()[j],
                        now,
                        idle_limit,
                    ),
            },
    {
        let n: usize = self.entries.len();
        let mut i: usize = 0;
        while i < n
            invariant
                n == self.entries_seq().len(),
                i <= n,
                forall|j: int|
                    0 <= j < i ==> !idle(#[trigger] self.entries_seq()[j], now, idle_limit),
            decreases n - i,
        {
            let e = &self.entries[i];
            if e.last_activity <= now && now - e.last_activity >= idle_limit {
                return Some(i);
            }
            i += 1;
        }
        None
    }

    /// The background sweep: cancels and evicts every entry whose last
    /// activity lies at least `idle_limit` before `now`, bounding the
    /// memory held by abandoned requests, and returns the evicted ids so
    /// the embedding program can abort their transport work. Runs under
    /// the registry lock, so no entry it sees is inside an active read.
    #[verifier::loop_isolation(false)]
    pub fn evict_idle(&mut self, now: u64, idle_limit: u64) -> (evicted: Vec<u64>)
        requires
            old(self).wf(),
        ensures
            final(self).wf(),
            final(self).spec_next_id() == old(self).spec_next_id(),
            forall|k: u64|
                #[trigger] final(self)@.contains_key(k) ==> old(self)@.contains_key(k) && !idle(
                    old(self)@[k],
                    now,
                    idle_limit,
                ) && final(self)@[k] == old(self)@[k],
            forall|k: u64|
                old(self)@.contains_key(k) && !idle(#[trigger] old(self)@[k], now, idle_limit)
                    ==> final(self)@.contains_key(k),
            forall|j: int|
                0 <= j < evicted@.len() ==> old(self)@.contains_key(#[trigger] evicted@[j]) && idle(
                    old(self)@[evicted@[j]],
                    now,
                    idle_limit,
                ),
            forall|k: u64|
                old(self)@.contains_key(k) && idle(#[trigger] old(self)@[k], now, idle_limit)
                    ==> evicted@.contains(k),
    {
        let mut evicted: Vec<u64> = Vec::new();
        let mut go = true;
        while go
            invariant
                self.wf(),
                self.spec_next_id() == old(self).spec_next_id(),
                forall|k: u64|
                    #[trigger] self@.contains_key(k) ==> old(self)@.contains_key(k) && self@[k]
                        == old(self)@[k],
                forall|k: u64|
                    old(self)@.contains_key(k) && !idle(#[trigger] old(self)@[k], now, idle_limit)
                        ==> self@.contains_key(k),
                forall|j: int|
                    0 <= j < evicted@.len() ==> old(self)@.contains_key(#[trigger] evicted@[j])
                        && idle(old(self)@[evicted@[j]], now, idle_limit),
                forall|k: u64|
                    old(self)@.contains_key(k) && idle(#[trigger] old(self)@[k], now, idle_limit)
                        ==> self@.contains_key(k) || evicted@.contains(k),
                !go ==> forall|j: int|
                    0 <= j < self.entries_seq().len() ==> !idle(
                        #[trigger] self.entries_seq()[j],
                        now,
                        idle_limit,
                    ),
            decreases self.entries_seq().len() + (if go {
                1int
            } else {
                0int
            }),
        {
            match self.find_idle(now, idle_limit) {
                Some(i) => {
                    let id = self.entries[i].id;
                    proof {
                        lemma_reg_map_get(self.entries_seq(), i as int);
                        lemma_reg_map_remove(self.entries_seq(), i as int);
                        lemma_unique_remove(self.entries_seq(), i as int);
                    }
                    let ghost s0 = self.entries@;
                    let ghost evicted0 = evicted@;
                    proof {
                        assert(self@.contains_key(id) && self@[id] == s0[i as int]);
                        assert(old(self)@.contains_key(id) && old(self)@[id] == s0[i as int]);
                        assert(idle(old(self)@[id], now, idle_limit));
                    }
                    self.entries.remove(i);
                    evicted.push(id);
                    proof {
                        assert(self@ =~= reg_map(s0).remove(id));
                        assert forall|j: int|
                            0 <= j < self.entries@.len() implies entry_wf(
                            #[trigger] self.entries@[j],
                            self.next_id,
                        ) by {
                            let j0 = if j < i as int {
                                j
                            } else {
                                j + 1
                            };
                            assert(self.entries@[j] == s0[j0]);
                        }
                        assert forall|j: int|
                            0 <= j < evicted@.len() implies old(self)@.contains_key(
                            #[trigger] evicted@[j],
                        ) && idle(old(self)@[evicted@[j]], now, idle_limit) by {
                            if j < evicted0.len() {
                                assert(evicted@[j] == evicted0[j]);
                            } else {
                                assert(evicted@[j] == id);
                            }
                        }
                        assert forall|k: u64|
                            old(self)@.contains_key(k) && idle(
                                #[trigger] old(self)@[k],
                                now,
                                idle_limit,
                            ) implies self@.contains_key(k) || evicted@.contains(k) by {
                            if k == id {
                                assert(evicted@[evicted@.len() - 1] == id);
                            } else if reg_map(s0).contains_key(k) {
                            } else if evicted0.contains(k) {
                                let t = choose|t: int|
                                    0 <= t < evicted0.len() && evicted0[t] == k;
                                assert(evicted@[t] == k);
                            }
                        }
                    }
                },
                None => {
                    go = false;
                },
            }
        }
        proof {
            assert forall|k: u64| #[trigger] self@.contains_key(k) implies old(
                self,
            )@.contains_key(k) && !idle(old(self)@[k], now, idle_limit) && self@[k] == old(
                self,
            )@[k] by {
                lemma_reg_map_contains(self.entries_seq(), k);
                let i = choose|i: int|
                    0 <= i < self.entries_seq().len() && (#[trigger] self.entries_seq()[i]).id
                        == k;
                lemma_reg_map_get(self.entries_seq(), i);
            }
        }
        evicted
    }
}

/// Cancellation is idempotent: a second `cancel` of the same id leaves the
/// registry exactly where the first left it. (`cancel` makes the state
/// `old(self)@.remove(id)`, and removal strikes the id from the domain, so
/// removing it again moves nothing.)
pub proof fn lemma_cancel_idempotent(m: Map<u64, InFlight>, id: u64)
    ensures
        m.remove(id).remove(id) =~= m.remove(id),
{
}

/// Once an id has left the registry — because `EndOfBody` was returned,
/// the stream failed, it was cancelled, or it was evicted — it is not in
/// the domain, so any further `read_chunk` of it meets the
/// `UnknownRequestId` case and changes nothing.
pub proof fn lemma_departed_id_unknown(m: Map<u64, InFlight>, id: u64)
    ensures
        !m.remove(id).contains_key(id),
{
}

} // verus!

use vstd::prelude::*;
use vstd::pervasive::VecAdditionalExecFns;
use crate::text::chars_eq;
use crate::text::chars_text_ok;
use crate::text::text_ok;

verus! {

/// The `SameSite` attribute of a stored cookie. `CrossSite` corresponds to
/// the header value `SameSite=None` (the cookie may accompany cross-site
/// requests); `Unset` means the response carried no such attribute.
#[derive(Clone, Copy, Debug, PartialEq, Eq, Structural)]
pub enum SameSite {
    Unset,
    CrossSite,
    Lax,
    Strict,
}

/// One stored cookie: the (domain, path, name) key plus its value and
/// attributes. `expiry` is seconds since the Unix epoch, absent for a
/// session cookie.
#[derive(Debug)]
pub struct CookieRecord {
    pub domain: Vec<char>,
    pub path: Vec<char>,
    pub name: Vec<char>,
    pub value: Vec<char>,
    pub expiry: Option<u64>,
    pub secure: bool,
    pub http_only: bool,
    pub same_site: SameSite,
}

/// The mathematical key of a record.
pub open spec fn rec_key(r: CookieRecord) -> (Seq<char>, Seq<char>, Seq<char>) {
    (r.domain@, r.path@, r.name@)
}

/// A record's strings hold only printable ASCII free of JSON string
/// metacharacters, so the jar always serializes without escape sequences.
pub open spec fn rec_wf(r: CookieRecord) -> bool {
    text_ok(r.domain@) && text_ok(r.path@) && text_ok(r.name@) && text_ok(r.value@)
}

/// No two records share a (domain, path, name) key.
pub open spec fn unique_keys(s: Seq<CookieRecord>) -> bool {
    forall|i: int, j: int|
        0 <= i < j < s.len() ==> #[trigger] rec_key(s[i]) != #[trigger] rec_key(s[j])
}

/// The mapping a record sequence denotes: later records win, though under
/// `unique_keys` there is nothing to win over.
pub open spec fn jar_map(s: Seq<CookieRecord>) -> Map<
    (Seq<char>, Seq<char>, Seq<char>),
    CookieRecord,
>
    decreases s.len(),
{
    if s.len() == 0 {
        Map::empty()
    } else {
        jar_map(s.drop_last()).insert(rec_key(s.last()), s.last())
    }
}

/// A key is in the mapping exactly when some record carries it.
pub proof fn lemma_jar_map_contains(s: Seq<CookieRecord>, k: (Seq<char>, Seq<char>, Seq<char>))
    ensures
        jar_map(s).contains_key(k) <==> exists|i: int| 0 <= i < s.len() && rec_key(#[trigger] s[i])
            == k,
    decreases s.len(),
{
    if s.len() > 0 {
        lemma_jar_map_contains(s.drop_last(), k);
        if rec_key(s.last()) == k {
            assert(rec_key(s[s.len() - 1]) == k);
        } else if jar_map(s).contains_key(k) {
            let i = choose|i: int| 0 <= i < s.drop_last().len() && rec_key(s.drop_last()[i]) == k;
            assert(rec_key(s[i]) == k);
        } else {
            assert forall|i: int| 0 <= i < s.len() implies rec_key(#[trigger] s[i]) != k by {
                if i < s.len() - 1 {
                    assert(s.drop_last()[i] == s[i]);
                }
            }
        }
    }
}

/// Under unique keys, the mapping sends each record's key to that record.
pub proof fn lemma_jar_map_get(s: Seq<CookieRecord>, i: int)
    requires
        unique_keys(s),
        0 <= i < s.len(),
    ensures
        jar_map(s).contains_key(rec_key(s[i])),
        jar_map(s)[rec_key(s[i])] == s[i],
    decreases s.len(),
{
    if i == s.len() - 1 {
    } else {
        assert(unique_keys(s.drop_last())) by {
            assert forall|a: int, b: int|
                0 <= a < b < s.drop_last().len() implies #[trigger] rec_key(s.drop_last()[a])
                != #[trigger] rec_key(s.drop_last()[b]) by {
                assert(s.drop_last()[a] == s[a] && s.drop_last()[b] == s[b]);
            }
        }
        assert(s.drop_last()[i] == s[i]);
        lemma_jar_map_get(s.drop_last(), i);
        assert(rec_key(s[i]) != rec_key(s[s.len() - 1]));
    }
}

/// Overwriting the record at `i` with one of the same key updates exactly
/// that key's image in the mapping.
pub proof fn lemma_jar_map_update(s: Seq<CookieRecord>, i: int, r: CookieRecord)
    requires
        unique_keys(s),
        0 <= i < s.len(),
        rec_key(r) == rec_key(s[i]),
    ensures
        jar_map(s.update(i, r)) =~= jar_map(s).insert(rec_key(r), r),
    decreases s.len(),
{
    let t = s.update(i, r);
    if i == s.len() - 1 {
        assert(t.drop_last() =~= s.drop_last());
        assert(t.last() == r);
    } else {
        assert(unique_keys(s.drop_last())) by {
            assert forall|a: int, b: int|
                0 <= a < b < s.drop_last().len() implies #[trigger] rec_key(s.drop_last()[a])
                != #[trigger] rec_key(s.drop_last()[b]) by {
                assert(s.drop_last()[a] == s[a] && s.drop_last()[b] == s[b]);
            }
        }
        assert(s.drop_last()[i] == s[i]);
        lemma_jar_map_update(s.drop_last(), i, r);
        assert(t.drop_last() =~= s.drop_last().update(i, r));
        assert(t.last() == s.last());
        assert(rec_key(r) != rec_key(s[s.len() - 1]));
    }
}

/// Appending a record inserts its key.
pub proof fn lemma_jar_map_push(s: Seq<CookieRecord>, r: CookieRecord)
    ensures
        jar_map(s.push(r)) =~= jar_map(s).insert(rec_key(r), r),
{
    assert(s.push(r).drop_last() =~= s);
    assert(s.push(r).last() == r);
}

/// The shared cookie jar: a mapping from (domain, path, name) to a cookie's
/// value and attributes, lazily loaded from the persisted document and
/// shared by every request that opts into cookie handling. The embedding
/// program serializes access with one mutual-exclusion lock; the operations
/// here are the short critical sections executed under it.
#[derive(Debug)]
pub struct CookieJar {
    records: Vec<CookieRecord>,
}

impl View for CookieJar {
    type V = Map<(Seq<char>, Seq<char>, Seq<char>), CookieRecord>;

    closed spec fn view(&self) -> Map<(Seq<char>, Seq<char>, Seq<char>), CookieRecord> {
        jar_map(self.records@)
    }
}

impl CookieJar {
    /// The jar's records, in storage order; what the persisted document
    /// lists.
    pub closed spec fn recs(&self) -> Seq<CookieRecord> {
        self.records@
    }

    /// Well-formedness: keys are unique and every record's text is
    /// JSON-safe. Constructors establish it and every operation preserves
    /// it.
    pub open spec fn wf(&self) -> bool {
        unique_keys(self.recs()) && forall|i: int|
            0 <= i < self.recs().len() ==> rec_wf(#[trigger] self.recs()[i])
    }

    /// The empty jar: what a missing cookie file loads as.
    pub fn new() -> (r: CookieJar)
        ensures
            r.wf(),
            r@ =~= Map::<(Seq<char>, Seq<char>, Seq<char>), CookieRecord>::empty(),
            r.recs().len() == 0,
    {
        CookieJar { records: Vec::new() }
    }

    /// Builds a jar directly from records, as the document parser does.
    pub fn from_records(records: Vec<CookieRecord>) -> (r: CookieJar)
        requires
            unique_keys(records@),
            forall|i: int| 0 <= i < records@.len() ==> rec_wf(#[trigger] records@[i]),
        ensures
            r.wf(),
            r.recs() == records@,
    {
        CookieJar { records }
    }

    /// How many cookies are stored.
    pub fn len(&self) -> (n: usize)
        ensures
            n == self.recs().len(),
    {
        self.records.len()
    }

    /// The record at storage index `i`, for iteration by the serializer and
    /// the embedding program.
    pub fn record_at(&self, i: usize) -> (r: &CookieRecord)
        requires
            i < self.recs().len(),
        ensures
            *r == self.recs()[i as int],
    {
        &self.records[i]
    }

    /// The storage index holding key (domain, path, name), if any.
    fn find_index(&self, domain: &Vec<char>, path: &Vec<char>, name: &Vec<char>) -> (r: Option<
        usize,
    >)
        ensures
            match r {
                Some(i) => i < self.recs().len() && rec_key(self.recs()[i as int]) == (
                    domain@,
                    path@,
                    name@,
                ),
                None => forall|i: int|
                    0 <= i < self.recs().len() ==> rec_key(#[trigger] self.recs()[i]) != (
                        domain@,
                        path@,
                        name@,
                    ),
            },
    {
        let n: usize = self.records.len();
        let mut i: usize = 0;
        while i < n
            invariant
                n == self.recs().len(),
                i <= n,
                forall|j: int|
                    0 <= j < i ==> rec_key(#[trigger] self.recs()[j]) != (domain@, path@, name@),
            decreases n - i,
        {
            let rec = &self.records[i];
            if chars_eq(&rec.domain, domain) && chars_eq(&rec.path, path) && chars_eq(
                &rec.name,
                name,
            ) {
                return Some(i);
            }
            assert(rec_key(self.recs()[i as int]) != (domain@, path@, name@));
            i += 1;
        }
        None
    }

    /// Looks up the cookie stored under (domain, path, name).
    pub fn get_cookie(&self, domain: &Vec<char>, path: &Vec<char>, name: &Vec<char>) -> (r: Option<
        &CookieRecord,
    >)
        requires
            self.wf(),
        ensures
            match r {
                Some(rec) => self@.contains_key((domain@, path@, name@)) && *rec == self@[(
                    domain@,
                    path@,
                    name@,
                )],
                None => !self@.contains_key((domain@, path@, name@)),
            },
    {
        proof {
            lemma_jar_map_contains(self.recs(), (domain@, path@, name@));
        }
        match self.find_index(domain, path, name) {
            Some(i) => {
                proof {
                    lemma_jar_map_get(self.recs(), i as int);
                }
                Some(&self.records[i])
            },
            None => None,
        }
    }

    /// Stores `r`, overwriting any cookie with the same (domain, path,
    /// name). A record whose text is not JSON-safe is refused and the jar
    /// is unchanged — nothing unserializable ever enters the store.
    pub fn set_cookie(&mut self, r: CookieRecord) -> (stored: bool)
        requires
            old(self).wf(),
        ensures
            final(self).wf(),
            stored == rec_wf(r),
            stored ==> final(self)@ =~= old(self)@.insert(rec_key(r), r),
            !stored ==> *final(self) == *old(self),
    {
        let ok = chars_text_ok(&r.domain) && chars_text_ok(&r.path) && chars_text_ok(&r.name)
            && chars_text_ok(&r.value);
        if !ok {
            return false;
        }
        let ghost key = rec_key(r);
        match self.find_index(&r.domain, &r.path, &r.name) {
            Some(i) => {
                proof {
                    lemma_jar_map_update(self.recs(), i as int, r);
                }
                let ghost s0 = self.recs();
                self.records.set(i, r);
                assert(self.recs() =~= s0.update(i as int, r));
                assert forall|a: int, b: int|
                    0 <= a < b < self.recs().len() implies #[trigger] rec_key(self.recs()[a])
                    != #[trigger] rec_key(self.recs()[b]) by {
                    assert(rec_key(s0[a]) != rec_key(s0[b]));
                }
            },
            None => {
                proof {
                    lemma_jar_map_push(self.recs(), r);
                }
                let ghost s0 = self.recs();
                self.records.push(r);
                assert(self.recs() =~= s0.push(r));
                assert forall|a: int, b: int|
                    0 <= a < b < self.recs().len() implies #[trigger] rec_key(self.recs()[a])
                    != #[trigger] rec_key(self.recs()[b]) by {
                    if b < s0.len() {
                        assert(rec_key(s0[a]) != rec_key(s0[b]));
                    }
                }
            },
        }
        true
    }

    /// Absorbs the cookies a response set, in response order, under the
    /// jar's lock: each is stored with `set_cookie`, later records for the
    /// same key overwriting earlier ones, malformed text refused.
    #[verifier::loop_isolation(false)]
    pub fn absorb(&mut self, cookies: Vec<CookieRecord>)
        requires
            old(self).wf(),
        ensures
            final(self).wf(),
            final(self)@ == absorbed_all(old(self)@, cookies@),
    {
        let ghost m0 = old(self)@;
        let ghost cs0 = cookies@;
        let mut cookies = cookies;
        while cookies.len() > 0
            invariant
                self.wf(),
                absorbed_all(self@, cookies@) == absorbed_all(m0, cs0),
            decreases cookies@.len(),
        {
            let ghost cs = cookies@;
            let c = cookies.remove(0);
            assert(cookies@ =~= cs.drop_first());
            let ghost mv = self@;
            let stored = self.set_cookie(c);
            proof {
                if stored {
                    assert(self@ =~= mv.insert(rec_key(c), c));
                } else {
                    assert(self@ == mv);
                }
                assert(absorbed_all(mv, cs) == absorbed_all(self@, cs.drop_first()));
            }
        }
    }
}

/// Applying a batch of stores, one record at a time, in order: a record
/// whose text is not JSON-safe is skipped, as `set_cookie` refuses it.
pub open spec fn absorbed_all(
    m: Map<(Seq<char>, Seq<char>, Seq<char>), CookieRecord>,
    rs: Seq<CookieRecord>,
) -> Map<(Seq<char>, Seq<char>, Seq<char>), CookieRecord>
    decreases rs.len(),
{
    if rs.len() == 0 {
        m
    } else {
        absorbed_all(
            if rec_wf(rs[0]) {
                m.insert(rec_key(rs[0]), rs[0])
            } else {
                m
            },
            rs.drop_first(),
        )
    }
}

/// On well-formed records, absorbing is exactly batch insertion.
pub proof fn lemma_absorbed_all_wf(
    m: Map<(Seq<char>, Seq<char>, Seq<char>), CookieRecord>,
    rs: Seq<CookieRecord>,
)
    requires
        forall|i: int| 0 <= i < rs.len() ==> rec_wf(#[trigger] rs[i]),
    ensures
        absorbed_all(m, rs) == inserted_all(m, rs),
    decreases rs.len(),
{
    if rs.len() > 0 {
        assert(rec_wf(rs[0]));
        assert(forall|i: int|
            0 <= i < rs.drop_first().len() ==> rec_wf(#[trigger] rs.drop_first()[i]));
        lemma_absorbed_all_wf(m.insert(rec_key(rs[0]), rs[0]), rs.drop_first());
    }
}

/// Applying a batch of stores to a mapping, one record at a time, in order.
pub open spec fn inserted_all(
    m: Map<(Seq<char>, Seq<char>, Seq<char>), CookieRecord>,
    rs: Seq<CookieRecord>,
) -> Map<(Seq<char>, Seq<char>, Seq<char>), CookieRecord>
    decreases rs.len(),
{
    if rs.len() == 0 {
        m
    } else {
        inserted_all(m.insert(rec_key(rs[0]), rs[0]), rs.drop_first())
    }
}

/// No lost updates: when concurrent requests store cookies with pairwise
/// distinct (domain, path, name) keys — for instance the same domain and
/// path but different names — then however the lock interleaves their
/// stores, every one of them is present in the final jar with the value it
/// wrote. (Each `set_cookie` makes the jar `old(self)@.insert(..)`, so a
/// full interleaving is `inserted_all` of some ordering of the stores.)
pub proof fn lemma_no_lost_updates(
    m: Map<(Seq<char>, Seq<char>, Seq<char>), CookieRecord>,
    rs: Seq<CookieRecord>,
)
    requires
        unique_keys(rs),
    ensures
        forall|j: int|
            0 <= j < rs.len() ==> inserted_all(m, rs).contains_key(rec_key(#[trigger] rs[j]))
                && inserted_all(m, rs)[rec_key(rs[j])] == rs[j],
    decreases rs.len(),
{
    if rs.len() > 0 {
        let m1 = m.insert(rec_key(rs[0]), rs[0]);
        let tail = rs.drop_first();
        assert(unique_keys(tail)) by {
            assert forall|a: int, b: int|
                0 <= a < b < tail.len() implies #[trigger] rec_key(tail[a]) != #[trigger] rec_key(
                tail[b],
            ) by {
                assert(tail[a] == rs[a + 1] && tail[b] == rs[b + 1]);
            }
        }
        lemma_no_lost_updates(m1, tail);
        assert forall|j: int|
            0 <= j < rs.len() implies inserted_all(m, rs).contains_key(
            rec_key(#[trigger] rs[j]),
        ) && inserted_all(m, rs)[rec_key(rs[j])] == rs[j] by {
            if j == 0 {
                assert forall|t: int|
                    0 <= t < tail.len() implies rec_key(#[trigger] tail[t]) != rec_key(rs[0]) by {
                    assert(tail[t] == rs[t + 1]);
                }
                lemma_inserted_all_frame(m1, tail, rec_key(rs[0]));
            } else {
                assert(tail[j - 1] == rs[j]);
            }
        }
    }
}

/// No lost updates, stated against the jar itself: when the cookies a
/// group of concurrently completing responses set carry pairwise distinct
/// (domain, path, name) keys — the same domain and path but different
/// names, say — then absorbing them in whatever order the jar's lock
/// admits leaves every one of them present with the value it wrote.
pub proof fn lemma_concurrent_stores_all_present(jar: CookieJar, rs: Seq<CookieRecord>)
    requires
        jar.wf(),
        unique_keys(rs),
        forall|i: int| 0 <= i < rs.len() ==> rec_wf(#[trigger] rs[i]),
    ensures
        forall|j: int|
            0 <= j < rs.len() ==> absorbed_all(jar@, rs).contains_key(
                rec_key(#[trigger] rs[j]),
            ) && absorbed_all(jar@, rs)[rec_key(rs[j])] == rs[j],
{
    lemma_absorbed_all_wf(jar@, rs);
    lemma_no_lost_updates(jar@, rs);
}

/// A key no batched record carries keeps its image through the batch.
pub proof fn lemma_inserted_all_frame(
    m: Map<(Seq<char>, Seq<char>, Seq<char>), CookieRecord>,
    rs: Seq<CookieRecord>,
    k: (Seq<char>, Seq<char>, Seq<char>),
)
    requires
        forall|t: int| 0 <= t < rs.len() ==> rec_key(#[trigger] rs[t]) != k,
        m.contains_key(k),
    ensures
        inserted_all(m, rs).contains_key(k),
        inserted_all(m, rs)[k] == m[k],
    decreases rs.len(),
{
    if rs.len() > 0 {
        let m1 = m.insert(rec_key(rs[0]), rs[0]);
        let tail = rs.drop_first();
        assert forall|t: int| 0 <= t < tail.len() implies rec_key(#[trigger] tail[t]) != k by {
            assert(tail[t] == rs[t + 1]);
        }
        lemma_inserted_all_frame(m1, tail, k);
    }
}

} // verus!

//! The local record and provider store.
//!
//! Records are kept one per key, last write wins. Provider entries form a
//! set keyed by (key, provider) with a time-to-live that each repeated
//! announcement refreshes. A record or provider entry whose expiry has
//! been reached behaves as absent and is lazily purged.

use vstd::prelude::*;
use crate::keyspace::{bytes_eq, bytes_clone};

verus! {

/// One stored key/value record.
pub struct Record {
    pub key: Vec<u8>,
    pub value: Vec<u8>,
    pub publisher: Option<Vec<u8>>,
    pub expires: Option<u64>,
}

/// The mathematical image of a record.
pub struct RecordModel {
    pub key: Seq<u8>,
    pub value: Seq<u8>,
    pub publisher: Option<Seq<u8>>,
    pub expires: Option<u64>,
}

impl Record {
    pub open spec fn model(self) -> RecordModel {
        RecordModel {
            key: self.key@,
            value: self.value@,
            publisher: match self.publisher {
                Option::Some(p) => Option::Some(p@),
                Option::None => Option::None,
            },
            expires: self.expires,
        }
    }
}

/// Copy a record.
pub fn clone_record(r: &Record) -> (c: Record)
    ensures
        c.model() == r.model(),
{
    Record {
        key: bytes_clone(&r.key),
        value: bytes_clone(&r.value),
        publisher: match &r.publisher {
            Option::Some(p) => Option::Some(bytes_clone(p)),
            Option::None => Option::None,
        },
        expires: r.expires,
    }
}

/// One provider announcement: `provider` can supply the content of `key`
/// until `expires`.
pub struct ProviderRecord {
    pub key: Vec<u8>,
    pub provider: Vec<u8>,
    pub expires: u64,
}

/// Index of the first record with key `k` at or after `i`, or -1.
pub open spec fn rec_idx_from(s: Seq<Record>, k: Seq<u8>, i: int) -> int
    decreases s.len() - i,
{
    if i < 0 || i >= s.len() {
        -1
    } else if s[i].key@ == k {
        i
    } else {
        rec_idx_from(s, k, i + 1)
    }
}

/// Index of the record with key `k`, or -1.
pub open spec fn rec_idx(s: Seq<Record>, k: Seq<u8>) -> int {
    rec_idx_from(s, k, 0)
}

/// What the first-index scan promises.
pub proof fn lemma_rec_idx_props(s: Seq<Record>, k: Seq<u8>, i: int)
    requires
        0 <= i,
    ensures
        rec_idx_from(s, k, i) == -1 || rec_idx_from(s, k, i) >= i,
        rec_idx_from(s, k, i) == -1 ==> forall|j: int| i <= j < s.len() ==> s[j].key@ != k,
        rec_idx_from(s, k, i) >= 0 ==> i <= rec_idx_from(s, k, i) < s.len() && s[rec_idx_from(
            s,
            k,
            i,
        )].key@ == k,
    decreases s.len() - i,
{
    if i < s.len() && s[i].key@ != k {
        lemma_rec_idx_props(s, k, i + 1);
    }
}

/// With distinct keys the scan lands on the one slot that holds `k`.
pub proof fn lemma_rec_idx_unique(s: Seq<Record>, k: Seq<u8>, j: int)
    requires
        forall|m: int, n: int|
            0 <= m < n < s.len() ==> #[trigger] s[m].key@ != #[trigger] s[n].key@,
        0 <= j < s.len(),
        s[j].key@ == k,
    ensures
        rec_idx(s, k) == j,
{
    lemma_rec_idx_props(s, k, 0);
    let r = rec_idx(s, k);
    if r == -1 {
        assert(s[j].key@ != k);
    } else if r < j {
        assert(s[r].key@ != s[j].key@);
    } else if r > j {
        assert(s[j].key@ != s[r].key@);
    }
}

/// Index of the first provider entry for `(k, p)` at or after `i`, or -1.
pub open spec fn prov_idx_from(s: Seq<ProviderRecord>, k: Seq<u8>, p: Seq<u8>, i: int) -> int
    decreases s.len() - i,
{
    if i < 0 || i >= s.len() {
        -1
    } else if s[i].key@ == k && s[i].provider@ == p {
        i
    } else {
        prov_idx_from(s, k, p, i + 1)
    }
}

/// Index of the provider entry for `(k, p)`, or -1.
pub open spec fn prov_idx(s: Seq<ProviderRecord>, k: Seq<u8>, p: Seq<u8>) -> int {
    prov_idx_from(s, k, p, 0)
}

/// What the provider scan promises.
pub proof fn lemma_prov_idx_props(s: Seq<ProviderRecord>, k: Seq<u8>, p: Seq<u8>, i: int)
    requires
        0 <= i,
    ensures
        prov_idx_from(s, k, p, i) == -1 || prov_idx_from(s, k, p, i) >= i,
        prov_idx_from(s, k, p, i) == -1 ==> forall|j: int|
            i <= j < s.len() ==> !(s[j].key@ == k && s[j].provider@ == p),
        prov_idx_from(s, k, p, i) >= 0 ==> {
            let f = prov_idx_from(s, k, p, i);
            i <= f < s.len() && s[f].key@ == k && s[f].provider@ == p
        },
    decreases s.len() - i,
{
    if i < s.len() && !(s[i].key@ == k && s[i].provider@ == p) {
        lemma_prov_idx_props(s, k, p, i + 1);
    }
}

/// With distinct pairs the provider scan lands on the one matching slot.
pub proof fn lemma_prov_idx_unique(s: Seq<ProviderRecord>, k: Seq<u8>, p: Seq<u8>, j: int)
    requires
        forall|m: int, n: int|
            0 <= m < n < s.len() ==> !(#[trigger] s[m].key@ == #[trigger] s[n].key@
                && s[m].provider@ == s[n].provider@),
        0 <= j < s.len(),
        s[j].key@ == k,
        s[j].provider@ == p,
    ensures
        prov_idx(s, k, p) == j,
{
    lemma_prov_idx_props(s, k, p, 0);
    let r = prov_idx(s, k, p);
    if r == -1 {
        assert(!(s[j].key@ == k && s[j].provider@ == p));
    } else if r < j {
        assert(!(s[r].key@ == s[j].key@ && s[r].provider@ == s[j].provider@));
    } else if r > j {
        assert(!(s[j].key@ == s[r].key@ && s[j].provider@ == s[r].provider@));
    }
}

/// Some slot of `s` announces `q` as a provider of `k2`.
pub open spec fn has_provider_entry(s: Seq<ProviderRecord>, k2: Seq<u8>, q: Seq<u8>) -> bool {
    exists|i: int| 0 <= i < s.len() && s[i].key@ == k2 && s[i].provider@ == q
}

/// Some slot of `v` equals the byte string `p`.
pub open spec fn bytes_list_has(v: Seq<Vec<u8>>, p: Seq<u8>) -> bool {
    exists|i: int| 0 <= i < v.len() && v[i]@ == p
}

/// Whether `p` occurs in the list `v`.
pub fn bytes_list_contains(v: &Vec<Vec<u8>>, p: &Vec<u8>) -> (b: bool)
    ensures
        b == bytes_list_has(v@, p@),
{
    let mut i: usize = 0;
    while i < v.len()
        invariant
            i <= v@.len(),
            forall|j: int| 0 <= j < i ==> v@[j]@ != p@,
        decreases v@.len() - i,
    {
        if crate::keyspace::bytes_eq(&v[i], p) {
            return true;
        }
        i += 1;
    }
    false
}

/// The record with key `k` in `s`, if any.
pub open spec fn stored_in(s: Seq<Record>, k: Seq<u8>) -> Option<RecordModel> {
    let i = rec_idx(s, k);
    if i >= 0 {
        Option::Some(s[i].model())
    } else {
        Option::None
    }
}

pub struct RecordStore {
    pub records: Vec<Record>,
    pub providers: Vec<ProviderRecord>,
}

impl RecordStore {
    pub open spec fn wf(self) -> bool {
        &&& forall|m: int, n: int|
            0 <= m < n < self.records@.len() ==> self.records@[m].key@ != self.records@[n].key@
        &&& forall|m: int, n: int|
            0 <= m < n < self.providers@.len() ==> !(self.providers@[m].key@
                == self.providers@[n].key@ && self.providers@[m].provider@
                == self.providers@[n].provider@)
    }

    /// The record currently stored under `k`, expired or not.
    pub open spec fn stored(self, k: Seq<u8>) -> Option<RecordModel> {
        stored_in(self.records@, k)
    }

    /// A record whose expiry has been reached behaves as absent.
    pub open spec fn expired(m: RecordModel, now: u64) -> bool {
        match m.expires {
            Option::Some(t) => t <= now,
            Option::None => false,
        }
    }

    /// What a local `get` at time `now` returns.
    pub open spec fn lookup(self, k: Seq<u8>, now: u64) -> Option<RecordModel> {
        match self.stored(k) {
            Option::Some(m) => if Self::expired(m, now) {
                Option::None
            } else {
                Option::Some(m)
            },
            Option::None => Option::None,
        }
    }

    /// The set of peers currently announced as providers of `k`, expired
    /// or not.
    pub open spec fn providers_of(self, k: Seq<u8>) -> Set<Seq<u8>> {
        Set::new(|p: Seq<u8>| has_provider_entry(self.providers@, k, p))
    }

    /// The expiry recorded for provider `p` of key `k` (0 when absent).
    pub open spec fn provider_expiry(self, k: Seq<u8>, p: Seq<u8>) -> u64 {
        let i = prov_idx(self.providers@, k, p);
        if i >= 0 {
            self.providers@[i].expires
        } else {
            0
        }
    }

    /// An empty store.
    pub fn new() -> (r: RecordStore)
        ensures
            r.wf(),
            forall|k: Seq<u8>| r.stored(k) is None,
            forall|k: Seq<u8>| r.providers_of(k) =~= Set::<Seq<u8>>::empty(),
    {
        let r = RecordStore { records: Vec::new(), providers: Vec::new() };
        proof {
            assert forall|k: Seq<u8>| r.providers_of(k) =~= Set::<Seq<u8>>::empty() by {}
        }
        r
    }

    fn find_record(s: &Vec<Record>, k: &Vec<u8>) -> (r: Option<usize>)
        ensures
            match r {
                Some(i) => rec_idx(s@, k@) == i as int && i < s@.len(),
                None => rec_idx(s@, k@) == -1,
            },
    {
        let mut i: usize = 0;
        while i < s.len()
            invariant
                i <= s@.len(),
                rec_idx(s@, k@) == rec_idx_from(s@, k@, i as int),
            decreases s@.len() - i,
        {
            if bytes_eq(&s[i].key, k) {
                return Some(i);
            }
            i += 1;
        }
        None
    }

    fn find_provider(s: &Vec<ProviderRecord>, k: &Vec<u8>, p: &Vec<u8>) -> (r: Option<usize>)
        ensures
            match r {
                Some(i) => prov_idx(s@, k@, p@) == i as int && i < s@.len(),
                None => prov_idx(s@, k@, p@) == -1,
            },
    {
        let mut i: usize = 0;
        while i < s.len()
            invariant
                i <= s@.len(),
                prov_idx(s@, k@, p@) == prov_idx_from(s@, k@, p@, i as int),
            decreases s@.len() - i,
    {
            if bytes_eq(&s[i].key, k) && bytes_eq(&s[i].provider, p) {
                return Some(i);
            }
            i += 1;
        }
        None
    }

    /// Store a record locally, overwriting any record under the same key:
    /// last write wins.
    pub fn put(&mut self, r: Record)
        requires
            old(self).wf(),
        ensures
            final(self).wf(),
            final(self).stored(r.key@) == Option::Some(r.model()),
            forall|k2: Seq<u8>| k2 != r.key@ ==> final(self).stored(k2) == old(self).stored(k2),
            final(self).providers@ == old(self).providers@,
    {
        let ghost s0 = self.records@;
        let ghost km = r.key@;
        match Self::find_record(&self.records, &r.key) {
            Some(i) => {
                proof {
                    lemma_rec_idx_props(s0, km, 0);
                }
                let _ = self.records.remove(i);
                self.records.insert(i, r);
                proof {
                    let s1 = self.records@;
                    assert(s1 =~= s0.update(i as int, s1[i as int]));
                    assert(s1[i as int].key@ == km);
                    assert forall|m: int, n: int|
                        0 <= m < n < s1.len() implies s1[m].key@ != s1[n].key@ by {
                        assert(s0[m].key@ != s0[n].key@);
                        if m == i as int {
                            assert(s1[m].key@ == s0[m].key@);
                        }
                        if n == i as int {
                            assert(s1[n].key@ == s0[n].key@);
                        }
                    }
                    lemma_rec_idx_unique(s1, km, i as int);
                    assert forall|k2: Seq<u8>| k2 != km implies stored_in(s1, k2) == stored_in(
                        s0,
                        k2,
                    ) by {
                        lemma_rec_idx_props(s0, k2, 0);
                        lemma_rec_idx_props(s1, k2, 0);
                        if rec_idx(s0, k2) >= 0 {
                            let j = rec_idx(s0, k2);
                            assert(j != i as int);
                            assert(s1[j].key@ == k2);
                            lemma_rec_idx_unique(s1, k2, j);
                        } else {
                            if rec_idx(s1, k2) >= 0 {
                                let j = rec_idx(s1, k2);
                                assert(s1[j].key@ == k2);
                                assert(j != i as int);
                                assert(s1[j] == s0[j]);
                                assert(s0[j].key@ != k2);
                                assert(false);
                            }
                        }
                    }
                }
            },
            None => {
                proof {
                    lemma_rec_idx_props(s0, km, 0);
                }
                self.records.push(r);
                proof {
                    let s1 = self.records@;
                    assert forall|m: int, n: int|
                        0 <= m < n < s1.len() implies s1[m].key@ != s1[n].key@ by {
                        if n < s1.len() - 1 {
                            assert(s0[m].key@ != s0[n].key@);
                        } else {
                            assert(s1[m] == s0[m]);
                            assert(s0[m].key@ != km);
                        }
                    }
                    lemma_rec_idx_unique(s1, km, s1.len() - 1);
                    assert forall|k2: Seq<u8>| k2 != km implies stored_in(s1, k2) == stored_in(
                        s0,
                        k2,
                    ) by {
                        lemma_rec_idx_props(s0, k2, 0);
                        lemma_rec_idx_props(s1, k2, 0);
                        if rec_idx(s0, k2) >= 0 {
                            let j = rec_idx(s0, k2);
                            assert(s1[j].key@ == k2);
                            lemma_rec_idx_unique(s1, k2, j);
                        } else {
                            if rec_idx(s1, k2) >= 0 {
                                let j = rec_idx(s1, k2);
                                assert(s1[j].key@ == k2);
                                assert(j < s1.len() - 1);
                                assert(s1[j] == s0[j]);
                                assert(s0[j].key@ != k2);
                                assert(false);
                            }
                        }
                    }
                }
            },
        }
    }

    /// Look a key up locally. An expired record is purged and reported
    /// absent; a live one is returned.
    pub fn get(&mut self, k: &Vec<u8>, now: u64) -> (r: Option<Record>)
        requires
            old(self).wf(),
        ensures
            final(self).wf(),
            match r {
                Some(rec) => old(self).lookup(k@, now) == Option::Some(rec.model()),
                None => old(self).lookup(k@, now) is None,
            },
            final(self).stored(k@) == old(self).lookup(k@, now),
            forall|k2: Seq<u8>| k2 != k@ ==> final(self).stored(k2) == old(self).stored(k2),
            final(self).providers@ == old(self).providers@,
    {
        let ghost s0 = self.records@;
        match Self::find_record(&self.records, k) {
            None => None,
            Some(i) => {
                proof {
                    lemma_rec_idx_props(s0, k@, 0);
                }
                let expired_now = match self.records[i].expires {
                    Some(t) => t <= now,
                    None => false,
                };
                if expired_now {
                    let _ = self.records.remove(i);
                    proof {
                        let s1 = self.records@;
                        assert forall|m: int, n: int|
                            0 <= m < n < s1.len() implies s1[m].key@ != s1[n].key@ by {
                            let om: int = if m < i as int {
                                m
                            } else {
                                m + 1
                            };
                            let on: int = if n < i as int {
                                n
                            } else {
                                n + 1
                            };
                            assert(s1[m] == s0[om] && s1[n] == s0[on]);
                            assert(s0[om].key@ != s0[on].key@);
                        }
                        lemma_rec_idx_props(s1, k@, 0);
                        if rec_idx(s1, k@) >= 0 {
                            let j = rec_idx(s1, k@);
                            let oj: int = if j < i as int {
                                j
                            } else {
                                j + 1
                            };
                            assert(s1[j] == s0[oj]);
                            assert(s0[oj].key@ == k@ && oj != i as int);
                            assert(false);
                        }
                        assert forall|k2: Seq<u8>| k2 != k@ implies stored_in(s1, k2)
                            == stored_in(s0, k2) by {
                            lemma_rec_idx_props(s0, k2, 0);
                            lemma_rec_idx_props(s1, k2, 0);
                            if rec_idx(s0, k2) >= 0 {
                                let j = rec_idx(s0, k2);
                                assert(j != i as int);
                                let nj: int = if j < i as int {
                                    j
                                } else {
                                    j - 1
                                };
                                assert(s1[nj] == s0[j]);
                                lemma_rec_idx_unique(s1, k2, nj);
                            } else {
                                if rec_idx(s1, k2) >= 0 {
                                    let j = rec_idx(s1, k2);
                                    assert(s1[j].key@ == k2);
                                    let oj: int = if j < i as int {
                                        j
                                    } else {
                                        j + 1
                                    };
                                    assert(s1[j] == s0[oj]);
                                    assert(s0[oj].key@ != k2);
                                    assert(false);
                                }
                            }
                        }
                    }
                    None
                } else {
                    let rec = clone_record(&self.records[i]);
                    proof {
                        assert(self.records@ == s0);
                    }
                    Some(rec)
                }
            },
        }
    }

    /// Announce `provider` for `key` until `expires`. Set semantics: a
    /// repeated announcement only refreshes the recorded expiry.
    pub fn add_provider(&mut self, key: Vec<u8>, provider: Vec<u8>, expires: u64)
        requires
            old(self).wf(),
        ensures
            final(self).wf(),
            final(self).providers_of(key@) == old(self).providers_of(key@).insert(provider@),
            forall|k2: Seq<u8>|
                k2 != key@ ==> final(self).providers_of(k2) == old(self).providers_of(k2),
            final(self).provider_expiry(key@, provider@) == expires,
            final(self).records@ == old(self).records@,
    {
        let ghost t0 = *self;
        let ghost p0 = self.providers@;
        let ghost km = key@;
        let ghost pm = provider@;
        match Self::find_provider(&self.providers, &key, &provider) {
            Some(i) => {
                proof {
                    lemma_prov_idx_props(p0, km, pm, 0);
                }
                let _ = self.providers.remove(i);
            },
            None => {
                proof {
                    lemma_prov_idx_props(p0, km, pm, 0);
                }
            },
        }
        let ghost p1 = self.providers@;
        proof {
            assert forall|m: int, n: int|
                0 <= m < n < p1.len() implies !(p1[m].key@ == p1[n].key@ && p1[m].provider@
                == p1[n].provider@) by {
                if p1.len() < p0.len() {
                    let ii = prov_idx(p0, km, pm);
                    let om: int = if m < ii {
                        m
                    } else {
                        m + 1
                    };
                    let on: int = if n < ii {
                        n
                    } else {
                        n + 1
                    };
                    assert(p1[m] == p0[om] && p1[n] == p0[on]);
                }
            }
            assert forall|j: int| 0 <= j < p1.len() implies !((#[trigger] p1[j]).key@ == km
                && p1[j].provider@ == pm) by {
                if p1.len() < p0.len() {
                    let ii = prov_idx(p0, km, pm);
                    let oj: int = if j < ii {
                        j
                    } else {
                        j + 1
                    };
                    assert(p1[j] == p0[oj]);
                }
            }
            assert forall|k2: Seq<u8>, q: Seq<u8>| #[trigger] has_provider_entry(p1, k2, q) implies has_provider_entry(
                p0,
                k2,
                q,
            ) by {
                if p1.len() < p0.len() {
                    let ii = prov_idx(p0, km, pm);
                    let j = choose|j: int|
                        0 <= j < p1.len() && p1[j].key@ == k2 && p1[j].provider@ == q;
                    let oj: int = if j < ii {
                        j
                    } else {
                        j + 1
                    };
                    assert(p1[j] == p0[oj]);
                }
            }
            assert forall|k2: Seq<u8>, q: Seq<u8>|
                #[trigger] has_provider_entry(p0, k2, q) && !(k2 == km && q == pm) implies has_provider_entry(
                p1,
                k2,
                q,
            ) by {
                let j = choose|j: int|
                    0 <= j < p0.len() && p0[j].key@ == k2 && p0[j].provider@ == q;
                if p1.len() < p0.len() {
                    let ii = prov_idx(p0, km, pm);
                    assert(p0[ii].key@ == km && p0[ii].provider@ == pm);
                    assert(j != ii);
                    let nj: int = if j < ii {
                        j
                    } else {
                        j - 1
                    };
                    assert(p1[nj] == p0[j]);
                } else {
                    assert(p1[j] == p0[j]);
                }
            }
        }
        self.providers.push(ProviderRecord { key, provider, expires });
        proof {
            let p2 = self.providers@;
            assert forall|m: int, n: int|
                0 <= m < n < p2.len() implies !(p2[m].key@ == p2[n].key@ && p2[m].provider@
                == p2[n].provider@) by {
                if n == p2.len() - 1 {
                    assert(p2[m] == p1[m]);
                }
            }
            lemma_prov_idx_unique(p2, km, pm, p2.len() - 1);
            assert forall|k2: Seq<u8>, q: Seq<u8>| #[trigger] has_provider_entry(p2, k2, q) implies (has_provider_entry(
                p1,
                k2,
                q,
            ) || (k2 == km && q == pm)) by {
                let j = choose|j: int|
                    0 <= j < p2.len() && p2[j].key@ == k2 && p2[j].provider@ == q;
                if j < p2.len() - 1 {
                    assert(p1[j] == p2[j]);
                }
            }
            assert forall|k2: Seq<u8>, q: Seq<u8>| #[trigger] has_provider_entry(p1, k2, q) implies has_provider_entry(
                p2,
                k2,
                q,
            ) by {
                let j = choose|j: int|
                    0 <= j < p1.len() && p1[j].key@ == k2 && p1[j].provider@ == q;
                assert(p2[j] == p1[j]);
            }
            assert(p2[p2.len() - 1].key@ == km && p2[p2.len() - 1].provider@ == pm);
            assert(has_provider_entry(p2, km, pm));
            assert(self.providers_of(km) =~= t0.providers_of(km).insert(pm)) by {
                assert forall|q: Seq<u8>| self.providers_of(km).contains(q) implies t0.providers_of(
                    km,
                ).insert(pm).contains(q) by {}
                assert forall|q: Seq<u8>| t0.providers_of(km).insert(pm).contains(q)
                    implies self.providers_of(km).contains(q) by {}
            }
            assert forall|k2: Seq<u8>| k2 != km implies self.providers_of(k2) == t0.providers_of(
                k2,
            ) by {
                assert(self.providers_of(k2) =~= t0.providers_of(k2)) by {
                    assert forall|q: Seq<u8>| self.providers_of(k2).contains(q)
                        implies t0.providers_of(k2).contains(q) by {}
                    assert forall|q: Seq<u8>| t0.providers_of(k2).contains(q)
                        implies self.providers_of(k2).contains(q) by {}
                }
            }
        }
    }
}


impl RecordStore {
    /// The distinct providers of `key` whose announcements are still live
    /// at time `now`.
    pub fn providers(&self, key: &Vec<u8>, now: u64) -> (r: Vec<Vec<u8>>)
        requires
            self.wf(),
        ensures
            forall|i: int, j: int| 0 <= i < j < r@.len() ==> r@[i]@ != r@[j]@,
            forall|i: int|
                0 <= i < r@.len() ==> self.providers_of(key@).contains(#[trigger] r@[i]@)
                    && self.provider_expiry(key@, r@[i]@) > now,
            forall|p: Seq<u8>|
                self.providers_of(key@).contains(p) && #[trigger] self.provider_expiry(key@, p)
                    > now ==> bytes_list_has(r@, p),
    {
        let ps = &self.providers;
        let mut r: Vec<Vec<u8>> = Vec::new();
        let mut i: usize = 0;
        while i < ps.len()
            invariant
                self.wf(),
                ps == &self.providers,
                i <= ps@.len(),
                forall|m: int, n: int| 0 <= m < n < r@.len() ==> r@[m]@ != r@[n]@,
                forall|m: int|
                    0 <= m < r@.len() ==> has_provider_entry(ps@, key@, #[trigger] r@[m]@)
                        && self.provider_expiry(key@, r@[m]@) > now,
                forall|j: int|
                    0 <= j < i && (#[trigger] ps@[j]).key@ == key@ && ps@[j].expires > now
                        ==> bytes_list_has(r@, ps@[j].provider@),
            decreases ps@.len() - i,
        {
            let matches_key = crate::keyspace::bytes_eq(&ps[i].key, key);
            let live = ps[i].expires > now;
            if matches_key && live {
                proof {
                    lemma_prov_idx_unique(ps@, key@, ps@[i as int].provider@, i as int);
                }
                if !bytes_list_contains(&r, &ps[i].provider) {
                    let ghost r0 = r@;
                    r.push(crate::keyspace::bytes_clone(&ps[i].provider));
                    proof {
                        assert(r@[r@.len() - 1]@ == ps@[i as int].provider@);
                        assert forall|m: int, n: int|
                            0 <= m < n < r@.len() implies r@[m]@ != r@[n]@ by {
                            if n == r@.len() - 1 {
                                assert(r@[m] == r0[m]);
                            }
                        }
                        assert forall|m: int| 0 <= m < r@.len() implies has_provider_entry(
                            ps@,
                            key@,
                            #[trigger] r@[m]@,
                        ) && self.provider_expiry(key@, r@[m]@) > now by {
                            if m < r@.len() - 1 {
                                assert(r@[m] == r0[m]);
                            }
                        }
                        assert forall|j: int|
                            0 <= j <= i && (#[trigger] ps@[j]).key@ == key@ && ps@[j].expires
                                > now implies bytes_list_has(r@, ps@[j].provider@) by {
                            if j < i {
                                let m = choose|m: int|
                                    0 <= m < r0.len() && r0[m]@ == ps@[j].provider@;
                                assert(r@[m]@ == ps@[j].provider@);
                            } else {
                                assert(r@[r@.len() - 1]@ == ps@[j].provider@);
                            }
                        }
                    }
                } else {
                    proof {
                        assert forall|j: int|
                            0 <= j <= i && (#[trigger] ps@[j]).key@ == key@ && ps@[j].expires
                                > now implies bytes_list_has(r@, ps@[j].provider@) by {}
                    }
                }
            } else {
                proof {
                    assert forall|j: int|
                        0 <= j <= i && (#[trigger] ps@[j]).key@ == key@ && ps@[j].expires > now
                        implies bytes_list_has(r@, ps@[j].provider@) by {
                        if j == i {
                            assert(false);
                        }
                    }
                }
            }
            i += 1;
        }
        proof {
            assert forall|p: Seq<u8>|
                self.providers_of(key@).contains(p) && #[trigger] self.provider_expiry(key@, p)
                    > now implies bytes_list_has(r@, p) by {
                let j = choose|j: int|
                    0 <= j < ps@.len() && ps@[j].key@ == key@ && ps@[j].provider@ == p;
                lemma_prov_idx_unique(ps@, key@, p, j);
                assert(ps@[j].expires > now);
            }
        }
        r
    }
}

/// A record just written is what an immediate local lookup returns: a
/// `put` of a record not yet expired, followed at once by a `get` of its
/// key, yields that record.
pub proof fn lemma_put_get_round_trip(s_after: RecordStore, k: Seq<u8>, m: RecordModel, now: u64)
    requires
        s_after.stored(k) == Option::Some(m),
        !RecordStore::expired(m, now),
    ensures
        s_after.lookup(k, now) == Option::Some(m),
{
}

/// Announcing the same provider again is idempotent: the provider set
/// after a repeated announcement equals the set after the first, and the
/// provider is in it. Together with `add_provider`'s contract (whose
/// recorded expiry is that of the later call) this gives the refreshed
/// time-to-live.
pub proof fn lemma_add_provider_idempotent(base: Set<Seq<u8>>, p: Seq<u8>)
    ensures
        base.insert(p).insert(p) == base.insert(p),
        base.insert(p).contains(p),
{
    assert(base.insert(p).insert(p) =~= base.insert(p));
}

/// A well-formed store holds at most one entry per (key, provider) pair.
pub proof fn lemma_provider_entry_unique(s: RecordStore, k: Seq<u8>, p: Seq<u8>, i: int, j: int)
    requires
        s.wf(),
        0 <= i < s.providers@.len(),
        0 <= j < s.providers@.len(),
        s.providers@[i].key@ == k,
        s.providers@[i].provider@ == p,
        s.providers@[j].key@ == k,
        s.providers@[j].provider@ == p,
    ensures
        i == j,
{
    lemma_prov_idx_unique(s.providers@, k, p, i);
    lemma_prov_idx_unique(s.providers@, k, p, j);
}

} // verus!

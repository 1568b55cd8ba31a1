//! The bucketed routing table.
//!
//! Known peers are grouped into 256 buckets by the length of the common
//! bit prefix of their key-space identifier with the local node's
//! identifier. Each bucket holds at most `k` peers, least-recently-seen
//! first. A peer appears in at most one bucket, and the local node is
//! never inserted.

use vstd::prelude::*;
use crate::keyspace::{
    KadKey, sha256_of, kad_id, bucket_index, bytes_eq, prefix_bits, dist_le,
};

verus! {

/// A peer known to the routing table: its raw identifier, its cached
/// key-space position, and its network address.
pub struct PeerEntry {
    pub peer: Vec<u8>,
    pub kad: KadKey,
    pub addr: Vec<u8>,
}

/// The cached key-space position is the hash of the peer identifier.
pub open spec fn entry_wf(e: PeerEntry) -> bool {
    &&& e.kad.wf()
    &&& e.kad.bytes@ == sha256_of(e.peer@)
}

/// Some slot of `s` holds peer `p`.
pub open spec fn has_peer_seq(s: Seq<PeerEntry>, p: Seq<u8>) -> bool {
    exists|i: int| 0 <= i < s.len() && s[i].peer@ == p
}

/// No peer occupies two slots of `s`.
pub open spec fn distinct_peers(s: Seq<PeerEntry>) -> bool {
    forall|i: int, j: int| 0 <= i < j < s.len() ==> s[i].peer@ != s[j].peer@
}

/// Every slot of `s` is well formed.
pub open spec fn entries_wf(s: Seq<PeerEntry>) -> bool {
    forall|i: int| 0 <= i < s.len() ==> entry_wf(#[trigger] s[i])
}

/// What `insert` did with the offered peer.
#[derive(Clone, Copy, PartialEq, Eq, Structural, Debug)]
pub enum InsertOutcome {
    /// The peer is the local node (or collides with it) or was dropped.
    Discarded,
    /// The peer was already present: moved to most-recently-seen, address
    /// updated.
    Refreshed,
    /// The peer was appended to its bucket.
    Inserted,
    /// The bucket is full: the caller should probe the new peer for
    /// reachability and then call `insert_probed`.
    Full,
}

pub struct RoutingTable {
    pub self_peer: Vec<u8>,
    pub self_kad: KadKey,
    pub k: usize,
    pub buckets: Vec<Vec<PeerEntry>>,
}

impl RoutingTable {
    /// The bucket in which peer `p` must live, seen from the local node.
    pub open spec fn home_bucket(self, p: Seq<u8>) -> int {
        prefix_bits(self.self_kad.bytes@, sha256_of(p))
    }

    pub open spec fn bucket_ok(self, b: int) -> bool {
        &&& self.buckets@[b]@.len() <= self.k
        &&& entries_wf(self.buckets@[b]@)
        &&& distinct_peers(self.buckets@[b]@)
        &&& forall|i: int|
            0 <= i < self.buckets@[b]@.len() ==> prefix_bits(
                self.self_kad.bytes@,
                (#[trigger] self.buckets@[b]@[i]).kad.bytes@,
            ) == b
    }

    pub open spec fn wf(self) -> bool {
        &&& self.self_kad.wf()
        &&& self.self_kad.bytes@ == sha256_of(self.self_peer@)
        &&& self.k >= 1
        &&& self.buckets@.len() == 256
        &&& forall|b: int| 0 <= b < 256 ==> self.bucket_ok(b)
    }

    /// The table knows peer `p`.
    pub open spec fn contains_peer(self, p: Seq<u8>) -> bool {
        exists|b: int| 0 <= b < 256 && has_peer_seq(#[trigger] self.buckets@[b]@, p)
    }

    /// A fresh table that knows no peers.
    pub fn new(self_peer: Vec<u8>, k: usize) -> (r: RoutingTable)
        requires
            k >= 1,
        ensures
            r.wf(),
            r.self_peer@ == self_peer@,
            r.k == k,
            forall|q: Seq<u8>| !r.contains_peer(q),
    {
        let self_kad = kad_id(&self_peer);
        let mut buckets: Vec<Vec<PeerEntry>> = Vec::new();
        let mut b: usize = 0;
        while b < 256
            invariant
                b <= 256,
                buckets@.len() == b as int,
                forall|i: int| 0 <= i < b ==> (#[trigger] buckets@[i])@.len() == 0,
            decreases 256 - b,
        {
            buckets.push(Vec::new());
            b += 1;
        }
        let r = RoutingTable { self_peer, self_kad, k, buckets };
        proof {
            assert forall|q: Seq<u8>| !r.contains_peer(q) by {
                assert(forall|bb: int| 0 <= bb < 256 ==> !has_peer_seq(#[trigger] r.buckets@[bb]@, q));
            }
        }
        r
    }
}

/// A removed slot takes only its own peer out of the membership relation.
pub proof fn lemma_has_peer_remove(s: Seq<PeerEntry>, i: int, q: Seq<u8>)
    requires
        0 <= i < s.len(),
    ensures
        has_peer_seq(s.remove(i), q) == (exists|j: int|
            0 <= j < s.len() && j != i && s[j].peer@ == q),
{
    if has_peer_seq(s.remove(i), q) {
        let j = choose|j: int| 0 <= j < s.remove(i).len() && s.remove(i)[j].peer@ == q;
        if j < i {
            assert(s[j].peer@ == q && j != i);
        } else {
            assert(s[j + 1].peer@ == q && j + 1 != i);
        }
    }
    if exists|j: int| 0 <= j < s.len() && j != i && s[j].peer@ == q {
        let j = choose|j: int| 0 <= j < s.len() && j != i && s[j].peer@ == q;
        if j < i {
            assert(s.remove(i)[j].peer@ == q);
        } else {
            assert(s.remove(i)[j - 1].peer@ == q);
        }
    }
}

/// Appending a slot adds exactly its peer to the membership relation.
pub proof fn lemma_has_peer_push(s: Seq<PeerEntry>, e: PeerEntry, q: Seq<u8>)
    ensures
        has_peer_seq(s.push(e), q) == (has_peer_seq(s, q) || e.peer@ == q),
{
    if has_peer_seq(s.push(e), q) {
        let j = choose|j: int| 0 <= j < s.push(e).len() && s.push(e)[j].peer@ == q;
        if j < s.len() {
            assert(s[j].peer@ == q);
        }
    }
    if has_peer_seq(s, q) {
        let j = choose|j: int| 0 <= j < s.len() && s[j].peer@ == q;
        assert(s.push(e)[j].peer@ == q);
    }
    if e.peer@ == q {
        assert(s.push(e)[s.len() as int].peer@ == q);
    }
}

impl RoutingTable {
    /// Find the slot of `peer` in a bucket.
    fn find_in_bucket(s: &Vec<PeerEntry>, peer: &Vec<u8>) -> (r: Option<usize>)
        ensures
            match r {
                Some(i) => i < s@.len() && s@[i as int].peer@ == peer@,
                None => !has_peer_seq(s@, peer@),
            },
    {
        let mut i: usize = 0;
        while i < s.len()
            invariant
                i <= s@.len(),
                forall|j: int| 0 <= j < i ==> s@[j].peer@ != peer@,
            decreases s@.len() - i,
        {
            if bytes_eq(&s[i].peer, peer) {
                return Some(i);
            }
            i += 1;
        }
        None
    }

    /// Offer a peer to the table. An already-known peer moves to the
    /// most-recently-seen position of its bucket with its address updated;
    /// a new peer joins a bucket with room; a full bucket answers `Full`,
    /// asking the caller to probe the new peer and finish with
    /// `insert_probed`. The local node is never inserted.
    pub fn insert(&mut self, peer: Vec<u8>, addr: Vec<u8>) -> (r: InsertOutcome)
        requires
            old(self).wf(),
        ensures
            final(self).wf(),
            final(self).self_peer@ == old(self).self_peer@,
            final(self).self_kad.bytes@ == old(self).self_kad.bytes@,
            final(self).k == old(self).k,
            (r is Discarded) <==> sha256_of(peer@) == old(self).self_kad.bytes@,
            (r is Refreshed) <==> (sha256_of(peer@) != old(self).self_kad.bytes@
                && old(self).contains_peer(peer@)),
            (r is Inserted) <==> (sha256_of(peer@) != old(self).self_kad.bytes@
                && !old(self).contains_peer(peer@)
                && old(self).buckets@[old(self).home_bucket(peer@)]@.len() < old(self).k),
            (r is Full) <==> (sha256_of(peer@) != old(self).self_kad.bytes@
                && !old(self).contains_peer(peer@)
                && old(self).buckets@[old(self).home_bucket(peer@)]@.len() >= old(self).k),
            (r is Discarded) ==> *final(self) == *old(self),
            (r is Full) ==> final(self).buckets@ == old(self).buckets@,
            (r is Refreshed) ==> forall|q: Seq<u8>|
                final(self).contains_peer(q) == old(self).contains_peer(q),
            (r is Inserted) ==> forall|q: Seq<u8>|
                final(self).contains_peer(q) == (old(self).contains_peer(q) || q == peer@),
            (r is Refreshed || r is Inserted) ==> {
                let hb = final(self).buckets@[old(self).home_bucket(peer@)]@;
                hb.len() > 0 && hb.last().peer@ == peer@ && hb.last().addr@ == addr@
            },
    {
        let kad = kad_id(&peer);
        let idx = bucket_index(&self.self_kad, &kad);
        if idx >= 256 {
            return InsertOutcome::Discarded;
        }
        proof {
            self.lemma_home_bucket_membership(peer@);
        }
        let ghost t0 = *self;
        let ghost h = t0.home_bucket(peer@);
        let mut bkt = self.buckets.remove(idx);
        let ghost b0 = bkt@;
        match Self::find_in_bucket(&bkt, &peer) {
            Some(i) => {
                let _ = bkt.remove(i);
                bkt.push(PeerEntry { peer, kad, addr });
                let ghost b1 = bkt@;
                self.buckets.insert(idx, bkt);
                proof {
                    assert(self.buckets@ =~= t0.buckets@.update(h, self.buckets@[h]));
                    let e = b1.last();
                    assert(b1 == b0.remove(i as int).push(e));
                    assert forall|b: int| 0 <= b < 256 implies self.bucket_ok(b) by {
                        assert(t0.bucket_ok(b));
                        if b == h {
                            assert forall|m: int, n: int|
                                0 <= m < n < b1.len() implies b1[m].peer@ != b1[n].peer@ by {
                                if n < b1.len() - 1 {
                                    lemma_remove_indices(b0, i as int);
                                } else {
                                    lemma_remove_indices(b0, i as int);
                                    assert(b1[n].peer@ == b0[i as int].peer@);
                                }
                            }
                            assert forall|m: int| 0 <= m < b1.len() implies entry_wf(#[trigger] b1[m])
                                && prefix_bits(self.self_kad.bytes@, b1[m].kad.bytes@) == b by {
                                lemma_remove_indices(b0, i as int);
                            }
                        }
                    }
                    assert forall|q: Seq<u8>|
                        self.contains_peer(q) == t0.contains_peer(q) by {
                        lemma_has_peer_remove(b0, i as int, q);
                        lemma_has_peer_push(b0.remove(i as int), e, q);
                        if self.contains_peer(q) {
                            let b = choose|b: int|
                                0 <= b < 256 && has_peer_seq(#[trigger] self.buckets@[b]@, q);
                            if b == h {
                                if q == peer@ {
                                    assert(t0.contains_peer(q));
                                } else {
                                    assert(has_peer_seq(b0, q));
                                    assert(t0.contains_peer(q));
                                }
                            } else {
                                assert(has_peer_seq(t0.buckets@[b]@, q));
                            }
                        }
                        if t0.contains_peer(q) {
                            let b = choose|b: int|
                                0 <= b < 256 && has_peer_seq(#[trigger] t0.buckets@[b]@, q);
                            if b == h {
                                if q == peer@ {
                                    assert(has_peer_seq(b1, q));
                                } else {
                                    let j = choose|j: int|
                                        0 <= j < b0.len() && b0[j].peer@ == q;
                                    assert(j != i);
                                    assert(has_peer_seq(b1, q));
                                }
                                assert(has_peer_seq(self.buckets@[h]@, q));
                            } else {
                                assert(has_peer_seq(self.buckets@[b]@, q));
                            }
                        }
                    }
                }
                InsertOutcome::Refreshed
            },
            None => {
                if bkt.len() < self.k {
                    bkt.push(PeerEntry { peer, kad, addr });
                    let ghost b1 = bkt@;
                    self.buckets.insert(idx, bkt);
                    proof {
                        assert(self.buckets@ =~= t0.buckets@.update(h, self.buckets@[h]));
                        let e = b1.last();
                        assert(b1 == b0.push(e));
                        assert forall|b: int| 0 <= b < 256 implies self.bucket_ok(b) by {
                            assert(t0.bucket_ok(b));
                            if b == h {
                                assert forall|m: int, n: int|
                                    0 <= m < n < b1.len() implies b1[m].peer@ != b1[n].peer@ by {
                                    if n == b1.len() - 1 {
                                        assert(b1[m] == b0[m]);
                                    }
                                }
                                assert(entry_wf(e));
                                assert(prefix_bits(self.self_kad.bytes@, e.kad.bytes@) == h);
                                assert forall|m: int| 0 <= m < b1.len() implies entry_wf(
                                    #[trigger] b1[m],
                                ) && prefix_bits(self.self_kad.bytes@, b1[m].kad.bytes@) == b by {
                                    if m < b1.len() - 1 {
                                        assert(b1[m] == b0[m]);
                                    }
                                }
                            }
                        }
                        assert forall|q: Seq<u8>|
                            self.contains_peer(q) == (t0.contains_peer(q) || q == peer@) by {
                            lemma_has_peer_push(b0, e, q);
                            if self.contains_peer(q) {
                                let b = choose|b: int|
                                    0 <= b < 256 && has_peer_seq(#[trigger] self.buckets@[b]@, q);
                                if b != h {
                                    assert(has_peer_seq(t0.buckets@[b]@, q));
                                }
                            }
                            if t0.contains_peer(q) {
                                let b = choose|b: int|
                                    0 <= b < 256 && has_peer_seq(#[trigger] t0.buckets@[b]@, q);
                                if b == h {
                                    assert(has_peer_seq(b1, q));
                                    assert(has_peer_seq(self.buckets@[h]@, q));
                                } else {
                                    assert(has_peer_seq(self.buckets@[b]@, q));
                                }
                            }
                            if q == peer@ {
                                assert(has_peer_seq(b1, q));
                                assert(has_peer_seq(self.buckets@[h]@, q));
                            }
                        }
                    }
                    InsertOutcome::Inserted
                } else {
                    self.buckets.insert(idx, bkt);
                    proof {
                        assert(self.buckets@ =~= t0.buckets@);
                        assert forall|b: int| 0 <= b < 256 implies self.bucket_ok(b) by {
                            assert(t0.bucket_ok(b));
                            assert(self.buckets@[b] == t0.buckets@[b]);
                        }
                    }
                    InsertOutcome::Full
                }
            },
        }
    }

    /// A well-formed table holds a peer only in its home bucket.
    pub proof fn lemma_home_bucket_membership(self, p: Seq<u8>)
        requires
            self.wf(),
        ensures
            self.contains_peer(p) <==> (0 <= self.home_bucket(p) < 256 && has_peer_seq(
                self.buckets@[self.home_bucket(p)]@,
                p,
            )),
    {
        if self.contains_peer(p) {
            let b = choose|b: int| 0 <= b < 256 && has_peer_seq(#[trigger] self.buckets@[b]@, p);
            let i = choose|i: int|
                0 <= i < self.buckets@[b]@.len() && self.buckets@[b]@[i].peer@ == p;
            assert(self.bucket_ok(b));
            assert(entry_wf(self.buckets@[b]@[i]));
            assert(self.home_bucket(p) == b);
        }
    }
}

/// Copy one routing-table entry.
fn clone_entry(e: &PeerEntry) -> (r: PeerEntry)
    ensures
        r.peer@ == e.peer@,
        r.kad.bytes@ == e.kad.bytes@,
        r.addr@ == e.addr@,
{
    PeerEntry {
        peer: crate::keyspace::bytes_clone(&e.peer),
        kad: crate::keyspace::kad_clone(&e.kad),
        addr: crate::keyspace::bytes_clone(&e.addr),
    }
}

impl RoutingTable {
    /// Forget a peer, for instance after it failed to answer an RPC.
    /// A peer that is not present is left alone, so the call is idempotent.
    pub fn remove(&mut self, peer: &Vec<u8>)
        requires
            old(self).wf(),
        ensures
            final(self).wf(),
            final(self).self_peer@ == old(self).self_peer@,
            final(self).self_kad.bytes@ == old(self).self_kad.bytes@,
            final(self).k == old(self).k,
            !final(self).contains_peer(peer@),
            forall|q: Seq<u8>|
                q != peer@ ==> final(self).contains_peer(q) == old(self).contains_peer(q),
    {
        let kad = kad_id(peer);
        let idx = bucket_index(&self.self_kad, &kad);
        proof {
            self.lemma_home_bucket_membership(peer@);
        }
        if idx >= 256 {
            return ;
        }
        let ghost t0 = *self;
        let ghost h = t0.home_bucket(peer@);
        let mut bkt = self.buckets.remove(idx);
        let ghost b0 = bkt@;
        match Self::find_in_bucket(&bkt, peer) {
            Some(i) => {
                let _ = bkt.remove(i);
                let ghost b1 = bkt@;
                self.buckets.insert(idx, bkt);
                proof {
                    assert(self.buckets@ =~= t0.buckets@.update(h, self.buckets@[h]));
                    assert(b1 == b0.remove(i as int));
                    lemma_remove_indices(b0, i as int);
                    assert forall|b: int| 0 <= b < 256 implies self.bucket_ok(b) by {
                        assert(t0.bucket_ok(b));
                        if b == h {
                            assert forall|m: int, n: int|
                                0 <= m < n < b1.len() implies b1[m].peer@ != b1[n].peer@ by {}
                        }
                    }
                    assert(t0.bucket_ok(h));
                    assert(distinct_peers(b0));
                    assert(!has_peer_seq(b1, peer@)) by {
                        if has_peer_seq(b1, peer@) {
                            let j = choose|j: int| 0 <= j < b1.len() && b1[j].peer@ == peer@;
                            if j < i {
                                assert(b0[j].peer@ == peer@ && b0[i as int].peer@ == peer@);
                            } else {
                                assert(b0[j + 1].peer@ == peer@ && b0[i as int].peer@ == peer@);
                            }
                        }
                    }
                    assert(!self.contains_peer(peer@)) by {
                        if self.contains_peer(peer@) {
                            self.lemma_home_bucket_membership(peer@);
                        }
                    }
                    assert forall|q: Seq<u8>| q != peer@ implies self.contains_peer(q)
                        == t0.contains_peer(q) by {
                        lemma_has_peer_remove(b0, i as int, q);
                        if self.contains_peer(q) {
                            let b = choose|b: int|
                                0 <= b < 256 && has_peer_seq(#[trigger] self.buckets@[b]@, q);
                            if b == h {
                                assert(has_peer_seq(b0, q));
                                assert(t0.contains_peer(q));
                            } else {
                                assert(has_peer_seq(t0.buckets@[b]@, q));
                            }
                        }
                        if t0.contains_peer(q) {
                            let b = choose|b: int|
                                0 <= b < 256 && has_peer_seq(#[trigger] t0.buckets@[b]@, q);
                            if b == h {
                                let j = choose|j: int| 0 <= j < b0.len() && b0[j].peer@ == q;
                                assert(j != i);
                                assert(has_peer_seq(b1, q));
                                assert(has_peer_seq(self.buckets@[h]@, q));
                            } else {
                                assert(has_peer_seq(self.buckets@[b]@, q));
                            }
                        }
                    }
                }
            },
            None => {
                self.buckets.insert(idx, bkt);
                proof {
                    assert(self.buckets@ =~= t0.buckets@);
                    assert forall|b: int| 0 <= b < 256 implies self.bucket_ok(b) by {
                        assert(t0.bucket_ok(b));
                        assert(self.buckets@[b] == t0.buckets@[b]);
                    }
                    assert(!self.contains_peer(peer@)) by {
                        if self.contains_peer(peer@) {
                            self.lemma_home_bucket_membership(peer@);
                            assert(has_peer_seq(b0, peer@));
                        }
                    }
                }
            },
        }
    }

    /// Finish an insertion that `insert` answered with `Full`, after the
    /// caller probed the new peer. An unreachable peer is dropped; a
    /// reachable one evicts the least-recently-seen entry of its full
    /// bucket and joins at the most-recently-seen end.
    pub fn insert_probed(&mut self, peer: Vec<u8>, addr: Vec<u8>, reachable: bool) -> (r:
        InsertOutcome)
        requires
            old(self).wf(),
        ensures
            final(self).wf(),
            final(self).self_peer@ == old(self).self_peer@,
            final(self).self_kad.bytes@ == old(self).self_kad.bytes@,
            final(self).k == old(self).k,
            !(r is Full),
            (r is Discarded) <==> (!reachable || sha256_of(peer@) == old(self).self_kad.bytes@),
            (r is Discarded) ==> *final(self) == *old(self),
            (r is Refreshed) <==> (reachable && sha256_of(peer@) != old(self).self_kad.bytes@
                && old(self).contains_peer(peer@)),
            (r is Refreshed) ==> forall|q: Seq<u8>|
                final(self).contains_peer(q) == old(self).contains_peer(q),
            (r is Inserted) <==> (reachable && sha256_of(peer@) != old(self).self_kad.bytes@
                && !old(self).contains_peer(peer@)),
            (r is Inserted && old(self).buckets@[old(self).home_bucket(peer@)]@.len() < old(
                self,
            ).k) ==> forall|q: Seq<u8>|
                final(self).contains_peer(q) == (old(self).contains_peer(q) || q == peer@),
            (r is Inserted && old(self).buckets@[old(self).home_bucket(peer@)]@.len() >= old(
                self,
            ).k) ==> forall|q: Seq<u8>|
                final(self).contains_peer(q) == ((old(self).contains_peer(q) && q != old(
                    self,
                ).buckets@[old(self).home_bucket(peer@)]@[0].peer@) || q == peer@),
    {
        if !reachable {
            return InsertOutcome::Discarded;
        }
        let ghost t0 = *self;
        let peer2 = crate::keyspace::bytes_clone(&peer);
        let addr2 = crate::keyspace::bytes_clone(&addr);
        let r = self.insert(peer, addr);
        match r {
            InsertOutcome::Full => {
                let kad = kad_id(&peer2);
                let idx = bucket_index(&self.self_kad, &kad);
                let ghost h = t0.home_bucket(peer2@);
                proof {
                    t0.lemma_home_bucket_membership(peer2@);
                }
                let mut bkt = self.buckets.remove(idx);
                let ghost b0 = bkt@;
                let _ = bkt.remove(0);
                bkt.push(PeerEntry { peer: peer2, kad, addr: addr2 });
                let ghost b1 = bkt@;
                self.buckets.insert(idx, bkt);
                proof {
                    let e = b1.last();
                    assert(b1 == b0.remove(0).push(e));
                    lemma_remove_indices(b0, 0);
                    assert(self.buckets@ =~= t0.buckets@.update(h, self.buckets@[h]));
                    assert(t0.bucket_ok(h));
                    assert(distinct_peers(b0));
                    let ghost victim = b0[0].peer@;
                    assert forall|b: int| 0 <= b < 256 implies self.bucket_ok(b) by {
                        assert(t0.bucket_ok(b));
                        if b == h {
                            assert(!has_peer_seq(b0, e.peer@));
                            assert forall|m: int, n: int|
                                0 <= m < n < b1.len() implies b1[m].peer@ != b1[n].peer@ by {
                                if n == b1.len() - 1 {
                                    assert(b1[m] == b0[m + 1]);
                                    assert(b0[m + 1].peer@ != e.peer@);
                                }
                            }
                            assert(entry_wf(e));
                            assert(prefix_bits(self.self_kad.bytes@, e.kad.bytes@) == h);
                            assert forall|m: int| 0 <= m < b1.len() implies entry_wf(
                                #[trigger] b1[m],
                            ) && prefix_bits(self.self_kad.bytes@, b1[m].kad.bytes@) == b by {
                                if m < b1.len() - 1 {
                                    assert(b1[m] == b0[m + 1]);
                                }
                            }
                        }
                    }
                    assert forall|q: Seq<u8>|
                        self.contains_peer(q) == ((t0.contains_peer(q) && q != victim) || q
                            == e.peer@) by {
                        lemma_has_peer_remove(b0, 0, q);
                        lemma_has_peer_push(b0.remove(0), e, q);
                        if self.contains_peer(q) {
                            let b = choose|b: int|
                                0 <= b < 256 && has_peer_seq(#[trigger] self.buckets@[b]@, q);
                            if b == h {
                                if q != e.peer@ {
                                    assert(has_peer_seq(b0, q));
                                    assert(t0.contains_peer(q));
                                    if q == victim {
                                        let j = choose|j: int|
                                            0 <= j < b0.len() && j != 0 && b0[j].peer@ == q;
                                        assert(b0[0].peer@ == q);
                                        assert(false);
                                    }
                                }
                            } else {
                                assert(has_peer_seq(t0.buckets@[b]@, q));
                                if q == victim {
                                    let jj = choose|jj: int|
                                        0 <= jj < t0.buckets@[b]@.len() && t0.buckets@[b]@[jj].peer@
                                            == q;
                                    lemma_peer_bucket_unique(t0, b, jj, h, 0);
                                    assert(false);
                                }
                            }
                        }
                        if t0.contains_peer(q) && q != victim {
                            let b = choose|b: int|
                                0 <= b < 256 && has_peer_seq(#[trigger] t0.buckets@[b]@, q);
                            if b == h {
                                let j = choose|j: int| 0 <= j < b0.len() && b0[j].peer@ == q;
                                assert(j != 0);
                                assert(has_peer_seq(b1, q));
                                assert(has_peer_seq(self.buckets@[h]@, q));
                            } else {
                                assert(has_peer_seq(self.buckets@[b]@, q));
                            }
                        }
                        if q == e.peer@ {
                            assert(has_peer_seq(b1, q));
                            assert(has_peer_seq(self.buckets@[h]@, q));
                        }
                    }
                }
                InsertOutcome::Inserted
            },
            InsertOutcome::Discarded => InsertOutcome::Discarded,
            InsertOutcome::Refreshed => InsertOutcome::Refreshed,
            InsertOutcome::Inserted => InsertOutcome::Inserted,
        }
    }
}

/// What `closest` promises of its result, bundled so that callers can
/// pass the promise on: at most `n` entries, well formed, no peer twice,
/// all peers of the table, sorted by non-decreasing XOR distance of their
/// hashed identifiers to `target`, leaving out only peers no closer than
/// every returned one, and short of `n` only when it holds the whole
/// table.
pub open spec fn closest_result_ok(
    t: RoutingTable,
    target: Seq<u8>,
    n: int,
    r: Seq<PeerEntry>,
) -> bool {
    &&& r.len() <= n
    &&& entries_wf(r)
    &&& distinct_peers(r)
    &&& forall|i: int| 0 <= i < r.len() ==> t.contains_peer((#[trigger] r[i]).peer@)
    &&& forall|i: int, j: int|
        0 <= i < j < r.len() ==> dist_le(target, r[i].kad.bytes@, r[j].kad.bytes@)
    &&& forall|i: int, q: Seq<u8>|
        0 <= i < r.len() && t.contains_peer(q) && !has_peer_seq(r, q) ==> dist_le(
            target,
            (#[trigger] r[i]).kad.bytes@,
            #[trigger] sha256_of(q),
        )
    &&& (r.len() < n ==> forall|q: Seq<u8>| t.contains_peer(q) ==> has_peer_seq(r, q))
}

impl RoutingTable {
    /// The up-to-`n` known peers closest to `target`, nearest first.
    ///
    /// The result is sorted by non-decreasing XOR distance to the target,
    /// holds no peer twice, holds only peers of the table, and leaves out
    /// only peers that are no closer than every returned one. Fewer than
    /// `n` entries come back only when the whole table is returned.
    pub fn closest(&self, target: &KadKey, n: usize) -> (r: Vec<PeerEntry>)
        requires
            self.wf(),
            target.wf(),
        ensures
            r@.len() <= n as int,
            entries_wf(r@),
            distinct_peers(r@),
            forall|i: int| 0 <= i < r@.len() ==> self.contains_peer((#[trigger] r@[i]).peer@),
            forall|i: int, j: int|
                0 <= i < j < r@.len() ==> dist_le(
                    target.bytes@,
                    r@[i].kad.bytes@,
                    r@[j].kad.bytes@,
                ),
            forall|i: int, q: Seq<u8>|
                0 <= i < r@.len() && self.contains_peer(q) && !has_peer_seq(r@, q) ==> dist_le(
                    target.bytes@,
                    (#[trigger] r@[i]).kad.bytes@,
                    #[trigger] sha256_of(q),
                ),
            r@.len() < n as int ==> forall|q: Seq<u8>|
                self.contains_peer(q) ==> has_peer_seq(r@, q),
            closest_result_ok(*self, target.bytes@, n as int, r@),
    {
        let ghost t = target.bytes@;
        let mut pool: Vec<PeerEntry> = Vec::new();
        let mut b: usize = 0;
        while b < 256
            invariant
                self.wf(),
                target.wf(),
                b <= 256,
                entries_wf(pool@),
                distinct_peers(pool@),
                forall|i: int|
                    0 <= i < pool@.len() ==> self.contains_peer((#[trigger] pool@[i]).peer@),
                forall|bb: int, ii: int|
                    0 <= bb < b && 0 <= ii < self.buckets@[bb]@.len() ==> has_peer_seq(
                        pool@,
                        (#[trigger] self.buckets@[bb]@[ii]).peer@,
                    ),
            decreases 256 - b,
        {
            let mut i: usize = 0;
            while i < self.buckets[b].len()
                invariant
                    self.wf(),
                    target.wf(),
                    b < 256,
                    i <= self.buckets@[b as int]@.len(),
                    entries_wf(pool@),
                    distinct_peers(pool@),
                    forall|m: int|
                        0 <= m < pool@.len() ==> self.contains_peer((#[trigger] pool@[m]).peer@),
                    forall|bb: int, ii: int|
                        0 <= bb < b && 0 <= ii < self.buckets@[bb]@.len() ==> has_peer_seq(
                            pool@,
                            (#[trigger] self.buckets@[bb]@[ii]).peer@,
                        ),
                    forall|ii: int|
                        0 <= ii < i ==> has_peer_seq(
                            pool@,
                            (#[trigger] self.buckets@[b as int]@[ii]).peer@,
                        ),
                decreases self.buckets@[b as int]@.len() - i,
            {
                let ghost pool0 = pool@;
                let e = &self.buckets[b][i];
                proof {
                    assert(self.bucket_ok(b as int));
                    assert(entry_wf(self.buckets@[b as int]@[i as int]));
                }
                match Self::find_in_bucket(&pool, &e.peer) {
                    Some(_) => {},
                    None => {
                        pool.push(clone_entry(e));
                        proof {
                            let ne = pool@.last();
                            assert forall|m: int, nn: int|
                                0 <= m < nn < pool@.len() implies pool@[m].peer@
                                != pool@[nn].peer@ by {
                                if nn == pool@.len() - 1 {
                                    assert(pool@[m] == pool0[m]);
                                    assert(pool0[m].peer@ != ne.peer@);
                                }
                            }
                            assert(self.contains_peer(ne.peer@)) by {
                                assert(has_peer_seq(
                                    self.buckets@[b as int]@,
                                    self.buckets@[b as int]@[i as int].peer@,
                                ));
                            }
                            assert forall|m: int| 0 <= m < pool@.len() implies entry_wf(
                                #[trigger] pool@[m],
                            ) && self.contains_peer(pool@[m].peer@) by {
                                if m < pool@.len() - 1 {
                                    assert(pool@[m] == pool0[m]);
                                }
                            }
                        }
                    },
                }
                proof {
                    assert forall|bb: int, ii: int|
                        0 <= bb < b && 0 <= ii < self.buckets@[bb]@.len() implies has_peer_seq(
                        pool@,
                        (#[trigger] self.buckets@[bb]@[ii]).peer@,
                    ) by {
                        lemma_has_peer_push_mono(pool0, pool@, self.buckets@[bb]@[ii].peer@);
                    }
                    assert forall|ii: int| 0 <= ii <= i implies has_peer_seq(
                        pool@,
                        (#[trigger] self.buckets@[b as int]@[ii]).peer@,
                    ) by {
                        if ii < i {
                            lemma_has_peer_push_mono(
                                pool0,
                                pool@,
                                self.buckets@[b as int]@[ii].peer@,
                            );
                        } else {
                            if pool@.len() == pool0.len() + 1 {
                                assert(has_peer_seq(pool@, pool@.last().peer@));
                            }
                        }
                    }
                }
                i += 1;
            }
            b += 1;
        }
        proof {
            assert forall|q: Seq<u8>| self.contains_peer(q) implies has_peer_seq(pool@, q) by {
                let bb = choose|bb: int|
                    0 <= bb < 256 && has_peer_seq(#[trigger] self.buckets@[bb]@, q);
                let ii = choose|ii: int|
                    0 <= ii < self.buckets@[bb]@.len() && self.buckets@[bb]@[ii].peer@ == q;
                assert(has_peer_seq(pool@, self.buckets@[bb]@[ii].peer@));
            }
        }
        let mut out: Vec<PeerEntry> = Vec::new();
        while out.len() < n && pool.len() > 0
            invariant
                self.wf(),
                target.wf(),
                t == target.bytes@,
                out@.len() <= n as int,
                entries_wf(out@),
                entries_wf(pool@),
                distinct_peers(out@),
                distinct_peers(pool@),
                forall|i: int|
                    0 <= i < out@.len() ==> self.contains_peer((#[trigger] out@[i]).peer@),
                forall|i: int|
                    0 <= i < pool@.len() ==> self.contains_peer((#[trigger] pool@[i]).peer@),
                forall|i: int, j: int|
                    0 <= i < out@.len() && 0 <= j < pool@.len() ==> out@[i].peer@
                        != pool@[j].peer@,
                forall|i: int, j: int|
                    0 <= i < j < out@.len() ==> dist_le(t, out@[i].kad.bytes@, out@[j].kad.bytes@),
                forall|i: int, j: int|
                    0 <= i < out@.len() && 0 <= j < pool@.len() ==> dist_le(
                        t,
                        (#[trigger] out@[i]).kad.bytes@,
                        (#[trigger] pool@[j]).kad.bytes@,
                    ),
                forall|q: Seq<u8>|
                    self.contains_peer(q) ==> has_peer_seq(out@, q) || has_peer_seq(pool@, q),
            decreases pool@.len(),
        {
            let mut mi: usize = 0;
            let mut j: usize = 1;
            proof {
                crate::keyspace::lemma_lex_lt_irrefl(
                    crate::keyspace::xor_bytes(t, pool@[0].kad.bytes@),
                    0,
                );
            }
            while j < pool.len()
                invariant
                    self.wf(),
                    target.wf(),
                    t == target.bytes@,
                    entries_wf(pool@),
                    pool@.len() > 0,
                    mi < j,
                    j <= pool@.len(),
                    forall|m: int|
                        0 <= m < j ==> dist_le(
                            t,
                            pool@[mi as int].kad.bytes@,
                            (#[trigger] pool@[m]).kad.bytes@,
                        ),
                decreases pool@.len() - j,
            {
                if crate::keyspace::closer(target, &pool[j].kad, &pool[mi].kad) {
                    proof {
                        assert forall|m: int| 0 <= m < j implies dist_le(
                            t,
                            pool@[j as int].kad.bytes@,
                            (#[trigger] pool@[m]).kad.bytes@,
                        ) by {
                            crate::keyspace::lemma_dist_lt_le(
                                t,
                                pool@[j as int].kad.bytes@,
                                pool@[mi as int].kad.bytes@,
                                pool@[m].kad.bytes@,
                            );
                        }
                        crate::keyspace::lemma_lex_lt_irrefl(
                            crate::keyspace::xor_bytes(t, pool@[j as int].kad.bytes@),
                            0,
                        );
                    }
                    mi = j;
                }
                j += 1;
            }
            let ghost pool0 = pool@;
            let ghost out0 = out@;
            let e = pool.remove(mi);
            out.push(e);
            proof {
                lemma_remove_indices(pool0, mi as int);
                assert forall|i: int, j2: int|
                    0 <= i < out@.len() && 0 <= j2 < pool@.len() implies out@[i].peer@
                    != pool@[j2].peer@ && dist_le(
                    t,
                    (#[trigger] out@[i]).kad.bytes@,
                    (#[trigger] pool@[j2]).kad.bytes@,
                ) by {
                    let oldj: int = if j2 < mi as int {
                        j2
                    } else {
                        j2 + 1
                    };
                    assert(pool@[j2] == pool0[oldj]);
                    if i < out@.len() - 1 {
                        assert(out@[i] == out0[i]);
                    } else {
                        assert(out@[i] == pool0[mi as int]);
                    }
                }
                assert forall|i: int, j2: int|
                    0 <= i < j2 < out@.len() implies dist_le(
                    t,
                    out@[i].kad.bytes@,
                    out@[j2].kad.bytes@,
                ) by {
                    if j2 == out@.len() - 1 {
                        assert(out@[i] == out0[i]);
                        assert(out@[j2] == pool0[mi as int]);
                    }
                }
                assert forall|m: int, nn: int|
                    0 <= m < nn < out@.len() implies out@[m].peer@ != out@[nn].peer@ by {
                    if nn == out@.len() - 1 {
                        assert(out@[m] == out0[m]);
                        assert(out0[m].peer@ != pool0[mi as int].peer@);
                    }
                }
                assert forall|m: int| 0 <= m < out@.len() implies entry_wf(#[trigger] out@[m])
                    && self.contains_peer(out@[m].peer@) by {
                    if m < out@.len() - 1 {
                        assert(out@[m] == out0[m]);
                    } else {
                        assert(out@[m] == pool0[mi as int]);
                    }
                }
                assert forall|q: Seq<u8>| self.contains_peer(q) implies has_peer_seq(out@, q)
                    || has_peer_seq(pool@, q) by {
                    if has_peer_seq(pool0, q) && !has_peer_seq(pool@, q) {
                        lemma_has_peer_remove(pool0, mi as int, q);
                        assert(pool0[mi as int].peer@ == q);
                        assert(out@[out@.len() - 1].peer@ == q);
                    } else if has_peer_seq(out0, q) {
                        let m = choose|m: int| 0 <= m < out0.len() && out0[m].peer@ == q;
                        assert(out@[m].peer@ == q);
                    }
                }
            }
        }
        proof {
            assert forall|i: int, q: Seq<u8>|
                0 <= i < out@.len() && self.contains_peer(q) && !has_peer_seq(out@, q)
                implies dist_le(t, (#[trigger] out@[i]).kad.bytes@, #[trigger] sha256_of(q)) by {
                assert(has_peer_seq(pool@, q));
                let j = choose|j: int| 0 <= j < pool@.len() && pool@[j].peer@ == q;
                assert(entry_wf(pool@[j]));
                assert(dist_le(t, out@[i].kad.bytes@, pool@[j].kad.bytes@));
            }
        }
        out
    }
}

/// Membership in a sequence survives appending more entries at the end.
pub proof fn lemma_has_peer_push_mono(s1: Seq<PeerEntry>, s2: Seq<PeerEntry>, q: Seq<u8>)
    requires
        s1.len() <= s2.len(),
        forall|i: int| 0 <= i < s1.len() ==> s2[i] == s1[i],
        has_peer_seq(s1, q),
    ensures
        has_peer_seq(s2, q),
{
    let i = choose|i: int| 0 <= i < s1.len() && s1[i].peer@ == q;
    assert(s2[i].peer@ == q);
}

/// Two slots anywhere in a well-formed table that hold the same peer are
/// the same slot's bucket: the bucket of a peer is unique, determined by
/// the common-prefix length of its identifier with the local node's.
pub proof fn lemma_peer_bucket_unique(t: RoutingTable, b1: int, i1: int, b2: int, i2: int)
    requires
        t.wf(),
        0 <= b1 < 256,
        0 <= i1 < t.buckets@[b1]@.len(),
        0 <= b2 < 256,
        0 <= i2 < t.buckets@[b2]@.len(),
        t.buckets@[b1]@[i1].peer@ == t.buckets@[b2]@[i2].peer@,
    ensures
        b1 == b2,
        b1 == t.home_bucket(t.buckets@[b1]@[i1].peer@),
{
    assert(t.bucket_ok(b1));
    assert(t.bucket_ok(b2));
    assert(entry_wf(t.buckets@[b1]@[i1]));
    assert(entry_wf(t.buckets@[b2]@[i2]));
}

/// No bucket of a well-formed table ever exceeds the capacity `k`.
pub proof fn lemma_bucket_capacity(t: RoutingTable, b: int)
    requires
        t.wf(),
        0 <= b < 256,
    ensures
        t.buckets@[b]@.len() <= t.k,
{
    assert(t.bucket_ok(b));
}

/// Indexing facts for `Seq::remove`.
pub proof fn lemma_remove_indices(s: Seq<PeerEntry>, i: int)
    requires
        0 <= i < s.len(),
    ensures
        s.remove(i).len() == s.len() - 1,
        forall|j: int| 0 <= j < i ==> s.remove(i)[j] == s[j],
        forall|j: int| i <= j < s.len() - 1 ==> s.remove(i)[j] == s[j + 1],
{
}

} // verus!

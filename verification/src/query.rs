//! The iterative lookup state machine.
//!
//! A `Query` drives one lookup: it starts from the routing table's closest
//! known peers, repeatedly asks the closest not-yet-queried candidates,
//! merges the peers each response reveals, and converges when no candidate
//! is left to ask or the deadline passes. Write queries then enter a
//! storing round against the final closest set and succeed exactly when
//! the quorum of acknowledgments is reached. The caller performs the
//! network sends and feeds responses and failures back in; a peer that
//! fails once is excluded from the rest of the query.

use vstd::prelude::*;
use crate::keyspace::{KadKey, kad_id, bytes_clone, bytes_eq, dist_le, sha256_of};
use crate::routing::{PeerEntry, entry_wf, entries_wf, distinct_peers, has_peer_seq};
use crate::store::{Record, clone_record, bytes_list_has, bytes_list_contains};

verus! {

/// How many peer acknowledgments a write needs.
#[derive(Clone, Copy, PartialEq, Eq, Structural, Debug)]
pub enum Quorum {
    /// Any single acknowledgment suffices.
    One,
    /// A fixed number of acknowledgments is needed.
    N(usize),
    /// Every contacted peer of the final set must acknowledge.
    All,
}

/// The number of acknowledgments a write with quorum `q` needs, out of
/// `contacted` peers.
pub open spec fn quorum_needed(q: Quorum, contacted: nat) -> nat {
    match q {
        Quorum::One => 1,
        Quorum::N(n) => n as nat,
        Quorum::All => contacted,
    }
}

/// A write succeeded exactly when the distinct acknowledgments reach the
/// quorum.
pub open spec fn quorum_met(q: Quorum, acks: nat, contacted: nat) -> bool {
    acks >= quorum_needed(q, contacted)
}

/// Decide `quorum_met` on machine integers.
pub fn quorum_met_exec(q: Quorum, acks: usize, contacted: usize) -> (r: bool)
    ensures
        r == quorum_met(q, acks as nat, contacted as nat),
{
    match q {
        Quorum::One => acks >= 1,
        Quorum::N(n) => acks >= n,
        Quorum::All => acks >= contacted,
    }
}

/// What a query asks the network to do.
#[derive(Clone, Copy, PartialEq, Eq, Structural, Debug)]
pub enum QueryKind {
    FindNode,
    GetValue,
    GetProviders,
    PutValue,
    AddProvider,
}

/// A peer as it travels on the wire: identifier and address.
pub struct PeerInfo {
    pub peer: Vec<u8>,
    pub addr: Vec<u8>,
}

/// One request sent to a peer.
pub enum RpcRequest {
    FindNode { target: Vec<u8> },
    GetValue { key: Vec<u8> },
    Store { record: Record },
    GetProviders { key: Vec<u8> },
    AddProvider { key: Vec<u8>, provider: Vec<u8> },
}

/// One response from a peer.
pub enum RpcResponse {
    Nodes { closer: Vec<PeerInfo> },
    Value { record: Option<Record>, closer: Vec<PeerInfo> },
    Providers { providers: Vec<Vec<u8>>, closer: Vec<PeerInfo> },
    StoreAck,
    AddProviderAck,
}

/// Where a query stands.
#[derive(Clone, Copy, PartialEq, Eq, Structural, Debug)]
pub enum QueryPhase {
    /// Converging on the closest peers to the target.
    Iterating,
    /// Write queries only: sending store RPCs to the final closest set.
    Storing,
    Finished,
}

/// The terminal result handed to the caller.
pub enum QueryOutcome {
    FoundRecord { record: Record },
    NotFound,
    FoundProviders { providers: Vec<Vec<u8>> },
    Stored { acks: usize, contacted: usize },
    QuorumUnmet { acks: usize, contacted: usize },
    Converged { peers: Vec<PeerInfo> },
    TimedOut,
}

pub struct Query {
    pub kind: QueryKind,
    pub key: Vec<u8>,
    pub target: KadKey,
    pub value: Vec<u8>,
    pub quorum: Quorum,
    pub k: usize,
    pub alpha: usize,
    pub deadline: u64,
    pub phase: QueryPhase,
    /// Every peer seen so far, with its cached key-space position.
    pub candidates: Vec<PeerEntry>,
    /// Peers an iteration RPC was sent to.
    pub queried: Vec<Vec<u8>>,
    /// Peers whose answer is still outstanding.
    pub pending: Vec<Vec<u8>>,
    /// Peers that failed an RPC of this query: never asked again.
    pub failed: Vec<Vec<u8>>,
    /// Write queries: the final closest peers the store round contacted.
    pub store_targets: Vec<Vec<u8>>,
    /// Distinct peers of the store round that acknowledged.
    pub acks: Vec<Vec<u8>>,
    pub found: Option<Record>,
    pub found_providers: Vec<Vec<u8>>,
}

/// Pairwise-distinct byte strings.
pub open spec fn distinct_bytes(v: Seq<Vec<u8>>) -> bool {
    forall|i: int, j: int| 0 <= i < j < v.len() ==> v[i]@ != v[j]@
}

impl Query {
    pub open spec fn wf(self) -> bool {
        &&& self.target.wf()
        &&& self.alpha >= 1
        &&& self.k >= 1
        &&& entries_wf(self.candidates@)
        &&& distinct_peers(self.candidates@)
        &&& distinct_bytes(self.queried@)
        &&& distinct_bytes(self.pending@)
        &&& distinct_bytes(self.failed@)
        &&& distinct_bytes(self.store_targets@)
        &&& distinct_bytes(self.acks@)
        &&& forall|i: int|
            0 <= i < self.acks@.len() ==> bytes_list_has(
                self.store_targets@,
                (#[trigger] self.acks@[i])@,
            )
        &&& distinct_bytes(self.found_providers@)
        &&& (self.phase is Iterating ==> forall|i: int|
            0 <= i < self.pending@.len() ==> bytes_list_has(
                self.queried@,
                (#[trigger] self.pending@[i])@,
            ))
    }

    /// Start a query on the given seed peers (normally the routing table's
    /// closest entries), to run until `deadline`.
    pub fn new(
        kind: QueryKind,
        key: Vec<u8>,
        value: Vec<u8>,
        quorum: Quorum,
        k: usize,
        alpha: usize,
        seeds: Vec<PeerEntry>,
        deadline: u64,
    ) -> (q: Query)
        requires
            entries_wf(seeds@),
            distinct_peers(seeds@),
            k >= 1,
            alpha >= 1,
        ensures
            q.wf(),
            q.kind == kind,
            q.key@ == key@,
            q.value@ == value@,
            q.quorum == quorum,
            q.k == k,
            q.alpha == alpha,
            q.deadline == deadline,
            q.phase is Iterating,
            q.candidates@ == seeds@,
            q.queried@.len() == 0,
            q.pending@.len() == 0,
            q.failed@.len() == 0,
            q.acks@.len() == 0,
            q.found is None,
    {
        let target = kad_id(&key);
        Query {
            kind,
            key,
            target,
            value,
            quorum,
            k,
            alpha,
            deadline,
            phase: QueryPhase::Iterating,
            candidates: seeds,
            queried: Vec::new(),
            pending: Vec::new(),
            failed: Vec::new(),
            store_targets: Vec::new(),
            acks: Vec::new(),
            found: None,
            found_providers: Vec::new(),
        }
    }

    /// The request this query's iteration round sends.
    pub fn iteration_request(&self) -> (r: RpcRequest)
        ensures
            match r {
                RpcRequest::FindNode { target } => (self.kind is FindNode || self.kind is PutValue
                    || self.kind is AddProvider) && target@ == self.key@,
                RpcRequest::GetValue { key } => self.kind is GetValue && key@ == self.key@,
                RpcRequest::GetProviders { key } => self.kind is GetProviders && key@
                    == self.key@,
                _ => false,
            },
    {
        match self.kind {
            QueryKind::GetValue => RpcRequest::GetValue { key: bytes_clone(&self.key) },
            QueryKind::GetProviders => RpcRequest::GetProviders { key: bytes_clone(&self.key) },
            _ => RpcRequest::FindNode { target: bytes_clone(&self.key) },
        }
    }
}

/// Membership facts for appending one byte string.
pub proof fn lemma_bytes_has_push(v: Seq<Vec<u8>>, e: Vec<u8>, p: Seq<u8>)
    ensures
        bytes_list_has(v.push(e), p) == (bytes_list_has(v, p) || e@ == p),
{
    if bytes_list_has(v.push(e), p) {
        let i = choose|i: int| 0 <= i < v.push(e).len() && v.push(e)[i]@ == p;
        if i < v.len() {
            assert(v[i]@ == p);
        }
    }
    if bytes_list_has(v, p) {
        let i = choose|i: int| 0 <= i < v.len() && v[i]@ == p;
        assert(v.push(e)[i]@ == p);
    }
    if e@ == p {
        assert(v.push(e)[v.len() as int]@ == p);
    }
}

/// Membership facts for removing one slot.
pub proof fn lemma_bytes_has_remove(v: Seq<Vec<u8>>, i: int, p: Seq<u8>)
    requires
        0 <= i < v.len(),
    ensures
        bytes_list_has(v.remove(i), p) == (exists|j: int|
            0 <= j < v.len() && j != i && v[j]@ == p),
{
    if bytes_list_has(v.remove(i), p) {
        let j = choose|j: int| 0 <= j < v.remove(i).len() && v.remove(i)[j]@ == p;
        if j < i {
            assert(v[j]@ == p && j != i);
        } else {
            assert(v[j + 1]@ == p && j + 1 != i);
        }
    }
    if exists|j: int| 0 <= j < v.len() && j != i && v[j]@ == p {
        let j = choose|j: int| 0 <= j < v.len() && j != i && v[j]@ == p;
        if j < i {
            assert(v.remove(i)[j]@ == p);
        } else {
            assert(v.remove(i)[j - 1]@ == p);
        }
    }
}

/// Remove the first occurrence of `p` from a distinct list.
fn remove_bytes(v: &mut Vec<Vec<u8>>, p: &Vec<u8>)
    requires
        distinct_bytes(old(v)@),
    ensures
        distinct_bytes(final(v)@),
        !bytes_list_has(final(v)@, p@),
        forall|q: Seq<u8>|
            q != p@ ==> bytes_list_has(final(v)@, q) == bytes_list_has(old(v)@, q),
{
    let mut i: usize = 0;
    while i < v.len()
        invariant
            v@ == old(v)@,
            i <= v@.len(),
            distinct_bytes(v@),
            forall|j: int| 0 <= j < i ==> v@[j]@ != p@,
        decreases v@.len() - i,
    {
        if bytes_eq(&v[i], p) {
            let _ = v.remove(i);
            proof {
                assert(v@ == old(v)@.remove(i as int));
                assert forall|m: int, n: int| 0 <= m < n < v@.len() implies v@[m]@ != v@[n]@ by {
                    let om: int = if m < i as int {
                        m
                    } else {
                        m + 1
                    };
                    let on: int = if n < i as int {
                        n
                    } else {
                        n + 1
                    };
                    assert(v@[m] == old(v)@[om] && v@[n] == old(v)@[on]);
                }
                assert(!bytes_list_has(v@, p@)) by {
                    if bytes_list_has(v@, p@) {
                        lemma_bytes_has_remove(old(v)@, i as int, p@);
                        let j = choose|j: int| 0 <= j < old(v)@.len() && j != i as int && old(v)@[j]@ == p@;
                        assert(old(v)@[i as int]@ == p@);
                    }
                }
                assert forall|q: Seq<u8>| q != p@ implies bytes_list_has(v@, q)
                    == bytes_list_has(old(v)@, q) by {
                    lemma_bytes_has_remove(old(v)@, i as int, q);
                    if bytes_list_has(old(v)@, q) {
                        let j = choose|j: int| 0 <= j < old(v)@.len() && old(v)@[j]@ == q;
                        assert(old(v)@[i as int]@ == p@);
                        assert(j != i as int);
                        assert(0 <= j < old(v)@.len() && j != i as int && old(v)@[j]@ == q);
                        assert(bytes_list_has(v@, q));
                    }
                    if bytes_list_has(v@, q) {
                        assert(bytes_list_has(old(v)@, q));
                    }
                }
            }
            return ;
        }
        i += 1;
    }
    proof {
        assert(!bytes_list_has(v@, p@)) by {
            if bytes_list_has(v@, p@) {
                let j = choose|j: int| 0 <= j < v@.len() && v@[j]@ == p@;
            }
        }
    }
}

/// Some slot of `s` names peer `q`.
pub open spec fn peer_infos_have(s: Seq<PeerInfo>, q: Seq<u8>) -> bool {
    exists|i: int| 0 <= i < s.len() && s[i].peer@ == q
}

impl Query {
    /// A candidate that was neither asked nor written off remains to be
    /// queried.
    pub open spec fn has_eligible(self) -> bool {
        exists|i: int|
            0 <= i < self.candidates@.len() && !bytes_list_has(
                self.queried@,
                (#[trigger] self.candidates@[i]).peer@,
            ) && !bytes_list_has(self.failed@, self.candidates@[i].peer@)
    }

    /// Record that `from` failed an RPC of this query: the peer leaves
    /// the outstanding set and joins the failed set, from which no later
    /// round of this query ever picks.
    pub fn on_failure(&mut self, from: &Vec<u8>)
        requires
            old(self).wf(),
        ensures
            final(self).wf(),
            bytes_list_has(final(self).failed@, from@),
            forall|q: Seq<u8>|
                q != from@ ==> bytes_list_has(final(self).failed@, q) == bytes_list_has(
                    old(self).failed@,
                    q,
                ),
            !bytes_list_has(final(self).pending@, from@),
            forall|q: Seq<u8>|
                q != from@ ==> bytes_list_has(final(self).pending@, q) == bytes_list_has(
                    old(self).pending@,
                    q,
                ),
            final(self).queried@ == old(self).queried@,
            final(self).candidates@ == old(self).candidates@,
            final(self).store_targets@ == old(self).store_targets@,
            final(self).acks@ == old(self).acks@,
            final(self).found == old(self).found,
            final(self).found_providers@ == old(self).found_providers@,
            final(self).phase == old(self).phase,
            final(self).kind == old(self).kind,
            final(self).quorum == old(self).quorum,
            final(self).deadline == old(self).deadline,
            final(self).key@ == old(self).key@,
            final(self).value@ == old(self).value@,
            final(self).k == old(self).k,
            final(self).alpha == old(self).alpha,
            final(self).target == old(self).target,
    {
        let ghost pend0 = self.pending@;
        remove_bytes(&mut self.pending, from);
        proof {
            assert forall|i: int| 0 <= i < self.pending@.len() implies bytes_list_has(
                pend0,
                (#[trigger] self.pending@[i])@,
            ) by {
                let q = self.pending@[i]@;
                assert(bytes_list_has(self.pending@, q));
                assert(q != from@);
            }
        }
        if !bytes_list_contains(&self.failed, from) {
            let ghost f0 = self.failed@;
            self.failed.push(bytes_clone(from));
            proof {
                assert forall|m: int, n: int|
                    0 <= m < n < self.failed@.len() implies self.failed@[m]@
                    != self.failed@[n]@ by {
                    if n == self.failed@.len() - 1 {
                        assert(self.failed@[m] == f0[m]);
                        assert(bytes_list_has(f0, f0[m]@));
                    }
                }
                assert(self.failed@[self.failed@.len() - 1]@ == from@);
                assert forall|q: Seq<u8>| true implies bytes_list_has(self.failed@, q) == (
                bytes_list_has(f0, q) || q == from@) by {
                    lemma_bytes_has_push(f0, self.failed@[self.failed@.len() - 1], q);
                }
            }
        }
        proof {
            if self.phase is Iterating {
                assert forall|i: int| 0 <= i < self.pending@.len() implies bytes_list_has(
                    self.queried@,
                    (#[trigger] self.pending@[i])@,
                ) by {
                    assert(bytes_list_has(pend0, self.pending@[i]@));
                    let j = choose|j: int| 0 <= j < pend0.len() && pend0[j]@ == self.pending@[i]@;
                    assert(bytes_list_has(self.queried@, pend0[j]@));
                }
            }
        }
    }

    /// Whether any slot of `s` holds peer `p`.
    fn entries_contain(s: &Vec<PeerEntry>, p: &Vec<u8>) -> (b: bool)
        ensures
            b == has_peer_seq(s@, p@),
    {
        let mut i: usize = 0;
        while i < s.len()
            invariant
                i <= s@.len(),
                forall|j: int| 0 <= j < i ==> s@[j].peer@ != p@,
            decreases s@.len() - i,
        {
            if bytes_eq(&s[i].peer, p) {
                return true;
            }
            i += 1;
        }
        false
    }

    /// Pick up to `alpha` fresh peers for the next round, closest to the
    /// target first: never a peer already asked and never one that failed
    /// (a failed peer is excluded from the remainder of the query). The
    /// picked peers join the queried and outstanding sets; the caller
    /// sends `iteration_request` to each.
    #[verifier::loop_isolation(false)]
    pub fn next_iteration_rpcs(&mut self) -> (out: Vec<PeerInfo>)
        requires
            old(self).wf(),
            old(self).phase is Iterating,
        ensures
            final(self).wf(),
            out@.len() <= old(self).alpha,
            forall|i: int, j: int| 0 <= i < j < out@.len() ==> out@[i].peer@ != out@[j].peer@,
            forall|i: int|
                0 <= i < out@.len() ==> {
                    &&& !bytes_list_has(old(self).failed@, (#[trigger] out@[i]).peer@)
                    &&& !bytes_list_has(old(self).queried@, out@[i].peer@)
                    &&& has_peer_seq(old(self).candidates@, out@[i].peer@)
                },
            views_of(final(self).queried@) == views_of(old(self).queried@) + peer_views(out@),
            views_of(final(self).pending@) == views_of(old(self).pending@) + peer_views(out@),
            out@.len() < old(self).alpha as int ==> !final(self).has_eligible(),
            forall|i: int, j: int|
                0 <= i < j < out@.len() ==> dist_le(
                    old(self).target.bytes@,
                    #[trigger] sha256_of(out@[i].peer@),
                    #[trigger] sha256_of(out@[j].peer@),
                ),
            final(self).candidates@ == old(self).candidates@,
            final(self).failed@ == old(self).failed@,
            final(self).store_targets@ == old(self).store_targets@,
            final(self).acks@ == old(self).acks@,
            final(self).found == old(self).found,
            final(self).found_providers@ == old(self).found_providers@,
            final(self).phase == old(self).phase,
            final(self).kind == old(self).kind,
            final(self).quorum == old(self).quorum,
            final(self).deadline == old(self).deadline,
            final(self).key@ == old(self).key@,
            final(self).value@ == old(self).value@,
            final(self).k == old(self).k,
            final(self).alpha == old(self).alpha,
            final(self).target == old(self).target,
    {
        let mut out: Vec<PeerInfo> = Vec::new();
        let mut count: usize = 0;
        let mut done: bool = false;
        while !done && count < self.alpha
            invariant
                self.wf(),
                self.phase is Iterating,
                count <= self.alpha,
                out@.len() == count as int,
                self.candidates@ == old(self).candidates@,
                self.failed@ == old(self).failed@,
                self.store_targets@ == old(self).store_targets@,
                self.acks@ == old(self).acks@,
                self.found == old(self).found,
                self.found_providers@ == old(self).found_providers@,
                self.phase == old(self).phase,
                self.kind == old(self).kind,
                self.quorum == old(self).quorum,
                self.deadline == old(self).deadline,
                self.key@ == old(self).key@,
                self.value@ == old(self).value@,
                self.k == old(self).k,
                self.alpha == old(self).alpha,
                self.target == old(self).target,
                views_of(self.queried@) == views_of(old(self).queried@) + peer_views(out@),
                views_of(self.pending@) == views_of(old(self).pending@) + peer_views(out@),
                forall|i: int, j: int| 0 <= i < j < out@.len() ==> out@[i].peer@ != out@[j].peer@,
                forall|i: int|
                    0 <= i < out@.len() ==> {
                        &&& !bytes_list_has(old(self).failed@, (#[trigger] out@[i]).peer@)
                        &&& !bytes_list_has(old(self).queried@, out@[i].peer@)
                        &&& has_peer_seq(old(self).candidates@, out@[i].peer@)
                    },
                done ==> !self.has_eligible(),
                forall|i: int, j2: int|
                    0 <= i < j2 < out@.len() ==> dist_le(
                        self.target.bytes@,
                        #[trigger] sha256_of(out@[i].peer@),
                        #[trigger] sha256_of(out@[j2].peer@),
                    ),
                forall|m: int, c: int|
                    0 <= m < out@.len() && 0 <= c < self.candidates@.len() && !bytes_list_has(
                        self.queried@,
                        (#[trigger] self.candidates@[c]).peer@,
                    ) && !bytes_list_has(self.failed@, self.candidates@[c].peer@) ==> dist_le(
                        self.target.bytes@,
                        sha256_of((#[trigger] out@[m]).peer@),
                        self.candidates@[c].kad.bytes@,
                    ),
            decreases self.alpha - count, (if done { 0int } else { 1int }),
        {
            let mut best: Option<usize> = None;
            let mut j: usize = 0;
            while j < self.candidates.len()
                invariant
                    j <= self.candidates@.len(),
                    match best {
                        Some(b) => b < self.candidates@.len() && !bytes_list_has(
                            self.queried@,
                            self.candidates@[b as int].peer@,
                        ) && !bytes_list_has(self.failed@, self.candidates@[b as int].peer@)
                            && forall|m: int|
                            0 <= m < j && !bytes_list_has(
                                self.queried@,
                                (#[trigger] self.candidates@[m]).peer@,
                            ) && !bytes_list_has(self.failed@, self.candidates@[m].peer@)
                                ==> dist_le(
                                self.target.bytes@,
                                self.candidates@[b as int].kad.bytes@,
                                self.candidates@[m].kad.bytes@,
                            ),
                        None => forall|m: int|
                            0 <= m < j ==> bytes_list_has(
                                self.queried@,
                                (#[trigger] self.candidates@[m]).peer@,
                            ) || bytes_list_has(self.failed@, self.candidates@[m].peer@),
                    },
                decreases self.candidates@.len() - j,
            {
                let cj_eligible = !bytes_list_contains(&self.queried, &self.candidates[j].peer)
                    && !bytes_list_contains(&self.failed, &self.candidates[j].peer);
                if cj_eligible {
                    proof {
                        assert(entry_wf(self.candidates@[j as int]));
                        crate::keyspace::lemma_lex_lt_irrefl(
                            crate::keyspace::xor_bytes(
                                self.target.bytes@,
                                self.candidates@[j as int].kad.bytes@,
                            ),
                            0,
                        );
                    }
                    match best {
                        None => {
                            best = Some(j);
                        },
                        Some(b) => {
                            if crate::keyspace::closer(
                                &self.target,
                                &self.candidates[j].kad,
                                &self.candidates[b].kad,
                            ) {
                                proof {
                                    assert forall|m: int|
                                        0 <= m < j && !bytes_list_has(
                                            self.queried@,
                                            (#[trigger] self.candidates@[m]).peer@,
                                        ) && !bytes_list_has(
                                            self.failed@,
                                            self.candidates@[m].peer@,
                                        ) implies dist_le(
                                        self.target.bytes@,
                                        self.candidates@[j as int].kad.bytes@,
                                        self.candidates@[m].kad.bytes@,
                                    ) by {
                                        assert(entry_wf(self.candidates@[m]));
                                        assert(entry_wf(self.candidates@[b as int]));
                                        crate::keyspace::lemma_dist_lt_le(
                                            self.target.bytes@,
                                            self.candidates@[j as int].kad.bytes@,
                                            self.candidates@[b as int].kad.bytes@,
                                            self.candidates@[m].kad.bytes@,
                                        );
                                    }
                                }
                                best = Some(j);
                            }
                        },
                    }
                }
                j += 1;
            }
            match best {
                None => {
                    proof {
                        assert(!self.has_eligible()) by {
                            if self.has_eligible() {
                                let c = choose|c: int|
                                    0 <= c < self.candidates@.len() && !bytes_list_has(
                                        self.queried@,
                                        (#[trigger] self.candidates@[c]).peer@,
                                    ) && !bytes_list_has(
                                        self.failed@,
                                        self.candidates@[c].peer@,
                                    );
                                assert(bytes_list_has(self.queried@, self.candidates@[c].peer@)
                                    || bytes_list_has(self.failed@, self.candidates@[c].peer@));
                            }
                        }
                    }
                    done = true;
                },
                Some(b) => {
                    let ghost q0 = self.queried@;
                    let ghost p0 = self.pending@;
                    let ghost out0 = out@;
                    let peer = bytes_clone(&self.candidates[b].peer);
                    let addr = bytes_clone(&self.candidates[b].addr);
                    let ghost pm = peer@;
                    out.push(PeerInfo { peer: bytes_clone(&peer), addr: bytes_clone(&addr) });
                    self.queried.push(bytes_clone(&peer));
                    self.pending.push(peer);
                    proof {
                        assert(out@.last().peer@ == pm);
                        assert(self.queried@.last()@ == pm);
                        assert(self.pending@.last()@ == pm);
                        assert(!bytes_list_has(q0, pm));
                        assert(peer_views(out@) =~= peer_views(out0).push(pm));
                        assert(views_of(self.queried@) =~= views_of(q0).push(pm));
                        assert(views_of(self.pending@) =~= views_of(p0).push(pm));
                        assert(views_of(self.queried@) =~= views_of(old(self).queried@)
                            + peer_views(out@));
                        assert(views_of(self.pending@) =~= views_of(old(self).pending@)
                            + peer_views(out@));
                        assert(!bytes_list_has(p0, pm)) by {
                            if bytes_list_has(p0, pm) {
                                let jj = choose|jj: int| 0 <= jj < p0.len() && p0[jj]@ == pm;
                                assert(bytes_list_has(q0, p0[jj]@));
                            }
                        }
                        assert forall|m: int, n: int|
                            0 <= m < n < self.queried@.len() implies self.queried@[m]@
                            != self.queried@[n]@ by {
                            if n == self.queried@.len() - 1 {
                                assert(self.queried@[m] == q0[m]);
                                assert(bytes_list_has(q0, q0[m]@));
                            }
                        }
                        assert forall|m: int, n: int|
                            0 <= m < n < self.pending@.len() implies self.pending@[m]@
                            != self.pending@[n]@ by {
                            if n == self.pending@.len() - 1 {
                                assert(self.pending@[m] == p0[m]);
                                assert(bytes_list_has(p0, p0[m]@));
                            }
                        }
                        assert forall|i: int| 0 <= i < self.pending@.len() implies bytes_list_has(
                            self.queried@,
                            (#[trigger] self.pending@[i])@,
                        ) by {
                            lemma_bytes_has_push(q0, self.queried@.last(), self.pending@[i]@);
                            if i < self.pending@.len() - 1 {
                                assert(self.pending@[i] == p0[i]);
                                assert(bytes_list_has(q0, p0[i]@));
                            }
                        }
                        let ghost base = views_of(old(self).queried@).len();
                        assert forall|m: int, n: int|
                            0 <= m < n < out@.len() implies out@[m].peer@ != out@[n].peer@ by {
                            if n == out@.len() - 1 {
                                assert(out@[m] == out0[m]);
                                assert(views_of(q0)[base + m] == peer_views(out0)[m]);
                                assert(q0[base + m]@ == out0[m].peer@);
                                assert(bytes_list_has(q0, out0[m].peer@));
                            }
                        }
                        assert forall|i: int| 0 <= i < out@.len() implies {
                            &&& !bytes_list_has(old(self).failed@, (#[trigger] out@[i]).peer@)
                            &&& !bytes_list_has(old(self).queried@, out@[i].peer@)
                            &&& has_peer_seq(old(self).candidates@, out@[i].peer@)
                        } by {
                            if i < out@.len() - 1 {
                                assert(out@[i] == out0[i]);
                            } else {
                                assert(out@[i].peer@ == pm);
                                assert(self.candidates@[b as int].peer@ == pm);
                                assert(has_peer_seq(self.candidates@, pm));
                                assert(!bytes_list_has(old(self).queried@, pm)) by {
                                    if bytes_list_has(old(self).queried@, pm) {
                                        let jj = choose|jj: int|
                                            0 <= jj < old(self).queried@.len() && old(
                                                self,
                                            ).queried@[jj]@ == pm;
                                        assert(views_of(q0)[jj] == views_of(
                                            old(self).queried@,
                                        )[jj]);
                                        assert(q0[jj]@ == pm);
                                        assert(bytes_list_has(q0, pm));
                                    }
                                }
                            }
                        }
                        assert(entry_wf(self.candidates@[b as int]));
                        assert(sha256_of(pm) == self.candidates@[b as int].kad.bytes@);
                        assert forall|m: int, c: int|
                            0 <= m < out@.len() && 0 <= c < self.candidates@.len()
                                && !bytes_list_has(
                                self.queried@,
                                (#[trigger] self.candidates@[c]).peer@,
                            ) && !bytes_list_has(self.failed@, self.candidates@[c].peer@)
                            implies dist_le(
                            self.target.bytes@,
                            sha256_of((#[trigger] out@[m]).peer@),
                            self.candidates@[c].kad.bytes@,
                        ) by {
                            lemma_bytes_has_push(
                                q0,
                                self.queried@.last(),
                                self.candidates@[c].peer@,
                            );
                            assert(!bytes_list_has(q0, self.candidates@[c].peer@));
                            if m < out@.len() - 1 {
                                assert(out@[m] == out0[m]);
                            } else {
                                assert(out@[m].peer@ == pm);
                            }
                        }
                        assert forall|i: int, j2: int|
                            0 <= i < j2 < out@.len() implies dist_le(
                            self.target.bytes@,
                            #[trigger] sha256_of(out@[i].peer@),
                            #[trigger] sha256_of(out@[j2].peer@),
                        ) by {
                            if j2 == out@.len() - 1 {
                                assert(out@[i] == out0[i]);
                                assert(out@[j2].peer@ == pm);
                                assert(!bytes_list_has(q0, self.candidates@[b as int].peer@));
                            }
                        }
                    }
                    count += 1;
                },
            }
        }
        out
    }
}

/// The byte-string views of a list of byte strings.
pub open spec fn views_of(v: Seq<Vec<u8>>) -> Seq<Seq<u8>> {
    v.map_values(|b: Vec<u8>| b@)
}

/// The peer identifiers named by a list of peer infos.
pub open spec fn peer_views(s: Seq<PeerInfo>) -> Seq<Seq<u8>> {
    s.map_values(|pi: PeerInfo| pi.peer@)
}

/// Membership in a list that extends `a` by exactly the peers of
/// `infos`: the reading of `next_iteration_rpcs`'s bookkeeping clauses
/// for callers, so a peer is queried or outstanding afterwards exactly
/// when it already was or was just picked.
pub proof fn lemma_views_concat_membership(
    a: Seq<Vec<u8>>,
    b: Seq<Vec<u8>>,
    infos: Seq<PeerInfo>,
    q: Seq<u8>,
)
    requires
        views_of(b) == views_of(a) + peer_views(infos),
    ensures
        bytes_list_has(b, q) == (bytes_list_has(a, q) || peer_infos_have(infos, q)),
{
    assert(b.len() == a.len() + infos.len()) by {
        assert(views_of(b).len() == b.len());
    }
    if bytes_list_has(b, q) {
        let i = choose|i: int| 0 <= i < b.len() && b[i]@ == q;
        assert(views_of(b)[i] == q);
        if i < a.len() {
            assert(views_of(a)[i] == q);
            assert(a[i]@ == q);
        } else {
            assert(peer_views(infos)[i - a.len()] == q);
            assert(infos[i - a.len()].peer@ == q);
        }
    }
    if bytes_list_has(a, q) {
        let i = choose|i: int| 0 <= i < a.len() && a[i]@ == q;
        assert(views_of(b)[i] == views_of(a)[i]);
        assert(b[i]@ == q);
    }
    if peer_infos_have(infos, q) {
        let i = choose|i: int| 0 <= i < infos.len() && infos[i].peer@ == q;
        assert(views_of(b)[a.len() + i] == peer_views(infos)[i]);
        assert(b[a.len() + i]@ == q);
    }
}


/// The closer-peers list carried by a response.
pub open spec fn resp_closer(resp: RpcResponse) -> Seq<PeerInfo> {
    match resp {
        RpcResponse::Nodes { closer } => closer@,
        RpcResponse::Value { closer, .. } => closer@,
        RpcResponse::Providers { closer, .. } => closer@,
        _ => Seq::empty(),
    }
}

/// The provider list carried by a response.
pub open spec fn resp_providers(resp: RpcResponse) -> Seq<Vec<u8>> {
    match resp {
        RpcResponse::Providers { providers, .. } => providers@,
        _ => Seq::empty(),
    }
}

/// Whether a response acknowledges a store-round request.
pub open spec fn is_ack(resp: RpcResponse) -> bool {
    resp is StoreAck || resp is AddProviderAck
}

/// Copy a list of byte strings.
pub fn clone_bytes_list(v: &Vec<Vec<u8>>) -> (r: Vec<Vec<u8>>)
    ensures
        views_of(r@) == views_of(v@),
{
    let mut r: Vec<Vec<u8>> = Vec::new();
    let mut i: usize = 0;
    while i < v.len()
        invariant
            i <= v@.len(),
            r@.len() == i as int,
            forall|j: int| 0 <= j < i ==> r@[j]@ == v@[j]@,
        decreases v@.len() - i,
    {
        r.push(bytes_clone(&v[i]));
        i += 1;
    }
    proof {
        assert(views_of(r@) =~= views_of(v@));
    }
    r
}

impl Query {
    /// Fold the closer-peers list of a response into the candidate set,
    /// ignoring peers already known.
    #[verifier::loop_isolation(false)]
    fn merge_closer(&mut self, closer: &Vec<PeerInfo>)
        requires
            old(self).wf(),
        ensures
            final(self).wf(),
            forall|q: Seq<u8>|
                has_peer_seq(old(self).candidates@, q) ==> has_peer_seq(
                    final(self).candidates@,
                    q,
                ),
            forall|q: Seq<u8>|
                has_peer_seq(final(self).candidates@, q) ==> has_peer_seq(
                    old(self).candidates@,
                    q,
                ) || peer_infos_have(closer@, q),
            forall|q: Seq<u8>|
                #[trigger] peer_infos_have(closer@, q) ==> has_peer_seq(
                    final(self).candidates@,
                    q,
                ),
            final(self).queried@ == old(self).queried@,
            final(self).pending@ == old(self).pending@,
            final(self).failed@ == old(self).failed@,
            final(self).store_targets@ == old(self).store_targets@,
            final(self).acks@ == old(self).acks@,
            final(self).found == old(self).found,
            final(self).found_providers@ == old(self).found_providers@,
            final(self).phase == old(self).phase,
            final(self).kind == old(self).kind,
            final(self).quorum == old(self).quorum,
            final(self).deadline == old(self).deadline,
            final(self).key@ == old(self).key@,
            final(self).value@ == old(self).value@,
            final(self).k == old(self).k,
            final(self).alpha == old(self).alpha,
            final(self).target == old(self).target,
    {
        let mut i: usize = 0;
        while i < closer.len()
            invariant
                self.wf(),
                i <= closer@.len(),
                self.queried@ == old(self).queried@,
                self.pending@ == old(self).pending@,
                self.failed@ == old(self).failed@,
                self.store_targets@ == old(self).store_targets@,
                self.acks@ == old(self).acks@,
                self.found == old(self).found,
                self.found_providers@ == old(self).found_providers@,
                self.phase == old(self).phase,
                self.kind == old(self).kind,
                self.quorum == old(self).quorum,
                self.deadline == old(self).deadline,
                self.key@ == old(self).key@,
                self.value@ == old(self).value@,
                self.k == old(self).k,
                self.alpha == old(self).alpha,
                self.target == old(self).target,
                forall|q: Seq<u8>|
                    has_peer_seq(old(self).candidates@, q) ==> has_peer_seq(self.candidates@, q),
                forall|q: Seq<u8>|
                    has_peer_seq(self.candidates@, q) ==> has_peer_seq(old(self).candidates@, q)
                        || (exists|m: int| 0 <= m < i && closer@[m].peer@ == q),
                forall|m: int|
                    0 <= m < i ==> has_peer_seq(
                        self.candidates@,
                        (#[trigger] closer@[m]).peer@,
                    ),
            decreases closer@.len() - i,
        {
            let ghost cpre = self.candidates@;
            if !Self::entries_contain(&self.candidates, &closer[i].peer) {
                let ghost c0 = self.candidates@;
                let kadv = kad_id(&closer[i].peer);
                let e = PeerEntry {
                    peer: bytes_clone(&closer[i].peer),
                    kad: kadv,
                    addr: bytes_clone(&closer[i].addr),
                };
                self.candidates.push(e);
                proof {
                    let ne = self.candidates@.last();
                    assert(ne.peer@ == closer@[i as int].peer@);
                    assert(entry_wf(ne));
                    assert forall|m: int, n: int|
                        0 <= m < n < self.candidates@.len() implies self.candidates@[m].peer@
                        != self.candidates@[n].peer@ by {
                        if n == self.candidates@.len() - 1 {
                            assert(self.candidates@[m] == c0[m]);
                            assert(has_peer_seq(c0, c0[m].peer@));
                        }
                    }
                    assert forall|m: int| 0 <= m < self.candidates@.len() implies entry_wf(
                        #[trigger] self.candidates@[m],
                    ) by {
                        if m < self.candidates@.len() - 1 {
                            assert(self.candidates@[m] == c0[m]);
                        }
                    }
                    assert forall|q: Seq<u8>| has_peer_seq(old(self).candidates@, q)
                        implies has_peer_seq(self.candidates@, q) by {
                        if has_peer_seq(c0, q) {
                            let m = choose|m: int| 0 <= m < c0.len() && c0[m].peer@ == q;
                            assert(self.candidates@[m].peer@ == q);
                        }
                    }
                    assert forall|q: Seq<u8>| has_peer_seq(self.candidates@, q)
                        implies has_peer_seq(old(self).candidates@, q) || (exists|m: int|
                        0 <= m < i + 1 && closer@[m].peer@ == q) by {
                        let m = choose|m: int|
                            0 <= m < self.candidates@.len() && self.candidates@[m].peer@ == q;
                        if m < self.candidates@.len() - 1 {
                            assert(c0[m].peer@ == q);
                            assert(has_peer_seq(c0, q));
                        } else {
                            assert(closer@[i as int].peer@ == q);
                        }
                    }
                }
            }
            proof {
                assert forall|m: int| 0 <= m <= i implies has_peer_seq(
                    self.candidates@,
                    (#[trigger] closer@[m]).peer@,
                ) by {
                    if m < i {
                        if has_peer_seq(cpre, closer@[m].peer@) {
                            let mm = choose|mm: int|
                                0 <= mm < cpre.len() && cpre[mm].peer@ == closer@[m].peer@;
                            assert(self.candidates@[mm].peer@ == closer@[m].peer@);
                        }
                    } else {
                        if self.candidates@.len() == cpre.len() {
                            assert(has_peer_seq(cpre, closer@[m].peer@));
                            let mm = choose|mm: int|
                                0 <= mm < cpre.len() && cpre[mm].peer@ == closer@[m].peer@;
                            assert(self.candidates@[mm].peer@ == closer@[m].peer@);
                        } else {
                            assert(self.candidates@.last().peer@ == closer@[m].peer@);
                        }
                    }
                }
            }
            i += 1;
        }
    }

    /// Fold a provider list from a response into the accumulated provider
    /// set.
    #[verifier::loop_isolation(false)]
    fn merge_providers(&mut self, provs: &Vec<Vec<u8>>)
        requires
            old(self).wf(),
        ensures
            final(self).wf(),
            forall|q: Seq<u8>| #![trigger bytes_list_has(final(self).found_providers@, q)]
                bytes_list_has(final(self).found_providers@, q) == (bytes_list_has(
                    old(self).found_providers@,
                    q,
                ) || bytes_list_has(provs@, q)),
            final(self).candidates@ == old(self).candidates@,
            final(self).queried@ == old(self).queried@,
            final(self).pending@ == old(self).pending@,
            final(self).failed@ == old(self).failed@,
            final(self).store_targets@ == old(self).store_targets@,
            final(self).acks@ == old(self).acks@,
            final(self).found == old(self).found,
            final(self).phase == old(self).phase,
            final(self).kind == old(self).kind,
            final(self).quorum == old(self).quorum,
            final(self).deadline == old(self).deadline,
            final(self).key@ == old(self).key@,
            final(self).value@ == old(self).value@,
            final(self).k == old(self).k,
            final(self).alpha == old(self).alpha,
            final(self).target == old(self).target,
    {
        let mut i: usize = 0;
        while i < provs.len()
            invariant
                self.wf(),
                i <= provs@.len(),
                self.candidates@ == old(self).candidates@,
                self.queried@ == old(self).queried@,
                self.pending@ == old(self).pending@,
                self.failed@ == old(self).failed@,
                self.store_targets@ == old(self).store_targets@,
                self.acks@ == old(self).acks@,
                self.found == old(self).found,
                self.phase == old(self).phase,
                self.kind == old(self).kind,
                self.quorum == old(self).quorum,
                self.deadline == old(self).deadline,
                self.key@ == old(self).key@,
                self.value@ == old(self).value@,
                self.k == old(self).k,
                self.alpha == old(self).alpha,
                self.target == old(self).target,
                forall|q: Seq<u8>|
                    bytes_list_has(self.found_providers@, q) == (bytes_list_has(
                        old(self).found_providers@,
                        q,
                    ) || (exists|m: int| 0 <= m < i && provs@[m]@ == q)),
            decreases provs@.len() - i,
        {
            if !bytes_list_contains(&self.found_providers, &provs[i]) {
                let ghost f0 = self.found_providers@;
                self.found_providers.push(bytes_clone(&provs[i]));
                proof {
                    assert(self.found_providers@.last()@ == provs@[i as int]@);
                    assert forall|m: int, n: int|
                        0 <= m < n < self.found_providers@.len()
                        implies self.found_providers@[m]@ != self.found_providers@[n]@ by {
                        if n == self.found_providers@.len() - 1 {
                            assert(self.found_providers@[m] == f0[m]);
                            assert(bytes_list_has(f0, f0[m]@));
                        }
                    }
                    assert forall|q: Seq<u8>| true implies bytes_list_has(
                        self.found_providers@,
                        q,
                    ) == (bytes_list_has(old(self).found_providers@, q) || (exists|m: int|
                        0 <= m < i + 1 && provs@[m]@ == q)) by {
                        lemma_bytes_has_push(f0, self.found_providers@.last(), q);
                        if provs@[i as int]@ == q {
                            assert(bytes_list_has(self.found_providers@, q));
                        }
                        if exists|m: int| 0 <= m < i && provs@[m]@ == q {
                            assert(exists|m: int| 0 <= m < i + 1 && provs@[m]@ == q);
                        }
                    }
                }
            } else {
                proof {
                    assert forall|q: Seq<u8>| true implies bytes_list_has(
                        self.found_providers@,
                        q,
                    ) == (bytes_list_has(old(self).found_providers@, q) || (exists|m: int|
                        0 <= m < i + 1 && provs@[m]@ == q)) by {
                        if exists|m: int| 0 <= m < i + 1 && provs@[m]@ == q {
                            let m = choose|m: int| 0 <= m < i + 1 && provs@[m]@ == q;
                            if m == i as int {
                                assert(bytes_list_has(self.found_providers@, provs@[m]@));
                            }
                        }
                    }
                }
            }
            i += 1;
        }
    }

    /// Take one peer's response in: the peer leaves the outstanding set,
    /// the closer peers it reported join the candidates, a carried record
    /// or provider list is accumulated, and in the store round an
    /// acknowledgment from a contacted peer is counted once.
    pub fn on_response(&mut self, from: &Vec<u8>, resp: &RpcResponse)
        requires
            old(self).wf(),
        ensures
            final(self).wf(),
            !bytes_list_has(final(self).pending@, from@),
            forall|q: Seq<u8>|
                q != from@ ==> bytes_list_has(final(self).pending@, q) == bytes_list_has(
                    old(self).pending@,
                    q,
                ),
            final(self).queried@ == old(self).queried@,
            final(self).failed@ == old(self).failed@,
            final(self).store_targets@ == old(self).store_targets@,
            final(self).phase == old(self).phase,
            final(self).kind == old(self).kind,
            final(self).quorum == old(self).quorum,
            final(self).deadline == old(self).deadline,
            final(self).key@ == old(self).key@,
            final(self).value@ == old(self).value@,
            final(self).k == old(self).k,
            final(self).alpha == old(self).alpha,
            final(self).target == old(self).target,
            forall|q: Seq<u8>|
                has_peer_seq(old(self).candidates@, q) ==> has_peer_seq(
                    final(self).candidates@,
                    q,
                ),
            forall|q: Seq<u8>|
                has_peer_seq(final(self).candidates@, q) ==> has_peer_seq(
                    old(self).candidates@,
                    q,
                ) || peer_infos_have(resp_closer(*resp), q),
            forall|q: Seq<u8>|
                #[trigger] peer_infos_have(resp_closer(*resp), q) ==> has_peer_seq(
                    final(self).candidates@,
                    q,
                ),
            forall|q: Seq<u8>|
                bytes_list_has(final(self).acks@, q) == (bytes_list_has(old(self).acks@, q) || (q
                    == from@ && is_ack(*resp) && old(self).phase is Storing && bytes_list_has(
                    old(self).store_targets@,
                    from@,
                ))),
            old(self).found is Some ==> final(self).found == old(self).found,
            (old(self).found is None && old(self).kind is GetValue) ==> ((*resp) matches
                RpcResponse::Value { record: Some(rec), .. } ==> ((final(self).found) matches
                Some(fr) && fr.model() == rec.model())),
            (old(self).found is None && !(old(self).kind is GetValue && (*resp) matches
                RpcResponse::Value { record: Some(rec2), .. })) ==> final(self).found is None,
            forall|q: Seq<u8>|
                bytes_list_has(final(self).found_providers@, q) == (bytes_list_has(
                    old(self).found_providers@,
                    q,
                ) || bytes_list_has(resp_providers(*resp), q)),
    {
        let ghost pend0 = self.pending@;
        remove_bytes(&mut self.pending, from);
        proof {
            if self.phase is Iterating {
                assert forall|i: int| 0 <= i < self.pending@.len() implies bytes_list_has(
                    self.queried@,
                    (#[trigger] self.pending@[i])@,
                ) by {
                    assert(bytes_list_has(pend0, self.pending@[i]@));
                    let j = choose|j: int| 0 <= j < pend0.len() && pend0[j]@ == self.pending@[i]@;
                    assert(bytes_list_has(self.queried@, pend0[j]@));
                }
            }
        }
        match resp {
            RpcResponse::Nodes { closer } => {
                self.merge_closer(closer);
                proof {
                    assert(resp_providers(*resp) =~= Seq::<Vec<u8>>::empty());
                }
            },
            RpcResponse::Value { record, closer } => {
                self.merge_closer(closer);
                proof {
                    assert(resp_providers(*resp) =~= Seq::<Vec<u8>>::empty());
                }
                match (&self.kind, record) {
                    (QueryKind::GetValue, Some(rec)) => {
                        match &self.found {
                            None => {
                                self.found = Some(clone_record(rec));
                            },
                            Some(_) => {},
                        }
                    },
                    _ => {},
                }
            },
            RpcResponse::Providers { providers, closer } => {
                self.merge_closer(closer);
                self.merge_providers(providers);
            },
            RpcResponse::StoreAck | RpcResponse::AddProviderAck => {
                proof {
                    assert(resp_providers(*resp) =~= Seq::<Vec<u8>>::empty());
                }
                let in_store_round = match self.phase {
                    QueryPhase::Storing => true,
                    _ => false,
                };
                if in_store_round && bytes_list_contains(&self.store_targets, from)
                    && !bytes_list_contains(&self.acks, from) {
                    let ghost a0 = self.acks@;
                    self.acks.push(bytes_clone(from));
                    proof {
                        assert(self.acks@.last()@ == from@);
                        assert forall|m: int, n: int|
                            0 <= m < n < self.acks@.len() implies self.acks@[m]@
                            != self.acks@[n]@ by {
                            if n == self.acks@.len() - 1 {
                                assert(self.acks@[m] == a0[m]);
                                assert(bytes_list_has(a0, a0[m]@));
                            }
                        }
                        assert forall|i: int| 0 <= i < self.acks@.len() implies bytes_list_has(
                            self.store_targets@,
                            (#[trigger] self.acks@[i])@,
                        ) by {
                            if i < self.acks@.len() - 1 {
                                assert(self.acks@[i] == a0[i]);
                            }
                        }
                        assert forall|q: Seq<u8>| true implies bytes_list_has(self.acks@, q) == (
                        bytes_list_has(a0, q) || q == from@) by {
                            lemma_bytes_has_push(a0, self.acks@.last(), q);
                        }
                    }
                }
            },
        }
    }
}


impl Query {
    /// Open the store round of a write query once iteration has
    /// converged: pick up to `k` of the closest candidates that did not
    /// fail, make them the store targets, and mark them outstanding. The
    /// caller sends `store_request` to each. For any other query state
    /// nothing happens and the empty list comes back.
    #[verifier::loop_isolation(false)]
    pub fn next_store_rpcs(&mut self) -> (out: Vec<PeerInfo>)
        requires
            old(self).wf(),
        ensures
            final(self).wf(),
            !(old(self).phase is Iterating && (old(self).kind is PutValue || old(
                self,
            ).kind is AddProvider) && old(self).pending@.len() == 0) ==> (*final(self) == *old(
                self,
            ) && out@.len() == 0),
            (old(self).phase is Iterating && (old(self).kind is PutValue || old(
                self,
            ).kind is AddProvider) && old(self).pending@.len() == 0) ==> {
                &&& final(self).phase is Storing
                &&& out@.len() <= old(self).k
                &&& views_of(final(self).store_targets@) == peer_views(out@)
                &&& views_of(final(self).pending@) == peer_views(out@)
                &&& final(self).acks@.len() == 0
                &&& forall|i: int, j: int|
                    0 <= i < j < out@.len() ==> out@[i].peer@ != out@[j].peer@
                &&& forall|i: int|
                    0 <= i < out@.len() ==> !bytes_list_has(
                        old(self).failed@,
                        (#[trigger] out@[i]).peer@,
                    ) && has_peer_seq(old(self).candidates@, out@[i].peer@)
                &&& (out@.len() < old(self).k as int ==> forall|c: int|
                    0 <= c < old(self).candidates@.len() ==> bytes_list_has(
                        final(self).store_targets@,
                        (#[trigger] old(self).candidates@[c]).peer@,
                    ) || bytes_list_has(old(self).failed@, old(self).candidates@[c].peer@))
                &&& forall|i: int, j: int|
                    0 <= i < j < out@.len() ==> dist_le(
                        old(self).target.bytes@,
                        #[trigger] sha256_of(out@[i].peer@),
                        #[trigger] sha256_of(out@[j].peer@),
                    )
                &&& final(self).candidates@ == old(self).candidates@
                &&& final(self).queried@ == old(self).queried@
                &&& final(self).failed@ == old(self).failed@
                &&& final(self).found == old(self).found
                &&& final(self).found_providers@ == old(self).found_providers@
                &&& final(self).kind == old(self).kind
                &&& final(self).quorum == old(self).quorum
                &&& final(self).deadline == old(self).deadline
                &&& final(self).key@ == old(self).key@
                &&& final(self).value@ == old(self).value@
                &&& final(self).k == old(self).k
                &&& final(self).alpha == old(self).alpha
                &&& final(self).target == old(self).target
            },
    {
        let start_round = match (&self.phase, &self.kind) {
            (QueryPhase::Iterating, QueryKind::PutValue) => self.pending.len() == 0,
            (QueryPhase::Iterating, QueryKind::AddProvider) => self.pending.len() == 0,
            _ => false,
        };
        if !start_round {
            return Vec::new();
        }
        self.phase = QueryPhase::Storing;
        self.acks = Vec::new();
        self.store_targets = Vec::new();
        self.pending = Vec::new();
        let mut out: Vec<PeerInfo> = Vec::new();
        let mut count: usize = 0;
        let mut done: bool = false;
        while !done && count < self.k
            invariant
                self.wf(),
                self.phase is Storing,
                count <= self.k,
                out@.len() == count as int,
                self.candidates@ == old(self).candidates@,
                self.queried@ == old(self).queried@,
                self.failed@ == old(self).failed@,
                self.found == old(self).found,
                self.found_providers@ == old(self).found_providers@,
                self.kind == old(self).kind,
                self.quorum == old(self).quorum,
                self.deadline == old(self).deadline,
                self.key@ == old(self).key@,
                self.value@ == old(self).value@,
                self.k == old(self).k,
                self.alpha == old(self).alpha,
                self.target == old(self).target,
                self.acks@.len() == 0,
                views_of(self.store_targets@) == peer_views(out@),
                views_of(self.pending@) == peer_views(out@),
                forall|i: int, j: int| 0 <= i < j < out@.len() ==> out@[i].peer@ != out@[j].peer@,
                forall|i: int|
                    0 <= i < out@.len() ==> !bytes_list_has(
                        old(self).failed@,
                        (#[trigger] out@[i]).peer@,
                    ) && has_peer_seq(old(self).candidates@, out@[i].peer@),
                done ==> forall|c: int|
                    0 <= c < self.candidates@.len() ==> bytes_list_has(
                        self.store_targets@,
                        (#[trigger] self.candidates@[c]).peer@,
                    ) || bytes_list_has(self.failed@, self.candidates@[c].peer@),
                forall|i: int, j2: int|
                    0 <= i < j2 < out@.len() ==> dist_le(
                        self.target.bytes@,
                        #[trigger] sha256_of(out@[i].peer@),
                        #[trigger] sha256_of(out@[j2].peer@),
                    ),
                forall|m: int, c: int|
                    0 <= m < out@.len() && 0 <= c < self.candidates@.len() && !bytes_list_has(
                        self.store_targets@,
                        (#[trigger] self.candidates@[c]).peer@,
                    ) && !bytes_list_has(self.failed@, self.candidates@[c].peer@) ==> dist_le(
                        self.target.bytes@,
                        sha256_of((#[trigger] out@[m]).peer@),
                        self.candidates@[c].kad.bytes@,
                    ),
            decreases self.k - count, (if done { 0int } else { 1int }),
        {
            let mut best: Option<usize> = None;
            let mut j: usize = 0;
            while j < self.candidates.len()
                invariant
                    j <= self.candidates@.len(),
                    match best {
                        Some(b) => b < self.candidates@.len() && !bytes_list_has(
                            self.store_targets@,
                            self.candidates@[b as int].peer@,
                        ) && !bytes_list_has(self.failed@, self.candidates@[b as int].peer@)
                            && forall|m: int|
                            0 <= m < j && !bytes_list_has(
                                self.store_targets@,
                                (#[trigger] self.candidates@[m]).peer@,
                            ) && !bytes_list_has(self.failed@, self.candidates@[m].peer@)
                                ==> dist_le(
                                self.target.bytes@,
                                self.candidates@[b as int].kad.bytes@,
                                self.candidates@[m].kad.bytes@,
                            ),
                        None => forall|m: int|
                            0 <= m < j ==> bytes_list_has(
                                self.store_targets@,
                                (#[trigger] self.candidates@[m]).peer@,
                            ) || bytes_list_has(self.failed@, self.candidates@[m].peer@),
                    },
                decreases self.candidates@.len() - j,
            {
                let cj_eligible = !bytes_list_contains(
                    &self.store_targets,
                    &self.candidates[j].peer,
                ) && !bytes_list_contains(&self.failed, &self.candidates[j].peer);
                if cj_eligible {
                    proof {
                        assert(entry_wf(self.candidates@[j as int]));
                        crate::keyspace::lemma_lex_lt_irrefl(
                            crate::keyspace::xor_bytes(
                                self.target.bytes@,
                                self.candidates@[j as int].kad.bytes@,
                            ),
                            0,
                        );
                    }
                    match best {
                        None => {
                            best = Some(j);
                        },
                        Some(b) => {
                            if crate::keyspace::closer(
                                &self.target,
                                &self.candidates[j].kad,
                                &self.candidates[b].kad,
                            ) {
                                proof {
                                    assert forall|m: int|
                                        0 <= m < j && !bytes_list_has(
                                            self.store_targets@,
                                            (#[trigger] self.candidates@[m]).peer@,
                                        ) && !bytes_list_has(
                                            self.failed@,
                                            self.candidates@[m].peer@,
                                        ) implies dist_le(
                                        self.target.bytes@,
                                        self.candidates@[j as int].kad.bytes@,
                                        self.candidates@[m].kad.bytes@,
                                    ) by {
                                        assert(entry_wf(self.candidates@[m]));
                                        assert(entry_wf(self.candidates@[b as int]));
                                        crate::keyspace::lemma_dist_lt_le(
                                            self.target.bytes@,
                                            self.candidates@[j as int].kad.bytes@,
                                            self.candidates@[b as int].kad.bytes@,
                                            self.candidates@[m].kad.bytes@,
                                        );
                                    }
                                }
                                best = Some(j);
                            }
                        },
                    }
                }
                j += 1;
            }
            match best {
                None => {
                    proof {
                        assert forall|c: int| 0 <= c < self.candidates@.len()
                            implies bytes_list_has(
                            self.store_targets@,
                            (#[trigger] self.candidates@[c]).peer@,
                        ) || bytes_list_has(self.failed@, self.candidates@[c].peer@) by {}
                    }
                    done = true;
                },
                Some(b) => {
                    let ghost st0 = self.store_targets@;
                    let ghost p0 = self.pending@;
                    let ghost out0 = out@;
                    let peer = bytes_clone(&self.candidates[b].peer);
                    let addr = bytes_clone(&self.candidates[b].addr);
                    let ghost pm = peer@;
                    out.push(PeerInfo { peer: bytes_clone(&peer), addr: bytes_clone(&addr) });
                    self.store_targets.push(bytes_clone(&peer));
                    self.pending.push(peer);
                    proof {
                        assert(out@.last().peer@ == pm);
                        assert(self.store_targets@.last()@ == pm);
                        assert(self.pending@.last()@ == pm);
                        assert(!bytes_list_has(st0, pm));
                        assert(peer_views(out@) =~= peer_views(out0).push(pm));
                        assert(views_of(self.store_targets@) =~= views_of(st0).push(pm));
                        assert(views_of(self.pending@) =~= views_of(p0).push(pm));
                        assert(!bytes_list_has(p0, pm)) by {
                            if bytes_list_has(p0, pm) {
                                let jj = choose|jj: int| 0 <= jj < p0.len() && p0[jj]@ == pm;
                                assert(views_of(p0)[jj] == pm);
                                assert(peer_views(out0)[jj] == pm);
                                assert(views_of(st0)[jj] == pm);
                                assert(st0[jj]@ == pm);
                                assert(bytes_list_has(st0, pm));
                            }
                        }
                        assert forall|m: int, n: int|
                            0 <= m < n < self.store_targets@.len()
                            implies self.store_targets@[m]@ != self.store_targets@[n]@ by {
                            if n == self.store_targets@.len() - 1 {
                                assert(self.store_targets@[m] == st0[m]);
                                assert(bytes_list_has(st0, st0[m]@));
                            }
                        }
                        assert forall|m: int, n: int|
                            0 <= m < n < self.pending@.len() implies self.pending@[m]@
                            != self.pending@[n]@ by {
                            if n == self.pending@.len() - 1 {
                                assert(self.pending@[m] == p0[m]);
                                assert(bytes_list_has(p0, p0[m]@));
                            }
                        }
                        assert forall|m: int, n: int|
                            0 <= m < n < out@.len() implies out@[m].peer@ != out@[n].peer@ by {
                            if n == out@.len() - 1 {
                                assert(out@[m] == out0[m]);
                                assert(views_of(st0)[m] == peer_views(out0)[m]);
                                assert(st0[m]@ == out0[m].peer@);
                                assert(bytes_list_has(st0, out0[m].peer@));
                            }
                        }
                        assert forall|i: int| 0 <= i < out@.len() implies !bytes_list_has(
                            old(self).failed@,
                            (#[trigger] out@[i]).peer@,
                        ) && has_peer_seq(old(self).candidates@, out@[i].peer@) by {
                            if i < out@.len() - 1 {
                                assert(out@[i] == out0[i]);
                            } else {
                                assert(out@[i].peer@ == pm);
                                assert(self.candidates@[b as int].peer@ == pm);
                                assert(has_peer_seq(self.candidates@, pm));
                            }
                        }
                        assert(entry_wf(self.candidates@[b as int]));
                        assert(sha256_of(pm) == self.candidates@[b as int].kad.bytes@);
                        assert forall|m: int, c: int|
                            0 <= m < out@.len() && 0 <= c < self.candidates@.len()
                                && !bytes_list_has(
                                self.store_targets@,
                                (#[trigger] self.candidates@[c]).peer@,
                            ) && !bytes_list_has(self.failed@, self.candidates@[c].peer@)
                            implies dist_le(
                            self.target.bytes@,
                            sha256_of((#[trigger] out@[m]).peer@),
                            self.candidates@[c].kad.bytes@,
                        ) by {
                            lemma_bytes_has_push(
                                st0,
                                self.store_targets@.last(),
                                self.candidates@[c].peer@,
                            );
                            assert(!bytes_list_has(st0, self.candidates@[c].peer@));
                            if m < out@.len() - 1 {
                                assert(out@[m] == out0[m]);
                            } else {
                                assert(out@[m].peer@ == pm);
                            }
                        }
                        assert forall|i: int, j2: int|
                            0 <= i < j2 < out@.len() implies dist_le(
                            self.target.bytes@,
                            #[trigger] sha256_of(out@[i].peer@),
                            #[trigger] sha256_of(out@[j2].peer@),
                        ) by {
                            if j2 == out@.len() - 1 {
                                assert(out@[i] == out0[i]);
                                assert(out@[j2].peer@ == pm);
                                assert(!bytes_list_has(st0, self.candidates@[b as int].peer@));
                            }
                        }
                    }
                    count += 1;
                },
            }
        }
        out
    }

    /// The request the store round sends: the record to replicate, or the
    /// provider announcement, with the local node as publisher/provider.
    pub fn store_request(&self, publisher: &Vec<u8>, expires: Option<u64>) -> (r: RpcRequest)
        ensures
            (self.kind is AddProvider) ==> (r matches RpcRequest::AddProvider { key, provider }
                && key@ == self.key@ && provider@ == publisher@),
            !(self.kind is AddProvider) ==> (r matches RpcRequest::Store { record }
                && record.key@ == self.key@ && record.value@ == self.value@
                && (record.publisher matches Some(p) && p@ == publisher@)
                && record.expires == expires),
    {
        match self.kind {
            QueryKind::AddProvider => RpcRequest::AddProvider {
                key: bytes_clone(&self.key),
                provider: bytes_clone(publisher),
            },
            _ => RpcRequest::Store {
                record: Record {
                    key: bytes_clone(&self.key),
                    value: bytes_clone(&self.value),
                    publisher: Some(bytes_clone(publisher)),
                    expires,
                },
            },
        }
    }

    /// Whether some candidate is still worth asking.
    fn any_eligible(&self) -> (r: bool)
        ensures
            r == self.has_eligible(),
    {
        let mut j: usize = 0;
        while j < self.candidates.len()
            invariant
                j <= self.candidates@.len(),
                forall|m: int|
                    0 <= m < j ==> bytes_list_has(
                        self.queried@,
                        (#[trigger] self.candidates@[m]).peer@,
                    ) || bytes_list_has(self.failed@, self.candidates@[m].peer@),
            decreases self.candidates@.len() - j,
        {
            if !bytes_list_contains(&self.queried, &self.candidates[j].peer)
                && !bytes_list_contains(&self.failed, &self.candidates[j].peer) {
                return true;
            }
            j += 1;
        }
        false
    }

    /// Decide whether the query is over, and with what outcome.
    ///
    /// A query past its deadline ends at once: with the record it already
    /// found, with the quorum decision of a store round, or as timed out.
    /// Before the deadline nothing ends while answers are outstanding or
    /// candidates remain to ask; once a read query has converged it ends
    /// with what it accumulated (`NotFound` for a value lookup that found
    /// nothing, also on an isolated node that knows no peers), and a store
    /// round ends with `Stored` exactly when at least the quorum of its
    /// distinct contacted targets acknowledged, else `QuorumUnmet`.
    pub fn try_finish(&mut self, now: u64) -> (r: Option<QueryOutcome>)
        requires
            old(self).wf(),
        ensures
            final(self).wf(),
            final(self).candidates@ == old(self).candidates@,
            final(self).queried@ == old(self).queried@,
            final(self).pending@ == old(self).pending@,
            final(self).failed@ == old(self).failed@,
            final(self).store_targets@ == old(self).store_targets@,
            final(self).acks@ == old(self).acks@,
            final(self).found == old(self).found,
            final(self).found_providers@ == old(self).found_providers@,
            final(self).kind == old(self).kind,
            final(self).quorum == old(self).quorum,
            final(self).deadline == old(self).deadline,
            final(self).key@ == old(self).key@,
            final(self).value@ == old(self).value@,
            final(self).k == old(self).k,
            final(self).alpha == old(self).alpha,
            final(self).target == old(self).target,
            r is None ==> final(self).phase == old(self).phase,
            r is Some ==> final(self).phase is Finished,
            old(self).phase is Finished ==> r is None,
            (!(old(self).phase is Finished) && now >= old(self).deadline) ==> r is Some,
            (!(old(self).phase is Finished) && now >= old(self).deadline && old(
                self,
            ).found is None && !(old(self).phase is Storing)) ==> (r matches Some(
                QueryOutcome::TimedOut,
            )),
            (!(old(self).phase is Finished) && (now >= old(self).deadline || (old(
                self,
            ).kind is GetValue && old(self).phase is Iterating && old(self).pending@.len() == 0
                && !old(self).has_eligible()))) ==> (old(self).found matches Some(f) ==> (
            r matches Some(QueryOutcome::FoundRecord { record }) && record.model()
                == f.model())),
            (old(self).phase is Storing && old(self).found is None && (now >= old(self).deadline
                || old(self).pending@.len() == 0)) ==> {
                &&& (quorum_met(
                    old(self).quorum,
                    old(self).acks@.len() as nat,
                    old(self).store_targets@.len() as nat,
                ) <==> (r matches Some(QueryOutcome::Stored { acks, contacted })
                    && acks == old(self).acks@.len() && contacted == old(
                    self,
                ).store_targets@.len()))
                &&& (!quorum_met(
                    old(self).quorum,
                    old(self).acks@.len() as nat,
                    old(self).store_targets@.len() as nat,
                ) <==> (r matches Some(QueryOutcome::QuorumUnmet { acks, contacted })
                    && acks == old(self).acks@.len() && contacted == old(
                    self,
                ).store_targets@.len()))
            },
            (now < old(self).deadline && !(old(self).phase is Finished) && old(
                self,
            ).pending@.len() > 0) ==> r is None,
            (now < old(self).deadline && old(self).phase is Iterating && old(
                self,
            ).has_eligible()) ==> r is None,
            (now < old(self).deadline && old(self).phase is Iterating && old(
                self,
            ).pending@.len() == 0 && !old(self).has_eligible()) ==> (match old(self).kind {
                QueryKind::GetValue => old(self).found is None ==> (r matches Some(
                    QueryOutcome::NotFound,
                )),
                QueryKind::GetProviders => (r matches Some(
                    QueryOutcome::FoundProviders { providers }
                ) && views_of(providers@) == views_of(old(self).found_providers@)),
                QueryKind::FindNode => (r matches Some(QueryOutcome::Converged { peers })
                    && peers@.len() == (if old(self).candidates@.len() < old(self).k as int {
                        old(self).candidates@.len() as int
                    } else {
                        old(self).k as int
                    }) && (forall|i: int|
                    0 <= i < peers@.len() ==> (#[trigger] peers@[i]).peer@ == old(
                        self,
                    ).candidates@[i].peer@ && peers@[i].addr@ == old(self).candidates@[i].addr@)),
                QueryKind::PutValue => r is None,
                QueryKind::AddProvider => r is None,
            }),
    {
        let finished_already = match self.phase {
            QueryPhase::Finished => true,
            _ => false,
        };
        if finished_already {
            return None;
        }
        if now >= self.deadline {
            let was_storing = match self.phase {
                QueryPhase::Storing => true,
                _ => false,
            };
            self.phase = QueryPhase::Finished;
            match &self.found {
                Some(rec) => {
                    return Some(QueryOutcome::FoundRecord { record: clone_record(rec) });
                },
                None => {},
            }
            if was_storing {
                let a = self.acks.len();
                let c = self.store_targets.len();
                if quorum_met_exec(self.quorum, a, c) {
                    return Some(QueryOutcome::Stored { acks: a, contacted: c });
                } else {
                    return Some(QueryOutcome::QuorumUnmet { acks: a, contacted: c });
                }
            }
            return Some(QueryOutcome::TimedOut);
        }
        if self.pending.len() > 0 {
            return None;
        }
        let storing_now = match self.phase {
            QueryPhase::Storing => true,
            _ => false,
        };
        if storing_now {
            self.phase = QueryPhase::Finished;
            match &self.found {
                Some(rec) => {
                    return Some(QueryOutcome::FoundRecord { record: clone_record(rec) });
                },
                None => {},
            }
            let a = self.acks.len();
            let c = self.store_targets.len();
            if quorum_met_exec(self.quorum, a, c) {
                return Some(QueryOutcome::Stored { acks: a, contacted: c });
            } else {
                return Some(QueryOutcome::QuorumUnmet { acks: a, contacted: c });
            }
        }
        if self.any_eligible() {
            return None;
        }
        match self.kind {
            QueryKind::GetValue => {
                self.phase = QueryPhase::Finished;
                match &self.found {
                    Some(rec) => Some(QueryOutcome::FoundRecord { record: clone_record(rec) }),
                    None => Some(QueryOutcome::NotFound),
                }
            },
            QueryKind::GetProviders => {
                self.phase = QueryPhase::Finished;
                Some(
                    QueryOutcome::FoundProviders {
                        providers: clone_bytes_list(&self.found_providers),
                    },
                )
            },
            QueryKind::FindNode => {
                let mut peers: Vec<PeerInfo> = Vec::new();
                let mut i: usize = 0;
                while i < self.candidates.len() && i < self.k
                    invariant
                        i <= self.candidates@.len(),
                        i <= self.k,
                        peers@.len() == i as int,
                        forall|m: int|
                            0 <= m < peers@.len() ==> (#[trigger] peers@[m]).peer@
                                == self.candidates@[m].peer@ && peers@[m].addr@
                                == self.candidates@[m].addr@,
                    decreases self.candidates@.len() - i,
                {
                    peers.push(
                        PeerInfo {
                            peer: bytes_clone(&self.candidates[i].peer),
                            addr: bytes_clone(&self.candidates[i].addr),
                        },
                    );
                    i += 1;
                }
                self.phase = QueryPhase::Finished;
                Some(QueryOutcome::Converged { peers })
            },
            QueryKind::PutValue => None,
            QueryKind::AddProvider => None,
        }
    }
}

/// Acknowledgments of a store round count distinct contacted peers: in a
/// well-formed query every recorded acknowledger is one of the contacted
/// store targets, and none is recorded twice. With `try_finish`'s
/// outcome, a write therefore succeeds exactly when at least the quorum
/// of distinct peers among the contacted closest set acknowledged it.
pub proof fn lemma_acks_are_distinct_targets(q: Query, i: int, j: int)
    requires
        q.wf(),
        0 <= i < q.acks@.len(),
        0 <= j < q.acks@.len(),
    ensures
        bytes_list_has(q.store_targets@, q.acks@[i]@),
        i != j ==> q.acks@[i]@ != q.acks@[j]@,
{
}

} // verus!

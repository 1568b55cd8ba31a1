//! The node facade.
//!
//! A `Node` owns the routing table, the local record store and the live
//! queries, and dispatches inbound RPCs. It performs no I/O itself: the
//! caller reads the clock, sends the RPCs a query asks for, and feeds
//! responses, failures and discovered peers back in. A write is stored
//! locally first, whatever the network outcome.

use vstd::prelude::*;
use crate::keyspace::{kad_id, bytes_clone, dist_le, sha256_of};
use crate::routing::{RoutingTable, InsertOutcome, PeerEntry, closest_result_ok, has_peer_seq};
use crate::store::{RecordStore, Record, RecordModel, clone_record, bytes_list_has};
use crate::query::{
    Query, QueryKind, QueryOutcome, Quorum, RpcRequest, RpcResponse, PeerInfo, peer_infos_have,
    resp_closer, is_ack, quorum_met, views_of, lemma_views_concat_membership,
};

verus! {

/// The exact answer to a closest-peers question: at most `k` peers of the
/// table, none twice, sorted by non-decreasing distance to the queried
/// key, leaving out only peers no closer than every listed one, and short
/// of `k` only when it lists every peer the table knows.
pub open spec fn good_closer_list(
    t: RoutingTable,
    key: Seq<u8>,
    k: int,
    infos: Seq<PeerInfo>,
) -> bool {
    &&& infos.len() <= k
    &&& forall|i: int, j: int| 0 <= i < j < infos.len() ==> infos[i].peer@ != infos[j].peer@
    &&& forall|i: int| 0 <= i < infos.len() ==> t.contains_peer((#[trigger] infos[i]).peer@)
    &&& forall|i: int, j: int|
        0 <= i < j < infos.len() ==> dist_le(
            sha256_of(key),
            sha256_of(infos[i].peer@),
            sha256_of(infos[j].peer@),
        )
    &&& forall|i: int, q: Seq<u8>|
        0 <= i < infos.len() && t.contains_peer(q) && !peer_infos_have(infos, q) ==> dist_le(
            sha256_of(key),
            sha256_of((#[trigger] infos[i]).peer@),
            #[trigger] sha256_of(q),
        )
    &&& (infos.len() < k ==> forall|q: Seq<u8>| t.contains_peer(q) ==> peer_infos_have(infos, q))
}

/// The configuration and identity fields no node operation changes.
pub open spec fn same_config(a: Node, b: Node) -> bool {
    &&& b.self_peer@ == a.self_peer@
    &&& b.self_addr@ == a.self_addr@
    &&& b.k == a.k
    &&& b.alpha == a.alpha
    &&& b.query_timeout == a.query_timeout
    &&& b.provider_ttl == a.provider_ttl
}

/// When a query started at `now` expires, saturating at the largest time.
pub open spec fn deadline_for(now: u64, timeout: u64) -> u64 {
    if now <= u64::MAX - timeout {
        (now + timeout) as u64
    } else {
        u64::MAX
    }
}

/// The request that belongs to query `q` sent by the node `selfp`: the
/// query's own key, and for a store round its own value, published by the
/// local node, with no expiry of its own.
pub open spec fn request_for(q: Query, selfp: Seq<u8>, r: RpcRequest) -> bool {
    match r {
        RpcRequest::FindNode { target } => (q.kind is FindNode || q.kind is PutValue
            || q.kind is AddProvider) && target@ == q.key@,
        RpcRequest::GetValue { key } => q.kind is GetValue && key@ == q.key@,
        RpcRequest::GetProviders { key } => q.kind is GetProviders && key@ == q.key@,
        RpcRequest::Store { record } => q.kind is PutValue && record.key@ == q.key@
            && record.value@ == q.value@ && (record.publisher matches Some(p) && p@ == selfp)
            && record.expires is None,
        RpcRequest::AddProvider { key, provider } => q.kind is AddProvider && key@ == q.key@
            && provider@ == selfp,
    }
}

/// What starting a query leaves behind: one new slot at the end, under
/// the identifier handed back, fresh, of the right kind, aimed at the
/// key, with the quorum and deadline asked for, and seeded with the
/// table's closest peers.
pub open spec fn started_query(
    n0: Node,
    n1: Node,
    qid: u64,
    kind: QueryKind,
    key: Seq<u8>,
    value: Seq<u8>,
    quorum: Quorum,
    now: u64,
) -> bool {
    &&& qid == n0.next_qid
    &&& n1.queries@.len() == n0.queries@.len() + 1
    &&& forall|i: int| 0 <= i < n0.queries@.len() ==> n1.queries@[i] == n0.queries@[i]
    &&& n1.queries@.last().id == qid
    &&& n1.queries@.last().query.kind == kind
    &&& n1.queries@.last().query.key@ == key
    &&& n1.queries@.last().query.value@ == value
    &&& n1.queries@.last().query.quorum == quorum
    &&& n1.queries@.last().query.k == n0.k
    &&& n1.queries@.last().query.alpha == n0.alpha
    &&& n1.queries@.last().query.deadline == deadline_for(now, n0.query_timeout)
    &&& n1.queries@.last().query.phase is Iterating
    &&& n1.queries@.last().query.queried@.len() == 0
    &&& n1.queries@.last().query.pending@.len() == 0
    &&& n1.queries@.last().query.failed@.len() == 0
    &&& n1.queries@.last().query.acks@.len() == 0
    &&& n1.queries@.last().query.found is None
    &&& closest_result_ok(
        n0.table,
        sha256_of(key),
        n0.k as int,
        n1.queries@.last().query.candidates@,
    )
}

/// One live query with its caller-facing identifier.
pub struct QuerySlot {
    pub id: u64,
    pub query: Query,
}

/// Index of the first slot with identifier `qid` at or after `i`, or -1.
pub open spec fn slot_idx_from(qs: Seq<QuerySlot>, qid: u64, i: int) -> int
    decreases qs.len() - i,
{
    if i < 0 || i >= qs.len() {
        -1
    } else if qs[i].id == qid {
        i
    } else {
        slot_idx_from(qs, qid, i + 1)
    }
}

/// Index of the slot of query `qid`, or -1.
pub open spec fn slot_idx(qs: Seq<QuerySlot>, qid: u64) -> int {
    slot_idx_from(qs, qid, 0)
}

/// Two slot lists with the same identifiers slot for slot locate every
/// query at the same index.
pub proof fn lemma_slot_idx_same_ids(qs1: Seq<QuerySlot>, qs2: Seq<QuerySlot>, qid: u64, i: int)
    requires
        0 <= i,
        qs1.len() == qs2.len(),
        forall|j: int| 0 <= j < qs1.len() ==> (#[trigger] qs1[j]).id == qs2[j].id,
    ensures
        slot_idx_from(qs1, qid, i) == slot_idx_from(qs2, qid, i),
    decreases qs1.len() - i,
{
    if i < qs1.len() && qs1[i].id != qid {
        lemma_slot_idx_same_ids(qs1, qs2, qid, i + 1);
    }
}

pub struct Node {
    pub self_peer: Vec<u8>,
    pub self_addr: Vec<u8>,
    pub table: RoutingTable,
    pub store: RecordStore,
    pub queries: Vec<QuerySlot>,
    pub next_qid: u64,
    pub k: usize,
    pub alpha: usize,
    pub query_timeout: u64,
    pub provider_ttl: u64,
}

impl Node {
    pub open spec fn wf(self) -> bool {
        &&& self.table.wf()
        &&& self.store.wf()
        &&& self.table.k == self.k
        &&& self.k >= 1
        &&& self.alpha >= 1
        &&& forall|i: int|
            0 <= i < self.queries@.len() ==> (#[trigger] self.queries@[i]).query.wf()
    }

    /// A fresh node that knows no peers and stores nothing.
    pub fn new(
        self_peer: Vec<u8>,
        self_addr: Vec<u8>,
        k: usize,
        alpha: usize,
        query_timeout: u64,
        provider_ttl: u64,
    ) -> (r: Node)
        requires
            k >= 1,
            alpha >= 1,
        ensures
            r.wf(),
            r.self_peer@ == self_peer@,
            r.self_addr@ == self_addr@,
            r.k == k,
            r.alpha == alpha,
            r.query_timeout == query_timeout,
            r.provider_ttl == provider_ttl,
            r.next_qid == 0,
            r.queries@.len() == 0,
            forall|q: Seq<u8>| !r.table.contains_peer(q),
            forall|kk: Seq<u8>| r.store.stored(kk) is None,
            forall|kk: Seq<u8>| r.store.providers_of(kk) == Set::<Seq<u8>>::empty(),
    {
        let table = RoutingTable::new(bytes_clone(&self_peer), k);
        Node {
            self_peer,
            self_addr,
            table,
            store: RecordStore::new(),
            queries: Vec::new(),
            next_qid: 0,
            k,
            alpha,
            query_timeout,
            provider_ttl,
        }
    }

    /// Feed one discovered peer (for instance from local-network
    /// discovery) into the routing table.
    pub fn observe_peer(&mut self, peer: Vec<u8>, addr: Vec<u8>) -> (r: InsertOutcome)
        requires
            old(self).wf(),
        ensures
            final(self).wf(),
            final(self).store == old(self).store,
            final(self).queries == old(self).queries,
            final(self).self_peer@ == old(self).self_peer@,
            same_config(*old(self), *final(self)),
            final(self).next_qid == old(self).next_qid,
            (r is Discarded) <==> sha256_of(peer@) == old(self).table.self_kad.bytes@,
            (r is Refreshed) <==> (sha256_of(peer@) != old(self).table.self_kad.bytes@ && old(
                self,
            ).table.contains_peer(peer@)),
            (r is Inserted) <==> (sha256_of(peer@) != old(self).table.self_kad.bytes@ && !old(
                self,
            ).table.contains_peer(peer@) && old(self).table.buckets@[old(
                self,
            ).table.home_bucket(peer@)]@.len() < old(self).k),
            (r is Full) <==> (sha256_of(peer@) != old(self).table.self_kad.bytes@ && !old(
                self,
            ).table.contains_peer(peer@) && old(self).table.buckets@[old(
                self,
            ).table.home_bucket(peer@)]@.len() >= old(self).k),
            (r is Inserted || r is Refreshed) ==> final(self).table.contains_peer(peer@),
            (r is Inserted) ==> forall|q: Seq<u8>|
                final(self).table.contains_peer(q) == (old(self).table.contains_peer(q) || q
                    == peer@),
            !(r is Inserted) ==> forall|q: Seq<u8>|
                final(self).table.contains_peer(q) == old(self).table.contains_peer(q),
    {
        self.table.insert(peer, addr)
    }

    /// Complete an insertion for which the table asked for a probe of the
    /// new peer's reachability.
    pub fn probed_peer(&mut self, peer: Vec<u8>, addr: Vec<u8>, reachable: bool) -> (r:
        InsertOutcome)
        requires
            old(self).wf(),
        ensures
            final(self).wf(),
            final(self).store == old(self).store,
            final(self).queries == old(self).queries,
            same_config(*old(self), *final(self)),
            final(self).next_qid == old(self).next_qid,
            !(r is Full),
            (r is Discarded) <==> (!reachable || sha256_of(peer@) == old(
                self,
            ).table.self_kad.bytes@),
            (r is Refreshed) <==> (reachable && sha256_of(peer@) != old(
                self,
            ).table.self_kad.bytes@ && old(self).table.contains_peer(peer@)),
            (r is Refreshed) ==> forall|q: Seq<u8>|
                final(self).table.contains_peer(q) == old(self).table.contains_peer(q),
            (r is Inserted) <==> (reachable && sha256_of(peer@) != old(
                self,
            ).table.self_kad.bytes@ && !old(self).table.contains_peer(peer@)),
            (r is Discarded) ==> forall|q: Seq<u8>|
                final(self).table.contains_peer(q) == old(self).table.contains_peer(q),
            (r is Inserted && old(self).table.buckets@[old(self).table.home_bucket(
                peer@,
            )]@.len() < old(self).k) ==> forall|q: Seq<u8>|
                final(self).table.contains_peer(q) == (old(self).table.contains_peer(q) || q
                    == peer@),
            (r is Inserted && old(self).table.buckets@[old(self).table.home_bucket(
                peer@,
            )]@.len() >= old(self).k) ==> forall|q: Seq<u8>|
                final(self).table.contains_peer(q) == ((old(self).table.contains_peer(q) && q
                    != old(self).table.buckets@[old(self).table.home_bucket(
                    peer@,
                )]@[0].peer@) || q == peer@),
    {
        self.table.insert_probed(peer, addr, reachable)
    }

    /// The up-to-`k` peers of the table closest to `key`, as wire-level
    /// peer infos, nearest first.
    fn closer_infos(table: &RoutingTable, key: &Vec<u8>, k: usize) -> (r: Vec<PeerInfo>)
        requires
            table.wf(),
        ensures
            good_closer_list(*table, key@, k as int, r@),
    {
        let t = kad_id(key);
        let es = table.closest(&t, k);
        let r = Self::entries_to_infos(&es);
        proof {
            assert forall|i: int| 0 <= i < r@.len() implies table.contains_peer(
                (#[trigger] r@[i]).peer@,
            ) by {
                assert(r@[i].peer@ == es@[i].peer@);
            }
            assert forall|i: int, j: int| 0 <= i < j < r@.len() implies r@[i].peer@
                != r@[j].peer@ && dist_le(
                sha256_of(key@),
                sha256_of(r@[i].peer@),
                sha256_of(r@[j].peer@),
            ) by {
                assert(r@[i].peer@ == es@[i].peer@ && r@[j].peer@ == es@[j].peer@);
                assert(crate::routing::entry_wf(es@[i]) && crate::routing::entry_wf(es@[j]));
                assert(dist_le(t.bytes@, es@[i].kad.bytes@, es@[j].kad.bytes@));
            }
            assert forall|q: Seq<u8>| #[trigger] peer_infos_have(r@, q) == has_peer_seq(
                es@,
                q,
            ) by {
                if peer_infos_have(r@, q) {
                    let i = choose|i: int| 0 <= i < r@.len() && r@[i].peer@ == q;
                    assert(es@[i].peer@ == q);
                }
                if has_peer_seq(es@, q) {
                    let i = choose|i: int| 0 <= i < es@.len() && es@[i].peer@ == q;
                    assert(r@[i].peer@ == q);
                }
            }
            assert forall|i: int, q: Seq<u8>|
                0 <= i < r@.len() && table.contains_peer(q) && !peer_infos_have(r@, q)
                implies dist_le(
                sha256_of(key@),
                sha256_of((#[trigger] r@[i]).peer@),
                #[trigger] sha256_of(q),
            ) by {
                assert(!has_peer_seq(es@, q));
                assert(r@[i].peer@ == es@[i].peer@);
                assert(crate::routing::entry_wf(es@[i]));
                assert(dist_le(t.bytes@, es@[i].kad.bytes@, sha256_of(q)));
            }
            if r@.len() < k as int {
                assert forall|q: Seq<u8>| table.contains_peer(q) implies peer_infos_have(
                    r@,
                    q,
                ) by {
                    assert(has_peer_seq(es@, q));
                }
            }
        }
        r
    }

    /// Turn routing-table entries into wire-level peer infos.
    fn entries_to_infos(es: &Vec<PeerEntry>) -> (r: Vec<PeerInfo>)
        ensures
            r@.len() == es@.len(),
            forall|i: int|
                0 <= i < r@.len() ==> (#[trigger] r@[i]).peer@ == es@[i].peer@ && r@[i].addr@
                    == es@[i].addr@,
    {
        let mut r: Vec<PeerInfo> = Vec::new();
        let mut i: usize = 0;
        while i < es.len()
            invariant
                i <= es@.len(),
                r@.len() == i as int,
                forall|j: int|
                    0 <= j < r@.len() ==> (#[trigger] r@[j]).peer@ == es@[j].peer@ && r@[j].addr@
                        == es@[j].addr@,
            decreases es@.len() - i,
        {
            r.push(
                PeerInfo {
                    peer: bytes_clone(&es[i].peer),
                    addr: bytes_clone(&es[i].addr),
                },
            );
            i += 1;
        }
        r
    }

    /// Serve one inbound RPC: learn the sender, then answer from the
    /// routing table and the local store.
    pub fn handle_rpc(
        &mut self,
        from_peer: Vec<u8>,
        from_addr: Vec<u8>,
        req: &RpcRequest,
        now: u64,
    ) -> (r: RpcResponse)
        requires
            old(self).wf(),
        ensures
            final(self).wf(),
            final(self).queries == old(self).queries,
            final(self).self_peer@ == old(self).self_peer@,
            (*req) matches RpcRequest::Store { record } ==> (r is StoreAck
                && final(self).store.stored(record.key@) == Some(record.model())),
            (*req) matches RpcRequest::AddProvider { key, provider } ==> (r is AddProviderAck
                && final(self).store.providers_of(key@) == old(self).store.providers_of(
                key@,
            ).insert(provider@)),
            (*req) matches RpcRequest::GetValue { key } ==> (r matches RpcResponse::Value {
                record: ro,
                closer: cl,
            } && (match ro {
                Some(rec) => old(self).store.lookup(key@, now) == Some(rec.model()),
                None => old(self).store.lookup(key@, now) is None,
            }) && good_closer_list(final(self).table, key@, old(self).k as int, cl@)),
            (*req) matches RpcRequest::FindNode { target } ==> (r matches RpcResponse::Nodes {
                closer,
            } && good_closer_list(final(self).table, target@, old(self).k as int, closer@)),
            (*req) matches RpcRequest::GetProviders { key } ==> (r matches
                RpcResponse::Providers { providers: pv, closer: cl } && good_closer_list(
                final(self).table,
                key@,
                old(self).k as int,
                cl@,
            ) && (forall|i: int|
                0 <= i < pv@.len() ==> old(self).store.providers_of(key@).contains(
                    (#[trigger] pv@[i])@,
                ) && old(self).store.provider_expiry(key@, pv@[i]@) > now) && (forall|p: Seq<u8>|
                old(self).store.providers_of(key@).contains(p)
                    && #[trigger] old(self).store.provider_expiry(key@, p) > now
                    ==> bytes_list_has(pv@, p))),
            forall|q: Seq<u8>|
                old(self).table.contains_peer(q) ==> final(self).table.contains_peer(q),
            forall|q: Seq<u8>|
                final(self).table.contains_peer(q) ==> old(self).table.contains_peer(q) || q
                    == from_peer@,
            same_config(*old(self), *final(self)),
            final(self).next_qid == old(self).next_qid,
    {
        let _ = self.table.insert(from_peer, from_addr);
        match req {
            RpcRequest::FindNode { target } => {
                let closer = Self::closer_infos(&self.table, target, self.k);
                RpcResponse::Nodes { closer }
            },
            RpcRequest::GetValue { key } => {
                let record = self.store.get(key, now);
                let closer = Self::closer_infos(&self.table, key, self.k);
                RpcResponse::Value { record, closer }
            },
            RpcRequest::Store { record } => {
                self.store.put(clone_record(record));
                RpcResponse::StoreAck
            },
            RpcRequest::GetProviders { key } => {
                let provs = self.store.providers(key, now);
                let closer = Self::closer_infos(&self.table, key, self.k);
                RpcResponse::Providers { providers: provs, closer }
            },
            RpcRequest::AddProvider { key, provider } => {
                let expires = if now <= u64::MAX - self.provider_ttl {
                    now + self.provider_ttl
                } else {
                    u64::MAX
                };
                self.store.add_provider(bytes_clone(key), bytes_clone(provider), expires);
                RpcResponse::AddProviderAck
            },
        }
    }

    /// Start a query of the given kind and return its identifier.
    fn start_query(
        &mut self,
        kind: QueryKind,
        key: Vec<u8>,
        value: Vec<u8>,
        quorum: Quorum,
        now: u64,
    ) -> (qid: u64)
        requires
            old(self).wf(),
        ensures
            final(self).wf(),
            final(self).store == old(self).store,
            final(self).table == old(self).table,
            same_config(*old(self), *final(self)),
            started_query(*old(self), *final(self), qid, kind, key@, value@, quorum, now),
    {
        let ghost keyv = key@;
        let ghost valuev = value@;
        let target = kad_id(&key);
        let seeds = self.table.closest(&target, self.k);
        let ghost seedsv = seeds@;
        let deadline = if now <= u64::MAX - self.query_timeout {
            now + self.query_timeout
        } else {
            u64::MAX
        };
        proof {
            assert(deadline == deadline_for(now, self.query_timeout));
            assert(closest_result_ok(self.table, sha256_of(keyv), self.k as int, seedsv));
        }
        let q = Query::new(kind, key, value, quorum, self.k, self.alpha, seeds, deadline);
        let qid = self.next_qid;
        self.next_qid = self.next_qid.wrapping_add(1);
        let ghost qs0 = self.queries@;
        self.queries.push(QuerySlot { id: qid, query: q });
        proof {
            assert forall|i: int| 0 <= i < self.queries@.len() implies (#[trigger] self.queries@[i]).query.wf() by {
                if i < self.queries@.len() - 1 {
                    assert(self.queries@[i] == qs0[i]);
                }
            }
            assert(self.queries@.last().query.candidates@ == seedsv);
        }
        qid
    }

    /// Look a key up in the network. The query converges on the closest
    /// peers and ends with the record, or `NotFound` when nobody has one.
    /// The quorum parameter is carried for configuration; a single
    /// satisfying record completes the lookup, matching the command
    /// surface's default of one.
    pub fn get(&mut self, key: Vec<u8>, quorum: Quorum, now: u64) -> (qid: u64)
        requires
            old(self).wf(),
        ensures
            final(self).wf(),
            final(self).store == old(self).store,
            final(self).table == old(self).table,
            same_config(*old(self), *final(self)),
            started_query(
                *old(self),
                *final(self),
                qid,
                QueryKind::GetValue,
                key@,
                Seq::<u8>::empty(),
                quorum,
                now,
            ),
    {
        let empty_value: Vec<u8> = Vec::new();
        proof {
            assert(empty_value@ =~= Seq::<u8>::empty());
        }
        self.start_query(QueryKind::GetValue, key, empty_value, quorum, now)
    }

    /// Store a value under a key. The record is written to the local
    /// store at once, whatever the network later answers, and a write
    /// query replicates it to the closest peers, succeeding exactly when
    /// the quorum of acknowledgments is reached.
    pub fn put(&mut self, key: Vec<u8>, value: Vec<u8>, quorum: Quorum, now: u64) -> (qid: u64)
        requires
            old(self).wf(),
        ensures
            final(self).wf(),
            final(self).store.stored(key@) == Some(
                RecordModel {
                    key: key@,
                    value: value@,
                    publisher: Some(old(self).self_peer@),
                    expires: None,
                },
            ),
            forall|k2: Seq<u8>|
                k2 != key@ ==> final(self).store.stored(k2) == old(self).store.stored(k2),
            final(self).store.providers@ == old(self).store.providers@,
            final(self).table == old(self).table,
            same_config(*old(self), *final(self)),
            started_query(
                *old(self),
                *final(self),
                qid,
                QueryKind::PutValue,
                key@,
                value@,
                quorum,
                now,
            ),
    {
        let local = Record {
            key: bytes_clone(&key),
            value: bytes_clone(&value),
            publisher: Some(bytes_clone(&self.self_peer)),
            expires: None,
        };
        proof {
            assert(local.model() == RecordModel {
                key: key@,
                value: value@,
                publisher: Some(old(self).self_peer@),
                expires: None,
            });
        }
        self.store.put(local);
        self.start_query(QueryKind::PutValue, key, value, quorum, now)
    }

    /// Announce the local node as a provider of `key`: recorded in the
    /// local store at once (repeats only refresh the time-to-live), then
    /// replicated to the closest peers.
    pub fn start_providing(&mut self, key: Vec<u8>, now: u64) -> (qid: u64)
        requires
            old(self).wf(),
        ensures
            final(self).wf(),
            final(self).store.providers_of(key@) == old(self).store.providers_of(key@).insert(
                old(self).self_peer@,
            ),
            final(self).store.provider_expiry(key@, old(self).self_peer@) == deadline_for(
                now,
                old(self).provider_ttl,
            ),
            forall|k2: Seq<u8>|
                k2 != key@ ==> final(self).store.providers_of(k2) == old(self).store.providers_of(
                    k2,
                ),
            final(self).store.records@ == old(self).store.records@,
            final(self).table == old(self).table,
            same_config(*old(self), *final(self)),
            started_query(
                *old(self),
                *final(self),
                qid,
                QueryKind::AddProvider,
                key@,
                Seq::<u8>::empty(),
                Quorum::One,
                now,
            ),
    {
        let expires = if now <= u64::MAX - self.provider_ttl {
            now + self.provider_ttl
        } else {
            u64::MAX
        };
        self.store.add_provider(bytes_clone(&key), bytes_clone(&self.self_peer), expires);
        let empty_value: Vec<u8> = Vec::new();
        proof {
            assert(empty_value@ =~= Seq::<u8>::empty());
        }
        self.start_query(QueryKind::AddProvider, key, empty_value, Quorum::One, now)
    }

    /// Ask the network who provides `key`.
    pub fn get_providers(&mut self, key: Vec<u8>, now: u64) -> (qid: u64)
        requires
            old(self).wf(),
        ensures
            final(self).wf(),
            final(self).store == old(self).store,
            final(self).table == old(self).table,
            same_config(*old(self), *final(self)),
            started_query(
                *old(self),
                *final(self),
                qid,
                QueryKind::GetProviders,
                key@,
                Seq::<u8>::empty(),
                Quorum::One,
                now,
            ),
    {
        let empty_value: Vec<u8> = Vec::new();
        proof {
            assert(empty_value@ =~= Seq::<u8>::empty());
        }
        self.start_query(QueryKind::GetProviders, key, empty_value, Quorum::One, now)
    }

    fn find_query(&self, qid: u64) -> (r: Option<usize>)
        ensures
            match r {
                Some(i) => i < self.queries@.len() && self.queries@[i as int].id == qid
                    && slot_idx(self.queries@, qid) == i as int,
                None => slot_idx(self.queries@, qid) == -1,
            },
    {
        let mut i: usize = 0;
        while i < self.queries.len()
            invariant
                i <= self.queries@.len(),
                slot_idx(self.queries@, qid) == slot_idx_from(self.queries@, qid, i as int),
            decreases self.queries@.len() - i,
        {
            if self.queries[i].id == qid {
                return Some(i);
            }
            i += 1;
        }
        None
    }

    /// The next batch of RPCs the query wants sent: each peer paired with
    /// the request of the query's current round. Empty while answers are
    /// outstanding and once the query is over; never empty while the
    /// query is iterating and an unqueried, non-failed candidate remains.
    /// A peer that failed an RPC of this query is never among the batch.
    #[verifier::loop_isolation(false)]
    pub fn query_next_rpcs(&mut self, qid: u64, now: u64) -> (out: Vec<(PeerInfo, RpcRequest)>)
        requires
            old(self).wf(),
        ensures
            final(self).wf(),
            final(self).store == old(self).store,
            final(self).table == old(self).table,
            same_config(*old(self), *final(self)),
            slot_idx(old(self).queries@, qid) == -1 ==> (out@.len() == 0 && *final(self) == *old(
                self,
            )),
            slot_idx(old(self).queries@, qid) >= 0 ==> {
                let q0 = old(self).queries@[slot_idx(old(self).queries@, qid)].query;
                let q1 = final(self).queries@[slot_idx(old(self).queries@, qid)].query;
                &&& forall|i: int|
                    0 <= i < out@.len() ==> !bytes_list_has(
                        q0.failed@,
                        (#[trigger] out@[i]).0.peer@,
                    )
                &&& forall|i: int, j: int|
                    0 <= i < j < out@.len() ==> out@[i].0.peer@ != out@[j].0.peer@
                &&& forall|i: int|
                    0 <= i < out@.len() ==> request_for(
                        q0,
                        old(self).self_peer@,
                        (#[trigger] out@[i]).1,
                    )
                &&& forall|i: int|
                    0 <= i < out@.len() ==> has_peer_seq(
                        q0.candidates@,
                        (#[trigger] out@[i]).0.peer@,
                    )
                &&& (q1.phase is Iterating ==> forall|i: int|
                    0 <= i < out@.len() ==> !bytes_list_has(
                        q0.queried@,
                        (#[trigger] out@[i]).0.peer@,
                    ))
                &&& (q0.phase is Iterating && q0.has_eligible() ==> out@.len() > 0)
                &&& final(self).queries@.len() == old(self).queries@.len()
            },
    {
        let idx = match self.find_query(qid) {
            Some(i) => i,
            None => {
                return Vec::new();
            },
        };
        let ghost qs0 = self.queries@;
        let mut slot = self.queries.remove(idx);
        let ghost q0g = slot.query;
        let ghost failed0 = slot.query.failed@;
        let mut out: Vec<(PeerInfo, RpcRequest)> = Vec::new();
        let in_iteration = match slot.query.phase {
            crate::query::QueryPhase::Iterating => true,
            _ => false,
        };
        if in_iteration {
            let peers = slot.query.next_iteration_rpcs();
            let mut i: usize = 0;
            while i < peers.len()
                invariant
                    i <= peers@.len(),
                    slot.query.wf(),
                    out@.len() == i as int,
                    forall|m: int|
                        0 <= m < out@.len() ==> (#[trigger] out@[m]).0.peer@ == peers@[m].peer@,
                    forall|m: int|
                        0 <= m < out@.len() ==> request_for(
                            q0g,
                            old(self).self_peer@,
                            (#[trigger] out@[m]).1,
                        ),
                decreases peers@.len() - i,
            {
                let req = slot.query.iteration_request();
                out.push(
                    (
                        PeerInfo {
                            peer: bytes_clone(&peers[i].peer),
                            addr: bytes_clone(&peers[i].addr),
                        },
                        req,
                    ),
                );
                proof {
                    assert(out@.last().0.peer@ == peers@[i as int].peer@);
                    assert(slot.query.kind == q0g.kind && slot.query.key@ == q0g.key@);
                    assert(request_for(q0g, old(self).self_peer@, out@.last().1));
                }
                i += 1;
            }
            proof {
                if out@.len() == 0 && q0g.has_eligible() {
                    let c = choose|c: int|
                        0 <= c < q0g.candidates@.len() && !bytes_list_has(
                            q0g.queried@,
                            (#[trigger] q0g.candidates@[c]).peer@,
                        ) && !bytes_list_has(q0g.failed@, q0g.candidates@[c].peer@);
                    lemma_views_concat_membership(
                        q0g.queried@,
                        slot.query.queried@,
                        peers@,
                        q0g.candidates@[c].peer@,
                    );
                    assert(slot.query.candidates@[c] == q0g.candidates@[c]);
                    assert(slot.query.has_eligible());
                    assert(false);
                }
            }
            if out.len() == 0 {
                let targets = slot.query.next_store_rpcs();
                let mut i2: usize = 0;
                while i2 < targets.len()
                    invariant
                        i2 <= targets@.len(),
                        slot.query.wf(),
                        out@.len() == i2 as int,
                        forall|m: int|
                            0 <= m < out@.len() ==> (#[trigger] out@[m]).0.peer@
                                == targets@[m].peer@,
                        forall|m: int|
                            0 <= m < out@.len() ==> request_for(
                                q0g,
                                old(self).self_peer@,
                                (#[trigger] out@[m]).1,
                            ),
                    decreases targets@.len() - i2,
                {
                    let req = slot.query.store_request(&self.self_peer, None);
                    out.push(
                        (
                            PeerInfo {
                                peer: bytes_clone(&targets[i2].peer),
                                addr: bytes_clone(&targets[i2].addr),
                            },
                            req,
                        ),
                    );
                    proof {
                        assert(out@.last().0.peer@ == targets@[i2 as int].peer@);
                        assert(slot.query.kind == q0g.kind && slot.query.key@ == q0g.key@
                            && slot.query.value@ == q0g.value@);
                        assert(request_for(q0g, old(self).self_peer@, out@.last().1));
                    }
                    i2 += 1;
                }
                proof {
                    assert forall|m: int, n: int|
                        0 <= m < n < out@.len() implies out@[m].0.peer@ != out@[n].0.peer@ by {
                        assert(out@[m].0.peer@ == targets@[m].peer@);
                        assert(out@[n].0.peer@ == targets@[n].peer@);
                    }
                    assert forall|m: int| 0 <= m < out@.len() implies !bytes_list_has(
                        failed0,
                        (#[trigger] out@[m]).0.peer@,
                    ) by {
                        assert(out@[m].0.peer@ == targets@[m].peer@);
                    }
                }
            } else {
                proof {
                    assert forall|m: int, n: int|
                        0 <= m < n < out@.len() implies out@[m].0.peer@ != out@[n].0.peer@ by {
                        assert(out@[m].0.peer@ == peers@[m].peer@);
                        assert(out@[n].0.peer@ == peers@[n].peer@);
                    }
                    assert forall|m: int| 0 <= m < out@.len() implies !bytes_list_has(
                        failed0,
                        (#[trigger] out@[m]).0.peer@,
                    ) by {
                        assert(out@[m].0.peer@ == peers@[m].peer@);
                    }
                }
            }
        }
        self.queries.insert(idx, slot);
        proof {
            assert forall|i: int| 0 <= i < self.queries@.len() implies (#[trigger] self.queries@[i]).query.wf() by {
                if i < idx {
                    assert(self.queries@[i] == qs0[i]);
                } else if i > idx {
                    assert(self.queries@[i] == qs0[i]);
                }
            }
        }
        out
    }

    /// The closer-peers list a response carries, if any.
    fn resp_closer_ref(resp: &RpcResponse) -> (r: Option<&Vec<PeerInfo>>)
        ensures
            match r {
                Some(c) => resp_closer(*resp) == c@,
                None => resp_closer(*resp).len() == 0,
            },
    {
        match resp {
            RpcResponse::Nodes { closer } => Some(closer),
            RpcResponse::Value { closer, .. } => Some(closer),
            RpcResponse::Providers { closer, .. } => Some(closer),
            _ => None,
        }
    }

    /// Feed one peer's response to its query back in: the peer leaves the
    /// outstanding set, the closer peers the response reveals are offered
    /// to the routing table and join the query's candidates, a carried
    /// record or provider list is accumulated, and in the store round an
    /// acknowledgment from a contacted peer is counted once. Answers
    /// whether a query with that identifier exists.
    pub fn on_rpc_response(&mut self, qid: u64, from: &Vec<u8>, resp: &RpcResponse) -> (found:
        bool)
        requires
            old(self).wf(),
        ensures
            final(self).wf(),
            final(self).store == old(self).store,
            same_config(*old(self), *final(self)),
            found == (slot_idx(old(self).queries@, qid) >= 0),
            forall|q: Seq<u8>|
                old(self).table.contains_peer(q) ==> final(self).table.contains_peer(q),
            forall|q: Seq<u8>|
                final(self).table.contains_peer(q) ==> old(self).table.contains_peer(q)
                    || peer_infos_have(resp_closer(*resp), q),
            slot_idx(old(self).queries@, qid) == -1 ==> final(self).queries == old(self).queries,
            slot_idx(old(self).queries@, qid) >= 0 ==> {
                let i = slot_idx(old(self).queries@, qid);
                let q0 = old(self).queries@[i].query;
                let q1 = final(self).queries@[i].query;
                &&& final(self).queries@.len() == old(self).queries@.len()
                &&& (forall|j: int|
                    0 <= j < final(self).queries@.len() && j != i ==> final(self).queries@[j]
                        == old(self).queries@[j])
                &&& final(self).queries@[i].id == qid
                &&& !bytes_list_has(q1.pending@, from@)
                &&& q1.queried@ == q0.queried@
                &&& q1.failed@ == q0.failed@
                &&& q1.phase == q0.phase
                &&& (forall|q: Seq<u8>|
                    has_peer_seq(q0.candidates@, q) ==> has_peer_seq(q1.candidates@, q))
                &&& (forall|q: Seq<u8>|
                    #[trigger] peer_infos_have(resp_closer(*resp), q) ==> has_peer_seq(
                        q1.candidates@,
                        q,
                    ))
                &&& (forall|q: Seq<u8>|
                    bytes_list_has(q1.acks@, q) == (bytes_list_has(q0.acks@, q) || (q == from@
                        && is_ack(*resp) && q0.phase is Storing && bytes_list_has(
                        q0.store_targets@,
                        from@,
                    ))))
                &&& (q0.found is Some ==> q1.found == q0.found)
            },
    {
        match Self::resp_closer_ref(resp) {
            Some(closer) => {
                let mut ci: usize = 0;
                while ci < closer.len()
                    invariant
                        self.wf(),
                        ci <= closer@.len(),
                        self.store == old(self).store,
                        self.queries == old(self).queries,
                        same_config(*old(self), *self),
                        resp_closer(*resp) == closer@,
                        forall|q: Seq<u8>|
                            old(self).table.contains_peer(q) ==> self.table.contains_peer(q),
                        forall|q: Seq<u8>|
                            self.table.contains_peer(q) ==> old(self).table.contains_peer(q) || (
                            exists|m: int| 0 <= m < ci && (#[trigger] closer@[m]).peer@ == q),
                    decreases closer@.len() - ci,
                {
                    let ghost tpre = self.table;
                    let ins = self.table.insert(
                        bytes_clone(&closer[ci].peer),
                        bytes_clone(&closer[ci].addr),
                    );
                    proof {
                        assert forall|q: Seq<u8>| old(self).table.contains_peer(q)
                            implies self.table.contains_peer(q) by {
                            assert(tpre.contains_peer(q));
                            match ins {
                                InsertOutcome::Inserted => {},
                                _ => {},
                            }
                        }
                        assert forall|q: Seq<u8>| self.table.contains_peer(q) implies old(
                            self,
                        ).table.contains_peer(q) || (exists|m: int|
                            0 <= m < ci + 1 && (#[trigger] closer@[m]).peer@ == q) by {
                            if !tpre.contains_peer(q) {
                                assert(q == closer@[ci as int].peer@);
                            }
                        }
                    }
                    ci += 1;
                }
                proof {
                    assert forall|q: Seq<u8>| self.table.contains_peer(q) implies old(
                        self,
                    ).table.contains_peer(q) || peer_infos_have(resp_closer(*resp), q) by {}
                }
            },
            None => {},
        }
        let idx = match self.find_query(qid) {
            Some(i) => i,
            None => {
                return false;
            },
        };
        let ghost qs0 = self.queries@;
        let mut slot = self.queries.remove(idx);
        let ghost q0g = slot.query;
        slot.query.on_response(from, resp);
        self.queries.insert(idx, slot);
        proof {
            assert(self.queries@ =~= qs0.update(idx as int, self.queries@[idx as int]));
            assert forall|i: int| 0 <= i < self.queries@.len() implies (#[trigger] self.queries@[i]).query.wf() by {
                if i < idx {
                    assert(self.queries@[i] == qs0[i]);
                } else if i > idx {
                    assert(self.queries@[i] == qs0[i]);
                }
            }
            assert(self.queries@[idx as int].id == qid);
        }
        true
    }

    /// Record that a peer failed an RPC of the query: the peer is removed
    /// from the routing table, leaves the query's outstanding set, and
    /// joins its failed set, from which no later round of that query ever
    /// picks.
    pub fn on_rpc_failure(&mut self, qid: u64, from: &Vec<u8>)
        requires
            old(self).wf(),
        ensures
            final(self).wf(),
            final(self).store == old(self).store,
            same_config(*old(self), *final(self)),
            !final(self).table.contains_peer(from@),
            forall|q: Seq<u8>|
                q != from@ ==> final(self).table.contains_peer(q) == old(self).table.contains_peer(
                    q,
                ),
            slot_idx(final(self).queries@, qid) == slot_idx(old(self).queries@, qid),
            slot_idx(old(self).queries@, qid) == -1 ==> final(self).queries == old(self).queries,
            slot_idx(old(self).queries@, qid) >= 0 ==> {
                let i = slot_idx(old(self).queries@, qid);
                let q0 = old(self).queries@[i].query;
                let q1 = final(self).queries@[i].query;
                &&& final(self).queries@.len() == old(self).queries@.len()
                &&& (forall|j: int|
                    0 <= j < final(self).queries@.len() && j != i ==> final(self).queries@[j]
                        == old(self).queries@[j])
                &&& final(self).queries@[i].id == qid
                &&& bytes_list_has(q1.failed@, from@)
                &&& (forall|q: Seq<u8>|
                    q != from@ ==> bytes_list_has(q1.failed@, q) == bytes_list_has(q0.failed@, q))
                &&& !bytes_list_has(q1.pending@, from@)
                &&& q1.queried@ == q0.queried@
                &&& q1.candidates@ == q0.candidates@
                &&& q1.phase == q0.phase
            },
    {
        self.table.remove(from);
        let idx = match self.find_query(qid) {
            Some(i) => i,
            None => {
                return ;
            },
        };
        let ghost qs0 = self.queries@;
        let mut slot = self.queries.remove(idx);
        slot.query.on_failure(from);
        self.queries.insert(idx, slot);
        proof {
            assert(self.queries@ =~= qs0.update(idx as int, self.queries@[idx as int]));
            assert forall|i: int| 0 <= i < self.queries@.len() implies (#[trigger] self.queries@[i]).query.wf() by {
                if i < idx {
                    assert(self.queries@[i] == qs0[i]);
                } else if i > idx {
                    assert(self.queries@[i] == qs0[i]);
                }
            }
            assert(self.queries@[idx as int].id == qid);
            assert forall|j: int| 0 <= j < qs0.len() implies (#[trigger] qs0[j]).id
                == self.queries@[j].id by {}
            lemma_slot_idx_same_ids(self.queries@, qs0, qid, 0);
        }
    }

    /// Ask whether the query is over; a finished query is dropped and its
    /// outcome returned, deciding exactly as `Query::try_finish` does: a
    /// write ends `Stored` precisely when at least the quorum of its
    /// distinct contacted store targets acknowledged.
    pub fn query_try_finish(&mut self, qid: u64, now: u64) -> (r: Option<QueryOutcome>)
        requires
            old(self).wf(),
        ensures
            final(self).wf(),
            final(self).store == old(self).store,
            final(self).table == old(self).table,
            same_config(*old(self), *final(self)),
            slot_idx(old(self).queries@, qid) == -1 ==> (r is None && *final(self) == *old(self)),
            slot_idx(old(self).queries@, qid) >= 0 ==> {
                let i = slot_idx(old(self).queries@, qid);
                let q0 = old(self).queries@[i].query;
                &&& (r is Some ==> final(self).queries@.len() == old(self).queries@.len() - 1 && (
                forall|j: int| 0 <= j < i ==> final(self).queries@[j] == old(self).queries@[j]) && (
                forall|j: int|
                    i <= j < final(self).queries@.len() ==> final(self).queries@[j] == old(
                        self,
                    ).queries@[j + 1]))
                &&& (r is None ==> final(self).queries@.len() == old(self).queries@.len() && (
                forall|j: int|
                    0 <= j < final(self).queries@.len() && j != i ==> final(self).queries@[j]
                        == old(self).queries@[j]) && final(self).queries@[i].id == qid)
                &&& (q0.phase is Finished ==> r is None)
                &&& (!(q0.phase is Finished) && now >= q0.deadline ==> r is Some)
                &&& (!(q0.phase is Finished) && now >= q0.deadline && q0.found is None && !(
                q0.phase is Storing) ==> (r matches Some(QueryOutcome::TimedOut)))
                &&& ((!(q0.phase is Finished) && (now >= q0.deadline || (q0.kind is GetValue
                    && q0.phase is Iterating && q0.pending@.len() == 0 && !q0.has_eligible())))
                    ==> (q0.found matches Some(f) ==> (r matches Some(
                    QueryOutcome::FoundRecord { record },
                ) && record.model() == f.model())))
                &&& ((q0.phase is Storing && q0.found is None && (now >= q0.deadline
                    || q0.pending@.len() == 0)) ==> {
                    &&& (quorum_met(
                        q0.quorum,
                        q0.acks@.len() as nat,
                        q0.store_targets@.len() as nat,
                    ) <==> (r matches Some(QueryOutcome::Stored { acks, contacted }) && acks
                        == q0.acks@.len() && contacted == q0.store_targets@.len()))
                    &&& (!quorum_met(
                        q0.quorum,
                        q0.acks@.len() as nat,
                        q0.store_targets@.len() as nat,
                    ) <==> (r matches Some(QueryOutcome::QuorumUnmet { acks, contacted }) && acks
                        == q0.acks@.len() && contacted == q0.store_targets@.len()))
                })
                &&& (now < q0.deadline && !(q0.phase is Finished) && q0.pending@.len() > 0 ==> r
                    is None)
                &&& (now < q0.deadline && q0.phase is Iterating && q0.has_eligible() ==> r
                    is None)
                &&& (now < q0.deadline && q0.phase is Iterating && q0.pending@.len() == 0
                    && !q0.has_eligible() ==> (match q0.kind {
                    QueryKind::GetValue => q0.found is None ==> (r matches Some(
                        QueryOutcome::NotFound,
                    )),
                    QueryKind::GetProviders => (r matches Some(
                        QueryOutcome::FoundProviders { providers },
                    ) && views_of(providers@) == views_of(q0.found_providers@)),
                    QueryKind::FindNode => (r matches Some(QueryOutcome::Converged { .. })),
                    QueryKind::PutValue => r is None,
                    QueryKind::AddProvider => r is None,
                }))
            },
    {
        let idx = match self.find_query(qid) {
            Some(i) => i,
            None => {
                return None;
            },
        };
        let ghost qs0 = self.queries@;
        let mut slot = self.queries.remove(idx);
        let ghost q0g = slot.query;
        let r = slot.query.try_finish(now);
        match r {
            Some(outcome) => {
                proof {
                    assert forall|i: int|
                        0 <= i < self.queries@.len() implies (#[trigger] self.queries@[i]).query.wf() by {
                        if i < idx {
                            assert(self.queries@[i] == qs0[i]);
                        } else {
                            assert(self.queries@[i] == qs0[i + 1]);
                        }
                    }
                }
                Some(outcome)
            },
            None => {
                self.queries.insert(idx, slot);
                proof {
                    assert(self.queries@ =~= qs0.update(idx as int, self.queries@[idx as int]));
                    assert forall|i: int|
                        0 <= i < self.queries@.len() implies (#[trigger] self.queries@[i]).query.wf() by {
                        if i < idx {
                            assert(self.queries@[i] == qs0[i]);
                        } else if i > idx {
                            assert(self.queries@[i] == qs0[i]);
                        }
                    }
                    assert(self.queries@[idx as int].id == qid);
                }
                None
            },
        }
    }
}

/// A record `put` just wrote is what an immediate local lookup returns,
/// at any time: `Node::put` stores it with no expiry, so `RecordStore`'s
/// lookup yields exactly the written key and value before any later
/// overwrite.
pub proof fn lemma_put_then_local_get(
    n: Node,
    key: Seq<u8>,
    value: Seq<u8>,
    publisher: Seq<u8>,
    now: u64,
)
    requires
        n.store.stored(key) == Some(
            RecordModel { key, value, publisher: Some(publisher), expires: None },
        ),
    ensures
        n.store.lookup(key, now) == Some(
            RecordModel { key, value, publisher: Some(publisher), expires: None },
        ),
{
}

/// The first-match scan finds a slot at `m` when nothing before `m`
/// carries the identifier.
pub proof fn lemma_slot_idx_first(qs: Seq<QuerySlot>, qid: u64, m: int, i: int)
    requires
        0 <= i <= m < qs.len(),
        forall|j: int| i <= j < m ==> (#[trigger] qs[j]).id != qid,
        qs[m].id == qid,
    ensures
        slot_idx_from(qs, qid, i) == m,
    decreases m - i,
{
    if i < m {
        lemma_slot_idx_first(qs, qid, m, i + 1);
    }
}

/// The query an operation starts is the one its identifier finds, as
/// long as no live slot already carried that identifier: chaining this
/// with `query_try_finish`'s decision clause gives the end-to-end quorum
/// law for a write — the put this slot drives ends `Stored` exactly when
/// at least the quorum of the distinct peers contacted in its store
/// round acknowledge it.
pub proof fn lemma_started_query_found(
    n0: Node,
    n1: Node,
    qid: u64,
    kind: QueryKind,
    key: Seq<u8>,
    value: Seq<u8>,
    quorum: Quorum,
    now: u64,
)
    requires
        started_query(n0, n1, qid, kind, key, value, quorum, now),
        forall|j: int| 0 <= j < n0.queries@.len() ==> (#[trigger] n0.queries@[j]).id != qid,
    ensures
        slot_idx(n1.queries@, qid) == n0.queries@.len(),
        n1.queries@[slot_idx(n1.queries@, qid)].query.quorum == quorum,
        n1.queries@[slot_idx(n1.queries@, qid)].query.kind == kind,
        n1.queries@[slot_idx(n1.queries@, qid)].query.key@ == key,
        n1.queries@[slot_idx(n1.queries@, qid)].query.value@ == value,
{
    let m = n0.queries@.len() as int;
    assert forall|j: int| 0 <= j < m implies (#[trigger] n1.queries@[j]).id != qid by {
        assert(n1.queries@[j] == n0.queries@[j]);
    }
    assert(n1.queries@[m].id == qid);
    lemma_slot_idx_first(n1.queries@, qid, m, 0);
}

} // verus!

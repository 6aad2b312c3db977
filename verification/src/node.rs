use vstd::prelude::*;
use crate::id::NodeId;
use crate::id::{dist_le, lemma_id_eq, sorted_by_dist};
use crate::store::Store;
use crate::closest::{closest, position_of};
use crate::K;

verus! {

/// How one contact reshapes a peer list: a self-contact is ignored; a known
/// peer is promoted to the most-recent end; a new peer is appended, evicting
/// the least-recently-contacted entry when the table is already full.
pub open spec fn spec_touch(peers: Seq<NodeId>, own: NodeId, p: NodeId) -> Seq<NodeId> {
    if p == own {
        peers
    } else if peers.contains(p) {
        peers.remove(peers.index_of(p)).push(p)
    } else if peers.len() < K {
        peers.push(p)
    } else {
        peers.drop_first().push(p)
    }
}

/// A node in the table: a fixed identifier, a local key/value store, and a
/// bounded peer list ordered from least to most recently contacted.
pub struct Node {
    pub id: NodeId,
    pub storage: Store,
    pub peers: Vec<NodeId>,
}

impl Node {
    /// The routing-table invariant: at most K peers, no duplicates, and never
    /// the owning node's own identifier.
    pub open spec fn wf(&self) -> bool {
        &&& self.peers@.len() <= K
        &&& self.peers@.no_duplicates()
        &&& !self.peers@.contains(self.id)
    }

    /// Create a node with the given identifier, an empty store and no peers.
    pub fn with_id(id: NodeId) -> (r: Node)
        ensures
            r.wf(),
            r.id == id,
            r.peers@.len() == 0,
            forall|k: Seq<u8>| r.storage.spec_get(k) is None,
    {
        Node { id, storage: Store::new(), peers: Vec::new() }
    }

    /// Create a node with a random identifier, an empty store and no peers.
    pub fn new() -> (r: Node)
        ensures
            r.wf(),
            r.peers@.len() == 0,
            forall|k: Seq<u8>| r.storage.spec_get(k) is None,
    {
        Node::with_id(NodeId::random())
    }

    /// Record contact with a peer: no-op on the node's own identifier,
    /// promotion to most-recent for a known peer, insertion with LRU
    /// eviction otherwise.
    pub fn track_peer(&mut self, peer: &NodeId)
        requires
            old(self).wf(),
        ensures
            final(self).wf(),
            final(self).id == old(self).id,
            final(self).storage == old(self).storage,
            final(self).peers@ == spec_touch(old(self).peers@, old(self).id, *peer),
    {
        let is_self = *peer == self.id;
        proof {
            lemma_id_eq(*peer, self.id);
        }
        if is_self {
            return;
        }
        let ghost op = self.peers@;
        match position_of(&self.peers, peer) {
            Some(pos) => {
                let existing = self.peers.remove(pos);
                self.peers.push(existing);
                proof {
                    let io = op.index_of(*peer);
                    assert(op.contains(*peer));
                    assert(0 <= io < op.len() && op[io] == *peer);
                    assert(io == pos);
                    op.remove_ensures(pos as int);
                    let rm = op.remove(pos as int);
                    assert forall|x: NodeId| #[trigger] rm.contains(x) implies op.contains(x)
                        && x != *peer by {
                        let ii = choose|ii: int| 0 <= ii < rm.len() && rm[ii] == x;
                        if ii < pos {
                            assert(op[ii] == x);
                        } else {
                            assert(op[ii + 1] == x);
                        }
                    }
                    assert forall|i2: int, j2: int|
                        0 <= i2 < rm.len() && 0 <= j2 < rm.len() && i2 != j2 implies rm[i2]
                        != rm[j2] by {
                        let oi = if i2 < pos { i2 } else { i2 + 1 };
                        let oj = if j2 < pos { j2 } else { j2 + 1 };
                        assert(rm[i2] == op[oi] && rm[j2] == op[oj]);
                    }
                    assert(self.peers@ =~= rm.push(*peer));
                    assert forall|i2: int, j2: int|
                        0 <= i2 < self.peers@.len() && 0 <= j2 < self.peers@.len() && i2 != j2
                        implies self.peers@[i2] != self.peers@[j2] by {
                        if j2 == rm.len() {
                            assert(rm.contains(rm[i2]));
                        } else if i2 == rm.len() {
                            assert(rm.contains(rm[j2]));
                        }
                    }
                    assert(!self.peers@.contains(self.id)) by {
                        if self.peers@.contains(self.id) {
                            let ii = choose|ii: int|
                                0 <= ii < self.peers@.len() && self.peers@[ii] == self.id;
                            if ii < rm.len() {
                                assert(rm.contains(self.id));
                            }
                        }
                    }
                }
            },
            None => {
                if self.peers.len() < K {
                    self.peers.push(*peer);
                    proof {
                        assert forall|i2: int, j2: int|
                            0 <= i2 < self.peers@.len() && 0 <= j2 < self.peers@.len() && i2 != j2
                            implies self.peers@[i2] != self.peers@[j2] by {
                            if j2 == op.len() {
                                assert(op.contains(op[i2]));
                            } else if i2 == op.len() {
                                assert(op.contains(op[j2]));
                            }
                        }
                        assert(!self.peers@.contains(self.id)) by {
                            if self.peers@.contains(self.id) {
                                let ii = choose|ii: int|
                                    0 <= ii < self.peers@.len() && self.peers@[ii] == self.id;
                                if ii < op.len() {
                                    assert(op.contains(self.id));
                                }
                            }
                        }
                    }
                } else {
                    let _ = self.peers.remove(0);
                    self.peers.push(*peer);
                    proof {
                        let rm = op.drop_first();
                        assert(op.remove(0) =~= rm);
                        assert forall|x: NodeId| #[trigger] rm.contains(x) implies op.contains(x) by {
                            let ii = choose|ii: int| 0 <= ii < rm.len() && rm[ii] == x;
                            assert(op[ii + 1] == x);
                        }
                        assert(self.peers@ =~= rm.push(*peer));
                        assert forall|i2: int, j2: int|
                            0 <= i2 < self.peers@.len() && 0 <= j2 < self.peers@.len() && i2 != j2
                            implies self.peers@[i2] != self.peers@[j2] by {
                            if j2 == rm.len() {
                                assert(rm.contains(rm[i2]));
                            } else if i2 == rm.len() {
                                assert(rm.contains(rm[j2]));
                            } else {
                                assert(rm[i2] == op[i2 + 1] && rm[j2] == op[j2 + 1]);
                            }
                        }
                        assert(!self.peers@.contains(self.id)) by {
                            if self.peers@.contains(self.id) {
                                let ii = choose|ii: int|
                                    0 <= ii < self.peers@.len() && self.peers@[ii] == self.id;
                                if ii < rm.len() {
                                    assert(op.contains(self.id));
                                }
                            }
                        }
                    }
                }
            },
        }
    }

    /// Liveness check: records the caller as a known peer and acknowledges.
    pub fn rpc_ping(&mut self, from: &NodeId) -> (r: bool)
        requires
            old(self).wf(),
        ensures
            final(self).wf(),
            r == true,
            final(self).id == old(self).id,
            final(self).storage == old(self).storage,
            final(self).peers@ == spec_touch(old(self).peers@, old(self).id, *from),
    {
        self.track_peer(from);
        true
    }

    /// Store a key/value pair locally, unconditionally, recording the caller
    /// as a known peer.
    pub fn rpc_store(&mut self, from: &NodeId, key: Vec<u8>, value: Vec<u8>)
        requires
            old(self).wf(),
        ensures
            final(self).wf(),
            final(self).id == old(self).id,
            final(self).peers@ == spec_touch(old(self).peers@, old(self).id, *from),
            final(self).storage.spec_get(key@) == Some(value@),
            forall|k: Seq<u8>|
                k != key@ ==> final(self).storage.spec_get(k) == old(self).storage.spec_get(k),
    {
        self.track_peer(from);
        self.storage.put(key, value);
    }

    /// Look a key up locally: the stored value if present, else "not found",
    /// recording the caller as a known peer. The store is left unchanged.
    pub fn rpc_find_value(&mut self, from: &NodeId, key: &[u8]) -> (r: Option<Vec<u8>>)
        requires
            old(self).wf(),
        ensures
            final(self).wf(),
            final(self).id == old(self).id,
            final(self).storage == old(self).storage,
            final(self).peers@ == spec_touch(old(self).peers@, old(self).id, *from),
            match r {
                Some(v) => old(self).storage.spec_get(key@) == Some(v@),
                None => old(self).storage.spec_get(key@) is None,
            },
    {
        self.track_peer(from);
        self.storage.get(key)
    }

    /// Return up to K known peers closest to the target, sorted by ascending
    /// XOR distance, recording the caller as a known peer. The result never
    /// holds the handling node's own identifier.
    pub fn rpc_find_node(&mut self, from: &NodeId, target: &NodeId) -> (r: Vec<NodeId>)
        requires
            old(self).wf(),
        ensures
            final(self).wf(),
            final(self).id == old(self).id,
            final(self).storage == old(self).storage,
            final(self).peers@ == spec_touch(old(self).peers@, old(self).id, *from),
            sorted_by_dist(*target, r@),
            r@.len() == if K <= final(self).peers@.len() {
                K as int
            } else {
                final(self).peers@.len() as int
            },
            r@.no_duplicates(),
            forall|i: int| 0 <= i < r@.len() ==> final(self).peers@.contains(#[trigger] r@[i]),
            !r@.contains(final(self).id),
            forall|x: NodeId| #[trigger]
                r@.to_multiset().count(x) <= final(self).peers@.to_multiset().count(x),
            forall|x: NodeId|
                final(self).peers@.to_multiset().count(x) > #[trigger] r@.to_multiset().count(x)
                    ==> forall|i: int| 0 <= i < r@.len() ==> dist_le(*target, r@[i], x),
    {
        self.track_peer(from);
        let r = closest(target, &self.peers, K);
        proof {
            assert(!r@.contains(self.id)) by {
                if r@.contains(self.id) {
                    let ii = choose|ii: int| 0 <= ii < r@.len() && r@[ii] == self.id;
                    assert(self.peers@.contains(r@[ii]));
                }
            }
        }
        r
    }
}

/// A contact adds no identifier to a routing table but the contacted peer
/// itself: whatever the table holds afterwards was there before, or is `p`.
pub proof fn lemma_touch_members(peers: Seq<NodeId>, own: NodeId, p: NodeId, x: NodeId)
    ensures
        spec_touch(peers, own, p).contains(x) ==> peers.contains(x) || x == p,
{
    let t = spec_touch(peers, own, p);
    if p != own && t.contains(x) && x != p {
        let j = choose|j: int| 0 <= j < t.len() && t[j] == x;
        if peers.contains(p) {
            let io = peers.index_of(p);
            assert(0 <= io < peers.len() && peers[io] == p);
            peers.remove_ensures(io);
            let rm = peers.remove(io);
            if j < rm.len() {
                if j < io {
                    assert(peers[j] == x);
                } else {
                    assert(peers[j + 1] == x);
                }
            }
        } else if peers.len() < K {
            if j < peers.len() {
                assert(peers[j] == x);
            }
        } else {
            if j < peers.drop_first().len() {
                assert(peers[j + 1] == x);
            }
        }
    }
}

/// Law: a routing table never exceeds K entries, and inserting a new peer
/// into a full table evicts exactly the least-recently-contacted entry,
/// which no longer appears afterwards.
pub proof fn lemma_touch_bounded_eviction(peers: Seq<NodeId>, own: NodeId, p: NodeId)
    requires
        peers.len() <= K,
        peers.no_duplicates(),
        !peers.contains(own),
    ensures
        spec_touch(peers, own, p).len() <= K,
        (p != own && !peers.contains(p) && peers.len() == K) ==> {
            &&& spec_touch(peers, own, p) == peers.drop_first().push(p)
            &&& !spec_touch(peers, own, p).contains(peers[0])
        },
{
    if p != own && !peers.contains(p) && peers.len() == K {
        let t = peers.drop_first().push(p);
        assert(!t.contains(peers[0])) by {
            if t.contains(peers[0]) {
                let ii = choose|ii: int| 0 <= ii < t.len() && t[ii] == peers[0];
                if ii < peers.drop_first().len() {
                    assert(peers[ii + 1] == peers[0]);
                } else {
                    assert(peers.contains(p));
                }
            }
        }
    } else if p != own && peers.contains(p) {
        let io = peers.index_of(p);
        assert(0 <= io < peers.len() && peers[io] == p);
        peers.remove_ensures(io);
    }
}

/// Law: touching an already-known peer reorders the table but changes
/// neither its size nor the collection of peers in it.
pub proof fn lemma_touch_existing_preserves_table(peers: Seq<NodeId>, own: NodeId, p: NodeId)
    requires
        peers.contains(p),
        p != own,
    ensures
        spec_touch(peers, own, p).len() == peers.len(),
        spec_touch(peers, own, p).to_multiset() == peers.to_multiset(),
{
    broadcast use vstd::seq_lib::group_to_multiset_ensures;
    broadcast use vstd::multiset::group_multiset_axioms;

    let io = peers.index_of(p);
    assert(0 <= io < peers.len() && peers[io] == p);
    peers.remove_ensures(io);
    let rm = peers.remove(io);
    assert(rm.to_multiset() =~= peers.to_multiset().remove(p));
    assert(peers.to_multiset().count(p) > 0);
    assert(spec_touch(peers, own, p) == rm.push(p));
    assert(rm.push(p).to_multiset() =~= rm.to_multiset().insert(p));
    assert(spec_touch(peers, own, p).to_multiset() =~= peers.to_multiset());
}

} // verus!

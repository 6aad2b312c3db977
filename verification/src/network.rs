use vstd::prelude::*;
use sha1::Digest;
use crate::id::NodeId;
use crate::id::{lemma_id_eq, sorted_by_dist};
use crate::node::{Node, spec_touch};
use crate::closest::{closest, contains_id, copy_ids};
use crate::{K, ALPHA, MAX_STEPS};
use vstd::string::StringExecFns;

verus! {

/// What sha1::Sha1::digest returns on the given bytes: a digest determined
/// by the input alone.
pub uninterp spec fn sha1_of(key: Seq<u8>) -> Seq<u8>;

/// Relies on sha1::Sha1::digest: the 20-byte SHA-1 digest of the input,
/// a function of the input bytes alone.
#[verifier::external_body]
fn sha1_digest(key: &[u8]) -> (r: [u8; 20])
    ensures
        r@ == sha1_of(key@),
{
    let digest = sha1::Sha1::digest(key);
    let mut bytes = [0u8; 20];
    bytes.copy_from_slice(&digest);
    bytes
}

/// The character standing for a four-bit value in lowercase hexadecimal.
pub open spec fn hex_char_of(n: u8) -> char {
    if n == 0 { '0' }
    else if n == 1 { '1' }
    else if n == 2 { '2' }
    else if n == 3 { '3' }
    else if n == 4 { '4' }
    else if n == 5 { '5' }
    else if n == 6 { '6' }
    else if n == 7 { '7' }
    else if n == 8 { '8' }
    else if n == 9 { '9' }
    else if n == 10 { 'a' }
    else if n == 11 { 'b' }
    else if n == 12 { 'c' }
    else if n == 13 { 'd' }
    else if n == 14 { 'e' }
    else { 'f' }
}

/// A byte sequence written in lowercase hexadecimal, two characters a byte,
/// high nibble first.
pub open spec fn hex_of(bytes: Seq<u8>) -> Seq<char>
    decreases bytes.len(),
{
    if bytes.len() == 0 {
        Seq::empty()
    } else {
        hex_of(bytes.drop_last())
            + seq![hex_char_of(bytes.last() / 16), hex_char_of(bytes.last() % 16)]
    }
}

/// The one-character string for a four-bit value in lowercase hexadecimal.
fn hex_char_str(n: u8) -> (r: &'static str)
    requires
        n < 16,
    ensures
        r@ == seq![hex_char_of(n)],
{
    if n == 0 { proof { reveal_strlit("0"); } "0" }
    else if n == 1 { proof { reveal_strlit("1"); } "1" }
    else if n == 2 { proof { reveal_strlit("2"); } "2" }
    else if n == 3 { proof { reveal_strlit("3"); } "3" }
    else if n == 4 { proof { reveal_strlit("4"); } "4" }
    else if n == 5 { proof { reveal_strlit("5"); } "5" }
    else if n == 6 { proof { reveal_strlit("6"); } "6" }
    else if n == 7 { proof { reveal_strlit("7"); } "7" }
    else if n == 8 { proof { reveal_strlit("8"); } "8" }
    else if n == 9 { proof { reveal_strlit("9"); } "9" }
    else if n == 10 { proof { reveal_strlit("a"); } "a" }
    else if n == 11 { proof { reveal_strlit("b"); } "b" }
    else if n == 12 { proof { reveal_strlit("c"); } "c" }
    else if n == 13 { proof { reveal_strlit("d"); } "d" }
    else if n == 14 { proof { reveal_strlit("e"); } "e" }
    else { proof { reveal_strlit("f"); } "f" }
}

/// An in-memory network owning the nodes and delivering RPC calls between
/// them: the transport of the lookup engine. A call toward an identifier
/// that no node carries is unreachable, distinct from any answer.
pub struct Network {
    pub nodes: Vec<Node>,
}

impl Network {
    /// Every node well-formed, and no two nodes share an identifier.
    pub open spec fn wf(&self) -> bool {
        &&& forall|i: int| 0 <= i < self.nodes@.len() ==> (#[trigger] self.nodes@[i]).wf()
        &&& forall|i: int, j: int|
            0 <= i < j < self.nodes@.len() ==> self.nodes@[i].id != self.nodes@[j].id
    }

    /// Whether some node carries this identifier.
    pub open spec fn has_id(&self, id: NodeId) -> bool {
        exists|i: int| 0 <= i < self.nodes@.len() && (#[trigger] self.nodes@[i]).id == id
    }

    /// The position of the node carrying this identifier.
    pub open spec fn idx_of(&self, id: NodeId) -> int {
        choose|i: int| 0 <= i < self.nodes@.len() && (#[trigger] self.nodes@[i]).id == id
    }

    /// The node carrying this identifier.
    pub open spec fn node_of(&self, id: NodeId) -> Node {
        self.nodes@[self.idx_of(id)]
    }

    pub fn new() -> (r: Network)
        ensures
            r.wf(),
            r.nodes@.len() == 0,
    {
        Network { nodes: Vec::new() }
    }

    /// The position of the node carrying this identifier, if any.
    fn find_index(&self, id: &NodeId) -> (r: Option<usize>)
        ensures
            match r {
                Some(i) => i < self.nodes@.len() && self.nodes@[i as int].id == *id,
                None => !self.has_id(*id),
            },
    {
        let mut i: usize = 0;
        while i < self.nodes.len()
            invariant
                0 <= i <= self.nodes@.len(),
                forall|j: int| 0 <= j < i ==> (#[trigger] self.nodes@[j]).id != *id,
            decreases self.nodes@.len() - i,
        {
            let same = self.nodes[i].id == *id;
            proof {
                lemma_id_eq(self.nodes@[i as int].id, *id);
            }
            if same {
                return Some(i);
            }
            i = i + 1;
        }
        None
    }
}

/// The nodes stand unchanged in number and identity.
pub open spec fn same_ids(pre: Network, post: Network) -> bool {
    &&& post.nodes@.len() == pre.nodes@.len()
    &&& forall|i: int|
        0 <= i < pre.nodes@.len() ==> (#[trigger] post.nodes@[i]).id == pre.nodes@[i].id
}

/// Every node's local store stands unchanged.
pub open spec fn same_storages(pre: Network, post: Network) -> bool {
    &&& post.nodes@.len() == pre.nodes@.len()
    &&& forall|i: int|
        0 <= i < pre.nodes@.len() ==> (#[trigger] post.nodes@[i]).storage == pre.nodes@[i].storage
}

/// Delivering one RPC toward `to` changes at most the node carrying `to`,
/// and changes it only by recording `from` as a contact.
pub open spec fn touched_only(pre: Network, post: Network, to: NodeId, from: NodeId) -> bool {
    &&& post.nodes@.len() == pre.nodes@.len()
    &&& forall|i: int|
        0 <= i < pre.nodes@.len() && (#[trigger] pre.nodes@[i]).id != to ==> post.nodes@[i]
            == pre.nodes@[i]
    &&& forall|i: int|
        0 <= i < pre.nodes@.len() && (#[trigger] pre.nodes@[i]).id == to ==> {
            &&& post.nodes@[i].id == pre.nodes@[i].id
            &&& post.nodes@[i].storage == pre.nodes@[i].storage
            &&& post.nodes@[i].peers@ == spec_touch(pre.nodes@[i].peers@, to, from)
        }
}

/// Every node's routing table stands unchanged.
pub open spec fn same_tables(pre: Network, post: Network) -> bool {
    &&& post.nodes@.len() == pre.nodes@.len()
    &&& forall|i: int|
        0 <= i < pre.nodes@.len() ==> (#[trigger] post.nodes@[i]).peers@ == pre.nodes@[i].peers@
}

/// Some node's routing table holds this identifier.
pub open spec fn known_in(net: Network, x: NodeId) -> bool {
    exists|i: int| 0 <= i < net.nodes@.len() && (#[trigger] net.nodes@[i]).peers@.contains(x)
}

/// Routing tables gained no identifier but `extra`: whatever a table holds in
/// `post` it already held in `pre`, or it is `extra`.
pub open spec fn tables_bounded(pre: Network, post: Network, extra: NodeId) -> bool {
    &&& post.nodes@.len() == pre.nodes@.len()
    &&& forall|i: int, x: NodeId|
        0 <= i < post.nodes@.len() && #[trigger] post.nodes@[i].peers@.contains(x)
            ==> pre.nodes@[i].peers@.contains(x) || x == extra
}

/// One RPC delivered on behalf of `extra` adds at most `extra` itself to any
/// routing table.
pub proof fn lemma_touched_tables_bounded(
    net0: Network,
    pre: Network,
    post: Network,
    to: NodeId,
    extra: NodeId,
)
    requires
        tables_bounded(net0, pre, extra),
        touched_only(pre, post, to, extra),
    ensures
        tables_bounded(net0, post, extra),
{
    assert forall|i: int, x: NodeId|
        0 <= i < post.nodes@.len() && #[trigger] post.nodes@[i].peers@.contains(
            x,
        ) implies net0.nodes@[i].peers@.contains(x) || x == extra by {
        if pre.nodes@[i].id == to {
            assert(post.nodes@[i].peers@ == spec_touch(pre.nodes@[i].peers@, to, extra));
            crate::node::lemma_touch_members(pre.nodes@[i].peers@, to, extra, x);
        } else {
            assert(post.nodes@[i] == pre.nodes@[i]);
        }
    }
}

/// `x` is among a lookup's initial candidates: the start itself, or a peer
/// the start node knows.
pub open spec fn initial_candidate(net: Network, start: NodeId, x: NodeId) -> bool {
    x == start || (net.has_id(start) && net.node_of(start).peers@.contains(x))
}

/// The result `r` answers for `x`: it carries `x`, or it is full (K entries)
/// and every entry is at least as close to the target as `x`. A lookup owes
/// this to each of its initial candidates: none may be dropped for anything
/// farther away.
pub open spec fn dominates(target: NodeId, r: Seq<NodeId>, x: NodeId) -> bool {
    r.contains(x) || (r.len() == K && forall|i: int|
        0 <= i < r.len() ==> crate::id::dist_le(target, r[i], x))
}

/// Every node either is `p` or already carries `p` in its routing table, as
/// on a fully-connected node set.
pub open spec fn knows_peer(net: Network, p: NodeId) -> bool {
    forall|i: int|
        0 <= i < net.nodes@.len() ==> (#[trigger] net.nodes@[i]).id == p
            || net.nodes@[i].peers@.contains(p)
}

/// Routing tables hold the same collections of peers, though possibly in a
/// different recency order.
pub open spec fn same_table_sets(pre: Network, post: Network) -> bool {
    &&& post.nodes@.len() == pre.nodes@.len()
    &&& forall|i: int|
        0 <= i < pre.nodes@.len() ==> (#[trigger] post.nodes@[i]).peers@.to_multiset()
            == pre.nodes@[i].peers@.to_multiset()
}

/// An RPC on behalf of a peer every node already knows reorders routing
/// tables at most; no table gains or loses an entry, and every node still
/// knows that peer.
pub proof fn lemma_touch_same_sets(pre: Network, post: Network, to: NodeId, from: NodeId)
    requires
        touched_only(pre, post, to, from),
        knows_peer(pre, from),
    ensures
        same_table_sets(pre, post),
        knows_peer(post, from),
{
    broadcast use vstd::seq_lib::group_to_multiset_ensures;

    assert forall|i: int| 0 <= i < pre.nodes@.len() implies (#[trigger] post.nodes@[
        i
    ]).peers@.to_multiset() == pre.nodes@[i].peers@.to_multiset() by {
        if pre.nodes@[i].id == to {
            if to != from {
                assert(pre.nodes@[i].peers@.contains(from));
                crate::node::lemma_touch_existing_preserves_table(
                    pre.nodes@[i].peers@,
                    to,
                    from,
                );
            }
        }
    }
    assert forall|i: int| 0 <= i < post.nodes@.len() implies (#[trigger] post.nodes@[i]).id
        == from || post.nodes@[i].peers@.contains(from) by {
        if pre.nodes@[i].id != from {
            assert(pre.nodes@[i].peers@.contains(from));
            assert(pre.nodes@[i].peers@.to_multiset().count(from) > 0);
            assert(post.nodes@[i].peers@.to_multiset().count(from) > 0);
            assert(post.nodes@[i].peers@.contains(from));
        } else {
            if pre.nodes@[i].id == to {
                assert(post.nodes@[i].id == pre.nodes@[i].id);
            } else {
                assert(post.nodes@[i] == pre.nodes@[i]);
            }
        }
    }
}

/// The start node cannot reach any peer: either no node carries the start
/// identifier, or the node carrying it knows no peers.
pub open spec fn isolated_start(net: Network, start: NodeId) -> bool {
    !net.has_id(start) || net.node_of(start).peers@.len() == 0
}

/// The start node cannot reach any peer, and does not itself hold the key.
pub open spec fn isolated_for_key(net: Network, start: NodeId, k: Seq<u8>) -> bool {
    !net.has_id(start) || (net.node_of(start).peers@.len() == 0 && net.node_of(
        start,
    ).storage.spec_get(k) is None)
}

/// The position a well-formed network gives an identifier is the position of
/// any node carrying it: identifiers are unique.
pub proof fn lemma_idx_unique(net: Network, i: int, id: NodeId)
    requires
        net.wf(),
        0 <= i < net.nodes@.len(),
        net.nodes@[i].id == id,
    ensures
        net.has_id(id),
        net.idx_of(id) == i,
        net.node_of(id) == net.nodes@[i],
{
    assert(net.has_id(id));
    let c = net.idx_of(id);
    assert(0 <= c < net.nodes@.len() && net.nodes@[c].id == id);
}

/// Delivering one RPC toward `to` leaves every node but the handler as it
/// was; the handler records `from` and binds `key` to `value`.
pub open spec fn stored_only(
    pre: Network,
    post: Network,
    to: NodeId,
    from: NodeId,
    k: Seq<u8>,
    v: Seq<u8>,
) -> bool {
    &&& post.nodes@.len() == pre.nodes@.len()
    &&& forall|i: int|
        0 <= i < pre.nodes@.len() && (#[trigger] pre.nodes@[i]).id != to ==> post.nodes@[i]
            == pre.nodes@[i]
    &&& forall|i: int|
        0 <= i < pre.nodes@.len() && (#[trigger] pre.nodes@[i]).id == to ==> {
            &&& post.nodes@[i].id == pre.nodes@[i].id
            &&& post.nodes@[i].peers@ == spec_touch(pre.nodes@[i].peers@, to, from)
            &&& post.nodes@[i].storage.spec_get(k) == Some(v)
            &&& forall|k2: Seq<u8>|
                k2 != k ==> post.nodes@[i].storage.spec_get(k2) == pre.nodes@[
                    i
                ].storage.spec_get(k2)
        }
}

impl Network {
    /// Map a caller-supplied key into the identifier space with SHA-1, so
    /// that "closest to the key" is well-defined.
    pub fn key_to_id(key: &[u8]) -> (r: NodeId)
        ensures
            r@ == sha1_of(key@),
    {
        NodeId::from_bytes(sha1_digest(key))
    }

    /// Write an identifier in lowercase hexadecimal.
    pub fn id_hex(id: &NodeId) -> (r: String)
        ensures
            r@ == hex_of(id@),
    {
        let mut s = String::new();
        let mut i: usize = 0;
        proof {
            assert(id@.take(0) =~= Seq::<u8>::empty());
            assert(s@ =~= hex_of(id@.take(0)));
        }
        while i < 20
            invariant
                0 <= i <= 20,
                s@ == hex_of(id@.take(i as int)),
            decreases 20 - i,
        {
            let b = id.0[i];
            s.append(hex_char_str(b / 16));
            s.append(hex_char_str(b % 16));
            proof {
                assert(id@.take(i + 1).drop_last() =~= id@.take(i as int));
                assert(id@.take(i + 1).last() == id@[i as int]);
                assert(s@ =~= hex_of(id@.take(i + 1)));
            }
            i = i + 1;
        }
        proof {
            assert(id@.take(20) =~= id@);
        }
        s
    }

    /// Register a node under the given identifier: succeeds exactly when the
    /// identifier is still free, and then appends a fresh node; a taken
    /// identifier leaves the network unchanged.
    pub fn add_node_with_id(&mut self, id: NodeId) -> (r: bool)
        requires
            old(self).wf(),
        ensures
            final(self).wf(),
            r == !old(self).has_id(id),
            r ==> {
                &&& final(self).nodes@.len() == old(self).nodes@.len() + 1
                &&& final(self).nodes@.take(old(self).nodes@.len() as int) == old(self).nodes@
                &&& final(self).nodes@.last().id == id
                &&& final(self).nodes@.last().peers@.len() == 0
                &&& forall|k: Seq<u8>| final(self).nodes@.last().storage.spec_get(k) is None
                &&& final(self).has_id(id)
            },
            !r ==> *final(self) == *old(self),
    {
        match self.find_index(&id) {
            Some(_) => false,
            None => {
                let ghost pre = self.nodes@;
                self.nodes.push(Node::with_id(id));
                proof {
                    assert(pre =~= self.nodes@.take(pre.len() as int));
                    let n = self.nodes@.len() - 1;
                    assert(self.nodes@[n].id == id);
                }
                true
            },
        }
    }

    /// Create and register a node under a fresh random identifier, returning
    /// that identifier. The draw is random: in the vanishingly unlikely case
    /// that it collides with a registered node, nothing is added and nothing
    /// is returned.
    pub fn add_node(&mut self) -> (r: Option<NodeId>)
        requires
            old(self).wf(),
        ensures
            final(self).wf(),
            old(self).nodes@.len() == 0 ==> r is Some,
            r is None ==> old(self).nodes@.len() >= 1,
            match r {
                Some(id) => {
                    &&& !old(self).has_id(id)
                    &&& final(self).has_id(id)
                    &&& final(self).nodes@.len() == old(self).nodes@.len() + 1
                    &&& final(self).nodes@.take(old(self).nodes@.len() as int) == old(self).nodes@
                    &&& final(self).nodes@.last().id == id
                    &&& final(self).nodes@.last().peers@.len() == 0
                    &&& forall|k: Seq<u8>| final(self).nodes@.last().storage.spec_get(k) is None
                },
                None => *final(self) == *old(self),
            },
    {
        let id = NodeId::random();
        if self.add_node_with_id(id) {
            Some(id)
        } else {
            None
        }
    }

    /// Snapshot the peers a node currently knows; an identifier no node
    /// carries yields an empty snapshot.
    pub fn snapshot_peers(&self, id: &NodeId) -> (r: Vec<NodeId>)
        requires
            self.wf(),
        ensures
            self.has_id(*id) ==> r@ == self.node_of(*id).peers@,
            !self.has_id(*id) ==> r@.len() == 0,
    {
        match self.find_index(id) {
            Some(i) => {
                proof {
                    lemma_idx_unique(*self, i as int, *id);
                }
                let peers = &self.nodes[i].peers;
                let mut out: Vec<NodeId> = Vec::new();
                let mut j: usize = 0;
                proof {
                    assert(out@ =~= peers@.take(0));
                }
                while j < peers.len()
                    invariant
                        0 <= j <= peers@.len(),
                        out@ == peers@.take(j as int),
                    decreases peers@.len() - j,
                {
                    out.push(peers[j]);
                    proof {
                        assert(peers@.take(j as int).push(peers@[j as int]) =~= peers@.take(
                            j + 1,
                        ));
                    }
                    j = j + 1;
                }
                proof {
                    assert(peers@.take(peers@.len() as int) =~= peers@);
                }
                out
            },
            None => Vec::new(),
        }
    }

    /// Up to K of the candidates closest to `target`, sorted by ascending
    /// XOR distance; the table itself is not consulted or changed.
    pub fn closest_k(&self, target: &NodeId, candidates: &Vec<NodeId>) -> (r: Vec<NodeId>)
        ensures
            r@.len() == if K <= candidates@.len() {
                K as int
            } else {
                candidates@.len() as int
            },
            sorted_by_dist(*target, r@),
            forall|x: NodeId| #[trigger]
                r@.to_multiset().count(x) <= candidates@.to_multiset().count(x),
            forall|x: NodeId|
                candidates@.to_multiset().count(x) > #[trigger] r@.to_multiset().count(x)
                    ==> forall|i: int| 0 <= i < r@.len() ==> crate::id::dist_le(*target, r@[i], x),
            forall|i: int| 0 <= i < r@.len() ==> candidates@.contains(#[trigger] r@[i]),
            candidates@.no_duplicates() ==> r@.no_duplicates(),
            forall|x: NodeId| #[trigger]
                candidates@.contains(x) ==> r@.contains(x) || (r@.len() == K && forall|i: int|
                    0 <= i < r@.len() ==> crate::id::dist_le(*target, r@[i], x)),
    {
        closest(target, candidates, K)
    }

    /// Deliver a store toward `to`: a reachable handler records the caller
    /// and binds the key unconditionally; an unreachable one changes nothing.
    pub fn store(&mut self, from: &NodeId, to: &NodeId, key: Vec<u8>, value: Vec<u8>) -> (r:
        Option<()>)
        requires
            old(self).wf(),
        ensures
            final(self).wf(),
            same_ids(*old(self), *final(self)),
            r is Some <==> old(self).has_id(*to),
            r is Some ==> stored_only(*old(self), *final(self), *to, *from, key@, value@),
            r is None ==> *final(self) == *old(self),
    {
        match self.find_index(to) {
            Some(i) => {
                let target = &mut self.nodes[i];
                target.rpc_store(from, key, value);
                Some(())
            },
            None => None,
        }
    }

    /// Deliver a findValue toward `to`: the handler's stored value for the
    /// key, or "not found"; unreachable targets yield nothing and change
    /// nothing. No store is changed either way.
    pub fn find_value(&mut self, from: &NodeId, to: &NodeId, key: &[u8]) -> (r: Option<
        Option<Vec<u8>>,
    >)
        requires
            old(self).wf(),
        ensures
            final(self).wf(),
            same_ids(*old(self), *final(self)),
            same_storages(*old(self), *final(self)),
            r is Some <==> old(self).has_id(*to),
            r is Some ==> touched_only(*old(self), *final(self), *to, *from),
            r is None ==> *final(self) == *old(self),
            match r {
                Some(Some(v)) => old(self).has_id(*to) && old(self).node_of(
                    *to,
                ).storage.spec_get(key@) == Some(v@),
                Some(None) => old(self).has_id(*to) && old(self).node_of(*to).storage.spec_get(
                    key@,
                ) is None,
                None => true,
            },
    {
        match self.find_index(to) {
            Some(i) => {
                proof {
                    lemma_idx_unique(*old(self), i as int, *to);
                }
                let target = &mut self.nodes[i];
                let res = target.rpc_find_value(from, key);
                Some(res)
            },
            None => None,
        }
    }

    /// Deliver a findNode toward `to`: the handler's up-to-K closest known
    /// peers to the target identifier, sorted by ascending distance, never
    /// holding the handler's own identifier; unreachable targets yield
    /// nothing and change nothing.
    pub fn find_node(&mut self, from: &NodeId, to: &NodeId, target_id: &NodeId) -> (r: Option<
        Vec<NodeId>,
    >)
        requires
            old(self).wf(),
        ensures
            final(self).wf(),
            same_ids(*old(self), *final(self)),
            same_storages(*old(self), *final(self)),
            r is Some <==> old(self).has_id(*to),
            r is Some ==> touched_only(*old(self), *final(self), *to, *from),
            r is None ==> *final(self) == *old(self),
            match r {
                Some(v) => {
                    &&& sorted_by_dist(*target_id, v@)
                    &&& v@.len() == if K <= final(self).node_of(*to).peers@.len() {
                        K as int
                    } else {
                        final(self).node_of(*to).peers@.len() as int
                    }
                    &&& v@.no_duplicates()
                    &&& !v@.contains(*to)
                    &&& forall|m: int|
                        0 <= m < v@.len() ==> final(self).node_of(*to).peers@.contains(
                            #[trigger] v@[m],
                        )
                    &&& forall|x: NodeId| #[trigger]
                        v@.to_multiset().count(x) <= final(self).node_of(
                            *to,
                        ).peers@.to_multiset().count(x)
                    &&& forall|x: NodeId|
                        final(self).node_of(*to).peers@.to_multiset().count(x)
                            > #[trigger] v@.to_multiset().count(x) ==> forall|m: int|
                            0 <= m < v@.len() ==> crate::id::dist_le(*target_id, v@[m], x)
                },
                None => true,
            },
    {
        match self.find_index(to) {
            Some(i) => {
                let target = &mut self.nodes[i];
                let res = target.rpc_find_node(from, target_id);
                proof {
                    lemma_idx_unique(*self, i as int, *to);
                }
                Some(res)
            },
            None => None,
        }
    }

    /// Deliver a ping from one node to another; unreachable targets yield
    /// nothing, reachable ones acknowledge and record the caller.
    pub fn ping(&mut self, from: &NodeId, to: &NodeId) -> (r: Option<bool>)
        requires
            old(self).wf(),
        ensures
            final(self).wf(),
            same_ids(*old(self), *final(self)),
            same_storages(*old(self), *final(self)),
            r is Some <==> old(self).has_id(*to),
            r is Some ==> r == Some(true),
            r is Some ==> touched_only(*old(self), *final(self), *to, *from),
            r is None ==> *final(self) == *old(self),
    {
        match self.find_index(to) {
            Some(i) => {
                let target = &mut self.nodes[i];
                let ack = target.rpc_ping(from);
                Some(ack)
            },
            None => None,
        }
    }

    /// Gather the starting shortlist of a lookup: the start node's known
    /// peers plus the start itself, reduced to the up-to-K closest.
    fn initial_shortlist(&self, start: &NodeId, target: &NodeId) -> (r: Vec<NodeId>)
        requires
            self.wf(),
        ensures
            sorted_by_dist(*target, r@),
            r@.no_duplicates(),
            1 <= r@.len() <= K,
            isolated_start(*self, *start) ==> r@ == seq![*start],
            forall|m: int|
                0 <= m < r@.len() ==> known_in(*self, #[trigger] r@[m]) || r@[m] == *start,
            forall|x: NodeId|
                initial_candidate(*self, *start, x) ==> #[trigger] dominates(*target, r@, x),
    {
        let mut shortlist = self.snapshot_peers(start);
        let ghost snap = shortlist@;
        proof {
            if self.has_id(*start) {
                let i = self.idx_of(*start);
                assert(self.nodes@[i].wf());
            }
            assert(shortlist@.no_duplicates());
        }
        if !contains_id(&shortlist, start) {
            proof {
                crate::closest::lemma_push_keeps_no_duplicates(shortlist@, *start);
            }
            shortlist.push(*start);
        }
        proof {
            if isolated_start(*self, *start) {
                assert(shortlist@ =~= seq![*start]);
            }
            assert forall|m: int| 0 <= m < shortlist@.len() implies known_in(
                *self,
                #[trigger] shortlist@[m],
            ) || shortlist@[m] == *start by {
                if m < snap.len() {
                    let i = self.idx_of(*start);
                    assert(self.nodes@[i].peers@[m] == snap[m]);
                    assert(self.nodes@[i].peers@.contains(snap[m]));
                } else {
                    assert(shortlist@[m] == *start);
                }
            }
        }
        let r = self.closest_k(target, &shortlist);
        proof {
            if isolated_start(*self, *start) {
                assert(r@.len() == 1);
                assert(shortlist@.contains(r@[0]));
                assert(r@ =~= seq![*start]);
            }
            assert forall|m: int| 0 <= m < r@.len() implies known_in(*self, #[trigger] r@[m])
                || r@[m] == *start by {
                assert(shortlist@.contains(r@[m]));
                let j = choose|j: int| 0 <= j < shortlist@.len() && shortlist@[j] == r@[m];
                assert(known_in(*self, shortlist@[j]) || shortlist@[j] == *start);
            }
            assert forall|x: NodeId| initial_candidate(*self, *start, x) implies
                #[trigger] dominates(*target, r@, x) by {
                if x == *start {
                    if snap.len() < shortlist@.len() {
                        assert(shortlist@.last() == *start);
                    }
                    assert(shortlist@.contains(x));
                } else {
                    let i = self.idx_of(*start);
                    let pm = choose|pm: int|
                        0 <= pm < self.nodes@[i].peers@.len() && self.nodes@[i].peers@[pm] == x;
                    assert(snap[pm] == x);
                    assert(shortlist@[pm] == x);
                    assert(shortlist@.contains(x));
                }
            }
        }
        r
    }

    /// Iterative node lookup: starting from `start`'s own routing table, walk
    /// the network round by round toward `target` and return the up-to-K
    /// closest identifiers found. Rounds stop on convergence, on exhaustion,
    /// or at the MAX_STEPS safety bound. No node's store is changed, and a
    /// start that can reach no peer yields exactly itself.
    pub fn iterative_find_node(&mut self, start: &NodeId, target: &NodeId) -> (r: Vec<NodeId>)
        requires
            old(self).wf(),
        ensures
            final(self).wf(),
            same_ids(*old(self), *final(self)),
            same_storages(*old(self), *final(self)),
            sorted_by_dist(*target, r@),
            r@.no_duplicates(),
            1 <= r@.len() <= K,
            forall|m: int|
                0 <= m < r@.len() ==> known_in(*old(self), #[trigger] r@[m]) || r@[m] == *start,
            forall|x: NodeId|
                initial_candidate(*old(self), *start, x) ==> #[trigger] dominates(*target, r@, x),
            tables_bounded(*old(self), *final(self), *start),
            isolated_start(*old(self), *start) ==> r@ == seq![*start] && same_tables(
                *old(self),
                *final(self),
            ),
            knows_peer(*old(self), *start) ==> same_table_sets(*old(self), *final(self))
                && knows_peer(*final(self), *start),
    {
        let ghost net0 = *self;
        let ghost iso = isolated_start(net0, *start);
        let mut queried: Vec<NodeId> = Vec::new();
        let mut shortlist = self.initial_shortlist(start, target);
        let mut step: usize = 0;
        let mut done: bool = false;
        proof {
            assert(tables_bounded(net0, *self, *start));
        }
        while step < MAX_STEPS && !done
            invariant
                net0.wf(),
                self.wf(),
                same_ids(net0, *self),
                same_storages(net0, *self),
                tables_bounded(net0, *self, *start),
                knows_peer(net0, *start) ==> same_table_sets(net0, *self) && knows_peer(
                    *self,
                    *start,
                ),
                sorted_by_dist(*target, shortlist@),
                shortlist@.no_duplicates(),
                1 <= shortlist@.len() <= K,
                forall|m: int|
                    0 <= m < shortlist@.len() ==> known_in(net0, #[trigger] shortlist@[m])
                        || shortlist@[m] == *start,
                forall|x: NodeId|
                    initial_candidate(net0, *start, x) ==> #[trigger] dominates(
                        *target,
                        shortlist@,
                        x,
                    ),
                iso == isolated_start(net0, *start),
                iso ==> shortlist@ == seq![*start] && same_tables(net0, *self) && (queried@.len()
                    == 0 || done),
            decreases MAX_STEPS - step,
        {
            let batch = select_batch(&shortlist, &queried);
            proof {
                if iso && queried@.len() == 0 {
                    assert(batch@ =~= seq![*start]);
                }
            }
            if batch.is_empty() {
                done = true;
            } else {
                let mut any_progress: bool = false;
                let mut k: usize = 0;
                while k < batch.len()
                    invariant
                        0 <= k <= batch@.len(),
                        net0.wf(),
                        self.wf(),
                        same_ids(net0, *self),
                        same_storages(net0, *self),
                        tables_bounded(net0, *self, *start),
                        knows_peer(net0, *start) ==> same_table_sets(net0, *self) && knows_peer(
                            *self,
                            *start,
                        ),
                        sorted_by_dist(*target, shortlist@),
                        shortlist@.no_duplicates(),
                        1 <= shortlist@.len() <= K,
                        forall|m: int|
                            0 <= m < shortlist@.len() ==> known_in(net0, #[trigger] shortlist@[m])
                                || shortlist@[m] == *start,
                        forall|x: NodeId|
                            initial_candidate(net0, *start, x) ==> #[trigger] dominates(
                                *target,
                                shortlist@,
                                x,
                            ),
                        iso == isolated_start(net0, *start),
                        iso ==> batch@ == seq![*start] && shortlist@ == seq![*start]
                            && same_tables(net0, *self) && !any_progress,
                    decreases batch@.len() - k,
                {
                    let n = batch[k];
                    queried.push(n);
                    let ghost pre = *self;
                    match self.find_node(start, &n, target) {
                        Some(neighbors) => {
                            proof {
                                lemma_touched_tables_bounded(net0, pre, *self, n, *start);
                                if knows_peer(net0, *start) {
                                    lemma_touch_same_sets(pre, *self, n, *start);
                                    assert forall|i: int| 0 <= i < net0.nodes@.len() implies (
                                    #[trigger] self.nodes@[i]).peers@.to_multiset()
                                        == net0.nodes@[i].peers@.to_multiset() by {
                                        assert(self.nodes@[i].peers@.to_multiset()
                                            == pre.nodes@[i].peers@.to_multiset());
                                        assert(pre.nodes@[i].peers@.to_multiset()
                                            == net0.nodes@[i].peers@.to_multiset());
                                    }
                                    assert(same_table_sets(net0, *self));
                                }
                                assert forall|m: int| 0 <= m < neighbors@.len() implies known_in(
                                    net0,
                                    #[trigger] neighbors@[m],
                                ) || neighbors@[m] == *start by {
                                    let pi = pre.idx_of(n);
                                    assert(pre.has_id(n));
                                    assert(0 <= pi < pre.nodes@.len() && pre.nodes@[pi].id == n);
                                    assert(self.nodes@[pi].id == n);
                                    lemma_idx_unique(*self, pi, n);
                                    assert(self.node_of(n).peers@.contains(neighbors@[m]));
                                    assert(self.nodes@[pi].peers@.contains(neighbors@[m]));
                                }
                                if iso {
                                    assert(n == *start);
                                    assert(pre.has_id(*start));
                                    lemma_touch_preserves_tables(pre, *self, *start, *start);
                                    assert forall|i: int| 0 <= i < net0.nodes@.len() implies (
                                    #[trigger] self.nodes@[i]).peers@ == net0.nodes@[i].peers@ by {
                                        assert(self.nodes@[i].peers@ == pre.nodes@[i].peers@);
                                        assert(pre.nodes@[i].peers@ == net0.nodes@[i].peers@);
                                    }
                                    assert(same_tables(net0, *self));
                                    let pi = pre.idx_of(*start);
                                    assert(0 <= pi < pre.nodes@.len() && pre.nodes@[pi].id
                                        == *start);
                                    assert(self.nodes@[pi].id == *start);
                                    assert(net0.nodes@[pi].id == *start);
                                    lemma_idx_unique(*self, pi, *start);
                                    lemma_idx_unique(net0, pi, *start);
                                    assert(net0.has_id(*start));
                                    assert(net0.node_of(*start).peers@.len() == 0);
                                    assert(self.node_of(*start).peers@.len() == 0);
                                    assert(neighbors@.len() == 0);
                                }
                            }
                            let ghost sl_pre = shortlist@;
                            let before = copy_ids_merged(&mut shortlist, &neighbors);
                            let merged = self.closest_k(target, &shortlist);
                            let changed = !crate::closest::vecs_eq(&merged, &before);
                            shortlist = merged;
                            if changed {
                                any_progress = true;
                            }
                            proof {
                                if iso {
                                    assert(before@ == seq![*start]);
                                    assert(shortlist@.len() == 1);
                                    assert(before@.contains(shortlist@[0]));
                                    assert(shortlist@[0] == *start);
                                    assert(shortlist@ =~= seq![*start]);
                                }
                                assert forall|m: int| 0 <= m < shortlist@.len() implies known_in(
                                    net0,
                                    #[trigger] shortlist@[m],
                                ) || shortlist@[m] == *start by {
                                    let x = shortlist@[m];
                                    assert(before@.contains(x));
                                    let j = choose|j: int|
                                        0 <= j < before@.len() && before@[j] == x;
                                    assert(sl_pre.contains(x) || neighbors@.contains(x));
                                    if sl_pre.contains(x) {
                                        let jj = choose|jj: int|
                                            0 <= jj < sl_pre.len() && sl_pre[jj] == x;
                                        assert(known_in(net0, sl_pre[jj]) || sl_pre[jj]
                                            == *start);
                                    } else {
                                        let jm = choose|jm: int|
                                            0 <= jm < neighbors@.len() && neighbors@[jm] == x;
                                        assert(known_in(net0, neighbors@[jm]) || neighbors@[jm]
                                            == *start);
                                    }
                                }
                                assert forall|x: NodeId|
                                    initial_candidate(net0, *start, x) implies #[trigger] dominates(
                                    *target,
                                    shortlist@,
                                    x,
                                ) by {
                                    assert(dominates(*target, sl_pre, x));
                                    if sl_pre.contains(x) {
                                        let jj = choose|jj: int|
                                            0 <= jj < sl_pre.len() && sl_pre[jj] == x;
                                        assert(before@[jj] == x);
                                        assert(before@.contains(x));
                                    } else {
                                        assert(sl_pre.len() == K);
                                        assert(shortlist@.len() == K);
                                        crate::closest::lemma_domination_preserved(
                                            *target,
                                            sl_pre,
                                            before@,
                                            shortlist@,
                                            x,
                                        );
                                    }
                                }
                            }
                        },
                        None => {},
                    }
                    k = k + 1;
                }
                if !any_progress {
                    done = true;
                }
            }
            step = step + 1;
        }
        let r = self.closest_k(target, &shortlist);
        proof {
            if iso {
                assert(r@.len() == 1);
                assert(shortlist@.contains(r@[0]));
                assert(r@ =~= seq![*start]);
            }
            assert forall|m: int| 0 <= m < r@.len() implies known_in(net0, #[trigger] r@[m])
                || r@[m] == *start by {
                assert(shortlist@.contains(r@[m]));
                let j = choose|j: int| 0 <= j < shortlist@.len() && shortlist@[j] == r@[m];
                assert(known_in(net0, shortlist@[j]) || shortlist@[j] == *start);
            }
            assert forall|x: NodeId|
                initial_candidate(net0, *start, x) implies #[trigger] dominates(
                *target,
                r@,
                x,
            ) by {
                assert(dominates(*target, shortlist@, x));
                if shortlist@.contains(x) {
                } else {
                    assert(shortlist@.len() == K);
                    assert(r@.len() == K);
                    crate::closest::lemma_domination_preserved(
                        *target,
                        shortlist@,
                        shortlist@,
                        r@,
                        x,
                    );
                }
            }
        }
        r
    }

    /// Iterative value lookup: walk the network toward the key's identifier,
    /// asking each contacted peer for the value, and stop as soon as one
    /// returns it. Any value returned really is stored under the key on some
    /// node; a start node that holds the key itself but can reach no peer
    /// gets exactly its stored value back; a start that can reach no peer and
    /// does not hold the key finds nothing. No node's store is changed, and
    /// routing tables gain at most the start identifier.
    pub fn iterative_find_value(&mut self, start: &NodeId, key: &[u8]) -> (r: Option<Vec<u8>>)
        requires
            old(self).wf(),
        ensures
            final(self).wf(),
            same_ids(*old(self), *final(self)),
            same_storages(*old(self), *final(self)),
            tables_bounded(*old(self), *final(self), *start),
            match r {
                Some(v) => exists|i: int|
                    0 <= i < old(self).nodes@.len() && (#[trigger] old(
                        self,
                    ).nodes@[i]).storage.spec_get(key@) == Some(v@),
                None => true,
            },
            isolated_for_key(*old(self), *start, key@) ==> r is None,
            (old(self).has_id(*start) && old(self).node_of(*start).peers@.len() == 0 && old(
                self,
            ).node_of(*start).storage.spec_get(key@) is Some) ==> match r {
                Some(v) => old(self).node_of(*start).storage.spec_get(key@) == Some(v@),
                None => false,
            },
    {
        let key_id = Network::key_to_id(key);
        let ghost net0 = *self;
        let ghost iso = isolated_for_key(net0, *start, key@);
        let ghost iso_s = isolated_start(net0, *start);
        let ghost held = net0.has_id(*start) && net0.node_of(*start).peers@.len() == 0
            && net0.node_of(*start).storage.spec_get(key@) is Some;
        let mut queried: Vec<NodeId> = Vec::new();
        let mut shortlist = self.initial_shortlist(start, &key_id);
        let mut step: usize = 0;
        let mut done: bool = false;
        proof {
            assert(tables_bounded(net0, *self, *start));
        }
        while step < MAX_STEPS && !done
            invariant
                net0.wf(),
                net0 == *old(self),
                self.wf(),
                same_ids(net0, *self),
                same_storages(net0, *self),
                tables_bounded(net0, *self, *start),
                sorted_by_dist(key_id, shortlist@),
                shortlist@.no_duplicates(),
                1 <= shortlist@.len() <= K,
                iso == isolated_for_key(net0, *start, key@),
                iso_s == isolated_start(net0, *start),
                held == (net0.has_id(*start) && net0.node_of(*start).peers@.len() == 0
                    && net0.node_of(*start).storage.spec_get(key@) is Some),
                iso_s ==> shortlist@ == seq![*start] && same_tables(net0, *self),
                iso ==> (queried@.len() == 0 || done),
                held ==> step == 0 && !done && queried@.len() == 0,
            decreases MAX_STEPS - step,
        {
            let batch = select_batch(&shortlist, &queried);
            proof {
                if iso_s && queried.len() == 0 {
                    assert(batch@ =~= seq![*start]);
                }
            }
            if batch.is_empty() {
                done = true;
            } else {
                let mut any_progress: bool = false;
                let mut k: usize = 0;
                while k < batch.len()
                    invariant
                        0 <= k <= batch@.len(),
                        net0.wf(),
                        net0 == *old(self),
                        self.wf(),
                        same_ids(net0, *self),
                        same_storages(net0, *self),
                        tables_bounded(net0, *self, *start),
                        sorted_by_dist(key_id, shortlist@),
                        shortlist@.no_duplicates(),
                        1 <= shortlist@.len() <= K,
                        iso == isolated_for_key(net0, *start, key@),
                        iso_s == isolated_start(net0, *start),
                        held == (net0.has_id(*start) && net0.node_of(*start).peers@.len() == 0
                            && net0.node_of(*start).storage.spec_get(key@) is Some),
                        iso_s ==> batch@ == seq![*start] && shortlist@ == seq![*start]
                            && same_tables(net0, *self) && !any_progress,
                        held ==> k == 0,
                    decreases batch@.len() - k,
                {
                    let n = batch[k];
                    queried.push(n);
                    let ghost pre = *self;
                    match self.find_value(start, &n, key) {
                        Some(result) => {
                            proof {
                                lemma_touched_tables_bounded(net0, pre, *self, n, *start);
                                if iso_s {
                                    lemma_touch_preserves_tables(pre, *self, *start, *start);
                                    assert forall|i: int| 0 <= i < net0.nodes@.len() implies (
                                    #[trigger] self.nodes@[i]).peers@ == net0.nodes@[i].peers@ by {
                                        assert(self.nodes@[i].peers@ == pre.nodes@[i].peers@);
                                        assert(pre.nodes@[i].peers@ == net0.nodes@[i].peers@);
                                    }
                                    assert(same_tables(net0, *self));
                                }
                            }
                            if let Some(value) = result {
                                proof {
                                    let pi = pre.idx_of(n);
                                    assert(pre.has_id(n));
                                    assert(0 <= pi < pre.nodes@.len() && pre.nodes@[pi].id == n);
                                    lemma_idx_unique(pre, pi, n);
                                    assert(pre.nodes@[pi].storage.spec_get(key@) == Some(value@));
                                    assert(net0.nodes@[pi].storage == pre.nodes@[pi].storage);
                                    if iso {
                                        assert(n == *start);
                                        assert(net0.nodes@[pi].id == *start);
                                        lemma_idx_unique(net0, pi, *start);
                                        assert(net0.node_of(*start).storage.spec_get(
                                            key@,
                                        ) is None);
                                        assert(false);
                                    }
                                    if held {
                                        assert(n == *start);
                                        assert(net0.nodes@[pi].id == *start);
                                        lemma_idx_unique(net0, pi, *start);
                                        assert(net0.node_of(*start).storage.spec_get(key@)
                                            == Some(value@));
                                    }
                                    assert forall|i: int| 0 <= i < net0.nodes@.len() implies (
                                    #[trigger] self.nodes@[i]).id == net0.nodes@[i].id && (
                                    self.nodes@[i]).storage == net0.nodes@[i].storage by {
                                        assert(self.nodes@[i].id == pre.nodes@[i].id);
                                        assert(self.nodes@[i].storage == pre.nodes@[i].storage);
                                        assert(pre.nodes@[i].id == net0.nodes@[i].id);
                                        assert(pre.nodes@[i].storage == net0.nodes@[i].storage);
                                    }
                                    assert(same_ids(net0, *self));
                                    assert(same_storages(net0, *self));
                                }
                                return Some(value);
                            }
                            proof {
                                if held {
                                    assert(n == *start);
                                    let pi = pre.idx_of(n);
                                    assert(pre.has_id(n));
                                    assert(0 <= pi < pre.nodes@.len() && pre.nodes@[pi].id == n);
                                    lemma_idx_unique(pre, pi, n);
                                    assert(pre.nodes@[pi].storage == net0.nodes@[pi].storage);
                                    assert(net0.nodes@[pi].id == *start);
                                    lemma_idx_unique(net0, pi, *start);
                                    assert(pre.node_of(n).storage.spec_get(key@) is Some);
                                    assert(false);
                                }
                            }
                        },
                        None => {
                            proof {
                                if held {
                                    assert(n == *start);
                                    let pi = net0.idx_of(*start);
                                    assert(net0.has_id(*start));
                                    assert(0 <= pi < net0.nodes@.len() && net0.nodes@[pi].id
                                        == *start);
                                    assert(pre.nodes@[pi].id == *start);
                                    assert(pre.has_id(*start));
                                    assert(false);
                                }
                            }
                        },
                    }
                    let ghost pre2 = *self;
                    match self.find_node(start, &n, &key_id) {
                        Some(neighbors) => {
                            proof {
                                lemma_touched_tables_bounded(net0, pre2, *self, n, *start);
                                if iso_s {
                                    assert(n == *start);
                                    assert(pre2.has_id(*start));
                                    lemma_touch_preserves_tables(pre2, *self, *start, *start);
                                    assert forall|i: int| 0 <= i < net0.nodes@.len() implies (
                                    #[trigger] self.nodes@[i]).peers@ == net0.nodes@[i].peers@ by {
                                        assert(self.nodes@[i].peers@ == pre2.nodes@[i].peers@);
                                        assert(pre2.nodes@[i].peers@ == net0.nodes@[i].peers@);
                                    }
                                    assert(same_tables(net0, *self));
                                    let pi = pre2.idx_of(*start);
                                    assert(0 <= pi < pre2.nodes@.len() && pre2.nodes@[pi].id
                                        == *start);
                                    assert(self.nodes@[pi].id == *start);
                                    assert(net0.nodes@[pi].id == *start);
                                    lemma_idx_unique(*self, pi, *start);
                                    lemma_idx_unique(net0, pi, *start);
                                    assert(net0.has_id(*start));
                                    assert(net0.node_of(*start).peers@.len() == 0);
                                    assert(self.node_of(*start).peers@.len() == 0);
                                    assert(neighbors@.len() == 0);
                                }
                            }
                            let before = copy_ids_merged(&mut shortlist, &neighbors);
                            let merged = self.closest_k(&key_id, &shortlist);
                            let changed = !crate::closest::vecs_eq(&merged, &before);
                            shortlist = merged;
                            if changed {
                                any_progress = true;
                            }
                            proof {
                                if iso_s {
                                    assert(before@ == seq![*start]);
                                    assert(shortlist@.len() == 1);
                                    assert(before@.contains(shortlist@[0]));
                                    assert(shortlist@[0] == *start);
                                    assert(shortlist@ =~= seq![*start]);
                                }
                            }
                        },
                        None => {},
                    }
                    k = k + 1;
                }
                if !any_progress {
                    done = true;
                }
            }
            step = step + 1;
        }
        None
    }

    /// Iterative store: run the node lookup toward the key's identifier and
    /// store the key/value pair on every identifier it returned that a node
    /// carries. Exactly the nodes named in the result gain the binding; every
    /// other node's store stands unchanged.
    pub fn iterative_store(&mut self, start: &NodeId, key: Vec<u8>, value: Vec<u8>) -> (r: Vec<
        NodeId,
    >)
        requires
            old(self).wf(),
        ensures
            final(self).wf(),
            same_ids(*old(self), *final(self)),
            r@.no_duplicates(),
            1 <= r@.len() <= K,
            forall|m: int|
                0 <= m < r@.len() ==> known_in(*old(self), #[trigger] r@[m]) || r@[m] == *start,
            tables_bounded(*old(self), *final(self), *start),
            forall|t: NodeId| t@ == sha1_of(key@) ==> sorted_by_dist(t, r@),
            forall|t: NodeId, x: NodeId|
                t@ == sha1_of(key@) && initial_candidate(*old(self), *start, x)
                    ==> #[trigger] dominates(t, r@, x),
            forall|i: int|
                0 <= i < final(self).nodes@.len() ==> {
                    &&& (r@.contains((#[trigger] final(self).nodes@[i]).id) ==> {
                        &&& final(self).nodes@[i].storage.spec_get(key@) == Some(value@)
                        &&& forall|k2: Seq<u8>|
                            k2 != key@ ==> final(self).nodes@[i].storage.spec_get(k2) == old(
                                self,
                            ).nodes@[i].storage.spec_get(k2)
                    })
                    &&& (!r@.contains(final(self).nodes@[i].id) ==> final(self).nodes@[i].storage
                        == old(self).nodes@[i].storage)
                },
    {
        let key_id = Network::key_to_id(key.as_slice());
        let ghost net0 = *self;
        let targets = self.iterative_find_node(start, &key_id);
        let ghost net1 = *self;
        let mut k: usize = 0;
        proof {
            assert(targets@.take(0) =~= Seq::<NodeId>::empty());
        }
        while k < targets.len()
            invariant
                0 <= k <= targets@.len(),
                net0.wf(),
                self.wf(),
                same_ids(net0, net1),
                same_storages(net0, net1),
                same_ids(net1, *self),
                tables_bounded(net0, *self, *start),
                targets@.no_duplicates(),
                forall|i: int|
                    0 <= i < self.nodes@.len() ==> {
                        &&& (targets@.take(k as int).contains(
                            (#[trigger] self.nodes@[i]).id,
                        ) ==> {
                            &&& self.nodes@[i].storage.spec_get(key@) == Some(value@)
                            &&& forall|k2: Seq<u8>|
                                k2 != key@ ==> self.nodes@[i].storage.spec_get(k2)
                                    == net0.nodes@[i].storage.spec_get(k2)
                        })
                        &&& (!targets@.take(k as int).contains(self.nodes@[i].id)
                            ==> self.nodes@[i].storage == net0.nodes@[i].storage)
                    },
            decreases targets@.len() - k,
        {
            let t = targets[k];
            let ghost pre = *self;
            let kcopy = crate::store::bytes_to_vec(key.as_slice());
            let vcopy = crate::store::bytes_to_vec(value.as_slice());
            let res = self.store(start, &t, kcopy, vcopy);
            proof {
                assert(targets@.take(k + 1) =~= targets@.take(k as int).push(t));
                assert forall|i: int, x: NodeId|
                    0 <= i < self.nodes@.len() && #[trigger] self.nodes@[i].peers@.contains(
                        x,
                    ) implies net0.nodes@[i].peers@.contains(x) || x == *start by {
                    if res is Some {
                        if pre.nodes@[i].id == t {
                            assert(self.nodes@[i].peers@ == spec_touch(
                                pre.nodes@[i].peers@,
                                t,
                                *start,
                            ));
                            crate::node::lemma_touch_members(pre.nodes@[i].peers@, t, *start, x);
                        } else {
                            assert(self.nodes@[i] == pre.nodes@[i]);
                        }
                    } else {
                        assert(*self == pre);
                    }
                }
                assert(tables_bounded(net0, *self, *start));
                assert forall|i: int| 0 <= i < self.nodes@.len() implies {
                    &&& (targets@.take(k + 1).contains((#[trigger] self.nodes@[i]).id) ==> {
                        &&& self.nodes@[i].storage.spec_get(key@) == Some(value@)
                        &&& forall|k2: Seq<u8>|
                            k2 != key@ ==> self.nodes@[i].storage.spec_get(k2)
                                == net0.nodes@[i].storage.spec_get(k2)
                    })
                    &&& (!targets@.take(k + 1).contains(self.nodes@[i].id)
                        ==> self.nodes@[i].storage == net0.nodes@[i].storage)
                } by {
                    crate::closest::lemma_push_contains(
                        targets@.take(k as int),
                        t,
                        self.nodes@[i].id,
                    );
                    if res is Some {
                        if pre.nodes@[i].id == t {
                            assert(self.nodes@[i].id == pre.nodes@[i].id);
                            assert(!targets@.take(k as int).contains(t)) by {
                                if targets@.take(k as int).contains(t) {
                                    let j = choose|j: int|
                                        0 <= j < k && targets@.take(k as int)[j] == t;
                                    assert(targets@[j] == targets@[k as int]);
                                }
                            }
                            assert(targets@.take(k + 1).contains(self.nodes@[i].id));
                        } else {
                            assert(self.nodes@[i] == pre.nodes@[i]);
                        }
                    } else {
                        assert(!pre.has_id(t));
                        assert(*self == pre);
                        if pre.nodes@[i].id == t {
                            assert(pre.has_id(t));
                        }
                    }
                }
            }
            k = k + 1;
        }
        proof {
            assert(targets@.take(targets@.len() as int) =~= targets@);
            assert forall|t2: NodeId, x: NodeId|
                t2@ == sha1_of(key@) && initial_candidate(net0, *start, x) implies
                #[trigger] dominates(t2, targets@, x) by {
                assert(dominates(key_id, targets@, x));
                if !targets@.contains(x) {
                    assert(targets@.len() == K);
                    assert forall|i: int| 0 <= i < targets@.len() implies crate::id::dist_le(
                        t2,
                        targets@[i],
                        x,
                    ) by {
                        assert(crate::id::dist_le(key_id, targets@[i], x));
                        assert(crate::id::dist(t2, targets@[i]) =~= crate::id::dist(
                            key_id,
                            targets@[i],
                        ));
                        assert(crate::id::dist(t2, x) =~= crate::id::dist(key_id, x));
                    }
                }
            }
            assert forall|t2: NodeId| t2@ == sha1_of(key@) implies sorted_by_dist(
                t2,
                targets@,
            ) by {
                assert forall|i: int, j: int|
                    0 <= i < j < targets@.len() implies crate::id::dist_le(
                    t2,
                    targets@[i],
                    targets@[j],
                ) by {
                    assert(crate::id::dist_le(key_id, targets@[i], targets@[j]));
                    assert(crate::id::dist(t2, targets@[i]) =~= crate::id::dist(
                        key_id,
                        targets@[i],
                    ));
                    assert(crate::id::dist(t2, targets@[j]) =~= crate::id::dist(
                        key_id,
                        targets@[j],
                    ));
                }
            }
        }
        targets
    }
}

/// Merge the neighbors a peer returned into the shortlist, skipping
/// identifiers already present, and hand back a copy of the merged list.
fn copy_ids_merged(shortlist: &mut Vec<NodeId>, neighbors: &Vec<NodeId>) -> (r: Vec<NodeId>)
    requires
        old(shortlist)@.no_duplicates(),
    ensures
        final(shortlist)@.no_duplicates(),
        final(shortlist)@.len() >= old(shortlist)@.len(),
        r@ == final(shortlist)@,
        forall|i: int|
            0 <= i < final(shortlist)@.len() ==> old(shortlist)@.contains(
                #[trigger] final(shortlist)@[i],
            ) || neighbors@.contains(final(shortlist)@[i]),
        forall|i: int|
            0 <= i < old(shortlist)@.len() ==> final(shortlist)@[i] == old(shortlist)@[i],
        neighbors@.len() == 0 ==> final(shortlist)@ == old(shortlist)@,
{
    let ghost sl0 = shortlist@;
    let mut mi: usize = 0;
    while mi < neighbors.len()
        invariant
            0 <= mi <= neighbors@.len(),
            shortlist@.no_duplicates(),
            shortlist@.len() >= sl0.len(),
            forall|i: int|
                0 <= i < shortlist@.len() ==> sl0.contains(#[trigger] shortlist@[i])
                    || neighbors@.contains(shortlist@[i]),
            forall|i: int| 0 <= i < sl0.len() ==> shortlist@[i] == sl0[i],
            mi == 0 ==> shortlist@ == sl0,
        decreases neighbors@.len() - mi,
    {
        let m = neighbors[mi];
        if !contains_id(shortlist, &m) {
            proof {
                crate::closest::lemma_push_keeps_no_duplicates(shortlist@, m);
                assert(neighbors@.contains(neighbors@[mi as int]));
            }
            shortlist.push(m);
        }
        mi = mi + 1;
    }
    copy_ids(shortlist)
}

/// Select up to ALPHA not-yet-queried identifiers from the shortlist, in
/// its (ascending-distance) order.
fn select_batch(shortlist: &Vec<NodeId>, queried: &Vec<NodeId>) -> (r: Vec<NodeId>)
    ensures
        r@.len() <= ALPHA,
        forall|i: int| 0 <= i < r@.len() ==> shortlist@.contains(#[trigger] r@[i]),
        (queried@.len() == 0 && shortlist@.len() >= 1 && ALPHA >= 1) ==> r@.len() >= 1 && r@[0]
            == shortlist@[0],
        (queried@.len() == 0 && shortlist@.len() == 1) ==> r@ == seq![shortlist@[0]],
{
    let mut batch: Vec<NodeId> = Vec::new();
    let mut bi: usize = 0;
    while bi < shortlist.len() && batch.len() < ALPHA
        invariant
            0 <= bi <= shortlist@.len(),
            batch@.len() <= ALPHA,
            batch@.len() <= bi,
            forall|i: int| 0 <= i < batch@.len() ==> shortlist@.contains(#[trigger] batch@[i]),
            queried@.len() == 0 && bi >= 1 && ALPHA >= 1 ==> batch@.len() >= 1 && batch@[0]
                == shortlist@[0],
            queried@.len() == 0 ==> batch@.len() >= if bi < ALPHA {
                bi as int
            } else {
                ALPHA as int
            },
        decreases shortlist@.len() - bi,
    {
        let candidate = shortlist[bi];
        proof {
            assert(shortlist@.contains(shortlist@[bi as int]));
        }
        if !contains_id(queried, &candidate) {
            batch.push(candidate);
        }
        bi = bi + 1;
    }
    proof {
        if queried@.len() == 0 && shortlist@.len() == 1 {
            assert(batch@ =~= seq![shortlist@[0]]);
        }
    }
    batch
}

/// A contact a node makes with itself leaves every routing table as it was.
pub proof fn lemma_touch_preserves_tables(pre: Network, post: Network, to: NodeId, from: NodeId)
    requires
        touched_only(pre, post, to, from),
        from == to,
    ensures
        same_tables(pre, post),
{
    assert forall|i: int| 0 <= i < pre.nodes@.len() implies (#[trigger] post.nodes@[i]).peers@
        == pre.nodes@[i].peers@ by {
        if pre.nodes@[i].id == to {
            assert(post.nodes@[i].peers@ == spec_touch(pre.nodes@[i].peers@, to, from));
        }
    }
}

} // verus!

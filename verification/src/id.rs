use vstd::prelude::*;
use core::cmp::Ordering;

verus! {

/// A fixed-width binary identifier addressing a node in the lookup space:
/// 20 bytes, the SHA-1 digest width.
/// Equality is byte-wise; combining two identifiers with XOR yields a
/// distance, itself a 20-byte value ordered as a big-endian unsigned integer
/// (lexicographic byte comparison).
#[derive(Clone, Copy, Debug)]
pub struct NodeId(pub [u8; 20]);

impl View for NodeId {
    type V = Seq<u8>;

    open spec fn view(&self) -> Seq<u8> {
        self.0@
    }
}

/// Two identifiers are equal exactly when their byte sequences are equal.
pub proof fn lemma_id_eq(a: NodeId, b: NodeId)
    ensures
        (a@ == b@) <==> (a == b),
{
    broadcast use vstd::array::axiom_array_ext_equal;

    if a@ == b@ {
        assert(a.0@ =~= b.0@);
        assert(a.0 =~= b.0);
    }
}

impl PartialEq for NodeId {
    fn eq(&self, other: &NodeId) -> (r: bool) {
        let mut i: usize = 0;
        while i < 20
            invariant
                0 <= i <= 20,
                forall|j: int| 0 <= j < i ==> self.0@[j] == other.0@[j],
            decreases 20 - i,
        {
            if self.0[i] != other.0[i] {
                return false;
            }
            i = i + 1;
        }
        proof {
            assert(self.0@ =~= other.0@);
        }
        true
    }
}

impl Eq for NodeId {}

impl vstd::std_specs::cmp::PartialEqSpecImpl for NodeId {
    open spec fn obeys_eq_spec() -> bool {
        true
    }

    open spec fn eq_spec(&self, other: &NodeId) -> bool {
        self.0@ == other.0@
    }
}

/// Pointwise XOR of two equal-length byte sequences: the Kademlia distance.
pub open spec fn xor_bytes(a: Seq<u8>, b: Seq<u8>) -> Seq<u8> {
    Seq::new(a.len(), |i: int| a[i] ^ b[i])
}

/// The distance between two identifiers, as a byte sequence.
pub open spec fn dist(a: NodeId, b: NodeId) -> Seq<u8> {
    xor_bytes(a@, b@)
}

/// A distance is zero when every byte is zero.
pub open spec fn all_zero(d: Seq<u8>) -> bool {
    forall|i: int| 0 <= i < d.len() ==> d[i] == 0u8
}

impl NodeId {
    /// Construct an identifier from a 20-byte array.
    pub fn from_bytes(bytes: [u8; 20]) -> (r: NodeId)
        ensures
            r@ == bytes@,
    {
        NodeId(bytes)
    }

    /// Compute the XOR distance to another identifier, as a big-endian
    /// 20-byte value.
    pub fn xor_distance(&self, other: &NodeId) -> (r: [u8; 20])
        ensures
            r@ == dist(*self, *other),
    {
        let mut out = [0u8; 20];
        let mut i: usize = 0;
        while i < 20
            invariant
                0 <= i <= 20,
                forall|j: int| 0 <= j < i ==> out@[j] == (self.0@[j] ^ other.0@[j]),
            decreases 20 - i,
        {
            out[i] = self.0[i] ^ other.0[i];
            i = i + 1;
        }
        proof {
            assert(out@ =~= dist(*self, *other));
        }
        out
    }
}

/// Relies on rand::thread_rng and rand::Rng::fill: fills a buffer with bytes
/// from the process-wide random source. Nothing is promised of the outcome;
/// callers must cope with every value.
#[verifier::external_body]
fn random_bytes() -> (r: [u8; 20]) {
    let mut rng = rand::thread_rng();
    let mut bytes = [0u8; 20];
    rand::Rng::fill(&mut rng, &mut bytes);
    bytes
}

impl NodeId {
    /// A fresh identifier sampled from the identifier space.
    pub fn random() -> NodeId {
        NodeId(random_bytes())
    }
}

/// Lexicographic comparison of two equal-length byte sequences, i.e. the
/// order of the big-endian unsigned integers they denote.
pub open spec fn lex_cmp(a: Seq<u8>, b: Seq<u8>) -> Ordering
    decreases a.len(),
{
    if a.len() == 0 || b.len() == 0 {
        Ordering::Equal
    } else if a[0] < b[0] {
        Ordering::Less
    } else if a[0] > b[0] {
        Ordering::Greater
    } else {
        lex_cmp(a.drop_first(), b.drop_first())
    }
}

/// Compare two 160-bit distances (big-endian) for ranking candidates.
pub fn compare_distances(a: &[u8; 20], b: &[u8; 20]) -> (r: Ordering)
    ensures
        r == lex_cmp(a@, b@),
{
    let mut i: usize = 0;
    proof {
        assert(a@.skip(0) =~= a@);
        assert(b@.skip(0) =~= b@);
    }
    while i < 20
        invariant
            0 <= i <= 20,
            forall|j: int| 0 <= j < i ==> a@[j] == b@[j],
            lex_cmp(a@, b@) == lex_cmp(a@.skip(i as int), b@.skip(i as int)),
        decreases 20 - i,
    {
        if a[i] < b[i] {
            proof {
                assert(a@.skip(i as int)[0] == a@[i as int]);
                assert(b@.skip(i as int)[0] == b@[i as int]);
            }
            return Ordering::Less;
        } else if a[i] > b[i] {
            proof {
                assert(a@.skip(i as int)[0] == a@[i as int]);
                assert(b@.skip(i as int)[0] == b@[i as int]);
            }
            return Ordering::Greater;
        }
        proof {
            assert(a@.skip(i as int)[0] == a@[i as int]);
            assert(b@.skip(i as int)[0] == b@[i as int]);
            assert(a@.skip(i as int).drop_first() =~= a@.skip(i + 1));
            assert(b@.skip(i as int).drop_first() =~= b@.skip(i + 1));
        }
        i = i + 1;
    }
    proof {
        assert(a@.skip(20) =~= Seq::<u8>::empty());
    }
    Ordering::Equal
}

/// `a` is at most as far as `b`, under the big-endian order on distances.
pub open spec fn lex_le(a: Seq<u8>, b: Seq<u8>) -> bool {
    lex_cmp(a, b) != Ordering::Greater
}

/// `x` is at least as close to `target` as `y` is.
pub open spec fn dist_le(target: NodeId, x: NodeId, y: NodeId) -> bool {
    lex_le(dist(target, x), dist(target, y))
}

/// The sequence is ordered by non-decreasing distance to `target`.
pub open spec fn sorted_by_dist(target: NodeId, s: Seq<NodeId>) -> bool {
    forall|i: int, j: int| 0 <= i < j < s.len() ==> dist_le(target, s[i], s[j])
}

/// Decide whether `x` is at least as close to `target` as `y` is.
pub fn dist_le_exec(target: &NodeId, x: &NodeId, y: &NodeId) -> (r: bool)
    ensures
        r == dist_le(*target, *x, *y),
{
    let dx = target.xor_distance(x);
    let dy = target.xor_distance(y);
    match compare_distances(&dx, &dy) {
        Ordering::Greater => false,
        _ => true,
    }
}

/// Comparing a sequence with itself yields `Equal`.
pub proof fn lemma_lex_cmp_self(a: Seq<u8>)
    ensures
        lex_cmp(a, a) == Ordering::Equal,
    decreases a.len(),
{
    if a.len() > 0 {
        lemma_lex_cmp_self(a.drop_first());
    }
}

/// Equal-length sequences that compare `Equal` are equal.
pub proof fn lemma_lex_cmp_equal_implies_eq(a: Seq<u8>, b: Seq<u8>)
    requires
        a.len() == b.len(),
        lex_cmp(a, b) == Ordering::Equal,
    ensures
        a == b,
    decreases a.len(),
{
    if a.len() > 0 {
        lemma_lex_cmp_equal_implies_eq(a.drop_first(), b.drop_first());
        assert forall|i: int| 0 <= i < a.len() implies a[i] == b[i] by {
            if i > 0 {
                assert(a.drop_first()[i - 1] == b.drop_first()[i - 1]);
            }
        }
        assert(a =~= b);
    } else {
        assert(a =~= b);
    }
}

/// Swapping the arguments swaps `Less` and `Greater`.
pub proof fn lemma_lex_cmp_flip(a: Seq<u8>, b: Seq<u8>)
    ensures
        (lex_cmp(a, b) == Ordering::Less) <==> (lex_cmp(b, a) == Ordering::Greater),
        (lex_cmp(a, b) == Ordering::Equal) <==> (lex_cmp(b, a) == Ordering::Equal),
    decreases a.len(),
{
    if a.len() > 0 && b.len() > 0 && a[0] == b[0] {
        lemma_lex_cmp_flip(a.drop_first(), b.drop_first());
    }
}

/// The order on distances is total: two distances always compare.
pub proof fn lemma_lex_le_total(a: Seq<u8>, b: Seq<u8>)
    ensures
        lex_le(a, b) || lex_le(b, a),
{
    lemma_lex_cmp_flip(a, b);
    lemma_lex_cmp_flip(b, a);
}

/// The order on equal-length distances is transitive.
pub proof fn lemma_lex_le_trans(a: Seq<u8>, b: Seq<u8>, c: Seq<u8>)
    requires
        a.len() == b.len(),
        b.len() == c.len(),
        lex_le(a, b),
        lex_le(b, c),
    ensures
        lex_le(a, c),
    decreases a.len(),
{
    if a.len() > 0 {
        if a[0] == b[0] && b[0] == c[0] {
            lemma_lex_le_trans(a.drop_first(), b.drop_first(), c.drop_first());
        }
    }
}

/// Distances to a common target separate identifiers: equal distances can
/// only come from the same identifier (XOR is cancellative).
pub proof fn lemma_equal_distance_same_id(target: NodeId, a: NodeId, b: NodeId)
    requires
        dist(target, a) == dist(target, b),
    ensures
        a == b,
{
    assert forall|i: int| 0 <= i < 20 implies a@[i] == b@[i] by {
        let t = target@[i];
        let x = a@[i];
        let y = b@[i];
        assert(dist(target, a)[i] == (t ^ x));
        assert(dist(target, b)[i] == (t ^ y));
        assert(t ^ x == t ^ y ==> x == y) by (bit_vector);
    }
    assert(a@ =~= b@);
    lemma_id_eq(a, b);
}

/// Closeness to a common target is a total order on identifiers; ties occur
/// only between equal identifiers.
pub proof fn lemma_dist_le_antisymmetric(target: NodeId, a: NodeId, b: NodeId)
    requires
        dist_le(target, a, b),
        dist_le(target, b, a),
    ensures
        a == b,
{
    lemma_lex_cmp_flip(dist(target, a), dist(target, b));
    lemma_lex_cmp_equal_implies_eq(dist(target, a), dist(target, b));
    lemma_equal_distance_same_id(target, a, b);
}

/// An identifier's distance to itself is the all-zero distance.
pub proof fn lemma_distance_self_is_zero(a: NodeId)
    ensures
        all_zero(dist(a, a)),
{
    assert forall|i: int| 0 <= i < dist(a, a).len() implies dist(a, a)[i] == 0u8 by {
        let x = a@[i];
        assert(x ^ x == 0u8) by (bit_vector);
    }
}

/// The XOR distance is commutative.
pub proof fn lemma_distance_symmetric(a: NodeId, b: NodeId)
    ensures
        dist(a, b) == dist(b, a),
{
    assert forall|i: int| 0 <= i < a@.len() implies a@[i] ^ b@[i] == b@[i] ^ a@[i] by {
        let x = a@[i];
        let y = b@[i];
        assert(x ^ y == y ^ x) by (bit_vector);
    }
    assert(dist(a, b) =~= dist(b, a));
}

} // verus!

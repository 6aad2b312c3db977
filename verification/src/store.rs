use vstd::prelude::*;

verus! {

/// Compare two byte strings.
pub fn bytes_eq(a: &[u8], b: &[u8]) -> (r: bool)
    ensures
        r == (a@ == b@),
{
    if a.len() != b.len() {
        return false;
    }
    let mut i: usize = 0;
    while i < a.len()
        invariant
            0 <= i <= a@.len(),
            a@.len() == b@.len(),
            forall|j: int| 0 <= j < i ==> a@[j] == b@[j],
        decreases a@.len() - i,
    {
        if a[i] != b[i] {
            return false;
        }
        i = i + 1;
    }
    proof {
        assert(a@ =~= b@);
    }
    true
}

/// Copy a byte string into an owned vector.
pub fn bytes_to_vec(a: &[u8]) -> (r: Vec<u8>)
    ensures
        r@ == a@,
{
    let mut out: Vec<u8> = Vec::new();
    let mut i: usize = 0;
    while i < a.len()
        invariant
            0 <= i <= a@.len(),
            out@ == a@.take(i as int),
        decreases a@.len() - i,
    {
        out.push(a[i]);
        proof {
            assert(a@.take(i as int).push(a@[i as int]) =~= a@.take(i + 1));
        }
        i = i + 1;
    }
    proof {
        assert(a@.take(a@.len() as int) =~= a@);
    }
    out
}

/// The binding a list of entries gives a key: the value of the latest entry
/// whose key matches, if any.
pub open spec fn assoc_get(s: Seq<(Seq<u8>, Seq<u8>)>, k: Seq<u8>) -> Option<Seq<u8>>
    decreases s.len(),
{
    if s.len() == 0 {
        None
    } else if s.last().0 == k {
        Some(s.last().1)
    } else {
        assoc_get(s.drop_last(), k)
    }
}

/// A node-local key/value store mapping opaque byte keys to byte values.
/// Bindings are kept in arrival order and the latest binding for a key wins,
/// so a put overwrites whatever an earlier put left behind.
pub struct Store {
    entries: Vec<(Vec<u8>, Vec<u8>)>,
}

impl View for Store {
    type V = Seq<(Seq<u8>, Seq<u8>)>;

    closed spec fn view(&self) -> Seq<(Seq<u8>, Seq<u8>)> {
        Seq::new(
            self.entries@.len(),
            |i: int| (self.entries@[i].0@, self.entries@[i].1@),
        )
    }
}

impl Store {
    /// The value stored under a key, as contracts speak of it.
    pub open spec fn spec_get(&self, k: Seq<u8>) -> Option<Seq<u8>> {
        assoc_get(self@, k)
    }

    /// An empty store: no key has a value.
    pub fn new() -> (r: Store)
        ensures
            r@.len() == 0,
            forall|k: Seq<u8>| r.spec_get(k) is None,
    {
        Store { entries: Vec::new() }
    }

    /// Bind `key` to `value`, overwriting any earlier binding; every other
    /// key keeps its value.
    pub fn put(&mut self, key: Vec<u8>, value: Vec<u8>)
        ensures
            final(self).spec_get(key@) == Some(value@),
            forall|k: Seq<u8>| k != key@ ==> final(self).spec_get(k) == old(self).spec_get(k),
    {
        let ghost old_view = self@;
        let ghost kview = key@;
        let ghost vview = value@;
        self.entries.push((key, value));
        proof {
            assert(self@ =~= old_view.push((kview, vview)));
            assert(self@.drop_last() =~= old_view);
        }
    }

    /// Look a key up; returns a copy of the stored value, or nothing.
    pub fn get(&self, key: &[u8]) -> (r: Option<Vec<u8>>)
        ensures
            match r {
                Some(v) => self.spec_get(key@) == Some(v@),
                None => self.spec_get(key@) is None,
            },
    {
        let mut i: usize = self.entries.len();
        proof {
            assert(self@.take(i as int) =~= self@);
        }
        while i > 0
            invariant
                0 <= i <= self@.len(),
                self@.len() == self.entries@.len(),
                self.spec_get(key@) == assoc_get(self@.take(i as int), key@),
            decreases i,
        {
            i = i - 1;
            let e = &self.entries[i];
            let hit = bytes_eq(e.0.as_slice(), key);
            proof {
                assert(self@.take(i + 1).last() == (self.entries@[i as int].0@,
                    self.entries@[i as int].1@));
                assert(self@.take(i + 1).drop_last() =~= self@.take(i as int));
            }
            if hit {
                return Some(bytes_to_vec(e.1.as_slice()));
            }
        }
        proof {
            assert(self@.take(0) =~= Seq::<(Seq<u8>, Seq<u8>)>::empty());
        }
        None
    }
}

/// Law: storing a key/value pair and then looking the same key up on the
/// same store yields exactly the stored value.
pub proof fn lemma_store_get_round_trip(s: Seq<(Seq<u8>, Seq<u8>)>, k: Seq<u8>, v: Seq<u8>)
    ensures
        assoc_get(s.push((k, v)), k) == Some(v),
{
    assert(s.push((k, v)).last() == (k, v));
}

} // verus!

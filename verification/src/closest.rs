use vstd::prelude::*;
use crate::id::NodeId;
use crate::id::{dist, dist_le, sorted_by_dist};
use crate::id::{
    lemma_dist_le_antisymmetric, lemma_id_eq, lemma_lex_cmp_self, lemma_lex_le_total,
    lemma_lex_le_trans,
};
use crate::id::dist_le_exec;

verus! {

/// Whether the vector holds the given identifier.
pub fn contains_id(v: &Vec<NodeId>, id: &NodeId) -> (r: bool)
    ensures
        r == v@.contains(*id),
{
    let mut i: usize = 0;
    while i < v.len()
        invariant
            0 <= i <= v@.len(),
            forall|j: int| 0 <= j < i ==> v@[j] != *id,
        decreases v@.len() - i,
    {
        let same = v[i] == *id;
        proof {
            lemma_id_eq(v@[i as int], *id);
        }
        if same {
            return true;
        }
        i = i + 1;
    }
    false
}

/// The position of the given identifier in the vector, if present.
pub fn position_of(v: &Vec<NodeId>, id: &NodeId) -> (r: Option<usize>)
    ensures
        match r {
            Some(i) => i < v@.len() && v@[i as int] == *id,
            None => !v@.contains(*id),
        },
{
    let mut i: usize = 0;
    while i < v.len()
        invariant
            0 <= i <= v@.len(),
            forall|j: int| 0 <= j < i ==> v@[j] != *id,
        decreases v@.len() - i,
    {
        let same = v[i] == *id;
        proof {
            lemma_id_eq(v@[i as int], *id);
        }
        if same {
            return Some(i);
        }
        i = i + 1;
    }
    None
}

/// Copy a list of identifiers.
pub fn copy_ids(v: &Vec<NodeId>) -> (r: Vec<NodeId>)
    ensures
        r@ == v@,
{
    let mut out: Vec<NodeId> = Vec::new();
    let mut i: usize = 0;
    proof {
        assert(out@ =~= v@.take(0));
    }
    while i < v.len()
        invariant
            0 <= i <= v@.len(),
            out@ == v@.take(i as int),
        decreases v@.len() - i,
    {
        out.push(v[i]);
        proof {
            assert(v@.take(i as int).push(v@[i as int]) =~= v@.take(i + 1));
        }
        i = i + 1;
    }
    proof {
        assert(v@.take(v@.len() as int) =~= v@);
    }
    out
}

/// Whether two lists hold the same identifiers in the same order.
pub fn vecs_eq(a: &Vec<NodeId>, b: &Vec<NodeId>) -> (r: bool)
    ensures
        r == (a@ == b@),
{
    if a.len() != b.len() {
        return false;
    }
    let mut i: usize = 0;
    while i < a.len()
        invariant
            0 <= i <= a@.len(),
            a@.len() == b@.len(),
            forall|j: int| 0 <= j < i ==> a@[j] == b@[j],
        decreases a@.len() - i,
    {
        let same = a[i] == b[i];
        proof {
            lemma_id_eq(a@[i as int], b@[i as int]);
        }
        if !same {
            return false;
        }
        i = i + 1;
    }
    proof {
        assert(a@ =~= b@);
    }
    true
}

/// What a list holds after an append: the appended identifier, and whatever
/// it held before.
pub proof fn lemma_push_contains(s: Seq<NodeId>, t: NodeId, x: NodeId)
    ensures
        s.push(t).contains(x) <==> (x == t || s.contains(x)),
{
    if s.push(t).contains(x) {
        let j = choose|j: int| 0 <= j < s.push(t).len() && s.push(t)[j] == x;
        if j < s.len() {
            assert(s[j] == x);
        }
    }
    if s.contains(x) {
        let j = choose|j: int| 0 <= j < s.len() && s[j] == x;
        assert(s.push(t)[j] == x);
    }
    if x == t {
        assert(s.push(t)[s.len() as int] == x);
    }
}

/// Appending an identifier a list does not hold keeps the list free of
/// duplicates.
pub proof fn lemma_push_keeps_no_duplicates(s: Seq<NodeId>, x: NodeId)
    requires
        s.no_duplicates(),
        !s.contains(x),
    ensures
        s.push(x).no_duplicates(),
{
    assert forall|i: int, j: int|
        0 <= i < s.push(x).len() && 0 <= j < s.push(x).len() && i != j implies s.push(x)[i]
        != s.push(x)[j] by {
        if i < s.len() && j < s.len() {
        } else if j == s.len() {
            assert(s.contains(s[i]));
        } else {
            assert(s.contains(s[j]));
        }
    }
}

/// Inserting an element anywhere adds exactly that element to the multiset.
pub proof fn lemma_insert_to_multiset(s: Seq<NodeId>, i: int, a: NodeId)
    requires
        0 <= i <= s.len(),
    ensures
        s.insert(i, a).to_multiset() == s.to_multiset().insert(a),
{
    broadcast use vstd::seq_lib::group_to_multiset_ensures;
    broadcast use vstd::multiset::group_multiset_axioms;

    let pre = s.subrange(0, i);
    let post = s.subrange(i, s.len() as int);
    assert(s.insert(i, a) == pre.push(a) + post);
    vstd::seq_lib::lemma_multiset_commutative(pre.push(a), post);
    assert(s =~= pre + post);
    vstd::seq_lib::lemma_multiset_commutative(pre, post);
    assert(s.insert(i, a).to_multiset() =~= s.to_multiset().insert(a));
}

/// Sort candidates by ascending distance to `target`: the result is a
/// permutation of the input, ordered by the XOR metric.
pub fn sort_by_distance(target: &NodeId, v: &Vec<NodeId>) -> (r: Vec<NodeId>)
    ensures
        r@.len() == v@.len(),
        sorted_by_dist(*target, r@),
        r@.to_multiset() == v@.to_multiset(),
{
    let mut out: Vec<NodeId> = Vec::new();
    let mut i: usize = 0;
    proof {
        broadcast use vstd::seq_lib::group_to_multiset_ensures;

        assert(v@.take(0) =~= Seq::<NodeId>::empty());
        assert(out@.to_multiset() =~= v@.take(0).to_multiset());
    }
    while i < v.len()
        invariant
            0 <= i <= v@.len(),
            out@.len() == i,
            sorted_by_dist(*target, out@),
            out@.to_multiset() == v@.take(i as int).to_multiset(),
        decreases v@.len() - i,
    {
        let x = v[i];
        let mut j: usize = 0;
        while j < out.len() && dist_le_exec(target, &out[j], &x)
            invariant
                0 <= j <= out@.len(),
                forall|m: int| 0 <= m < j ==> dist_le(*target, out@[m], x),
                sorted_by_dist(*target, out@),
            decreases out@.len() - j,
        {
            j = j + 1;
        }
        proof {
            if j < out@.len() {
                lemma_lex_le_total(dist(*target, out@[j as int]), dist(*target, x));
                assert forall|m: int| j <= m < out@.len() implies dist_le(*target, x, out@[m]) by {
                    if m > j {
                        assert(dist_le(*target, out@[j as int], out@[m]));
                        lemma_lex_le_trans(
                            dist(*target, x),
                            dist(*target, out@[j as int]),
                            dist(*target, out@[m]),
                        );
                    }
                }
            }
            lemma_insert_to_multiset(out@, j as int, x);
            out@.insert_ensures(j as int, x);
        }
        let ghost prev = out@;
        out.insert(j, x);
        proof {
            broadcast use vstd::seq_lib::group_to_multiset_ensures;

            assert forall|p: int, q: int| 0 <= p < q < out@.len() implies dist_le(
                *target,
                out@[p],
                out@[q],
            ) by {
                if q < j {
                    assert(out@[p] == prev[p] && out@[q] == prev[q]);
                } else if p < j && q == j {
                    assert(out@[p] == prev[p] && out@[q] == x);
                } else if p < j && q > j {
                    assert(out@[p] == prev[p] && out@[q] == prev[q - 1]);
                    if q - 1 == j {
                        // prev[j] is at least as far as x only when x stops the scan;
                        // here q - 1 >= j, and the scan facts cover both sides
                        assert(dist_le(*target, prev[p], prev[q - 1]));
                    }
                } else if p == j {
                    assert(out@[p] == x && out@[q] == prev[q - 1]);
                } else {
                    assert(out@[p] == prev[p - 1] && out@[q] == prev[q - 1]);
                }
            }
            assert(v@.take(i + 1).drop_last() =~= v@.take(i as int));
            assert(v@.take(i + 1).last() == x);
            assert(v@.take(i as int).push(x) =~= v@.take(i + 1));
        }
        i = i + 1;
    }
    proof {
        assert(v@.take(v@.len() as int) =~= v@);
    }
    out
}

/// Up to `limit` of the candidates closest to `target`, sorted by ascending
/// distance. Every returned entry comes from the candidates, and every
/// candidate occurrence left out is at least as far from the target as every
/// returned entry.
pub fn closest(target: &NodeId, candidates: &Vec<NodeId>, limit: usize) -> (r: Vec<NodeId>)
    ensures
        r@.len() == if limit <= candidates@.len() {
            limit as int
        } else {
            candidates@.len() as int
        },
        sorted_by_dist(*target, r@),
        forall|x: NodeId| #[trigger]
            r@.to_multiset().count(x) <= candidates@.to_multiset().count(x),
        forall|x: NodeId|
            candidates@.to_multiset().count(x) > #[trigger] r@.to_multiset().count(x)
                ==> forall|i: int| 0 <= i < r@.len() ==> dist_le(*target, r@[i], x),
        forall|i: int| 0 <= i < r@.len() ==> candidates@.contains(#[trigger] r@[i]),
        candidates@.no_duplicates() ==> r@.no_duplicates(),
        forall|x: NodeId| #[trigger]
            candidates@.contains(x) ==> r@.contains(x) || (r@.len() == limit && forall|i: int|
                0 <= i < r@.len() ==> dist_le(*target, r@[i], x)),
{
    let mut s = sort_by_distance(target, candidates);
    let n: usize = if limit < s.len() {
        limit
    } else {
        s.len()
    };
    let ghost full = s@;
    s.truncate(n);
    proof {
        broadcast use vstd::seq_lib::group_to_multiset_ensures;
        broadcast use vstd::multiset::group_multiset_axioms;

        assert(s@ =~= full.take(n as int));
        assert(full =~= full.take(n as int) + full.skip(n as int));
        vstd::seq_lib::lemma_multiset_commutative(full.take(n as int), full.skip(n as int));
        let sk = full.skip(n as int);
        assert forall|x: NodeId|
            candidates@.to_multiset().count(x) > #[trigger] s@.to_multiset().count(x) implies (
        forall|i: int| 0 <= i < s@.len() ==> dist_le(*target, s@[i], x)) by {
            assert(sk.to_multiset().count(x) > 0);
            assert(sk.contains(x));
            let jj = choose|jj: int| 0 <= jj < sk.len() && sk[jj] == x;
            assert(full[n + jj] == x);
            assert forall|i: int| 0 <= i < s@.len() implies dist_le(*target, s@[i], x) by {
                assert(dist_le(*target, full[i], full[n + jj]));
            }
        }
        assert forall|i: int| 0 <= i < s@.len() implies candidates@.contains(#[trigger] s@[i]) by {
            assert(s@.contains(s@[i]));
            assert(s@.to_multiset().count(s@[i]) > 0);
            assert(candidates@.to_multiset().count(s@[i]) > 0);
        }
        assert forall|x: NodeId| #[trigger] candidates@.contains(x) implies s@.contains(x) || (
        s@.len() == limit && forall|i: int|
            0 <= i < s@.len() ==> dist_le(*target, s@[i], x)) by {
            assert(candidates@.to_multiset().count(x) > 0);
            assert(full.to_multiset().count(x) > 0);
            assert(full.contains(x));
            let j = choose|j: int| 0 <= j < full.len() && full[j] == x;
            if j < n {
                assert(s@[j] == x);
                assert(s@.contains(x));
            } else {
                assert(n < full.len());
                assert(s@.len() == limit);
                assert forall|i: int| 0 <= i < s@.len() implies dist_le(*target, s@[i], x) by {
                    assert(dist_le(*target, full[i], full[j]));
                }
            }
        }
        if candidates@.no_duplicates() {
            candidates@.lemma_multiset_has_no_duplicates();
            assert forall|x: NodeId| s@.to_multiset().contains(x) implies s@.to_multiset().count(
                x,
            ) == 1 by {
                assert(candidates@.to_multiset().contains(x));
            }
            s@.lemma_multiset_has_no_duplicates_conv();
        }
    }
    s
}

/// Between duplicate-free lists of equal length, holding every identifier of
/// the other is mutual.
pub proof fn lemma_equal_len_value_subset(a: Seq<NodeId>, b: Seq<NodeId>)
    requires
        a.no_duplicates(),
        b.no_duplicates(),
        a.len() == b.len(),
        forall|y: NodeId| a.contains(y) ==> b.contains(y),
    ensures
        forall|y: NodeId| b.contains(y) ==> a.contains(y),
{
    broadcast use vstd::set::group_set_axioms;

    a.unique_seq_to_set();
    b.unique_seq_to_set();
    assert forall|y: NodeId| b.contains(y) implies a.contains(y) by {
        if !a.contains(y) {
            assert(a.to_set().subset_of(b.to_set().remove(y)));
            vstd::set_lib::lemma_len_subset(a.to_set(), b.to_set().remove(y));
            assert(b.to_set().remove(y).len() == b.to_set().len() - 1);
        }
    }
}

/// A full selection that keeps every entry at least as close to the target
/// as `x` stays that way after more candidates are merged and the closest K
/// are selected again: whatever displaces an entry is closer still.
pub proof fn lemma_domination_preserved(
    target: NodeId,
    sl: Seq<NodeId>,
    merged: Seq<NodeId>,
    r: Seq<NodeId>,
    x: NodeId,
)
    requires
        sl.no_duplicates(),
        sl.len() == crate::K,
        forall|i: int| 0 <= i < sl.len() ==> dist_le(target, sl[i], x),
        merged.len() >= sl.len(),
        forall|i: int| 0 <= i < sl.len() ==> merged[i] == sl[i],
        r.len() == crate::K,
        r.no_duplicates(),
        forall|y: NodeId| #[trigger] r.to_multiset().count(y) <= merged.to_multiset().count(y),
        forall|y: NodeId|
            merged.to_multiset().count(y) > #[trigger] r.to_multiset().count(y) ==> forall|i: int|
                0 <= i < r.len() ==> dist_le(target, r[i], y),
    ensures
        forall|i: int| 0 <= i < r.len() ==> dist_le(target, r[i], x),
{
    broadcast use vstd::seq_lib::group_to_multiset_ensures;
    broadcast use vstd::multiset::group_multiset_axioms;

    assert(merged.take(sl.len() as int) =~= sl);
    assert(merged =~= merged.take(sl.len() as int) + merged.skip(sl.len() as int));
    vstd::seq_lib::lemma_multiset_commutative(
        merged.take(sl.len() as int),
        merged.skip(sl.len() as int),
    );
    sl.lemma_multiset_has_no_duplicates();
    if exists|y: NodeId|
        sl.contains(y) && merged.to_multiset().count(y) > #[trigger] r.to_multiset().count(y) {
        let y0 = choose|y: NodeId|
            sl.contains(y) && merged.to_multiset().count(y) > #[trigger] r.to_multiset().count(
                y,
            );
        let j0 = choose|j: int| 0 <= j < sl.len() && sl[j] == y0;
        assert forall|i: int| 0 <= i < r.len() implies dist_le(target, r[i], x) by {
            assert(dist_le(target, r[i], y0));
            assert(dist_le(target, sl[j0], x));
            lemma_lex_le_trans(dist(target, r[i]), dist(target, y0), dist(target, x));
        }
    } else {
        assert forall|y: NodeId| sl.contains(y) implies r.contains(y) by {
            assert(sl.to_multiset().count(y) > 0);
            assert(merged.to_multiset().count(y) >= sl.to_multiset().count(y));
            assert(r.to_multiset().count(y) >= merged.to_multiset().count(y));
            assert(r.to_multiset().count(y) > 0);
        }
        lemma_equal_len_value_subset(sl, r);
        assert forall|i: int| 0 <= i < r.len() implies dist_le(target, r[i], x) by {
            assert(r.contains(r[i]));
            assert(sl.contains(r[i]));
            let j = choose|j: int| 0 <= j < sl.len() && sl[j] == r[i];
            assert(dist_le(target, sl[j], x));
        }
    }
}

/// Two sequences sorted by distance to a common target and holding the same
/// elements are equal: the sorted order is uniquely determined, because ties
/// in the XOR metric occur only between equal identifiers.
pub proof fn lemma_sorted_by_dist_unique(target: NodeId, s1: Seq<NodeId>, s2: Seq<NodeId>)
    requires
        sorted_by_dist(target, s1),
        sorted_by_dist(target, s2),
        s1.to_multiset() == s2.to_multiset(),
    ensures
        s1 == s2,
    decreases s1.len(),
{
    broadcast use vstd::seq_lib::group_to_multiset_ensures;
    broadcast use vstd::multiset::group_multiset_axioms;

    assert(s1.to_multiset().len() == s1.len());
    assert(s2.to_multiset().len() == s2.len());
    if s1.len() == 0 {
        assert(s1 =~= s2);
    } else {
        assert(s2.len() == s1.len());
        let a = s1[0];
        let b = s2[0];
        assert(s1.contains(a));
        assert(s2.to_multiset().count(a) > 0);
        assert(s2.contains(a));
        let ja = choose|j: int| 0 <= j < s2.len() && s2[j] == a;
        assert(s1.to_multiset().count(b) > 0);
        assert(s1.contains(b));
        let ib = choose|i: int| 0 <= i < s1.len() && s1[i] == b;
        if ja > 0 {
            assert(dist_le(target, b, a));
        } else {
            lemma_lex_cmp_self(dist(target, a));
            assert(dist_le(target, b, a));
        }
        if ib > 0 {
            assert(dist_le(target, a, b));
        } else {
            lemma_lex_cmp_self(dist(target, a));
            assert(dist_le(target, a, b));
        }
        lemma_dist_le_antisymmetric(target, a, b);
        assert(s1.remove(0).to_multiset() =~= s1.to_multiset().remove(a));
        assert(s2.remove(0).to_multiset() =~= s2.to_multiset().remove(a));
        assert(s1.remove(0) =~= s1.drop_first());
        assert(s2.remove(0) =~= s2.drop_first());
        assert forall|i: int, j: int|
            0 <= i < j < s1.drop_first().len() implies dist_le(
            target,
            s1.drop_first()[i],
            s1.drop_first()[j],
        ) by {
            assert(dist_le(target, s1[i + 1], s1[j + 1]));
        }
        assert forall|i: int, j: int|
            0 <= i < j < s2.drop_first().len() implies dist_le(
            target,
            s2.drop_first()[i],
            s2.drop_first()[j],
        ) by {
            assert(dist_le(target, s2[i + 1], s2[j + 1]));
        }
        lemma_sorted_by_dist_unique(target, s1.drop_first(), s2.drop_first());
        assert forall|i: int| 0 <= i < s1.len() implies s1[i] == s2[i] by {
            if i > 0 {
                assert(s1.drop_first()[i - 1] == s2.drop_first()[i - 1]);
            }
        }
        assert(s1 =~= s2);
    }
}

} // verus!

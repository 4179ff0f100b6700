//! Spec-level vocabulary for the contents of an ordered tree: sequences of
//! `(key, value)` entries, sortedness by key, key membership, and the
//! position at which the duplicates-go-right policy places a new entry.

use vstd::prelude::*;

verus! {

/// The keys of `s` appear in non-decreasing order.
pub open spec fn sorted_by_key<V>(s: Seq<(u64, V)>) -> bool {
    forall|i: int, j: int| 0 <= i <= j < s.len() ==> (#[trigger] s[i]).0 <= (#[trigger] s[j]).0
}

/// Some entry of `s` has key `k`.
pub open spec fn has_key<V>(s: Seq<(u64, V)>, k: u64) -> bool {
    exists|i: int| 0 <= i < s.len() && (#[trigger] s[i]).0 == k
}

/// Number of entries of `s` whose key is at most `k`.
pub open spec fn count_le<V>(s: Seq<(u64, V)>, k: u64) -> int
    decreases s.len(),
{
    if s.len() == 0 {
        0
    } else {
        count_le(s.drop_last(), k) + if s.last().0 <= k {
            1int
        } else {
            0int
        }
    }
}

/// `s` with a new entry `(k, d)` placed at the index given by the number of
/// entries whose key is at most `k`. On a sorted sequence that puts the new
/// entry after every entry with a key at most `k` and before all others: the
/// position reached by descending a search tree that routes equal keys
/// rightward, so a duplicate key lands directly after the entries that
/// already carry it.
pub open spec fn inserted<V>(s: Seq<(u64, V)>, k: u64, d: V) -> Seq<(u64, V)> {
    s.take(count_le(s, k)) + seq![(k, d)] + s.skip(count_le(s, k))
}

pub proof fn lemma_count_le_bounds<V>(s: Seq<(u64, V)>, k: u64)
    ensures
        0 <= count_le(s, k) <= s.len(),
    decreases s.len(),
{
    if s.len() > 0 {
        lemma_count_le_bounds(s.drop_last(), k);
    }
}

pub proof fn lemma_count_le_singleton<V>(e: (u64, V), k: u64)
    ensures
        count_le(seq![e], k) == if e.0 <= k {
            1int
        } else {
            0int
        },
{
    assert(seq![e].drop_last() =~= Seq::<(u64, V)>::empty());
    assert(count_le(Seq::<(u64, V)>::empty(), k) == 0);
    assert(seq![e].last() == e);
}

pub proof fn lemma_count_le_concat<V>(a: Seq<(u64, V)>, b: Seq<(u64, V)>, k: u64)
    ensures
        count_le(a + b, k) == count_le(a, k) + count_le(b, k),
    decreases b.len(),
{
    if b.len() == 0 {
        assert(a + b =~= a);
    } else {
        lemma_count_le_concat(a, b.drop_last(), k);
        assert((a + b).drop_last() =~= a + b.drop_last());
        assert((a + b).last() == b.last());
    }
}

/// When every key of `s` exceeds `k`, no entry counts.
pub proof fn lemma_count_le_none<V>(s: Seq<(u64, V)>, k: u64)
    requires
        forall|i: int| 0 <= i < s.len() ==> (#[trigger] s[i]).0 > k,
    ensures
        count_le(s, k) == 0,
    decreases s.len(),
{
    if s.len() > 0 {
        lemma_count_le_none(s.drop_last(), k);
    }
}

/// When every key of `s` is at most `k`, every entry counts.
pub proof fn lemma_count_le_all<V>(s: Seq<(u64, V)>, k: u64)
    requires
        forall|i: int| 0 <= i < s.len() ==> (#[trigger] s[i]).0 <= k,
    ensures
        count_le(s, k) == s.len(),
    decreases s.len(),
{
    if s.len() > 0 {
        lemma_count_le_all(s.drop_last(), k);
    }
}

/// Shape of `inserted`: entries below the insertion point keep their index,
/// the new entry sits at the insertion point, and the rest shift up by one.
pub proof fn lemma_inserted_index<V>(s: Seq<(u64, V)>, k: u64, d: V)
    ensures
        ({
            let c = count_le(s, k);
            let t = inserted(s, k, d);
            &&& 0 <= c <= s.len()
            &&& t.len() == s.len() + 1
            &&& forall|i: int| 0 <= i < c ==> #[trigger] t[i] == s[i]
            &&& t[c] == (k, d)
            &&& forall|i: int| c < i <= s.len() ==> #[trigger] t[i] == s[i - 1]
        }),
{
    lemma_count_le_bounds(s, k);
    let c = count_le(s, k);
    let t = inserted(s, k, d);
    assert forall|i: int| 0 <= i < c implies #[trigger] t[i] == s[i] by {
        assert(t[i] == (s.take(c) + seq![(k, d)])[i]);
        assert(t[i] == s.take(c)[i]);
    }
    assert(t[c] == (s.take(c) + seq![(k, d)])[c]);
    assert forall|i: int| c < i <= s.len() implies #[trigger] t[i] == s[i - 1] by {
        assert(t[i] == s.skip(c)[i - (c + 1)]);
    }
}

/// The keys present after an insertion are the new key together with
/// exactly the keys present before: a key just inserted is always found,
/// and a key never inserted is never conjured up.
pub proof fn lemma_inserted_has_key<V>(s: Seq<(u64, V)>, k: u64, d: V, q: u64)
    ensures
        has_key(inserted(s, k, d), q) <==> (q == k || has_key(s, q)),
{
    lemma_inserted_index(s, k, d);
    let c = count_le(s, k);
    let t = inserted(s, k, d);
    if has_key(t, q) {
        let i = choose|i: int| 0 <= i < t.len() && (#[trigger] t[i]).0 == q;
        if i < c {
            assert(s[i].0 == q);
        } else if i == c {
            assert(q == k);
        } else {
            assert(s[i - 1].0 == q);
        }
    }
    if q == k {
        assert(t[c].0 == q);
    }
    if has_key(s, q) {
        let j = choose|j: int| 0 <= j < s.len() && (#[trigger] s[j]).0 == q;
        if j < c {
            assert(t[j].0 == q);
        } else {
            assert(t[j + 1].0 == q);
        }
    }
}

/// Inserting the same key twice places the two entries side by side, the
/// earlier insertion immediately before the later one.
pub proof fn lemma_duplicate_insert<V>(s: Seq<(u64, V)>, k: u64, d1: V, d2: V)
    ensures
        ({
            let once = inserted(s, k, d1);
            let twice = inserted(once, k, d2);
            let c = count_le(s, k);
            &&& twice[c] == (k, d1)
            &&& twice[c + 1] == (k, d2)
        }),
{
    lemma_inserted_index(s, k, d1);
    let c = count_le(s, k);
    let once = inserted(s, k, d1);
    lemma_count_le_concat(s.take(c) + seq![(k, d1)], s.skip(c), k);
    lemma_count_le_concat(s.take(c), seq![(k, d1)], k);
    lemma_count_le_singleton((k, d1), k);
    lemma_count_le_concat(s.take(c), s.skip(c), k);
    assert(s.take(c) + s.skip(c) =~= s);
    assert(count_le(once, k) == c + 1);
    lemma_inserted_index(once, k, d2);
}

} // verus!

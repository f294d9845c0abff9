//! Sequences: where a value occurs in one, and what is kept of one when
//! some of its elements are selected.

use vstd::prelude::*;

verus! {

/// Index of the first occurrence of `k` in `s`; the length of `s` when `k`
/// does not occur.
pub open spec fn position<K>(s: Seq<K>, k: K) -> int
    decreases s.len(),
{
    if s.len() == 0 {
        0
    } else if s[0] == k {
        0
    } else {
        1 + position(s.drop_first(), k)
    }
}

/// Whether `k` occurs in `s`.
pub open spec fn occurs<K>(s: Seq<K>, k: K) -> bool {
    position(s, k) < s.len()
}

/// Whether no value occurs twice in `s`.
pub open spec fn distinct<K>(s: Seq<K>) -> bool {
    forall|i: int, j: int| 0 <= i < j < s.len() ==> s[i] != s[j]
}

/// `position` points at an occurrence, and nothing occurs before it.
pub proof fn lemma_position<K>(s: Seq<K>, k: K)
    ensures
        0 <= position(s, k) <= s.len(),
        position(s, k) < s.len() ==> s[position(s, k)] == k,
        forall|j: int| 0 <= j < position(s, k) ==> s[j] != k,
    decreases s.len(),
{
    if s.len() > 0 && s[0] != k {
        let t = s.drop_first();
        lemma_position(t, k);
        assert forall|j: int| 0 <= j < position(s, k) implies s[j] != k by {
            if j > 0 {
                assert(t[j - 1] == s[j]);
            }
        }
    }
}

/// An index with the properties of `position` is that index.
pub proof fn lemma_position_unique<K>(s: Seq<K>, k: K, i: int)
    requires
        0 <= i <= s.len(),
        i < s.len() ==> s[i] == k,
        forall|j: int| 0 <= j < i ==> s[j] != k,
    ensures
        position(s, k) == i,
    decreases s.len(),
{
    if s.len() > 0 && s[0] != k {
        let t = s.drop_first();
        assert forall|j: int| 0 <= j < i - 1 implies t[j] != k by {
            assert(t[j] == s[j + 1]);
        }
        lemma_position_unique(t, k, i - 1);
    }
}

/// The elements of `s` at the indices where `keep` holds `true`, in order.
/// `keep` has one entry for each element of `s`.
pub open spec fn kept<T>(s: Seq<T>, keep: Seq<bool>) -> Seq<T>
    decreases s.len(),
{
    if s.len() == 0 || keep.len() != s.len() {
        Seq::empty()
    } else if keep.last() {
        kept(s.drop_last(), keep.drop_last()).push(s.last())
    } else {
        kept(s.drop_last(), keep.drop_last())
    }
}

/// Index in `s` of the element that `kept(s, keep)` holds at index `k`.
pub open spec fn kept_source<T>(s: Seq<T>, keep: Seq<bool>, k: int) -> int
    decreases s.len(),
{
    if s.len() == 0 || keep.len() != s.len() {
        0
    } else if keep.last() && k == kept(s.drop_last(), keep.drop_last()).len() {
        s.len() - 1
    } else {
        kept_source(s.drop_last(), keep.drop_last(), k)
    }
}

/// `kept` holds exactly the elements that `keep` selects, in their order.
pub proof fn lemma_kept<T>(s: Seq<T>, keep: Seq<bool>)
    requires
        keep.len() == s.len(),
    ensures
        kept(s, keep).len() <= s.len(),
        forall|k: int|
            0 <= k < kept(s, keep).len() ==> {
                let i = #[trigger] kept_source(s, keep, k);
                0 <= i < s.len() && keep[i] && kept(s, keep)[k] == s[i]
            },
        forall|k1: int, k2: int|
            0 <= k1 < k2 < kept(s, keep).len() ==> #[trigger] kept_source(s, keep, k1)
                < #[trigger] kept_source(s, keep, k2),
        forall|i: int|
            0 <= i < s.len() && #[trigger] keep[i] ==> exists|k: int|
                0 <= k < kept(s, keep).len() && kept_source(s, keep, k) == i,
    decreases s.len(),
{
    if s.len() > 0 {
        let s1 = s.drop_last();
        let keep1 = keep.drop_last();
        let n1 = kept(s1, keep1).len() as int;
        lemma_kept(s1, keep1);
        assert forall|k: int| 0 <= k < kept(s, keep).len() implies {
            let i = #[trigger] kept_source(s, keep, k);
            0 <= i < s.len() && keep[i] && kept(s, keep)[k] == s[i]
        } by {
            if k < n1 {
                let i = kept_source(s1, keep1, k);
                assert(keep1[i] == keep[i]);
                assert(s1[i] == s[i]);
            }
        }
        assert forall|k1: int, k2: int| 0 <= k1 < k2 < kept(s, keep).len() implies #[trigger] kept_source(
            s,
            keep,
            k1,
        ) < #[trigger] kept_source(s, keep, k2) by {
            let i1 = kept_source(s1, keep1, k1);
            if k2 < n1 {
                let i2 = kept_source(s1, keep1, k2);
            }
        }
        assert forall|i: int| 0 <= i < s.len() && #[trigger] keep[i] implies exists|k: int|
            0 <= k < kept(s, keep).len() && kept_source(s, keep, k) == i by {
            if i == s.len() - 1 {
                assert(kept_source(s, keep, n1) == i);
            } else {
                assert(keep1[i]);
                let k = choose|k: int| 0 <= k < n1 && kept_source(s1, keep1, k) == i;
                assert(kept_source(s, keep, k) == i);
            }
        }
    }
}

/// Taking one more element into `kept`.
pub proof fn lemma_kept_step<T>(s: Seq<T>, keep: Seq<bool>, i: int)
    requires
        keep.len() == s.len(),
        0 <= i < s.len(),
    ensures
        kept(s.take(i + 1), keep.take(i + 1)) == if keep[i] {
            kept(s.take(i), keep.take(i)).push(s[i])
        } else {
            kept(s.take(i), keep.take(i))
        },
{
    assert(s.take(i + 1).drop_last() == s.take(i));
    assert(keep.take(i + 1).drop_last() == keep.take(i));
}

/// Where `keep` selects everything, `kept` is the whole sequence.
pub proof fn lemma_kept_all<T>(s: Seq<T>, keep: Seq<bool>)
    requires
        keep.len() == s.len(),
        forall|i: int| 0 <= i < keep.len() ==> keep[i],
    ensures
        kept(s, keep) == s,
    decreases s.len(),
{
    if s.len() > 0 {
        lemma_kept_all(s.drop_last(), keep.drop_last());
        assert(s.drop_last().push(s.last()) == s);
    } else {
        assert(s == Seq::<T>::empty());
    }
}

/// What is kept of a sequence without repetition has no repetition.
pub proof fn lemma_kept_distinct<T>(s: Seq<T>, keep: Seq<bool>)
    requires
        keep.len() == s.len(),
        distinct(s),
    ensures
        distinct(kept(s, keep)),
{
    lemma_kept(s, keep);
    let out = kept(s, keep);
    assert forall|a: int, b: int| 0 <= a < b < out.len() implies out[a] != out[b] by {
        let i = kept_source(s, keep, a);
        let j = kept_source(s, keep, b);
        assert(s[i] != s[j]);
    }
}

/// What occurs in a sequence occurs in it when it has grown at its end,
/// at the same place.
pub proof fn lemma_position_push<K>(s: Seq<K>, x: K, k: K)
    requires
        occurs(s, k),
    ensures
        occurs(s.push(x), k),
        position(s.push(x), k) == position(s, k),
{
    lemma_position(s, k);
    let i = position(s, k);
    let t = s.push(x);
    assert(t[i] == s[i]);
    assert forall|j: int| 0 <= j < i implies t[j] != k by {
        assert(t[j] == s[j]);
    }
    lemma_position_unique(t, k, i);
}

/// A value occurs in a sequence that ends with it.
pub proof fn lemma_occurs_pushed<K>(s: Seq<K>, k: K)
    ensures
        occurs(s.push(k), k),
{
    let t = s.push(k);
    lemma_position(t, k);
    if position(t, k) >= t.len() {
        assert(t[s.len() as int] == k);
    }
}

/// Two selections that share no index keep, together, no more than there is.
pub proof fn lemma_kept_disjoint<T>(s: Seq<T>, first: Seq<bool>, second: Seq<bool>)
    requires
        first.len() == s.len(),
        second.len() == s.len(),
        forall|i: int| 0 <= i < s.len() ==> !(first[i] && second[i]),
    ensures
        kept(s, first).len() + kept(s, second).len() <= s.len(),
    decreases s.len(),
{
    if s.len() > 0 {
        let f = first.drop_last();
        let g = second.drop_last();
        assert forall|i: int| 0 <= i < s.len() - 1 implies !(f[i] && g[i]) by {
            assert(f[i] == first[i]);
            assert(g[i] == second[i]);
        }
        lemma_kept_disjoint(s.drop_last(), f, g);
        assert(!(first[s.len() - 1] && second[s.len() - 1]));
    }
}

/// What stands in a sequence occurs in it.
pub proof fn lemma_occurs_at<K>(s: Seq<K>, i: int)
    requires
        0 <= i < s.len(),
    ensures
        occurs(s, s[i]),
{
    lemma_position(s, s[i]);
}

} // verus!

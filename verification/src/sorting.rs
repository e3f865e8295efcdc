//! A stable insertion sort at the specification level, with its laws.
//!
//! The executable sorts of the crate (over mirrors, and over the country
//! report's entries) are both proved equal to [`spec_sort_by`], so
//! stability, sortedness and permutation are stated once, here.

use vstd::multiset::Multiset;
use vstd::prelude::*;

verus! {

/// `m` inserted into `s` from the right: it moves left past exactly the
/// elements it strictly precedes, so an element equal under the order
/// stays to the left of a later-inserted `m`.
pub open spec fn spec_insert_by<T>(s: Seq<T>, m: T, lt: spec_fn(T, T) -> bool) -> Seq<T>
    decreases s.len(),
{
    if s.len() == 0 {
        seq![m]
    } else if lt(m, s.last()) {
        spec_insert_by(s.drop_last(), m, lt).push(s.last())
    } else {
        s.push(m)
    }
}

/// Stable insertion sort of `s` by the strict order `lt`.
pub open spec fn spec_sort_by<T>(s: Seq<T>, lt: spec_fn(T, T) -> bool) -> Seq<T>
    decreases s.len(),
{
    if s.len() == 0 {
        s
    } else {
        spec_insert_by(spec_sort_by(s.drop_last(), lt), s.last(), lt)
    }
}

/// No element strictly precedes one standing to its left.
pub open spec fn sorted_by<T>(s: Seq<T>, lt: spec_fn(T, T) -> bool) -> bool {
    forall|i: int, j: int| 0 <= i < j < s.len() ==> !lt(#[trigger] s[j], #[trigger] s[i])
}

/// `lt` behaves as a strict weak order: it is asymmetric, and
/// "does not strictly precede" is transitive.
pub open spec fn is_strict_order<T>(lt: spec_fn(T, T) -> bool) -> bool {
    &&& forall|a: T, b: T| #[trigger] lt(a, b) ==> !lt(b, a)
    &&& forall|a: T, b: T, c: T|
        #![trigger lt(b, a), lt(c, b)]
        !lt(b, a) && !lt(c, b) ==> !lt(c, a)
}

/// The inserted element lands right after the longest suffix of `s` whose
/// elements it strictly precedes.
pub proof fn lemma_insert_by_position<T>(s: Seq<T>, m: T, lt: spec_fn(T, T) -> bool, p: int)
    requires
        0 <= p <= s.len(),
        p > 0 ==> !lt(m, s[p - 1]),
        forall|j: int| p <= j < s.len() ==> lt(m, #[trigger] s[j]),
    ensures
        spec_insert_by(s, m, lt) == s.take(p) + seq![m] + s.skip(p),
    decreases s.len(),
{
    if s.len() == 0 {
        assert(spec_insert_by(s, m, lt) =~= s.take(p) + seq![m] + s.skip(p));
    } else if p == s.len() {
        assert(!lt(m, s.last()));
        assert(spec_insert_by(s, m, lt) =~= s.take(p) + seq![m] + s.skip(p));
    } else {
        assert(lt(m, s[s.len() - 1]));
        lemma_insert_by_position(s.drop_last(), m, lt, p);
        assert(spec_insert_by(s, m, lt) =~= s.take(p) + seq![m] + s.skip(p));
    }
}

/// Every element of the insertion's result is the inserted element or one
/// of the original's, and exactly one element was added.
pub proof fn lemma_insert_by_elems<T>(s: Seq<T>, m: T, lt: spec_fn(T, T) -> bool)
    ensures
        spec_insert_by(s, m, lt).len() == s.len() + 1,
        forall|k: int|
            0 <= k < spec_insert_by(s, m, lt).len()
                ==> #[trigger] spec_insert_by(s, m, lt)[k] == m || s.contains(
                spec_insert_by(s, m, lt)[k],
            ),
    decreases s.len(),
{
    if s.len() == 0 {
    } else if lt(m, s.last()) {
        lemma_insert_by_elems(s.drop_last(), m, lt);
        let r = spec_insert_by(s, m, lt);
        assert forall|k: int| 0 <= k < r.len() implies #[trigger] r[k] == m || s.contains(
            r[k],
        ) by {
            if k < r.len() - 1 {
                if r[k] != m {
                    let i = choose|i: int|
                        0 <= i < s.drop_last().len() && s.drop_last()[i] == r[k];
                    assert(s[i] == r[k]);
                }
            } else {
                assert(r[k] == s.last());
                assert(s[s.len() - 1] == s.last());
            }
        }
    } else {
        assert forall|k: int|
            0 <= k < spec_insert_by(s, m, lt).len() implies #[trigger] spec_insert_by(s, m, lt)[k]
            == m || s.contains(spec_insert_by(s, m, lt)[k]) by {
            if k < s.len() {
                assert(s[k] == spec_insert_by(s, m, lt)[k]);
            }
        }
    }
}

/// Sorting keeps the length.
pub proof fn lemma_sort_by_len<T>(s: Seq<T>, lt: spec_fn(T, T) -> bool)
    ensures
        spec_sort_by(s, lt).len() == s.len(),
    decreases s.len(),
{
    if s.len() > 0 {
        lemma_sort_by_len(s.drop_last(), lt);
        lemma_insert_by_elems(spec_sort_by(s.drop_last(), lt), s.last(), lt);
    }
}

/// Inserting into a sorted sequence keeps it sorted.
pub proof fn lemma_insert_by_sorted<T>(s: Seq<T>, m: T, lt: spec_fn(T, T) -> bool)
    requires
        sorted_by(s, lt),
        is_strict_order(lt),
    ensures
        sorted_by(spec_insert_by(s, m, lt), lt),
    decreases s.len(),
{
    let r = spec_insert_by(s, m, lt);
    if s.len() == 0 {
    } else if lt(m, s.last()) {
        assert(sorted_by(s.drop_last(), lt));
        lemma_insert_by_sorted(s.drop_last(), m, lt);
        lemma_insert_by_elems(s.drop_last(), m, lt);
        let r0 = spec_insert_by(s.drop_last(), m, lt);
        // every element of r0 may stand left of s.last()
        assert forall|i: int, j: int| 0 <= i < j < r.len() implies !lt(r[j], r[i]) by {
            if j < r.len() - 1 {
                assert(r[i] == r0[i] && r[j] == r0[j]);
            } else {
                assert(r[j] == s.last());
                assert(r[i] == r0[i]);
                if r0[i] == m {
                    assert(lt(m, s.last()));
                } else {
                    let x = choose|x: int| 0 <= x < s.drop_last().len() && s.drop_last()[x] == r0[i];
                    assert(s[x] == r0[i]);
                    assert(!lt(s.last(), s[x]));
                }
            }
        }
    } else {
        // r == s.push(m); !lt(m, s.last())
        assert forall|i: int, j: int| 0 <= i < j < r.len() implies !lt(r[j], r[i]) by {
            if j < s.len() {
                assert(r[i] == s[i] && r[j] == s[j]);
            } else {
                assert(r[j] == m);
                assert(r[i] == s[i]);
                if i < s.len() - 1 {
                    assert(!lt(s.last(), s[i]));
                    assert(!lt(m, s.last()));
                } else {
                    assert(s[i] == s.last());
                }
            }
        }
    }
}

/// The sort of any sequence is sorted.
pub proof fn lemma_sort_by_sorted<T>(s: Seq<T>, lt: spec_fn(T, T) -> bool)
    requires
        is_strict_order(lt),
    ensures
        sorted_by(spec_sort_by(s, lt), lt),
    decreases s.len(),
{
    if s.len() > 0 {
        lemma_sort_by_sorted(s.drop_last(), lt);
        lemma_insert_by_sorted(spec_sort_by(s.drop_last(), lt), s.last(), lt);
    }
}

/// Insertion adds the new element to the sequence's multiset of elements.
pub proof fn lemma_insert_by_multiset<T>(s: Seq<T>, m: T, lt: spec_fn(T, T) -> bool)
    ensures
        spec_insert_by(s, m, lt).to_multiset() == s.to_multiset().insert(m),
    decreases s.len(),
{
    broadcast use vstd::seq_lib::group_to_multiset_ensures;

    if s.len() == 0 {
        assert(seq![m] =~= Seq::<T>::empty().push(m));
        assert(s.to_multiset() =~= Multiset::<T>::empty());
        assert(spec_insert_by(s, m, lt).to_multiset() =~= s.to_multiset().insert(m));
    } else if lt(m, s.last()) {
        lemma_insert_by_multiset(s.drop_last(), m, lt);
        assert(s.drop_last().push(s.last()) =~= s);
        assert(spec_insert_by(s, m, lt).to_multiset() =~= s.to_multiset().insert(m)) by {
            assert(spec_insert_by(s, m, lt).to_multiset() =~= spec_insert_by(
                s.drop_last(),
                m,
                lt,
            ).to_multiset().insert(s.last()));
            assert(s.to_multiset() =~= s.drop_last().to_multiset().insert(s.last()));
        }
    } else {
        assert(spec_insert_by(s, m, lt).to_multiset() =~= s.to_multiset().insert(m));
    }
}

/// Sorting permutes: the multiset of elements is unchanged.
pub proof fn lemma_sort_by_multiset<T>(s: Seq<T>, lt: spec_fn(T, T) -> bool)
    ensures
        spec_sort_by(s, lt).to_multiset() == s.to_multiset(),
    decreases s.len(),
{
    broadcast use vstd::seq_lib::group_to_multiset_ensures;

    if s.len() > 0 {
        lemma_sort_by_multiset(s.drop_last(), lt);
        lemma_insert_by_multiset(spec_sort_by(s.drop_last(), lt), s.last(), lt);
        assert(s.drop_last().push(s.last()) =~= s);
        assert(s.to_multiset() =~= s.drop_last().to_multiset().insert(s.last()));
    }
}

/// Mapping commutes with insertion when the orders agree through the map.
proof fn lemma_insert_by_map<T, U>(
    s: Seq<T>,
    m: T,
    f: spec_fn(T) -> U,
    lt_t: spec_fn(T, T) -> bool,
    lt_u: spec_fn(U, U) -> bool,
)
    requires
        forall|a: T, b: T| #[trigger] lt_t(a, b) == lt_u(f(a), f(b)),
    ensures
        spec_insert_by(s, m, lt_t).map_values(f) == spec_insert_by(s.map_values(f), f(m), lt_u),
    decreases s.len(),
{
    if s.len() == 0 {
        assert(spec_insert_by(s, m, lt_t).map_values(f) =~= spec_insert_by(
            s.map_values(f),
            f(m),
            lt_u,
        ));
    } else {
        assert(s.map_values(f).last() == f(s.last()));
        if lt_t(m, s.last()) {
            lemma_insert_by_map(s.drop_last(), m, f, lt_t, lt_u);
            assert(s.drop_last().map_values(f) =~= s.map_values(f).drop_last());
            assert(spec_insert_by(s, m, lt_t).map_values(f) =~= spec_insert_by(
                s.map_values(f),
                f(m),
                lt_u,
            ));
        } else {
            assert(spec_insert_by(s, m, lt_t).map_values(f) =~= spec_insert_by(
                s.map_values(f),
                f(m),
                lt_u,
            ));
        }
    }
}

/// Mapping commutes with sorting when the orders agree through the map.
pub proof fn lemma_sort_by_map<T, U>(
    s: Seq<T>,
    f: spec_fn(T) -> U,
    lt_t: spec_fn(T, T) -> bool,
    lt_u: spec_fn(U, U) -> bool,
)
    requires
        forall|a: T, b: T| #[trigger] lt_t(a, b) == lt_u(f(a), f(b)),
    ensures
        spec_sort_by(s, lt_t).map_values(f) == spec_sort_by(s.map_values(f), lt_u),
    decreases s.len(),
{
    if s.len() == 0 {
        assert(spec_sort_by(s, lt_t).map_values(f) =~= spec_sort_by(s.map_values(f), lt_u));
    } else {
        lemma_sort_by_map(s.drop_last(), f, lt_t, lt_u);
        lemma_insert_by_map(spec_sort_by(s.drop_last(), lt_t), s.last(), f, lt_t, lt_u);
        assert(s.drop_last().map_values(f) =~= s.map_values(f).drop_last());
        assert(s.map_values(f).last() == f(s.last()));
        assert(spec_sort_by(s, lt_t).map_values(f) =~= spec_sort_by(s.map_values(f), lt_u));
    }
}

/// Sorting an already-sorted sequence changes nothing.
pub proof fn lemma_sort_by_of_sorted_id<T>(s: Seq<T>, lt: spec_fn(T, T) -> bool)
    requires
        sorted_by(s, lt),
    ensures
        spec_sort_by(s, lt) == s,
    decreases s.len(),
{
    if s.len() > 0 {
        assert(sorted_by(s.drop_last(), lt));
        lemma_sort_by_of_sorted_id(s.drop_last(), lt);
        if s.len() >= 2 {
            assert(!lt(s[s.len() - 1], s[s.len() - 2]));
            assert(s.drop_last().last() == s[s.len() - 2]);
        }
        assert(spec_sort_by(s, lt) =~= s.drop_last().push(s.last()));
        assert(s.drop_last().push(s.last()) =~= s);
    }
}

/// Sorting twice is the same as sorting once.
pub proof fn lemma_sort_by_idempotent<T>(s: Seq<T>, lt: spec_fn(T, T) -> bool)
    requires
        is_strict_order(lt),
    ensures
        spec_sort_by(spec_sort_by(s, lt), lt) == spec_sort_by(s, lt),
{
    lemma_sort_by_sorted(s, lt);
    lemma_sort_by_of_sorted_id(spec_sort_by(s, lt), lt);
}

} // verus!

//! The ranker: a verified stable multi-key sort of the directory.

use vstd::prelude::*;

use crate::mirror::Mirror;
use crate::mirror::MirrorList;
use crate::mirror::SortKey;
use crate::order::comes_before;
use crate::order::lemma_mirror_order_strict;
use crate::order::mirror_order;
use crate::sorting::lemma_insert_by_position;
use crate::sorting::lemma_sort_by_idempotent;
use crate::sorting::lemma_sort_by_len;
use crate::sorting::lemma_sort_by_multiset;
use crate::sorting::lemma_sort_by_of_sorted_id;
use crate::sorting::lemma_sort_by_sorted;
use crate::sorting::sorted_by;
use crate::sorting::spec_insert_by;
use crate::sorting::spec_sort_by;

verus! {

/// Stable insertion sort of a mirror sequence by the key's order.
fn sort_mirrors(v: &mut Vec<Mirror>, k: SortKey)
    ensures
        final(v)@ == spec_sort_by(old(v)@, mirror_order(k)),
{
    let ghost orig = v@;
    let ghost lt = mirror_order(k);
    let n = v.len();
    let mut i: usize = 0;
    proof {
        assert(orig.take(0) =~= Seq::<Mirror>::empty());
        assert(orig.skip(0) =~= orig);
        assert(v@ =~= spec_sort_by(orig.take(0), lt) + orig.skip(0));
    }
    while i < n
        invariant
            i <= n,
            n == v@.len(),
            v@.len() == orig.len(),
            lt == mirror_order(k),
            v@ == spec_sort_by(orig.take(i as int), lt) + orig.skip(i as int),
        decreases n - i,
    {
        let ghost prefix = spec_sort_by(orig.take(i as int), lt);
        proof {
            lemma_sort_by_len(orig.take(i as int), lt);
            assert(v@[i as int] == orig.skip(i as int)[0]);
        }
        let mut p: usize = i;
        while p > 0 && comes_before(k, &v[i], &v[p - 1])
            invariant
                p <= i,
                i < n,
                n == v@.len(),
                lt == mirror_order(k),
                v@ == prefix + orig.skip(i as int),
                prefix.len() == i,
                v@[i as int] == orig[i as int],
                forall|j: int| p <= j < i ==> lt(v@[i as int], #[trigger] prefix[j]),
            decreases p,
        {
            proof {
                assert(v@[p - 1] == prefix[p - 1]);
            }
            p = p - 1;
        }
        let m = v.remove(i);
        v.insert(p, m);
        proof {
            lemma_insert_by_position(prefix, m, lt, p as int);
            assert(orig.take(i + 1).drop_last() =~= orig.take(i as int));
            assert(orig.take(i + 1).last() == orig[i as int]);
            assert(spec_sort_by(orig.take(i + 1), lt) == spec_insert_by(prefix, m, lt));
            assert((prefix + orig.skip(i as int)).remove(i as int) =~= prefix + orig.skip(i + 1));
            assert((prefix + orig.skip(i + 1)).insert(p as int, m) =~= (prefix.take(p as int)
                + seq![m] + prefix.skip(p as int)) + orig.skip(i + 1));
            assert(v@ =~= spec_sort_by(orig.take(i + 1), lt) + orig.skip(i + 1));
        }
        i = i + 1;
    }
    proof {
        assert(orig.take(n as int) =~= orig);
        assert(orig.skip(n as int) =~= Seq::<Mirror>::empty());
        assert(v@ =~= spec_sort_by(orig, lt));
    }
}

impl MirrorList {
    /// Reorders the directory stably by `by`: the new sequence is exactly
    /// the stable insertion sort of the old one under the key's order, so
    /// ties keep their previous relative positions. The provenance string
    /// is untouched.
    pub fn sort(&mut self, by: SortKey)
        ensures
            final(self).mirrors@ == spec_sort_by(old(self).mirrors@, mirror_order(by)),
            final(self).source == old(self).source,
    {
        sort_mirrors(&mut self.mirrors, by);
    }
}

/// Law: the ranking leaves the directory ordered by the key's policy.
pub proof fn lemma_rank_sorted(s: Seq<Mirror>, k: SortKey)
    ensures
        sorted_by(spec_sort_by(s, mirror_order(k)), mirror_order(k)),
{
    lemma_mirror_order_strict(k);
    lemma_sort_by_sorted(s, mirror_order(k));
}

/// Law: the ranking permutes the directory; no mirror is dropped,
/// duplicated or invented.
pub proof fn lemma_rank_permutes(s: Seq<Mirror>, k: SortKey)
    ensures
        spec_sort_by(s, mirror_order(k)).to_multiset() == s.to_multiset(),
{
    lemma_sort_by_multiset(s, mirror_order(k));
}

/// Law: ranking is stable — a directory already ordered by the key is
/// returned exactly as it was.
pub proof fn lemma_rank_sorted_noop(s: Seq<Mirror>, k: SortKey)
    requires
        sorted_by(s, mirror_order(k)),
    ensures
        spec_sort_by(s, mirror_order(k)) == s,
{
    lemma_sort_by_of_sorted_id(s, mirror_order(k));
}

/// Law: ranking is idempotent — ranking a directory twice by the same key
/// gives the same sequence as ranking it once.
pub proof fn lemma_rank_idempotent(s: Seq<Mirror>, k: SortKey)
    ensures
        spec_sort_by(spec_sort_by(s, mirror_order(k)), mirror_order(k)) == spec_sort_by(
            s,
            mirror_order(k),
        ),
{
    lemma_mirror_order_strict(k);
    lemma_sort_by_idempotent(s, mirror_order(k));
}

} // verus!

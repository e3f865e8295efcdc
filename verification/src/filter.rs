//! The filter: independent criteria shrink the directory.

use vstd::prelude::*;

use crate::clock::now_timestamp;
use crate::mirror::spec_whole_minutes;
use crate::mirror::whole_minutes;
use crate::mirror::Mirror;
use crate::mirror::MirrorList;
use crate::mirror::Protocol;

verus! {

/// Whether `m` survives all active criteria, judged at time `now` (seconds
/// since the Unix epoch).
///
/// The age cutoff is a number of minutes — sixtieths of an hour, so a
/// cutoff of `c` hours is the integer cutoff of `60 * c` minutes, rounded
/// up. A mirror passes when its age, truncated toward zero to whole
/// minutes, lies strictly below the cutoff; one that never synchronized is
/// dropped whenever a cutoff is supplied. An absent capability flag counts
/// as `false`. An empty protocol list allows every protocol.
pub open spec fn keeps(
    m: Mirror,
    now: int,
    age: Option<i64>,
    isos: bool,
    ipv4: bool,
    ipv6: bool,
    protocols: Seq<Protocol>,
) -> bool {
    &&& (match age {
        None => true,
        Some(cutoff) => match m.last_sync {
            None => false,
            Some(ts) => spec_whole_minutes(now - ts) < cutoff,
        },
    })
    &&& (isos ==> m.isos == Some(true))
    &&& (ipv4 ==> m.ipv4 == Some(true))
    &&& (ipv6 ==> m.ipv6 == Some(true))
    &&& (protocols.len() > 0 ==> protocols.contains(m.protocol))
}

/// The subsequence of mirrors that survive all active criteria.
pub open spec fn spec_filter(
    s: Seq<Mirror>,
    now: int,
    age: Option<i64>,
    isos: bool,
    ipv4: bool,
    ipv6: bool,
    protocols: Seq<Protocol>,
) -> Seq<Mirror> {
    s.filter(|m: Mirror| keeps(m, now, age, isos, ipv4, ipv6, protocols))
}

/// Decides membership of a protocol in the allow-list.
fn contains_protocol(v: &Vec<Protocol>, p: Protocol) -> (r: bool)
    ensures
        r == v@.contains(p),
{
    let mut i: usize = 0;
    while i < v.len()
        invariant
            i <= v@.len(),
            forall|j: int| 0 <= j < i ==> v@[j] != p,
        decreases v@.len() - i,
    {
        if v[i] == p {
            return true;
        }
        i = i + 1;
    }
    false
}

/// Decides whether one mirror survives the criteria.
fn keep_mirror(
    m: &Mirror,
    now: i64,
    age: Option<i64>,
    isos: bool,
    ipv4: bool,
    ipv6: bool,
    protocols: &Vec<Protocol>,
) -> (r: bool)
    ensures
        r == keeps(*m, now as int, age, isos, ipv4, ipv6, protocols@),
{
    let age_ok = match age {
        None => true,
        Some(cutoff) => match m.last_sync {
            None => false,
            Some(ts) => whole_minutes(now, ts) < cutoff,
        },
    };
    let isos_ok = !isos || match m.isos {
        Some(true) => true,
        _ => false,
    };
    let ipv4_ok = !ipv4 || match m.ipv4 {
        Some(true) => true,
        _ => false,
    };
    let ipv6_ok = !ipv6 || match m.ipv6 {
        Some(true) => true,
        _ => false,
    };
    let proto_ok = protocols.len() == 0 || contains_protocol(protocols, m.protocol);
    age_ok && isos_ok && ipv4_ok && ipv6_ok && proto_ok
}

impl MirrorList {
    /// The directory shrunk to the mirrors that meet every active
    /// criterion, judged at time `now`: exactly the surviving subsequence,
    /// in its original order, with the provenance kept.
    pub fn filter_at(
        self,
        now: i64,
        age: Option<i64>,
        isos: bool,
        ipv4: bool,
        ipv6: bool,
        protocols: &Vec<Protocol>,
    ) -> (r: MirrorList)
        ensures
            r.mirrors@ == spec_filter(
                self.mirrors@,
                now as int,
                age,
                isos,
                ipv4,
                ipv6,
                protocols@,
            ),
            r.source == self.source,
    {
        let ghost pred = |m: Mirror| keeps(m, now as int, age, isos, ipv4, ipv6, protocols@);
        let MirrorList { mut mirrors, source } = self;
        let ghost orig = mirrors@;
        let mut out: Vec<Mirror> = Vec::new();
        let ghost mut k: int = 0;
        proof {
            assert(orig.skip(0) =~= orig);
            assert(orig.take(0) =~= Seq::<Mirror>::empty());
            assert(out@ =~= orig.take(0).filter(pred));
        }
        while mirrors.len() > 0
            invariant
                0 <= k <= orig.len(),
                mirrors@ == orig.skip(k),
                out@ == orig.take(k).filter(pred),
                pred == (|m: Mirror| keeps(m, now as int, age, isos, ipv4, ipv6, protocols@)),
            decreases mirrors@.len(),
        {
            let m = mirrors.remove(0);
            proof {
                assert(m == orig[k]);
                assert(orig.skip(k).drop_first() =~= orig.skip(k + 1));
                assert(orig.take(k + 1).drop_last() =~= orig.take(k));
                assert(orig.take(k + 1).last() == orig[k]);
            }
            if keep_mirror(&m, now, age, isos, ipv4, ipv6, protocols) {
                out.push(m);
            }
            proof {
                reveal(Seq::filter);
                assert(out@ =~= orig.take(k + 1).filter(pred));
                k = k + 1;
            }
        }
        proof {
            assert(orig.take(k) =~= orig);
        }
        MirrorList { mirrors: out, source }
    }

    /// The directory filtered against the present moment, as the system
    /// clock reports it; everything else is as in [`MirrorList::filter_at`].
    pub fn filter(
        self,
        age: Option<i64>,
        isos: bool,
        ipv4: bool,
        ipv6: bool,
        protocols: &Vec<Protocol>,
    ) -> (r: MirrorList)
        ensures
            exists|now: int|
                -9_000_000_000_000 < now < 9_000_000_000_000 && r.mirrors@ == #[trigger] spec_filter(
                    self.mirrors@,
                    now,
                    age,
                    isos,
                    ipv4,
                    ipv6,
                    protocols@,
                ),
            r.source == self.source,
    {
        let ghost input = self;
        let now = now_timestamp();
        let r = self.filter_at(now, age, isos, ipv4, ipv6, protocols);
        proof {
            assert(r.mirrors@ == spec_filter(
                input.mirrors@,
                now as int,
                age,
                isos,
                ipv4,
                ipv6,
                protocols@,
            ));
        }
        r
    }
}

/// All elements pass a filter whose predicate holds of each of them.
pub(crate) proof fn lemma_filter_everything<T>(s: Seq<T>, pred: spec_fn(T) -> bool)
    requires
        forall|i: int| 0 <= i < s.len() ==> pred(#[trigger] s[i]),
    ensures
        s.filter(pred) == s,
    decreases s.len(),
{
    if s.len() > 0 {
        assert(forall|i: int|
            0 <= i < s.drop_last().len() ==> pred(#[trigger] s.drop_last()[i]));
        lemma_filter_everything(s.drop_last(), pred);
        assert(pred(s.last()));
        reveal(Seq::filter);
        assert(s.filter(pred) =~= s.drop_last().push(s.last()));
        assert(s.drop_last().push(s.last()) =~= s);
    }
}

/// Two predicates that agree on every element filter alike.
pub(crate) proof fn lemma_filter_congruence<T>(
    s: Seq<T>,
    p1: spec_fn(T) -> bool,
    p2: spec_fn(T) -> bool,
)
    requires
        forall|i: int| 0 <= i < s.len() ==> p1(#[trigger] s[i]) == p2(s[i]),
    ensures
        s.filter(p1) == s.filter(p2),
    decreases s.len(),
{
    reveal(Seq::filter);
    if s.len() > 0 {
        assert(forall|i: int|
            0 <= i < s.drop_last().len() ==> p1(#[trigger] s.drop_last()[i]) == p2(
                s.drop_last()[i],
            ));
        lemma_filter_congruence(s.drop_last(), p1, p2);
        assert(p1(s.last()) == p2(s.last()));
        assert(s.filter(p1) =~= s.filter(p2));
    } else {
        assert(s.filter(p1) =~= s.filter(p2));
    }
}

/// Every element of a filtered sequence comes from the input.
pub(crate) proof fn lemma_filter_subset<T>(s: Seq<T>, pred: spec_fn(T) -> bool)
    ensures
        forall|k: int|
            0 <= k < s.filter(pred).len() ==> s.contains(#[trigger] s.filter(pred)[k]),
    decreases s.len(),
{
    reveal(Seq::filter);
    if s.len() > 0 {
        lemma_filter_subset(s.drop_last(), pred);
        let f = s.filter(pred);
        let f0 = s.drop_last().filter(pred);
        assert forall|k: int| 0 <= k < f.len() implies s.contains(#[trigger] f[k]) by {
            if k < f0.len() {
                assert(f[k] == f0[k]);
                let i = choose|i: int|
                    0 <= i < s.drop_last().len() && s.drop_last()[i] == f0[k];
                assert(s[i] == f[k]);
            } else {
                assert(f[k] == s.last());
                assert(s[s.len() - 1] == s.last());
            }
        }
    }
}

/// Law: filtering with no active criteria returns the directory with the
/// exact same mirrors in the exact same order.
pub proof fn lemma_filter_no_criteria_id(s: Seq<Mirror>, now: int)
    ensures
        spec_filter(s, now, None, false, false, false, Seq::empty()) == s,
{
    let pred = |m: Mirror| keeps(m, now, None, false, false, false, Seq::empty());
    assert(forall|i: int| 0 <= i < s.len() ==> pred(#[trigger] s[i]));
    lemma_filter_everything(s, pred);
}

/// Law: for any subset of criteria, the filtered directory is no larger
/// than the input; every mirror it holds satisfies all active criteria;
/// every input mirror that satisfies them is kept, and every input mirror
/// that fails one is gone.
pub proof fn lemma_filter_shrinks(
    s: Seq<Mirror>,
    now: int,
    age: Option<i64>,
    isos: bool,
    ipv4: bool,
    ipv6: bool,
    protocols: Seq<Protocol>,
)
    ensures
        spec_filter(s, now, age, isos, ipv4, ipv6, protocols).len() <= s.len(),
        forall|i: int|
            0 <= i < spec_filter(s, now, age, isos, ipv4, ipv6, protocols).len() ==> keeps(
                #[trigger] spec_filter(s, now, age, isos, ipv4, ipv6, protocols)[i],
                now,
                age,
                isos,
                ipv4,
                ipv6,
                protocols,
            ),
        forall|i: int|
            0 <= i < s.len() && keeps(#[trigger] s[i], now, age, isos, ipv4, ipv6, protocols)
                ==> spec_filter(s, now, age, isos, ipv4, ipv6, protocols).contains(s[i]),
        forall|i: int|
            0 <= i < s.len() && !keeps(#[trigger] s[i], now, age, isos, ipv4, ipv6, protocols)
                ==> !spec_filter(s, now, age, isos, ipv4, ipv6, protocols).contains(s[i]),
{
    let pred = |m: Mirror| keeps(m, now, age, isos, ipv4, ipv6, protocols);
    let out = s.filter(pred);
    s.lemma_filter_len(pred);
    assert forall|i: int| 0 <= i < out.len() implies keeps(
        #[trigger] out[i],
        now,
        age,
        isos,
        ipv4,
        ipv6,
        protocols,
    ) by {
        s.lemma_filter_pred(pred, i);
    }
    assert forall|i: int|
        0 <= i < s.len() && keeps(#[trigger] s[i], now, age, isos, ipv4, ipv6, protocols)
        implies out.contains(s[i]) by {
        s.lemma_filter_contains(pred, i);
    }
    assert forall|i: int|
        0 <= i < s.len() && !keeps(#[trigger] s[i], now, age, isos, ipv4, ipv6, protocols)
        implies !out.contains(s[i]) by {
        if out.contains(s[i]) {
            let j = choose|j: int| 0 <= j < out.len() && out[j] == s[i];
            s.lemma_filter_pred(pred, j);
        }
    }
}

} // verus!

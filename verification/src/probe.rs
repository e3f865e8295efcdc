//! The probe coordinator: concurrent completions folded, one at a time,
//! into one consistent directory.
//!
//! Probing itself is network work and stays with the caller, which drains
//! the directory into one concurrent task per endpoint. The coordinator is
//! the single writer the concurrency design calls for: the caller hands it
//! each completion as it arrives — in whatever order the network produces
//! them — through [`ProbeCoordinator::on_success`] and
//! [`ProbeCoordinator::on_failure`], stops consuming as soon as
//! [`ProbeCoordinator::enough`] says the target count of successes is
//! reached, and takes the reconciled directory from
//! [`ProbeCoordinator::finish`].

use vstd::prelude::*;

use crate::filter::lemma_filter_congruence;
use crate::filter::lemma_filter_everything;
use crate::filter::lemma_filter_subset;
use crate::mirror::Mirror;
use crate::mirror::MirrorList;

verus! {

/// Whether some mirror of `s` bears the identifier `u`.
pub open spec fn url_in(s: Seq<Mirror>, u: Seq<char>) -> bool {
    exists|i: int| 0 <= i < s.len() && s[i].url@ == u
}

/// Whether the mirrors of `s` bear pairwise distinct identifiers.
pub open spec fn distinct_urls(s: Seq<Mirror>) -> bool {
    forall|i: int, j: int| 0 <= i < j < s.len() ==> s[i].url@ != s[j].url@
}

pub proof fn lemma_url_in_push(s: Seq<Mirror>, m: Mirror, u: Seq<char>)
    ensures
        url_in(s.push(m), u) <==> (url_in(s, u) || m.url@ == u),
{
    if url_in(s.push(m), u) {
        let i = choose|i: int| 0 <= i < s.push(m).len() && s.push(m)[i].url@ == u;
        if i < s.len() {
            assert(s[i].url@ == u);
        }
    }
    if url_in(s, u) {
        let i = choose|i: int| 0 <= i < s.len() && s[i].url@ == u;
        assert(s.push(m)[i].url@ == u);
    }
    if m.url@ == u {
        assert(s.push(m)[s.len() as int].url@ == u);
    }
}

/// Decides whether some mirror of `v` bears the identifier of `u`.
fn vec_has_url(v: &Vec<Mirror>, u: &String) -> (r: bool)
    ensures
        r == url_in(v@, u@),
{
    let mut i: usize = 0;
    while i < v.len()
        invariant
            i <= v@.len(),
            forall|j: int| 0 <= j < i ==> v@[j].url@ != u@,
        decreases v@.len() - i,
    {
        if v[i].url == *u {
            assert(v@[i as int].url@ == u@);
            return true;
        }
        i = i + 1;
    }
    false
}

/// Decides whether `v` holds a string with the view of `u`.
fn contains_string(v: &Vec<String>, u: &String) -> (r: bool)
    ensures
        r == (exists|i: int| 0 <= i < v@.len() && v@[i]@ == u@),
{
    let mut i: usize = 0;
    while i < v.len()
        invariant
            i <= v@.len(),
            forall|j: int| 0 <= j < i ==> v@[j]@ != u@,
        decreases v@.len() - i,
    {
        if v[i] == *u {
            assert(v@[i as int]@ == u@);
            return true;
        }
        i = i + 1;
    }
    false
}

/// Fans probe completions into a directory: it accepts successes until a
/// target count is reached, ignores failures, and finally reconciles the
/// accepted results with the endpoints that were never updated.
pub struct ProbeCoordinator {
    originals: Vec<Mirror>,
    updated: Vec<Mirror>,
    remaining: usize,
    target: usize,
    source: Option<String>,
}

impl ProbeCoordinator {
    /// The directory as it stood before probing, in its original order.
    pub closed spec fn spec_originals(&self) -> Seq<Mirror> {
        self.originals@
    }

    /// The accepted successes, in completion order.
    pub closed spec fn spec_updated(&self) -> Seq<Mirror> {
        self.updated@
    }

    /// How many further successes the coordinator still wants.
    pub closed spec fn spec_remaining(&self) -> nat {
        self.remaining as nat
    }

    /// The success count aimed for: the requested limit clamped to the
    /// directory's size.
    pub closed spec fn spec_target(&self) -> nat {
        self.target as nat
    }

    /// The provenance carried through from the input directory.
    pub closed spec fn spec_source(&self) -> Option<String> {
        self.source
    }

    /// The coordinator's invariant: the target fits the directory;
    /// successes still wanted and successes accepted add up to the target;
    /// and the accepted mirrors bear pairwise distinct identifiers, each
    /// identifying an original endpoint, each with a measured rate.
    pub open spec fn wf(&self) -> bool {
        &&& self.spec_target() <= self.spec_originals().len()
        &&& self.spec_remaining() + self.spec_updated().len() == self.spec_target()
        &&& forall|i: int|
            0 <= i < self.spec_updated().len() ==> url_in(
                self.spec_originals(),
                (#[trigger] self.spec_updated()[i]).url@,
            )
        &&& distinct_urls(self.spec_updated())
        &&& forall|i: int|
            0 <= i < self.spec_updated().len() ==> (#[trigger] self.spec_updated()[i]).download_rate
                is Some
    }

    /// Takes ownership of the directory and prepares to probe for `limit`
    /// successes; a limit beyond the directory's size means "wait for
    /// every endpoint to report".
    pub fn start(list: MirrorList, limit: usize) -> (c: ProbeCoordinator)
        ensures
            c.wf(),
            c.spec_originals() == list.mirrors@,
            c.spec_updated() == Seq::<Mirror>::empty(),
            c.spec_target() == vstd::math::min(limit as int, list.mirrors@.len() as int),
            c.spec_remaining() == c.spec_target(),
            c.spec_source() == list.source,
    {
        let n = list.mirrors.len();
        let target = if limit < n {
            limit
        } else {
            n
        };
        ProbeCoordinator {
            originals: list.mirrors,
            updated: Vec::new(),
            remaining: target,
            target,
            source: list.source,
        }
    }

    /// The endpoints to probe, one concurrent task each.
    pub fn pending(&self) -> (r: &Vec<Mirror>)
        ensures
            r@ == self.spec_originals(),
    {
        &self.originals
    }

    /// Whether the target count of successes is reached: the early-exit
    /// signal. As soon as it holds, the caller stops consuming completions
    /// and abandons the tasks still in flight.
    pub fn enough(&self) -> (r: bool)
        ensures
            r == (self.spec_remaining() == 0),
    {
        self.remaining == 0
    }

    /// Whether a success for `m` would be accepted in the current state.
    pub open spec fn spec_accepts(&self, m: Mirror) -> bool {
        &&& self.spec_remaining() > 0
        &&& m.download_rate is Some
        &&& url_in(self.spec_originals(), m.url@)
        &&& !url_in(self.spec_updated(), m.url@)
    }

    /// Records one successful completion. It is accepted — appended to the
    /// updated endpoints, bringing the target one success closer — when
    /// successes are still wanted and it is new: it carries a measured
    /// rate, its identifier names an original endpoint, and no accepted
    /// success bears that identifier yet. Anything else (a result arriving
    /// after the target was reached, a duplicate, a stray) is discarded
    /// unread, and the state does not change.
    pub fn on_success(&mut self, m: Mirror)
        ensures
            old(self).spec_accepts(m) ==> {
                &&& final(self).spec_updated() == old(self).spec_updated().push(m)
                &&& final(self).spec_remaining() == old(self).spec_remaining() - 1
            },
            !old(self).spec_accepts(m) ==> *final(self) == *old(self),
            final(self).spec_originals() == old(self).spec_originals(),
            final(self).spec_target() == old(self).spec_target(),
            final(self).spec_source() == old(self).spec_source(),
            old(self).wf() ==> final(self).wf(),
    {
        if self.remaining == 0 {
            return ;
        }
        if m.download_rate.is_none() {
            return ;
        }
        let fresh = !vec_has_url(&self.updated, &m.url);
        let known = vec_has_url(&self.originals, &m.url);
        if fresh && known {
            proof {
                if old(self).wf() {
                    assert forall|i: int, j: int|
                        0 <= i < j < old(self).spec_updated().push(m).len() implies old(
                        self,
                    ).spec_updated().push(m)[i].url@ != old(self).spec_updated().push(
                        m,
                    )[j].url@ by {
                        if j < old(self).spec_updated().len() {
                        } else {
                            assert(old(self).spec_updated().push(m)[j] == m);
                        }
                    }
                }
            }
            self.updated.push(m);
            self.remaining = self.remaining - 1;
        }
    }

    /// Records one failed completion: a failure is logged by the caller
    /// and otherwise ignored — it neither counts toward the target nor
    /// touches the directory, and never aborts the operation.
    pub fn on_failure(&mut self)
        ensures
            *final(self) == *old(self),
    {
    }

    /// Reconciles and hands the directory back: the accepted successes in
    /// completion order, followed by every original endpoint whose
    /// identifier no accepted success bears, in original order. The
    /// provenance is carried through.
    pub fn finish(self) -> (r: MirrorList)
        ensures
            r.mirrors@ == self.spec_updated() + self.spec_originals().filter(
                (|m: Mirror| !url_in(self.spec_updated(), m.url@)),
            ),
            r.source == self.spec_source(),
    {
        let ghost upd = self.updated@;
        let ghost orig = self.originals@;
        let ghost pred = |m: Mirror| !url_in(upd, m.url@);
        let ProbeCoordinator { originals, updated, remaining, target, source } = self;
        let mut urls: Vec<String> = Vec::new();
        let mut i: usize = 0;
        while i < updated.len()
            invariant
                i <= updated@.len(),
                updated@ == upd,
                urls@.len() == i,
                forall|j: int| 0 <= j < i ==> urls@[j]@ == upd[j].url@,
            decreases updated@.len() - i,
        {
            urls.push(updated[i].url.clone());
            i = i + 1;
        }
        let mut rest = originals;
        let mut out = updated;
        let ghost mut k: int = 0;
        proof {
            assert(orig.skip(0) =~= orig);
            assert(orig.take(0) =~= Seq::<Mirror>::empty());
            reveal(Seq::filter);
            assert(out@ =~= upd + orig.take(0).filter(pred));
        }
        while rest.len() > 0
            invariant
                0 <= k <= orig.len(),
                rest@ == orig.skip(k),
                out@ == upd + orig.take(k).filter(pred),
                pred == (|m: Mirror| !url_in(upd, m.url@)),
                urls@.len() == upd.len(),
                forall|j: int| 0 <= j < upd.len() ==> urls@[j]@ == upd[j].url@,
            decreases rest@.len(),
        {
            let m = rest.remove(0);
            proof {
                assert(m == orig[k]);
                assert(orig.skip(k).drop_first() =~= orig.skip(k + 1));
                assert(orig.take(k + 1).drop_last() =~= orig.take(k));
                assert(orig.take(k + 1).last() == orig[k]);
            }
            let seen = contains_string(&urls, &m.url);
            proof {
                if seen {
                    let j = choose|j: int| 0 <= j < urls@.len() && urls@[j]@ == m.url@;
                    assert(upd[j].url@ == m.url@);
                    assert(url_in(upd, m.url@));
                } else {
                    if url_in(upd, m.url@) {
                        let j = choose|j: int| 0 <= j < upd.len() && upd[j].url@ == m.url@;
                        assert(urls@[j]@ == m.url@);
                    }
                }
            }
            if !seen {
                out.push(m);
            }
            proof {
                reveal(Seq::filter);
                assert(out@ =~= upd + orig.take(k + 1).filter(pred));
                k = k + 1;
            }
        }
        proof {
            assert(orig.take(k) =~= orig);
        }
        MirrorList { mirrors: out, source }
    }
}

/// Law: early exit. The coordinator's stop signal holds exactly when the
/// accepted successes have reached the target count — so with a target of
/// `k` and at least `k` successes arriving, the caller's loop stops at the
/// `k`-th accepted success, without waiting for the other tasks; with a
/// target of zero it consumes nothing at all.
pub proof fn lemma_early_exit(c: ProbeCoordinator)
    requires
        c.wf(),
    ensures
        (c.spec_remaining() == 0) <==> c.spec_updated().len() == c.spec_target(),
{
}

/// Dropping, in addition to what `p0` already drops, exactly the mirrors
/// bearing one identifier `u` — present in the sequence, and not dropped
/// by `p0` — shrinks the filtered result by one.
proof fn lemma_filter_drop_one(
    orig: Seq<Mirror>,
    p0: spec_fn(Mirror) -> bool,
    p1: spec_fn(Mirror) -> bool,
    u: Seq<char>,
)
    requires
        distinct_urls(orig),
        url_in(orig, u),
        forall|i: int|
            0 <= i < orig.len() ==> p1(#[trigger] orig[i]) == (p0(orig[i]) && orig[i].url@ != u),
        forall|i: int| 0 <= i < orig.len() && (#[trigger] orig[i]).url@ == u ==> p0(orig[i]),
    ensures
        orig.filter(p1).len() == orig.filter(p0).len() - 1,
    decreases orig.len(),
{
    reveal(Seq::filter);
    let o0 = orig.drop_last();
    let x = orig.last();
    assert(orig[orig.len() - 1] == x);
    if x.url@ == u {
        assert(!url_in(o0, u)) by {
            if url_in(o0, u) {
                let i = choose|i: int| 0 <= i < o0.len() && o0[i].url@ == u;
                assert(orig[i].url@ == orig[orig.len() - 1].url@);
            }
        }
        assert forall|i: int| 0 <= i < o0.len() implies p1(#[trigger] o0[i]) == p0(o0[i]) by {
            assert(o0[i] == orig[i]);
            assert(orig[i].url@ != u);
        }
        lemma_filter_congruence(o0, p0, p1);
        assert(p0(x));
        assert(!p1(x));
        assert(orig.filter(p0) =~= o0.filter(p0).push(x));
        assert(orig.filter(p1) == o0.filter(p1));
    } else {
        assert(url_in(o0, u)) by {
            let i = choose|i: int| 0 <= i < orig.len() && orig[i].url@ == u;
            assert(i < orig.len() - 1);
            assert(o0[i].url@ == u);
        }
        assert forall|i: int|
            0 <= i < o0.len() implies p1(#[trigger] o0[i]) == (p0(o0[i]) && o0[i].url@ != u) by {
            assert(o0[i] == orig[i]);
        }
        assert forall|i: int|
            0 <= i < o0.len() && (#[trigger] o0[i]).url@ == u implies p0(o0[i]) by {
            assert(o0[i] == orig[i]);
        }
        lemma_filter_drop_one(o0, p0, p1, u);
        assert(p1(x) == p0(x));
    }
}

/// Carrying over everything not updated keeps exactly the originals that
/// the accepted successes do not name: their count is the original count
/// less the successes.
proof fn lemma_filter_out_len(orig: Seq<Mirror>, upd: Seq<Mirror>)
    requires
        distinct_urls(orig),
        distinct_urls(upd),
        forall|i: int| 0 <= i < upd.len() ==> url_in(orig, (#[trigger] upd[i]).url@),
    ensures
        orig.filter((|m: Mirror| !url_in(upd, m.url@))).len() == orig.len() - upd.len(),
    decreases upd.len(),
{
    if upd.len() == 0 {
        let pred = |m: Mirror| !url_in(upd, m.url@);
        assert forall|i: int| 0 <= i < orig.len() implies pred(#[trigger] orig[i]) by {
            if url_in(upd, orig[i].url@) {
                let j = choose|j: int| 0 <= j < upd.len() && upd[j].url@ == orig[i].url@;
            }
        }
        lemma_filter_everything(orig, pred);
    } else {
        let upd0 = upd.drop_last();
        let last = upd.last();
        assert(upd[upd.len() - 1] == last);
        assert(distinct_urls(upd0)) by {
            assert(forall|i: int, j: int|
                0 <= i < j < upd0.len() ==> upd0[i] == upd[i] && upd0[j] == upd[j]);
        }
        assert forall|i: int| 0 <= i < upd0.len() implies url_in(
            orig,
            (#[trigger] upd0[i]).url@,
        ) by {
            assert(upd0[i] == upd[i]);
        }
        lemma_filter_out_len(orig, upd0);
        let p0 = |m: Mirror| !url_in(upd0, m.url@);
        let p1 = |m: Mirror| !url_in(upd, m.url@);
        assert(upd0.push(last) =~= upd);
        assert forall|i: int|
            0 <= i < orig.len() implies p1(#[trigger] orig[i]) == (p0(orig[i]) && orig[i].url@
            != last.url@) by {
            lemma_url_in_push(upd0, last, orig[i].url@);
        }
        assert(!url_in(upd0, last.url@)) by {
            if url_in(upd0, last.url@) {
                let j = choose|j: int| 0 <= j < upd0.len() && upd0[j].url@ == last.url@;
                assert(upd[j].url@ == upd[upd.len() - 1].url@);
            }
        }
        assert forall|i: int|
            0 <= i < orig.len() && (#[trigger] orig[i]).url@ == last.url@ implies p0(
            orig[i],
        ) by {}
        assert(url_in(orig, last.url@));
        lemma_filter_drop_one(orig, p0, p1, last.url@);
    }
}

/// Law: probe reconciliation loses nothing and invents nothing. For a
/// directory whose endpoints bear pairwise distinct identifiers and, as
/// the data model has it, no measured rate before probing, the reconciled
/// directory of a well-formed coordinator has exactly as many endpoints as
/// the original, bears exactly the original identifiers, and an endpoint
/// carries a measured rate precisely when an accepted success bears its
/// identifier.
pub proof fn lemma_probe_reconciliation(c: ProbeCoordinator)
    requires
        c.wf(),
        distinct_urls(c.spec_originals()),
        forall|i: int|
            0 <= i < c.spec_originals().len() ==> (#[trigger] c.spec_originals()[i]).download_rate
                is None,
    ensures
        ({
            let r = c.spec_updated() + c.spec_originals().filter(
                (|m: Mirror| !url_in(c.spec_updated(), m.url@)),
            );
            &&& r.len() == c.spec_originals().len()
            &&& forall|u: Seq<char>| url_in(r, u) <==> url_in(c.spec_originals(), u)
            &&& forall|i: int|
                0 <= i < r.len() ==> ((#[trigger] r[i]).download_rate is Some <==> url_in(
                    c.spec_updated(),
                    r[i].url@,
                ))
        }),
{
    let upd = c.spec_updated();
    let orig = c.spec_originals();
    let pred = |m: Mirror| !url_in(upd, m.url@);
    let f = orig.filter(pred);
    let r = upd + f;
    lemma_filter_out_len(orig, upd);
    assert(r.len() == orig.len());
    lemma_filter_subset(orig, pred);
    orig.lemma_filter_len(pred);
    assert forall|u: Seq<char>| url_in(r, u) implies url_in(orig, u) by {
        let i = choose|i: int| 0 <= i < r.len() && r[i].url@ == u;
        if i < upd.len() {
            assert(r[i] == upd[i]);
            assert(url_in(orig, upd[i].url@));
        } else {
            assert(r[i] == f[i - upd.len()]);
            assert(orig.contains(f[i - upd.len()]));
            let j = choose|j: int| 0 <= j < orig.len() && orig[j] == r[i];
            assert(orig[j].url@ == u);
        }
    }
    assert forall|u: Seq<char>| url_in(orig, u) implies url_in(r, u) by {
        let i = choose|i: int| 0 <= i < orig.len() && orig[i].url@ == u;
        if url_in(upd, u) {
            let j = choose|j: int| 0 <= j < upd.len() && upd[j].url@ == u;
            assert(r[j].url@ == u);
        } else {
            assert(pred(orig[i]));
            orig.lemma_filter_contains(pred, i);
            let j = choose|j: int| 0 <= j < f.len() && f[j] == orig[i];
            assert(r[upd.len() + j].url@ == u);
        }
    }
    assert forall|i: int|
        0 <= i < r.len() implies ((#[trigger] r[i]).download_rate is Some <==> url_in(
        upd,
        r[i].url@,
    )) by {
        if i < upd.len() {
            assert(r[i] == upd[i]);
            assert(upd[i].url@ == upd[i].url@ && 0 <= i < upd.len());
            assert(url_in(upd, r[i].url@));
        } else {
            assert(r[i] == f[i - upd.len()]);
            orig.lemma_filter_pred(pred, i - upd.len());
            assert(!url_in(upd, r[i].url@));
            assert(orig.contains(f[i - upd.len()]));
            let j = choose|j: int| 0 <= j < orig.len() && orig[j] == r[i];
            assert(orig[j].download_rate is None);
        }
    }
}

} // verus!

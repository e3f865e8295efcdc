//! The comparison policy behind each sort key, and its laws.
//!
//! Every key induces a strict weak order over mirrors, so the stable sort
//! of [`crate::sorting`] behaves deterministically on all of them; missing
//! and not-a-number values take fixed places instead of poisoning the
//! order.

use vstd::prelude::*;

use crate::mirror::Bandwidth;
use crate::mirror::Mirror;
use crate::mirror::SortKey;
use crate::sorting::is_strict_order;

verus! {

/// Strict lexicographic order on character sequences, by code point.
pub open spec fn lex_lt(s: Seq<char>, t: Seq<char>) -> bool
    decreases s.len() + t.len(),
{
    if t.len() == 0 {
        false
    } else if s.len() == 0 {
        true
    } else if (s[0] as u32) < (t[0] as u32) {
        true
    } else if (s[0] as u32) != (t[0] as u32) {
        false
    } else {
        lex_lt(s.drop_first(), t.drop_first())
    }
}

pub proof fn lemma_lex_asym(s: Seq<char>, t: Seq<char>)
    ensures
        lex_lt(s, t) ==> !lex_lt(t, s),
    decreases s.len() + t.len(),
{
    if s.len() > 0 && t.len() > 0 && (s[0] as u32) == (t[0] as u32) {
        lemma_lex_asym(s.drop_first(), t.drop_first());
    }
}

pub proof fn lemma_lex_neg_trans(a: Seq<char>, b: Seq<char>, c: Seq<char>)
    ensures
        !lex_lt(b, a) && !lex_lt(c, b) ==> !lex_lt(c, a),
    decreases a.len() + b.len() + c.len(),
{
    if a.len() > 0 && b.len() > 0 && c.len() > 0 && (a[0] as u32) == (b[0] as u32) && (b[0]
        as u32) == (c[0] as u32) {
        lemma_lex_neg_trans(a.drop_first(), b.drop_first(), c.drop_first());
    }
}

/// The exact rate a transfer outcome stands for, as the pair
/// `(bytes, millis)` of an exact fraction `bytes / millis` (the fixed
/// 1/1000 scale cancels in every comparison), or `None` for anything that
/// does not denote a positive measurement: no probe, or the zero-byte
/// sentinel.
pub open spec fn rate_fraction(r: Option<Bandwidth>) -> Option<(int, int)> {
    match r {
        Some(Bandwidth::Measured { bytes, millis }) => if bytes >= 1 {
            Some((bytes as int, millis as int))
        } else {
            None
        },
        _ => None,
    }
}

/// Descending by exact measured rate: `a` strictly precedes `b` when `a`'s
/// rate is strictly greater; missing and zero-byte rates rank after every
/// measurement, and tie with each other.
pub open spec fn rate_before(a: Option<Bandwidth>, b: Option<Bandwidth>) -> bool {
    match (rate_fraction(a), rate_fraction(b)) {
        (Some((b1, m1)), Some((b2, m2))) => b1 * m2 > b2 * m1,
        (Some(_), None) => true,
        _ => false,
    }
}

pub proof fn lemma_rate_neg_trans(a: Option<Bandwidth>, b: Option<Bandwidth>, c: Option<Bandwidth>)
    ensures
        !rate_before(b, a) && !rate_before(c, b) ==> !rate_before(c, a),
{
    if !rate_before(b, a) && !rate_before(c, b) && rate_fraction(a) is Some && rate_fraction(b)
        is Some && rate_fraction(c) is Some {
        let (pa, qa) = rate_fraction(a)->0;
        let (pb, qb) = rate_fraction(b)->0;
        let (pc, qc) = rate_fraction(c)->0;
        if qb == 0 {
            assert(qa == 0) by (nonlinear_arith)
                requires
                    pb * qa <= pa * qb,
                    qb == 0,
                    pb >= 1,
                    qa >= 0,
            ;
            assert(pc * qa <= pa * qc) by (nonlinear_arith)
                requires
                    qa == 0,
                    pa >= 1,
                    qc >= 0,
            ;
        } else {
            assert(pc * qa * qb <= pa * qc * qb) by (nonlinear_arith)
                requires
                    pb * qa <= pa * qb,
                    pc * qb <= pb * qc,
                    pa >= 1,
                    pb >= 1,
                    pc >= 1,
                    qa >= 0,
                    qb >= 1,
                    qc >= 0,
            ;
            assert(pc * qa <= pa * qc) by (nonlinear_arith)
                requires
                    pc * qa * qb <= pa * qc * qb,
                    qb >= 1,
            ;
        }
    }
}

/// Ascending with the missing value largest: the policy of the score and
/// delay keys, whose absent values rank last.
pub open spec fn opt_high_key(v: Option<i64>) -> int {
    match v {
        None => i64::MAX as int + 1,
        Some(x) => x as int,
    }
}

/// Ascending with the missing value smallest: the policy of the age key,
/// whose never-synchronized endpoints rank first.
pub open spec fn age_key(m: Mirror) -> int {
    match m.last_sync {
        None => i64::MIN as int - 1,
        Some(t) => t as int,
    }
}

/// The country name a mirror is ranked by: missing reads as the empty
/// string, which sorts first.
pub open spec fn country_key(m: Mirror) -> Seq<char> {
    match m.country {
        None => Seq::empty(),
        Some(c) => c@,
    }
}

/// Whether `a` strictly precedes `b` in the ranking by `k`.
pub open spec fn ranks_before(k: SortKey, a: Mirror, b: Mirror) -> bool {
    match k {
        SortKey::Age => age_key(a) < age_key(b),
        SortKey::Rate => rate_before(a.download_rate, b.download_rate),
        SortKey::Country => lex_lt(country_key(a), country_key(b)),
        SortKey::Score => opt_high_key(a.score) < opt_high_key(b.score),
        SortKey::Delay => opt_high_key(a.delay) < opt_high_key(b.delay),
    }
}

/// The order of the ranking by `k`, as a value.
pub open spec fn mirror_order(k: SortKey) -> spec_fn(Mirror, Mirror) -> bool {
    |a: Mirror, b: Mirror| ranks_before(k, a, b)
}

/// Every ranking key induces a strict weak order, the shape the stable
/// sort's laws ask for.
pub proof fn lemma_mirror_order_strict(k: SortKey)
    ensures
        is_strict_order(mirror_order(k)),
{
    let lt = mirror_order(k);
    assert forall|a: Mirror, b: Mirror| #[trigger] lt(a, b) implies !lt(b, a) by {
        if k is Country {
            lemma_lex_asym(country_key(a), country_key(b));
        }
    }
    assert forall|a: Mirror, b: Mirror, c: Mirror|
        #![trigger lt(b, a), lt(c, b)]
        !lt(b, a) && !lt(c, b) implies !lt(c, a) by {
        match k {
            SortKey::Country => {
                lemma_lex_neg_trans(country_key(a), country_key(b), country_key(c));
            },
            SortKey::Rate => {
                lemma_rate_neg_trans(a.download_rate, b.download_rate, c.download_rate);
            },
            _ => {},
        }
    }
}

/// The view of a report entry — country name, country code, mirror count —
/// with the strings as character sequences.
pub open spec fn entry_view(e: (String, String, usize)) -> (Seq<char>, Seq<char>, nat) {
    (e.0@, e.1@, e.2 as nat)
}

/// The country report's order over entry views: ascending by country
/// name, then by country code.
pub open spec fn ventry_lt(a: (Seq<char>, Seq<char>, nat), b: (Seq<char>, Seq<char>, nat)) -> bool {
    lex_lt(a.0, b.0) || (!lex_lt(a.0, b.0) && !lex_lt(b.0, a.0) && lex_lt(a.1, b.1))
}

/// The country report's order over entry views, as a value.
pub open spec fn ventry_order() -> spec_fn(
    (Seq<char>, Seq<char>, nat),
    (Seq<char>, Seq<char>, nat),
) -> bool {
    |a: (Seq<char>, Seq<char>, nat), b: (Seq<char>, Seq<char>, nat)| ventry_lt(a, b)
}

/// The country report's order over entries: the view order, through the
/// view.
pub open spec fn entry_lt(a: (String, String, usize), b: (String, String, usize)) -> bool {
    ventry_lt(entry_view(a), entry_view(b))
}

/// The country report's order: by country name, then by country code.
pub open spec fn entry_order() -> spec_fn((String, String, usize), (String, String, usize)) -> bool {
    |a: (String, String, usize), b: (String, String, usize)| entry_lt(a, b)
}

/// Decides the lexicographic order on two strings.
pub fn str_lex_lt(a: &str, b: &str) -> (r: bool)
    ensures
        r == lex_lt(a@, b@),
{
    let la = a.unicode_len();
    let lb = b.unicode_len();
    let mut i: usize = 0;
    proof {
        assert(a@.skip(0) =~= a@);
        assert(b@.skip(0) =~= b@);
    }
    while i < la && i < lb
        invariant
            i <= la,
            i <= lb,
            la == a@.len(),
            lb == b@.len(),
            lex_lt(a@, b@) == lex_lt(a@.skip(i as int), b@.skip(i as int)),
        decreases la - i,
    {
        let ca = a.get_char(i);
        let cb = b.get_char(i);
        if (ca as u32) < (cb as u32) {
            return true;
        }
        if (cb as u32) < (ca as u32) {
            return false;
        }
        proof {
            assert(a@.skip(i as int).drop_first() =~= a@.skip(i as int + 1));
            assert(b@.skip(i as int).drop_first() =~= b@.skip(i as int + 1));
        }
        i = i + 1;
    }
    la < lb
}

/// Decides the rate order on two transfer outcomes.
fn rate_comes_before(a: &Option<Bandwidth>, b: &Option<Bandwidth>) -> (r: bool)
    ensures
        r == rate_before(*a, *b),
{
    match (a, b) {
        (
            Some(Bandwidth::Measured { bytes: b1, millis: m1 }),
            Some(Bandwidth::Measured { bytes: b2, millis: m2 }),
        ) => {
            if *b1 == 0 {
                false
            } else if *b2 == 0 {
                true
            } else {
                proof {
                    vstd::arithmetic::mul::lemma_mul_upper_bound(
                        *b1 as int,
                        u64::MAX as int,
                        *m2 as int,
                        u64::MAX as int,
                    );
                    vstd::arithmetic::mul::lemma_mul_upper_bound(
                        *b2 as int,
                        u64::MAX as int,
                        *m1 as int,
                        u64::MAX as int,
                    );
                }
                (*b1 as u128) * (*m2 as u128) > (*b2 as u128) * (*m1 as u128)
            }
        },
        (Some(Bandwidth::Measured { bytes, .. }), _) => *bytes >= 1,
        _ => false,
    }
}

/// A mirror's country name for ranking: the empty string when missing.
fn country_str(m: &Mirror) -> (r: &str)
    ensures
        r@ == country_key(*m),
{
    proof {
        reveal_strlit("");
        assert(""@ =~= Seq::<char>::empty());
    }
    match &m.country {
        Some(c) => c.as_str(),
        None => "",
    }
}

/// Ascending on an optional value whose absence ranks last.
fn opt_high_lt(x: Option<i64>, y: Option<i64>) -> (r: bool)
    ensures
        r == (opt_high_key(x) < opt_high_key(y)),
{
    match (x, y) {
        (Some(a), Some(b)) => a < b,
        (Some(_), None) => true,
        _ => false,
    }
}

/// Decides whether `a` strictly precedes `b` in the ranking by `k`.
pub fn comes_before(k: SortKey, a: &Mirror, b: &Mirror) -> (r: bool)
    ensures
        r == ranks_before(k, *a, *b),
{
    match k {
        SortKey::Age => match (a.last_sync, b.last_sync) {
            (None, Some(_)) => true,
            (Some(x), Some(y)) => x < y,
            _ => false,
        },
        SortKey::Rate => rate_comes_before(&a.download_rate, &b.download_rate),
        SortKey::Country => str_lex_lt(country_str(a), country_str(b)),
        SortKey::Score => opt_high_lt(a.score, b.score),
        SortKey::Delay => opt_high_lt(a.delay, b.delay),
    }
}

/// Decides the country report's entry order.
pub fn entry_comes_before(
    a: &(String, String, usize),
    b: &(String, String, usize),
) -> (r: bool)
    ensures
        r == entry_lt(*a, *b),
{
    if str_lex_lt(a.0.as_str(), b.0.as_str()) {
        true
    } else if str_lex_lt(b.0.as_str(), a.0.as_str()) {
        false
    } else {
        str_lex_lt(a.1.as_str(), b.1.as_str())
    }
}

} // verus!


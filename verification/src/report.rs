//! Renderers: the mirror-list file body and the country report.

use vstd::prelude::*;
use vstd::string::StrSliceExecFns;
use vstd::string::StringExecFns;

use crate::mirror::Mirror;
use crate::mirror::MirrorList;
use crate::order::entry_comes_before;
use crate::order::entry_order;
use crate::order::entry_view;
use crate::order::ventry_order;
use crate::sorting::lemma_insert_by_position;
use crate::sorting::lemma_sort_by_len;
use crate::sorting::lemma_sort_by_map;
use crate::sorting::spec_insert_by;
use crate::sorting::spec_sort_by;

verus! {

/// `n` spaces.
pub open spec fn spaces(n: nat) -> Seq<char> {
    Seq::new(n, |i: int| ' ')
}

/// `n` dashes.
pub open spec fn dashes(n: nat) -> Seq<char> {
    Seq::new(n, |i: int| '-')
}

fn push_spaces(out: &mut String, n: usize)
    ensures
        final(out)@ == old(out)@ + spaces(n as nat),
{
    let mut i: usize = 0;
    proof {
        assert(out@ + spaces(0) =~= out@);
    }
    while i < n
        invariant
            i <= n,
            out@ == old(out)@ + spaces(i as nat),
        decreases n - i,
    {
        out.append(" ");
        proof {
            reveal_strlit(" ");
            assert(old(out)@ + spaces(i as nat) + " "@ =~= old(out)@ + spaces(i as nat + 1));
        }
        i = i + 1;
    }
}

fn push_dashes(out: &mut String, n: usize)
    ensures
        final(out)@ == old(out)@ + dashes(n as nat),
{
    let mut i: usize = 0;
    proof {
        assert(out@ + dashes(0) =~= out@);
    }
    while i < n
        invariant
            i <= n,
            out@ == old(out)@ + dashes(i as nat),
        decreases n - i,
    {
        out.append("-");
        proof {
            reveal_strlit("-");
            assert(old(out)@ + dashes(i as nat) + "-"@ =~= old(out)@ + dashes(i as nat + 1));
        }
        i = i + 1;
    }
}

/// The digit character of `d`, for `d` below ten.
pub open spec fn digit_char(d: nat) -> char {
    if d == 0 {
        '0'
    } else if d == 1 {
        '1'
    } else if d == 2 {
        '2'
    } else if d == 3 {
        '3'
    } else if d == 4 {
        '4'
    } else if d == 5 {
        '5'
    } else if d == 6 {
        '6'
    } else if d == 7 {
        '7'
    } else if d == 8 {
        '8'
    } else {
        '9'
    }
}

fn digit_str(d: usize) -> (r: &'static str)
    requires
        d < 10,
    ensures
        r@ == seq![digit_char(d as nat)],
{
    proof {
        reveal_strlit("0");
        reveal_strlit("1");
        reveal_strlit("2");
        reveal_strlit("3");
        reveal_strlit("4");
        reveal_strlit("5");
        reveal_strlit("6");
        reveal_strlit("7");
        reveal_strlit("8");
        reveal_strlit("9");
    }
    let r = match d {
        0 => "0",
        1 => "1",
        2 => "2",
        3 => "3",
        4 => "4",
        5 => "5",
        6 => "6",
        7 => "7",
        8 => "8",
        _ => "9",
    };
    proof {
        assert(r@ =~= seq![digit_char(d as nat)]);
    }
    r
}

/// The decimal numeral of `n`, most significant digit first.
pub open spec fn spec_dec(n: nat) -> Seq<char>
    decreases n,
{
    if n < 10 {
        seq![digit_char(n)]
    } else {
        spec_dec(n / 10).push(digit_char(n % 10))
    }
}

/// Renders `n` in decimal.
fn usize_to_string(n: usize) -> (r: String)
    ensures
        r@ == spec_dec(n as nat),
    decreases n,
{
    if n < 10 {
        String::from_str(digit_str(n))
    } else {
        let mut s = usize_to_string(n / 10);
        s.append(digit_str(n % 10));
        proof {
            assert(s@ =~= spec_dec(n as nat));
        }
        s
    }
}

/// `s` right-aligned in a field of `w` columns; a longer `s` stands as it
/// is.
pub open spec fn pad_left(s: Seq<char>, w: nat) -> Seq<char> {
    if s.len() >= w {
        s
    } else {
        spaces((w - s.len()) as nat) + s
    }
}

fn append_pad_left(out: &mut String, s: &str, w: usize)
    ensures
        final(out)@ == old(out)@ + pad_left(s@, w as nat),
{
    let l = s.unicode_len();
    if l < w {
        push_spaces(out, w - l);
    }
    out.append(s);
    proof {
        assert(out@ =~= old(out)@ + pad_left(s@, w as nat));
    }
}

/// One line of the country report: the country name padded out to `width`
/// columns, then the code and the count, each right-aligned to four
/// columns.
pub open spec fn spec_country_line(
    country: Seq<char>,
    code: Seq<char>,
    count: nat,
    width: nat,
) -> Seq<char> {
    country + spaces((width - country.len()) as nat) + " "@ + pad_left(code, 4) + " "@ + pad_left(
        spec_dec(count),
        4,
    )
}

/// Renders one line of the country report; `country_len` is the name
/// column's width, never narrower than the country name itself.
pub fn get_country_line(country: &str, code: &str, count: usize, country_len: usize) -> (r: String)
    requires
        country@.len() <= country_len,
    ensures
        r@ == spec_country_line(country@, code@, count as nat, country_len as nat),
{
    let mut out = String::from_str(country);
    let l = country.unicode_len();
    push_spaces(&mut out, country_len - l);
    out.append(" ");
    append_pad_left(&mut out, code, 4);
    out.append(" ");
    let num = usize_to_string(count);
    append_pad_left(&mut out, num.as_str(), 4);
    proof {
        assert(out@ =~= spec_country_line(country@, code@, count as nat, country_len as nat));
    }
    out
}

/// One mirror-list line.
pub open spec fn spec_server_line(url: Seq<char>) -> Seq<char> {
    "Server = "@ + url + "$repo/os/$arch"@
}

/// The mirror-list lines of `s`, joined with newlines.
pub open spec fn spec_server_lines(s: Seq<Mirror>) -> Seq<char>
    decreases s.len(),
{
    if s.len() == 0 {
        Seq::empty()
    } else if s.len() == 1 {
        spec_server_line(s[0].url@)
    } else {
        spec_server_lines(s.drop_last()) + "\n"@ + spec_server_line(s.last().url@)
    }
}

/// The fixed banner of the mirror-list file, and the provenance line when
/// the directory's source is known.
pub open spec fn spec_preambule(source: Option<String>) -> Seq<char> {
    let base = "# Arch Linux mirror list generated by reflecto.rs"@ + "\n"@ + "#"@;
    match source {
        None => base,
        Some(s) => base + "\n"@ + "# from: \t"@ + s@,
    }
}

impl MirrorList {
    fn file_preambule(&self) -> (r: String)
        ensures
            r@ == spec_preambule(self.source),
    {
        let mut out = String::from_str("# Arch Linux mirror list generated by reflecto.rs");
        out.append("\n");
        out.append("#");
        match &self.source {
            None => {},
            Some(s) => {
                out.append("\n");
                out.append("# from: \t");
                out.append(s.as_str());
            },
        }
        proof {
            assert(out@ =~= spec_preambule(self.source));
        }
        out
    }

    fn server_list(&self, limit: usize) -> (r: String)
        ensures
            r@ == spec_server_lines(
                self.mirrors@.take(vstd::math::min(limit as int, self.mirrors@.len() as int)),
            ),
    {
        let n = self.mirrors.len();
        let lim = if limit > n {
            n
        } else {
            limit
        };
        let mut out = String::new();
        let mut i: usize = 0;
        proof {
            assert(self.mirrors@.take(0) =~= Seq::<Mirror>::empty());
        }
        while i < lim
            invariant
                i <= lim,
                lim <= self.mirrors@.len(),
                out@ == spec_server_lines(self.mirrors@.take(i as int)),
            decreases lim - i,
    {
            if i > 0 {
                out.append("\n");
            }
            out.append("Server = ");
            out.append(self.mirrors[i].url.as_str());
            out.append("$repo/os/$arch");
            proof {
                let t = self.mirrors@.take(i + 1);
                assert(t.drop_last() =~= self.mirrors@.take(i as int));
                assert(t.last() == self.mirrors@[i as int]);
                if i == 0 {
                    assert(t[0] == self.mirrors@[0]);
                }
                assert(out@ =~= spec_server_lines(t));
            }
            i = i + 1;
        }
        proof {
            assert(self.mirrors@.take(lim as int) =~= self.mirrors@.take(
                vstd::math::min(limit as int, self.mirrors@.len() as int),
            ));
        }
        out
    }

    /// The full mirror-list file body: the banner, a blank line, then one
    /// `Server = <url>$repo/os/$arch` line per mirror, in the directory's
    /// current order, truncated to at most `number` mirrors.
    pub open spec fn spec_file_content(self, number: int) -> Seq<char> {
        spec_preambule(self.source) + "\n"@ + "\n"@ + spec_server_lines(
            self.mirrors@.take(vstd::math::min(number, self.mirrors@.len() as int)),
        )
    }

    /// Renders the mirror-list file body.
    pub fn to_file_content(&self, number: usize) -> (r: String)
        ensures
            r@ == self.spec_file_content(number as int),
    {
        let mut out = self.file_preambule();
        out.append("\n");
        out.append("\n");
        let list = self.server_list(number);
        out.append(list.as_str());
        proof {
            assert(out@ =~= self.spec_file_content(number as int));
        }
        out
    }
}

/// The country pair a mirror reports, when it reports both parts.
pub open spec fn pair_of(m: Mirror) -> Option<(Seq<char>, Seq<char>)> {
    match (m.country, m.country_code) {
        (Some(c), Some(cc)) => Some((c@, cc@)),
        _ => None,
    }
}

/// How many mirrors of `s` report the country pair `p`.
pub open spec fn spec_pair_count(s: Seq<Mirror>, p: (Seq<char>, Seq<char>)) -> nat
    decreases s.len(),
{
    if s.len() == 0 {
        0
    } else {
        spec_pair_count(s.drop_last(), p) + (if pair_of(s.last()) == Some(p) {
            1nat
        } else {
            0nat
        })
    }
}

/// The distinct country pairs of `s`, in order of first appearance.
pub open spec fn spec_pairs(s: Seq<Mirror>) -> Seq<(Seq<char>, Seq<char>)>
    decreases s.len(),
{
    if s.len() == 0 {
        Seq::empty()
    } else {
        let p0 = spec_pairs(s.drop_last());
        match pair_of(s.last()) {
            None => p0,
            Some(pr) => if p0.contains(pr) {
                p0
            } else {
                p0.push(pr)
            },
        }
    }
}

proof fn lemma_spec_pairs_distinct(s: Seq<Mirror>)
    ensures
        forall|i: int, j: int|
            0 <= i < j < spec_pairs(s).len() ==> spec_pairs(s)[i] != spec_pairs(s)[j],
    decreases s.len(),
{
    if s.len() > 0 {
        lemma_spec_pairs_distinct(s.drop_last());
        let p0 = spec_pairs(s.drop_last());
        let ps = spec_pairs(s);
        assert forall|i: int, j: int| 0 <= i < j < ps.len() implies ps[i] != ps[j] by {
            if j < p0.len() {
                assert(ps[i] == p0[i] && ps[j] == p0[j]);
            } else {
                // only possible when a fresh pair was appended
                assert(ps[i] == p0[i]);
                if ps[i] == ps[j] {
                    assert(p0.contains(ps[j]));
                }
            }
        }
    }
}

/// A pair that never appears has count zero.
proof fn lemma_pair_count_zero(s: Seq<Mirror>, p: (Seq<char>, Seq<char>))
    requires
        !spec_pairs(s).contains(p),
    ensures
        spec_pair_count(s, p) == 0,
    decreases s.len(),
{
    if s.len() > 0 {
        let p0 = spec_pairs(s.drop_last());
        assert(!p0.contains(p)) by {
            if p0.contains(p) {
                let k = choose|k: int| 0 <= k < p0.len() && p0[k] == p;
                assert(spec_pairs(s)[k] == p);
            }
        }
        lemma_pair_count_zero(s.drop_last(), p);
        if pair_of(s.last()) == Some(p) {
            if p0.contains(p) {
            } else {
                assert(spec_pairs(s).last() == p);
            }
        }
    }
}

/// Finds the entry bearing the given country pair, if any.
fn find_pair(entries: &Vec<(String, String, usize)>, c: &String, cc: &String) -> (r: Option<
    usize,
>)
    ensures
        match r {
            Some(j) => 0 <= j < entries@.len() && entries@[j as int].0@ == c@
                && entries@[j as int].1@ == cc@,
            None => forall|j: int|
                0 <= j < entries@.len() ==> !((#[trigger] entries@[j]).0@ == c@ && entries@[j].1@
                    == cc@),
        },
{
    let mut i: usize = 0;
    while i < entries.len()
        invariant
            i <= entries@.len(),
            forall|j: int|
                0 <= j < i ==> !((#[trigger] entries@[j]).0@ == c@ && entries@[j].1@ == cc@),
        decreases entries@.len() - i,
    {
        if entries[i].0 == *c && entries[i].1 == *cc {
            return Some(i);
        }
        i = i + 1;
    }
    None
}

impl MirrorList {
    /// Counts mirrors by country: every (name, code) pair that at least
    /// one mirror reports, in order of first appearance, with the number
    /// of mirrors reporting it.
    fn country_counts(&self) -> (r: Vec<(String, String, usize)>)
        ensures
            r@.len() == spec_pairs(self.mirrors@).len(),
            forall|j: int|
                0 <= j < r@.len() ==> ((#[trigger] r@[j]).0@, r@[j].1@) == spec_pairs(
                    self.mirrors@,
                )[j],
            forall|j: int|
                0 <= j < r@.len() ==> (#[trigger] r@[j]).2 == spec_pair_count(
                    self.mirrors@,
                    spec_pairs(self.mirrors@)[j],
                ),
    {
        let ghost ms = self.mirrors@;
        let mut entries: Vec<(String, String, usize)> = Vec::new();
        let mut i: usize = 0;
        proof {
            assert(ms.take(0) =~= Seq::<Mirror>::empty());
        }
        while i < self.mirrors.len()
            invariant
                i <= ms.len(),
                ms == self.mirrors@,
                entries@.len() == spec_pairs(ms.take(i as int)).len(),
                forall|j: int|
                    0 <= j < entries@.len() ==> ((#[trigger] entries@[j]).0@, entries@[j].1@)
                        == spec_pairs(ms.take(i as int))[j],
                forall|j: int|
                    0 <= j < entries@.len() ==> (#[trigger] entries@[j]).2 == spec_pair_count(
                        ms.take(i as int),
                        spec_pairs(ms.take(i as int))[j],
                    ),
                forall|j: int| 0 <= j < entries@.len() ==> (#[trigger] entries@[j]).2 <= i,
            decreases ms.len() - i,
        {
            let ghost t0 = ms.take(i as int);
            let ghost t1 = ms.take(i + 1);
            proof {
                assert(t1.drop_last() =~= t0);
                assert(t1.last() == ms[i as int]);
            }
            let m = &self.mirrors[i];
            match (&m.country, &m.country_code) {
                (Some(c), Some(cc)) => {
                    proof {
                        assert(pair_of(ms[i as int]) == Some((c@, cc@)));
                    }
                    let ghost pr = (c@, cc@);
                    match find_pair(&entries, c, cc) {
                        Some(j) => {
                            proof {
                                assert(spec_pairs(t0)[j as int] == pr);
                                assert(spec_pairs(t0).contains(pr));
                                assert(spec_pairs(t1) == spec_pairs(t0));
                                lemma_spec_pairs_distinct(t0);
                            }
                            let e = entries.remove(j);
                            let ghost mid = entries@;
                            entries.insert(j, (e.0, e.1, e.2 + 1));
                            proof {
                                let old_entries = mid.insert(j as int, e);
                                assert(old_entries =~= mid.insert(
                                    j as int,
                                    (e.0, e.1, e.2),
                                ));
                                assert(entries@ =~= old_entries.update(
                                    j as int,
                                    (e.0, e.1, (e.2 + 1) as usize),
                                ));
                                assert forall|j2: int|
                                    0 <= j2 < entries@.len() implies (#[trigger] entries@[j2]).2
                                    == spec_pair_count(t1, spec_pairs(t1)[j2]) by {
                                    if j2 == j {
                                        assert(spec_pair_count(t1, pr) == spec_pair_count(t0, pr)
                                            + 1);
                                    } else {
                                        assert(entries@[j2] == old_entries[j2]);
                                        assert(spec_pairs(t0)[j2] != pr);
                                        assert(spec_pair_count(t1, spec_pairs(t1)[j2])
                                            == spec_pair_count(t0, spec_pairs(t0)[j2]));
                                    }
                                }
                            }
                        },
                        None => {
                            proof {
                                assert(!spec_pairs(t0).contains(pr)) by {
                                    if spec_pairs(t0).contains(pr) {
                                        let k = choose|k: int|
                                            0 <= k < spec_pairs(t0).len() && spec_pairs(t0)[k]
                                                == pr;
                                        assert(((entries@[k]).0@, entries@[k].1@) == pr);
                                    }
                                }
                                assert(spec_pairs(t1) == spec_pairs(t0).push(pr));
                                lemma_pair_count_zero(t0, pr);
                            }
                            entries.push((c.clone(), cc.clone(), 1));
                            proof {
                                assert forall|j2: int|
                                    0 <= j2 < entries@.len() implies (#[trigger] entries@[j2]).2
                                    == spec_pair_count(t1, spec_pairs(t1)[j2]) by {
                                    if j2 < entries@.len() - 1 {
                                        assert(spec_pairs(t0).contains(spec_pairs(t0)[j2]));
                                        assert(spec_pairs(t0)[j2] != pr);
                                        assert(spec_pair_count(t1, spec_pairs(t1)[j2])
                                            == spec_pair_count(t0, spec_pairs(t0)[j2]));
                                    } else {
                                        assert(spec_pair_count(t1, pr) == spec_pair_count(t0, pr)
                                            + 1);
                                    }
                                }
                            }
                        },
                    }
                },
                _ => {
                    proof {
                        assert(pair_of(ms[i as int]) is None);
                        assert(spec_pairs(t1) == spec_pairs(t0));
                        assert(forall|p: (Seq<char>, Seq<char>)|
                            spec_pair_count(t1, p) == spec_pair_count(t0, p));
                    }
                },
            }
            i = i + 1;
        }
        proof {
            assert(ms.take(ms.len() as int) =~= ms);
        }
        entries
    }
}

/// Stable insertion sort of the report's entries, by country then code.
fn sort_entries(v: &mut Vec<(String, String, usize)>)
    ensures
        final(v)@ == spec_sort_by(old(v)@, entry_order()),
{
    let ghost orig = v@;
    let ghost lt = entry_order();
    let n = v.len();
    let mut i: usize = 0;
    proof {
        assert(orig.take(0) =~= Seq::<(String, String, usize)>::empty());
        assert(orig.skip(0) =~= orig);
        assert(v@ =~= spec_sort_by(orig.take(0), lt) + orig.skip(0));
    }
    while i < n
        invariant
            i <= n,
            n == v@.len(),
            v@.len() == orig.len(),
            lt == entry_order(),
            v@ == spec_sort_by(orig.take(i as int), lt) + orig.skip(i as int),
        decreases n - i,
    {
        let ghost prefix = spec_sort_by(orig.take(i as int), lt);
        proof {
            lemma_sort_by_len(orig.take(i as int), lt);
            assert(v@[i as int] == orig.skip(i as int)[0]);
        }
        let mut p: usize = i;
        while p > 0 && entry_comes_before(&v[i], &v[p - 1])
            invariant
                p <= i,
                i < n,
                n == v@.len(),
                lt == entry_order(),
                v@ == prefix + orig.skip(i as int),
                prefix.len() == i,
                v@[i as int] == orig[i as int],
                forall|j: int| p <= j < i ==> lt(v@[i as int], #[trigger] prefix[j]),
            decreases p,
        {
            proof {
                assert(v@[p - 1] == prefix[p - 1]);
            }
            p = p - 1;
        }
        let m = v.remove(i);
        v.insert(p, m);
        proof {
            lemma_insert_by_position(prefix, m, lt, p as int);
            assert(orig.take(i + 1).drop_last() =~= orig.take(i as int));
            assert(orig.take(i + 1).last() == orig[i as int]);
            assert(spec_sort_by(orig.take(i + 1), lt) == spec_insert_by(prefix, m, lt));
            assert((prefix + orig.skip(i as int)).remove(i as int) =~= prefix + orig.skip(i + 1));
            assert((prefix + orig.skip(i + 1)).insert(p as int, m) =~= (prefix.take(p as int)
                + seq![m] + prefix.skip(p as int)) + orig.skip(i + 1));
            assert(v@ =~= spec_sort_by(orig.take(i + 1), lt) + orig.skip(i + 1));
        }
        i = i + 1;
    }
    proof {
        assert(orig.take(n as int) =~= orig);
        assert(orig.skip(n as int) =~= Seq::<(String, String, usize)>::empty());
        assert(v@ =~= spec_sort_by(orig, lt));
    }
}

/// The view of the country report's entries for directory `s`: every
/// distinct country pair with its count, ordered by country then code.
pub open spec fn spec_report_entries(s: Seq<Mirror>) -> Seq<(Seq<char>, Seq<char>, nat)> {
    spec_sort_by(
        spec_pairs(s).map_values(
            (|p: (Seq<char>, Seq<char>)| (p.0, p.1, spec_pair_count(s, p))),
        ),
        ventry_order(),
    )
}

/// The name column's width: the longest country name, and at least the
/// seven columns of the word "Country".
pub open spec fn spec_longest(ts: Seq<(Seq<char>, Seq<char>, nat)>) -> nat
    decreases ts.len(),
{
    if ts.len() == 0 {
        7
    } else if ts.last().0.len() > spec_longest(ts.drop_last()) {
        ts.last().0.len()
    } else {
        spec_longest(ts.drop_last())
    }
}

proof fn lemma_longest_bounds(ts: Seq<(Seq<char>, Seq<char>, nat)>)
    ensures
        spec_longest(ts) >= 7,
        forall|j: int| 0 <= j < ts.len() ==> (#[trigger] ts[j]).0.len() <= spec_longest(ts),
    decreases ts.len(),
{
    if ts.len() > 0 {
        lemma_longest_bounds(ts.drop_last());
        assert forall|j: int| 0 <= j < ts.len() implies (#[trigger] ts[j]).0.len()
            <= spec_longest(ts) by {
            if j < ts.len() - 1 {
                assert(ts[j] == ts.drop_last()[j]);
            } else {
                assert(ts[j] == ts.last());
            }
        }
    }
}

/// The report's data lines, each on its own line below the separator;
/// entries with an empty country name are skipped.
pub open spec fn spec_report_lines(ts: Seq<(Seq<char>, Seq<char>, nat)>, w: nat) -> Seq<char>
    decreases ts.len(),
{
    if ts.len() == 0 {
        Seq::empty()
    } else {
        spec_report_lines(ts.drop_last(), w) + (if ts.last().0.len() == 0 {
            Seq::<char>::empty()
        } else {
            "\n"@ + spec_country_line(ts.last().0, ts.last().1, ts.last().2, w)
        })
    }
}

/// The whole country report: header, separator, then one line per
/// distinct non-empty (country, code) pair with its mirror count, in
/// ascending (country, code) order, aligned to the longest country name.
pub open spec fn spec_print_countries(s: Seq<Mirror>) -> Seq<char> {
    let ts = spec_report_entries(s);
    let w = spec_longest(ts);
    "Country"@ + spaces((w - 7) as nat) + " Code Count"@ + "\n"@ + dashes(w) + " ---- ----"@
        + spec_report_lines(ts, w)
}

impl MirrorList {
    /// Renders the country report.
    pub fn print_countries(&self) -> (r: String)
        ensures
            r@ == spec_print_countries(self.mirrors@),
    {
        let ghost ms = self.mirrors@;
        let mut entries = self.country_counts();
        let ghost unsorted = entries@;
        sort_entries(&mut entries);
        let ghost ts = spec_report_entries(ms);
        proof {
            assert(unsorted.map_values(|e: (String, String, usize)| entry_view(e))
                =~= spec_pairs(ms).map_values(
                (|p: (Seq<char>, Seq<char>)| (p.0, p.1, spec_pair_count(ms, p))),
            ));
            assert(forall|a: (String, String, usize), b: (String, String, usize)| #[trigger]
                entry_order()(a, b) == ventry_order()(entry_view(a), entry_view(b)));
            lemma_sort_by_map(
                unsorted,
                |e: (String, String, usize)| entry_view(e),
                entry_order(),
                ventry_order(),
            );
            assert(entries@.map_values(|e: (String, String, usize)| entry_view(e)) == ts);
            assert(entries@.len() == ts.len());
            assert(forall|j: int|
                0 <= j < entries@.len() ==> entry_view(#[trigger] entries@[j]) == ts[j]);
            lemma_longest_bounds(ts);
        }
        let n = entries.len();
        let mut w: usize = 7;
        let mut i: usize = 0;
        proof {
            assert(ts.take(0) =~= Seq::<(Seq<char>, Seq<char>, nat)>::empty());
        }
        while i < n
            invariant
                i <= n,
                n == entries@.len(),
                entries@.len() == ts.len(),
                forall|j: int|
                    0 <= j < entries@.len() ==> entry_view(#[trigger] entries@[j]) == ts[j],
                w as nat == spec_longest(ts.take(i as int)),
            decreases n - i,
        {
            let l = entries[i].0.unicode_len();
            proof {
                assert(ts.take(i + 1).drop_last() =~= ts.take(i as int));
                assert(ts.take(i + 1).last() == ts[i as int]);
                assert(ts[i as int].0.len() == l);
            }
            if l > w {
                w = l;
            }
            i = i + 1;
        }
        proof {
            assert(ts.take(ts.len() as int) =~= ts);
            assert(w as nat == spec_longest(ts));
        }
        let mut out = String::from_str("Country");
        push_spaces(&mut out, w - 7);
        out.append(" Code Count");
        out.append("\n");
        push_dashes(&mut out, w);
        out.append(" ---- ----");
        let ghost head = "Country"@ + spaces((w - 7) as nat) + " Code Count"@ + "\n"@ + dashes(
            w as nat,
        ) + " ---- ----"@;
        proof {
            assert(out@ =~= head);
            assert(spec_report_lines(ts.take(0), w as nat) =~= Seq::<char>::empty());
            assert(out@ =~= head + spec_report_lines(ts.take(0), w as nat));
        }
        let mut i: usize = 0;
        while i < n
            invariant
                i <= n,
                n == entries@.len(),
                entries@.len() == ts.len(),
                forall|j: int|
                    0 <= j < entries@.len() ==> entry_view(#[trigger] entries@[j]) == ts[j],
                w as nat == spec_longest(ts),
                forall|j: int| 0 <= j < ts.len() ==> (#[trigger] ts[j]).0.len() <= w,
                out@ == head + spec_report_lines(ts.take(i as int), w as nat),
            decreases n - i,
        {
            proof {
                assert(ts.take(i + 1).drop_last() =~= ts.take(i as int));
                assert(ts.take(i + 1).last() == ts[i as int]);
                assert(entry_view(entries@[i as int]) == ts[i as int]);
            }
            let l = entries[i].0.unicode_len();
            if l > 0 {
                out.append("\n");
                let line = get_country_line(
                    entries[i].0.as_str(),
                    entries[i].1.as_str(),
                    entries[i].2,
                    w,
                );
                out.append(line.as_str());
            }
            proof {
                assert(out@ =~= head + spec_report_lines(ts.take(i + 1), w as nat));
            }
            i = i + 1;
        }
        proof {
            assert(ts.take(n as int) =~= ts);
            assert(out@ =~= spec_print_countries(ms));
        }
        out
    }
}

} // verus!

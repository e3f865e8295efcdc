//! The data model: endpoints, their transfer rates, and the directory.

use vstd::prelude::*;

verus! {

/// Transport protocol of a mirror endpoint.
#[derive(Clone, Copy, Debug, PartialEq, Eq, Structural)]
pub enum Protocol {
    Ftp,
    Https,
    Http,
    Rsync,
}

impl Default for Protocol {
    /// The protocol assumed when a directory entry does not name one.
    fn default() -> (p: Protocol)
        ensures
            p == Protocol::Https,
    {
        Protocol::Https
    }
}

impl Protocol {
    /// The lower-case name of the protocol.
    pub open spec fn spec_name(self) -> Seq<char> {
        match self {
            Protocol::Ftp => "ftp"@,
            Protocol::Https => "https"@,
            Protocol::Http => "http"@,
            Protocol::Rsync => "rsync"@,
        }
    }

    /// The lower-case name of the protocol, as the mirror status reports it.
    pub fn name(&self) -> (r: String)
        ensures
            r@ == self.spec_name(),
    {
        match self {
            Protocol::Ftp => "ftp".to_owned(),
            Protocol::Https => "https".to_owned(),
            Protocol::Http => "http".to_owned(),
            Protocol::Rsync => "rsync".to_owned(),
        }
    }
}

/// The key by which the directory is ranked.
#[derive(Clone, Copy, Debug, PartialEq, Eq, Structural)]
pub enum SortKey {
    /// Time since the last server synchronization, most recent last.
    Age,
    /// Measured download rate, fastest first.
    Rate,
    /// Country name, alphabetically.
    Country,
    /// Mirror status score; the lower, the better.
    Score,
    /// Mirror status delay; the lower, the better.
    Delay,
}

impl SortKey {
    /// The lower-case name of the key.
    pub open spec fn spec_name(self) -> Seq<char> {
        match self {
            SortKey::Age => "age"@,
            SortKey::Rate => "rate"@,
            SortKey::Country => "country"@,
            SortKey::Score => "score"@,
            SortKey::Delay => "delay"@,
        }
    }

    /// The lower-case name of the key, as a command line would spell it.
    pub fn name(&self) -> (r: String)
        ensures
            r@ == self.spec_name(),
    {
        match self {
            SortKey::Age => "age".to_owned(),
            SortKey::Rate => "rate".to_owned(),
            SortKey::Country => "country".to_owned(),
            SortKey::Score => "score".to_owned(),
            SortKey::Delay => "delay".to_owned(),
        }
    }
}

/// Measured transfer throughput for one endpoint.
///
/// A completed probe that received `bytes > 0` bytes in `millis`
/// milliseconds stands for the rate `bytes / (1000 * millis)` kilobytes per
/// second. The value itself is never stored; the exact pair is, so that two
/// rates compare without rounding. `Empty` records a probe that completed
/// but transferred zero bytes (the not-a-number sentinel of the data
/// model); it ranks below every measured rate.
#[derive(Clone, Copy, Debug, PartialEq, Eq, Structural)]
pub enum Bandwidth {
    /// A completed transfer that received no bytes.
    Empty,
    /// A completed transfer of `bytes` bytes in `millis` milliseconds.
    Measured { bytes: u64, millis: u64 },
}

impl Bandwidth {
    /// The rate recorded for a completed transfer of `bytes` bytes in
    /// `millis` milliseconds: the zero-byte sentinel when nothing was
    /// received, the exact pair otherwise.
    pub open spec fn spec_from_transfer(bytes: usize, millis: u64) -> Bandwidth {
        if bytes == 0 {
            Bandwidth::Empty
        } else {
            Bandwidth::Measured { bytes: bytes as u64, millis }
        }
    }

    /// Records the outcome of a completed transfer.
    pub fn from_transfer(bytes: usize, millis: u64) -> (r: Bandwidth)
        ensures
            r == Bandwidth::spec_from_transfer(bytes, millis),
    {
        if bytes == 0 {
            Bandwidth::Empty
        } else {
            Bandwidth::Measured { bytes: bytes as u64, millis }
        }
    }
}

/// One mirror endpoint of the directory.
///
/// The optional numeric fields hold exactly what the ranking and filtering
/// read of them: `score` and `delay` are kept rounded to the nearest whole
/// number (nothing finer is ever compared), and `last_sync` is the
/// last-synchronization instant as whole seconds since the Unix epoch.
/// Absent capability flags are not the same as `false`, though filtering
/// treats them so.
#[derive(Clone, Debug)]
pub struct Mirror {
    pub url: String,
    pub protocol: Protocol,
    pub score: Option<i64>,
    pub delay: Option<i64>,
    pub country: Option<String>,
    pub country_code: Option<String>,
    pub last_sync: Option<i64>,
    pub isos: Option<bool>,
    pub ipv4: Option<bool>,
    pub ipv6: Option<bool>,
    pub details: String,
    pub download_rate: Option<Bandwidth>,
}

/// Whole minutes in `d` seconds, truncated toward zero, so that a negative
/// duration of less than a minute still counts as zero minutes.
pub open spec fn spec_whole_minutes(d: int) -> int {
    if d >= 0 {
        d / 60
    } else {
        -((-d) / 60)
    }
}

/// Whole minutes between two timestamps, truncated toward zero.
pub(crate) fn whole_minutes(now: i64, ts: i64) -> (r: i64)
    ensures
        r == spec_whole_minutes(now as int - ts as int),
{
    let d: i128 = (now as i128) - (ts as i128);
    if d >= 0 {
        let q: u128 = (d as u128) / 60;
        q as i64
    } else {
        let q: u128 = ((-d) as u128) / 60;
        -(q as i64)
    }
}

impl Mirror {
    /// The age of the endpoint at time `now` (seconds since the Unix
    /// epoch), in whole minutes truncated toward zero: negative when the
    /// last synchronization lies in the future, `None` when the endpoint
    /// never reported one.
    pub open spec fn spec_age_minutes(self, now: int) -> Option<int> {
        match self.last_sync {
            None => None,
            Some(ts) => Some(spec_whole_minutes(now - ts)),
        }
    }

    /// The age of the endpoint at time `now`, in whole minutes.
    pub fn age_minutes_at(&self, now: i64) -> (r: Option<i64>)
        ensures
            self.last_sync is None <==> r is None,
            r matches Some(a) ==> self.spec_age_minutes(now as int) == Some(a as int),
    {
        match self.last_sync {
            None => None,
            Some(ts) => Some(whole_minutes(now, ts)),
        }
    }

    /// The endpoint with the outcome of a completed transfer recorded:
    /// every other field is carried over unchanged.
    pub fn with_download_rate(self, bytes: usize, millis: u64) -> (m: Mirror)
        ensures
            m == (Mirror {
                download_rate: Some(Bandwidth::spec_from_transfer(bytes, millis)),
                ..self
            }),
    {
        Mirror { download_rate: Some(Bandwidth::from_transfer(bytes, millis)), ..self }
    }
}

/// The directory: an ordered sequence of mirrors, plus the origin of the
/// data when one is known.
#[derive(Clone, Debug)]
pub struct MirrorList {
    pub mirrors: Vec<Mirror>,
    pub source: Option<String>,
}

impl Default for MirrorList {
    /// The empty directory.
    fn default() -> (l: MirrorList)
        ensures
            l.mirrors@ == Seq::<Mirror>::empty(),
            l.source is None,
    {
        MirrorList { mirrors: Vec::new(), source: None }
    }
}

} // verus!

use reflecto::Bandwidth;
use reflecto::Mirror;
use reflecto::MirrorList;
use reflecto::ProbeCoordinator;
use reflecto::Protocol;

fn probing_mirror(url: &str) -> Mirror {
    Mirror {
        url: url.to_string(),
        protocol: Protocol::Https,
        score: None,
        delay: None,
        country: None,
        country_code: None,
        last_sync: None,
        isos: None,
        ipv4: None,
        ipv6: None,
        details: String::new(),
        download_rate: None,
    }
}

fn probing_sample() -> MirrorList {
    MirrorList {
        mirrors: vec![
            probing_mirror("https://a.example.org/"),
            probing_mirror("https://b.example.org/"),
            probing_mirror("https://c.example.org/"),
        ],
        source: Some("https://example.org/status".to_string()),
    }
}

#[test]
fn bandwidth_from_transfer() {
    assert_eq!(Bandwidth::from_transfer(0, 100), Bandwidth::Empty);
    assert_eq!(
        Bandwidth::from_transfer(10, 5),
        Bandwidth::Measured { bytes: 10, millis: 5 }
    );
}

#[test]
fn with_download_rate_sets_only_the_rate() {
    let m = probing_mirror("https://a.example.org/");
    let probed = m.with_download_rate(5000, 10);
    assert_eq!(probed.url, "https://a.example.org/");
    assert_eq!(
        probed.download_rate,
        Some(Bandwidth::Measured { bytes: 5000, millis: 10 })
    );
}

#[test]
fn coordinator_reconciliation() {
    let ml = probing_sample();
    let mut coord = ProbeCoordinator::start(ml, 2);
    assert_eq!(coord.pending().len(), 3);
    assert!(!coord.enough());

    // completions arrive in whatever order the network produces them
    let b = coord.pending()[1].clone().with_download_rate(4000, 10);
    coord.on_success(b);
    assert!(!coord.enough());

    coord.on_failure();
    assert!(!coord.enough());

    let a = coord.pending()[0].clone().with_download_rate(2000, 10);
    coord.on_success(a);
    assert!(coord.enough());

    let out = coord.finish();
    assert_eq!(out.mirrors.len(), 3);
    // updated endpoints first, in completion order, then the rest in
    // original order
    assert_eq!(out.mirrors[0].url, "https://b.example.org/");
    assert_eq!(out.mirrors[1].url, "https://a.example.org/");
    assert_eq!(out.mirrors[2].url, "https://c.example.org/");
    assert!(out.mirrors[0].download_rate.is_some());
    assert!(out.mirrors[1].download_rate.is_some());
    assert!(out.mirrors[2].download_rate.is_none());
    assert_eq!(out.source, Some("https://example.org/status".to_string()));
}

#[test]
fn coordinator_limit_zero_probes_nothing() {
    let ml = probing_sample();
    let mut coord = ProbeCoordinator::start(ml, 0);
    assert!(coord.enough());
    // a late result is discarded
    let a = coord.pending()[0].clone().with_download_rate(2000, 10);
    coord.on_success(a);
    let out = coord.finish();
    assert_eq!(out.mirrors.len(), 3);
    assert!(out.mirrors.iter().all(|m| m.download_rate.is_none()));
    assert_eq!(out.mirrors[0].url, "https://a.example.org/");
    assert_eq!(out.mirrors[1].url, "https://b.example.org/");
    assert_eq!(out.mirrors[2].url, "https://c.example.org/");
}

#[test]
fn coordinator_limit_clamped_to_size() {
    let ml = probing_sample();
    let mut coord = ProbeCoordinator::start(ml, 10);
    for i in 0..3 {
        assert!(!coord.enough());
        let m = coord.pending()[i].clone().with_download_rate(1000 + i, 10);
        coord.on_success(m);
    }
    assert!(coord.enough());
    let out = coord.finish();
    assert_eq!(out.mirrors.len(), 3);
    assert!(out.mirrors.iter().all(|m| m.download_rate.is_some()));
}

#[test]
fn coordinator_ignores_duplicates_and_strays() {
    let ml = probing_sample();
    let mut coord = ProbeCoordinator::start(ml, 3);

    // a success with no measured rate is not a success
    coord.on_success(probing_mirror("https://a.example.org/"));
    assert!(!coord.enough());

    let a = coord.pending()[0].clone().with_download_rate(2000, 10);
    coord.on_success(a.clone());
    // the same endpoint reporting twice counts once
    coord.on_success(a);
    // an endpoint that was never part of the directory is discarded
    coord.on_success(probing_mirror("https://stray.example.org/").with_download_rate(9, 1));
    assert!(!coord.enough());

    let out = coord.finish();
    assert_eq!(out.mirrors.len(), 3);
    assert_eq!(out.mirrors[0].url, "https://a.example.org/");
    assert!(out.mirrors[0].download_rate.is_some());
    assert!(out.mirrors[1].download_rate.is_none());
    assert!(out.mirrors[2].download_rate.is_none());
}

#[test]
fn coordinator_accepts_fewer_successes_than_target() {
    // if fewer than the target ever succeed, finishing is not an error
    let ml = probing_sample();
    let mut coord = ProbeCoordinator::start(ml, 3);
    coord.on_failure();
    coord.on_failure();
    let b = coord.pending()[1].clone().with_download_rate(100, 7);
    coord.on_success(b);
    assert!(!coord.enough());
    let out = coord.finish();
    assert_eq!(out.mirrors.len(), 3);
    assert_eq!(out.mirrors[0].url, "https://b.example.org/");
    assert!(out.mirrors[0].download_rate.is_some());
}

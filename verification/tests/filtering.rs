use chrono::TimeDelta;
use chrono::Utc;
use itertools::Itertools;
use reflecto::Mirror;
use reflecto::MirrorList;
use reflecto::Protocol;

fn filtering_mirror(url: &str) -> Mirror {
    Mirror {
        url: url.to_string(),
        protocol: Protocol::Https,
        score: None,
        delay: None,
        country: None,
        country_code: None,
        last_sync: None,
        isos: None,
        ipv4: None,
        ipv6: None,
        details: String::new(),
        download_rate: None,
    }
}

/// The three mirrors of the Arch status sample.
fn filtering_sample() -> MirrorList {
    let m0 = Mirror {
        country: Some("United States".to_string()),
        country_code: Some("US".to_string()),
        isos: Some(true),
        ipv4: Some(true),
        ipv6: Some(false),
        ..filtering_mirror("https://mirrors.rutgers.edu/archlinux/")
    };
    let m1 = Mirror {
        protocol: Protocol::Http,
        score: Some(3),
        delay: Some(6354),
        country: Some("Greece".to_string()),
        country_code: Some("GR".to_string()),
        last_sync: Some(1714573508),
        isos: Some(true),
        ipv4: Some(true),
        ipv6: Some(true),
        ..filtering_mirror("http://ftp.ntua.gr/pub/linux/archlinux/")
    };
    let m2 = Mirror {
        score: Some(2),
        delay: Some(1863),
        country: Some("Australia".to_string()),
        country_code: Some("AU".to_string()),
        last_sync: Some(1711959774),
        isos: Some(true),
        ipv4: Some(true),
        ipv6: Some(true),
        ..filtering_mirror("https://mirror.aarnet.edu.au/pub/archlinux/")
    };
    MirrorList { mirrors: vec![m0, m1, m2], source: None }
}

#[test]
fn age_computation() {
    let ml = filtering_sample();
    let now: i64 = 1717243200; // 2024-06-01T12:00:00Z
    let m0 = &ml.mirrors[0];
    let m1 = &ml.mirrors[1];
    let m2 = &ml.mirrors[2];
    assert_eq!(m0.age_minutes_at(now), None);
    assert!(m1.age_minutes_at(now).unwrap() < m2.age_minutes_at(now).unwrap());
}

#[test]
fn age_minutes_truncates_toward_zero() {
    let mut m = filtering_mirror("m");
    let now: i64 = 10_000;
    m.last_sync = Some(now - 119); // one minute and change ago
    assert_eq!(m.age_minutes_at(now), Some(1));
    m.last_sync = Some(now + 590); // in the future, less than ten minutes
    assert_eq!(m.age_minutes_at(now), Some(-9));
}

#[test]
fn age_filter() {
    let mut ml = filtering_sample();
    let mirror = ml.mirrors[0].clone();
    let none: Vec<Protocol> = vec![];
    let now = Utc::now() + TimeDelta::minutes(10);
    for h in 0..20 {
        ml.mirrors.push(Mirror {
            last_sync: Some((now - TimeDelta::hours(h)).timestamp()),
            ..mirror.clone()
        })
    }
    let mut cur_len = ml.mirrors.len();
    assert_eq!(cur_len, 23);

    ml = ml.filter(None, false, false, false, &none);
    assert_eq!(ml.mirrors.len(), cur_len);

    for age in (0i64..30).rev() {
        // a cutoff of 0.7 hours is 42 minutes
        ml = ml.filter(Some(age * 42), false, false, false, &none);
        assert!(ml.mirrors.len() <= cur_len);
        cur_len = ml.mirrors.len();
    }

    // one mirror's age is -10min
    assert_eq!(ml.mirrors.len(), 1)
}

#[test]
fn age_cutoff_keeps_future_endpoint() {
    let now: i64 = 1_700_000_000;
    let none: Vec<Protocol> = vec![];
    let mut mirrors = Vec::new();
    let mut future = filtering_mirror("future");
    future.last_sync = Some(now + 600); // synchronized ten minutes ahead
    mirrors.push(future);
    for h in 1i64..=20 {
        let mut m = filtering_mirror("past");
        m.last_sync = Some(now + 600 - h * 3600);
        mirrors.push(m);
    }
    let ml = MirrorList { mirrors, source: None };
    // a cutoff of 0.7 hours is 42 minutes
    let kept = ml.filter_at(now, Some(42), false, false, false, &none);
    assert_eq!(kept.mirrors.len(), 1);
    assert_eq!(kept.mirrors[0].url, "future");
}

#[test]
fn filter_no_criteria_is_identity() {
    let ml = filtering_sample();
    let urls: Vec<String> = ml.mirrors.iter().map(|m| m.url.clone()).collect();
    let none: Vec<Protocol> = vec![];
    let out = ml.filter(None, false, false, false, &none);
    let out_urls: Vec<String> = out.mirrors.iter().map(|m| m.url.clone()).collect();
    assert_eq!(urls, out_urls);
}

#[test]
fn age_filter_drops_never_synchronized() {
    let none: Vec<Protocol> = vec![];
    let now: i64 = 1_700_000_000;
    let mut fresh = filtering_mirror("fresh");
    fresh.last_sync = Some(now - 60);
    let never = filtering_mirror("never");
    let ml = MirrorList { mirrors: vec![never, fresh], source: None };
    let kept = ml.filter_at(now, Some(1000), false, false, false, &none);
    assert_eq!(kept.mirrors.len(), 1);
    assert_eq!(kept.mirrors[0].url, "fresh");
}

#[test]
fn flags_filter() {
    let mut ml = filtering_sample();
    let mirror = ml.mirrors[0].clone();
    let none: Vec<Protocol> = vec![];
    let flags = vec![None, Some(true), Some(false)]
        .into_iter()
        .combinations_with_replacement(3);
    for flag in flags {
        ml.mirrors.push(Mirror {
            isos: flag[0],
            ipv4: flag[1],
            ipv6: flag[2],
            ..mirror.clone()
        })
    }
    let cur_len = ml.mirrors.len();
    let ml_iso = ml.clone().filter(None, true, false, false, &none);
    assert!(ml_iso.mirrors.iter().all(|m| m.isos.unwrap_or(false)));

    let ml_ip4 = ml.clone().filter(None, false, true, false, &none);
    assert!(ml_ip4.mirrors.iter().all(|m| m.ipv4.unwrap_or(false)));

    let ml_ip6 = ml.clone().filter(None, false, false, true, &none);
    assert!(ml_ip6.mirrors.iter().all(|m| m.ipv6.unwrap_or(false)));

    for proto in [
        vec![Protocol::Rsync, Protocol::Https],
        vec![Protocol::Http],
        vec![Protocol::Https],
    ] {
        let ml_proto = ml.clone().filter(None, true, true, true, &proto);
        assert!(ml_proto.mirrors.len() < cur_len);
        assert!(!ml_proto.mirrors.is_empty());
        assert!(ml_proto.mirrors.iter().all(|m| proto.contains(&m.protocol)));
    }

    ml = ml.filter(None, true, true, true, &none);
    assert!(ml
        .mirrors
        .iter()
        .all(|m| m.isos.unwrap_or(false) & m.ipv4.unwrap_or(false) & m.ipv6.unwrap_or(false)));
    assert!(ml.mirrors.len() < cur_len);
    assert!(!ml.mirrors.is_empty());
}

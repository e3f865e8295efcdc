use reflecto::Bandwidth;
use reflecto::Mirror;
use reflecto::MirrorList;
use reflecto::Protocol;
use reflecto::SortKey;

fn ranking_mirror(url: &str) -> Mirror {
    Mirror {
        url: url.to_string(),
        protocol: Protocol::Https,
        score: None,
        delay: None,
        country: None,
        country_code: None,
        last_sync: None,
        isos: None,
        ipv4: None,
        ipv6: None,
        details: String::new(),
        download_rate: None,
    }
}

/// The three mirrors of the Arch status sample: Rutgers (never synced, no
/// delay), NTUA (2024-05-01T14:25:08Z, delay 6354), AARNet
/// (2024-04-01T08:22:54Z, delay 1863).
fn ranking_sample() -> MirrorList {
    let m0 = Mirror {
        protocol: Protocol::Https,
        score: None,
        delay: None,
        country: Some("United States".to_string()),
        country_code: Some("US".to_string()),
        last_sync: None,
        isos: Some(true),
        ipv4: Some(true),
        ipv6: Some(false),
        details: "https://archlinux.org/mirrors/rutgers.edu/910/".to_string(),
        ..ranking_mirror("https://mirrors.rutgers.edu/archlinux/")
    };
    let m1 = Mirror {
        protocol: Protocol::Http,
        score: Some(3),
        delay: Some(6354),
        country: Some("Greece".to_string()),
        country_code: Some("GR".to_string()),
        last_sync: Some(1714573508),
        isos: Some(true),
        ipv4: Some(true),
        ipv6: Some(true),
        details: "https://archlinux.org/mirrors/ntua.gr/333/".to_string(),
        ..ranking_mirror("http://ftp.ntua.gr/pub/linux/archlinux/")
    };
    let m2 = Mirror {
        protocol: Protocol::Https,
        score: Some(2),
        delay: Some(1863),
        country: Some("Australia".to_string()),
        country_code: Some("AU".to_string()),
        last_sync: Some(1711959774),
        isos: Some(true),
        ipv4: Some(true),
        ipv6: Some(true),
        details: "https://archlinux.org/mirrors/aarnet.edu.au/5/".to_string(),
        ..ranking_mirror("https://mirror.aarnet.edu.au/pub/archlinux/")
    };
    MirrorList { mirrors: vec![m0, m1, m2], source: None }
}

#[test]
fn sort_delay() {
    let mut ml = ranking_sample();
    ml.sort(SortKey::Delay);
    assert_eq!(
        ml.mirrors[0].url,
        "https://mirror.aarnet.edu.au/pub/archlinux/"
    );
    assert_eq!(ml.mirrors[2].url, "https://mirrors.rutgers.edu/archlinux/");
}

#[test]
fn sort_age() {
    let mut ml = ranking_sample();
    ml.sort(SortKey::Age);
    // null
    assert_eq!(ml.mirrors[0].url, "https://mirrors.rutgers.edu/archlinux/");

    // 2024-04
    assert_eq!(
        ml.mirrors[1].url,
        "https://mirror.aarnet.edu.au/pub/archlinux/"
    );

    // 2024-05
    assert_eq!(ml.mirrors[2].url, "http://ftp.ntua.gr/pub/linux/archlinux/");
}

#[test]
fn sort_score() {
    let mut ml = ranking_sample();
    ml.sort(SortKey::Score);
    assert_eq!(
        ml.mirrors[0].url,
        "https://mirror.aarnet.edu.au/pub/archlinux/"
    );
    assert_eq!(ml.mirrors[1].url, "http://ftp.ntua.gr/pub/linux/archlinux/");
    // missing score ranks last
    assert_eq!(ml.mirrors[2].url, "https://mirrors.rutgers.edu/archlinux/");
}

#[test]
fn sort_country() {
    let mut ml = ranking_sample();
    ml.mirrors[0].country = None;
    ml.sort(SortKey::Country);
    // a missing country reads as the empty string and ranks first
    assert_eq!(ml.mirrors[0].url, "https://mirrors.rutgers.edu/archlinux/");
    assert_eq!(
        ml.mirrors[1].url,
        "https://mirror.aarnet.edu.au/pub/archlinux/"
    );
    assert_eq!(ml.mirrors[2].url, "http://ftp.ntua.gr/pub/linux/archlinux/");
}

#[test]
fn sort_rate_policy() {
    let mut fast = ranking_mirror("fast");
    fast.download_rate = Some(Bandwidth::from_transfer(2000, 1));
    let mut slow = ranking_mirror("slow");
    slow.download_rate = Some(Bandwidth::from_transfer(1000, 1));
    let mut empty = ranking_mirror("empty");
    empty.download_rate = Some(Bandwidth::from_transfer(0, 1));
    let unprobed = ranking_mirror("unprobed");
    let mut ml = MirrorList {
        mirrors: vec![unprobed, empty, slow, fast],
        source: None,
    };
    ml.sort(SortKey::Rate);
    assert_eq!(ml.mirrors[0].url, "fast");
    assert_eq!(ml.mirrors[1].url, "slow");
    // the zero-byte sentinel and the unprobed mirror rank last, keeping
    // their original relative order
    assert_eq!(ml.mirrors[2].url, "unprobed");
    assert_eq!(ml.mirrors[3].url, "empty");
}

#[test]
fn sort_rate_exact_ties_are_stable() {
    // 1000 bytes in 2 ms and 2000 bytes in 4 ms are the same exact rate
    let mut a = ranking_mirror("a");
    a.download_rate = Some(Bandwidth::from_transfer(1000, 2));
    let mut b = ranking_mirror("b");
    b.download_rate = Some(Bandwidth::from_transfer(2000, 4));
    let mut c = ranking_mirror("c");
    c.download_rate = Some(Bandwidth::from_transfer(3000, 2));
    let mut ml = MirrorList {
        mirrors: vec![a, b, c],
        source: None,
    };
    ml.sort(SortKey::Rate);
    assert_eq!(ml.mirrors[0].url, "c");
    assert_eq!(ml.mirrors[1].url, "a");
    assert_eq!(ml.mirrors[2].url, "b");
}

#[test]
fn sort_twice_equals_once() {
    let mut once = ranking_sample();
    once.sort(SortKey::Delay);
    let mut twice = ranking_sample();
    twice.sort(SortKey::Delay);
    twice.sort(SortKey::Delay);
    let urls_once: Vec<&String> = once.mirrors.iter().map(|m| &m.url).collect();
    let urls_twice: Vec<&String> = twice.mirrors.iter().map(|m| &m.url).collect();
    assert_eq!(urls_once, urls_twice);
}

#[test]
fn sort_key_names() {
    assert_eq!(SortKey::Age.name(), "age");
    assert_eq!(SortKey::Rate.name(), "rate");
    assert_eq!(SortKey::Country.name(), "country");
    assert_eq!(SortKey::Score.name(), "score");
    assert_eq!(SortKey::Delay.name(), "delay");
}

#[test]
fn protocol_names_and_default() {
    assert_eq!(Protocol::Ftp.name(), "ftp");
    assert_eq!(Protocol::Https.name(), "https");
    assert_eq!(Protocol::Http.name(), "http");
    assert_eq!(Protocol::Rsync.name(), "rsync");
    assert_eq!(Protocol::default(), Protocol::Https);
}

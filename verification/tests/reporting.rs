use reflecto::get_country_line;
use reflecto::Mirror;
use reflecto::MirrorList;
use reflecto::Protocol;

fn reporting_mirror(url: &str, country: Option<&str>, code: Option<&str>) -> Mirror {
    Mirror {
        url: url.to_string(),
        protocol: Protocol::Https,
        score: None,
        delay: None,
        country: country.map(|c| c.to_string()),
        country_code: code.map(|c| c.to_string()),
        last_sync: None,
        isos: None,
        ipv4: None,
        ipv6: None,
        details: String::new(),
        download_rate: None,
    }
}

#[test]
fn country_line_exact() {
    assert_eq!(
        get_country_line("United States", "US", 3, 13),
        "United States   US    3"
    );
}

#[test]
fn country_line_wide_count() {
    // a count wider than its four columns is not cut
    assert_eq!(get_country_line("X", "YZ", 12345, 7), "X         YZ 12345");
}

#[test]
fn print_countries_sorted_and_aligned() {
    let ml = MirrorList {
        mirrors: vec![
            reporting_mirror("u1", Some("United States"), Some("US")),
            reporting_mirror("u2", Some("Greece"), Some("GR")),
            reporting_mirror("u3", Some("Australia"), Some("AU")),
        ],
        source: None,
    };
    let expected = "Country       Code Count\n\
                    ------------- ---- ----\n\
                    Australia       AU    1\n\
                    Greece          GR    1\n\
                    United States   US    1";
    assert_eq!(ml.print_countries(), expected);
}

#[test]
fn print_countries_counts_duplicates() {
    let ml = MirrorList {
        mirrors: vec![
            reporting_mirror("u1", Some("Greece"), Some("GR")),
            reporting_mirror("u2", Some("Greece"), Some("GR")),
            reporting_mirror("u3", Some("Austria"), Some("AT")),
        ],
        source: None,
    };
    let expected = "Country Code Count\n\
                    ------- ---- ----\n\
                    Austria   AT    1\n\
                    Greece    GR    2";
    assert_eq!(ml.print_countries(), expected);
}

#[test]
fn print_countries_skips_empty_and_unknown() {
    let ml = MirrorList {
        mirrors: vec![
            reporting_mirror("u1", Some(""), Some("")),
            reporting_mirror("u2", None, Some("GR")),
            reporting_mirror("u3", Some("Austria"), None),
            reporting_mirror("u4", Some("Austria"), Some("AT")),
        ],
        source: None,
    };
    // the empty pair is counted but rendered as no line; mirrors missing
    // either part are not counted at all
    let expected = "Country Code Count\n\
                    ------- ---- ----\n\
                    Austria   AT    1";
    assert_eq!(ml.print_countries(), expected);
}

#[test]
fn file_content_with_source_and_truncation() {
    let ml = MirrorList {
        mirrors: vec![
            reporting_mirror("https://mirrors.rutgers.edu/archlinux/", None, None),
            reporting_mirror("https://mirror.aarnet.edu.au/pub/archlinux/", None, None),
        ],
        source: Some("https://example.org/status".to_string()),
    };
    let expected = "# Arch Linux mirror list generated by reflecto.rs\n\
                    #\n\
                    # from: \thttps://example.org/status\n\
                    \n\
                    Server = https://mirrors.rutgers.edu/archlinux/$repo/os/$arch";
    assert_eq!(ml.to_file_content(1), expected);
}

#[test]
fn file_content_without_source() {
    let ml = MirrorList {
        mirrors: vec![
            reporting_mirror("https://a.example.org/", None, None),
            reporting_mirror("https://b.example.org/", None, None),
        ],
        source: None,
    };
    let expected = "# Arch Linux mirror list generated by reflecto.rs\n\
                    #\n\
                    \n\
                    Server = https://a.example.org/$repo/os/$arch\n\
                    Server = https://b.example.org/$repo/os/$arch";
    // a count beyond the directory size keeps every mirror
    assert_eq!(ml.to_file_content(10), expected);
}

#[test]
fn file_content_empty_directory() {
    let ml = MirrorList { mirrors: vec![], source: None };
    let expected = "# Arch Linux mirror list generated by reflecto.rs\n#\n\n";
    assert_eq!(ml.to_file_content(5), expected);
}

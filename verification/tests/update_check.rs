use ais_analytics::update_check::{
    check, is_newer, pick, platform_url, Artifact, LatestJson, Platforms, RELEASES_URL,
};

fn artifact(url: &str) -> Artifact {
    Artifact {
        url: url.into(),
        sha256: String::new(),
    }
}

fn map(entries: &[(&str, &str)]) -> Vec<(String, Artifact)> {
    entries
        .iter()
        .map(|(k, u)| ((*k).to_string(), artifact(u)))
        .collect()
}

/// One build per OS, so there is nothing to choose between and the single
/// entry wins whatever it is called.
#[test]
fn a_lone_artifact_is_taken_as_is() {
    let only = map(&[("tarball", "https://x/ais-analytics-linux-x86_64.tar.gz")]);
    for arch in ["x86_64", "aarch64", "riscv64"] {
        assert_eq!(
            pick(&only, arch).as_deref(),
            Some("https://x/ais-analytics-linux-x86_64.tar.gz")
        );
    }
}

/// With two architectures published, iteration order would hand roughly half
/// of users a build that cannot run on their machine.
#[test]
fn a_second_architecture_does_not_become_a_coin_flip() {
    let both = map(&[
        ("arm64", "https://x/ais-analytics-macos-arm64.dmg"),
        ("x86_64", "https://x/ais-analytics-macos-x86_64.dmg"),
    ]);
    for (arch, expected) in [("aarch64", "arm64"), ("x86_64", "x86_64")] {
        let chosen = pick(&both, arch).expect("one of them matches this machine");
        assert!(chosen.contains(expected), "got {chosen}");

        // And the same answer every time, not whatever the map yields first.
        for _ in 0..8 {
            assert_eq!(pick(&both, arch), Some(chosen.clone()));
        }
    }
}

/// Several builds and none of them ours: sending the user to a page they
/// can choose from beats sending them to a binary that will not start.
#[test]
fn an_unrecognisable_set_sends_the_user_to_choose() {
    let neither = || {
        map(&[
            ("riscv64", "https://x/ais-analytics-riscv64.tar.gz"),
            ("ppc64le", "https://x/ais-analytics-ppc64le.tar.gz"),
        ])
    };
    for arch in ["x86_64", "aarch64"] {
        assert_eq!(pick(&neither(), arch), None);
        for os in ["macos", "windows", "linux"] {
            assert_eq!(
                platform_url(
                    &Platforms {
                        macos: neither(),
                        windows: neither(),
                        linux: neither(),
                    },
                    os,
                    arch
                ),
                RELEASES_URL
            );
        }
    }
}

/// An OS with nothing published for it at all.
#[test]
fn a_missing_build_is_not_a_broken_link() {
    for os in ["macos", "windows", "linux", "freebsd"] {
        assert_eq!(
            platform_url(
                &Platforms {
                    macos: map(&[]),
                    windows: map(&[]),
                    linux: map(&[]),
                },
                os,
                "x86_64"
            ),
            RELEASES_URL
        );
    }
}

#[test]
fn only_a_higher_version_counts_as_newer() {
    assert!(is_newer("0.1.26", "0.1.25"));
    assert!(is_newer("0.2.0", "0.1.99"));
    assert!(!is_newer("0.1.25", "0.1.25"));
    assert!(!is_newer("0.1.24", "0.1.25"));
    // Ten sorts after nine, which a string comparison would get wrong.
    assert!(is_newer("v0.1.10", "0.1.9"));
    assert!(!is_newer("not a version", "0.1.25"));
}

#[test]
fn versions_are_read_as_they_are_tagged() {
    assert!(is_newer("vv1.0.0", "0.9.9"));
    assert!(is_newer("1.2.3-rc1", "1.2.2"));
    assert!(!is_newer("1.2.3-rc1", "1.2.3"));
    assert!(is_newer("1.2.3+build", "1.2.2"));
    assert!(is_newer("1.2.3.4", "1.2.2"));
    assert!(is_newer("+1.2.3", "1.2.2"));
    assert!(!is_newer("1.2", "0.0.1"));
    assert!(!is_newer("-1.2.3", "0.0.1"));
    assert!(!is_newer("1.2.", "0.0.1"));
    assert!(!is_newer("4294967296.0.0", "0.0.1"));
    assert!(is_newer("4294967295.0.0", "0.0.1"));
    assert!(!is_newer("1.0.0", "not a version"));
}

#[test]
fn the_listing_order_does_not_decide() {
    let a = map(&[("b-x64", "u1"), ("a-amd64", "u2"), ("arm64", "u3")]);
    let b = map(&[("arm64", "u3"), ("a-amd64", "u2"), ("b-x64", "u1")]);
    assert_eq!(pick(&a, "x86_64"), Some("u2".to_string()));
    assert_eq!(pick(&b, "x86_64"), Some("u2".to_string()));
    // Another architecture goes by its own name only.
    assert_eq!(pick(&a, "riscv64"), None);
    // Names are matched without regard to case.
    assert_eq!(
        pick(&map(&[("ARM64", "u"), ("x", "w")]), "aarch64"),
        Some("u".to_string())
    );
}

#[test]
fn an_update_links_to_this_system_and_says_where_it_came_from() {
    let latest = || LatestJson {
        version: "0.2.0".into(),
        tag: "v0.2.0".into(),
        platforms: Platforms {
            macos: map(&[("dmg", "https://x/mac.dmg")]),
            windows: map(&[("exe", "")]),
            linux: map(&[("tarball", "https://x/linux.tar.gz")]),
        },
    };
    let info = check(latest(), "0.1.26", "linux", "x86_64").expect("an update");
    assert_eq!(info.latest_version, "0.2.0");
    assert_eq!(info.latest_tag, "v0.2.0");
    assert_eq!(info.release_url, "https://x/linux.tar.gz?src=updater");
    let mac = check(latest(), "0.1.26", "macos", "aarch64").expect("an update");
    assert_eq!(mac.release_url, "https://x/mac.dmg?src=updater");
    // An empty link is no link.
    let windows = check(latest(), "0.1.26", "windows", "x86_64").expect("an update");
    assert_eq!(windows.release_url, RELEASES_URL);
    assert_eq!(check(latest(), "0.2.0", "linux", "x86_64"), None);
}

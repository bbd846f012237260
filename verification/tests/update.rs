use rcdu::sha256::hex_digest;
use rcdu::update::{
    accept_digest, asset_name, digest_column, expected_digest, fixed_eq, is_newer, latest_tag,
    latest_url, plan, verify_download, Plan,
};

#[test]
fn version_comparison() {
    assert!(is_newer("0.2.0", "0.1.0"));
    assert!(is_newer("v0.1.1", "0.1.0"));
    assert!(is_newer("v1.0.0", "0.9.9"));
    assert!(is_newer("0.10.0", "0.9.9"));
    assert!(!is_newer("0.1.0", "0.1.0"));
    assert!(!is_newer("0.1.0", "0.2.0"));
    assert!(!is_newer("v0.1.0", "0.1.0"));
    assert!(is_newer("0.2.0-rc1", "0.1.9"));
    assert!(!is_newer("0.2.0-rc1", "0.2.0"));
}

#[test]
fn versions_of_unequal_length() {
    assert!(!is_newer("1.0", "1.0.0"));
    assert!(is_newer("1.0.0.1", "1.0"));
    assert!(is_newer(" v2 ", "1.99"));
    assert!(!is_newer("x.y", "0.0"));
    assert!(!is_newer("1.+5", "1.4"), "what follows a plus sign is no part of the version");
    assert!(!is_newer("1.18446744073709551616", "1.0"), "a number that does not fit is none");
}

#[test]
fn digest_lookup() {
    let sums = "e3b0c442  rcdu-portable-linux-x86_64\n\
                ba7816bf  rcdu-portable-macos-aarch64\n";
    assert_eq!(
        expected_digest(sums, "rcdu-portable-macos-aarch64").as_deref(),
        Some("ba7816bf")
    );
    assert_eq!(expected_digest(sums, "rcdu-portable-linux-aarch64"), None);
    // sha256sum's binary-mode marker (`*name`) is tolerated.
    let sums = "ba7816bf *rcdu-portable-macos-aarch64\n";
    assert_eq!(
        expected_digest(sums, "rcdu-portable-macos-aarch64").as_deref(),
        Some("ba7816bf")
    );
}

#[test]
fn digests_are_lowered() {
    let sums = "\r\nonly-one-column\nABCDEF01 name extra\n";
    assert_eq!(digest_column(sums, "name").as_deref(), Some("ABCDEF01"));
    assert_eq!(expected_digest(sums, "name").as_deref(), Some("abcdef01"));
}

#[test]
fn digest_equality() {
    assert!(fixed_eq("abcd", "abcd"));
    assert!(!fixed_eq("abcd", "abce"));
    assert!(!fixed_eq("abc", "abcd"));
}

#[test]
fn assets() {
    assert_eq!(asset_name("linux", "x86_64"), Some("rcdu-portable-linux-x86_64"));
    assert_eq!(asset_name("linux", "aarch64"), Some("rcdu-portable-linux-aarch64"));
    assert_eq!(asset_name("macos", "x86_64"), Some("rcdu-portable-macos-x86_64"));
    assert_eq!(asset_name("macos", "aarch64"), Some("rcdu-portable-macos-aarch64"));
    assert_eq!(asset_name("windows", "x86_64"), None);
}

#[test]
fn tags_come_out_of_responses() {
    assert_eq!(
        latest_url(),
        "https://api.github.com/repos/mayankasthana/rcdu/releases/latest"
    );
    assert_eq!(latest_tag(br#"{"id": 1, "tag_name": "v0.2.0"}"#), Ok("v0.2.0".to_string()));
    assert_eq!(
        latest_tag(b"{}"),
        Err("no releases found — see https://github.com/mayankasthana/rcdu/releases".to_string())
    );
    assert_eq!(
        latest_tag(br#"{"tag_name": 3}"#),
        Err("no releases found — see https://github.com/mayankasthana/rcdu/releases".to_string())
    );
    let why = latest_tag(b"nonsense").unwrap_err();
    assert!(why.starts_with("unexpected response from the GitHub API: expected"), "{why}");
}

#[test]
fn plans() {
    match plan("v0.1.0", "0.1.0", "asset", false) {
        Plan::UpToDate(said) => {
            assert_eq!(said, "rcdu 0.1.0 is up to date (latest release: v0.1.0)")
        }
        _ => panic!("not up to date"),
    }
    match plan("v0.2.0", "0.1.0", "asset", true) {
        Plan::Announce(first, second) => {
            assert_eq!(first, "updating rcdu 0.1.0 -> v0.2.0");
            assert_eq!(second, "run `rcdu update` to install it");
        }
        _ => panic!("not announced"),
    }
    assert!(matches!(plan("v0.2.0", "0.1.0", "asset", false), Plan::Fetch { .. }));
}

#[test]
fn downloads_are_installed_only_with_the_right_digest() {
    let abc = "BA7816BF8F01CFEA414140DE5DAE2223B00361A396177A9CB410FF61F20015AD";
    let sums = format!("{abc}  rcdu-portable-linux-x86_64\n");
    assert_eq!(verify_download(&sums, b"abc", "rcdu-portable-linux-x86_64"), Ok(()));
    assert_eq!(
        verify_download(&sums, b"abd", "rcdu-portable-linux-x86_64"),
        Err(format!(
            "checksum mismatch for rcdu-portable-linux-x86_64 (expected {}) — aborting",
            abc.to_lowercase()
        ))
    );
    assert_eq!(
        verify_download(&sums, b"abc", "other"),
        Err("other is not listed in sha256sums.txt — refusing to install".to_string())
    );
    assert_eq!(accept_digest(Some("x".to_string()), "x", "a"), Ok(()));
}

#[test]
fn digests() {
    for (message, digest) in [
        ("", "e3b0c44298fc1c149afbf4c8996fb92427ae41e4649b934ca495991b7852b855"),
        ("abc", "ba7816bf8f01cfea414140de5dae2223b00361a396177a9cb410ff61f20015ad"),
        (
            "abcdbcdecdefdefgefghfghighijhijkijkljklmklmnlmnomnopnopq",
            "248d6a61d20638b8e5c026930c3e6039a33ce45964ff2167f6ecedd419db06c1",
        ),
    ] {
        assert_eq!(hex_digest(message.as_bytes()), digest);
    }
    assert_eq!(
        hex_digest(&vec![b'a'; 1_000_000]),
        "cdc76e5c9914fb9281a1c7e284d73e67f1809a48a497200e046d39ccc7112cd0"
    );
}

#[test]
fn prefixes_and_suffixes_make_no_difference() {
    let versions = ["0.9", "1.0", "1.0.1", "1.2", "1.10", "2", "garbage", ""];
    for a in versions {
        for b in versions {
            let yes = is_newer(a, b);
            for marked in [format!("v{a}"), format!("{a}-rc.1"), format!("{a}+build5")] {
                assert_eq!(is_newer(&marked, b), yes, "{marked} {b}");
                assert_eq!(is_newer(b, &marked), is_newer(b, a), "{b} {marked}");
            }
            for c in versions {
                assert!(!(yes && is_newer(b, c)) || is_newer(a, c), "{a} {b} {c}");
            }
        }
    }
}

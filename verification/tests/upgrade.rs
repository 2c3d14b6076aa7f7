use iris::upgrade::{
    build_url, checksum_verdict, next_backoff_secs, preflight, sha256_hex, verify_download, PreflightError,
    MIN_CERT_REMAINING_MS, MIN_FREE_DISK,
};

#[test]
fn preflight_checks_in_order() {
    assert!(matches!(preflight(true, None, 0, 0), Err(PreflightError::InProgress)));
    match preflight(false, Some(MIN_FREE_DISK - 1), 0, 0) {
        Err(PreflightError::InsufficientDisk(f)) => assert_eq!(f, MIN_FREE_DISK - 1),
        _ => panic!("expected a disk error"),
    }
    assert!(matches!(preflight(false, None, 0, 0), Err(PreflightError::InsufficientDisk(0))));
    assert!(preflight(false, Some(MIN_FREE_DISK), 0, 1_000).is_ok());
    let now = 1_700_000_000_000i64;
    match preflight(false, Some(MIN_FREE_DISK), now + 1_000, now) {
        Err(PreflightError::CertExpiring(left)) => assert_eq!(left, 1_000),
        _ => panic!("expected a cert error"),
    }
    assert!(preflight(false, Some(MIN_FREE_DISK), now + MIN_CERT_REMAINING_MS, now).is_ok());
}

#[test]
fn preflight_messages() {
    assert_eq!(
        PreflightError::InProgress.message(),
        "upgrade already in progress (.upgrade-pending exists)"
    );
    assert_eq!(PreflightError::InsufficientDisk(5).message(), "insufficient disk: 5 < 104857600");
    assert_eq!(
        PreflightError::CertExpiring(-3).message(),
        "cert too close to expiry: -3 ms remaining < 604800000 ms required"
    );
}

#[test]
fn release_urls() {
    assert_eq!(
        build_url(""),
        "https://github.com/Everless321/Iris/releases/download/rolling/iris-node-musl-x86_64"
    );
    assert_eq!(
        build_url("v1.2.3"),
        "https://github.com/Everless321/Iris/releases/download/v1.2.3/iris-node-musl-x86_64"
    );
}

#[test]
fn backoff_doubles_to_a_minute() {
    assert_eq!(next_backoff_secs(2), 4);
    assert_eq!(next_backoff_secs(30), 60);
    assert_eq!(next_backoff_secs(32), 60);
    assert_eq!(next_backoff_secs(u64::MAX), 60);
}

#[test]
fn sha256_of_abc() {
    assert_eq!(
        sha256_hex(b"abc"),
        "ba7816bf8f01cfea414140de5dae2223b00361a396177a9cb410ff61f20015ad"
    );
}

#[test]
fn checksum_compares_ignoring_case() {
    assert!(verify_download("", b"anything").is_ok());
    assert!(verify_download("BA7816BF8F01CFEA414140DE5DAE2223B00361A396177A9CB410FF61F20015AD", b"abc").is_ok());
    match verify_download("00", b"abc") {
        Err(m) => {
            assert_eq!(m.expected, "00");
            assert_eq!(m.got, "ba7816bf8f01cfea414140de5dae2223b00361a396177a9cb410ff61f20015ad");
            assert_eq!(
                m.message(),
                "sha256 mismatch: expected 00 got ba7816bf8f01cfea414140de5dae2223b00361a396177a9cb410ff61f20015ad"
            );
        },
        Ok(()) => panic!("expected a mismatch"),
    }
    assert!(checksum_verdict("AB", "ab".to_string()).is_ok());
}

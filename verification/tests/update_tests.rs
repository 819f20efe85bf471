use lrgex_restore::update::{
    check_signature, download_hash_matches, is_newer, sha256_hex, update_gate, update_temp_name,
    updater_script, UpdateGate, DOWNLOAD_CAP, MIN_DOWNLOAD,
};

const PUB: &str = "d75a980182b10ab7d54bfed3c964073a0ee172f3daa62325af021a68f707511a";
const SIG_EMPTY_MSG: &str = "e5564300c360ac729086e2cc806e828a84877f1eb8e5d974d873e065224901555fb8821590a33bacc61e39701cf9b46bd25bf5f0595bbe24655141438e7a100b";

#[test]
fn test_is_newer_versions() {
    assert!(is_newer("1.5.4", "1.5.3"));
    assert!(is_newer("1.10.0", "1.9.9"));
    assert!(!is_newer("1.5.3", "1.5.3"));
    assert!(!is_newer("1.5", "1.5.0"));
    assert!(!is_newer("1.5.0", "1.5"));
    assert!(is_newer("2", "1.99"));
    assert!(!is_newer("1.4.9", "1.5"));
    assert!(is_newer("1.x.9", "1.0.9"), "unparsable parts are dropped");
}

#[test]
fn test_update_gate_fail_closed() {
    assert!(matches!(update_gate("1.5.3", "1.5.3", "u", None, None), UpdateGate::UpToDate));
    assert!(matches!(update_gate("9.9.9", "1.5.3", "u", None, Some("ab")), UpdateGate::Unsigned));
    assert!(matches!(update_gate("9.9.9", "1.5.3", "u", Some(""), Some("ab")), UpdateGate::Unsigned));
    match update_gate("1.6.0", "1.5.3", "https://x/app.exe", Some("SIG"), Some("abc123")) {
        UpdateGate::Verify { message, signature, sha256 } => {
            assert_eq!(message, "1.6.0|https://x/app.exe|abc123");
            assert_eq!(signature, "SIG");
            assert_eq!(sha256, "abc123");
        }
        _ => panic!("verification expected"),
    }
}

#[test]
fn test_signature_verification() {
    assert_eq!(check_signature(b"", SIG_EMPTY_MSG, &format!(" {}\n", PUB)), Ok(()));
    let mut bad = SIG_EMPTY_MSG.to_string();
    bad.replace_range(0..2, "f5");
    assert!(check_signature(b"", &bad, PUB).unwrap_err().starts_with("Invalid signature: "));
    assert!(check_signature(b"x", SIG_EMPTY_MSG, PUB).is_err());
    assert!(check_signature(b"", "zz", PUB).unwrap_err().starts_with("Bad signature format: "));
    assert!(check_signature(b"", "abcd", PUB).is_err());
    assert!(check_signature(b"", SIG_EMPTY_MSG, "0g").unwrap_err().starts_with("Bad public key: "));
}

#[test]
fn test_download_checks() {
    let h = sha256_hex(b"abc");
    assert_eq!(h, "ba7816bf8f01cfea414140de5dae2223b00361a396177a9cb410ff61f20015ad");
    assert!(download_hash_matches(b"abc", "BA7816BF8F01CFEA414140DE5DAE2223B00361A396177A9CB410FF61F20015AD"));
    assert!(!download_hash_matches(b"abd", &h));
    assert_eq!(DOWNLOAD_CAP, 64 * 1024 * 1024);
    assert_eq!(MIN_DOWNLOAD, 1_000_000);
}

#[test]
fn test_updater_files() {
    assert_eq!(update_temp_name(0xab, "exe"), "lrgex_upd_00000000000000ab.exe");
    let bat = updater_script(r"C:\T\u.exe", "deadbeef", r"C:\App\LRGEXRestore.exe");
    assert!(bat.starts_with("@echo off\r\nping 127.0.0.1 -n 3 > nul\r\n:verify\r\n"));
    assert!(bat.contains("certutil -hashfile \"C:\\T\\u.exe\" SHA256 | findstr /i \"deadbeef\" >nul 2>&1\r\n"));
    assert!(bat.contains("copy /Y \"C:\\T\\u.exe\" \"C:\\App\\LRGEXRestore.exe\" >nul 2>&1\r\n"));
    assert!(bat.ends_with("start \"\" \"C:\\App\\LRGEXRestore.exe\"\r\ndel \"%~f0\"\r\n"));
}

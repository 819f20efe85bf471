use lrgex_restore::signer::{
    key_path, load_key_checked, parse_secret, public_key_hex, release_key, signature_hex, SecretFormat,
};
use lrgex_restore::update::check_signature;

const SECRET_HEX: &str = "9d61b19deffd5a60ba844af492ec2cc44449c5697b326919703bac031cae7f60";

#[test]
fn key_path_prefers_the_setting() {
    assert_eq!(key_path(Some(r"D:\keys\release.key")), r"D:\keys\release.key");
    assert_eq!(
        key_path(None),
        r"E:\LRG\LRG Data Cloud\L.R.G\Devoloping\Coding\Security keys\RUST\LRGEX-Restore\keys\signing.key"
    );
}

#[test]
fn secret_text_is_trimmed_hex_of_32_bytes() {
    let s = parse_secret(&format!("  {}\r\n", SECRET_HEX)).unwrap();
    assert_eq!(s[0], 0x9d);
    assert_eq!(s[31], 0x60);
    assert_eq!(parse_secret("zz"), Err(SecretFormat::NotHex));
    assert_eq!(parse_secret("abc"), Err(SecretFormat::NotHex));
    assert_eq!(parse_secret("abcd"), Err(SecretFormat::WrongLength(2)));
}

#[test]
fn public_key_of_the_rfc_test_secret() {
    let s = parse_secret(SECRET_HEX).unwrap();
    let k = release_key(&s);
    assert_eq!(public_key_hex(&k), "d75a980182b10ab7d54bfed3c964073a0ee172f3daa62325af021a68f707511a");
}

#[test]
fn key_is_refused_unless_it_matches_the_anchor() {
    let s = parse_secret(SECRET_HEX).unwrap();
    let anchor = "d75a980182b10ab7d54bfed3c964073a0ee172f3daa62325af021a68f707511a\n";
    assert!(load_key_checked(&s, anchor).is_ok());
    match load_key_checked(&s, "00") {
        Err(derived) => assert_eq!(derived, anchor.trim()),
        Ok(_) => panic!("a foreign anchor must be refused"),
    }
}

#[test]
fn signed_release_passes_the_update_check() {
    let s = parse_secret(SECRET_HEX).unwrap();
    let anchor = "d75a980182b10ab7d54bfed3c964073a0ee172f3daa62325af021a68f707511a";
    let k = load_key_checked(&s, anchor).ok().unwrap();
    let empty_sig = signature_hex(&k, b"");
    assert_eq!(
        empty_sig,
        "e5564300c360ac729086e2cc806e828a84877f1eb8e5d974d873e065224901555fb8821590a33bacc61e39701cf9b46bd25bf5f0595bbe24655141438e7a100b"
    );
    let data = b"LRGEX Restore release build".to_vec();
    let sig = signature_hex(&k, &data);
    assert_eq!(sig.len(), 128);
    assert_eq!(check_signature(&data, &sig, anchor), Ok(()));
    assert!(check_signature(b"tampered", &sig, anchor).is_err());
}

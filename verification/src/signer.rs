//! The release signer: where the private key is read from, that it matches the
//! public key the program trusts, and the signature text it prints. A release it
//! signs passes the program's own update check under that public key.
use vstd::prelude::*;
use vstd::utf8::*;
use crate::text::{chars_of, string_of, trim, trim_chars};
use crate::update::{
    decodes_to_len, ed25519_key_accepted, ed25519_signature_valid, hex_decode, hex_encode, signature_accepted,
    spec_hex_decode, spec_hex_encode, lemma_hex_round_trip,
};

verus! {

#[verifier::external_type_specification]
#[verifier::external_body]
pub struct ExSigningKey(ed25519_dalek::SigningKey);

/// The Ed25519 public key (compressed point, 32 bytes) of a 32-byte secret key.
pub uninterp spec fn ed25519_public_of(secret: Seq<u8>) -> Seq<u8>;

/// The Ed25519 signature (RFC 8032, deterministic) of `msg` under a 32-byte
/// secret key.
pub uninterp spec fn ed25519_signature_of(secret: Seq<u8>, msg: Seq<u8>) -> Seq<u8>;

/// An Ed25519 signing key with the 32 secret bytes it was made from.
pub struct ReleaseKey {
    bytes: [u8; 32],
    key: ed25519_dalek::SigningKey,
}

impl View for ReleaseKey {
    type V = Seq<u8>;

    closed spec fn view(&self) -> Seq<u8> {
        self.bytes@
    }
}

/// Calls `SigningKey::from_bytes` (`ed25519-dalek`): the signing key of the 32
/// secret bytes (every 32 bytes make one); the key keeps its bytes.
#[verifier::external_body]
fn signing_key_from_bytes(secret: &[u8; 32]) -> (r: ReleaseKey)
    ensures
        r@ == secret@,
{
    ReleaseKey { bytes: *secret, key: ed25519_dalek::SigningKey::from_bytes(secret) }
}

/// Calls `SigningKey::verifying_key` and `VerifyingKey::to_bytes`: the bytes of
/// the key's public key, which `VerifyingKey::from_bytes` takes back (the
/// crate's documentation decodes them so).
#[verifier::external_body]
fn public_key_bytes(k: &ReleaseKey) -> (r: [u8; 32])
    ensures
        r@ == ed25519_public_of(k@),
        ed25519_key_accepted(r@),
{
    k.key.verifying_key().to_bytes()
}

/// Calls `Signer::sign` of `SigningKey` and `Signature::to_bytes`: the 64-byte
/// signature of `msg`, which the key's public key verifies (as the crate's
/// documentation shows for every signature a signing key makes).
#[verifier::external_body]
fn sign_message(k: &ReleaseKey, msg: &[u8]) -> (r: [u8; 64])
    ensures
        r@ == ed25519_signature_of(k@, msg@),
        ed25519_signature_valid(ed25519_public_of(k@), msg@, r@),
{
    ed25519_dalek::Signer::sign(&k.key, msg).to_bytes()
}

/// The signing key made from 32 secret bytes.
pub fn release_key(secret: &[u8; 32]) -> (r: ReleaseKey)
    ensures
        r@ == secret@,
{
    signing_key_from_bytes(secret)
}

/// The lowercase hex of the key's public key (what `signing.pub` holds).
pub fn public_key_hex(k: &ReleaseKey) -> (r: String)
    ensures
        r@ == spec_hex_encode(ed25519_public_of(k@)),
{
    let p = public_key_bytes(k);
    hex_encode(vstd::array::array_as_slice(&p))
}

/// Where the private key is read from: the `LRGEX_SIGNING_KEY` setting when
/// there is one, else the key file on the developer's `E:` drive.
pub fn key_path(setting: Option<&str>) -> (r: String)
    ensures
        r@ == match setting {
            Some(p) => p@,
            None => "E:\\LRG\\LRG Data Cloud\\L.R.G\\Devoloping\\Coding\\Security keys\\RUST\\LRGEX-Restore\\keys\\signing.key"@,
        },
{
    match setting {
        Some(p) => string_of(&chars_of(p)),
        None => string_of(
            &chars_of(
                "E:\\LRG\\LRG Data Cloud\\L.R.G\\Devoloping\\Coding\\Security keys\\RUST\\LRGEX-Restore\\keys\\signing.key",
            ),
        ),
    }
}

/// Why the key file's text is not a private key.
#[derive(PartialEq, Eq, Structural, Clone, Copy, Debug)]
pub enum SecretFormat {
    /// The trimmed text is not hex.
    NotHex,
    /// It is hex of this many bytes instead of 32.
    WrongLength(usize),
}

/// The 32 secret bytes of the key file's text: its trimmed text decoded as hex.
pub fn parse_secret(text: &str) -> (r: Result<[u8; 32], SecretFormat>)
    ensures
        match spec_hex_decode(encode_utf8(trim(text@))) {
            None => r == Err::<[u8; 32], SecretFormat>(SecretFormat::NotHex),
            Some(b) => if b.len() == 32 {
                r matches Ok(s) && s@ == b
            } else {
                r == Err::<[u8; 32], SecretFormat>(SecretFormat::WrongLength(b.len() as usize))
            },
        },
{
    let t = string_of(&trim_chars(text));
    match hex_decode(t.as_str()) {
        Err(_) => Err(SecretFormat::NotHex),
        Ok(v) => {
            if v.len() != 32 {
                return Err(SecretFormat::WrongLength(v.len()));
            }
            let mut a = [0u8; 32];
            let mut i: usize = 0;
            while i < 32
                invariant
                    i <= 32,
                    v@.len() == 32,
                    forall|j: int| 0 <= j < i ==> a@[j] == v@[j],
                decreases 32 - i,
            {
                a[i] = v[i];
                i = i + 1;
            }
            assert(a@ =~= v@);
            Ok(a)
        },
    }
}

/// The key of `secret`, refused (with the hex of the public key it derives to)
/// unless that public key is the trusted one, `anchor` (its text trimmed):
/// updates signed with another key would be rejected by every installed copy.
pub fn load_key_checked(secret: &[u8; 32], anchor: &str) -> (r: Result<ReleaseKey, String>)
    ensures
        match r {
            Ok(k) => k@ == secret@ && trim(anchor@) == spec_hex_encode(ed25519_public_of(secret@)),
            Err(derived) => derived@ == spec_hex_encode(ed25519_public_of(secret@)) && derived@ != trim(anchor@),
        },
{
    let k = signing_key_from_bytes(secret);
    let derived = public_key_hex(&k);
    let dc = chars_of(derived.as_str());
    let expected = trim_chars(anchor);
    if crate::pathutil::eq_chars(&dc, &expected) {
        Ok(k)
    } else {
        Err(derived)
    }
}

/// The lowercase hex of the signature of `msg`. Under any public-key text whose
/// trimmed form is the key's public key in hex, it passes `check_signature`: the
/// key text decodes to 32 bytes, the signature to 64, and the signature is valid.
pub fn signature_hex(k: &ReleaseKey, msg: &[u8]) -> (r: String)
    ensures
        r@ == spec_hex_encode(ed25519_signature_of(k@, msg@)),
        forall|anchor: Seq<char>|
            #[trigger] trim(anchor) == spec_hex_encode(ed25519_public_of(k@)) ==> decodes_to_len(trim(anchor), 32)
                && decodes_to_len(r@, 64) && signature_accepted(msg@, r@, anchor),
{
    let p = public_key_bytes(k);
    let s = sign_message(k, msg);
    let r = hex_encode(vstd::array::array_as_slice(&s));
    proof {
        lemma_hex_round_trip(p@);
        lemma_hex_round_trip(s@);
    }
    r
}

} // verus!

//! Self-update checks: version comparison, the fail-closed manifest gate, Ed25519
//! signature verification over hex-encoded inputs, the download checks, and the
//! updater script.
use vstd::prelude::*;
use vstd::utf8::*;
use crate::text::{chars_of, string_of, push_str, trim, trim_chars, parse_unsigned, parse_unsigned_chars, join_with, join_strings};
use crate::gamescan::{split_on, split_chars};
use crate::config::{hex_char, hex_digits, eq_ignore_ascii_case, lower_ascii};

verus! {

broadcast use vstd::utf8::group_utf8_lib;

// ==================== VERSIONS ====================

/// The numbers of a version string: its `.`-separated parts that parse as `u32`,
/// in order (the others are dropped).
pub open spec fn numbers(parts: Seq<Seq<char>>) -> Seq<nat>
    decreases parts.len(),
{
    if parts.len() == 0 {
        seq![]
    } else {
        match parse_unsigned(parts[0], u32::MAX as nat) {
            Some(n) => seq![n] + numbers(parts.drop_first()),
            None => numbers(parts.drop_first()),
        }
    }
}

pub open spec fn version_numbers(s: Seq<char>) -> Seq<nat> {
    numbers(split_on(s, '.'))
}

/// Part `i` of a version, 0 past its end.
pub open spec fn part(v: Seq<nat>, i: int) -> nat {
    if 0 <= i < v.len() {
        v[i]
    } else {
        0
    }
}

/// From part `i` on (below `n`), `r` is ahead at the first part where they differ.
pub open spec fn ahead_from(r: Seq<nat>, c: Seq<nat>, i: int, n: int) -> bool
    decreases n - i,
{
    if i >= n {
        false
    } else if part(r, i) > part(c, i) {
        true
    } else if part(r, i) < part(c, i) {
        false
    } else {
        ahead_from(r, c, i + 1, n)
    }
}

/// `remote` is a newer version than `current`: comparing part by part, missing
/// parts read as 0, the first difference decides.
pub open spec fn spec_is_newer(remote: Seq<char>, current: Seq<char>) -> bool {
    let r = version_numbers(remote);
    let c = version_numbers(current);
    ahead_from(r, c, 0, if r.len() > c.len() { r.len() as int } else { c.len() as int })
}

fn numbers_exec(s: &str) -> (r: Vec<u32>)
    ensures
        r@.len() == version_numbers(s@).len(),
        forall|i: int| 0 <= i < r@.len() ==> r@[i] as nat == #[trigger] version_numbers(s@)[i],
{
    let cs = chars_of(s);
    let parts = split_chars(&cs, '.');
    let ghost ps = split_on(s@, '.');
    let mut out: Vec<u32> = Vec::new();
    let mut k: usize = parts.len();
    let ghost acc: Seq<nat> = seq![];
    let mut rev: Vec<u32> = Vec::new();
    let mut i: usize = 0;
    while i < parts.len()
        invariant
            i <= parts@.len(),
            parts@.len() == ps.len(),
            ps == split_on(s@, '.'),
            forall|j: int| 0 <= j < parts@.len() ==> (#[trigger] parts@[j])@ == ps[j],
            out@.map_values(|x: u32| x as nat) == numbers(ps.take(i as int)),
        decreases parts@.len() - i,
    {
        proof {
            lemma_numbers_push(ps.take(i as int), ps[i as int]);
            assert(ps.take(i as int + 1) =~= ps.take(i as int).push(ps[i as int]));
        }
        match parse_unsigned_chars(parts[i].as_slice(), u32::MAX as u64) {
            Some(v) => {
                out.push(v as u32);
                assert(out@.map_values(|x: u32| x as nat) =~= numbers(ps.take(i as int)).push(v as nat));
            },
            None => {},
        }
        i = i + 1;
    }
    assert(ps.take(ps.len() as int) =~= ps);
    proof {
        let m = out@.map_values(|x: u32| x as nat);
        assert forall|j: int| 0 <= j < out@.len() implies out@[j] as nat == #[trigger] version_numbers(s@)[j] by {
            assert(m[j] == out@[j] as nat);
        }
    }
    out
}

proof fn lemma_numbers_push(ps: Seq<Seq<char>>, q: Seq<char>)
    ensures
        numbers(ps.push(q)) == match parse_unsigned(q, u32::MAX as nat) {
            Some(n) => numbers(ps).push(n),
            None => numbers(ps),
        },
    decreases ps.len(),
{
    if ps.len() == 0 {
        assert(ps.push(q).drop_first() =~= Seq::<Seq<char>>::empty());
        assert(ps.push(q)[0] == q);
        assert(numbers(Seq::<Seq<char>>::empty()) =~= Seq::<nat>::empty());
        match parse_unsigned(q, u32::MAX as nat) {
            Some(n) => {
                assert(numbers(ps.push(q)) =~= seq![n] + numbers(Seq::<Seq<char>>::empty()));
                assert(numbers(ps) =~= Seq::<nat>::empty());
                assert(seq![n] + Seq::<nat>::empty() =~= Seq::<nat>::empty().push(n));
            },
            None => {
                assert(numbers(ps) =~= Seq::<nat>::empty());
            },
        }
    } else {
        assert(ps.push(q).drop_first() =~= ps.drop_first().push(q));
        assert(ps.push(q)[0] == ps[0]);
        lemma_numbers_push(ps.drop_first(), q);
        match parse_unsigned(ps[0], u32::MAX as nat) {
            Some(n) => {
                match parse_unsigned(q, u32::MAX as nat) {
                    Some(m) => {
                        assert(seq![n] + numbers(ps.drop_first()).push(m) =~= (seq![n] + numbers(
                            ps.drop_first(),
                        )).push(m));
                    },
                    None => {},
                }
            },
            None => {},
        }
    }
}

/// Whether `remote` is a newer version than `current` (see `spec_is_newer`).
pub fn is_newer(remote: &str, current: &str) -> (r: bool)
    ensures
        r == spec_is_newer(remote@, current@),
{
    let rv = numbers_exec(remote);
    let cv = numbers_exec(current);
    let ghost rs = version_numbers(remote@);
    let ghost cs = version_numbers(current@);
    let n = if rv.len() > cv.len() { rv.len() } else { cv.len() };
    let mut i: usize = 0;
    while i < n
        invariant
            i <= n,
            n as int == if rs.len() > cs.len() { rs.len() as int } else { cs.len() as int },
            rv@.len() == rs.len(),
            cv@.len() == cs.len(),
            rs == version_numbers(remote@),
            cs == version_numbers(current@),
            forall|j: int| 0 <= j < rv@.len() ==> rv@[j] as nat == #[trigger] rs[j],
            forall|j: int| 0 <= j < cv@.len() ==> cv@[j] as nat == #[trigger] cs[j],
            ahead_from(rs, cs, 0, n as int) == ahead_from(rs, cs, i as int, n as int),
        decreases n - i,
    {
        let a: u32 = if i < rv.len() { rv[i] } else { 0 };
        let b: u32 = if i < cv.len() { cv[i] } else { 0 };
        assert(a as nat == part(rs, i as int));
        assert(b as nat == part(cs, i as int));
        if a > b {
            return true;
        }
        if a < b {
            return false;
        }
        i = i + 1;
    }
    false
}

proof fn lemma_ahead_asym(r: Seq<nat>, c: Seq<nat>, i: int, n: int)
    ensures
        ahead_from(r, c, i, n) ==> !ahead_from(c, r, i, n),
    decreases n - i,
{
    if i < n && part(r, i) == part(c, i) {
        lemma_ahead_asym(r, c, i + 1, n);
    }
}

proof fn lemma_ahead_irrefl(r: Seq<nat>, i: int, n: int)
    ensures
        !ahead_from(r, r, i, n),
    decreases n - i,
{
    if i < n {
        lemma_ahead_irrefl(r, i + 1, n);
    }
}

/// No version is newer than itself, and of two versions at most one is newer
/// than the other.
pub proof fn lemma_is_newer_order(a: Seq<char>, b: Seq<char>)
    ensures
        !spec_is_newer(a, a),
        spec_is_newer(a, b) ==> !spec_is_newer(b, a),
{
    let va = version_numbers(a);
    let vb = version_numbers(b);
    let n = if va.len() > vb.len() { va.len() as int } else { vb.len() as int };
    let m = if vb.len() > va.len() { vb.len() as int } else { va.len() as int };
    assert(n == m);
    lemma_ahead_irrefl(va, 0, va.len() as int);
    lemma_ahead_asym(va, vb, 0, n);
}

// ==================== MANIFEST GATE ====================

/// What to do with a fetched update manifest before anything in it is trusted.
pub enum UpdateGate {
    /// The manifest names the running version: no update.
    UpToDate,
    /// The manifest lacks its signature or the signed hash: refuse it.
    Unsigned,
    /// Verify `signature` over `message` (`version|url|sha256`) first.
    Verify { message: String, signature: String, sha256: String },
}

/// The signed text of a manifest: `<version>|<url>|<sha256>`.
pub open spec fn canonical_message(version: Seq<char>, url: Seq<char>, sha: Seq<char>) -> Seq<char> {
    version + "|"@ + url + "|"@ + sha
}

/// The fail-closed gate: equal versions need no trust; a manifest without a
/// non-empty signature and a non-empty signed hash is refused; otherwise its
/// canonical message is to be verified against the signature.
pub fn update_gate(
    version: &str,
    current: &str,
    url: &str,
    manifest_signature: Option<&str>,
    exe_sha256: Option<&str>,
) -> (r: UpdateGate)
    ensures
        version@ == current@ ==> r is UpToDate,
        version@ != current@ ==> match (manifest_signature, exe_sha256) {
            (Some(m), Some(h)) => if m@.len() > 0 && h@.len() > 0 {
                r matches UpdateGate::Verify { message, signature, sha256 } && message@
                    == canonical_message(version@, url@, h@) && signature@ == m@ && sha256@ == h@
            } else {
                r is Unsigned
            },
            _ => r is Unsigned,
        },
{
    let vc = chars_of(version);
    let cc = chars_of(current);
    if crate::pathutil::eq_chars(&vc, &cc) {
        return UpdateGate::UpToDate;
    }
    match (manifest_signature, exe_sha256) {
        (Some(m), Some(h)) => {
            let mc = chars_of(m);
            let hc = chars_of(h);
            if mc.len() > 0 && hc.len() > 0 {
                let mut v: Vec<char> = Vec::new();
                push_str(&mut v, version);
                push_str(&mut v, "|");
                push_str(&mut v, url);
                push_str(&mut v, "|");
                push_str(&mut v, h);
                UpdateGate::Verify { message: string_of(&v), signature: string_of(&mc), sha256: string_of(&hc) }
            } else {
                UpdateGate::Unsigned
            }
        },
        _ => UpdateGate::Unsigned,
    }
}

// ==================== HEX, SHA-256, ED25519 ====================

#[verifier::external_type_specification]
#[verifier::external_body]
pub struct ExFromHexError(hex::FromHexError);

#[verifier::external_type_specification]
#[verifier::external_body]
pub struct ExSignatureError(ed25519_dalek::ed25519::Error);

#[verifier::external_type_specification]
#[verifier::external_body]
pub struct ExVerifyingKey(ed25519_dalek::VerifyingKey);

/// The value of a hex digit byte (`0-9`, `a-f`, `A-F`).
pub open spec fn hex_value(b: u8) -> Option<nat> {
    if 48 <= b <= 57 {
        Some((b - 48) as nat)
    } else if 65 <= b <= 70 {
        Some((b - 55) as nat)
    } else if 97 <= b <= 102 {
        Some((b - 87) as nat)
    } else {
        None
    }
}

/// Hex text decoded two digits to a byte; `None` for an odd length or a byte that
/// is not a hex digit.
pub open spec fn spec_hex_decode(s: Seq<u8>) -> Option<Seq<u8>>
    decreases s.len(),
{
    if s.len() % 2 != 0 {
        None
    } else if s.len() == 0 {
        Some(seq![])
    } else {
        match (hex_value(s[0]), hex_value(s[1]), spec_hex_decode(s.skip(2))) {
            (Some(h), Some(l), Some(rest)) => Some(seq![(h * 16 + l) as u8] + rest),
            _ => None,
        }
    }
}

/// Bytes as lowercase hex, two digits each.
pub open spec fn spec_hex_encode(b: Seq<u8>) -> Seq<char>
    decreases b.len(),
{
    if b.len() == 0 {
        seq![]
    } else {
        hex_digits(b[0] as nat, 2) + spec_hex_encode(b.drop_first())
    }
}

proof fn lemma_hex_char_value(d: nat)
    requires
        d < 16,
    ensures
        '\0' <= hex_char(d) <= '\u{7f}',
        hex_value((hex_char(d) as u32) as u8) == Some(d),
{
}

/// Hex text written by `spec_hex_encode` decodes back to the same bytes, two
/// characters (one byte each in UTF-8) per byte.
pub proof fn lemma_hex_round_trip(b: Seq<u8>)
    ensures
        encode_utf8(spec_hex_encode(b)).len() == 2 * b.len(),
        spec_hex_decode(encode_utf8(spec_hex_encode(b))) == Some(b),
    decreases b.len(),
{
    if b.len() == 0 {
        assert(spec_hex_encode(b) =~= Seq::<char>::empty());
        assert(encode_utf8(Seq::<char>::empty()) =~= Seq::<u8>::empty());
    } else {
        let x = b[0] as nat;
        let hi = x / 16;
        let lo = x % 16;
        let h = hex_digits(x, 2);
        assert(hex_digits(x / 16, 1) == hex_digits(x / 16 / 16, 0).push(hex_char((x / 16) % 16)));
        assert(h =~= seq![hex_char(hi), hex_char(lo)]);
        lemma_hex_char_value(hi);
        lemma_hex_char_value(lo);
        assert(is_ascii_chars(h));
        is_ascii_chars_encode_utf8(h);
        let rest = b.drop_first();
        let r = spec_hex_encode(rest);
        lemma_hex_round_trip(rest);
        crate::text::lemma_encode_concat(h, r);
        let e = encode_utf8(h + r);
        assert(spec_hex_encode(b) == h + r);
        assert(encode_utf8(h).len() == 2);
        assert(e[0] == encode_utf8(h)[0]);
        assert(e[1] == encode_utf8(h)[1]);
        assert(e[0] == (hex_char(hi) as u32) as u8);
        assert(e[1] == (hex_char(lo) as u32) as u8);
        assert(e.skip(2) =~= encode_utf8(r));
        assert(hex_value(e[0]) == Some(hi));
        assert(hex_value(e[1]) == Some(lo));
        assert(((hi * 16 + lo) as u8) == b[0]);
        assert(seq![b[0]] + rest =~= b);
    }
}

/// The SHA-256 digest of `data`.
pub uninterp spec fn sha256_of(data: Seq<u8>) -> Seq<u8>;

/// Whether `VerifyingKey::from_bytes` accepts these 32 bytes (they decompress
/// to a curve point).
pub uninterp spec fn ed25519_key_accepted(key: Seq<u8>) -> bool;

/// Whether `sig` is a valid Ed25519 signature of `msg` under the public key `key`.
pub uninterp spec fn ed25519_signature_valid(key: Seq<u8>, msg: Seq<u8>, sig: Seq<u8>) -> bool;

/// Calls `hex::decode`: two hex digits (either case) per byte; an odd length or a
/// non-digit is an error.
#[verifier::external_body]
pub(crate) fn hex_decode(s: &str) -> (r: Result<Vec<u8>, hex::FromHexError>)
    ensures
        match r {
            Ok(v) => spec_hex_decode(encode_utf8(s@)) == Some(v@),
            Err(_) => spec_hex_decode(encode_utf8(s@)) is None,
        },
{
    hex::decode(s)
}

/// Calls `hex::encode`: two lowercase hex digits per byte.
#[verifier::external_body]
pub(crate) fn hex_encode(bytes: &[u8]) -> (r: String)
    ensures
        r@ == spec_hex_encode(bytes@),
{
    hex::encode(bytes)
}

/// Formats a `hex::FromHexError` with its `Display` (its text is not restated).
#[verifier::external_body]
fn hex_error_text(e: &hex::FromHexError) -> String {
    format!("{}", e)
}

/// Calls `Sha256::digest` (`sha2`): the 32-byte SHA-256 digest of `data`.
#[verifier::external_body]
fn sha256(data: &[u8]) -> (r: [u8; 32])
    ensures
        r@ == sha256_of(data@),
{
    <sha2::Sha256 as sha2::Digest>::digest(data).into()
}

/// An Ed25519 public key with the 32 bytes it was made from.
pub struct PublicKey {
    bytes: [u8; 32],
    key: ed25519_dalek::VerifyingKey,
}

impl View for PublicKey {
    type V = Seq<u8>;

    closed spec fn view(&self) -> Seq<u8> {
        self.bytes@
    }
}

/// Calls `VerifyingKey::from_bytes` (`ed25519-dalek`): the key when the bytes
/// decompress to a curve point, an error otherwise; the key keeps its bytes.
#[verifier::external_body]
fn public_key_from_bytes(bytes: &[u8; 32]) -> (r: Result<PublicKey, ed25519_dalek::ed25519::Error>)
    ensures
        r is Ok <==> ed25519_key_accepted(bytes@),
        match r {
            Ok(k) => k@ == bytes@,
            Err(_) => true,
        },
{
    match ed25519_dalek::VerifyingKey::from_bytes(bytes) {
        Ok(key) => Ok(PublicKey { bytes: *bytes, key }),
        Err(e) => Err(e),
    }
}

/// Calls `Verifier::verify` of `VerifyingKey` (`ed25519-dalek`) on the signature
/// made from the 64 bytes by `Signature::from_bytes`: `Ok` exactly when the
/// signature is valid for the message under the key.
#[verifier::external_body]
fn verify_with(pk: &PublicKey, msg: &[u8], sig: &[u8; 64]) -> (r: Result<(), ed25519_dalek::ed25519::Error>)
    ensures
        r is Ok <==> ed25519_signature_valid(pk@, msg@, sig@),
{
    ed25519_dalek::Verifier::verify(&pk.key, msg, &ed25519_dalek::Signature::from_bytes(sig))
}

/// Formats an `ed25519` signature error with its `Display` (its text is not restated).
#[verifier::external_body]
fn signature_error_text(e: &ed25519_dalek::ed25519::Error) -> String {
    format!("{}", e)
}

pub open spec fn decodes_to_len(s: Seq<char>, n: nat) -> bool {
    match spec_hex_decode(encode_utf8(s)) {
        Some(b) => b.len() == n,
        None => true,
    }
}

/// The signature check succeeds: the trimmed key hex decodes to an accepted key,
/// the signature hex decodes, and the signature is valid for `data`.
pub open spec fn signature_accepted(data: Seq<u8>, sig_hex: Seq<char>, pub_hex: Seq<char>) -> bool {
    match (spec_hex_decode(encode_utf8(trim(pub_hex))), spec_hex_decode(encode_utf8(sig_hex))) {
        (Some(k), Some(s)) => ed25519_key_accepted(k) && ed25519_signature_valid(k, data, s),
        _ => false,
    }
}

fn message_with(prefix: &str, detail: String) -> (r: String)
    ensures
        r@ == prefix@ + detail@,
{
    let mut v: Vec<char> = Vec::new();
    push_str(&mut v, prefix);
    push_str(&mut v, detail.as_str());
    string_of(&v)
}

fn to_array32(v: &Vec<u8>) -> (r: [u8; 32])
    requires
        v@.len() == 32,
    ensures
        r@ == v@,
{
    let mut a = [0u8; 32];
    let mut i: usize = 0;
    while i < 32
        invariant
            i <= 32,
            v@.len() == 32,
            forall|j: int| 0 <= j < i ==> a@[j] == v@[j],
        decreases 32 - i,
    {
        a[i] = v[i];
        i = i + 1;
    }
    assert(a@ =~= v@);
    a
}

fn to_array64(v: &Vec<u8>) -> (r: [u8; 64])
    requires
        v@.len() == 64,
    ensures
        r@ == v@,
{
    let mut a = [0u8; 64];
    let mut i: usize = 0;
    while i < 64
        invariant
            i <= 64,
            v@.len() == 64,
            forall|j: int| 0 <= j < i ==> a@[j] == v@[j],
        decreases 64 - i,
    {
        a[i] = v[i];
        i = i + 1;
    }
    assert(a@ =~= v@);
    a
}

/// Verifies an Ed25519 signature (hex) over `data` with the public key (hex,
/// surrounding whitespace ignored). The decoded key must be 32 bytes and the
/// decoded signature 64 bytes.
fn verify_signature(data: &[u8], sig_hex: &str, pub_hex: &str) -> (r: Result<(), String>)
    requires
        decodes_to_len(trim(pub_hex@), 32),
        decodes_to_len(sig_hex@, 64),
    ensures
        r is Ok <==> signature_accepted(data@, sig_hex@, pub_hex@),
{
    let pt = string_of(&trim_chars(pub_hex));
    let pub_bytes = match hex_decode(pt.as_str()) {
        Ok(b) => b,
        Err(e) => return Err(message_with("Bad public key: ", hex_error_text(&e))),
    };
    let pub_arr = to_array32(&pub_bytes);
    let pk = match public_key_from_bytes(&pub_arr) {
        Ok(k) => k,
        Err(e) => return Err(message_with("Bad public key: ", signature_error_text(&e))),
    };
    let sig_bytes = match hex_decode(sig_hex) {
        Ok(b) => b,
        Err(e) => return Err(message_with("Bad signature format: ", hex_error_text(&e))),
    };
    let sig_arr = to_array64(&sig_bytes);
    match verify_with(&pk, data, &sig_arr) {
        Ok(()) => Ok(()),
        Err(e) => Err(message_with("Invalid signature: ", signature_error_text(&e))),
    }
}

/// Checks a signature like `verify_signature`, first refusing a key that does not
/// decode to 32 bytes or a signature that does not decode to 64.
pub fn check_signature(data: &[u8], sig_hex: &str, pub_hex: &str) -> (r: Result<(), String>)
    ensures
        decodes_to_len(trim(pub_hex@), 32) && decodes_to_len(sig_hex@, 64) ==> (r is Ok
            <==> signature_accepted(data@, sig_hex@, pub_hex@)),
        !(decodes_to_len(trim(pub_hex@), 32) && decodes_to_len(sig_hex@, 64)) ==> r is Err,
{
    let pt = string_of(&trim_chars(pub_hex));
    let key_ok = match hex_decode(pt.as_str()) {
        Ok(b) => b.len() == 32,
        Err(_) => true,
    };
    let sig_ok = match hex_decode(sig_hex) {
        Ok(b) => b.len() == 64,
        Err(_) => true,
    };
    if !key_ok {
        return Err(string_of(&chars_of("Bad public key: wrong length")));
    }
    if !sig_ok {
        return Err(string_of(&chars_of("Bad signature format: wrong length")));
    }
    verify_signature(data, sig_hex, pub_hex)
}

// ==================== DOWNLOAD ====================

/// Downloads are cut off past 64 MiB.
pub const DOWNLOAD_CAP: usize = 67108864;

/// A genuine build is at least one million bytes.
pub const MIN_DOWNLOAD: usize = 1000000;

/// The lowercase hex SHA-256 of `data`.
pub fn sha256_hex(data: &[u8]) -> (r: String)
    ensures
        r@ == spec_hex_encode(sha256_of(data@)),
{
    let d = sha256(data);
    hex_encode(array_slice(&d))
}

fn array_slice(a: &[u8; 32]) -> (r: &[u8])
    ensures
        r@ == a@,
{
    vstd::array::array_as_slice(a)
}

/// The download matches the signed hash (ASCII case ignored).
pub fn download_hash_matches(data: &[u8], expected: &str) -> (r: bool)
    ensures
        r == eq_ignore_ascii_case(spec_hex_encode(sha256_of(data@)), expected@),
{
    let actual = sha256_hex(data);
    let ac = chars_of(actual.as_str());
    let ec = chars_of(expected);
    if ac.len() != ec.len() {
        return false;
    }
    let mut k: usize = 0;
    while k < ac.len()
        invariant
            k <= ac@.len(),
            ac@ == spec_hex_encode(sha256_of(data@)),
            ec@ == expected@,
            ac@.len() == ec@.len(),
            forall|j: int| 0 <= j < k ==> #[trigger] lower_ascii(ac@[j]) == lower_ascii(ec@[j]),
        decreases ac@.len() - k,
    {
        let lx = crate::config::lower_ascii_exec(ac[k]);
        let ly = crate::config::lower_ascii_exec(ec[k]);
        if lx != ly {
            return false;
        }
        k = k + 1;
    }
    true
}

/// Lowercase hex digits of a `u64`, `n` of them.
fn push_hex64(x: u64, n: u32, out: &mut Vec<char>)
    ensures
        final(out)@ == old(out)@ + hex_digits(x as nat, n as nat),
    decreases n,
{
    if n == 0 {
        assert(old(out)@ + hex_digits(x as nat, 0) =~= old(out)@);
    } else {
        push_hex64(x / 16, n - 1, out);
        out.push(crate::config::hex_char_exec((x % 16) as u32));
        assert(old(out)@ + hex_digits(x as nat, n as nat) =~= old(out)@ + hex_digits(
            (x / 16) as nat,
            (n - 1) as nat,
        ) + seq![crate::config::hex_char((x % 16) as nat)]);
    }
}

/// The temporary file name of an update: `lrgex_upd_<16 hex digits>.<ext>`, the
/// digits those of a random `nonce`.
pub fn update_temp_name(nonce: u64, ext: &str) -> (r: String)
    ensures
        r@ == "lrgex_upd_"@ + hex_digits(nonce as nat, 16) + "."@ + ext@,
{
    let mut v: Vec<char> = Vec::new();
    push_str(&mut v, "lrgex_upd_");
    push_hex64(nonce, 16, &mut v);
    push_str(&mut v, ".");
    push_str(&mut v, ext);
    string_of(&v)
}

/// The lines of the updater script: re-check the download's SHA-256 (and delete it
/// on a mismatch), copy it over the program with up to 30 retries, start the new
/// program, delete itself.
pub open spec fn script_lines(t: Seq<char>, h: Seq<char>, e: Seq<char>) -> Seq<Seq<char>> {
    seq![
        "@echo off"@,
        "ping 127.0.0.1 -n 3 > nul"@,
        ":verify"@,
        "certutil -hashfile \""@ + t + "\" SHA256 | findstr /i \""@ + h + "\" >nul 2>&1"@,
        "if errorlevel 1 ("@,
        "  del \""@ + t + "\" >nul 2>&1"@,
        "  exit /b 1"@,
        ")"@,
        ":retry"@,
        "set /a tries=0"@,
        ":retryloop"@,
        "copy /Y \""@ + t + "\" \""@ + e + "\" >nul 2>&1"@,
        "if not errorlevel 1 goto done"@,
        "set /a tries+=1"@,
        "if %tries% geq 30 (\r\n  del \"%~f0\" >nul 2>&1\r\n  exit /b 1\r\n)"@,
        "ping 127.0.0.1 -n 3 >nul"@,
        "goto retryloop"@,
        ":done"@,
        "del \""@ + t + "\" >nul 2>&1"@,
        "start \"\" \""@ + e + "\""@,
        "del \"%~f0\""@,
    ]
}

fn lit(a: &str) -> (r: String)
    ensures
        r@ == a@,
{
    string_of(&chars_of(a))
}

fn line3(a: &str, x: &str, b: &str) -> (r: String)
    ensures
        r@ == a@ + x@ + b@,
{
    let mut v: Vec<char> = Vec::new();
    push_str(&mut v, a);
    push_str(&mut v, x);
    push_str(&mut v, b);
    string_of(&v)
}

fn line5(a: &str, x: &str, b: &str, y: &str, c: &str) -> (r: String)
    ensures
        r@ == a@ + x@ + b@ + y@ + c@,
{
    let mut v: Vec<char> = Vec::new();
    push_str(&mut v, a);
    push_str(&mut v, x);
    push_str(&mut v, b);
    push_str(&mut v, y);
    push_str(&mut v, c);
    string_of(&v)
}

/// The updater script: its lines (see `script_lines`) joined with CRLF, and a
/// final CRLF. `t` is the verified download, `h` its SHA-256, `e` the program.
pub fn updater_script(t: &str, h: &str, e: &str) -> (r: String)
    ensures
        r@ == join_with(script_lines(t@, h@, e@), "\r\n"@) + "\r\n"@,
{
    let mut lines: Vec<String> = Vec::new();
    lines.push(lit("@echo off"));
    lines.push(lit("ping 127.0.0.1 -n 3 > nul"));
    lines.push(lit(":verify"));
    lines.push(line5("certutil -hashfile \"", t, "\" SHA256 | findstr /i \"", h, "\" >nul 2>&1"));
    lines.push(lit("if errorlevel 1 ("));
    lines.push(line3("  del \"", t, "\" >nul 2>&1"));
    lines.push(lit("  exit /b 1"));
    lines.push(lit(")"));
    lines.push(lit(":retry"));
    lines.push(lit("set /a tries=0"));
    lines.push(lit(":retryloop"));
    lines.push(line5("copy /Y \"", t, "\" \"", e, "\" >nul 2>&1"));
    lines.push(lit("if not errorlevel 1 goto done"));
    lines.push(lit("set /a tries+=1"));
    lines.push(lit("if %tries% geq 30 (\r\n  del \"%~f0\" >nul 2>&1\r\n  exit /b 1\r\n)"));
    lines.push(lit("ping 127.0.0.1 -n 3 >nul"));
    lines.push(lit("goto retryloop"));
    lines.push(lit(":done"));
    lines.push(line3("del \"", t, "\" >nul 2>&1"));
    lines.push(line3("start \"\" \"", e, "\""));
    lines.push(lit("del \"%~f0\""));
    let ghost lv = lines@.map_values(|x: String| x@);
    assert(lv.len() == 21);
    assert forall|k: int| 0 <= k < 21 implies #[trigger] lv[k] == script_lines(t@, h@, e@)[k] by {
        assert(lv[k] == lines@[k]@);
    }
    assert(lv =~= script_lines(t@, h@, e@));
    let body = join_strings(&lines, "\r\n");
    let mut v = chars_of(body.as_str());
    push_str(&mut v, "\r\n");
    string_of(&v)
}

} // verus!

//! Configuration records, backup identity (pair keys) and the file layout of the
//! backup home.
use vstd::prelude::*;
use vstd::string::*;
use vstd::utf8::*;
use crate::text::{
    lowercase, lower_ascii_seq, to_lowercase, chars_of, string_of, parse_unsigned, parse_unsigned_chars,
};
use crate::winpath::{spec_file_name, file_name, spec_join, join_name, no_seps, is_sep, spec_prefix, PrefixKind, is_alpha};
use crate::pathutil::{PathRoots, SRoot, spec_contract, contract, spec_expand, expand, eq_chars, trim_trailing_backslashes};

verus! {

broadcast use vstd::utf8::group_utf8_lib;

/// One protected folder.
pub struct Junction {
    pub source_path: String,
    pub auto_restore: bool,
    pub created: String,
    pub is_game: bool,
    /// Volume GUID (`{...}`) of the folder's drive when it was last saved.
    pub volume_id: Option<String>,
}

/// The whole configuration.
pub struct Config {
    pub junctions: Vec<Junction>,
    pub sync_interval_minutes: i32,
    pub excluded_names: Vec<String>,
    pub max_versions: i32,
}

/// Minutes between scheduled syncs when the configuration names none.
pub fn default_interval() -> (r: i32)
    ensures
        r == 1440,
{
    1440
}

/// Snapshots kept per folder when the configuration names none.
pub fn default_max_versions() -> (r: i32)
    ensures
        r == 2,
{
    2
}

impl Default for Config {
    fn default() -> (r: Config)
        ensures
            r.junctions@.len() == 0,
            r.sync_interval_minutes == 1440,
            r.excluded_names@.len() == 0,
            r.max_versions == 2,
    {
        Config {
            junctions: Vec::new(),
            sync_interval_minutes: 1440,
            excluded_names: Vec::new(),
            max_versions: 2,
        }
    }
}

// ==================== FNV-1a ====================

pub open spec fn fnv_offset() -> u64 {
    0xcbf29ce484222325u64
}

pub open spec fn fnv_prime() -> u64 {
    0x100000001b3u64
}

/// One FNV-1a round: xor the byte in, then multiply (mod 2^64).
pub open spec fn fnv_step(h: u64, b: u8) -> u64 {
    ((h ^ (b as u64)) as nat * fnv_prime() as nat % 0x1_0000_0000_0000_0000nat) as u64
}

/// FNV-1a over `bytes`, starting from state `h`.
pub open spec fn fnv_fold(h: u64, bytes: Seq<u8>) -> u64
    decreases bytes.len(),
{
    if bytes.len() == 0 {
        h
    } else {
        fnv_fold(fnv_step(h, bytes[0]), bytes.drop_first())
    }
}

proof fn lemma_fnv_fold_push(h: u64, bytes: Seq<u8>, b: u8)
    ensures
        fnv_fold(h, bytes.push(b)) == fnv_step(fnv_fold(h, bytes), b),
    decreases bytes.len(),
{
    if bytes.len() == 0 {
        assert(bytes.push(b).drop_first() =~= Seq::<u8>::empty());
        assert(bytes.push(b)[0] == b);
        assert(fnv_fold(fnv_step(h, b), bytes.push(b).drop_first()) == fnv_step(h, b));
    } else {
        assert(bytes.push(b).drop_first() =~= bytes.drop_first().push(b));
        assert(bytes.push(b)[0] == bytes[0]);
        lemma_fnv_fold_push(fnv_step(h, bytes[0]), bytes.drop_first(), b);
    }
}

/// Feeding bytes in two parts gives the same hash as feeding them at once.
pub proof fn lemma_fnv_fold_concat(h: u64, a: Seq<u8>, b: Seq<u8>)
    ensures
        fnv_fold(fnv_fold(h, a), b) == fnv_fold(h, a + b),
    decreases a.len(),
{
    if a.len() == 0 {
        assert(a + b =~= b);
    } else {
        assert((a + b).drop_first() =~= a.drop_first() + b);
        lemma_fnv_fold_concat(fnv_step(h, a[0]), a.drop_first(), b);
    }
}

/// Continues an FNV-1a hash over more bytes.
pub fn fnv1a64_update(h: u64, bytes: &[u8]) -> (r: u64)
    ensures
        r == fnv_fold(h, bytes@),
{
    let mut acc = h;
    let mut i: usize = 0;
    while i < bytes.len()
        invariant
            i <= bytes@.len(),
            acc == fnv_fold(h, bytes@.take(i as int)),
        decreases bytes@.len() - i,
    {
        proof {
            lemma_fnv_fold_push(h, bytes@.take(i as int), bytes@[i as int]);
            assert(bytes@.take(i as int + 1) =~= bytes@.take(i as int).push(bytes@[i as int]));
        }
        acc = (acc ^ (bytes[i] as u64)).wrapping_mul(0x100000001b3u64);
        i = i + 1;
    }
    assert(bytes@.take(bytes@.len() as int) =~= bytes@);
    acc
}

/// The FNV-1a starting state.
pub fn fnv1a64_offset() -> (r: u64)
    ensures
        r == fnv_offset(),
{
    0xcbf29ce484222325u64
}

pub open spec fn hex_char(d: nat) -> char {
    if d < 10 {
        ('0' as nat + d) as char
    } else {
        ('a' as nat + d - 10) as char
    }
}

/// The lowest `n` hex digits of `x`, most significant first, lowercase.
pub open spec fn hex_digits(x: nat, n: nat) -> Seq<char>
    decreases n,
{
    if n == 0 {
        seq![]
    } else {
        hex_digits(x / 16, (n - 1) as nat).push(hex_char(x % 16))
    }
}

pub fn hex_char_exec(d: u32) -> (c: char)
    requires
        d < 16,
    ensures
        c == hex_char(d as nat),
{
    if d < 10 {
        ((('0' as u32) + d) as u8) as char
    } else {
        ((('a' as u32) + d - 10) as u8) as char
    }
}

pub fn push_hex(x: u32, n: u32, out: &mut Vec<char>)
    ensures
        final(out)@ == old(out)@ + hex_digits(x as nat, n as nat),
    decreases n,
{
    if n == 0 {
        assert(old(out)@ + hex_digits(x as nat, 0) =~= old(out)@);
    } else {
        push_hex(x / 16, n - 1, out);
        out.push(hex_char_exec(x % 16));
        assert(old(out)@ + hex_digits(x as nat, n as nat) =~= old(out)@ + hex_digits(
            (x / 16) as nat,
            (n - 1) as nat,
        ) + seq![hex_char((x % 16) as nat)]);
    }
}

/// Display hash of a path: FNV-1a over the UTF-8 bytes of its lowercase form,
/// low 32 bits as eight lowercase hex digits.
pub open spec fn spec_fnv1a_hex(s: Seq<char>) -> Seq<char> {
    fnv1a_hex_by(s, |t: Seq<char>| lowercase(t))
}

/// `spec_fnv1a_hex` with the lowercase mapping `low`.
pub open spec fn fnv1a_hex_by(s: Seq<char>, low: spec_fn(Seq<char>) -> Seq<char>) -> Seq<char> {
    let h = fnv_fold(fnv_offset(), encode_utf8(low(s)));
    hex_digits(((h & 0xFFFF_FFFFu64) as u32) as nat, 8)
}

/// Eight lowercase hex digits of the low 32 bits of the FNV-1a hash of `lower`'s bytes.
pub fn fnv1a_hex_lower(lower: &str) -> (r: String)
    ensures
        r@ == hex_digits(
            ((fnv_fold(fnv_offset(), encode_utf8(lower@)) & 0xFFFF_FFFFu64) as u32) as nat,
            8,
        ),
{
    let h = fnv1a64_update(fnv1a64_offset(), lower.as_bytes());
    let mut v: Vec<char> = Vec::new();
    push_hex((h & 0xFFFF_FFFFu64) as u32, 8, &mut v);
    assert(Seq::<char>::empty() + hex_digits(((h & 0xFFFF_FFFFu64) as u32) as nat, 8) =~= hex_digits(((h & 0xFFFF_FFFFu64) as u32) as nat, 8));
    string_of(&v)
}

/// Short stable hash of a path, case-insensitive (Unicode lowercase first).
pub fn fnv1a_hex(s: &str) -> (r: String)
    ensures
        r@ == spec_fnv1a_hex(s@),
        is_ascii_chars(s@) ==> r@ == fnv1a_hex_by(s@, |t: Seq<char>| lower_ascii_seq(t)),
{
    let lower = to_lowercase(s);
    proof {
        if is_ascii_chars(s@) {
            assert(fnv1a_hex_by(s@, |t: Seq<char>| lower_ascii_seq(t)) == spec_fnv1a_hex(s@));
        }
    }
    fnv1a_hex_lower(lower.as_str())
}

// ==================== SAFE FILE NAMES ====================

/// Characters Windows forbids in a path component.
pub open spec fn is_illegal_char(c: char) -> bool {
    c == '<' || c == '>' || c == ':' || c == '"' || c == '/' || c == '\\' || c == '|' || c == '?'
        || c == '*' || (c as u32) < 0x20
}

pub open spec fn sanitize_char(c: char) -> char {
    if is_illegal_char(c) { '_' } else { c }
}

/// `s` without its trailing dots and spaces.
pub open spec fn trim_dots_spaces(s: Seq<char>) -> Seq<char>
    decreases s.len(),
{
    if s.len() > 0 && (s.last() == '.' || s.last() == ' ') {
        trim_dots_spaces(s.drop_last())
    } else {
        s
    }
}

/// Index of the first `.` in `s`, or `s.len()`.
pub open spec fn first_dot(s: Seq<char>) -> nat
    decreases s.len(),
{
    if s.len() == 0 {
        0
    } else if s[0] == '.' {
        0
    } else {
        1 + first_dot(s.drop_first())
    }
}

pub open spec fn reserved_names() -> Seq<Seq<char>> {
    seq![seq!['c', 'o', 'n'], seq!['p', 'r', 'n'], seq!['a', 'u', 'x'], seq!['n', 'u', 'l']]
}

/// Reserved DOS device stem: `con`, `prn`, `aux`, `nul`, or `com`/`lpt` followed by a
/// number (as `u32` parses it) from 1 to 9.
pub open spec fn is_reserved_stem(stem: Seq<char>) -> bool {
    reserved_names().contains(stem) || ((stem.take(3) == seq!['c', 'o', 'm'] || stem.take(3)
        == seq!['l', 'p', 't']) && stem.len() >= 4 && match parse_unsigned(
        stem.skip(3),
        0xFFFF_FFFF,
    ) {
        Some(n) => 1 <= n <= 9,
        None => false,
    })
}

/// The name a Windows path component gets: illegal characters become `_`, trailing
/// dots and spaces go, a reserved device stem (checked on the lowercase form, up to
/// the first `.`) gets `_lrgex` appended, and an empty result becomes `pair`.
pub open spec fn spec_safe_filename(name: Seq<char>) -> Seq<char> {
    safe_filename_by(name, |t: Seq<char>| lowercase(t))
}

/// `spec_safe_filename` with the lowercase mapping `low`.
pub open spec fn safe_filename_by(name: Seq<char>, low: spec_fn(Seq<char>) -> Seq<char>) -> Seq<char> {
    let s = trim_dots_spaces(name.map_values(|c: char| sanitize_char(c)));
    let lower = low(s);
    let s2 = if is_reserved_stem(lower.take(first_dot(lower) as int)) {
        s + seq!['_', 'l', 'r', 'g', 'e', 'x']
    } else {
        s
    };
    if s2.len() == 0 {
        seq!['p', 'a', 'i', 'r']
    } else {
        s2
    }
}

/// A name Windows accepts as a path component.
pub open spec fn is_legal_component(s: Seq<char>) -> bool {
    &&& s.len() > 0
    &&& forall|i: int| 0 <= i < s.len() ==> !is_illegal_char(#[trigger] s[i])
    &&& s.last() != '.'
    &&& s.last() != ' '
}

fn is_illegal_exec(c: char) -> (r: bool)
    ensures
        r == is_illegal_char(c),
{
    c == '<' || c == '>' || c == ':' || c == '"' || c == '/' || c == '\\' || c == '|' || c == '?'
        || c == '*' || (c as u32) < 0x20
}

proof fn lemma_first_dot_bound(s: Seq<char>)
    ensures
        first_dot(s) <= s.len(),
        forall|j: int| 0 <= j < first_dot(s) ==> #[trigger] s[j] != '.',
        first_dot(s) < s.len() ==> s[first_dot(s) as int] == '.',
    decreases s.len(),
{
    if s.len() > 0 && s[0] != '.' {
        lemma_first_dot_bound(s.drop_first());
        assert forall|j: int| 0 <= j < first_dot(s) implies #[trigger] s[j] != '.' by {
            if j > 0 {
                assert(s[j] == s.drop_first()[j - 1]);
            }
        }
    }
}

fn eq3(s: &Vec<char>, a: char, b: char, c: char) -> (r: bool)
    requires
        s@.len() >= 3,
    ensures
        r == (s@.take(3) == seq![a, b, c]),
{
    let r = s[0] == a && s[1] == b && s[2] == c;
    if r {
        assert(s@.take(3) =~= seq![a, b, c]);
    } else {
        assert(s@.take(3)[0] == s@[0] && s@.take(3)[1] == s@[1] && s@.take(3)[2] == s@[2]);
    }
    r
}

/// True when the lowercase name `lower` has a reserved DOS device stem.
pub fn is_reserved_device_name(lower: &str) -> (r: bool)
    ensures
        r == is_reserved_stem(lower@.take(first_dot(lower@) as int)),
{
    let cs = chars_of(lower);
    let mut k: usize = 0;
    while k < cs.len() && cs[k] != '.'
        invariant
            k <= cs@.len(),
            cs@ == lower@,
            forall|j: int| 0 <= j < k ==> cs@[j] != '.',
        decreases cs@.len() - k,
    {
        k = k + 1;
    }
    proof {
        lemma_first_dot_bound(lower@);
        if first_dot(lower@) < k {
            assert(lower@[first_dot(lower@) as int] == '.');
        }
        if k < first_dot(lower@) {
            assert(lower@[k as int] != '.');
        }
    }
    let stem = crate::winpath::sub_chars(cs.as_slice(), 0, k);
    assert(stem@ =~= lower@.take(first_dot(lower@) as int));
    if stem.len() == 3 {
        let named = eq3(&stem, 'c', 'o', 'n') || eq3(&stem, 'p', 'r', 'n') || eq3(&stem, 'a', 'u', 'x')
            || eq3(&stem, 'n', 'u', 'l');
        assert(stem@.take(3) =~= stem@);
        proof {
            if reserved_names().contains(stem@) {
                let i = choose|i: int| 0 <= i < reserved_names().len() && reserved_names()[i] == stem@;
                assert(i == 0 || i == 1 || i == 2 || i == 3);
            }
            if named {
                if stem@ == seq!['c', 'o', 'n'] { assert(reserved_names()[0] == stem@); }
                if stem@ == seq!['p', 'r', 'n'] { assert(reserved_names()[1] == stem@); }
                if stem@ == seq!['a', 'u', 'x'] { assert(reserved_names()[2] == stem@); }
                if stem@ == seq!['n', 'u', 'l'] { assert(reserved_names()[3] == stem@); }
            }
        }
        return named;
    }
    proof {
        if reserved_names().contains(stem@) {
            let i = choose|i: int| 0 <= i < reserved_names().len() && reserved_names()[i] == stem@;
            assert(i == 0 || i == 1 || i == 2 || i == 3);
            assert(stem@.len() == 3);
        }
    }
    if stem.len() < 4 {
        return false;
    }
    if !(eq3(&stem, 'c', 'o', 'm') || eq3(&stem, 'l', 'p', 't')) {
        return false;
    }
    let rest = crate::winpath::sub_chars(stem.as_slice(), 3, stem.len());
    assert(rest@ =~= stem@.skip(3));
    match parse_unsigned_chars(rest.as_slice(), 0xFFFF_FFFF) {
        Some(n) => 1 <= n && n <= 9,
        None => false,
    }
}

/// Turns any string into a legal Windows path component (see `spec_safe_filename`).
pub fn safe_filename(name: &str) -> (r: String)
    ensures
        r@ == spec_safe_filename(name@),
        is_ascii_chars(name@) ==> r@ == safe_filename_by(name@, |t: Seq<char>| lower_ascii_seq(t)),
{
    let cs = chars_of(name);
    let ghost mapped = name@.map_values(|c: char| sanitize_char(c));
    let mut v: Vec<char> = Vec::new();
    let mut i: usize = 0;
    while i < cs.len()
        invariant
            i <= cs@.len(),
            cs@ == name@,
            mapped == name@.map_values(|c: char| sanitize_char(c)),
            v@ == mapped.take(i as int),
        decreases cs@.len() - i,
    {
        let c = cs[i];
        v.push(if is_illegal_exec(c) { '_' } else { c });
        assert(mapped.take(i as int + 1) =~= mapped.take(i as int).push(mapped[i as int]));
        i = i + 1;
    }
    assert(mapped.take(cs@.len() as int) =~= mapped);
    assert(mapped.take(mapped.len() as int) =~= mapped);
    while v.len() > 0 && (v[v.len() - 1] == '.' || v[v.len() - 1] == ' ')
        invariant
            trim_dots_spaces(v@) == trim_dots_spaces(mapped),
            v@.len() <= mapped.len(),
            v@ == mapped.take(v@.len() as int),
        decreases v@.len(),
    {
        v.pop();
        assert(v@ =~= mapped.take(v@.len() as int));
    }
    let ghost s = v@;
    assert(s == trim_dots_spaces(mapped));
    let base = string_of(&v);
    let lower = to_lowercase(base.as_str());
    proof {
        if is_ascii_chars(name@) {
            assert forall|k: int| 0 <= k < s.len() implies '\0' <= #[trigger] s[k] <= '\u{7f}' by {
                assert(s[k] == mapped[k]);
            }
            assert(lowercase(s) == lower_ascii_seq(s));
            assert(safe_filename_by(name@, |t: Seq<char>| lower_ascii_seq(t)) == spec_safe_filename(name@));
        }
    }
    if is_reserved_device_name(lower.as_str()) {
        v.push('_');
        v.push('l');
        v.push('r');
        v.push('g');
        v.push('e');
        v.push('x');
        assert(v@ =~= s + seq!['_', 'l', 'r', 'g', 'e', 'x']);
    }
    if v.len() == 0 {
        let mut p: Vec<char> = Vec::new();
        p.push('p');
        p.push('a');
        p.push('i');
        p.push('r');
        assert(p@ =~= seq!['p', 'a', 'i', 'r']);
        return string_of(&p);
    }
    string_of(&v)
}


// ==================== BACKUP IDENTITY ====================

/// The last normal component of `source`, or `pair` when it has none.
pub open spec fn leaf_or_pair(source: Seq<char>) -> Seq<char> {
    match spec_file_name(source) {
        Some(n) => n,
        None => seq!['p', 'a', 'i', 'r'],
    }
}

/// Storage key of a protected folder: the sanitised leaf name for display, then `_`
/// and the hash of the contracted (portable) path, so two folders with the same
/// name never share a key and a reinstall under another user name keeps it.
pub open spec fn spec_pair_key(source: Seq<char>, es: Seq<SRoot>) -> Seq<char> {
    spec_safe_filename(leaf_or_pair(source)) + seq!['_'] + spec_fnv1a_hex(spec_contract(source, es))
}

proof fn lemma_hex_digits_len(x: nat, n: nat)
    ensures
        hex_digits(x, n).len() == n,
    decreases n,
{
    if n > 0 {
        lemma_hex_digits_len(x / 16, (n - 1) as nat);
    }
}

/// Two folders share a backup key exactly when their sanitised names and their
/// path hashes are the same: folders with the same name in different places
/// (whose path hashes differ) never share a backup.
pub proof fn lemma_pair_key_identity(a: Seq<char>, b: Seq<char>, es: Seq<SRoot>)
    ensures
        (spec_pair_key(a, es) == spec_pair_key(b, es)) <==> (spec_safe_filename(leaf_or_pair(a))
            == spec_safe_filename(leaf_or_pair(b)) && spec_fnv1a_hex(spec_contract(a, es)) == spec_fnv1a_hex(
            spec_contract(b, es),
        )),
{
    let ha = spec_fnv1a_hex(spec_contract(a, es));
    let hb = spec_fnv1a_hex(spec_contract(b, es));
    let la = spec_safe_filename(leaf_or_pair(a)) + seq!['_'];
    let lb = spec_safe_filename(leaf_or_pair(b)) + seq!['_'];
    let h1 = fnv_fold(fnv_offset(), encode_utf8(lowercase(spec_contract(a, es))));
    let h2 = fnv_fold(fnv_offset(), encode_utf8(lowercase(spec_contract(b, es))));
    lemma_hex_digits_len(((h1 & 0xFFFF_FFFFu64) as u32) as nat, 8);
    lemma_hex_digits_len(((h2 & 0xFFFF_FFFFu64) as u32) as nat, 8);
    let ka = la + ha;
    let kb = lb + hb;
    if ka == kb {
        assert(ka.skip(ka.len() - 8) =~= ha);
        assert(kb.skip(kb.len() - 8) =~= hb);
        assert(ka.take(ka.len() - 8) =~= la);
        assert(kb.take(kb.len() - 8) =~= lb);
        assert(la.drop_last() =~= spec_safe_filename(leaf_or_pair(a)));
        assert(lb.drop_last() =~= spec_safe_filename(leaf_or_pair(b)));
    }
}

/// The storage key of a protected folder (see `spec_pair_key`).
pub fn pair_key(source: &str, roots: &PathRoots) -> (r: String)
    ensures
        r@ == spec_pair_key(source@, roots.sview()),
        is_ascii_chars(leaf_or_pair(source@)) && is_ascii_chars(spec_contract(source@, roots.sview())) ==> r@
            == safe_filename_by(leaf_or_pair(source@), |t: Seq<char>| lower_ascii_seq(t)) + seq!['_']
            + fnv1a_hex_by(spec_contract(source@, roots.sview()), |t: Seq<char>| lower_ascii_seq(t)),
{
    let cs = chars_of(source);
    let leaf = match file_name(cs.as_slice()) {
        Some(n) => string_of(&n),
        None => {
            let mut p: Vec<char> = Vec::new();
            p.push('p');
            p.push('a');
            p.push('i');
            p.push('r');
            assert(p@ =~= seq!['p', 'a', 'i', 'r']);
            string_of(&p)
        },
    };
    let mut key = safe_filename(leaf.as_str());
    let contracted = contract(source, roots);
    let hash = fnv1a_hex(contracted.as_str());
    let mut us: Vec<char> = Vec::new();
    us.push('_');
    let us_s = string_of(&us);
    key.append(us_s.as_str());
    key.append(hash.as_str());
    proof {
        assert(us@ =~= seq!['_']);
    }
    key
}

/// Joins `name` onto a base path (`Path::join` on Windows, see `spec_join`).
pub fn join(base: &str, name: &str) -> (r: String)
    ensures
        r@ == spec_join(base@, name@),
{
    let b = chars_of(base);
    let n = chars_of(name);
    string_of(&join_name(b.as_slice(), n.as_slice()))
}

/// The hidden state directory of a home: `<home>\.lrgex`.
pub fn data_dir(home: &str) -> (r: String)
    ensures
        r@ == spec_join(home@, ".lrgex"@),
{
    proof {
        reveal_strlit(".lrgex");
    }
    join(home, ".lrgex")
}

/// Marker written when a full sync cycle completes.
pub fn last_sync_marker_path(home: &str) -> (r: String)
    ensures
        r@ == spec_join(spec_join(home@, ".lrgex"@), "last-sync-complete"@),
{
    proof {
        reveal_strlit("last-sync-complete");
    }
    join(data_dir(home).as_str(), "last-sync-complete")
}

/// The configuration file.
pub fn config_path(home: &str) -> (r: String)
    ensures
        r@ == spec_join(spec_join(home@, ".lrgex"@), "junction-config.json"@),
{
    proof {
        reveal_strlit("junction-config.json");
    }
    join(data_dir(home).as_str(), "junction-config.json")
}

/// Where version snapshots live: `<home>\_versions`.
pub fn trash_base(home: &str) -> (r: String)
    ensures
        r@ == spec_join(home@, "_versions"@),
{
    proof {
        reveal_strlit("_versions");
    }
    join(home, "_versions")
}

/// `<home>\<leaf of source>` (an empty leaf when the source has none).
pub fn pair_cloud_path(home: &str, source: &str) -> (r: String)
    ensures
        r@ == spec_join(
            home@,
            match spec_file_name(source@) {
                Some(n) => n,
                None => Seq::<char>::empty(),
            },
        ),
{
    let cs = chars_of(source);
    let leaf: Vec<char> = match file_name(cs.as_slice()) {
        Some(n) => n,
        None => Vec::new(),
    };
    let h = chars_of(home);
    string_of(&join_name(h.as_slice(), leaf.as_slice()))
}

/// The backup folder of a source: `<home>\backup\<key>`.
pub open spec fn spec_backup_dir(home: Seq<char>, source: Seq<char>, es: Seq<SRoot>) -> Seq<char> {
    spec_join(spec_join(home, seq!['b', 'a', 'c', 'k', 'u', 'p']), spec_pair_key(source, es))
}

pub fn backup_dir_for(home: &str, source: &str, roots: &PathRoots) -> (r: String)
    ensures
        r@ == spec_backup_dir(home@, source@, roots.sview()),
{
    let key = pair_key(source, roots);
    proof {
        reveal_strlit("backup");
        lemma_pair_key_legal(source@, roots.sview());
        assert("backup"@ =~= seq!['b', 'a', 'c', 'k', 'u', 'p']);
    }
    let b = join(home, "backup");
    join(b.as_str(), key.as_str())
}

/// The snapshot folder of a source: `<home>\_versions\<key>`.
pub fn trash_path_for(home: &str, source: &str, roots: &PathRoots) -> (r: String)
    ensures
        r@ == spec_join(spec_join(home@, "_versions"@), spec_pair_key(source@, roots.sview())),
{
    let key = pair_key(source, roots);
    proof {
        lemma_pair_key_legal(source@, roots.sview());
    }
    join(trash_base(home).as_str(), key.as_str())
}

fn key_with_suffix(key: &String, suffix: &str) -> (r: String)
    ensures
        r@ == key@ + suffix@,
{
    let mut k = key.clone();
    k.append(suffix);
    k
}

/// The archive of a source: `<home>\backup\<key>\<key>.tar.zst`.
pub fn backup_file_for(home: &str, source: &str, roots: &PathRoots) -> (r: String)
    ensures
        r@ == spec_join(
            spec_backup_dir(home@, source@, roots.sview()),
            spec_pair_key(source@, roots.sview()) + ".tar.zst"@,
        ),
{
    let key = pair_key(source, roots);
    let dir = backup_dir_for(home, source, roots);
    let name = key_with_suffix(&key, ".tar.zst");
    proof {
        reveal_strlit(".tar.zst");
        lemma_pair_key_legal(source@, roots.sview());
    }
    join(dir.as_str(), name.as_str())
}

/// The manifest of a source lies in the same folder as its archive and is never
/// the archive itself: its name is the archive's name with `.size` added.
pub proof fn lemma_sidecar_beside_archive(home: Seq<char>, source: Seq<char>, es: Seq<SRoot>)
    ensures
        ({
            let d = spec_backup_dir(home, source, es);
            let k = spec_pair_key(source, es);
            &&& spec_join(d, k + ".tar.zst.size"@) == spec_join(d, k + ".tar.zst"@) + ".size"@
            &&& spec_join(d, k + ".tar.zst.size"@) != spec_join(d, k + ".tar.zst"@)
        }),
{
    let d = spec_backup_dir(home, source, es);
    let k = spec_pair_key(source, es);
    lemma_pair_key_legal(source, es);
    reveal_strlit(".tar.zst");
    reveal_strlit(".tar.zst.size");
    reveal_strlit(".size");
    let a = k + ".tar.zst"@;
    let b = k + ".tar.zst.size"@;
    assert(b =~= a + ".size"@);
    assert(!is_illegal_char(k[0]));
    assert(a[0] == k[0] && b[0] == k[0]);
    if k.len() >= 2 {
        assert(!is_illegal_char(k[1]));
        assert(a[1] == k[1] && b[1] == k[1]);
    } else {
        assert(a[1] == '.' && b[1] == '.');
    }
    assert(spec_prefix(a).0 == PrefixKind::NoPrefix);
    assert(spec_prefix(b).0 == PrefixKind::NoPrefix);
    assert(!is_sep(a[0], false));
    let ja = spec_join(d, a);
    let jb = spec_join(d, b);
    assert(jb =~= ja + ".size"@);
    assert(jb.len() == ja.len() + 5);
}

/// The change-detection manifest next to the archive: `<key>.tar.zst.size`.
pub fn sidecar_for(home: &str, source: &str, roots: &PathRoots) -> (r: String)
    ensures
        r@ == spec_join(
            spec_backup_dir(home@, source@, roots.sview()),
            spec_pair_key(source@, roots.sview()) + ".tar.zst.size"@,
        ),
{
    let key = pair_key(source, roots);
    let dir = backup_dir_for(home, source, roots);
    let name = key_with_suffix(&key, ".tar.zst.size");
    proof {
        reveal_strlit(".tar.zst.size");
        lemma_pair_key_legal(source@, roots.sview());
    }
    join(dir.as_str(), name.as_str())
}

// ==================== LAWS ====================

proof fn lemma_trim_dots_spaces(s: Seq<char>)
    ensures
        trim_dots_spaces(s).len() <= s.len(),
        trim_dots_spaces(s) == s.take(trim_dots_spaces(s).len() as int),
        trim_dots_spaces(s).len() > 0 ==> trim_dots_spaces(s).last() != '.' && trim_dots_spaces(
            s,
        ).last() != ' ',
    decreases s.len(),
{
    if s.len() > 0 && (s.last() == '.' || s.last() == ' ') {
        lemma_trim_dots_spaces(s.drop_last());
        let t = trim_dots_spaces(s.drop_last());
        assert(s.drop_last().take(t.len() as int) =~= s.take(t.len() as int));
    } else {
        assert(s.take(s.len() as int) =~= s);
    }
}

/// Whatever the input, `safe_filename` yields a legal Windows path component:
/// non-empty, free of `<>:"/\|?*` and control characters, not ending in `.` or space.
pub proof fn lemma_safe_filename_legal(name: Seq<char>)
    ensures
        is_legal_component(spec_safe_filename(name)),
{
    let mapped = name.map_values(|c: char| sanitize_char(c));
    let s = trim_dots_spaces(mapped);
    lemma_trim_dots_spaces(mapped);
    assert forall|i: int| 0 <= i < s.len() implies !is_illegal_char(#[trigger] s[i]) by {
        assert(s[i] == mapped.take(s.len() as int)[i]);
        assert(mapped[i] == sanitize_char(name[i]));
    }
    let suffix = seq!['_', 'l', 'r', 'g', 'e', 'x'];
    let r = spec_safe_filename(name);
    let lower = lowercase(s);
    if is_reserved_stem(lower.take(first_dot(lower) as int)) {
        let s2 = s + suffix;
        assert forall|i: int| 0 <= i < s2.len() implies !is_illegal_char(#[trigger] s2[i]) by {
            if i < s.len() {
                assert(s2[i] == s[i]);
            } else {
                assert(s2[i] == suffix[i - s.len()]);
            }
        }
        assert(s2.last() == 'x');
    } else if s.len() == 0 {
        let p = seq!['p', 'a', 'i', 'r'];
        assert forall|i: int| 0 <= i < p.len() implies !is_illegal_char(#[trigger] p[i]) by {}
    }
}

proof fn lemma_hex_digits_legal(x: nat, n: nat)
    ensures
        hex_digits(x, n).len() == n,
        forall|i: int| 0 <= i < n ==> !is_illegal_char(#[trigger] hex_digits(x, n)[i])
            && hex_digits(x, n)[i] != '.' && hex_digits(x, n)[i] != ' ' && hex_digits(x, n)[i] != '_',
    decreases n,
{
    if n > 0 {
        lemma_hex_digits_legal(x / 16, (n - 1) as nat);
        let d = x % 16;
        let c = hex_char(d);
        assert(c as u32 >= 0x30);
        assert forall|i: int| 0 <= i < n implies !is_illegal_char(#[trigger] hex_digits(x, n)[i])
            && hex_digits(x, n)[i] != '.' && hex_digits(x, n)[i] != ' ' && hex_digits(x, n)[i] != '_' by {
            if i < n - 1 {
                assert(hex_digits(x, n)[i] == hex_digits(x / 16, (n - 1) as nat)[i]);
            } else {
                assert(hex_digits(x, n)[i] == c);
            }
        }
    }
}

/// Every pair key is a legal Windows path component (it may stand as a folder or
/// file name in the backup store).
pub proof fn lemma_pair_key_legal(source: Seq<char>, es: Seq<SRoot>)
    ensures
        is_legal_component(spec_pair_key(source, es)),
        no_seps(spec_pair_key(source, es)),
        spec_prefix(spec_pair_key(source, es)).0 == PrefixKind::NoPrefix,
{
    let a = spec_safe_filename(leaf_or_pair(source));
    lemma_safe_filename_legal(leaf_or_pair(source));
    let h = spec_fnv1a_hex(spec_contract(source, es));
    let x = ((fnv_fold(fnv_offset(), encode_utf8(lowercase(spec_contract(source, es))))
        & 0xFFFF_FFFFu64) as u32) as nat;
    lemma_hex_digits_legal(x, 8);
    let k = a + seq!['_'] + h;
    assert forall|i: int| 0 <= i < k.len() implies !is_illegal_char(#[trigger] k[i]) by {
        if i < a.len() {
            assert(k[i] == a[i]);
        } else if i == a.len() {
            assert(k[i] == '_');
        } else {
            assert(k[i] == h[i - a.len() - 1]);
        }
    }
    assert(k.last() == h[7]);
    assert forall|i: int| 0 <= i < k.len() implies !is_sep(#[trigger] k[i], false) by {
        assert(!is_illegal_char(k[i]));
    }
    assert(!is_illegal_char(k[1]));
}


// ==================== SAME FOLDER ====================

/// `s` without its trailing `\\` and `/` characters.
pub open spec fn trim_trailing_seps(s: Seq<char>) -> Seq<char>
    decreases s.len(),
{
    if s.len() > 0 && (s.last() == '\\' || s.last() == '/') {
        trim_trailing_seps(s.drop_last())
    } else {
        s
    }
}

/// The expanded form of a path, as characters.
pub open spec fn expanded(p: Seq<char>, es: Seq<SRoot>) -> Seq<char> {
    decode_utf8(spec_expand(encode_utf8(p), es))
}

/// What two folder paths are compared by: expanded, trailing separators trimmed,
/// lowercase.
pub open spec fn same_path_form(p: Seq<char>, es: Seq<SRoot>) -> Seq<char> {
    lowercase(trim_trailing_seps(expanded(p, es)))
}

fn same_path_form_exec(p: &str, roots: &PathRoots) -> (r: Vec<char>)
    requires
        roots.wf(),
    ensures
        r@ == same_path_form(p@, roots.sview()),
{
    let e = expand(p, roots);
    assert(decode_utf8(encode_utf8(e@)) == e@);
    let mut v = chars_of(e.as_str());
    while v.len() > 0 && (v[v.len() - 1] == '\\' || v[v.len() - 1] == '/')
        invariant
            trim_trailing_seps(v@) == trim_trailing_seps(e@),
        decreases v@.len(),
    {
        v.pop();
    }
    let t = string_of(&v);
    let low = to_lowercase(t.as_str());
    chars_of(low.as_str())
}

/// Whether two source paths name the same folder: a contracted path from the
/// configuration and the expanded path of a picker compare equal.
pub fn same_path(a: &str, b: &str, roots: &PathRoots) -> (r: bool)
    requires
        roots.wf(),
    ensures
        r == (same_path_form(a@, roots.sview()) == same_path_form(b@, roots.sview())),
{
    let na = same_path_form_exec(a, roots);
    let nb = same_path_form_exec(b, roots);
    eq_chars(&na, &nb)
}

/// A folder is the same folder as itself, and `same_path` does not depend on the
/// order of its arguments.
pub proof fn lemma_same_path_equivalence(a: Seq<char>, b: Seq<char>, c: Seq<char>, es: Seq<SRoot>)
    ensures
        same_path_form(a, es) == same_path_form(a, es),
        (same_path_form(a, es) == same_path_form(b, es)) == (same_path_form(b, es)
            == same_path_form(a, es)),
        same_path_form(a, es) == same_path_form(b, es) && same_path_form(b, es) == same_path_form(
            c,
            es,
        ) ==> same_path_form(a, es) == same_path_form(c, es),
{
}

// ==================== DRIVE LETTERS ====================

/// `X:` at the start of a path whose first character is an ASCII letter.
pub open spec fn spec_drive_letter(p: Seq<char>) -> Option<Seq<char>> {
    if p.len() >= 2 && is_alpha(p[0]) && p[1] == ':' {
        Some(p.take(2))
    } else {
        None
    }
}

/// The drive (`E:`) of a drive-letter path, `None` for any other path.
pub fn drive_letter(path: &str) -> (r: Option<String>)
    ensures
        match r {
            Some(l) => spec_drive_letter(path@) == Some(l@),
            None => spec_drive_letter(path@) is None,
        },
{
    let cs = chars_of(path);
    if cs.len() >= 2 && (('a' <= cs[0] && cs[0] <= 'z') || ('A' <= cs[0] && cs[0] <= 'Z'))
        && cs[1] == ':' {
        let v = crate::winpath::sub_chars(cs.as_slice(), 0, 2);
        assert(v@ =~= path@.take(2));
        Some(string_of(&v))
    } else {
        None
    }
}

/// The drive of a path, or the empty string.
pub open spec fn spec_letter_of(p: Seq<char>) -> Seq<char> {
    match spec_drive_letter(p) {
        Some(l) => l,
        None => Seq::<char>::empty(),
    }
}

/// The drive (`E:`) of a path, empty when it has none.
pub fn letter_of(path: &str) -> (r: String)
    ensures
        r@ == spec_letter_of(path@),
{
    match drive_letter(path) {
        Some(l) => l,
        None => {
            let v: Vec<char> = Vec::new();
            assert(v@ =~= Seq::<char>::empty());
            string_of(&v)
        },
    }
}

/// The drive named by index `i` (0 is `A:`, 25 is `Z:`).
pub open spec fn drive_name(i: int) -> Seq<char> {
    seq![(65 + i) as char, ':']
}

/// The drive `A:`..`Z:` for index `i` below 26.
pub fn drive_name_of(i: u8) -> (r: String)
    requires
        i < 26,
    ensures
        r@ == drive_name(i as int),
{
    let mut v: Vec<char> = Vec::new();
    v.push(((65u8 + i) as u8) as char);
    v.push(':');
    assert(v@ =~= drive_name(i as int));
    string_of(&v)
}

/// `o` is a volume identity equal to `guid`.
pub open spec fn names_volume(o: Option<String>, guid: Seq<char>) -> bool {
    match o {
        Some(g) => g@ == guid,
        None => false,
    }
}

/// A call of `lookup` on drive `i` returned an answer that does (`hit`) or does
/// not match `guid`.
pub open spec fn lookup_answered<F: Fn(&str) -> Option<String>>(
    lookup: F,
    i: int,
    guid: Seq<char>,
    hit: bool,
) -> bool {
    exists|s: &str, o: Option<String>|
        s@ == drive_name(i) && #[trigger] call_ensures(lookup, (s,), o) && names_volume(o, guid)
            == hit
}

fn names_volume_exec(o: &Option<String>, g: &Vec<char>) -> (r: bool)
    ensures
        r == names_volume(*o, g@),
{
    match o {
        Some(x) => {
            let xc = chars_of(x.as_str());
            eq_chars(&xc, g)
        },
        None => false,
    }
}

/// Which drive letter hosts the volume `guid` now: asks `lookup` for `A:` to `Z:`
/// in turn and returns the first drive whose answer is `guid`.
pub fn find_guid_letter(guid: &str, lookup: impl Fn(&str) -> Option<String>) -> (r: Option<String>)
    requires
        forall|s: &str| call_requires(lookup, (s,)),
    ensures
        match r {
            Some(l) => exists|i: int|
                0 <= i < 26 && l@ == drive_name(i) && lookup_answered(lookup, i, guid@, true)
                    && forall|j: int| 0 <= j < i ==> lookup_answered(lookup, j, guid@, false),
            None => forall|j: int| 0 <= j < 26 ==> lookup_answered(lookup, j, guid@, false),
        },
{
    let g = chars_of(guid);
    let mut k: u8 = 0;
    while k < 26
        invariant
            k <= 26,
            g@ == guid@,
            forall|s: &str| call_requires(lookup, (s,)),
            forall|j: int| 0 <= j < k ==> lookup_answered(lookup, j, guid@, false),
        decreases 26 - k,
    {
        let letter = drive_name_of(k);
        let ls = letter.as_str();
        let o = lookup(ls);
        let hit = names_volume_exec(&o, &g);
        assert(call_ensures(lookup, (ls,), o));
        if hit {
            assert(lookup_answered(lookup, k as int, guid@, true));
            return Some(letter);
        }
        assert(lookup_answered(lookup, k as int, guid@, false));
        k = k + 1;
    }
    None
}


// ==================== DRIVE HEALING ====================

/// What the disk reported for a drive-letter source, gathered before healing.
pub struct DriveProbe {
    /// Volume identity now mounted at the source's own drive letter.
    pub current: Option<String>,
    /// Whether the source path exists.
    pub source_exists: bool,
    /// Volume identity mounted at each drive `A:`..`Z:` (`None`: no volume).
    pub volumes: Vec<Option<String>>,
    /// For each drive `A:`..`Z:`, whether `drive_candidate` on it is an existing folder.
    pub candidate_dirs: Vec<bool>,
}

impl DriveProbe {
    pub open spec fn wf(&self) -> bool {
        self.volumes@.len() == 26 && self.candidate_dirs@.len() == 26
    }
}

/// Slicing a drive path after `X:\\` needs its third character to be one byte long.
pub open spec fn heal_input_ok(source: Seq<char>) -> bool {
    spec_drive_letter(source) is Some && source.len() >= 3 ==> (source[2] as u32) < 0x80
}

/// `<drive i>\\<source after its first three characters>`.
pub open spec fn spec_drive_candidate(i: int, source: Seq<char>) -> Seq<char> {
    drive_name(i) + seq!['\\'] + source.skip(3)
}

/// The same relative path as `source` (after `X:\\`) on drive `i`.
pub fn drive_candidate(i: u8, source: &str) -> (r: String)
    requires
        i < 26,
        source@.len() >= 3,
    ensures
        r@ == spec_drive_candidate(i as int, source@),
{
    let cs = chars_of(source);
    let d = drive_name_of(i);
    let mut v = chars_of(d.as_str());
    v.push('\\');
    let ghost v0 = v@;
    let mut k: usize = 3;
    while k < cs.len()
        invariant
            3 <= k <= cs@.len(),
            cs@ == source@,
            v@ == v0 + source@.subrange(3, k as int),
        decreases cs@.len() - k,
    {
        v.push(cs[k]);
        assert(source@.subrange(3, k as int + 1) =~= source@.subrange(3, k as int).push(cs@[k as int]));
        k = k + 1;
    }
    assert(source@.subrange(3, cs@.len() as int) =~= source@.skip(3));
    string_of(&v)
}

/// The index of the first drive whose volume identity is `g`, from `i` on.
pub open spec fn first_volume(vols: Seq<Option<String>>, g: Seq<char>, i: int) -> Option<int>
    decreases 26 - i,
{
    if i < 0 || i >= 26 || i >= vols.len() {
        None
    } else if names_volume(vols[i], g) {
        Some(i)
    } else {
        first_volume(vols, g, i + 1)
    }
}

/// Drive `i` is another drive than the source's, has a volume, and holds the
/// source's relative path as a folder.
pub open spec fn legacy_hit(source: Seq<char>, vols: Seq<Option<String>>, dirs: Seq<bool>, i: int) -> bool {
    &&& (65 + i) as char != crate::gamescan::upper_ascii(source[0])
    &&& vols[i] is Some
    &&& dirs[i]
}

/// The drives below `n` that are legacy hits, in order.
pub open spec fn legacy_hits(source: Seq<char>, vols: Seq<Option<String>>, dirs: Seq<bool>, n: int) -> Seq<int>
    decreases n,
{
    if n <= 0 {
        seq![]
    } else if legacy_hit(source, vols, dirs, n - 1) {
        legacy_hits(source, vols, dirs, n - 1).push(n - 1)
    } else {
        legacy_hits(source, vols, dirs, n - 1)
    }
}

pub open spec fn opt_view(o: Option<&str>) -> Option<Seq<char>> {
    match o {
        Some(s) => Some(s@),
        None => None,
    }
}

/// Where a drive-letter source has moved after drive letters were reassigned.
/// Only a drive path with something after `X:\\` is considered. It is healthy (no
/// move) when its drive still holds the stored volume, or, with no stored volume,
/// when the path still exists. Otherwise, with a stored volume: the first drive
/// now holding that volume, same relative path; without one: the one other drive
/// that has a volume and the same relative path as a folder, if exactly one does.
pub open spec fn spec_heal_drive(
    source: Seq<char>,
    stored: Option<Seq<char>>,
    current: Option<String>,
    exists: bool,
    vols: Seq<Option<String>>,
    dirs: Seq<bool>,
) -> Option<Seq<char>> {
    if spec_drive_letter(source) is None || source.len() < 4 {
        None
    } else {
        let healthy = match stored {
            Some(g) => names_volume(current, g),
            None => exists,
        };
        if healthy {
            None
        } else {
            match stored {
                Some(g) => match first_volume(vols, g, 0) {
                    Some(i) => Some(spec_drive_candidate(i, source)),
                    None => None,
                },
                None => {
                    let hits = legacy_hits(source, vols, dirs, 26);
                    if hits.len() == 1 {
                        Some(spec_drive_candidate(hits[0], source))
                    } else {
                        None
                    }
                },
            }
        }
    }
}

/// The volume identity reported for a drive name `A:`..`Z:`.
pub open spec fn volume_for(vols: Seq<Option<String>>, l: Seq<char>) -> Option<String> {
    if l.len() == 2 && 'A' <= l[0] <= 'Z' && l[1] == ':' {
        vols[l[0] as int - 65]
    } else {
        None
    }
}

fn volume_at(vols: &Vec<Option<String>>, l: &str) -> (r: Option<String>)
    requires
        vols@.len() == 26,
    ensures
        r == volume_for(vols@, l@),
{
    let cs = chars_of(l);
    if cs.len() == 2 && 'A' <= cs[0] && cs[0] <= 'Z' && cs[1] == ':' {
        let i = (cs[0] as u32 - 65) as usize;
        match &vols[i] {
            Some(x) => Some(x.clone()),
            None => None,
        }
    } else {
        None
    }
}

proof fn lemma_first_volume(vols: Seq<Option<String>>, g: Seq<char>, i: int)
    requires
        vols.len() == 26,
        0 <= i <= 26,
    ensures
        match first_volume(vols, g, i) {
            Some(k) => i <= k < 26 && names_volume(vols[k], g) && forall|j: int| i <= j < k ==> !names_volume(vols[j], g),
            None => forall|j: int| i <= j < 26 ==> !names_volume(vols[j], g),
        },
    decreases 26 - i,
{
    if i < 26 && !names_volume(vols[i], g) {
        lemma_first_volume(vols, g, i + 1);
    }
}

proof fn lemma_drive_name_index(i: int)
    requires
        0 <= i < 26,
    ensures
        drive_name(i).len() == 2,
        'A' <= drive_name(i)[0] <= 'Z',
        drive_name(i)[1] == ':',
        drive_name(i)[0] as int - 65 == i,
{
}

/// Heals a drive-letter source (see `spec_heal_drive`), `None` when it stays.
pub fn heal_drive_letter(source: &str, stored_guid: Option<&str>, probe: &DriveProbe) -> (r: Option<String>)
    requires
        probe.wf(),
        heal_input_ok(source@),
    ensures
        match r {
            Some(h) => spec_heal_drive(source@, opt_view(stored_guid), probe.current, probe.source_exists,
                probe.volumes@, probe.candidate_dirs@) == Some(h@),
            None => spec_heal_drive(source@, opt_view(stored_guid), probe.current, probe.source_exists,
                probe.volumes@, probe.candidate_dirs@) is None,
        },
{
    let letter = match drive_letter(source) {
        Some(l) => l,
        None => return None,
    };
    let cs = chars_of(source);
    if cs.len() < 4 {
        return None;
    }
    let healthy = match stored_guid {
        Some(g) => {
            let gc = chars_of(g);
            names_volume_exec(&probe.current, &gc)
        },
        None => probe.source_exists,
    };
    if healthy {
        return None;
    }
    match stored_guid {
        Some(g) => {
            let vols = &probe.volumes;
            let lookup = |l: &str| -> (o: Option<String>)
                ensures
                    o == volume_for(vols@, l@),
                { volume_at(vols, l) };
            let found = find_guid_letter(g, lookup);
            proof {
                lemma_first_volume(vols@, g@, 0);
            }
            match found {
                Some(l) => {
                    proof {
                        let i = choose|i: int|
                            0 <= i < 26 && l@ == drive_name(i) && lookup_answered(lookup, i, g@, true)
                                && forall|j: int| 0 <= j < i ==> lookup_answered(lookup, j, g@, false);
                        assert forall|j: int| 0 <= j <= i implies names_volume(vols@[j], g@) == (j == i) by {
                            lemma_drive_name_index(j);
                            assert(lookup_answered(lookup, j, g@, j == i));
                            let (s, o) = choose|s: &str, o: Option<String>|
                                s@ == drive_name(j) && #[trigger] call_ensures(lookup, (s,), o)
                                    && names_volume(o, g@) == (j == i);
                            assert(o == volume_for(vols@, s@));
                        }
                        assert(first_volume(vols@, g@, 0) == Some(i));
                        lemma_drive_name_index(i);
                    }
                    let k = {
                        let lc = chars_of(l.as_str());
                        (lc[0] as u32 - 65) as u8
                    };
                    Some(drive_candidate(k, source))
                },
                None => {
                    proof {
                        assert forall|j: int| 0 <= j < 26 implies !names_volume(vols@[j], g@) by {
                            lemma_drive_name_index(j);
                            assert(lookup_answered(lookup, j, g@, false));
                            let (s, o) = choose|s: &str, o: Option<String>|
                                s@ == drive_name(j) && #[trigger] call_ensures(lookup, (s,), o)
                                    && names_volume(o, g@) == false;
                            assert(o == volume_for(vols@, s@));
                        }
                        assert(first_volume(vols@, g@, 0) is None);
                    }
                    None
                },
            }
        },
        None => {
            let up = crate::gamescan::upper_ascii_char(cs[0]);
            let mut hits: Vec<u8> = Vec::new();
            let mut i: u8 = 0;
            while i < 26
                invariant
                    i <= 26,
                    probe.wf(),
                    cs@ == source@,
                    cs@.len() >= 4,
                    up == crate::gamescan::upper_ascii(source@[0]),
                    forall|j: int| 0 <= j < hits@.len() ==> hits@[j] < i,
                    hits@.map_values(|x: u8| x as int) == legacy_hits(source@, probe.volumes@,
                        probe.candidate_dirs@, i as int),
                decreases 26 - i,
            {
                let ghost before = hits@;
                let same_letter = ((65u8 + i) as char) == up;
                let hit = !same_letter && probe.volumes[i as usize].is_some()
                    && probe.candidate_dirs[i as usize];
                if hit {
                    hits.push(i);
                }
                assert(hits@.map_values(|x: u8| x as int) =~= legacy_hits(source@, probe.volumes@,
                    probe.candidate_dirs@, i as int + 1));
                i = i + 1;
            }
            if hits.len() == 1 {
                assert(hits@.map_values(|x: u8| x as int)[0] == hits@[0] as int);
                Some(drive_candidate(hits[0], source))
            } else {
                assert(hits@.map_values(|x: u8| x as int).len() == hits@.len());
                None
            }
        },
    }
}


// ==================== VOLUME NAMES ====================

/// The drive root a volume query needs: the letter root with one trailing `\\`.
pub open spec fn spec_volume_root(letter_root: Seq<char>) -> Seq<char> {
    trim_trailing_backslashes(letter_root).push('\\')
}

/// `letter_root` with its trailing backslashes replaced by exactly one.
pub fn volume_root(letter_root: &str) -> (r: String)
    ensures
        r@ == spec_volume_root(letter_root@),
{
    let mut v = chars_of(letter_root);
    while v.len() > 0 && v[v.len() - 1] == '\\'
        invariant
            trim_trailing_backslashes(v@) == trim_trailing_backslashes(letter_root@),
        decreases v@.len(),
    {
        v.pop();
    }
    v.push('\\');
    string_of(&v)
}

/// The `{...}` identity inside a volume name: from the first `{` to the first `}`,
/// when that `}` comes after the `{`.
pub open spec fn spec_guid_in(name: Seq<char>) -> Option<Seq<char>> {
    match (crate::gamescan::index_of(name, '{'), crate::gamescan::index_of(name, '}')) {
        (Some(a), Some(b)) => if b > a { Some(name.subrange(a, b + 1)) } else { None },
        _ => None,
    }
}

/// Extracts the volume identity from a volume name such as `\\\\?\\Volume{...}\\`.
pub fn guid_in_volume_name(name: &str) -> (r: Option<String>)
    ensures
        match r {
            Some(g) => spec_guid_in(name@) == Some(g@),
            None => spec_guid_in(name@) is None,
        },
{
    let cs = chars_of(name);
    proof {
        crate::gamescan::lemma_index_of(name@, '{');
        crate::gamescan::lemma_index_of(name@, '}');
    }
    let mut a: usize = 0;
    while a < cs.len() && cs[a] != '{'
        invariant
            a <= cs@.len(),
            cs@ == name@,
            forall|j: int| 0 <= j < a ==> cs@[j] != '{',
        decreases cs@.len() - a,
    {
        a = a + 1;
    }
    let mut b: usize = 0;
    while b < cs.len() && cs[b] != '}'
        invariant
            b <= cs@.len(),
            cs@ == name@,
            forall|j: int| 0 <= j < b ==> cs@[j] != '}',
        decreases cs@.len() - b,
    {
        b = b + 1;
    }
    if a < cs.len() && b < cs.len() && b > a {
        let g = crate::winpath::sub_chars(cs.as_slice(), a, b + 1);
        Some(string_of(&g))
    } else {
        None
    }
}

/// A call of `query` on the drive root `root` answered a volume name whose
/// identity is `r` (`None` when there was no answer or it names no identity).
pub open spec fn volume_answered<F: Fn(&str) -> Option<String>>(query: F, root: Seq<char>, r: Option<Seq<char>>) -> bool {
    exists|s: &str, o: Option<String>|
        s@ == root && #[trigger] call_ensures(query, (s,), o) && match o {
            Some(n) => spec_guid_in(n@) == r,
            None => r is None,
        }
}

/// The volume identity (`{...}`) of a drive such as `E:`: the volume name that
/// `volume_name_of` reports for the drive's root (see `spec_volume_root`), read
/// by `guid_in_volume_name`.
pub fn volume_guid(letter_root: &str, volume_name_of: impl Fn(&str) -> Option<String>) -> (r: Option<String>)
    requires
        forall|s: &str| call_requires(volume_name_of, (s,)),
    ensures
        volume_answered(volume_name_of, spec_volume_root(letter_root@), match r {
            Some(g) => Some(g@),
            None => None,
        }),
{
    let root = volume_root(letter_root);
    let rs = root.as_str();
    let o = volume_name_of(rs);
    assert(call_ensures(volume_name_of, (rs,), o));
    match &o {
        Some(n) => guid_in_volume_name(n.as_str()),
        None => None,
    }
}

// ==================== LEGACY STORE ====================

/// How many configured folders have the last component `leaf`.
pub open spec fn count_leaf(js: Seq<Junction>, leaf: Seq<char>) -> nat
    decreases js.len(),
{
    if js.len() == 0 {
        0
    } else {
        count_leaf(js.drop_last(), leaf) + if spec_file_name(js.last().source_path@) == Some(leaf) {
            1nat
        } else {
            0nat
        }
    }
}

/// Whether at most one configured folder has the last component `leaf`, so a
/// folder stored under that bare name can only be that folder's.
pub fn leaf_is_unique(cfg: &Config, leaf: &str) -> (r: bool)
    ensures
        r == (count_leaf(cfg.junctions@, leaf@) <= 1),
{
    let lc = chars_of(leaf);
    let mut n: usize = 0;
    let mut i: usize = 0;
    while i < cfg.junctions.len()
        invariant
            i <= cfg.junctions@.len(),
            lc@ == leaf@,
            n == count_leaf(cfg.junctions@.take(i as int), leaf@),
            n <= i,
        decreases cfg.junctions@.len() - i,
    {
        let sc = chars_of(cfg.junctions[i].source_path.as_str());
        let same = match file_name(sc.as_slice()) {
            Some(f) => eq_chars(&f, &lc),
            None => false,
        };
        assert(cfg.junctions@.take(i as int + 1).drop_last() =~= cfg.junctions@.take(i as int));
        if same {
            n = n + 1;
        }
        i = i + 1;
    }
    assert(cfg.junctions@.take(cfg.junctions@.len() as int) =~= cfg.junctions@);
    n <= 1
}

/// `a` and `b` are equal when ASCII letters are compared without case.
pub open spec fn eq_ignore_ascii_case(a: Seq<char>, b: Seq<char>) -> bool {
    a.len() == b.len() && forall|k: int| 0 <= k < a.len() ==> #[trigger] lower_ascii(a[k]) == lower_ascii(b[k])
}

pub open spec fn lower_ascii(c: char) -> char {
    if 'A' <= c <= 'Z' {
        ((c as u32) + 32) as char
    } else {
        c
    }
}

/// Names the application owns inside its home.
pub open spec fn is_reserved_leaf(leaf: Seq<char>) -> bool {
    eq_ignore_ascii_case(leaf, "backup"@) || eq_ignore_ascii_case(leaf, "_versions"@)
        || eq_ignore_ascii_case(leaf, ".lrgex"@)
}

pub fn lower_ascii_exec(c: char) -> (r: char)
    ensures
        r == lower_ascii(c),
{
    if 'A' <= c && c <= 'Z' {
        ((c as u32 + 32) as u8) as char
    } else {
        c
    }
}

fn eq_ignore_ascii_case_exec(a: &Vec<char>, b: &str) -> (r: bool)
    ensures
        r == eq_ignore_ascii_case(a@, b@),
{
    let bc = chars_of(b);
    if a.len() != bc.len() {
        return false;
    }
    let mut k: usize = 0;
    while k < a.len()
        invariant
            k <= a@.len(),
            a@.len() == bc@.len(),
            bc@ == b@,
            forall|j: int| 0 <= j < k ==> #[trigger] lower_ascii(a@[j]) == lower_ascii(bc@[j]),
        decreases a@.len() - k,
    {
        if lower_ascii_exec(a[k]) != lower_ascii_exec(bc[k]) {
            return false;
        }
        k = k + 1;
    }
    true
}

/// A call of `probe` on a path whose text is `path` answered `v`.
pub open spec fn probe_answered<F: Fn(&str) -> bool>(probe: F, path: Seq<char>, v: bool) -> bool {
    exists|s: &str, o: bool| s@ == path && #[trigger] call_ensures(probe, (s,), o) && o == v
}

/// The folder of the old flat store for `source`: `<home>\\<leaf>`, unless the
/// leaf is one of the application's own names (`backup`, `_versions`, `.lrgex`,
/// any case) or the folder holds the application's own store.
pub open spec fn legacy_folder_of(home: Seq<char>, source: Seq<char>) -> Option<Seq<char>> {
    match spec_file_name(source) {
        Some(leaf) => if is_reserved_leaf(leaf) { None } else { Some(spec_join(home, leaf)) },
        None => None,
    }
}

/// The old flat backup folder of `source`, when `is_dir` says it is a folder and
/// none of `backup`, `.lrgex`, `_versions` inside it is one.
pub fn legacy_raw_folder(home: &str, source: &str, is_dir: impl Fn(&str) -> bool) -> (r: Option<String>)
    requires
        forall|s: &str| call_requires(is_dir, (s,)),
    ensures
        legacy_folder_of(home@, source@) is None ==> r is None,
        match r {
            Some(p) => legacy_folder_of(home@, source@) == Some(p@) && probe_answered(is_dir, p@, true)
                && probe_answered(is_dir, spec_join(p@, "backup"@), false)
                && probe_answered(is_dir, spec_join(p@, ".lrgex"@), false)
                && probe_answered(is_dir, spec_join(p@, "_versions"@), false),
            None => legacy_folder_of(home@, source@) matches Some(p) ==> {
                ||| probe_answered(is_dir, spec_join(p, "backup"@), true)
                ||| probe_answered(is_dir, spec_join(p, ".lrgex"@), true)
                ||| probe_answered(is_dir, spec_join(p, "_versions"@), true)
                ||| probe_answered(is_dir, p, false)
            },
        },
{
    let sc = chars_of(source);
    let leaf = match file_name(sc.as_slice()) {
        Some(f) => f,
        None => return None,
    };
    if eq_ignore_ascii_case_exec(&leaf, "backup") || eq_ignore_ascii_case_exec(&leaf, "_versions")
        || eq_ignore_ascii_case_exec(&leaf, ".lrgex") {
        return None;
    }
    let leaf_s = string_of(&leaf);
    let p = join(home, leaf_s.as_str());
    let b = join(p.as_str(), "backup");
    let bs = b.as_str();
    let in_b = is_dir(bs);
    assert(call_ensures(is_dir, (bs,), in_b));
    assert(legacy_folder_of(home@, source@) == Some(p@));
    if in_b {
        assert(probe_answered(is_dir, spec_join(p@, "backup"@), true));
        return None;
    }
    let l = join(p.as_str(), ".lrgex");
    let ls = l.as_str();
    let in_l = is_dir(ls);
    assert(call_ensures(is_dir, (ls,), in_l));
    if in_l {
        assert(probe_answered(is_dir, spec_join(p@, ".lrgex"@), true));
        return None;
    }
    let v = join(p.as_str(), "_versions");
    let vs = v.as_str();
    let in_v = is_dir(vs);
    assert(call_ensures(is_dir, (vs,), in_v));
    if in_v {
        assert(probe_answered(is_dir, spec_join(p@, "_versions"@), true));
        return None;
    }
    let ps = p.as_str();
    let here = is_dir(ps);
    assert(call_ensures(is_dir, (ps,), here));
    if here {
        assert(probe_answered(is_dir, p@, true));
        assert(probe_answered(is_dir, spec_join(p@, "backup"@), false));
        assert(probe_answered(is_dir, spec_join(p@, ".lrgex"@), false));
        assert(probe_answered(is_dir, spec_join(p@, "_versions"@), false));
        Some(p)
    } else {
        assert(probe_answered(is_dir, p@, false));
        None
    }
}

/// The marker that makes a folder a home: `<home>\\.lrgex\\home`.
pub open spec fn spec_home_marker(home: Seq<char>) -> Seq<char> {
    spec_join(spec_join(home, ".lrgex"@), "home"@)
}

/// Whether `home` is a home: what `path_exists` answers for its marker (the state
/// directory is not created by asking).
pub fn is_home(home: &str, path_exists: impl Fn(&str) -> bool) -> (r: bool)
    requires
        forall|s: &str| call_requires(path_exists, (s,)),
    ensures
        probe_answered(path_exists, spec_home_marker(home@), r),
{
    let d = join(home, ".lrgex");
    let m = join(d.as_str(), "home");
    let ms = m.as_str();
    let r = path_exists(ms);
    assert(call_ensures(path_exists, (ms,), r));
    r
}

// ==================== RE-KEYING ====================

/// The renames that move a backup from one key to another.
pub struct PairMove {
    pub old_key: String,
    pub new_key: String,
    /// `<home>\\backup\\<old key>` becomes `<home>\\backup\\<new key>`.
    pub old_dir: String,
    pub new_dir: String,
    /// Inside the moved folder, the archive and its manifest take the new key's names.
    pub old_archive: String,
    pub new_archive: String,
    pub old_sidecar: String,
    pub new_sidecar: String,
    /// `<home>\\_versions\\<old key>` becomes `<home>\\_versions\\<new key>`.
    pub old_versions: String,
    pub new_versions: String,
    /// The archive and manifest of the old key inside the old folder (what marks a
    /// left-behind old folder as a backup of this application).
    pub stale_archive: String,
    pub stale_sidecar: String,
}

/// The paths of a move from `ok` to `nk` under `home` are as `PairMove` describes.
pub open spec fn is_pair_move(m: PairMove, home: Seq<char>, ok: Seq<char>, nk: Seq<char>) -> bool {
    let b = spec_join(home, "backup"@);
    let od = spec_join(b, ok);
    let nd = spec_join(b, nk);
    let t = spec_join(home, "_versions"@);
    &&& m.old_key@ == ok
    &&& m.new_key@ == nk
    &&& m.old_dir@ == od
    &&& m.new_dir@ == nd
    &&& m.old_archive@ == spec_join(nd, ok + ".tar.zst"@)
    &&& m.new_archive@ == spec_join(nd, nk + ".tar.zst"@)
    &&& m.old_sidecar@ == spec_join(nd, ok + ".tar.zst.size"@)
    &&& m.new_sidecar@ == spec_join(nd, nk + ".tar.zst.size"@)
    &&& m.old_versions@ == spec_join(t, ok)
    &&& m.new_versions@ == spec_join(t, nk)
    &&& m.stale_archive@ == spec_join(od, ok + ".tar.zst"@)
    &&& m.stale_sidecar@ == spec_join(od, ok + ".tar.zst.size"@)
}

/// The move of a backup stored under key `old_key` to key `new_key`.
pub fn pair_move(home: &str, old_key: &String, new_key: &String) -> (r: PairMove)
    ensures
        is_pair_move(r, home@, old_key@, new_key@),
{
    let b = join(home, "backup");
    let old_dir = join(b.as_str(), old_key.as_str());
    let new_dir = join(b.as_str(), new_key.as_str());
    let old_archive = join(new_dir.as_str(), key_with_suffix(old_key, ".tar.zst").as_str());
    let new_archive = join(new_dir.as_str(), key_with_suffix(new_key, ".tar.zst").as_str());
    let old_sidecar = join(new_dir.as_str(), key_with_suffix(old_key, ".tar.zst.size").as_str());
    let new_sidecar = join(new_dir.as_str(), key_with_suffix(new_key, ".tar.zst.size").as_str());
    let stale_archive = join(old_dir.as_str(), key_with_suffix(old_key, ".tar.zst").as_str());
    let stale_sidecar = join(old_dir.as_str(), key_with_suffix(old_key, ".tar.zst.size").as_str());
    let t = trash_base(home);
    let old_versions = join(t.as_str(), old_key.as_str());
    let new_versions = join(t.as_str(), new_key.as_str());
    PairMove {
        old_key: old_key.clone(),
        new_key: new_key.clone(),
        old_dir,
        new_dir,
        old_archive,
        new_archive,
        old_sidecar,
        new_sidecar,
        old_versions,
        new_versions,
        stale_archive,
        stale_sidecar,
    }
}

/// The move that makes a backup follow its folder from `old_source` to
/// `new_source`; `None` when both have the same pair key.
pub fn rekey_backup(home: &str, old_source: &str, new_source: &str, roots: &PathRoots) -> (r: Option<PairMove>)
    ensures
        (spec_pair_key(old_source@, roots.sview()) == spec_pair_key(new_source@, roots.sview())) == r is None,
        match r {
            Some(m) => is_pair_move(m, home@, spec_pair_key(old_source@, roots.sview()), spec_pair_key(new_source@, roots.sview())),
            None => true,
        },
{
    let old_key = pair_key(old_source, roots);
    let new_key = pair_key(new_source, roots);
    let ok = chars_of(old_key.as_str());
    let nk = chars_of(new_key.as_str());
    if eq_chars(&ok, &nk) {
        return None;
    }
    Some(pair_move(home, &old_key, &new_key))
}

/// The move from the old leaf-named store of `source` to its pair key: `None`
/// when the source has no leaf, its key is its leaf, or another configured folder
/// has the same leaf (the leaf folder could be that folder's only backup).
pub fn leaf_migration(home: &str, source: &str, roots: &PathRoots, cfg: &Config) -> (r: Option<PairMove>)
    ensures
        match spec_file_name(source@) {
            None => r is None,
            Some(leaf) => {
                let key = spec_pair_key(source@, roots.sview());
                if key == leaf || count_leaf(cfg.junctions@, leaf) > 1 {
                    r is None
                } else {
                    r matches Some(m) && is_pair_move(m, home@, leaf, key)
                }
            },
        },
{
    let sc = chars_of(source);
    let leaf = match file_name(sc.as_slice()) {
        Some(l) => l,
        None => return None,
    };
    let key = pair_key(source, roots);
    let kc = chars_of(key.as_str());
    if eq_chars(&kc, &leaf) {
        return None;
    }
    let leaf_s = string_of(&leaf);
    if !leaf_is_unique(cfg, leaf_s.as_str()) {
        return None;
    }
    Some(pair_move(home, &leaf_s, &key))
}

// ==================== INTERVAL GUARD ====================

/// The age of the last completed cycle: now minus the stamp (0 when the clock is
/// behind it); unknown (`u64::MAX`) when the stamp or the clock cannot be read.
pub open spec fn marker_age(stamp: Option<Seq<char>>, now: Option<u64>) -> nat {
    match stamp {
        Some(t) => match parse_unsigned(crate::text::trim(t), u64::MAX as nat) {
            Some(then) => match now {
                Some(n) => if n >= then { (n - then) as nat } else { 0 },
                None => u64::MAX as nat,
            },
            None => u64::MAX as nat,
        },
        None => u64::MAX as nat,
    }
}

/// A cycle completed recently: its age is below the interval (at least one
/// minute) plus one minute of grace.
pub open spec fn spec_completed_recently(stamp: Option<Seq<char>>, now: Option<u64>, interval_minutes: int) -> bool {
    marker_age(stamp, now) < (if interval_minutes < 1 { 1 } else { interval_minutes }) * 60 + 60
}

/// A marker written at `then` and read at `now`: the cycle counts as recent
/// exactly when less than the interval (at least one minute) plus a minute has
/// passed (none when the clock is behind the marker).
pub proof fn lemma_marker_round_trip(then: u64, now: u64, interval_minutes: int)
    ensures
        spec_completed_recently(Some(crate::text::dec(then as nat)), Some(now), interval_minutes) == ((if now
            >= then {
            now - then
        } else {
            0
        }) < (if interval_minutes < 1 { 1 } else { interval_minutes }) * 60 + 60),
{
    crate::text::lemma_dec_parses(then as nat);
    crate::text::lemma_dec_no_whitespace(then as nat);
    crate::text::lemma_trim_fixed(crate::text::dec(then as nat));
}

/// Whether a full cycle completed less than an interval ago, from the marker's
/// text (`None` when there is no marker) and the clock in seconds since the epoch.
pub fn completed_recently(stamp: Option<&str>, now: Option<u64>, interval_minutes: i64) -> (r: bool)
    requires
        interval_minutes <= 307445734561825859,
    ensures
        r == spec_completed_recently(match stamp {
            Some(s) => Some(s@),
            None => None,
        }, now, interval_minutes as int),
{
    let age: u64 = match stamp {
        Some(s) => {
            let t = crate::text::trim_chars(s);
            match parse_unsigned_chars(t.as_slice(), u64::MAX) {
                Some(then) => match now {
                    Some(n) => if n >= then { n - then } else { 0 },
                    None => u64::MAX,
                },
                None => u64::MAX,
            }
        },
        None => u64::MAX,
    };
    let m: u64 = if interval_minutes < 1 { 1 } else { interval_minutes as u64 };
    age < m * 60 + 60
}

/// The seconds-since-epoch text a completed cycle writes into its marker.
pub fn marker_text(now: u64) -> (r: String)
    ensures
        r@ == crate::text::dec(now as nat),
{
    let mut v: Vec<char> = Vec::new();
    crate::text::push_dec(now, &mut v);
    string_of(&v)
}

// ==================== STATE DIRECTORY ====================

/// The files that moved from the home into its state directory: for each, the old
/// path in the home and the new one in `.lrgex`.
pub fn data_dir_moves(home: &str) -> (r: Vec<(String, String)>)
    ensures
        r@.len() == 7,
        forall|i: int| 0 <= i < 7 ==> (#[trigger] r@[i]).0@ == spec_join(home@, moved_names()[i].0)
            && r@[i].1@ == spec_join(spec_join(home@, ".lrgex"@), moved_names()[i].1),
{
    let d = data_dir(home);
    let mut out: Vec<(String, String)> = Vec::new();
    out.push((join(home, "junction-config.json"), join(d.as_str(), "junction-config.json")));
    out.push((join(home, "sync.log"), join(d.as_str(), "sync.log")));
    out.push((join(home, "sync-progress.txt"), join(d.as_str(), "sync-progress.txt")));
    out.push((join(home, "sync-status.json"), join(d.as_str(), "sync-status.json")));
    out.push((join(home, ".lrgex-home"), join(d.as_str(), "home")));
    out.push((join(home, ".legacy-tasks-cleaned"), join(d.as_str(), "legacy-cleaned")));
    out.push((join(home, ".migration-pending"), join(d.as_str(), "migration-pending")));
    out
}

/// The old and new names of the files that moved into the state directory.
pub open spec fn moved_names() -> Seq<(Seq<char>, Seq<char>)> {
    seq![
        ("junction-config.json"@, "junction-config.json"@),
        ("sync.log"@, "sync.log"@),
        ("sync-progress.txt"@, "sync-progress.txt"@),
        ("sync-status.json"@, "sync-status.json"@),
        (".lrgex-home"@, "home"@),
        (".legacy-tasks-cleaned"@, "legacy-cleaned"@),
        (".migration-pending"@, "migration-pending"@),
    ]
}

/// `<home>\\.lrgex\\migration-pending`: set after a restore, until save ids migrate.
pub fn migration_marker_path(home: &str) -> (r: String)
    ensures
        r@ == spec_join(spec_join(home@, ".lrgex"@), "migration-pending"@),
{
    join(data_dir(home).as_str(), "migration-pending")
}

/// The snapshot folder's name before it was renamed: `<home>\\_trash`.
pub fn legacy_trash_dir(home: &str) -> (r: String)
    ensures
        r@ == spec_join(home@, "_trash"@),
{
    join(home, "_trash")
}

/// File attributes with both hidden (2) and system (4) set.
pub fn is_hidden_system(attributes: u32) -> (r: bool)
    ensures
        r == (attributes & 6 == 6),
{
    attributes & 6 == 6
}

// ==================== SAVING ====================

/// The drive of a junction's expanded path, when it is a drive-letter path: the
/// volume whose identity is recorded when the configuration is saved.
pub fn junction_drive(j: &Junction, roots: &PathRoots) -> (r: Option<String>)
    requires
        roots.wf(),
    ensures
        match r {
            Some(l) => spec_drive_letter(expanded(j.source_path@, roots.sview())) == Some(l@),
            None => spec_drive_letter(expanded(j.source_path@, roots.sview())) is None,
        },
{
    let e = expand(j.source_path.as_str(), roots);
    assert(decode_utf8(encode_utf8(e@)) == e@);
    drive_letter(e.as_str())
}

/// A junction as it is saved: its path contracted to the portable form, and the
/// volume identity found for its drive recorded (a drive that is not there now
/// keeps the identity stored before).
pub fn portable_junction(j: &Junction, roots: &PathRoots, volume: Option<String>) -> (r: Junction)
    ensures
        r.source_path@ == spec_contract(j.source_path@, roots.sview()),
        r.auto_restore == j.auto_restore,
        r.created@ == j.created@,
        r.is_game == j.is_game,
        r.volume_id == match volume {
            Some(g) => Some(g),
            None => j.volume_id,
        },
{
    let vol = match volume {
        Some(g) => Some(g),
        None => j.volume_id.clone(),
    };
    Junction {
        source_path: contract(j.source_path.as_str(), roots),
        auto_restore: j.auto_restore,
        created: j.created.clone(),
        is_game: j.is_game,
        volume_id: vol,
    }
}

/// Whether loading rewrites the configuration: after a heal, or when the raw
/// text still holds absolute paths (`SourcePath` and `:\\`).
pub fn needs_portable_save(raw: &str, healed: bool) -> (r: bool)
    ensures
        r == (healed || (crate::gamescan::find_from(raw@, "SourcePath"@, 0) is Some
            && crate::gamescan::find_from(raw@, ":\\"@, 0) is Some)),
{
    if healed {
        return true;
    }
    let rc = chars_of(raw);
    let a = chars_of("SourcePath");
    let b = chars_of(":\\");
    crate::gamescan::find_from_chars(&rc, &a).is_some() && crate::gamescan::find_from_chars(&rc, &b).is_some()
}

// ==================== PROFILE HEALING ====================

/// The user name of a profile path: its last `\`-separated piece, lowercased.
pub open spec fn profile_user(profile: Seq<char>) -> Seq<char> {
    lowercase(
        match crate::gamescan::last_index_of(profile, '\\') {
            Some(i) => profile.skip(i + 1),
            None => profile,
        },
    )
}

/// `<system drive>\users\`, lowercased, as bytes.
pub open spec fn users_prefix(sys_drive: Seq<char>) -> Seq<u8> {
    encode_utf8(lowercase(sys_drive) + "\\users\\"@)
}

/// The profile heal looks at this path: its lowercase form starts with the users
/// prefix of the system drive, and the current user name is known.
pub open spec fn heal_applies(source: Seq<char>, profile: Seq<char>, sys_drive: Seq<char>) -> bool {
    let lb = crate::pathutil::lower_bytes(encode_utf8(source));
    let pb = users_prefix(sys_drive);
    &&& pb.len() <= lb.len()
    &&& lb.take(pb.len() as int) == pb
    &&& profile_user(profile).len() > 0
}

/// Cutting the path after the users prefix splits no character.
pub open spec fn heal_cut_ok(source: Seq<char>, profile: Seq<char>, sys_drive: Seq<char>) -> bool {
    heal_applies(source, profile, sys_drive) ==> is_char_boundary(encode_utf8(source), users_prefix(sys_drive).len() as int)
}

/// A path under another user's profile on the system drive, moved to the current
/// profile: `<profile><rest>` where the path reads `<drive>\users\<old>\<rest>`
/// and `<old>` (case-insensitively) is neither the current user nor `public`.
pub open spec fn spec_heal_user(source: Seq<char>, profile: Seq<char>, sys_drive: Seq<char>) -> Option<Seq<char>> {
    if !heal_applies(source, profile, sys_drive) {
        None
    } else {
        let after = decode_utf8(encode_utf8(source).skip(users_prefix(sys_drive).len() as int));
        match crate::gamescan::index_of(after, '\\') {
            None => None,
            Some(bs) => {
                let old = lowercase(after.take(bs));
                if old != profile_user(profile) && old != "public"@ {
                    Some(profile + after.skip(bs))
                } else {
                    None
                }
            },
        }
    }
}

/// The user name of a profile path (see `profile_user`).
fn profile_user_exec(profile: &str) -> (r: String)
    ensures
        r@ == profile_user(profile@),
{
    let cs = chars_of(profile);
    proof {
        crate::gamescan::lemma_last_index_of(profile@, '\\');
    }
    let mut i = cs.len();
    while i > 0 && cs[i - 1] != '\\'
        invariant
            i <= cs@.len(),
            cs@ == profile@,
            forall|j: int| i <= j < cs@.len() ==> cs@[j] != '\\',
        decreases i,
    {
        i = i - 1;
    }
    let piece = crate::winpath::sub_chars(cs.as_slice(), i, cs.len());
    if i > 0 {
        assert(crate::gamescan::last_index_of(profile@, '\\') == Some(i as int - 1));
        assert(piece@ =~= profile@.skip(i as int));
    } else {
        assert(crate::gamescan::last_index_of(profile@, '\\') is None);
        assert(piece@ =~= profile@);
    }
    to_lowercase(string_of(&piece).as_str())
}

/// Moves a path from an old profile to the current one after a reinstall (see
/// `spec_heal_user`); `None` when the path needs no healing.
pub fn heal_user_profile(source: &str, profile: &str, sys_drive: &str) -> (r: Option<String>)
    requires
        heal_cut_ok(source@, profile@, sys_drive@),
    ensures
        match r {
            Some(h) => spec_heal_user(source@, profile@, sys_drive@) == Some(h@),
            None => spec_heal_user(source@, profile@, sys_drive@) is None,
        },
{
    let lower = to_lowercase(source);
    let user = profile_user_exec(profile);
    let drive_low = to_lowercase(sys_drive);
    let mut pv = chars_of(drive_low.as_str());
    crate::text::push_str(&mut pv, "\\users\\");
    let prefix = string_of(&pv);
    let pb = prefix.as_str().as_bytes();
    let lb = lower.as_str().as_bytes();
    assert(decode_utf8(encode_utf8(source@)) == source@);
    assert(lb@ == crate::pathutil::lower_bytes(encode_utf8(source@)));
    assert(pb@ == users_prefix(sys_drive@));
    if pb.len() > lb.len() || user.as_str().is_empty() {
        return None;
    }
    if !crate::text::occurs_at(lb, pb, 0) {
        assert(lb@.subrange(0, pb@.len() as int) =~= lb@.take(pb@.len() as int));
        return None;
    }
    assert(lb@.subrange(0, pb@.len() as int) =~= lb@.take(pb@.len() as int));
    assert(heal_applies(source@, profile@, sys_drive@));
    let n = pb.len();
    let (_, after) = source.split_at(n);
    let ghost rb = encode_utf8(source@);
    assert(encode_utf8(after@) =~= rb.subrange(n as int, rb.len() as int));
    assert(rb.skip(n as int) =~= rb.subrange(n as int, rb.len() as int));
    assert(after@ == decode_utf8(rb.skip(n as int)));
    let ac = chars_of(after);
    proof {
        crate::gamescan::lemma_index_of(ac@, '\\');
    }
    let mut bs: usize = 0;
    while bs < ac.len() && ac[bs] != '\\'
        invariant
            bs <= ac@.len(),
            forall|j: int| 0 <= j < bs ==> ac@[j] != '\\',
        decreases ac@.len() - bs,
    {
        bs = bs + 1;
    }
    if bs == ac.len() {
        return None;
    }
    assert(crate::gamescan::index_of(ac@, '\\') == Some(bs as int));
    let head = crate::winpath::sub_chars(ac.as_slice(), 0, bs);
    let rest = crate::winpath::sub_chars(ac.as_slice(), bs, ac.len());
    assert(head@ =~= ac@.take(bs as int));
    assert(rest@ =~= ac@.skip(bs as int));
    let old = to_lowercase(string_of(&head).as_str());
    let oc = chars_of(old.as_str());
    let uc = chars_of(user.as_str());
    let public = chars_of("public");
    if eq_chars(&oc, &uc) || eq_chars(&oc, &public) {
        return None;
    }
    let mut hv = chars_of(profile);
    crate::text::push_str(&mut hv, string_of(&rest).as_str());
    Some(string_of(&hv))
}

/// The profile heal with the cut checked first: a path whose users prefix would
/// end inside a character is left as it is (`None`), otherwise as
/// `heal_user_profile`.
pub fn heal_user_profile_checked(source: &str, profile: &str, sys_drive: &str) -> (r: Option<String>)
    ensures
        !heal_cut_ok(source@, profile@, sys_drive@) ==> r is None,
        heal_cut_ok(source@, profile@, sys_drive@) ==> match r {
            Some(h) => spec_heal_user(source@, profile@, sys_drive@) == Some(h@),
            None => spec_heal_user(source@, profile@, sys_drive@) is None,
        },
{
    let drive_low = to_lowercase(sys_drive);
    let mut pv = chars_of(drive_low.as_str());
    crate::text::push_str(&mut pv, "\\users\\");
    let prefix = string_of(&pv);
    let pb = prefix.as_str().as_bytes();
    let n = pb.len();
    assert(pb@ == users_prefix(sys_drive@));
    if !source.is_char_boundary(n) {
        return None;
    }
    heal_user_profile(source, profile, sys_drive)
}

} // verus!

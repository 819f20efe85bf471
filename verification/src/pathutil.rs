//! Portable paths: expanding `%TOKEN%` forms to absolute paths and contracting
//! absolute paths back to tokens, given what each token currently resolves to.
//!
//! The resolved values (known folders, environment variables) are read by the
//! caller and handed in as a `PathRoots`; everything here is a pure function of
//! the path and those values.
use vstd::prelude::*;
use vstd::string::*;
use vstd::utf8::*;
use crate::text::{
    lowercase, to_lowercase, chars_of, string_of, count_byte, lemma_count_concat, lemma_count_split3,
    lemma_encode_concat, lemma_encode_no_percent, lemma_encode_one_percent, one_percent_at_most, lower_ascii_seq, lowers_per_char, lower_byte, eq_ignore_case, find_from,
    find_bytes, eq_ignore_case_at,
};

verus! {

broadcast use {vstd::utf8::group_utf8_lib, vstd::string::is_ascii_spec_bytes};

/// One token together with what it currently resolves to (`None`: unresolved).
pub struct RootEntry {
    /// The token as written in contracted paths, e.g. `%KNOWNFOLDER:SavedGames%`.
    pub token: String,
    /// The same token in lowercase, the form searched for when expanding.
    pub token_lower: String,
    pub value: Option<String>,
}

/// The tokens in priority order: the seven known folders, then the environment
/// variables from the most specific to the most general.
pub struct PathRoots {
    pub entries: Vec<RootEntry>,
}

pub struct SRoot {
    pub token: Seq<char>,
    pub token_lower: Seq<char>,
    pub value: Option<Seq<char>>,
}

impl RootEntry {
    pub open spec fn sview(&self) -> SRoot {
        SRoot {
            token: self.token@,
            token_lower: self.token_lower@,
            value: match &self.value {
                Some(v) => Some(v@),
                None => None,
            },
        }
    }
}

pub open spec fn no_percent(v: Seq<char>) -> bool {
    forall|i: int| 0 <= i < v.len() ==> #[trigger] v[i] != '%'
}

impl SRoot {
    /// A token is ASCII, starts and ends with `%`; a resolved value holds at most
    /// one `%` (so each substitution lowers the number of `%` in the path).
    pub open spec fn wf(&self) -> bool {
        &&& is_ascii_chars(self.token_lower)
        &&& self.token_lower.len() >= 2
        &&& self.token_lower[0] == '%'
        &&& self.token_lower.last() == '%'
        &&& self.token.len() == self.token_lower.len()
        &&& (self.value matches Some(v) ==> one_percent_at_most(v))
    }
}

impl PathRoots {
    pub open spec fn sview(&self) -> Seq<SRoot> {
        self.entries@.map_values(|e: RootEntry| e.sview())
    }

    pub open spec fn wf(&self) -> bool {
        forall|i: int| 0 <= i < self.entries@.len() ==> (#[trigger] self.sview()[i]).wf()
    }

    /// The token table as `new` builds it: each token is searched for in its
    /// ASCII lowercase form, holds `%` only at its two ends, and no two tokens
    /// are alike.
    pub open spec fn tokens_ok(&self) -> bool {
        &&& forall|i: int|
            0 <= i < self.entries@.len() ==> {
                &&& (#[trigger] self.sview()[i]).token_lower == lower_ascii_seq(self.sview()[i].token)
                &&& forall|j: int|
                    0 < j < self.sview()[i].token_lower.len() - 1 ==> self.sview()[i].token_lower[j] != '%'
            }
        &&& forall|i: int, k: int|
            0 <= i < k < self.entries@.len() ==> #[trigger] self.sview()[i].token_lower != #[trigger] self.sview()[
                k
            ].token_lower
    }
}

/// Bytes of the lowercase form of the string whose UTF-8 bytes are `rb`.
pub open spec fn lower_bytes(rb: Seq<u8>) -> Seq<u8> {
    encode_utf8(lowercase(decode_utf8(rb)))
}

/// Substitution of one token: its first occurrence in the lowercased string must
/// sit on character boundaries of the path itself and match the token there
/// (ASCII case-insensitively), and the token must be resolved.
pub open spec fn try_entry(rb: Seq<u8>, lb: Seq<u8>, e: SRoot) -> Option<Seq<u8>> {
    let tl = encode_utf8(e.token_lower);
    match find_from(lb, tl, 0) {
        None => None,
        Some(pos) => {
            let end = pos + tl.len();
            if !is_char_boundary(rb, pos as int) || !is_char_boundary(rb, end as int)
                || !eq_ignore_case(rb.subrange(pos as int, end as int), tl) {
                None
            } else {
                match e.value {
                    None => None,
                    Some(v) => Some(rb.take(pos as int) + encode_utf8(v) + rb.skip(end as int)),
                }
            }
        },
    }
}

/// The first substitution any token allows, trying tokens in order from `i`.
pub open spec fn step_from(rb: Seq<u8>, es: Seq<SRoot>, i: int) -> Option<Seq<u8>>
    decreases es.len() - i,
{
    if i < 0 || i >= es.len() {
        None
    } else {
        match try_entry(rb, lower_bytes(rb), es[i]) {
            Some(n) => Some(n),
            None => step_from(rb, es, i + 1),
        }
    }
}

/// Substitutes until no token applies, for at most `fuel` rounds.
pub open spec fn expand_rounds(rb: Seq<u8>, es: Seq<SRoot>, fuel: nat) -> Seq<u8>
    decreases fuel,
{
    if fuel == 0 {
        rb
    } else {
        match step_from(rb, es, 0) {
            None => rb,
            Some(n) => expand_rounds(n, es, (fuel - 1) as nat),
        }
    }
}

/// UTF-8 bytes of the expansion of the path whose bytes are `rb`: substitution
/// repeats until no token applies. Each substitution removes a token's two `%`
/// and brings in at most one, so the given number of rounds always reaches that
/// point.
pub open spec fn spec_expand(rb: Seq<u8>, es: Seq<SRoot>) -> Seq<u8> {
    expand_rounds(rb, es, count_byte(rb, 0x25) + 1)
}

proof fn lemma_try_entry_shrinks(rb: Seq<u8>, lb: Seq<u8>, e: SRoot)
    requires
        e.wf(),
        valid_utf8(rb),
        try_entry(rb, lb, e) is Some,
    ensures
        count_byte(try_entry(rb, lb, e).unwrap(), 0x25) + 1 <= count_byte(rb, 0x25),
        valid_utf8(try_entry(rb, lb, e).unwrap()),
{
    let tl = encode_utf8(e.token_lower);
    is_ascii_chars_encode_utf8(e.token_lower);
    let pos = find_from(lb, tl, 0).unwrap() as int;
    let end = pos + tl.len();
    let v = e.value.unwrap();
    let sub = rb.subrange(pos, end);
    assert(tl[0] == 0x25u8);
    assert(tl[tl.len() - 1] == 0x25u8);
    assert(lower_byte(sub[0]) == lower_byte(tl[0]));
    assert(lower_byte(sub[sub.len() - 1]) == lower_byte(tl[tl.len() - 1]));
    assert(sub[0] == 0x25u8);
    assert(sub[sub.len() - 1] == 0x25u8);
    assert(end <= rb.len());
    lemma_count_split3(rb, pos, end, 0x25);
    let mid = sub.subrange(1, sub.len() - 1);
    assert(sub =~= seq![sub[0]] + mid + seq![sub[sub.len() - 1]]);
    lemma_count_concat(seq![sub[0]] + mid, seq![sub[sub.len() - 1]], 0x25);
    lemma_count_concat(seq![sub[0]], mid, 0x25);
    reveal_with_fuel(count_byte, 2);
    lemma_encode_one_percent(v);
    lemma_count_concat(rb.take(pos) + encode_utf8(v), rb.skip(end), 0x25);
    lemma_count_concat(rb.take(pos), encode_utf8(v), 0x25);
    valid_utf8_split(rb, pos);
    valid_utf8_split(rb, end);
    assert(rb.take(pos) =~= rb.subrange(0, pos));
    assert(rb.skip(end) =~= rb.subrange(end, rb.len() as int));
    valid_utf8_concat(rb.take(pos), encode_utf8(v));
    valid_utf8_concat(rb.take(pos) + encode_utf8(v), rb.skip(end));
}

proof fn lemma_step_shrinks(rb: Seq<u8>, es: Seq<SRoot>, i: int)
    requires
        forall|k: int| 0 <= k < es.len() ==> (#[trigger] es[k]).wf(),
        valid_utf8(rb),
        step_from(rb, es, i) is Some,
    ensures
        count_byte(step_from(rb, es, i).unwrap(), 0x25) + 1 <= count_byte(rb, 0x25),
        valid_utf8(step_from(rb, es, i).unwrap()),
    decreases es.len() - i,
{
    if try_entry(rb, lower_bytes(rb), es[i]) is Some {
        lemma_try_entry_shrinks(rb, lower_bytes(rb), es[i]);
    } else {
        lemma_step_shrinks(rb, es, i + 1);
    }
}

/// Tries one token on `result`, looking for it in `lower` (its lowercase form).
fn try_root(result: &str, lower: &str, e: &RootEntry) -> (r: Option<String>)
    ensures
        match r {
            Some(n) => try_entry(encode_utf8(result@), encode_utf8(lower@), e.sview()) == Some(encode_utf8(n@)),
            None => try_entry(encode_utf8(result@), encode_utf8(lower@), e.sview()) is None,
        },
{
    let lb = lower.as_bytes();
    let tl = e.token_lower.as_str().as_bytes();
    match find_bytes(lb, tl) {
        None => None,
        Some(pos) => {
            let ll = lb.len();
            assert(pos + tl@.len() <= ll);
            let end = pos + tl.len();
            if !result.is_char_boundary(pos) || !result.is_char_boundary(end) {
                return None;
            }
            let rb = result.as_bytes();
            assert(end <= rb@.len()) by {
                if end > rb@.len() {
                    assert(!is_char_boundary(rb@, end as int));
                }
            }
            if !eq_ignore_case_at(rb, pos, tl) {
                return None;
            }
            match &e.value {
                None => None,
                Some(v) => {
                    let (a, _) = result.split_at(pos);
                    let (_, b) = result.split_at(end);
                    let mut s = String::from_str(a);
                    s.append(v.as_str());
                    s.append(b);
                    proof {
                        lemma_encode_concat(a@ + v@, b@);
                        lemma_encode_concat(a@, v@);
                        assert(rb@.take(pos as int) =~= rb@.subrange(0, pos as int));
                        assert(rb@.skip(end as int) =~= rb@.subrange(end as int, rb@.len() as int));
                    }
                    Some(s)
                },
            }
        },
    }
}

/// `step_from` with the lowercase bytes `lb` given.
pub open spec fn step_with(rb: Seq<u8>, lb: Seq<u8>, es: Seq<SRoot>, i: int) -> Option<Seq<u8>>
    decreases es.len() - i,
{
    if i < 0 || i >= es.len() {
        None
    } else {
        match try_entry(rb, lb, es[i]) {
            Some(n) => Some(n),
            None => step_with(rb, lb, es, i + 1),
        }
    }
}

/// A path without `%` holds no token: its expansion is the path itself.
pub proof fn lemma_expand_without_tokens(path: Seq<char>, es: Seq<SRoot>)
    requires
        forall|k: int| 0 <= k < es.len() ==> (#[trigger] es[k]).wf(),
        no_percent(path),
    ensures
        spec_expand(encode_utf8(path), es) == encode_utf8(path),
{
    let rb = encode_utf8(path);
    lemma_encode_no_percent(path);
    encode_utf8_valid_utf8(path);
    if step_from(rb, es, 0) is Some {
        lemma_step_shrinks(rb, es, 0);
    }
}

proof fn lemma_step_with(rb: Seq<u8>, es: Seq<SRoot>, i: int)
    ensures
        step_from(rb, es, i) == step_with(rb, lower_bytes(rb), es, i),
    decreases es.len() - i,
{
    if 0 <= i < es.len() {
        lemma_step_with(rb, es, i + 1);
    }
}

/// The first substitution any token allows on `result`, the tokens being looked
/// for in `lower` (see `step_with`); `None` when none applies.
pub fn substitute_first(result: &str, lower: &str, roots: &PathRoots) -> (r: Option<String>)
    ensures
        match r {
            Some(n) => step_with(encode_utf8(result@), encode_utf8(lower@), roots.sview(), 0) == Some(
                encode_utf8(n@),
            ),
            None => step_with(encode_utf8(result@), encode_utf8(lower@), roots.sview(), 0) is None,
        },
{
    let ghost rb = encode_utf8(result@);
    let ghost lb = encode_utf8(lower@);
    let mut i: usize = 0;
    while i < roots.entries.len()
        invariant
            i <= roots.entries@.len(),
            rb == encode_utf8(result@),
            lb == encode_utf8(lower@),
            step_with(rb, lb, roots.sview(), 0) == step_with(rb, lb, roots.sview(), i as int),
        decreases roots.entries@.len() - i,
    {
        let t = try_root(result, lower, &roots.entries[i]);
        assert(roots.sview()[i as int] == roots.entries@[i as int].sview());
        if let Some(n) = t {
            return Some(n);
        }
        i = i + 1;
    }
    None
}

/// The first substitution any token allows, or `None`.
fn expand_step(result: &String, roots: &PathRoots) -> (r: Option<String>)
    ensures
        is_ascii_chars(result@) ==> lowers_per_char(result@),
        match r {
            Some(n) => step_from(encode_utf8(result@), roots.sview(), 0) == Some(
                encode_utf8(n@),
            ),
            None => step_from(encode_utf8(result@), roots.sview(), 0) is None,
        },
{
    let lower = to_lowercase(result.as_str());
    proof {
        let rb = encode_utf8(result@);
        assert(decode_utf8(rb) == result@);
        assert(lower_bytes(rb) == encode_utf8(lower@));
        lemma_step_with(rb, roots.sview(), 0);
    }
    substitute_first(result.as_str(), lower.as_str(), roots)
}

/// Expands every resolvable `%KNOWNFOLDER:Name%` and `%VAR%` token (case-insensitive),
/// repeating until none applies. A path without tokens is returned unchanged.
pub fn expand(path: &str, roots: &PathRoots) -> (r: String)
    requires
        roots.wf(),
    ensures
        encode_utf8(r@) == spec_expand(encode_utf8(path@), roots.sview()),
        is_ascii_chars(path@) ==> lowers_per_char(path@),
{
    let mut result = String::from_str(path);
    let ghost es = roots.sview();
    let ghost mut fuel: nat = count_byte(encode_utf8(path@), 0x25) + 1;
    let ghost mut seen: bool = false;
    loop
        invariant
            seen ==> (is_ascii_chars(path@) ==> lowers_per_char(path@)),
            !seen ==> result@ == path@,
            roots.wf(),
            es == roots.sview(),
            fuel > count_byte(encode_utf8(result@), 0x25),
            spec_expand(encode_utf8(path@), es) == expand_rounds(
                encode_utf8(result@),
                es,
                fuel,
            ),
        decreases count_byte(encode_utf8(result@), 0x25),
    {
        let ghost rb = encode_utf8(result@);
        let step = expand_step(&result, roots);
        proof {
            seen = true;
        }
        match step {
            None => {
                return result;
            },
            Some(n) => {
                proof {
                    assert forall|k: int| 0 <= k < es.len() implies (#[trigger] es[k]).wf() by {
                        assert(roots.sview()[k] == es[k]);
                    }
                    lemma_step_shrinks(rb, es, 0);
                    fuel = (fuel - 1) as nat;
                }
                result = n;
            },
        }
    }
}


/// True when `s` holds at most one `%`.
pub fn has_one_percent_at_most(s: &str) -> (r: bool)
    ensures
        r == one_percent_at_most(s@),
{
    let v = chars_of(s);
    let mut seen: bool = false;
    let mut i: usize = 0;
    while i < v.len()
        invariant
            i <= v@.len(),
            v@ == s@,
            one_percent_at_most(v@.take(i as int)),
            seen == (exists|j: int| 0 <= j < i && #[trigger] v@[j] == '%'),
        decreases v@.len() - i,
    {
        let ghost t0 = v@.take(i as int);
        if v[i] == '%' {
            if seen {
                proof {
                    let j = choose|j: int| 0 <= j < i && #[trigger] v@[j] == '%';
                    assert(v@[j] == '%' && v@[i as int] == '%');
                }
                return false;
            }
            seen = true;
        }
        proof {
            let t1 = v@.take(i + 1);
            assert forall|a: int, b: int|
                #![trigger t1[a], t1[b]]
                0 <= a < b < t1.len() && t1[a] == '%' implies t1[b] != '%' by {
                assert(t1[a] == v@[a]);
                assert(t1[b] == v@[b]);
                if b < i {
                    assert(t0[a] == v@[a] && t0[b] == v@[b]);
                }
            }
        }
        i = i + 1;
    }
    assert(v@.take(v@.len() as int) =~= v@);
    true
}

fn root_entry(token: &str, lower: &str, value: &Option<String>) -> (e: RootEntry)
    requires
        is_ascii_chars(lower@),
        lower@.len() >= 2,
        lower@[0] == '%',
        lower@.last() == '%',
        token@.len() == lower@.len(),
        lower@ == lower_ascii_seq(token@),
        forall|j: int| 0 < j < lower@.len() - 1 ==> lower@[j] != '%',
        value matches Some(v) ==> one_percent_at_most(v@),
    ensures
        e.sview().wf(),
        e.sview().token_lower == lower_ascii_seq(e.sview().token),
        forall|j: int| 0 < j < e.sview().token_lower.len() - 1 ==> e.sview().token_lower[j] != '%',
        e.token@ == token@,
        e.token_lower@ == lower@,
        e.sview().value == (match value {
            Some(v) => Some(v@),
            None => None::<Seq<char>>,
        }),
{
    let v = match value {
        Some(x) => Some(x.clone()),
        None => None,
    };
    RootEntry { token: String::from_str(token), token_lower: String::from_str(lower), value: v }
}

pub open spec fn values_ok(vals: Seq<Option<String>>) -> bool {
    forall|i: int| 0 <= i < vals.len() ==> (#[trigger] vals[i] matches Some(v) ==> one_percent_at_most(v@))
}

/// An optional string as plain characters.
pub open spec fn opt_chars(o: Option<String>) -> Option<Seq<char>> {
    match o {
        Some(v) => Some(v@),
        None => None,
    }
}

/// The tokens, in priority order.
pub open spec fn root_tokens() -> Seq<Seq<char>> {
    seq![
        "%KNOWNFOLDER:SavedGames%"@, "%KNOWNFOLDER:Documents%"@, "%KNOWNFOLDER:Desktop%"@,
        "%KNOWNFOLDER:Downloads%"@, "%KNOWNFOLDER:Pictures%"@, "%KNOWNFOLDER:Music%"@, "%KNOWNFOLDER:Videos%"@,
        "%LOCALAPPDATA%"@, "%APPDATA%"@, "%USERPROFILE%"@, "%ProgramFiles(x86)%"@, "%PROGRAMFILES%"@,
        "%PROGRAMDATA%"@, "%PUBLIC%"@,
    ]
}

/// The tokens in their lowercase form, in the order of `root_tokens`.
pub open spec fn root_tokens_lower() -> Seq<Seq<char>> {
    seq!["%knownfolder:savedgames%"@, "%knownfolder:documents%"@, "%knownfolder:desktop%"@, "%knownfolder:downloads%"@, "%knownfolder:pictures%"@, "%knownfolder:music%"@, "%knownfolder:videos%"@, "%localappdata%"@, "%appdata%"@, "%userprofile%"@, "%programfiles(x86)%"@, "%programfiles%"@, "%programdata%"@, "%public%"@]
}

impl PathRoots {
    /// Builds the token table from what the seven known folders (Saved Games,
    /// Documents, Desktop, Downloads, Pictures, Music, Videos) and the seven
    /// environment variables (LOCALAPPDATA, APPDATA, USERPROFILE,
    /// ProgramFiles(x86), ProgramFiles, ProgramData, PUBLIC) resolve to, in that
    /// order. A value holds at most one `%`: one with two can re-form a token
    /// (`%USERPROFILE%` as the value of USERPROFILE), and expansion would then
    /// substitute without end.
    pub fn new(known: &Vec<Option<String>>, env: &Vec<Option<String>>) -> (r: PathRoots)
        requires
            known@.len() == 7,
            env@.len() == 7,
            values_ok(known@),
            values_ok(env@),
        ensures
            r.wf(),
            r.tokens_ok(),
            r.entries@.len() == 14,
            forall|i: int| 0 <= i < 14 ==> (#[trigger] r.entries@[i]).token@ == root_tokens()[i],
            forall|i: int| 0 <= i < 7 ==> (#[trigger] r.sview()[i]).value == opt_chars(known@[i]),
            forall|i: int| 7 <= i < 14 ==> (#[trigger] r.sview()[i]).value == opt_chars(env@[i - 7]),
    {
        let mut entries: Vec<RootEntry> = Vec::new();
        proof {
            reveal_strlit("%knownfolder:savedgames%");
            reveal_strlit("%KNOWNFOLDER:SavedGames%");
            reveal_strlit("%knownfolder:documents%");
            reveal_strlit("%KNOWNFOLDER:Documents%");
            reveal_strlit("%knownfolder:desktop%");
            reveal_strlit("%KNOWNFOLDER:Desktop%");
            reveal_strlit("%knownfolder:downloads%");
            reveal_strlit("%KNOWNFOLDER:Downloads%");
            reveal_strlit("%knownfolder:pictures%");
            reveal_strlit("%KNOWNFOLDER:Pictures%");
            reveal_strlit("%knownfolder:music%");
            reveal_strlit("%KNOWNFOLDER:Music%");
            reveal_strlit("%knownfolder:videos%");
            reveal_strlit("%KNOWNFOLDER:Videos%");
            reveal_strlit("%localappdata%");
            reveal_strlit("%LOCALAPPDATA%");
            reveal_strlit("%appdata%");
            reveal_strlit("%APPDATA%");
            reveal_strlit("%userprofile%");
            reveal_strlit("%USERPROFILE%");
            reveal_strlit("%programfiles(x86)%");
            reveal_strlit("%ProgramFiles(x86)%");
            reveal_strlit("%programfiles%");
            reveal_strlit("%PROGRAMFILES%");
            reveal_strlit("%programdata%");
            reveal_strlit("%PROGRAMDATA%");
            reveal_strlit("%public%");
            reveal_strlit("%PUBLIC%");
            assert(lower_ascii_seq("%KNOWNFOLDER:SavedGames%"@) =~= "%knownfolder:savedgames%"@);
            assert(lower_ascii_seq("%KNOWNFOLDER:Documents%"@) =~= "%knownfolder:documents%"@);
            assert(lower_ascii_seq("%KNOWNFOLDER:Desktop%"@) =~= "%knownfolder:desktop%"@);
            assert(lower_ascii_seq("%KNOWNFOLDER:Downloads%"@) =~= "%knownfolder:downloads%"@);
            assert(lower_ascii_seq("%KNOWNFOLDER:Pictures%"@) =~= "%knownfolder:pictures%"@);
            assert(lower_ascii_seq("%KNOWNFOLDER:Music%"@) =~= "%knownfolder:music%"@);
            assert(lower_ascii_seq("%KNOWNFOLDER:Videos%"@) =~= "%knownfolder:videos%"@);
            assert(lower_ascii_seq("%LOCALAPPDATA%"@) =~= "%localappdata%"@);
            assert(lower_ascii_seq("%APPDATA%"@) =~= "%appdata%"@);
            assert(lower_ascii_seq("%USERPROFILE%"@) =~= "%userprofile%"@);
            assert(lower_ascii_seq("%ProgramFiles(x86)%"@) =~= "%programfiles(x86)%"@);
            assert(lower_ascii_seq("%PROGRAMFILES%"@) =~= "%programfiles%"@);
            assert(lower_ascii_seq("%PROGRAMDATA%"@) =~= "%programdata%"@);
            assert(lower_ascii_seq("%PUBLIC%"@) =~= "%public%"@);
        }
        entries.push(root_entry("%KNOWNFOLDER:SavedGames%", "%knownfolder:savedgames%", &known[0]));
        entries.push(root_entry("%KNOWNFOLDER:Documents%", "%knownfolder:documents%", &known[1]));
        entries.push(root_entry("%KNOWNFOLDER:Desktop%", "%knownfolder:desktop%", &known[2]));
        entries.push(root_entry("%KNOWNFOLDER:Downloads%", "%knownfolder:downloads%", &known[3]));
        entries.push(root_entry("%KNOWNFOLDER:Pictures%", "%knownfolder:pictures%", &known[4]));
        entries.push(root_entry("%KNOWNFOLDER:Music%", "%knownfolder:music%", &known[5]));
        entries.push(root_entry("%KNOWNFOLDER:Videos%", "%knownfolder:videos%", &known[6]));
        entries.push(root_entry("%LOCALAPPDATA%", "%localappdata%", &env[0]));
        entries.push(root_entry("%APPDATA%", "%appdata%", &env[1]));
        entries.push(root_entry("%USERPROFILE%", "%userprofile%", &env[2]));
        entries.push(root_entry("%ProgramFiles(x86)%", "%programfiles(x86)%", &env[3]));
        entries.push(root_entry("%PROGRAMFILES%", "%programfiles%", &env[4]));
        entries.push(root_entry("%PROGRAMDATA%", "%programdata%", &env[5]));
        entries.push(root_entry("%PUBLIC%", "%public%", &env[6]));
        let r = PathRoots { entries };
        assert forall|i: int| 0 <= i < r.entries@.len() implies (#[trigger] r.sview()[i]).wf() by {}
        assert forall|i: int| 0 <= i < 14 implies (#[trigger] r.entries@[i]).token@ == root_tokens()[i] by {}
        assert forall|i: int| 0 <= i < 7 implies (#[trigger] r.sview()[i]).value == opt_chars(known@[i]) by {}
        assert forall|i: int| 0 <= i < 14 implies (#[trigger] r.sview()[i]).token_lower == root_tokens_lower()[i] by {}
        assert forall|i: int, k: int| 0 <= i < k < 14 implies root_tokens_lower()[i] != root_tokens_lower()[k] by {
            if root_tokens_lower()[i].len() == root_tokens_lower()[k].len() {
                assert(root_tokens_lower()[i][1] != root_tokens_lower()[k][1] || root_tokens_lower()[i][15]
                    != root_tokens_lower()[k][15]);
            }
        }
        assert forall|i: int| 7 <= i < 14 implies (#[trigger] r.sview()[i]).value == opt_chars(env@[i - 7]) by {}
        r
    }
}


pub open spec fn slash_to_backslash(s: Seq<char>) -> Seq<char> {
    s.map_values(|c: char| if c == '/' { '\\' } else { c })
}

/// `s` with every trailing `\` removed.
pub open spec fn trim_trailing_backslashes(s: Seq<char>) -> Seq<char>
    decreases s.len(),
{
    if s.len() > 0 && s.last() == '\\' {
        trim_trailing_backslashes(s.drop_last())
    } else {
        s
    }
}

/// Comparison form of a path: backslashes only, lowercase, and (unless it is a
/// drive root of at most three bytes such as `c:\`) no trailing separator.
pub open spec fn spec_normalize(path: Seq<char>) -> Seq<char> {
    trim_unless_short(lowercase(slash_to_backslash(path)))
}

/// `p` without trailing `\`, unless it is at most three bytes long.
pub open spec fn trim_unless_short(p: Seq<char>) -> Seq<char> {
    if encode_utf8(p).len() > 3 {
        trim_trailing_backslashes(p)
    } else {
        p
    }
}

/// Normalises a path for comparison (never touches the disk).
pub fn normalize(path: &str) -> (r: String)
    ensures
        r@ == spec_normalize(path@),
        is_ascii_chars(path@) ==> lowers_per_char(slash_to_backslash(path@)),
{
    let cs = chars_of(path);
    let mut m: Vec<char> = Vec::new();
    let mut i: usize = 0;
    while i < cs.len()
        invariant
            i <= cs@.len(),
            cs@ == path@,
            m@ == slash_to_backslash(path@).take(i as int),
        decreases cs@.len() - i,
    {
        let c = cs[i];
        m.push(if c == '/' { '\\' } else { c });
        assert(slash_to_backslash(path@).take(i as int + 1) =~= slash_to_backslash(path@).take(
            i as int,
        ).push(slash_to_backslash(path@)[i as int]));
        i = i + 1;
    }
    assert(slash_to_backslash(path@).take(cs@.len() as int) =~= slash_to_backslash(path@));
    let replaced = string_of(&m);
    let lower = to_lowercase(replaced.as_str());
    proof {
        if is_ascii_chars(path@) {
            assert forall|k: int| 0 <= k < path@.len() implies '\0' <= #[trigger] slash_to_backslash(path@)[k] <= '\u{7f}' by {}
        }
    }
    normalize_lowered(lower.as_str())
}

/// The last step of `normalize`, on the lowercased path with backslashes only
/// (see `trim_unless_short`).
pub fn normalize_lowered(lower: &str) -> (r: String)
    ensures
        r@ == trim_unless_short(lower@),
{
    if lower.as_bytes().len() > 3 {
        let mut v = chars_of(lower);
        while v.len() > 0 && v[v.len() - 1] == '\\'
            invariant
                trim_trailing_backslashes(v@) == trim_trailing_backslashes(lower@),
            decreases v@.len(),
        {
            v.pop();
        }
        assert(trim_trailing_backslashes(v@) == v@);
        string_of(&v)
    } else {
        string_of(&chars_of(lower))
    }
}

pub open spec fn starts_with(s: Seq<char>, p: Seq<char>) -> bool {
    p.len() <= s.len() && s.take(p.len() as int) == p
}

/// `np` is the prefix itself or lies below it.
pub open spec fn prefix_matches(np: Seq<char>, pre: Seq<char>) -> bool {
    np == pre || starts_with(np, pre.push('\\'))
}

/// Index of the token to contract with, scanning from `i`: among tokens whose
/// normalised value is a matching prefix, the longest one (in bytes), the earliest
/// among equally long ones. `cur` carries the best index and length so far.
pub open spec fn best_from(np: Seq<char>, es: Seq<SRoot>, i: int, cur: Option<(int, nat)>) -> Option<int>
    decreases es.len() - i,
{
    if i < 0 || i >= es.len() {
        match cur {
            Some(c) => Some(c.0),
            None => None,
        }
    } else {
        let next = match es[i].value {
            Some(v) => {
                let pre = spec_normalize(v);
                if prefix_matches(np, pre) {
                    let l = encode_utf8(pre).len();
                    match cur {
                        None => Some((i, l)),
                        Some(c) => if l > c.1 { Some((i, l)) } else { cur },
                    }
                } else {
                    cur
                }
            },
            None => cur,
        };
        best_from(np, es, i + 1, next)
    }
}

/// The contracted form of `path`: the best token alone when the path is that
/// folder, the token followed by the rest of the path when it lies below it (as
/// long as the prefix length falls on a character boundary of `path`), else
/// `path` unchanged.
pub open spec fn spec_contract(path: Seq<char>, es: Seq<SRoot>) -> Seq<char> {
    let np = spec_normalize(path);
    match best_from(np, es, 0, None) {
        None => path,
        Some(i) => {
            let pre = spec_normalize(es[i].value.unwrap());
            if np == pre {
                es[i].token
            } else {
                let n = encode_utf8(pre).len();
                let pb = encode_utf8(path);
                if is_char_boundary(pb, n as int) {
                    es[i].token + decode_utf8(pb.skip(n as int))
                } else {
                    path
                }
            }
        },
    }
}

proof fn lemma_best_from_valid(np: Seq<char>, es: Seq<SRoot>, i: int, cur: Option<(int, nat)>)
    requires
        0 <= i,
        cur matches Some(c) ==> 0 <= c.0 < es.len() && es[c.0].value is Some,
    ensures
        best_from(np, es, i, cur) matches Some(b) ==> 0 <= b < es.len() && es[b].value is Some,
    decreases es.len() - i,
{
    if i < es.len() {
        let next = match es[i].value {
            Some(v) => {
                let pre = spec_normalize(v);
                if prefix_matches(np, pre) {
                    let l = encode_utf8(pre).len();
                    match cur {
                        None => Some((i, l)),
                        Some(c) => if l > c.1 { Some((i, l)) } else { cur },
                    }
                } else {
                    cur
                }
            },
            None => cur,
        };
        lemma_best_from_valid(np, es, i + 1, next);
    }
}

pub fn starts_with_chars(s: &Vec<char>, p: &Vec<char>) -> (r: bool)
    ensures
        r == starts_with(s@, p@),
{
    if p.len() > s.len() {
        return false;
    }
    let mut k: usize = 0;
    while k < p.len()
        invariant
            k <= p@.len() <= s@.len(),
            forall|j: int| 0 <= j < k ==> s@[j] == p@[j],
        decreases p@.len() - k,
    {
        if s[k] != p[k] {
            assert(s@.take(p@.len() as int)[k as int] != p@[k as int]);
            return false;
        }
        k = k + 1;
    }
    assert(s@.take(p@.len() as int) =~= p@);
    true
}

pub fn eq_chars(a: &Vec<char>, b: &Vec<char>) -> (r: bool)
    ensures
        r == (a@ == b@),
{
    if a.len() != b.len() {
        return false;
    }
    let r = starts_with_chars(a, b);
    assert(a@.take(b@.len() as int) =~= a@);
    r
}

/// Contracts an absolute path to its portable form: the longest known-folder or
/// environment prefix (ending at a separator or the end) becomes its token.
/// Paths under no resolved prefix (UNC, other drives) are returned unchanged.
pub fn contract(path: &str, roots: &PathRoots) -> (r: String)
    ensures
        r@ == spec_contract(path@, roots.sview()),
{
    let npath = normalize(path);
    let np = chars_of(npath.as_str());
    let ghost es = roots.sview();
    let mut best: Option<(usize, usize)> = None;
    let mut i: usize = 0;
    while i < roots.entries.len()
        invariant
            i <= roots.entries@.len(),
            es == roots.sview(),
            np@ == spec_normalize(path@),
            best_from(np@, es, 0, None) == best_from(
                np@,
                es,
                i as int,
                match best {
                    Some(b) => Some((b.0 as int, b.1 as nat)),
                    None => None,
                },
            ),
            best matches Some(b) ==> b.0 < i && es[b.0 as int].value is Some,
        decreases roots.entries@.len() - i,
    {
        assert(es[i as int] == roots.entries@[i as int].sview());
        let ghost cur = match best {
            Some(b) => Some((b.0 as int, b.1 as nat)),
            None => None::<(int, nat)>,
        };
        match &roots.entries[i].value {
            Some(v) => {
                let pre_s = normalize(v.as_str());
                let pre = chars_of(pre_s.as_str());
                let mut pre_sep = pre.clone();
                pre_sep.push('\\');
                let m = eq_chars(&np, &pre) || starts_with_chars(&np, &pre_sep);
                assert(es[i as int].value == Some(v@));
                assert(pre_sep@ == pre@.push('\\'));
                assert(m == prefix_matches(np@, spec_normalize(v@)));
                if m {
                    let l = pre_s.as_str().as_bytes().len();
                    match best {
                        None => {
                            best = Some((i, l));
                        },
                        Some(b) => {
                            if l > b.1 {
                                best = Some((i, l));
                            }
                        },
                    }
                }
            },
            None => {},
        }
        proof {
            let ghost next = match es[i as int].value {
                Some(v) => {
                    let pre = spec_normalize(v);
                    if prefix_matches(np@, pre) {
                        let l = encode_utf8(pre).len();
                        match cur {
                            None => Some((i as int, l)),
                            Some(c) => if l > c.1 { Some((i as int, l)) } else { cur },
                        }
                    } else {
                        cur
                    }
                },
                None => cur,
            };
            assert(best_from(np@, es, i as int, cur) == best_from(np@, es, i as int + 1, next));
            assert(next == match best {
                Some(b) => Some((b.0 as int, b.1 as nat)),
                None => None::<(int, nat)>,
            });
        }
        i = i + 1;
    }
    proof {
        lemma_best_from_valid(np@, es, 0, None);
    }
    match best {
        None => String::from_str(path),
        Some((bi, bl)) => {
            let e = &roots.entries[bi];
            assert(es[bi as int] == e.sview());
            let v = match &e.value {
                Some(v) => v,
                None => {
                    return String::from_str(path);
                },
            };
            let pre_s = normalize(v.as_str());
            let pre = chars_of(pre_s.as_str());
            if eq_chars(&np, &pre) {
                return e.token.clone();
            }
            let n = pre_s.as_str().as_bytes().len();
            if path.is_char_boundary(n) {
                let (_, rest) = path.split_at(n);
                let mut out = e.token.clone();
                out.append(rest);
                proof {
                    let pb = encode_utf8(path@);
                    assert(pb.skip(n as int) =~= pb.subrange(n as int, pb.len() as int));
                }
                out
            } else {
                String::from_str(path)
            }
        },
    }
}

// ==================== ROUND TRIP ====================

proof fn lemma_lower_ascii_char(c: char)
    requires
        '\0' <= c <= '\u{7f}',
    ensures
        '\0' <= crate::config::lower_ascii(c) <= '\u{7f}',
        (crate::config::lower_ascii(c) == '%') == (c == '%'),
        (crate::config::lower_ascii(c) == '\\') == (c == '\\'),
        (crate::config::lower_ascii(c) == '/') == (c == '/'),
        crate::config::lower_ascii(crate::config::lower_ascii(c)) == crate::config::lower_ascii(c),
        lower_byte(c as u8) == lower_byte(crate::config::lower_ascii(c) as u8),
{
}

proof fn lemma_lower_seq_ascii(s: Seq<char>)
    ensures
        lower_ascii_seq(s).len() == s.len(),
        is_ascii_chars(s) ==> is_ascii_chars(lower_ascii_seq(s)),
        is_ascii_chars(s) ==> lower_ascii_seq(lower_ascii_seq(s)) == lower_ascii_seq(s),
{
    if is_ascii_chars(s) {
        assert forall|k: int| 0 <= k < s.len() implies '\0' <= #[trigger] lower_ascii_seq(s)[k] <= '\u{7f}' by {
            lemma_lower_ascii_char(s[k]);
        }
        assert forall|k: int| 0 <= k < s.len() implies #[trigger] lower_ascii_seq(lower_ascii_seq(s))[k]
            == lower_ascii_seq(s)[k] by {
            lemma_lower_ascii_char(s[k]);
        }
        assert(lower_ascii_seq(lower_ascii_seq(s)) =~= lower_ascii_seq(s));
    }
}

proof fn lemma_lower_seq_concat(a: Seq<char>, b: Seq<char>)
    ensures
        lower_ascii_seq(a + b) == lower_ascii_seq(a) + lower_ascii_seq(b),
{
    assert(lower_ascii_seq(a + b) =~= lower_ascii_seq(a) + lower_ascii_seq(b));
}

proof fn lemma_find_from_match(hay: Seq<u8>, needle: Seq<u8>, i: nat)
    ensures
        find_from(hay, needle, i) matches Some(p) ==> i <= p && p + needle.len() <= hay.len()
            && hay.subrange(p as int, p + needle.len() as int) == needle,
    decreases hay.len() + 1 - i,
{
    if i + needle.len() <= hay.len() && hay.subrange(i as int, i + needle.len() as int) != needle {
        lemma_find_from_match(hay, needle, i + 1);
    }
}

proof fn lemma_step_from_skip(rb: Seq<u8>, es: Seq<SRoot>, j: int, i: int)
    requires
        0 <= j <= i < es.len(),
        forall|k: int| j <= k < i ==> try_entry(rb, lower_bytes(rb), #[trigger] es[k]) is None,
    ensures
        step_from(rb, es, j) == step_from(rb, es, i),
    decreases i - j,
{
    if j < i {
        lemma_step_from_skip(rb, es, j + 1, i);
    }
}

/// Expanding the text of a token followed by a rest without `%` (all ASCII)
/// puts the token's value in its place.
proof fn lemma_expand_token_rest(roots: PathRoots, i: int, rest: Seq<char>)
    requires
        roots.wf(),
        roots.tokens_ok(),
        0 <= i < roots.entries@.len(),
        roots.sview()[i].value is Some,
        is_ascii_chars(roots.sview()[i].value.unwrap()),
        no_percent(roots.sview()[i].value.unwrap()),
        is_ascii_chars(rest),
        no_percent(rest),
        lowers_per_char(roots.sview()[i].token + rest),
    ensures
        spec_expand(encode_utf8(roots.sview()[i].token + rest), roots.sview()) == encode_utf8(
            roots.sview()[i].value.unwrap() + rest,
        ),
{
    let es = roots.sview();
    let e = es[i];
    let tok = e.token;
    let tl = e.token_lower;
    let v = e.value.unwrap();
    let c = tok + rest;
    let rb = encode_utf8(c);
    assert(e.wf());
    assert(tl == lower_ascii_seq(tok));
    assert(is_ascii_chars(tok)) by {
        assert forall|k: int| 0 <= k < tok.len() implies '\0' <= #[trigger] tok[k] <= '\u{7f}' by {
            assert(tl[k] == crate::config::lower_ascii(tok[k]));
            assert('\0' <= tl[k] <= '\u{7f}');
        }
    }
    assert(is_ascii_chars(c)) by {
        assert forall|k: int| 0 <= k < c.len() implies '\0' <= #[trigger] c[k] <= '\u{7f}' by {
            if k < tok.len() {
                assert(c[k] == tok[k]);
            } else {
                assert(c[k] == rest[k - tok.len()]);
            }
        }
    }
    let lc = lower_ascii_seq(c);
    lemma_lower_seq_concat(tok, rest);
    lemma_lower_seq_ascii(c);
    lemma_lower_seq_ascii(rest);
    assert(lc == tl + lower_ascii_seq(rest));
    assert(decode_utf8(rb) == c);
    let lb = lower_bytes(rb);
    assert(lb == encode_utf8(lc));
    is_ascii_chars_encode_utf8(lc);
    is_ascii_chars_encode_utf8(c);
    is_ascii_chars_encode_utf8(tl);
    encode_utf8_valid_utf8(c);
    let n = tl.len() as int;
    // Where `%` stands in the lowercase text: at the token's two ends only.
    assert forall|k: int| 0 <= k < lc.len() && (#[trigger] lc[k]) == '%' implies k == 0 || k == n - 1 by {
        if k >= n {
            assert(lc[k] == lower_ascii_seq(rest)[k - n]);
            lemma_lower_ascii_char(rest[k - n]);
            assert(rest[k - n] != '%');
        }
    }
    lemma_encode_concat(tl, lower_ascii_seq(rest));
    // No other token occurs.
    assert forall|j: int| 0 <= j < es.len() && j != i implies try_entry(rb, lb, #[trigger] es[j]) is None by {
        let tj = es[j].token_lower;
        let tb = encode_utf8(tj);
        assert(es[j].wf());
        is_ascii_chars_encode_utf8(tj);
        lemma_find_from_match(lb, tb, 0);
        if let Some(pos) = find_from(lb, tb, 0) {
            let p = pos as int;
            let m = tb.len() as int;
            assert(lb.subrange(p, p + m)[0] == tb[0]);
            assert(tb[0] == tj[0] as u8);
            assert(lb[p] == lc[p] as u8);
            assert(lc[p] == '%');
            assert(lb.subrange(p, p + m)[m - 1] == tb[m - 1]);
            assert(tb[m - 1] == tj[m - 1] as u8);
            assert(lb[p + m - 1] == lc[p + m - 1] as u8);
            assert(lc[p + m - 1] == '%');
            assert(p == 0 && m == n);
            assert(encode_utf8(tl) =~= lb.subrange(0, n));
            assert(tb == encode_utf8(tl));
            assert(tj == tl) by {
                assert(decode_utf8(tb) == tj);
                assert(decode_utf8(encode_utf8(tl)) == tl);
            }
            if j < i {
                assert(es[j].token_lower != es[i].token_lower);
            } else {
                assert(es[i].token_lower != es[j].token_lower);
            }
        }
    }
    // The token itself is found at the start and replaced.
    let tb = encode_utf8(tl);
    assert(lb.subrange(0, n) =~= tb);
    assert(find_from(lb, tb, 0) == Some(0nat));
    is_char_boundary_start_end_of_seq(rb);
    if rest.len() > 0 {
        is_char_boundary_iff_not_is_continuation_byte(rb, n);
        assert(rb[n] == c[n] as u8);
    } else {
        assert(c =~= tok);
    }
    assert(is_char_boundary(rb, n));
    assert(eq_ignore_case(rb.subrange(0, n), tb)) by {
        assert forall|k: int| 0 <= k < n implies lower_byte(#[trigger] rb.subrange(0, n)[k]) == lower_byte(tb[k]) by {
            assert(rb.subrange(0, n)[k] == rb[k]);
            assert(rb[k] == c[k] as u8);
            assert(c[k] == tok[k]);
            assert(tb[k] == tl[k] as u8);
            lemma_lower_ascii_char(tok[k]);
        }
    }
    lemma_encode_concat(tok, rest);
    lemma_encode_concat(v, rest);
    is_ascii_chars_encode_utf8(tok);
    assert(rb.take(0) + encode_utf8(v) + rb.skip(n) =~= encode_utf8(v + rest));
    assert(try_entry(rb, lb, e) == Some(encode_utf8(v + rest)));
    lemma_step_from_skip(rb, es, 0, i);
    let rb2 = encode_utf8(v + rest);
    assert(step_from(rb, es, 0) == Some(rb2));
    // Nothing is left to expand.
    assert(no_percent(v + rest)) by {
        assert forall|k: int| 0 <= k < (v + rest).len() implies #[trigger] (v + rest)[k] != '%' by {
            if k < v.len() {
                assert((v + rest)[k] == v[k]);
            } else {
                assert((v + rest)[k] == rest[k - v.len()]);
            }
        }
    }
    lemma_encode_no_percent(v + rest);
    encode_utf8_valid_utf8(v + rest);
    assert forall|k: int| 0 <= k < es.len() implies (#[trigger] es[k]).wf() by {}
    if step_from(rb2, es, 0) is Some {
        lemma_step_shrinks(rb2, es, 0);
    }
    assert(rb[0] == 0x25u8);
    assert(count_byte(rb, 0x25) >= 1);
    let f = count_byte(rb, 0x25) + 1;
    assert(expand_rounds(rb, es, f) == expand_rounds(rb2, es, (f - 1) as nat));
    assert(expand_rounds(rb2, es, (f - 1) as nat) == rb2);
}

proof fn lemma_best_from_matches(np: Seq<char>, es: Seq<SRoot>, i: int, cur: Option<(int, nat)>)
    requires
        0 <= i,
        cur matches Some(c) ==> 0 <= c.0 < es.len() && es[c.0].value is Some && prefix_matches(
            np,
            spec_normalize(es[c.0].value.unwrap()),
        ),
    ensures
        best_from(np, es, i, cur) matches Some(b) ==> 0 <= b < es.len() && es[b].value is Some
            && prefix_matches(np, spec_normalize(es[b].value.unwrap())),
    decreases es.len() - i,
{
    if i < es.len() {
        let next = match es[i].value {
            Some(v) => {
                let pre = spec_normalize(v);
                if prefix_matches(np, pre) {
                    let l = encode_utf8(pre).len();
                    match cur {
                        None => Some((i, l)),
                        Some(c) => if l > c.1 { Some((i, l)) } else { cur },
                    }
                } else {
                    cur
                }
            },
            None => cur,
        };
        lemma_best_from_matches(np, es, i + 1, next);
    }
}

proof fn lemma_trim_prefix(s: Seq<char>)
    ensures
        trim_trailing_backslashes(s).len() <= s.len(),
        s.take(trim_trailing_backslashes(s).len() as int) == trim_trailing_backslashes(s),
        trim_unless_short(s).len() <= s.len(),
        s.take(trim_unless_short(s).len() as int) == trim_unless_short(s),
    decreases s.len(),
{
    if s.len() > 0 && s.last() == '\\' {
        lemma_trim_prefix(s.drop_last());
        let t = trim_trailing_backslashes(s.drop_last());
        assert(s.take(t.len() as int) =~= s.drop_last().take(t.len() as int));
    } else {
        assert(s.take(s.len() as int) =~= s);
    }
}

/// The root that contracting `path` uses, if any.
pub open spec fn contract_root(path: Seq<char>, es: Seq<SRoot>) -> Option<int> {
    best_from(spec_normalize(path), es, 0, None)
}

/// When `path` goes through `contract` and back through `expand` unchanged up
/// to ASCII case: it is ASCII without `%` and lies at or below the value `v` of
/// the root it is contracted with; `v` is ASCII and holds no `/`, no `%` and no
/// trailing `\`; the path holds no `/` where it runs along `v`, and is not `v`
/// with separators added at its end; and `lowercase` acts character by
/// character on the texts it is applied to along the way (`to_lowercase` shows
/// this of any ASCII text handed to it).
pub open spec fn round_trip_ok(path: Seq<char>, es: Seq<SRoot>) -> bool {
    match contract_root(path, es) {
        None => false,
        Some(i) => {
            let v = es[i].value.unwrap();
            &&& is_ascii_chars(path)
            &&& no_percent(path)
            &&& is_ascii_chars(v)
            &&& no_percent(v)
            &&& forall|j: int| 0 <= j < v.len() ==> #[trigger] v[j] != '/'
            &&& !(v.len() > 0 && v.last() == '\\')
            &&& forall|j: int| 0 <= j < v.len() && j < path.len() ==> #[trigger] path[j] != '/'
            &&& (spec_normalize(path) == spec_normalize(v) ==> path.len() == v.len())
            &&& lowers_per_char(slash_to_backslash(path))
            &&& lowers_per_char(v)
            &&& lowers_per_char(spec_contract(path, es))
        },
    }
}

/// A path contracted to its portable form and expanded again is the same path
/// up to ASCII case (so a folder goes back to the place it came from).
pub proof fn lemma_contract_expand_round_trip(path: Seq<char>, roots: PathRoots)
    requires
        roots.wf(),
        roots.tokens_ok(),
        round_trip_ok(path, roots.sview()),
    ensures
        ({
            let e = decode_utf8(spec_expand(encode_utf8(spec_contract(path, roots.sview())), roots.sview()));
            &&& lower_ascii_seq(e) == lower_ascii_seq(path)
            &&& (lowers_per_char(path) && lowers_per_char(e) ==> lowercase(e) == lowercase(path))
        }),
{
    let es = roots.sview();
    let np = spec_normalize(path);
    lemma_best_from_matches(np, es, 0, None);
    let i = contract_root(path, es).unwrap();
    let v = es[i].value.unwrap();
    let tok = es[i].token;
    let lv = lower_ascii_seq(v);
    lemma_lower_seq_ascii(v);
    lemma_lower_seq_ascii(path);
    // The normalised value is the value in lowercase.
    assert(slash_to_backslash(v) =~= v);
    if v.len() > 0 {
        lemma_lower_ascii_char(v.last());
        assert(lv.last() == crate::config::lower_ascii(v.last()));
    }
    assert(trim_trailing_backslashes(lv) == lv);
    let pre = spec_normalize(v);
    assert(pre == lv);
    is_ascii_chars_encode_utf8(lv);
    let n = v.len() as int;
    let lbp = lower_ascii_seq(slash_to_backslash(path));
    assert(np == trim_unless_short(lbp));
    lemma_trim_prefix(lbp);
    assert(lbp.len() == path.len());
    let c = spec_contract(path, es);
    if np == pre {
        assert(path.len() == n);
        assert(lbp =~= np) by {
            assert(lbp.take(np.len() as int) == np);
        }
        assert(lower_ascii_seq(path) =~= lv) by {
            assert forall|k: int| 0 <= k < n implies #[trigger] lower_ascii_seq(path)[k] == lv[k] by {
                assert(path[k] != '/');
                assert(lbp[k] == crate::config::lower_ascii(slash_to_backslash(path)[k]));
            }
        }
        assert(c == tok);
        assert(tok + Seq::<char>::empty() =~= tok);
        assert(v + Seq::<char>::empty() =~= v);
        lemma_expand_token_rest(roots, i, Seq::empty());
    } else {
        assert(starts_with(np, pre.push('\\')));
        assert(np.len() > n);
        assert(np.take(n) =~= pre) by {
            assert(np.take(n + 1) == pre.push('\\'));
        }
        assert(lower_ascii_seq(path.take(n)) =~= lv) by {
            assert forall|k: int| 0 <= k < n implies #[trigger] lower_ascii_seq(path.take(n))[k] == lv[k] by {
                assert(path[k] != '/');
                assert(np[k] == lbp.take(np.len() as int)[k]);
                assert(lbp[k] == crate::config::lower_ascii(slash_to_backslash(path)[k]));
                assert(np.take(n)[k] == pre[k]);
            }
        }
        let pb = encode_utf8(path);
        is_ascii_chars_encode_utf8(path);
        let rest = path.skip(n);
        assert(path =~= path.take(n) + rest);
        lemma_encode_concat(path.take(n), rest);
        assert(is_ascii_chars(path.take(n)));
        assert(is_ascii_chars(rest));
        is_ascii_chars_encode_utf8(path.take(n));
        assert(encode_utf8(pre).len() == n);
        assert(pb.skip(n) =~= encode_utf8(rest));
        encode_utf8_valid_utf8(path);
        is_char_boundary_iff_not_is_continuation_byte(pb, n);
        assert(pb[n] == path[n] as u8);
        assert(is_char_boundary(pb, n));
        assert(decode_utf8(encode_utf8(rest)) == rest);
        assert(c == tok + rest);
        assert(no_percent(rest)) by {
            assert forall|k: int| 0 <= k < rest.len() implies #[trigger] rest[k] != '%' by {
                assert(rest[k] == path[k + n]);
            }
        }
        lemma_expand_token_rest(roots, i, rest);
        lemma_lower_seq_concat(v, rest);
        lemma_lower_seq_concat(path.take(n), rest);
    }
    let e = decode_utf8(spec_expand(encode_utf8(c), es));
    assert(lower_ascii_seq(e) == lower_ascii_seq(path));
}

} // verus!

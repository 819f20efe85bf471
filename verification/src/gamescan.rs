//! Game-save detection: which path shapes look like save locations, the level at
//! which a numbered save tree is protected, how scan candidates are filtered, and
//! the library list of a Steam `libraryfolders.vdf`.
use vstd::prelude::*;
use vstd::utf8::is_ascii_chars;
use crate::text::{lowercase, lower_ascii_seq, to_lowercase, chars_of, string_of, all_digits, is_digit};
use crate::winpath::{
    pieces, first_sep, find_sep, lemma_first_sep_bound, lemma_pieces_step, sub_chars, PrefixKind, SComp, Comp,
    SPath, spec_parse, spec_rebuild, parse_path, rebuild, comps_view, is_verbatim_kind, comp_text,
};
use crate::pathutil::{eq_chars, starts_with, slash_to_backslash, trim_trailing_backslashes};

verus! {

// ==================== SEGMENTS ====================

/// The non-empty pieces among `ps`, each in lowercase.
pub open spec fn lower_nonempty(ps: Seq<Seq<char>>) -> Seq<Seq<char>>
    decreases ps.len(),
{
    if ps.len() == 0 {
        seq![]
    } else if ps[0].len() == 0 {
        lower_nonempty(ps.drop_first())
    } else {
        seq![lowercase(ps[0])] + lower_nonempty(ps.drop_first())
    }
}

/// The path's segments: split at `\` and `/`, empty pieces dropped, lowercased.
pub open spec fn spec_segments(p: Seq<char>) -> Seq<Seq<char>> {
    lower_nonempty(pieces(p, false))
}

proof fn lemma_lower_nonempty_cons(q: Seq<char>, rest: Seq<Seq<char>>)
    ensures
        lower_nonempty(seq![q] + rest) == (if q.len() == 0 {
            Seq::<Seq<char>>::empty()
        } else {
            seq![lowercase(q)]
        }) + lower_nonempty(rest),
{
    let ps = seq![q] + rest;
    assert(ps.drop_first() =~= rest);
    assert(ps[0] == q);
    if q.len() == 0 {
        assert(Seq::<Seq<char>>::empty() + lower_nonempty(rest) =~= lower_nonempty(rest));
    }
}

/// The lowercase segments of `path` (see `spec_segments`).
pub fn segments(path: &str) -> (r: Vec<String>)
    ensures
        r@.len() == spec_segments(path@).len(),
        forall|i: int| 0 <= i < r@.len() ==> (#[trigger] r@[i])@ == spec_segments(path@)[i],
        is_ascii_chars(path@) ==> spec_segments(path@) == lower_nonempty_ascii(pieces(path@, false)),
{
    let s = chars_of(path);
    let mut out: Vec<String> = Vec::new();
    let mut i: usize = 0;
    assert(s@.skip(0) =~= s@);
    assert(out@.map_values(|x: String| x@) =~= Seq::<Seq<char>>::empty());
    assert(Seq::<Seq<char>>::empty() + spec_segments(path@) =~= spec_segments(path@));
    assert(Seq::<Seq<char>>::empty() + lower_nonempty_ascii(pieces(path@, false)) =~= lower_nonempty_ascii(
        pieces(path@, false),
    ));
    loop
        invariant
            i <= s@.len(),
            s@ == path@,
            ({
                let done = out@.map_values(|x: String| x@);
                spec_segments(path@) == done + lower_nonempty(pieces(s@.skip(i as int), false))
            }),
            is_ascii_chars(path@) ==> ({
                let done = out@.map_values(|x: String| x@);
                lower_nonempty_ascii(pieces(path@, false)) == done + lower_nonempty_ascii(
                    pieces(s@.skip(i as int), false),
                )
            }),
        decreases s@.len() - i,
    {
        let ghost before = out@.map_values(|x: String| x@);
        let k = find_sep(s.as_slice(), i, false);
        proof {
            lemma_pieces_step(s@, i as int, false);
            lemma_first_sep_bound(s@.skip(i as int), false);
        }
        let q = sub_chars(s.as_slice(), i, k);
        assert(q@ =~= s@.skip(i as int).take(k - i));
        let ghost add = if q@.len() == 0 {
            Seq::<Seq<char>>::empty()
        } else {
            seq![lowercase(q@)]
        };
        if q.len() > 0 {
            let qs = string_of(&q);
            let low = to_lowercase(qs.as_str());
            proof {
                if is_ascii_chars(path@) {
                    assert forall|j: int| 0 <= j < q@.len() implies '\0' <= #[trigger] q@[j] <= '\u{7f}' by {
                        assert(q@[j] == s@[i + j]);
                    }
                }
            }
            out.push(low);
        }
        assert(out@.map_values(|x: String| x@) =~= before + add);
        if k >= s.len() {
            assert(s@.skip(i as int).take(k - i) =~= s@.skip(i as int));
            proof {
                lemma_lower_nonempty_cons(q@, seq![]);
                lemma_lower_nonempty_ascii_cons(q@, seq![]);
                assert(seq![q@] + Seq::<Seq<char>>::empty() =~= seq![q@]);
                assert(add + lower_nonempty(Seq::<Seq<char>>::empty()) =~= add);
                assert(add + lower_nonempty_ascii(Seq::<Seq<char>>::empty()) =~= add);
            }
            let ghost fin = out@.map_values(|x: String| x@);
            assert(spec_segments(path@) =~= fin);
            assert forall|j: int| 0 <= j < out@.len() implies (#[trigger] out@[j])@
                == spec_segments(path@)[j] by {
                assert(fin[j] == out@[j]@);
            }
            return out;
        }
        proof {
            lemma_lower_nonempty_cons(q@, pieces(s@.skip(k as int + 1), false));
            lemma_lower_nonempty_ascii_cons(q@, pieces(s@.skip(k as int + 1), false));
            assert(before + (add + lower_nonempty(pieces(s@.skip(k as int + 1), false))) =~= (before
                + add) + lower_nonempty(pieces(s@.skip(k as int + 1), false)));
            assert(before + (add + lower_nonempty_ascii(pieces(s@.skip(k as int + 1), false))) =~= (before
                + add) + lower_nonempty_ascii(pieces(s@.skip(k as int + 1), false)));
        }
        i = k + 1;
    }
}

// ==================== CLASSIFICATION ====================

/// A single segment that marks a save location.
pub open spec fn is_save_segment(s: Seq<char>) -> bool {
    ||| s == "save"@
    ||| s == "saves"@
    ||| s == "savedata"@
    ||| s == "savegame"@
    ||| s == "savegames"@
    ||| s == "savedgames"@
    ||| s == "saved games"@
    ||| s == "savesdir"@
    ||| s == "profiles"@
    ||| s == "remote"@
    ||| s == "wgs"@
    ||| s == "my games"@
}

pub open spec fn ends_with(s: Seq<char>, suf: Seq<char>) -> bool {
    suf.len() <= s.len() && s.skip(s.len() - suf.len()) == suf
}

/// Engine and store layouts recognised by their last segments.
pub open spec fn is_suffix_shape(joined: Seq<char>) -> bool {
    ||| ends_with(joined, "bmgame/savedata"@)
    ||| ends_with(joined, "game/saves"@)
    ||| ends_with(joined, "www/save"@)
    ||| ends_with(joined, "data/save"@)
}

/// Segments joined with `/`.
pub open spec fn join_slash(segs: Seq<Seq<char>>) -> Seq<char>
    decreases segs.len(),
{
    if segs.len() == 0 {
        seq![]
    } else if segs.len() == 1 {
        segs[0]
    } else {
        join_slash(segs.drop_last()) + seq!['/'] + segs.last()
    }
}

/// A non-empty segment made only of ASCII digits followed by a save segment.
pub open spec fn numbered_save_at(segs: Seq<Seq<char>>, i: int) -> bool {
    &&& 0 <= i
    &&& i + 1 < segs.len()
    &&& segs[i].len() > 0
    &&& all_digits(segs[i])
    &&& is_save_segment(segs[i + 1])
}

pub open spec fn has_save_segment(segs: Seq<Seq<char>>) -> bool {
    exists|i: int| 0 <= i < segs.len() && is_save_segment(#[trigger] segs[i])
}

pub open spec fn has_numbered_save(segs: Seq<Seq<char>>) -> bool {
    exists|i: int| #[trigger] numbered_save_at(segs, i)
}

/// A path looks like a game-save location when it has at least one segment and
/// one segment is a save name, or its segments end in a known engine layout, or a
/// numeric id is followed by a save segment. Case-insensitive, at any depth.
pub open spec fn spec_is_game_path(p: Seq<char>) -> bool {
    game_path_segments(spec_segments(p))
}

/// Whether lowercase segments mark a save location (see `spec_is_game_path`).
pub open spec fn game_path_segments(segs: Seq<Seq<char>>) -> bool {
    segs.len() > 0 && (has_save_segment(segs) || is_suffix_shape(join_slash(segs))
        || has_numbered_save(segs))
}

/// The non-empty pieces among `ps`, each in ASCII lowercase.
pub open spec fn lower_nonempty_ascii(ps: Seq<Seq<char>>) -> Seq<Seq<char>>
    decreases ps.len(),
{
    if ps.len() == 0 {
        seq![]
    } else if ps[0].len() == 0 {
        lower_nonempty_ascii(ps.drop_first())
    } else {
        seq![lower_ascii_seq(ps[0])] + lower_nonempty_ascii(ps.drop_first())
    }
}

/// `spec_is_game_path` with ASCII lowercase, which is what it is on ASCII paths.
pub open spec fn spec_is_game_path_ascii(p: Seq<char>) -> bool {
    game_path_segments(lower_nonempty_ascii(pieces(p, false)))
}

proof fn lemma_lower_nonempty_ascii_cons(q: Seq<char>, rest: Seq<Seq<char>>)
    ensures
        lower_nonempty_ascii(seq![q] + rest) == (if q.len() == 0 {
            Seq::<Seq<char>>::empty()
        } else {
            seq![lower_ascii_seq(q)]
        }) + lower_nonempty_ascii(rest),
{
    let ps = seq![q] + rest;
    assert(ps.drop_first() =~= rest);
    assert(ps[0] == q);
    if q.len() == 0 {
        assert(Seq::<Seq<char>>::empty() + lower_nonempty_ascii(rest) =~= lower_nonempty_ascii(rest));
    }
}

proof fn lemma_first_sep_lowered(s: Seq<char>)
    ensures
        first_sep(lower_ascii_seq(s), false) == first_sep(s, false),
    decreases s.len(),
{
    if s.len() > 0 {
        let t = lower_ascii_seq(s);
        assert(t[0] == crate::config::lower_ascii(s[0]));
        assert(t.drop_first() =~= lower_ascii_seq(s.drop_first()));
        lemma_first_sep_lowered(s.drop_first());
    }
}

proof fn lemma_pieces_lowered(s: Seq<char>)
    ensures
        pieces(lower_ascii_seq(s), false) == pieces(s, false).map_values(|q: Seq<char>| lower_ascii_seq(q)),
    decreases s.len(),
{
    let t = lower_ascii_seq(s);
    lemma_first_sep_lowered(s);
    lemma_first_sep_bound(s, false);
    let k = first_sep(s, false) as int;
    if k >= s.len() {
        assert(pieces(s, false).map_values(|q: Seq<char>| lower_ascii_seq(q)) =~= seq![t]);
    } else {
        assert(t.take(k) =~= lower_ascii_seq(s.take(k)));
        assert(t.skip(k + 1) =~= lower_ascii_seq(s.skip(k + 1)));
        lemma_pieces_lowered(s.skip(k + 1));
        assert(pieces(s, false).map_values(|q: Seq<char>| lower_ascii_seq(q)) =~= seq![lower_ascii_seq(s.take(k))]
            + pieces(s.skip(k + 1), false).map_values(|q: Seq<char>| lower_ascii_seq(q)));
    }
}

proof fn lemma_lower_nonempty_ascii_lowered(ps: Seq<Seq<char>>)
    ensures
        lower_nonempty_ascii(ps.map_values(|q: Seq<char>| lower_ascii_seq(q))) == lower_nonempty_ascii(ps),
    decreases ps.len(),
{
    if ps.len() > 0 {
        let m = ps.map_values(|q: Seq<char>| lower_ascii_seq(q));
        assert(m.drop_first() =~= ps.drop_first().map_values(|q: Seq<char>| lower_ascii_seq(q)));
        lemma_lower_nonempty_ascii_lowered(ps.drop_first());
        assert(m[0] == lower_ascii_seq(ps[0]));
        assert(lower_ascii_seq(lower_ascii_seq(ps[0])) =~= lower_ascii_seq(ps[0]));
    }
}

/// The save names: a name in this list marks a save location.
proof fn lemma_listed_save_names(w: Seq<char>)
    requires
        w == "save"@ || w == "saves"@ || w == "savedata"@ || w == "savegame"@ || w == "savegames"@
            || w == "savedgames"@ || w == "saved games"@ || w == "savesdir"@ || w == "profiles"@
            || w == "remote"@ || w == "wgs"@ || w == "my games"@,
    ensures
        is_save_segment(w),
{
}

/// A path one of whose non-empty `\`- or `/`-separated pieces, lowercased, is
/// save, saves, savedata, savegame, savegames, savedgames, saved games,
/// savesdir, profiles, remote, wgs or my games is a game path, at any depth.
pub proof fn lemma_named_save_piece_is_game_path(p: Seq<char>, i: int)
    requires
        0 <= i < pieces(p, false).len(),
        pieces(p, false)[i].len() > 0,
        ({
            let w = lowercase(pieces(p, false)[i]);
            w == "save"@ || w == "saves"@ || w == "savedata"@ || w == "savegame"@ || w == "savegames"@
                || w == "savedgames"@ || w == "saved games"@ || w == "savesdir"@ || w == "profiles"@
                || w == "remote"@ || w == "wgs"@ || w == "my games"@
        }),
    ensures
        spec_is_game_path(p),
{
    lemma_listed_save_names(lowercase(pieces(p, false)[i]));
    lemma_save_piece_marks_game_path(p, i);
}

/// On ASCII paths: a path one of whose non-empty `\`- or `/`-separated pieces,
/// in ASCII lowercase, is one of the save names above is a game path.
pub proof fn lemma_named_save_piece_is_game_path_ascii(p: Seq<char>, i: int)
    requires
        0 <= i < pieces(p, false).len(),
        pieces(p, false)[i].len() > 0,
        ({
            let w = lower_ascii_seq(pieces(p, false)[i]);
            w == "save"@ || w == "saves"@ || w == "savedata"@ || w == "savegame"@ || w == "savegames"@
                || w == "savedgames"@ || w == "saved games"@ || w == "savesdir"@ || w == "profiles"@
                || w == "remote"@ || w == "wgs"@ || w == "my games"@
        }),
    ensures
        spec_is_game_path_ascii(p),
{
    let ps = pieces(p, false);
    lemma_listed_save_names(lower_ascii_seq(ps[i]));
    lemma_lower_nonempty_ascii_has(ps, i);
}

proof fn lemma_lower_nonempty_ascii_has(ps: Seq<Seq<char>>, i: int)
    requires
        0 <= i < ps.len(),
        ps[i].len() > 0,
    ensures
        exists|j: int|
            0 <= j < lower_nonempty_ascii(ps).len() && #[trigger] lower_nonempty_ascii(ps)[j] == lower_ascii_seq(ps[i]),
    decreases ps.len(),
{
    let rest = lower_nonempty_ascii(ps.drop_first());
    if i == 0 {
        assert(lower_nonempty_ascii(ps)[0] == lower_ascii_seq(ps[0]));
    } else {
        lemma_lower_nonempty_ascii_has(ps.drop_first(), i - 1);
        let j = choose|j: int| 0 <= j < rest.len() && #[trigger] rest[j] == lower_ascii_seq(ps.drop_first()[i - 1]);
        if ps[0].len() == 0 {
            assert(lower_nonempty_ascii(ps)[j] == lower_ascii_seq(ps[i]));
        } else {
            assert(lower_nonempty_ascii(ps)[j + 1] == lower_ascii_seq(ps[i]));
        }
    }
}

/// ASCII case does not matter: two paths that are equal up to ASCII case look
/// alike as save locations (on ASCII paths this is `is_game_path`'s answer).
pub proof fn lemma_game_path_ascii_case(p: Seq<char>, q: Seq<char>)
    requires
        lower_ascii_seq(p) == lower_ascii_seq(q),
    ensures
        spec_is_game_path_ascii(p) == spec_is_game_path_ascii(q),
{
    lemma_pieces_lowered(p);
    lemma_pieces_lowered(q);
    lemma_lower_nonempty_ascii_lowered(pieces(p, false));
    lemma_lower_nonempty_ascii_lowered(pieces(q, false));
}

/// `p` with every `\` written as `/`.
pub open spec fn forward_slashed(p: Seq<char>) -> Seq<char> {
    p.map_values(|c: char| if c == '\\' { '/' } else { c })
}

proof fn lemma_first_sep_slashed(s: Seq<char>)
    ensures
        first_sep(forward_slashed(s), false) == first_sep(s, false),
    decreases s.len(),
{
    if s.len() > 0 {
        let t = forward_slashed(s);
        assert(t[0] == (if s[0] == '\\' { '/' } else { s[0] }));
        assert(t.drop_first() =~= forward_slashed(s.drop_first()));
        lemma_first_sep_slashed(s.drop_first());
    }
}

proof fn lemma_pieces_slashed(s: Seq<char>)
    ensures
        pieces(forward_slashed(s), false) == pieces(s, false),
    decreases s.len(),
{
    let t = forward_slashed(s);
    lemma_first_sep_slashed(s);
    lemma_first_sep_bound(s, false);
    let k = first_sep(s, false) as int;
    if k >= s.len() {
        assert forall|j: int| 0 <= j < s.len() implies t[j] == s[j] by {
            assert(!crate::winpath::is_sep(s[j], false));
        }
        assert(t =~= s);
    } else {
        assert forall|j: int| 0 <= j < k implies t.take(k)[j] == s.take(k)[j] by {
            assert(!crate::winpath::is_sep(s[j], false));
        }
        assert(t.take(k) =~= s.take(k));
        assert(t.skip(k + 1) =~= forward_slashed(s.skip(k + 1)));
        lemma_pieces_slashed(s.skip(k + 1));
    }
}

/// Slash style does not matter: writing every `\` of a path as `/` leaves the
/// answer of `is_game_path` unchanged.
pub proof fn lemma_game_path_slash_style(p: Seq<char>)
    ensures
        spec_is_game_path(forward_slashed(p)) == spec_is_game_path(p),
{
    lemma_pieces_slashed(p);
}

proof fn lemma_lower_nonempty_has(ps: Seq<Seq<char>>, i: int)
    requires
        0 <= i < ps.len(),
        ps[i].len() > 0,
    ensures
        exists|j: int| 0 <= j < lower_nonempty(ps).len() && #[trigger] lower_nonempty(ps)[j] == lowercase(ps[i]),
    decreases ps.len(),
{
    let rest = lower_nonempty(ps.drop_first());
    if i == 0 {
        assert(lower_nonempty(ps)[0] == lowercase(ps[0]));
    } else {
        lemma_lower_nonempty_has(ps.drop_first(), i - 1);
        let j = choose|j: int| 0 <= j < rest.len() && #[trigger] rest[j] == lowercase(ps.drop_first()[i - 1]);
        if ps[0].len() == 0 {
            assert(lower_nonempty(ps)[j] == lowercase(ps[i]));
        } else {
            assert(lower_nonempty(ps)[j + 1] == lowercase(ps[i]));
        }
    }
}

/// Depth does not matter: a path one of whose non-empty `\`- or `/`-separated
/// pieces is, lowercased, a save name looks like a save location.
pub proof fn lemma_save_piece_marks_game_path(p: Seq<char>, i: int)
    requires
        0 <= i < pieces(p, false).len(),
        pieces(p, false)[i].len() > 0,
        is_save_segment(lowercase(pieces(p, false)[i])),
    ensures
        spec_is_game_path(p),
{
    lemma_lower_nonempty_has(pieces(p, false), i);
    let segs = spec_segments(p);
    let j = choose|j: int| 0 <= j < segs.len() && #[trigger] segs[j] == lowercase(pieces(p, false)[i]);
    assert(is_save_segment(segs[j]));
}

fn eq_lit(a: &Vec<char>, lit: &str) -> (r: bool)
    ensures
        r == (a@ == lit@),
{
    let b = chars_of(lit);
    eq_chars(a, &b)
}

fn is_save_segment_exec(s: &Vec<char>) -> (r: bool)
    ensures
        r == is_save_segment(s@),
{
    eq_lit(s, "save") || eq_lit(s, "saves") || eq_lit(s, "savedata") || eq_lit(s, "savegame")
        || eq_lit(s, "savegames") || eq_lit(s, "savedgames") || eq_lit(s, "saved games") || eq_lit(
        s,
        "savesdir",
    ) || eq_lit(s, "profiles") || eq_lit(s, "remote") || eq_lit(s, "wgs") || eq_lit(s, "my games")
}

fn ends_with_lit(s: &Vec<char>, lit: &str) -> (r: bool)
    ensures
        r == ends_with(s@, lit@),
{
    let suf = chars_of(lit);
    if suf.len() > s.len() {
        return false;
    }
    let off = s.len() - suf.len();
    let mut k: usize = 0;
    while k < suf.len()
        invariant
            k <= suf@.len(),
            suf@ == lit@,
            s@.len() <= usize::MAX,
            off + suf@.len() == s@.len(),
            forall|j: int| 0 <= j < k ==> s@[off + j] == suf@[j],
        decreases suf@.len() - k,
    {
        assert(off + k < s@.len());
        if s[off + k] != suf[k] {
            assert(s@.skip(off as int)[k as int] != suf@[k as int]);
            return false;
        }
        k = k + 1;
    }
    assert(s@.skip(off as int) =~= suf@);
    true
}

fn all_digits_exec(s: &Vec<char>) -> (r: bool)
    ensures
        r == all_digits(s@),
{
    let mut k: usize = 0;
    while k < s.len()
        invariant
            k <= s@.len(),
            forall|j: int| 0 <= j < k ==> is_digit(#[trigger] s@[j]),
        decreases s@.len() - k,
    {
        if !('0' <= s[k] && s[k] <= '9') {
            return false;
        }
        k = k + 1;
    }
    true
}

/// Whether `path` looks like a game-save location (see `spec_is_game_path`).
/// Looks at the text only, never at the disk.
pub fn is_game_path(path: &str) -> (r: bool)
    ensures
        r == spec_is_game_path(path@),
        is_ascii_chars(path@) ==> r == spec_is_game_path_ascii(path@),
{
    let segs = segments(path);
    proof {
        if is_ascii_chars(path@) {
            assert(spec_is_game_path(path@) == spec_is_game_path_ascii(path@));
        }
    }
    let ghost sv = spec_segments(path@);
    if segs.len() == 0 {
        return false;
    }
    let mut cs: Vec<Vec<char>> = Vec::new();
    let mut i: usize = 0;
    while i < segs.len()
        invariant
            is_ascii_chars(path@) ==> spec_is_game_path(path@) == spec_is_game_path_ascii(path@),
            i <= segs@.len(),
            sv == spec_segments(path@),
            segs@.len() == sv.len(),
            forall|j: int| 0 <= j < segs@.len() ==> (#[trigger] segs@[j])@ == sv[j],
            cs@.len() == i,
            forall|j: int| 0 <= j < i ==> (#[trigger] cs@[j])@ == sv[j],
            forall|j: int| 0 <= j < i ==> !is_save_segment(#[trigger] sv[j]),
        decreases segs@.len() - i,
    {
        let c = chars_of(segs[i].as_str());
        assert(c@ == sv[i as int]);
        if is_save_segment_exec(&c) {
            assert(is_save_segment(sv[i as int]));
            return true;
        }
        cs.push(c);
        i = i + 1;
    }
    let mut joined: Vec<char> = Vec::new();
    let mut j: usize = 0;
    while j < cs.len()
        invariant
            is_ascii_chars(path@) ==> spec_is_game_path(path@) == spec_is_game_path_ascii(path@),
            j <= cs@.len(),
            cs@.len() == sv.len(),
            forall|t: int| 0 <= t < cs@.len() ==> (#[trigger] cs@[t])@ == sv[t],
            joined@ == join_slash(sv.take(j as int)),
        decreases cs@.len() - j,
    {
        let ghost prev = joined@;
        if j > 0 {
            joined.push('/');
        }
        let mut q: usize = 0;
        let ghost mid = joined@;
        while q < cs[j].len()
            invariant
            is_ascii_chars(path@) ==> spec_is_game_path(path@) == spec_is_game_path_ascii(path@),
                j < cs@.len(),
                q <= cs@[j as int]@.len(),
                joined@ == mid + cs@[j as int]@.take(q as int),
            decreases cs@[j as int]@.len() - q,
        {
            assert(cs@[j as int]@.take(q as int + 1) =~= cs@[j as int]@.take(q as int).push(
                cs@[j as int]@[q as int],
            ));
            joined.push(cs[j][q]);
            q = q + 1;
        }
        assert(cs@[j as int]@.take(cs@[j as int]@.len() as int) =~= cs@[j as int]@);
        let ghost nt = sv.take(j as int + 1);
        assert(nt.drop_last() =~= sv.take(j as int));
        assert(nt.last() == sv[j as int]);
        if j == 0 {
            assert(joined@ =~= join_slash(nt));
        } else {
            assert(joined@ =~= join_slash(nt));
        }
        j = j + 1;
    }
    assert(sv.take(sv.len() as int) =~= sv);
    if ends_with_lit(&joined, "bmgame/savedata") || ends_with_lit(&joined, "game/saves")
        || ends_with_lit(&joined, "www/save") || ends_with_lit(&joined, "data/save") {
        return true;
    }
    let mut w: usize = 0;
    while w < cs.len() - 1
        invariant
            is_ascii_chars(path@) ==> spec_is_game_path(path@) == spec_is_game_path_ascii(path@),
            cs@.len() > 0,
            cs@.len() == sv.len(),
            forall|t: int| 0 <= t < cs@.len() ==> (#[trigger] cs@[t])@ == sv[t],
            forall|t: int| 0 <= t < sv.len() ==> !is_save_segment(#[trigger] sv[t]),
            forall|t: int| 0 <= t < w ==> !#[trigger] numbered_save_at(sv, t),
        decreases cs@.len() - w,
    {
        assert(!is_save_segment(sv[w as int + 1]));
        w = w + 1;
    }
    assert forall|t: int| !#[trigger] numbered_save_at(sv, t) by {
        if 0 <= t && t + 1 < sv.len() {
            assert(!is_save_segment(sv[t + 1]));
        }
    }
    false
}


// ==================== PROTECTION LEVEL ====================

/// A normal component made only of ASCII digits (a numeric save id).
pub open spec fn is_numeric_comp(c: SComp) -> bool {
    match c {
        SComp::Normal(n) => n.len() > 0 && all_digits(n),
        _ => false,
    }
}

/// Index of the first numeric component at or after `i`.
pub open spec fn first_numeric_from(cs: Seq<SComp>, i: int) -> Option<int>
    decreases cs.len() - i,
{
    if i < 0 || i >= cs.len() {
        None
    } else if is_numeric_comp(cs[i]) {
        Some(i)
    } else {
        first_numeric_from(cs, i + 1)
    }
}

/// The folder to protect for a save path: the parent of its topmost numeric
/// component (so renumbered id folders stay direct children of what is
/// protected), or the path unchanged when no component is numeric.
pub open spec fn spec_protection_level(p: Seq<char>) -> Seq<char> {
    let sp = spec_parse(p);
    match first_numeric_from(sp.comps, 0) {
        Some(k) => spec_rebuild(sp, k),
        None => p,
    }
}

fn is_numeric_comp_exec(c: &Comp) -> (r: bool)
    ensures
        r == is_numeric_comp(c@),
{
    match c {
        Comp::Normal(v) => v.len() > 0 && all_digits_exec(v),
        _ => false,
    }
}

proof fn lemma_no_numeric_before(cs: Seq<SComp>, i: int, k: int)
    requires
        0 <= i,
        first_numeric_from(cs, i) == Some(k),
    ensures
        i <= k < cs.len(),
        first_numeric_from(cs.take(k), i) is None,
    decreases cs.len() - i,
{
    if !is_numeric_comp(cs[i]) {
        lemma_no_numeric_before(cs, i + 1, k);
        assert(cs.take(k)[i] == cs[i]);
    }
}

/// Whether rebuilding the protection level keeps `p`'s components apart and its
/// prefix as it was: always, except for a path with a verbatim prefix in which a
/// kept component other than the last ends in `/` (it is joined to the next), or
/// whose prefix ends in an empty share name while components are kept (the first
/// is read as the share).
pub open spec fn protection_reparses(p: Seq<char>) -> bool {
    match first_numeric_from(spec_parse(p).comps, 0) {
        None => true,
        Some(k) => !is_verbatim_kind(spec_parse(p).kind) || ((forall|i: int|
            0 <= i < k - 1 ==> comp_text(#[trigger] spec_parse(p).comps[i]).last() != '/') && !(
        crate::reparse::empty_share(p) && k > 0)),
    }
}

/// The protection level keeps the path's prefix, its root and its leading
/// components (it is the path itself or one of its ancestors), and protecting
/// it again changes nothing.
pub proof fn lemma_protection_level_stable(p: Seq<char>)
    requires
        protection_reparses(p),
    ensures
        ({
            let r = spec_protection_level(p);
            let a = spec_parse(r);
            let b = spec_parse(p);
            &&& a.kind == b.kind
            &&& a.prefix == b.prefix
            &&& a.root == b.root
            &&& a.comps.len() <= b.comps.len()
            &&& a.comps == b.comps.take(a.comps.len() as int)
            &&& spec_protection_level(r) == r
        }),
{
    let sp = spec_parse(p);
    match first_numeric_from(sp.comps, 0) {
        None => {
            assert(sp.comps.take(sp.comps.len() as int) =~= sp.comps);
        },
        Some(k) => {
            lemma_no_numeric_before(sp.comps, 0, k);
            if is_verbatim_kind(sp.kind) {
                crate::reparse::lemma_reparse_rebuild_verbatim(p, k);
            } else {
                crate::reparse::lemma_reparse_rebuild(p, k);
            }
            assert(sp.comps.take(k).len() == k);
        },
    }
}

/// The protection level of a save path (see `spec_protection_level`).
pub fn protection_level(path: &str) -> (r: String)
    ensures
        r@ == spec_protection_level(path@),
{
    let cs = chars_of(path);
    let wp = parse_path(cs.as_slice());
    let ghost sc = spec_parse(path@).comps;
    let mut i: usize = 0;
    while i < wp.comps.len()
        invariant
            i <= wp.comps@.len(),
            cs@ == path@,
            sc == spec_parse(path@).comps,
            comps_view(wp.comps@) == sc,
            wp.kind == spec_parse(cs@).kind,
            cs@.take(wp.prefix_len as int) == spec_parse(cs@).prefix,
            wp.root == spec_parse(cs@).root,
            wp.prefix_len <= cs@.len(),
            first_numeric_from(sc, 0) == first_numeric_from(sc, i as int),
        decreases wp.comps@.len() - i,
    {
        assert(sc[i as int] == wp.comps@[i as int]@);
        if is_numeric_comp_exec(&wp.comps[i]) {
            let v = rebuild(cs.as_slice(), &wp, i);
            return string_of(&v);
        }
        i = i + 1;
    }
    string_of(&cs)
}

// ==================== PATH EQUALITY ====================

pub open spec fn upper_ascii(c: char) -> char {
    if 'a' <= c <= 'z' {
        ((c as u32) - 32) as char
    } else {
        c
    }
}

/// What identifies a prefix when paths are compared: the drive letter of a disk
/// prefix in upper case, and `/` read as `\` where it separates prefix parts.
pub open spec fn prefix_key(kind: PrefixKind, prefix: Seq<char>) -> Seq<char> {
    if kind == PrefixKind::Disk {
        prefix.update(0, upper_ascii(prefix[0]))
    } else if kind == PrefixKind::VerbatimDisk {
        prefix.update(4, upper_ascii(prefix[4]))
    } else if kind == PrefixKind::VerbatimUnc {
        prefix.update(7, '\\')
    } else if is_verbatim_kind(kind) {
        prefix
    } else {
        slash_to_backslash(prefix)
    }
}

/// Two paths are the same path (`Path`'s `==` on Windows): same prefix, same root,
/// same components.
pub open spec fn path_eq(a: Seq<char>, b: Seq<char>) -> bool {
    let pa = spec_parse(a);
    let pb = spec_parse(b);
    &&& pa.kind == pb.kind
    &&& prefix_key(pa.kind, pa.prefix) == prefix_key(pb.kind, pb.prefix)
    &&& pa.root == pb.root
    &&& pa.comps == pb.comps
}

pub fn upper_ascii_char(c: char) -> (r: char)
    ensures
        r == upper_ascii(c),
{
    if 'a' <= c && c <= 'z' {
        ((c as u32 - 32) as u8) as char
    } else {
        c
    }
}

fn prefix_key_exec(kind: PrefixKind, prefix: Vec<char>) -> (r: Vec<char>)
    requires
        kind == PrefixKind::Disk ==> prefix@.len() >= 1,
        kind == PrefixKind::VerbatimDisk ==> prefix@.len() >= 5,
        kind == PrefixKind::VerbatimUnc ==> prefix@.len() >= 8,
    ensures
        r@ == prefix_key(kind, prefix@),
{
    let mut p = prefix;
    if kind == PrefixKind::Disk {
        let c = upper_ascii_char(p[0]);
        p.set(0, c);
        p
    } else if kind == PrefixKind::VerbatimDisk {
        let c = upper_ascii_char(p[4]);
        p.set(4, c);
        p
    } else if kind == PrefixKind::VerbatimUnc {
        p.set(7, '\\');
        p
    } else if kind == PrefixKind::Verbatim {
        p
    } else {
        let ghost orig = p@;
        let mut i: usize = 0;
        while i < p.len()
            invariant
                i <= p@.len(),
                p@.len() == orig.len(),
                forall|j: int| 0 <= j < i ==> p@[j] == slash_to_backslash(orig)[j],
                forall|j: int| i <= j < p@.len() ==> p@[j] == orig[j],
            decreases p@.len() - i,
        {
            if p[i] == '/' {
                p.set(i, '\\');
            }
            i = i + 1;
        }
        assert(p@ =~= slash_to_backslash(orig));
        p
    }
}

fn comp_eq(a: &Comp, b: &Comp) -> (r: bool)
    ensures
        r == (a@ == b@),
{
    match (a, b) {
        (Comp::Cur, Comp::Cur) => true,
        (Comp::Parent, Comp::Parent) => true,
        (Comp::Normal(x), Comp::Normal(y)) => eq_chars(x, y),
        _ => false,
    }
}

/// Whether `a` and `b` name the same path (see `path_eq`).
pub fn same_path_components(a: &str, b: &str) -> (r: bool)
    ensures
        r == path_eq(a@, b@),
{
    let ac = chars_of(a);
    let bc = chars_of(b);
    let pa = parse_path(ac.as_slice());
    let pb = parse_path(bc.as_slice());
    proof {
        crate::winpath::lemma_prefix_len(a@);
        crate::winpath::lemma_prefix_len(b@);
    }
    if pa.kind != pb.kind || pa.root != pb.root || pa.comps.len() != pb.comps.len() {
        if pa.comps.len() != pb.comps.len() {
            assert(comps_view(pa.comps@).len() != comps_view(pb.comps@).len());
        }
        return false;
    }
    let xa = sub_chars(ac.as_slice(), 0, pa.prefix_len);
    let xb = sub_chars(bc.as_slice(), 0, pb.prefix_len);
    assert(xa@ =~= spec_parse(a@).prefix);
    assert(xb@ =~= spec_parse(b@).prefix);
    let ka = prefix_key_exec(pa.kind, xa);
    let kb = prefix_key_exec(pb.kind, xb);
    if !eq_chars(&ka, &kb) {
        return false;
    }
    let mut i: usize = 0;
    while i < pa.comps.len()
        invariant
            i <= pa.comps@.len(),
            pa.comps@.len() == pb.comps@.len(),
            comps_view(pa.comps@) == spec_parse(a@).comps,
            comps_view(pb.comps@) == spec_parse(b@).comps,
            forall|j: int| 0 <= j < i ==> comps_view(pa.comps@)[j] == comps_view(pb.comps@)[j],
        decreases pa.comps@.len() - i,
    {
        if !comp_eq(&pa.comps[i], &pb.comps[i]) {
            assert(comps_view(pa.comps@)[i as int] != comps_view(pb.comps@)[i as int]);
            return false;
        }
        i = i + 1;
    }
    assert(comps_view(pa.comps@) =~= comps_view(pb.comps@));
    true
}


// ==================== DISCOVERY ====================

/// A save location found by a scan.
pub struct FoundSave {
    /// The folder to offer for protection (at its protection level).
    pub protect: String,
    /// The save path that was spotted.
    pub found: String,
    /// Why it was offered.
    pub reason: String,
}

/// Comparison form used for overlap: lowercase, `/` read as `\\`, no trailing `\\`.
pub open spec fn overlap_form(p: Seq<char>) -> Seq<char> {
    trim_trailing_backslashes(slash_to_backslash(lowercase(p)))
}

/// Two comparison forms are equal or one lies inside the other.
pub open spec fn nested(a: Seq<char>, b: Seq<char>) -> bool {
    a == b || starts_with(a, b.push('\\')) || starts_with(b, a.push('\\'))
}

pub open spec fn overlaps_existing(protect: Seq<char>, existing: Seq<String>) -> bool {
    exists|i: int|
        0 <= i < existing.len() && #[trigger] nested(overlap_form(protect), overlap_form(existing[i]@))
}

pub open spec fn already_offered(out: Seq<FoundSave>, protect: Seq<char>) -> bool {
    exists|i: int| 0 <= i < out.len() && #[trigger] path_eq(out[i].protect@, protect)
}

/// The offers so far are sound: each protects the protection level of what was
/// found, not empty and overlapping no folder already protected, and no two of
/// them protect the same path.
pub open spec fn offers_ok(out: Seq<FoundSave>, existing: Seq<String>) -> bool {
    &&& forall|i: int| 0 <= i < out.len() ==> {
        &&& (#[trigger] out[i]).protect@ == spec_protection_level(out[i].found@)
        &&& out[i].protect@.len() > 0
        &&& !overlaps_existing(out[i].protect@, existing)
    }
    &&& forall|i: int, j: int|
        0 <= i < j < out.len() ==> !path_eq(#[trigger] out[i].protect@, #[trigger] out[j].protect@)
}

/// A spotted save path is offered when its protection level is not empty, does not
/// overlap (equal, inside, or containing) a folder already protected, and is not
/// already among the results.
pub open spec fn offer_accepted(out: Seq<FoundSave>, existing: Seq<String>, found: Seq<char>) -> bool {
    let protect = spec_protection_level(found);
    &&& protect.len() > 0
    &&& !overlaps_existing(protect, existing)
    &&& !already_offered(out, protect)
}

fn overlap_form_exec(p: &str) -> (r: Vec<char>)
    ensures
        r@ == overlap_form(p@),
{
    let low = to_lowercase(p);
    let cs = chars_of(low.as_str());
    let mut v: Vec<char> = Vec::new();
    let mut i: usize = 0;
    while i < cs.len()
        invariant
            i <= cs@.len(),
            cs@ == lowercase(p@),
            v@ == slash_to_backslash(cs@).take(i as int),
        decreases cs@.len() - i,
    {
        v.push(if cs[i] == '/' { '\\' } else { cs[i] });
        assert(slash_to_backslash(cs@).take(i as int + 1) =~= slash_to_backslash(cs@).take(
            i as int,
        ).push(slash_to_backslash(cs@)[i as int]));
        i = i + 1;
    }
    assert(slash_to_backslash(cs@).take(cs@.len() as int) =~= slash_to_backslash(cs@));
    while v.len() > 0 && v[v.len() - 1] == '\\'
        invariant
            trim_trailing_backslashes(v@) == trim_trailing_backslashes(slash_to_backslash(cs@)),
        decreases v@.len(),
    {
        v.pop();
    }
    v
}

fn with_backslash(v: &Vec<char>) -> (r: Vec<char>)
    ensures
        r@ == v@.push('\\'),
{
    let mut r = v.clone();
    r.push('\\');
    r
}

fn nested_exec(a: &Vec<char>, b: &Vec<char>) -> (r: bool)
    ensures
        r == nested(a@, b@),
{
    eq_chars(a, b) || crate::pathutil::starts_with_chars(a, &with_backslash(b))
        || crate::pathutil::starts_with_chars(b, &with_backslash(a))
}

/// Adds a spotted save path to the scan results when `offer_accepted` holds, at
/// its protection level; otherwise leaves the results as they are.
pub fn offer_found_save(out: &mut Vec<FoundSave>, existing: &Vec<String>, found: &str, reason: &str)
    ensures
        offer_accepted(old(out)@, existing@, found@) ==> {
            &&& final(out)@.len() == old(out)@.len() + 1
            &&& final(out)@.take(old(out)@.len() as int) == old(out)@
            &&& final(out)@.last().protect@ == spec_protection_level(found@)
            &&& final(out)@.last().found@ == found@
            &&& final(out)@.last().reason@ == reason@
        },
        !offer_accepted(old(out)@, existing@, found@) ==> final(out)@ == old(out)@,
        offers_ok(old(out)@, existing@) ==> offers_ok(final(out)@, existing@),
{
    let protect = protection_level(found);
    if protect.as_str().as_bytes().len() == 0 {
        return;
    }
    assert(protect@.len() > 0);
    let pl = overlap_form_exec(protect.as_str());
    let mut i: usize = 0;
    while i < existing.len()
        invariant
            i <= existing@.len(),
            pl@ == overlap_form(protect@),
            protect@ == spec_protection_level(found@),
            protect@.len() > 0,
            out@ == old(out)@,
            forall|j: int| 0 <= j < i ==> !#[trigger] nested(pl@, overlap_form(existing@[j]@)),
        decreases existing@.len() - i,
    {
        let el = overlap_form_exec(existing[i].as_str());
        if nested_exec(&pl, &el) {
            assert(nested(overlap_form(protect@), overlap_form(existing@[i as int]@)));
            return;
        }
        i = i + 1;
    }
    let mut k: usize = 0;
    while k < out.len()
        invariant
            k <= out@.len(),
            protect@ == spec_protection_level(found@),
            protect@.len() > 0,
            out@ == old(out)@,
            pl@ == overlap_form(protect@),
            forall|j: int| 0 <= j < existing@.len() ==> !#[trigger] nested(pl@, overlap_form(existing@[j]@)),
            forall|j: int| 0 <= j < k ==> !#[trigger] path_eq(out@[j].protect@, protect@),
        decreases out@.len() - k,
    {
        if same_path_components(out[k].protect.as_str(), protect.as_str()) {
            assert(path_eq(out@[k as int].protect@, protect@));
            return;
        }
        k = k + 1;
    }
    let ghost before = out@;
    let f = string_of(&chars_of(found));
    let why = string_of(&chars_of(reason));
    out.push(FoundSave { protect, found: f, reason: why });
    assert(out@.take(before.len() as int) =~= before);
    proof {
        assert(!overlaps_existing(out@.last().protect@, existing@));
        if offers_ok(before, existing@) {
            assert forall|i: int, j: int| 0 <= i < j < out@.len() implies !path_eq(
                #[trigger] out@[i].protect@,
                #[trigger] out@[j].protect@,
            ) by {
                assert(out@[i] == before[i]);
                if j < before.len() {
                    assert(out@[j] == before[j]);
                }
            }
            assert forall|i: int| 0 <= i < out@.len() implies {
                &&& (#[trigger] out@[i]).protect@ == spec_protection_level(out@[i].found@)
                &&& out@[i].protect@.len() > 0
                &&& !overlaps_existing(out@[i].protect@, existing@)
            } by {
                if i < before.len() {
                    assert(out@[i] == before[i]);
                }
            }
        }
    }
}

/// At most this many scan results are offered.
pub const MAX_FOUND_SAVES: usize = 20;

/// Keeps the first `MAX_FOUND_SAVES` results.
pub fn cap_found_saves(out: &mut Vec<FoundSave>)
    ensures
        final(out)@ == if old(out)@.len() <= MAX_FOUND_SAVES {
            old(out)@
        } else {
            old(out)@.take(MAX_FOUND_SAVES as int)
        },
        final(out)@.len() <= MAX_FOUND_SAVES,
{
    out.truncate(MAX_FOUND_SAVES);
}

/// Keeping the first offers keeps them sound (see `offers_ok`).
pub proof fn lemma_offers_ok_prefix(out: Seq<FoundSave>, existing: Seq<String>, n: int)
    requires
        offers_ok(out, existing),
        0 <= n <= out.len(),
    ensures
        offers_ok(out.take(n), existing),
{
    let t = out.take(n);
    assert forall|i: int, j: int| 0 <= i < j < t.len() implies !path_eq(#[trigger] t[i].protect@, #[trigger] t[j].protect@) by {
        assert(t[i] == out[i]);
        assert(t[j] == out[j]);
    }
    assert forall|i: int| 0 <= i < t.len() implies {
        &&& (#[trigger] t[i]).protect@ == spec_protection_level(t[i].found@)
        &&& t[i].protect@.len() > 0
        &&& !overlaps_existing(t[i].protect@, existing)
    } by {
        assert(t[i] == out[i]);
    }
}

// ==================== SAVE FILES ====================

/// Index of the last `.` in `s`.
pub open spec fn last_dot(s: Seq<char>) -> Option<int>
    decreases s.len(),
{
    if s.len() == 0 {
        None
    } else if s.last() == '.' {
        Some(s.len() - 1)
    } else {
        last_dot(s.drop_last())
    }
}

/// The extension of a file name (`Path::extension`): the text after its last `.`,
/// unless the name is `..`, has no `.`, or its only `.` comes first.
pub open spec fn spec_extension(name: Seq<char>) -> Option<Seq<char>> {
    if name == seq!['.', '.'] {
        None
    } else {
        match last_dot(name) {
            Some(i) => if i == 0 { None } else { Some(name.skip(i + 1)) },
            None => None,
        }
    }
}

/// Extensions of save files (lowercase).
pub open spec fn is_save_extension(e: Seq<char>) -> bool {
    ||| e == "sav"@
    ||| e == "save"@
    ||| e == "rpgsave"@
    ||| e == "rvdata"@
    ||| e == "rvdata2"@
    ||| e == "bak"@
}

/// A file whose extension, in lowercase, is a save extension.
pub open spec fn spec_is_save_file(name: Seq<char>) -> bool {
    match spec_extension(name) {
        Some(e) => is_save_extension(lowercase(e)),
        None => false,
    }
}

proof fn lemma_last_dot(s: Seq<char>)
    ensures
        match last_dot(s) {
            Some(i) => 0 <= i < s.len() && s[i] == '.' && forall|j: int| i < j < s.len() ==> s[j] != '.',
            None => forall|j: int| 0 <= j < s.len() ==> s[j] != '.',
        },
    decreases s.len(),
{
    if s.len() > 0 && s.last() != '.' {
        lemma_last_dot(s.drop_last());
        let t = s.drop_last();
        match last_dot(t) {
            Some(i) => {
                assert(s[i] == t[i]);
                assert forall|j: int| i < j < s.len() implies s[j] != '.' by {
                    if j < t.len() {
                        assert(s[j] == t[j]);
                    }
                }
            },
            None => {
                assert forall|j: int| 0 <= j < s.len() implies s[j] != '.' by {
                    if j < t.len() {
                        assert(s[j] == t[j]);
                    }
                }
            },
        }
    }
}

/// The extension of a file name (see `spec_extension`).
pub fn extension_chars(cs: &Vec<char>) -> (r: Option<Vec<char>>)
    ensures
        match r {
            Some(e) => spec_extension(cs@) == Some(e@),
            None => spec_extension(cs@) is None,
        },
{
    if cs.len() == 2 && cs[0] == '.' && cs[1] == '.' {
        assert(cs@ =~= seq!['.', '.']);
        return None;
    }
    assert(cs@ != seq!['.', '.']);
    let mut i: usize = cs.len();
    while i > 0 && cs[i - 1] != '.'
        invariant
            i <= cs@.len(),
            forall|j: int| i <= j < cs@.len() ==> cs@[j] != '.',
        decreases i,
    {
        i = i - 1;
    }
    proof {
        lemma_last_dot(cs@);
        match last_dot(cs@) {
            Some(d) => {
                if i > 0 {
                    assert(d == i - 1);
                } else {
                    assert(false);
                }
            },
            None => {
                if i > 0 {
                    assert(cs@[i - 1] == '.');
                }
            },
        }
    }
    if i <= 1 {
        return None;
    }
    let ext = sub_chars(cs.as_slice(), i, cs.len());
    assert(ext@ =~= cs@.skip(i as int));
    Some(ext)
}

/// Whether a file name marks save data (see `spec_is_save_file`).
pub fn is_save_file(name: &str) -> (r: bool)
    ensures
        r == spec_is_save_file(name@),
{
    let cs = chars_of(name);
    match extension_chars(&cs) {
        Some(ext) => {
            let low = to_lowercase(string_of(&ext).as_str());
            is_save_extension_lower(low.as_str())
        },
        None => false,
    }
}

/// Whether an already lowercased extension is a save extension.
pub fn is_save_extension_lower(low: &str) -> (r: bool)
    ensures
        r == is_save_extension(low@),
{
    let lc = chars_of(low);
    eq_lit(&lc, "sav") || eq_lit(&lc, "save") || eq_lit(&lc, "rpgsave") || eq_lit(&lc, "rvdata")
        || eq_lit(&lc, "rvdata2") || eq_lit(&lc, "bak")
}

// ==================== SAVE-FILE SEARCH ====================

/// A save-file search looks into at most this many folders below the first.
pub const SAVE_SEARCH_MAX_VISITS: usize = 40;

/// A folder being examined: its path, its entries (name, and whether the entry is
/// a folder) and how many of them were examined.
pub struct SearchFrame {
    pub path: String,
    pub entries: Vec<(String, bool)>,
    pub next: usize,
}

/// What a search needs next.
pub enum SearchStep {
    /// Nothing from outside: step again.
    Continue,
    /// The listing of this folder, to be entered (`enter`) before the next step.
    List(String),
    /// The answer.
    Done(bool),
}

/// The depth-first search of `has_save_files`, one step at a time: a folder's
/// entries are examined in order; a subfolder whose lowercase name is on the
/// skip list is passed over, any other is searched in turn (unless the folders
/// entered already exceed the bound, when it counts as holding nothing); the
/// first file with a save extension answers yes; a finished search answers no.
pub struct SaveFileSearch {
    /// The folders being examined, the innermost last.
    pub frames: Vec<SearchFrame>,
    /// How many folders were entered.
    pub visited: usize,
}

/// `f` with one more entry examined.
pub open spec fn advanced(f: SearchFrame) -> SearchFrame {
    SearchFrame { path: f.path, entries: f.entries, next: (f.next + 1) as usize }
}

impl SaveFileSearch {
    pub open spec fn wf(&self) -> bool {
        &&& self.visited <= SAVE_SEARCH_MAX_VISITS + 1
        &&& forall|i: int| 0 <= i < self.frames@.len() ==> (#[trigger] self.frames@[i]).next <= self.frames@[i].entries@.len()
    }

    /// A search of `dir`: its listing is asked for first (`dir` counts as entered).
    pub fn start(dir: &str) -> (r: (SaveFileSearch, SearchStep))
        ensures
            r.0.wf(),
            r.0.frames@.len() == 0,
            r.0.visited == 1,
            r.1 matches SearchStep::List(p) && p@ == dir@,
    {
        (SaveFileSearch { frames: Vec::new(), visited: 1 }, SearchStep::List(string_of(&chars_of(dir))))
    }

    /// Enters the folder whose listing was asked for (`None`: it could not be read).
    pub fn enter(&mut self, path: String, listing: Option<Vec<(String, bool)>>)
        requires
            old(self).wf(),
        ensures
            final(self).wf(),
            final(self).visited == old(self).visited,
            final(self).frames@.drop_last() == old(self).frames@,
            final(self).frames@.len() == old(self).frames@.len() + 1,
            final(self).frames@.last().path@ == path@,
            final(self).frames@.last().next == 0,
            final(self).frames@.last().entries@ == match listing {
                Some(v) => v@,
                None => Seq::<(String, bool)>::empty(),
            },
            frames_v(final(self).frames@) == save_enter(frames_v(old(self).frames@), path@, listing),
    {
        let entries = match listing {
            Some(v) => v,
            None => Vec::new(),
        };
        let ghost old_frames = self.frames@;
        self.frames.push(SearchFrame { path, entries, next: 0 });
        assert(self.frames@.drop_last() =~= old_frames);
    }

    /// One step of the search (see `SaveFileSearch`).
    pub fn step(&mut self) -> (r: SearchStep)
        requires
            old(self).wf(),
        ensures
            final(self).wf(),
            ({
                let (f2, v2, p2) = save_step(frames_v(old(self).frames@), old(self).visited as int);
                frames_v(final(self).frames@) == f2 && final(self).visited as int == v2 && step_v(r) == p2
            }),
            old(self).frames@.len() == 0 ==> (r matches SearchStep::Done(b) && !b) && final(self).frames@
                == old(self).frames@ && final(self).visited == old(self).visited,
            old(self).frames@.len() > 0 ==> ({
                let top = old(self).frames@.last();
                if top.next == top.entries@.len() {
                    &&& r is Continue
                    &&& final(self).frames@ == old(self).frames@.drop_last()
                    &&& final(self).visited == old(self).visited
                } else {
                    let name = top.entries@[top.next as int].0@;
                    let is_dir = top.entries@[top.next as int].1;
                    &&& final(self).frames@ == old(self).frames@.drop_last().push(advanced(top))
                    &&& if is_dir {
                        if crate::sync::is_skip_dir(lowercase(lowercase(name)))
                            || old(self).visited > SAVE_SEARCH_MAX_VISITS {
                            r is Continue && final(self).visited == old(self).visited
                        } else {
                            (r matches SearchStep::List(p) && p@ == crate::winpath::spec_join(top.path@, name))
                                && final(self).visited == old(self).visited + 1
                        }
                    } else {
                        final(self).visited == old(self).visited && if spec_is_save_file(name) {
                            r matches SearchStep::Done(b) && b
                        } else {
                            r is Continue
                        }
                    }
                }
            }),
    {
        let n = self.frames.len();
        if n == 0 {
            return SearchStep::Done(false);
        }
        let ghost old_frames = self.frames@;
        let mut top = self.frames.pop().unwrap();
        assert(self.frames@ =~= old_frames.drop_last());
        assert(top == old_frames.last());
        if top.next == top.entries.len() {
            return SearchStep::Continue;
        }
        let k = top.next;
        let name = top.entries[k].0.clone();
        let is_dir = top.entries[k].1;
        let path = top.path.clone();
        top.next = k + 1;
        self.frames.push(top);
        assert forall|i: int| 0 <= i < self.frames@.len() implies (#[trigger] self.frames@[i]).next
            <= self.frames@[i].entries@.len() by {
            if i < self.frames@.len() - 1 {
                assert(self.frames@[i] == old_frames[i]);
            }
        }
        if is_dir {
            let low = to_lowercase(name.as_str());
            if crate::sync::should_skip(low.as_str()) || self.visited > SAVE_SEARCH_MAX_VISITS {
                return SearchStep::Continue;
            }
            self.visited = self.visited + 1;
            SearchStep::List(crate::config::join(path.as_str(), name.as_str()))
        } else if is_save_file(name.as_str()) {
            SearchStep::Done(true)
        } else {
            SearchStep::Continue
        }
    }
}

/// Entries not yet examined, plus one per folder still open: each step of a
/// search lowers it by one, unless it enters a folder.
pub open spec fn frames_left(fs: Seq<SearchFrame>) -> nat
    decreases fs.len(),
{
    if fs.len() == 0 {
        0
    } else {
        frames_left(fs.drop_last()) + (fs.last().entries@.len() - fs.last().next) as nat + 1
    }
}

/// A listing that `list` returned holds a file whose name marks save data.
pub open spec fn listed_save_file<F: Fn(&str) -> Option<Vec<(String, bool)>>>(list: F) -> bool {
    exists|p: &str, v: Vec<(String, bool)>, k: int|
        #![trigger call_ensures(list, (p,), Some(v)), v@[k]]
        call_ensures(list, (p,), Some(v)) && 0 <= k < v@.len() && !v@[k].1 && spec_is_save_file(v@[k].0@)
}

/// Every folder of the search was listed by `list` (or could not be read and
/// has no entries).
pub open spec fn frames_listed<F: Fn(&str) -> Option<Vec<(String, bool)>>>(list: F, fs: Seq<SearchFrame>) -> bool {
    forall|i: int|
        0 <= i < fs.len() ==> (#[trigger] fs[i]).entries@.len() == 0 || exists|p: &str, v: Vec<(String, bool)>|
            #[trigger] call_ensures(list, (p,), Some(v)) && v@ == fs[i].entries@
}

/// A `SearchFrame` as plain values.
pub struct FrameV {
    pub path: Seq<char>,
    pub entries: Seq<(String, bool)>,
    pub next: int,
}

pub open spec fn frame_v(f: SearchFrame) -> FrameV {
    FrameV { path: f.path@, entries: f.entries@, next: f.next as int }
}

pub open spec fn frames_v(fs: Seq<SearchFrame>) -> Seq<FrameV> {
    fs.map_values(|f: SearchFrame| frame_v(f))
}

/// A `SearchStep` as plain values.
pub enum StepV {
    Continue,
    List(Seq<char>),
    Done(bool),
}

pub open spec fn step_v(s: SearchStep) -> StepV {
    match s {
        SearchStep::Continue => StepV::Continue,
        SearchStep::List(p) => StepV::List(p@),
        SearchStep::Done(b) => StepV::Done(b),
    }
}

/// One step of the save-file search over plain values (see `SaveFileSearch::step`):
/// the folders after it, the folders entered, and what it asks.
pub open spec fn save_step(fs: Seq<FrameV>, visited: int) -> (Seq<FrameV>, int, StepV) {
    if fs.len() == 0 {
        (fs, visited, StepV::Done(false))
    } else {
        let top = fs.last();
        if top.next >= top.entries.len() {
            (fs.drop_last(), visited, StepV::Continue)
        } else {
            let name = top.entries[top.next].0@;
            let fs2 = fs.drop_last().push(FrameV { path: top.path, entries: top.entries, next: top.next + 1 });
            if top.entries[top.next].1 {
                if crate::sync::is_skip_dir(lowercase(lowercase(name))) || visited > SAVE_SEARCH_MAX_VISITS {
                    (fs2, visited, StepV::Continue)
                } else {
                    (fs2, visited + 1, StepV::List(crate::winpath::spec_join(top.path, name)))
                }
            } else if spec_is_save_file(name) {
                (fs2, visited, StepV::Done(true))
            } else {
                (fs2, visited, StepV::Continue)
            }
        }
    }
}

/// The folders after entering `path` with the listing `l` (see `SaveFileSearch::enter`).
pub open spec fn save_enter(fs: Seq<FrameV>, path: Seq<char>, l: Option<Vec<(String, bool)>>) -> Seq<FrameV> {
    fs.push(
        FrameV {
            path,
            entries: match l {
                Some(v) => v@,
                None => Seq::empty(),
            },
            next: 0,
        },
    )
}

/// A call of `list` on a path whose text is `p` returned `l`.
pub open spec fn listed_as<F: Fn(&str) -> Option<Vec<(String, bool)>>>(list: F, p: Seq<char>, l: Option<Vec<(String, bool)>>) -> bool {
    exists|s: &str| s@ == p && #[trigger] call_ensures(list, (s,), l)
}

/// The answer of the save-file search from a state (folders, folders entered,
/// what is asked) when the listings asked for are, in order, `answers`, each
/// one returned by `list` for the folder asked; `None` when the answers do not
/// fit the run or `fuel` steps do not reach the end.
pub open spec fn save_run<F: Fn(&str) -> Option<Vec<(String, bool)>>>(
    list: F,
    fs: Seq<FrameV>,
    visited: int,
    pending: StepV,
    answers: Seq<Option<Vec<(String, bool)>>>,
    fuel: nat,
) -> Option<bool>
    decreases fuel,
{
    if fuel == 0 {
        None
    } else {
        match pending {
            StepV::Done(b) => if answers.len() == 0 {
                Some(b)
            } else {
                None
            },
            StepV::Continue => {
                let (f2, v2, p2) = save_step(fs, visited);
                save_run(list, f2, v2, p2, answers, (fuel - 1) as nat)
            },
            StepV::List(p) => if answers.len() == 0 || !listed_as(list, p, answers[0]) {
                None
            } else {
                let (f2, v2, p2) = save_step(save_enter(fs, p, answers[0]), visited);
                save_run(list, f2, v2, p2, answers.drop_first(), (fuel - 1) as nat)
            },
        }
    }
}

/// The first folder's frame stays at the bottom of the search while a run goes
/// on, so a save file among its entries still to be examined makes the run
/// answer yes.
proof fn lemma_run_reaches_base_file<F: Fn(&str) -> Option<Vec<(String, bool)>>>(
    list: F,
    fs: Seq<FrameV>,
    v: int,
    pending: StepV,
    answers: Seq<Option<Vec<(String, bool)>>>,
    fuel: nat,
    j: int,
)
    requires
        fs.len() >= 1,
        0 <= fs[0].next <= j < fs[0].entries.len(),
        !fs[0].entries[j].1,
        spec_is_save_file(fs[0].entries[j].0@),
        pending != StepV::Done(false),
        save_run(list, fs, v, pending, answers, fuel) is Some,
    ensures
        save_run(list, fs, v, pending, answers, fuel) == Some(true),
    decreases fuel,
{
    match pending {
        StepV::Done(b) => {},
        StepV::Continue => {
            let (f2, v2, p2) = save_step(fs, v);
            if fs.len() == 1 && fs[0].next == j {
                assert(p2 == StepV::Done(true));
            } else {
                assert(f2.len() >= 1 && f2[0] == fs[0] || (fs.len() == 1 && f2[0].next == fs[0].next + 1
                    && f2[0].entries == fs[0].entries));
                lemma_run_reaches_base_file(list, f2, v2, p2, answers, (fuel - 1) as nat, j);
            }
        },
        StepV::List(p) => {
            let fe = save_enter(fs, p, answers[0]);
            let (f2, v2, p2) = save_step(fe, v);
            assert(fe[0] == fs[0]);
            assert(f2.len() >= 1 && f2[0] == fs[0]);
            lemma_run_reaches_base_file(list, f2, v2, p2, answers.drop_first(), (fuel - 1) as nat, j);
        },
    }
}

/// A run of the search from `dir` goes on from the first folder's frame.
proof fn lemma_run_from_first<F: Fn(&str) -> Option<Vec<(String, bool)>>>(
    list: F,
    dir: Seq<char>,
    answers: Seq<Option<Vec<(String, bool)>>>,
    fuel: nat,
)
    requires
        answers.len() > 0,
        fuel > 0,
        listed_as(list, dir, answers[0]),
    ensures
        save_run(list, Seq::empty(), 1, StepV::List(dir), answers, fuel) == save_run(
            list,
            save_enter(Seq::empty(), dir, answers[0]),
            1,
            StepV::Continue,
            answers.drop_first(),
            fuel,
        ),
{
}

/// When the listing of `dir` holds a file with a save extension, the search
/// answers yes (whatever the folders before it hold).
pub proof fn lemma_direct_save_file<F: Fn(&str) -> Option<Vec<(String, bool)>>>(
    list: F,
    dir: Seq<char>,
    answers: Seq<Option<Vec<(String, bool)>>>,
    fuel: nat,
    r: bool,
    k: int,
)
    requires
        save_run(list, Seq::empty(), 1, StepV::List(dir), answers, fuel) == Some(r),
        answers.len() > 0,
        answers[0] matches Some(v) && 0 <= k < v@.len() && !v@[k].1 && spec_is_save_file(v@[k].0@),
    ensures
        r,
{
    lemma_run_from_first(list, dir, answers, fuel);
    let fs = save_enter(Seq::empty(), dir, answers[0]);
    lemma_run_reaches_base_file(list, fs, 1, StepV::Continue, answers.drop_first(), fuel, k);
}

/// A folder that cannot be listed holds no save files.
pub proof fn lemma_unreadable_answers_no<F: Fn(&str) -> Option<Vec<(String, bool)>>>(
    list: F,
    dir: Seq<char>,
    answers: Seq<Option<Vec<(String, bool)>>>,
    fuel: nat,
    r: bool,
)
    requires
        save_run(list, Seq::empty(), 1, StepV::List(dir), answers, fuel) == Some(r),
        answers.len() > 0,
        answers[0] is None,
    ensures
        !r,
{
    lemma_run_from_first(list, dir, answers, fuel);
    let fs = save_enter(Seq::empty(), dir, answers[0]);
    let a1 = answers.drop_first();
    assert(save_step(fs, 1) == (Seq::<FrameV>::empty(), 1int, StepV::Continue));
    assert(save_step(Seq::<FrameV>::empty(), 1) == (Seq::<FrameV>::empty(), 1int, StepV::Done(false)));
    assert(save_run(list, fs, 1, StepV::Continue, a1, fuel) == save_run(
        list,
        Seq::<FrameV>::empty(),
        1,
        StepV::Continue,
        a1,
        (fuel - 1) as nat,
    ));
    assert(save_run(list, Seq::<FrameV>::empty(), 1, StepV::Continue, a1, (fuel - 1) as nat) == save_run(
        list,
        Seq::<FrameV>::empty(),
        1,
        StepV::Done(false),
        a1,
        (fuel - 2) as nat,
    ));
}

proof fn lemma_run_listing_bound<F: Fn(&str) -> Option<Vec<(String, bool)>>>(
    list: F,
    fs: Seq<FrameV>,
    v: int,
    pending: StepV,
    answers: Seq<Option<Vec<(String, bool)>>>,
    fuel: nat,
)
    requires
        v <= SAVE_SEARCH_MAX_VISITS + 1,
        save_run(list, fs, v, pending, answers, fuel) is Some,
    ensures
        answers.len() <= SAVE_SEARCH_MAX_VISITS + 1 - v + (if pending is List { 1int } else { 0int }),
    decreases fuel,
{
    match pending {
        StepV::Done(b) => {},
        StepV::Continue => {
            let (f2, v2, p2) = save_step(fs, v);
            lemma_run_listing_bound(list, f2, v2, p2, answers, (fuel - 1) as nat);
        },
        StepV::List(p) => {
            let (f2, v2, p2) = save_step(save_enter(fs, p, answers[0]), v);
            lemma_run_listing_bound(list, f2, v2, p2, answers.drop_first(), (fuel - 1) as nat);
        },
    }
}

/// A search lists at most 41 folders: the first and at most 40 below it.
pub proof fn lemma_listing_bound<F: Fn(&str) -> Option<Vec<(String, bool)>>>(
    list: F,
    dir: Seq<char>,
    answers: Seq<Option<Vec<(String, bool)>>>,
    fuel: nat,
)
    requires
        save_run(list, Seq::empty(), 1, StepV::List(dir), answers, fuel) is Some,
    ensures
        answers.len() <= SAVE_SEARCH_MAX_VISITS + 1,
{
    lemma_run_listing_bound(list, Seq::empty(), 1, StepV::List(dir), answers, fuel);
}

/// Whether the folder `dir` holds save files, searched as `SaveFileSearch`
/// describes, `list` giving the entries of a folder (name, and whether it is a
/// folder; `None` when it cannot be read). The answer is the outcome of that
/// search run on the listings `list` returned for the folders it asked about,
/// in order (`save_run`); a yes always rests on a file that a listing returned.
#[verifier::rlimit(40)]
pub fn has_save_files(dir: &str, list: impl Fn(&str) -> Option<Vec<(String, bool)>>) -> (r: bool)
    requires
        forall|s: &str| call_requires(list, (s,)),
    ensures
        exists|answers: Seq<Option<Vec<(String, bool)>>>, fuel: nat|
            #[trigger] save_run(list, Seq::empty(), 1, StepV::List(dir@), answers, fuel) == Some(r),
        r ==> listed_save_file(list),
{
    let (mut search, mut step) = SaveFileSearch::start(dir);
    let ghost mut hist: Seq<Option<Vec<(String, bool)>>> = Seq::empty();
    let ghost mut k: nat = 0;
    proof {
        assert(frames_v(search.frames@) =~= Seq::<FrameV>::empty());
        assert forall|fut: Seq<Option<Vec<(String, bool)>>>, f: nat|
            #![trigger save_run(list, frames_v(search.frames@), search.visited as int, step_v(step), fut, f)]
            save_run(list, Seq::empty(), 1, StepV::List(dir@), hist + fut, f + k) == save_run(
                list,
                frames_v(search.frames@),
                search.visited as int,
                step_v(step),
                fut,
                f,
            ) by {
            assert(hist + fut =~= fut);
        }
    }
    loop
        invariant
            forall|fut: Seq<Option<Vec<(String, bool)>>>, f: nat|
                #![trigger save_run(list, frames_v(search.frames@), search.visited as int, step_v(step), fut, f)]
                save_run(list, Seq::empty(), 1, StepV::List(dir@), hist + fut, f + k) == save_run(
                    list,
                    frames_v(search.frames@),
                    search.visited as int,
                    step_v(step),
                    fut,
                    f,
                ),
            search.wf(),
            forall|s: &str| call_requires(list, (s,)),
            frames_listed(list, search.frames@),
            step matches SearchStep::Done(b) ==> (b ==> listed_save_file(list)),
        decreases
            SAVE_SEARCH_MAX_VISITS + 2 - search.visited + (if step is List { 1int } else { 0int }),
            frames_left(search.frames@) + (if step is Done { 0int } else { 1int }),
    {
        let ghost fs0 = frames_v(search.frames@);
        let ghost v0 = search.visited as int;
        let ghost p0 = step_v(step);
        let ghost mut answered: Option<Option<Vec<(String, bool)>>> = None;
        match step {
            SearchStep::Done(b) => {
                proof {
                    assert(hist + Seq::<Option<Vec<(String, bool)>>>::empty() =~= hist);
                    assert(save_run(list, fs0, v0, p0, Seq::empty(), 1) == Some(b));
                    assert(save_run(list, Seq::empty(), 1, StepV::List(dir@), hist, 1 + k) == Some(b));
                }
                return b;
            },
            SearchStep::Continue => {},
            SearchStep::List(p) => {
                let ps = p.as_str();
                let l = list(ps);
                assert(call_ensures(list, (ps,), l));
                proof {
                    answered = Some(l);
                    assert(listed_as(list, p@, l));
                }
                let ghost before = search.frames@;
                search.enter(p, l);
                assert forall|i: int| 0 <= i < search.frames@.len() implies (#[trigger] search.frames@[i]).entries@.len()
                    == 0 || exists|q: &str, v: Vec<(String, bool)>|
                    #[trigger] call_ensures(list, (q,), Some(v)) && v@ == search.frames@[i].entries@ by {
                    if i < before.len() {
                        assert(search.frames@[i] == search.frames@.drop_last()[i]);
                    }
                }
            },
        }
        let ghost before = search.frames@;
        proof {
            lemma_frames_left_last(before);
        }
        step = search.step();
        proof {
            let fs1 = frames_v(search.frames@);
            let v1 = search.visited as int;
            let p1 = step_v(step);
            let hist1 = match answered {
                Some(a) => hist.push(a),
                None => hist,
            };
            assert forall|fut: Seq<Option<Vec<(String, bool)>>>, f: nat|
                #![trigger save_run(list, fs1, v1, p1, fut, f)]
                save_run(list, Seq::empty(), 1, StepV::List(dir@), hist1 + fut, f + (k + 1)) == save_run(
                    list,
                    fs1,
                    v1,
                    p1,
                    fut,
                    f,
                ) by {
                match answered {
                    Some(a) => {
                        let fut0 = seq![a] + fut;
                        assert(hist1 + fut =~= hist + fut0);
                        assert(fut0[0] == a);
                        assert(fut0.drop_first() =~= fut);
                        assert(save_run(list, Seq::empty(), 1, StepV::List(dir@), hist + fut0, (f + 1) + k)
                            == save_run(list, fs0, v0, p0, fut0, f + 1));
                    },
                    None => {
                        assert(save_run(list, Seq::empty(), 1, StepV::List(dir@), hist + fut, (f + 1) + k)
                            == save_run(list, fs0, v0, p0, fut, f + 1));
                    },
                }
            }
            hist = hist1;
            k = k + 1;
        }
        proof {
            if before.len() == 0 {
                assert(frames_left(search.frames@) == 0);
            } else {
                let top = before.last();
                assert(before[before.len() - 1] == top);
                if top.next == top.entries@.len() {
                    assert forall|i: int| 0 <= i < search.frames@.len() implies (#[trigger] search.frames@[i]).entries@.len()
                        == 0 || exists|q: &str, v: Vec<(String, bool)>|
                        #[trigger] call_ensures(list, (q,), Some(v)) && v@ == search.frames@[i].entries@ by {
                        assert(search.frames@[i] == before[i]);
                    }
                } else {
                    assert(top.entries.len() == top.entries@.len());
                    lemma_frames_left_last(search.frames@);
                    assert(search.frames@.drop_last() =~= before.drop_last());
                    assert(search.frames@.last() == advanced(top));
                    assert forall|i: int| 0 <= i < search.frames@.len() implies (#[trigger] search.frames@[i]).entries@.len()
                        == 0 || exists|q: &str, v: Vec<(String, bool)>|
                        #[trigger] call_ensures(list, (q,), Some(v)) && v@ == search.frames@[i].entries@ by {
                        if i < before.len() - 1 {
                            assert(search.frames@[i] == before[i]);
                        }
                    }
                    let found = match step {
                        SearchStep::Done(b) => b,
                        _ => false,
                    };
                    if found {
                        let k = top.next as int;
                        let (q, v) = choose|q: &str, v: Vec<(String, bool)>|
                            #[trigger] call_ensures(list, (q,), Some(v)) && v@ == top.entries@;
                        assert(call_ensures(list, (q,), Some(v)) && 0 <= k < v@.len() && !v@[k].1
                            && spec_is_save_file(v@[k].0@));
                    }
                }
                assert(frames_left(before) == frames_left(search.frames@) + 1);
            }
        }
    }
}

proof fn lemma_frames_left_last(fs: Seq<SearchFrame>)
    ensures
        fs.len() > 0 ==> frames_left(fs) == frames_left(fs.drop_last()) + (fs.last().entries@.len()
            - fs.last().next) as nat + 1,
{
}

// ==================== SAVE SUBFOLDER SEARCH ====================

/// The save-subfolder search looks this many levels below the first folder.
pub const SUBDIR_MAX_DEPTH: usize = 3;

/// The save-subfolder search enters at most this many folders beyond the first.
pub const SUBDIR_MAX_VISITS: usize = 60;

/// A folder being examined by the save-subfolder search: its entries, its depth
/// below the first folder, which of its two passes is running, and how many
/// entries that pass examined.
pub struct SubFrame {
    pub path: String,
    pub entries: Vec<(String, bool)>,
    pub depth: usize,
    pub second: bool,
    pub next: usize,
}

/// What the save-subfolder search needs next.
pub enum SubStep {
    /// Nothing from outside: step again.
    Continue,
    /// The listing of this folder, to be entered (`enter`) before the next step.
    List(String),
    /// Whether this folder is there and holds anything: if so, it is the answer.
    Probe(String),
    /// No save subfolder was found.
    Done,
}

/// The search behind finding a game's save folder in its install folder, one
/// step at a time. A folder's entries are examined twice, in order: first each
/// subfolder (not on the skip list) whose path looks like a save location is
/// probed, and the first that is there and holds anything is the answer; then
/// each such subfolder is searched the same way, unless it lies more than
/// `SUBDIR_MAX_DEPTH` levels below the first folder or more than
/// `SUBDIR_MAX_VISITS` folders were entered, when it counts as holding nothing.
pub struct SubdirSearch {
    pub frames: Vec<SubFrame>,
    pub visited: usize,
}

/// A `SubFrame` as plain values.
pub struct SubFrameV {
    pub path: Seq<char>,
    pub entries: Seq<(String, bool)>,
    pub depth: int,
    pub second: bool,
    pub next: int,
}

pub open spec fn subframe_v(f: SubFrame) -> SubFrameV {
    SubFrameV { path: f.path@, entries: f.entries@, depth: f.depth as int, second: f.second, next: f.next as int }
}

pub open spec fn subframes_v(fs: Seq<SubFrame>) -> Seq<SubFrameV> {
    fs.map_values(|f: SubFrame| subframe_v(f))
}

/// A `SubStep` as plain values.
pub enum SubStepV {
    Continue,
    List(Seq<char>),
    Probe(Seq<char>),
    Done,
}

pub open spec fn substep_v(s: SubStep) -> SubStepV {
    match s {
        SubStep::Continue => SubStepV::Continue,
        SubStep::List(p) => SubStepV::List(p@),
        SubStep::Probe(p) => SubStepV::Probe(p@),
        SubStep::Done => SubStepV::Done,
    }
}

/// One step of the save-subfolder search over plain values.
pub open spec fn sub_step(fs: Seq<SubFrameV>, visited: int) -> (Seq<SubFrameV>, int, SubStepV) {
    if fs.len() == 0 {
        (fs, visited, SubStepV::Done)
    } else {
        let top = fs.last();
        let rest = fs.drop_last();
        if top.next >= top.entries.len() {
            if top.second {
                (rest, visited, SubStepV::Continue)
            } else {
                (rest.push(SubFrameV { second: true, next: 0, ..top }), visited, SubStepV::Continue)
            }
        } else {
            let name = top.entries[top.next].0@;
            let kept = top.entries[top.next].1 && !crate::sync::is_skip_dir(lowercase(name));
            let p = crate::winpath::spec_join(top.path, name);
            let adv = rest.push(SubFrameV { next: top.next + 1, ..top });
            if !top.second {
                if kept && spec_is_game_path(p) {
                    (adv, visited, SubStepV::Probe(p))
                } else {
                    (adv, visited, SubStepV::Continue)
                }
            } else if kept && top.depth < SUBDIR_MAX_DEPTH && visited <= SUBDIR_MAX_VISITS {
                (adv, visited + 1, SubStepV::List(p))
            } else {
                (adv, visited, SubStepV::Continue)
            }
        }
    }
}

/// The folders after entering `path` with the listing `l`: one level below the
/// folder being examined (the first folder is at depth 0).
pub open spec fn sub_enter(fs: Seq<SubFrameV>, path: Seq<char>, l: Option<Vec<(String, bool)>>) -> Seq<SubFrameV> {
    fs.push(
        SubFrameV {
            path,
            entries: match l {
                Some(v) => v@,
                None => Seq::empty(),
            },
            depth: if fs.len() == 0 { 0 } else { fs.last().depth + 1 },
            second: false,
            next: 0,
        },
    )
}

/// An answer from outside to the save-subfolder search.
pub enum SubAnswer {
    Listing(Option<Vec<(String, bool)>>),
    Probed(bool),
}

/// The answer of the save-subfolder search from a state and what it asks, when
/// the answers from outside are, in order, `answers`: for a listing, what `list`
/// returned for the folder; for a probe, what `probe` answered. `Some(None)`:
/// no save subfolder; `Some(Some(p))`: `p`; `None` when the answers do not fit
/// the run or `fuel` steps do not reach the end.
pub open spec fn sub_run<F: Fn(&str) -> Option<Vec<(String, bool)>>, G: Fn(&str) -> bool>(
    list: F,
    probe: G,
    fs: Seq<SubFrameV>,
    visited: int,
    pending: SubStepV,
    answers: Seq<SubAnswer>,
    fuel: nat,
) -> Option<Option<Seq<char>>>
    decreases fuel,
{
    if fuel == 0 {
        None
    } else {
        match pending {
            SubStepV::Done => if answers.len() == 0 {
                Some(None)
            } else {
                None
            },
            SubStepV::Continue => {
                let (f2, v2, p2) = sub_step(fs, visited);
                sub_run(list, probe, f2, v2, p2, answers, (fuel - 1) as nat)
            },
            SubStepV::List(p) => if answers.len() == 0 {
                None
            } else {
                match answers[0] {
                    SubAnswer::Listing(l) => if listed_as(list, p, l) {
                        let (f2, v2, p2) = sub_step(sub_enter(fs, p, l), visited);
                        sub_run(list, probe, f2, v2, p2, answers.drop_first(), (fuel - 1) as nat)
                    } else {
                        None
                    },
                    _ => None,
                }
            },
            SubStepV::Probe(p) => if answers.len() == 0 {
                None
            } else {
                match answers[0] {
                    SubAnswer::Probed(b) => if !crate::sync::probed_as(probe, p, b) {
                        None
                    } else if b {
                        if answers.len() == 1 {
                            Some(Some(p))
                        } else {
                            None
                        }
                    } else {
                        let (f2, v2, p2) = sub_step(fs, visited);
                        sub_run(list, probe, f2, v2, p2, answers.drop_first(), (fuel - 1) as nat)
                    },
                    _ => None,
                }
            },
        }
    }
}

/// Entries still to be examined (counting both passes) plus one per pass still
/// open: each step lowers it by one, unless it enters a folder.
pub open spec fn sub_left(fs: Seq<SubFrameV>) -> nat
    decreases fs.len(),
{
    if fs.len() == 0 {
        0
    } else {
        let f = fs.last();
        sub_left(fs.drop_last()) + (if f.second {
            (f.entries.len() - f.next + 1) as nat
        } else {
            (2 * f.entries.len() - f.next + 2) as nat
        })
    }
}

/// A step that does not end the search lowers `sub_left` by one (entering a
/// folder aside).
proof fn lemma_sub_step_left(fs: Seq<SubFrameV>, v: int)
    requires
        fs.len() > 0,
        0 <= fs.last().next <= fs.last().entries.len(),
    ensures
        sub_left(sub_step(fs, v).0) + 1 == sub_left(fs),
{
    let f2 = sub_step(fs, v).0;
    let top = fs.last();
    if top.next >= top.entries.len() {
        if !top.second {
            assert(f2.drop_last() =~= fs.drop_last());
        }
    } else {
        assert(f2.drop_last() =~= fs.drop_last());
    }
}

impl SubdirSearch {
    pub open spec fn wf(&self) -> bool {
        &&& self.visited <= SUBDIR_MAX_VISITS + 1
        &&& forall|i: int| 0 <= i < self.frames@.len() ==> {
            &&& (#[trigger] self.frames@[i]).next <= self.frames@[i].entries@.len()
            &&& self.frames@[i].depth <= i
        }
    }

    /// A search of `dir`: its listing is asked for first (`dir` counts as entered).
    pub fn start(dir: &str) -> (r: (SubdirSearch, SubStep))
        ensures
            r.0.wf(),
            r.0.frames@.len() == 0,
            r.0.visited == 1,
            r.1 matches SubStep::List(p) && p@ == dir@,
    {
        (SubdirSearch { frames: Vec::new(), visited: 1 }, SubStep::List(string_of(&chars_of(dir))))
    }

    /// Enters the folder whose listing was asked for (`None`: it could not be read).
    pub fn enter(&mut self, path: String, listing: Option<Vec<(String, bool)>>)
        requires
            old(self).wf(),
        ensures
            final(self).wf(),
            final(self).visited == old(self).visited,
            final(self).frames@.drop_last() == old(self).frames@,
            subframes_v(final(self).frames@) == sub_enter(subframes_v(old(self).frames@), path@, listing),
    {
        let entries = match listing {
            Some(v) => v,
            None => Vec::new(),
        };
        let n = self.frames.len();
        let depth = if n == 0 {
            0
        } else {
            assert(self.frames@[n - 1].depth <= n - 1);
            self.frames[n - 1].depth + 1
        };
        let ghost old_frames = self.frames@;
        self.frames.push(SubFrame { path, entries, depth, second: false, next: 0 });
        assert(self.frames@.drop_last() =~= old_frames);
        assert forall|i: int| 0 <= i < self.frames@.len() implies {
            &&& (#[trigger] self.frames@[i]).next <= self.frames@[i].entries@.len()
            &&& self.frames@[i].depth <= i
        } by {
            if i < old_frames.len() {
                assert(self.frames@[i] == old_frames[i]);
            }
        }
    }

    /// One step of the search (see `SubdirSearch`).
    pub fn step(&mut self) -> (r: SubStep)
        requires
            old(self).wf(),
        ensures
            final(self).wf(),
            ({
                let (f2, v2, p2) = sub_step(subframes_v(old(self).frames@), old(self).visited as int);
                subframes_v(final(self).frames@) == f2 && final(self).visited as int == v2 && substep_v(r) == p2
            }),
            r matches SubStep::Probe(p) ==> spec_is_game_path(p@),
    {
        let n = self.frames.len();
        if n == 0 {
            return SubStep::Done;
        }
        let ghost old_frames = self.frames@;
        let mut top = self.frames.pop().unwrap();
        assert(self.frames@ =~= old_frames.drop_last());
        assert(top == old_frames.last());
        if top.next >= top.entries.len() {
            if top.second {
                assert forall|i: int| 0 <= i < self.frames@.len() implies {
                    &&& (#[trigger] self.frames@[i]).next <= self.frames@[i].entries@.len()
                    &&& self.frames@[i].depth <= i
                } by {
                    assert(self.frames@[i] == old_frames[i]);
                }
                return SubStep::Continue;
            }
            top.second = true;
            top.next = 0;
            self.frames.push(top);
            assert forall|i: int| 0 <= i < self.frames@.len() implies {
                &&& (#[trigger] self.frames@[i]).next <= self.frames@[i].entries@.len()
                &&& self.frames@[i].depth <= i
            } by {
                if i < old_frames.len() - 1 {
                    assert(self.frames@[i] == old_frames[i]);
                }
            }
            return SubStep::Continue;
        }
        let k = top.next;
        let name = top.entries[k].0.clone();
        let is_dir = top.entries[k].1;
        let path = top.path.clone();
        let second = top.second;
        let depth = top.depth;
        top.next = k + 1;
        self.frames.push(top);
        assert forall|i: int| 0 <= i < self.frames@.len() implies {
            &&& (#[trigger] self.frames@[i]).next <= self.frames@[i].entries@.len()
            &&& self.frames@[i].depth <= i
        } by {
            if i < old_frames.len() - 1 {
                assert(self.frames@[i] == old_frames[i]);
            }
        }
        let kept = is_dir && !crate::sync::should_skip(name.as_str());
        if !second {
            if kept {
                let p = crate::config::join(path.as_str(), name.as_str());
                if is_game_path(p.as_str()) {
                    return SubStep::Probe(p);
                }
            }
            SubStep::Continue
        } else if kept && depth < SUBDIR_MAX_DEPTH && self.visited <= SUBDIR_MAX_VISITS {
            self.visited = self.visited + 1;
            SubStep::List(crate::config::join(path.as_str(), name.as_str()))
        } else {
            SubStep::Continue
        }
    }
}

/// The save subfolder of a game's install folder `dir`, searched as
/// `SubdirSearch` describes: `list` gives the entries of a folder (name, and
/// whether it is a folder; `None` when it cannot be read) and `probe` whether a
/// folder is there and holds anything. The answer is the outcome of that search
/// run on what `list` and `probe` returned for what it asked, in order
/// (`sub_run`); a folder it names looks like a save location and was probed
/// as holding something.
#[verifier::rlimit(60)]
pub fn find_save_subdir(
    dir: &str,
    list: impl Fn(&str) -> Option<Vec<(String, bool)>>,
    probe: impl Fn(&str) -> bool,
) -> (r: Option<String>)
    requires
        forall|s: &str| call_requires(list, (s,)),
        forall|s: &str| call_requires(probe, (s,)),
    ensures
        exists|answers: Seq<SubAnswer>, fuel: nat|
            #[trigger] sub_run(list, probe, Seq::empty(), 1, SubStepV::List(dir@), answers, fuel) == Some(
                match r {
                    Some(p) => Some(p@),
                    None => None,
                },
            ),
        r matches Some(p) ==> spec_is_game_path(p@) && crate::sync::probed_as(probe, p@, true),
{
    let (mut search, mut step) = SubdirSearch::start(dir);
    let ghost mut hist: Seq<SubAnswer> = Seq::empty();
    let ghost mut k: nat = 0;
    proof {
        assert(subframes_v(search.frames@) =~= Seq::<SubFrameV>::empty());
        assert forall|fut: Seq<SubAnswer>, f: nat|
            #![trigger sub_run(list, probe, subframes_v(search.frames@), search.visited as int, substep_v(step), fut, f)]
            sub_run(list, probe, Seq::empty(), 1, SubStepV::List(dir@), hist + fut, f + k) == sub_run(
                list,
                probe,
                subframes_v(search.frames@),
                search.visited as int,
                substep_v(step),
                fut,
                f,
            ) by {
            assert(hist + fut =~= fut);
        }
    }
    loop
        invariant
            forall|fut: Seq<SubAnswer>, f: nat|
                #![trigger sub_run(list, probe, subframes_v(search.frames@), search.visited as int, substep_v(step), fut, f)]
                sub_run(list, probe, Seq::empty(), 1, SubStepV::List(dir@), hist + fut, f + k) == sub_run(
                    list,
                    probe,
                    subframes_v(search.frames@),
                    search.visited as int,
                    substep_v(step),
                    fut,
                    f,
                ),
            search.wf(),
            forall|s: &str| call_requires(list, (s,)),
            forall|s: &str| call_requires(probe, (s,)),
            step matches SubStep::Probe(p) ==> spec_is_game_path(p@),
        decreases
            SUBDIR_MAX_VISITS + 2 - search.visited + (if step is List { 1int } else { 0int }),
            sub_left(subframes_v(search.frames@)) + (if step is Done { 0int } else { 1int }),
    {
        let ghost fs0 = subframes_v(search.frames@);
        let ghost v0 = search.visited as int;
        let ghost p0 = substep_v(step);
        let ghost mut answered: Option<SubAnswer> = None;
        match step {
            SubStep::Done => {
                proof {
                    assert(hist + Seq::<SubAnswer>::empty() =~= hist);
                    assert(sub_run(list, probe, fs0, v0, p0, Seq::empty(), 1) == Some(None::<Seq<char>>));
                    assert(sub_run(list, probe, Seq::empty(), 1, SubStepV::List(dir@), hist, 1 + k) == Some(
                        None::<Seq<char>>,
                    ));
                }
                return None;
            },
            SubStep::Continue => {},
            SubStep::List(p) => {
                let ps = p.as_str();
                let l = list(ps);
                assert(call_ensures(list, (ps,), l));
                proof {
                    assert(listed_as(list, p@, l));
                    answered = Some(SubAnswer::Listing(l));
                }
                search.enter(p, l);
            },
            SubStep::Probe(p) => {
                let ps = p.as_str();
                let b = probe(ps);
                assert(call_ensures(probe, (ps,), b));
                proof {
                    assert(crate::sync::probed_as(probe, p@, b));
                    answered = Some(SubAnswer::Probed(b));
                }
                if b {
                    proof {
                        let fut0 = seq![SubAnswer::Probed(true)];
                        assert(hist + fut0 =~= hist.push(SubAnswer::Probed(true)));
                        assert(sub_run(list, probe, fs0, v0, p0, fut0, 1) == Some(Some(p@)));
                        assert(sub_run(list, probe, Seq::empty(), 1, SubStepV::List(dir@), hist + fut0, 1 + k)
                            == Some(Some(p@)));
                    }
                    return Some(p);
                }
            },
        }
        let ghost before = search.frames@;
        let ghost vb = search.visited as int;
        proof {
            if before.len() > 0 {
                let bv = subframes_v(before);
                assert(bv.last() == subframe_v(before.last()));
                assert(before.last().entries.len() == before.last().entries@.len());
                lemma_sub_step_left(bv, vb);
            }
        }
        step = search.step();
        proof {
            let fs1 = subframes_v(search.frames@);
            let v1 = search.visited as int;
            let p1 = substep_v(step);
            let hist1 = match answered {
                Some(a) => hist.push(a),
                None => hist,
            };
            assert forall|fut: Seq<SubAnswer>, f: nat|
                #![trigger sub_run(list, probe, fs1, v1, p1, fut, f)]
                sub_run(list, probe, Seq::empty(), 1, SubStepV::List(dir@), hist1 + fut, f + (k + 1)) == sub_run(
                    list,
                    probe,
                    fs1,
                    v1,
                    p1,
                    fut,
                    f,
                ) by {
                match answered {
                    Some(a) => {
                        let fut0 = seq![a] + fut;
                        assert(hist1 + fut =~= hist + fut0);
                        assert(fut0[0] == a);
                        assert(fut0.drop_first() =~= fut);
                        assert(sub_run(list, probe, Seq::empty(), 1, SubStepV::List(dir@), hist + fut0, (f + 1) + k)
                            == sub_run(list, probe, fs0, v0, p0, fut0, f + 1));
                    },
                    None => {
                        assert(sub_run(list, probe, Seq::empty(), 1, SubStepV::List(dir@), hist + fut, (f + 1) + k)
                            == sub_run(list, probe, fs0, v0, p0, fut, f + 1));
                    },
                }
            }
            hist = hist1;
            k = k + 1;
        }
    }
}

// ==================== STEAM LIBRARY LIST ====================

/// Index of the first `c` in `s`.
pub open spec fn index_of(s: Seq<char>, c: char) -> Option<int>
    decreases s.len(),
{
    if s.len() == 0 {
        None
    } else if s[0] == c {
        Some(0)
    } else {
        match index_of(s.drop_first(), c) {
            Some(i) => Some(i + 1),
            None => None,
        }
    }
}

/// Index of the last `c` in `s`.
pub open spec fn last_index_of(s: Seq<char>, c: char) -> Option<int>
    decreases s.len(),
{
    if s.len() == 0 {
        None
    } else if s.last() == c {
        Some(s.len() - 1)
    } else {
        last_index_of(s.drop_last(), c)
    }
}

/// Index of the first occurrence of `pat` in `s` at or after `i`.
pub open spec fn find_from(s: Seq<char>, pat: Seq<char>, i: int) -> Option<int>
    decreases s.len() + 1 - i,
{
    if i < 0 || i + pat.len() > s.len() {
        None
    } else if s.subrange(i, i + pat.len()) == pat {
        Some(i)
    } else {
        find_from(s, pat, i + 1)
    }
}

/// The lines of a text: the pieces between `\n` characters.
pub open spec fn split_lines(s: Seq<char>) -> Seq<Seq<char>>
    decreases s.len(),
{
    match index_of(s, '\n') {
        Some(i) => {
            proof {
                lemma_index_of(s, '\n');
            }
            seq![s.take(i)] + split_lines(s.skip(i + 1))
        },
        None => seq![s],
    }
}

/// Every `\\\\` (an escaped backslash) read as one `\\`, left to right.
pub open spec fn unescape_backslashes(s: Seq<char>) -> Seq<char>
    decreases s.len(),
{
    if s.len() >= 2 && s[0] == '\\' && s[1] == '\\' {
        seq!['\\'] + unescape_backslashes(s.skip(2))
    } else if s.len() == 0 {
        seq![]
    } else {
        seq![s[0]] + unescape_backslashes(s.drop_first())
    }
}

/// The library path a line of `libraryfolders.vdf` names: after the first `"path"`
/// key, the text between the first and the last double quote, unescaped.
pub open spec fn vdf_line_path(line: Seq<char>) -> Option<Seq<char>> {
    match find_from(line, "\"path\""@, 0) {
        Some(idx) => {
            let after = line.skip(idx + 6);
            match (index_of(after, '"'), last_index_of(after, '"')) {
                (Some(a), Some(b)) => if a < b {
                    Some(unescape_backslashes(after.subrange(a + 1, b)))
                } else {
                    None
                },
                _ => None,
            }
        },
        None => None,
    }
}

/// The paths named by the lines, in order.
pub open spec fn vdf_paths(lines: Seq<Seq<char>>) -> Seq<Seq<char>>
    decreases lines.len(),
{
    if lines.len() == 0 {
        seq![]
    } else {
        match vdf_line_path(lines[0]) {
            Some(p) => seq![p] + vdf_paths(lines.drop_first()),
            None => vdf_paths(lines.drop_first()),
        }
    }
}

/// `index_of` gives the first position of `c`, or says that `c` does not occur.
pub proof fn lemma_index_of(s: Seq<char>, c: char)
    ensures
        match index_of(s, c) {
            Some(i) => 0 <= i < s.len() && s[i] == c && forall|j: int| 0 <= j < i ==> s[j] != c,
            None => forall|j: int| 0 <= j < s.len() ==> s[j] != c,
        },
    decreases s.len(),
{
    if s.len() > 0 && s[0] != c {
        let t = s.drop_first();
        lemma_index_of(t, c);
        match index_of(t, c) {
            Some(i) => {
                assert(s[i + 1] == t[i]);
                assert forall|j: int| 0 <= j < i + 1 implies s[j] != c by {
                    if j > 0 {
                        assert(s[j] == t[j - 1]);
                    }
                }
            },
            None => {
                assert forall|j: int| 0 <= j < s.len() implies s[j] != c by {
                    if j > 0 {
                        assert(s[j] == t[j - 1]);
                    }
                }
            },
        }
    }
}

/// `last_index_of` gives the last position of `c`, or says that `c` does not occur.
pub proof fn lemma_last_index_of(s: Seq<char>, c: char)
    ensures
        match last_index_of(s, c) {
            Some(i) => 0 <= i < s.len() && s[i] == c && forall|j: int| i < j < s.len() ==> s[j] != c,
            None => forall|j: int| 0 <= j < s.len() ==> s[j] != c,
        },
    decreases s.len(),
{
    if s.len() > 0 && s.last() != c {
        let t = s.drop_last();
        lemma_last_index_of(t, c);
        match last_index_of(t, c) {
            Some(i) => {
                assert(s[i] == t[i]);
                assert forall|j: int| i < j < s.len() implies s[j] != c by {
                    if j < t.len() {
                        assert(s[j] == t[j]);
                    }
                }
            },
            None => {
                assert forall|j: int| 0 <= j < s.len() implies s[j] != c by {
                    if j < t.len() {
                        assert(s[j] == t[j]);
                    }
                }
            },
        }
    }
}

fn index_of_exec(s: &Vec<char>, c: char) -> (r: Option<usize>)
    ensures
        match r {
            Some(i) => index_of(s@, c) == Some(i as int),
            None => index_of(s@, c) is None,
        },
{
    proof {
        lemma_index_of(s@, c);
    }
    let mut i: usize = 0;
    while i < s.len()
        invariant
            i <= s@.len(),
            forall|j: int| 0 <= j < i ==> s@[j] != c,
            match index_of(s@, c) {
                Some(k) => 0 <= k < s@.len() && s@[k] == c && forall|j: int| 0 <= j < k ==> s@[j] != c,
                None => forall|j: int| 0 <= j < s@.len() ==> s@[j] != c,
            },
        decreases s@.len() - i,
    {
        if s[i] == c {
            return Some(i);
        }
        i = i + 1;
    }
    None
}

fn last_index_of_exec(s: &Vec<char>, c: char) -> (r: Option<usize>)
    ensures
        match r {
            Some(i) => last_index_of(s@, c) == Some(i as int),
            None => last_index_of(s@, c) is None,
        },
{
    proof {
        lemma_last_index_of(s@, c);
    }
    let mut i: usize = s.len();
    while i > 0
        invariant
            i <= s@.len(),
            forall|j: int| i <= j < s@.len() ==> s@[j] != c,
            match last_index_of(s@, c) {
                Some(k) => 0 <= k < s@.len() && s@[k] == c && forall|j: int| k < j < s@.len() ==> s@[j] != c,
                None => forall|j: int| 0 <= j < s@.len() ==> s@[j] != c,
            },
        decreases i,
    {
        if s[i - 1] == c {
            return Some(i - 1);
        }
        i = i - 1;
    }
    None
}

proof fn lemma_find_from(s: Seq<char>, pat: Seq<char>, i: int)
    ensures
        match find_from(s, pat, i) {
            Some(k) => i <= k && 0 <= k && k + pat.len() <= s.len() && s.subrange(k, k + pat.len()) == pat,
            None => true,
        },
    decreases s.len() + 1 - i,
{
    if !(i < 0 || i + pat.len() > s.len()) && s.subrange(i, i + pat.len()) != pat {
        lemma_find_from(s, pat, i + 1);
    }
}

pub fn find_from_chars(s: &Vec<char>, pat: &Vec<char>) -> (r: Option<usize>)
    ensures
        match r {
            Some(i) => find_from(s@, pat@, 0) == Some(i as int),
            None => find_from(s@, pat@, 0) is None,
        },
{
    let mut i: usize = 0;
    while i <= s.len() && pat.len() <= s.len() - i
        invariant
            i <= s@.len() + 1,
            find_from(s@, pat@, 0) == find_from(s@, pat@, i as int),
        decreases s@.len() + 1 - i,
    {
        let mut k: usize = 0;
        let mut same = true;
        while k < pat.len()
            invariant
                k <= pat@.len(),
                s@.len() <= usize::MAX,
                i + pat@.len() <= s@.len(),
                same == forall|j: int| 0 <= j < k ==> s@[i + j] == pat@[j],
            decreases pat@.len() - k,
        {
            if s[i + k] != pat[k] {
                same = false;
            }
            k = k + 1;
        }
        if same {
            assert(s@.subrange(i as int, i + pat@.len()) =~= pat@);
            return Some(i);
        }
        assert(s@.subrange(i as int, i + pat@.len()) != pat@) by {
            let j = choose|j: int| 0 <= j < pat@.len() && s@[i + j] != pat@[j];
            assert(s@.subrange(i as int, i + pat@.len())[j] != pat@[j]);
        }
        i = i + 1;
    }
    None
}

fn unescape_exec(s: &Vec<char>, from: usize, out: &mut Vec<char>)
    requires
        from <= s@.len(),
    ensures
        final(out)@ == old(out)@ + unescape_backslashes(s@.skip(from as int)),
    decreases s@.len() - from,
{
    let n = s.len();
    if from == n {
        assert(old(out)@ + unescape_backslashes(s@.skip(from as int)) =~= old(out)@);
        return;
    }
    let ghost t = s@.skip(from as int);
    if from + 1 < n && s[from] == '\\' && s[from + 1] == '\\' {
        out.push('\\');
        assert(t.skip(2) =~= s@.skip(from + 2));
        unescape_exec(s, from + 2, out);
        assert(old(out)@.push('\\') + unescape_backslashes(s@.skip(from + 2)) =~= old(out)@ + (
        seq!['\\'] + unescape_backslashes(t.skip(2))));
    } else {
        out.push(s[from]);
        assert(t.drop_first() =~= s@.skip(from + 1));
        unescape_exec(s, from + 1, out);
        assert(old(out)@.push(t[0]) + unescape_backslashes(s@.skip(from + 1)) =~= old(out)@ + (seq![
            t[0],
        ] + unescape_backslashes(t.drop_first())));
    }
}

fn vdf_line_path_exec(line: &Vec<char>) -> (r: Option<String>)
    ensures
        match r {
            Some(p) => vdf_line_path(line@) == Some(p@),
            None => vdf_line_path(line@) is None,
        },
{
    let n = line.len();
    let key = chars_of("\"path\"");
    proof {
        reveal_strlit("\"path\"");
    }
    match find_from_chars(line, &key) {
        Some(idx) => {
            proof {
                lemma_find_from(line@, key@, 0);
            }
            let after = sub_chars(line.as_slice(), idx + 6, n);
            assert(after@ =~= line@.skip(idx + 6));
            match (index_of_exec(&after, '"'), last_index_of_exec(&after, '"')) {
                (Some(a), Some(b)) => {
                    if a < b {
                        proof {
                            lemma_index_of(after@, '"');
                            lemma_last_index_of(after@, '"');
                        }
                        let inner = sub_chars(after.as_slice(), a + 1, b);
                        let mut v: Vec<char> = Vec::new();
                        unescape_exec(&inner, 0, &mut v);
                        assert(inner@.skip(0) =~= inner@);
                        assert(Seq::<char>::empty() + unescape_backslashes(inner@) =~= unescape_backslashes(inner@));
                        Some(string_of(&v))
                    } else {
                        None
                    }
                },
                _ => None,
            }
        },
        None => None,
    }
}

/// The library folders listed in the text of a Steam `libraryfolders.vdf`, in the
/// order of their lines (see `vdf_line_path`).
pub fn vdf_library_paths(text: &str) -> (r: Vec<String>)
    ensures
        r@.len() == vdf_paths(split_lines(text@)).len(),
        forall|i: int| 0 <= i < r@.len() ==> (#[trigger] r@[i])@ == vdf_paths(split_lines(text@))[i],
{
    let cs = chars_of(text);
    let mut out: Vec<String> = Vec::new();
    let mut i: usize = 0;
    assert(cs@.skip(0) =~= cs@);
    assert(out@.map_values(|x: String| x@) =~= Seq::<Seq<char>>::empty());
    assert(Seq::<Seq<char>>::empty() + vdf_paths(split_lines(text@)) =~= vdf_paths(split_lines(text@)));
    loop
        invariant
            i <= cs@.len(),
            cs@ == text@,
            vdf_paths(split_lines(text@)) == out@.map_values(|x: String| x@) + vdf_paths(
                split_lines(cs@.skip(i as int)),
            ),
        decreases cs@.len() - i,
    {
        let ghost rest = cs@.skip(i as int);
        let ghost before = out@.map_values(|x: String| x@);
        let mut k = i;
        while k < cs.len() && cs[k] != '\n'
            invariant
                i <= k <= cs@.len(),
                forall|j: int| i <= j < k ==> cs@[j] != '\n',
            decreases cs@.len() - k,
        {
            k = k + 1;
        }
        proof {
            lemma_index_of(rest, '\n');
            match index_of(rest, '\n') {
                Some(d) => {
                    if k < cs@.len() {
                        assert(rest[k - i] == '\n');
                        assert(d == k - i);
                    } else {
                        assert(rest[d] == cs@[i + d]);
                    }
                },
                None => {
                    if k < cs@.len() {
                        assert(rest[k - i] == '\n');
                    }
                },
            }
        }
        let line = sub_chars(cs.as_slice(), i, k);
        assert(line@ =~= rest.take(k - i));
        let lp = vdf_line_path_exec(&line);
        let ghost add = match vdf_line_path(line@) {
            Some(p) => seq![p],
            None => Seq::<Seq<char>>::empty(),
        };
        match lp {
            Some(p) => {
                out.push(p);
            },
            None => {},
        }
        assert(out@.map_values(|x: String| x@) =~= before + add);
        if k >= cs.len() {
            assert(rest.take(k - i) =~= rest);
            assert(line@ == rest);
            assert(split_lines(rest) == seq![rest]);
            assert(seq![rest][0] == rest);
            assert(vdf_paths(Seq::<Seq<char>>::empty()) =~= Seq::<Seq<char>>::empty());
            assert(seq![rest].drop_first() =~= Seq::<Seq<char>>::empty());
            assert(vdf_paths(split_lines(rest)) =~= add);
            let ghost fin = out@.map_values(|x: String| x@);
            assert(vdf_paths(split_lines(text@)) =~= fin);
            assert forall|j: int| 0 <= j < out@.len() implies (#[trigger] out@[j])@
                == vdf_paths(split_lines(text@))[j] by {
                assert(fin[j] == out@[j]@);
            }
            return out;
        }
        proof {
            let ls = split_lines(rest);
            assert(rest.skip(k - i + 1) =~= cs@.skip(k as int + 1));
            assert(ls == seq![rest.take(k - i)] + split_lines(cs@.skip(k as int + 1)));
            assert(ls[0] == line@);
            assert(ls.drop_first() =~= split_lines(cs@.skip(k as int + 1)));
            assert(vdf_paths(ls) == add + vdf_paths(split_lines(cs@.skip(k as int + 1))));
            assert(before + (add + vdf_paths(split_lines(cs@.skip(k as int + 1)))) =~= (before
                + add) + vdf_paths(split_lines(cs@.skip(k as int + 1))));
        }
        i = k + 1;
    }
}


/// The pieces of `s` between occurrences of `c`.
pub open spec fn split_on(s: Seq<char>, c: char) -> Seq<Seq<char>>
    decreases s.len(),
{
    match index_of(s, c) {
        Some(i) => {
            proof {
                lemma_index_of(s, c);
            }
            seq![s.take(i)] + split_on(s.skip(i + 1), c)
        },
        None => seq![s],
    }
}

/// Splits `s` at every `c` (`str::split`).
pub fn split_chars(s: &Vec<char>, c: char) -> (r: Vec<Vec<char>>)
    ensures
        r@.len() == split_on(s@, c).len(),
        forall|i: int| 0 <= i < r@.len() ==> (#[trigger] r@[i])@ == split_on(s@, c)[i],
{
    let mut out: Vec<Vec<char>> = Vec::new();
    let mut i: usize = 0;
    assert(s@.skip(0) =~= s@);
    assert(out@.map_values(|x: Vec<char>| x@) + split_on(s@, c) =~= split_on(s@, c));
    loop
        invariant
            i <= s@.len(),
            split_on(s@, c) == out@.map_values(|x: Vec<char>| x@) + split_on(s@.skip(i as int), c),
        decreases s@.len() - i,
    {
        let ghost rest = s@.skip(i as int);
        let ghost before = out@.map_values(|x: Vec<char>| x@);
        let mut k = i;
        while k < s.len() && s[k] != c
            invariant
                i <= k <= s@.len(),
                forall|j: int| i <= j < k ==> s@[j] != c,
            decreases s@.len() - k,
        {
            k = k + 1;
        }
        proof {
            lemma_index_of(rest, c);
        }
        let piece = sub_chars(s.as_slice(), i, k);
        assert(piece@ =~= rest.take(k - i));
        let ghost pv = piece@;
        out.push(piece);
        assert(out@.map_values(|x: Vec<char>| x@) =~= before.push(pv));
        if k >= s.len() {
            assert(index_of(rest, c) is None) by {
                if index_of(rest, c) is Some {
                    let d = index_of(rest, c)->0;
                    assert(rest[d] == s@[i + d]);
                }
            }
            assert(rest.take(k - i) =~= rest);
            assert(split_on(rest, c) == seq![rest]);
            let ghost fin = out@.map_values(|x: Vec<char>| x@);
            assert(split_on(s@, c) =~= fin);
            assert forall|j: int| 0 <= j < out@.len() implies (#[trigger] out@[j])@ == split_on(s@, c)[j] by {
                assert(fin[j] == out@[j]@);
            }
            return out;
        }
        proof {
            assert(index_of(rest, c) == Some(k - i)) by {
                if index_of(rest, c) is Some {
                    let d = index_of(rest, c)->0;
                    if d < k - i {
                        assert(rest[d] == s@[i + d]);
                    }
                    if d > k - i {
                        assert(rest[k - i] == s@[k as int]);
                    }
                } else {
                    assert(rest[k - i] == s@[k as int]);
                }
            }
            assert(rest.skip(k - i + 1) =~= s@.skip(k as int + 1));
            assert(before + split_on(rest, c) =~= before.push(pv) + split_on(s@.skip(k as int + 1), c));
        }
        i = k + 1;
    }
}

} // verus!

//! Windows path syntax (the platform the application runs on), modelled on the
//! documented behaviour of `std::path` for Windows: drive, UNC, verbatim and device
//! prefixes, a root separator, and normalised components (`.` dropped except at the
//! start, `..` kept, repeated and trailing separators ignored).
use vstd::prelude::*;

verus! {

/// The kinds of prefix a Windows path may start with.
#[derive(PartialEq, Eq, Structural, Clone, Copy)]
pub enum PrefixKind {
    NoPrefix,
    Disk,
    Unc,
    DeviceNs,
    Verbatim,
    VerbatimDisk,
    VerbatimUnc,
}

pub open spec fn is_sep(c: char, verbatim: bool) -> bool {
    c == '\\' || (!verbatim && c == '/')
}

pub open spec fn is_alpha(c: char) -> bool {
    ('a' <= c <= 'z') || ('A' <= c <= 'Z')
}

/// Index of the first separator in `s`, or `s.len()` when there is none.
pub open spec fn first_sep(s: Seq<char>, verbatim: bool) -> nat
    decreases s.len(),
{
    if s.len() == 0 {
        0
    } else if is_sep(s[0], verbatim) {
        0
    } else {
        1 + first_sep(s.drop_first(), verbatim)
    }
}

pub open spec fn is_verbatim_kind(k: PrefixKind) -> bool {
    k == PrefixKind::Verbatim || k == PrefixKind::VerbatimDisk || k == PrefixKind::VerbatimUnc
}

/// Length of the component that starts `s` plus, when a separator follows it, one more.
pub open spec fn comp_and_sep(s: Seq<char>, verbatim: bool) -> nat {
    let k = first_sep(s, verbatim);
    if k < s.len() { k + 1 } else { k }
}

/// The prefix of a path: its kind and its length in characters.
pub open spec fn spec_prefix(p: Seq<char>) -> (PrefixKind, nat) {
    if p.len() >= 2 && is_sep(p[0], false) && is_sep(p[1], false) {
        let r = p.skip(2);
        if p.len() >= 4 && p[0] == '\\' && p[1] == '\\' && p[2] == '?' && p[3] == '\\' {
            let v = p.skip(4);
            if v.len() >= 4 && v[0] == 'U' && v[1] == 'N' && v[2] == 'C' && is_sep(v[3], false) {
                let w = v.skip(4);
                let server = first_sep(w, true);
                let after = comp_and_sep(w, true);
                let share = first_sep(w.skip(after as int), true);
                (PrefixKind::VerbatimUnc, 8 + server + if share > 0 { 1 + share } else { 0 })
            } else if v.len() >= 2 && is_alpha(v[0]) && v[1] == ':' && (v.len() == 2 || v[2] == '\\') {
                (PrefixKind::VerbatimDisk, 6)
            } else {
                (PrefixKind::Verbatim, 4 + first_sep(v, true))
            }
        } else if r.len() >= 2 && r[0] == '.' && is_sep(r[1], false) {
            (PrefixKind::DeviceNs, 4 + first_sep(r.skip(2), false))
        } else {
            let server = first_sep(r, false);
            let after = comp_and_sep(r, false);
            let share = first_sep(r.skip(after as int), false);
            if server > 0 && share > 0 {
                (PrefixKind::Unc, 2 + server + 1 + share)
            } else {
                (PrefixKind::NoPrefix, 0)
            }
        }
    } else if p.len() >= 2 && is_alpha(p[0]) && p[1] == ':' {
        (PrefixKind::Disk, 2)
    } else {
        (PrefixKind::NoPrefix, 0)
    }
}

/// The fixed lengths of drive prefixes and the minimum of a verbatim UNC prefix.
pub proof fn lemma_prefix_len(p: Seq<char>)
    ensures
        spec_prefix(p).0 == PrefixKind::Disk ==> spec_prefix(p).1 == 2,
        spec_prefix(p).0 == PrefixKind::VerbatimDisk ==> spec_prefix(p).1 == 6,
        spec_prefix(p).0 == PrefixKind::VerbatimUnc ==> spec_prefix(p).1 >= 8,
{
}

/// One component of a path after its prefix and root.
pub enum Comp {
    Cur,
    Parent,
    Normal(Vec<char>),
}

pub enum SComp {
    Cur,
    Parent,
    Normal(Seq<char>),
}

impl View for Comp {
    type V = SComp;

    open spec fn view(&self) -> SComp {
        match self {
            Comp::Cur => SComp::Cur,
            Comp::Parent => SComp::Parent,
            Comp::Normal(v) => SComp::Normal(v@),
        }
    }
}

/// The separator-delimited pieces of `s`, empty ones included.
pub open spec fn pieces(s: Seq<char>, verbatim: bool) -> Seq<Seq<char>>
    decreases s.len(),
{
    let k = first_sep(s, verbatim);
    if k >= s.len() {
        seq![s]
    } else {
        seq![s.take(k as int)] + pieces(s.skip(k as int + 1), verbatim)
    }
}

pub open spec fn is_dot(s: Seq<char>) -> bool {
    s.len() == 1 && s[0] == '.'
}

pub open spec fn is_dotdot(s: Seq<char>) -> bool {
    s.len() == 2 && s[0] == '.' && s[1] == '.'
}

/// Components contributed by a sequence of pieces.
pub open spec fn body_comps(ps: Seq<Seq<char>>, verbatim: bool) -> Seq<SComp>
    decreases ps.len(),
{
    if ps.len() == 0 {
        seq![]
    } else {
        let rest = body_comps(ps.drop_first(), verbatim);
        let q = ps[0];
        if q.len() == 0 {
            rest
        } else if is_dot(q) {
            if verbatim { seq![SComp::Cur] + rest } else { rest }
        } else if is_dotdot(q) {
            seq![SComp::Parent] + rest
        } else {
            seq![SComp::Normal(q)] + rest
        }
    }
}

/// A parsed path: prefix kind and text, whether a root separator follows, and the
/// remaining components.
pub struct SPath {
    pub kind: PrefixKind,
    pub prefix: Seq<char>,
    pub root: bool,
    pub comps: Seq<SComp>,
}

pub open spec fn spec_parse(p: Seq<char>) -> SPath {
    let (kind, plen) = spec_prefix(p);
    let verbatim = is_verbatim_kind(kind);
    let after = p.skip(plen as int);
    let root = after.len() > 0 && is_sep(after[0], verbatim);
    let body = if root { after.drop_first() } else { after };
    let has_root = root || (kind != PrefixKind::NoPrefix && kind != PrefixKind::Disk);
    let lead_cur = !has_root && body.len() > 0 && body[0] == '.' && (body.len() == 1 || is_sep(
        body[1],
        verbatim,
    ));
    let comps = if lead_cur {
        seq![SComp::Cur] + body_comps(pieces(body.drop_first(), verbatim), verbatim)
    } else {
        body_comps(pieces(body, verbatim), verbatim)
    };
    SPath { kind, prefix: p.take(plen as int), root, comps }
}

/// The final component of a path when it is a normal name (`Path::file_name`).
pub open spec fn spec_file_name(p: Seq<char>) -> Option<Seq<char>> {
    let sp = spec_parse(p);
    if sp.comps.len() == 0 {
        None
    } else {
        match sp.comps.last() {
            SComp::Normal(n) => Some(n),
            _ => None,
        }
    }
}


proof fn lemma_first_sep_skip(s: Seq<char>, i: int, verbatim: bool)
    requires
        0 <= i < s.len(),
        !is_sep(s[i], verbatim),
    ensures
        first_sep(s.skip(i), verbatim) == 1 + first_sep(s.skip(i + 1), verbatim),
{
    assert(s.skip(i).drop_first() =~= s.skip(i + 1));
}

/// `first_sep` is the position of the first separator (the length when there is none).
pub proof fn lemma_first_sep_bound(s: Seq<char>, verbatim: bool)
    ensures
        first_sep(s, verbatim) <= s.len(),
        first_sep(s, verbatim) < s.len() ==> is_sep(s[first_sep(s, verbatim) as int], verbatim),
        forall|j: int| 0 <= j < first_sep(s, verbatim) ==> !is_sep(#[trigger] s[j], verbatim),
    decreases s.len(),
{
    if s.len() > 0 && !is_sep(s[0], verbatim) {
        lemma_first_sep_bound(s.drop_first(), verbatim);
        assert forall|j: int| 0 <= j < first_sep(s, verbatim) implies !is_sep(#[trigger] s[j], verbatim) by {
            if j > 0 {
                assert(s[j] == s.drop_first()[j - 1]);
            }
        }
    }
}

pub fn is_sep_exec(c: char, verbatim: bool) -> (r: bool)
    ensures
        r == is_sep(c, verbatim),
{
    c == '\\' || (!verbatim && c == '/')
}

/// Index of the first separator at or after `from`, or the length of `s`.
pub fn find_sep(s: &[char], from: usize, verbatim: bool) -> (r: usize)
    requires
        from <= s@.len(),
    ensures
        r == from + first_sep(s@.skip(from as int), verbatim),
        r <= s@.len(),
{
    let mut i = from;
    while i < s.len()
        invariant
            from <= i <= s@.len(),
            first_sep(s@.skip(from as int), verbatim) == (i - from) + first_sep(
                s@.skip(i as int),
                verbatim,
            ),
        decreases s@.len() - i,
    {
        if is_sep_exec(s[i], verbatim) {
            assert(first_sep(s@.skip(i as int), verbatim) == 0);
            return i;
        }
        proof {
            lemma_first_sep_skip(s@, i as int, verbatim);
        }
        i = i + 1;
    }
    assert(s@.skip(i as int).len() == 0);
    i
}

/// Length of the component starting at `from` plus one when a separator follows it.
fn comp_and_sep_exec(s: &[char], from: usize, verbatim: bool) -> (r: usize)
    requires
        from <= s@.len(),
    ensures
        r == comp_and_sep(s@.skip(from as int), verbatim),
        from + r <= s@.len(),
{
    let k = find_sep(s, from, verbatim);
    proof {
        lemma_first_sep_bound(s@.skip(from as int), verbatim);
    }
    if k < s.len() {
        k - from + 1
    } else {
        k - from
    }
}

fn is_alpha_exec(c: char) -> (r: bool)
    ensures
        r == is_alpha(c),
{
    ('a' <= c && c <= 'z') || ('A' <= c && c <= 'Z')
}

/// Kind and length of the prefix of `p`.
pub fn prefix_of(p: &[char]) -> (r: (PrefixKind, usize))
    ensures
        r.0 == spec_prefix(p@).0,
        r.1 == spec_prefix(p@).1,
        r.1 <= p@.len(),
{
    let n = p.len();
    if n >= 2 && is_sep_exec(p[0], false) && is_sep_exec(p[1], false) {
        if n >= 4 && p[0] == '\\' && p[1] == '\\' && p[2] == '?' && p[3] == '\\' {
            let ghost v = p@.skip(4);
            if n >= 8 && p[4] == 'U' && p[5] == 'N' && p[6] == 'C' && is_sep_exec(p[7], false) {
                let ghost w = v.skip(4);
                assert(w =~= p@.skip(8));
                let server_end = find_sep(p, 8, true);
                let after = comp_and_sep_exec(p, 8, true);
                assert(w.skip(after as int) =~= p@.skip(8 + after));
                let share_end = find_sep(p, 8 + after, true);
                let server = server_end - 8;
                let share = share_end - (8 + after);
                (PrefixKind::VerbatimUnc, 8 + server + if share > 0 { 1 + share } else { 0 })
            } else if n >= 6 && is_alpha_exec(p[4]) && p[5] == ':' && (n == 6 || p[6] == '\\') {
                (PrefixKind::VerbatimDisk, 6)
            } else {
                assert(v =~= p@.skip(4));
                let e = find_sep(p, 4, true);
                (PrefixKind::Verbatim, e)
            }
        } else if n >= 4 && p[2] == '.' && is_sep_exec(p[3], false) {
            assert(p@.skip(2).skip(2) =~= p@.skip(4));
            let e = find_sep(p, 4, false);
            (PrefixKind::DeviceNs, e)
        } else {
            assert(p@.skip(2) =~= p@.skip(2));
            let server_end = find_sep(p, 2, false);
            let after = comp_and_sep_exec(p, 2, false);
            assert(p@.skip(2).skip(after as int) =~= p@.skip(2 + after));
            let share_end = find_sep(p, 2 + after, false);
            let server = server_end - 2;
            let share = share_end - (2 + after);
            if server > 0 && share > 0 {
                (PrefixKind::Unc, 2 + server + 1 + share)
            } else {
                (PrefixKind::NoPrefix, 0)
            }
        }
    } else if n >= 2 && is_alpha_exec(p[0]) && p[1] == ':' {
        (PrefixKind::Disk, 2)
    } else {
        (PrefixKind::NoPrefix, 0)
    }
}


/// The characters of `s` in `[a, b)`.
pub fn sub_chars(s: &[char], a: usize, b: usize) -> (r: Vec<char>)
    requires
        a <= b <= s@.len(),
    ensures
        r@ == s@.subrange(a as int, b as int),
{
    let mut r: Vec<char> = Vec::new();
    let mut i = a;
    while i < b
        invariant
            a <= i <= b <= s@.len(),
            r@ == s@.subrange(a as int, i as int),
        decreases b - i,
    {
        r.push(s[i]);
        i = i + 1;
    }
    r
}

pub open spec fn comps_view(v: Seq<Comp>) -> Seq<SComp> {
    v.map_values(|c: Comp| c@)
}

/// The component contributed by one piece, if any.
pub open spec fn piece_comps(q: Seq<char>, verbatim: bool) -> Seq<SComp> {
    if q.len() == 0 {
        seq![]
    } else if is_dot(q) {
        if verbatim { seq![SComp::Cur] } else { seq![] }
    } else if is_dotdot(q) {
        seq![SComp::Parent]
    } else {
        seq![SComp::Normal(q)]
    }
}

proof fn lemma_body_comps_cons(q: Seq<char>, rest: Seq<Seq<char>>, verbatim: bool)
    ensures
        body_comps(seq![q] + rest, verbatim) == piece_comps(q, verbatim) + body_comps(rest, verbatim),
{
    let ps = seq![q] + rest;
    assert(ps.drop_first() =~= rest);
    assert(ps[0] == q);
    let b = body_comps(rest, verbatim);
    if q.len() == 0 {
        assert(piece_comps(q, verbatim) + b =~= b);
    } else if is_dot(q) && !verbatim {
        assert(piece_comps(q, verbatim) + b =~= b);
    }
}

/// Splitting at separators from position `i` takes the text up to the next
/// separator as the first piece and goes on after it.
pub proof fn lemma_pieces_step(s: Seq<char>, i: int, verbatim: bool)
    requires
        0 <= i <= s.len(),
    ensures
        ({
            let x = s.skip(i);
            let k = first_sep(x, verbatim);
            if k >= x.len() {
                pieces(x, verbatim) == seq![x]
            } else {
                pieces(x, verbatim) == seq![x.take(k as int)] + pieces(s.skip(i + k + 1), verbatim)
            }
        }),
{
    let x = s.skip(i);
    let k = first_sep(x, verbatim);
    if k < x.len() {
        assert(x.skip(k as int + 1) =~= s.skip(i + k + 1));
    }
}

fn classify_piece(q: Vec<char>, verbatim: bool, out: &mut Vec<Comp>)
    ensures
        comps_view(final(out)@) == comps_view(old(out)@) + piece_comps(q@, verbatim),
{
    let ghost before = comps_view(out@);
    if q.len() == 0 {
        assert(comps_view(out@) =~= before + piece_comps(q@, verbatim));
    } else if q.len() == 1 && q[0] == '.' {
        if verbatim {
            out.push(Comp::Cur);
        }
        assert(comps_view(out@) =~= before + piece_comps(q@, verbatim));
    } else if q.len() == 2 && q[0] == '.' && q[1] == '.' {
        out.push(Comp::Parent);
        assert(comps_view(out@) =~= before + piece_comps(q@, verbatim));
    } else {
        let ghost qv = q@;
        out.push(Comp::Normal(q));
        assert(comps_view(out@) =~= before + piece_comps(qv, verbatim));
    }
}

/// Appends the components of `s` from `from` on.
fn body_components(s: &[char], from: usize, verbatim: bool, out: &mut Vec<Comp>)
    requires
        from <= s@.len(),
    ensures
        comps_view(final(out)@) == comps_view(old(out)@) + body_comps(
            pieces(s@.skip(from as int), verbatim),
            verbatim,
        ),
{
    let ghost start = comps_view(out@);
    let mut i = from;
    loop
        invariant
            from <= i <= s@.len(),
            start == comps_view(old(out)@),
            start + body_comps(pieces(s@.skip(from as int), verbatim), verbatim) == comps_view(
                out@,
            ) + body_comps(pieces(s@.skip(i as int), verbatim), verbatim),
        decreases s@.len() - i,
    {
        let k = find_sep(s, i, verbatim);
        proof {
            lemma_pieces_step(s@, i as int, verbatim);
            lemma_first_sep_bound(s@.skip(i as int), verbatim);
        }
        let q = sub_chars(s, i, k);
        assert(q@ =~= s@.skip(i as int).take(k - i));
        let ghost mid = comps_view(out@);
        classify_piece(q, verbatim, out);
        if k >= s.len() {
            assert(s@.skip(i as int).take(k - i) =~= s@.skip(i as int));
            proof {
                lemma_body_comps_cons(s@.skip(i as int), seq![], verbatim);
                assert(seq![s@.skip(i as int)] + Seq::<Seq<char>>::empty() =~= seq![s@.skip(
                    i as int,
                )]);
                assert(body_comps(Seq::<Seq<char>>::empty(), verbatim) =~= Seq::<SComp>::empty());
                assert(comps_view(out@) + Seq::<SComp>::empty() =~= comps_view(out@));
                assert(mid + piece_comps(q@, verbatim) + Seq::<SComp>::empty() =~= mid
                    + piece_comps(q@, verbatim));
                assert(pieces(s@.skip(i as int), verbatim) == seq![s@.skip(i as int)]);
                assert(body_comps(pieces(s@.skip(i as int), verbatim), verbatim) == piece_comps(
                    q@,
                    verbatim,
                ));
                assert(comps_view(out@) == start + body_comps(
                    pieces(s@.skip(from as int), verbatim),
                    verbatim,
                ));
            }
            return;
        }
        proof {
            lemma_body_comps_cons(
                s@.skip(i as int).take(k - i),
                pieces(s@.skip(k as int + 1), verbatim),
                verbatim,
            );
            assert(mid + (piece_comps(q@, verbatim) + body_comps(
                pieces(s@.skip(k as int + 1), verbatim),
                verbatim,
            )) =~= (mid + piece_comps(q@, verbatim)) + body_comps(
                pieces(s@.skip(k as int + 1), verbatim),
                verbatim,
            ));
        }
        i = k + 1;
    }
}

/// A parsed Windows path.
pub struct WinPath {
    pub kind: PrefixKind,
    pub prefix_len: usize,
    pub root: bool,
    pub comps: Vec<Comp>,
}

/// Splits `p` into prefix, root and components, as `Path::components` does on Windows.
pub fn parse_path(p: &[char]) -> (r: WinPath)
    ensures
        r.kind == spec_parse(p@).kind,
        r.prefix_len == spec_prefix(p@).1,
        p@.take(r.prefix_len as int) == spec_parse(p@).prefix,
        r.root == spec_parse(p@).root,
        comps_view(r.comps@) == spec_parse(p@).comps,
        r.prefix_len <= p@.len(),
{
    let (kind, plen) = prefix_of(p);
    let verbatim = kind == PrefixKind::Verbatim || kind == PrefixKind::VerbatimDisk || kind
        == PrefixKind::VerbatimUnc;
    let n = p.len();
    let root = plen < n && is_sep_exec(p[plen], verbatim);
    let body_start = if root { plen + 1 } else { plen };
    let ghost after = p@.skip(plen as int);
    let ghost body = if root { after.drop_first() } else { after };
    assert(body =~= p@.skip(body_start as int));
    let has_root = root || (kind != PrefixKind::NoPrefix && kind != PrefixKind::Disk);
    let lead_cur = !has_root && body_start < n && p[body_start] == '.' && (body_start + 1 == n
        || is_sep_exec(p[body_start + 1], verbatim));
    let mut comps: Vec<Comp> = Vec::new();
    if lead_cur {
        comps.push(Comp::Cur);
        assert(body.drop_first() =~= p@.skip(body_start as int + 1));
        body_components(p, body_start + 1, verbatim, &mut comps);
    } else {
        body_components(p, body_start, verbatim, &mut comps);
    }
    WinPath { kind, prefix_len: plen, root, comps }
}

/// The final component of `p` when it is a normal name (`Path::file_name`).
pub fn file_name(p: &[char]) -> (r: Option<Vec<char>>)
    ensures
        match r {
            Some(v) => spec_file_name(p@) == Some(v@),
            None => spec_file_name(p@) is None,
        },
{
    let wp = parse_path(p);
    let n = wp.comps.len();
    if n == 0 {
        return None;
    }
    assert(comps_view(wp.comps@).last() == wp.comps@[n - 1]@);
    match &wp.comps[n - 1] {
        Comp::Normal(v) => Some(v.clone()),
        _ => None,
    }
}


pub open spec fn no_seps(s: Seq<char>) -> bool {
    forall|i: int| 0 <= i < s.len() ==> !is_sep(#[trigger] s[i], false)
}

/// `base` is exactly a drive prefix such as `C:`.
pub open spec fn is_bare_drive(base: Seq<char>) -> bool {
    base.len() == 2 && spec_prefix(base).0 == PrefixKind::Disk
}

/// `Path::join` on Windows: a `name` with a prefix replaces `base`; one that starts
/// with a separator keeps only the prefix of `base`; otherwise a `\` is inserted
/// unless `base` is empty, already ends with a separator, or is a bare drive.
/// (A verbatim `base` is not normalised.)
pub open spec fn spec_join(base: Seq<char>, name: Seq<char>) -> Seq<char> {
    if spec_prefix(name).0 != PrefixKind::NoPrefix {
        name
    } else if name.len() > 0 && is_sep(name[0], false) {
        base.take(spec_prefix(base).1 as int) + name
    } else if base.len() > 0 && !is_sep(base.last(), false) && !is_bare_drive(base) {
        base + seq!['\\'] + name
    } else {
        base + name
    }
}

/// Joins `name` onto a base path (see `spec_join`).
pub fn join_name(base: &[char], name: &[char]) -> (r: Vec<char>)
    ensures
        r@ == spec_join(base@, name@),
{
    let (nk, _) = prefix_of(name);
    if nk != PrefixKind::NoPrefix {
        return sub_chars(name, 0, name.len());
    }
    let n = base.len();
    let (bk, bl) = prefix_of(base);
    if name.len() > 0 && is_sep_exec(name[0], false) {
        let mut r = sub_chars(base, 0, bl);
        let ghost r0 = r@;
        let mut i: usize = 0;
        while i < name.len()
            invariant
                i <= name@.len(),
                r@ == r0 + name@.take(i as int),
            decreases name@.len() - i,
        {
            assert(name@.take(i as int + 1) =~= name@.take(i as int).push(name@[i as int]));
            r.push(name[i]);
            i = i + 1;
        }
        assert(name@.take(name@.len() as int) =~= name@);
        assert(base@.subrange(0, bl as int) =~= base@.take(bl as int));
        return r;
    }
    let bare = n == 2 && bk == PrefixKind::Disk;
    let mut r = sub_chars(base, 0, n);
    assert(base@.subrange(0, n as int) =~= base@);
    if n > 0 && !is_sep_exec(base[n - 1], false) && !bare {
        r.push('\\');
    }
    let mut i: usize = 0;
    let ghost r0 = r@;
    while i < name.len()
        invariant
            i <= name@.len(),
            r@ == r0 + name@.take(i as int),
        decreases name@.len() - i,
    {
        assert(name@.take(i as int + 1) =~= name@.take(i as int).push(name@[i as int]));
        r.push(name[i]);
        i = i + 1;
    }
    assert(name@.take(name@.len() as int) =~= name@);
    if n > 0 && !is_sep_exec(base[n - 1], false) && !bare {
        assert(r@ =~= base@ + seq!['\\'] + name@);
    } else {
        assert(r@ =~= base@ + name@);
    }
    r
}

pub open spec fn comp_text(c: SComp) -> Seq<char> {
    match c {
        SComp::Cur => seq!['.'],
        SComp::Parent => seq!['.', '.'],
        SComp::Normal(n) => n,
    }
}

/// Appends component texts to `buf`, separated by `\` (none after a bare drive
/// prefix, an empty buffer, or a trailing separator).
pub open spec fn join_comps(buf: Seq<char>, bare: bool, cs: Seq<SComp>) -> Seq<char>
    decreases cs.len(),
{
    if cs.len() == 0 {
        buf
    } else {
        let t = comp_text(cs[0]);
        let nb = if buf.len() > 0 && !bare && !is_sep(buf.last(), false) {
            buf + seq!['\\'] + t
        } else {
            buf + t
        };
        join_comps(nb, false, cs.drop_first())
    }
}

/// The path made of the prefix, the root and the first `k` components of `sp`.
pub open spec fn spec_rebuild(sp: SPath, k: int) -> Seq<char> {
    join_comps(
        sp.prefix + if sp.root { seq!['\\'] } else { Seq::<char>::empty() },
        sp.kind == PrefixKind::Disk && !sp.root,
        sp.comps.take(k),
    )
}

fn comp_chars(c: &Comp) -> (r: Vec<char>)
    ensures
        r@ == comp_text(c@),
{
    match c {
        Comp::Cur => {
            let mut v = Vec::new();
            v.push('.');
            assert(v@ =~= seq!['.']);
            v
        },
        Comp::Parent => {
            let mut v = Vec::new();
            v.push('.');
            v.push('.');
            assert(v@ =~= seq!['.', '.']);
            v
        },
        Comp::Normal(n) => n.clone(),
    }
}

proof fn lemma_join_comps_step(buf: Seq<char>, bare: bool, cs: Seq<SComp>, j: int)
    requires
        0 <= j < cs.len(),
    ensures
        ({
            let t = comp_text(cs[j]);
            let nb = if buf.len() > 0 && !bare && !is_sep(buf.last(), false) {
                buf + seq!['\\'] + t
            } else {
                buf + t
            };
            join_comps(buf, bare, cs.skip(j)) == join_comps(nb, false, cs.skip(j + 1))
        }),
{
    assert(cs.skip(j).drop_first() =~= cs.skip(j + 1));
    assert(cs.skip(j)[0] == cs[j]);
}

/// Rebuilds the path from its prefix, root and the first `k` components.
pub fn rebuild(p: &[char], wp: &WinPath, k: usize) -> (r: Vec<char>)
    requires
        wp.kind == spec_parse(p@).kind,
        p@.take(wp.prefix_len as int) == spec_parse(p@).prefix,
        wp.root == spec_parse(p@).root,
        comps_view(wp.comps@) == spec_parse(p@).comps,
        wp.prefix_len <= p@.len(),
        k <= wp.comps@.len(),
    ensures
        r@ == spec_rebuild(spec_parse(p@), k as int),
{
    let ghost sp = spec_parse(p@);
    let mut buf = sub_chars(p, 0, wp.prefix_len);
    if wp.root {
        buf.push('\\');
    }
    let ghost b0 = sp.prefix + if sp.root { seq!['\\'] } else { Seq::<char>::empty() };
    assert(buf@ =~= b0);
    let mut bare = wp.kind == PrefixKind::Disk && !wp.root;
    let ghost cs = sp.comps.take(k as int);
    let mut j: usize = 0;
    assert(cs.skip(0) =~= cs);
    while j < k
        invariant
            j <= k <= wp.comps@.len(),
            cs == comps_view(wp.comps@).take(k as int),
            join_comps(b0, sp.kind == PrefixKind::Disk && !sp.root, cs) == join_comps(
                buf@,
                bare,
                cs.skip(j as int),
            ),
        decreases k - j,
    {
        proof {
            lemma_join_comps_step(buf@, bare, cs, j as int);
        }
        let t = comp_chars(&wp.comps[j]);
        assert(cs[j as int] == wp.comps@[j as int]@);
        let need = buf.len() > 0 && !bare && !is_sep_exec(buf[buf.len() - 1], false);
        let ghost old_buf = buf@;
        if need {
            buf.push('\\');
        }
        let ghost b1 = buf@;
        let mut q: usize = 0;
        while q < t.len()
            invariant
                q <= t@.len(),
                buf@ == b1 + t@.take(q as int),
            decreases t@.len() - q,
        {
            assert(t@.take(q as int + 1) =~= t@.take(q as int).push(t@[q as int]));
            buf.push(t[q]);
            q = q + 1;
        }
        assert(t@.take(t@.len() as int) =~= t@);
        if need {
            assert(buf@ =~= old_buf + seq!['\\'] + comp_text(cs[j as int]));
        } else {
            assert(buf@ =~= old_buf + comp_text(cs[j as int]));
        }
        bare = false;
        j = j + 1;
    }
    assert(cs.skip(k as int) =~= Seq::<SComp>::empty());
    buf
}


} // verus!

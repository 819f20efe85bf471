//! Parsing a path rebuilt from the leading components of a parsed path gives
//! back the same prefix, root and components (for paths without a verbatim
//! prefix).
use vstd::prelude::*;
use crate::winpath::{
    is_sep, first_sep, comp_and_sep, spec_prefix, spec_parse, spec_rebuild, join_comps, comp_text,
    pieces, body_comps, is_dot, is_dotdot, is_verbatim_kind, lemma_first_sep_bound, PrefixKind, SComp,
    SPath,
};

verus! {

/// No separator in `s`.
pub open spec fn sep_free(s: Seq<char>) -> bool {
    forall|j: int| 0 <= j < s.len() ==> !is_sep(#[trigger] s[j], false)
}

/// Empty, or starting with a separator.
pub open spec fn sep_led(t: Seq<char>) -> bool {
    t.len() == 0 || is_sep(t[0], false)
}

proof fn lemma_first_sep_at_end(a: Seq<char>, t: Seq<char>)
    requires
        sep_free(a),
        sep_led(t),
    ensures
        first_sep(a + t, false) == a.len(),
    decreases a.len(),
{
    if a.len() == 0 {
        assert(a + t =~= t);
    } else {
        assert((a + t).drop_first() =~= a.drop_first() + t);
        assert((a + t)[0] == a[0]);
        assert(!is_sep(a[0], false));
        lemma_first_sep_at_end(a.drop_first(), t);
    }
}

/// Two texts that agree, without separators, on their first `m` characters,
/// and each of which ends there or goes on with a separator, have their first
/// separator at `m`.
proof fn lemma_first_sep_same(x: Seq<char>, y: Seq<char>, m: int)
    requires
        0 <= m <= x.len(),
        m <= y.len(),
        forall|j: int| 0 <= j < m ==> x[j] == y[j] && !is_sep(#[trigger] x[j], false),
        sep_led(x.skip(m)),
        sep_led(y.skip(m)),
    ensures
        first_sep(x, false) == m,
        first_sep(y, false) == m,
{
    assert(x =~= x.take(m) + x.skip(m));
    assert(y =~= y.take(m) + y.skip(m));
    assert(sep_free(x.take(m)));
    assert forall|j: int| 0 <= j < m implies !is_sep(#[trigger] y.take(m)[j], false) by {
        assert(x[j] == y[j]);
    }
    lemma_first_sep_at_end(x.take(m), x.skip(m));
    lemma_first_sep_at_end(y.take(m), y.skip(m));
}

/// A component as parsing a path without a verbatim prefix gives it, past a
/// leading `.`.
pub open spec fn plain_comp(c: SComp) -> bool {
    match c {
        SComp::Cur => false,
        SComp::Parent => true,
        SComp::Normal(n) => n.len() > 0 && !is_dot(n) && !is_dotdot(n) && sep_free(n),
    }
}

/// Every component's text is non-empty and free of separators.
pub open spec fn texts_ok(cs: Seq<SComp>) -> bool {
    forall|i: int| 0 <= i < cs.len() ==> comp_text(#[trigger] cs[i]).len() > 0 && sep_free(comp_text(cs[i]))
}

/// Component texts joined by `\`.
pub open spec fn joined(cs: Seq<SComp>) -> Seq<char>
    decreases cs.len(),
{
    if cs.len() == 0 {
        seq![]
    } else if cs.len() == 1 {
        comp_text(cs[0])
    } else {
        comp_text(cs[0]) + seq!['\\'] + joined(cs.drop_first())
    }
}

proof fn lemma_join_comps_joined(buf: Seq<char>, bare: bool, cs: Seq<SComp>)
    requires
        texts_ok(cs),
    ensures
        join_comps(buf, bare, cs) == (if cs.len() == 0 || buf.len() == 0 || bare || is_sep(
            buf.last(),
            false,
        ) {
            buf + joined(cs)
        } else {
            buf + seq!['\\'] + joined(cs)
        }),
    decreases cs.len(),
{
    if cs.len() == 0 {
        assert(buf + joined(cs) =~= buf);
    } else {
        let t = comp_text(cs[0]);
        assert(t.len() > 0 && sep_free(t));
        let nb = if buf.len() > 0 && !bare && !is_sep(buf.last(), false) {
            buf + seq!['\\'] + t
        } else {
            buf + t
        };
        let rest = cs.drop_first();
        assert(texts_ok(rest)) by {
            assert forall|i: int| 0 <= i < rest.len() implies comp_text(#[trigger] rest[i]).len() > 0
                && sep_free(comp_text(rest[i])) by {
                assert(rest[i] == cs[i + 1]);
            }
        }
        lemma_join_comps_joined(nb, false, rest);
        assert(nb.last() == t.last());
        assert(!is_sep(t[t.len() - 1], false));
        if rest.len() == 0 {
            assert(nb + joined(rest) =~= nb);
        } else {
            assert(joined(cs) == t + seq!['\\'] + joined(rest));
        }
        if buf.len() > 0 && !bare && !is_sep(buf.last(), false) {
            assert(nb + (if rest.len() == 0 { Seq::<char>::empty() } else { seq!['\\'] }) + joined(rest)
                =~= buf + seq!['\\'] + joined(cs));
        } else {
            assert(nb + (if rest.len() == 0 { Seq::<char>::empty() } else { seq!['\\'] }) + joined(rest)
                =~= buf + joined(cs));
        }
    }
}

proof fn lemma_pieces_joined(cs: Seq<SComp>)
    requires
        texts_ok(cs),
        cs.len() > 0,
    ensures
        pieces(joined(cs), false) == cs.map_values(|c: SComp| comp_text(c)),
    decreases cs.len(),
{
    let t = comp_text(cs[0]);
    assert(t.len() > 0 && sep_free(t));
    if cs.len() == 1 {
        assert(t + Seq::<char>::empty() =~= t);
        lemma_first_sep_at_end(t, Seq::empty());
        assert(cs.map_values(|c: SComp| comp_text(c)) =~= seq![t]);
    } else {
        let rest = cs.drop_first();
        assert(texts_ok(rest)) by {
            assert forall|i: int| 0 <= i < rest.len() implies comp_text(#[trigger] rest[i]).len() > 0
                && sep_free(comp_text(rest[i])) by {
                assert(rest[i] == cs[i + 1]);
            }
        }
        lemma_pieces_joined(rest);
        let j = joined(cs);
        let tail = seq!['\\'] + joined(rest);
        assert(j =~= t + tail);
        lemma_first_sep_at_end(t, tail);
        assert(j.take(t.len() as int) =~= t);
        assert(j.skip(t.len() as int + 1) =~= joined(rest));
        assert(cs.map_values(|c: SComp| comp_text(c)) =~= seq![t] + rest.map_values(|c: SComp| comp_text(c)));
    }
}

proof fn lemma_body_plain(cs: Seq<SComp>)
    requires
        forall|i: int| 0 <= i < cs.len() ==> plain_comp(#[trigger] cs[i]),
    ensures
        body_comps(cs.map_values(|c: SComp| comp_text(c)), false) == cs,
    decreases cs.len(),
{
    if cs.len() > 0 {
        let ps = cs.map_values(|c: SComp| comp_text(c));
        let rest = cs.drop_first();
        assert(ps.drop_first() =~= rest.map_values(|c: SComp| comp_text(c)));
        assert forall|i: int| 0 <= i < rest.len() implies plain_comp(#[trigger] rest[i]) by {
            assert(rest[i] == cs[i + 1]);
        }
        lemma_body_plain(rest);
        assert(plain_comp(cs[0]));
        assert(ps[0] == comp_text(cs[0]));
        assert(seq![cs[0]] + rest =~= cs);
    }
}

/// The prefix of a path with a UNC or device prefix ends where the path does or
/// at a separator, and putting any such ending after it keeps the prefix.
proof fn lemma_prefix_unc_dev(p: Seq<char>, t: Seq<char>)
    requires
        spec_prefix(p).0 == PrefixKind::Unc || spec_prefix(p).0 == PrefixKind::DeviceNs,
        sep_led(t),
    ensures
        spec_prefix(p).1 <= p.len(),
        sep_led(p.skip(spec_prefix(p).1 as int)),
        spec_prefix(p.take(spec_prefix(p).1 as int) + t) == spec_prefix(p),
{
    let plen = spec_prefix(p).1 as int;
    let x = p.skip(2);
    if spec_prefix(p).0 == PrefixKind::DeviceNs {
        let nm = x.skip(2);
        lemma_first_sep_bound(nm, false);
        let n = first_sep(nm, false) as int;
        assert(plen == 4 + n);
        assert(p.skip(plen) =~= nm.skip(n));
        let r = p.take(plen) + t;
        assert(r.skip(2).skip(2) =~= nm.take(n) + t);
        assert(nm.take(n) + t == r.skip(4)) by {
            assert(nm.take(n) + t =~= r.skip(4));
        }
        assert(nm =~= nm.take(n) + nm.skip(n));
        lemma_first_sep_same(nm, r.skip(2).skip(2), n);
        assert(r[0] == p[0] && r[1] == p[1] && r[2] == p[2] && r[3] == p[3]);
        assert(r.skip(2)[0] == x[0] && r.skip(2)[1] == x[1]);
    } else {
        lemma_first_sep_bound(x, false);
        let server = first_sep(x, false) as int;
        let after = comp_and_sep(x, false) as int;
        let y = x.skip(after);
        lemma_first_sep_bound(y, false);
        let share = first_sep(y, false) as int;
        assert(server > 0 && share > 0);
        if server >= x.len() {
            assert(y.len() == 0);
        }
        assert(server < x.len());
        assert(after == server + 1);
        assert(plen == 2 + server + 1 + share);
        assert(p.skip(plen) =~= y.skip(share));
        let r = p.take(plen) + t;
        let rx = r.skip(2);
        assert forall|j: int| 0 <= j < server implies x[j] == rx[j] && !is_sep(#[trigger] x[j], false) by {}
        assert(x.skip(server)[0] == x[server]);
        assert(rx.skip(server)[0] == x[server]);
        lemma_first_sep_same(x, rx, server);
        let ry = rx.skip(after);
        assert forall|j: int| 0 <= j < share implies y[j] == ry[j] && !is_sep(#[trigger] y[j], false) by {
            assert(y[j] == p[2 + after + j]);
            assert(ry[j] == r[2 + after + j]);
        }
        assert(ry.skip(share) =~= t);
        lemma_first_sep_same(y, ry, share);
        assert(comp_and_sep(rx, false) == after);
        assert(r[0] == p[0] && r[1] == p[1] && r[2] == p[2] && r[3] == p[3]);
        assert(rx[0] == x[0] && rx[1] == x[1]);
    }
}

proof fn lemma_pieces_sep_free(x: Seq<char>)
    ensures
        forall|i: int| 0 <= i < pieces(x, false).len() ==> sep_free(#[trigger] pieces(x, false)[i]),
    decreases x.len(),
{
    lemma_first_sep_bound(x, false);
    let k = first_sep(x, false) as int;
    if k < x.len() {
        lemma_pieces_sep_free(x.skip(k + 1));
        let rest = pieces(x.skip(k + 1), false);
        assert forall|i: int| 0 <= i < pieces(x, false).len() implies sep_free(#[trigger] pieces(x, false)[i]) by {
            if i > 0 {
                assert(pieces(x, false)[i] == rest[i - 1]);
            }
        }
    }
}

proof fn lemma_body_comps_plain(ps: Seq<Seq<char>>)
    requires
        forall|i: int| 0 <= i < ps.len() ==> sep_free(#[trigger] ps[i]),
    ensures
        forall|j: int| 0 <= j < body_comps(ps, false).len() ==> plain_comp(#[trigger] body_comps(ps, false)[j]),
    decreases ps.len(),
{
    if ps.len() > 0 {
        let rest = ps.drop_first();
        assert forall|i: int| 0 <= i < rest.len() implies sep_free(#[trigger] rest[i]) by {
            assert(rest[i] == ps[i + 1]);
        }
        lemma_body_comps_plain(rest);
        let q = ps[0];
        assert(sep_free(q));
        let b = body_comps(rest, false);
        let all = body_comps(ps, false);
        assert forall|j: int| 0 <= j < all.len() implies plain_comp(#[trigger] all[j]) by {
            if q.len() == 0 || is_dot(q) {
                assert(all == b);
            } else if is_dotdot(q) {
                assert(all == seq![SComp::Parent] + b);
                if j > 0 {
                    assert(all[j] == b[j - 1]);
                }
            } else {
                assert(all == seq![SComp::Normal(q)] + b);
                if j > 0 {
                    assert(all[j] == b[j - 1]);
                }
            }
        }
    }
}

/// The components of a path without a verbatim prefix: a leading `.` only
/// first and only without a root, all others plain.
proof fn lemma_parse_plain(p: Seq<char>)
    requires
        !is_verbatim_kind(spec_parse(p).kind),
    ensures
        forall|i: int|
            0 <= i < spec_parse(p).comps.len() ==> plain_comp(#[trigger] spec_parse(p).comps[i]) || (i == 0
                && spec_parse(p).comps[i] == SComp::Cur),
        texts_ok(spec_parse(p).comps),
{
    let sp = spec_parse(p);
    let (kind, plen) = spec_prefix(p);
    let after = p.skip(plen as int);
    let root = after.len() > 0 && is_sep(after[0], false);
    let body = if root { after.drop_first() } else { after };
    let has_root = root || (kind != PrefixKind::NoPrefix && kind != PrefixKind::Disk);
    let lead_cur = !has_root && body.len() > 0 && body[0] == '.' && (body.len() == 1 || is_sep(body[1], false));
    let src = if lead_cur { body.drop_first() } else { body };
    lemma_pieces_sep_free(src);
    lemma_body_comps_plain(pieces(src, false));
    let bc = body_comps(pieces(src, false), false);
    assert forall|i: int| 0 <= i < sp.comps.len() implies plain_comp(#[trigger] sp.comps[i]) || (i == 0
        && sp.comps[i] == SComp::Cur) by {
        if lead_cur {
            if i > 0 {
                assert(sp.comps[i] == bc[i - 1]);
            }
        } else {
            assert(sp.comps[i] == bc[i]);
        }
    }
    assert forall|i: int| 0 <= i < sp.comps.len() implies comp_text(#[trigger] sp.comps[i]).len() > 0
        && sep_free(comp_text(sp.comps[i])) by {
        if sp.comps[i] == SComp::Cur {
            assert(comp_text(sp.comps[i]) == seq!['.']);
        } else if sp.comps[i] == SComp::Parent {
            assert(comp_text(sp.comps[i]) == seq!['.', '.']);
        } else {
            assert(plain_comp(sp.comps[i]));
        }
    }
}

proof fn lemma_body_of_joined(cs: Seq<SComp>)
    requires
        forall|i: int| 0 <= i < cs.len() ==> plain_comp(#[trigger] cs[i]),
    ensures
        body_comps(pieces(joined(cs), false), false) == cs,
{
    if cs.len() == 0 {
        assert(pieces(Seq::<char>::empty(), false) == seq![Seq::<char>::empty()]);
        assert(seq![Seq::<char>::empty()].drop_first() =~= Seq::<Seq<char>>::empty());
        let e1 = seq![Seq::<char>::empty()];
        assert(e1[0].len() == 0);
        assert(body_comps(e1.drop_first(), false) =~= Seq::<SComp>::empty());
        assert(body_comps(e1, false) =~= cs);
    } else {
        assert forall|i: int| 0 <= i < cs.len() implies comp_text(#[trigger] cs[i]).len() > 0 && sep_free(
            comp_text(cs[i]),
        ) by {
            assert(plain_comp(cs[i]));
            if cs[i] == SComp::Parent {
                assert(comp_text(cs[i]) == seq!['.', '.']);
            }
        }
        lemma_pieces_joined(cs);
        lemma_body_plain(cs);
    }
}

/// Parsing the text `j` of components `cs` after a prefix: what `spec_parse`
/// computes past the prefix.
proof fn lemma_parse_joined(cs: Seq<SComp>, has_root: bool)
    requires
        forall|i: int| 0 <= i < cs.len() ==> plain_comp(#[trigger] cs[i]) || (i == 0 && cs[i] == SComp::Cur),
        cs.len() > 0 && cs[0] == SComp::Cur ==> !has_root,
    ensures
        ({
            let j = joined(cs);
            let lead_cur = !has_root && j.len() > 0 && j[0] == '.' && (j.len() == 1 || is_sep(j[1], false));
            &&& (j.len() > 0 ==> !is_sep(j[0], false))
            &&& (if lead_cur {
                seq![SComp::Cur] + body_comps(pieces(j.drop_first(), false), false)
            } else {
                body_comps(pieces(j, false), false)
            }) == cs
        }),
{
    let j = joined(cs);
    if cs.len() > 0 {
        let t0 = comp_text(cs[0]);
        let rest = cs.drop_first();
        assert forall|i: int| 0 <= i < rest.len() implies plain_comp(#[trigger] rest[i]) by {
            assert(rest[i] == cs[i + 1]);
        }
        if rest.len() > 0 {
            assert(j == t0 + seq!['\\'] + joined(rest));
        }
        assert(j[0] == t0[0]);
        if cs[0] == SComp::Cur {
            assert(t0 == seq!['.']);
            let d = j.drop_first();
            if rest.len() == 0 {
                assert(d =~= Seq::<char>::empty());
                lemma_body_of_joined(rest);
            } else {
                assert(j[1] == '\\');
                assert(d =~= seq!['\\'] + joined(rest));
                assert(first_sep(d, false) == 0);
                assert(d.take(0) =~= Seq::<char>::empty());
                assert(d.skip(1) =~= joined(rest));
                assert(pieces(d, false) == seq![Seq::<char>::empty()] + pieces(joined(rest), false));
                assert((seq![Seq::<char>::empty()] + pieces(joined(rest), false)).drop_first() =~= pieces(
                    joined(rest),
                    false,
                ));
                lemma_body_of_joined(rest);
            }
            assert(seq![SComp::Cur] + rest =~= cs);
        } else {
            assert(plain_comp(cs[0]));
            if cs[0] == SComp::Parent {
                assert(t0 == seq!['.', '.']);
            } else {
                assert(t0.len() > 0 && sep_free(t0));
                if t0[0] == '.' && t0.len() == 1 {
                    assert(is_dot(t0));
                }
                if t0.len() >= 2 {
                    assert(j[1] == t0[1]);
                }
            }
            lemma_body_of_joined(cs);
        }
    } else {
        lemma_body_of_joined(cs);
    }
}

/// What follows the prefix in a rebuilt path: the root separator, if any, and
/// the components joined by `\`.
pub open spec fn rebuilt_tail(sp: SPath, k: int) -> Seq<char> {
    (if sp.root { seq!['\\'] } else { Seq::<char>::empty() }) + joined(sp.comps.take(k))
}

/// Whether the parsed path has a root (a separator, or a prefix that implies one).
pub open spec fn parsed_has_root(sp: SPath) -> bool {
    sp.root || (sp.kind != PrefixKind::NoPrefix && sp.kind != PrefixKind::Disk)
}

proof fn lemma_cs_shape(p: Seq<char>, k: int)
    requires
        !is_verbatim_kind(spec_parse(p).kind),
        0 <= k <= spec_parse(p).comps.len(),
    ensures
        ({
            let sp = spec_parse(p);
            let cs = sp.comps.take(k);
            &&& forall|i: int| 0 <= i < cs.len() ==> plain_comp(#[trigger] cs[i]) || (i == 0 && cs[i] == SComp::Cur)
            &&& texts_ok(cs)
            &&& (cs.len() > 0 && cs[0] == SComp::Cur ==> !parsed_has_root(sp))
            &&& ((sp.kind == PrefixKind::Unc || sp.kind == PrefixKind::DeviceNs) && !sp.root ==> sp.comps.len() == 0)
            &&& spec_prefix(p).1 <= p.len()
        }),
{
    let sp = spec_parse(p);
    let kind = spec_prefix(p).0;
    let plen = spec_prefix(p).1 as int;
    let after = p.skip(plen);
    let root = sp.root;
    let body = if root { after.drop_first() } else { after };
    let has_root = root || (kind != PrefixKind::NoPrefix && kind != PrefixKind::Disk);
    let lead_cur = !has_root && body.len() > 0 && body[0] == '.' && (body.len() == 1 || is_sep(body[1], false));
    lemma_parse_plain(p);
    if kind == PrefixKind::Unc || kind == PrefixKind::DeviceNs {
        lemma_prefix_unc_dev(p, Seq::empty());
        if !root {
            assert(after.len() == 0);
            assert(pieces(body, false) == seq![body]);
            let e1 = seq![body];
            assert(e1[0].len() == 0);
            assert(body_comps(e1.drop_first(), false) =~= Seq::<SComp>::empty());
            assert(sp.comps.len() == 0);
        }
    }
    let src = if lead_cur { body.drop_first() } else { body };
    lemma_pieces_sep_free(src);
    lemma_body_comps_plain(pieces(src, false));
    if sp.comps.len() > 0 && sp.comps[0] == SComp::Cur && !lead_cur {
        assert(plain_comp(body_comps(pieces(src, false), false)[0]));
    }
    let cs = sp.comps.take(k);
    assert forall|i: int| 0 <= i < cs.len() implies plain_comp(#[trigger] cs[i]) || (i == 0 && cs[i]
        == SComp::Cur) by {
        assert(cs[i] == sp.comps[i]);
    }
    assert(texts_ok(cs)) by {
        assert forall|i: int| 0 <= i < cs.len() implies comp_text(#[trigger] cs[i]).len() > 0 && sep_free(
            comp_text(cs[i]),
        ) by {
            assert(cs[i] == sp.comps[i]);
        }
    }
}

proof fn lemma_rebuilt_text(p: Seq<char>, k: int)
    requires
        !is_verbatim_kind(spec_parse(p).kind),
        0 <= k <= spec_parse(p).comps.len(),
    ensures
        spec_rebuild(spec_parse(p), k) == spec_parse(p).prefix + rebuilt_tail(spec_parse(p), k),
        spec_parse(p).prefix == p.take(spec_prefix(p).1 as int),
        spec_prefix(p).1 <= p.len(),
{
    let sp = spec_parse(p);
    lemma_cs_shape(p, k);
    let cs = sp.comps.take(k);
    let rr = if sp.root { seq!['\\'] } else { Seq::<char>::empty() };
    let big_p = sp.prefix;
    let bare = sp.kind == PrefixKind::Disk && !sp.root;
    lemma_join_comps_joined(big_p + rr, bare, cs);
    if cs.len() == 0 {
        assert(joined(cs) =~= Seq::<char>::empty());
    } else if sp.root {
        assert((big_p + rr).last() == '\\');
    } else if sp.kind == PrefixKind::NoPrefix {
        assert(big_p =~= Seq::<char>::empty());
    }
    assert(spec_rebuild(sp, k) =~= big_p + rebuilt_tail(sp, k));
}

/// The head of a path without prefix or root whose first component is not `.`:
/// that component's text runs up to the first separator.
proof fn lemma_noprefix_head(p: Seq<char>)
    requires
        spec_prefix(p).0 == PrefixKind::NoPrefix,
        !spec_parse(p).root,
        spec_parse(p).comps.len() > 0,
        spec_parse(p).comps[0] != SComp::Cur,
    ensures
        p.len() > 0,
        !is_sep(p[0], false),
        !(p.len() >= 2 && crate::winpath::is_alpha(p[0]) && p[1] == ':'),
        0 < first_sep(p, false) <= p.len(),
        comp_text(spec_parse(p).comps[0]) == p.take(first_sep(p, false) as int),
{
    let sp = spec_parse(p);
    let plen = spec_prefix(p).1 as int;
    assert(plen == 0);
    let after = p.skip(plen);
    assert(after =~= p);
    lemma_first_sep_bound(p, false);
    let fs = first_sep(p, false) as int;
    let q0 = p.take(fs);
    if fs < p.len() {
        assert(pieces(p, false) == seq![q0] + pieces(p.skip(fs + 1), false));
    } else {
        assert(q0 =~= p);
    }
    let ps = pieces(p, false);
    assert(ps[0] == q0);
    if p.len() == 0 {
        assert(ps == seq![p]);
        let e1 = seq![p];
        assert(e1[0].len() == 0);
        assert(body_comps(e1.drop_first(), false) =~= Seq::<SComp>::empty());
    }
    assert(!is_sep(p[0], false));
    assert(fs > 0);
    if is_dot(q0) {
        assert(p[0] == '.');
        assert(fs == 1);
    }
    assert(sp.comps == body_comps(ps, false));
    if is_dotdot(q0) {
        assert(body_comps(ps, false) == seq![SComp::Parent] + body_comps(ps.drop_first(), false));
    } else {
        assert(body_comps(ps, false) == seq![SComp::Normal(q0)] + body_comps(ps.drop_first(), false));
    }
}

proof fn lemma_rebuilt_prefix(p: Seq<char>, k: int)
    requires
        !is_verbatim_kind(spec_parse(p).kind),
        0 <= k <= spec_parse(p).comps.len(),
    ensures
        spec_prefix(spec_rebuild(spec_parse(p), k)) == spec_prefix(p),
{
    let sp = spec_parse(p);
    let kind = sp.kind;
    let plen = spec_prefix(p).1 as int;
    lemma_cs_shape(p, k);
    lemma_rebuilt_text(p, k);
    let cs = sp.comps.take(k);
    lemma_parse_joined(cs, parsed_has_root(sp));
    let j = joined(cs);
    let t = rebuilt_tail(sp, k);
    let r = spec_rebuild(sp, k);
    if kind == PrefixKind::Unc || kind == PrefixKind::DeviceNs {
        lemma_prefix_unc_dev(p, t);
    } else if kind == PrefixKind::Disk {
        assert(r[0] == p[0] && r[1] == p[1]);
    } else {
        assert(plen == 0);
        assert(r =~= t);
        if sp.root {
            if cs.len() > 0 {
                assert(r[1] == j[0]);
            }
        } else if cs.len() > 0 && cs[0] != SComp::Cur {
            assert(cs[0] == sp.comps[0]);
            lemma_noprefix_head(p);
            let fs = first_sep(p, false) as int;
            let t0 = comp_text(cs[0]);
            assert(t0 == p.take(fs));
            if cs.len() > 1 {
                assert(j == t0 + seq!['\\'] + joined(cs.drop_first()));
            }
            assert(j[0] == p[0]);
            if t0.len() >= 2 {
                assert(j[1] == p[1]);
            } else if j.len() >= 2 {
                assert(j[1] == '\\');
            }
        } else if cs.len() > 0 {
            assert(comp_text(cs[0]) == seq!['.']);
            assert(j[0] == '.');
        }
    }
}

/// Rebuilding a path without a verbatim prefix from its prefix, its root and
/// its first `k` components, and parsing the result, gives back that prefix,
/// that root and those components.
pub proof fn lemma_reparse_rebuild(p: Seq<char>, k: int)
    requires
        !is_verbatim_kind(spec_parse(p).kind),
        0 <= k <= spec_parse(p).comps.len(),
    ensures
        spec_parse(spec_rebuild(spec_parse(p), k)) == (SPath {
            kind: spec_parse(p).kind,
            prefix: spec_parse(p).prefix,
            root: spec_parse(p).root,
            comps: spec_parse(p).comps.take(k),
        }),
{
    let sp = spec_parse(p);
    let plen = spec_prefix(p).1 as int;
    lemma_cs_shape(p, k);
    lemma_rebuilt_text(p, k);
    lemma_rebuilt_prefix(p, k);
    let cs = sp.comps.take(k);
    lemma_parse_joined(cs, parsed_has_root(sp));
    let j = joined(cs);
    let t = rebuilt_tail(sp, k);
    let r = spec_rebuild(sp, k);
    assert(r.take(plen) =~= sp.prefix);
    assert(r.skip(plen) =~= t);
    if sp.root {
        assert(t.drop_first() =~= j);
    } else {
        assert(t =~= j);
    }
}

// ---- paths with a verbatim prefix ----

/// No `\` in `s` (the only separator after a verbatim prefix).
pub open spec fn bs_free(s: Seq<char>) -> bool {
    forall|j: int| 0 <= j < s.len() ==> !is_sep(#[trigger] s[j], true)
}

/// Empty, or starting with `\`.
pub open spec fn bs_led(t: Seq<char>) -> bool {
    t.len() == 0 || is_sep(t[0], true)
}

proof fn lemma_first_bs_at_end(a: Seq<char>, t: Seq<char>)
    requires
        bs_free(a),
        bs_led(t),
    ensures
        first_sep(a + t, true) == a.len(),
    decreases a.len(),
{
    if a.len() == 0 {
        assert(a + t =~= t);
    } else {
        assert((a + t).drop_first() =~= a.drop_first() + t);
        assert((a + t)[0] == a[0]);
        assert(!is_sep(a[0], true));
        lemma_first_bs_at_end(a.drop_first(), t);
    }
}

proof fn lemma_first_bs_same(x: Seq<char>, y: Seq<char>, m: int)
    requires
        0 <= m <= x.len(),
        m <= y.len(),
        forall|j: int| 0 <= j < m ==> x[j] == y[j] && !is_sep(#[trigger] x[j], true),
        bs_led(x.skip(m)),
        bs_led(y.skip(m)),
    ensures
        first_sep(x, true) == m,
        first_sep(y, true) == m,
{
    assert(x =~= x.take(m) + x.skip(m));
    assert(y =~= y.take(m) + y.skip(m));
    assert(bs_free(x.take(m)));
    assert forall|j: int| 0 <= j < m implies !is_sep(#[trigger] y.take(m)[j], true) by {
        assert(x[j] == y[j]);
    }
    lemma_first_bs_at_end(x.take(m), x.skip(m));
    lemma_first_bs_at_end(y.take(m), y.skip(m));
}

/// A component as parsing gives it after a verbatim prefix.
pub open spec fn verbatim_comp(c: SComp) -> bool {
    match c {
        SComp::Cur => true,
        SComp::Parent => true,
        SComp::Normal(n) => n.len() > 0 && !is_dot(n) && !is_dotdot(n) && bs_free(n),
    }
}

/// Components whose texts are non-empty and free of `\`, and of which none but
/// the last ends in `/` (rebuilding would join such a one to the next).
pub open spec fn texts_ok_v(cs: Seq<SComp>) -> bool {
    &&& forall|i: int| 0 <= i < cs.len() ==> comp_text(#[trigger] cs[i]).len() > 0 && bs_free(comp_text(cs[i]))
    &&& forall|i: int| 0 <= i < cs.len() - 1 ==> comp_text(#[trigger] cs[i]).last() != '/'
}

proof fn lemma_texts_ok_v_rest(cs: Seq<SComp>)
    requires
        texts_ok_v(cs),
        cs.len() > 0,
    ensures
        texts_ok_v(cs.drop_first()),
{
    let rest = cs.drop_first();
    assert forall|i: int| 0 <= i < rest.len() implies comp_text(#[trigger] rest[i]).len() > 0 && bs_free(
        comp_text(rest[i]),
    ) by {
        assert(rest[i] == cs[i + 1]);
    }
    assert forall|i: int| 0 <= i < rest.len() - 1 implies comp_text(#[trigger] rest[i]).last() != '/' by {
        assert(rest[i] == cs[i + 1]);
    }
}

proof fn lemma_join_comps_joined_v(buf: Seq<char>, bare: bool, cs: Seq<SComp>)
    requires
        texts_ok_v(cs),
    ensures
        join_comps(buf, bare, cs) == (if cs.len() == 0 || buf.len() == 0 || bare || is_sep(
            buf.last(),
            false,
        ) {
            buf + joined(cs)
        } else {
            buf + seq!['\\'] + joined(cs)
        }),
    decreases cs.len(),
{
    if cs.len() == 0 {
        assert(buf + joined(cs) =~= buf);
    } else {
        let t = comp_text(cs[0]);
        assert(t.len() > 0 && bs_free(t));
        let nb = if buf.len() > 0 && !bare && !is_sep(buf.last(), false) {
            buf + seq!['\\'] + t
        } else {
            buf + t
        };
        let rest = cs.drop_first();
        lemma_texts_ok_v_rest(cs);
        lemma_join_comps_joined_v(nb, false, rest);
        assert(nb.last() == t.last());
        if rest.len() == 0 {
            assert(nb + joined(rest) =~= nb);
        } else {
            assert(t.last() != '/');
            assert(!is_sep(t[t.len() - 1], true));
            assert(joined(cs) == t + seq!['\\'] + joined(rest));
        }
        if buf.len() > 0 && !bare && !is_sep(buf.last(), false) {
            assert(nb + (if rest.len() == 0 { Seq::<char>::empty() } else { seq!['\\'] }) + joined(rest)
                =~= buf + seq!['\\'] + joined(cs));
        } else {
            assert(nb + (if rest.len() == 0 { Seq::<char>::empty() } else { seq!['\\'] }) + joined(rest)
                =~= buf + joined(cs));
        }
    }
}

proof fn lemma_pieces_joined_v(cs: Seq<SComp>)
    requires
        texts_ok_v(cs),
        cs.len() > 0,
    ensures
        pieces(joined(cs), true) == cs.map_values(|c: SComp| comp_text(c)),
    decreases cs.len(),
{
    let t = comp_text(cs[0]);
    assert(t.len() > 0 && bs_free(t));
    if cs.len() == 1 {
        assert(t + Seq::<char>::empty() =~= t);
        lemma_first_bs_at_end(t, Seq::empty());
        assert(cs.map_values(|c: SComp| comp_text(c)) =~= seq![t]);
    } else {
        let rest = cs.drop_first();
        lemma_texts_ok_v_rest(cs);
        lemma_pieces_joined_v(rest);
        let j = joined(cs);
        let tail = seq!['\\'] + joined(rest);
        assert(j =~= t + tail);
        lemma_first_bs_at_end(t, tail);
        assert(j.take(t.len() as int) =~= t);
        assert(j.skip(t.len() as int + 1) =~= joined(rest));
        assert(cs.map_values(|c: SComp| comp_text(c)) =~= seq![t] + rest.map_values(|c: SComp| comp_text(c)));
    }
}

proof fn lemma_body_verbatim(cs: Seq<SComp>)
    requires
        forall|i: int| 0 <= i < cs.len() ==> verbatim_comp(#[trigger] cs[i]),
    ensures
        body_comps(cs.map_values(|c: SComp| comp_text(c)), true) == cs,
    decreases cs.len(),
{
    if cs.len() > 0 {
        let ps = cs.map_values(|c: SComp| comp_text(c));
        let rest = cs.drop_first();
        assert(ps.drop_first() =~= rest.map_values(|c: SComp| comp_text(c)));
        assert forall|i: int| 0 <= i < rest.len() implies verbatim_comp(#[trigger] rest[i]) by {
            assert(rest[i] == cs[i + 1]);
        }
        lemma_body_verbatim(rest);
        assert(verbatim_comp(cs[0]));
        assert(ps[0] == comp_text(cs[0]));
        assert(seq![cs[0]] + rest =~= cs);
    }
}

proof fn lemma_pieces_bs_free(x: Seq<char>)
    ensures
        forall|i: int| 0 <= i < pieces(x, true).len() ==> bs_free(#[trigger] pieces(x, true)[i]),
    decreases x.len(),
{
    lemma_first_sep_bound(x, true);
    let k = first_sep(x, true) as int;
    if k < x.len() {
        lemma_pieces_bs_free(x.skip(k + 1));
        let rest = pieces(x.skip(k + 1), true);
        assert forall|i: int| 0 <= i < pieces(x, true).len() implies bs_free(#[trigger] pieces(x, true)[i]) by {
            if i > 0 {
                assert(pieces(x, true)[i] == rest[i - 1]);
            }
        }
    }
}

proof fn lemma_body_comps_verbatim(ps: Seq<Seq<char>>)
    requires
        forall|i: int| 0 <= i < ps.len() ==> bs_free(#[trigger] ps[i]),
    ensures
        forall|j: int| 0 <= j < body_comps(ps, true).len() ==> verbatim_comp(#[trigger] body_comps(ps, true)[j]),
    decreases ps.len(),
{
    if ps.len() > 0 {
        let rest = ps.drop_first();
        assert forall|i: int| 0 <= i < rest.len() implies bs_free(#[trigger] rest[i]) by {
            assert(rest[i] == ps[i + 1]);
        }
        lemma_body_comps_verbatim(rest);
        let q = ps[0];
        assert(bs_free(q));
        let b = body_comps(rest, true);
        let all = body_comps(ps, true);
        assert forall|j: int| 0 <= j < all.len() implies verbatim_comp(#[trigger] all[j]) by {
            if q.len() == 0 {
                assert(all == b);
            } else if is_dot(q) {
                assert(all == seq![SComp::Cur] + b);
                if j > 0 {
                    assert(all[j] == b[j - 1]);
                }
            } else if is_dotdot(q) {
                assert(all == seq![SComp::Parent] + b);
                if j > 0 {
                    assert(all[j] == b[j - 1]);
                }
            } else {
                assert(all == seq![SComp::Normal(q)] + b);
                if j > 0 {
                    assert(all[j] == b[j - 1]);
                }
            }
        }
    }
}

/// The length of the server name after a verbatim UNC prefix's `\\?\UNC\`.
pub open spec fn verbatim_server_len(p: Seq<char>) -> nat {
    first_sep(p.skip(8), true)
}

/// A verbatim UNC prefix whose share name is empty (it ends after the server).
pub open spec fn empty_share(p: Seq<char>) -> bool {
    spec_prefix(p).0 == PrefixKind::VerbatimUnc && spec_prefix(p).1 == 8 + verbatim_server_len(p)
}

/// The prefix of a path with a verbatim prefix ends where the path does or at a
/// `\`; putting after it another such ending (both empty or neither) keeps the
/// prefix, except that after an empty share name more than a `\` would be read
/// as the share.
proof fn lemma_prefix_verbatim(p: Seq<char>, t: Seq<char>)
    requires
        is_verbatim_kind(spec_prefix(p).0),
        bs_led(t),
        spec_prefix(p).1 <= p.len() ==> ((p.skip(spec_prefix(p).1 as int).len() == 0) == (t.len() == 0)),
        empty_share(p) ==> t.len() <= 1,
    ensures
        spec_prefix(p).1 <= p.len(),
        bs_led(p.skip(spec_prefix(p).1 as int)),
        spec_prefix(p.take(spec_prefix(p).1 as int) + t) == spec_prefix(p),
{
    let kind = spec_prefix(p).0;
    let plen = spec_prefix(p).1 as int;
    let v = p.skip(4);
    assert(p.len() >= 4 && p[0] == '\\' && p[1] == '\\' && p[2] == '?' && p[3] == '\\');
    if kind == PrefixKind::VerbatimDisk {
        assert(plen == 6);
        assert(p.skip(6) =~= v.skip(2));
        let r = p.take(plen) + t;
        let vr = r.skip(4);
        assert(r[0] == p[0] && r[1] == p[1] && r[2] == p[2] && r[3] == p[3]);
        assert(vr[0] == v[0] && vr[1] == v[1]);
        if t.len() > 0 {
            assert(vr[2] == t[0]);
        } else {
            assert(vr.len() == 2);
        }
    } else if kind == PrefixKind::Verbatim {
        lemma_first_sep_bound(v, true);
        let m = first_sep(v, true) as int;
        assert(plen == 4 + m);
        assert(p.skip(plen) =~= v.skip(m));
        let r = p.take(plen) + t;
        let vr = r.skip(4);
        assert(vr =~= v.take(m) + t);
        assert(vr.skip(m) =~= t);
        assert forall|j: int| 0 <= j < m implies v[j] == vr[j] && !is_sep(#[trigger] v[j], true) by {}
        lemma_first_bs_same(v, vr, m);
        assert(r[0] == p[0] && r[1] == p[1] && r[2] == p[2] && r[3] == p[3]);
        assert((vr.len() == m) == (v.len() == m));
        assert(v.len() > m ==> v[m] == '\\' && vr[m] == '\\');
        assert(forall|i: int| 0 <= i < m ==> vr[i] == v[i]);
        if m >= 4 {
            assert(vr[0] == v[0] && vr[1] == v[1] && vr[2] == v[2] && vr[3] == v[3]);
        }
    } else {
        let w = v.skip(4);
        assert(w =~= p.skip(8));
        lemma_first_sep_bound(w, true);
        let server = first_sep(w, true) as int;
        let after = comp_and_sep(w, true) as int;
        let y = w.skip(after);
        lemma_first_sep_bound(y, true);
        let share = first_sep(y, true) as int;
        let r = p.take(plen) + t;
        let vr = r.skip(4);
        let wr = vr.skip(4);
        assert(r[0] == p[0] && r[1] == p[1] && r[2] == p[2] && r[3] == p[3]);
        assert(vr[0] == v[0] && vr[1] == v[1] && vr[2] == v[2] && vr[3] == v[3]);
        assert forall|j: int| 0 <= j < server implies w[j] == wr[j] && !is_sep(#[trigger] w[j], true) by {
            assert(w[j] == p[8 + j]);
            assert(wr[j] == r[8 + j]);
        }
        if share > 0 {
            if server >= w.len() {
                assert(y.len() == 0);
            }
            assert(after == server + 1);
            assert(plen == 8 + server + 1 + share);
            assert(p.skip(plen) =~= y.skip(share));
            assert(w.skip(server)[0] == w[server]);
            assert(wr.skip(server)[0] == r[8 + server]);
            lemma_first_bs_same(w, wr, server);
            let ry = wr.skip(after);
            assert forall|j: int| 0 <= j < share implies y[j] == ry[j] && !is_sep(#[trigger] y[j], true) by {
                assert(y[j] == p[8 + after + j]);
                assert(ry[j] == r[8 + after + j]);
            }
            assert(ry.skip(share) =~= t);
            lemma_first_bs_same(y, ry, share);
            assert(comp_and_sep(wr, true) == after);
        } else {
            assert(verbatim_server_len(p) == server);
            assert(plen == 8 + server);
            assert(p.skip(plen) =~= w.skip(server));
            assert(wr =~= w.take(server) + t);
            assert(wr.skip(server) =~= t);
            lemma_first_bs_same(w, wr, server);
            let ar = comp_and_sep(wr, true) as int;
            assert(wr.skip(ar).len() == 0);
            assert(first_sep(wr.skip(ar), true) == 0);
        }
    }
}

/// Rebuilding a path with a verbatim prefix from its prefix, its root and its
/// first `k` components, and parsing the result, gives back that prefix, that
/// root and those components, when no component before the last of them ends in
/// `/` (rebuilding would join it to the next) and the prefix does not end in an
/// empty share name while components follow (the first would be read as the
/// share).
pub proof fn lemma_reparse_rebuild_verbatim(p: Seq<char>, k: int)
    requires
        is_verbatim_kind(spec_parse(p).kind),
        0 <= k <= spec_parse(p).comps.len(),
        forall|i: int| 0 <= i < k - 1 ==> comp_text(#[trigger] spec_parse(p).comps[i]).last() != '/',
        !(empty_share(p) && k > 0),
    ensures
        spec_parse(spec_rebuild(spec_parse(p), k)) == (SPath {
            kind: spec_parse(p).kind,
            prefix: spec_parse(p).prefix,
            root: spec_parse(p).root,
            comps: spec_parse(p).comps.take(k),
        }),
{
    let sp = spec_parse(p);
    let plen = spec_prefix(p).1 as int;
    let after = p.skip(plen);
    let t0 = if after.len() == 0 { Seq::<char>::empty() } else { seq!['\\'] };
    lemma_prefix_verbatim(p, t0);
    let root = sp.root;
    let body = if root { after.drop_first() } else { after };
    if !root {
        assert(after.len() == 0);
        assert(pieces(body, true) == seq![body]);
        let e1 = seq![body];
        assert(e1[0].len() == 0);
        assert(body_comps(e1.drop_first(), true) =~= Seq::<SComp>::empty());
        assert(sp.comps.len() == 0);
    }
    lemma_pieces_bs_free(body);
    lemma_body_comps_verbatim(pieces(body, true));
    assert(sp.comps == body_comps(pieces(body, true), true));
    let cs = sp.comps.take(k);
    assert forall|i: int| 0 <= i < cs.len() implies verbatim_comp(#[trigger] cs[i]) by {
        assert(cs[i] == sp.comps[i]);
    }
    assert(texts_ok_v(cs)) by {
        assert forall|i: int| 0 <= i < cs.len() implies comp_text(#[trigger] cs[i]).len() > 0 && bs_free(
            comp_text(cs[i]),
        ) by {
            assert(cs[i] == sp.comps[i]);
            assert(verbatim_comp(cs[i]));
            if cs[i] == SComp::Cur {
                assert(comp_text(cs[i]) == seq!['.']);
            } else if cs[i] == SComp::Parent {
                assert(comp_text(cs[i]) == seq!['.', '.']);
            }
        }
        assert forall|i: int| 0 <= i < cs.len() - 1 implies comp_text(#[trigger] cs[i]).last() != '/' by {
            assert(cs[i] == sp.comps[i]);
        }
    }
    let rr = if root { seq!['\\'] } else { Seq::<char>::empty() };
    let j = joined(cs);
    let t = rr + j;
    let big_p = p.take(plen);
    assert(sp.prefix == big_p);
    let r = spec_rebuild(sp, k);
    lemma_join_comps_joined_v(big_p + rr, false, cs);
    assert(sp.kind != PrefixKind::Disk);
    if cs.len() == 0 {
        assert(j =~= Seq::<char>::empty());
    } else {
        assert((big_p + rr).last() == '\\');
    }
    assert(r =~= big_p + t);
    lemma_prefix_verbatim(p, t);
    assert(r.take(plen) =~= big_p);
    assert(r.skip(plen) =~= t);
    if root {
        assert(t.drop_first() =~= j);
    } else {
        assert(t =~= j);
    }
    if cs.len() == 0 {
        assert(pieces(j, true) == seq![j]);
        let e1 = seq![j];
        assert(e1[0].len() == 0);
        assert(body_comps(e1.drop_first(), true) =~= Seq::<SComp>::empty());
        assert(body_comps(pieces(j, true), true) =~= cs);
    } else {
        lemma_pieces_joined_v(cs);
        lemma_body_verbatim(cs);
    }
}


} // verus!

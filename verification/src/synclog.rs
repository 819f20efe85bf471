//! The sync log, the one-line progress file and the live progress counters.
use vstd::prelude::*;
use crate::text::{chars_of, string_of, push_str, push_dec, dec, trim, trim_chars, parse_unsigned, parse_unsigned_chars};
use crate::winpath::{spec_join, sub_chars};
use crate::gamescan::{index_of, lemma_index_of};

verus! {

/// `<home>\.lrgex\sync.log`.
pub fn log_path(home: &str) -> (r: String)
    ensures
        r@ == spec_join(spec_join(home@, ".lrgex"@), "sync.log"@),
{
    let d = crate::config::data_dir(home);
    crate::config::join(d.as_str(), "sync.log")
}

/// `<home>\.lrgex\sync-progress.json`: the live progress snapshot.
pub fn status_path(home: &str) -> (r: String)
    ensures
        r@ == spec_join(spec_join(home@, ".lrgex"@), "sync-progress.json"@),
{
    let d = crate::config::data_dir(home);
    crate::config::join(d.as_str(), "sync-progress.json")
}

/// `<home>\.lrgex\sync-progress.txt`: the one-line progress message.
pub fn progress_path(home: &str) -> (r: String)
    ensures
        r@ == spec_join(spec_join(home@, ".lrgex"@), "sync-progress.txt"@),
{
    let d = crate::config::data_dir(home);
    crate::config::join(d.as_str(), "sync-progress.txt")
}

/// A log line: the timestamp, a space, the message and CRLF.
pub fn log_line(timestamp: &str, msg: &str) -> (r: String)
    ensures
        r@ == timestamp@ + " "@ + msg@ + "\r\n"@,
{
    let mut v: Vec<char> = Vec::new();
    push_str(&mut v, timestamp);
    push_str(&mut v, " ");
    push_str(&mut v, msg);
    push_str(&mut v, "\r\n");
    string_of(&v)
}

// ==================== LINES ====================

/// A line without the `\r` of a CRLF ending.
pub open spec fn strip_cr(l: Seq<char>) -> Seq<char> {
    if l.len() > 0 && l.last() == '\r' {
        l.drop_last()
    } else {
        l
    }
}

/// The lines of a text (`str::lines`): split after each `\n`, that `\n` and a `\r`
/// before it removed; a last line without `\n` is kept as it is.
pub open spec fn text_lines(s: Seq<char>) -> Seq<Seq<char>>
    decreases s.len(),
{
    if s.len() == 0 {
        seq![]
    } else {
        match index_of(s, '\n') {
            Some(i) => {
                proof {
                    lemma_index_of(s, '\n');
                }
                seq![strip_cr(s.take(i))] + text_lines(s.skip(i + 1))
            },
            None => seq![s],
        }
    }
}

/// The lines of `s` (see `text_lines`).
pub fn lines_of(s: &Vec<char>) -> (r: Vec<Vec<char>>)
    ensures
        r@.len() == text_lines(s@).len(),
        forall|i: int| 0 <= i < r@.len() ==> (#[trigger] r@[i])@ == text_lines(s@)[i],
{
    let mut out: Vec<Vec<char>> = Vec::new();
    let mut i: usize = 0;
    assert(s@.skip(0) =~= s@);
    assert(out@.map_values(|x: Vec<char>| x@) + text_lines(s@) =~= text_lines(s@));
    while i < s.len()
        invariant
            i <= s@.len(),
            text_lines(s@) == out@.map_values(|x: Vec<char>| x@) + text_lines(s@.skip(i as int)),
        decreases s@.len() - i,
    {
        let ghost rest = s@.skip(i as int);
        let ghost before = out@.map_values(|x: Vec<char>| x@);
        let mut k = i;
        while k < s.len() && s[k] != '\n'
            invariant
                i <= k <= s@.len(),
                forall|j: int| i <= j < k ==> s@[j] != '\n',
            decreases s@.len() - k,
        {
            k = k + 1;
        }
        proof {
            lemma_index_of(rest, '\n');
        }
        if k >= s.len() {
            assert(index_of(rest, '\n') is None) by {
                if index_of(rest, '\n') is Some {
                    let d = index_of(rest, '\n')->0;
                    assert(rest[d] == s@[i + d]);
                }
            }
            let piece = sub_chars(s.as_slice(), i, k);
            assert(piece@ =~= rest);
            out.push(piece);
            assert(text_lines(s@.skip(k as int)) =~= Seq::<Seq<char>>::empty());
            assert(out@.map_values(|x: Vec<char>| x@) =~= before.push(rest));
            assert(before + text_lines(rest) =~= before.push(rest) + text_lines(s@.skip(k as int)));
            i = k;
        } else {
            proof {
                assert(index_of(rest, '\n') == Some(k - i)) by {
                    if index_of(rest, '\n') is Some {
                        let d = index_of(rest, '\n')->0;
                        if d < k - i {
                            assert(rest[d] == s@[i + d]);
                        }
                        if d > k - i {
                            assert(rest[k - i] == s@[k as int]);
                        }
                    } else {
                        assert(rest[k - i] == s@[k as int]);
                    }
                }
                assert(rest.skip(k - i + 1) =~= s@.skip(k as int + 1));
            }
            let e = if k > i && s[k - 1] == '\r' { k - 1 } else { k };
            let piece = sub_chars(s.as_slice(), i, e);
            assert(piece@ =~= strip_cr(rest.take(k - i)));
            let ghost pv = piece@;
            out.push(piece);
            assert(out@.map_values(|x: Vec<char>| x@) =~= before.push(pv));
            assert(before + text_lines(rest) =~= before.push(pv) + text_lines(s@.skip(k as int + 1)));
            i = k + 1;
        }
    }
    let ghost fin = out@.map_values(|x: Vec<char>| x@);
    assert(s@.skip(i as int) =~= Seq::<char>::empty());
    assert(text_lines(s@) =~= fin);
    assert forall|j: int| 0 <= j < out@.len() implies (#[trigger] out@[j])@ == text_lines(s@)[j] by {
        assert(fin[j] == out@[j]@);
    }
    out
}

/// Joins `parts[from..]` with `sep`.
fn join_from(parts: &Vec<Vec<char>>, from: usize, sep: &str) -> (r: String)
    requires
        from <= parts@.len(),
    ensures
        r@ == crate::text::join_with(parts@.map_values(|x: Vec<char>| x@).skip(from as int), sep@),
{
    let ghost ps = parts@.map_values(|x: Vec<char>| x@).skip(from as int);
    let mut out: Vec<char> = Vec::new();
    let mut i: usize = from;
    assert(ps.take(0) =~= Seq::<Seq<char>>::empty());
    while i < parts.len()
        invariant
            from <= i <= parts@.len(),
            ps == parts@.map_values(|x: Vec<char>| x@).skip(from as int),
            out@ == crate::text::join_with(ps.take(i - from), sep@),
        decreases parts@.len() - i,
    {
        if i > from {
            push_str(&mut out, sep);
        }
        let ghost o = out@;
        let mut q: usize = 0;
        while q < parts[i].len()
            invariant
                from <= i < parts@.len(),
                q <= parts@[i as int]@.len(),
                out@ == o + parts@[i as int]@.take(q as int),
            decreases parts@[i as int]@.len() - q,
        {
            out.push(parts[i][q]);
            assert(parts@[i as int]@.take(q as int + 1) =~= parts@[i as int]@.take(q as int).push(
                parts@[i as int]@[q as int],
            ));
            q = q + 1;
        }
        assert(parts@[i as int]@.take(parts@[i as int]@.len() as int) =~= parts@[i as int]@);
        let ghost t = ps.take(i - from + 1);
        assert(t.drop_last() =~= ps.take(i - from));
        assert(t.last() == parts@[i as int]@);
        assert(out@ =~= crate::text::join_with(t, sep@));
        i = i + 1;
    }
    assert(ps.take(parts@.len() - from) =~= ps);
    string_of(&out)
}

/// When the log holds more than 2050 lines, its last 2000 lines joined with CRLF
/// (what it is rewritten to); otherwise nothing to rewrite.
pub fn trim_log(data: &str) -> (r: Option<String>)
    ensures
        ({
            let ls = text_lines(data@);
            match r {
                Some(t) => ls.len() > 2050 && t@ == crate::text::join_with(ls.skip(ls.len() - 2000), "\r\n"@),
                None => ls.len() <= 2050,
            }
        }),
{
    let cs = chars_of(data);
    let ls = lines_of(&cs);
    assert(ls@.map_values(|x: Vec<char>| x@) =~= text_lines(data@));
    if ls.len() > 2050 {
        Some(join_from(&ls, ls.len() - 2000, "\r\n"))
    } else {
        None
    }
}

/// The last `n` lines of the log (all of them when it has fewer) joined with CRLF.
pub fn read_tail(data: &str, n: usize) -> (r: String)
    ensures
        ({
            let ls = text_lines(data@);
            r@ == crate::text::join_with(ls.skip(if ls.len() > n { ls.len() - n } else { 0 }), "\r\n"@)
        }),
{
    let cs = chars_of(data);
    let ls = lines_of(&cs);
    assert(ls@.map_values(|x: Vec<char>| x@) =~= text_lines(data@));
    let start = if ls.len() > n { ls.len() - n } else { 0 };
    join_from(&ls, start, "\r\n")
}

// ==================== PROGRESS LINE ====================

/// The progress file's content: the writer's PID, `|`, the message.
pub fn progress_line(pid: u32, msg: &str) -> (r: String)
    ensures
        r@ == dec(pid as nat) + "|"@ + msg@,
{
    let mut v: Vec<char> = Vec::new();
    push_dec(pid as u64, &mut v);
    push_str(&mut v, "|");
    push_str(&mut v, msg);
    string_of(&v)
}

/// The PID and message of a progress file: trimmed, split at the first `|`, the
/// PID a `u32`.
pub open spec fn spec_parse_progress(raw: Seq<char>) -> Option<(nat, Seq<char>)> {
    let t = trim(raw);
    match index_of(t, '|') {
        Some(i) => match parse_unsigned(t.take(i), u32::MAX as nat) {
            Some(p) => Some((p, t.skip(i + 1))),
            None => None,
        },
        None => None,
    }
}

/// A progress line reads back as the PID and message it was written with (a
/// message that does not end in whitespace).
pub proof fn lemma_progress_round_trip(pid: u32, msg: Seq<char>)
    requires
        msg.len() > 0 ==> !crate::text::is_whitespace(msg.last()),
    ensures
        spec_parse_progress(dec(pid as nat) + "|"@ + msg) == Some((pid as nat, msg)),
{
    reveal_strlit("|");
    let d = dec(pid as nat);
    crate::text::lemma_dec_parses(pid as nat);
    crate::text::lemma_dec_no_whitespace(pid as nat);
    let s = d + "|"@ + msg;
    assert(s[0] == d[0]);
    if msg.len() > 0 {
        assert(s.last() == msg.last());
    } else {
        assert(s.last() == '|');
    }
    crate::text::lemma_trim_fixed(s);
    lemma_index_of(s, '|');
    assert(s[d.len() as int] == '|');
    match index_of(s, '|') {
        Some(i) => {
            if i < d.len() {
                assert(s[i] == d[i]);
            }
        },
        None => {},
    }
    assert(s.take(d.len() as int) =~= d);
    assert(s.skip(d.len() as int + 1) =~= msg);
}

/// Reads a progress file's content (see `spec_parse_progress`).
pub fn parse_progress(raw: &str) -> (r: Option<(u32, String)>)
    ensures
        match r {
            Some((p, m)) => spec_parse_progress(raw@) == Some((p as nat, m@)),
            None => spec_parse_progress(raw@) is None,
        },
{
    let t = trim_chars(raw);
    proof {
        lemma_index_of(t@, '|');
    }
    let mut i: usize = 0;
    while i < t.len() && t[i] != '|'
        invariant
            i <= t@.len(),
            forall|j: int| 0 <= j < i ==> t@[j] != '|',
        decreases t@.len() - i,
    {
        i = i + 1;
    }
    if i == t.len() {
        return None;
    }
    assert(index_of(t@, '|') == Some(i as int));
    let pid = sub_chars(t.as_slice(), 0, i);
    let msg = sub_chars(t.as_slice(), i + 1, t.len());
    assert(pid@ =~= t@.take(i as int));
    assert(msg@ =~= t@.skip(i as int + 1));
    match parse_unsigned_chars(pid.as_slice(), u32::MAX as u64) {
        Some(p) => Some((p as u32, string_of(&msg))),
        None => None,
    }
}

/// What the progress file shows, and whether it is to be cleared: nothing when
/// it does not parse; nothing, and cleared, when it is stale (untouched for ten
/// minutes) or its writer is gone; otherwise its message.
pub fn progress_shown(parsed: Option<(u32, String)>, stale: bool, alive: bool) -> (r: (String, bool))
    ensures
        match parsed {
            None => r.0@.len() == 0 && !r.1,
            Some((_, m)) => if stale || !alive {
                r.0@.len() == 0 && r.1
            } else {
                r.0@ == m@ && !r.1
            },
        },
{
    let empty: Vec<char> = Vec::new();
    match parsed {
        None => (string_of(&empty), false),
        Some((_, m)) => {
            if stale || !alive {
                (string_of(&empty), true)
            } else {
                (m, false)
            }
        },
    }
}

// ==================== LIVE PROGRESS ====================

/// Live progress of one operation, shared with the writer that shows it.
pub struct Progress {
    /// 0 walk, 1 compress, 2 flush, 3 done, 4 error.
    pub phase: usize,
    pub files_done: usize,
    pub files_total: usize,
    pub bytes_done: u64,
    pub bytes_total: u64,
    pub label: String,
    /// Set when the operation finished: the writer stops.
    pub stopped: bool,
}

/// `p` after one finished file of `b` bytes: the file count and the byte count
/// grow, wrapping as the counters do; nothing else changes.
pub open spec fn tick_of(p: Progress, b: u64) -> Progress {
    Progress {
        files_done: ((p.files_done + 1) % (usize::MAX as int + 1)) as usize,
        bytes_done: ((p.bytes_done + b) % 0x1_0000_0000_0000_0000) as u64,
        ..p
    }
}

/// Sum of the byte counts.
pub open spec fn sum_bytes(bs: Seq<u64>) -> int
    decreases bs.len(),
{
    if bs.len() == 0 {
        0
    } else {
        sum_bytes(bs.drop_last()) + bs.last()
    }
}

/// `p` after one tick for each byte count of `bs`, in order.
pub open spec fn ticked(p: Progress, bs: Seq<u64>) -> Progress
    decreases bs.len(),
{
    if bs.len() == 0 {
        p
    } else {
        tick_of(ticked(p, bs.drop_last()), bs.last())
    }
}

/// After n ticks the file count has grown by n and the byte count by the sum of
/// their bytes (both wrapping as the counters do); the phase, totals, label and
/// stop flag are unchanged.
pub proof fn lemma_ticks_add_up(p: Progress, bs: Seq<u64>)
    ensures
        ticked(p, bs).files_done as int == (p.files_done + bs.len()) % (usize::MAX as int + 1),
        ticked(p, bs).bytes_done as int == (p.bytes_done + sum_bytes(bs)) % 0x1_0000_0000_0000_0000,
        ticked(p, bs).phase == p.phase,
        ticked(p, bs).files_total == p.files_total,
        ticked(p, bs).bytes_total == p.bytes_total,
        ticked(p, bs).label == p.label,
        ticked(p, bs).stopped == p.stopped,
    decreases bs.len(),
{
    let m = usize::MAX as int + 1;
    let w = 0x1_0000_0000_0000_0000int;
    if bs.len() == 0 {
        vstd::arithmetic::div_mod::lemma_small_mod(p.files_done as nat, m as nat);
        vstd::arithmetic::div_mod::lemma_small_mod(p.bytes_done as nat, w as nat);
    } else {
        let q = ticked(p, bs.drop_last());
        lemma_ticks_add_up(p, bs.drop_last());
        vstd::arithmetic::div_mod::lemma_add_mod_noop(p.files_done + bs.drop_last().len(), 1, m);
        vstd::arithmetic::div_mod::lemma_small_mod(1, m as nat);
        vstd::arithmetic::div_mod::lemma_mod_twice(p.files_done + bs.drop_last().len(), m);
        vstd::arithmetic::div_mod::lemma_add_mod_noop(p.bytes_done + sum_bytes(bs.drop_last()), bs.last() as int, w);
        vstd::arithmetic::div_mod::lemma_small_mod(bs.last() as nat, w as nat);
        vstd::arithmetic::div_mod::lemma_mod_twice(p.bytes_done + sum_bytes(bs.drop_last()), w);
        assert((p.files_done + bs.drop_last().len()) + 1 == p.files_done + bs.len());
        assert((p.bytes_done + sum_bytes(bs.drop_last())) + bs.last() == p.bytes_done + sum_bytes(bs));
    }
}

impl Progress {
    /// A fresh progress at phase 0 with nothing counted.
    pub fn new(label: &str) -> (r: Progress)
        ensures
            r.phase == 0 && r.files_done == 0 && r.files_total == 0,
            r.bytes_done == 0 && r.bytes_total == 0,
            r.label@ == label@,
            !r.stopped,
    {
        Progress {
            phase: 0,
            files_done: 0,
            files_total: 0,
            bytes_done: 0,
            bytes_total: 0,
            label: string_of(&chars_of(label)),
            stopped: false,
        }
    }

    pub fn set_phase(&mut self, p: usize)
        ensures
            *final(self) == (Progress { phase: p, ..*old(self) }),
    {
        self.phase = p;
    }

    pub fn set_totals(&mut self, files: usize, bytes: u64)
        ensures
            *final(self) == (Progress { files_total: files, bytes_total: bytes, ..*old(self) }),
    {
        self.files_total = files;
        self.bytes_total = bytes;
    }

    /// One more file read, with its bytes (the counters wrap as atomics do).
    pub fn tick(&mut self, bytes: u64)
        ensures
            *final(self) == tick_of(*old(self), bytes),
            final(self).files_done == if old(self).files_done == usize::MAX {
                0
            } else {
                (old(self).files_done + 1) as usize
            },
            final(self).bytes_done as int == (old(self).bytes_done + bytes) % 0x1_0000_0000_0000_0000,
            final(self).phase == old(self).phase,
            final(self).files_total == old(self).files_total,
            final(self).bytes_total == old(self).bytes_total,
            final(self).label == old(self).label,
            final(self).stopped == old(self).stopped,
    {
        let ghost f0 = self.files_done as int;
        self.files_done = self.files_done.wrapping_add(1);
        self.bytes_done = self.bytes_done.wrapping_add(bytes);
        proof {
            let m = usize::MAX as int + 1;
            if f0 == usize::MAX as int {
                vstd::arithmetic::div_mod::lemma_mod_self_0(m);
            } else {
                vstd::arithmetic::div_mod::lemma_small_mod((f0 + 1) as nat, m as nat);
            }
        }
    }

    /// More bytes of a file being streamed (no file counted).
    pub fn tick_bytes(&mut self, bytes: u64)
        ensures
            final(self).bytes_done as int == (old(self).bytes_done + bytes) % 0x1_0000_0000_0000_0000,
            *final(self) == (Progress { bytes_done: final(self).bytes_done, ..*old(self) }),
    {
        self.bytes_done = self.bytes_done.wrapping_add(bytes);
    }

    /// Ends the operation at `phase`; the writer stops after showing it.
    pub fn finish(&mut self, phase: usize)
        ensures
            *final(self) == (Progress { phase: phase, stopped: true, ..*old(self) }),
    {
        self.phase = phase;
        self.stopped = true;
    }
}

} // verus!

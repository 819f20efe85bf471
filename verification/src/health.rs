//! The protection lamp: what the status of the scheduled task and of the last
//! sync cycle says to the user.
use vstd::prelude::*;
use crate::text::{chars_of, string_of, is_whitespace, is_whitespace_exec, trim_start, dec_int, push_int, push_str, trim, trim_chars, lowercase, to_lowercase};
use crate::winpath::{spec_join, sub_chars};
use crate::gamescan::{split_on, split_chars, find_from, find_from_chars};
use crate::synclog::{text_lines, lines_of};
use crate::pathutil::{starts_with, starts_with_chars};

verus! {

/// The record of the last sync cycle.
pub struct SyncStatus {
    pub last_sync: String,
    pub ok: i32,
    pub fail: i32,
    pub restored: i32,
    pub restored_names: String,
}

/// What the lamp shows.
pub struct HealthResult {
    /// `RED`, `AMBER` or `GREEN`.
    pub status: String,
    pub label: String,
    pub reason: String,
}

/// `<home>\.lrgex\sync-status.json`.
pub fn status_path(home: &str) -> (r: String)
    ensures
        r@ == spec_join(spec_join(home@, ".lrgex"@), "sync-status.json"@),
{
    let d = crate::config::data_dir(home);
    crate::config::join(d.as_str(), "sync-status.json")
}

/// The record written after a cycle: `ok`, `fail`, `restored`, and the restored
/// folder names joined with `, `.
pub fn status_record(last_sync: &str, ok: i32, fail: i32, restored: i32, names: &Vec<String>) -> (r: SyncStatus)
    ensures
        r.last_sync@ == last_sync@,
        r.ok == ok && r.fail == fail && r.restored == restored,
        r.restored_names@ == crate::text::join_with(names@.map_values(|x: String| x@), ", "@),
{
    SyncStatus {
        last_sync: string_of(&chars_of(last_sync)),
        ok,
        fail,
        restored,
        restored_names: crate::text::join_strings(names, ", "),
    }
}

// ==================== TIME ====================

/// Index of the first whitespace character of `s`, or its length.
pub open spec fn first_ws(s: Seq<char>) -> nat
    decreases s.len(),
{
    if s.len() == 0 {
        0
    } else if is_whitespace(s[0]) {
        0
    } else {
        1 + first_ws(s.drop_first())
    }
}

/// `trim_start` drops exactly the leading whitespace: what remains is a suffix
/// that starts with a non-whitespace character.
pub proof fn lemma_trim_start(s: Seq<char>)
    ensures
        trim_start(s).len() <= s.len(),
        trim_start(s).len() > 0 ==> !is_whitespace(trim_start(s)[0]),
        trim_start(s) == s.skip(s.len() - trim_start(s).len()),
        forall|j: int| 0 <= j < s.len() - trim_start(s).len() ==> is_whitespace(#[trigger] s[j]),
    decreases s.len(),
{
    if s.len() > 0 && is_whitespace(s[0]) {
        lemma_trim_start(s.drop_first());
        let t = trim_start(s.drop_first());
        assert(s.drop_first().skip(s.drop_first().len() - t.len()) =~= s.skip(s.len() - t.len()));
        assert forall|j: int| 0 <= j < s.len() - t.len() implies is_whitespace(#[trigger] s[j]) by {
            if j > 0 {
                assert(s[j] == s.drop_first()[j - 1]);
            }
        }
    } else {
        assert(s.skip(0) =~= s);
    }
}

/// `first_ws` is the position of the first whitespace character (the length
/// when there is none).
pub proof fn lemma_first_ws(s: Seq<char>)
    ensures
        first_ws(s) <= s.len(),
        forall|j: int| 0 <= j < first_ws(s) ==> !is_whitespace(#[trigger] s[j]),
        first_ws(s) < s.len() ==> is_whitespace(s[first_ws(s) as int]),
    decreases s.len(),
{
    if s.len() > 0 && !is_whitespace(s[0]) {
        lemma_first_ws(s.drop_first());
        assert forall|j: int| 0 <= j < first_ws(s) implies !is_whitespace(#[trigger] s[j]) by {
            if j > 0 {
                assert(s[j] == s.drop_first()[j - 1]);
            }
        }
    }
}

/// The whitespace-separated words of `s` (`str::split_whitespace`).
pub open spec fn words(s: Seq<char>) -> Seq<Seq<char>>
    decreases s.len(),
{
    let t = trim_start(s);
    if t.len() == 0 {
        seq![]
    } else {
        proof {
            lemma_trim_start(s);
            lemma_first_ws(t);
        }
        let k = first_ws(t);
        if k == 0 {
            seq![]
        } else {
            seq![t.take(k as int)] + words(t.skip(k as int))
        }
    }
}

/// The words of `s` (see `words`).
pub fn split_whitespace(s: &Vec<char>) -> (r: Vec<Vec<char>>)
    ensures
        r@.len() == words(s@).len(),
        forall|i: int| 0 <= i < r@.len() ==> (#[trigger] r@[i])@ == words(s@)[i],
{
    let mut out: Vec<Vec<char>> = Vec::new();
    let mut i: usize = 0;
    assert(s@.skip(0) =~= s@);
    assert(out@.map_values(|x: Vec<char>| x@) + words(s@) =~= words(s@));
    loop
        invariant
            i <= s@.len(),
            words(s@) == out@.map_values(|x: Vec<char>| x@) + words(s@.skip(i as int)),
        decreases s@.len() - i,
    {
        let ghost rest = s@.skip(i as int);
        let ghost before = out@.map_values(|x: Vec<char>| x@);
        let mut a = i;
        while a < s.len() && is_whitespace_exec(s[a])
            invariant
                i <= a <= s@.len(),
                forall|j: int| i <= j < a ==> is_whitespace(#[trigger] s@[j]),
            decreases s@.len() - a,
        {
            a = a + 1;
        }
        proof {
            lemma_trim_start(rest);
            let t = trim_start(rest);
            let n0 = rest.len() - t.len();
            assert(n0 == a - i) by {
                if n0 < a - i {
                    if t.len() > 0 {
                        assert(t[0] == rest[n0]);
                        assert(rest[n0] == s@[i + n0]);
                    }
                } else if n0 > a - i {
                    assert(rest[a - i] == s@[a as int]);
                }
            }
            assert(t =~= s@.skip(a as int));
        }
        if a == s.len() {
            assert(trim_start(rest).len() == 0);
            assert(words(rest) =~= Seq::<Seq<char>>::empty());
            let ghost fin = out@.map_values(|x: Vec<char>| x@);
            assert(words(s@) =~= fin);
            assert forall|j: int| 0 <= j < out@.len() implies (#[trigger] out@[j])@ == words(s@)[j] by {
                assert(fin[j] == out@[j]@);
            }
            return out;
        }
        let mut b = a;
        while b < s.len() && !is_whitespace_exec(s[b])
            invariant
                a <= b <= s@.len(),
                forall|j: int| a <= j < b ==> !is_whitespace(#[trigger] s@[j]),
            decreases s@.len() - b,
        {
            b = b + 1;
        }
        let ghost t = s@.skip(a as int);
        proof {
            lemma_first_ws(t);
            let k = first_ws(t);
            assert(k == b - a) by {
                if k < b - a {
                    assert(t[k as int] == s@[a + k]);
                } else if k > b - a {
                    assert(t[b - a] == s@[b as int]);
                }
            }
            assert(t.skip(b - a) =~= s@.skip(b as int));
        }
        let w = sub_chars(s.as_slice(), a, b);
        assert(w@ =~= t.take(b - a));
        let ghost wv = w@;
        out.push(w);
        assert(out@.map_values(|x: Vec<char>| x@) =~= before.push(wv));
        assert(before + words(rest) =~= before.push(wv) + words(s@.skip(b as int)));
        i = b;
    }
}

/// `s` without its leading `0` characters.
pub open spec fn trim_zeros(s: Seq<char>) -> Seq<char>
    decreases s.len(),
{
    if s.len() > 0 && s[0] == '0' {
        trim_zeros(s.drop_first())
    } else {
        s
    }
}

/// The short form of a stored time such as `2026-08-04 06:41:23 AM`: the hour
/// without leading zeros (`12` when nothing is left), `:`, the minutes, a space and
/// the third word; the text itself when it has fewer than three words or no `:`
/// in the second.
pub open spec fn spec_friendly_time(ts: Seq<char>) -> Seq<char> {
    let parts = words(ts);
    if parts.len() >= 3 && split_on(parts[1], ':').len() >= 2 {
        let segs = split_on(parts[1], ':');
        let h = trim_zeros(segs[0]);
        let hh = if h.len() == 0 { seq!['1', '2'] } else { h };
        hh + seq![':'] + segs[1] + seq![' '] + parts[2]
    } else {
        ts
    }
}

/// The time of day of a stored timestamp (see `spec_friendly_time`).
pub fn friendly_time(ts: &str) -> (r: String)
    ensures
        r@ == spec_friendly_time(ts@),
{
    let cs = chars_of(ts);
    let parts = split_whitespace(&cs);
    if parts.len() >= 3 {
        let segs = split_chars(&parts[1], ':');
        if segs.len() >= 2 {
            let mut h = segs[0].clone();
            let mut z: usize = 0;
            assert(h@.skip(0) =~= h@);
            while z < h.len() && h[z] == '0'
                invariant
                    z <= h@.len(),
                    h@ == segs@[0]@,
                    trim_zeros(h@) == trim_zeros(h@.skip(z as int)),
                decreases h@.len() - z,
            {
                assert(h@.skip(z as int).drop_first() =~= h@.skip(z as int + 1));
                z = z + 1;
            }
            let hz = sub_chars(h.as_slice(), z, h.len());
            assert(hz@ =~= h@.skip(z as int));
            assert(trim_zeros(hz@) == hz@);
            let mut v: Vec<char> = Vec::new();
            if hz.len() == 0 {
                v.push('1');
                v.push('2');
            } else {
                let mut q: usize = 0;
                while q < hz.len()
                    invariant
                        q <= hz@.len(),
                        v@ == hz@.take(q as int),
                    decreases hz@.len() - q,
                {
                    v.push(hz[q]);
                    assert(hz@.take(q as int + 1) =~= hz@.take(q as int).push(hz@[q as int]));
                    q = q + 1;
                }
                assert(hz@.take(hz@.len() as int) =~= hz@);
            }
            let ghost v0 = v@;
            v.push(':');
            let m = string_of(&segs[1]);
            push_str(&mut v, m.as_str());
            v.push(' ');
            let p2 = string_of(&parts[2]);
            push_str(&mut v, p2.as_str());
            assert(v@ =~= v0 + seq![':'] + segs@[1]@ + seq![' '] + parts@[2]@);
            return string_of(&v);
        }
    }
    string_of(&cs)
}

// ==================== LAMP ====================

/// `folder` for one, `folders` otherwise.
pub open spec fn folder_word(n: int) -> Seq<char> {
    if n == 1 { "folder"@ } else { "folders"@ }
}

/// The lamp: no task registered is RED (nothing will run on its own); a running
/// task is AMBER; after a cycle, failures make it RED, otherwise it is GREEN and
/// names what was restored or how many folders are protected since when; a task
/// that has not run yet is AMBER.
pub open spec fn spec_health(task_exists: bool, task_running: bool, status: Option<SyncStatus>) -> (Seq<char>, Seq<char>) {
    if !task_exists {
        ("RED"@, "Protection off • will resume on next launch"@)
    } else if task_running {
        ("AMBER"@, "Protecting your folders…"@)
    } else {
        match status {
            Some(s) => if s.fail > 0 {
                ("RED"@, "⚠ Needs attention • "@ + dec_int(s.fail as int) + " "@ + folder_word(s.fail as int)
                    + " failed"@)
            } else if s.restored > 0 {
                ("GREEN"@, "✔ Restored "@ + dec_int(s.restored as int) + " "@ + folder_word(s.restored as int)
                    + " • auto-restored: "@ + s.restored_names@)
            } else {
                ("GREEN"@, "✔ "@ + dec_int(s.ok as int) + " "@ + folder_word(s.ok as int) + " protected • "@
                    + spec_friendly_time(s.last_sync@))
            },
            None => ("AMBER"@, "Starting up — preparing your first backup"@),
        }
    }
}

/// The lamp is red whenever a folder failed in the last cycle and the task is
/// idle, whatever else the cycle did (restored or protected folders hide no
/// failure), and whenever the task is missing; it is green only when the task
/// exists and is idle and the last cycle had no failure; it is amber while the
/// task runs.
pub proof fn lemma_failure_shows_red(task_exists: bool, task_running: bool, status: Option<SyncStatus>)
    ensures
        task_exists && !task_running && (status matches Some(s) && s.fail > 0) ==> spec_health(
            task_exists,
            task_running,
            status,
        ).0 == "RED"@,
        !task_exists ==> spec_health(task_exists, task_running, status).0 == "RED"@,
        task_exists && task_running ==> spec_health(task_exists, task_running, status).0 == "AMBER"@,
        spec_health(task_exists, task_running, status).0 == "GREEN"@ ==> task_exists && !task_running && (
        status matches Some(s) && s.fail <= 0),
        task_exists && !task_running && (status matches Some(s) && s.fail <= 0) ==> spec_health(
            task_exists,
            task_running,
            status,
        ).0 == "GREEN"@,
        task_exists && !task_running && status is None ==> spec_health(task_exists, task_running, status).0
            == "AMBER"@,
        task_exists && !task_running && (status matches Some(s) && s.fail > 0) ==> spec_health(
            task_exists,
            task_running,
            status,
        ).1 == "⚠ Needs attention • "@ + dec_int(status.unwrap().fail as int) + (if status.unwrap().fail == 1 {
            " folder failed"@
        } else {
            " folders failed"@
        }),
{
    reveal_strlit("RED");
    reveal_strlit("GREEN");
    reveal_strlit("AMBER");
    assert("RED"@ != "GREEN"@) by {
        assert("RED"@.len() != "GREEN"@.len());
    }
    assert("AMBER"@ != "GREEN"@) by {
        assert("AMBER"@[0] != "GREEN"@[0]);
    }
    if let Some(s) = status {
        reveal_strlit("⚠ Needs attention • ");
        reveal_strlit(" ");
        reveal_strlit(" failed");
        reveal_strlit(" folder failed");
        reveal_strlit(" folders failed");
        reveal_strlit("folder");
        reveal_strlit("folders");
        let d = "⚠ Needs attention • "@ + dec_int(s.fail as int);
        assert(d + " "@ + folder_word(s.fail as int) + " failed"@ =~= d + (if s.fail == 1 {
            " folder failed"@
        } else {
            " folders failed"@
        }));
    }
}

fn result_of(status: &str, label: Vec<char>) -> (r: HealthResult)
    ensures
        r.status@ == status@,
        r.label@ == label@,
        r.reason@.len() == 0,
{
    let e: Vec<char> = Vec::new();
    HealthResult { status: string_of(&chars_of(status)), label: string_of(&label), reason: string_of(&e) }
}

fn push_folder_word(n: i32, v: &mut Vec<char>)
    ensures
        final(v)@ == old(v)@ + folder_word(n as int),
{
    if n == 1 {
        push_str(v, "folder");
    } else {
        push_str(v, "folders");
    }
}

/// The lamp for what was observed (see `spec_health`); `status` is the parsed
/// record of the last cycle, `None` when there is none or it does not parse.
pub fn health_from(task_exists: bool, task_running: bool, status: Option<&SyncStatus>) -> (r: HealthResult)
    ensures
        r.status@ == spec_health(task_exists, task_running, match status {
            Some(s) => Some(*s),
            None => None,
        }).0,
        r.label@ == spec_health(task_exists, task_running, match status {
            Some(s) => Some(*s),
            None => None,
        }).1,
        r.reason@.len() == 0,
{
    if !task_exists {
        return result_of("RED", chars_of("Protection off • will resume on next launch"));
    }
    if task_running {
        return result_of("AMBER", chars_of("Protecting your folders…"));
    }
    match status {
        Some(s) => {
            let mut v: Vec<char> = Vec::new();
            if s.fail > 0 {
                push_str(&mut v, "⚠ Needs attention • ");
                push_int(s.fail as i64, &mut v);
                push_str(&mut v, " ");
                push_folder_word(s.fail, &mut v);
                push_str(&mut v, " failed");
                result_of("RED", v)
            } else if s.restored > 0 {
                push_str(&mut v, "✔ Restored ");
                push_int(s.restored as i64, &mut v);
                push_str(&mut v, " ");
                push_folder_word(s.restored, &mut v);
                push_str(&mut v, " • auto-restored: ");
                push_str(&mut v, s.restored_names.as_str());
                result_of("GREEN", v)
            } else {
                push_str(&mut v, "✔ ");
                push_int(s.ok as i64, &mut v);
                push_str(&mut v, " ");
                push_folder_word(s.ok, &mut v);
                push_str(&mut v, " protected • ");
                let ft = friendly_time(s.last_sync.as_str());
                push_str(&mut v, ft.as_str());
                result_of("GREEN", v)
            }
        },
        None => result_of("AMBER", chars_of("Starting up — preparing your first backup")),
    }
}

// ==================== TASK STATE ====================

/// The task-state query printed `true` (case-insensitive, surrounding whitespace
/// ignored).
pub open spec fn spec_reports_running(out: Seq<char>) -> bool {
    lowercase(trim(out)) == "true"@
}

/// Whether the state query's output says the task is running.
pub fn reports_running(out: &str) -> (r: bool)
    ensures
        r == spec_reports_running(out@),
{
    let t = trim_chars(out);
    let low = to_lowercase(string_of(&t).as_str());
    let lc = chars_of(low.as_str());
    let expect = chars_of("true");
    crate::pathutil::eq_chars(&lc, &expect)
}

/// The verdict of the first line of a task listing whose trimmed, lowercased
/// form starts with `status:`: whether that line names `Running`. `None` when no
/// line does.
pub open spec fn status_verdict(lines: Seq<Seq<char>>, i: int) -> Option<bool>
    decreases lines.len() - i,
{
    if i < 0 || i >= lines.len() {
        None
    } else if starts_with(lowercase(trim(lines[i])), "status:"@) {
        Some(find_from(trim(lines[i]), "Running"@, 0) is Some)
    } else {
        status_verdict(lines, i + 1)
    }
}

/// Reads the verbose task listing (the fallback when the state query fails).
pub fn listing_says_running(text: &str) -> (r: Option<bool>)
    ensures
        r == status_verdict(text_lines(text@), 0),
{
    let cs = chars_of(text);
    let ls = lines_of(&cs);
    let ghost lines = text_lines(text@);
    let key = chars_of("status:");
    let word = chars_of("Running");
    let mut i: usize = 0;
    while i < ls.len()
        invariant
            i <= ls@.len(),
            ls@.len() == lines.len(),
            lines == text_lines(text@),
            forall|j: int| 0 <= j < ls@.len() ==> (#[trigger] ls@[j])@ == lines[j],
            key@ == "status:"@,
            word@ == "Running"@,
            status_verdict(lines, 0) == status_verdict(lines, i as int),
        decreases ls@.len() - i,
    {
        let line = string_of(&ls[i]);
        let t = trim_chars(line.as_str());
        let low = to_lowercase(string_of(&t).as_str());
        let lc = chars_of(low.as_str());
        assert(ls@[i as int]@ == lines[i as int]);
        if starts_with_chars(&lc, &key) {
            let hit = find_from_chars(&t, &word);
            return Some(hit.is_some());
        }
        i = i + 1;
    }
    None
}

} // verus!

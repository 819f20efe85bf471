//! The decisions behind the window: what its input fields accept, how its
//! actions change the folder list, how the health check and the version list
//! read, and the texts it shows.
use vstd::prelude::*;
use crate::text::{
    chars_of, string_of, push_str, push_dec, push_int, dec, dec_int, trim, trim_chars, join_with, join_strings,
    parse_i32_spec, parse_i32_chars,
};
use crate::config::{Config, Junction, same_path, same_path_form};
use crate::pathutil::{PathRoots, SRoot};
use crate::commands::{same_junction, clone_junction};

verus! {

// ==================== INPUT FIELDS ====================

/// Why a typed count is refused.
#[derive(PartialEq, Eq, Structural, Clone, Copy, Debug)]
pub enum InputError {
    /// Not a whole number.
    NotNumber,
    /// Below 1.
    TooSmall,
}

/// A count typed into the interval or version-limit field: a whole number (with
/// surrounding whitespace ignored) of at least 1.
pub open spec fn spec_count_input(val: Seq<char>) -> Result<int, InputError> {
    match parse_i32_spec(trim(val)) {
        None => Err(InputError::NotNumber),
        Some(n) => if n >= 1 {
            Ok(n)
        } else {
            Err(InputError::TooSmall)
        },
    }
}

/// Reads a typed count (see `spec_count_input`).
pub fn parse_count_input(val: &str) -> (r: Result<i32, InputError>)
    ensures
        match r {
            Ok(n) => spec_count_input(val@) == Ok::<int, InputError>(n as int),
            Err(e) => spec_count_input(val@) == Err::<int, InputError>(e),
        },
{
    let t = trim_chars(val);
    match parse_i32_chars(t.as_slice()) {
        None => Err(InputError::NotNumber),
        Some(n) => if n >= 1 {
            Ok(n)
        } else {
            Err(InputError::TooSmall)
        },
    }
}

/// The answer to a refused count.
pub fn input_error_text(e: InputError) -> (r: String)
    ensures
        r@ == match e {
            InputError::NotNumber => "Enter a whole number."@,
            InputError::TooSmall => "Enter 1 or more."@,
        },
{
    match e {
        InputError::NotNumber => string_of(&chars_of("Enter a whole number.")),
        InputError::TooSmall => string_of(&chars_of("Enter 1 or more.")),
    }
}

/// The prompt of the interval field.
pub fn interval_prompt(current: i32) -> (r: String)
    ensures
        r@ == "Current: "@ + dec_int(current as int) + " min. Enter new interval (1+):"@,
{
    let mut v: Vec<char> = Vec::new();
    push_str(&mut v, "Current: ");
    push_int(current as i64, &mut v);
    push_str(&mut v, " min. Enter new interval (1+):");
    string_of(&v)
}

/// The prompt of the version-limit field.
pub fn versions_prompt(current: i32) -> (r: String)
    ensures
        r@ == "Current: "@ + dec_int(current as int) + ". Enter new limit (1+):"@,
{
    let mut v: Vec<char> = Vec::new();
    push_str(&mut v, "Current: ");
    push_int(current as i64, &mut v);
    push_str(&mut v, ". Enter new limit (1+):");
    string_of(&v)
}

/// What a new interval came to: applied only when it was saved and the task
/// was registered with it.
pub fn interval_result(mins: i32, registered: bool, saved: bool) -> (r: String)
    ensures
        r@ == if registered && saved {
            "Set to "@ + dec_int(mins as int) + " minute(s)."@
        } else if !saved {
            "Config could not be saved (disk full or OneDrive lock?) — interval NOT changed."@
        } else {
            "Failed to register the scheduled task — interval NOT applied."@
        },
{
    if registered && saved {
        let mut v: Vec<char> = Vec::new();
        push_str(&mut v, "Set to ");
        push_int(mins as i64, &mut v);
        push_str(&mut v, " minute(s).");
        string_of(&v)
    } else if !saved {
        string_of(&chars_of("Config could not be saved (disk full or OneDrive lock?) — interval NOT changed."))
    } else {
        string_of(&chars_of("Failed to register the scheduled task — interval NOT applied."))
    }
}

/// The confirmation of a new version limit.
pub fn max_versions_result(n: i32) -> (r: String)
    ensures
        r@ == "Will keep last "@ + dec_int(n as int) + " version(s)."@,
{
    let mut v: Vec<char> = Vec::new();
    push_str(&mut v, "Will keep last ");
    push_int(n as i64, &mut v);
    push_str(&mut v, " version(s).");
    string_of(&v)
}

// ==================== EXCLUSIONS ====================

/// The pieces, each trimmed, without the empty ones.
pub open spec fn nonempty_trimmed(parts: Seq<Seq<char>>) -> Seq<Seq<char>>
    decreases parts.len(),
{
    if parts.len() == 0 {
        Seq::empty()
    } else if trim(parts.last()).len() == 0 {
        nonempty_trimmed(parts.drop_last())
    } else {
        nonempty_trimmed(parts.drop_last()).push(trim(parts.last()))
    }
}

/// The excluded names typed as a comma-separated list: each name trimmed, empty
/// ones dropped; a blank field clears the list.
pub open spec fn spec_exclusions(val: Seq<char>) -> Seq<Seq<char>> {
    let t = trim(val);
    if t.len() == 0 {
        Seq::empty()
    } else {
        nonempty_trimmed(crate::gamescan::split_on(t, ','))
    }
}

/// Reads the exclusions field (see `spec_exclusions`).
pub fn parse_exclusions(val: &str) -> (r: Vec<String>)
    ensures
        r@.map_values(|x: String| x@) == spec_exclusions(val@),
{
    let t = trim_chars(val);
    let mut out: Vec<String> = Vec::new();
    if t.len() == 0 {
        assert(out@.map_values(|x: String| x@) =~= spec_exclusions(val@));
        return out;
    }
    let parts = crate::gamescan::split_chars(&t, ',');
    let ghost ps = crate::gamescan::split_on(t@, ',');
    let mut i: usize = 0;
    while i < parts.len()
        invariant
            i <= parts@.len(),
            parts@.len() == ps.len(),
            ps == crate::gamescan::split_on(t@, ','),
            forall|k: int| 0 <= k < parts@.len() ==> (#[trigger] parts@[k])@ == ps[k],
            out@.map_values(|x: String| x@) == nonempty_trimmed(ps.take(i as int)),
        decreases parts@.len() - i,
    {
        assert(ps.take(i as int + 1).drop_last() =~= ps.take(i as int));
        assert(ps.take(i as int + 1).last() == parts@[i as int]@);
        let piece = string_of(&parts[i]);
        let tp = trim_chars(piece.as_str());
        if tp.len() > 0 {
            let ghost o0 = out@;
            out.push(string_of(&tp));
            assert(out@.map_values(|x: String| x@) =~= o0.map_values(|x: String| x@).push(tp@));
        }
        i = i + 1;
    }
    assert(ps.take(parts@.len() as int) =~= ps);
    out
}

/// The confirmation of the exclusions: the names joined with `, `, or `(none)`.
pub fn exclusions_text(names: &Vec<String>) -> (r: String)
    ensures
        r@ == "Exclusions: "@ + if names@.len() == 0 {
            "(none)"@
        } else {
            join_with(names@.map_values(|x: String| x@), ", "@)
        },
{
    let mut v: Vec<char> = Vec::new();
    push_str(&mut v, "Exclusions: ");
    if names.len() == 0 {
        push_str(&mut v, "(none)");
    } else {
        let j = join_strings(names, ", ");
        push_str(&mut v, j.as_str());
    }
    string_of(&v)
}

// ==================== FOLDER LIST ====================

/// Two junction lists hold the same values, in order.
pub open spec fn same_junctions(a: Seq<Junction>, b: Seq<Junction>) -> bool {
    a.len() == b.len() && forall|i: int| 0 <= i < a.len() ==> same_junction(#[trigger] a[i], b[i])
}

/// Two configurations have the same settings (interval, exclusions, version limit).
pub open spec fn same_settings(a: Config, b: Config) -> bool {
    &&& a.sync_interval_minutes == b.sync_interval_minutes
    &&& a.max_versions == b.max_versions
    &&& a.excluded_names@.map_values(|x: String| x@) == b.excluded_names@.map_values(|x: String| x@)
}

fn copy_settings(cfg: &Config, js: Vec<Junction>) -> (r: Config)
    ensures
        same_settings(r, *cfg),
        r.junctions@ == js@,
{
    let mut ex: Vec<String> = Vec::new();
    let mut k: usize = 0;
    while k < cfg.excluded_names.len()
        invariant
            k <= cfg.excluded_names@.len(),
            ex@.len() == k,
            forall|q: int| 0 <= q < k ==> (#[trigger] ex@[q])@ == cfg.excluded_names@[q]@,
        decreases cfg.excluded_names@.len() - k,
    {
        ex.push(cfg.excluded_names[k].clone());
        k = k + 1;
    }
    assert(ex@.map_values(|x: String| x@) =~= cfg.excluded_names@.map_values(|x: String| x@));
    Config {
        junctions: js,
        sync_interval_minutes: cfg.sync_interval_minutes,
        excluded_names: ex,
        max_versions: cfg.max_versions,
    }
}

/// The first junction from `i` on that is the same folder as `path`.
pub open spec fn first_same(js: Seq<Junction>, path: Seq<char>, es: Seq<SRoot>, i: int) -> Option<int>
    decreases js.len() - i,
{
    if i < 0 || i >= js.len() {
        None
    } else if same_path_form(js[i].source_path@, es) == same_path_form(path, es) {
        Some(i)
    } else {
        first_same(js, path, es, i + 1)
    }
}

/// Removes the folder `path` from the list (the first entry for the same folder),
/// `None` when it is not listed.
pub fn remove_folder(cfg: &Config, path: &str, roots: &PathRoots) -> (r: Option<Config>)
    requires
        roots.wf(),
    ensures
        match first_same(cfg.junctions@, path@, roots.sview(), 0) {
            None => r is None,
            Some(k) => r matches Some(c) && same_settings(c, *cfg) && same_junctions(
                c.junctions@,
                cfg.junctions@.remove(k),
            ),
        },
{
    let ghost es = roots.sview();
    let mut i: usize = 0;
    while i < cfg.junctions.len() && !same_path(cfg.junctions[i].source_path.as_str(), path, roots)
        invariant
            i <= cfg.junctions@.len(),
            roots.wf(),
            es == roots.sview(),
            first_same(cfg.junctions@, path@, es, 0) == first_same(cfg.junctions@, path@, es, i as int),
        decreases cfg.junctions@.len() - i,
    {
        i = i + 1;
    }
    if i == cfg.junctions.len() {
        return None;
    }
    let ghost k = i as int;
    assert(first_same(cfg.junctions@, path@, es, 0) == Some(k));
    let ghost want = cfg.junctions@.remove(k);
    let mut js: Vec<Junction> = Vec::new();
    let mut j: usize = 0;
    while j < cfg.junctions.len()
        invariant
            j <= cfg.junctions@.len(),
            0 <= k < cfg.junctions@.len(),
            i as int == k,
            want == cfg.junctions@.remove(k),
            want.len() == cfg.junctions@.len() - 1,
            js@.len() == if j <= k { j as int } else { j - 1 },
            forall|q: int| 0 <= q < js@.len() ==> same_junction(#[trigger] js@[q], want[q]),
        decreases cfg.junctions@.len() - j,
    {
        if j != i {
            let ghost q = js@.len() as int;
            assert(want[q] == cfg.junctions@[j as int]);
            js.push(clone_junction(&cfg.junctions[j]));
        }
        j = j + 1;
    }
    Some(copy_settings(cfg, js))
}

/// Switches auto-restore of the folder at index `i`; `None` when there is none.
pub fn toggle_auto_restore(cfg: &Config, i: usize) -> (r: Option<Config>)
    ensures
        i >= cfg.junctions@.len() ==> r is None,
        i < cfg.junctions@.len() ==> (r matches Some(c) && same_settings(c, *cfg) && c.junctions@.len()
            == cfg.junctions@.len() && (forall|q: int|
            0 <= q < c.junctions@.len() && q != i ==> same_junction(#[trigger] c.junctions@[q], cfg.junctions@[q]))
            && c.junctions@[i as int].auto_restore == !cfg.junctions@[i as int].auto_restore
            && c.junctions@[i as int].source_path@ == cfg.junctions@[i as int].source_path@
            && c.junctions@[i as int].created@ == cfg.junctions@[i as int].created@
            && c.junctions@[i as int].is_game == cfg.junctions@[i as int].is_game
            && c.junctions@[i as int].volume_id == cfg.junctions@[i as int].volume_id),
{
    if i >= cfg.junctions.len() {
        return None;
    }
    let mut js: Vec<Junction> = Vec::new();
    let mut j: usize = 0;
    while j < cfg.junctions.len()
        invariant
            j <= cfg.junctions@.len(),
            i < cfg.junctions@.len(),
            js@.len() == j,
            forall|q: int| 0 <= q < j && q != i ==> same_junction(#[trigger] js@[q], cfg.junctions@[q]),
            i < j ==> js@[i as int].auto_restore == !cfg.junctions@[i as int].auto_restore
                && js@[i as int].source_path@ == cfg.junctions@[i as int].source_path@
                && js@[i as int].created@ == cfg.junctions@[i as int].created@
                && js@[i as int].is_game == cfg.junctions@[i as int].is_game
                && js@[i as int].volume_id == cfg.junctions@[i as int].volume_id,
        decreases cfg.junctions@.len() - j,
    {
        let mut c = clone_junction(&cfg.junctions[j]);
        if j == i {
            c.auto_restore = !c.auto_restore;
        }
        js.push(c);
        j = j + 1;
    }
    Some(copy_settings(cfg, js))
}

/// The status after switching auto-restore.
pub fn toggle_status_text(on: bool) -> (r: String)
    ensures
        r@ == if on { "Auto-restore ON."@ } else { "Auto-restore OFF."@ },
{
    if on {
        string_of(&chars_of("Auto-restore ON."))
    } else {
        string_of(&chars_of("Auto-restore OFF."))
    }
}

/// The junctions whose path text differs from `path` (exact comparison), in order.
pub open spec fn other_texts(js: Seq<Junction>, path: Seq<char>) -> Seq<Junction>
    decreases js.len(),
{
    if js.len() == 0 {
        Seq::empty()
    } else if js.last().source_path@ == path {
        other_texts(js.drop_last(), path)
    } else {
        other_texts(js.drop_last(), path).push(js.last())
    }
}

/// A new entry for `path`.
pub open spec fn new_entry_ok(j: Junction, path: Seq<char>, auto_restore: bool, created: Seq<char>) -> bool {
    &&& j.source_path@ == path
    &&& j.auto_restore == auto_restore
    &&& j.created@ == created
    &&& !j.is_game
    &&& j.volume_id is None
}

fn new_junction(path: &str, auto_restore: bool, created: &str) -> (r: Junction)
    ensures
        new_entry_ok(r, path@, auto_restore, created@),
{
    Junction {
        source_path: string_of(&chars_of(path)),
        auto_restore,
        created: string_of(&chars_of(created)),
        is_game: false,
        volume_id: None,
    }
}

/// The window's "back up this folder" on a new folder: entries with exactly this
/// path text are replaced by a new one.
pub fn add_folder(cfg: &Config, path: &str, auto_restore: bool, created: &str) -> (r: Config)
    ensures
        same_settings(r, *cfg),
        r.junctions@.len() == other_texts(cfg.junctions@, path@).len() + 1,
        same_junctions(r.junctions@.drop_last(), other_texts(cfg.junctions@, path@)),
        new_entry_ok(r.junctions@.last(), path@, auto_restore, created@),
{
    let pc = chars_of(path);
    let mut js: Vec<Junction> = Vec::new();
    let mut i: usize = 0;
    while i < cfg.junctions.len()
        invariant
            i <= cfg.junctions@.len(),
            pc@ == path@,
            js@.len() == other_texts(cfg.junctions@.take(i as int), path@).len(),
            forall|q: int| 0 <= q < js@.len() ==> same_junction(
                #[trigger] js@[q],
                other_texts(cfg.junctions@.take(i as int), path@)[q],
            ),
        decreases cfg.junctions@.len() - i,
    {
        let ghost t = cfg.junctions@.take(i as int + 1);
        assert(t.drop_last() =~= cfg.junctions@.take(i as int));
        assert(t.last() == cfg.junctions@[i as int]);
        let sc = chars_of(cfg.junctions[i].source_path.as_str());
        if !crate::pathutil::eq_chars(&sc, &pc) {
            js.push(clone_junction(&cfg.junctions[i]));
        }
        i = i + 1;
    }
    assert(cfg.junctions@.take(cfg.junctions@.len() as int) =~= cfg.junctions@);
    let ghost before = js@;
    js.push(new_junction(path, auto_restore, created));
    assert(js@.drop_last() =~= before);
    copy_settings(cfg, js)
}

/// The window's "browse" on a folder: appended as a new entry unless the same
/// folder is listed already (`None`).
pub fn add_new_folder(cfg: &Config, path: &str, auto_restore: bool, created: &str, roots: &PathRoots) -> (r: Option<Config>)
    requires
        roots.wf(),
    ensures
        first_same(cfg.junctions@, path@, roots.sview(), 0) is Some ==> r is None,
        first_same(cfg.junctions@, path@, roots.sview(), 0) is None ==> (r matches Some(c) && same_settings(c, *cfg)
            && same_junctions(c.junctions@.drop_last(), cfg.junctions@) && c.junctions@.len()
            == cfg.junctions@.len() + 1 && new_entry_ok(c.junctions@.last(), path@, auto_restore, created@)),
{
    let ghost es = roots.sview();
    let mut i: usize = 0;
    while i < cfg.junctions.len()
        invariant
            i <= cfg.junctions@.len(),
            roots.wf(),
            es == roots.sview(),
            first_same(cfg.junctions@, path@, es, 0) == first_same(cfg.junctions@, path@, es, i as int),
        decreases cfg.junctions@.len() - i,
    {
        if same_path(cfg.junctions[i].source_path.as_str(), path, roots) {
            return None;
        }
        i = i + 1;
    }
    let mut js: Vec<Junction> = Vec::new();
    let mut j: usize = 0;
    while j < cfg.junctions.len()
        invariant
            j <= cfg.junctions@.len(),
            js@.len() == j,
            forall|q: int| 0 <= q < j ==> same_junction(#[trigger] js@[q], cfg.junctions@[q]),
        decreases cfg.junctions@.len() - j,
    {
        js.push(clone_junction(&cfg.junctions[j]));
        j = j + 1;
    }
    let ghost before = js@;
    js.push(new_junction(path, auto_restore, created));
    assert(js@.drop_last() =~= before);
    Some(copy_settings(cfg, js))
}

/// The configuration as exported: every path in its portable form.
pub fn export_config(cfg: &Config, roots: &PathRoots) -> (r: Config)
    ensures
        same_settings(r, *cfg),
        r.junctions@.len() == cfg.junctions@.len(),
        forall|q: int| 0 <= q < r.junctions@.len() ==> {
            &&& (#[trigger] r.junctions@[q]).source_path@ == crate::pathutil::spec_contract(
                cfg.junctions@[q].source_path@,
                roots.sview(),
            )
            &&& r.junctions@[q].auto_restore == cfg.junctions@[q].auto_restore
            &&& r.junctions@[q].created@ == cfg.junctions@[q].created@
            &&& r.junctions@[q].is_game == cfg.junctions@[q].is_game
            &&& r.junctions@[q].volume_id == cfg.junctions@[q].volume_id
        },
{
    let mut js: Vec<Junction> = Vec::new();
    let mut j: usize = 0;
    while j < cfg.junctions.len()
        invariant
            j <= cfg.junctions@.len(),
            js@.len() == j,
            forall|q: int| 0 <= q < j ==> {
                &&& (#[trigger] js@[q]).source_path@ == crate::pathutil::spec_contract(
                    cfg.junctions@[q].source_path@,
                    roots.sview(),
                )
                &&& js@[q].auto_restore == cfg.junctions@[q].auto_restore
                &&& js@[q].created@ == cfg.junctions@[q].created@
                &&& js@[q].is_game == cfg.junctions@[q].is_game
                &&& js@[q].volume_id == cfg.junctions@[q].volume_id
            },
        decreases cfg.junctions@.len() - j,
    {
        let mut c = clone_junction(&cfg.junctions[j]);
        c.source_path = crate::pathutil::contract(cfg.junctions[j].source_path.as_str(), roots);
        js.push(c);
        j = j + 1;
    }
    copy_settings(cfg, js)
}

// ==================== HEALTH CHECK ====================

/// How old a backup is: hours below a day, else whole days.
pub fn age_text(hours: u64) -> (r: String)
    ensures
        r@ == if hours < 24 {
            dec(hours as nat) + "h ago"@
        } else {
            dec((hours / 24) as nat) + "d ago"@
        },
{
    let mut v: Vec<char> = Vec::new();
    if hours < 24 {
        push_dec(hours, &mut v);
        push_str(&mut v, "h ago");
    } else {
        push_dec(hours / 24, &mut v);
        push_str(&mut v, "d ago");
    }
    string_of(&v)
}

/// Whole hours of an interval in minutes, rounded toward zero (as `i32` division does).
pub open spec fn whole_hours(minutes: int) -> int {
    if minutes >= 0 {
        minutes / 60
    } else {
        -((-minutes) / 60)
    }
}

/// The last cycle is stale when it ran more than two interval-hours ago.
pub fn sync_stale(age_hours: i32, interval_minutes: i32) -> (r: bool)
    ensures
        r == (age_hours > whole_hours(interval_minutes as int) * 2),
{
    let m: i64 = interval_minutes as i64;
    let h: i64 = if m >= 0 { m / 60 } else { -((-m) / 60) };
    age_hours as i64 > h * 2
}

/// The end of a health-check line for a folder with a backup: its age, whether
/// the folder is there, and the stale mark.
pub fn health_entry_tail(age: &str, source_exists: bool, stale: bool) -> (r: String)
    ensures
        r@ == ", "@ + age@ + ", "@ + (if source_exists { "source OK"@ } else { "source MISSING"@ }) + (if stale {
            " \u{26a0} STALE"@
        } else {
            Seq::<char>::empty()
        }),
{
    let mut v: Vec<char> = Vec::new();
    push_str(&mut v, ", ");
    push_str(&mut v, age);
    push_str(&mut v, ", ");
    if source_exists {
        push_str(&mut v, "source OK");
    } else {
        push_str(&mut v, "source MISSING");
    }
    if stale {
        push_str(&mut v, " \u{26a0} STALE");
    }
    string_of(&v)
}

/// A health-check line for a folder without a backup.
pub fn no_backup_line(leaf: &str) -> (r: String)
    ensures
        r@ == "\n  "@ + leaf@ + " \u{2014} NO BACKUP"@,
{
    let mut v: Vec<char> = Vec::new();
    push_str(&mut v, "\n  ");
    push_str(&mut v, leaf);
    push_str(&mut v, " \u{2014} NO BACKUP");
    string_of(&v)
}

/// The health-check report: how many of the folders have a backup, then one line each.
pub fn health_report(ok: usize, total: usize, details: &str) -> (r: String)
    ensures
        r@ == if total == 0 {
            "No folders configured yet."@
        } else {
            dec(ok as nat) + " of "@ + dec(total as nat) + " folders backed up:"@ + details@
        },
{
    if total == 0 {
        return string_of(&chars_of("No folders configured yet."));
    }
    let mut v: Vec<char> = Vec::new();
    push_dec(ok as u64, &mut v);
    push_str(&mut v, " of ");
    push_dec(total as u64, &mut v);
    push_str(&mut v, " folders backed up:");
    push_str(&mut v, details);
    string_of(&v)
}

// ==================== VERSIONS ====================

/// How a snapshot is listed: `YYYY-MM-DD HH:MM:SS` from its `YYYYMMDD_HHMMSS` name.
pub open spec fn spec_snapshot_label(name: Seq<char>) -> Seq<char> {
    name.subrange(0, 4) + seq!['-'] + name.subrange(4, 6) + seq!['-'] + name.subrange(6, 8) + seq![' ']
        + name.subrange(9, 11) + seq![':'] + name.subrange(11, 13) + seq![':'] + name.subrange(13, 15)
}

/// The label of a snapshot folder, `None` for any other name.
pub fn snapshot_label(name: &str) -> (r: Option<String>)
    ensures
        match r {
            Some(l) => crate::sync::spec_is_snapshot_name(vstd::utf8::encode_utf8(name@)) && l@ == spec_snapshot_label(name@),
            None => !crate::sync::spec_is_snapshot_name(vstd::utf8::encode_utf8(name@)),
        },
{
    if !crate::sync::is_snapshot_name(name) {
        return None;
    }
    let cs = chars_of(name);
    proof {
        crate::sync::lemma_snapshot_name_chars(name@);
    }
    let mut v: Vec<char> = Vec::new();
    v.push(cs[0]);
    v.push(cs[1]);
    v.push(cs[2]);
    v.push(cs[3]);
    v.push('-');
    v.push(cs[4]);
    v.push(cs[5]);
    v.push('-');
    v.push(cs[6]);
    v.push(cs[7]);
    v.push(' ');
    v.push(cs[9]);
    v.push(cs[10]);
    v.push(':');
    v.push(cs[11]);
    v.push(cs[12]);
    v.push(':');
    v.push(cs[13]);
    v.push(cs[14]);
    assert(v@ =~= spec_snapshot_label(name@));
    Some(string_of(&v))
}

// ==================== OTHER TEXTS ====================

/// The unlink field confirms with `yes` (any case, surrounding whitespace ignored).
pub fn confirms_unlink(val: &str) -> (r: bool)
    ensures
        r == crate::config::eq_ignore_ascii_case(trim(val@), "yes"@),
{
    let t = trim_chars(val);
    let y = chars_of("yes");
    if t.len() != y.len() {
        return false;
    }
    let mut k: usize = 0;
    while k < t.len()
        invariant
            k <= t@.len(),
            t@ == trim(val@),
            y@ == "yes"@,
            t@.len() == y@.len(),
            forall|j: int| 0 <= j < k ==> #[trigger] crate::config::lower_ascii(t@[j]) == crate::config::lower_ascii(y@[j]),
        decreases t@.len() - k,
    {
        if crate::config::lower_ascii_exec(t[k]) != crate::config::lower_ascii_exec(y[k]) {
            return false;
        }
        k = k + 1;
    }
    true
}

/// The script that unlinks the program from Windows after it exits: the task and
/// the context-menu entry are removed, then the script deletes itself.
pub fn cleanup_script() -> (r: String)
    ensures
        r@ == "@echo off\r\nping 127.0.0.1 -n 3 > nul\r\nschtasks /Delete /TN \"LRGEX-Restore-Rust\" /F >nul 2>&1\r\nreg delete \"HKCU\\Software\\Classes\\Directory\\shell\\LRGEXRestore\" /f >nul 2>&1\r\ndel \"%~f0\"\r\n"@,
{
    string_of(&chars_of(
        "@echo off\r\nping 127.0.0.1 -n 3 > nul\r\nschtasks /Delete /TN \"LRGEX-Restore-Rust\" /F >nul 2>&1\r\nreg delete \"HKCU\\Software\\Classes\\Directory\\shell\\LRGEXRestore\" /f >nul 2>&1\r\ndel \"%~f0\"\r\n",
    ))
}

/// The answer after switching the context-menu entry.
pub fn rightclick_message(enabled_now: bool, requested: bool) -> (r: String)
    ensures
        r@ == if enabled_now {
            "Right-click sync ENABLED. Right-click any folder to sync it."@
        } else if requested {
            "FAILED to enable. Try running as Administrator."@
        } else {
            "Right-click sync removed."@
        },
{
    if enabled_now {
        string_of(&chars_of("Right-click sync ENABLED. Right-click any folder to sync it."))
    } else if requested {
        string_of(&chars_of("FAILED to enable. Try running as Administrator."))
    } else {
        string_of(&chars_of("Right-click sync removed."))
    }
}

/// A running sync died: its heartbeat is more than 15 seconds old and its
/// process is gone.
pub fn sync_died(now: u64, heartbeat: u64, alive: bool) -> (r: bool)
    ensures
        r == ((if now >= heartbeat { now - heartbeat } else { 0 }) > 15 && !alive),
{
    let age = if now >= heartbeat { now - heartbeat } else { 0 };
    age > 15 && !alive
}

/// The warning when the window is closed during an operation.
pub fn close_warning(restore_running: bool) -> (r: String)
    ensures
        r@ == (if restore_running { "A restore"@ } else { "A backup"@ })
            + " is still running.\n\nClosing now will ABORT it.\n\nClose anyway?"@,
{
    let mut v: Vec<char> = Vec::new();
    if restore_running {
        push_str(&mut v, "A restore");
    } else {
        push_str(&mut v, "A backup");
    }
    push_str(&mut v, " is still running.\n\nClosing now will ABORT it.\n\nClose anyway?");
    string_of(&v)
}

/// What the log view shows.
pub fn log_display(tail: &str) -> (r: String)
    ensures
        r@ == if tail@.len() == 0 { "No log entries yet."@ } else { tail@ },
{
    if tail.is_empty() {
        string_of(&chars_of("No log entries yet."))
    } else {
        string_of(&chars_of(tail))
    }
}

/// The percentage of bytes done (0 when the total is unknown).
pub fn percent_done(done: u64, total: u64) -> (r: u64)
    requires
        done * 100 <= u64::MAX,
    ensures
        r == if total > 0 { done * 100 / (total as int) } else { 0 },
{
    if total > 0 {
        done * 100 / total
    } else {
        0
    }
}

} // verus!

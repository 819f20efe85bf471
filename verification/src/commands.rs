//! Launch modes and the decisions behind the user's actions: adding a folder from
//! the context menu, picking what to restore, and reporting a restore.
use vstd::prelude::*;
use crate::text::{chars_of, string_of, push_str, push_dec, dec, join_with, join_strings};
use crate::winpath::{spec_file_name, file_name};
use crate::config::{Config, Junction, same_path, same_path_form};
use crate::pathutil::{PathRoots, SRoot, eq_chars};

verus! {

// ==================== LAUNCH ====================

/// What a launch was asked to do.
pub struct LaunchMode {
    /// `-sync`: run one scheduled cycle.
    pub sync: bool,
    /// `-autorestore`: restore the folders that are missing.
    pub auto_restore: bool,
    /// `-link <path>`: add a folder from the context menu (empty when absent).
    pub link_path: String,
}

/// The flags read from `args[i..]` on top of `m`: `-sync`, `-autorestore`, and
/// `-link` followed by a path (a trailing `-link` without a path is ignored; a
/// later `-link` replaces an earlier one; anything else is ignored).
pub open spec fn scan_args(args: Seq<Seq<char>>, i: int, m: (bool, bool, Seq<char>)) -> (bool, bool, Seq<char>)
    decreases args.len() - i,
{
    if i < 0 || i >= args.len() {
        m
    } else if args[i] == "-sync"@ {
        scan_args(args, i + 1, (true, m.1, m.2))
    } else if args[i] == "-autorestore"@ {
        scan_args(args, i + 1, (m.0, true, m.2))
    } else if args[i] == "-link"@ && i + 1 < args.len() {
        scan_args(args, i + 2, (m.0, m.1, args[i + 1]))
    } else {
        scan_args(args, i + 1, m)
    }
}

fn is_lit(a: &String, lit: &str) -> (r: bool)
    ensures
        r == (a@ == lit@),
{
    let x = chars_of(a.as_str());
    let y = chars_of(lit);
    eq_chars(&x, &y)
}

/// Reads the launch arguments (the program name first).
pub fn parse_args(args: &Vec<String>) -> (r: LaunchMode)
    ensures
        ({
            let m = scan_args(args@.map_values(|a: String| a@), 1, (false, false, Seq::<char>::empty()));
            r.sync == m.0 && r.auto_restore == m.1 && r.link_path@ == m.2
        }),
{
    let ghost av = args@.map_values(|a: String| a@);
    let mut sync = false;
    let mut auto = false;
    let mut link: Vec<char> = Vec::new();
    let mut i: usize = 1;
    while i < args.len()
        invariant
            av == args@.map_values(|a: String| a@),
            1 <= i,
            scan_args(av, 1, (false, false, Seq::<char>::empty())) == scan_args(av, i as int, (sync, auto, link@)),
        decreases args@.len() - i,
    {
        assert(av[i as int] == args@[i as int]@);
        if is_lit(&args[i], "-sync") {
            sync = true;
        } else if is_lit(&args[i], "-autorestore") {
            auto = true;
        } else if is_lit(&args[i], "-link") && i + 1 < args.len() {
            link = chars_of(args[i + 1].as_str());
            assert(av[i as int + 1] == args@[i as int + 1]@);
            i = i + 1;
        }
        i = i + 1;
    }
    LaunchMode { sync, auto_restore: auto, link_path: string_of(&link) }
}

// ==================== CONTEXT-MENU ADD ====================

/// The junctions of `js` that are not the same folder as `path`, in order.
pub open spec fn others(js: Seq<Junction>, path: Seq<char>, es: Seq<SRoot>) -> Seq<Junction>
    decreases js.len(),
{
    if js.len() == 0 {
        seq![]
    } else if same_path_form(js.last().source_path@, es) == same_path_form(path, es) {
        others(js.drop_last(), path, es)
    } else {
        others(js.drop_last(), path, es).push(js.last())
    }
}

/// Two junctions hold the same values.
pub open spec fn same_junction(a: Junction, b: Junction) -> bool {
    &&& a.source_path@ == b.source_path@
    &&& a.auto_restore == b.auto_restore
    &&& a.created@ == b.created@
    &&& a.is_game == b.is_game
    &&& a.volume_id == b.volume_id
}

/// A copy of a junction.
pub fn clone_junction(j: &Junction) -> (r: Junction)
    ensures
        same_junction(r, *j),
{
    Junction {
        source_path: j.source_path.clone(),
        auto_restore: j.auto_restore,
        created: j.created.clone(),
        is_game: j.is_game,
        volume_id: j.volume_id.clone(),
    }
}

/// The configuration after adding `path` from the context menu: any entry for the
/// same folder is replaced by a new one with auto-restore on.
pub fn add_linked(cfg: &Config, path: &str, created: &str, roots: &PathRoots) -> (r: Config)
    requires
        roots.wf(),
    ensures
        r.junctions@.len() == others(cfg.junctions@, path@, roots.sview()).len() + 1,
        forall|i: int|
            0 <= i < r.junctions@.len() - 1 ==> same_junction(
                #[trigger] r.junctions@[i],
                others(cfg.junctions@, path@, roots.sview())[i],
            ),
        r.junctions@.last().source_path@ == path@,
        r.junctions@.last().auto_restore,
        r.junctions@.last().created@ == created@,
        !r.junctions@.last().is_game,
        r.junctions@.last().volume_id is None,
        r.sync_interval_minutes == cfg.sync_interval_minutes,
        r.max_versions == cfg.max_versions,
        r.excluded_names@.map_values(|x: String| x@) == cfg.excluded_names@.map_values(|x: String| x@),
{
    let ghost es = roots.sview();
    let mut js: Vec<Junction> = Vec::new();
    let mut i: usize = 0;
    while i < cfg.junctions.len()
        invariant
            i <= cfg.junctions@.len(),
            roots.wf(),
            es == roots.sview(),
            js@.len() == others(cfg.junctions@.take(i as int), path@, es).len(),
            forall|k: int| 0 <= k < js@.len() ==> same_junction(
                #[trigger] js@[k],
                others(cfg.junctions@.take(i as int), path@, es)[k],
            ),
        decreases cfg.junctions@.len() - i,
    {
        let ghost t = cfg.junctions@.take(i as int + 1);
        assert(t.drop_last() =~= cfg.junctions@.take(i as int));
        assert(t.last() == cfg.junctions@[i as int]);
        if !same_path(cfg.junctions[i].source_path.as_str(), path, roots) {
            js.push(clone_junction(&cfg.junctions[i]));
        }
        i = i + 1;
    }
    assert(cfg.junctions@.take(cfg.junctions@.len() as int) =~= cfg.junctions@);
    js.push(Junction {
        source_path: string_of(&chars_of(path)),
        auto_restore: true,
        created: string_of(&chars_of(created)),
        is_game: false,
        volume_id: None,
    });
    let mut ex: Vec<String> = Vec::new();
    let mut k: usize = 0;
    while k < cfg.excluded_names.len()
        invariant
            k <= cfg.excluded_names@.len(),
            ex@.len() == k,
            forall|q: int| 0 <= q < k ==> (#[trigger] ex@[q])@ == cfg.excluded_names@[q]@,
        decreases cfg.excluded_names@.len() - k,
    {
        ex.push(cfg.excluded_names[k].clone());
        k = k + 1;
    }
    assert(ex@.map_values(|x: String| x@) =~= cfg.excluded_names@.map_values(|x: String| x@));
    Config {
        junctions: js,
        sync_interval_minutes: cfg.sync_interval_minutes,
        excluded_names: ex,
        max_versions: cfg.max_versions,
    }
}

/// The junctions to restore on an `-autorestore` launch: those with auto-restore
/// on whose folder is missing or empty, by index, in order.
pub open spec fn autorestore_upto(js: Seq<Junction>, missing: Seq<bool>, n: int) -> Seq<usize>
    decreases n,
{
    if n <= 0 {
        seq![]
    } else if js[n - 1].auto_restore && missing[n - 1] {
        autorestore_upto(js, missing, n - 1).push((n - 1) as usize)
    } else {
        autorestore_upto(js, missing, n - 1)
    }
}

/// The indices of the junctions an `-autorestore` launch restores.
pub fn autorestore_targets(cfg: &Config, missing: &Vec<bool>) -> (r: Vec<usize>)
    requires
        missing@.len() == cfg.junctions@.len(),
    ensures
        r@ == autorestore_upto(cfg.junctions@, missing@, cfg.junctions@.len() as int),
{
    let mut out: Vec<usize> = Vec::new();
    let mut i: usize = 0;
    while i < cfg.junctions.len()
        invariant
            i <= cfg.junctions@.len(),
            missing@.len() == cfg.junctions@.len(),
            out@ == autorestore_upto(cfg.junctions@, missing@, i as int),
        decreases cfg.junctions@.len() - i,
    {
        if cfg.junctions[i].auto_restore && missing[i] {
            out.push(i);
        }
        i = i + 1;
    }
    out
}

// ==================== RESTORE ====================

/// The last component of a path, or the empty string.
pub open spec fn leaf_or_empty(p: Seq<char>) -> Seq<char> {
    match spec_file_name(p) {
        Some(n) => n,
        None => Seq::<char>::empty(),
    }
}

/// The last component of a path, or the empty string.
pub fn leaf_of(path: &str) -> (r: String)
    ensures
        r@ == leaf_or_empty(path@),
{
    let cs = chars_of(path);
    match file_name(cs.as_slice()) {
        Some(n) => string_of(&n),
        None => {
            let e: Vec<char> = Vec::new();
            string_of(&e)
        },
    }
}

/// The folder a restore is for: the selected one when the selection is a valid
/// index, else `None` (all folders, after the user confirms).
pub fn restore_selection(selected: i32, cfg: &Config) -> (r: Option<String>)
    ensures
        0 <= selected < cfg.junctions@.len() ==> (r matches Some(p) && p@ == cfg.junctions@[selected as int].source_path@),
        !(0 <= selected < cfg.junctions@.len()) ==> r is None,
{
    if selected >= 0 && (selected as usize) < cfg.junctions.len() {
        Some(cfg.junctions[selected as usize].source_path.clone())
    } else {
        None
    }
}

/// The question before restoring every folder.
pub fn restore_all_prompt(count: usize) -> (r: String)
    ensures
        r@ == "No folder selected.\n\nRestore ALL "@ + dec(count as nat) + " folders?"@,
{
    let mut v: Vec<char> = Vec::new();
    push_str(&mut v, "No folder selected.\n\nRestore ALL ");
    push_dec(count as u64, &mut v);
    push_str(&mut v, " folders?");
    string_of(&v)
}

/// What a restore does after its pre-check.
pub enum RestorePlan {
    /// Every folder failed the pre-check: nothing is restored (the message lists them).
    AllFailed(String),
    /// Restore these folders; `skipped` lists the failed ones (`name: reason`, `; `).
    Go { paths: Vec<String>, skipped: String },
}

pub open spec fn failure_line(f: (String, String)) -> Seq<char> {
    "  "@ + f.0@ + ": "@ + f.1@
}

pub open spec fn failure_item(f: (String, String)) -> Seq<char> {
    f.0@ + ": "@ + f.1@
}

/// Some pre-check failure names this leaf.
pub open spec fn failed_leaf(failures: Seq<(String, String)>, leaf: Seq<char>) -> bool {
    exists|k: int| 0 <= k < failures.len() && (#[trigger] failures[k]).0@ == leaf
}

/// The folders that passed, in order.
pub open spec fn passed(paths: Seq<String>, failures: Seq<(String, String)>) -> Seq<Seq<char>>
    decreases paths.len(),
{
    if paths.len() == 0 {
        seq![]
    } else if failed_leaf(failures, leaf_or_empty(paths.last()@)) {
        passed(paths.drop_last(), failures)
    } else {
        passed(paths.drop_last(), failures).push(paths.last()@)
    }
}

fn line_of_failure(f: &(String, String), indent: bool) -> (r: String)
    ensures
        r@ == if indent { failure_line(*f) } else { failure_item(*f) },
{
    let mut v: Vec<char> = Vec::new();
    if indent {
        push_str(&mut v, "  ");
    }
    push_str(&mut v, f.0.as_str());
    push_str(&mut v, ": ");
    push_str(&mut v, f.1.as_str());
    string_of(&v)
}

/// The restore after its pre-check: without failures all folders go; when at
/// least as many failed as were asked for, none does; otherwise the folders whose
/// leaf failed are dropped and listed.
pub fn plan_restore(to_restore: &Vec<String>, failures: &Vec<(String, String)>) -> (r: RestorePlan)
    ensures
        failures@.len() == 0 ==> (r matches RestorePlan::Go { paths, skipped } && paths@.map_values(
            |p: String| p@,
        ) == to_restore@.map_values(|p: String| p@) && skipped@.len() == 0),
        failures@.len() > 0 && failures@.len() >= to_restore@.len() ==> (r matches RestorePlan::AllFailed(m)
            && m@ == "RESTORE ABORTED — all "@ + dec(failures@.len() as nat) + " folder(s) failed pre-check:\n\n"@
            + join_with(failures@.map_values(|f: (String, String)| failure_line(f)), "\n"@)),
        0 < failures@.len() < to_restore@.len() ==> (r matches RestorePlan::Go { paths, skipped }
            && paths@.map_values(|p: String| p@) == passed(to_restore@, failures@) && skipped@ == join_with(
            failures@.map_values(|f: (String, String)| failure_item(f)),
            "; "@,
        )),
{
    let mut lines: Vec<String> = Vec::new();
    let mut items: Vec<String> = Vec::new();
    let mut k: usize = 0;
    while k < failures.len()
        invariant
            k <= failures@.len(),
            lines@.len() == k,
            items@.len() == k,
            forall|j: int| 0 <= j < k ==> (#[trigger] lines@[j])@ == failure_line(failures@[j]),
            forall|j: int| 0 <= j < k ==> (#[trigger] items@[j])@ == failure_item(failures@[j]),
        decreases failures@.len() - k,
    {
        let a = line_of_failure(&failures[k], true);
        let b = line_of_failure(&failures[k], false);
        lines.push(a);
        items.push(b);
        k = k + 1;
    }
    assert(lines@.map_values(|x: String| x@) =~= failures@.map_values(|f: (String, String)| failure_line(f)));
    assert(items@.map_values(|x: String| x@) =~= failures@.map_values(|f: (String, String)| failure_item(f)));
    if failures.len() == 0 {
        let mut ps: Vec<String> = Vec::new();
        let mut i: usize = 0;
        while i < to_restore.len()
            invariant
                i <= to_restore@.len(),
                ps@.len() == i,
                forall|j: int| 0 <= j < i ==> (#[trigger] ps@[j])@ == to_restore@[j]@,
            decreases to_restore@.len() - i,
        {
            ps.push(to_restore[i].clone());
            i = i + 1;
        }
        assert(ps@.map_values(|p: String| p@) =~= to_restore@.map_values(|p: String| p@));
        let e: Vec<char> = Vec::new();
        return RestorePlan::Go { paths: ps, skipped: string_of(&e) };
    }
    if failures.len() >= to_restore.len() {
        let mut v: Vec<char> = Vec::new();
        push_str(&mut v, "RESTORE ABORTED — all ");
        push_dec(failures.len() as u64, &mut v);
        push_str(&mut v, " folder(s) failed pre-check:\n\n");
        let body = join_strings(&lines, "\n");
        push_str(&mut v, body.as_str());
        return RestorePlan::AllFailed(string_of(&v));
    }
    let mut ps: Vec<String> = Vec::new();
    let mut i: usize = 0;
    while i < to_restore.len()
        invariant
            i <= to_restore@.len(),
            ps@.map_values(|p: String| p@) == passed(to_restore@.take(i as int), failures@),
        decreases to_restore@.len() - i,
    {
        let leaf = leaf_of(to_restore[i].as_str());
        let lc = chars_of(leaf.as_str());
        let mut hit = false;
        let mut j: usize = 0;
        while j < failures.len()
            invariant
                j <= failures@.len(),
                i < to_restore@.len(),
                lc@ == leaf_or_empty(to_restore@[i as int]@),
                hit == exists|q: int| 0 <= q < j && (#[trigger] failures@[q]).0@ == lc@,
            decreases failures@.len() - j,
        {
            let fc = chars_of(failures[j].0.as_str());
            if eq_chars(&fc, &lc) {
                hit = true;
            }
            j = j + 1;
        }
        let ghost t = to_restore@.take(i as int + 1);
        assert(t.drop_last() =~= to_restore@.take(i as int));
        assert(t.last() == to_restore@[i as int]);
        if !hit {
            let ghost p0 = ps@.map_values(|p: String| p@);
            ps.push(to_restore[i].clone());
            assert(ps@.map_values(|p: String| p@) =~= p0.push(to_restore@[i as int]@));
        }
        i = i + 1;
    }
    assert(to_restore@.take(to_restore@.len() as int) =~= to_restore@);
    RestorePlan::Go { paths: ps, skipped: join_strings(&items, "; ") }
}

/// The report of a restore: `Restored <n> folder(s).` when every asked folder was
/// restored and none was skipped; otherwise `Restored <n> of <total>.` followed by
/// the skipped and the failed folders; flagged as failed when any failed.
pub open spec fn spec_restore_report(count: nat, total: nat, skipped: Seq<char>, failures: Seq<Seq<char>>) -> (Seq<char>, bool) {
    if count == total && failures.len() == 0 && skipped.len() == 0 {
        ("Restored "@ + dec(count) + " folder(s)."@, false)
    } else {
        let m0 = "Restored "@ + dec(count) + " of "@ + dec(total) + "."@;
        let m1 = if skipped.len() > 0 { m0 + "\n\nSkipped:\n"@ + skipped } else { m0 };
        let m2 = if failures.len() > 0 { m1 + "\n\nFailed: "@ + join_with(failures, ", "@) } else { m1 };
        (m2, failures.len() > 0)
    }
}

pub fn restore_report(count: usize, total: usize, skipped: &str, failures: &Vec<String>) -> (r: (String, bool))
    ensures
        r.0@ == spec_restore_report(count as nat, total as nat, skipped@, failures@.map_values(|f: String| f@)).0,
        r.1 == spec_restore_report(count as nat, total as nat, skipped@, failures@.map_values(|f: String| f@)).1,
{
    let sk = chars_of(skipped);
    let mut v: Vec<char> = Vec::new();
    if count == total && failures.len() == 0 && sk.len() == 0 {
        push_str(&mut v, "Restored ");
        push_dec(count as u64, &mut v);
        push_str(&mut v, " folder(s).");
        return (string_of(&v), false);
    }
    push_str(&mut v, "Restored ");
    push_dec(count as u64, &mut v);
    push_str(&mut v, " of ");
    push_dec(total as u64, &mut v);
    push_str(&mut v, ".");
    if sk.len() > 0 {
        push_str(&mut v, "\n\nSkipped:\n");
        push_str(&mut v, skipped);
    }
    if failures.len() > 0 {
        push_str(&mut v, "\n\nFailed: ");
        let j = join_strings(failures, ", ");
        push_str(&mut v, j.as_str());
    }
    (string_of(&v), failures.len() > 0)
}

/// Why a folder cannot be restored, before anything is touched: no backup in any
/// form, or a keyed archive that does not start like a zstd frame.
pub fn precheck_failure(restorable: bool, keyed_exists: bool, valid_zstd: bool) -> (r: Option<String>)
    ensures
        !restorable ==> (r matches Some(m) && m@ == "backup missing"@),
        restorable && keyed_exists && !valid_zstd ==> (r matches Some(m) && m@
            == "backup archive is corrupt or incomplete"@),
        restorable && !(keyed_exists && !valid_zstd) ==> r is None,
{
    if !restorable {
        return Some(string_of(&chars_of("backup missing")));
    }
    if keyed_exists && !valid_zstd {
        return Some(string_of(&chars_of("backup archive is corrupt or incomplete")));
    }
    None
}

// ==================== WINDOW ====================

/// The label of the context-menu switch.
pub fn update_rc_label(enabled: bool) -> (r: String)
    ensures
        r@ == if enabled {
            "Right-Click Sync: ON   (click to disable)"@
        } else {
            "Right-Click Sync: OFF   (click to enable)"@
        },
{
    if enabled {
        string_of(&chars_of("Right-Click Sync: ON   (click to disable)"))
    } else {
        string_of(&chars_of("Right-Click Sync: OFF   (click to enable)"))
    }
}

/// The command the folder context menu runs: `"<exe>" -link "%V"`.
pub fn context_menu_command(exe: &str) -> (r: String)
    ensures
        r@ == "\""@ + exe@ + "\" -link \"%V\""@,
{
    let mut v: Vec<char> = Vec::new();
    push_str(&mut v, "\"");
    push_str(&mut v, exe);
    push_str(&mut v, "\" -link \"%V\"");
    string_of(&v)
}

/// A duration in whole seconds as shown: `<m>m <s>s` from a minute on, else `<s>s`.
pub fn fmt_dur_secs(s: u64) -> (r: String)
    ensures
        r@ == if s >= 60 {
            dec((s / 60) as nat) + "m "@ + dec((s % 60) as nat) + "s"@
        } else {
            dec(s as nat) + "s"@
        },
{
    let mut v: Vec<char> = Vec::new();
    if s >= 60 {
        push_dec(s / 60, &mut v);
        push_str(&mut v, "m ");
        push_dec(s % 60, &mut v);
        push_str(&mut v, "s");
    } else {
        push_dec(s, &mut v);
        push_str(&mut v, "s");
    }
    string_of(&v)
}

/// The name a folder is listed under: its last component, or its whole path.
pub fn folder_display_name(path: &str) -> (r: String)
    ensures
        r@ == match spec_file_name(path@) {
            Some(n) => n,
            None => path@,
        },
{
    let cs = chars_of(path);
    match file_name(cs.as_slice()) {
        Some(n) => string_of(&n),
        None => string_of(&cs),
    }
}

/// `ON` or `OFF`.
pub fn on_off(b: bool) -> (r: String)
    ensures
        r@ == if b { "ON"@ } else { "OFF"@ },
{
    if b {
        string_of(&chars_of("ON"))
    } else {
        string_of(&chars_of("OFF"))
    }
}

} // verus!

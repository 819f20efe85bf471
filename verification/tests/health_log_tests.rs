use lrgex_restore::crashlog::{launch_banner, version_stamp};
use lrgex_restore::health::{friendly_time, health_from, listing_says_running, reports_running, status_record, SyncStatus};
use lrgex_restore::synclog::{
    log_line, parse_progress, progress_line, progress_shown, read_tail, trim_log, Progress,
};

fn status(ok: i32, fail: i32, restored: i32, names: &str) -> SyncStatus {
    SyncStatus {
        last_sync: "2026-08-04 06:41:23 AM".to_string(),
        ok,
        fail,
        restored,
        restored_names: names.to_string(),
    }
}

#[test]
fn test_friendly_time() {
    assert_eq!(friendly_time("2026-08-04 06:41:23 AM"), "6:41 AM");
    assert_eq!(friendly_time("2026-08-04 00:05:00 PM"), "12:05 PM");
    assert_eq!(friendly_time("garbage"), "garbage");
    assert_eq!(friendly_time("a b c"), "a b c");
}

#[test]
fn test_health_lamp() {
    let r = health_from(false, false, None);
    assert_eq!((r.status.as_str(), r.label.as_str()), ("RED", "Protection off • will resume on next launch"));
    let r = health_from(true, true, None);
    assert_eq!((r.status.as_str(), r.label.as_str()), ("AMBER", "Protecting your folders…"));
    let r = health_from(true, false, Some(&status(3, 1, 0, "")));
    assert_eq!((r.status.as_str(), r.label.as_str()), ("RED", "⚠ Needs attention • 1 folder failed"));
    let r = health_from(true, false, Some(&status(3, 0, 2, "A, B")));
    assert_eq!(r.label, "✔ Restored 2 folders • auto-restored: A, B");
    let r = health_from(true, false, Some(&status(1, 0, 0, "")));
    assert_eq!((r.status.as_str(), r.label.as_str()), ("GREEN", "✔ 1 folder protected • 6:41 AM"));
    let r = health_from(true, false, None);
    assert_eq!((r.status.as_str(), r.label.as_str()), ("AMBER", "Starting up — preparing your first backup"));
    assert!(r.reason.is_empty());
    let s = status_record("t", 4, 0, 1, &vec!["A".to_string(), "B".to_string()]);
    assert_eq!(s.restored_names, "A, B");
    assert!(reports_running("  True\r\n"));
    assert!(!reports_running("False"));
}

#[test]
fn test_log_trimming() {
    let mut data = String::new();
    for i in 0..2051 {
        data.push_str(&format!("line {}\r\n", i));
    }
    let t = trim_log(&data).expect("over the limit");
    assert!(t.starts_with("line 51\r\n"));
    assert!(t.ends_with("line 2050"));
    assert_eq!(t.split("\r\n").count(), 2000);
    assert!(trim_log("a\r\nb\r\n").is_none());
    assert_eq!(read_tail("a\r\nb\nc", 2), "b\r\nc");
    assert_eq!(read_tail("a\r\nb", 5), "a\r\nb");
    assert_eq!(log_line("TS", "msg"), "TS msg\r\n");
}

#[test]
fn test_progress_line_roundtrip() {
    let line = progress_line(4321, "Compressing Saves...");
    assert_eq!(line, "4321|Compressing Saves...");
    assert_eq!(parse_progress(&format!(" {}\n", line)), Some((4321, "Compressing Saves...".to_string())));
    assert_eq!(parse_progress("nopipe"), None);
    assert_eq!(parse_progress("x|y"), None);
    assert_eq!(progress_shown(Some((1, "m".to_string())), false, true), ("m".to_string(), false));
    assert_eq!(progress_shown(Some((1, "m".to_string())), true, true), (String::new(), true));
    assert_eq!(progress_shown(Some((1, "m".to_string())), false, false), (String::new(), true));
    assert_eq!(progress_shown(None, false, true), (String::new(), false));
}

#[test]
fn test_progress_counters() {
    let mut p = Progress::new("Checking Saves");
    p.set_phase(1);
    p.set_totals(10, 1000);
    p.tick(100);
    p.tick(50);
    p.tick_bytes(7);
    assert_eq!((p.phase, p.files_done, p.files_total, p.bytes_done, p.bytes_total), (1, 2, 10, 157, 1000));
    p.tick_bytes(u64::MAX);
    assert_eq!(p.bytes_done, 156);
    p.finish(3);
    assert_eq!(p.phase, 3);
    assert!(p.stopped);
    assert_eq!(p.label, "Checking Saves");
}

#[test]
fn test_version_stamp() {
    assert_eq!(version_stamp(), "LRGEX Restore v1.5.3");
    assert_eq!(launch_banner("NOW"), "=== LRGEX Restore v1.5.3 launched at NOW ===\r\n");
}

#[test]
fn task_listing_status_line() {
    let running = "Folder: \\\r\nTaskName: x\r\n   Status:   Running\r\nNext: y\r\n";
    assert_eq!(listing_says_running(running), Some(true));
    let ready = "TaskName: x\nSTATUS: Ready\nStatus: Running\n";
    assert_eq!(listing_says_running(ready), Some(false));
    assert_eq!(listing_says_running("no such line"), None);
    assert_eq!(listing_says_running(""), None);
}

#[test]
fn progress_line_reads_back() {
    let line = progress_line(4321, "Compressing Saves...");
    assert_eq!(parse_progress(&line), Some((4321, "Compressing Saves...".to_string())));
    assert_eq!(parse_progress(&progress_line(7, "")), Some((7, String::new())));
}

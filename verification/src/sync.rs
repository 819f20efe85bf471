//! Decisions of the backup engine: how files are batched for compression, when a
//! folder has changed, which snapshots are kept, how the sidecar and the task
//! schedule are written, and what a sync cycle reports.
use vstd::prelude::*;
use crate::text::{lowercase, lower_ascii_seq, to_lowercase, chars_of, string_of, dec, push_dec, push_str, trim, trim_chars, parse_unsigned, parse_unsigned_chars, lemma_dec_parses, all_digits, is_digit};
use crate::pathutil::{eq_chars};
use crate::config::{fnv_fold, fnv_offset, fnv1a64_update, fnv1a64_offset};
use vstd::utf8::*;
use std::collections::HashMap;

verus! {

broadcast use vstd::std_specs::hash::group_hash_axioms;

// ==================== FILES AND BATCHES ====================

/// Files at least this large are streamed rather than preloaded.
pub const BIG_FILE: u64 = 8388608;
/// At most this many files per compression batch.
pub const BATCH: usize = 2048;
/// At most this many preloaded bytes per compression batch.
pub const BATCH_BYTES: u64 = 67108864;

/// One file found under a protected folder.
pub struct FileEnt {
    pub path: String,
    /// The path relative to the protected folder.
    pub rel: String,
    pub size: u64,
    /// Modification time in seconds since the Unix epoch, 0 when unknown.
    pub mtime: u64,
}

/// The bytes a file preloads into a batch: its size, capped at `BIG_FILE`.
pub open spec fn weight(size: u64) -> u64 {
    if size < BIG_FILE {
        size
    } else {
        BIG_FILE
    }
}

pub open spec fn weights(files: Seq<FileEnt>) -> Seq<u64> {
    files.map_values(|f: FileEnt| weight(f.size))
}

pub open spec fn sum(ws: Seq<u64>) -> int
    decreases ws.len(),
{
    if ws.len() == 0 {
        0
    } else {
        sum(ws.drop_last()) + ws.last()
    }
}

/// Where the batch that starts at `start` ends, having taken files up to `i` with
/// `bytes` preloaded: it takes the next file unless it holds `maxc` files already,
/// or the file would push it past `maxb` bytes and it is not empty.
pub open spec fn batch_end(ws: Seq<u64>, start: int, i: int, bytes: int, maxb: int, maxc: int) -> int
    decreases ws.len() - i,
{
    if i >= ws.len() || i - start >= maxc {
        i
    } else if bytes + ws[i] > maxb && i > start {
        i
    } else {
        batch_end(ws, start, i + 1, bytes + ws[i], maxb, maxc)
    }
}

/// The batches from `start` on, as index ranges `[from, to)`.
pub open spec fn batches(ws: Seq<u64>, start: int, maxb: int, maxc: int) -> Seq<(int, int)>
    decreases ws.len() - start,
{
    if start >= ws.len() || start < 0 || maxc <= 0 {
        seq![]
    } else {
        let e = batch_end(ws, start, start, 0, maxb, maxc);
        if e <= start || e > ws.len() {
            seq![]
        } else {
            seq![(start, e)] + batches(ws, e, maxb, maxc)
        }
    }
}

proof fn lemma_sum_push(ws: Seq<u64>, a: int, i: int)
    requires
        0 <= a <= i < ws.len(),
    ensures
        sum(ws.subrange(a, i + 1)) == sum(ws.subrange(a, i)) + ws[i],
{
    assert(ws.subrange(a, i + 1).drop_last() =~= ws.subrange(a, i));
}

proof fn lemma_batch_end(ws: Seq<u64>, start: int, i: int, bytes: int, maxb: int, maxc: int)
    requires
        0 <= start <= i <= ws.len(),
        maxc > 0,
        maxb >= 0,
        i - start <= maxc,
        bytes == sum(ws.subrange(start, i)),
        bytes <= maxb || i - start <= 1,
    ensures
        i <= batch_end(ws, start, i, bytes, maxb, maxc) <= ws.len(),
        batch_end(ws, start, i, bytes, maxb, maxc) - start <= maxc,
        sum(ws.subrange(start, batch_end(ws, start, i, bytes, maxb, maxc))) <= maxb || batch_end(
            ws,
            start,
            i,
            bytes,
            maxb,
            maxc,
        ) - start == 1,
        i == start && start < ws.len() ==> batch_end(ws, start, i, bytes, maxb, maxc) > start,
    decreases ws.len() - i,
{
    if i >= ws.len() || i - start >= maxc {
    } else if bytes + ws[i] > maxb && i > start {
    } else {
        lemma_sum_push(ws, start, i);
        lemma_batch_end(ws, start, i + 1, bytes + ws[i], maxb, maxc);
    }
}

/// Batches cover the files in order, each one non-empty, with at most `maxc`
/// files, and with at most `maxb` preloaded bytes unless it holds a single file.
pub open spec fn batches_ok(ws: Seq<u64>, start: int, bs: Seq<(int, int)>, maxb: int, maxc: int) -> bool {
    &&& (bs.len() == 0 <==> start >= ws.len())
    &&& bs.len() > 0 ==> bs[0].0 == start && bs.last().1 == ws.len()
    &&& forall|k: int| 0 <= k < bs.len() - 1 ==> #[trigger] bs[k].1 == bs[k + 1].0
    &&& forall|k: int|
        0 <= k < bs.len() ==> {
            &&& bs[k].0 < #[trigger] bs[k].1
            &&& bs[k].1 - bs[k].0 <= maxc
            &&& sum(ws.subrange(bs[k].0, bs[k].1)) <= maxb || bs[k].1 - bs[k].0 == 1
        }
}

/// Batching partitions the files, in order, into non-empty batches that respect
/// both the count cap and (except for a lone large file) the byte cap.
pub proof fn lemma_batches_partition(ws: Seq<u64>, start: int, maxb: int, maxc: int)
    requires
        0 <= start <= ws.len(),
        maxc > 0,
        maxb >= 0,
    ensures
        batches_ok(ws, start, batches(ws, start, maxb, maxc), maxb, maxc),
    decreases ws.len() - start,
{
    if start < ws.len() {
        assert(ws.subrange(start, start) =~= Seq::<u64>::empty());
        lemma_batch_end(ws, start, start, 0, maxb, maxc);
        let e = batch_end(ws, start, start, 0, maxb, maxc);
        lemma_batches_partition(ws, e, maxb, maxc);
        let rest = batches(ws, e, maxb, maxc);
        let bs = batches(ws, start, maxb, maxc);
        assert(bs == seq![(start, e)] + rest);
        assert forall|k: int| 0 <= k < bs.len() - 1 implies #[trigger] bs[k].1 == bs[k + 1].0 by {
            if k > 0 {
                assert(bs[k] == rest[k - 1]);
                assert(bs[k + 1] == rest[k]);
            } else {
                assert(bs[1] == rest[0]);
            }
        }
        assert forall|k: int| 0 <= k < bs.len() implies {
            &&& bs[k].0 < #[trigger] bs[k].1
            &&& bs[k].1 - bs[k].0 <= maxc
            &&& sum(ws.subrange(bs[k].0, bs[k].1)) <= maxb || bs[k].1 - bs[k].0 == 1
        } by {
            if k > 0 {
                assert(bs[k] == rest[k - 1]);
            }
        }
        if rest.len() > 0 {
            assert(bs.last() == rest.last());
        }
    }
}

/// Splits the files into compression batches (see `batches`), as index ranges.
pub fn chunk_by_bytes(files: &Vec<FileEnt>, max_bytes: u64, max_count: usize) -> (r: Vec<(usize, usize)>)
    requires
        max_count > 0,
        max_bytes <= u64::MAX - BIG_FILE,
    ensures
        r@.map_values(|p: (usize, usize)| (p.0 as int, p.1 as int)) == batches(
            weights(files@),
            0,
            max_bytes as int,
            max_count as int,
        ),
{
    let ghost ws = weights(files@);
    let mut out: Vec<(usize, usize)> = Vec::new();
    let mut i: usize = 0;
    assert(Seq::<(int, int)>::empty() + batches(ws, 0, max_bytes as int, max_count as int) =~= batches(
        ws,
        0,
        max_bytes as int,
        max_count as int,
    ));
    while i < files.len()
        invariant
            i <= files@.len(),
            ws == weights(files@),
            max_count > 0,
            max_bytes <= u64::MAX - BIG_FILE,
            batches(ws, 0, max_bytes as int, max_count as int) == out@.map_values(
                |p: (usize, usize)| (p.0 as int, p.1 as int),
            ) + batches(ws, i as int, max_bytes as int, max_count as int),
        decreases files@.len() - i,
    {
        let start = i;
        let mut bytes: u64 = 0;
        assert(ws.subrange(start as int, start as int) =~= Seq::<u64>::empty());
        while i < files.len() && (i - start) < max_count
            invariant
                start <= i <= files@.len(),
                ws == weights(files@),
                max_count > 0,
                i - start <= max_count,
                max_bytes <= u64::MAX - BIG_FILE,
                bytes == sum(ws.subrange(start as int, i as int)),
                bytes <= max_bytes || bytes <= BIG_FILE,
                bytes <= max_bytes || i - start <= 1,
                batch_end(ws, start as int, start as int, 0, max_bytes as int, max_count as int)
                    == batch_end(ws, start as int, i as int, bytes as int, max_bytes as int, max_count as int),
            ensures
                start <= i <= files@.len(),
                batch_end(ws, start as int, start as int, 0, max_bytes as int, max_count as int)
                    == i as int,
            decreases files@.len() - i,
        {
            let w = if files[i].size < BIG_FILE { files[i].size } else { BIG_FILE };
            assert(w == ws[i as int]);
            if bytes + w > max_bytes && i > start {
                break;
            }
            proof {
                lemma_sum_push(ws, start as int, i as int);
            }
            bytes = bytes + w;
            i = i + 1;
        }
        proof {
            lemma_batch_end(ws, start as int, start as int, 0, max_bytes as int, max_count as int);
        }
        let ghost before = out@.map_values(|p: (usize, usize)| (p.0 as int, p.1 as int));
        out.push((start, i));
        assert(out@.map_values(|p: (usize, usize)| (p.0 as int, p.1 as int)) =~= before.push(
            (start as int, i as int),
        ));
        assert(before + batches(ws, start as int, max_bytes as int, max_count as int) =~= before.push(
            (start as int, i as int),
        ) + batches(ws, i as int, max_bytes as int, max_count as int));
    }
    assert(out@.map_values(|p: (usize, usize)| (p.0 as int, p.1 as int)) + Seq::<(int, int)>::empty()
        =~= out@.map_values(|p: (usize, usize)| (p.0 as int, p.1 as int)));
    out
}


// ==================== WALK ====================

/// What the walk of a protected folder does with one directory entry.
#[derive(PartialEq, Eq, Structural, Clone, Copy, Debug)]
pub enum WalkEntry {
    /// Left out: its name is excluded, or it is a symbolic link.
    Skip,
    /// A folder to walk into.
    Descend,
    /// A file to archive.
    File,
}

/// An excluded name is matched exactly (case included).
pub open spec fn is_excluded(name: Seq<char>, excluded: Seq<String>) -> bool {
    exists|k: int| 0 <= k < excluded.len() && (#[trigger] excluded[k])@ == name
}

/// Classifies an entry met by the walk (see `WalkEntry`).
pub fn walk_entry(name: &str, is_symlink: bool, is_dir: bool, excluded: &Vec<String>) -> (r: WalkEntry)
    ensures
        r == if is_excluded(name@, excluded@) || is_symlink {
            WalkEntry::Skip
        } else if is_dir {
            WalkEntry::Descend
        } else {
            WalkEntry::File
        },
{
    let n = chars_of(name);
    let mut k: usize = 0;
    while k < excluded.len()
        invariant
            k <= excluded@.len(),
            n@ == name@,
            forall|j: int| 0 <= j < k ==> (#[trigger] excluded@[j])@ != name@,
        decreases excluded@.len() - k,
    {
        let e = chars_of(excluded[k].as_str());
        if eq_chars(&e, &n) {
            return WalkEntry::Skip;
        }
        k = k + 1;
    }
    if is_symlink {
        WalkEntry::Skip
    } else if is_dir {
        WalkEntry::Descend
    } else {
        WalkEntry::File
    }
}

/// The folders listed in the walk's warning: the first twenty, one per line.
pub open spec fn listed_failures(failed: Seq<Seq<char>>, n: int) -> Seq<char>
    decreases n,
{
    if n <= 0 {
        Seq::empty()
    } else {
        listed_failures(failed, n - 1) + "\n  "@ + failed[n - 1]
    }
}

/// The log warning about unreadable subfolders: the first twenty listed, then
/// how many more there were.
pub fn walk_warning(failed: &Vec<String>) -> (r: String)
    ensures
        ({
            let fv = failed@.map_values(|x: String| x@);
            let shown = if fv.len() > 20 { 20 } else { fv.len() as int };
            r@ == "[WALK-WARN] unreadable subfolders EXCLUDED from backup:"@ + listed_failures(fv, shown) + if fv.len()
                > 20 {
                "\n  ... and "@ + dec((fv.len() - 20) as nat) + " more"@
            } else {
                Seq::<char>::empty()
            }
        }),
{
    let ghost fv = failed@.map_values(|x: String| x@);
    let mut v: Vec<char> = Vec::new();
    push_str(&mut v, "[WALK-WARN] unreadable subfolders EXCLUDED from backup:");
    let ghost head = v@;
    let shown: usize = if failed.len() > 20 { 20 } else { failed.len() };
    let mut i: usize = 0;
    while i < shown
        invariant
            i <= shown <= failed@.len(),
            fv == failed@.map_values(|x: String| x@),
            v@ == head + listed_failures(fv, i as int),
        decreases shown - i,
    {
        push_str(&mut v, "\n  ");
        push_str(&mut v, failed[i].as_str());
        assert(fv[i as int] == failed@[i as int]@);
        assert(v@ =~= head + listed_failures(fv, i as int + 1));
        i = i + 1;
    }
    if failed.len() > 20 {
        push_str(&mut v, "\n  ... and ");
        push_dec((failed.len() - 20) as u64, &mut v);
        push_str(&mut v, " more");
    }
    string_of(&v)
}

// ==================== CHANGE DETECTION ====================

/// One line of the change-detection manifest.
pub struct FileMeta {
    /// Relative path with `/` separators.
    pub p: String,
    /// Size in bytes.
    pub s: u64,
    /// Content hash; 0 means unknown (the file could not be read).
    pub h: u64,
}

/// The manifest key of a relative path: `\\` becomes `/`.
pub open spec fn spec_manifest_key(rel: Seq<char>) -> Seq<char> {
    rel.map_values(|c: char| if c == '\\' { '/' } else { c })
}

/// The manifest key of a relative path (see `spec_manifest_key`).
pub fn manifest_key(rel: &str) -> (r: String)
    ensures
        r@ == spec_manifest_key(rel@),
{
    let cs = chars_of(rel);
    let mut v: Vec<char> = Vec::new();
    let mut i: usize = 0;
    while i < cs.len()
        invariant
            i <= cs@.len(),
            cs@ == rel@,
            v@ == spec_manifest_key(rel@).take(i as int),
        decreases cs@.len() - i,
    {
        v.push(if cs[i] == '\\' { '/' } else { cs[i] });
        assert(spec_manifest_key(rel@).take(i as int + 1) =~= spec_manifest_key(rel@).take(i as int).push(
            spec_manifest_key(rel@)[i as int],
        ));
        i = i + 1;
    }
    assert(spec_manifest_key(rel@).take(cs@.len() as int) =~= spec_manifest_key(rel@));
    string_of(&v)
}

/// The index of the last of the first `n` stored entries whose key is `p` (a
/// later entry with the same key replaces an earlier one).
pub open spec fn last_with_key(stored: Seq<FileMeta>, p: Seq<char>, n: int) -> Option<int>
    decreases n,
{
    if n <= 0 {
        None
    } else if stored[n - 1].p@ == p {
        Some(n - 1)
    } else {
        last_with_key(stored, p, n - 1)
    }
}

/// A current manifest entry shows a change: its key is not stored, its size
/// differs, it was unreadable when stored but is readable now, or both hashes are
/// known and differ. An entry unreadable now, with the same size, shows none.
pub open spec fn entry_changed(stored: Seq<FileMeta>, c: FileMeta) -> bool {
    match last_with_key(stored, c.p@, stored.len() as int) {
        None => true,
        Some(j) => {
            let s = stored[j];
            s.s != c.s || (s.h == 0 && c.h != 0) || (s.h != 0 && c.h != 0 && s.h != c.h)
        },
    }
}

/// A folder changed since its manifest was stored: the number of entries differs,
/// or some current entry shows a change.
pub open spec fn spec_detect_change(stored: Seq<FileMeta>, current: Seq<FileMeta>) -> bool {
    stored.len() != current.len() || exists|i: int|
        0 <= i < current.len() && #[trigger] entry_changed(stored, current[i])
}

/// Keys of a manifest are pairwise distinct (as the walk of a folder makes them).
pub open spec fn keys_distinct(m: Seq<FileMeta>) -> bool {
    forall|i: int, j: int| 0 <= i < j < m.len() ==> (#[trigger] m[i]).p@ != (#[trigger] m[j]).p@
}

proof fn lemma_last_with_key_unique(m: Seq<FileMeta>, i: int, n: int)
    requires
        keys_distinct(m),
        0 <= i < n <= m.len(),
    ensures
        last_with_key(m, m[i].p@, n) == Some(i),
    decreases n,
{
    if n - 1 != i {
        assert(m[n - 1].p@ != m[i].p@);
        lemma_last_with_key_unique(m, i, n - 1);
    }
}

/// A folder whose files are exactly as its stored manifest says reads as
/// unchanged (what a sync right after a restore sees).
pub proof fn lemma_unchanged_manifest(m: Seq<FileMeta>)
    requires
        keys_distinct(m),
    ensures
        !spec_detect_change(m, m),
{
    assert forall|i: int| 0 <= i < m.len() implies !#[trigger] entry_changed(m, m[i]) by {
        lemma_last_with_key_unique(m, i, m.len() as int);
    }
}

proof fn lemma_last_with_key_is(stored: Seq<FileMeta>, p: Seq<char>, j: int, n: int)
    requires
        0 <= j < n <= stored.len(),
        stored[j].p@ == p,
        forall|k: int| j < k < n ==> (#[trigger] stored[k]).p@ != p,
    ensures
        last_with_key(stored, p, n) == Some(j),
    decreases n,
{
    if n - 1 != j {
        lemma_last_with_key_is(stored, p, j, n - 1);
    }
}

proof fn lemma_last_with_key_none(stored: Seq<FileMeta>, p: Seq<char>, n: int)
    requires
        0 <= n <= stored.len(),
        forall|k: int| 0 <= k < n ==> (#[trigger] stored[k]).p@ != p,
    ensures
        last_with_key(stored, p, n) is None,
    decreases n,
{
    if n > 0 {
        lemma_last_with_key_none(stored, p, n - 1);
    }
}

/// A file found now whose key was last stored at `j` shows the folder changed
/// when its size differs from the stored one, or when both hashes are known
/// and differ, whichever of the two is larger: an edit that keeps the size is
/// still a change. So is a file unreadable when stored and readable now.
pub proof fn lemma_file_edit_is_change(stored: Seq<FileMeta>, current: Seq<FileMeta>, i: int, j: int)
    requires
        0 <= i < current.len(),
        0 <= j < stored.len(),
        stored[j].p@ == current[i].p@,
        forall|k: int| j < k < stored.len() ==> (#[trigger] stored[k]).p@ != current[i].p@,
        stored[j].s != current[i].s || (stored[j].h != 0 && current[i].h != 0 && stored[j].h != current[i].h)
            || (stored[j].h == 0 && current[i].h != 0),
    ensures
        spec_detect_change(stored, current),
{
    lemma_last_with_key_is(stored, current[i].p@, j, stored.len() as int);
    assert(entry_changed(stored, current[i]));
}

/// A file found now whose key was never stored shows the folder changed.
pub proof fn lemma_new_file_is_change(stored: Seq<FileMeta>, current: Seq<FileMeta>, i: int)
    requires
        0 <= i < current.len(),
        forall|k: int| 0 <= k < stored.len() ==> (#[trigger] stored[k]).p@ != current[i].p@,
    ensures
        spec_detect_change(stored, current),
{
    lemma_last_with_key_none(stored, current[i].p@, stored.len() as int);
    assert(entry_changed(stored, current[i]));
}

/// A folder with more or fewer files than its stored manifest changed.
pub proof fn lemma_file_count_change(stored: Seq<FileMeta>, current: Seq<FileMeta>)
    requires
        stored.len() != current.len(),
    ensures
        spec_detect_change(stored, current),
{
}

/// No change is reported when nothing changed: with as many files as stored,
/// each found under a stored key (the last stored with it) with the same size
/// and the same hash, or a hash that could not be read now, the folder reads as
/// unchanged.
pub proof fn lemma_same_files_no_change(stored: Seq<FileMeta>, current: Seq<FileMeta>, at: Seq<int>)
    requires
        stored.len() == current.len(),
        at.len() == current.len(),
        forall|i: int|
            0 <= i < current.len() ==> {
                let j = #[trigger] at[i];
                &&& 0 <= j < stored.len()
                &&& stored[j].p@ == current[i].p@
                &&& (forall|k: int| j < k < stored.len() ==> (#[trigger] stored[k]).p@ != current[i].p@)
                &&& stored[j].s == current[i].s
                &&& (stored[j].h == current[i].h || current[i].h == 0)
            },
    ensures
        !spec_detect_change(stored, current),
{
    assert forall|i: int| 0 <= i < current.len() implies !#[trigger] entry_changed(stored, current[i]) by {
        let j = at[i];
        lemma_last_with_key_is(stored, current[i].p@, j, stored.len() as int);
    }
}

/// The bucket of a key: FNV-1a over its UTF-8 bytes.
pub open spec fn key_hash(p: Seq<char>) -> u64 {
    fnv_fold(fnv_offset(), encode_utf8(p))
}

/// The indices below `n` of stored entries whose key hashes to `h`, ascending.
pub open spec fn bucket(stored: Seq<FileMeta>, h: u64, n: int) -> Seq<usize>
    decreases n,
{
    if n <= 0 {
        seq![]
    } else if key_hash(stored[n - 1].p@) == h {
        bucket(stored, h, n - 1).push((n - 1) as usize)
    } else {
        bucket(stored, h, n - 1)
    }
}

/// Scanning `b` from its end, the first index whose stored key is `p`.
pub open spec fn last_match_in(stored: Seq<FileMeta>, p: Seq<char>, b: Seq<usize>) -> Option<int>
    decreases b.len(),
{
    if b.len() == 0 {
        None
    } else if stored[b.last() as int].p@ == p {
        Some(b.last() as int)
    } else {
        last_match_in(stored, p, b.drop_last())
    }
}

proof fn lemma_bucket_lookup(stored: Seq<FileMeta>, p: Seq<char>, n: int)
    requires
        0 <= n <= stored.len(),
        stored.len() <= usize::MAX,
    ensures
        last_with_key(stored, p, n) == last_match_in(stored, p, bucket(stored, key_hash(p), n)),
    decreases n,
{
    if n > 0 {
        lemma_bucket_lookup(stored, p, n - 1);
        let b = bucket(stored, key_hash(p), n - 1);
        if key_hash(stored[n - 1].p@) == key_hash(p) {
            assert(b.push((n - 1) as usize).drop_last() =~= b);
        }
    }
}

proof fn lemma_bucket_bound(stored: Seq<FileMeta>, h: u64, n: int)
    requires
        0 <= n <= stored.len(),
        stored.len() <= usize::MAX,
    ensures
        forall|k: int| 0 <= k < bucket(stored, h, n).len() ==> (#[trigger] bucket(stored, h, n)[k]) < n,
    decreases n,
{
    if n > 0 {
        lemma_bucket_bound(stored, h, n - 1);
        let b = bucket(stored, h, n - 1);
        if key_hash(stored[n - 1].p@) == h {
            assert forall|k: int| 0 <= k < bucket(stored, h, n).len() implies (#[trigger] bucket(
                stored,
                h,
                n,
            )[k]) < n by {
                if k < b.len() {
                    assert(bucket(stored, h, n)[k] == b[k]);
                } else {
                    assert(bucket(stored, h, n)[k] == (n - 1) as usize);
                }
            }
        }
    }
}

proof fn lemma_last_with_key(stored: Seq<FileMeta>, p: Seq<char>, n: int)
    requires
        0 <= n <= stored.len(),
    ensures
        match last_with_key(stored, p, n) {
            Some(j) => 0 <= j < n && stored[j].p@ == p,
            None => true,
        },
    decreases n,
{
    if n > 0 && stored[n - 1].p@ != p {
        lemma_last_with_key(stored, p, n - 1);
    }
}

fn key_hash_exec(p: &String) -> (r: u64)
    ensures
        r == key_hash(p@),
{
    fnv1a64_update(fnv1a64_offset(), p.as_str().as_bytes())
}

/// Whether the folder changed since `stored` was written, given the manifest of
/// its files now (see `spec_detect_change`).
pub fn detect_change(stored: &Vec<FileMeta>, current: &Vec<FileMeta>) -> (r: bool)
    ensures
        r == spec_detect_change(stored@, current@),
{
    if stored.len() != current.len() {
        return true;
    }
    let mut m: HashMap<u64, Vec<usize>> = HashMap::new();
    let mut n: usize = 0;
    while n < stored.len()
        invariant
            n <= stored@.len(),
            forall|h: u64| #[trigger] m@.contains_key(h) ==> m@[h]@ == bucket(stored@, h, n as int),
            forall|h: u64| !#[trigger] m@.contains_key(h) ==> bucket(stored@, h, n as int).len() == 0,
        decreases stored@.len() - n,
    {
        let h = key_hash_exec(&stored[n].p);
        let ghost old_m = m@;
        match m.remove(&h) {
            Some(mut v) => {
                v.push(n);
                m.insert(h, v);
            },
            None => {
                let mut v: Vec<usize> = Vec::new();
                v.push(n);
                m.insert(h, v);
                assert(bucket(stored@, h, n as int).len() == 0);
            },
        }
        assert forall|h2: u64| #[trigger] m@.contains_key(h2) implies m@[h2]@ == bucket(stored@, h2, n as int + 1) by {
            if h2 != h {
                assert(old_m.contains_key(h2));
            } else {
                assert(bucket(stored@, h, n as int + 1) == bucket(stored@, h, n as int).push(n));
            }
        }
        assert forall|h2: u64| !#[trigger] m@.contains_key(h2) implies bucket(stored@, h2, n as int + 1).len() == 0 by {
            assert(h2 != h);
        }
        n = n + 1;
    }
    let mut i: usize = 0;
    while i < current.len()
        invariant
            i <= current@.len(),
            stored@.len() == current@.len(),
            forall|h: u64| #[trigger] m@.contains_key(h) ==> m@[h]@ == bucket(stored@, h, stored@.len() as int),
            forall|h: u64| !#[trigger] m@.contains_key(h) ==> bucket(stored@, h, stored@.len() as int).len() == 0,
            forall|j: int| 0 <= j < i ==> !#[trigger] entry_changed(stored@, current@[j]),
        decreases current@.len() - i,
    {
        let c = &current[i];
        let hc = key_hash_exec(&c.p);
        proof {
            lemma_bucket_lookup(stored@, c.p@, stored@.len() as int);
            lemma_bucket_bound(stored@, hc, stored@.len() as int);
            lemma_last_with_key(stored@, c.p@, stored@.len() as int);
        }
        let found: Option<usize> = match m.get(&hc) {
            None => {
                assert(bucket(stored@, hc, stored@.len() as int) =~= Seq::<usize>::empty());
                None
            },
            Some(v) => {
                let ghost b = bucket(stored@, hc, stored@.len() as int);
                assert(v@ == b);
                let mut k: usize = v.len();
                let mut res: Option<usize> = None;
                assert(b.take(b.len() as int) =~= b);
                while k > 0
                    invariant_except_break
                        k <= v@.len(),
                        v@ == b,
                        forall|t: int| 0 <= t < b.len() ==> (#[trigger] b[t]) < stored@.len(),
                        last_match_in(stored@, c.p@, b) == last_match_in(stored@, c.p@, b.take(k as int)),
                        res is None,
                    ensures
                        match res {
                            Some(j) => last_match_in(stored@, c.p@, b) == Some(j as int),
                            None => last_match_in(stored@, c.p@, b) is None,
                        },
                    decreases k,
                {
                    let j = v[k - 1];
                    assert(b.take(k as int).last() == b[k - 1]);
                    assert(b.take(k as int).drop_last() =~= b.take(k - 1));
                    if stored[j].p == c.p {
                        res = Some(j);
                        break;
                    }
                    k = k - 1;
                }
                proof {
                    if k == 0 && res is None {
                        assert(b.take(0) =~= Seq::<usize>::empty());
                    }
                }
                res
            },
        };
        let changed = match found {
            None => true,
            Some(j) => {
                let s = &stored[j];
                s.s != c.s || (s.h == 0 && c.h != 0) || (s.h != 0 && c.h != 0 && s.h != c.h)
            },
        };
        if changed {
            assert(entry_changed(stored@, current@[i as int]));
            return true;
        }
        i = i + 1;
    }
    false
}


// ==================== SNAPSHOT RETENTION ====================

pub open spec fn is_ascii_digit_byte(b: u8) -> bool {
    48 <= b <= 57
}

/// A snapshot folder name: 15 bytes, eight ASCII digits, `_`, six ASCII digits
/// (`YYYYMMDD_HHMMSS`).
pub open spec fn spec_is_snapshot_name(b: Seq<u8>) -> bool {
    &&& b.len() == 15
    &&& forall|k: int| 0 <= k < 8 ==> is_ascii_digit_byte(#[trigger] b[k])
    &&& b[8] == 95
    &&& forall|k: int| 9 <= k < 15 ==> is_ascii_digit_byte(#[trigger] b[k])
}

/// Characters whose UTF-8 bytes are all below 0x80 are one byte each.
proof fn lemma_ascii_bytes_len(name: Seq<char>)
    requires
        forall|k: int| 0 <= k < encode_utf8(name).len() ==> #[trigger] encode_utf8(name)[k] < 0x80,
    ensures
        name.len() == encode_utf8(name).len(),
    decreases name.len(),
{
    if name.len() > 0 {
        let c = name[0] as u32;
        let e = encode_scalar(c);
        let rest = encode_utf8(name.drop_first());
        assert(encode_utf8(name) == e + rest);
        assert(is_scalar(c)) by {
            char_is_scalar(name[0]);
        }
        assert(e.len() >= 1);
        assert(encode_utf8(name)[0] == e[0]);
        assert(has_width_1_encoding(c)) by {
            if has_width_2_encoding(c) {
                assert((0xC0u8 | ((c >> 6) & 0x1F) as u8) >= 0x80u8) by (bit_vector);
            } else if has_width_3_encoding(c) {
                assert((0xE0u8 | ((c >> 12) & 0x0F) as u8) >= 0x80u8) by (bit_vector);
            } else if has_width_4_encoding(c) {
                assert((0xF0u8 | ((c >> 18) & 0x7) as u8) >= 0x80u8) by (bit_vector);
            }
        }
        assert(e.len() == 1);
        assert forall|k: int| 0 <= k < rest.len() implies #[trigger] rest[k] < 0x80 by {
            assert(rest[k] == encode_utf8(name)[k + 1]);
        }
        lemma_ascii_bytes_len(name.drop_first());
    }
}

/// A snapshot name is fifteen ASCII characters (the same as its bytes).
pub proof fn lemma_snapshot_name_chars(name: Seq<char>)
    requires
        spec_is_snapshot_name(encode_utf8(name)),
    ensures
        name.len() == 15,
{
    let b = encode_utf8(name);
    assert forall|k: int| 0 <= k < b.len() implies #[trigger] b[k] < 0x80 by {
        if k == 8 {
        } else {
            assert(is_ascii_digit_byte(b[k]));
        }
    }
    lemma_ascii_bytes_len(name);
}

/// Whether `name` is a snapshot folder name (see `spec_is_snapshot_name`).
pub fn is_snapshot_name(name: &str) -> (r: bool)
    ensures
        r == spec_is_snapshot_name(encode_utf8(name@)),
{
    let b = name.as_bytes();
    if b.len() != 15 {
        return false;
    }
    let mut k: usize = 0;
    while k < 15
        invariant
            k <= 15,
            b@ == encode_utf8(name@),
            b@.len() == 15,
            forall|j: int| 0 <= j < k ==> if j == 8 { b@[j] == 95 } else { is_ascii_digit_byte(b@[j]) },
        decreases 15 - k,
    {
        if k == 8 {
            if b[k] != 95 {
                return false;
            }
        } else if !(48 <= b[k] && b[k] <= 57) {
            return false;
        }
        k = k + 1;
    }
    assert forall|j: int| 0 <= j < 8 implies is_ascii_digit_byte(#[trigger] b@[j]) by {
        assert(j != 8);
    }
    assert forall|j: int| 9 <= j < 15 implies is_ascii_digit_byte(#[trigger] b@[j]) by {
        assert(j != 8);
    }
    true
}

/// Lexicographic order of strings (by character, which is byte order in UTF-8).
pub open spec fn lex_lt(a: Seq<char>, b: Seq<char>) -> bool
    decreases a.len(),
{
    if a.len() == 0 {
        b.len() > 0
    } else if b.len() == 0 {
        false
    } else if a[0] != b[0] {
        a[0] < b[0]
    } else {
        lex_lt(a.drop_first(), b.drop_first())
    }
}

/// Entry `j` comes before entry `i` when snapshots are sorted newest first (by
/// name, descending; equal names keep their listing order).
pub open spec fn sorts_before(names: Seq<Seq<char>>, snap: Seq<bool>, j: int, i: int) -> bool {
    snap[j] && (lex_lt(names[i], names[j]) || (names[j] == names[i] && j < i))
}

/// How many of the first `n` entries sort before entry `i`.
pub open spec fn rank_upto(names: Seq<Seq<char>>, snap: Seq<bool>, i: int, n: int) -> nat
    decreases n,
{
    if n <= 0 {
        0
    } else {
        rank_upto(names, snap, i, n - 1) + if sorts_before(names, snap, n - 1, i) {
            1nat
        } else {
            0nat
        }
    }
}

/// Position of snapshot `i` in the newest-first order.
pub open spec fn rank(names: Seq<Seq<char>>, snap: Seq<bool>, i: int) -> nat {
    rank_upto(names, snap, i, names.len() as int)
}

/// Entry `i` is deleted: it is a snapshot and `keep` newer ones come before it.
pub open spec fn deleted(names: Seq<Seq<char>>, snap: Seq<bool>, keep: int, i: int) -> bool {
    snap[i] && rank(names, snap, i) >= keep
}

pub open spec fn snap_flags(names: Seq<String>) -> Seq<bool> {
    names.map_values(|n: String| spec_is_snapshot_name(encode_utf8(n@)))
}

pub open spec fn name_views(names: Seq<String>) -> Seq<Seq<char>> {
    names.map_values(|n: String| n@)
}

/// Indices below `n` of the deleted entries, ascending.
pub open spec fn deleted_upto(names: Seq<Seq<char>>, snap: Seq<bool>, keep: int, n: int) -> Seq<usize>
    decreases n,
{
    if n <= 0 {
        seq![]
    } else if deleted(names, snap, keep, n - 1) {
        deleted_upto(names, snap, keep, n - 1).push((n - 1) as usize)
    } else {
        deleted_upto(names, snap, keep, n - 1)
    }
}

fn lex_lt_exec(a: &Vec<char>, b: &Vec<char>) -> (r: bool)
    ensures
        r == lex_lt(a@, b@),
{
    let mut k: usize = 0;
    assert(a@.skip(0) =~= a@);
    assert(b@.skip(0) =~= b@);
    assert(a@.take(0) =~= b@.take(0));
    while k < a.len() && k < b.len() && a[k] == b[k]
        invariant
            k <= a@.len(),
            k <= b@.len(),
            a@.take(k as int) == b@.take(k as int),
            lex_lt(a@, b@) == lex_lt(a@.skip(k as int), b@.skip(k as int)),
        decreases a@.len() - k,
    {
        assert(a@.skip(k as int).drop_first() =~= a@.skip(k as int + 1));
        assert(b@.skip(k as int).drop_first() =~= b@.skip(k as int + 1));
        assert(a@.take(k as int + 1) =~= a@.take(k as int).push(a@[k as int]));
        assert(b@.take(k as int + 1) =~= b@.take(k as int).push(b@[k as int]));
        k = k + 1;
    }
    if k == a.len() {
        k < b.len()
    } else if k == b.len() {
        false
    } else {
        a[k] < b[k]
    }
}

/// The snapshots to delete so that only the `keep` newest remain: the indices of
/// the entries that are snapshot names and have at least `keep` snapshots before
/// them in newest-first order.
pub fn snapshots_to_delete(names: &Vec<String>, keep: usize) -> (r: Vec<usize>)
    ensures
        r@ == deleted_upto(name_views(names@), snap_flags(names@), keep as int, names@.len() as int),
{
    let ghost nv = name_views(names@);
    let ghost sf = snap_flags(names@);
    let mut cs: Vec<Vec<char>> = Vec::new();
    let mut flags: Vec<bool> = Vec::new();
    let mut t: usize = 0;
    while t < names.len()
        invariant
            t <= names@.len(),
            nv == name_views(names@),
            sf == snap_flags(names@),
            cs@.len() == t,
            flags@.len() == t,
            forall|j: int| 0 <= j < t ==> (#[trigger] cs@[j])@ == nv[j],
            forall|j: int| 0 <= j < t ==> #[trigger] flags@[j] == sf[j],
        decreases names@.len() - t,
    {
        cs.push(chars_of(names[t].as_str()));
        flags.push(is_snapshot_name(names[t].as_str()));
        t = t + 1;
    }
    let mut out: Vec<usize> = Vec::new();
    let mut i: usize = 0;
    while i < names.len()
        invariant
            i <= names@.len(),
            nv == name_views(names@),
            sf == snap_flags(names@),
            nv.len() == names@.len(),
            sf.len() == names@.len(),
            cs@.len() == names@.len(),
            flags@.len() == names@.len(),
            forall|j: int| 0 <= j < names@.len() ==> (#[trigger] cs@[j])@ == nv[j],
            forall|j: int| 0 <= j < names@.len() ==> #[trigger] flags@[j] == sf[j],
            out@ == deleted_upto(nv, sf, keep as int, i as int),
        decreases names@.len() - i,
    {
        if flags[i] {
            let mut r: usize = 0;
            let mut j: usize = 0;
            while j < names.len()
                invariant
                    j <= names@.len(),
                    i < names@.len(),
                    r <= j,
                    nv.len() == names@.len(),
                    sf.len() == names@.len(),
                    cs@.len() == names@.len(),
                    flags@.len() == names@.len(),
                    forall|q: int| 0 <= q < names@.len() ==> (#[trigger] cs@[q])@ == nv[q],
                    forall|q: int| 0 <= q < names@.len() ==> #[trigger] flags@[q] == sf[q],
                    r == rank_upto(nv, sf, i as int, j as int),
                decreases names@.len() - j,
            {
                let before = flags[j] && (lex_lt_exec(&cs[i], &cs[j]) || (eq_chars(&cs[j], &cs[i]) && j < i));
                if before {
                    r = r + 1;
                }
                j = j + 1;
            }
            if r >= keep {
                out.push(i);
            }
        }
        i = i + 1;
    }
    out
}

proof fn lemma_lex_lt_trans(a: Seq<char>, b: Seq<char>, c: Seq<char>)
    requires
        lex_lt(a, b),
        lex_lt(b, c) || b == c,
    ensures
        lex_lt(a, c),
    decreases a.len(),
{
    if b == c {
    } else if a.len() > 0 && b.len() > 0 && c.len() > 0 && a[0] == b[0] && b[0] == c[0] {
        lemma_lex_lt_trans(a.drop_first(), b.drop_first(), c.drop_first());
    }
}

proof fn lemma_lex_lt_irrefl(a: Seq<char>)
    ensures
        !lex_lt(a, a),
    decreases a.len(),
{
    if a.len() > 0 {
        lemma_lex_lt_irrefl(a.drop_first());
    }
}

proof fn lemma_rank_mono(names: Seq<Seq<char>>, snap: Seq<bool>, i: int, j: int, n: int)
    requires
        0 <= n <= names.len(),
        names.len() == snap.len(),
        0 <= i < names.len(),
        0 <= j < names.len(),
        snap[j],
        lex_lt(names[i], names[j]),
    ensures
        rank_upto(names, snap, i, n) >= rank_upto(names, snap, j, n) + if j < n { 1nat } else { 0nat },
    decreases n,
{
    if n > 0 {
        lemma_rank_mono(names, snap, i, j, n - 1);
        let k = n - 1;
        if sorts_before(names, snap, k, j) {
            if lex_lt(names[j], names[k]) {
                lemma_lex_lt_trans(names[i], names[j], names[k]);
            } else {
                lemma_lex_lt_trans(names[i], names[j], names[k]);
            }
        }
        if k == j {
            lemma_lex_lt_irrefl(names[j]);
        }
    }
}

/// Retention keeps the newest: a kept snapshot is never older (by name) than a
/// deleted one.
pub proof fn lemma_retention_keeps_newest(names: Seq<Seq<char>>, snap: Seq<bool>, keep: int, i: int, j: int)
    requires
        names.len() == snap.len(),
        0 <= i < names.len(),
        0 <= j < names.len(),
        snap[i],
        !deleted(names, snap, keep, i),
        deleted(names, snap, keep, j),
    ensures
        !lex_lt(names[i], names[j]),
{
    if lex_lt(names[i], names[j]) {
        lemma_rank_mono(names, snap, i, j, names.len() as int);
    }
}

// ==================== TASK SCHEDULE ====================

/// The minutes of a scheduled interval: at least one.
pub open spec fn clamp_minutes(minutes: int) -> nat {
    if minutes < 1 {
        1
    } else {
        minutes as nat
    }
}

/// The ISO-8601 duration of an interval: `P`, then whole days as `<d>D`, then,
/// unless the interval is a whole number of days, `T` with `<h>H` and `<m>M` for
/// the non-zero hour and minute parts.
pub open spec fn spec_interval_xml(minutes: int) -> Seq<char> {
    let m = clamp_minutes(minutes);
    let d = m / 1440;
    let h = (m % 1440) / 60;
    let mi = m % 60;
    let days = if d > 0 { dec(d) + seq!['D'] } else { Seq::<char>::empty() };
    let time = if h > 0 || mi > 0 || d == 0 {
        seq!['T'] + (if h > 0 { dec(h) + seq!['H'] } else { Seq::<char>::empty() }) + (if mi > 0 {
            dec(mi) + seq!['M']
        } else {
            Seq::<char>::empty()
        }) + (if h == 0 && mi == 0 { seq!['0', 'M'] } else { Seq::<char>::empty() })
    } else {
        Seq::<char>::empty()
    };
    seq!['P'] + days + time
}

/// The schedule interval of a task repeating every `minutes` minutes.
pub fn interval_xml(minutes: i64) -> (r: String)
    ensures
        r@ == spec_interval_xml(minutes as int),
{
    let m: u64 = if minutes < 1 { 1 } else { minutes as u64 };
    let d = m / 1440;
    let h = (m % 1440) / 60;
    let mi = m % 60;
    let mut v: Vec<char> = Vec::new();
    v.push('P');
    let ghost p0 = v@;
    if d > 0 {
        push_dec(d, &mut v);
        v.push('D');
    }
    let ghost p1 = v@;
    if h > 0 || mi > 0 || d == 0 {
        v.push('T');
        let ghost q0 = v@;
        if h > 0 {
            push_dec(h, &mut v);
            v.push('H');
        }
        let ghost q1 = v@;
        if mi > 0 {
            push_dec(mi, &mut v);
            v.push('M');
        }
        let ghost q2 = v@;
        if h == 0 && mi == 0 {
            v.push('0');
            v.push('M');
        }
        assert(v@ =~= p1 + (seq!['T'] + (if h > 0 { dec(h as nat) + seq!['H'] } else { Seq::<char>::empty() }) + (if mi > 0 {
            dec(mi as nat) + seq!['M']
        } else {
            Seq::<char>::empty()
        }) + (if h == 0 && mi == 0 { seq!['0', 'M'] } else { Seq::<char>::empty() })));
    }
    assert(p1 =~= seq!['P'] + (if d > 0 { dec(d as nat) + seq!['D'] } else { Seq::<char>::empty() }));
    assert(v@ =~= spec_interval_xml(minutes as int));
    string_of(&v)
}

/// The days, hours and minutes of the duration add up to the interval, with
/// hours below 24 and minutes below 60.
pub proof fn lemma_interval_parts(minutes: int)
    ensures
        ({
            let m = clamp_minutes(minutes);
            &&& (m / 1440) * 1440 + ((m % 1440) / 60) * 60 + m % 60 == m
            &&& (m % 1440) / 60 < 24
            &&& m % 60 < 60
        }),
{
    let m = clamp_minutes(minutes);
    assert((m / 1440) * 1440 + ((m % 1440) / 60) * 60 + m % 60 == m) by (nonlinear_arith);
    assert((m % 1440) / 60 < 24) by (nonlinear_arith);
}


// ==================== SIDECAR ====================

/// What a sidecar file holds once trimmed: a `manifest:` line with its JSON, the
/// old `size,count` statistics, or neither.
pub enum SidecarForm {
    Manifest(String),
    Stats(u64, usize),
    Unreadable,
}

pub open spec fn starts_with_chars(s: Seq<char>, p: Seq<char>) -> bool {
    p.len() <= s.len() && s.take(p.len() as int) == p
}

/// The pieces of `s` between commas.
pub open spec fn split_commas(s: Seq<char>) -> Seq<Seq<char>>
    decreases s.len(),
{
    match crate::gamescan::index_of(s, ',') {
        Some(i) => {
            proof {
                crate::gamescan::lemma_index_of(s, ',');
            }
            seq![s.take(i)] + split_commas(s.skip(i + 1))
        },
        None => seq![s],
    }
}

proof fn lemma_split_commas_nonempty(s: Seq<char>)
    ensures
        split_commas(s).len() >= 1,
{
}

/// The JSON after `manifest:` in a trimmed sidecar, when it has that prefix.
pub open spec fn sidecar_manifest(text: Seq<char>) -> Option<Seq<char>> {
    let t = trim(text);
    if starts_with_chars(t, "manifest:"@) {
        Some(t.skip(9))
    } else {
        None
    }
}

/// What a sidecar is written with reads back: the manifest JSON after
/// `manifest:` (JSON as written never ends in whitespace).
pub proof fn lemma_sidecar_round_trip(json: Seq<char>)
    requires
        json.len() > 0 ==> !crate::text::is_whitespace(json.last()),
    ensures
        sidecar_manifest("manifest:"@ + json) == Some(json),
{
    reveal_strlit("manifest:");
    let s = "manifest:"@ + json;
    assert(s[0] == 'm');
    if json.len() > 0 {
        assert(s.last() == json.last());
    } else {
        assert(s.last() == ':');
    }
    crate::text::lemma_trim_fixed(s);
    assert(s.take(9) =~= "manifest:"@);
    assert(s.skip(9) =~= json);
}

/// The `size,count` statistics of an old-format trimmed sidecar.
pub open spec fn sidecar_stats(text: Seq<char>) -> Option<(nat, nat)> {
    let t = trim(text);
    let parts = split_commas(t);
    if starts_with_chars(t, "manifest:"@) || parts.len() != 2 {
        None
    } else {
        match (parse_unsigned(parts[0], u64::MAX as nat), parse_unsigned(parts[1], usize::MAX as nat)) {
            (Some(a), Some(b)) => Some((a, b)),
            _ => None,
        }
    }
}

/// Reads a sidecar's text: a manifest to parse, old statistics, or neither.
pub fn parse_sidecar(text: &str) -> (r: SidecarForm)
    ensures
        match r {
            SidecarForm::Manifest(j) => sidecar_manifest(text@) == Some(j@),
            SidecarForm::Stats(a, b) => sidecar_manifest(text@) is None && sidecar_stats(text@) == Some(
                (a as nat, b as nat),
            ),
            SidecarForm::Unreadable => sidecar_manifest(text@) is None && sidecar_stats(text@) is None,
        },
{
    let t = trim_chars(text);
    let pre = chars_of("manifest:");
    proof {
        reveal_strlit("manifest:");
    }
    if crate::pathutil::starts_with_chars(&t, &pre) {
        let j = crate::winpath::sub_chars(t.as_slice(), 9, t.len());
        assert(j@ =~= trim(text@).skip(9));
        return SidecarForm::Manifest(string_of(&j));
    }
    let mut comma: usize = 0;
    let mut count: usize = 0;
    let mut k: usize = 0;
    while k < t.len()
        invariant
            k <= t@.len(),
            t@ == trim(text@),
            count <= k,
            count == 0 ==> forall|q: int| 0 <= q < k ==> t@[q] != ',',
            count >= 1 ==> comma < k && t@[comma as int] == ',' && forall|q: int| 0 <= q < comma ==> t@[q] != ',',
            count == 1 ==> forall|q: int| comma < q < k ==> t@[q] != ',',
            count >= 2 ==> exists|q: int| comma < q < k && t@[q] == ',',
        decreases t@.len() - k,
    {
        if t[k] == ',' {
            if count == 0 {
                comma = k;
            }
            count = count + 1;
        }
        k = k + 1;
    }
    let ghost tv = t@;
    proof {
        crate::gamescan::lemma_index_of(tv, ',');
    }
    if count != 1 {
        proof {
            if count == 0 {
                assert(split_commas(tv) == seq![tv]);
            } else {
                let q = choose|q: int| comma < q < tv.len() && tv[q] == ',';
                let rest = tv.skip(comma as int + 1);
                assert(crate::gamescan::index_of(tv, ',') == Some(comma as int));
                crate::gamescan::lemma_index_of(rest, ',');
                assert(rest[q - comma - 1] == ',');
                let r2 = split_commas(rest);
                assert(split_commas(tv) == seq![tv.take(comma as int)] + r2);
                let i2 = crate::gamescan::index_of(rest, ',');
                assert(i2 is Some);
                let k2 = i2->0;
                lemma_split_commas_nonempty(rest.skip(k2 + 1));
                assert(r2 == seq![rest.take(k2)] + split_commas(rest.skip(k2 + 1)));
                assert(r2.len() >= 2);
            }
        }
        return SidecarForm::Unreadable;
    }
    let ghost rest = tv.skip(comma as int + 1);
    proof {
        assert(crate::gamescan::index_of(tv, ',') == Some(comma as int));
        crate::gamescan::lemma_index_of(rest, ',');
        assert forall|q: int| 0 <= q < rest.len() implies rest[q] != ',' by {
            assert(rest[q] == tv[comma + 1 + q]);
        }
        assert(crate::gamescan::index_of(rest, ',') is None);
        assert(split_commas(rest) == seq![rest]);
        assert(split_commas(tv) =~= seq![tv.take(comma as int), rest]);
    }
    let a = crate::winpath::sub_chars(t.as_slice(), 0, comma);
    let b = crate::winpath::sub_chars(t.as_slice(), comma + 1, t.len());
    assert(a@ =~= tv.take(comma as int));
    assert(b@ =~= rest);
    match (parse_unsigned_chars(a.as_slice(), u64::MAX), parse_unsigned_chars(b.as_slice(), usize::MAX as u64)) {
        (Some(x), Some(y)) => {
            assert(y <= usize::MAX);
            SidecarForm::Stats(x, y as usize)
        },
        _ => SidecarForm::Unreadable,
    }
}

/// Sum of the sizes in a manifest, wrapping at 2^64 as the release build adds.
pub open spec fn manifest_total(m: Seq<FileMeta>) -> nat
    decreases m.len(),
{
    if m.len() == 0 {
        0
    } else {
        ((manifest_total(m.drop_last()) + m.last().s) % 0x1_0000_0000_0000_0000) as nat
    }
}

/// The stored `(size, count)` a sidecar gives: the manifest totals when its JSON
/// parsed, the old statistics, otherwise `(u64::MAX, usize::MAX)` (always "changed").
pub fn stored_stats(form: &SidecarForm, parsed: Option<&Vec<FileMeta>>) -> (r: (u64, usize))
    ensures
        match form {
            SidecarForm::Manifest(_) => match parsed {
                Some(m) => r.0 as nat == manifest_total(m@) && r.1 == m@.len(),
                None => r == (u64::MAX, usize::MAX),
            },
            SidecarForm::Stats(a, b) => r == (*a, *b),
            SidecarForm::Unreadable => r == (u64::MAX, usize::MAX),
        },
{
    match form {
        SidecarForm::Manifest(_) => match parsed {
            Some(m) => {
                let mut total: u64 = 0;
                let mut i: usize = 0;
                while i < m.len()
                    invariant
                        i <= m@.len(),
                        total as nat == manifest_total(m@.take(i as int)),
                    decreases m@.len() - i,
                {
                    assert(m@.take(i as int + 1).drop_last() =~= m@.take(i as int));
                    total = total.wrapping_add(m[i].s);
                    i = i + 1;
                }
                assert(m@.take(m@.len() as int) =~= m@);
                (total, m.len())
            },
            None => (u64::MAX, usize::MAX),
        },
        SidecarForm::Stats(a, b) => (*a, *b),
        SidecarForm::Unreadable => (u64::MAX, usize::MAX),
    }
}

/// What a sidecar holds after a successful backup: `manifest:` and the JSON.
pub fn sidecar_text(json: &str) -> (r: String)
    ensures
        r@ == "manifest:"@ + json@,
{
    let mut v: Vec<char> = Vec::new();
    push_str(&mut v, "manifest:");
    push_str(&mut v, json);
    assert(v@ =~= "manifest:"@ + json@);
    string_of(&v)
}


// ==================== SKIPPED DIRECTORIES ====================

/// Directory names (lowercase) that never hold game saves.
pub open spec fn is_skip_dir(lower: Seq<char>) -> bool {
    ||| lower == "node_modules"@
    ||| lower == ".git"@
    ||| lower == "target"@
    ||| lower == "build"@
    ||| lower == "__pycache__"@
    ||| lower == ".venv"@
    ||| lower == "venv"@
    ||| lower == "dist"@
    ||| lower == ".cache"@
    ||| lower == ".npm"@
    ||| lower == ".cargo"@
    ||| lower == "dependencies"@
    ||| lower == "packages"@
    ||| lower == "system32"@
    ||| lower == "winsxs"@
}

fn eq_lit(a: &Vec<char>, lit: &str) -> (r: bool)
    ensures
        r == (a@ == lit@),
{
    let b = chars_of(lit);
    eq_chars(a, &b)
}

/// Whether a directory is skipped when scanning for saves: its lowercase name is
/// in the skip list.
pub fn should_skip(name: &str) -> (r: bool)
    ensures
        r == is_skip_dir(lowercase(name@)),
        is_ascii_chars(name@) ==> r == is_skip_dir(lower_ascii_seq(name@)),
{
    let low = to_lowercase(name);
    is_skip_dir_name(low.as_str())
}

/// Whether an already lowercased directory name is on the skip list.
pub fn is_skip_dir_name(low: &str) -> (r: bool)
    ensures
        r == is_skip_dir(low@),
{
    let l = chars_of(low);
    eq_lit(&l, "node_modules") || eq_lit(&l, ".git") || eq_lit(&l, "target") || eq_lit(&l, "build")
        || eq_lit(&l, "__pycache__") || eq_lit(&l, ".venv") || eq_lit(&l, "venv") || eq_lit(&l, "dist")
        || eq_lit(&l, ".cache") || eq_lit(&l, ".npm") || eq_lit(&l, ".cargo") || eq_lit(
        &l,
        "dependencies",
    ) || eq_lit(&l, "packages") || eq_lit(&l, "system32") || eq_lit(&l, "winsxs")
}

// ==================== TASK DEFINITION ====================

/// The escaped form of one character in XML text.
pub open spec fn xml_char(c: char) -> Seq<char> {
    if c == '&' {
        "&amp;"@
    } else if c == '<' {
        "&lt;"@
    } else if c == '>' {
        "&gt;"@
    } else if c == '"' {
        "&quot;"@
    } else {
        seq![c]
    }
}

pub open spec fn spec_xml_escape(s: Seq<char>) -> Seq<char>
    decreases s.len(),
{
    if s.len() == 0 {
        seq![]
    } else {
        spec_xml_escape(s.drop_last()) + xml_char(s.last())
    }
}

/// `s` with `&`, `<`, `>` and `"` written as XML entities.
pub fn xml_escape(s: &str) -> (r: String)
    ensures
        r@ == spec_xml_escape(s@),
{
    let cs = chars_of(s);
    let mut v: Vec<char> = Vec::new();
    let mut i: usize = 0;
    while i < cs.len()
        invariant
            i <= cs@.len(),
            cs@ == s@,
            v@ == spec_xml_escape(s@.take(i as int)),
        decreases cs@.len() - i,
    {
        let c = cs[i];
        if c == '&' {
            push_str(&mut v, "&amp;");
        } else if c == '<' {
            push_str(&mut v, "&lt;");
        } else if c == '>' {
            push_str(&mut v, "&gt;");
        } else if c == '"' {
            push_str(&mut v, "&quot;");
        } else {
            v.push(c);
            assert(v@ =~= spec_xml_escape(s@.take(i as int)) + seq![c]);
        }
        assert(s@.take(i as int + 1).drop_last() =~= s@.take(i as int));
        i = i + 1;
    }
    assert(s@.take(cs@.len() as int) =~= s@);
    string_of(&v)
}

pub open spec fn task_xml_head() -> Seq<char> {
    "<?xml version=\"1.0\"?>\n<Task version=\"1.2\" xmlns=\"http://schemas.microsoft.com/windows/2004/02/mit/task\">\n  <RegistrationInfo>\n    <Description>LRGEX Restore automatic backup sync</Description>\n  </RegistrationInfo>\n  <Triggers>\n    <TimeTrigger>\n      <Repetition>\n        <Interval>"@
}

pub open spec fn task_xml_middle() -> Seq<char> {
    "</Interval>\n        <StopAtDurationEnd>false</StopAtDurationEnd>\n      </Repetition>\n      <StartBoundary>2026-01-01T00:00:00</StartBoundary>\n      <Enabled>true</Enabled>\n    </TimeTrigger>\n  </Triggers>\n  <Principals>\n    <Principal id=\"Author\">\n      <LogonType>InteractiveToken</LogonType>\n      <RunLevel>LeastPrivilege</RunLevel>\n    </Principal>\n  </Principals>\n  <Settings>\n    <MultipleInstancesPolicy>IgnoreNew</MultipleInstancesPolicy>\n    <DisallowStartIfOnBatteries>false</DisallowStartIfOnBatteries>\n    <StopIfGoingOnBatteries>false</StopIfGoingOnBatteries>\n    <AllowHardTerminate>true</AllowHardTerminate>\n    <StartWhenAvailable>true</StartWhenAvailable>\n    <RunOnlyIfNetworkAvailable>false</RunOnlyIfNetworkAvailable>\n    <AllowStartOnDemand>true</AllowStartOnDemand>\n    <Enabled>true</Enabled>\n    <Hidden>false</Hidden>\n    <RunOnlyIfIdle>false</RunOnlyIfIdle>\n    <WakeToRun>false</WakeToRun>\n    <ExecutionTimeLimit>PT2H</ExecutionTimeLimit>\n    <Priority>7</Priority>\n  </Settings>\n  <Actions Context=\"Author\">\n    <Exec>\n      <Command>"@
}

pub open spec fn task_xml_tail() -> Seq<char> {
    "</Command>\n      <Arguments>-sync</Arguments>\n    </Exec>\n  </Actions>\n</Task>"@
}

/// The scheduled-task definition that runs `<exe> -sync` every interval, repeated
/// from a fixed start, catching up missed runs, limited to two hours a run.
pub fn task_xml(minutes: i64, exe: &str) -> (r: String)
    ensures
        r@ == task_xml_head() + spec_interval_xml(minutes as int) + task_xml_middle()
            + spec_xml_escape(exe@) + task_xml_tail(),
{
    let interval = interval_xml(minutes);
    let exe_escaped = xml_escape(exe);
    let mut v: Vec<char> = Vec::new();
    push_str(&mut v, "<?xml version=\"1.0\"?>\n<Task version=\"1.2\" xmlns=\"http://schemas.microsoft.com/windows/2004/02/mit/task\">\n  <RegistrationInfo>\n    <Description>LRGEX Restore automatic backup sync</Description>\n  </RegistrationInfo>\n  <Triggers>\n    <TimeTrigger>\n      <Repetition>\n        <Interval>");
    push_str(&mut v, interval.as_str());
    push_str(&mut v, "</Interval>\n        <StopAtDurationEnd>false</StopAtDurationEnd>\n      </Repetition>\n      <StartBoundary>2026-01-01T00:00:00</StartBoundary>\n      <Enabled>true</Enabled>\n    </TimeTrigger>\n  </Triggers>\n  <Principals>\n    <Principal id=\"Author\">\n      <LogonType>InteractiveToken</LogonType>\n      <RunLevel>LeastPrivilege</RunLevel>\n    </Principal>\n  </Principals>\n  <Settings>\n    <MultipleInstancesPolicy>IgnoreNew</MultipleInstancesPolicy>\n    <DisallowStartIfOnBatteries>false</DisallowStartIfOnBatteries>\n    <StopIfGoingOnBatteries>false</StopIfGoingOnBatteries>\n    <AllowHardTerminate>true</AllowHardTerminate>\n    <StartWhenAvailable>true</StartWhenAvailable>\n    <RunOnlyIfNetworkAvailable>false</RunOnlyIfNetworkAvailable>\n    <AllowStartOnDemand>true</AllowStartOnDemand>\n    <Enabled>true</Enabled>\n    <Hidden>false</Hidden>\n    <RunOnlyIfIdle>false</RunOnlyIfIdle>\n    <WakeToRun>false</WakeToRun>\n    <ExecutionTimeLimit>PT2H</ExecutionTimeLimit>\n    <Priority>7</Priority>\n  </Settings>\n  <Actions Context=\"Author\">\n    <Exec>\n      <Command>");
    push_str(&mut v, exe_escaped.as_str());
    push_str(&mut v, "</Command>\n      <Arguments>-sync</Arguments>\n    </Exec>\n  </Actions>\n</Task>");
    string_of(&v)
}


// ==================== BACKUP DECISIONS ====================

/// The comparison prefix of the application's home: lowercase, trailing `\\`
/// trimmed, one `\\` appended.
pub open spec fn home_prefix(home: Seq<char>) -> Seq<char> {
    crate::pathutil::trim_trailing_backslashes(lowercase(home)).push('\\')
}

/// A file lies inside the application's home (case-insensitively).
pub open spec fn is_home_member(path: Seq<char>, home: Seq<char>) -> bool {
    starts_with_chars(lowercase(path), home_prefix(home))
}

/// The files of `files` that are not home members, in order.
pub open spec fn outside_home(files: Seq<FileEnt>, home: Seq<char>) -> Seq<FileEnt>
    decreases files.len(),
{
    if files.len() == 0 {
        seq![]
    } else if is_home_member(files.last().path@, home) {
        outside_home(files.drop_last(), home)
    } else {
        outside_home(files.drop_last(), home).push(files.last())
    }
}

/// Sum of the file sizes, wrapping at 2^64 as the release build adds.
pub open spec fn files_total(files: Seq<FileEnt>) -> nat
    decreases files.len(),
{
    if files.len() == 0 {
        0
    } else {
        ((files_total(files.drop_last()) + files.last().size) % 0x1_0000_0000_0000_0000) as nat
    }
}

/// The byte total (wrapping at 2^64) and the number of the walked files.
pub fn walk_totals(files: &Vec<FileEnt>) -> (r: (u64, usize))
    ensures
        r.0 as nat == files_total(files@),
        r.1 == files@.len(),
{
    let mut sum: u64 = 0;
    let mut k: usize = 0;
    while k < files.len()
        invariant
            k <= files@.len(),
            sum as nat == files_total(files@.take(k as int)),
        decreases files@.len() - k,
    {
        assert(files@.take(k as int + 1).drop_last() =~= files@.take(k as int));
        sum = sum.wrapping_add(files[k].size);
        k = k + 1;
    }
    assert(files@.take(files@.len() as int) =~= files@);
    (sum, files.len())
}

fn clone_ent(f: &FileEnt) -> (r: FileEnt)
    ensures
        r == *f,
{
    FileEnt { path: f.path.clone(), rel: f.rel.clone(), size: f.size, mtime: f.mtime }
}

/// The prefix of the home's members from the home's lowercase form: without
/// trailing `\`, then one `\`.
pub fn home_prefix_of(low_home: &str) -> (r: String)
    ensures
        r@ == crate::pathutil::trim_trailing_backslashes(low_home@).push('\\'),
{
    let mut hp = chars_of(low_home);
    while hp.len() > 0 && hp[hp.len() - 1] == '\\'
        invariant
            crate::pathutil::trim_trailing_backslashes(hp@) == crate::pathutil::trim_trailing_backslashes(low_home@),
        decreases hp@.len(),
    {
        hp.pop();
    }
    hp.push('\\');
    string_of(&hp)
}

/// The walked files without the members of the application's home (the home is
/// never archived into itself), with the size and count recomputed when any
/// file was dropped; otherwise the walk's own `total` and `count` stand.
pub fn exclude_home_members(files: &Vec<FileEnt>, total: u64, count: usize, home: &str) -> (r: (Vec<FileEnt>, u64, usize))
    ensures
        r.0@ == outside_home(files@, home@),
        r.0@.len() != count ==> r.1 as nat == files_total(r.0@) && r.2 == r.0@.len(),
        r.0@.len() == count ==> r.1 == total && r.2 == count,
{
    let low_home = to_lowercase(home);
    let hs = home_prefix_of(low_home.as_str());
    let hp = chars_of(hs.as_str());
    let mut out: Vec<FileEnt> = Vec::new();
    let mut i: usize = 0;
    while i < files.len()
        invariant
            i <= files@.len(),
            hp@ == home_prefix(home@),
            out@ == outside_home(files@.take(i as int), home@),
        decreases files@.len() - i,
    {
        let low = to_lowercase(files[i].path.as_str());
        let lc = chars_of(low.as_str());
        let member = crate::pathutil::starts_with_chars(&lc, &hp);
        assert(files@.take(i as int + 1).drop_last() =~= files@.take(i as int));
        if !member {
            out.push(clone_ent(&files[i]));
        }
        i = i + 1;
    }
    assert(files@.take(files@.len() as int) =~= files@);
    if out.len() != count {
        let mut sum: u64 = 0;
        let mut k: usize = 0;
        while k < out.len()
            invariant
                k <= out@.len(),
                sum as nat == files_total(out@.take(k as int)),
            decreases out@.len() - k,
        {
            assert(out@.take(k as int + 1).drop_last() =~= out@.take(k as int));
            sum = sum.wrapping_add(out[k].size);
            k = k + 1;
        }
        assert(out@.take(out@.len() as int) =~= out@);
        let n = out.len();
        (out, sum, n)
    } else {
        (out, total, count)
    }
}

/// What to do when the folder reads as empty.
#[derive(PartialEq, Eq, Structural, Clone, Copy, Debug)]
pub enum EmptyGuard {
    /// Nothing special: go on.
    Proceed,
    /// Everything walked was inside the application's home: this folder cannot
    /// be backed up.
    HomeOnly,
    /// Empty by an explicit re-add: archive the empty folder.
    ForcedEmpty,
    /// Empty while the backup holds files: refuse to replace it.
    Refuse,
}

/// The empty-folder guard: when no file remains to archive, an archive exists and
/// its manifest counts files, a folder whose files were all home members is
/// refused for good, a forced run goes on, and any other run refuses.
pub open spec fn spec_empty_guard(count: nat, raw_count: nat, archive_exists: bool, stored_count: nat, force: bool) -> EmptyGuard {
    if count == 0 && archive_exists && stored_count > 0 {
        if raw_count > 0 {
            EmptyGuard::HomeOnly
        } else if force {
            EmptyGuard::ForcedEmpty
        } else {
            EmptyGuard::Refuse
        }
    } else {
        EmptyGuard::Proceed
    }
}

pub fn empty_source_guard(count: usize, raw_count: usize, archive_exists: bool, stored_count: usize, force: bool) -> (r: EmptyGuard)
    ensures
        r == spec_empty_guard(count as nat, raw_count as nat, archive_exists, stored_count as nat, force),
{
    if count == 0 && archive_exists && stored_count > 0 {
        if raw_count > 0 {
            EmptyGuard::HomeOnly
        } else if force {
            EmptyGuard::ForcedEmpty
        } else {
            EmptyGuard::Refuse
        }
    } else {
        EmptyGuard::Proceed
    }
}

/// The answer when the folder is refused as empty.
pub fn refuse_empty_message(stored_count: usize) -> (r: String)
    ensures
        r@ == "folder is empty but the backup holds "@ + dec(stored_count as nat)
            + " files — if you emptied it on purpose, remove the folder from the list and add it back"@,
{
    let mut v: Vec<char> = Vec::new();
    push_str(&mut v, "folder is empty but the backup holds ");
    push_dec(stored_count as u64, &mut v);
    push_str(&mut v, " files — if you emptied it on purpose, remove the folder from the list and add it back");
    string_of(&v)
}

/// Whether a backup is due before any content is hashed.
#[derive(PartialEq, Eq, Structural, Clone, Copy, Debug)]
pub enum ChangeCheck {
    /// Forced, no archive yet, or size or count differ: back up.
    Changed,
    /// Size and count match: compare the manifests.
    CompareContent,
}

pub open spec fn spec_change_check(force: bool, archive_exists: bool, size: nat, count: nat, stored_size: nat, stored_count: nat) -> ChangeCheck {
    if force || !archive_exists || size != stored_size || count != stored_count {
        ChangeCheck::Changed
    } else {
        ChangeCheck::CompareContent
    }
}

/// The fast path of change detection (see `spec_change_check`).
pub fn change_check(force: bool, archive_exists: bool, size: u64, count: usize, stored_size: u64, stored_count: usize) -> (r: ChangeCheck)
    ensures
        r == spec_change_check(force, archive_exists, size as nat, count as nat, stored_size as nat, stored_count as nat),
{
    if force || !archive_exists || size != stored_size || count != stored_count {
        ChangeCheck::Changed
    } else {
        ChangeCheck::CompareContent
    }
}

/// Whether a backup is due when size and count match: without a stored manifest
/// (an old sidecar) always once; otherwise when the manifests differ.
pub fn content_changed(stored: Option<&Vec<FileMeta>>, current: &Vec<FileMeta>) -> (r: bool)
    ensures
        r == match stored {
            Some(m) => spec_detect_change(m@, current@),
            None => true,
        },
{
    match stored {
        Some(m) => detect_change(m, current),
        None => true,
    }
}

/// A manifest key is among the keys of the files the archiver skipped.
pub open spec fn is_skipped(skipped: Seq<String>, p: Seq<char>) -> bool {
    exists|k: int| 0 <= k < skipped.len() && spec_manifest_key(#[trigger] skipped[k]@) == p
}

/// The manifest as written after archiving: entries of skipped (locked) files
/// get hash 0, so they never read as changed while their size stays the same.
pub fn mark_skipped(m: &Vec<FileMeta>, skipped: &Vec<String>) -> (r: Vec<FileMeta>)
    ensures
        r@.len() == m@.len(),
        forall|i: int|
            0 <= i < m@.len() ==> (#[trigger] r@[i]).p == m@[i].p && r@[i].s == m@[i].s && r@[i].h
                == if is_skipped(skipped@, m@[i].p@) {
                0
            } else {
                m@[i].h
            },
{
    let mut keys: Vec<Vec<char>> = Vec::new();
    let mut k: usize = 0;
    while k < skipped.len()
        invariant
            k <= skipped@.len(),
            keys@.len() == k,
            forall|j: int| 0 <= j < k ==> (#[trigger] keys@[j])@ == spec_manifest_key(skipped@[j]@),
        decreases skipped@.len() - k,
    {
        let key = manifest_key(skipped[k].as_str());
        keys.push(chars_of(key.as_str()));
        k = k + 1;
    }
    let mut out: Vec<FileMeta> = Vec::new();
    let mut i: usize = 0;
    while i < m.len()
        invariant
            i <= m@.len(),
            keys@.len() == skipped@.len(),
            forall|j: int| 0 <= j < keys@.len() ==> (#[trigger] keys@[j])@ == spec_manifest_key(skipped@[j]@),
            out@.len() == i,
            forall|t: int|
                0 <= t < i ==> (#[trigger] out@[t]).p == m@[t].p && out@[t].s == m@[t].s && out@[t].h
                    == if is_skipped(skipped@, m@[t].p@) {
                    0
                } else {
                    m@[t].h
                },
        decreases m@.len() - i,
    {
        let pc = chars_of(m[i].p.as_str());
        let mut hit = false;
        let mut j: usize = 0;
        while j < keys.len()
            invariant
                j <= keys@.len(),
                keys@.len() == skipped@.len(),
                forall|q: int| 0 <= q < keys@.len() ==> (#[trigger] keys@[q])@ == spec_manifest_key(skipped@[q]@),
                pc@ == m@[i as int].p@,
                hit == exists|q: int| 0 <= q < j && spec_manifest_key(#[trigger] skipped@[q]@) == pc@,
            decreases keys@.len() - j,
        {
            if eq_chars(&keys[j], &pc) {
                hit = true;
            }
            j = j + 1;
        }
        let h = if hit { 0 } else { m[i].h };
        out.push(FileMeta { p: m[i].p.clone(), s: m[i].s, h });
        i = i + 1;
    }
    out
}

// ==================== SYNC CYCLE ====================

/// The answer of an operation that could not take the global lock.
pub open spec fn lock_busy_text() -> Seq<char> {
    "another LRGEX operation is running — try again in a moment"@
}

/// The answer of an operation that could not take the global lock.
pub fn lock_busy_message() -> (r: String)
    ensures
        r@ == lock_busy_text(),
{
    string_of(&chars_of("another LRGEX operation is running — try again in a moment"))
}

/// A failure reason says that another operation held the lock.
pub open spec fn is_lock_busy(reason: Seq<char>) -> bool {
    crate::gamescan::find_from(reason, "another LRGEX operation"@, 0) is Some
}

/// Whether `reason` reports that another operation held the lock.
pub fn lock_was_busy(reason: &str) -> (r: bool)
    ensures
        r == is_lock_busy(reason@),
{
    let rc = chars_of(reason);
    let pat = chars_of("another LRGEX operation");
    crate::gamescan::find_from_chars(&rc, &pat).is_some()
}

/// What a sync cycle does with one configured folder.
#[derive(PartialEq, Eq, Structural, Clone, Copy, Debug)]
pub enum PairAction {
    /// Removed from the configuration while the cycle ran: leave it.
    Skip,
    /// Missing or empty and set to restore itself: restore it.
    Restore,
    /// Otherwise: back it up.
    Sync,
}

pub open spec fn spec_pair_action(still_configured: bool, missing: bool, auto_restore: bool) -> PairAction {
    if !still_configured {
        PairAction::Skip
    } else if missing && auto_restore {
        PairAction::Restore
    } else {
        PairAction::Sync
    }
}

pub fn pair_action(still_configured: bool, missing: bool, auto_restore: bool) -> (r: PairAction)
    ensures
        r == spec_pair_action(still_configured, missing, auto_restore),
{
    if !still_configured {
        PairAction::Skip
    } else if missing && auto_restore {
        PairAction::Restore
    } else {
        PairAction::Sync
    }
}

/// The counts of a sync cycle.
pub struct CycleTally {
    pub ok: i32,
    pub fail: i32,
    pub restored: i32,
    pub lock_skipped: i32,
    pub restored_names: Vec<String>,
}

/// How a cycle ends.
#[derive(PartialEq, Eq, Structural, Clone, Copy, Debug)]
pub enum CycleEnd {
    /// Every folder was skipped for the lock: keep the previous status and do not
    /// stamp the cycle as run.
    KeepStatus,
    /// Write the status; `stamp` when something was attempted.
    Report { stamp: bool },
}

impl CycleTally {
    pub open spec fn attempts(&self) -> int {
        self.ok + self.fail + self.restored + self.lock_skipped
    }

    pub open spec fn wf(&self) -> bool {
        &&& self.ok >= 0
        &&& self.fail >= 0
        &&& self.restored >= 0
        &&& self.lock_skipped >= 0
        &&& self.attempts() <= i32::MAX
    }

    /// A cycle before any folder.
    pub fn new() -> (r: CycleTally)
        ensures
            r.wf(),
            r.ok == 0 && r.fail == 0 && r.restored == 0 && r.lock_skipped == 0,
            r.restored_names@.len() == 0,
    {
        CycleTally { ok: 0, fail: 0, restored: 0, lock_skipped: 0, restored_names: Vec::new() }
    }

    /// Counts a restore: restored (and named), skipped for the lock, or failed.
    pub fn record_restore(&mut self, leaf: &str, success: bool, reason: &str)
        requires
            old(self).wf(),
            old(self).attempts() < i32::MAX,
        ensures
            final(self).wf(),
            final(self).attempts() == old(self).attempts() + 1,
            success ==> final(self).restored == old(self).restored + 1 && final(self).restored_names@.len()
                == old(self).restored_names@.len() + 1 && final(self).restored_names@.last()@ == leaf@
                && final(self).restored_names@.drop_last() == old(self).restored_names@
                && final(self).ok == old(self).ok && final(self).fail == old(self).fail
                && final(self).lock_skipped == old(self).lock_skipped,
            !success && is_lock_busy(reason@) ==> final(self).lock_skipped == old(self).lock_skipped + 1
                && final(self).ok == old(self).ok && final(self).fail == old(self).fail
                && final(self).restored == old(self).restored && final(self).restored_names == old(
                self,
            ).restored_names,
            !success && !is_lock_busy(reason@) ==> final(self).fail == old(self).fail + 1
                && final(self).ok == old(self).ok && final(self).lock_skipped == old(self).lock_skipped
                && final(self).restored == old(self).restored && final(self).restored_names == old(
                self,
            ).restored_names,
    {
        if success {
            self.restored = self.restored + 1;
            self.restored_names.push(string_of(&chars_of(leaf)));
        } else if lock_was_busy(reason) {
            self.lock_skipped = self.lock_skipped + 1;
        } else {
            self.fail = self.fail + 1;
        }
    }

    /// Counts a backup: done, skipped for the lock, or failed.
    pub fn record_sync(&mut self, success: bool, reason: &str)
        requires
            old(self).wf(),
            old(self).attempts() < i32::MAX,
        ensures
            final(self).wf(),
            final(self).attempts() == old(self).attempts() + 1,
            final(self).restored == old(self).restored,
            final(self).restored_names == old(self).restored_names,
            success ==> final(self).ok == old(self).ok + 1 && final(self).fail == old(self).fail
                && final(self).lock_skipped == old(self).lock_skipped,
            !success && is_lock_busy(reason@) ==> final(self).lock_skipped == old(self).lock_skipped + 1
                && final(self).ok == old(self).ok && final(self).fail == old(self).fail,
            !success && !is_lock_busy(reason@) ==> final(self).fail == old(self).fail + 1
                && final(self).ok == old(self).ok && final(self).lock_skipped == old(self).lock_skipped,
    {
        if success {
            self.ok = self.ok + 1;
        } else if lock_was_busy(reason) {
            self.lock_skipped = self.lock_skipped + 1;
        } else {
            self.fail = self.fail + 1;
        }
    }

    /// How the cycle ends: a cycle in which every folder was skipped for the lock
    /// keeps the previous status; otherwise the status is written, and the cycle
    /// is stamped as run when something was attempted.
    pub fn outcome(&self) -> (r: CycleEnd)
        requires
            self.wf(),
        ensures
            r == (if self.ok + self.restored + self.fail == 0 && self.lock_skipped > 0 {
                CycleEnd::KeepStatus
            } else {
                CycleEnd::Report { stamp: self.ok + self.restored + self.fail > 0 }
            }),
    {
        let done = self.ok + self.restored + self.fail;
        if done == 0 && self.lock_skipped > 0 {
            CycleEnd::KeepStatus
        } else {
            CycleEnd::Report { stamp: done > 0 }
        }
    }
}

// ==================== HOUSEKEEPING ====================

/// The PID in a compression temp name `lrgex_<pid>_<...>.tar.zst.tmp`.
pub open spec fn spec_temp_owner(name: Seq<char>) -> Option<nat> {
    if starts_with_chars(name, "lrgex_"@) && crate::gamescan::ends_with(name, ".tar.zst.tmp"@) {
        let rest = name.skip(6);
        match crate::gamescan::index_of(rest, '_') {
            Some(e) => parse_unsigned(rest.take(e), u32::MAX as nat),
            None => None,
        }
    } else {
        None
    }
}

fn ends_with_lit(s: &Vec<char>, lit: &str) -> (r: bool)
    ensures
        r == crate::gamescan::ends_with(s@, lit@),
{
    let suf = chars_of(lit);
    if suf.len() > s.len() {
        return false;
    }
    let tail = crate::winpath::sub_chars(s.as_slice(), s.len() - suf.len(), s.len());
    assert(tail@ =~= s@.skip(s@.len() - suf@.len()));
    eq_chars(&tail, &suf)
}

/// The process that wrote a compression temp file, from its name.
pub fn temp_owner_pid(name: &str) -> (r: Option<u32>)
    ensures
        match r {
            Some(p) => spec_temp_owner(name@) == Some(p as nat),
            None => spec_temp_owner(name@) is None,
        },
{
    let cs = chars_of(name);
    let pre = chars_of("lrgex_");
    proof {
        reveal_strlit("lrgex_");
    }
    if !(crate::pathutil::starts_with_chars(&cs, &pre) && ends_with_lit(&cs, ".tar.zst.tmp")) {
        return None;
    }
    let rest = crate::winpath::sub_chars(cs.as_slice(), 6, cs.len());
    assert(rest@ =~= name@.skip(6));
    proof {
        crate::gamescan::lemma_index_of(rest@, '_');
    }
    let mut e: usize = 0;
    while e < rest.len() && rest[e] != '_'
        invariant
            e <= rest@.len(),
            forall|q: int| 0 <= q < e ==> rest@[q] != '_',
        decreases rest@.len() - e,
    {
        e = e + 1;
    }
    if e == rest.len() {
        return None;
    }
    assert(crate::gamescan::index_of(rest@, '_') == Some(e as int));
    let pid = crate::winpath::sub_chars(rest.as_slice(), 0, e);
    assert(pid@ =~= rest@.take(e as int));
    match parse_unsigned_chars(pid.as_slice(), u32::MAX as u64) {
        Some(v) => Some(v as u32),
        None => None,
    }
}

/// The PID in a restore staging folder name `.lrgex_restore_<pid>[_<seq>]`.
pub open spec fn spec_restore_dir_owner(name: Seq<char>) -> Option<nat> {
    if starts_with_chars(name, ".lrgex_restore_"@) {
        let rest = name.skip(15);
        let first = match crate::gamescan::index_of(rest, '_') {
            Some(e) => rest.take(e),
            None => rest,
        };
        parse_unsigned(first, u32::MAX as nat)
    } else {
        None
    }
}

/// The process that made a restore staging folder, from its name.
pub fn restore_dir_owner_pid(name: &str) -> (r: Option<u32>)
    ensures
        match r {
            Some(p) => spec_restore_dir_owner(name@) == Some(p as nat),
            None => spec_restore_dir_owner(name@) is None,
        },
{
    let cs = chars_of(name);
    let pre = chars_of(".lrgex_restore_");
    proof {
        reveal_strlit(".lrgex_restore_");
    }
    if !crate::pathutil::starts_with_chars(&cs, &pre) {
        return None;
    }
    let rest = crate::winpath::sub_chars(cs.as_slice(), 15, cs.len());
    assert(rest@ =~= name@.skip(15));
    proof {
        crate::gamescan::lemma_index_of(rest@, '_');
    }
    let mut e: usize = 0;
    while e < rest.len() && rest[e] != '_'
        invariant
            e <= rest@.len(),
            forall|q: int| 0 <= q < e ==> rest@[q] != '_',
        decreases rest@.len() - e,
    {
        e = e + 1;
    }
    let first = crate::winpath::sub_chars(rest.as_slice(), 0, e);
    if e < rest.len() {
        assert(crate::gamescan::index_of(rest@, '_') == Some(e as int));
        assert(first@ =~= rest@.take(e as int));
    } else {
        assert(first@ =~= rest@);
    }
    match parse_unsigned_chars(first.as_slice(), u32::MAX as u64) {
        Some(v) => Some(v as u32),
        None => None,
    }
}

/// The temporary archive a compression of `leaf` by process `pid` writes:
/// `lrgex_<pid>_<leaf>.tar.zst.tmp`, or `lrgex_<pid>_migrate_<leaf>.tar.zst.tmp`
/// when a legacy folder is being migrated.
pub open spec fn spec_temp_name(pid: nat, leaf: Seq<char>, migrate: bool) -> Seq<char> {
    "lrgex_"@ + dec(pid) + "_"@ + (if migrate { "migrate_"@ } else { Seq::<char>::empty() }) + leaf
        + ".tar.zst.tmp"@
}

/// The name of the temporary archive (see `spec_temp_name`).
pub fn temp_archive_name(pid: u32, leaf: &str, migrate: bool) -> (r: String)
    ensures
        r@ == spec_temp_name(pid as nat, leaf@, migrate),
{
    let mut v: Vec<char> = Vec::new();
    push_str(&mut v, "lrgex_");
    push_dec(pid as u64, &mut v);
    push_str(&mut v, "_");
    if migrate {
        push_str(&mut v, "migrate_");
    }
    push_str(&mut v, leaf);
    push_str(&mut v, ".tar.zst.tmp");
    proof {
        if !migrate {
            assert(v@ =~= spec_temp_name(pid as nat, leaf@, migrate));
        }
    }
    string_of(&v)
}

/// The first `_` after a run of digits is the one that ends it.
proof fn lemma_digits_then_underscore(d: Seq<char>, tail: Seq<char>)
    requires
        all_digits(d),
        tail.len() > 0,
        tail[0] == '_',
    ensures
        crate::gamescan::index_of(d + tail, '_') == Some(d.len() as int),
{
    let s = d + tail;
    crate::gamescan::lemma_index_of(s, '_');
    assert(s[d.len() as int] == '_');
    match crate::gamescan::index_of(s, '_') {
        Some(i) => {
            if i < d.len() {
                assert(s[i] == d[i]);
                assert(is_digit(d[i]));
            }
        },
        None => {},
    }
}

/// Every temporary archive names the process that wrote it, so the sweep of
/// leftovers can tell whose it is.
pub proof fn lemma_temp_name_owner(pid: u32, leaf: Seq<char>, migrate: bool)
    ensures
        spec_temp_owner(spec_temp_name(pid as nat, leaf, migrate)) == Some(pid as nat),
{
    reveal_strlit("lrgex_");
    reveal_strlit("_");
    reveal_strlit(".tar.zst.tmp");
    let d = dec(pid as nat);
    lemma_dec_parses(pid as nat);
    let mid = if migrate { "migrate_"@ } else { Seq::<char>::empty() };
    let name = spec_temp_name(pid as nat, leaf, migrate);
    let tail = "_"@ + mid + leaf + ".tar.zst.tmp"@;
    assert(name =~= "lrgex_"@ + (d + tail));
    assert(name.take(6) =~= "lrgex_"@);
    assert(name.skip(name.len() - 12) =~= ".tar.zst.tmp"@);
    assert(name.skip(6) =~= d + tail);
    lemma_digits_then_underscore(d, tail);
    assert((d + tail).take(d.len() as int) =~= d);
}

/// The staging folder of a restore: `.lrgex_restore_<pid>_<seq>`.
pub open spec fn spec_staging_name(pid: nat, seq: nat) -> Seq<char> {
    ".lrgex_restore_"@ + dec(pid) + "_"@ + dec(seq)
}

/// The name of a restore's staging folder (see `spec_staging_name`).
pub fn staging_dir_name(pid: u32, seq: u64) -> (r: String)
    ensures
        r@ == spec_staging_name(pid as nat, seq as nat),
{
    let mut v: Vec<char> = Vec::new();
    push_str(&mut v, ".lrgex_restore_");
    push_dec(pid as u64, &mut v);
    push_str(&mut v, "_");
    push_dec(seq, &mut v);
    string_of(&v)
}

/// Every staging folder names the process that made it.
pub proof fn lemma_staging_name_owner(pid: u32, seq: nat)
    ensures
        spec_restore_dir_owner(spec_staging_name(pid as nat, seq)) == Some(pid as nat),
{
    reveal_strlit(".lrgex_restore_");
    reveal_strlit("_");
    let d = dec(pid as nat);
    lemma_dec_parses(pid as nat);
    let name = spec_staging_name(pid as nat, seq);
    let tail = "_"@ + dec(seq);
    assert(name =~= ".lrgex_restore_"@ + (d + tail));
    assert(name.take(15) =~= ".lrgex_restore_"@);
    assert(name.skip(15) =~= d + tail);
    lemma_digits_then_underscore(d, tail);
    assert((d + tail).take(d.len() as int) =~= d);
}

/// Where a restore parks the folder it replaces: `<name>.lrgex_bak.<pid>`.
pub open spec fn spec_bak_name(name: Seq<char>, pid: nat) -> Seq<char> {
    name + ".lrgex_bak."@ + dec(pid)
}

/// The name of the parked folder (see `spec_bak_name`).
pub fn bak_name(name: &str, pid: u32) -> (r: String)
    ensures
        r@ == spec_bak_name(name@, pid as nat),
{
    let mut v: Vec<char> = Vec::new();
    push_str(&mut v, name);
    push_str(&mut v, ".lrgex_bak.");
    push_dec(pid as u64, &mut v);
    string_of(&v)
}

/// An entry parks a folder named `name` (of any process).
pub open spec fn spec_is_bak_of(entry: Seq<char>, name: Seq<char>) -> bool {
    starts_with_chars(entry, name + ".lrgex_bak."@)
}

/// A parked copy of `name` left by another process: removed when the folder
/// itself exists (a crash struck between the swap and the cleanup).
pub open spec fn spec_is_stale_bak(entry: Seq<char>, name: Seq<char>, pid: nat) -> bool {
    spec_is_bak_of(entry, name) && !crate::gamescan::ends_with(entry, "."@ + dec(pid))
}

/// Whether `entry` parks a folder named `name`.
pub fn is_bak_of(entry: &str, name: &str) -> (r: bool)
    ensures
        r == spec_is_bak_of(entry@, name@),
{
    let e = chars_of(entry);
    let mut p = chars_of(name);
    let sfx = chars_of(".lrgex_bak.");
    let mut k: usize = 0;
    while k < sfx.len()
        invariant
            k <= sfx@.len(),
            p@ == name@ + sfx@.take(k as int),
        decreases sfx@.len() - k,
    {
        p.push(sfx[k]);
        assert(sfx@.take(k as int + 1) =~= sfx@.take(k as int).push(sfx@[k as int]));
        k = k + 1;
    }
    assert(sfx@.take(sfx@.len() as int) =~= sfx@);
    crate::pathutil::starts_with_chars(&e, &p)
}

/// Whether `entry` is a stale parked copy of `name` (see `spec_is_stale_bak`).
pub fn is_stale_bak(entry: &str, name: &str, pid: u32) -> (r: bool)
    ensures
        r == spec_is_stale_bak(entry@, name@, pid as nat),
{
    if !is_bak_of(entry, name) {
        return false;
    }
    let mut own: Vec<char> = Vec::new();
    push_str(&mut own, ".");
    push_dec(pid as u64, &mut own);
    let e = chars_of(entry);
    if own.len() > e.len() {
        return true;
    }
    let tail = crate::winpath::sub_chars(e.as_slice(), e.len() - own.len(), e.len());
    assert(tail@ =~= e@.skip(e@.len() - own@.len()));
    !eq_chars(&tail, &own)
}

/// A restore never takes the copy it parked itself for a stale one.
pub proof fn lemma_own_bak_not_stale(name: Seq<char>, pid: nat)
    ensures
        spec_is_bak_of(spec_bak_name(name, pid), name),
        !spec_is_stale_bak(spec_bak_name(name, pid), name, pid),
{
    reveal_strlit(".lrgex_bak.");
    reveal_strlit(".lrgex_bak");
    reveal_strlit(".");
    let b = spec_bak_name(name, pid);
    let pre = name + ".lrgex_bak."@;
    assert(b.take(pre.len() as int) =~= pre);
    let own = "."@ + dec(pid);
    assert(b =~= name + ".lrgex_bak"@ + own);
    assert(b.skip(b.len() - own.len()) =~= own);
}

/// The note added to a backup report when files were locked and left out.
pub fn skip_note(skipped: usize) -> (r: String)
    ensures
        r@ == if skipped == 0 {
            Seq::<char>::empty()
        } else {
            " "@ + dec(skipped as nat) + " file(s) skipped (locked). Archive may be incomplete."@
        },
{
    let mut v: Vec<char> = Vec::new();
    if skipped > 0 {
        push_str(&mut v, " ");
        push_dec(skipped as u64, &mut v);
        push_str(&mut v, " file(s) skipped (locked). Archive may be incomplete.");
    }
    string_of(&v)
}

/// After a copy replaced the live archive (when the rename failed): the copy is
/// trusted only when its length is the temporary's and it decodes to the end; a
/// torn copy is reported by whether a snapshot survives.
pub fn copy_fallback_verdict(temp_len: u64, dest_len: u64, decodes: bool, snapshot_exists: bool) -> (r: Result<(), String>)
    ensures
        (temp_len == dest_len && decodes) ==> r is Ok,
        !(temp_len == dest_len && decodes) && snapshot_exists ==> (r matches Err(m)
            && m@ == "archive damaged during copy — restore from Versions"@),
        !(temp_len == dest_len && decodes) && !snapshot_exists ==> (r matches Err(m)
            && m@ == "archive damaged during copy and no version snapshot exists — the SOURCE files are still intact; re-add the folder to rebuild"@),
{
    if temp_len == dest_len && decodes {
        Ok(())
    } else if snapshot_exists {
        Err(string_of(&chars_of("archive damaged during copy — restore from Versions")))
    } else {
        Err(string_of(&chars_of("archive damaged during copy and no version snapshot exists — the SOURCE files are still intact; re-add the folder to rebuild")))
    }
}

/// How far a decompression has read, in percent of the archive: capped at 100, and
/// 0 for an empty archive.
pub fn read_percent(read: u64, total: u64) -> (r: u64)
    requires
        read * 100 <= u64::MAX,
    ensures
        r == if total > 0 {
            if read * 100 / (total as int) < 100 { read * 100 / (total as int) } else { 100 }
        } else {
            0
        },
{
    if total > 0 {
        let p = read * 100 / total;
        if p < 100 { p } else { 100 }
    } else {
        0
    }
}

/// A leftover of process `pid` is removed when `pid` is not this process and is
/// not alive.
pub fn should_sweep(pid: u32, current_pid: u32, alive: bool) -> (r: bool)
    ensures
        r == (pid != current_pid && !alive),
{
    pid != current_pid && !alive
}

/// FAT32 cannot hold times before 1980-01-01 (seconds since the Unix epoch).
pub const FAT32_EPOCH: u64 = 315532800;

/// The modification time an archive entry records: the file's, raised to the
/// FAT32 floor.
pub fn header_mtime(mtime: u64) -> (r: u64)
    ensures
        r == if mtime < FAT32_EPOCH { FAT32_EPOCH } else { mtime },
{
    if mtime < FAT32_EPOCH {
        FAT32_EPOCH
    } else {
        mtime
    }
}

/// A tree copy succeeded when the copier's exit code is below 8 (an unknown code
/// counts as 16).
pub fn copy_succeeded(code: Option<i32>) -> (r: bool)
    ensures
        r == match code {
            Some(c) => c < 8,
            None => false,
        },
{
    match code {
        Some(c) => c < 8,
        None => false,
    }
}

/// The first four bytes of a zstd frame.
pub open spec fn zstd_magic() -> Seq<u8> {
    seq![0x28u8, 0xb5u8, 0x2fu8, 0xfdu8]
}

/// Whether an archive header starts like a zstd frame.
pub fn has_zstd_magic(header: &[u8]) -> (r: bool)
    ensures
        r == (header@.len() >= 4 && header@.take(4) == zstd_magic()),
{
    if header.len() < 4 {
        return false;
    }
    let r = header[0] == 0x28 && header[1] == 0xb5 && header[2] == 0x2f && header[3] == 0xfd;
    if r {
        assert(header@.take(4) =~= zstd_magic());
    } else {
        assert(header@.take(4)[0] == header@[0] && header@.take(4)[1] == header@[1]
            && header@.take(4)[2] == header@[2] && header@.take(4)[3] == header@[3]);
    }
    r
}

/// A snapshot entry holds the archive when its extension is `zst`.
pub fn is_archive_name(name: &str) -> (r: bool)
    ensures
        r == (crate::gamescan::spec_extension(name@) == Some("zst"@)),
{
    let cs = chars_of(name);
    match crate::gamescan::extension_chars(&cs) {
        Some(e) => eq_lit(&e, "zst"),
        None => false,
    }
}


// ==================== GAME FOLDERS ====================

/// The game-folder scan looks no deeper than this below the folder.
pub const GAME_SCAN_MAX_DEPTH: usize = 4;
/// The game-folder scan gives up after visiting this many folders.
pub const GAME_SCAN_MAX_DIRS: usize = 300;

/// The subfolder names that, non-empty under a numbered folder, mark a game's
/// save store.
pub open spec fn save_dir_names() -> Seq<Seq<char>> {
    seq![
        "savedata"@, "save"@, "saves"@, "SaveGames"@, "SaveData"@, "remote"@, "profiles"@,
        "slot"@, "slots"@, "saved games"@, "savegame"@, "saved"@,
    ]
}

/// The save-store subfolder names, in the order they are tried.
pub fn save_dir_name_list() -> (r: Vec<String>)
    ensures
        r@.map_values(|x: String| x@) == save_dir_names(),
{
    let mut v: Vec<String> = Vec::new();
    v.push(string_of(&chars_of("savedata")));
    v.push(string_of(&chars_of("save")));
    v.push(string_of(&chars_of("saves")));
    v.push(string_of(&chars_of("SaveGames")));
    v.push(string_of(&chars_of("SaveData")));
    v.push(string_of(&chars_of("remote")));
    v.push(string_of(&chars_of("profiles")));
    v.push(string_of(&chars_of("slot")));
    v.push(string_of(&chars_of("slots")));
    v.push(string_of(&chars_of("saved games")));
    v.push(string_of(&chars_of("savegame")));
    v.push(string_of(&chars_of("saved")));
    assert(v@.map_values(|x: String| x@) =~= save_dir_names());
    v
}

/// A piece of work of the game-folder scan.
pub enum GameTask {
    /// Scan this folder, found at this depth below the first.
    Enter(String, usize),
    /// Is this folder there and not empty? (a save store of a numbered folder)
    Probe(String),
    /// List this numbered folder: the `remote` folder of each of its subfolders is probed.
    Subs(String),
}

/// A `GameTask` over plain values.
pub enum GameTaskV {
    Enter(Seq<char>, nat),
    Probe(Seq<char>),
    Subs(Seq<char>),
}

pub open spec fn task_v(t: GameTask) -> GameTaskV {
    match t {
        GameTask::Enter(p, d) => GameTaskV::Enter(p@, d as nat),
        GameTask::Probe(p) => GameTaskV::Probe(p@),
        GameTask::Subs(p) => GameTaskV::Subs(p@),
    }
}

pub open spec fn tasks_v(ts: Seq<GameTask>) -> Seq<GameTaskV> {
    ts.map_values(|t: GameTask| task_v(t))
}

/// What the scan asked for last.
pub enum GameAsk {
    Nothing,
    /// The listing of a folder being scanned at this depth.
    Enter(String, usize),
    /// The listing of a numbered folder.
    Subs(String),
    /// Whether a folder is there and holds anything.
    Probe,
}

/// An answer from the file system.
pub enum FsAnswer {
    Nothing,
    /// A folder is there and holds anything.
    Exists(bool),
    /// A folder's entries (name, and whether the entry is a folder); `None`: unreadable.
    Listing(Option<Vec<(String, bool)>>),
}

/// What the scan needs next.
pub enum GameStep {
    Continue,
    /// The listing of this folder.
    List(String),
    /// Whether this folder is there and holds anything.
    Probe(String),
    Done(bool),
}

/// A listing as plain values (an unreadable folder lists nothing).
pub open spec fn listing_v(l: Option<Vec<(String, bool)>>) -> Seq<(Seq<char>, bool)> {
    match l {
        Some(v) => v@.map_values(|e: (String, bool)| (e.0@, e.1)),
        None => Seq::empty(),
    }
}

/// An entry the scan looks into: a folder whose name is not on the skip list.
pub open spec fn kept_entry(e: (Seq<char>, bool)) -> bool {
    e.1 && !is_skip_dir(lowercase(e.0))
}

/// The probes of the save stores of a numbered folder, in the order tried.
pub open spec fn store_probes(nd: Seq<char>) -> Seq<GameTaskV> {
    save_dir_names().map_values(|sd: Seq<char>| GameTaskV::Probe(crate::winpath::spec_join(nd, sd)))
}

/// For each numbered folder among `es`, in order: its store probes, then its subfolder listing.
pub open spec fn numeric_part(dir: Seq<char>, es: Seq<(Seq<char>, bool)>) -> Seq<GameTaskV>
    decreases es.len(),
{
    if es.len() == 0 {
        Seq::empty()
    } else {
        let e = es.last();
        let nd = crate::winpath::spec_join(dir, e.0);
        if kept_entry(e) && crate::text::all_digits(e.0) {
            numeric_part(dir, es.drop_last()) + store_probes(nd) + seq![GameTaskV::Subs(nd)]
        } else {
            numeric_part(dir, es.drop_last())
        }
    }
}

/// For each other folder among `es`, in order: a scan one level deeper.
pub open spec fn other_part(dir: Seq<char>, depth: nat, es: Seq<(Seq<char>, bool)>) -> Seq<GameTaskV>
    decreases es.len(),
{
    if es.len() == 0 {
        Seq::empty()
    } else {
        let e = es.last();
        if kept_entry(e) && !crate::text::all_digits(e.0) {
            other_part(dir, depth, es.drop_last()).push(GameTaskV::Enter(crate::winpath::spec_join(dir, e.0), depth + 1))
        } else {
            other_part(dir, depth, es.drop_last())
        }
    }
}

/// The work a scanned folder gives, in order: its numbered folders first, then the others.
pub open spec fn enter_tasks(dir: Seq<char>, depth: nat, es: Seq<(Seq<char>, bool)>) -> Seq<GameTaskV> {
    numeric_part(dir, es) + other_part(dir, depth, es)
}

/// The probes of the `remote` folder of each subfolder of a numbered folder, in order.
pub open spec fn sub_tasks(nd: Seq<char>, es: Seq<(Seq<char>, bool)>) -> Seq<GameTaskV>
    decreases es.len(),
{
    if es.len() == 0 {
        Seq::empty()
    } else if es.last().1 {
        sub_tasks(nd, es.drop_last()).push(
            GameTaskV::Probe(crate::winpath::spec_join(crate::winpath::spec_join(nd, es.last().0), "remote"@)),
        )
    } else {
        sub_tasks(nd, es.drop_last())
    }
}

/// The game-folder scan (`is_game_folder`), one step at a time. A scanned folder
/// is listed; for each of its numbered subfolders, in order, each save store is
/// probed and then each of its subfolders' `remote` folder; a store or a
/// `remote` folder that is there and holds anything answers yes. Then its other
/// subfolders are scanned one level deeper, in order. A folder deeper than the
/// depth bound, or met after more than the folder bound were scanned, counts as
/// holding nothing. The scan answers no when the work runs out.
pub struct GameFolderSearch {
    /// Work still to do, the next last.
    pub tasks: Vec<GameTask>,
    /// How many folders were scanned.
    pub visited: usize,
    pub asked: GameAsk,
    pub found: bool,
}

/// The work after an answer to what was asked.
pub open spec fn after_answer(tasks: Seq<GameTaskV>, asked: GameAsk, answer: FsAnswer) -> Seq<GameTaskV> {
    match (asked, answer) {
        (GameAsk::Enter(p, d), FsAnswer::Listing(l)) => tasks + enter_tasks(p@, d as nat, listing_v(l)).reverse(),
        (GameAsk::Subs(p), FsAnswer::Listing(l)) => tasks + sub_tasks(p@, listing_v(l)).reverse(),
        _ => tasks,
    }
}

/// The answer says a probed folder is there and holds anything.
pub open spec fn answer_hits(asked: GameAsk, answer: FsAnswer) -> bool {
    asked is Probe && (answer matches FsAnswer::Exists(b) && b)
}

/// `v` followed by the reverse of `w`.
proof fn lemma_push_reversed_step(v: Seq<GameTaskV>, w: Seq<GameTaskV>, k: int)
    requires
        0 < k <= w.len(),
    ensures
        (v + w.subrange(k, w.len() as int).reverse()).push(w[k - 1]) == v + w.subrange(k - 1, w.len() as int).reverse(),
{
    let a = w.subrange(k, w.len() as int).reverse();
    let b = w.subrange(k - 1, w.len() as int).reverse();
    assert(b =~= a.push(w[k - 1]));
    assert((v + a).push(w[k - 1]) =~= v + a.push(w[k - 1]));
}

/// Pushes `pending` so that its first element is taken next.
fn push_reversed(stack: &mut Vec<GameTask>, pending: Vec<GameTask>)
    ensures
        tasks_v(final(stack)@) == tasks_v(old(stack)@) + tasks_v(pending@).reverse(),
{
    let ghost w = tasks_v(pending@);
    let ghost v = tasks_v(stack@);
    let mut pending = pending;
    assert(w.subrange(w.len() as int, w.len() as int).reverse() =~= Seq::<GameTaskV>::empty());
    assert(v + Seq::<GameTaskV>::empty() =~= v);
    while pending.len() > 0
        invariant
            tasks_v(pending@) == w.take(pending@.len() as int),
            pending@.len() <= w.len(),
            tasks_v(stack@) == v + w.subrange(pending@.len() as int, w.len() as int).reverse(),
        decreases pending@.len(),
    {
        let ghost k = pending@.len() as int;
        let ghost s0 = stack@;
        let ghost td0 = pending@;
        let t = pending.pop().unwrap();
        assert(task_v(t) == w[k - 1]) by {
            assert(t == td0[k - 1]);
            assert(tasks_v(td0)[k - 1] == task_v(td0[k - 1]));
            assert(w.take(k)[k - 1] == w[k - 1]);
        }
        stack.push(t);
        assert(tasks_v(stack@) =~= tasks_v(s0).push(task_v(t)));
        proof {
            lemma_push_reversed_step(v, w, k);
        }
        assert(tasks_v(pending@) =~= w.take(k - 1));
    }
    assert(w.subrange(0, w.len() as int) =~= w);
}

fn clone_str(s: &String) -> (r: String)
    ensures
        r@ == s@,
{
    s.clone()
}

/// The work a scanned folder gives (see `enter_tasks`).
fn make_enter_tasks(dir: &str, depth: usize, es: &Vec<(String, bool)>, stores: &Vec<String>) -> (r: Vec<GameTask>)
    requires
        depth < usize::MAX,
        stores@.map_values(|x: String| x@) == save_dir_names(),
    ensures
        tasks_v(r@) == enter_tasks(dir@, depth as nat, listing_v(Some(*es))),
{
    let ghost ev = listing_v(Some(*es));
    let mut a: Vec<GameTask> = Vec::new();
    let mut i: usize = 0;
    while i < es.len()
        invariant
            i <= es@.len(),
            ev == listing_v(Some(*es)),
            ev.len() == es@.len(),
            stores@.map_values(|x: String| x@) == save_dir_names(),
            tasks_v(a@) == numeric_part(dir@, ev.take(i as int)),
        decreases es@.len() - i,
    {
        assert(ev.take(i as int + 1).drop_last() =~= ev.take(i as int));
        assert(ev[i as int] == (es@[i as int].0@, es@[i as int].1));
        let name = &es[i].0;
        let is_dir = es[i].1;
        if is_dir && !should_skip(name.as_str()) && is_numeric_name(name.as_str()) {
            let nd = crate::config::join(dir, name.as_str());
            let mut k: usize = 0;
            let ghost a0 = tasks_v(a@);
            while k < stores.len()
                invariant
                    k <= stores@.len(),
                    stores@.map_values(|x: String| x@) == save_dir_names(),
                    tasks_v(a@) == a0 + store_probes(nd@).take(k as int),
                decreases stores@.len() - k,
            {
                let ghost ak = a@;
                a.push(GameTask::Probe(crate::config::join(nd.as_str(), stores[k].as_str())));
                assert(stores@[k as int]@ == save_dir_names()[k as int]);
                assert(store_probes(nd@).take(k as int + 1) =~= store_probes(nd@).take(k as int).push(
                    store_probes(nd@)[k as int],
                ));
                assert(tasks_v(a@) =~= tasks_v(ak).push(task_v(a@.last())));
                k = k + 1;
            }
            assert(store_probes(nd@).take(stores@.len() as int) =~= store_probes(nd@));
            let ghost a1 = a@;
            a.push(GameTask::Subs(nd));
            assert(tasks_v(a@) =~= tasks_v(a1).push(task_v(a@.last())));
        }
        i = i + 1;
    }
    assert(ev.take(es@.len() as int) =~= ev);
    let mut b: Vec<GameTask> = Vec::new();
    let mut j: usize = 0;
    while j < es.len()
        invariant
            j <= es@.len(),
            ev == listing_v(Some(*es)),
            ev.len() == es@.len(),
            depth < usize::MAX,
            tasks_v(b@) == other_part(dir@, depth as nat, ev.take(j as int)),
        decreases es@.len() - j,
    {
        assert(ev.take(j as int + 1).drop_last() =~= ev.take(j as int));
        assert(ev[j as int] == (es@[j as int].0@, es@[j as int].1));
        let name = &es[j].0;
        if es[j].1 && !should_skip(name.as_str()) && !is_numeric_name(name.as_str()) {
            let ghost b0 = b@;
            b.push(GameTask::Enter(crate::config::join(dir, name.as_str()), depth + 1));
            assert(tasks_v(b@) =~= tasks_v(b0).push(task_v(b@.last())));
        }
        j = j + 1;
    }
    assert(ev.take(es@.len() as int) =~= ev);
    let ghost ta = tasks_v(a@);
    let ghost tb = tasks_v(b@);
    a.append(&mut b);
    assert(tasks_v(a@) =~= ta + tb);
    a
}

/// The `remote` probes of a numbered folder's subfolders (see `sub_tasks`).
fn make_sub_tasks(nd: &str, es: &Vec<(String, bool)>) -> (r: Vec<GameTask>)
    ensures
        tasks_v(r@) == sub_tasks(nd@, listing_v(Some(*es))),
{
    let ghost ev = listing_v(Some(*es));
    let mut a: Vec<GameTask> = Vec::new();
    let mut i: usize = 0;
    while i < es.len()
        invariant
            i <= es@.len(),
            ev == listing_v(Some(*es)),
            ev.len() == es@.len(),
            tasks_v(a@) == sub_tasks(nd@, ev.take(i as int)),
        decreases es@.len() - i,
    {
        assert(ev.take(i as int + 1).drop_last() =~= ev.take(i as int));
        assert(ev[i as int] == (es@[i as int].0@, es@[i as int].1));
        if es[i].1 {
            let s = crate::config::join(nd, es[i].0.as_str());
            let ghost a0 = a@;
            a.push(GameTask::Probe(crate::config::join(s.as_str(), "remote")));
            assert(tasks_v(a@) =~= tasks_v(a0).push(task_v(a@.last())));
        }
        i = i + 1;
    }
    assert(ev.take(es@.len() as int) =~= ev);
    a
}

impl GameFolderSearch {
    pub open spec fn wf(&self) -> bool {
        &&& self.visited <= GAME_SCAN_MAX_DIRS + 1
        &&& (self.asked matches GameAsk::Enter(_, d) ==> d <= GAME_SCAN_MAX_DEPTH)
    }

    /// A scan of `dir`: its listing is asked for first.
    pub fn start(dir: &str) -> (r: (GameFolderSearch, GameStep))
        ensures
            r.0.wf(),
            r.0.tasks@.len() == 0,
            r.0.visited == 1,
            !r.0.found,
            r.0.asked matches GameAsk::Enter(p, d) && p@ == dir@ && d == 0,
            r.1 matches GameStep::List(p) && p@ == dir@,
    {
        let p = string_of(&chars_of(dir));
        let q = clone_str(&p);
        (GameFolderSearch { tasks: Vec::new(), visited: 1, asked: GameAsk::Enter(p, 0), found: false }, GameStep::List(q))
    }

    /// Takes the answer to what was asked, then the next piece of work.
    pub fn step(&mut self, answer: FsAnswer) -> (r: GameStep)
        requires
            old(self).wf(),
        ensures
            final(self).wf(),
            ({
                let (g2, p2) = game_step(gview(*old(self)), answer);
                gview(*final(self)) == g2 && gstep_v(r) == p2
            }),
            ({
                let t1 = after_answer(tasks_v(old(self).tasks@), old(self).asked, answer);
                if old(self).found || answer_hits(old(self).asked, answer) {
                    &&& final(self).found && (r matches GameStep::Done(b) && b)
                    &&& tasks_v(final(self).tasks@) == t1
                    &&& final(self).visited == old(self).visited
                    &&& final(self).asked is Nothing
                } else if t1.len() == 0 {
                    &&& !final(self).found && (r matches GameStep::Done(b) && !b) && tasks_v(final(self).tasks@) == t1
                    &&& final(self).visited == old(self).visited
                    &&& final(self).asked is Nothing
                } else {
                    &&& !final(self).found
                    &&& tasks_v(final(self).tasks@) == t1.drop_last()
                    &&& match t1.last() {
                        GameTaskV::Enter(p, d) => if d > GAME_SCAN_MAX_DEPTH || old(self).visited > GAME_SCAN_MAX_DIRS {
                            r is Continue && final(self).asked is Nothing && final(self).visited == old(self).visited
                        } else {
                            &&& r matches GameStep::List(q) && q@ == p
                            &&& final(self).asked matches GameAsk::Enter(q, e) && q@ == p && e == d
                            &&& final(self).visited == old(self).visited + 1
                        },
                        GameTaskV::Probe(p) => (r matches GameStep::Probe(q) && q@ == p) && final(self).asked is Probe
                            && final(self).visited == old(self).visited,
                        GameTaskV::Subs(p) => (r matches GameStep::List(q) && q@ == p) && (final(self).asked matches GameAsk::Subs(q)
                            && q@ == p) && final(self).visited == old(self).visited,
                    }
                }
            }),
    {
        let ghost t0 = tasks_v(self.tasks@);
        let mut asked = GameAsk::Nothing;
        std::mem::swap(&mut asked, &mut self.asked);
        let ghost asked_g = asked;
        let mut hit = false;
        match (asked, answer) {
            (GameAsk::Enter(p, d), FsAnswer::Listing(l)) => {
                let es = match l {
                    Some(v) => v,
                    None => Vec::new(),
                };
                let stores = save_dir_name_list();
                let next_tasks = make_enter_tasks(p.as_str(), d, &es, &stores);
                push_reversed(&mut self.tasks, next_tasks);
            },
            (GameAsk::Subs(p), FsAnswer::Listing(l)) => {
                let es = match l {
                    Some(v) => v,
                    None => Vec::new(),
                };
                let next_tasks = make_sub_tasks(p.as_str(), &es);
                push_reversed(&mut self.tasks, next_tasks);
            },
            (GameAsk::Probe, FsAnswer::Exists(b)) => {
                hit = b;
            },
            _ => {},
        }
        if self.found || hit {
            self.found = true;
            return GameStep::Done(true);
        }
        if self.tasks.len() == 0 {
            return GameStep::Done(false);
        }
        let ghost t1 = tasks_v(self.tasks@);
        let t = self.tasks.pop().unwrap();
        assert(tasks_v(self.tasks@) =~= t1.drop_last());
        assert(task_v(t) == t1.last());
        match t {
            GameTask::Enter(p, d) => {
                if d > GAME_SCAN_MAX_DEPTH || self.visited > GAME_SCAN_MAX_DIRS {
                    GameStep::Continue
                } else {
                    self.visited = self.visited + 1;
                    let q = clone_str(&p);
                    self.asked = GameAsk::Enter(p, d);
                    GameStep::List(q)
                }
            },
            GameTask::Probe(p) => {
                self.asked = GameAsk::Probe;
                GameStep::Probe(p)
            },
            GameTask::Subs(p) => {
                let q = clone_str(&p);
                self.asked = GameAsk::Subs(p);
                GameStep::List(q)
            },
        }
    }
}

/// What a game-folder scan asked for last, as plain values.
pub enum AskV {
    Nothing,
    Enter(Seq<char>, nat),
    Subs(Seq<char>),
    Probe,
}

pub open spec fn ask_v(a: GameAsk) -> AskV {
    match a {
        GameAsk::Nothing => AskV::Nothing,
        GameAsk::Enter(p, d) => AskV::Enter(p@, d as nat),
        GameAsk::Subs(p) => AskV::Subs(p@),
        GameAsk::Probe => AskV::Probe,
    }
}

/// A `GameStep` as plain values.
pub enum GStepV {
    Continue,
    List(Seq<char>),
    Probe(Seq<char>),
    Done(bool),
}

pub open spec fn gstep_v(s: GameStep) -> GStepV {
    match s {
        GameStep::Continue => GStepV::Continue,
        GameStep::List(p) => GStepV::List(p@),
        GameStep::Probe(p) => GStepV::Probe(p@),
        GameStep::Done(b) => GStepV::Done(b),
    }
}

/// A game-folder scan as plain values.
pub struct GState {
    pub tasks: Seq<GameTaskV>,
    pub visited: int,
    pub asked: AskV,
    pub found: bool,
}

pub open spec fn gview(g: GameFolderSearch) -> GState {
    GState { tasks: tasks_v(g.tasks@), visited: g.visited as int, asked: ask_v(g.asked), found: g.found }
}

/// The work after an answer (see `after_answer`), over plain values.
pub open spec fn after_answer_v(tasks: Seq<GameTaskV>, asked: AskV, answer: FsAnswer) -> Seq<GameTaskV> {
    match (asked, answer) {
        (AskV::Enter(p, d), FsAnswer::Listing(l)) => tasks + enter_tasks(p, d, listing_v(l)).reverse(),
        (AskV::Subs(p), FsAnswer::Listing(l)) => tasks + sub_tasks(p, listing_v(l)).reverse(),
        _ => tasks,
    }
}

/// One step of the game-folder scan over plain values (see `GameFolderSearch::step`).
pub open spec fn game_step(g: GState, answer: FsAnswer) -> (GState, GStepV) {
    let t1 = after_answer_v(g.tasks, g.asked, answer);
    if g.found || (g.asked is Probe && (answer matches FsAnswer::Exists(b) && b)) {
        (GState { tasks: t1, visited: g.visited, asked: AskV::Nothing, found: true }, GStepV::Done(true))
    } else if t1.len() == 0 {
        (GState { tasks: t1, visited: g.visited, asked: AskV::Nothing, found: false }, GStepV::Done(false))
    } else {
        let rest = t1.drop_last();
        match t1.last() {
            GameTaskV::Enter(p, d) => if d > GAME_SCAN_MAX_DEPTH || g.visited > GAME_SCAN_MAX_DIRS {
                (GState { tasks: rest, visited: g.visited, asked: AskV::Nothing, found: false }, GStepV::Continue)
            } else {
                (GState { tasks: rest, visited: g.visited + 1, asked: AskV::Enter(p, d), found: false }, GStepV::List(p))
            },
            GameTaskV::Probe(p) => (GState { tasks: rest, visited: g.visited, asked: AskV::Probe, found: false }, GStepV::Probe(p)),
            GameTaskV::Subs(p) => (GState { tasks: rest, visited: g.visited, asked: AskV::Subs(p), found: false }, GStepV::List(p)),
        }
    }
}

/// The game-folder scan of `path` before its first step: its listing is asked for.
pub open spec fn game_start(path: Seq<char>) -> GState {
    GState { tasks: Seq::empty(), visited: 1, asked: AskV::Enter(path, 0), found: false }
}

/// A call of `probe` on a path whose text is `p` answered `b`.
pub open spec fn probed_as<G: Fn(&str) -> bool>(probe: G, p: Seq<char>, b: bool) -> bool {
    exists|s: &str| s@ == p && #[trigger] call_ensures(probe, (s,), b)
}

/// The answer of the game-folder scan from a state and what it asks, when the
/// answers from outside are, in order, `answers`: for a listing asked of a
/// folder, what `list` returned for it; for a probe, what `probe` answered.
/// `None` when the answers do not fit the run or `fuel` steps do not reach the end.
pub open spec fn game_run<F: Fn(&str) -> Option<Vec<(String, bool)>>, G: Fn(&str) -> bool>(
    list: F,
    probe: G,
    g: GState,
    pending: GStepV,
    answers: Seq<FsAnswer>,
    fuel: nat,
) -> Option<bool>
    decreases fuel,
{
    if fuel == 0 {
        None
    } else {
        match pending {
            GStepV::Done(b) => if answers.len() == 0 {
                Some(b)
            } else {
                None
            },
            GStepV::Continue => {
                let (g2, p2) = game_step(g, FsAnswer::Nothing);
                game_run(list, probe, g2, p2, answers, (fuel - 1) as nat)
            },
            GStepV::List(p) => if answers.len() == 0 {
                None
            } else {
                match answers[0] {
                    FsAnswer::Listing(l) => if crate::gamescan::listed_as(list, p, l) {
                        let (g2, p2) = game_step(g, answers[0]);
                        game_run(list, probe, g2, p2, answers.drop_first(), (fuel - 1) as nat)
                    } else {
                        None
                    },
                    _ => None,
                }
            },
            GStepV::Probe(p) => if answers.len() == 0 {
                None
            } else {
                match answers[0] {
                    FsAnswer::Exists(b) => if probed_as(probe, p, b) {
                        let (g2, p2) = game_step(g, answers[0]);
                        game_run(list, probe, g2, p2, answers.drop_first(), (fuel - 1) as nat)
                    } else {
                        None
                    },
                    _ => None,
                }
            },
        }
    }
}

/// How many folder listings of numbered folders are among the work.
pub open spec fn count_subs(ts: Seq<GameTaskV>) -> nat
    decreases ts.len(),
{
    if ts.len() == 0 {
        0
    } else {
        count_subs(ts.drop_last()) + if ts.last() is Subs {
            1nat
        } else {
            0nat
        }
    }
}

proof fn lemma_count_subs_concat(a: Seq<GameTaskV>, b: Seq<GameTaskV>)
    ensures
        count_subs(a + b) == count_subs(a) + count_subs(b),
    decreases b.len(),
{
    if b.len() == 0 {
        assert(a + b =~= a);
    } else {
        assert((a + b).drop_last() =~= a + b.drop_last());
        assert((a + b).last() == b.last());
        lemma_count_subs_concat(a, b.drop_last());
    }
}

proof fn lemma_count_subs_none(s: Seq<GameTaskV>)
    requires
        forall|i: int| 0 <= i < s.len() ==> !(#[trigger] s[i] is Subs),
    ensures
        count_subs(s) == 0,
    decreases s.len(),
{
    if s.len() > 0 {
        assert(!(s[s.len() - 1] is Subs));
        assert forall|i: int| 0 <= i < s.drop_last().len() implies !(#[trigger] s.drop_last()[i] is Subs) by {
            assert(s.drop_last()[i] == s[i]);
        }
        lemma_count_subs_none(s.drop_last());
    }
}

proof fn lemma_sub_tasks_probes(nd: Seq<char>, es: Seq<(Seq<char>, bool)>)
    ensures
        forall|i: int| 0 <= i < sub_tasks(nd, es).len() ==> (#[trigger] sub_tasks(nd, es)[i]) is Probe,
    decreases es.len(),
{
    if es.len() > 0 {
        lemma_sub_tasks_probes(nd, es.drop_last());
    }
}

/// A call of `probe` answered yes.
pub open spec fn probe_said_yes<F: Fn(&str) -> bool>(probe: F) -> bool {
    exists|p: &str| #[trigger] call_ensures(probe, (p,), true)
}

/// Whether `path` looks like a game's folder, scanned as `GameFolderSearch`
/// describes: `list` gives the entries of a folder (name, and whether it is a
/// folder; `None` when it cannot be read) and `probe` whether a folder is there
/// and holds anything. The answer is the outcome of that scan run on what
/// `list` and `probe` returned for what it asked, in order (`game_run`); a yes
/// always rests on a probe that answered yes.
pub fn is_game_folder(
    path: &str,
    list: impl Fn(&str) -> Option<Vec<(String, bool)>>,
    probe: impl Fn(&str) -> bool,
) -> (r: bool)
    requires
        forall|s: &str| call_requires(list, (s,)),
        forall|s: &str| call_requires(probe, (s,)),
    ensures
        exists|answers: Seq<FsAnswer>, fuel: nat|
            #[trigger] game_run(list, probe, game_start(path@), GStepV::List(path@), answers, fuel) == Some(r),
        r ==> probe_said_yes(probe),
{
    let (mut search, mut step) = GameFolderSearch::start(path);
    let ghost mut hist: Seq<FsAnswer> = Seq::empty();
    let ghost mut k: nat = 0;
    proof {
        assert(tasks_v(search.tasks@) =~= Seq::<GameTaskV>::empty());
        assert(gview(search) == game_start(path@));
        assert forall|fut: Seq<FsAnswer>, f: nat|
            #![trigger game_run(list, probe, gview(search), gstep_v(step), fut, f)]
            game_run(list, probe, game_start(path@), GStepV::List(path@), hist + fut, f + k) == game_run(
                list,
                probe,
                gview(search),
                gstep_v(step),
                fut,
                f,
            ) by {
            assert(hist + fut =~= fut);
        }
    }
    loop
        invariant
            forall|fut: Seq<FsAnswer>, f: nat|
                #![trigger game_run(list, probe, gview(search), gstep_v(step), fut, f)]
                game_run(list, probe, game_start(path@), GStepV::List(path@), hist + fut, f + k) == game_run(
                    list,
                    probe,
                    gview(search),
                    gstep_v(step),
                    fut,
                    f,
                ),
            search.wf(),
            forall|s: &str| call_requires(list, (s,)),
            forall|s: &str| call_requires(probe, (s,)),
            !(step is Done) ==> !search.found,
            step matches GameStep::Done(b) ==> (b ==> probe_said_yes(probe)),
        decreases
            GAME_SCAN_MAX_DIRS + 2 - search.visited + (if search.asked is Enter { 1int } else { 0int }),
            count_subs(tasks_v(search.tasks@)) + (if search.asked is Subs { 1int } else { 0int }),
            2 * search.tasks@.len() + (if search.asked is Nothing { 0int } else { 1int }),
            if step is Done { 0int } else { 1int },
    {
        let ghost g0 = gview(search);
        let ghost p0 = gstep_v(step);
        let ghost mut answered: Option<FsAnswer> = None;
        let answer = match step {
            GameStep::Done(b) => {
                proof {
                    assert(hist + Seq::<FsAnswer>::empty() =~= hist);
                    assert(game_run(list, probe, g0, p0, Seq::empty(), 1) == Some(b));
                    assert(game_run(list, probe, game_start(path@), GStepV::List(path@), hist, 1 + k) == Some(b));
                }
                return b;
            },
            GameStep::Continue => FsAnswer::Nothing,
            GameStep::List(p) => {
                let ps = p.as_str();
                let l = list(ps);
                assert(call_ensures(list, (ps,), l));
                proof {
                    assert(crate::gamescan::listed_as(list, p@, l));
                    answered = Some(FsAnswer::Listing(l));
                }
                FsAnswer::Listing(l)
            },
            GameStep::Probe(p) => {
                let ps = p.as_str();
                let b = probe(ps);
                assert(call_ensures(probe, (ps,), b));
                proof {
                    assert(probed_as(probe, p@, b));
                    answered = Some(FsAnswer::Exists(b));
                }
                FsAnswer::Exists(b)
            },
        };
        assert(answer matches FsAnswer::Exists(b) ==> (b ==> probe_said_yes(probe)));
        let ghost ans = answer;
        let ghost t0 = tasks_v(search.tasks@);
        let ghost asked0 = search.asked;
        step = search.step(answer);
        proof {
            let g1 = gview(search);
            let p1 = gstep_v(step);
            let hist1 = match answered {
                Some(a) => hist.push(a),
                None => hist,
            };
            assert forall|fut: Seq<FsAnswer>, f: nat|
                #![trigger game_run(list, probe, g1, p1, fut, f)]
                game_run(list, probe, game_start(path@), GStepV::List(path@), hist1 + fut, f + (k + 1))
                    == game_run(list, probe, g1, p1, fut, f) by {
                match answered {
                    Some(a) => {
                        let fut0 = seq![a] + fut;
                        assert(hist1 + fut =~= hist + fut0);
                        assert(fut0[0] == a);
                        assert(fut0.drop_first() =~= fut);
                        assert(game_run(list, probe, game_start(path@), GStepV::List(path@), hist + fut0, (f + 1) + k)
                            == game_run(list, probe, g0, p0, fut0, f + 1));
                    },
                    None => {
                        assert(game_run(list, probe, game_start(path@), GStepV::List(path@), hist + fut, (f + 1) + k)
                            == game_run(list, probe, g0, p0, fut, f + 1));
                    },
                }
            }
            hist = hist1;
            k = k + 1;
        }
        proof {
            let t1 = after_answer(t0, asked0, ans);
            match (asked0, ans) {
                (GameAsk::Subs(p), FsAnswer::Listing(l)) => {
                    let st = sub_tasks(p@, listing_v(l));
                    lemma_sub_tasks_probes(p@, listing_v(l));
                    assert forall|i: int| 0 <= i < st.reverse().len() implies !(#[trigger] st.reverse()[i] is Subs) by {
                        assert(st.reverse()[i] == st[st.len() - 1 - i]);
                    }
                    lemma_count_subs_none(st.reverse());
                    lemma_count_subs_concat(t0, st.reverse());
                },
                (GameAsk::Enter(p, d), FsAnswer::Listing(l)) => {},
                _ => {
                    assert(t1 == t0);
                },
            }
            if t1.len() > 0 {
                assert(count_subs(t1) == count_subs(t1.drop_last()) + if t1.last() is Subs {
                    1nat
                } else {
                    0nat
                });
            }
        }
    }
}

// ==================== SAVE-ID MIGRATION ====================

/// A name made only of ASCII digits (the empty name counts).
pub fn is_numeric_name(name: &str) -> (r: bool)
    ensures
        r == crate::text::all_digits(name@),
{
    let cs = chars_of(name);
    let mut k: usize = 0;
    while k < cs.len()
        invariant
            k <= cs@.len(),
            cs@ == name@,
            forall|j: int| 0 <= j < k ==> crate::text::is_digit(#[trigger] cs@[j]),
        decreases cs@.len() - k,
    {
        if !('0' <= cs[k] && cs[k] <= '9') {
            return false;
        }
        k = k + 1;
    }
    true
}

/// A file name (lowercase) that names a save: it starts with `savefile`,
/// `autosave` or `checkpoint`.
pub open spec fn is_specific_save_name(lower: Seq<char>) -> bool {
    starts_with_chars(lower, "savefile"@) || starts_with_chars(lower, "autosave"@) || starts_with_chars(
        lower,
        "checkpoint"@,
    )
}

/// A file name (lowercase) ending in `.sav`, `.save` or `.slot`.
pub open spec fn has_save_suffix(lower: Seq<char>) -> bool {
    crate::gamescan::ends_with(lower, ".sav"@) || crate::gamescan::ends_with(lower, ".save"@)
        || crate::gamescan::ends_with(lower, ".slot"@)
}

fn starts_with_lit(s: &Vec<char>, lit: &str) -> (r: bool)
    ensures
        r == starts_with_chars(s@, lit@),
{
    let p = chars_of(lit);
    crate::pathutil::starts_with_chars(s, &p)
}

/// Whether a file's name marks a save by its beginning (see `is_specific_save_name`).
pub fn specific_save_name(name: &str) -> (r: bool)
    ensures
        r == is_specific_save_name(lowercase(name@)),
{
    let low = to_lowercase(name);
    is_specific_save_lower(low.as_str())
}

/// Whether an already lowercased file name marks a save by its beginning.
pub fn is_specific_save_lower(low: &str) -> (r: bool)
    ensures
        r == is_specific_save_name(low@),
{
    let l = chars_of(low);
    starts_with_lit(&l, "savefile") || starts_with_lit(&l, "autosave") || starts_with_lit(&l, "checkpoint")
}

/// Whether a file's name marks a save by its ending (see `has_save_suffix`).
pub fn save_suffix_name(name: &str) -> (r: bool)
    ensures
        r == has_save_suffix(lowercase(name@)),
{
    let low = to_lowercase(name);
    has_save_suffix_lower(low.as_str())
}

/// Whether an already lowercased file name marks a save by its ending.
pub fn has_save_suffix_lower(low: &str) -> (r: bool)
    ensures
        r == has_save_suffix(low@),
{
    let l = chars_of(low);
    ends_with_lit(&l, ".sav") || ends_with_lit(&l, ".save") || ends_with_lit(&l, ".slot")
}

/// How sure it is that a numbered folder holds save data.
#[derive(PartialEq, Eq, Structural, Clone, Copy, Debug)]
pub enum SaveState {
    HasSaveData,
    FreshInstall,
    Unknown,
}

/// The evidence score of a numbered folder: a save folder with files +100; else a
/// `<id>\\remote` folder with files +100; then, while under 100, save file names
/// +50 and save extensions +30; with no evidence at all, six or more files +20.
pub open spec fn save_score(save_dir: bool, remote: bool, names: bool, exts: bool, files: nat) -> int {
    let s1: int = if save_dir { 100 } else { 0 };
    let s2: int = if s1 < 100 && remote { s1 + 100 } else { s1 };
    let s3: int = if s2 < 100 && names { s2 + 50 } else { s2 };
    let s4: int = if s3 < 100 && exts { s3 + 30 } else { s3 };
    if s4 == 0 && files >= 6 { s4 + 20 } else { s4 }
}

/// 100 or more: has save data; 0: a fresh install; anything between: unknown.
pub open spec fn state_of(score: int) -> SaveState {
    if score >= 100 {
        SaveState::HasSaveData
    } else if score == 0 {
        SaveState::FreshInstall
    } else {
        SaveState::Unknown
    }
}

/// Classifies a numbered folder from its evidence (see `save_score`).
pub fn classify_save_state(save_dir: bool, remote: bool, names: bool, exts: bool, files: usize) -> (r: SaveState)
    ensures
        r == state_of(save_score(save_dir, remote, names, exts, files as nat)),
{
    let mut score: i32 = 0;
    if save_dir {
        score = score + 100;
    }
    if score < 100 && remote {
        score = score + 100;
    }
    if score < 100 && names {
        score = score + 50;
    }
    if score < 100 && exts {
        score = score + 30;
    }
    if score == 0 && files >= 6 {
        score = score + 20;
    }
    if score >= 100 {
        SaveState::HasSaveData
    } else if score == 0 {
        SaveState::FreshInstall
    } else {
        SaveState::Unknown
    }
}

/// A numbered folder with its classification and ranking statistics.
pub struct IdFolder {
    pub name: String,
    pub state: SaveState,
    pub files: usize,
    pub bytes: u64,
    /// Newest modification time: seconds, then nanoseconds.
    pub mtime_secs: u64,
    pub mtime_nanos: u32,
}

/// `a` ranks above `b`: more files, then more bytes, then newer.
pub open spec fn ranks_above(a: IdFolder, b: IdFolder) -> bool {
    ||| a.files > b.files
    ||| a.files == b.files && a.bytes > b.bytes
    ||| a.files == b.files && a.bytes == b.bytes && a.mtime_secs > b.mtime_secs
    ||| a.files == b.files && a.bytes == b.bytes && a.mtime_secs == b.mtime_secs && a.mtime_nanos > b.mtime_nanos
}

/// Among the first `n` folders that have save data, the best ranked; a later folder
/// wins a tie (the maximum as `Iterator::max_by` picks it).
pub open spec fn best_source(fs: Seq<IdFolder>, n: int) -> Option<int>
    decreases n,
{
    if n <= 0 {
        None
    } else {
        let b = best_source(fs, n - 1);
        if fs[n - 1].state == SaveState::HasSaveData {
            match b {
                Some(j) => if ranks_above(fs[j], fs[n - 1]) { Some(j) } else { Some(n - 1) },
                None => Some(n - 1),
            }
        } else {
            b
        }
    }
}

/// The folder a migration copies from is the best one with save data: it has
/// save data; no folder with save data has more files; none with as many files
/// has more bytes; none with as many files and bytes is newer (seconds, then
/// nanoseconds); and every later folder with save data ranks strictly below it
/// (a tie goes to the later folder). There is such a folder exactly when some
/// folder has save data.
pub proof fn lemma_copy_source_is_best(fs: Seq<IdFolder>, n: int)
    requires
        0 <= n <= fs.len(),
    ensures
        best_source(fs, n) is Some <==> exists|k: int| 0 <= k < n && (#[trigger] fs[k]).state == SaveState::HasSaveData,
        best_source(fs, n) matches Some(b) ==> {
            &&& 0 <= b < n
            &&& fs[b].state == SaveState::HasSaveData
            &&& forall|k: int|
                0 <= k < n && (#[trigger] fs[k]).state == SaveState::HasSaveData ==> {
                    &&& fs[k].files <= fs[b].files
                    &&& (fs[k].files == fs[b].files ==> fs[k].bytes <= fs[b].bytes)
                    &&& (fs[k].files == fs[b].files && fs[k].bytes == fs[b].bytes ==> fs[k].mtime_secs
                        <= fs[b].mtime_secs)
                    &&& (fs[k].files == fs[b].files && fs[k].bytes == fs[b].bytes && fs[k].mtime_secs
                        == fs[b].mtime_secs ==> fs[k].mtime_nanos <= fs[b].mtime_nanos)
                    &&& (k > b ==> fs[k].files < fs[b].files || (fs[k].files == fs[b].files && fs[k].bytes
                        < fs[b].bytes) || (fs[k].files == fs[b].files && fs[k].bytes == fs[b].bytes
                        && fs[k].mtime_secs < fs[b].mtime_secs) || (fs[k].files == fs[b].files
                        && fs[k].bytes == fs[b].bytes && fs[k].mtime_secs == fs[b].mtime_secs
                        && fs[k].mtime_nanos < fs[b].mtime_nanos))
                }
        },
    decreases n,
{
    if n > 0 {
        lemma_copy_source_is_best(fs, n - 1);
        if fs[n - 1].state != SaveState::HasSaveData {
            assert forall|k: int| 0 <= k < n && (#[trigger] fs[k]).state == SaveState::HasSaveData implies k < n - 1 by {}
        }
    }
}

/// Indices below `n` of the folders in state `st`, ascending.
pub open spec fn indices_in(fs: Seq<IdFolder>, st: SaveState, n: int) -> Seq<usize>
    decreases n,
{
    if n <= 0 {
        seq![]
    } else if fs[n - 1].state == st {
        indices_in(fs, st, n - 1).push((n - 1) as usize)
    } else {
        indices_in(fs, st, n - 1)
    }
}

/// What to do with a group of numbered folders under one parent.
pub enum MigrationPlan {
    /// Some folder could not be classified: touch nothing (the message names them).
    Refused(String),
    /// No folder with save data, or no fresh one: nothing to do.
    Nothing,
    /// Copy the best folder with save data into each fresh folder.
    Copy { source: usize, targets: Vec<usize> },
}

fn ranks_above_exec(a: &IdFolder, b: &IdFolder) -> (r: bool)
    ensures
        r == ranks_above(*a, *b),
{
    a.files > b.files || (a.files == b.files && a.bytes > b.bytes) || (a.files == b.files && a.bytes
        == b.bytes && a.mtime_secs > b.mtime_secs) || (a.files == b.files && a.bytes == b.bytes
        && a.mtime_secs == b.mtime_secs && a.mtime_nanos > b.mtime_nanos)
}

pub open spec fn names_of(fs: Seq<IdFolder>, idx: Seq<usize>) -> Seq<Seq<char>> {
    idx.map_values(|i: usize| fs[i as int].name@)
}

proof fn lemma_indices_bound(fs: Seq<IdFolder>, st: SaveState, n: int)
    requires
        0 <= n <= fs.len(),
        fs.len() <= usize::MAX,
    ensures
        forall|k: int| 0 <= k < indices_in(fs, st, n).len() ==> (#[trigger] indices_in(fs, st, n)[k]) < n,
    decreases n,
{
    if n > 0 {
        lemma_indices_bound(fs, st, n - 1);
        let p = indices_in(fs, st, n - 1);
        if fs[n - 1].state == st {
            assert forall|k: int| 0 <= k < indices_in(fs, st, n).len() implies (#[trigger] indices_in(
                fs,
                st,
                n,
            )[k]) < n by {
                if k < p.len() {
                    assert(indices_in(fs, st, n)[k] == p[k]);
                }
            }
        }
    }
}

/// The folders a migration copies into (and those that make it refuse) are
/// exactly the folders in the given state: each listed index is one, each such
/// folder is listed, in ascending order.
pub proof fn lemma_indices_in_exact(fs: Seq<IdFolder>, st: SaveState, n: int)
    requires
        0 <= n <= fs.len(),
        fs.len() <= usize::MAX,
    ensures
        forall|t: int|
            0 <= t < indices_in(fs, st, n).len() ==> (#[trigger] indices_in(fs, st, n)[t]) < n
                && fs[indices_in(fs, st, n)[t] as int].state == st,
        forall|k: int| 0 <= k < n && (#[trigger] fs[k]).state == st ==> indices_in(fs, st, n).contains(k as usize),
        forall|t: int, u: int|
            0 <= t < u < indices_in(fs, st, n).len() ==> (#[trigger] indices_in(fs, st, n)[t]) < (#[trigger] indices_in(
                fs,
                st,
                n,
            )[u]),
    decreases n,
{
    if n > 0 {
        lemma_indices_in_exact(fs, st, n - 1);
        let p = indices_in(fs, st, n - 1);
        let q = indices_in(fs, st, n);
        if fs[n - 1].state == st {
            assert(q == p.push((n - 1) as usize));
            assert forall|t: int| 0 <= t < q.len() implies (#[trigger] q[t]) < n && fs[q[t] as int].state == st by {
                if t < p.len() {
                    assert(q[t] == p[t]);
                }
            }
            assert forall|k: int| 0 <= k < n && (#[trigger] fs[k]).state == st implies q.contains(k as usize) by {
                if k < n - 1 {
                    let t = choose|t: int| 0 <= t < p.len() && p[t] == k as usize;
                    assert(q[t] == p[t]);
                } else {
                    assert(q[p.len() as int] == (n - 1) as usize);
                }
            }
            assert forall|t: int, u: int| 0 <= t < u < q.len() implies (#[trigger] q[t]) < (#[trigger] q[u]) by {
                if u < p.len() {
                    assert(q[t] == p[t] && q[u] == p[u]);
                } else {
                    assert(q[t] == p[t]);
                }
            }
        }
    }
}

/// The migration for a group of numbered folders: refused when any is of unknown
/// state; otherwise, when there are folders with save data and fresh folders, the
/// best-ranked save folder (see `best_source`) is copied into every fresh one.
pub fn plan_migration(fs: &Vec<IdFolder>) -> (r: MigrationPlan)
    ensures
        ({
            let unknown = indices_in(fs@, SaveState::Unknown, fs@.len() as int);
            let fresh = indices_in(fs@, SaveState::FreshInstall, fs@.len() as int);
            match r {
                MigrationPlan::Refused(m) => unknown.len() > 0 && m@ == "REFUSED — ambiguous folder(s): "@
                    + crate::text::join_with(names_of(fs@, unknown), ", "@),
                MigrationPlan::Nothing => unknown.len() == 0 && (best_source(fs@, fs@.len() as int) is None
                    || fresh.len() == 0),
                MigrationPlan::Copy { source, targets } => unknown.len() == 0 && best_source(
                    fs@,
                    fs@.len() as int,
                ) == Some(source as int) && targets@ == fresh && fresh.len() > 0,
            }
        }),
{
    let ghost n = fs@.len() as int;
    let mut unknown: Vec<usize> = Vec::new();
    let mut fresh: Vec<usize> = Vec::new();
    let mut best: Option<usize> = None;
    let mut i: usize = 0;
    while i < fs.len()
        invariant
            i <= fs@.len(),
            unknown@ == indices_in(fs@, SaveState::Unknown, i as int),
            fresh@ == indices_in(fs@, SaveState::FreshInstall, i as int),
            match best {
                Some(j) => best_source(fs@, i as int) == Some(j as int),
                None => best_source(fs@, i as int) is None,
            },
            forall|j: int| best_source(fs@, i as int) == Some(j) ==> 0 <= j < i,
        decreases fs@.len() - i,
    {
        let st = fs[i].state;
        if st == SaveState::Unknown {
            unknown.push(i);
        } else if st == SaveState::FreshInstall {
            fresh.push(i);
        } else {
            best = match best {
                Some(j) => if ranks_above_exec(&fs[j], &fs[i]) { Some(j) } else { Some(i) },
                None => Some(i),
            };
        }
        i = i + 1;
    }
    if unknown.len() > 0 {
        proof {
            lemma_indices_bound(fs@, SaveState::Unknown, n);
        }
        let mut names: Vec<String> = Vec::new();
        let mut k: usize = 0;
        while k < unknown.len()
            invariant
                k <= unknown@.len(),
                unknown@ == indices_in(fs@, SaveState::Unknown, fs@.len() as int),
                forall|t: int| 0 <= t < unknown@.len() ==> (#[trigger] unknown@[t]) < fs@.len(),
                names@.map_values(|x: String| x@) == names_of(fs@, unknown@.take(k as int)),
            decreases unknown@.len() - k,
        {
            let ghost before = names@.map_values(|x: String| x@);
            let nm = fs[unknown[k]].name.clone();
            assert(nm@ == fs@[unknown@[k as int] as int].name@);
            names.push(nm);
            assert(unknown@.take(k as int + 1) =~= unknown@.take(k as int).push(unknown@[k as int]));
            assert(names_of(fs@, unknown@.take(k as int + 1)) =~= names_of(fs@, unknown@.take(k as int)).push(
                fs@[unknown@[k as int] as int].name@,
            ));
            assert(names@.map_values(|x: String| x@) =~= before.push(nm@));
            k = k + 1;
        }
        assert(unknown@.take(unknown@.len() as int) =~= unknown@);
        let joined = crate::text::join_strings(&names, ", ");
        let mut v: Vec<char> = Vec::new();
        push_str(&mut v, "REFUSED — ambiguous folder(s): ");
        push_str(&mut v, joined.as_str());
        return MigrationPlan::Refused(string_of(&v));
    }
    match best {
        Some(j) => {
            if fresh.len() == 0 {
                MigrationPlan::Nothing
            } else {
                MigrationPlan::Copy { source: j, targets: fresh }
            }
        },
        None => MigrationPlan::Nothing,
    }
}

/// The log line of one copy: `<parent>: <source> → <target>`.
pub fn migration_message(parent: &str, source: &str, target: &str) -> (r: String)
    ensures
        r@ == parent@ + ": "@ + source@ + " → "@ + target@,
{
    let mut v: Vec<char> = Vec::new();
    push_str(&mut v, parent);
    push_str(&mut v, ": ");
    push_str(&mut v, source);
    push_str(&mut v, " → ");
    push_str(&mut v, target);
    string_of(&v)
}

/// Whether any message reports a migration that ran (not one that was refused).
pub fn has_real_migration(msgs: &Vec<String>) -> (r: bool)
    ensures
        r == exists|i: int| 0 <= i < msgs@.len() && !starts_with_chars(#[trigger] msgs@[i]@, "REFUSED"@),
{
    let mut i: usize = 0;
    while i < msgs.len()
        invariant
            i <= msgs@.len(),
            forall|j: int| 0 <= j < i ==> starts_with_chars(#[trigger] msgs@[j]@, "REFUSED"@),
        decreases msgs@.len() - i,
    {
        let c = chars_of(msgs[i].as_str());
        if !starts_with_lit(&c, "REFUSED") {
            return true;
        }
        i = i + 1;
    }
    false
}

proof fn lemma_ranks_above_order(a: IdFolder, b: IdFolder, c: IdFolder)
    ensures
        !(ranks_above(a, b) && ranks_above(b, a)),
        !ranks_above(a, a),
        ranks_above(a, b) && ranks_above(b, c) ==> ranks_above(a, c),
        !ranks_above(a, b) && !ranks_above(b, c) ==> !ranks_above(a, c),
{
}

/// The chosen source of a migration has save data and no folder with save data
/// ranks above it.
pub proof fn lemma_best_source_is_best(fs: Seq<IdFolder>, n: int)
    requires
        0 <= n <= fs.len(),
    ensures
        match best_source(fs, n) {
            Some(j) => 0 <= j < n && fs[j].state == SaveState::HasSaveData && forall|k: int|
                0 <= k < n && fs[k].state == SaveState::HasSaveData ==> !#[trigger] ranks_above(fs[k], fs[j]),
            None => forall|k: int| 0 <= k < n ==> fs[k].state != SaveState::HasSaveData,
        },
    decreases n,
{
    if n > 0 {
        lemma_best_source_is_best(fs, n - 1);
        match best_source(fs, n - 1) {
            Some(j) => {
                if fs[n - 1].state == SaveState::HasSaveData {
                    if !ranks_above(fs[j], fs[n - 1]) {
                        assert forall|k: int| 0 <= k < n && fs[k].state == SaveState::HasSaveData implies !#[trigger] ranks_above(
                            fs[k],
                            fs[n - 1],
                        ) by {
                            lemma_ranks_above_order(fs[k], fs[j], fs[n - 1]);
                            if k < n - 1 {
                                assert(!ranks_above(fs[k], fs[j]));
                            }
                        }
                    } else {
                        assert forall|k: int| 0 <= k < n && fs[k].state == SaveState::HasSaveData implies !#[trigger] ranks_above(
                            fs[k],
                            fs[j],
                        ) by {
                            lemma_ranks_above_order(fs[k], fs[j], fs[n - 1]);
                        }
                    }
                }
            },
            None => {
                if fs[n - 1].state == SaveState::HasSaveData {
                    assert forall|k: int| 0 <= k < n && fs[k].state == SaveState::HasSaveData implies !#[trigger] ranks_above(
                        fs[k],
                        fs[n - 1],
                    ) by {
                        lemma_ranks_above_order(fs[k], fs[n - 1], fs[n - 1]);
                    }
                }
            },
        }
    }
}

} // verus!

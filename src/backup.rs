//! The folder layout of a destination and the rotation of its backups.
//!
//! A destination holds the live workbook, a `tmp` folder for working files and
//! a `backup` folder. Before each merge the live workbook moves into `backup`
//! under a name stamped with the time, and only the newest backups are kept.
use vstd::prelude::*;
use vstd::set_lib::{lemma_int_range, lemma_len_subset, lemma_map_size, set_int_range};
use vstd::string::StringExecFns;
use crate::text::chars_of;

verus! {

/// Name of the working folder under a destination.
pub const TMP_FOLDER: &'static str = "tmp";

/// Name of the backup folder under a destination.
pub const BACKUP_FOLDER: &'static str = "backup";

/// Name of the live workbook in a destination.
pub const RES_WORKBOOK_NAME: &'static str = "myAccTest.xlsx";

/// Name of the delta workbook in the working folder.
pub const TMP_WORKBOOK_NAME: &'static str = "tmp_mask.xlsx";

/// Backups kept after a rotation.
pub const MAX_BACKUPS: usize = 3;

/// `dir` and `name` joined with one `/` between them (none after an empty
/// `dir` or one that already ends in `/`).
pub open spec fn join_path(dir: Seq<char>, name: Seq<char>) -> Seq<char> {
    if dir.len() == 0 {
        name
    } else if dir.last() == '/' {
        dir + name
    } else {
        dir + seq!['/'] + name
    }
}

/// `dir` and `name` joined as `join_path` says.
pub fn join(dir: &str, name: &str) -> (r: String)
    ensures
        r@ == join_path(dir@, name@),
{
    let cs = chars_of(dir);
    let mut out = dir.to_owned();
    if cs.len() > 0 && cs[cs.len() - 1] != '/' {
        out.append("/");
        proof {
            reveal_strlit("/");
        }
    }
    out.append(name);
    proof {
        if cs.len() > 0 && cs@.last() != '/' {
            assert(out@ =~= dir@ + seq!['/'] + name@);
        }
    }
    out
}

/// The places a merge works with under one destination.
pub struct FolderLayout {
    /// The destination itself.
    pub base: String,
    /// The working folder.
    pub tmp: String,
    /// The backup folder.
    pub backup: String,
    /// The live workbook.
    pub live_file: String,
    /// The delta workbook.
    pub delta_file: String,
}

/// The folders and files of destination `base_path` whose live workbook is
/// named `res_file`. Each folder is to exist before a merge, and the working
/// folder is to be emptied.
pub fn prepare_folder_structure(base_path: &str, res_file: &str) -> (r: FolderLayout)
    ensures
        r.base@ == base_path@,
        r.tmp@ == join_path(base_path@, TMP_FOLDER@),
        r.backup@ == join_path(base_path@, BACKUP_FOLDER@),
        r.live_file@ == join_path(base_path@, res_file@),
        r.delta_file@ == join_path(join_path(base_path@, TMP_FOLDER@), TMP_WORKBOOK_NAME@),
{
    let tmp = join(base_path, TMP_FOLDER);
    let delta_file = join(tmp.as_str(), TMP_WORKBOOK_NAME);
    FolderLayout {
        base: base_path.to_owned(),
        tmp,
        backup: join(base_path, BACKUP_FOLDER),
        live_file: join(base_path, res_file),
        delta_file,
    }
}

/// A file in the backup folder: its name and when it was last modified.
pub struct BackupEntry {
    pub name: String,
    pub modified: u64,
}

/// Each entry as its name and modification time.
pub open spec fn entries_view(e: Seq<BackupEntry>) -> Seq<(Seq<char>, int)> {
    Seq::new(e.len(), |i: int| (e[i].name@, e[i].modified as int))
}

/// Whether a file name marks a backup: it ends in `.xlsx`.
pub open spec fn is_backup_name(s: Seq<char>) -> bool {
    s.len() >= 5 && s.subrange(s.len() - 5, s.len() as int) == seq!['.', 'x', 'l', 's', 'x']
}

/// Whether `name` is the name of a backup (see `is_backup_name`).
pub fn is_backup_file(name: &str) -> (r: bool)
    ensures
        r == is_backup_name(name@),
{
    let cs = chars_of(name);
    let n = cs.len();
    if n < 5 {
        return false;
    }
    let r = cs[n - 5] == '.' && cs[n - 4] == 'x' && cs[n - 3] == 'l' && cs[n - 2] == 's' && cs[n
        - 1] == 'x';
    assert(r == (cs@.subrange(n - 5, n as int) =~= seq!['.', 'x', 'l', 's', 'x']));
    r
}

/// Whether entry `i` of `e` is a backup.
pub open spec fn backup_at(e: Seq<(Seq<char>, int)>, i: int) -> bool {
    0 <= i < e.len() && is_backup_name(e[i].0)
}

/// Whether entry `i` counts as older than entry `j`: modified earlier, or at
/// the same time and listed first.
pub open spec fn older(e: Seq<(Seq<char>, int)>, i: int, j: int) -> bool {
    e[i].1 < e[j].1 || (e[i].1 == e[j].1 && i < j)
}

/// Number of backups among the first `n` entries.
pub open spec fn backups_before(e: Seq<(Seq<char>, int)>, n: int) -> int
    decreases n,
{
    if n <= 0 {
        0
    } else {
        backups_before(e, n - 1) + if backup_at(e, n - 1) {
            1int
        } else {
            0
        }
    }
}

/// Number of backups among the first `n` entries that are older than entry `j`.
pub open spec fn older_before(e: Seq<(Seq<char>, int)>, j: int, n: int) -> int
    decreases n,
{
    if n <= 0 {
        0
    } else {
        older_before(e, j, n - 1) + if backup_at(e, n - 1) && older(e, n - 1, j) {
            1int
        } else {
            0
        }
    }
}

/// How many backups a rotation that keeps `keep` of them deletes.
pub open spec fn excess(e: Seq<(Seq<char>, int)>, keep: int) -> int {
    let m = backups_before(e, e.len() as int);
    if m > keep {
        m - keep
    } else {
        0
    }
}

/// Whether a rotation that keeps `keep` backups deletes entry `j`: it is a
/// backup and fewer than `excess` backups are older than it.
pub open spec fn rotated_out(e: Seq<(Seq<char>, int)>, keep: int, j: int) -> bool {
    backup_at(e, j) && older_before(e, j, e.len() as int) < excess(e, keep)
}

fn is_older(entries: &Vec<BackupEntry>, i: usize, j: usize) -> (r: bool)
    requires
        i < entries@.len(),
        j < entries@.len(),
    ensures
        r == older(entries_view(entries@), i as int, j as int),
{
    entries[i].modified < entries[j].modified || (entries[i].modified == entries[j].modified
        && i < j)
}

/// Which entries are backups.
fn backup_flags(entries: &Vec<BackupEntry>) -> (r: Vec<bool>)
    ensures
        r@.len() == entries@.len(),
        forall|i: int| 0 <= i < r@.len() ==> r@[i] == backup_at(entries_view(entries@), i),
{
    let mut flags: Vec<bool> = Vec::new();
    let mut i: usize = 0;
    while i < entries.len()
        invariant
            i <= entries@.len(),
            flags@.len() == i,
            forall|k: int| 0 <= k < i ==> flags@[k] == backup_at(entries_view(entries@), k),
        decreases entries@.len() - i,
    {
        flags.push(is_backup_file(entries[i].name.as_str()));
        i = i + 1;
    }
    flags
}

/// The backups that a rotation keeping the newest `keep` deletes, in the order
/// of the listing `entries`: every backup that has at least `keep` newer ones.
pub fn backups_to_remove(entries: &Vec<BackupEntry>, keep: usize) -> (r: Vec<usize>)
    ensures
        forall|k: int| 0 <= k < r@.len() ==> (#[trigger] r@[k]) < entries@.len(),
        forall|k: int, l: int| 0 <= k < l < r@.len() ==> r@[k] < r@[l],
        forall|j: int|
            0 <= j < entries@.len() ==> (r@.contains(j as usize) <==> rotated_out(
                entries_view(entries@),
                keep as int,
                j,
            )),
{
    let ghost e = entries_view(entries@);
    let n = entries.len();
    let flags = backup_flags(entries);
    let mut m: usize = 0;
    let mut i: usize = 0;
    while i < n
        invariant
            i <= n == entries@.len() == flags@.len(),
            e == entries_view(entries@),
            forall|k: int| 0 <= k < n ==> flags@[k] == backup_at(e, k),
            m == backups_before(e, i as int),
            m <= i,
        decreases n - i,
    {
        if flags[i] {
            m = m + 1;
        }
        i = i + 1;
    }
    let extra: usize = if m > keep {
        m - keep
    } else {
        0
    };
    let mut removed: Vec<usize> = Vec::new();
    let mut j: usize = 0;
    while j < n
        invariant
            j <= n == entries@.len() == flags@.len(),
            e == entries_view(entries@),
            forall|k: int| 0 <= k < n ==> flags@[k] == backup_at(e, k),
            extra == excess(e, keep as int),
            forall|k: int| 0 <= k < removed@.len() ==> (#[trigger] removed@[k]) < j,
            forall|k: int, l: int| 0 <= k < l < removed@.len() ==> removed@[k] < removed@[l],
            forall|x: int|
                0 <= x < j ==> (removed@.contains(x as usize) <==> rotated_out(e, keep as int, x)),
        decreases n - j,
    {
        let ghost before = removed@;
        if flags[j] {
            let mut cnt: usize = 0;
            let mut k: usize = 0;
            while k < n
                invariant
                    k <= n == entries@.len() == flags@.len(),
                    j < n,
                    e == entries_view(entries@),
                    forall|q: int| 0 <= q < n ==> flags@[q] == backup_at(e, q),
                    cnt == older_before(e, j as int, k as int),
                    cnt <= k,
                decreases n - k,
            {
                if flags[k] && is_older(entries, k, j) {
                    cnt = cnt + 1;
                }
                k = k + 1;
            }
            if cnt < extra {
                removed.push(j);
            }
        }
        proof {
            assert(!before.contains(j as usize)) by {
                if before.contains(j as usize) {
                    let q = choose|q: int| 0 <= q < before.len() && before[q] == j as usize;
                }
            }
            assert(removed@ == before || removed@ == before.push(j));
            assert(removed@.contains(j as usize) <==> rotated_out(e, keep as int, j as int)) by {
                if removed@ == before.push(j) {
                    assert(removed@[before.len() as int] == j);
                }
            }
            assert forall|x: int|
                0 <= x < j implies (#[trigger] removed@.contains(x as usize) == before.contains(
                x as usize,
            )) by {
                if removed@.contains(x as usize) {
                    let q = choose|q: int| 0 <= q < removed@.len() && removed@[q] == x as usize;
                    if q < before.len() {
                        assert(before[q] == x as usize);
                    }
                }
                if before.contains(x as usize) {
                    let q = choose|q: int| 0 <= q < before.len() && before[q] == x as usize;
                    assert(removed@[q] == x as usize);
                }
            }
        }
        j = j + 1;
    }
    removed
}

/// Whether backup `i` is the newest: every other backup is older.
pub open spec fn newest_backup(e: Seq<(Seq<char>, int)>, i: int) -> bool {
    backup_at(e, i) && forall|j: int| #[trigger] backup_at(e, j) && j != i ==> older(e, j, i)
}

/// The newest backup of the listing: the latest modified, and of those the
/// last listed; `None` when the listing holds no backup.
pub fn get_latest_backup(entries: &Vec<BackupEntry>) -> (r: Option<usize>)
    ensures
        match r {
            Some(i) => newest_backup(entries_view(entries@), i as int),
            None => forall|j: int| !(#[trigger] backup_at(entries_view(entries@), j)),
        },
{
    let ghost e = entries_view(entries@);
    let mut best: Option<usize> = None;
    let mut i: usize = 0;
    while i < entries.len()
        invariant
            i <= entries@.len(),
            e == entries_view(entries@),
            match best {
                Some(b) => b < i && backup_at(e, b as int) && forall|j: int|
                    0 <= j < i && #[trigger] backup_at(e, j) && j != b ==> older(e, j, b as int),
                None => forall|j: int| 0 <= j < i ==> !(#[trigger] backup_at(e, j)),
            },
        decreases entries@.len() - i,
    {
        if is_backup_file(entries[i].name.as_str()) {
            match best {
                Some(b) => {
                    if !is_older(entries, i, b) {
                        best = Some(i);
                    }
                },
                None => {
                    best = Some(i);
                },
            }
        }
        i = i + 1;
    }
    best
}

proof fn lemma_older_before_ordered(e: Seq<(Seq<char>, int)>, a: int, b: int, n: int)
    requires
        backup_at(e, a),
        backup_at(e, b),
        older(e, a, b),
        0 <= n <= e.len(),
    ensures
        older_before(e, a, n) + (if a < n {
            1int
        } else {
            0
        }) <= older_before(e, b, n),
    decreases n,
{
    if n > 0 {
        lemma_older_before_ordered(e, a, b, n - 1);
    }
}

proof fn lemma_older_before_bound(e: Seq<(Seq<char>, int)>, j: int, n: int)
    requires
        backup_at(e, j),
        0 <= n <= e.len(),
    ensures
        0 <= older_before(e, j, n),
        older_before(e, j, n) + (if j < n {
            1int
        } else {
            0
        }) <= backups_before(e, n),
        newest_backup(e, j) ==> older_before(e, j, n) + (if j < n {
            1int
        } else {
            0
        }) == backups_before(e, n),
    decreases n,
{
    if n > 0 {
        lemma_older_before_bound(e, j, n - 1);
        if newest_backup(e, j) && backup_at(e, n - 1) && n - 1 != j {
            assert(older(e, n - 1, j));
        }
    }
}

/// The backups that remain after a rotation keeping `keep` of them.
pub open spec fn kept_after(e: Seq<(Seq<char>, int)>, keep: int) -> Set<int> {
    Set::new(|j: int| backup_at(e, j) && !rotated_out(e, keep, j))
}

/// A rotation leaves at most `keep` backups, however many there were.
pub proof fn law_rotation_bounds_backups(e: Seq<(Seq<char>, int)>, keep: int)
    requires
        keep >= 0,
    ensures
        kept_after(e, keep).finite(),
        kept_after(e, keep).len() <= keep,
{
    let n = e.len() as int;
    let m = backups_before(e, n);
    let x = excess(e, keep);
    let kept = kept_after(e, keep);
    let f = |j: int| older_before(e, j, n);
    lemma_int_range(0, n);
    assert(kept.subset_of(set_int_range(0, n)));
    lemma_len_subset(kept, set_int_range(0, n));
    assert(vstd::relations::injective_on(f, kept)) by {
        assert forall|a: int, b: int|
            kept.contains(a) && kept.contains(b) && #[trigger] f(a) == #[trigger] f(b) implies a
            == b by {
            if a != b {
                if older(e, a, b) {
                    lemma_older_before_ordered(e, a, b, n);
                } else {
                    lemma_older_before_ordered(e, b, a, n);
                }
            }
        }
    }
    lemma_map_size(kept, kept.map(f), f);
    if x <= m {
        lemma_int_range(x, m);
    }
    assert(kept.map(f).subset_of(set_int_range(x, m))) by {
        assert forall|v: int| kept.map(f).contains(v) implies set_int_range(x, m).contains(v) by {
            let j = choose|j: int| kept.contains(j) && f(j) == v;
            lemma_older_before_bound(e, j, n);
        }
    }
    if x <= m {
        lemma_len_subset(kept.map(f), set_int_range(x, m));
    } else {
        assert(kept.map(f) =~= Set::empty());
    }
}

/// A rotation that keeps at least one backup never deletes the newest, so the
/// latest backup is the same before and after it.
pub proof fn law_rotation_keeps_newest(e: Seq<(Seq<char>, int)>, keep: int, i: int)
    requires
        keep >= 1,
        newest_backup(e, i),
    ensures
        !rotated_out(e, keep, i),
        newest_backup(e, i),
{
    lemma_older_before_bound(e, i, e.len() as int);
    assert(older_before(e, i, e.len() as int) + 1 == backups_before(e, e.len() as int));
    assert(older_before(e, i, e.len() as int) >= excess(e, keep));
}

/// The UTC time `secs` seconds after the Unix epoch, written `YYYYMMDD_HHMMSS`
/// (the name stands for what chrono formats; see `utc_timestamp`).
pub uninterp spec fn utc_stamp(secs: int) -> Seq<char>;

/// Last second whose year has four digits: 9999-12-31 23:59:59 UTC.
pub const LAST_STAMP_SECOND: i64 = 253402300799;

/// Relies on chrono's `DateTime::<Utc>::from_timestamp`, which gives a time for
/// every second of years 1970 to 9999, and on its `format` with the pattern
/// `%Y%m%d_%H%M%S`, whose text depends on the second alone.
#[verifier::external_body]
fn utc_timestamp(secs: i64) -> (r: String)
    requires
        0 <= secs <= LAST_STAMP_SECOND,
    ensures
        r@ == utc_stamp(secs as int),
{
    let t = chrono::DateTime::<chrono::Utc>::from_timestamp(secs, 0).expect("second in range");
    t.format("%Y%m%d_%H%M%S").to_string()
}

/// The name of the backup stamped `stamp`: `backup_<stamp>.xlsx`.
pub open spec fn backup_name(stamp: Seq<char>) -> Seq<char> {
    seq!['b', 'a', 'c', 'k', 'u', 'p', '_'] + stamp + seq!['.', 'x', 'l', 's', 'x']
}

/// The file name of a backup stamped `stamp`.
pub fn backup_name_for(stamp: &str) -> (r: String)
    ensures
        r@ == backup_name(stamp@),
        is_backup_name(r@),
{
    let mut r = "backup_".to_owned();
    r.append(stamp);
    r.append(".xlsx");
    proof {
        reveal_strlit("backup_");
        reveal_strlit(".xlsx");
        assert(r@ =~= backup_name(stamp@));
        let n = r@.len();
        assert(r@.subrange(n - 5, n as int) =~= seq!['.', 'x', 'l', 's', 'x']);
    }
    r
}

/// The file name of a backup made `secs` seconds after the Unix epoch, or
/// `None` for a second outside years 1970 to 9999.
pub fn backup_file_name(secs: i64) -> (r: Option<String>)
    ensures
        match r {
            Some(name) => 0 <= secs <= LAST_STAMP_SECOND && name@ == backup_name(
                utc_stamp(secs as int),
            ),
            None => !(0 <= secs <= LAST_STAMP_SECOND),
        },
{
    if secs < 0 || secs > LAST_STAMP_SECOND {
        return None;
    }
    let stamp = utc_timestamp(secs);
    Some(backup_name_for(stamp.as_str()))
}

} // verus!

use vstd::prelude::*;
use crate::text::{chars_of, push_char};

verus! {

/// Length of the top-files list when a request names none.
pub const DEFAULT_LIMIT: usize = 20;

/// Age, in days, beyond which a file is stale by default.
pub const DEFAULT_STALE_DAYS: u64 = 90;

pub const SECONDS_PER_DAY: u64 = 86400;

/// What to scan and how to report it.
pub struct ScanRequest {
    pub root: String,
    /// Length of the top-files list; `DEFAULT_LIMIT` when absent.
    pub limit: Option<usize>,
    /// Files below this size are left out of the top and stale lists.
    pub min_size: Option<u64>,
    /// Age threshold of the stale list; `DEFAULT_STALE_DAYS` when absent.
    pub stale_days: Option<u64>,
}

impl ScanRequest {
    pub fn new(root: &str) -> (r: ScanRequest)
        ensures
            r.root@ == root@,
            r.limit is None,
            r.min_size is None,
            r.stale_days is None,
    {
        ScanRequest { root: root.to_owned(), limit: None, min_size: None, stale_days: None }
    }
}

/// One regular file seen by the walk; `modified_at` in seconds since the epoch.
pub struct FileRecord {
    pub path: String,
    pub size_bytes: u64,
    pub extension: Option<String>,
    pub modified_at: u64,
}

pub open spec fn opt_text(o: Option<String>) -> Option<Seq<char>> {
    match o {
        Some(s) => Some(s@),
        None => None,
    }
}

impl View for FileRecord {
    /// Path, size, extension, modification time.
    type V = (Seq<char>, u64, Option<Seq<char>>, u64);

    open spec fn view(&self) -> Self::V {
        (self.path@, self.size_bytes, opt_text(self.extension), self.modified_at)
    }
}

impl FileRecord {
    pub fn copy(&self) -> (r: FileRecord)
        ensures
            r@ == self@,
    {
        let extension = match &self.extension {
            Some(e) => Some(e.clone()),
            None => None,
        };
        FileRecord {
            path: self.path.clone(),
            size_bytes: self.size_bytes,
            extension,
            modified_at: self.modified_at,
        }
    }
}

/// Totals over the whole walk.
pub struct ScanSummary {
    pub total_files: u64,
    pub total_bytes: u64,
    pub total_dirs: u64,
}

/// Count and size of the files of one extension.
pub struct ExtensionStat {
    pub extension: String,
    pub file_count: u64,
    pub total_bytes: u64,
}

/// `c` with ASCII upper-case letters mapped to lower case.
pub open spec fn ascii_lower(c: char) -> char {
    if 'A' <= c && c <= 'Z' {
        ((c as u32) + 32) as char
    } else {
        c
    }
}

/// Index of the last `'.'` among the first `n` characters, or -1.
pub open spec fn last_dot(s: Seq<char>, n: int) -> int
    decreases n,
{
    if n <= 0 {
        -1
    } else if s[n - 1] == '.' {
        n - 1
    } else {
        last_dot(s, n - 1)
    }
}

/// The extension of a file name, lower-cased: what follows its last dot,
/// unless the name has no dot or its only dot leads it.
pub open spec fn extension_text(name: Seq<char>) -> Option<Seq<char>> {
    let d = last_dot(name, name.len() as int);
    if d <= 0 {
        None
    } else {
        Some(name.subrange(d + 1, name.len() as int).map_values(|c: char| ascii_lower(c)))
    }
}

fn lower_char(c: char) -> (r: char)
    ensures
        r == ascii_lower(c),
{
    if 'A' <= c && c <= 'Z' {
        ((c as u8) + 32) as char
    } else {
        c
    }
}

pub fn extension_of(name: &str) -> (r: Option<String>)
    ensures
        opt_text(r) == extension_text(name@),
{
    let cs = chars_of(name);
    let n = cs.len();
    let mut i: usize = n;
    while i > 0 && cs[i - 1] != '.'
        invariant
            cs@ == name@,
            i <= n == cs.len(),
            last_dot(name@, n as int) == last_dot(name@, i as int),
        decreases i,
    {
        i = i - 1;
    }
    if i <= 1 {
        return None;
    }
    let mut e = String::new();
    let mut j: usize = i;
    while j < n
        invariant
            cs@ == name@,
            i <= j <= n == cs.len(),
            e@ == name@.subrange(i as int, j as int).map_values(|c: char| ascii_lower(c)),
        decreases n - j,
    {
        push_char(&mut e, lower_char(cs[j]));
        j = j + 1;
        assert(e@ =~= name@.subrange(i as int, j as int).map_values(|c: char| ascii_lower(c)));
    }
    Some(e)
}

/// The key under which a file is counted: its extension, or `"none"`.
pub open spec fn extension_key(r: (Seq<char>, u64, Option<Seq<char>>, u64)) -> Seq<char> {
    match r.2 {
        Some(e) => e,
        None => seq!['n', 'o', 'n', 'e'],
    }
}

pub open spec fn sum_ext_bytes(s: Seq<ExtensionStat>) -> nat
    decreases s.len(),
{
    if s.len() == 0 {
        0
    } else {
        sum_ext_bytes(s.drop_last()) + s.last().total_bytes as nat
    }
}

pub open spec fn sum_ext_files(s: Seq<ExtensionStat>) -> nat
    decreases s.len(),
{
    if s.len() == 0 {
        0
    } else {
        sum_ext_files(s.drop_last()) + s.last().file_count as nat
    }
}

pub open spec fn ext_view(s: Seq<ExtensionStat>) -> Seq<(Seq<char>, u64, u64)> {
    s.map_values(|e: ExtensionStat| (e.extension@, e.file_count, e.total_bytes))
}

/// The statistics after one more file of `size` bytes under `key`.
pub open spec fn ext_step(s: Seq<(Seq<char>, u64, u64)>, key: Seq<char>, size: u64) -> Seq<
    (Seq<char>, u64, u64),
> {
    if exists|i: int| 0 <= i < s.len() && s[i].0 == key {
        let i = choose|i: int| 0 <= i < s.len() && s[i].0 == key;
        s.update(i, (key, (s[i].1 + 1) as u64, (s[i].2 + size) as u64))
    } else {
        s.push((key, 1u64, size))
    }
}

pub open spec fn records_view(s: Seq<FileRecord>) -> Seq<(Seq<char>, u64, Option<Seq<char>>, u64)> {
    s.map_values(|r: FileRecord| r@)
}

/// Sizes never grow along the sequence.
pub open spec fn is_by_size_desc(s: Seq<FileRecord>) -> bool {
    forall|i: int, j: int| 0 <= i < j < s.len() ==> s[i].size_bytes >= s[j].size_bytes
}

/// Where a file of `size` bytes enters a list ordered by size: after every
/// entry at least as large.
pub open spec fn insert_pos(s: Seq<(Seq<char>, u64, Option<Seq<char>>, u64)>, size: u64) -> int
    decreases s.len(),
{
    if s.len() == 0 {
        0
    } else if s[0].1 < size {
        0
    } else {
        1 + insert_pos(s.drop_first(), size)
    }
}

/// The top list after one more file `r`: kept at most `limit` long, ordered
/// by size, a newcomer placed after every entry at least as large, and the
/// last entry dropped only for a strictly larger file.
pub open spec fn top_step(
    s: Seq<(Seq<char>, u64, Option<Seq<char>>, u64)>,
    r: (Seq<char>, u64, Option<Seq<char>>, u64),
    limit: nat,
) -> Seq<(Seq<char>, u64, Option<Seq<char>>, u64)> {
    if limit == 0 {
        s
    } else if s.len() < limit {
        s.insert(insert_pos(s, r.1), r)
    } else if r.1 > s.last().1 {
        s.drop_last().insert(insert_pos(s.drop_last(), r.1), r)
    } else {
        s
    }
}

/// Last modified more than `days` days before `now`.
pub open spec fn is_stale(modified_at: u64, now: u64, days: u64) -> bool {
    (modified_at as int) + (days as int) * (SECONDS_PER_DAY as int) < (now as int)
}

pub fn stale(modified_at: u64, now: u64, days: u64) -> (r: bool)
    ensures
        r == is_stale(modified_at, now, days),
{
    if days > u64::MAX / SECONDS_PER_DAY {
        return false;
    }
    let age = days * SECONDS_PER_DAY;
    if age > now {
        false
    } else {
        modified_at < now - age
    }
}

proof fn lemma_insert_pos(s: Seq<(Seq<char>, u64, Option<Seq<char>>, u64)>, size: u64, pos: int)
    requires
        0 <= pos <= s.len(),
        forall|i: int| 0 <= i < pos ==> s[i].1 >= size,
        pos == s.len() || s[pos].1 < size,
    ensures
        insert_pos(s, size) == pos,
    decreases pos,
{
    if pos > 0 {
        lemma_insert_pos(s.drop_first(), size, pos - 1);
    }
}

proof fn lemma_sum_update(s: Seq<ExtensionStat>, i: int, v: ExtensionStat)
    requires
        0 <= i < s.len(),
    ensures
        sum_ext_bytes(s.update(i, v)) == sum_ext_bytes(s) - s[i].total_bytes + v.total_bytes,
        sum_ext_files(s.update(i, v)) == sum_ext_files(s) - s[i].file_count + v.file_count,
    decreases s.len(),
{
    if i == s.len() - 1 {
        assert(s.update(i, v).drop_last() =~= s.drop_last());
    } else {
        assert(s.update(i, v).drop_last() =~= s.drop_last().update(i, v));
        lemma_sum_update(s.drop_last(), i, v);
    }
}

proof fn lemma_sum_bounds(s: Seq<ExtensionStat>, i: int)
    requires
        0 <= i < s.len(),
    ensures
        s[i].total_bytes <= sum_ext_bytes(s),
        s[i].file_count <= sum_ext_files(s),
    decreases s.len(),
{
    if i < s.len() - 1 {
        lemma_sum_bounds(s.drop_last(), i);
    }
}

/// The consumers of one walk: totals, the largest files, counts by
/// extension and the stale files, fed one record at a time.
pub struct ScanAccumulator {
    pub limit: usize,
    pub min_size: u64,
    pub stale_days: u64,
    /// The time of the scan, in seconds since the epoch.
    pub now: u64,
    pub summary: ScanSummary,
    pub top_files: Vec<FileRecord>,
    pub by_extension: Vec<ExtensionStat>,
    pub stale_files: Vec<FileRecord>,
}

/// Everything a scan reports.
pub struct ScanReport {
    pub summary: ScanSummary,
    pub top_files: Vec<FileRecord>,
    pub by_extension: Vec<ExtensionStat>,
    pub stale_files: Vec<FileRecord>,
}

impl ScanAccumulator {
    pub open spec fn wf(&self) -> bool {
        &&& is_by_size_desc(self.top_files@)
        &&& self.top_files.len() <= self.limit
        &&& sum_ext_bytes(self.by_extension@) == self.summary.total_bytes
        &&& sum_ext_files(self.by_extension@) == self.summary.total_files
        &&& forall|i: int, j: int|
            0 <= i < j < self.by_extension.len() ==> self.by_extension[i].extension@
                != self.by_extension[j].extension@
    }

    /// Starts a scan at time `now`, with the request's limits or their defaults.
    pub fn new(request: &ScanRequest, now: u64) -> (r: ScanAccumulator)
        ensures
            r.wf(),
            r.limit == match request.limit {
                Some(l) => l,
                None => DEFAULT_LIMIT,
            },
            r.min_size == match request.min_size {
                Some(m) => m,
                None => 0,
            },
            r.stale_days == match request.stale_days {
                Some(d) => d,
                None => DEFAULT_STALE_DAYS,
            },
            r.now == now,
            r.summary == (ScanSummary { total_files: 0, total_bytes: 0, total_dirs: 0 }),
            r.top_files@.len() == 0,
            r.by_extension@.len() == 0,
            r.stale_files@.len() == 0,
    {
        let limit = match request.limit {
            Some(l) => l,
            None => DEFAULT_LIMIT,
        };
        let min_size = match request.min_size {
            Some(m) => m,
            None => 0,
        };
        let stale_days = match request.stale_days {
            Some(d) => d,
            None => DEFAULT_STALE_DAYS,
        };
        ScanAccumulator {
            limit,
            min_size,
            stale_days,
            now,
            summary: ScanSummary { total_files: 0, total_bytes: 0, total_dirs: 0 },
            top_files: Vec::new(),
            by_extension: Vec::new(),
            stale_files: Vec::new(),
        }
    }

    /// Counts one directory visited; `false`, and nothing changed, once the
    /// count is at `u64::MAX`.
    pub fn observe_dir(&mut self) -> (counted: bool)
        requires
            old(self).wf(),
        ensures
            final(self).wf(),
            counted == (old(self).summary.total_dirs < u64::MAX),
            counted ==> *final(self) == (ScanAccumulator {
                summary: ScanSummary {
                    total_dirs: (old(self).summary.total_dirs + 1) as u64,
                    ..old(self).summary
                },
                ..*old(self)
            }),
            !counted ==> *final(self) == *old(self),
    {
        if self.summary.total_dirs == u64::MAX {
            return false;
        }
        self.summary.total_dirs = self.summary.total_dirs + 1;
        true
    }

    fn add_to_extension(&mut self, key: String, size: u64)
        requires
            old(self).wf(),
            old(self).summary.total_files < u64::MAX,
            old(self).summary.total_bytes + size <= u64::MAX,
        ensures
            ext_view(final(self).by_extension@) == ext_step(ext_view(old(self).by_extension@), key@, size),
            sum_ext_bytes(final(self).by_extension@) == sum_ext_bytes(old(self).by_extension@) + size,
            sum_ext_files(final(self).by_extension@) == sum_ext_files(old(self).by_extension@) + 1,
            forall|i: int, j: int|
                0 <= i < j < final(self).by_extension.len() ==> final(self).by_extension[i].extension@
                    != final(self).by_extension[j].extension@,
            final(self).limit == old(self).limit,
            final(self).min_size == old(self).min_size,
            final(self).stale_days == old(self).stale_days,
            final(self).now == old(self).now,
            final(self).summary == old(self).summary,
            final(self).top_files == old(self).top_files,
            final(self).stale_files == old(self).stale_files,
    {
        let n = self.by_extension.len();
        let ghost v = ext_view(self.by_extension@);
        let mut i: usize = 0;
        while i < n && self.by_extension[i].extension != key
            invariant
                n == self.by_extension.len(),
                i <= n,
                v == ext_view(self.by_extension@),
                forall|k: int| 0 <= k < i ==> self.by_extension[k].extension@ != key@,
            decreases n - i,
        {
            i = i + 1;
        }
        if i < n {
            proof {
                lemma_sum_bounds(self.by_extension@, i as int);
                assert(v[i as int].0 == key@);
                let c = choose|c: int| 0 <= c < v.len() && v[c].0 == key@;
                assert(c == i);
            }
            let mut st = ExtensionStat { extension: String::new(), file_count: 0, total_bytes: 0 };
            self.by_extension.set_and_swap(i, &mut st);
            let ghost before = self.by_extension@;
            st.file_count = st.file_count + 1;
            st.total_bytes = st.total_bytes + size;
            self.by_extension.set(i, st);
            proof {
                let old_s = old(self).by_extension@;
                assert(self.by_extension@ == old_s.update(i as int, st));
                lemma_sum_update(old_s, i as int, st);
                assert(ext_view(self.by_extension@) =~= v.update(
                    i as int,
                    (key@, (v[i as int].1 + 1) as u64, (v[i as int].2 + size) as u64),
                ));
            }
        } else {
            self.by_extension.push(ExtensionStat { extension: key, file_count: 1, total_bytes: size });
            proof {
                let old_s = old(self).by_extension@;
                assert(self.by_extension@.drop_last() =~= old_s);
                assert(ext_view(self.by_extension@) =~= v.push((key@, 1u64, size)));
            }
        }
    }

    fn add_to_top(&mut self, rec: FileRecord)
        requires
            old(self).wf(),
        ensures
            records_view(final(self).top_files@) == top_step(
                records_view(old(self).top_files@),
                rec@,
                old(self).limit as nat,
            ),
            is_by_size_desc(final(self).top_files@),
            final(self).top_files.len() <= final(self).limit,
            final(self).limit == old(self).limit,
            final(self).min_size == old(self).min_size,
            final(self).stale_days == old(self).stale_days,
            final(self).now == old(self).now,
            final(self).summary == old(self).summary,
            final(self).by_extension == old(self).by_extension,
            final(self).stale_files == old(self).stale_files,
    {
        let ghost old_view = records_view(self.top_files@);
        if self.limit == 0 {
            return;
        }
        let n = self.top_files.len();
        if n >= self.limit {
            if rec.size_bytes <= self.top_files[n - 1].size_bytes {
                return;
            }
            self.top_files.pop();
            assert(records_view(self.top_files@) =~= old_view.drop_last());
        }
        let ghost base = self.top_files@;
        let m = self.top_files.len();
        let mut pos: usize = 0;
        while pos < m && self.top_files[pos].size_bytes >= rec.size_bytes
            invariant
                m == self.top_files.len(),
                pos <= m,
                forall|i: int| 0 <= i < pos ==> self.top_files[i].size_bytes >= rec.size_bytes,
            decreases m - pos,
        {
            pos = pos + 1;
        }
        proof {
            lemma_insert_pos(records_view(base), rec.size_bytes, pos as int);
        }
        let ghost rv = rec@;
        self.top_files.insert(pos, rec);
        assert(records_view(self.top_files@) =~= records_view(base).insert(pos as int, rv));
        assert(is_by_size_desc(self.top_files@)) by {
            assert forall|i: int, j: int| 0 <= i < j < self.top_files.len() implies self.top_files[i].size_bytes
                >= self.top_files[j].size_bytes by {
                if i < pos && j > pos {
                    assert(base[i].size_bytes >= base[j - 1].size_bytes);
                } else if i == pos && j > pos {
                    assert(base[pos as int].size_bytes >= base[j - 1].size_bytes);
                } else if i > pos {
                    assert(base[i - 1].size_bytes >= base[j - 1].size_bytes);
                }
            }
        }
    }

    /// Counts one regular file. Returns `false`, with nothing changed, where
    /// the file or byte total would pass `u64::MAX`. Otherwise the totals
    /// grow by one file and its size, its extension's statistics follow
    /// `ext_step`, and, if the file is at least `min_size` bytes, the top
    /// list follows `top_step` and a stale file joins the stale list.
    pub fn observe_file(&mut self, rec: FileRecord) -> (counted: bool)
        requires
            old(self).wf(),
        ensures
            final(self).wf(),
            counted == (old(self).summary.total_files < u64::MAX && old(self).summary.total_bytes
                + rec.size_bytes <= u64::MAX),
            !counted ==> *final(self) == *old(self),
            counted ==> final(self).summary == (ScanSummary {
                total_files: (old(self).summary.total_files + 1) as u64,
                total_bytes: (old(self).summary.total_bytes + rec.size_bytes) as u64,
                total_dirs: old(self).summary.total_dirs,
            }),
            counted ==> ext_view(final(self).by_extension@) == ext_step(
                ext_view(old(self).by_extension@),
                extension_key(rec@),
                rec.size_bytes,
            ),
            counted ==> records_view(final(self).top_files@) == if rec.size_bytes >= old(
                self,
            ).min_size {
                top_step(records_view(old(self).top_files@), rec@, old(self).limit as nat)
            } else {
                records_view(old(self).top_files@)
            },
            counted ==> records_view(final(self).stale_files@) == if rec.size_bytes >= old(
                self,
            ).min_size && is_stale(rec.modified_at, old(self).now, old(self).stale_days) {
                records_view(old(self).stale_files@).push(rec@)
            } else {
                records_view(old(self).stale_files@)
            },
            final(self).limit == old(self).limit,
            final(self).min_size == old(self).min_size,
            final(self).stale_days == old(self).stale_days,
            final(self).now == old(self).now,
    {
        if self.summary.total_files == u64::MAX || self.summary.total_bytes > u64::MAX
            - rec.size_bytes {
            return false;
        }
        let key = match &rec.extension {
            Some(e) => e.clone(),
            None => {
                let mut k = String::new();
                push_char(&mut k, 'n');
                push_char(&mut k, 'o');
                push_char(&mut k, 'n');
                push_char(&mut k, 'e');
                assert(k@ =~= seq!['n', 'o', 'n', 'e']);
                k
            },
        };
        let size = rec.size_bytes;
        self.add_to_extension(key, size);
        self.summary.total_files = self.summary.total_files + 1;
        self.summary.total_bytes = self.summary.total_bytes + size;
        let ghost rv = rec@;
        let ghost old_stale = records_view(self.stale_files@);
        if size >= self.min_size {
            if stale(rec.modified_at, self.now, self.stale_days) {
                self.stale_files.push(rec.copy());
                assert(records_view(self.stale_files@) =~= old_stale.push(rv));
            }
            self.add_to_top(rec);
        }
        true
    }

    /// Ends the scan. The bytes counted under the extensions add up to the
    /// total bytes scanned, the files to the file count, and the top list
    /// is at most `limit` long, ordered by size.
    pub fn finish(self) -> (r: ScanReport)
        requires
            self.wf(),
        ensures
            r.summary == self.summary,
            r.top_files == self.top_files,
            r.by_extension == self.by_extension,
            r.stale_files == self.stale_files,
            sum_ext_bytes(r.by_extension@) == r.summary.total_bytes,
            sum_ext_files(r.by_extension@) == r.summary.total_files,
            r.top_files.len() <= self.limit,
            is_by_size_desc(r.top_files@),
    {
        ScanReport {
            summary: self.summary,
            top_files: self.top_files,
            by_extension: self.by_extension,
            stale_files: self.stale_files,
        }
    }
}

/// Turns a size threshold in MiB into bytes, capped at `u64::MAX`.
pub fn min_size_from_mb(min_size_mb: Option<u64>) -> (r: Option<u64>)
    ensures
        match min_size_mb {
            Some(mb) => r == Some(
                if mb as nat * 1048576 > u64::MAX { u64::MAX } else { (mb * 1048576) as u64 },
            ),
            None => r is None,
        },
{
    match min_size_mb {
        Some(mb) => {
            if mb > u64::MAX / 1048576 {
                Some(u64::MAX)
            } else {
                Some(mb * 1048576)
            }
        },
        None => None,
    }
}

} // verus!

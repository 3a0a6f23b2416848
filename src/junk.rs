use vstd::prelude::*;
use crate::common::{capped, lemma_insert_multiset};
use vstd::seq_lib::group_to_multiset_ensures;

verus! {

/// The closed set of junk categories.
#[derive(PartialEq, Eq, Structural, Clone, Copy, Debug)]
pub enum JunkKind {
    SystemCache,
    AppLogs,
    Trash,
    TempFiles,
    XcodeDerived,
    NpmCache,
}

pub open spec fn kind_id(k: JunkKind) -> Seq<char> {
    match k {
        JunkKind::SystemCache => "system_cache"@,
        JunkKind::AppLogs => "app_logs"@,
        JunkKind::Trash => "trash"@,
        JunkKind::TempFiles => "temp_files"@,
        JunkKind::XcodeDerived => "xcode_derived"@,
        JunkKind::NpmCache => "npm_cache"@,
    }
}

pub open spec fn kind_name(k: JunkKind) -> Seq<char> {
    match k {
        JunkKind::SystemCache => "System & App Cache"@,
        JunkKind::AppLogs => "Application Logs"@,
        JunkKind::Trash => "Trash Bin"@,
        JunkKind::TempFiles => "Temporary Files"@,
        JunkKind::XcodeDerived => "Xcode Derived Data"@,
        JunkKind::NpmCache => "npm/Yarn Cache"@,
    }
}

pub open spec fn kind_description(k: JunkKind) -> Seq<char> {
    match k {
        JunkKind::SystemCache => "Temporary cached data from applications and macOS"@,
        JunkKind::AppLogs => "Log files generated by applications"@,
        JunkKind::Trash => "Files you've deleted but not emptied from Trash"@,
        JunkKind::TempFiles => "System temp files in /tmp and /var/tmp"@,
        JunkKind::XcodeDerived => "Build artifacts from Xcode projects"@,
        JunkKind::NpmCache => "Cached packages from npm and Yarn"@,
    }
}

/// The category an identifier names, if any.
pub open spec fn kind_of_id(id: Seq<char>) -> Option<JunkKind> {
    if id == "system_cache"@ {
        Some(JunkKind::SystemCache)
    } else if id == "app_logs"@ {
        Some(JunkKind::AppLogs)
    } else if id == "trash"@ {
        Some(JunkKind::Trash)
    } else if id == "temp_files"@ {
        Some(JunkKind::TempFiles)
    } else if id == "xcode_derived"@ {
        Some(JunkKind::XcodeDerived)
    } else if id == "npm_cache"@ {
        Some(JunkKind::NpmCache)
    } else {
        None
    }
}

/// The directories of a category, under the home directory `home`.
pub open spec fn kind_roots(k: JunkKind, home: Seq<char>) -> Seq<Seq<char>> {
    match k {
        JunkKind::SystemCache => seq![home + "/Library/Caches"@],
        JunkKind::AppLogs => seq![home + "/Library/Logs"@],
        JunkKind::Trash => seq![home + "/.Trash"@],
        JunkKind::TempFiles => seq!["/tmp"@, "/var/tmp"@],
        JunkKind::XcodeDerived => seq![home + "/Library/Developer/Xcode/DerivedData"@],
        JunkKind::NpmCache => seq![home + "/.npm/_cacache"@, home + "/Library/Caches/Yarn"@],
    }
}

fn text(s: &str) -> (r: String)
    ensures
        r@ == s@,
{
    String::from_str(s)
}

fn under(home: &str, rest: &str) -> (r: String)
    ensures
        r@ == home@ + rest@,
{
    String::from_str(home).concat(rest)
}

impl JunkKind {
    /// Every category, in the order in which they are scanned.
    pub fn all() -> (r: Vec<JunkKind>)
        ensures
            r@ == seq![
                JunkKind::SystemCache,
                JunkKind::AppLogs,
                JunkKind::Trash,
                JunkKind::TempFiles,
                JunkKind::XcodeDerived,
                JunkKind::NpmCache,
            ],
    {
        let mut v: Vec<JunkKind> = Vec::new();
        v.push(JunkKind::SystemCache);
        v.push(JunkKind::AppLogs);
        v.push(JunkKind::Trash);
        v.push(JunkKind::TempFiles);
        v.push(JunkKind::XcodeDerived);
        v.push(JunkKind::NpmCache);
        assert(v@ =~= seq![
            JunkKind::SystemCache,
            JunkKind::AppLogs,
            JunkKind::Trash,
            JunkKind::TempFiles,
            JunkKind::XcodeDerived,
            JunkKind::NpmCache,
        ]);
        v
    }

    pub fn id(&self) -> (r: String)
        ensures
            r@ == kind_id(*self),
    {
        match self {
            JunkKind::SystemCache => text("system_cache"),
            JunkKind::AppLogs => text("app_logs"),
            JunkKind::Trash => text("trash"),
            JunkKind::TempFiles => text("temp_files"),
            JunkKind::XcodeDerived => text("xcode_derived"),
            JunkKind::NpmCache => text("npm_cache"),
        }
    }

    pub fn from_id(id: &str) -> (r: Option<JunkKind>)
        ensures
            r == kind_of_id(id@),
    {
        let s = text(id);
        if s == text("system_cache") {
            Some(JunkKind::SystemCache)
        } else if s == text("app_logs") {
            Some(JunkKind::AppLogs)
        } else if s == text("trash") {
            Some(JunkKind::Trash)
        } else if s == text("temp_files") {
            Some(JunkKind::TempFiles)
        } else if s == text("xcode_derived") {
            Some(JunkKind::XcodeDerived)
        } else if s == text("npm_cache") {
            Some(JunkKind::NpmCache)
        } else {
            None
        }
    }

    pub fn name(&self) -> (r: String)
        ensures
            r@ == kind_name(*self),
    {
        match self {
            JunkKind::SystemCache => text("System & App Cache"),
            JunkKind::AppLogs => text("Application Logs"),
            JunkKind::Trash => text("Trash Bin"),
            JunkKind::TempFiles => text("Temporary Files"),
            JunkKind::XcodeDerived => text("Xcode Derived Data"),
            JunkKind::NpmCache => text("npm/Yarn Cache"),
        }
    }

    pub fn description(&self) -> (r: String)
        ensures
            r@ == kind_description(*self),
    {
        match self {
            JunkKind::SystemCache => text("Temporary cached data from applications and macOS"),
            JunkKind::AppLogs => text("Log files generated by applications"),
            JunkKind::Trash => text("Files you've deleted but not emptied from Trash"),
            JunkKind::TempFiles => text("System temp files in /tmp and /var/tmp"),
            JunkKind::XcodeDerived => text("Build artifacts from Xcode projects"),
            JunkKind::NpmCache => text("Cached packages from npm and Yarn"),
        }
    }

    pub fn roots(&self, home: &str) -> (r: Vec<String>)
        ensures
            r@.map_values(|s: String| s@) == kind_roots(*self, home@),
    {
        let mut v: Vec<String> = Vec::new();
        match self {
            JunkKind::SystemCache => v.push(under(home, "/Library/Caches")),
            JunkKind::AppLogs => v.push(under(home, "/Library/Logs")),
            JunkKind::Trash => v.push(under(home, "/.Trash")),
            JunkKind::TempFiles => {
                v.push(text("/tmp"));
                v.push(text("/var/tmp"));
            },
            JunkKind::XcodeDerived => v.push(under(home, "/Library/Developer/Xcode/DerivedData")),
            JunkKind::NpmCache => {
                v.push(under(home, "/.npm/_cacache"));
                v.push(under(home, "/Library/Caches/Yarn"));
            },
        }
        assert(v@.map_values(|s: String| s@) =~= kind_roots(*self, home@));
        v
    }
}

/// The directories to empty for the identifiers `ids`, in order; an
/// identifier that names no category adds nothing.
pub open spec fn clean_roots(ids: Seq<Seq<char>>, home: Seq<char>) -> Seq<Seq<char>>
    decreases ids.len(),
{
    if ids.len() == 0 {
        Seq::empty()
    } else {
        clean_roots(ids.drop_last(), home) + match kind_of_id(ids.last()) {
            Some(k) => kind_roots(k, home),
            None => Seq::empty(),
        }
    }
}

pub fn clean_targets(ids: &Vec<String>, home: &str) -> (r: Vec<String>)
    ensures
        r@.map_values(|s: String| s@) == clean_roots(ids@.map_values(|s: String| s@), home@),
{
    let ghost idv = ids@.map_values(|s: String| s@);
    let mut r: Vec<String> = Vec::new();
    let n = ids.len();
    let mut i: usize = 0;
    while i < n
        invariant
            n == ids.len(),
            i <= n,
            idv == ids@.map_values(|s: String| s@),
            r@.map_values(|s: String| s@) == clean_roots(idv.take(i as int), home@),
        decreases n - i,
    {
        let ghost before = r@;
        assert(idv.take(i + 1).drop_last() =~= idv.take(i as int));
        match JunkKind::from_id(ids[i].as_str()) {
            Some(k) => {
                let mut roots = k.roots(home);
                let ghost rv = roots@;
                r.append(&mut roots);
                assert(r@.map_values(|s: String| s@) =~= before.map_values(|s: String| s@)
                    + rv.map_values(|s: String| s@));
            },
            None => {},
        }
        i = i + 1;
    }
    assert(idv.take(n as int) =~= idv);
    r
}

/// What became of one top-level entry of a directory being emptied.
pub enum DeleteOutcome {
    /// Removed; `size_bytes` is the entry's size read just before removal.
    Removed { size_bytes: u64 },
    /// Not removed, with a message for the user.
    Failed { message: String },
}

/// What a clean reports.
pub struct CleanResult {
    pub freed_bytes: u64,
    pub deleted_count: u32,
    pub errors: Vec<String>,
}

/// At most this many error messages are reported.
pub const MAX_CLEAN_ERRORS: usize = 10;

pub open spec fn freed_total(s: Seq<DeleteOutcome>) -> nat
    decreases s.len(),
{
    if s.len() == 0 {
        0
    } else {
        freed_total(s.drop_last()) + match s.last() {
            DeleteOutcome::Removed { size_bytes } => size_bytes as nat,
            DeleteOutcome::Failed { .. } => 0,
        }
    }
}

pub open spec fn removed_count(s: Seq<DeleteOutcome>) -> nat
    decreases s.len(),
{
    if s.len() == 0 {
        0
    } else {
        removed_count(s.drop_last()) + match s.last() {
            DeleteOutcome::Removed { .. } => 1nat,
            DeleteOutcome::Failed { .. } => 0,
        }
    }
}

pub open spec fn failure_messages(s: Seq<DeleteOutcome>) -> Seq<Seq<char>>
    decreases s.len(),
{
    if s.len() == 0 {
        Seq::empty()
    } else {
        match s.last() {
            DeleteOutcome::Removed { .. } => failure_messages(s.drop_last()),
            DeleteOutcome::Failed { message } => failure_messages(s.drop_last()).push(message@),
        }
    }
}

pub open spec fn first_errors(m: Seq<Seq<char>>) -> Seq<Seq<char>> {
    if m.len() <= MAX_CLEAN_ERRORS { m } else { m.take(MAX_CLEAN_ERRORS as int) }
}

/// Folds the outcomes of a clean into its report: the bytes and the count
/// of removed entries (each capped at its type's maximum) and the first
/// `MAX_CLEAN_ERRORS` failure messages.
pub fn summarize_clean(outcomes: &Vec<DeleteOutcome>) -> (r: CleanResult)
    ensures
        r.freed_bytes == capped(freed_total(outcomes@)),
        r.deleted_count == if removed_count(outcomes@) > u32::MAX { u32::MAX as nat } else {
            removed_count(outcomes@)
        },
        r.errors@.map_values(|s: String| s@) == first_errors(failure_messages(outcomes@)),
{
    let mut freed: u64 = 0;
    let mut count: u32 = 0;
    let mut errors: Vec<String> = Vec::new();
    let n = outcomes.len();
    let mut i: usize = 0;
    while i < n
        invariant
            n == outcomes.len(),
            i <= n,
            freed == capped(freed_total(outcomes@.take(i as int))),
            count == if removed_count(outcomes@.take(i as int)) > u32::MAX { u32::MAX as nat } else {
                removed_count(outcomes@.take(i as int))
            },
            errors@.map_values(|s: String| s@) == first_errors(failure_messages(outcomes@.take(i as int))),
        decreases n - i,
    {
        assert(outcomes@.take(i + 1).drop_last() =~= outcomes@.take(i as int));
        assert(outcomes@.take(i + 1).last() == outcomes@[i as int]);
        let ghost before = errors@;
        match &outcomes[i] {
            DeleteOutcome::Removed { size_bytes } => {
                if freed > u64::MAX - *size_bytes {
                    freed = u64::MAX;
                } else {
                    freed = freed + *size_bytes;
                }
                if count < u32::MAX {
                    count = count + 1;
                }
            },
            DeleteOutcome::Failed { message } => {
                if errors.len() < MAX_CLEAN_ERRORS {
                    errors.push(message.clone());
                    assert(errors@.map_values(|s: String| s@) =~= before.map_values(|s: String| s@).push(message@));
                }
                proof {
                    let m = failure_messages(outcomes@.take(i as int));
                    if m.len() >= MAX_CLEAN_ERRORS {
                        assert(first_errors(m.push(message@)) =~= first_errors(m));
                    } else {
                        assert(first_errors(m.push(message@)) =~= m.push(message@));
                    }
                }
            },
        }
        i = i + 1;
    }
    assert(outcomes@.take(n as int) =~= outcomes@);
    CleanResult { freed_bytes: freed, deleted_count: count, errors }
}

/// One regular file found under a category's directories.
pub struct JunkItem {
    pub path: String,
    pub size_bytes: u64,
}

/// A category as reported: its total size and the files found.
pub struct JunkCategory {
    pub id: String,
    pub name: String,
    pub description: String,
    pub size_bytes: u64,
    pub items: Vec<JunkItem>,
}

/// What the walk of one category's directories found. `root_found` tells
/// whether any of its directories exists.
pub struct JunkScan {
    pub kind: JunkKind,
    pub root_found: bool,
    pub items: Vec<JunkItem>,
}

pub open spec fn items_total(s: Seq<JunkItem>) -> nat
    decreases s.len(),
{
    if s.len() == 0 {
        0
    } else {
        items_total(s.drop_last()) + s.last().size_bytes as nat
    }
}

/// The size of a category: the sum of its files, capped at `u64::MAX`.
pub open spec fn scan_size(s: JunkScan) -> nat {
    capped(items_total(s.items@))
}

/// Whether a category is reported: Xcode derived data only where its
/// directory exists, the package caches only where they hold something,
/// every other category always.
pub open spec fn is_reported(s: JunkScan) -> bool {
    match s.kind {
        JunkKind::XcodeDerived => s.root_found,
        JunkKind::NpmCache => scan_size(s) > 0,
        _ => true,
    }
}

/// The scans that are reported, in order.
pub open spec fn reported_scans(s: Seq<JunkScan>) -> Seq<JunkScan>
    decreases s.len(),
{
    if s.len() == 0 {
        Seq::empty()
    } else if is_reported(s.last()) {
        reported_scans(s.drop_last()).push(s.last())
    } else {
        reported_scans(s.drop_last())
    }
}

/// `c` is the category made of the scan `s`.
pub open spec fn is_category_of(c: JunkCategory, s: JunkScan) -> bool {
    &&& c.id@ == kind_id(s.kind)
    &&& c.name@ == kind_name(s.kind)
    &&& c.description@ == kind_description(s.kind)
    &&& c.size_bytes == scan_size(s)
    &&& c.items == s.items
}

pub open spec fn is_by_size_desc(s: Seq<JunkCategory>) -> bool {
    forall|i: int, j: int| 0 <= i < j < s.len() ==> s[i].size_bytes >= s[j].size_bytes
}

pub fn items_size(items: &Vec<JunkItem>) -> (r: u64)
    ensures
        r == capped(items_total(items@)),
{
    let mut total: u64 = 0;
    let n = items.len();
    let mut i: usize = 0;
    while i < n
        invariant
            n == items.len(),
            i <= n,
            total == capped(items_total(items@.take(i as int))),
        decreases n - i,
    {
        assert(items@.take(i + 1).drop_last() =~= items@.take(i as int));
        let s = items[i].size_bytes;
        if total > u64::MAX - s {
            total = u64::MAX;
        } else {
            total = total + s;
        }
        i = i + 1;
    }
    assert(items@.take(n as int) =~= items@);
    total
}

/// The categories of size `v`, in order.
pub open spec fn of_size(s: Seq<JunkCategory>, v: u64) -> Seq<JunkCategory>
    decreases s.len(),
{
    if s.len() == 0 {
        Seq::empty()
    } else if s.last().size_bytes == v {
        of_size(s.drop_last(), v).push(s.last())
    } else {
        of_size(s.drop_last(), v)
    }
}

proof fn lemma_of_size_add(a: Seq<JunkCategory>, b: Seq<JunkCategory>, v: u64)
    ensures
        of_size(a + b, v) == of_size(a, v) + of_size(b, v),
    decreases b.len(),
{
    if b.len() == 0 {
        assert(a + b =~= a);
        assert(of_size(a, v) + of_size(b, v) =~= of_size(a, v));
    } else {
        assert((a + b).drop_last() =~= a + b.drop_last());
        lemma_of_size_add(a, b.drop_last(), v);
        if b.last().size_bytes == v {
            assert(of_size(a, v) + of_size(b, v) =~= (of_size(a, v) + of_size(b.drop_last(), v)).push(
                b.last(),
            ));
        }
    }
}

proof fn lemma_of_size_none(s: Seq<JunkCategory>, v: u64)
    requires
        forall|i: int| 0 <= i < s.len() ==> s[i].size_bytes != v,
    ensures
        of_size(s, v) == Seq::<JunkCategory>::empty(),
    decreases s.len(),
{
    if s.len() > 0 {
        lemma_of_size_none(s.drop_last(), v);
    }
}

proof fn lemma_of_size_one(x: JunkCategory, v: u64)
    ensures
        of_size(seq![x], v) == if x.size_bytes == v { seq![x] } else { Seq::<JunkCategory>::empty() },
{
    assert(seq![x].drop_last() =~= Seq::<JunkCategory>::empty());
    assert(seq![x].last() == x);
    assert(of_size(Seq::<JunkCategory>::empty(), v) == Seq::<JunkCategory>::empty());
    assert(Seq::<JunkCategory>::empty().push(x) =~= seq![x]);
}

/// Orders categories by size, largest first, keeping the input order
/// among equal sizes.
pub fn sort_by_size_desc(cats: &mut Vec<JunkCategory>)
    ensures
        final(cats)@.to_multiset() == old(cats)@.to_multiset(),
        is_by_size_desc(final(cats)@),
        forall|v: u64| #[trigger] of_size(final(cats)@, v) == of_size(old(cats)@, v),
{
    broadcast use group_to_multiset_ensures;

    let mut out: Vec<JunkCategory> = Vec::new();
    let ghost orig = cats@;
    assert forall|v: u64| #[trigger] of_size(orig, v) == of_size(out@, v) + of_size(cats@, v) by {
        assert(of_size(out@, v) + of_size(cats@, v) =~= of_size(cats@, v));
    }
    while cats.len() > 0
        invariant
            out@.to_multiset().add(cats@.to_multiset()) =~= orig.to_multiset(),
            is_by_size_desc(out@),
            forall|v: u64| #[trigger] of_size(orig, v) == of_size(out@, v) + of_size(cats@, v),
        decreases cats.len(),
    {
        let ghost rest = cats@;
        let x = cats.remove(0);
        assert(rest[0] == x);
        assert(rest.contains(x));
        assert(cats@ == rest.remove(0));
        proof {
            rest.to_multiset_ensures();
        }
        let mut pos: usize = 0;
        while pos < out.len() && out[pos].size_bytes >= x.size_bytes
            invariant
                pos <= out.len(),
                forall|i: int| 0 <= i < pos ==> out[i].size_bytes >= x.size_bytes,
            decreases out.len() - pos,
        {
            pos = pos + 1;
        }
        let ghost before = out@;
        proof {
            lemma_insert_multiset(before, pos as int, x);
        }
        out.insert(pos, x);
        assert(out@.to_multiset().add(cats@.to_multiset()) =~= before.to_multiset().add(
            rest.to_multiset(),
        ));
        assert forall|v: u64| #[trigger] of_size(orig, v) == of_size(out@, v) + of_size(cats@, v) by {
            let head = before.take(pos as int);
            let tail = before.skip(pos as int);
            assert(before =~= head + tail);
            assert(out@ =~= head + (seq![x] + tail));
            assert(rest =~= seq![x] + cats@);
            lemma_of_size_add(head, tail, v);
            lemma_of_size_add(seq![x], tail, v);
            lemma_of_size_add(head, seq![x] + tail, v);
            lemma_of_size_add(seq![x], cats@, v);
            lemma_of_size_one(x, v);
            assert(of_size(orig, v) == of_size(before, v) + of_size(rest, v));
            if x.size_bytes == v {
                lemma_of_size_none(tail, v);
                assert(of_size(out@, v) + of_size(cats@, v) =~= of_size(before, v) + of_size(rest, v));
            } else {
                assert(of_size(out@, v) + of_size(cats@, v) =~= of_size(before, v) + of_size(rest, v));
            }
        }
        assert(is_by_size_desc(out@)) by {
            assert forall|i: int, j: int| 0 <= i < j < out.len() implies out[i].size_bytes
                >= out[j].size_bytes by {
                if i < pos && j > pos {
                    assert(before[i].size_bytes >= before[j - 1].size_bytes);
                } else if i > pos {
                    assert(before[i - 1].size_bytes >= before[j - 1].size_bytes);
                }
            }
        }
    }
    assert(cats@.to_multiset() =~= vstd::multiset::Multiset::empty());
    assert forall|v: u64| #[trigger] of_size(out@, v) == of_size(orig, v) by {
        assert(of_size(out@, v) + of_size(cats@, v) =~= of_size(out@, v));
    }
    *cats = out;
}

/// The junk report: one category for each reported scan (see
/// `is_reported`), largest first, equal sizes in scan order.
pub fn assemble_junk(scans: Vec<JunkScan>) -> (r: Vec<JunkCategory>)
    ensures
        is_by_size_desc(r@),
        exists|c: Seq<JunkCategory>|
            #![trigger c.to_multiset()]
            c.len() == reported_scans(scans@).len() && (forall|i: int|
                0 <= i < c.len() ==> is_category_of(#[trigger] c[i], reported_scans(scans@)[i]))
                && r@.to_multiset() == c.to_multiset() && (forall|v: u64|
                #[trigger] of_size(r@, v) == of_size(c, v)),
{
    let ghost orig = scans@;
    let mut scans = scans;
    let n = scans.len();
    let mut cats: Vec<JunkCategory> = Vec::new();
    let mut i: usize = 0;
    while i < n
        invariant
            n == scans.len() == orig.len(),
            i <= n,
            forall|k: int| i <= k < n ==> scans[k] == orig[k],
            cats.len() == reported_scans(orig.take(i as int)).len(),
            forall|k: int|
                0 <= k < cats.len() ==> is_category_of(
                    #[trigger] cats[k],
                    reported_scans(orig.take(i as int))[k],
                ),
        decreases n - i,
    {
        assert(orig.take(i + 1).drop_last() =~= orig.take(i as int));
        assert(orig.take(i + 1).last() == orig[i as int]);
        let mut sc = JunkScan { kind: JunkKind::Trash, root_found: false, items: Vec::new() };
        scans.set_and_swap(i, &mut sc);
        assert(sc == orig[i as int]);
        let size = items_size(&sc.items);
        let keep = match sc.kind {
            JunkKind::XcodeDerived => sc.root_found,
            JunkKind::NpmCache => size > 0,
            _ => true,
        };
        if keep {
            let kind = sc.kind;
            cats.push(
                JunkCategory {
                    id: kind.id(),
                    name: kind.name(),
                    description: kind.description(),
                    size_bytes: size,
                    items: sc.items,
                },
            );
        }
        i = i + 1;
    }
    assert(orig.take(n as int) =~= orig);
    sort_by_size_desc(&mut cats);
    cats
}

} // verus!

use vstd::prelude::*;
use crate::common::capped;
use crate::scan::last_dot;
use crate::text::{chars_of, push_char};
use crate::tokens::{lines, parse_number, parse_unsigned, split_lines, split_words, words};

verus! {

/// Sizes of a filesystem as `df -k` reports them, in bytes.
pub struct DiskTotals {
    pub total_bytes: u64,
    pub used_bytes: u64,
    pub free_bytes: u64,
}

#[derive(PartialEq, Eq, Structural, Clone, Copy, Debug)]
pub enum DfError {
    /// Fewer than two lines.
    UnexpectedOutput,
    /// The second line has fewer than four fields.
    CannotParse,
}

impl DfError {
    pub fn message(&self) -> (r: String)
        ensures
            r@ == match self {
                DfError::UnexpectedOutput => "Unexpected df output"@,
                DfError::CannotParse => "Cannot parse df output"@,
            },
    {
        match self {
            DfError::UnexpectedOutput => String::from_str("Unexpected df output"),
            DfError::CannotParse => String::from_str("Cannot parse df output"),
        }
    }
}

/// A field counted in KiB, in bytes: an unreadable count is 0, and the
/// product is capped at `u64::MAX`.
pub open spec fn kib_field(w: Seq<char>) -> nat {
    capped(
        match parse_unsigned(w, u64::MAX as nat) {
            Some(v) => v,
            None => 0,
        } * 1024,
    )
}

fn kib_to_bytes(w: &Vec<char>) -> (r: u64)
    ensures
        r == kib_field(w@),
{
    let v = match parse_number(w, u64::MAX) {
        Some(v) => v,
        None => 0,
    };
    if v > u64::MAX / 1024 {
        u64::MAX
    } else {
        v * 1024
    }
}

/// Reads the totals from the output of `df -k`: the second, third and
/// fourth fields of its second line.
pub fn parse_df(output: &str) -> (r: Result<DiskTotals, DfError>)
    ensures
        (r == Err::<DiskTotals, DfError>(DfError::UnexpectedOutput)) == (lines(output@).len() < 2),
        (r == Err::<DiskTotals, DfError>(DfError::CannotParse)) == (lines(output@).len() >= 2 && words(
            lines(output@)[1],
        ).len() < 4),
        r is Ok ==> {
            let w = words(lines(output@)[1]);
            &&& r->Ok_0.total_bytes == kib_field(w[1])
            &&& r->Ok_0.used_bytes == kib_field(w[2])
            &&& r->Ok_0.free_bytes == kib_field(w[3])
        },
{
    let cs = chars_of(output);
    let ls = split_lines(&cs);
    assert(ls@.map_values(|w: Vec<char>| w@).len() == ls.len());
    if ls.len() < 2 {
        return Err(DfError::UnexpectedOutput);
    }
    assert(ls@.map_values(|w: Vec<char>| w@)[1] == ls@[1]@);
    let ws = split_words(&ls[1]);
    assert(ws@.map_values(|w: Vec<char>| w@).len() == ws.len());
    if ws.len() < 4 {
        return Err(DfError::CannotParse);
    }
    assert(ws@.map_values(|w: Vec<char>| w@)[1] == ws@[1]@);
    assert(ws@.map_values(|w: Vec<char>| w@)[2] == ws@[2]@);
    assert(ws@.map_values(|w: Vec<char>| w@)[3] == ws@[3]@);
    Ok(
        DiskTotals {
            total_bytes: kib_to_bytes(&ws[1]),
            used_bytes: kib_to_bytes(&ws[2]),
            free_bytes: kib_to_bytes(&ws[3]),
        },
    )
}

/// The fields of one process line of `ps -eo pid,pcpu,rss,comm`. The CPU
/// share and the resident size are left as text.
pub struct ProcessRow {
    pub pid: u32,
    pub cpu_text: String,
    pub rss_text: String,
    pub name: String,
    pub command: String,
}

/// Words joined by single spaces.
pub open spec fn joined(ws: Seq<Seq<char>>) -> Seq<char>
    decreases ws.len(),
{
    if ws.len() == 0 {
        Seq::empty()
    } else if ws.len() == 1 {
        ws[0]
    } else {
        joined(ws.drop_last()) + seq![' '] + ws.last()
    }
}

/// Index of the last `'/'` among the first `n` characters, or -1.
pub open spec fn last_slash(s: Seq<char>, n: int) -> int
    decreases n,
{
    if n <= 0 {
        -1
    } else if s[n - 1] == '/' {
        n - 1
    } else {
        last_slash(s, n - 1)
    }
}

/// What follows the last `'/'`, or all of `s`.
pub open spec fn after_last_slash(s: Seq<char>) -> Seq<char> {
    s.skip(last_slash(s, s.len() as int) + 1)
}

/// A process line as fields: pid (0 where unreadable), CPU text, resident
/// size text, program name, command; `None` for fewer than four fields.
pub open spec fn process_fields(line: Seq<char>) -> Option<(u32, Seq<char>, Seq<char>, Seq<char>, Seq<char>)> {
    let w = words(line);
    if w.len() < 4 {
        None
    } else {
        let command = joined(w.skip(3));
        Some(
            (
                match parse_unsigned(w[0], u32::MAX as nat) {
                    Some(v) => v as u32,
                    None => 0u32,
                },
                w[1],
                w[2],
                after_last_slash(command),
                command,
            ),
        )
    }
}

pub open spec fn row_view(r: ProcessRow) -> (u32, Seq<char>, Seq<char>, Seq<char>, Seq<char>) {
    (r.pid, r.cpu_text@, r.rss_text@, r.name@, r.command@)
}

fn copy_chars(cs: &Vec<char>, from: usize) -> (r: String)
    requires
        from <= cs.len(),
    ensures
        r@ == cs@.skip(from as int),
{
    let mut s = String::new();
    let mut i: usize = from;
    while i < cs.len()
        invariant
            from <= i <= cs.len(),
            s@ == cs@.subrange(from as int, i as int),
        decreases cs.len() - i,
    {
        push_char(&mut s, cs[i]);
        i = i + 1;
        assert(s@ =~= cs@.subrange(from as int, i as int));
    }
    s
}

fn join_words(ws: &Vec<Vec<char>>, from: usize) -> (r: Vec<char>)
    requires
        from <= ws.len(),
    ensures
        r@ == joined(ws@.map_values(|w: Vec<char>| w@).skip(from as int)),
{
    let ghost v = ws@.map_values(|w: Vec<char>| w@);
    let mut r: Vec<char> = Vec::new();
    let mut i: usize = from;
    assert(v.skip(from as int).take(0) =~= Seq::<Seq<char>>::empty());
    while i < ws.len()
        invariant
            from <= i <= ws.len(),
            v == ws@.map_values(|w: Vec<char>| w@),
            r@ == joined(v.skip(from as int).take(i - from)),
        decreases ws.len() - i,
    {
        let ghost part = v.skip(from as int).take(i + 1 - from);
        assert(part.drop_last() =~= v.skip(from as int).take(i - from));
        assert(part.last() == ws@[i as int]@);
        if i > from {
            r.push(' ');
        }
        let w = &ws[i];
        let mut j: usize = 0;
        let ghost base = r@;
        while j < w.len()
            invariant
                j <= w.len(),
                r@ == base + w@.take(j as int),
            decreases w.len() - j,
        {
            r.push(w[j]);
            j = j + 1;
            assert(r@ =~= base + w@.take(j as int));
        }
        assert(w@.take(w.len() as int) =~= w@);
        if i == from {
            assert(part.len() == 1);
            assert(r@ =~= joined(part));
        } else {
            assert(r@ =~= joined(part));
        }
        i = i + 1;
    }
    assert(v.skip(from as int).take(ws.len() - from) =~= v.skip(from as int));
    r
}

/// The fields of one process line; see `process_fields`.
pub fn process_row(line: &Vec<char>) -> (r: Option<ProcessRow>)
    ensures
        match process_fields(line@) {
            Some(f) => r is Some && row_view(r->Some_0) == f,
            None => r is None,
        },
{
    let ws = split_words(line);
    let ghost v = ws@.map_values(|w: Vec<char>| w@);
    assert(v.len() == ws.len());
    if ws.len() < 4 {
        return None;
    }
    assert(v[0] == ws@[0]@ && v[1] == ws@[1]@ && v[2] == ws@[2]@);
    let pid: u32 = match parse_number(&ws[0], 0xffff_ffff) {
        Some(p) => p as u32,
        None => 0,
    };
    let command = join_words(&ws, 3);
    let mut k: usize = command.len();
    while k > 0 && command[k - 1] != '/'
        invariant
            k <= command.len(),
            last_slash(command@, command.len() as int) == last_slash(command@, k as int),
        decreases k,
    {
        k = k - 1;
    }
    let name = copy_chars(&command, k);
    let command_text = copy_chars(&command, 0);
    assert(command@.skip(0) =~= command@);
    Some(
        ProcessRow {
            pid,
            cpu_text: copy_chars(&ws[1], 0),
            rss_text: copy_chars(&ws[2], 0),
            name,
            command: command_text,
        },
    )
}

/// Rows listed by default.
pub const DEFAULT_PROCESS_LIMIT: usize = 20;

/// The process fields of each line, dropping lines of fewer than four fields.
pub open spec fn rows_of(ls: Seq<Seq<char>>) -> Seq<(u32, Seq<char>, Seq<char>, Seq<char>, Seq<char>)>
    decreases ls.len(),
{
    if ls.len() == 0 {
        Seq::empty()
    } else {
        match process_fields(ls.last()) {
            Some(f) => rows_of(ls.drop_last()).push(f),
            None => rows_of(ls.drop_last()),
        }
    }
}

/// The lines after the header, at most `max` of them.
pub open spec fn after_header(ls: Seq<Seq<char>>, max: nat) -> Seq<Seq<char>> {
    if ls.len() <= 1 {
        Seq::empty()
    } else if ls.len() - 1 <= max {
        ls.skip(1)
    } else {
        ls.subrange(1, 1 + max as int)
    }
}

/// The rows of `ps` output: of the first `limit` lines after the header
/// (`DEFAULT_PROCESS_LIMIT` when absent), those with four fields or more.
pub fn process_rows(output: &str, limit: Option<usize>) -> (r: Vec<ProcessRow>)
    ensures
        r@.map_values(|p: ProcessRow| row_view(p)) == rows_of(
            after_header(
                lines(output@),
                match limit {
                    Some(m) => m as nat,
                    None => DEFAULT_PROCESS_LIMIT as nat,
                },
            ),
        ),
{
    let max = match limit {
        Some(m) => m,
        None => DEFAULT_PROCESS_LIMIT,
    };
    let cs = chars_of(output);
    let ls = split_lines(&cs);
    let ghost lv = ls@.map_values(|w: Vec<char>| w@);
    let mut r: Vec<ProcessRow> = Vec::new();
    if ls.len() <= 1 {
        assert(r@.map_values(|p: ProcessRow| row_view(p)) =~= rows_of(Seq::empty()));
        return r;
    }
    let end: usize = if ls.len() - 1 <= max { ls.len() } else { 1 + max };
    let ghost window = lv.subrange(1, end as int);
    assert(window =~= after_header(lv, max as nat));
    let mut i: usize = 1;
    assert(window.take(0) =~= Seq::<Seq<char>>::empty());
    while i < end
        invariant
            1 <= i <= end <= ls.len(),
            lv == ls@.map_values(|w: Vec<char>| w@),
            window == lv.subrange(1, end as int),
            r@.map_values(|p: ProcessRow| row_view(p)) == rows_of(window.take(i - 1)),
        decreases end - i,
    {
        assert(window.take(i as int).drop_last() =~= window.take(i - 1));
        assert(window.take(i as int).last() == ls@[i as int]@);
        let ghost before = r@.map_values(|p: ProcessRow| row_view(p));
        match process_row(&ls[i]) {
            Some(row) => {
                r.push(row);
                assert(r@.map_values(|p: ProcessRow| row_view(p)) =~= before.push(
                    row_view(r@.last()),
                ));
            },
            None => {},
        }
        i = i + 1;
    }
    assert(window.take(end - 1) =~= window);
    r
}

/// A launch-agent file as listed: its name without extension, and whether
/// it is enabled.
pub struct LaunchEntry {
    pub name: String,
    pub enabled: bool,
}

/// `pat` occurs in `hay`.
pub open spec fn occurs_in(hay: Seq<char>, pat: Seq<char>) -> bool {
    exists|i: int| 0 <= i && i + pat.len() <= hay.len() && #[trigger] hay.subrange(i, i + pat.len()) == pat
}

/// For a file name with the extension `plist`: its stem, and whether the
/// stem does not hold `disabled`. `None` for any other file.
pub open spec fn launch_fields(file_name: Seq<char>) -> Option<(Seq<char>, bool)> {
    let d = last_dot(file_name, file_name.len() as int);
    if d <= 0 || file_name.skip(d + 1) != "plist"@ {
        None
    } else {
        let stem = file_name.take(d);
        Some((stem, !occurs_in(stem, "disabled"@)))
    }
}

fn occurs(hay: &Vec<char>, pat: &Vec<char>) -> (r: bool)
    ensures
        r == occurs_in(hay@, pat@),
{
    let n = hay.len();
    let m = pat.len();
    if m > n {
        return false;
    }
    let mut i: usize = 0;
    while i <= n - m
        invariant
            n == hay.len(),
            m == pat.len(),
            m <= n,
            i <= n - m + 1,
            forall|k: int| 0 <= k < i ==> #[trigger] hay@.subrange(k, k + m) != pat@,
        decreases n - m + 1 - i,
    {
        let mut j: usize = 0;
        while j < m && hay[i + j] == pat[j]
            invariant
                n == hay.len(),
                m == pat.len(),
                i + m <= n,
                j <= m,
                forall|q: int| 0 <= q < j ==> hay@[i + q] == pat@[q],
            decreases m - j,
        {
            j = j + 1;
        }
        if j == m {
            assert(hay@.subrange(i as int, i + m) =~= pat@);
            return true;
        }
        assert(hay@.subrange(i as int, i + m)[j as int] != pat@[j as int]);
        i = i + 1;
    }
    assert forall|k: int| 0 <= k && k + pat@.len() <= hay@.len() implies #[trigger] hay@.subrange(
        k,
        k + pat@.len(),
    ) != pat@ by {
        assert(k < i);
    }
    false
}

fn same_chars(a: &Vec<char>, from: usize, b: &Vec<char>) -> (r: bool)
    requires
        from <= a.len(),
    ensures
        r == (a@.skip(from as int) == b@),
{
    if a.len() - from != b.len() {
        assert(a@.skip(from as int).len() != b@.len());
        return false;
    }
    let mut j: usize = 0;
    while j < b.len()
        invariant
            from <= a.len(),
            a.len() - from == b.len(),
            j <= b.len(),
            forall|q: int| 0 <= q < j ==> a@[from + q] == b@[q],
        decreases b.len() - j,
    {
        if a[from + j] != b[j] {
            assert(a@.skip(from as int)[j as int] != b@[j as int]);
            return false;
        }
        j = j + 1;
    }
    assert(a@.skip(from as int) =~= b@);
    true
}

/// The entry listed for a file of a launch-agent directory; see `launch_fields`.
pub fn launch_entry(file_name: &str) -> (r: Option<LaunchEntry>)
    ensures
        match launch_fields(file_name@) {
            Some((stem, enabled)) => r is Some && r->Some_0.name@ == stem && r->Some_0.enabled
                == enabled,
            None => r is None,
        },
{
    let cs = chars_of(file_name);
    let n = cs.len();
    let mut i: usize = n;
    while i > 0 && cs[i - 1] != '.'
        invariant
            cs@ == file_name@,
            i <= n == cs.len(),
            last_dot(file_name@, n as int) == last_dot(file_name@, i as int),
        decreases i,
    {
        i = i - 1;
    }
    if i <= 1 {
        return None;
    }
    let d = i - 1;
    let plist = chars_of("plist");
    if !same_chars(&cs, d + 1, &plist) {
        return None;
    }
    let mut stem_chars: Vec<char> = Vec::new();
    let mut name = String::new();
    let mut k: usize = 0;
    while k < d
        invariant
            d < n == cs.len(),
            k <= d,
            stem_chars@ == cs@.take(k as int),
            name@ == cs@.take(k as int),
        decreases d - k,
    {
        stem_chars.push(cs[k]);
        push_char(&mut name, cs[k]);
        k = k + 1;
        assert(stem_chars@ =~= cs@.take(k as int));
        assert(name@ =~= cs@.take(k as int));
    }
    let disabled = chars_of("disabled");
    let enabled = !occurs(&stem_chars, &disabled);
    Some(LaunchEntry { name, enabled })
}

} // verus!

use vstd::prelude::*;

verus! {

/// Unicode `White_Space`, the set `char::is_whitespace` tests.
pub open spec fn is_space(c: char) -> bool {
    let u = c as u32;
    (9 <= u && u <= 13) || u == 32 || u == 0x85 || u == 0xA0 || u == 0x1680 || (0x2000 <= u
        && u <= 0x200A) || u == 0x2028 || u == 0x2029 || u == 0x202F || u == 0x205F || u == 0x3000
}

pub fn space(c: char) -> (r: bool)
    ensures
        r == is_space(c),
{
    let u = c as u32;
    (9 <= u && u <= 13) || u == 32 || u == 0x85 || u == 0xA0 || u == 0x1680 || (0x2000 <= u
        && u <= 0x200A) || u == 0x2028 || u == 0x2029 || u == 0x202F || u == 0x205F || u == 0x3000
}

/// First index from `k` on that holds a space, or the length.
pub open spec fn word_end(t: Seq<char>, k: int) -> int
    decreases t.len() - k,
{
    if k >= t.len() || is_space(t[k]) {
        k
    } else {
        word_end(t, k + 1)
    }
}

/// The maximal runs of non-space characters, in order.
pub open spec fn words(t: Seq<char>) -> Seq<Seq<char>>
    decreases t.len(),
{
    if t.len() == 0 {
        Seq::empty()
    } else if is_space(t[0]) {
        words(t.drop_first())
    } else {
        let j = word_end(t, 0);
        if 0 < j <= t.len() {
            seq![t.take(j)] + words(t.skip(j))
        } else {
            Seq::empty()
        }
    }
}

/// First index from `k` on that holds a line feed, or the length.
pub open spec fn line_end(t: Seq<char>, k: int) -> int
    decreases t.len() - k,
{
    if k >= t.len() || t[k] == '\n' {
        k
    } else {
        line_end(t, k + 1)
    }
}

/// The lines of a text: split at each line feed, a carriage return just
/// before it dropped; a last line feed ends the last line.
pub open spec fn lines(t: Seq<char>) -> Seq<Seq<char>>
    decreases t.len(),
{
    if t.len() == 0 {
        Seq::empty()
    } else {
        let j = line_end(t, 0);
        if 0 <= j < t.len() {
            let line = if j > 0 && t[j - 1] == '\r' { t.take(j - 1) } else { t.take(j) };
            seq![line] + lines(t.skip(j + 1))
        } else {
            seq![t]
        }
    }
}

proof fn lemma_word_end(t: Seq<char>, k: int, j: int)
    requires
        0 <= k <= j <= t.len(),
        forall|m: int| k <= m < j ==> !is_space(t[m]),
        j == t.len() || is_space(t[j]),
    ensures
        word_end(t, k) == j,
    decreases j - k,
{
    if k < j {
        lemma_word_end(t, k + 1, j);
    }
}

proof fn lemma_line_end(t: Seq<char>, k: int, j: int)
    requires
        0 <= k <= j <= t.len(),
        forall|m: int| k <= m < j ==> t[m] != '\n',
        j == t.len() || t[j] == '\n',
    ensures
        line_end(t, k) == j,
    decreases j - k,
{
    if k < j {
        lemma_line_end(t, k + 1, j);
    }
}

pub fn split_words(cs: &Vec<char>) -> (r: Vec<Vec<char>>)
    ensures
        r@.map_values(|w: Vec<char>| w@) == words(cs@),
{
    let n = cs.len();
    let mut r: Vec<Vec<char>> = Vec::new();
    let mut i: usize = 0;
    assert(cs@.skip(0) =~= cs@);
    assert(r@.map_values(|w: Vec<char>| w@) + words(cs@) =~= words(cs@));
    while i < n
        invariant
            n == cs.len(),
            i <= n,
            r@.map_values(|w: Vec<char>| w@) + words(cs@.skip(i as int)) == words(cs@),
        decreases n - i,
    {
        if space(cs[i]) {
            assert(cs@.skip(i as int).drop_first() =~= cs@.skip(i + 1));
            i = i + 1;
        } else {
            let mut w: Vec<char> = Vec::new();
            let mut j: usize = i;
            while j < n && !space(cs[j])
                invariant
                    n == cs.len(),
                    i <= j <= n,
                    w@ == cs@.subrange(i as int, j as int),
                    forall|m: int| i <= m < j ==> !is_space(cs@[m]),
                decreases n - j,
            {
                w.push(cs[j]);
                j = j + 1;
                assert(w@ =~= cs@.subrange(i as int, j as int));
            }
            let ghost t = cs@.skip(i as int);
            proof {
                lemma_word_end(t, 0, j - i);
                assert(t.take(j - i) =~= w@);
                assert(t.skip(j - i) =~= cs@.skip(j as int));
            }
            let ghost before = r@.map_values(|w: Vec<char>| w@);
            r.push(w);
            assert(r@.map_values(|w: Vec<char>| w@) =~= before.push(w@));
            assert(before.push(w@) + words(cs@.skip(j as int)) =~= before + (seq![w@] + words(
                cs@.skip(j as int),
            )));
            i = j;
        }
    }
    assert(r@.map_values(|w: Vec<char>| w@) + words(cs@.skip(n as int)) =~= r@.map_values(
        |w: Vec<char>| w@,
    ));
    r
}

pub fn split_lines(cs: &Vec<char>) -> (r: Vec<Vec<char>>)
    ensures
        r@.map_values(|w: Vec<char>| w@) == lines(cs@),
{
    let n = cs.len();
    let mut r: Vec<Vec<char>> = Vec::new();
    let mut i: usize = 0;
    assert(cs@.skip(0) =~= cs@);
    assert(r@.map_values(|w: Vec<char>| w@) + lines(cs@) =~= lines(cs@));
    while i < n
        invariant
            n == cs.len(),
            i <= n,
            r@.map_values(|w: Vec<char>| w@) + lines(cs@.skip(i as int)) == lines(cs@),
        decreases n - i,
    {
        let mut w: Vec<char> = Vec::new();
        let mut j: usize = i;
        while j < n && cs[j] != '\n'
            invariant
                n == cs.len(),
                i <= j <= n,
                w@ == cs@.subrange(i as int, j as int),
                forall|m: int| i <= m < j ==> cs@[m] != '\n',
            decreases n - j,
        {
            w.push(cs[j]);
            j = j + 1;
            assert(w@ =~= cs@.subrange(i as int, j as int));
        }
        let ghost t = cs@.skip(i as int);
        proof {
            lemma_line_end(t, 0, j - i);
        }
        let ghost before = r@.map_values(|w: Vec<char>| w@);
        if j < n {
            if j > i && cs[j - 1] == '\r' {
                w.pop();
                assert(w@ =~= t.take(j - i - 1));
            } else {
                assert(w@ =~= t.take(j - i));
            }
            assert(t.skip(j - i + 1) =~= cs@.skip(j + 1));
            r.push(w);
            assert(r@.map_values(|w: Vec<char>| w@) =~= before.push(w@));
            assert(before.push(w@) + lines(cs@.skip(j + 1)) =~= before + (seq![w@] + lines(
                cs@.skip(j + 1),
            )));
            i = j + 1;
        } else {
            assert(w@ =~= t);
            r.push(w);
            assert(r@.map_values(|w: Vec<char>| w@) =~= before.push(w@));
            assert(cs@.skip(n as int) =~= Seq::<char>::empty());
            assert(before.push(w@) + lines(cs@.skip(n as int)) =~= before + seq![t]);
            i = n;
        }
    }
    assert(r@.map_values(|w: Vec<char>| w@) + lines(cs@.skip(n as int)) =~= r@.map_values(
        |w: Vec<char>| w@,
    ));
    r
}

pub open spec fn is_digit(c: char) -> bool {
    '0' <= c && c <= '9'
}

/// The number that a string of decimal digits denotes.
pub open spec fn digits_value(d: Seq<char>) -> nat
    decreases d.len(),
{
    if d.len() == 0 {
        0
    } else {
        digits_value(d.drop_last()) * 10 + (d.last() as nat - '0' as nat) as nat
    }
}

/// The digits part of a number: after an optional leading `+`.
pub open spec fn unsigned_digits(t: Seq<char>) -> Seq<char> {
    if t.len() > 0 && t[0] == '+' { t.drop_first() } else { t }
}

pub open spec fn all_digits(d: Seq<char>) -> bool {
    forall|k: int| 0 <= k < d.len() ==> is_digit(#[trigger] d[k])
}

/// What `str::parse` gives for an unsigned integer type whose largest value
/// is `max`: an optional `+`, then one or more decimal digits, of value at
/// most `max`.
pub open spec fn parse_unsigned(t: Seq<char>, max: nat) -> Option<nat> {
    let d = unsigned_digits(t);
    if d.len() == 0 || !all_digits(d) {
        None
    } else if digits_value(d) > max {
        None
    } else {
        Some(digits_value(d))
    }
}

/// Parses an unsigned decimal number no larger than `max`, as `str::parse`
/// does for the matching integer type.
pub fn parse_number(t: &Vec<char>, max: u64) -> (r: Option<u64>)
    ensures
        match parse_unsigned(t@, max as nat) {
            Some(v) => r == Some(v as u64),
            None => r is None,
        },
{
    let n = t.len();
    let start: usize = if n > 0 && t[0] == '+' { 1 } else { 0 };
    let ghost d = unsigned_digits(t@);
    assert(d =~= t@.skip(start as int));
    if start == n {
        return None;
    }
    let mut acc: u64 = 0;
    let mut i: usize = start;
    let mut too_big = false;
    while i < n
        invariant
            n == t.len(),
            start <= i <= n,
            d == t@.skip(start as int),
            d == unsigned_digits(t@),
            forall|k: int| 0 <= k < i - start ==> is_digit(#[trigger] d[k]),
            !too_big ==> acc == digits_value(d.take(i - start)),
            too_big ==> digits_value(d.take(i - start)) > max,
            acc <= max,
        decreases n - i,
    {
        let c = t[i];
        assert(d[i - start] == c);
        if !('0' <= c && c <= '9') {
            assert(!is_digit(d[i - start]));
            assert(0 <= i - start < d.len());
            assert(!all_digits(d));
            return None;
        }
        assert(d.take(i - start + 1).drop_last() =~= d.take(i - start));
        assert(d.take(i - start + 1).last() == c);
        let dg = (c as u32 - '0' as u32) as u64;
        if !too_big {
            if dg > max || acc > (max - dg) / 10 {
                too_big = true;
                assert(digits_value(d.take(i - start + 1)) > max) by (nonlinear_arith)
                    requires
                        dg > max || acc > (max - dg) / 10,
                        digits_value(d.take(i - start + 1)) == acc * 10 + dg,
                ;
            } else {
                assert(acc * 10 + dg <= max) by (nonlinear_arith)
                    requires
                        acc <= (max - dg) / 10,
                        dg <= 9,
                ;
                acc = acc * 10 + dg;
            }
        } else {
            assert(digits_value(d.take(i - start + 1)) >= digits_value(d.take(i - start))) by (nonlinear_arith)
                requires
                    digits_value(d.take(i - start + 1)) == digits_value(d.take(i - start)) * 10 + dg,
            ;
        }
        i = i + 1;
    }
    assert(d.take(n - start) =~= d);
    if too_big {
        None
    } else {
        Some(acc)
    }
}

} // verus!

use vstd::prelude::*;
use crate::grouping::{
    group_positions, groups_all_repeated_keys, is_full_group, lemma_positions_bounded,
    positions_with_key, KeyGroup,
};
use crate::text::{digit_char, push_char};
use vstd::seq_lib::group_to_multiset_ensures;
use crate::common::{capped, lemma_insert_multiset};

verus! {

/// Longest prefix of a file that is read to fingerprint it.
pub const SAMPLE_PREFIX: u64 = 4096;

/// A regular file seen by the duplicate walk.
pub struct SizedPath {
    pub path: String,
    pub size_bytes: u64,
}

/// How many leading bytes of a file of `size` bytes are sampled.
pub open spec fn sample_len_of(size: u64) -> nat {
    if size < SAMPLE_PREFIX { size as nat } else { SAMPLE_PREFIX as nat }
}

pub fn sample_len(size: u64) -> (r: usize)
    ensures
        r == sample_len_of(size),
{
    if size < SAMPLE_PREFIX { size as usize } else { SAMPLE_PREFIX as usize }
}

/// The eight sampled offsets of a prefix of `n >= 1` bytes: the first four
/// bytes (clamped to the end), the quarter, half and three-quarter points,
/// and the last byte.
pub open spec fn sample_offsets(n: int) -> Seq<int> {
    let last = n - 1;
    seq![
        0,
        if 1 < last { 1 } else { last },
        if 2 < last { 2 } else { last },
        if 3 < last { 3 } else { last },
        n / 4,
        n / 2,
        n * 3 / 4,
        last
    ]
}

/// Eight bytes read big-endian as one number.
pub open spec fn pack8(a: Seq<u8>) -> nat {
    (((((((a[0] as nat * 256 + a[1] as nat) * 256 + a[2] as nat) * 256 + a[3] as nat) * 256
        + a[4] as nat) * 256 + a[5] as nat) * 256 + a[6] as nat) * 256 + a[7] as nat)
}

/// The sampled bytes of a prefix, at `sample_offsets`.
pub open spec fn sampled_bytes(b: Seq<u8>) -> Seq<u8> {
    sample_offsets(b.len() as int).map_values(|o: int| b[o])
}

/// The fingerprint of a prefix: its sampled bytes packed into a number.
/// An empty prefix samples as zero.
pub open spec fn fingerprint_of(b: Seq<u8>) -> u64 {
    if b.len() == 0 { 0 } else { pack8(sampled_bytes(b)) as u64 }
}

pub fn fingerprint(prefix: &Vec<u8>) -> (r: u64)
    ensures
        r == fingerprint_of(prefix@),
{
    let n = prefix.len();
    if n == 0 {
        return 0;
    }
    let last = n - 1;
    let o1: usize = if 1 < last { 1 } else { last };
    let o2: usize = if 2 < last { 2 } else { last };
    let o3: usize = if 3 < last { 3 } else { last };
    assert(n * 3 / 4 < n) by (nonlinear_arith)
        requires
            n >= 1,
    ;
    let o6: usize = (n / 4) * 3 + ((n % 4) * 3) / 4;
    assert(o6 == n * 3 / 4) by (nonlinear_arith)
        requires
            o6 == (n / 4) * 3 + ((n % 4) * 3) / 4,
    ;
    let mut acc: u64 = prefix[0] as u64;
    acc = acc * 256 + prefix[o1] as u64;
    acc = acc * 256 + prefix[o2] as u64;
    acc = acc * 256 + prefix[o3] as u64;
    acc = acc * 256 + prefix[n / 4] as u64;
    acc = acc * 256 + prefix[n / 2] as u64;
    acc = acc * 256 + prefix[o6] as u64;
    acc = acc * 256 + prefix[last] as u64;
    let ghost s = sampled_bytes(prefix@);
    assert(s[0] == prefix@[0]);
    assert(s[1] == prefix@[o1 as int]);
    assert(s[2] == prefix@[o2 as int]);
    assert(s[3] == prefix@[o3 as int]);
    assert(s[4] == prefix@[(n / 4) as int]);
    assert(s[5] == prefix@[(n / 2) as int]);
    assert(s[6] == prefix@[o6 as int]);
    assert(s[7] == prefix@[last as int]);
    acc
}

/// A hexadecimal digit, lower case.
pub open spec fn hex_digit_char(d: nat) -> char {
    if d < 10 { digit_char(d) }
    else if d == 10 { 'a' }
    else if d == 11 { 'b' }
    else if d == 12 { 'c' }
    else if d == 13 { 'd' }
    else if d == 14 { 'e' }
    else { 'f' }
}

/// The last `w` hexadecimal digits of `k`, zero-padded.
pub open spec fn hex_text(k: nat, w: nat) -> Seq<char>
    decreases w,
{
    if w == 0 {
        Seq::empty()
    } else {
        hex_text(k / 16, (w - 1) as nat).push(hex_digit_char(k % 16))
    }
}

fn hex_digit(d: u64) -> (c: char)
    requires
        d < 16,
    ensures
        c == hex_digit_char(d as nat),
{
    if d == 0 { '0' }
    else if d == 1 { '1' }
    else if d == 2 { '2' }
    else if d == 3 { '3' }
    else if d == 4 { '4' }
    else if d == 5 { '5' }
    else if d == 6 { '6' }
    else if d == 7 { '7' }
    else if d == 8 { '8' }
    else if d == 9 { '9' }
    else if d == 10 { 'a' }
    else if d == 11 { 'b' }
    else if d == 12 { 'c' }
    else if d == 13 { 'd' }
    else if d == 14 { 'e' }
    else { 'f' }
}

fn push_hex(s: &mut String, k: u64, w: u64)
    ensures
        final(s)@ == old(s)@ + hex_text(k as nat, w as nat),
    decreases w,
{
    if w == 0 {
        assert(old(s)@ + hex_text(k as nat, 0) =~= old(s)@);
        return;
    }
    push_hex(s, k / 16, w - 1);
    push_char(s, hex_digit(k % 16));
    assert(old(s)@ + hex_text(k as nat, w as nat) =~= (old(s)@ + hex_text(
        (k / 16) as nat,
        (w - 1) as nat,
    )).push(hex_digit_char((k % 16) as nat)));
}

/// A fingerprint written as sixteen hexadecimal digits, two per sampled byte.
pub fn fingerprint_hex(k: u64) -> (r: String)
    ensures
        r@ == hex_text(k as nat, 16),
{
    let mut s = String::new();
    push_hex(&mut s, k, 16);
    assert(s@ =~= hex_text(k as nat, 16));
    s
}

/// The key of each file for size bucketing: its size, if at least `min_bytes`.
pub open spec fn size_keys(files: Seq<SizedPath>, min_bytes: u64) -> Seq<Option<u64>> {
    Seq::new(
        files.len(),
        |j: int|
            if files[j].size_bytes >= min_bytes {
                Some(files[j].size_bytes)
            } else {
                None
            },
    )
}

/// The key of each sampled prefix: its fingerprint, if the read succeeded.
pub open spec fn fingerprint_keys(prefixes: Seq<Option<Vec<u8>>>) -> Seq<Option<u64>> {
    Seq::new(
        prefixes.len(),
        |j: int|
            match prefixes[j] {
                Some(b) => Some(fingerprint_of(b@)),
                None => None,
            },
    )
}

/// First phase: buckets of two or more files of one exact size, at least
/// `min_bytes` each; every such size gets one bucket.
pub fn size_buckets(files: &Vec<SizedPath>, min_bytes: u64) -> (r: Vec<KeyGroup>)
    ensures
        groups_all_repeated_keys(size_keys(files@, min_bytes), r@),
{
    let mut keys: Vec<Option<u64>> = Vec::new();
    let n = files.len();
    let mut j: usize = 0;
    while j < n
        invariant
            n == files.len(),
            j <= n,
            keys@ == size_keys(files@, min_bytes).subrange(0, j as int),
        decreases n - j,
    {
        let s = files[j].size_bytes;
        if s >= min_bytes {
            keys.push(Some(s));
        } else {
            keys.push(None);
        }
        j = j + 1;
        assert(keys@ =~= size_keys(files@, min_bytes).subrange(0, j as int));
    }
    assert(keys@ =~= size_keys(files@, min_bytes));
    group_positions(&keys)
}

/// Second phase, within one bucket: the members whose prefixes were read
/// (`Some`) grouped by fingerprint, groups of two or more only.
pub fn fingerprint_groups(prefixes: &Vec<Option<Vec<u8>>>) -> (r: Vec<KeyGroup>)
    ensures
        groups_all_repeated_keys(fingerprint_keys(prefixes@), r@),
{
    let mut keys: Vec<Option<u64>> = Vec::new();
    let n = prefixes.len();
    let mut j: usize = 0;
    while j < n
        invariant
            n == prefixes.len(),
            j <= n,
            keys@ == fingerprint_keys(prefixes@).subrange(0, j as int),
        decreases n - j,
    {
        match &prefixes[j] {
            Some(b) => {
                keys.push(Some(fingerprint(b)));
            },
            None => {
                keys.push(None);
            },
        }
        j = j + 1;
        assert(keys@ =~= fingerprint_keys(prefixes@).subrange(0, j as int));
    }
    assert(keys@ =~= fingerprint_keys(prefixes@));
    group_positions(&keys)
}

/// A set of files that look identical: one size, one fingerprint.
pub struct DuplicateGroup {
    pub hash: String,
    pub size_bytes: u64,
    pub files: Vec<String>,
}

/// What a duplicate scan reports.
pub struct DuplicateResult {
    pub groups: Vec<DuplicateGroup>,
    pub total_wasted_bytes: u64,
    /// The number of groups returned, after the cut to `MAX_GROUPS`.
    pub total_groups: usize,
}

/// At most this many groups are reported.
pub const MAX_GROUPS: usize = 50;

/// `p` is the path of a file of the walk whose size is `size`.
pub open spec fn is_file_of_size(files: Seq<SizedPath>, p: Seq<char>, size: u64) -> bool {
    exists|j: int| 0 <= j < files.len() && files[j].path@ == p && files[j].size_bytes == size
}

/// A group of two or more files of the walk, all of the group's size.
pub open spec fn is_sound_group(files: Seq<SizedPath>, g: DuplicateGroup) -> bool {
    &&& g.files@.len() >= 2
    &&& forall|t: int|
        0 <= t < g.files@.len() ==> is_file_of_size(files, (#[trigger] g.files@[t])@, g.size_bytes)
}

/// Space that removing all copies but one would free, capped at `u64::MAX`.
pub open spec fn wasted_bytes(g: DuplicateGroup) -> nat {
    let n = g.files@.len();
    let w = if n == 0 { 0 } else { g.size_bytes as nat * (n - 1) as nat };
    if w > u64::MAX { u64::MAX as nat } else { w }
}

/// `a` ranks at or before `b`: more wasted space, or as much and a size as large.
pub open spec fn ranks_before(a: DuplicateGroup, b: DuplicateGroup) -> bool {
    wasted_bytes(a) > wasted_bytes(b) || (wasted_bytes(a) == wasted_bytes(b) && a.size_bytes
        >= b.size_bytes)
}

pub open spec fn is_ranked(s: Seq<DuplicateGroup>) -> bool {
    forall|i: int, j: int| 0 <= i < j < s.len() ==> ranks_before(s[i], s[j])
}

/// Sum of the wasted space of the groups.
pub open spec fn sum_wasted(s: Seq<DuplicateGroup>) -> nat
    decreases s.len(),
{
    if s.len() == 0 {
        0
    } else {
        sum_wasted(s.drop_last()) + wasted_bytes(s.last())
    }
}


pub fn wasted(g: &DuplicateGroup) -> (r: u64)
    ensures
        r == wasted_bytes(*g),
{
    let n = g.files.len();
    if n == 0 {
        return 0;
    }
    let a: u128 = g.size_bytes as u128;
    let c: u128 = (n - 1) as u128;
    assert(a * c <= 0xffff_ffff_ffff_ffffu128 * 0xffff_ffff_ffff_ffffu128) by (nonlinear_arith)
        requires
            a <= 0xffff_ffff_ffff_ffffu128,
            c <= 0xffff_ffff_ffff_ffffu128,
    ;
    let w: u128 = a * c;
    if w > u64::MAX as u128 {
        u64::MAX
    } else {
        w as u64
    }
}

fn ranks_at_or_before(a: &DuplicateGroup, b: &DuplicateGroup) -> (r: bool)
    ensures
        r == ranks_before(*a, *b),
{
    let wa = wasted(a);
    let wb = wasted(b);
    wa > wb || (wa == wb && a.size_bytes >= b.size_bytes)
}


/// The groups of wasted space `w` and size `z`, in order.
pub open spec fn of_rank(s: Seq<DuplicateGroup>, w: nat, z: u64) -> Seq<DuplicateGroup>
    decreases s.len(),
{
    if s.len() == 0 {
        Seq::empty()
    } else if wasted_bytes(s.last()) == w && s.last().size_bytes == z {
        of_rank(s.drop_last(), w, z).push(s.last())
    } else {
        of_rank(s.drop_last(), w, z)
    }
}

proof fn lemma_of_rank_add(a: Seq<DuplicateGroup>, b: Seq<DuplicateGroup>, w: nat, z: u64)
    ensures
        of_rank(a + b, w, z) == of_rank(a, w, z) + of_rank(b, w, z),
    decreases b.len(),
{
    if b.len() == 0 {
        assert(a + b =~= a);
        assert(of_rank(a, w, z) + of_rank(b, w, z) =~= of_rank(a, w, z));
    } else {
        assert((a + b).drop_last() =~= a + b.drop_last());
        lemma_of_rank_add(a, b.drop_last(), w, z);
        if wasted_bytes(b.last()) == w && b.last().size_bytes == z {
            assert(of_rank(a, w, z) + of_rank(b, w, z) =~= (of_rank(a, w, z) + of_rank(
                b.drop_last(),
                w,
                z,
            )).push(b.last()));
        }
    }
}

proof fn lemma_of_rank_none(s: Seq<DuplicateGroup>, w: nat, z: u64)
    requires
        forall|i: int| 0 <= i < s.len() ==> !(wasted_bytes(s[i]) == w && s[i].size_bytes == z),
    ensures
        of_rank(s, w, z) == Seq::<DuplicateGroup>::empty(),
    decreases s.len(),
{
    if s.len() > 0 {
        lemma_of_rank_none(s.drop_last(), w, z);
    }
}

proof fn lemma_of_rank_one(x: DuplicateGroup, w: nat, z: u64)
    ensures
        of_rank(seq![x], w, z) == if wasted_bytes(x) == w && x.size_bytes == z {
            seq![x]
        } else {
            Seq::<DuplicateGroup>::empty()
        },
{
    assert(seq![x].drop_last() =~= Seq::<DuplicateGroup>::empty());
    assert(seq![x].last() == x);
    assert(of_rank(Seq::<DuplicateGroup>::empty(), w, z) == Seq::<DuplicateGroup>::empty());
    assert(Seq::<DuplicateGroup>::empty().push(x) =~= seq![x]);
}

/// Orders the groups by `ranks_before`, keeping the input order among
/// groups of equal wasted space and size.
pub fn rank_groups(groups: &mut Vec<DuplicateGroup>)
    ensures
        final(groups)@.to_multiset() == old(groups)@.to_multiset(),
        is_ranked(final(groups)@),
        forall|w: nat, z: u64| #[trigger] of_rank(final(groups)@, w, z) == of_rank(old(groups)@, w, z),
{
    broadcast use group_to_multiset_ensures;

    let mut out: Vec<DuplicateGroup> = Vec::new();
    let ghost orig = groups@;
    assert(groups@.to_multiset() =~= orig.to_multiset());
    assert forall|w: nat, z: u64| #[trigger] of_rank(orig, w, z) == of_rank(out@, w, z) + of_rank(groups@, w, z) by {
        assert(of_rank(out@, w, z) + of_rank(groups@, w, z) =~= of_rank(groups@, w, z));
    }
    while groups.len() > 0
        invariant
            out@.to_multiset().add(groups@.to_multiset()) =~= orig.to_multiset(),
            is_ranked(out@),
            forall|w: nat, z: u64| #[trigger] of_rank(orig, w, z) == of_rank(out@, w, z) + of_rank(groups@, w, z),
        decreases groups.len(),
    {
        let ghost rest = groups@;
        let x = groups.remove(0);
        assert(rest[0] == x);
        assert(rest.contains(x));
        assert(groups@ == rest.remove(0));
        proof {
            rest.to_multiset_ensures();
        }
        assert(rest.to_multiset().count(x) > 0);
        assert(groups@.to_multiset() =~= rest.to_multiset().remove(x));
        let mut pos: usize = 0;
        while pos < out.len() && ranks_at_or_before(&out[pos], &x)
            invariant
                pos <= out.len(),
                forall|i: int| 0 <= i < pos ==> ranks_before(out[i], x),
            decreases out.len() - pos,
        {
            pos = pos + 1;
        }
        let ghost before = out@;
        proof {
            lemma_insert_multiset(before, pos as int, x);
        }
        out.insert(pos, x);
        assert(out@.to_multiset() =~= before.to_multiset().insert(x));
        assert(out@.to_multiset().add(groups@.to_multiset()) =~= before.to_multiset().add(
            rest.to_multiset(),
        ));
        assert forall|w: nat, z: u64| #[trigger] of_rank(orig, w, z) == of_rank(out@, w, z) + of_rank(groups@, w, z) by {
            let head = before.take(pos as int);
            let tail = before.skip(pos as int);
            assert(before =~= head + tail);
            assert(out@ =~= head + (seq![x] + tail));
            assert(rest =~= seq![x] + groups@);
            lemma_of_rank_add(head, tail, w, z);
            lemma_of_rank_add(seq![x], tail, w, z);
            lemma_of_rank_add(head, seq![x] + tail, w, z);
            lemma_of_rank_add(seq![x], groups@, w, z);
            lemma_of_rank_one(x, w, z);
            assert(of_rank(orig, w, z) == of_rank(before, w, z) + of_rank(rest, w, z));
            if wasted_bytes(x) == w && x.size_bytes == z {
                assert forall|i: int| 0 <= i < tail.len() implies !(wasted_bytes(tail[i]) == w
                    && tail[i].size_bytes == z) by {
                    if i == 0 {
                        assert(!ranks_before(before[pos as int], x));
                    } else {
                        assert(ranks_before(before[pos as int], before[pos + i]));
                        assert(!ranks_before(before[pos as int], x));
                    }
                }
                lemma_of_rank_none(tail, w, z);
                assert(of_rank(out@, w, z) + of_rank(groups@, w, z) =~= of_rank(before, w, z)
                    + of_rank(rest, w, z));
            } else {
                assert(of_rank(out@, w, z) + of_rank(groups@, w, z) =~= of_rank(before, w, z)
                    + of_rank(rest, w, z));
            }
        }
        assert(is_ranked(out@)) by {
            assert forall|i: int, j: int| 0 <= i < j < out.len() implies ranks_before(
                out[i],
                out[j],
            ) by {
                if j < pos {
                } else if j == pos {
                } else if i < pos {
                    assert(ranks_before(before[i], before[j - 1]));
                } else if i == pos {
                    assert(!ranks_before(before[pos as int], x));
                    assert(pos == j - 1 || ranks_before(before[pos as int], before[j - 1]));
                } else {
                    assert(ranks_before(before[i - 1], before[j - 1]));
                }
            }
        }
    }
    assert(groups@.to_multiset() =~= vstd::multiset::Multiset::empty());
    assert forall|w: nat, z: u64| #[trigger] of_rank(out@, w, z) == of_rank(orig, w, z) by {
        assert(of_rank(out@, w, z) + of_rank(groups@, w, z) =~= of_rank(out@, w, z));
    }
    *groups = out;
}

/// `g` is the group of the members of bucket `b` whose prefixes have the
/// fingerprint `k`: two or more of them, listed in bucket order.
pub open spec fn is_group_for(
    files: Seq<SizedPath>,
    buckets: Seq<KeyGroup>,
    prefixes: Seq<Vec<Option<Vec<u8>>>>,
    b: int,
    k: u64,
    g: DuplicateGroup,
) -> bool {
    let fkeys = fingerprint_keys(prefixes[b]@);
    let ps = positions_with_key(fkeys, k, fkeys.len() as int);
    &&& 0 <= b < buckets.len()
    &&& g.size_bytes == buckets[b].key
    &&& g.hash@ == hex_text(k as nat, 16)
    &&& ps.len() >= 2
    &&& g.files@.len() == ps.len()
    &&& forall|t: int|
        0 <= t < ps.len() ==> (#[trigger] g.files@[t])@ == files[buckets[b].positions@[ps[t] as int] as int].path@
}

/// `all` lists, in some order and once each, the group of every bucket and
/// fingerprint shared by two or more members of the bucket.
pub open spec fn is_grouping(
    files: Seq<SizedPath>,
    buckets: Seq<KeyGroup>,
    prefixes: Seq<Vec<Option<Vec<u8>>>>,
    all: Seq<DuplicateGroup>,
) -> bool {
    exists|tags: Seq<(int, u64)>|
        #![trigger tags.len()]
        tags.len() == all.len() && (forall|i: int|
            0 <= i < all.len() ==> is_group_for(files, buckets, prefixes, tags[i].0, tags[i].1, #[trigger] all[i]))
            && (forall|i: int, j: int| 0 <= i < j < all.len() ==> tags[i] != tags[j]) && (forall|
            b: int,
            p: int,
        |
            0 <= b < buckets.len() && 0 <= p < prefixes[b]@.len() && (#[trigger] fingerprint_keys(
                prefixes[b]@,
            )[p]) is Some && positions_with_key(
                fingerprint_keys(prefixes[b]@),
                fingerprint_keys(prefixes[b]@)[p]->0,
                prefixes[b]@.len() as int,
            ).len() >= 2 ==> exists|i: int|
                0 <= i < all.len() && tags[i] == (b, fingerprint_keys(prefixes[b]@)[p]->0))
}

proof fn lemma_group_sound(
    files: Seq<SizedPath>,
    min_bytes: u64,
    buckets: Seq<KeyGroup>,
    prefixes: Seq<Vec<Option<Vec<u8>>>>,
    b: int,
    k: u64,
    g: DuplicateGroup,
)
    requires
        groups_all_repeated_keys(size_keys(files, min_bytes), buckets),
        prefixes.len() == buckets.len(),
        forall|b: int| 0 <= b < buckets.len() ==> (#[trigger] prefixes[b]).len() == buckets[b].positions.len(),
        is_group_for(files, buckets, prefixes, b, k, g),
        files.len() <= usize::MAX,
    ensures
        is_sound_group(files, g),
        g.size_bytes >= min_bytes,
{
    let keys = size_keys(files, min_bytes);
    let size = buckets[b].key;
    let fkeys = fingerprint_keys(prefixes[b]@);
    let ps = positions_with_key(fkeys, k, fkeys.len() as int);
    assert(is_full_group(keys, buckets[b]));
    lemma_positions_bounded(keys, size, files.len() as int);
    lemma_positions_bounded(fkeys, k, fkeys.len() as int);
    assert forall|t: int| 0 <= t < g.files@.len() implies is_file_of_size(
        files,
        (#[trigger] g.files@[t])@,
        g.size_bytes,
    ) by {
        let q = ps[t] as int;
        let m = buckets[b].positions@[q] as int;
        assert(positions_with_key(keys, size, files.len() as int)[q] == m);
        assert(keys[m] == Some(size));
    }
    let m0 = buckets[b].positions@[ps[0] as int] as int;
    assert(positions_with_key(keys, size, files.len() as int)[ps[0] as int] == m0);
    assert(keys[m0] == Some(size));
}

/// Builds the groups of the second phase: for each bucket, the files whose
/// sampled prefixes share a fingerprint, two or more per group.
/// `buckets` is what `size_buckets(files, min_bytes)` returned, and
/// `prefixes[b][i]` the sampled prefix of member `i` of bucket `b`, or
/// `None` where it could not be read.
pub fn collect_groups(
    files: &Vec<SizedPath>,
    min_bytes: u64,
    buckets: &Vec<KeyGroup>,
    prefixes: &Vec<Vec<Option<Vec<u8>>>>,
) -> (r: Vec<DuplicateGroup>)
    requires
        groups_all_repeated_keys(size_keys(files@, min_bytes), buckets@),
        prefixes.len() == buckets.len(),
        forall|b: int| 0 <= b < buckets.len() ==> (#[trigger] prefixes[b]).len() == buckets[b].positions.len(),
    ensures
        is_grouping(files@, buckets@, prefixes@, r@),
        forall|i: int| 0 <= i < r.len() ==> is_sound_group(files@, #[trigger] r[i]),
        forall|i: int| 0 <= i < r.len() ==> (#[trigger] r[i]).size_bytes >= min_bytes,
{
    let mut r: Vec<DuplicateGroup> = Vec::new();
    let nb = buckets.len();
    let nf = files.len();
    let ghost keys = size_keys(files@, min_bytes);
    let ghost mut tags: Seq<(int, u64)> = Seq::empty();
    let mut b: usize = 0;
    while b < nb
        invariant
            nb == buckets.len(),
            nf == files.len(),
            keys == size_keys(files@, min_bytes),
            groups_all_repeated_keys(keys, buckets@),
            prefixes.len() == buckets.len(),
            forall|b: int| 0 <= b < buckets.len() ==> (#[trigger] prefixes[b]).len() == buckets[b].positions.len(),
            b <= nb,
            tags.len() == r.len(),
            forall|i: int|
                0 <= i < r.len() ==> is_group_for(files@, buckets@, prefixes@, tags[i].0, tags[i].1, #[trigger] r[i]),
            forall|i: int| 0 <= i < r.len() ==> (#[trigger] tags[i]).0 < b,
            forall|i: int, j: int| 0 <= i < j < r.len() ==> tags[i] != tags[j],
            forall|bb: int, p: int|
                0 <= bb < b && 0 <= p < prefixes[bb]@.len() && (#[trigger] fingerprint_keys(
                    prefixes[bb]@,
                )[p]) is Some && positions_with_key(
                    fingerprint_keys(prefixes[bb]@),
                    fingerprint_keys(prefixes[bb]@)[p]->0,
                    prefixes[bb]@.len() as int,
                ).len() >= 2 ==> exists|i: int|
                    0 <= i < r.len() && tags[i] == (bb, fingerprint_keys(prefixes[bb]@)[p]->0),
        decreases nb - b,
    {
        let bucket = &buckets[b];
        let size = bucket.key;
        let fgs = fingerprint_groups(&prefixes[b]);
        let ghost fkeys = fingerprint_keys(prefixes[b as int]@);
        let ghost base = r.len() as int;
        assert(is_full_group(keys, buckets[b as int]));
        proof {
            lemma_positions_bounded(keys, size, nf as int);
        }
        let ng = fgs.len();
        let mut g: usize = 0;
        while g < ng
            invariant
                nb == buckets.len(),
                nf == files.len(),
                b < nb,
                ng == fgs.len(),
                g <= ng,
                bucket == &buckets[b as int],
                size == bucket.key,
                keys == size_keys(files@, min_bytes),
                prefixes.len() == buckets.len(),
                forall|b: int| 0 <= b < buckets.len() ==> (#[trigger] prefixes[b]).len() == buckets[b].positions.len(),
                fkeys == fingerprint_keys(prefixes[b as int]@),
                fkeys.len() == bucket.positions.len(),
                groups_all_repeated_keys(fkeys, fgs@),
                bucket.positions@ == positions_with_key(keys, size, nf as int),
                forall|t: int|
                    0 <= t < positions_with_key(keys, size, nf as int).len() ==> {
                        let q = #[trigger] positions_with_key(keys, size, nf as int)[t] as int;
                        0 <= q < nf && keys[q] == Some(size)
                    },
                0 <= base,
                r.len() == base + g,
                tags.len() == r.len(),
                forall|i: int|
                    0 <= i < r.len() ==> is_group_for(files@, buckets@, prefixes@, tags[i].0, tags[i].1, #[trigger] r[i]),
                forall|i: int| 0 <= i < base ==> (#[trigger] tags[i]).0 < b,
                forall|i: int| 0 <= i < g ==> tags[base + i] == (b as int, #[trigger] fgs@[i].key),
                forall|i: int, j: int| 0 <= i < j < r.len() ==> tags[i] != tags[j],
                forall|bb: int, p: int|
                    0 <= bb < b && 0 <= p < prefixes[bb]@.len() && (#[trigger] fingerprint_keys(
                        prefixes[bb]@,
                    )[p]) is Some && positions_with_key(
                        fingerprint_keys(prefixes[bb]@),
                        fingerprint_keys(prefixes[bb]@)[p]->0,
                        prefixes[bb]@.len() as int,
                    ).len() >= 2 ==> exists|i: int|
                        0 <= i < r.len() && tags[i] == (bb, fingerprint_keys(prefixes[bb]@)[p]->0),
            decreases ng - g,
        {
            let fg = &fgs[g];
            assert(is_full_group(fkeys, fgs[g as int]));
            proof {
                lemma_positions_bounded(fkeys, fg.key, fkeys.len() as int);
            }
            let np = fg.positions.len();
            let mut paths: Vec<String> = Vec::new();
            let mut t: usize = 0;
            while t < np
                invariant
                    nf == files.len(),
                    np == fg.positions.len(),
                    t <= np,
                    paths.len() == t,
                    fg.positions@ == positions_with_key(fkeys, fg.key, fkeys.len() as int),
                    fkeys.len() == bucket.positions.len(),
                    forall|u: int|
                        0 <= u < positions_with_key(fkeys, fg.key, fkeys.len() as int).len() ==> {
                            let q = #[trigger] positions_with_key(fkeys, fg.key, fkeys.len() as int)[u] as int;
                            0 <= q < fkeys.len()
                        },
                    bucket.positions@ == positions_with_key(keys, size, nf as int),
                    keys == size_keys(files@, min_bytes),
                    forall|u: int|
                        0 <= u < positions_with_key(keys, size, nf as int).len() ==> {
                            let q = #[trigger] positions_with_key(keys, size, nf as int)[u] as int;
                            0 <= q < nf && keys[q] == Some(size)
                        },
                    forall|u: int| 0 <= u < t ==> (#[trigger] paths@[u])@ == files@[bucket.positions@[fg.positions@[u] as int] as int].path@,
                decreases np - t,
            {
                let i = fg.positions[t];
                assert(positions_with_key(fkeys, fg.key, fkeys.len() as int)[t as int] == i);
                let m = bucket.positions[i];
                assert(positions_with_key(keys, size, nf as int)[i as int] == m);
                let p = files[m].path.clone();
                paths.push(p);
                t = t + 1;
            }
            let hash = fingerprint_hex(fg.key);
            let ghost new_tag = (b as int, fgs@[g as int].key);
            let ghost old_tags = tags;
            let ghost old_len = r.len() as int;
            r.push(DuplicateGroup { hash, size_bytes: size, files: paths });
            proof {
                tags = tags.push(new_tag);
                assert(is_group_for(files@, buckets@, prefixes@, b as int, fgs@[g as int].key, r@.last()));
                assert forall|i: int, j: int| 0 <= i < j < r.len() implies tags[i] != tags[j] by {
                    if j == r.len() - 1 && i >= base {
                        assert(tags[i] == (b as int, fgs@[i - base].key));
                    }
                }
                assert forall|i: int| 0 <= i < g + 1 implies tags[base + i] == (b as int, #[trigger] fgs@[i].key) by {
                }
                assert forall|bb: int, p: int|
                    0 <= bb < b && 0 <= p < prefixes[bb]@.len() && (#[trigger] fingerprint_keys(
                        prefixes[bb]@,
                    )[p]) is Some && positions_with_key(
                        fingerprint_keys(prefixes[bb]@),
                        fingerprint_keys(prefixes[bb]@)[p]->0,
                        prefixes[bb]@.len() as int,
                    ).len() >= 2 implies exists|i: int|
                        0 <= i < r.len() && tags[i] == (bb, fingerprint_keys(prefixes[bb]@)[p]->0) by {
                    let i = choose|i: int|
                        0 <= i < old_len && old_tags[i] == (bb, fingerprint_keys(prefixes[bb]@)[p]->0);
                    assert(tags[i] == old_tags[i]);
                }
            }
            g = g + 1;
        }
        proof {
            assert forall|i: int| 0 <= i < r.len() implies (#[trigger] tags[i]).0 < b + 1 by {
                if i >= base {
                    assert(tags[base + (i - base)] == (b as int, fgs@[i - base].key));
                }
            }
            assert forall|bb: int, p: int|
                0 <= bb < b + 1 && 0 <= p < prefixes[bb]@.len() && (#[trigger] fingerprint_keys(
                    prefixes[bb]@,
                )[p]) is Some && positions_with_key(
                    fingerprint_keys(prefixes[bb]@),
                    fingerprint_keys(prefixes[bb]@)[p]->0,
                    prefixes[bb]@.len() as int,
                ).len() >= 2 implies exists|i: int|
                    0 <= i < r.len() && tags[i] == (bb, fingerprint_keys(prefixes[bb]@)[p]->0) by {
                if bb == b {
                    let k = fkeys[p]->0;
                    let gi = choose|gi: int| 0 <= gi < fgs@.len() && fgs@[gi].key == k;
                    assert(tags[base + gi] == (b as int, fgs@[gi].key));
                }
            }
        }
        b = b + 1;
    }
    assert forall|i: int| 0 <= i < r.len() implies is_sound_group(files@, #[trigger] r[i]) && r[i].size_bytes
        >= min_bytes by {
        lemma_group_sound(files@, min_bytes, buckets@, prefixes@, tags[i].0, tags[i].1, r[i]);
    }
    assert(is_grouping(files@, buckets@, prefixes@, r@)) by {
        assert(tags.len() == r@.len());
    }
    r
}

/// `shown` is the first `MAX_GROUPS` (or fewer) of `all` ordered by
/// `ranks_before`, groups of equal wasted space and size in their order in
/// `all`.
pub open spec fn is_ranked_cut(all: Seq<DuplicateGroup>, shown: Seq<DuplicateGroup>) -> bool {
    exists|s: Seq<DuplicateGroup>|
        #![trigger s.to_multiset()]
        s.to_multiset() == all.to_multiset() && is_ranked(s) && (forall|w: nat, z: u64|
            #[trigger] of_rank(s, w, z) == of_rank(all, w, z)) && shown == s.take(
            if s.len() < MAX_GROUPS { s.len() as int } else { MAX_GROUPS as int },
        )
}

/// The report of a duplicate scan: the groups ranked by `ranks_before`,
/// cut to the first `MAX_GROUPS`, with their wasted space summed.
pub fn summarize_duplicates(groups: Vec<DuplicateGroup>) -> (r: DuplicateResult)
    ensures
        is_ranked_cut(groups@, r.groups@),
        r.groups.len() <= MAX_GROUPS,
        is_ranked(r.groups@),
        r.total_wasted_bytes == capped(sum_wasted(r.groups@)),
        r.total_groups == r.groups.len(),
{
    let mut groups = groups;
    rank_groups(&mut groups);
    let ghost ranked = groups@;
    groups.truncate(MAX_GROUPS);
    assert(groups@ == ranked.take(
        if ranked.len() < MAX_GROUPS { ranked.len() as int } else { MAX_GROUPS as int },
    ));
    let n = groups.len();
    let mut total: u64 = 0;
    let mut i: usize = 0;
    while i < n
        invariant
            n == groups.len(),
            i <= n,
            total == capped(sum_wasted(groups@.take(i as int))),
        decreases n - i,
    {
        let w = wasted(&groups[i]);
        assert(groups@.take(i + 1).drop_last() =~= groups@.take(i as int));
        if total > u64::MAX - w {
            total = u64::MAX;
        } else {
            total = total + w;
        }
        i = i + 1;
    }
    assert(groups@.take(n as int) =~= groups@);
    DuplicateResult { groups, total_wasted_bytes: total, total_groups: n }
}

/// Turns a size threshold in MiB (1 when absent) into bytes, capped at `u64::MAX`.
pub fn duplicate_min_bytes(min_size_mb: Option<u64>) -> (r: u64)
    ensures
        r == capped(
            match min_size_mb {
                Some(mb) => mb as nat,
                None => 1,
            } * 1048576,
        ),
{
    let mb = match min_size_mb {
        Some(mb) => mb,
        None => 1,
    };
    if mb > u64::MAX / 1048576 {
        u64::MAX
    } else {
        mb * 1048576
    }
}

/// Both phases after the prefixes were read: the groups of `collect_groups`,
/// summarized by `summarize_duplicates`. Every reported group holds two or
/// more files of the walk, all of the group's size; the report is ranked
/// and holds at most `MAX_GROUPS` groups.
pub fn find_duplicates(
    files: &Vec<SizedPath>,
    min_bytes: u64,
    buckets: &Vec<KeyGroup>,
    prefixes: &Vec<Vec<Option<Vec<u8>>>>,
) -> (r: DuplicateResult)
    requires
        groups_all_repeated_keys(size_keys(files@, min_bytes), buckets@),
        prefixes.len() == buckets.len(),
        forall|b: int| 0 <= b < buckets.len() ==> (#[trigger] prefixes[b]).len() == buckets[b].positions.len(),
    ensures
        exists|all: Seq<DuplicateGroup>|
            #![trigger is_grouping(files@, buckets@, prefixes@, all)]
            is_grouping(files@, buckets@, prefixes@, all) && is_ranked_cut(all, r.groups@),
        forall|i: int| 0 <= i < r.groups.len() ==> is_sound_group(files@, #[trigger] r.groups[i]),
        forall|i: int| 0 <= i < r.groups.len() ==> (#[trigger] r.groups[i]).size_bytes >= min_bytes,
        r.groups.len() <= MAX_GROUPS,
        is_ranked(r.groups@),
        r.total_wasted_bytes == capped(sum_wasted(r.groups@)),
        r.total_groups == r.groups.len(),
{
    broadcast use group_to_multiset_ensures;

    let groups = collect_groups(files, min_bytes, buckets, prefixes);
    let ghost all = groups@;
    let r = summarize_duplicates(groups);
    assert forall|i: int| 0 <= i < r.groups.len() implies is_sound_group(files@, #[trigger] r.groups[i])
        && r.groups[i].size_bytes >= min_bytes by {
        let s = choose|s: Seq<DuplicateGroup>|
            #![trigger s.to_multiset()]
            s.to_multiset() == all.to_multiset() && is_ranked(s) && r.groups@ == s.take(
                if s.len() < MAX_GROUPS { s.len() as int } else { MAX_GROUPS as int },
            );
        let g = r.groups[i];
        assert(s[i] == g);
        assert(s.contains(g));
        assert(s.to_multiset().count(g) > 0);
        assert(all.contains(g));
        let k = choose|k: int| 0 <= k < all.len() && all[k] == g;
    }
    r
}

} // verus!

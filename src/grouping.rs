use vstd::prelude::*;
use std::collections::HashMap;

verus! {

broadcast use vstd::std_specs::hash::group_hash_axioms;

/// Positions that share one key, in ascending order.
pub struct KeyGroup {
    pub key: u64,
    pub positions: Vec<usize>,
}

/// The positions `p < n` whose key is `Some(k)`, in ascending order.
pub open spec fn positions_with_key(keys: Seq<Option<u64>>, k: u64, n: int) -> Seq<usize>
    decreases n,
{
    if n <= 0 {
        Seq::empty()
    } else if keys[n - 1] == Some(k) {
        positions_with_key(keys, k, n - 1).push((n - 1) as usize)
    } else {
        positions_with_key(keys, k, n - 1)
    }
}

/// `g` holds every position of its key, and at least two of them.
pub open spec fn is_full_group(keys: Seq<Option<u64>>, g: KeyGroup) -> bool {
    &&& g.positions@ == positions_with_key(keys, g.key, keys.len() as int)
    &&& g.positions@.len() >= 2
}

/// What `group_positions` returns: one group for each key carried by two or
/// more positions, no group for any other key, each key once.
pub open spec fn groups_all_repeated_keys(keys: Seq<Option<u64>>, r: Seq<KeyGroup>) -> bool {
    &&& forall|i: int| 0 <= i < r.len() ==> is_full_group(keys, #[trigger] r[i])
    &&& forall|i: int, j: int| 0 <= i < j < r.len() ==> r[i].key != r[j].key
    &&& forall|p: int|
        0 <= p < keys.len() && (#[trigger] keys[p]) is Some && positions_with_key(
            keys,
            keys[p]->0,
            keys.len() as int,
        ).len() >= 2 ==> exists|i: int| 0 <= i < r.len() && r[i].key == keys[p]->0
}

proof fn lemma_no_positions(keys: Seq<Option<u64>>, k: u64, n: int)
    requires
        forall|q: int| 0 <= q < n ==> keys[q] != Some(k),
    ensures
        positions_with_key(keys, k, n) == Seq::<usize>::empty(),
    decreases n,
{
    if n > 0 {
        lemma_no_positions(keys, k, n - 1);
    }
}

pub proof fn lemma_positions_bounded(keys: Seq<Option<u64>>, k: u64, n: int)
    requires
        0 <= n <= keys.len(),
        keys.len() <= usize::MAX,
    ensures
        forall|t: int|
            0 <= t < positions_with_key(keys, k, n).len() ==> {
                let q = #[trigger] positions_with_key(keys, k, n)[t] as int;
                0 <= q < n && keys[q] == Some(k)
            },
    decreases n,
{
    if n > 0 {
        lemma_positions_bounded(keys, k, n - 1);
    }
}

/// Groups positions by key: each key that two or more positions carry gets
/// one group listing all of them in order; `None` keys are left out.
pub fn group_positions(keys: &Vec<Option<u64>>) -> (r: Vec<KeyGroup>)
    ensures
        groups_all_repeated_keys(keys@, r@),
{
    let mut all: Vec<KeyGroup> = Vec::new();
    let mut index: HashMap<u64, usize> = HashMap::new();
    let n = keys.len();
    let mut p: usize = 0;
    while p < n
        invariant
            n == keys.len(),
            p <= n,
            forall|k: u64| #[trigger]
                index@.contains_key(k) ==> index@[k] < all.len() && all[index@[k] as int].key == k,
            forall|i: int|
                0 <= i < all.len() ==> index@.contains_key(#[trigger] all[i].key) && index@[all[i].key]
                    == i,
            forall|i: int|
                0 <= i < all.len() ==> (#[trigger] all[i]).positions@ == positions_with_key(
                    keys@,
                    all[i].key,
                    p as int,
                ),
            forall|q: int| 0 <= q < p && (#[trigger] keys[q]) is Some ==> index@.contains_key(keys[q]->0),
        decreases n - p,
    {
        let ghost before = all@;
        match keys[p] {
            None => {},
            Some(k) => {
                match index.get(&k) {
                    Some(ip) => {
                        let i = *ip;
                        let mut g = KeyGroup { key: 0, positions: Vec::new() };
                        all.set_and_swap(i, &mut g);
                        g.positions.push(p);
                        all.set_and_swap(i, &mut g);
                    },
                    None => {
                        proof {
                            lemma_no_positions(keys@, k, p as int);
                        }
                        let mut ps: Vec<usize> = Vec::new();
                        ps.push(p);
                        index.insert(k, all.len());
                        all.push(KeyGroup { key: k, positions: ps });
                    },
                }
            },
        }
        assert forall|i: int| 0 <= i < all.len() implies (#[trigger] all[i]).positions@
            == positions_with_key(keys@, all[i].key, p + 1) by {
            if i < before.len() {
                assert(all[i].key == before[i].key);
                if keys[p as int] == Some(all[i].key) {
                    assert(index@[all[i].key] == i);
                }
            }
        }
        p = p + 1;
    }
    let mut r: Vec<KeyGroup> = Vec::new();
    while all.len() > 0
        invariant
            n == keys.len(),
            forall|k: u64| #[trigger]
                index@.contains_key(k) && index@[k] < all.len() ==> all[index@[k] as int].key == k,
            forall|i: int|
                0 <= i < all.len() ==> index@.contains_key(#[trigger] all[i].key) && index@[all[i].key]
                    == i,
            forall|i: int|
                0 <= i < all.len() ==> (#[trigger] all[i]).positions@ == positions_with_key(
                    keys@,
                    all[i].key,
                    n as int,
                ),
            forall|q: int| 0 <= q < n && (#[trigger] keys[q]) is Some ==> index@.contains_key(keys[q]->0),
            forall|i: int| 0 <= i < r.len() ==> is_full_group(keys@, #[trigger] r[i]),
            forall|i: int|
                0 <= i < r.len() ==> index@.contains_key(#[trigger] r[i].key) && index@[r[i].key]
                    >= all.len(),
            forall|i: int, j: int| 0 <= i < j < r.len() ==> r[i].key != r[j].key,
            forall|k: u64|
                #[trigger] index@.contains_key(k) && index@[k] >= all.len() && positions_with_key(
                    keys@,
                    k,
                    n as int,
                ).len() >= 2 ==> exists|i: int| 0 <= i < r.len() && r[i].key == k,
        decreases all.len(),
    {
        let g = all.pop().unwrap();
        let ghost last = all.len() as int;
        if g.positions.len() >= 2 {
            let ghost old_r = r@;
            r.push(g);
            assert forall|k: u64|
                #[trigger] index@.contains_key(k) && index@[k] >= all.len() && positions_with_key(
                    keys@,
                    k,
                    n as int,
                ).len() >= 2 implies exists|i: int| 0 <= i < r.len() && r[i].key == k by {
                if index@[k] == last {
                    assert(r[r.len() - 1].key == k);
                } else {
                    let i = choose|i: int| 0 <= i < old_r.len() && old_r[i].key == k;
                    assert(r[i].key == k);
                }
            }
        } else {
            assert forall|k: u64|
                #[trigger] index@.contains_key(k) && index@[k] >= all.len() && positions_with_key(
                    keys@,
                    k,
                    n as int,
                ).len() >= 2 implies exists|i: int| 0 <= i < r.len() && r[i].key == k by {
                if index@[k] == last {
                    assert(g.key == k);
                }
            }
        }
    }
    assert forall|p: int|
        0 <= p < keys.len() && (#[trigger] keys[p]) is Some && positions_with_key(
            keys@,
            keys[p]->0,
            keys.len() as int,
        ).len() >= 2 implies exists|i: int| 0 <= i < r.len() && r[i].key == keys[p]->0 by {
        assert(index@.contains_key(keys[p]->0));
    }
    r
}

} // verus!

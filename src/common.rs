use vstd::prelude::*;
use vstd::seq_lib::group_to_multiset_ensures;

verus! {

/// `n`, or `u64::MAX` where `n` is larger.
pub open spec fn capped(n: nat) -> nat {
    if n > u64::MAX { u64::MAX as nat } else { n }
}

/// Inserting `x` anywhere adds one `x` to the multiset of a sequence.
pub proof fn lemma_insert_multiset<A>(s: Seq<A>, pos: int, x: A)
    requires
        0 <= pos <= s.len(),
    ensures
        s.insert(pos, x).to_multiset() =~= s.to_multiset().insert(x),
{
    broadcast use group_to_multiset_ensures;

    let t = s.insert(pos, x);
    assert(t.remove(pos) =~= s);
    assert(t[pos] == x);
    assert(t.to_multiset().remove(x) =~= s.to_multiset());
    assert(t.contains(x));
}

} // verus!

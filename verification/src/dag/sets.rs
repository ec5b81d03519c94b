use std::collections::HashSet;
use vstd::prelude::*;
use vstd::std_specs::hash::group_hash_axioms;
use vstd::std_specs::hash::spec_hash_keys_iter;
use vstd::set_lib::lemma_len_subset;
use vstd::std_specs::iter::IteratorSpec;

verus! {

broadcast use group_hash_axioms;

/// The members of `set`, each once, in the order in which the set hands them
/// out.
pub fn members(set: &HashSet<usize>) -> (out: Vec<usize>)
    ensures
        out@.no_duplicates(),
        out@.to_set() == set@,
{
    let mut out: Vec<usize> = Vec::new();
    let ghost keys = spec_hash_keys_iter(set).remaining();
    for k in it: set.iter()
        invariant
            it.seq() == keys,
            out@ == keys.take(it.index() as int).unref(),
    {
        out.push(*k);
    }
    proof {
        assert(keys.take(keys.len() as int) == keys);
        assert(out@ == keys.unref());
        assert forall|i: int, j: int| 0 <= i < j < out@.len() implies out@[i] != out@[j] by {
            assert(keys[i] != keys[j]);
        }
    }
    out
}

/// One more member of a prefix: the new one, or a member of the shorter prefix.
pub proof fn lemma_take_next(s: Seq<usize>, j: int, u: usize)
    requires
        0 <= j < s.len(),
    ensures
        s.take(j + 1).contains(u) <==> s.take(j).contains(u) || s[j] == u,
{
    let short = s.take(j);
    let long = s.take(j + 1);
    if long.contains(u) {
        let k = choose|k: int| 0 <= k < long.len() && long[k] == u;
        if k < j {
            assert(short[k] == u);
        }
    }
    if short.contains(u) {
        let k = choose|k: int| 0 <= k < short.len() && short[k] == u;
        assert(long[k] == u);
    }
    if s[j] == u {
        assert(long[j] == u);
    }
}

/// The identifiers below `n`.
pub open spec fn below(n: nat) -> Set<usize> {
    Set::new(|u: usize| u < n)
}

/// There are `n` identifiers below `n`.
pub proof fn lemma_below(n: nat)
    requires
        n <= usize::MAX + 1,
    ensures
        below(n).finite(),
        below(n).len() == n,
    decreases n,
{
    if n == 0 {
        assert(below(n) =~= Set::<usize>::empty());
    } else {
        lemma_below((n - 1) as nat);
        assert(below(n) =~= below((n - 1) as nat).insert((n - 1) as usize));
    }
}

/// Distinct identifiers below `n` number at most `n`.
pub proof fn lemma_distinct_below(s: Seq<usize>, n: nat)
    requires
        n <= usize::MAX + 1,
        s.no_duplicates(),
        forall|i: int| 0 <= i < s.len() ==> s[i] < n,
    ensures
        s.len() <= n,
{
    lemma_below(n);
    s.unique_seq_to_set();
    assert(s.to_set().subset_of(below(n)));
    lemma_len_subset(s.to_set(), below(n));
}

/// Distinct identifiers below `n` that leave one out number less than `n`.
pub proof fn lemma_distinct_without(s: Seq<usize>, n: nat, v: usize)
    requires
        n <= usize::MAX,
        s.no_duplicates(),
        forall|i: int| 0 <= i < s.len() ==> s[i] < n,
        v < n,
        !s.contains(v),
    ensures
        s.len() < n,
{
    lemma_below(n);
    s.unique_seq_to_set();
    assert(s.to_set().subset_of(below(n).remove(v)));
    lemma_len_subset(s.to_set(), below(n).remove(v));
}

/// Fewer than `n` distinct identifiers leave one below `n` out.
pub proof fn lemma_missing(s: Seq<usize>, n: nat) -> (v: usize)
    requires
        n <= usize::MAX,
        s.len() < n,
    ensures
        v < n,
        !s.contains(v),
{
    lemma_below(n);
    if below(n).subset_of(s.to_set()) {
        vstd::seq_lib::seq_to_set_is_finite(s);
        lemma_len_subset(below(n), s.to_set());
        s.lemma_cardinality_of_set();
        assert(false);
    }
    let v = choose|v: usize| below(n).contains(v) && !s.to_set().contains(v);
    v
}

} // verus!

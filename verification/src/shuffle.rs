//! Fisher-Yates shuffling driven by externally drawn indices.
//!
//! The games draw their random indices from a seeded generator; the
//! shuffle itself only consumes those draws, one per swap, from the last
//! position down to position 1.
use vstd::prelude::*;

verus! {

broadcast use vstd::seq_lib::group_to_multiset_ensures;

/// `picks` is a valid draw sequence for shuffling `n` items: one draw per
/// position `n-1, n-2, ..., 1`, the draw for position `i` lying in `0..=i`.
pub open spec fn picks_valid(n: nat, picks: Seq<usize>) -> bool {
    &&& picks.len() == (if n == 0 { 0 } else { n - 1 })
    &&& forall|k: int| 0 <= k < picks.len() ==> #[trigger] picks[k] <= n - 1 - k
}

/// `s` with the items at `i` and `j` exchanged.
pub open spec fn swapped<T>(s: Seq<T>, i: int, j: int) -> Seq<T> {
    s.update(i, s[j]).update(j, s[i])
}

/// The first `k` Fisher-Yates steps applied to `s`: step `m` exchanges
/// position `len - 1 - m` with position `picks[m]`.
pub open spec fn shuffle_steps<T>(s: Seq<T>, picks: Seq<usize>, k: nat) -> Seq<T>
    decreases k,
{
    if k == 0 {
        s
    } else {
        let prev = shuffle_steps(s, picks, (k - 1) as nat);
        swapped(prev, s.len() - k, picks[k - 1] as int)
    }
}

/// The full shuffle of `s` by `picks`.
pub open spec fn shuffled<T>(s: Seq<T>, picks: Seq<usize>) -> Seq<T> {
    shuffle_steps(s, picks, picks.len())
}

/// Exchanging two items keeps the multiset of items.
pub proof fn lemma_swapped_same_items<T>(s: Seq<T>, i: int, j: int)
    requires
        0 <= i < s.len(),
        0 <= j < s.len(),
    ensures
        swapped(s, i, j).len() == s.len(),
        swapped(s, i, j).to_multiset() =~= s.to_multiset(),
{
    broadcast use vstd::seq_lib::to_multiset_update;

    let s1 = s.update(i, s[j]);
    assert(s1[j] == s[j]);
    assert(s1.to_multiset() =~= s.to_multiset().insert(s[j]).remove(s[i]));
    assert(s1.update(j, s[i]).to_multiset() =~= s1.to_multiset().insert(s[i]).remove(s[j]));
}

/// Every prefix of the shuffle keeps length and multiset of items.
pub proof fn lemma_shuffle_steps_same_items<T>(s: Seq<T>, picks: Seq<usize>, k: nat)
    requires
        picks_valid(s.len(), picks),
        k <= picks.len(),
    ensures
        shuffle_steps(s, picks, k).len() == s.len(),
        shuffle_steps(s, picks, k).to_multiset() =~= s.to_multiset(),
    decreases k,
{
    if k > 0 {
        lemma_shuffle_steps_same_items(s, picks, (k - 1) as nat);
        let prev = shuffle_steps(s, picks, (k - 1) as nat);
        assert(picks[k - 1] <= s.len() - 1 - (k - 1));
        lemma_swapped_same_items(prev, s.len() - k, picks[k - 1] as int);
    }
}

/// A shuffle is a permutation: it keeps every item with its multiplicity.
pub proof fn lemma_shuffled_is_permutation<T>(s: Seq<T>, picks: Seq<usize>)
    requires
        picks_valid(s.len(), picks),
    ensures
        shuffled(s, picks).len() == s.len(),
        shuffled(s, picks).to_multiset() =~= s.to_multiset(),
{
    lemma_shuffle_steps_same_items(s, picks, picks.len());
}

/// Shuffle `v` in place with Fisher-Yates, consuming one draw per position
/// from the last one down to 1.
pub fn fisher_yates<T: Copy>(v: &mut Vec<T>, picks: &Vec<usize>)
    requires
        picks_valid(old(v)@.len(), picks@),
    ensures
        final(v)@ == shuffled(old(v)@, picks@),
        final(v)@.to_multiset() =~= old(v)@.to_multiset(),
{
    let n = v.len();
    let ghost orig = v@;
    let mut k: usize = 0;
    let steps: usize = if n == 0 { 0 } else { n - 1 };
    while k < steps
        invariant
            n == orig.len(),
            steps == picks@.len(),
            picks_valid(orig.len(), picks@),
            k <= steps,
            v@ == shuffle_steps(orig, picks@, k as nat),
        decreases steps - k,
    {
        proof {
            lemma_shuffle_steps_same_items(orig, picks@, k as nat);
        }
        let i = n - 1 - k;
        let j = picks[k];
        assert(j <= n - 1 - k);
        let a = v[i];
        let b = v[j];
        v.set(i, b);
        v.set(j, a);
        k = k + 1;
        assert(v@ =~= shuffle_steps(orig, picks@, k as nat));
    }
    proof {
        lemma_shuffled_is_permutation(orig, picks@);
    }
}

} // verus!

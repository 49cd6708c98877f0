//! The values of a box in a random order.

use crate::dims::{fits, side, side_len};
use rand::rngs::ThreadRng;
use rand::seq::SliceRandom;
use rand::thread_rng;
use vstd::prelude::*;

verus! {

/// The values from one to `m`, in rising order.
pub open spec fn sequential(m: int) -> Seq<usize> {
    Seq::new(m as nat, |i: int| (i + 1) as usize)
}

/// `s` holds the values from one to `m`, each once, in some order.
pub open spec fn is_shuffle(s: Seq<usize>, m: int) -> bool {
    s.to_multiset() == sequential(m).to_multiset()
}

/// An arrangement of the values from one to `m` has `m` entries, each of them
/// from one to `m`, and no two alike.
pub proof fn lemma_shuffle_facts(s: Seq<usize>, m: int)
    requires
        0 <= m < usize::MAX,
        is_shuffle(s, m),
    ensures
        s.len() == m,
        forall|i: int| 0 <= i < m ==> 1 <= #[trigger] s[i] <= m,
        s.no_duplicates(),
{
    let q = sequential(m);
    s.to_multiset_ensures();
    q.to_multiset_ensures();
    assert forall|i: int| 0 <= i < m implies 1 <= #[trigger] s[i] <= m by {
        assert(s.contains(s[i]));
        assert(s.to_multiset().count(s[i]) > 0);
        assert(q.contains(s[i]));
    }
    assert(q.no_duplicates());
    q.lemma_multiset_has_no_duplicates();
    s.lemma_multiset_has_no_duplicates_conv();
}

/// The values from one to the side, in rising order.
pub fn sequential_range<const N: usize>() -> (a: Vec<usize>)
    requires
        fits::<N>(),
    ensures
        a@ == sequential(side::<N>()),
{
    let m = side_len::<N>();
    let mut a: Vec<usize> = Vec::new();
    let mut i: usize = 0;
    while i < m
        invariant
            i <= m,
            a@.len() == i,
            forall|j: int| 0 <= j < i ==> a@[j] == j + 1,
        decreases m - i,
    {
        a.push(i + 1);
        i += 1;
    }
    assert(a@ =~= sequential(m as int));
    a
}

/// `rand::rngs::ThreadRng`, the handle to the generator of the current thread.
/// Nothing inside it is visible here.
#[verifier::external_type_specification]
#[verifier::external_body]
pub struct ExThreadRng(ThreadRng);

/// `rand::thread_rng`. Trusted: it hands out the generator of the current
/// thread, which is seeded from the operating system at its first use;
/// nothing is claimed of the numbers that the generator will give.
pub assume_specification[ thread_rng ]() -> (rng: ThreadRng)
;

/// `rand::seq::SliceRandom::shuffle` on the vector's slice. Trusted: the
/// vector holds afterwards what it held before, each item as often as before;
/// the order is left open.
#[verifier::external_body]
fn shuffle_in_place(a: &mut Vec<usize>, rng: &mut ThreadRng)
    ensures
        final(a)@.to_multiset() == old(a)@.to_multiset(),
{
    a.shuffle(rng);
}

/// The values from one to the side, in a random order.
pub fn shuffle_range<const N: usize>() -> (a: Vec<usize>)
    requires
        fits::<N>(),
    ensures
        is_shuffle(a@, side::<N>()),
{
    let mut a = sequential_range::<N>();
    let mut rng = thread_rng();
    shuffle_in_place(&mut a, &mut rng);
    a
}

} // verus!

//! Building a sequence of an exact length from a source of unknown length.

use vstd::prelude::*;

verus! {

/// The rejection of a source that gave `produced` items where exactly
/// `expected` were asked for.
#[derive(Clone, Copy, Debug, PartialEq, Eq, Structural)]
pub struct LengthMismatch {
    pub produced: usize,
    pub expected: usize,
}

/// Moves the items of `source` one by one into a sequence of exactly
/// `capacity` items. A source that ends early is rejected with the number of
/// items it gave; a longer one is rejected at its first surplus item, which is
/// counted but not stored. On rejection the items taken so far are released.
pub fn new_arr<T>(capacity: usize, source: Vec<T>) -> (r: Result<Vec<T>, LengthMismatch>)
    ensures
        source@.len() == capacity ==> (r matches Ok(a) && a@ == source@),
        source@.len() < capacity ==> r == Err::<Vec<T>, LengthMismatch>(
            (LengthMismatch { produced: source@.len() as usize, expected: capacity }),
        ),
        source@.len() > capacity ==> r == Err::<Vec<T>, LengthMismatch>(
            (LengthMismatch { produced: (capacity + 1) as usize, expected: capacity }),
        ),
{
    let ghost all = source@;
    let total = source.len();
    let mut placed: Vec<T> = Vec::new();
    let mut count: usize = 0;
    for item in it: source.into_iter()
        invariant
            it.seq() == all,
            all.len() == total,
            count == it.index(),
            count <= capacity,
            placed@ == all.take(count as int),
    {
        if count == capacity {
            return Err(LengthMismatch { produced: capacity + 1, expected: capacity });
        }
        placed.push(item);
        count += 1;
        assert(all.take(count as int) == all.take(count - 1).push(all[count - 1]));
    }
    if count < capacity {
        Err(LengthMismatch { produced: count, expected: capacity })
    } else {
        assert(all.take(count as int) == all);
        Ok(placed)
    }
}

/// Overwrites the leading slots of `hydrate` with the items of `it`, slot by
/// slot, until either runs out; the remaining slots keep what they held and
/// surplus items are dropped.
pub fn fill_array_unchecked<const N: usize, T>(hydrate: [T; N], it: Vec<T>) -> (r: [T; N])
    ensures
        forall|i: int|
            0 <= i < N ==> #[trigger] r@[i] == (if i < it@.len() {
                it@[i]
            } else {
                hydrate@[i]
            }),
{
    let ghost all = it@;
    let mut out = hydrate;
    let mut count: usize = 0;
    for item in src: it.into_iter()
        invariant
            src.seq() == all,
            count == (if src.index() < N {
                src.index()
            } else {
                N as int
            }),
            forall|i: int|
                0 <= i < N ==> #[trigger] out@[i] == (if i < count {
                    all[i]
                } else {
                    hydrate@[i]
                }),
    {
        if count < N {
            out[count] = item;
            count += 1;
        }
    }
    out
}

} // verus!

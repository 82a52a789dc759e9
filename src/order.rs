//! Ordering values by a time key.
use vstd::prelude::*;

verus! {

/// A value placed on the time line by a key.
pub trait Timed {
    spec fn time(&self) -> int;

    fn time_key(&self) -> (r: u128)
        ensures
            r as int == self.time(),
    ;
}

/// Whether the values stand in ascending order of their keys.
pub open spec fn sorted_by_time<T: Timed>(s: Seq<T>) -> bool {
    forall|i: int, j: int| 0 <= i <= j < s.len() ==> s[i].time() <= s[j].time()
}

/// Relies on `slice::sort_by_key`: it permutes the elements into ascending order of the key.
#[verifier::external_body]
pub(crate) fn sort_by_time<T: Timed>(v: &mut Vec<T>)
    ensures
        final(v)@.to_multiset() == old(v)@.to_multiset(),
        final(v)@.len() == old(v)@.len(),
        sorted_by_time(final(v)@),
{
    v.sort_by_key(|x| x.time_key())
}

} // verus!

//! Read-only queries over an account store.

use vstd::prelude::*;
use crate::storage::Balance;
use crate::storage::Name;
use crate::storage::Storage;

verus! {

/// The account holding the largest balance, or nothing when the store
/// is empty. Ties are broken arbitrarily.
pub fn compute_most_profitable(storage: &Storage) -> (r: Option<(Name, Balance)>)
    requires
        storage.wf(),
    ensures
        r matches Some(p) ==> storage@.contains_key(p.0@) && p.1@ == storage@[p.0@] && forall|
            k: Seq<char>,
        | storage@.contains_key(k) ==> storage@[k] <= p.1@,
        r is None ==> forall|k: Seq<char>| !storage@.contains_key(k),
{
    let all = storage.get_all();
    if all.len() == 0 {
        proof {
            assert forall|k: Seq<char>| !storage@.contains_key(k) by {
                if storage@.contains_key(k) {
                    let i = choose|i: int| 0 <= i < all@.len() && all@[i].0@ == k;
                }
            }
        }
        return None;
    }
    let n = all.len();
    let mut best: usize = 0;
    let mut i: usize = 1;
    while i < n
        invariant
            n == all@.len(),
            1 <= i <= n,
            best < i,
            forall|j: int| 0 <= j < i ==> all@[j].1@ <= all@[best as int].1@,
        decreases n - i,
    {
        if all[i].1.value() >= all[best].1.value() {
            best = i;
        }
        i = i + 1;
    }
    let pair = (all[best].0.clone(), all[best].1);
    proof {
        assert forall|k: Seq<char>| storage@.contains_key(k) implies storage@[k] <= pair.1@ by {
            let j = choose|j: int| 0 <= j < all@.len() && all@[j].0@ == k;
            assert(all@[j].1@ <= all@[best as int].1@);
        }
    }
    Some(pair)
}

} // verus!

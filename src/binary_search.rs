use vstd::prelude::*;
use crate::order::ascending;
use crate::linear_search::{hits, read_search_problem, search_problem};
use crate::text::{nat_decimal, usize_to_string, words};

verus! {

/// Search of a sorted sequence for a value by halving.
pub trait BinarySearch<T, TIndex> {
    /// The elements searched.
    spec fn elements(&self) -> Seq<T>;

    /// An index holding `value`; on sorted elements, the last such index.
    fn binary_search2(&self, value: &T) -> (r: Option<TIndex>)
    ;
}

impl BinarySearch<usize, usize> for [usize] {
    open spec fn elements(&self) -> Seq<usize> {
        self@
    }

    fn binary_search2(&self, value: &usize) -> (r: Option<usize>)
        ensures
            r is Some ==> r->Some_0 < self@.len() && self@[r->Some_0 as int] == *value,
            ascending(self@) ==> (r is None <==> !self@.contains(*value)),
            ascending(self@) && r is Some ==> forall|k: int|
                r->Some_0 < k < self@.len() ==> self@[k] != *value,
    {
        let mut lo: usize = 0;
        let mut hi: usize = self.len();
        while lo < hi
            invariant
                lo <= hi <= self@.len(),
                ascending(self@) ==> forall|k: int| 0 <= k < lo ==> self@[k] <= *value,
                ascending(self@) ==> forall|k: int| hi <= k < self@.len() ==> self@[k] > *value,
            decreases hi - lo,
        {
            let mid = lo + (hi - lo) / 2;
            if self[mid] <= *value {
                lo = mid + 1;
            } else {
                hi = mid;
            }
        }
        if lo > 0 && self[lo - 1] == *value {
            Some(lo - 1)
        } else {
            proof {
                if ascending(self@) && self@.contains(*value) {
                    let k = choose|k: int| 0 <= k < self@.len() && self@[k] == *value;
                    if k < lo - 1 {
                        assert(self@[k] <= self@[lo - 1]);
                    }
                }
            }
            None
        }
    }
}

/// Reads a search problem, as [`search_problem`] describes, and returns in
/// decimal how many targets are found among the values by binary search; when
/// the values are in ascending order, that is how many targets occur among
/// them.
pub fn input_binary_search(input: &str) -> (r: Option<String>)
    ensures
        search_problem(words(input@)) is None ==> r is None,
        search_problem(words(input@)) is Some ==> r is Some,
        search_problem(words(input@)) is Some && ascending(search_problem(words(input@))->Some_0.0)
            ==> r->Some_0@ == nat_decimal(
            hits(search_problem(words(input@))->Some_0.0, search_problem(words(input@))->Some_0.1),
        ),
{
    let (values, targets) = match read_search_problem(input) {
        Some(p) => p,
        None => {
            return None;
        },
    };
    let mut count: usize = 0;
    let mut j: usize = 0;
    while j < targets.len()
        invariant
            j <= targets@.len(),
            ascending(values@) ==> count == hits(values@, targets@.take(j as int)),
            count <= j,
        decreases targets.len() - j,
    {
        assert(targets@.take(j + 1).drop_last() =~= targets@.take(j as int));
        if values.as_slice().binary_search2(&targets[j]).is_some() {
            count = count + 1;
        }
        j = j + 1;
    }
    assert(targets@.take(targets@.len() as int) =~= targets@);
    Some(usize_to_string(count))
}

} // verus!

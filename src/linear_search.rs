use vstd::prelude::*;
use crate::order::copy_range;
use crate::text::{nat_decimal, parse_usizes, split_words, string_views, usize_to_string, usize_words, words};

verus! {

/// Search of a sequence for a value, front to back.
pub trait LinearSearch<T, TIndex> {
    /// The elements searched.
    spec fn elements(&self) -> Seq<T>;

    /// The first index holding `value`.
    fn linear_search(&self, value: &T) -> (r: Option<TIndex>)
        ensures
            r is None <==> !self.elements().contains(*value),
    ;

    /// The first index from `start` on holding `value`.
    fn linear_search_with(&self, value: &T, start: TIndex) -> (r: Option<TIndex>)
    ;
}

impl LinearSearch<usize, usize> for [usize] {
    open spec fn elements(&self) -> Seq<usize> {
        self@
    }

    fn linear_search(&self, value: &usize) -> (r: Option<usize>)
        ensures
            r is None <==> !self@.contains(*value),
            r is Some ==> r->Some_0 < self@.len() && self@[r->Some_0 as int] == *value
                && forall|k: int| 0 <= k < r->Some_0 ==> self@[k] != *value,
    {
        self.linear_search_with(value, 0)
    }

    fn linear_search_with(&self, value: &usize, start: usize) -> (r: Option<usize>)
        ensures
            start >= self@.len() ==> r is None,
            r is None <==> forall|k: int| start <= k < self@.len() ==> self@[k] != *value,
            r is Some ==> start <= r->Some_0 < self@.len() && self@[r->Some_0 as int] == *value
                && forall|k: int| start <= k < r->Some_0 ==> self@[k] != *value,
    {
        let mut index: usize = start;
        while index < self.len()
            invariant
                start <= index,
                forall|k: int| start <= k < index ==> self@[k] != *value,
            decreases self.len() - index,
        {
            if self[index] == *value {
                return Some(index);
            }
            index = index + 1;
        }
        None
    }
}

/// The values and the targets that the words `ws` give: a count `n`, `n`
/// values, a count `q` and `q` targets, all decimal; words after them are
/// ignored. `None` when a word is no number or there are too few.
pub open spec fn search_problem(ws: Seq<Seq<char>>) -> Option<(Seq<usize>, Seq<usize>)> {
    match usize_words(ws) {
        None => None,
        Some(nums) => if nums.len() >= 1 && nums.len() >= nums[0] + 2 && nums.len() >= nums[0]
            + 2 + nums[nums[0] + 1] {
            let n = nums[0] as int;
            let q = nums[n + 1] as int;
            Some((nums.subrange(1, n + 1), nums.subrange(n + 2, n + 2 + q)))
        } else {
            None
        },
    }
}

/// How many of `targets` occur in `values`.
pub open spec fn hits(values: Seq<usize>, targets: Seq<usize>) -> nat
    decreases targets.len(),
{
    if targets.len() == 0 {
        0
    } else {
        hits(values, targets.drop_last()) + if values.contains(targets.last()) {
            1nat
        } else {
            0nat
        }
    }
}

/// Reads the values and the targets of a search problem, as
/// [`search_problem`] describes.
pub fn read_search_problem(input: &str) -> (r: Option<(Vec<usize>, Vec<usize>)>)
    ensures
        search_problem(words(input@)) is None ==> r is None,
        search_problem(words(input@)) is Some ==> r is Some && r->Some_0.0@ == search_problem(
            words(input@),
        )->Some_0.0 && r->Some_0.1@ == search_problem(words(input@))->Some_0.1,
{
    let ws = split_words(input);
    assert(string_views(ws@).skip(0) =~= words(input@));
    let nums = match parse_usizes(&ws, 0) {
        Some(v) => v,
        None => {
            return None;
        },
    };
    if nums.len() < 1 {
        return None;
    }
    let n = nums[0];
    if nums.len() - 1 < n || nums.len() - 1 - n < 1 {
        return None;
    }
    let q = nums[n + 1];
    if nums.len() - n - 2 < q {
        return None;
    }
    let values = copy_range(&nums, 1, n + 1);
    let targets = copy_range(&nums, n + 2, n + 2 + q);
    Some((values, targets))
}

/// Reads a search problem, as [`search_problem`] describes, and returns in
/// decimal how many targets occur among the values, each found by a linear
/// search.
pub fn input_linear_search(input: &str) -> (r: Option<String>)
    ensures
        search_problem(words(input@)) is None ==> r is None,
        search_problem(words(input@)) is Some ==> r is Some && r->Some_0@ == nat_decimal(
            hits(search_problem(words(input@))->Some_0.0, search_problem(words(input@))->Some_0.1),
        ),
{
    let (values, targets) = match read_search_problem(input) {
        Some(p) => p,
        None => {
            return None;
        },
    };
    let mut count: usize = 0;
    let mut j: usize = 0;
    while j < targets.len()
        invariant
            j <= targets@.len(),
            count == hits(values@, targets@.take(j as int)),
            count <= j,
        decreases targets.len() - j,
    {
        assert(targets@.take(j + 1).drop_last() =~= targets@.take(j as int));
        if values.as_slice().linear_search(&targets[j]).is_some() {
            count = count + 1;
        }
        j = j + 1;
    }
    assert(targets@.take(targets@.len() as int) =~= targets@);
    Some(usize_to_string(count))
}

} // verus!

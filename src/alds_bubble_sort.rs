use vstd::prelude::*;
use crate::text::{joined, parse_usize, parse_usizes, split_words, string_views, usize_decimals, usize_literal, usize_words, usizes_text, words};
use crate::order::{lemma_inversions_bound,
    ascending, inversions, lemma_ascending_no_inversions, lemma_adjacent_swap_inversions, lemma_neighbours_ascending,
    lemma_swap_keeps_elements, swapped,
};

verus! {

/// Sorts `seq` in place, in ascending order, by passes from the back that
/// exchange neighbours out of order, until a pass exchanges none. Returns the
/// number of exchanges, which is the number of inversions of the input.
pub fn bubble_sort(seq: &mut Vec<usize>) -> (r: usize)
    requires
        inversions(old(seq)@) <= usize::MAX,
    ensures
        ascending(final(seq)@),
        final(seq)@.to_multiset() == old(seq)@.to_multiset(),
        r == inversions(old(seq)@),
{
    let ghost start = seq@;
    let mut is_continue = true;
    let mut swap_count: usize = 0;
    let n = seq.len();
    while is_continue
        invariant
            n == seq@.len(),
            seq@.to_multiset() == start.to_multiset(),
            swap_count + inversions(seq@) == inversions(start),
            inversions(start) <= usize::MAX,
            !is_continue ==> forall|k: int| 0 < k < n ==> seq@[k - 1] <= #[trigger] seq@[k],
        decreases inversions(seq@) + if is_continue {
            1int
        } else {
            0int
        },
    {
        is_continue = false;
        let ghost pass_start = inversions(seq@);
        let mut i: usize = n;
        while i > 1
            invariant
                n == seq@.len(),
                1 <= i <= n || (n == 0 && i == 0),
                seq@.to_multiset() == start.to_multiset(),
                swap_count + inversions(seq@) == inversions(start),
                inversions(start) <= usize::MAX,
                is_continue ==> inversions(seq@) < pass_start,
                !is_continue ==> inversions(seq@) == pass_start,
                !is_continue ==> forall|k: int| i <= k < n ==> seq@[k - 1] <= #[trigger] seq@[k],
            decreases i,
        {
            i = i - 1;
            if seq[i] < seq[i - 1] {
                proof {
                    lemma_adjacent_swap_inversions(seq@, i - 1);
                    lemma_swap_keeps_elements(seq@, i - 1, i as int);
                }
                let ghost before = seq@;
                let a = seq[i - 1];
                let b = seq[i];
                seq.set(i - 1, b);
                seq.set(i, a);
                assert(seq@ =~= swapped(before, i - 1, i as int));
                swap_count = swap_count + 1;
                is_continue = true;
            }
        }
    }
    proof {
        lemma_neighbours_ascending(seq@);
        lemma_ascending_no_inversions(seq@);
    }
    swap_count
}

/// The numbers that the words `ws` list after a leading count, or `None` when
/// the count or one of the numbers is not a decimal integer.
pub open spec fn counted_numbers(ws: Seq<Seq<char>>) -> Option<Seq<usize>> {
    if ws.len() >= 1 && usize_literal(ws[0]) is Some {
        usize_words(ws.skip(1))
    } else {
        None
    }
}

/// Reads a count and then numbers, separated by whitespace, and bubble-sorts
/// the numbers. Returns them sorted, in decimal separated by spaces, with the
/// number of exchanges. `None` when the input is not of that form, or when
/// the square of the number of numbers does not fit in `usize`, which bounds
/// the exchanges.
pub fn input_bubble_sort(input: &str) -> (r: Option<(String, usize)>)
    ensures
        counted_numbers(words(input@)) is None ==> r is None,
        counted_numbers(words(input@)) is Some ==> {
            let v = counted_numbers(words(input@))->Some_0;
            &&& v.len() * v.len() > usize::MAX ==> r is None
            &&& v.len() * v.len() <= usize::MAX ==> r is Some && r->Some_0.1 == inversions(v)
                && exists|sorted: Seq<usize>|
                ascending(sorted) && sorted.to_multiset() == v.to_multiset() && r->Some_0.0@
                    == joined(usize_decimals(sorted), seq![' '])
        },
{
    let ws = split_words(input);
    if ws.len() == 0 {
        return None;
    }
    assert(string_views(ws@)[0] == ws@[0]@);
    if parse_usize(ws[0].as_str()).is_none() {
        return None;
    }
    let mut seq = match parse_usizes(&ws, 1) {
        Some(v) => v,
        None => {
            return None;
        },
    };
    if seq.len().checked_mul(seq.len()).is_none() {
        return None;
    }
    proof {
        lemma_inversions_bound(seq@);
    }
    let ghost before = seq@;
    let swap_count = bubble_sort(&mut seq);
    let text = usizes_text(seq.as_slice());
    assert(ascending(seq@) && seq@.to_multiset() == before.to_multiset() && text@ == joined(usize_decimals(seq@), seq![' ']));
    Some((text, swap_count))
}

} // verus!

use vstd::prelude::*;
use crate::order::{ascending, lemma_swap_keeps_elements, swapped};
use crate::alds_bubble_sort::counted_numbers;
use crate::text::{
    joined, nat_decimal, parse_usize, parse_usizes, split_words, string_views, usize_decimals,
    usize_to_string, usizes_text, words,
};

verus! {

broadcast use vstd::seq_lib::group_to_multiset_ensures;

/// The index of the first smallest element of the non-empty `s`.
pub open spec fn first_min_index(s: Seq<usize>) -> int
    decreases s.len(),
{
    if s.len() <= 1 {
        0
    } else {
        let m = first_min_index(s.drop_last());
        if s.last() < s[m] {
            s.len() - 1
        } else {
            m
        }
    }
}

/// The exchanges selection sort makes on `s`: at each position, the first
/// smallest remaining element is exchanged into place when it is not there
/// already.
pub open spec fn selection_swaps(s: Seq<usize>) -> nat
    decreases s.len(),
    via selection_swaps_decreases
{
    if s.len() == 0 {
        0
    } else {
        let m = first_min_index(s);
        (if m != 0 {
            1nat
        } else {
            0nat
        }) + selection_swaps(swapped(s, 0, m).drop_first())
    }
}

#[via_fn]
proof fn selection_swaps_decreases(s: Seq<usize>) {
    if s.len() > 0 {
        lemma_first_min_index(s);
    }
}

proof fn lemma_first_min_index(s: Seq<usize>)
    requires
        s.len() > 0,
    ensures
        0 <= first_min_index(s) < s.len(),
        forall|k: int| 0 <= k < s.len() ==> s[first_min_index(s)] <= #[trigger] s[k],
    decreases s.len(),
{
    if s.len() > 1 {
        let p = s.drop_last();
        lemma_first_min_index(p);
        assert forall|k: int| 0 <= k < s.len() implies s[first_min_index(s)] <= #[trigger] s[k] by {
            if k < s.len() - 1 {
                assert(s[k] == p[k]);
            }
            assert(s[first_min_index(p)] == p[first_min_index(p)]);
        }
    }
}

/// Sorts `seq` in place, in ascending order, by selection, and returns the
/// number of exchanges made.
pub fn selection_sort(seq: &mut Vec<usize>) -> (r: usize)
    ensures
        ascending(final(seq)@),
        final(seq)@.to_multiset() == old(seq)@.to_multiset(),
        r == selection_swaps(old(seq)@),
{
    let ghost start = seq@;
    let len = seq.len();
    let mut swap_count: usize = 0;
    let mut i: usize = 0;
    assert(seq@.skip(0) =~= seq@);
    while i < len
        invariant
            len == seq@.len(),
            i <= len,
            seq@.to_multiset() == start.to_multiset(),
            swap_count <= i,
            swap_count + selection_swaps(seq@.skip(i as int)) == selection_swaps(start),
            forall|a: int, b: int| 0 <= a < b < i ==> seq@[a] <= seq@[b],
            forall|a: int, b: int| 0 <= a < i <= b < len ==> seq@[a] <= seq@[b],
        decreases len - i,
    {
        let ghost rest = seq@.skip(i as int);
        let mut minj: usize = i;
        let mut j: usize = i + 1;
        assert(seq@.subrange(i as int, i + 1).len() == 1);
        while j < len
            invariant
                len == seq@.len(),
                i < j <= len,
                rest == seq@.skip(i as int),
                minj == i + first_min_index(seq@.subrange(i as int, j as int)),
            decreases len - j,
        {
            let ghost sub = seq@.subrange(i as int, j + 1);
            assert(sub.drop_last() =~= seq@.subrange(i as int, j as int));
            proof {
                lemma_first_min_index(seq@.subrange(i as int, j as int));
            }
            if seq[j] < seq[minj] {
                minj = j;
            }
            j = j + 1;
        }
        assert(seq@.subrange(i as int, len as int) =~= rest);
        proof {
            lemma_first_min_index(rest);
            lemma_swap_keeps_elements(seq@, i as int, minj as int);
        }
        let ghost before = seq@;
        if i != minj {
            let a = seq[i];
            let b = seq[minj];
            seq.set(i, b);
            seq.set(minj, a);
            swap_count = swap_count + 1;
        }
        assert(seq@ =~= swapped(before, i as int, minj as int));
        assert(seq@.skip(i + 1) =~= swapped(rest, 0, minj - i).drop_first());
        assert forall|a: int, b: int| 0 <= a < i + 1 <= b < len implies seq@[a] <= seq@[b] by {
            if a == i {
                assert(seq@[a] == rest[minj - i]);
                if b == minj {
                    assert(seq@[b] == rest[0]);
                } else {
                    assert(seq@[b] == rest[b - i]);
                }
            } else {
                assert(seq@[a] == before[a]);
                if b == minj {
                    assert(seq@[b] == before[i as int]);
                } else {
                    assert(seq@[b] == before[b]);
                }
            }
        }
        assert forall|a: int, b: int| 0 <= a < b < i + 1 implies seq@[a] <= seq@[b] by {
            assert(seq@[a] == before[a]);
            if b < i {
                assert(seq@[b] == before[b]);
            } else {
                assert(seq@[b] == rest[minj - i]);
                assert(before[minj as int] == rest[minj - i]);
            }
        }
        i = i + 1;
    }
    assert(seq@.skip(len as int) =~= Seq::<usize>::empty());
    swap_count
}

/// Reads a count and then numbers, separated by whitespace, and sorts the
/// numbers by selection. Returns two lines: the sorted numbers in decimal
/// separated by spaces, and the number of exchanges made.
pub fn input_selection_sort(input: &str) -> (r: Option<String>)
    ensures
        counted_numbers(words(input@)) is None ==> r is None,
        counted_numbers(words(input@)) is Some ==> {
            let v = counted_numbers(words(input@))->Some_0;
            r is Some && exists|sorted: Seq<usize>|
                ascending(sorted) && sorted.to_multiset() == v.to_multiset() && r->Some_0@
                    == joined(usize_decimals(sorted), seq![' ']) + seq!['\n'] + nat_decimal(
                    selection_swaps(v),
                )
        },
{
    let ws = split_words(input);
    if ws.len() == 0 {
        return None;
    }
    assert(string_views(ws@)[0] == ws@[0]@);
    if parse_usize(ws[0].as_str()).is_none() {
        return None;
    }
    let mut seq = match parse_usizes(&ws, 1) {
        Some(v) => v,
        None => {
            return None;
        },
    };
    let ghost before = seq@;
    let swap_count = selection_sort(&mut seq);
    proof {
        reveal_strlit("\n");
    }
    let text = usizes_text(seq.as_slice());
    let out = text.concat("\n");
    let out = out.concat(usize_to_string(swap_count).as_str());
    assert(out@ =~= joined(usize_decimals(seq@), seq![' ']) + seq!['\n'] + nat_decimal(
        selection_swaps(before),
    ));
    Some(out)
}

} // verus!

use vstd::prelude::*;
use crate::order::{ascending, copy_range};
use crate::alds_bubble_sort::counted_numbers;
use crate::text::{
    joined, nat_decimal, parse_usize, parse_usizes, split_words, string_views, usize_decimals,
    usize_to_string, usizes_text, words,
};

verus! {

broadcast use vstd::seq_lib::group_to_multiset_ensures, vstd::seq_lib::lemma_multiset_commutative;

/// The elements merge sort writes while sorting `n` elements: every merge of
/// two halves writes each element of the range once.
pub open spec fn merge_writes(n: nat) -> nat
    decreases n,
{
    if n <= 1 {
        0
    } else {
        n + merge_writes(n / 2) + merge_writes((n - n / 2) as nat)
    }
}

/// Whether `a` and `b` agree outside the range from `lo` up to `hi`.
pub open spec fn same_outside(a: Seq<usize>, b: Seq<usize>, lo: int, hi: int) -> bool {
    &&& a.len() == b.len()
    &&& forall|k: int| 0 <= k < a.len() && !(lo <= k < hi) ==> a[k] == b[k]
}

/// Merges the ascending ranges `lo..mid` and `mid..hi` of `seq` into one
/// ascending range, taking from the left range on ties.
fn merge(seq: &mut Vec<usize>, lo: usize, mid: usize, hi: usize)
    requires
        lo < mid < hi <= old(seq)@.len(),
        ascending(old(seq)@.subrange(lo as int, mid as int)),
        ascending(old(seq)@.subrange(mid as int, hi as int)),
    ensures
        same_outside(final(seq)@, old(seq)@, lo as int, hi as int),
        ascending(final(seq)@.subrange(lo as int, hi as int)),
        final(seq)@.subrange(lo as int, hi as int).to_multiset() == old(seq)@.subrange(
            lo as int,
            hi as int,
        ).to_multiset(),
{
    let ghost start = seq@;
    let left = copy_range(seq, lo, mid);
    let right = copy_range(seq, mid, hi);
    let mut i: usize = 0;
    let mut j: usize = 0;
    let mut k: usize = lo;
    while k < hi
        invariant
            lo <= k <= hi <= seq@.len(),
            lo < mid < hi,
            start.len() == seq@.len(),
            left@.len() == mid - lo,
            right@.len() == hi - mid,
            left@ == start.subrange(lo as int, mid as int),
            right@ == start.subrange(mid as int, hi as int),
            ascending(left@),
            ascending(right@),
            i <= left@.len(),
            j <= right@.len(),
            k - lo == i + j,
            same_outside(seq@, start, lo as int, hi as int),
            ascending(seq@.subrange(lo as int, k as int)),
            seq@.subrange(lo as int, k as int).to_multiset() == left@.take(i as int).to_multiset().add(
                right@.take(j as int).to_multiset(),
            ),
            k > lo && i < left@.len() ==> seq@[k - 1] <= left@[i as int],
            k > lo && j < right@.len() ==> seq@[k - 1] <= right@[j as int],
        decreases hi - k,
    {
        let ghost before = seq@;
        let take_left = i < left.len() && (j >= right.len() || left[i] <= right[j]);
        let x;
        if take_left {
            x = left[i];
            assert(left@.take(i + 1) =~= left@.take(i as int).push(x));
            i = i + 1;
        } else {
            x = right[j];
            assert(right@.take(j + 1) =~= right@.take(j as int).push(x));
            j = j + 1;
        }
        seq.set(k, x);
        assert(seq@.subrange(lo as int, k + 1) =~= before.subrange(lo as int, k as int).push(x));
        let ghost sub = seq@.subrange(lo as int, k + 1);
        let ghost prev = before.subrange(lo as int, k as int);
        assert forall|a: int, b: int| 0 <= a < b < sub.len() implies #[trigger] sub[a] <= #[trigger] sub[b] by {
            assert(sub[a] == prev[a]);
            if b == k - lo {
                if a < k - lo - 1 {
                    assert(prev[a] <= prev[k - lo - 1]);
                }
                assert(prev[k - lo - 1] == before[k - 1]);
            } else {
                assert(sub[b] == prev[b]);
            }
        }
        k = k + 1;
    }
    assert(left@.take(left@.len() as int) =~= left@);
    assert(right@.take(right@.len() as int) =~= right@);
    assert(start.subrange(lo as int, hi as int) =~= start.subrange(lo as int, mid as int)
        + start.subrange(mid as int, hi as int));
}

proof fn lemma_halves_keep_elements(a: Seq<usize>, b: Seq<usize>, lo: int, mid: int, hi: int)
    requires
        0 <= lo <= mid <= hi <= a.len(),
        a.len() == b.len(),
        a.subrange(lo, mid).to_multiset() == b.subrange(lo, mid).to_multiset(),
        a.subrange(mid, hi) == b.subrange(mid, hi),
    ensures
        a.subrange(lo, hi).to_multiset() == b.subrange(lo, hi).to_multiset(),
{
    assert(a.subrange(lo, hi) =~= a.subrange(lo, mid) + a.subrange(mid, hi));
    assert(b.subrange(lo, hi) =~= b.subrange(lo, mid) + b.subrange(mid, hi));
}

fn sort_range(seq: &mut Vec<usize>, lo: usize, hi: usize) -> (r: usize)
    requires
        lo <= hi <= old(seq)@.len(),
        merge_writes((hi - lo) as nat) <= usize::MAX,
    ensures
        same_outside(final(seq)@, old(seq)@, lo as int, hi as int),
        ascending(final(seq)@.subrange(lo as int, hi as int)),
        final(seq)@.subrange(lo as int, hi as int).to_multiset() == old(seq)@.subrange(
            lo as int,
            hi as int,
        ).to_multiset(),
        r == merge_writes((hi - lo) as nat),
    decreases hi - lo,
{
    let n = hi - lo;
    if n <= 1 {
        return 0;
    }
    let ghost s0 = seq@;
    let mid = lo + n / 2;
    let c1 = sort_range(seq, lo, mid);
    let ghost s1 = seq@;
    assert(s1.subrange(mid as int, hi as int) =~= s0.subrange(mid as int, hi as int));
    let c2 = sort_range(seq, mid, hi);
    let ghost s2 = seq@;
    assert(s2.subrange(lo as int, mid as int) =~= s1.subrange(lo as int, mid as int));
    proof {
        lemma_halves_keep_elements(s1, s0, lo as int, mid as int, hi as int);
        assert(s2.subrange(lo as int, hi as int) =~= s2.subrange(lo as int, mid as int)
            + s2.subrange(mid as int, hi as int));
        assert(s1.subrange(lo as int, hi as int) =~= s1.subrange(lo as int, mid as int)
            + s1.subrange(mid as int, hi as int));
    }
    merge(seq, lo, mid, hi);
    n + c1 + c2
}

/// Sorts `seq` in place, in ascending order, by merge sort, and returns the
/// number of elements written by the merges.
pub fn merge_sort(seq: &mut Vec<usize>) -> (r: usize)
    requires
        merge_writes(old(seq)@.len()) <= usize::MAX,
    ensures
        ascending(final(seq)@),
        final(seq)@.to_multiset() == old(seq)@.to_multiset(),
        r == merge_writes(old(seq)@.len()),
{
    let n = seq.len();
    let ghost start = seq@;
    let r = sort_range(seq, 0, n);
    assert(seq@.subrange(0, n as int) =~= seq@);
    assert(start.subrange(0, n as int) =~= start);
    r
}

/// `x` when it fits in `usize`.
pub open spec fn fitting(x: nat) -> Option<usize> {
    if x <= usize::MAX {
        Some(x as usize)
    } else {
        None
    }
}

fn add3(a: Option<usize>, b: Option<usize>, c: Option<usize>) -> (r: Option<usize>)
    ensures
        a is Some && b is Some && c is Some ==> r == fitting(
            (a->Some_0 + b->Some_0 + c->Some_0) as nat,
        ),
        a is None || b is None || c is None ==> r is None,
{
    match (a, b, c) {
        (Some(x), Some(y), Some(z)) => match x.checked_add(y) {
            Some(xy) => xy.checked_add(z),
            None => None,
        },
        _ => None,
    }
}

/// [`merge_writes`] of `n` and of `n + 1`, each where it fits in `usize`.
fn merge_writes_pair(n: usize) -> (r: (Option<usize>, Option<usize>))
    ensures
        r.0 == fitting(merge_writes(n as nat)),
        r.1 == fitting(merge_writes((n + 1) as nat)),
    decreases n,
{
    if n == 0 {
        assert(merge_writes(1) == 0);
        return (Some(0), Some(0));
    }
    if n == 1 {
        assert(merge_writes(2) == 2 + merge_writes(1) + merge_writes(1));
        return (Some(0), Some(2));
    }
    let h = n / 2;
    let (a, b) = merge_writes_pair(h);
    let next: Option<usize> = if n < usize::MAX {
        Some(n + 1)
    } else {
        None
    };
    if n % 2 == 0 {
        assert(merge_writes(n as nat) == n + merge_writes(h as nat) + merge_writes(h as nat));
        assert(merge_writes((n + 1) as nat) == n + 1 + merge_writes(h as nat) + merge_writes(
            (h + 1) as nat,
        ));
        (add3(Some(n), a, a), add3(next, a, b))
    } else {
        assert(merge_writes(n as nat) == n + merge_writes(h as nat) + merge_writes(
            (h + 1) as nat,
        ));
        assert(merge_writes((n + 1) as nat) == n + 1 + merge_writes((h + 1) as nat)
            + merge_writes((h + 1) as nat));
        (add3(Some(n), a, b), add3(next, b, b))
    }
}

/// The number of elements merge sort writes for `n` elements, if it fits in
/// `usize`.
pub fn merge_writes_of(n: usize) -> (r: Option<usize>)
    ensures
        r == fitting(merge_writes(n as nat)),
{
    merge_writes_pair(n).0
}

/// Reads a count and then numbers, separated by whitespace, and merge-sorts
/// the numbers. Returns two lines, each ended by a line feed: the sorted
/// numbers in decimal separated by spaces, and the number of elements the
/// merges wrote. `None` when the input is not of that form or that number
/// does not fit in `usize`.
pub fn input_merge_sort(input: &str) -> (r: Option<String>)
    ensures
        counted_numbers(words(input@)) is None ==> r is None,
        counted_numbers(words(input@)) is Some ==> {
            let v = counted_numbers(words(input@))->Some_0;
            &&& merge_writes(v.len()) > usize::MAX ==> r is None
            &&& merge_writes(v.len()) <= usize::MAX ==> r is Some && exists|sorted: Seq<usize>|
                ascending(sorted) && sorted.to_multiset() == v.to_multiset() && r->Some_0@
                    == joined(usize_decimals(sorted), seq![' ']) + seq!['\n'] + nat_decimal(
                    merge_writes(v.len()),
                ) + seq!['\n']
        },
{
    let ws = split_words(input);
    if ws.len() == 0 {
        return None;
    }
    assert(string_views(ws@)[0] == ws@[0]@);
    if parse_usize(ws[0].as_str()).is_none() {
        return None;
    }
    let mut seq = match parse_usizes(&ws, 1) {
        Some(v) => v,
        None => {
            return None;
        },
    };
    if merge_writes_of(seq.len()).is_none() {
        return None;
    }
    let ghost before = seq@;
    let count = merge_sort(&mut seq);
    proof {
        reveal_strlit("\n");
    }
    let text = usizes_text(seq.as_slice());
    let out = text.concat("\n");
    let out = out.concat(usize_to_string(count).as_str());
    let out = out.concat("\n");
    assert(out@ =~= joined(usize_decimals(seq@), seq![' ']) + seq!['\n'] + nat_decimal(
        merge_writes(before.len()),
    ) + seq!['\n']);
    Some(out)
}

} // verus!

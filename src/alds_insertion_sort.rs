use vstd::prelude::*;
use crate::text::{
    isize_decimals, isize_words, isizes_text, joined, parse_isizes, parse_usize, split_words,
    string_views, usize_literal, words,
};

verus! {

/// `v` placed into `s` after the last element of `s` that is not greater
/// than it, every greater element at the end shifting one place right.
pub open spec fn insert_from_right(s: Seq<isize>, v: isize) -> Seq<isize>
    decreases s.len(),
{
    if s.len() == 0 {
        seq![v]
    } else if s.last() > v {
        insert_from_right(s.drop_last(), v).push(s.last())
    } else {
        s.push(v)
    }
}

/// Insertion sort of `s`: each element in turn inserted into the sorted
/// elements before it.
pub open spec fn insertion_sorted(s: Seq<isize>) -> Seq<isize>
    decreases s.len(),
{
    if s.len() == 0 {
        s
    } else {
        insert_from_right(insertion_sorted(s.drop_last()), s.last())
    }
}

/// The sequence once the first `k` elements of `s` are in insertion-sorted
/// order, the rest untouched.
pub open spec fn sorted_prefix(s: Seq<isize>, k: int) -> Seq<isize> {
    insertion_sorted(s.take(k)) + s.skip(k)
}

/// The states that insertion sort passes through on `s`: the state before
/// each pass that inserts the element at index 1, 2, ..., and then the final
/// state.
pub open spec fn insertion_progress(s: Seq<isize>) -> Seq<Seq<isize>> {
    if s.len() <= 1 {
        seq![s]
    } else {
        Seq::new((s.len() - 1) as nat, |k: int| sorted_prefix(s, k + 1)).push(insertion_sorted(s))
    }
}

/// Whether `s` is in ascending order.
pub open spec fn isizes_ascending(s: Seq<isize>) -> bool {
    forall|i: int, j: int| 0 <= i < j < s.len() ==> s[i] <= s[j]
}

proof fn lemma_insert_sorted(p: Seq<isize>, v: isize)
    requires
        isizes_ascending(p),
    ensures
        isizes_ascending(insert_from_right(p, v)),
        insert_from_right(p, v).to_multiset() == p.to_multiset().insert(v),
    decreases p.len(),
{
    broadcast use vstd::seq_lib::group_to_multiset_ensures;

    if p.len() == 0 {
        assert(seq![v] =~= Seq::<isize>::empty().push(v));
    } else if p.last() > v {
        let q = p.drop_last();
        let l = p.last();
        lemma_insert_sorted(q, v);
        let r = insert_from_right(q, v);
        assert forall|k: int| 0 <= k < r.len() implies r[k] <= l by {
            assert(r.contains(r[k]));
            assert(r.to_multiset().count(r[k]) > 0);
            if r[k] != v {
                assert(q.to_multiset().count(r[k]) > 0);
                assert(q.contains(r[k]));
                let i = choose|i: int| 0 <= i < q.len() && q[i] == r[k];
                assert(p[i] <= p[p.len() - 1]);
            }
        }
        assert(q.push(l) =~= p);
        assert(r.push(l).to_multiset() =~= p.to_multiset().insert(v));
    } else {
        assert forall|k: int| 0 <= k < p.len() implies p[k] <= v by {
            if k < p.len() - 1 {
                assert(p[k] <= p[p.len() - 1]);
            }
        }
    }
}

/// Insertion sort sorts: its result is in ascending order and holds the same
/// elements, as often each.
pub proof fn lemma_insertion_sorted_sorts(s: Seq<isize>)
    ensures
        isizes_ascending(insertion_sorted(s)),
        insertion_sorted(s).to_multiset() == s.to_multiset(),
    decreases s.len(),
{
    broadcast use vstd::seq_lib::group_to_multiset_ensures;

    if s.len() > 0 {
        lemma_insertion_sorted_sorts(s.drop_last());
        lemma_insert_sorted(insertion_sorted(s.drop_last()), s.last());
        assert(s.drop_last().push(s.last()) =~= s);
    }
}

proof fn lemma_insert_shape(p: Seq<isize>, v: isize, m: int)
    requires
        0 <= m <= p.len(),
        forall|k: int| m <= k < p.len() ==> p[k] > v,
        m == 0 || p[m - 1] <= v,
    ensures
        insert_from_right(p, v) == p.take(m) + seq![v] + p.skip(m),
    decreases p.len(),
{
    if p.len() == 0 {
        assert(p.take(m) + seq![v] + p.skip(m) =~= seq![v]);
    } else if m == p.len() {
        assert(p.take(m) + seq![v] + p.skip(m) =~= p.push(v));
    } else {
        lemma_insert_shape(p.drop_last(), v, m);
        assert(p.take(m) + seq![v] + p.skip(m) =~= (p.drop_last().take(m) + seq![v]
            + p.drop_last().skip(m)).push(p.last()));
    }
}

proof fn lemma_insertion_sorted_len(s: Seq<isize>)
    ensures
        insertion_sorted(s).len() == s.len(),
    decreases s.len(),
{
    if s.len() > 0 {
        lemma_insertion_sorted_len(s.drop_last());
        lemma_insert_len(insertion_sorted(s.drop_last()), s.last());
    }
}

proof fn lemma_insert_len(s: Seq<isize>, v: isize)
    ensures
        insert_from_right(s, v).len() == s.len() + 1,
    decreases s.len(),
{
    if s.len() > 0 {
        lemma_insert_len(s.drop_last(), v);
    }
}

/// Sorts `seq` in place by insertion; when `record` holds, also returns the
/// state before each pass and the final state.
fn insertion_sort_core(seq: &mut Vec<isize>, record: bool) -> (r: Vec<Vec<isize>>)
    ensures
        final(seq)@ == insertion_sorted(old(seq)@),
        record ==> r@.map_values(|v: Vec<isize>| v@) == insertion_progress(old(seq)@),
        !record ==> r@.len() == 0,
{
    let ghost s = seq@;
    let n = seq.len();
    let mut progress: Vec<Vec<isize>> = Vec::new();
    if n == 0 {
        if record {
            progress.push(seq.clone());
            assert(progress@.map_values(|v: Vec<isize>| v@) =~= insertion_progress(s));
        }
        return progress;
    }
    let mut i: usize = 1;
    assert(s.take(1) + s.skip(1) =~= s);
    assert(s.take(1).drop_last() =~= Seq::<isize>::empty());
    assert(insertion_sorted(Seq::<isize>::empty()) == Seq::<isize>::empty());
    assert(insertion_sorted(s.take(1)) =~= s.take(1));
    while i < n
        invariant
            n == s.len(),
            1 <= i <= n,
            seq@ == sorted_prefix(s, i as int),
            record ==> progress@.len() == i - 1,
            !record ==> progress@.len() == 0,
            record ==> forall|k: int|
                0 <= k < i - 1 ==> (#[trigger] progress@[k])@ == sorted_prefix(s, k + 1),
        decreases n - i,
    {
        if record {
            progress.push(seq.clone());
            assert(progress@[i - 1]@ == seq@);
        }
        let ghost p = insertion_sorted(s.take(i as int));
        proof {
            lemma_insertion_sorted_len(s.take(i as int));
        }
        let v = seq[i];
        assert(v == s[i as int]);
        let mut j: usize = i;
        while j > 0 && seq[j - 1] > v
            invariant
                1 <= i < n,
                n == seq@.len(),
                n == s.len(),
                p.len() == i,
                j <= i,
                forall|k: int| 0 <= k < j ==> seq@[k] == p[k],
                forall|k: int| j < k <= i ==> seq@[k] == p[k - 1],
                forall|k: int| j <= k < i ==> p[k] > v,
                forall|k: int| i < k < n ==> seq@[k] == s[k],
            decreases j,
        {
            seq.set(j, seq[j - 1]);
            j = j - 1;
        }
        seq.set(j, v);
        proof {
            lemma_insert_shape(p, v, j as int);
            assert(s.take(i + 1).drop_last() =~= s.take(i as int));
            assert(s.take(i + 1).last() == v);
            assert(seq@ =~= sorted_prefix(s, i + 1));
        }
        i = i + 1;
    }
    assert(s.take(n as int) =~= s);
    assert(seq@ =~= insertion_sorted(s));
    if record {
        progress.push(seq.clone());
        assert(progress@.map_values(|v: Vec<isize>| v@) =~= insertion_progress(s));
    }
    progress
}

/// Sorts `seq` in place, in ascending order, by insertion.
pub fn insertion_sort(seq: &mut Vec<isize>)
    ensures
        final(seq)@ == insertion_sorted(old(seq)@),
        isizes_ascending(final(seq)@),
        final(seq)@.to_multiset() == old(seq)@.to_multiset(),
{
    proof {
        lemma_insertion_sorted_sorts(seq@);
    }
    let _ = insertion_sort_core(seq, false);
}

/// Sorts `seq` in place by insertion and returns the states it passed through:
/// the state before each pass that inserts the element at index 1, 2, ...,
/// then the sorted result.
pub fn insersion_sort2(seq: &mut Vec<isize>) -> (r: Vec<Vec<isize>>)
    ensures
        final(seq)@ == insertion_sorted(old(seq)@),
        isizes_ascending(final(seq)@),
        final(seq)@.to_multiset() == old(seq)@.to_multiset(),
        r@.map_values(|v: Vec<isize>| v@) == insertion_progress(old(seq)@),
{
    proof {
        lemma_insertion_sorted_sorts(seq@);
    }
    insertion_sort_core(seq, true)
}

/// The numbers that the words `ws` list after a leading count, or `None` when
/// the count or one of the numbers is not a decimal integer.
pub open spec fn numbers_after_count(ws: Seq<Seq<char>>) -> Option<Seq<isize>> {
    if ws.len() >= 1 && usize_literal(ws[0]) is Some {
        isize_words(ws.skip(1))
    } else {
        None
    }
}

/// Reads a count and then integers, separated by whitespace, and sorts the
/// integers by insertion. Returns them sorted, in decimal separated by
/// spaces, together with the states the sort passed through.
pub fn input_insertion_sort(input: &str) -> (r: Option<(String, Vec<Vec<isize>>)>)
    ensures
        numbers_after_count(words(input@)) is None ==> r is None,
        numbers_after_count(words(input@)) is Some ==> {
            let v = numbers_after_count(words(input@))->Some_0;
            &&& r is Some
            &&& r->Some_0.0@ == joined(isize_decimals(insertion_sorted(v)), seq![' '])
            &&& r->Some_0.1@.map_values(|x: Vec<isize>| x@) == insertion_progress(v)
        },
{
    let ws = split_words(input);
    if ws.len() == 0 {
        return None;
    }
    assert(string_views(ws@)[0] == ws@[0]@);
    if parse_usize(ws[0].as_str()).is_none() {
        return None;
    }
    let mut seq = match parse_isizes(&ws, 1) {
        Some(v) => v,
        None => {
            return None;
        },
    };
    let r = insersion_sort2(&mut seq);
    Some((isizes_text(seq.as_slice()), r))
}

} // verus!

use vstd::prelude::*;

verus! {

broadcast use vstd::seq_lib::group_to_multiset_ensures;

/// Whether `s` is in ascending order.
pub open spec fn ascending(s: Seq<usize>) -> bool {
    forall|i: int, j: int| 0 <= i < j < s.len() ==> s[i] <= s[j]
}

/// `s` with the elements at `i` and `j` exchanged.
pub open spec fn swapped<T>(s: Seq<T>, i: int, j: int) -> Seq<T> {
    s.update(i, s[j]).update(j, s[i])
}

/// How many elements of `t` are smaller than `x`.
pub open spec fn smaller_in(x: usize, t: Seq<usize>) -> nat
    decreases t.len(),
{
    if t.len() == 0 {
        0
    } else {
        (if t[0] < x {
            1nat
        } else {
            0nat
        }) + smaller_in(x, t.drop_first())
    }
}

/// The number of pairs `i < j` with `s[i] > s[j]`.
pub open spec fn inversions(s: Seq<usize>) -> nat
    decreases s.len(),
{
    if s.len() == 0 {
        0
    } else {
        smaller_in(s[0], s.drop_first()) + inversions(s.drop_first())
    }
}

/// Exchanging two elements keeps the multiset of elements.
pub proof fn lemma_swap_keeps_elements<T>(s: Seq<T>, i: int, j: int)
    requires
        0 <= i < s.len(),
        0 <= j < s.len(),
    ensures
        swapped(s, i, j).to_multiset() == s.to_multiset(),
{
    let t = s.update(i, s[j]);
    assert(t.to_multiset() == s.to_multiset().remove(s[i]).insert(s[j]));
    assert(t[j] == if i == j { s[j] } else { s[j] });
    assert(t.update(j, s[i]).to_multiset() == t.to_multiset().remove(t[j]).insert(s[i]));
    assert(s.to_multiset().count(s[i]) > 0);
    assert(swapped(s, i, j).to_multiset() =~= s.to_multiset());
}

proof fn lemma_smaller_in_adjacent_swap(x: usize, t: Seq<usize>, k: int)
    requires
        0 <= k < t.len() - 1,
    ensures
        smaller_in(x, swapped(t, k, k + 1)) == smaller_in(x, t),
    decreases t.len(),
{
    let u = swapped(t, k, k + 1);
    if k == 0 {
        let rest = t.drop_first().drop_first();
        assert(u.drop_first().drop_first() =~= rest);
        assert(u.drop_first()[0] == t[0]);
        assert(t.drop_first()[0] == t[1]);
        assert(smaller_in(x, u.drop_first()) == (if t[0] < x {
            1nat
        } else {
            0nat
        }) + smaller_in(x, rest));
        assert(smaller_in(x, t.drop_first()) == (if t[1] < x {
            1nat
        } else {
            0nat
        }) + smaller_in(x, rest));
    } else {
        assert(u.drop_first() =~= swapped(t.drop_first(), k - 1, k));
        lemma_smaller_in_adjacent_swap(x, t.drop_first(), k - 1);
    }
}

/// Exchanging an adjacent pair that is out of order removes exactly one
/// inversion.
pub proof fn lemma_adjacent_swap_inversions(s: Seq<usize>, k: int)
    requires
        0 <= k < s.len() - 1,
        s[k] > s[k + 1],
    ensures
        inversions(swapped(s, k, k + 1)) + 1 == inversions(s),
    decreases s.len(),
{
    let u = swapped(s, k, k + 1);
    if k == 0 {
        let rest = s.drop_first().drop_first();
        assert(u.drop_first().drop_first() =~= rest);
        assert(u.drop_first()[0] == s[0]);
        assert(s.drop_first()[0] == s[1]);
        assert(u.drop_first().drop_first() =~= rest);
        assert(smaller_in(s[0], s.drop_first()) == 1 + smaller_in(s[0], rest));
        assert(smaller_in(s[1], u.drop_first()) == smaller_in(s[1], rest));
        assert(inversions(s.drop_first()) == smaller_in(s[1], rest) + inversions(rest));
        assert(inversions(u.drop_first()) == smaller_in(s[0], rest) + inversions(rest));
    } else {
        assert(u.drop_first() =~= swapped(s.drop_first(), k - 1, k));
        lemma_adjacent_swap_inversions(s.drop_first(), k - 1);
        lemma_smaller_in_adjacent_swap(s[0], s.drop_first(), k - 1);
    }
}

proof fn lemma_none_smaller(x: usize, t: Seq<usize>)
    requires
        forall|k: int| 0 <= k < t.len() ==> x <= #[trigger] t[k],
    ensures
        smaller_in(x, t) == 0,
    decreases t.len(),
{
    if t.len() > 0 {
        lemma_none_smaller(x, t.drop_first());
    }
}

/// A sequence in ascending order has no inversions.
pub proof fn lemma_ascending_no_inversions(s: Seq<usize>)
    requires
        ascending(s),
    ensures
        inversions(s) == 0,
    decreases s.len(),
{
    if s.len() > 0 {
        assert(forall|k: int| 0 <= k < s.drop_first().len() ==> s[0] <= #[trigger] s.drop_first()[k]) by {
            assert forall|k: int| 0 <= k < s.drop_first().len() implies s[0] <= #[trigger] s.drop_first()[k] by {
                assert(s.drop_first()[k] == s[k + 1]);
            }
        }
        lemma_none_smaller(s[0], s.drop_first());
        lemma_ascending_no_inversions(s.drop_first());
    }
}

proof fn lemma_smaller_in_bound(x: usize, t: Seq<usize>)
    ensures
        smaller_in(x, t) <= t.len(),
    decreases t.len(),
{
    if t.len() > 0 {
        lemma_smaller_in_bound(x, t.drop_first());
    }
}

/// There are at most `n * n` inversions among `n` elements.
pub proof fn lemma_inversions_bound(s: Seq<usize>)
    ensures
        inversions(s) <= s.len() * s.len(),
    decreases s.len(),
{
    if s.len() > 0 {
        let m = s.drop_first().len();
        lemma_smaller_in_bound(s[0], s.drop_first());
        lemma_inversions_bound(s.drop_first());
        assert(m + m * m <= (m + 1) * (m + 1)) by (nonlinear_arith);
    }
}

/// A sequence whose neighbours are in order is in ascending order.
pub proof fn lemma_neighbours_ascending(s: Seq<usize>)
    requires
        forall|k: int| 0 < k < s.len() ==> s[k - 1] <= #[trigger] s[k],
    ensures
        ascending(s),
{
    assert forall|i: int, j: int| 0 <= i < j < s.len() implies s[i] <= s[j] by {
        lemma_neighbours_chain(s, i, j);
    }
}

proof fn lemma_neighbours_chain(s: Seq<usize>, i: int, j: int)
    requires
        forall|k: int| 0 < k < s.len() ==> s[k - 1] <= #[trigger] s[k],
        0 <= i <= j < s.len(),
    ensures
        s[i] <= s[j],
    decreases j - i,
{
    if i < j {
        lemma_neighbours_chain(s, i, j - 1);
        assert(s[j - 1] <= s[j]);
    }
}

/// The elements of `v` from `from` up to `to`, in a new vector.
pub fn copy_range(v: &Vec<usize>, from: usize, to: usize) -> (r: Vec<usize>)
    requires
        from <= to <= v@.len(),
    ensures
        r@ == v@.subrange(from as int, to as int),
{
    let mut out: Vec<usize> = Vec::new();
    let mut i: usize = from;
    while i < to
        invariant
            from <= i <= to <= v@.len(),
            out@ == v@.subrange(from as int, i as int),
        decreases to - i,
    {
        out.push(v[i]);
        assert(v@.subrange(from as int, i + 1) =~= v@.subrange(from as int, i as int).push(
            v@[i as int],
        ));
        i = i + 1;
    }
    out
}

} // verus!

use vstd::prelude::*;

verus! {

/// The smallest of the prices `p`, for non-empty `p`.
pub open spec fn min_price(p: Seq<isize>) -> int
    decreases p.len(),
{
    if p.len() <= 1 {
        p[0] as int
    } else if (p.last() as int) < min_price(p.drop_last()) {
        p.last() as int
    } else {
        min_price(p.drop_last())
    }
}

/// The largest `p[j] - p[i]` over `i < j`, for `p` of two or more prices.
pub open spec fn best_profit(p: Seq<isize>) -> int
    decreases p.len(),
{
    if p.len() <= 2 {
        p[1] - p[0]
    } else {
        let earlier = best_profit(p.drop_last());
        let now = p.last() - min_price(p.drop_last());
        if now > earlier {
            now
        } else {
            earlier
        }
    }
}

/// Whether every difference between two of the prices, the values after the
/// leading count, fits in `isize`.
pub open spec fn differences_fit(input: Seq<isize>) -> bool {
    forall|i: int, j: int|
        1 <= i < input.len() && 1 <= j < input.len() ==> isize::MIN <= #[trigger] input[j]
            - #[trigger] input[i] <= isize::MAX
}

/// `input` is a count followed by prices; the count only matters through
/// being 0 or 1, which means no trade. The result is the best gain of buying
/// at one price and selling at a later one (a loss when prices only fall),
/// or `None` when there are fewer than two prices.
pub fn get_max_profit(input: &[isize]) -> (r: Option<isize>)
    requires
        differences_fit(input@),
    ensures
        input@.len() < 3 || input@[0] == 0 || input@[0] == 1 ==> r is None,
        !(input@.len() < 3 || input@[0] == 0 || input@[0] == 1) ==> r == Some(
            best_profit(input@.drop_first()) as isize,
        ),
{
    if input.len() == 0 {
        return None;
    }
    let len = input[0];
    if len == 0 || len == 1 {
        return None;
    }
    if input.len() < 3 {
        return None;
    }
    let ghost p = input@.drop_first();
    assert(input@[2] - input@[1] == input@[2] - input@[1]);
    let mut min: isize = input[1];
    let mut result: isize = input[2] - input[1];
    if input[2] < min {
        min = input[2];
    }
    let mut k: usize = 3;
    assert(p.take(2).drop_last() =~= p.take(1));
    assert(min_price(p.take(1)) == p[0]);
    assert(p.take(2)[1] == p[1]);
    assert(best_profit(p.take(2)) == p[1] - p[0]);
    while k < input.len()
        invariant
            p == input@.drop_first(),
            differences_fit(input@),
            3 <= k <= input.len(),
            min as int == min_price(p.take(k - 1)),
            result as int == best_profit(p.take(k - 1)),
            exists|i: int| 0 <= i < k - 1 && p[i] == min,
        decreases input.len() - k,
    {
        assert(p.take(k as int).drop_last() =~= p.take(k - 1));
        let r = input[k];
        assert(p[k - 1] == r);
        assert(p.take(k as int).last() == r);
        let ghost i0 = choose|i: int| 0 <= i < k - 1 && p[i] == min;
        assert(input@[k as int] - input@[i0 + 1] == r - min);
        let dif = r - min;
        if dif > result {
            result = dif;
        }
        if r < min {
            min = r;
        }
        k = k + 1;
    }
    assert(p.take(input.len() - 1) =~= p);
    Some(result)
}

} // verus!

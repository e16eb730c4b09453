use vstd::prelude::*;
use itertools::Itertools;
use crate::dictionary::yes_no;
use crate::linear_search::{read_search_problem, search_problem};
use crate::text::{join_strings, joined, string_views, words};

verus! {

/// The `k`-element selections from `s`, each keeping the order of `s`, in
/// lexicographic order of the positions chosen.
pub open spec fn choose_k(s: Seq<usize>, k: nat) -> Seq<Seq<usize>>
    decreases s.len(),
{
    if k == 0 {
        seq![Seq::empty()]
    } else if s.len() < k {
        Seq::empty()
    } else {
        choose_k(s.drop_first(), (k - 1) as nat).map_values(|c: Seq<usize>| seq![s[0]] + c)
            + choose_k(s.drop_first(), k)
    }
}

/// The sum of `c`.
pub open spec fn total(c: Seq<usize>) -> int
    decreases c.len(),
{
    if c.len() == 0 {
        0
    } else {
        total(c.drop_last()) + c.last()
    }
}

/// Whether some selection of one or more elements of `s`, each position used
/// at most once, sums to `target`.
pub open spec fn reachable(s: Seq<usize>, target: usize) -> bool {
    exists|k: int, i: int|
        1 <= k <= s.len() && 0 <= i < choose_k(s, k as nat).len() && total(
            #[trigger] choose_k(s, k as nat)[i],
        ) == target
}

/// Relies on `Itertools::combinations`: every `k`-element selection of the
/// items, keeping their order, in lexicographic order of positions; one empty
/// selection for `k == 0` and none when `k` exceeds the number of items.
#[verifier::external_body]
fn combinations(seq: &[usize], k: usize) -> (r: Vec<Vec<usize>>)
    ensures
        r@.map_values(|c: Vec<usize>| c@) == choose_k(seq@, k as nat),
{
    seq.iter().copied().combinations(k).collect()
}

fn sums_to(c: &Vec<usize>, target: usize) -> (r: bool)
    ensures
        r == (total(c@) == target),
{
    let mut sum: usize = 0;
    let mut i: usize = 0;
    while i < c.len()
        invariant
            i <= c@.len(),
            sum == total(c@.take(i as int)),
            sum <= target,
        decreases c.len() - i,
    {
        assert(c@.take(i + 1).drop_last() =~= c@.take(i as int));
        if c[i] > target - sum {
            proof {
                lemma_total_grows(c@, i + 1);
            }
            return false;
        }
        sum = sum + c[i];
        i = i + 1;
    }
    assert(c@.take(c@.len() as int) =~= c@);
    sum == target
}

proof fn lemma_total_grows(c: Seq<usize>, i: int)
    requires
        0 <= i <= c.len(),
    ensures
        total(c) >= total(c.take(i)),
    decreases c.len() - i,
{
    if i < c.len() {
        lemma_total_grows(c, i + 1);
        assert(c.take(i + 1).drop_last() =~= c.take(i));
    } else {
        assert(c.take(i) =~= c);
    }
}

/// For each target, whether some selection of one or more elements of `seq`
/// sums to it.
pub fn compute(seq: &[usize], targets: &[usize]) -> (r: Vec<bool>)
    ensures
        r@.len() == targets@.len(),
        forall|t: int| 0 <= t < targets@.len() ==> r@[t] == reachable(seq@, #[trigger] targets@[t]),
{
    let mut combos: Vec<Vec<Vec<usize>>> = Vec::new();
    let mut k: usize = 0;
    while k < seq.len()
        invariant
            k <= seq@.len(),
            combos@.len() == k,
            forall|j: int|
                0 <= j < k ==> (#[trigger] combos@[j])@.map_values(|c: Vec<usize>| c@) == choose_k(
                    seq@,
                    (j + 1) as nat,
                ),
        decreases seq.len() - k,
    {
        combos.push(combinations(seq, k + 1));
        k = k + 1;
    }
    let mut result: Vec<bool> = Vec::with_capacity(targets.len());
    let mut t: usize = 0;
    while t < targets.len()
        invariant
            t <= targets@.len(),
            combos@.len() == seq@.len(),
            forall|j: int|
                0 <= j < seq@.len() ==> (#[trigger] combos@[j])@.map_values(|c: Vec<usize>| c@)
                    == choose_k(seq@, (j + 1) as nat),
            result@.len() == t,
            forall|u: int| 0 <= u < t ==> result@[u] == reachable(seq@, #[trigger] targets@[u]),
        decreases targets.len() - t,
    {
        let target = targets[t];
        let mut found = false;
        let mut i: usize = 0;
        while i < combos.len() && !found
            invariant
                i <= combos@.len() == seq@.len(),
                forall|j: int|
                    0 <= j < seq@.len() ==> (#[trigger] combos@[j])@.map_values(
                        |c: Vec<usize>| c@,
                    ) == choose_k(seq@, (j + 1) as nat),
                found ==> reachable(seq@, target),
                !found ==> forall|j: int, m: int|
                    0 <= j < i && 0 <= m < choose_k(seq@, (j + 1) as nat).len() ==> total(
                        #[trigger] choose_k(seq@, (j + 1) as nat)[m],
                    ) != target,
            decreases combos.len() - i + if found {
                0int
            } else {
                1int
            },
        {
            let group = &combos[i];
            let ghost views = group@.map_values(|c: Vec<usize>| c@);
            assert(views == choose_k(seq@, (i + 1) as nat));
            let mut m: usize = 0;
            while m < group.len() && !found
                invariant
                    i < seq@.len(),
                    views == choose_k(seq@, (i + 1) as nat),
                    views == group@.map_values(|c: Vec<usize>| c@),
                    m <= group@.len(),
                    found ==> reachable(seq@, target),
                    !found ==> forall|n: int| 0 <= n < m ==> total(#[trigger] views[n]) != target,
                decreases group.len() - m + if found {
                    0int
                } else {
                    1int
                },
            {
                assert(views[m as int] == group@[m as int]@);
                if sums_to(&group[m], target) {
                    assert(total(choose_k(seq@, (i + 1) as nat)[m as int]) == target);
                    found = true;
                } else {
                    m = m + 1;
                }
            }
            if !found {
                i = i + 1;
            }
        }
        proof {
            if !found {
                assert forall|k2: int, i2: int|
                    1 <= k2 <= seq@.len() && 0 <= i2 < choose_k(seq@, k2 as nat).len() implies total(
                        #[trigger] choose_k(seq@, k2 as nat)[i2],
                    ) != target by {
                    assert(choose_k(seq@, ((k2 - 1) + 1) as nat) == choose_k(seq@, k2 as nat));
                }
            }
        }
        result.push(found);
        t = t + 1;
    }
    result
}

/// Reads the numbers and the targets, as [`search_problem`] describes, and
/// answers for each target, one line each, `yes` when some selection of one
/// or more of the numbers sums to it and `no` otherwise.
pub fn input_exhaustive_search(input: &str) -> (r: Option<String>)
    ensures
        search_problem(words(input@)) is None ==> r is None,
        search_problem(words(input@)) is Some ==> r is Some && r->Some_0@ == joined(
            search_problem(words(input@))->Some_0.1.map_values(
                |t: usize| yes_no(reachable(search_problem(words(input@))->Some_0.0, t)),
            ),
            seq!['\n'],
        ),
{
    let (seq, targets) = match read_search_problem(input) {
        Some(p) => p,
        None => {
            return None;
        },
    };
    let answers = compute(seq.as_slice(), targets.as_slice());
    let ghost expected = targets@.map_values(|t: usize| yes_no(reachable(seq@, t)));
    let mut parts: Vec<String> = Vec::new();
    let mut i: usize = 0;
    while i < answers.len()
        invariant
            i <= answers@.len() == targets@.len(),
            forall|u: int| 0 <= u < targets@.len() ==> answers@[u] == reachable(seq@, #[trigger] targets@[u]),
            string_views(parts@) == expected.take(i as int),
            expected == targets@.map_values(|t: usize| yes_no(reachable(seq@, t))),
        decreases answers.len() - i,
    {
        let ghost before = parts@;
        let word = if answers[i] {
            String::from_str("yes")
        } else {
            String::from_str("no")
        };
        assert(answers@[i as int] == reachable(seq@, targets@[i as int]));
        parts.push(word);
        assert(string_views(parts@) =~= string_views(before).push(word@));
        assert(expected.take(i + 1) =~= expected.take(i as int).push(expected[i as int]));
        i = i + 1;
    }
    assert(expected.take(expected.len() as int) =~= expected);
    proof {
        reveal_strlit("\n");
    }
    assert("\n"@ =~= seq!['\n']);
    Some(join_strings(&parts, "\n"))
}

} // verus!

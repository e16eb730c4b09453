use alds::alds_insertion_sort::{input_insertion_sort, insersion_sort2, insertion_sort};
use alds::alds_maximum_profit::get_max_profit;

#[test]
fn alds_insertion_sort_test1() {
    let input = vec!["6", "5 2 4 6 1 3"].join("\n");
    let result = input_insertion_sort(&input);

    assert!(result.is_some());
    let (output, progress) = result.unwrap();
    assert_eq!(output, "1 2 3 4 5 6");
    assert_eq!(
        progress,
        vec![
            vec![5, 2, 4, 6, 1, 3],
            vec![2, 5, 4, 6, 1, 3],
            vec![2, 4, 5, 6, 1, 3],
            vec![2, 4, 5, 6, 1, 3],
            vec![1, 2, 4, 5, 6, 3],
            vec![1, 2, 3, 4, 5, 6],
        ]
    );
}

#[test]
fn insertion_sort_handles_duplicates_and_negatives() {
    let mut v = vec![3, -1, 3, 0, -7, 2];
    insertion_sort(&mut v);
    assert_eq!(v, vec![-7, -1, 0, 2, 3, 3]);
}

#[test]
fn insertion_progress_of_short_inputs() {
    let mut empty: Vec<isize> = vec![];
    assert_eq!(insersion_sort2(&mut empty), vec![Vec::<isize>::new()]);
    let mut one = vec![4];
    assert_eq!(insersion_sort2(&mut one), vec![vec![4]]);
}

#[test]
fn insertion_input_errors() {
    assert!(input_insertion_sort("").is_none());
    assert!(input_insertion_sort("x\n1 2").is_none());
    assert!(input_insertion_sort("2\n1 y").is_none());
}

#[test]
fn alds_maximum_profit_test1() {
    let input = vec![6, 5, 3, 1, 3, 4, 3];

    assert_eq!(Some(3), get_max_profit(&input));
}

#[test]
fn test2() {
    let input = vec![3, 4, 3, 2];
    assert_eq!(Some(-1), get_max_profit(&input));
}

#[test]
fn max_profit_without_trade() {
    assert_eq!(get_max_profit(&[]), None);
    assert_eq!(get_max_profit(&[1, 5]), None);
    assert_eq!(get_max_profit(&[0, 5, 9]), None);
    assert_eq!(get_max_profit(&[4, 5]), None);
    assert_eq!(get_max_profit(&[2, 5, 9]), Some(4));
}

use alds::alds_bubble_sort::{bubble_sort, input_bubble_sort};
use alds::merge_sort::{input_merge_sort, merge_sort, merge_writes_of};
use alds::selection_sort::{input_selection_sort, selection_sort};
use alds::stable_sort::{
    bubble_sort as bubble_sort_cards, input_stable_sort, is_stable,
    selection_sort as selection_sort_cards, SortStable, Trump, TrumpParsingError,
};

#[test]
fn name() {
    let input: String = vec!["5", "5 3 2 4 1"].join("\n");
    let result = input_bubble_sort(&input);

    assert!(result.is_some());
    let (output, swaps) = result.unwrap();
    assert_eq!(swaps, 8);
    assert_eq!(output, "1 2 3 4 5");
}

#[test]
fn bubble_sort_counts_inversions() {
    let mut v = vec![3, 1, 2];
    assert_eq!(bubble_sort(&mut v), 2);
    assert_eq!(v, vec![1, 2, 3]);
    let mut sorted = vec![1, 1, 2];
    assert_eq!(bubble_sort(&mut sorted), 0);
    let mut empty: Vec<usize> = vec![];
    assert_eq!(bubble_sort(&mut empty), 0);
    let mut reversed = vec![5, 4, 3, 2, 1];
    assert_eq!(bubble_sort(&mut reversed), 10);
}

#[test]
fn bubble_input_errors() {
    assert!(input_bubble_sort("").is_none());
    assert!(input_bubble_sort("3\n1 -2 3").is_none());
}

#[test]
fn selection_sort_test1() {
    let input = ["6", "5 6 4 2 1 3"].join("\n");
    assert_eq!(
        input_selection_sort(&input),
        Some(vec!["1 2 3 4 5 6", "4"].join("\n"))
    );
}

#[test]
fn selection_sort_counts_exchanges() {
    let mut v = vec![2, 1, 2, 1];
    assert_eq!(selection_sort(&mut v), 2);
    assert_eq!(v, vec![1, 1, 2, 2]);
    let mut sorted = vec![1, 2, 3];
    assert_eq!(selection_sort(&mut sorted), 0);
}

#[test]
fn merge_sort_test1() {
    let input = ["10", "8 5 9 2 6 3 7 1 10 4"].join("\n");
    assert_eq!(
        input_merge_sort(&input),
        Some(["1 2 3 4 5 6 7 8 9 10", "34", ""].join("\n"))
    );
}

#[test]
fn merge_sort_counts_writes() {
    let mut v = vec![2, 1];
    assert_eq!(merge_sort(&mut v), 2);
    assert_eq!(v, vec![1, 2]);
    let mut one = vec![7];
    assert_eq!(merge_sort(&mut one), 0);
    let mut dup = vec![3, 3, 1, 2, 1];
    assert_eq!(merge_sort(&mut dup), 12);
    assert_eq!(dup, vec![1, 1, 2, 3, 3]);
    assert_eq!(merge_writes_of(10), Some(34));
    assert_eq!(merge_writes_of(usize::MAX), None);
}

#[test]
fn stable_sort_test1() {
    let input = vec!["5", "H4 C9 S4 D2 C3"].join("\n");
    let result = input_stable_sort(&input);

    assert!(result.is_some());
    assert_eq!(
        result.unwrap(),
        vec!["D2 C3 H4 S4 C9", "Stable", "D2 C3 H4 S4 C9", "Stable"].join("\n")
    )
}

#[test]
fn cards_parse_and_print() {
    assert_eq!(Trump::parse("H4"), Ok(Trump { number: 4, suit: 'H' }));
    assert_eq!("S9".parse::<Trump>(), Ok(Trump { number: 9, suit: 'S' }));
    assert_eq!(Trump::parse("H10"), Err(TrumpParsingError::ParseError));
    assert_eq!(Trump::parse("HX"), Err(TrumpParsingError::ParseError));
    assert_eq!(Trump::parse("é4"), Err(TrumpParsingError::ParseError));
    assert_eq!(Trump { number: 7, suit: 'D' }.to_string(), "D7");
}

#[test]
fn card_sorts_agree() {
    let cards: Vec<Trump> = ["S4", "H4", "C1", "D4", "C9"]
        .iter()
        .map(|s| Trump::parse(s).unwrap())
        .collect();
    let mut a = cards.clone();
    bubble_sort_cards(&mut a);
    let mut b = cards.clone();
    selection_sort_cards(&mut b);
    assert_eq!(a, b);
    let texts: Vec<String> = a.iter().map(|t| t.to_string()).collect();
    assert_eq!(texts, vec!["C1", "D4", "H4", "S4", "C9"]);
    assert_eq!(is_stable(&a, &b), SortStable::Stable);
    assert_eq!(is_stable(&cards, &a), SortStable::UnStable);
    assert_eq!(SortStable::UnStable.to_string(), "UnStable");
}

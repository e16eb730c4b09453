use alds::binary_search::{input_binary_search, BinarySearch};
use alds::dictionary::{compute as run_dictionary, input_dictinary, Command, Dictionary, VecDictionary};
use alds::doubly_linked_list::{
    compute as run_list, Command as ListCommand, CommandError, DoublyLinkedList,
    DoublyLinkedListError, VecDoublyLinkedList,
};
use alds::exhaustive_search::{compute as subset_sums, input_exhaustive_search};
use alds::linear_search::{input_linear_search, LinearSearch};

#[test]
fn linear_search_test1() {
    let input = ["5", "1 2 3 4 5", "3", "3 4 1"].join("\n");
    assert_eq!(input_linear_search(&input), Some("3".to_string()));
}

#[test]
fn binary_search_test1() {
    let input = ["5", "1 2 3 4 5", "3", "3 4 1"].join("\n");
    assert_eq!(input_binary_search(&input), Some("3".to_string()));
}

#[test]
fn search_counts_only_present_targets() {
    let input = "4\n1 3 5 7\n5\n0 3 8 7 7";
    assert_eq!(input_linear_search(input), Some("3".to_string()));
    assert_eq!(input_binary_search(input), Some("3".to_string()));
    assert_eq!(input_linear_search("3\n1 2"), None);
    assert_eq!(input_binary_search("x"), None);
}

#[test]
fn slice_searches() {
    let v: Vec<usize> = vec![4, 8, 8, 15];
    assert_eq!(v.linear_search(&8), Some(1));
    assert_eq!(v.linear_search(&9), None);
    assert_eq!(v.linear_search_with(&8, 2), Some(2));
    assert_eq!(v.linear_search_with(&4, 1), None);
    assert_eq!(v.binary_search2(&8), Some(2));
    assert_eq!(v.binary_search2(&4), Some(0));
    assert_eq!(v.binary_search2(&16), None);
    assert_eq!(v.binary_search2(&0), None);
    let empty: Vec<usize> = vec![];
    assert_eq!(empty.binary_search2(&1), None);
}

#[test]
fn dictionary_test1() {
    let input = [
        "6",
        "insert AAA",
        "insert AAC",
        "find AAA",
        "find CCC",
        "insert CCC",
        "find CCC",
    ]
    .join("\n");

    assert_eq!(input_dictinary(&input), Some(["yes", "no", "yes"].join("\n")));
}

#[test]
fn dictionary_commands() {
    assert_eq!(
        Command::new(&"insert".to_string(), "A".to_string()),
        Some(Command::Insert("A".to_string()))
    );
    assert_eq!(Command::new(&"remove".to_string(), "A".to_string()), None);
    let cmds = vec![
        Command::Find("G".to_string()),
        Command::Insert("T".to_string()),
        Command::Insert("G".to_string()),
        Command::Find("G".to_string()),
        Command::Find("A".to_string()),
    ];
    assert_eq!(run_dictionary(&cmds), vec![false, true, false]);
    let mut d = VecDictionary::new(2);
    d.insert("b".to_string());
    d.insert("a".to_string());
    assert!(d.find(&"a".to_string()).is_some());
    assert!(d.find(&"c".to_string()).is_none());
    assert_eq!(input_dictinary("1\nfetch AAA"), None);
    assert_eq!(input_dictinary("0"), Some(String::new()));
}

#[test]
fn list_commands() {
    let cmds = [
        ListCommand::Insert(5),
        ListCommand::Insert(2),
        ListCommand::Insert(3),
        ListCommand::Insert(1),
        ListCommand::Delete(3),
        ListCommand::Insert(6),
        ListCommand::Delete(5),
    ];
    assert_eq!(run_list(&cmds), Ok(vec![6, 1, 2]));
    assert_eq!(run_list(&[ListCommand::Delete(1)]), Err(DoublyLinkedListError::IsEmpty));
    assert_eq!(
        run_list(&[ListCommand::Insert(1), ListCommand::Delete(2)]),
        Err(DoublyLinkedListError::ItemNotFound)
    );
    assert_eq!(
        run_list(&[ListCommand::Insert(4), ListCommand::Insert(4), ListCommand::Delete(4)]),
        Ok(vec![4])
    );
}

#[test]
fn list_command_parsing() {
    assert_eq!(ListCommand::new("insert".to_string(), Some(3)), Ok(ListCommand::Insert(3)));
    assert_eq!(ListCommand::new("delete".to_string(), Some(3)), Ok(ListCommand::Delete(3)));
    assert_eq!(ListCommand::new("insert".to_string(), None), Err(CommandError::InsertError));
    assert_eq!(ListCommand::new("delete".to_string(), None), Err(CommandError::DeleteError));
    assert_eq!(
        ListCommand::new("push".to_string(), Some(1)),
        Err(CommandError::UnsupportedType("push".to_string()))
    );
}

#[test]
fn list_ends() {
    let mut l = VecDoublyLinkedList::new(4);
    assert_eq!(l.delete_first(), Err(DoublyLinkedListError::IsEmpty));
    assert_eq!(l.delete_last(), Err(DoublyLinkedListError::IsEmpty));
    assert!(l.insert(1).is_ok());
    assert!(l.insert(2).is_ok());
    assert!(l.insert(3).is_ok());
    assert!(l.delete_first().is_ok());
    assert!(l.delete_last().is_ok());
    assert_eq!(l.to_vec(), vec![2]);
    assert_eq!(DoublyLinkedListError::ItemNotFound.to_string(), "item not found");
}

#[test]
fn exhaustive_search_test1() {
    let input = ["5", "1 5 7 10 21", "4", "2 4 17 8"].join("\n");
    assert_eq!(
        input_exhaustive_search(&input),
        Some(["no", "no", "yes", "yes"].join("\n"))
    );
}

#[test]
fn subset_sums_use_each_position_once() {
    assert_eq!(subset_sums(&[2, 2], &[2, 4, 6, 0]), vec![true, true, false, false]);
    assert_eq!(subset_sums(&[], &[0]), vec![false]);
    assert_eq!(subset_sums(&[usize::MAX, 1], &[usize::MAX, 1]), vec![true, true]);
}

use alds::doubly_linked_list::{input_doubly_linked_list, ListInputError};

#[test]
fn doubly_linked_list_test1() {
    let input = [
        "7", "insert 5", "insert 2", "insert 3", "insert 1", "delete 3", "insert 6", "delete 5",
    ]
    .join("\n");

    let result = input_doubly_linked_list(&input);
    assert!(result.is_ok());
    assert_eq!(result.unwrap(), "6 1 2\n".to_string());
}

#[test]
fn list_program_errors() {
    assert_eq!(input_doubly_linked_list(""), Err(ListInputError::Malformed));
    assert_eq!(input_doubly_linked_list("2\ninsert 1\n"), Ok("1\n".to_string()));
    assert_eq!(input_doubly_linked_list("2\ninsert 1\n\n"), Err(ListInputError::Malformed));
    assert_eq!(input_doubly_linked_list("2\ninsert 1\n  \ninsert 2"), Err(ListInputError::Malformed));
    assert_eq!(
        input_doubly_linked_list("2\npush 1\ninsert"),
        Err(ListInputError::Command(CommandError::UnsupportedType("push".to_string())))
    );
    assert_eq!(
        input_doubly_linked_list("1\ndelete x"),
        Err(ListInputError::Command(CommandError::DeleteError))
    );
    assert_eq!(
        input_doubly_linked_list("1\ndelete 4"),
        Err(ListInputError::List(DoublyLinkedListError::IsEmpty))
    );
}

#[test]
fn dictionary_finds_keys_inserted_out_of_order() {
    let mut d = VecDictionary::new(0);
    for key in ["delta", "charlie", "echo", "bravo", "alpha"] {
        d.insert(key.to_string());
    }
    for key in ["alpha", "bravo", "charlie", "delta", "echo"] {
        assert!(d.find(&key.to_string()).is_some(), "{}", key);
    }
    assert!(d.find(&"foxtrot".to_string()).is_none());
    assert!(d.find(&"".to_string()).is_none());
}

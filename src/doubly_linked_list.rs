use vstd::prelude::*;
use crate::text::{
    joined, parse_usize, split_lines, split_words, string_views, usize_decimals, usize_literal,
    usizes_text, words, lines,
};

verus! {

/// Why a list operation failed.
#[derive(Debug, PartialEq, Eq, Structural, Copy, Clone, Hash)]
pub enum DoublyLinkedListError {
    IsEmpty,
    IsFull,
    ItemNotFound,
}

impl DoublyLinkedListError {
    /// A short description of the failure.
    pub fn to_string(&self) -> (r: String)
        ensures
            *self == DoublyLinkedListError::IsEmpty ==> r@ == "list is empty"@,
            *self == DoublyLinkedListError::IsFull ==> r@ == "list is full"@,
            *self == DoublyLinkedListError::ItemNotFound ==> r@ == "item not found"@,
    {
        match self {
            DoublyLinkedListError::IsEmpty => String::from_str("list is empty"),
            DoublyLinkedListError::IsFull => String::from_str("list is full"),
            DoublyLinkedListError::ItemNotFound => String::from_str("item not found"),
        }
    }
}

/// The index of the first element of `s` equal to `x`, or `s.len()` when
/// there is none.
pub open spec fn first_index_of<T>(s: Seq<T>, x: T) -> int
    decreases s.len(),
{
    if s.len() == 0 {
        0
    } else if s[0] == x {
        0
    } else {
        1 + first_index_of(s.drop_first(), x)
    }
}

/// A list that takes new elements at the front and removes them by value or
/// from either end.
pub trait DoublyLinkedList<T>: Sized {
    /// The elements, front first.
    spec fn items(&self) -> Seq<T>;

    /// Puts `x` at the front.
    fn insert(&mut self, x: T) -> (r: Result<(), DoublyLinkedListError>)
        ensures
            r is Ok,
            final(self).items() == seq![x] + old(self).items(),
    ;

    /// Removes the first element equal to `x`.
    fn delete(&mut self, x: &T) -> (r: Result<(), DoublyLinkedListError>)
        ensures
            old(self).items().len() == 0 ==> r == Err::<(), DoublyLinkedListError>(
                DoublyLinkedListError::IsEmpty,
            ),
            old(self).items().len() > 0 && !old(self).items().contains(*x) ==> r == Err::<
                (),
                DoublyLinkedListError,
            >(DoublyLinkedListError::ItemNotFound),
            r is Err ==> final(self).items() == old(self).items(),
            old(self).items().contains(*x) ==> r is Ok && final(self).items() == old(
                self,
            ).items().remove(first_index_of(old(self).items(), *x)),
    ;

    /// Removes the front element.
    fn delete_first(&mut self) -> (r: Result<(), DoublyLinkedListError>)
        ensures
            old(self).items().len() == 0 ==> r == Err::<(), DoublyLinkedListError>(
                DoublyLinkedListError::IsEmpty,
            ) && final(self).items() == old(self).items(),
            old(self).items().len() > 0 ==> r is Ok && final(self).items() == old(
                self,
            ).items().drop_first(),
    ;

    /// Removes the back element.
    fn delete_last(&mut self) -> (r: Result<(), DoublyLinkedListError>)
        ensures
            old(self).items().len() == 0 ==> r == Err::<(), DoublyLinkedListError>(
                DoublyLinkedListError::IsEmpty,
            ) && final(self).items() == old(self).items(),
            old(self).items().len() > 0 ==> r is Ok && final(self).items() == old(
                self,
            ).items().drop_last(),
    ;
}

/// A [`DoublyLinkedList`] kept in a vector, front first.
pub struct VecDoublyLinkedList<T> {
    items: Vec<T>,
}

impl<T> VecDoublyLinkedList<T> {
    /// An empty list with room for `capacity` elements before it reallocates.
    pub fn new(capacity: usize) -> (r: Self)
        ensures
            r@ == Seq::<T>::empty(),
    {
        Self { items: Vec::with_capacity(capacity) }
    }

    /// The elements, front first.
    pub fn to_vec(self) -> (r: Vec<T>)
        ensures
            r@ == self@,
    {
        self.items
    }
}

impl<T> View for VecDoublyLinkedList<T> {
    type V = Seq<T>;

    closed spec fn view(&self) -> Seq<T> {
        self.items@
    }
}

impl DoublyLinkedList<usize> for VecDoublyLinkedList<usize> {
    closed spec fn items(&self) -> Seq<usize> {
        self.items@
    }

    fn insert(&mut self, x: usize) -> (r: Result<(), DoublyLinkedListError>) {
        self.items.insert(0, x);
        assert(self.items@ =~= seq![x] + old(self).items@);
        Ok(())
    }

    fn delete(&mut self, x: &usize) -> (r: Result<(), DoublyLinkedListError>) {
        if self.items.len() == 0 {
            return Err(DoublyLinkedListError::IsEmpty);
        }
        let mut index: usize = 0;
        assert(self.items@.skip(0) =~= self.items@);
        while index < self.items.len()
            invariant
                index <= self.items@.len(),
                self.items@ == old(self).items@,
                forall|k: int| 0 <= k < index ==> self.items@[k] != *x,
                first_index_of(self.items@, *x) == index + first_index_of(
                    self.items@.skip(index as int),
                    *x,
                ),
            decreases self.items.len() - index,
        {
            let ghost rest = self.items@.skip(index as int);
            assert(rest.drop_first() =~= self.items@.skip(index + 1));
            if self.items[index] == *x {
                self.items.remove(index);
                return Ok(());
            }
            index = index + 1;
        }
        assert(!self.items@.contains(*x));
        Err(DoublyLinkedListError::ItemNotFound)
    }

    fn delete_first(&mut self) -> (r: Result<(), DoublyLinkedListError>) {
        if self.items.len() == 0 {
            return Err(DoublyLinkedListError::IsEmpty);
        }
        self.items.remove(0);
        assert(self.items@ =~= old(self).items@.drop_first());
        Ok(())
    }

    fn delete_last(&mut self) -> (r: Result<(), DoublyLinkedListError>) {
        if self.items.len() == 0 {
            return Err(DoublyLinkedListError::IsEmpty);
        }
        self.items.pop();
        Ok(())
    }
}

/// One list command.
#[derive(Debug, Copy, Clone, Eq, PartialEq, Structural, Hash)]
pub enum Command {
    Insert(usize),
    Delete(usize),
}

/// Why a command could not be read.
#[derive(Debug, Clone, Eq, PartialEq, Hash)]
pub enum CommandError {
    /// The command word is neither `insert` nor `delete`.
    UnsupportedType(String),
    /// `insert` without a number.
    InsertError,
    /// `delete` without a number.
    DeleteError,
}

impl Command {
    /// The command named `command_type` with argument `num`.
    pub fn new(command_type: String, num: Option<usize>) -> (r: Result<Self, CommandError>)
        ensures
            command_type@ == "insert"@ && num is Some ==> r == Ok::<Command, CommandError>(
                Command::Insert(num->Some_0),
            ),
            command_type@ == "insert"@ && num is None ==> r == Err::<Command, CommandError>(
                CommandError::InsertError,
            ),
            command_type@ == "delete"@ && num is Some ==> r == Ok::<Command, CommandError>(
                Command::Delete(num->Some_0),
            ),
            command_type@ == "delete"@ && num is None ==> r == Err::<Command, CommandError>(
                CommandError::DeleteError,
            ),
            command_type@ != "insert"@ && command_type@ != "delete"@ ==> r is Err
                && r->Err_0 is UnsupportedType && r->Err_0->UnsupportedType_0@ == command_type@,
    {
        proof {
            reveal_strlit("insert");
            reveal_strlit("delete");
            assert("insert"@[0] != "delete"@[0]);
        }
        if command_type == String::from_str("insert") {
            match num {
                Some(n) => Ok(Command::Insert(n)),
                None => Err(CommandError::InsertError),
            }
        } else if command_type == String::from_str("delete") {
            match num {
                Some(n) => Ok(Command::Delete(n)),
                None => Err(CommandError::DeleteError),
            }
        } else {
            Err(CommandError::UnsupportedType(command_type))
        }
    }
}

/// The list after the commands `cmds`, in order, from empty; the first
/// failing delete ends the run with its error.
pub open spec fn run_commands(cmds: Seq<Command>) -> Result<Seq<usize>, DoublyLinkedListError>
    decreases cmds.len(),
{
    if cmds.len() == 0 {
        Ok(Seq::empty())
    } else {
        match run_commands(cmds.drop_last()) {
            Err(e) => Err(e),
            Ok(l) => match cmds.last() {
                Command::Insert(x) => Ok(seq![x] + l),
                Command::Delete(x) => if l.len() == 0 {
                    Err(DoublyLinkedListError::IsEmpty)
                } else if !l.contains(x) {
                    Err(DoublyLinkedListError::ItemNotFound)
                } else {
                    Ok(l.remove(first_index_of(l, x)))
                },
            },
        }
    }
}

proof fn lemma_run_error_sticks(cmds: Seq<Command>, i: int)
    requires
        0 <= i <= cmds.len(),
        run_commands(cmds.take(i)) is Err,
    ensures
        run_commands(cmds) == run_commands(cmds.take(i)),
    decreases cmds.len() - i,
{
    if i == cmds.len() {
        assert(cmds.take(i) =~= cmds);
    } else {
        assert(cmds.take(i + 1).drop_last() =~= cmds.take(i));
        lemma_run_error_sticks(cmds, i + 1);
    }
}

/// Runs `commands` on an empty [`VecDoublyLinkedList`] and returns its
/// elements, front first.
pub fn compute(commands: &[Command]) -> (r: Result<Vec<usize>, DoublyLinkedListError>)
    ensures
        r is Ok <==> run_commands(commands@) is Ok,
        r is Ok ==> r->Ok_0@ == run_commands(commands@)->Ok_0,
        r is Err ==> r->Err_0 == run_commands(commands@)->Err_0,
{
    let mut result: VecDoublyLinkedList<usize> = VecDoublyLinkedList::new(commands.len());
    let mut i: usize = 0;
    while i < commands.len()
        invariant
            i <= commands@.len(),
            run_commands(commands@.take(i as int)) == Ok::<Seq<usize>, DoublyLinkedListError>(
                result.items(),
            ),
        decreases commands.len() - i,
    {
        assert(commands@.take(i + 1).drop_last() =~= commands@.take(i as int));
        match commands[i] {
            Command::Delete(x) => {
                if let Err(e) = result.delete(&x) {
                    proof {
                        lemma_run_error_sticks(commands@, i + 1);
                    }
                    return Err(e);
                }
            },
            Command::Insert(x) => {
                let _ = result.insert(x);
            },
        }
        i = i + 1;
    }
    assert(commands@.take(commands@.len() as int) =~= commands@);
    assert(result@ == result.items());
    Ok(result.to_vec())
}

/// Why a list program could not be run.
#[derive(Debug, Clone, Eq, PartialEq, Hash)]
pub enum ListInputError {
    /// The first line is not a count, or a command line is blank.
    Malformed,
    /// A command line names no valid command.
    Command(CommandError),
    /// A command failed on the list.
    List(DoublyLinkedListError),
}

/// The number that the command line `l` gives after its command word, if any.
pub open spec fn line_number(l: Seq<char>) -> Option<usize> {
    if words(l).len() >= 2 {
        usize_literal(words(l)[1])
    } else {
        None
    }
}

/// The command that the line `l` gives: a command word, `insert` or
/// `delete`, then a number.
pub open spec fn line_command(l: Seq<char>) -> Option<Command> {
    if words(l).len() >= 1 && line_number(l) is Some {
        if words(l)[0] == "insert"@ {
            Some(Command::Insert(line_number(l)->Some_0))
        } else if words(l)[0] == "delete"@ {
            Some(Command::Delete(line_number(l)->Some_0))
        } else {
            None
        }
    } else {
        None
    }
}

/// Whether `e` is the error [`Command::new`] gives for the command word
/// `name` with the number `num`.
pub open spec fn command_error_for(e: CommandError, name: Seq<char>, num: Option<usize>) -> bool {
    if name == "insert"@ {
        num is None && e == CommandError::InsertError
    } else if name == "delete"@ {
        num is None && e == CommandError::DeleteError
    } else {
        e is UnsupportedType && e->UnsupportedType_0@ == name
    }
}

/// Whether the list program `ls` is well formed: a count on the first line
/// and no blank line after it.
pub open spec fn list_program_shape(ls: Seq<Seq<char>>) -> bool {
    &&& ls.len() >= 1
    &&& usize_literal(ls[0]) is Some
    &&& forall|k: int| 1 <= k < ls.len() ==> words(#[trigger] ls[k]).len() >= 1
}

/// Whether every command line of `ls` gives a command.
pub open spec fn list_program_valid(ls: Seq<Seq<char>>) -> bool {
    forall|k: int| 1 <= k < ls.len() ==> (#[trigger] line_command(ls[k])) is Some
}

/// The commands of the valid list program `ls`.
pub open spec fn list_program(ls: Seq<Seq<char>>) -> Seq<Command> {
    ls.skip(1).map_values(|l: Seq<char>| line_command(l)->Some_0)
}

/// Reads a list program, a count on the first line and then one command per
/// line, runs it on an empty list, and returns the list's elements front
/// first, in decimal separated by spaces, and a line feed.
pub fn input_doubly_linked_list(input: &str) -> (r: Result<String, ListInputError>)
    ensures
        !list_program_shape(lines(input@)) ==> r == Err::<String, ListInputError>(
            ListInputError::Malformed,
        ),
        list_program_shape(lines(input@)) && !list_program_valid(lines(input@)) ==> r is Err
            && r->Err_0 is Command && exists|k: int|
            1 <= k < lines(input@).len() && line_command(#[trigger] lines(input@)[k]) is None
                && (forall|j: int|
                1 <= j < k ==> (#[trigger] line_command(lines(input@)[j])) is Some)
                && command_error_for(
                r->Err_0->Command_0,
                words(lines(input@)[k])[0],
                line_number(lines(input@)[k]),
            ),
        list_program_shape(lines(input@)) && list_program_valid(lines(input@)) ==> match run_commands(
            list_program(lines(input@)),
        ) {
            Ok(l) => r is Ok && r->Ok_0@ == joined(usize_decimals(l), seq![' ']) + seq!['\n'],
            Err(e) => r == Err::<String, ListInputError>(ListInputError::List(e)),
        },
{
    let ls = split_lines(input);
    let ghost lv = string_views(ls@);
    assert(lv.len() == ls@.len());
    if ls.len() == 0 {
        return Err(ListInputError::Malformed);
    }
    assert(lv[0] == ls@[0]@);
    if parse_usize(ls[0].as_str()).is_none() {
        return Err(ListInputError::Malformed);
    }
    let mut commands: Vec<Command> = Vec::new();
    let mut first_error: Option<CommandError> = None;
    let ghost mut bad: int = 0;
    let mut k: usize = 1;
    proof {
        reveal_strlit("insert");
        reveal_strlit("delete");
        assert("insert"@[0] != "delete"@[0]);
    }
    while k < ls.len()
        invariant
            lv == string_views(ls@),
            lv == lines(input@),
            lv.len() == ls@.len(),
            1 <= k <= ls@.len(),
            usize_literal(lv[0]) is Some,
            forall|j: int| 1 <= j < k ==> words(#[trigger] lv[j]).len() >= 1,
            first_error is None ==> commands@.len() == k - 1 && forall|j: int|
                1 <= j < k ==> line_command(#[trigger] lv[j]) == Some(commands@[j - 1]),
            first_error is Some ==> 1 <= bad < k && line_command(lv[bad]) is None && (forall|
                j: int,
            | 1 <= j < bad ==> (#[trigger] line_command(lv[j])) is Some) && command_error_for(
                first_error->Some_0,
                words(lv[bad])[0],
                line_number(lv[bad]),
            ),
        decreases ls.len() - k,
    {
        assert(lv[k as int] == ls@[k as int]@);
        let ws = split_words(ls[k].as_str());
        if ws.len() == 0 {
            return Err(ListInputError::Malformed);
        }
        let num = if ws.len() >= 2 {
            assert(string_views(ws@)[1] == ws@[1]@);
            parse_usize(ws[1].as_str())
        } else {
            None
        };
        assert(string_views(ws@)[0] == ws@[0]@);
        let name = ws[0].clone();
        match Command::new(name, num) {
            Ok(c) => {
                if first_error.is_none() {
                    commands.push(c);
                }
            },
            Err(e) => {
                if first_error.is_none() {
                    proof {
                        bad = k as int;
                    }
                    first_error = Some(e);
                }
            },
        }
        k = k + 1;
    }
    if let Some(e) = first_error {
        return Err(ListInputError::Command(e));
    }
    assert(list_program(lv) =~= commands@) by {
        assert forall|j: int| 0 <= j < commands@.len() implies list_program(lv)[j] == commands@[j] by {
            assert(lv.skip(1)[j] == lv[j + 1]);
            assert(line_command(lv[(j + 1)]) == Some(commands@[(j + 1) - 1]));
        }
    }
    match compute(commands.as_slice()) {
        Ok(list) => {
            let text = usizes_text(list.as_slice());
            proof {
                reveal_strlit("\n");
            }
            Ok(text.concat("\n"))
        },
        Err(e) => Err(ListInputError::List(e)),
    }
}

} // verus!

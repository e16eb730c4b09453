use vstd::prelude::*;
use crate::text::{joined, join_strings, parse_usize, split_words, string_views, usize_literal, words};

verus! {

/// Whether `a` comes no later than `b` in lexicographic order of characters,
/// which for strings is also the order of their UTF-8 bytes.
pub open spec fn lex_le(a: Seq<char>, b: Seq<char>) -> bool
    decreases a.len(),
{
    if a.len() == 0 {
        true
    } else if b.len() == 0 {
        false
    } else if a[0] != b[0] {
        (a[0] as u32) < (b[0] as u32)
    } else {
        lex_le(a.drop_first(), b.drop_first())
    }
}

/// Whether the strings `v` are in ascending order.
pub open spec fn strings_sorted(v: Seq<String>) -> bool {
    forall|i: int, j: int| 0 <= i < j < v.len() ==> lex_le(#[trigger] v[i]@, #[trigger] v[j]@)
}

/// Relies on `slice::sort` for `String`: it permutes the strings into
/// ascending order of `Ord for String`, the lexicographic order of bytes.
#[verifier::external_body]
fn sort_strings(v: &mut Vec<String>)
    ensures
        final(v)@.to_multiset() == old(v)@.to_multiset(),
        strings_sorted(final(v)@),
{
    v.sort();
}

/// Relies on `slice::binary_search` for `String`: on a sorted slice it finds
/// the index of a string equal to `x` if there is one.
#[verifier::external_body]
fn binary_search_strings(v: &Vec<String>, x: &String) -> (r: Option<usize>)
    requires
        strings_sorted(v@),
    ensures
        r is Some ==> r->Some_0 < v@.len() && v@[r->Some_0 as int]@ == x@,
        r is None ==> forall|i: int| 0 <= i < v@.len() ==> (#[trigger] v@[i])@ != x@,
{
    v.binary_search(x).ok()
}

/// A set of keys, queried by membership.
pub trait Dictionary<T, UIndex>: Sized {
    /// Whether a key equal to `value` has been inserted.
    spec fn holds(&self, value: T) -> bool;

    /// Whether `a` and `b` are the same key.
    spec fn same_key(a: T, b: T) -> bool;

    /// Well-formedness of the representation.
    spec fn inv(&self) -> bool;

    /// Adds `value` to the keys.
    fn insert(&mut self, value: T)
        requires
            old(self).inv(),
        ensures
            final(self).inv(),
            forall|y: T| #[trigger]
                final(self).holds(y) <==> old(self).holds(y) || Self::same_key(y, value),
    ;

    /// Where `value` is kept, if it has been inserted.
    fn find(&self, value: &T) -> (r: Option<UIndex>)
        requires
            self.inv(),
        ensures
            r is Some <==> self.holds(*value),
    ;
}

/// A [`Dictionary`] of strings kept sorted in a vector.
pub struct VecDictionary {
    items: Vec<String>,
}

impl VecDictionary {
    /// An empty dictionary with room for `capaticy` keys before it
    /// reallocates.
    pub fn new(capaticy: usize) -> (r: Self)
        ensures
            r.inv(),
            forall|y: String| !#[trigger] r.holds(y),
    {
        Self { items: Vec::with_capacity(capaticy) }
    }
}

impl Dictionary<String, usize> for VecDictionary {
    closed spec fn holds(&self, value: String) -> bool {
        exists|i: int| 0 <= i < self.items@.len() && (#[trigger] self.items@[i])@ == value@
    }

    closed spec fn same_key(a: String, b: String) -> bool {
        a@ == b@
    }

    closed spec fn inv(&self) -> bool {
        strings_sorted(self.items@)
    }

    fn insert(&mut self, value: String) {
        let ghost before = self.items@;
        self.items.push(value);
        let ghost pushed = self.items@;
        sort_strings(&mut self.items);
        proof {
            broadcast use vstd::seq_lib::group_to_multiset_ensures;

            assert forall|y: String| #[trigger]
                self.holds(y) <==> (old(self).holds(y) || y@ == value@) by {
                if self.holds(y) {
                    let i = choose|i: int| 0 <= i < self.items@.len() && (#[trigger] self.items@[i])@ == y@;
                    assert(self.items@.contains(self.items@[i]));
                    assert(self.items@.to_multiset().count(self.items@[i]) > 0);
                    assert(pushed.contains(self.items@[i]));
                    let j = choose|j: int| 0 <= j < pushed.len() && pushed[j] == self.items@[i];
                    if j < before.len() {
                        assert(pushed[j] == before[j]);
                        assert(old(self).holds(y));
                    }
                }
                if old(self).holds(y) {
                    let i = choose|i: int| 0 <= i < before.len() && (#[trigger] before[i])@ == y@;
                    assert(pushed[i] == before[i]);
                    assert(pushed.to_multiset().count(pushed[i]) > 0);
                    assert(self.items@.contains(pushed[i]));
                }
                if y@ == value@ {
                    assert(pushed[before.len() as int] == value);
                    assert(pushed.to_multiset().count(value) > 0);
                    assert(self.items@.contains(value));
                }
            }
        }
    }

    fn find(&self, value: &String) -> (r: Option<usize>) {
        binary_search_strings(&self.items, value)
    }
}

/// One dictionary command.
#[derive(Debug, Eq, PartialEq, Hash, Clone)]
pub enum Command {
    Insert(String),
    Find(String),
}

impl Command {
    /// The command named `command_type` with argument `value`, if the name is
    /// `insert` or `find`.
    pub fn new(command_type: &String, value: String) -> (r: Option<Self>)
        ensures
            command_type@ == "insert"@ ==> r == Some(Command::Insert(value)),
            command_type@ == "find"@ ==> r == Some(Command::Find(value)),
            command_type@ != "insert"@ && command_type@ != "find"@ ==> r is None,
    {
        proof {
            reveal_strlit("insert");
            reveal_strlit("find");
            assert("insert"@.len() != "find"@.len());
        }
        if *command_type == String::from_str("insert") {
            Some(Command::Insert(value))
        } else if *command_type == String::from_str("find") {
            Some(Command::Find(value))
        } else {
            None
        }
    }
}

/// Whether `cmds` insert the key `key`.
pub open spec fn inserts(cmds: Seq<Command>, key: Seq<char>) -> bool {
    exists|i: int|
        0 <= i < cmds.len() && (#[trigger] cmds[i]) is Insert && cmds[i]->Insert_0@ == key
}

/// The answers to the `Find` commands of `cmds`, in order: whether the key
/// was inserted by an earlier command.
pub open spec fn find_answers(cmds: Seq<Command>) -> Seq<bool>
    decreases cmds.len(),
{
    if cmds.len() == 0 {
        Seq::empty()
    } else {
        match cmds.last() {
            Command::Insert(_) => find_answers(cmds.drop_last()),
            Command::Find(x) => find_answers(cmds.drop_last()).push(
                inserts(cmds.drop_last(), x@),
            ),
        }
    }
}

/// Runs `commands` on an empty [`VecDictionary`] and returns the answer to
/// each `Find`, in order.
pub fn compute(commands: &[Command]) -> (r: Vec<bool>)
    ensures
        r@ == find_answers(commands@),
{
    let mut result: Vec<bool> = Vec::new();
    let mut dict = VecDictionary::new(commands.len());
    let mut i: usize = 0;
    while i < commands.len()
        invariant
            i <= commands@.len(),
            dict.inv(),
            forall|y: String| #[trigger] dict.holds(y) <==> inserts(commands@.take(i as int), y@),
            result@ == find_answers(commands@.take(i as int)),
        decreases commands.len() - i,
    {
        let ghost pre = commands@.take(i as int);
        let ghost next = commands@.take(i + 1);
        assert(next.drop_last() =~= pre);
        match &commands[i] {
            Command::Insert(x) => {
                dict.insert(x.clone());
                assert forall|y: String| #[trigger]
                    dict.holds(y) <==> inserts(next, y@) by {
                    if inserts(pre, y@) {
                        let k = choose|k: int|
                            0 <= k < pre.len() && (#[trigger] pre[k]) is Insert && pre[k]->Insert_0@
                                == y@;
                        assert(next[k] == pre[k]);
                    }
                    if inserts(next, y@) {
                        let k = choose|k: int|
                            0 <= k < next.len() && (#[trigger] next[k]) is Insert && next[k]->Insert_0@
                                == y@;
                        if k < i {
                            assert(pre[k] == next[k]);
                        }
                    }
                    if y@ == x@ {
                        assert(next[i as int] is Insert);
                    }
                }
            },
            Command::Find(x) => {
                let found = dict.find(x).is_some();
                result.push(found);
                assert forall|y: String| #[trigger]
                    dict.holds(y) <==> inserts(next, y@) by {
                    if inserts(pre, y@) {
                        let k = choose|k: int|
                            0 <= k < pre.len() && (#[trigger] pre[k]) is Insert && pre[k]->Insert_0@
                                == y@;
                        assert(next[k] == pre[k]);
                    }
                    if inserts(next, y@) {
                        let k = choose|k: int|
                            0 <= k < next.len() && (#[trigger] next[k]) is Insert && next[k]->Insert_0@
                                == y@;
                        assert(k != i);
                        assert(pre[k] == next[k]);
                    }
                }
            },
        }
        i = i + 1;
    }
    assert(commands@.take(commands@.len() as int) =~= commands@);
    result
}

/// The commands that the words `ws` give after a leading count: pairs of a
/// command name, `insert` or `find`, and a key. `None` when the count is no
/// number, a name is neither, or a key is missing.
pub open spec fn dictionary_commands(ws: Seq<Seq<char>>) -> Option<Seq<(bool, Seq<char>)>> {
    if ws.len() >= 1 && usize_literal(ws[0]) is Some && ws.len() % 2 == 1 && forall|k: int|
        0 <= k < (ws.len() - 1) / 2 ==> (#[trigger] ws[2 * k + 1]) == "insert"@ || ws[2 * k + 1]
            == "find"@ {
        Some(
            Seq::new(
                ((ws.len() - 1) / 2) as nat,
                |k: int| (ws[2 * k + 1] == "insert"@, ws[2 * k + 2]),
            ),
        )
    } else {
        None
    }
}

/// The answers to the finds of `cmds`, each a pair of whether it inserts and
/// its key: whether an earlier command inserted the key.
pub open spec fn answers_of(cmds: Seq<(bool, Seq<char>)>) -> Seq<bool>
    decreases cmds.len(),
{
    if cmds.len() == 0 {
        Seq::empty()
    } else if cmds.last().0 {
        answers_of(cmds.drop_last())
    } else {
        answers_of(cmds.drop_last()).push(
            exists|i: int|
                0 <= i < cmds.len() - 1 && (#[trigger] cmds[i]).0 && cmds[i].1 == cmds.last().1,
        )
    }
}

/// `yes` or `no`.
pub open spec fn yes_no(b: bool) -> Seq<char> {
    if b {
        "yes"@
    } else {
        "no"@
    }
}

/// Reads a count and then commands, as [`dictionary_commands`] describes,
/// runs them on a [`VecDictionary`], and answers each find with `yes` or
/// `no`, one answer per line.
pub fn input_dictinary(input: &str) -> (r: Option<String>)
    ensures
        dictionary_commands(words(input@)) is None ==> r is None,
        dictionary_commands(words(input@)) is Some ==> r is Some && r->Some_0@ == joined(
            answers_of(dictionary_commands(words(input@))->Some_0).map_values(|b: bool| yes_no(b)),
            seq!['\n'],
        ),
{
    let ws = split_words(input);
    let ghost wv = string_views(ws@);
    assert(wv.len() == ws@.len());
    if ws.len() == 0 || ws.len() % 2 == 0 {
        return None;
    }
    assert(wv[0] == ws@[0]@);
    if parse_usize(ws[0].as_str()).is_none() {
        return None;
    }
    let n = (ws.len() - 1) / 2;
    assert(ws@.len() == 2 * n + 1);
    let mut commands: Vec<Command> = Vec::new();
    let mut k: usize = 0;
    while k < n
        invariant
            wv == string_views(ws@),
            wv == words(input@),
            wv.len() == ws@.len(),
            ws@.len() == 2 * n + 1,
            ws@.len() == ws.len(),
            k <= n,
            commands@.len() == k,
            forall|j: int| 0 <= j < k ==> (#[trigger] wv[2 * j + 1]) == "insert"@ || wv[2 * j + 1]
                == "find"@,
            forall|j: int|
                0 <= j < k ==> (#[trigger] commands@[j]) is Insert == (wv[2 * j + 1] == "insert"@)
                    && match commands@[j] {
                    Command::Insert(x) => x@ == wv[2 * j + 2],
                    Command::Find(x) => x@ == wv[2 * j + 2],
                },
        decreases n - k,
    {
        assert(wv[2 * k + 1] == ws@[2 * k + 1]@);
        assert(wv[2 * k + 2] == ws@[2 * k + 2]@);
        proof {
            reveal_strlit("insert");
            reveal_strlit("find");
            assert("insert"@.len() != "find"@.len());
        }
        match Command::new(&ws[2 * k + 1], ws[2 * k + 2].clone()) {
            Some(c) => commands.push(c),
            None => {
                assert(dictionary_commands(wv) is None);
                return None;
            },
        }
        k = k + 1;
    }
    let ghost cmds = dictionary_commands(wv)->Some_0;
    let answers = compute(commands.as_slice());
    proof {
        lemma_answers_match(commands@, cmds);
    }
    let mut parts: Vec<String> = Vec::new();
    let mut i: usize = 0;
    while i < answers.len()
        invariant
            i <= answers@.len(),
            string_views(parts@) == answers@.take(i as int).map_values(|b: bool| yes_no(b)),
        decreases answers.len() - i,
    {
        let ghost before = parts@;
        let word = if answers[i] {
            String::from_str("yes")
        } else {
            String::from_str("no")
        };
        parts.push(word);
        assert(string_views(parts@) =~= string_views(before).push(word@));
        assert(answers@.take(i + 1).map_values(|b: bool| yes_no(b)) =~= answers@.take(
            i as int,
        ).map_values(|b: bool| yes_no(b)).push(yes_no(answers@[i as int])));
        i = i + 1;
    }
    assert(answers@.take(answers@.len() as int) =~= answers@);
    proof {
        reveal_strlit("\n");
    }
    assert("\n"@ =~= seq!['\n']);
    Some(join_strings(&parts, "\n"))
}

proof fn lemma_answers_match(commands: Seq<Command>, cmds: Seq<(bool, Seq<char>)>)
    requires
        commands.len() == cmds.len(),
        forall|j: int|
            0 <= j < commands.len() ==> (#[trigger] commands[j]) is Insert == cmds[j].0 && match commands[j] {
                Command::Insert(x) => x@ == cmds[j].1,
                Command::Find(x) => x@ == cmds[j].1,
            },
    ensures
        find_answers(commands) == answers_of(cmds),
    decreases commands.len(),
{
    if commands.len() > 0 {
        lemma_answers_match(commands.drop_last(), cmds.drop_last());
        let last = commands.len() - 1;
        assert(commands[last] == commands.last());
        match commands.last() {
            Command::Insert(_) => {},
            Command::Find(x) => {
                let pre = commands.drop_last();
                if inserts(pre, x@) {
                    let i = choose|i: int|
                        0 <= i < pre.len() && (#[trigger] pre[i]) is Insert && pre[i]->Insert_0@ == x@;
                    assert(commands[i] == pre[i]);
                    assert(cmds[i].0 && cmds[i].1 == cmds.last().1);
                }
                if exists|i: int|
                    0 <= i < cmds.len() - 1 && (#[trigger] cmds[i]).0 && cmds[i].1 == cmds.last().1 {
                    let i = choose|i: int|
                        0 <= i < cmds.len() - 1 && (#[trigger] cmds[i]).0 && cmds[i].1 == cmds.last().1;
                    assert(commands[i] == pre[i]);
                    assert(pre[i] is Insert);
                }
            },
        }
    }
}

} // verus!

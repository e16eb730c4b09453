use vstd::prelude::*;
use crate::order::{lemma_swap_keeps_elements, swapped};
use crate::text::{
    is_digit, joined, nat_decimal, parse_usize, split_words, string_views, usize_literal,
    usize_to_string, words, join_strings,
};

verus! {

broadcast use vstd::seq_lib::group_to_multiset_ensures;

/// A playing card: its number and its suit letter.
#[derive(Debug, Ord, PartialOrd, Eq, PartialEq, Structural, Copy, Clone, Hash)]
pub struct Trump {
    pub number: usize,
    pub suit: char,
}

/// Why a card could not be read.
#[derive(Debug, PartialEq, Eq, Structural, Copy, Clone, Hash)]
pub enum TrumpParsingError {
    ParseError,
}

/// The order of cards: by number, then by suit letter.
pub open spec fn trump_le(a: Trump, b: Trump) -> bool {
    a.number < b.number || (a.number == b.number && (a.suit as u32) <= (b.suit as u32))
}

/// Whether the cards `s` are in ascending order.
pub open spec fn trumps_ascending(s: Seq<Trump>) -> bool {
    forall|i: int, j: int| 0 <= i < j < s.len() ==> trump_le(s[i], s[j])
}

/// The card that the text `s` writes: an ASCII suit letter followed by one
/// decimal digit.
pub open spec fn trump_of(s: Seq<char>) -> Option<Trump> {
    if s.len() == 2 && (s[0] as u32) < 128 && is_digit(s[1]) {
        Some(Trump { number: (s[1] as u32 - '0' as u32) as usize, suit: s[0] })
    } else {
        None
    }
}

/// The text of a card: its suit letter followed by its number in decimal.
pub open spec fn trump_text(t: Trump) -> Seq<char> {
    seq![t.suit] + nat_decimal(t.number as nat)
}

/// Relies on `char`'s `ToString::to_string`: the one character.
#[verifier::external_body]
fn char_to_string(c: char) -> (r: String)
    ensures
        r@ == seq![c],
{
    c.to_string()
}

impl Trump {
    /// Reads a card written as a suit letter and a digit, such as `H4`.
    pub fn parse(s: &str) -> (r: Result<Trump, TrumpParsingError>)
        ensures
            trump_of(s@) is Some ==> r == Ok::<Trump, TrumpParsingError>(trump_of(s@)->Some_0),
            trump_of(s@) is None ==> r == Err::<Trump, TrumpParsingError>(
                TrumpParsingError::ParseError,
            ),
    {
        if s.unicode_len() != 2 {
            return Err(TrumpParsingError::ParseError);
        }
        let suit = s.get_char(0);
        let digit = s.get_char(1);
        if (suit as u32) >= 128 || digit < '0' || digit > '9' {
            return Err(TrumpParsingError::ParseError);
        }
        Ok(Trump { number: (digit as u32 - '0' as u32) as usize, suit })
    }

    /// The card's text: its suit letter followed by its number.
    pub fn to_string(&self) -> (r: String)
        ensures
            r@ == trump_text(*self),
    {
        let s = char_to_string(self.suit);
        let n = usize_to_string(self.number);
        s.concat(n.as_str())
    }
}

impl std::str::FromStr for Trump {
    type Err = TrumpParsingError;

    fn from_str(s: &str) -> Result<Self, TrumpParsingError> {
        Trump::parse(s)
    }
}

/// Whether two sortings agree on the suit at every place.
#[derive(Debug, PartialEq, Eq, Structural, Copy, Clone, Hash)]
pub enum SortStable {
    Stable,
    UnStable,
}

impl SortStable {
    /// `Stable` or `UnStable`.
    pub fn to_string(&self) -> (r: String)
        ensures
            *self == SortStable::Stable ==> r@ == "Stable"@,
            *self == SortStable::UnStable ==> r@ == "UnStable"@,
    {
        match self {
            SortStable::Stable => String::from_str("Stable"),
            SortStable::UnStable => String::from_str("UnStable"),
        }
    }
}

/// `Stable` when `target` has the same suit as `stable` at each of its
/// places, else `UnStable`.
pub fn is_stable(target: &Vec<Trump>, stable: &Vec<Trump>) -> (r: SortStable)
    requires
        target@.len() <= stable@.len(),
    ensures
        r == SortStable::Stable <==> forall|i: int|
            0 <= i < target@.len() ==> (#[trigger] target@[i]).suit == stable@[i].suit,
{
    let len = target.len();
    let mut i: usize = 0;
    while i < len
        invariant
            len == target@.len() <= stable@.len(),
            i <= len,
            forall|k: int| 0 <= k < i ==> (#[trigger] target@[k]).suit == stable@[k].suit,
        decreases len - i,
    {
        if target[i].suit != stable[i].suit {
            return SortStable::UnStable;
        }
        i = i + 1;
    }
    SortStable::Stable
}

fn less(a: &Trump, b: &Trump) -> (r: bool)
    ensures
        r == !trump_le(*b, *a),
{
    a.number < b.number || (a.number == b.number && (a.suit as u32) < (b.suit as u32))
}

/// Sorts the cards in place, in ascending order, by passes from the back that
/// exchange neighbours out of order.
pub fn bubble_sort(trump: &mut Vec<Trump>)
    ensures
        trumps_ascending(final(trump)@),
        final(trump)@.to_multiset() == old(trump)@.to_multiset(),
{
    let ghost start = trump@;
    let len = trump.len();
    let mut i: usize = 0;
    while i < len
        invariant
            len == trump@.len(),
            i <= len,
            trump@.to_multiset() == start.to_multiset(),
            forall|a: int, b: int| 0 <= a < b < i ==> trump_le(trump@[a], trump@[b]),
            forall|a: int, b: int| 0 <= a < i <= b < len ==> trump_le(trump@[a], trump@[b]),
        decreases len - i,
    {
        let mut j: usize = len - 1;
        while j > i
            invariant
                len == trump@.len(),
                i < len,
                i <= j < len,
                trump@.to_multiset() == start.to_multiset(),
                forall|a: int, b: int| 0 <= a < b < i ==> trump_le(trump@[a], trump@[b]),
                forall|a: int, b: int| 0 <= a < i <= b < len ==> trump_le(trump@[a], trump@[b]),
                forall|b: int| j <= b < len ==> trump_le(trump@[j as int], #[trigger] trump@[b]),
            decreases j,
        {
            let ghost before = trump@;
            if less(&trump[j], &trump[j - 1]) {
                proof {
                    lemma_swap_keeps_elements(before, j - 1, j as int);
                }
                let a = trump[j - 1];
                let b = trump[j];
                trump.set(j - 1, b);
                trump.set(j, a);
                assert(trump@ =~= swapped(before, j - 1, j as int));
            }
            j = j - 1;
        }
        i = i + 1;
    }
}

/// Sorts the cards in place, in ascending order, by selection; the smallest
/// remaining card is sought from the back.
pub fn selection_sort(trump: &mut Vec<Trump>)
    ensures
        trumps_ascending(final(trump)@),
        final(trump)@.to_multiset() == old(trump)@.to_multiset(),
{
    let ghost start = trump@;
    let len = trump.len();
    let mut i: usize = 0;
    while i < len
        invariant
            len == trump@.len(),
            i <= len,
            trump@.to_multiset() == start.to_multiset(),
            forall|a: int, b: int| 0 <= a < b < i ==> trump_le(trump@[a], trump@[b]),
            forall|a: int, b: int| 0 <= a < i <= b < len ==> trump_le(trump@[a], trump@[b]),
        decreases len - i,
    {
        let mut minj: usize = i;
        let mut j: usize = len;
        while j > i
            invariant
                len == trump@.len(),
                i < len,
                i <= j <= len,
                i <= minj < len,
                forall|b: int| j <= b < len ==> trump_le(trump@[minj as int], #[trigger] trump@[b]),
                trump_le(trump@[minj as int], trump@[i as int]),
            decreases j,
        {
            j = j - 1;
            if less(&trump[j], &trump[minj]) {
                minj = j;
            }
        }
        let ghost before = trump@;
        proof {
            lemma_swap_keeps_elements(before, i as int, minj as int);
        }
        if i != minj {
            let a = trump[i];
            let b = trump[minj];
            trump.set(i, b);
            trump.set(minj, a);
        }
        assert(trump@ =~= swapped(before, i as int, minj as int));
        i = i + 1;
    }
}

/// Two ascending orderings of the same cards are the same sequence.
pub proof fn lemma_sorted_cards_unique(a: Seq<Trump>, b: Seq<Trump>)
    requires
        trumps_ascending(a),
        trumps_ascending(b),
        a.to_multiset() == b.to_multiset(),
    ensures
        a == b,
    decreases a.len(),
{
    assert(a.to_multiset().len() == a.len());
    assert(b.to_multiset().len() == b.len());
    if a.len() == 0 {
        assert(b.len() == 0);
        assert(a =~= b);
    } else {
        assert(b.len() == a.len());
        assert(a.to_multiset().count(b[0]) > 0);
        assert(a.contains(b[0]));
        let k = choose|k: int| 0 <= k < a.len() && a[k] == b[0];
        assert(trump_le(a[0], a[k]) || k == 0);
        assert(a.contains(a[0]));
        assert(a.to_multiset().count(a[0]) > 0);
        assert(b.contains(a[0]));
        let m = choose|m: int| 0 <= m < b.len() && b[m] == a[0];
        assert(trump_le(b[0], b[m]) || m == 0);
        assert((a[0].suit as u32) == (b[0].suit as u32) ==> a[0].suit == b[0].suit);
        assert(a[0] == b[0]);
        assert(a.remove(0) =~= a.drop_first());
        assert(b.remove(0) =~= b.drop_first());
        lemma_sorted_cards_unique(a.drop_first(), b.drop_first());
        assert forall|i: int| 0 <= i < a.len() implies a[i] == b[i] by {
            if i > 0 {
                assert(a[i] == a.drop_first()[i - 1]);
                assert(b[i] == b.drop_first()[i - 1]);
            }
        }
        assert(a =~= b);
    }
}

/// The cards that the words `ws` list after a leading count, or `None` when
/// the count is no number or a word is no card.
pub open spec fn cards_of(ws: Seq<Seq<char>>) -> Option<Seq<Trump>> {
    if ws.len() >= 1 && usize_literal(ws[0]) is Some && forall|k: int|
        1 <= k < ws.len() ==> (#[trigger] trump_of(ws[k])) is Some {
        Some(ws.skip(1).map_values(|w: Seq<char>| trump_of(w)->Some_0))
    } else {
        None
    }
}

/// The texts of the cards `s`, separated by single spaces.
pub open spec fn cards_text(s: Seq<Trump>) -> Seq<char> {
    joined(s.map_values(|t: Trump| trump_text(t)), seq![' '])
}

fn cards_to_text(s: &Vec<Trump>) -> (r: String)
    ensures
        r@ == cards_text(s@),
{
    let mut parts: Vec<String> = Vec::new();
    let mut i: usize = 0;
    while i < s.len()
        invariant
            i <= s@.len(),
            string_views(parts@) == s@.take(i as int).map_values(|t: Trump| trump_text(t)),
        decreases s.len() - i,
    {
        let ghost before = parts@;
        let text = s[i].to_string();
        parts.push(text);
        assert(string_views(parts@) =~= string_views(before).push(text@));
        assert(s@.take(i + 1).map_values(|t: Trump| trump_text(t)) =~= s@.take(
            i as int,
        ).map_values(|t: Trump| trump_text(t)).push(trump_text(s@[i as int])));
        i = i + 1;
    }
    assert(s@.take(s@.len() as int) =~= s@);
    proof {
        reveal_strlit(" ");
    }
    assert(" "@ =~= seq![' ']);
    join_strings(&parts, " ")
}

/// Reads a count and then cards, separated by whitespace, and sorts the cards
/// by bubble sort and by selection sort. Returns four lines: the bubble-sorted
/// cards, `Stable`, the selection-sorted cards, and whether the selection sort
/// kept the suits where the bubble sort put them.
pub fn input_stable_sort(input: &str) -> (r: Option<String>)
    ensures
        cards_of(words(input@)) is None ==> r is None,
        cards_of(words(input@)) is Some ==> r is Some && exists|sorted: Seq<Trump>|
            trumps_ascending(sorted) && sorted.to_multiset() == cards_of(
                words(input@),
            )->Some_0.to_multiset() && r->Some_0@ == cards_text(sorted) + "\n"@ + "Stable"@
                + "\n"@ + cards_text(sorted) + "\n"@ + "Stable"@,
{
    let ws = split_words(input);
    let ghost wv = string_views(ws@);
    assert(wv.len() == ws@.len());
    if ws.len() == 0 {
        return None;
    }
    assert(wv[0] == ws@[0]@);
    if parse_usize(ws[0].as_str()).is_none() {
        return None;
    }
    let mut seq: Vec<Trump> = Vec::new();
    let mut k: usize = 1;
    while k < ws.len()
        invariant
            wv == string_views(ws@),
            wv == words(input@),
            wv.len() == ws@.len(),
            1 <= k <= ws@.len(),
            seq@.len() == k - 1,
            forall|j: int| 0 <= j < k - 1 ==> trump_of(wv[j + 1]) == Some(#[trigger] seq@[j]),
        decreases ws.len() - k,
    {
        assert(wv[k as int] == ws@[k as int]@);
        match Trump::parse(ws[k].as_str()) {
            Ok(t) => seq.push(t),
            Err(_) => {
                assert(cards_of(wv) is None);
                return None;
            },
        }
        k = k + 1;
    }
    assert forall|j: int| 1 <= j < wv.len() implies (#[trigger] trump_of(wv[j])) is Some by {
        assert(trump_of(wv[(j - 1) + 1]) == Some(seq@[j - 1]));
    }
    assert forall|j: int| 0 <= j < seq@.len() implies wv.skip(1).map_values(
        |w: Seq<char>| trump_of(w)->Some_0,
    )[j] == seq@[j] by {
        assert(wv.skip(1)[j] == wv[j + 1]);
        assert(trump_of(wv[j + 1]) == Some(seq@[j]));
    }
    assert(wv.skip(1).map_values(|w: Seq<char>| trump_of(w)->Some_0) =~= seq@);
    let mut bubble_seq = seq.clone();
    bubble_sort(&mut bubble_seq);
    let mut selection_seq = seq.clone();
    selection_sort(&mut selection_seq);
    proof {
        lemma_sorted_cards_unique(bubble_seq@, selection_seq@);
    }
    let bubble_sort_stable = SortStable::Stable.to_string();
    let selection_sort_stable = is_stable(&selection_seq, &bubble_seq).to_string();
    let out = cards_to_text(&bubble_seq);
    let out = out.concat("\n");
    let out = out.concat(bubble_sort_stable.as_str());
    let out = out.concat("\n");
    let out = out.concat(cards_to_text(&selection_seq).as_str());
    let out = out.concat("\n");
    let out = out.concat(selection_sort_stable.as_str());
    Some(out)
}

} // verus!

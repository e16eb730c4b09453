use vstd::prelude::*;
use itertools::Itertools;

verus! {

/// An ASCII decimal digit.
pub open spec fn is_digit(c: char) -> bool {
    '0' <= c <= '9'
}

/// A non-empty run of ASCII decimal digits.
pub open spec fn all_digits(s: Seq<char>) -> bool {
    s.len() > 0 && forall|i: int| 0 <= i < s.len() ==> is_digit(#[trigger] s[i])
}

/// The value of a run of decimal digits, most significant first.
pub open spec fn digits_value(s: Seq<char>) -> int
    decreases s.len(),
{
    if s.len() == 0 {
        0
    } else {
        digits_value(s.drop_last()) * 10 + (s.last() as u32 - '0' as u32)
    }
}

/// The integer that `s` writes in decimal, with an optional leading `+` or
/// `-`, or `None` when `s` is not of that form.
pub open spec fn signed_literal(s: Seq<char>) -> Option<int> {
    if s.len() > 0 && s[0] == '-' && all_digits(s.drop_first()) {
        Some(-digits_value(s.drop_first()))
    } else if s.len() > 0 && s[0] == '+' && all_digits(s.drop_first()) {
        Some(digits_value(s.drop_first()))
    } else if all_digits(s) {
        Some(digits_value(s))
    } else {
        None
    }
}

/// The integer that `s` writes in decimal, with an optional leading `+`, or
/// `None` when `s` is not of that form.
pub open spec fn unsigned_literal(s: Seq<char>) -> Option<int> {
    if s.len() > 0 && s[0] == '+' && all_digits(s.drop_first()) {
        Some(digits_value(s.drop_first()))
    } else if all_digits(s) {
        Some(digits_value(s))
    } else {
        None
    }
}

/// [`signed_literal`] where its value fits in `isize`.
pub open spec fn isize_literal(s: Seq<char>) -> Option<isize> {
    match signed_literal(s) {
        Some(v) => if isize::MIN <= v <= isize::MAX {
            Some(v as isize)
        } else {
            None
        },
        None => None,
    }
}

/// [`unsigned_literal`] where its value fits in `usize`.
pub open spec fn usize_literal(s: Seq<char>) -> Option<usize> {
    match unsigned_literal(s) {
        Some(v) => if v <= usize::MAX {
            Some(v as usize)
        } else {
            None
        },
        None => None,
    }
}

/// Relies on `str::parse::<isize>`: it accepts exactly an optional sign and a
/// run of ASCII digits whose value fits in `isize`.
#[verifier::external_body]
pub(crate) fn parse_isize(s: &str) -> (r: Option<isize>)
    ensures
        r == isize_literal(s@),
{
    s.parse::<isize>().ok()
}

/// Relies on `str::parse::<usize>`: it accepts exactly an optional `+` and a
/// run of ASCII digits whose value fits in `usize`.
#[verifier::external_body]
pub(crate) fn parse_usize(s: &str) -> (r: Option<usize>)
    ensures
        r == usize_literal(s@),
{
    s.parse::<usize>().ok()
}

/// ASCII whitespace: space, tab, line feed, form feed and carriage return.
pub open spec fn is_space(c: char) -> bool {
    c == ' ' || c == '\t' || c == '\n' || c == '\x0C' || c == '\r'
}

/// The maximal runs of non-whitespace characters of `s`, in order.
pub open spec fn words(s: Seq<char>) -> Seq<Seq<char>>
    decreases s.len(),
{
    if s.len() == 0 {
        Seq::empty()
    } else {
        let w = words(s.drop_last());
        if is_space(s.last()) {
            w
        } else if s.len() >= 2 && !is_space(s[s.len() - 2]) {
            w.drop_last().push(w.last().push(s.last()))
        } else {
            w.push(seq![s.last()])
        }
    }
}

/// The character sequences of the strings `v`.
pub open spec fn string_views(v: Seq<String>) -> Seq<Seq<char>> {
    v.map_values(|w: String| w@)
}

fn is_space_char(c: char) -> (r: bool)
    ensures
        r == is_space(c),
{
    c == ' ' || c == '\t' || c == '\n' || c == '\x0C' || c == '\r'
}

/// Splits `s` at ASCII whitespace, dropping the empty pieces.
pub fn split_words(s: &str) -> (r: Vec<String>)
    ensures
        string_views(r@) == words(s@),
{
    let n = s.unicode_len();
    let mut out: Vec<String> = Vec::new();
    let mut start: usize = 0;
    let mut in_word = false;
    let mut i: usize = 0;
    while i < n
        invariant
            n == s@.len(),
            i <= n,
            start <= i,
            in_word ==> start < i && (start == 0 || is_space(s@[start - 1])) && (forall|k: int|
                start <= k < i ==> !is_space(#[trigger] s@[k])) && words(s@.take(i as int))
                == string_views(out@).push(s@.subrange(start as int, i as int)),
            !in_word ==> words(s@.take(i as int)) == string_views(out@) && (i == 0 || is_space(
                s@[i - 1],
            )),
        decreases n - i,
    {
        let c = s.get_char(i);
        let ghost pre = s@.take(i + 1);
        assert(pre.drop_last() =~= s@.take(i as int));
        assert(pre.last() == c);
        if is_space_char(c) {
            if in_word {
                let ghost old_out = out@;
                let w = String::from_str(s.substring_char(start, i));
                out.push(w);
                in_word = false;
                assert(out@.drop_last() =~= old_out);
                assert(string_views(out@) =~= string_views(old_out).push(w@));
            }
        } else {
            if in_word {
                assert(pre[i - 1] == s@[i - 1]);
                assert(s@.subrange(start as int, i + 1) =~= s@.subrange(start as int, i as int).push(c));
            } else {
                if i > 0 {
                    assert(pre[i - 1] == s@[i - 1]);
                }
                start = i;
                in_word = true;
                assert(s@.subrange(start as int, i + 1) =~= seq![c]);
            }
        }
        i = i + 1;
    }
    if in_word {
        let ghost old_out = out@;
        let w = String::from_str(s.substring_char(start, n));
        out.push(w);
        assert(out@.drop_last() =~= old_out);
        assert(string_views(out@) =~= string_views(old_out).push(w@));
    }
    assert(s@.take(n as int) =~= s@);
    out
}

/// The pieces of `s` between line feeds, one more than there are line feeds.
pub open spec fn pieces(s: Seq<char>) -> Seq<Seq<char>>
    decreases s.len(),
{
    if s.len() == 0 {
        seq![Seq::empty()]
    } else {
        let p = pieces(s.drop_last());
        if s.last() == '\n' {
            p.push(Seq::empty())
        } else {
            p.drop_last().push(p.last().push(s.last()))
        }
    }
}

/// The lines of `s`: the pieces between line feeds, where a final line feed
/// ends the last line rather than starting an empty one.
pub open spec fn lines(s: Seq<char>) -> Seq<Seq<char>> {
    let p = pieces(s);
    if p.last().len() == 0 {
        p.drop_last()
    } else {
        p
    }
}

/// Splits `s` into its lines.
pub fn split_lines(s: &str) -> (r: Vec<String>)
    ensures
        string_views(r@) == lines(s@),
{
    let n = s.unicode_len();
    let mut out: Vec<String> = Vec::new();
    let mut start: usize = 0;
    let mut i: usize = 0;
    assert(s@.take(0) =~= Seq::<char>::empty());
    assert(s@.subrange(0, 0) =~= Seq::<char>::empty());
    while i < n
        invariant
            n == s@.len(),
            start <= i <= n,
            pieces(s@.take(i as int)) == string_views(out@).push(s@.subrange(start as int, i as int)),
        decreases n - i,
    {
        let c = s.get_char(i);
        let ghost pre = s@.take(i + 1);
        assert(pre.drop_last() =~= s@.take(i as int));
        assert(pre.last() == c);
        if c == '\n' {
            let ghost old_out = out@;
            let piece = String::from_str(s.substring_char(start, i));
            out.push(piece);
            assert(out@.drop_last() =~= old_out);
            assert(string_views(out@) =~= string_views(old_out).push(piece@));
            start = i + 1;
            assert(s@.subrange(start as int, i + 1) =~= Seq::<char>::empty());
        } else {
            assert(s@.subrange(start as int, i + 1) =~= s@.subrange(start as int, i as int).push(c));
        }
        i = i + 1;
    }
    assert(s@.take(n as int) =~= s@);
    if start < n {
        let ghost old_out = out@;
        let piece = String::from_str(s.substring_char(start, n));
        out.push(piece);
        assert(out@.drop_last() =~= old_out);
        assert(string_views(out@) =~= string_views(old_out).push(piece@));
    } else {
        assert(string_views(out@) =~= pieces(s@).drop_last());
    }
    out
}

/// The decimal digit character for `d`, where `0 <= d < 10`.
pub open spec fn digit_char(d: int) -> char {
    seq!['0', '1', '2', '3', '4', '5', '6', '7', '8', '9'][d]
}

/// `n` in decimal, without leading zeros.
pub open spec fn nat_decimal(n: nat) -> Seq<char>
    decreases n,
{
    if n < 10 {
        seq![digit_char(n as int)]
    } else {
        nat_decimal(n / 10).push(digit_char((n % 10) as int))
    }
}

/// `v` in decimal, with a leading `-` when negative.
pub open spec fn int_decimal(v: int) -> Seq<char> {
    if v < 0 {
        seq!['-'] + nat_decimal((-v) as nat)
    } else {
        nat_decimal(v as nat)
    }
}

/// Relies on `isize`'s `Display` through `ToString::to_string`: decimal
/// digits without leading zeros, after a `-` for a negative value.
#[verifier::external_body]
pub(crate) fn isize_to_string(v: isize) -> (r: String)
    ensures
        r@ == int_decimal(v as int),
{
    v.to_string()
}

/// Relies on `usize`'s `Display` through `ToString::to_string`: decimal
/// digits without leading zeros.
#[verifier::external_body]
pub(crate) fn usize_to_string(v: usize) -> (r: String)
    ensures
        r@ == nat_decimal(v as nat),
{
    v.to_string()
}

/// `parts` with `sep` between each two neighbours.
pub open spec fn joined(parts: Seq<Seq<char>>, sep: Seq<char>) -> Seq<char>
    decreases parts.len(),
{
    if parts.len() == 0 {
        Seq::empty()
    } else if parts.len() == 1 {
        parts[0]
    } else {
        joined(parts.drop_last(), sep) + sep + parts.last()
    }
}

/// Relies on `Itertools::join`: the items in order, `sep` between each two
/// neighbours, nothing for no items.
#[verifier::external_body]
pub(crate) fn join_strings(parts: &Vec<String>, sep: &str) -> (r: String)
    ensures
        r@ == joined(string_views(parts@), sep@),
{
    parts.iter().join(sep)
}

/// The decimal texts of `v`.
pub open spec fn isize_decimals(v: Seq<isize>) -> Seq<Seq<char>> {
    v.map_values(|x: isize| int_decimal(x as int))
}

/// The decimal texts of `v`.
pub open spec fn usize_decimals(v: Seq<usize>) -> Seq<Seq<char>> {
    v.map_values(|x: usize| nat_decimal(x as nat))
}

/// `v` in decimal, separated by single spaces.
pub fn isizes_text(v: &[isize]) -> (r: String)
    ensures
        r@ == joined(isize_decimals(v@), seq![' ']),
{
    let mut parts: Vec<String> = Vec::new();
    let mut i: usize = 0;
    while i < v.len()
        invariant
            i <= v@.len(),
            string_views(parts@) == isize_decimals(v@.take(i as int)),
        decreases v.len() - i,
    {
        let ghost before = parts@;
        parts.push(isize_to_string(v[i]));
        assert(string_views(parts@) =~= string_views(before).push(int_decimal(v[i as int] as int)));
        assert(isize_decimals(v@.take(i + 1)) =~= isize_decimals(v@.take(i as int)).push(
            int_decimal(v[i as int] as int),
        ));
        i = i + 1;
    }
    assert(v@.take(v@.len() as int) =~= v@);
    proof {
        reveal_strlit(" ");
    }
    assert(" "@ =~= seq![' ']);
    join_strings(&parts, " ")
}

/// `v` in decimal, separated by single spaces.
pub fn usizes_text(v: &[usize]) -> (r: String)
    ensures
        r@ == joined(usize_decimals(v@), seq![' ']),
{
    let mut parts: Vec<String> = Vec::new();
    let mut i: usize = 0;
    while i < v.len()
        invariant
            i <= v@.len(),
            string_views(parts@) == usize_decimals(v@.take(i as int)),
        decreases v.len() - i,
    {
        let ghost before = parts@;
        parts.push(usize_to_string(v[i]));
        assert(string_views(parts@) =~= string_views(before).push(nat_decimal(v[i as int] as nat)));
        assert(usize_decimals(v@.take(i + 1)) =~= usize_decimals(v@.take(i as int)).push(
            nat_decimal(v[i as int] as nat),
        ));
        i = i + 1;
    }
    assert(v@.take(v@.len() as int) =~= v@);
    proof {
        reveal_strlit(" ");
    }
    assert(" "@ =~= seq![' ']);
    join_strings(&parts, " ")
}

/// The values of the words `ws`, or `None` when one of them is not a decimal
/// integer that fits in `isize`.
pub open spec fn isize_words(ws: Seq<Seq<char>>) -> Option<Seq<isize>> {
    if forall|i: int| 0 <= i < ws.len() ==> (#[trigger] isize_literal(ws[i])) is Some {
        Some(ws.map_values(|w: Seq<char>| isize_literal(w)->Some_0))
    } else {
        None
    }
}

/// The values of the words `ws`, or `None` when one of them is not a decimal
/// integer that fits in `usize`.
pub open spec fn usize_words(ws: Seq<Seq<char>>) -> Option<Seq<usize>> {
    if forall|i: int| 0 <= i < ws.len() ==> (#[trigger] usize_literal(ws[i])) is Some {
        Some(ws.map_values(|w: Seq<char>| usize_literal(w)->Some_0))
    } else {
        None
    }
}

/// Reads the words of `ws` from index `from` on as `isize` values.
pub fn parse_isizes(ws: &Vec<String>, from: usize) -> (r: Option<Vec<isize>>)
    requires
        from <= ws@.len(),
    ensures
        r is Some <==> isize_words(string_views(ws@).skip(from as int)) is Some,
        r is Some ==> r->Some_0@ == isize_words(string_views(ws@).skip(from as int))->Some_0,
{
    let ghost wv = string_views(ws@).skip(from as int);
    let mut out: Vec<isize> = Vec::new();
    let mut i: usize = from;
    while i < ws.len()
        invariant
            from <= i <= ws@.len(),
            wv == string_views(ws@).skip(from as int),
            out@.len() == i - from,
            forall|k: int| 0 <= k < i - from ==> isize_literal(wv[k]) == Some(#[trigger] out@[k]),
        decreases ws.len() - i,
    {
        assert(wv[i - from] == ws@[i as int]@);
        match parse_isize(ws[i].as_str()) {
            Some(v) => out.push(v),
            None => {
                assert(isize_literal(wv[i - from]) is None);
                return None;
            },
        }
        i = i + 1;
    }
    assert forall|k: int| 0 <= k < wv.len() implies (#[trigger] isize_literal(wv[k])) is Some by {
        assert(isize_literal(wv[k]) == Some(out@[k]));
    }
    assert(wv.map_values(|w: Seq<char>| isize_literal(w)->Some_0) =~= out@);
    Some(out)
}

/// Reads the words of `ws` from index `from` on as `usize` values.
pub fn parse_usizes(ws: &Vec<String>, from: usize) -> (r: Option<Vec<usize>>)
    requires
        from <= ws@.len(),
    ensures
        r is Some <==> usize_words(string_views(ws@).skip(from as int)) is Some,
        r is Some ==> r->Some_0@ == usize_words(string_views(ws@).skip(from as int))->Some_0,
{
    let ghost wv = string_views(ws@).skip(from as int);
    let mut out: Vec<usize> = Vec::new();
    let mut i: usize = from;
    while i < ws.len()
        invariant
            from <= i <= ws@.len(),
            wv == string_views(ws@).skip(from as int),
            out@.len() == i - from,
            forall|k: int| 0 <= k < i - from ==> usize_literal(wv[k]) == Some(#[trigger] out@[k]),
        decreases ws.len() - i,
    {
        assert(wv[i - from] == ws@[i as int]@);
        match parse_usize(ws[i].as_str()) {
            Some(v) => out.push(v),
            None => {
                assert(usize_literal(wv[i - from]) is None);
                return None;
            },
        }
        i = i + 1;
    }
    assert forall|k: int| 0 <= k < wv.len() implies (#[trigger] usize_literal(wv[k])) is Some by {
        assert(usize_literal(wv[k]) == Some(out@[k]));
    }
    assert(wv.map_values(|w: Seq<char>| usize_literal(w)->Some_0) =~= out@);
    Some(out)
}

} // verus!

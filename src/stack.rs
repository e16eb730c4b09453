use vstd::prelude::*;
use crate::slots::Slots;
use crate::text::{
    int_decimal, isize_literal, isize_to_string, parse_isize, split_words, string_views, words,
};

verus! {

/// A binary operator of the postfix language.
#[derive(Debug, PartialEq, Eq, Structural, Hash, Copy, Clone)]
pub enum Op {
    Plus,
    Minus,
    Mul,
}

/// A token of the postfix language: an integer literal or an operator.
#[derive(Debug, PartialEq, Eq, Structural, Hash, Copy, Clone)]
pub enum Ident {
    Int(isize),
    Op(Op),
}

/// The operator that the character `c` stands for.
pub open spec fn op_of(c: char) -> Option<Op> {
    if c == '+' {
        Some(Op::Plus)
    } else if c == '-' {
        Some(Op::Minus)
    } else if c == '*' {
        Some(Op::Mul)
    } else {
        None
    }
}

/// The token that the text `s` stands for: a lone operator character, or else
/// a decimal integer that fits in `isize`.
pub open spec fn ident_of(s: Seq<char>) -> Option<Ident> {
    if s.len() == 1 && op_of(s[0]) is Some {
        Some(Ident::Op(op_of(s[0])->Some_0))
    } else {
        match isize_literal(s) {
            Some(v) => Some(Ident::Int(v)),
            None => None,
        }
    }
}

impl Op {
    /// The operator written as `op`, if any.
    pub fn from(op: &char) -> (r: Option<Self>)
        ensures
            r == op_of(*op),
    {
        match *op {
            '+' => Some(Op::Plus),
            '-' => Some(Op::Minus),
            '*' => Some(Op::Mul),
            _ => None,
        }
    }
}

impl Ident {
    /// Reads one token.
    pub fn from(s: &str) -> (r: Option<Self>)
        ensures
            r == ident_of(s@),
    {
        if s.unicode_len() == 1 {
            let c = s.get_char(0);
            if let Some(op) = Op::from(&c) {
                return Some(Ident::Op(op));
            }
        }
        match parse_isize(s) {
            Some(v) => Some(Ident::Int(v)),
            None => None,
        }
    }
}

/// Failure of an insertion: the container accepts no more values.
#[derive(Debug, PartialEq, Eq, Structural, Hash, Copy, Clone)]
pub enum PushError {
    IsFull,
}

/// Failure of a removal: the container holds no value.
#[derive(Debug, PartialEq, Eq, Structural, Hash, Copy, Clone)]
pub enum PopError {
    IsEmpty,
}

impl PushError {
    /// A short description of the failure.
    pub fn to_string(&self) -> (r: String)
        ensures
            r@ == "container is full"@,
    {
        String::from_str("container is full")
    }
}

impl PopError {
    /// A short description of the failure.
    pub fn to_string(&self) -> (r: String)
        ensures
            r@ == "container is empty"@,
    {
        String::from_str("container is empty")
    }
}

/// A last-in-first-out container of bounded capacity.
pub trait Stack<T>: Sized {
    /// The values held, bottom first.
    spec fn items(&self) -> Seq<T>;

    /// The largest number of values the stack can hold.
    spec fn cap(&self) -> nat;

    /// Well-formedness of the representation.
    spec fn inv(&self) -> bool;

    /// Puts `item` on top, unless the stack is full.
    fn push(&mut self, item: T) -> (r: Result<(), PushError>)
        requires
            old(self).inv(),
        ensures
            final(self).inv(),
            final(self).cap() == old(self).cap(),
            old(self).items().len() <= old(self).cap(),
            old(self).items().len() == old(self).cap() ==> r == Err::<(), PushError>(
                PushError::IsFull,
            ) && *final(self) == *old(self),
            old(self).items().len() < old(self).cap() ==> r == Ok::<(), PushError>(())
                && final(self).items() == old(self).items().push(item),
    ;

    /// Removes and returns the top value, unless the stack is empty.
    fn pop(&mut self) -> (r: Result<T, PopError>)
        requires
            old(self).inv(),
        ensures
            final(self).inv(),
            final(self).cap() == old(self).cap(),
            old(self).items().len() == 0 ==> r == Err::<T, PopError>(PopError::IsEmpty)
                && *final(self) == *old(self),
            old(self).items().len() > 0 ==> r == Ok::<T, PopError>(old(self).items().last())
                && final(self).items() == old(self).items().drop_last(),
    ;

    /// Whether the stack holds no value.
    fn is_empty(&self) -> (r: bool)
        requires
            self.inv(),
        ensures
            r == (self.items().len() == 0),
    ;

    /// Whether the stack holds as many values as it can.
    fn is_full(&self) -> (r: bool)
        requires
            self.inv(),
        ensures
            r == (self.items().len() == self.cap()),
    ;

    /// The largest number of values the stack can hold.
    fn capacity(&self) -> (r: usize)
        requires
            self.inv(),
        ensures
            r == self.cap(),
    ;
}

/// A stack whose values live in a vector, bounded by the capacity given at
/// construction.
pub struct VecStack<T> {
    items: Vec<T>,
    cap: usize,
}

impl<T> VecStack<T> {
    /// An empty stack that holds at most `capacity` values.
    pub fn new(capacity: usize) -> (r: Self)
        ensures
            r.inv(),
            r.items() == Seq::<T>::empty(),
            r.cap() == capacity,
    {
        VecStack { items: Vec::with_capacity(capacity), cap: capacity }
    }
}

impl<T> Stack<T> for VecStack<T> {
    closed spec fn items(&self) -> Seq<T> {
        self.items@
    }

    closed spec fn cap(&self) -> nat {
        self.cap as nat
    }

    closed spec fn inv(&self) -> bool {
        self.items@.len() <= self.cap
    }

    fn push(&mut self, item: T) -> (r: Result<(), PushError>) {
        if self.is_full() {
            return Err(PushError::IsFull);
        }
        self.items.push(item);
        Ok(())
    }

    fn pop(&mut self) -> (r: Result<T, PopError>) {
        if self.items.is_empty() {
            return Err(PopError::IsEmpty);
        }
        match self.items.pop() {
            Some(v) => Ok(v),
            None => Err(PopError::IsEmpty),
        }
    }

    fn is_empty(&self) -> (r: bool) {
        self.items.is_empty()
    }

    fn is_full(&self) -> (r: bool) {
        self.cap <= self.items.len()
    }

    fn capacity(&self) -> (r: usize) {
        self.cap
    }
}

/// The capacity of an [`ArrayStack`].
pub const ARRAY_STACK_SIZE: usize = 256;

/// A stack over a fixed block of [`ARRAY_STACK_SIZE`] slots.
///
/// The cells below `top` are occupied and the others empty; `top` alone says
/// which cells may be read.
pub struct ArrayStack<T> {
    top: usize,
    slots: Slots<T>,
}

impl<T> ArrayStack<T> {
    /// An empty stack of capacity [`ARRAY_STACK_SIZE`].
    pub fn new() -> (r: Self)
        ensures
            r.inv(),
            r.items() == Seq::<T>::empty(),
            r.cap() == ARRAY_STACK_SIZE,
    {
        let r = ArrayStack { top: 0, slots: Slots::new(ARRAY_STACK_SIZE) };
        assert(r.items() =~= Seq::<T>::empty());
        r
    }
}

impl<T> Stack<T> for ArrayStack<T> {
    closed spec fn items(&self) -> Seq<T> {
        Seq::new(self.top as nat, |i: int| self.slots@[i]->Some_0)
    }

    closed spec fn cap(&self) -> nat {
        ARRAY_STACK_SIZE as nat
    }

    closed spec fn inv(&self) -> bool {
        &&& self.slots@.len() == ARRAY_STACK_SIZE
        &&& self.top <= ARRAY_STACK_SIZE
        &&& forall|i: int| 0 <= i < self.top ==> (#[trigger] self.slots@[i]) is Some
        &&& forall|i: int| self.top <= i < ARRAY_STACK_SIZE ==> (#[trigger] self.slots@[i]) is None
    }

    fn push(&mut self, item: T) -> (r: Result<(), PushError>) {
        if self.top >= self.slots.len() {
            return Err(PushError::IsFull);
        }
        let ghost before = self.items();
        self.slots.write(self.top, item);
        self.top = self.top + 1;
        assert(self.items() =~= before.push(item));
        Ok(())
    }

    fn pop(&mut self) -> (r: Result<T, PopError>) {
        if self.top == 0 {
            return Err(PopError::IsEmpty);
        }
        let ghost before = self.items();
        self.top = self.top - 1;
        let v = self.slots.take(self.top);
        assert(self.items() =~= before.drop_last());
        Ok(v)
    }

    fn is_empty(&self) -> (r: bool) {
        self.top == 0
    }

    fn is_full(&self) -> (r: bool) {
        self.top >= ARRAY_STACK_SIZE
    }

    fn capacity(&self) -> (r: usize) {
        ARRAY_STACK_SIZE
    }
}

/// The values on a stack of capacity `cap` that held `s`, once each of `xs`
/// has been pushed in turn; a push onto a full stack changes nothing.
pub open spec fn pushed<T>(s: Seq<T>, xs: Seq<T>, cap: nat) -> Seq<T>
    decreases xs.len(),
{
    if xs.len() == 0 {
        s
    } else {
        let r = pushed(s, xs.drop_last(), cap);
        if r.len() < cap {
            r.push(xs.last())
        } else {
            r
        }
    }
}

/// The values that `n` pops take from a stack holding `s`, in the order they
/// come out; a pop from an empty stack takes nothing.
pub open spec fn popped<T>(s: Seq<T>, n: nat) -> Seq<T>
    decreases n,
{
    if n == 0 || s.len() == 0 {
        Seq::empty()
    } else {
        seq![s.last()] + popped(s.drop_last(), (n - 1) as nat)
    }
}

proof fn lemma_pushed_onto_empty<T>(xs: Seq<T>, cap: nat)
    requires
        xs.len() <= cap,
    ensures
        pushed(Seq::<T>::empty(), xs, cap) == xs,
    decreases xs.len(),
{
    if xs.len() > 0 {
        lemma_pushed_onto_empty(xs.drop_last(), cap);
        assert(xs.drop_last().push(xs.last()) =~= xs);
    }
}

proof fn lemma_popped_everything<T>(s: Seq<T>)
    ensures
        popped(s, s.len()) == s.reverse(),
    decreases s.len(),
{
    if s.len() > 0 {
        lemma_popped_everything(s.drop_last());
        assert(seq![s.last()] + s.drop_last().reverse() =~= s.reverse());
    }
}

/// Last in, first out: pushing at most a stack's capacity of values onto an
/// empty stack and popping as many times takes them back in reverse order.
pub proof fn lemma_lifo<T>(xs: Seq<T>, cap: nat)
    requires
        xs.len() <= cap,
    ensures
        popped(pushed(Seq::<T>::empty(), xs, cap), xs.len()) == xs.reverse(),
{
    lemma_pushed_onto_empty(xs, cap);
    lemma_popped_everything(xs);
}

/// Why a postfix expression has no value.
#[derive(Debug, PartialEq, Eq, Structural, Hash, Copy, Clone)]
pub enum EvalError {
    /// More operands are pending than the working stack can hold.
    Full,
    /// An operator lacks an operand, or the expression does not end with
    /// exactly one value.
    MalformedExpression,
    /// An intermediate value does not fit in `isize`.
    Overflow,
    /// A word of the input is neither an integer nor an operator.
    InvalidToken,
}

/// `l op r` over the integers.
pub open spec fn apply_op(op: Op, l: int, r: int) -> int {
    match op {
        Op::Plus => l + r,
        Op::Minus => l - r,
        Op::Mul => l * r,
    }
}

/// The working stack after one more token, or the error that stops the
/// evaluation.
pub open spec fn eval_step(st: Result<Seq<isize>, EvalError>, t: Ident) -> Result<
    Seq<isize>,
    EvalError,
> {
    match st {
        Err(e) => Err(e),
        Ok(s) => match t {
            Ident::Int(v) => if s.len() >= ARRAY_STACK_SIZE {
                Err(EvalError::Full)
            } else {
                Ok(s.push(v))
            },
            Ident::Op(op) => if s.len() < 2 {
                Err(EvalError::MalformedExpression)
            } else {
                let v = apply_op(op, s[s.len() - 2] as int, s.last() as int);
                if isize::MIN <= v <= isize::MAX {
                    Ok(s.drop_last().drop_last().push(v as isize))
                } else {
                    Err(EvalError::Overflow)
                }
            },
        },
    }
}

/// The working stack after the tokens `ts`, left to right, from empty.
pub open spec fn eval_prefix(ts: Seq<Ident>) -> Result<Seq<isize>, EvalError>
    decreases ts.len(),
{
    if ts.len() == 0 {
        Ok(Seq::empty())
    } else {
        eval_step(eval_prefix(ts.drop_last()), ts.last())
    }
}

/// The value of the postfix expression `ts`: the one value left once every
/// token is consumed.
pub open spec fn evaluate(ts: Seq<Ident>) -> Result<isize, EvalError> {
    match eval_prefix(ts) {
        Ok(s) => if s.len() == 1 {
            Ok(s[0])
        } else {
            Err(EvalError::MalformedExpression)
        },
        Err(e) => Err(e),
    }
}

/// Once a prefix of the tokens fails, the whole run fails the same way.
proof fn lemma_eval_error_sticks(ts: Seq<Ident>, i: int)
    requires
        0 <= i <= ts.len(),
        eval_prefix(ts.take(i)) is Err,
    ensures
        eval_prefix(ts) == eval_prefix(ts.take(i)),
    decreases ts.len() - i,
{
    if i == ts.len() {
        assert(ts.take(i) =~= ts);
    } else {
        assert(ts.take(i + 1).drop_last() =~= ts.take(i));
        lemma_eval_error_sticks(ts, i + 1);
    }
}

/// A lone integer token evaluates to itself.
pub proof fn lemma_single_literal(v: isize)
    ensures
        evaluate(seq![Ident::Int(v)]) == Ok::<isize, EvalError>(v),
{
    let ts = seq![Ident::Int(v)];
    assert(ts.drop_last() =~= Seq::<Ident>::empty());
    assert(eval_prefix(ts.drop_last()) == Ok::<Seq<isize>, EvalError>(Seq::empty()));
    assert(Seq::<isize>::empty().push(v) =~= seq![v]);
    assert(eval_prefix(ts) == Ok::<Seq<isize>, EvalError>(seq![v]));
}

/// An operator met while fewer than two values are pending makes the whole
/// expression malformed, whatever follows it.
pub proof fn lemma_operator_underflow(ts: Seq<Ident>, op: Op, rest: Seq<Ident>)
    requires
        eval_prefix(ts) is Ok,
        eval_prefix(ts)->Ok_0.len() < 2,
    ensures
        evaluate(ts + seq![Ident::Op(op)] + rest) == Err::<isize, EvalError>(
            EvalError::MalformedExpression,
        ),
{
    let all = ts + seq![Ident::Op(op)] + rest;
    let k = ts.len() as int + 1;
    assert(all.take(k).drop_last() =~= ts);
    assert(all.take(k).last() == Ident::Op(op));
    lemma_eval_error_sticks(all, k);
}

/// Evaluation depends on the tokens alone: equal token sequences have equal
/// values.
pub proof fn lemma_evaluate_deterministic(a: Seq<Ident>, b: Seq<Ident>)
    requires
        a == b,
    ensures
        evaluate(a) == evaluate(b),
{
}

/// Evaluates a postfix expression on an [`ArrayStack`].
pub fn compute(items: &[Ident]) -> (r: Result<isize, EvalError>)
    ensures
        r == evaluate(items@),
{
    let mut stack: ArrayStack<isize> = ArrayStack::new();
    let mut i: usize = 0;
    while i < items.len()
        invariant
            stack.inv(),
            stack.cap() == ARRAY_STACK_SIZE,
            i <= items.len(),
            eval_prefix(items@.take(i as int)) == Ok::<Seq<isize>, EvalError>(stack.items()),
        decreases items.len() - i,
    {
        assert(items@.take(i + 1).drop_last() =~= items@.take(i as int));
        match items[i] {
            Ident::Int(v) => {
                if stack.push(v).is_err() {
                    proof {
                        lemma_eval_error_sticks(items@, i + 1);
                    }
                    return Err(EvalError::Full);
                }
            },
            Ident::Op(op) => {
                let right = match stack.pop() {
                    Ok(x) => x,
                    Err(_) => {
                        proof {
                            lemma_eval_error_sticks(items@, i + 1);
                        }
                        return Err(EvalError::MalformedExpression);
                    },
                };
                let left = match stack.pop() {
                    Ok(x) => x,
                    Err(_) => {
                        proof {
                            lemma_eval_error_sticks(items@, i + 1);
                        }
                        return Err(EvalError::MalformedExpression);
                    },
                };
                let v = match op {
                    Op::Plus => left.checked_add(right),
                    Op::Minus => left.checked_sub(right),
                    Op::Mul => left.checked_mul(right),
                };
                match v {
                    Some(v) => {
                        let _ = stack.push(v);
                    },
                    None => {
                        proof {
                            lemma_eval_error_sticks(items@, i + 1);
                        }
                        return Err(EvalError::Overflow);
                    },
                }
            },
        }
        i = i + 1;
    }
    assert(items@.take(items@.len() as int) =~= items@);
    match stack.pop() {
        Ok(v) => if stack.is_empty() {
            Ok(v)
        } else {
            Err(EvalError::MalformedExpression)
        },
        Err(_) => Err(EvalError::MalformedExpression),
    }
}

/// The tokens that the words `ws` stand for, or `None` when one of them is
/// no token.
pub open spec fn tokens_of(ws: Seq<Seq<char>>) -> Option<Seq<Ident>> {
    if forall|i: int| 0 <= i < ws.len() ==> (#[trigger] ident_of(ws[i])) is Some {
        Some(ws.map_values(|w: Seq<char>| ident_of(w)->Some_0))
    } else {
        None
    }
}

/// The value of the postfix expression written in `s`, its tokens separated
/// by whitespace.
pub open spec fn evaluate_text(s: Seq<char>) -> Result<isize, EvalError> {
    match tokens_of(words(s)) {
        Some(ts) => evaluate(ts),
        None => Err(EvalError::InvalidToken),
    }
}

/// Evaluates the postfix expression written in `input` and returns its value
/// in decimal.
pub fn input_stack(input: &str) -> (r: Result<String, EvalError>)
    ensures
        evaluate_text(input@) is Ok ==> r is Ok && r->Ok_0@ == int_decimal(
            evaluate_text(input@)->Ok_0 as int,
        ),
        evaluate_text(input@) is Err ==> r == Err::<String, EvalError>(
            evaluate_text(input@)->Err_0,
        ),
{
    let ws = split_words(input);
    let ghost wv = string_views(ws@);
    let mut items: Vec<Ident> = Vec::new();
    let mut i: usize = 0;
    while i < ws.len()
        invariant
            wv == words(input@),
            wv.len() == ws@.len(),
            forall|k: int| 0 <= k < ws@.len() ==> wv[k] == (#[trigger] ws@[k])@,
            i <= ws.len(),
            items@.len() == i,
            forall|k: int| 0 <= k < i ==> ident_of(wv[k]) == Some(#[trigger] items@[k]),
        decreases ws.len() - i,
    {
        match Ident::from(ws[i].as_str()) {
            Some(t) => items.push(t),
            None => {
                assert(tokens_of(wv) is None);
                return Err(EvalError::InvalidToken);
            },
        }
        i = i + 1;
    }
    assert(tokens_of(wv) == Some(items@)) by {
        assert forall|k: int| 0 <= k < wv.len() implies (#[trigger] ident_of(wv[k])) is Some by {
            assert(ident_of(wv[k]) == Some(items@[k]));
        }
        assert(wv.map_values(|w: Seq<char>| ident_of(w)->Some_0) =~= items@);
    }
    match compute(items.as_slice()) {
        Ok(v) => Ok(isize_to_string(v)),
        Err(e) => Err(e),
    }
}

} // verus!

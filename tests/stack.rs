use alds::stack::{
    compute, input_stack, ArrayStack, EvalError, Ident, Op, PopError, PushError, Stack,
    VecStack, ARRAY_STACK_SIZE,
};

#[test]
fn test_array_stack() {
    let mut s = ArrayStack::new();
    assert!(s.is_empty());
    assert!(s.push(1).is_ok());
    assert!(s.push(2).is_ok());
    assert!(s.push(3).is_ok());

    assert_eq!(s.pop(), Ok(3));
    assert_eq!(s.pop(), Ok(2));
    assert_eq!(s.pop(), Ok(1));
    assert!(s.is_empty());
    assert!(!s.is_full());

    for x in 0..ARRAY_STACK_SIZE {
        assert!(s.push(x).is_ok());
    }
    assert!(s.is_full());
    assert_eq!(s.push(0), Err(PushError::IsFull));
    for x in (0..ARRAY_STACK_SIZE).rev() {
        assert_eq!(s.pop(), Ok(x));
    }

    assert_eq!(s.pop(), Err(PopError::IsEmpty));
}

#[test]
fn test_vec_stack() {
    let mut s = VecStack::new(3);
    assert!(s.is_empty());
    assert!(!s.is_full());
    assert!(s.push(1).is_ok());
    assert!(s.push(2).is_ok());
    assert!(s.push(3).is_ok());
    assert!(s.is_full());
    assert_eq!(s.push(0), Err(PushError::IsFull));

    assert_eq!(s.pop(), Ok(3));
    assert_eq!(s.pop(), Ok(2));
    assert_eq!(s.pop(), Ok(1));
    assert!(s.is_empty());
    assert_eq!(s.pop(), Err(PopError::IsEmpty));
}

#[test]
fn stack_test1() {
    let input = "1 2 + 3 4 - *".to_string();

    let result = input_stack(&input);

    assert!(result.is_ok());
    assert_eq!(result.unwrap(), "-3".to_string());
}

#[test]
fn pops_return_pushes_in_reverse() {
    let mut s = VecStack::new(5);
    let values = [7, -2, 9, 0, 4];
    for v in values {
        assert!(s.push(v).is_ok());
    }
    let mut out = Vec::new();
    for _ in 0..values.len() {
        out.push(s.pop().unwrap());
    }
    assert_eq!(out, vec![4, 0, 9, -2, 7]);
}

#[test]
fn full_stack_refuses_and_keeps_contents() {
    let mut s = VecStack::new(2);
    assert!(s.push(1).is_ok());
    assert!(s.push(2).is_ok());
    assert_eq!(s.push(3), Err(PushError::IsFull));
    assert_eq!(s.push(4), Err(PushError::IsFull));
    assert!(s.is_full());
    assert_eq!(s.capacity(), 2);
    assert_eq!(s.pop(), Ok(2));
    assert_eq!(s.pop(), Ok(1));
}

#[test]
fn empty_stack_pop_fails_and_stays_usable() {
    let mut s: ArrayStack<u8> = ArrayStack::new();
    assert_eq!(s.pop(), Err(PopError::IsEmpty));
    assert_eq!(s.pop(), Err(PopError::IsEmpty));
    assert!(s.is_empty());
    assert_eq!(s.capacity(), ARRAY_STACK_SIZE);
    assert!(s.push(5).is_ok());
    assert_eq!(s.pop(), Ok(5));
}

#[test]
fn zero_capacity_vec_stack_is_full() {
    let mut s: VecStack<i32> = VecStack::new(0);
    assert!(s.is_empty());
    assert!(s.is_full());
    assert_eq!(s.push(1), Err(PushError::IsFull));
}

#[test]
fn evaluates_token_sequence() {
    let tokens = ["1", "2", "+", "3", "4", "-", "*"];
    let items: Vec<Ident> = tokens.iter().map(|t| Ident::from(t).unwrap()).collect();
    assert_eq!(compute(&items), Ok(-3));
}

#[test]
fn evaluation_is_repeatable() {
    let items = vec![Ident::Int(6), Ident::Int(7), Ident::Op(Op::Mul)];
    let first = compute(&items);
    let second = compute(&items);
    assert_eq!(first, Ok(42));
    assert_eq!(first, second);
    assert_eq!(input_stack("6 7 *"), input_stack("6 7 *"));
}

#[test]
fn single_literal_evaluates_to_itself() {
    assert_eq!(compute(&[Ident::Int(-17)]), Ok(-17));
    assert_eq!(input_stack("42"), Ok("42".to_string()));
}

#[test]
fn operator_without_two_operands_is_malformed() {
    assert_eq!(compute(&[Ident::Op(Op::Plus)]), Err(EvalError::MalformedExpression));
    assert_eq!(
        compute(&[Ident::Int(1), Ident::Op(Op::Minus), Ident::Int(2)]),
        Err(EvalError::MalformedExpression)
    );
}

#[test]
fn leftover_values_are_malformed() {
    assert_eq!(compute(&[Ident::Int(1), Ident::Int(2)]), Err(EvalError::MalformedExpression));
    assert_eq!(compute(&[]), Err(EvalError::MalformedExpression));
}

#[test]
fn subtraction_takes_operands_in_push_order() {
    assert_eq!(compute(&[Ident::Int(10), Ident::Int(3), Ident::Op(Op::Minus)]), Ok(7));
}

#[test]
fn too_many_operands_fill_the_stack() {
    let items = vec![Ident::Int(1); ARRAY_STACK_SIZE + 1];
    assert_eq!(compute(&items), Err(EvalError::Full));
    let exactly = vec![Ident::Int(1); ARRAY_STACK_SIZE];
    assert_eq!(compute(&exactly), Err(EvalError::MalformedExpression));
}

#[test]
fn overflow_is_reported() {
    let items = [Ident::Int(isize::MAX), Ident::Int(1), Ident::Op(Op::Plus)];
    assert_eq!(compute(&items), Err(EvalError::Overflow));
    let items = [Ident::Int(isize::MIN), Ident::Int(-1), Ident::Op(Op::Mul)];
    assert_eq!(compute(&items), Err(EvalError::Overflow));
}

#[test]
fn tokens_are_read() {
    assert_eq!(Ident::from("+"), Some(Ident::Op(Op::Plus)));
    assert_eq!(Ident::from("-"), Some(Ident::Op(Op::Minus)));
    assert_eq!(Ident::from("*"), Some(Ident::Op(Op::Mul)));
    assert_eq!(Ident::from("-12"), Some(Ident::Int(-12)));
    assert_eq!(Ident::from("+8"), Some(Ident::Int(8)));
    assert_eq!(Ident::from("x"), None);
    assert_eq!(Ident::from(""), None);
    assert_eq!(Ident::from("99999999999999999999999"), None);
    assert_eq!(Op::from(&'/'), None);
    assert_eq!(Op::from(&'*'), Some(Op::Mul));
}

#[test]
fn text_input_errors() {
    assert_eq!(input_stack("1 2 /"), Err(EvalError::InvalidToken));
    assert_eq!(input_stack("1 +"), Err(EvalError::MalformedExpression));
    assert_eq!(input_stack(""), Err(EvalError::MalformedExpression));
}

#[test]
fn text_input_handles_whitespace_and_negatives() {
    assert_eq!(input_stack("  3\t-4 \n*  "), Ok("-12".to_string()));
    assert_eq!(input_stack("100 250 +"), Ok("350".to_string()));
}

#[test]
fn error_descriptions() {
    assert_eq!(PushError::IsFull.to_string(), "container is full");
    assert_eq!(PopError::IsEmpty.to_string(), "container is empty");
}

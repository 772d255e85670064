use lumina_compiler::token::{
    is_valid_identifier, Flag, Header, Inlined, Key, Operator, RawToken, Token, Type,
};

#[test]
fn identifiers_are_lower_case_letters_and_underscores() {
    assert!(is_valid_identifier("abc"));
    assert!(is_valid_identifier("snake_case"));
    assert!(is_valid_identifier("_"));
    assert!(is_valid_identifier("az"));
    assert!(is_valid_identifier(""));
    assert!(!is_valid_identifier("Abc"));
    assert!(!is_valid_identifier("a1"));
    assert!(!is_valid_identifier("a b"));
    assert!(!is_valid_identifier("a-b"));
    assert!(!is_valid_identifier("`"));
    assert!(!is_valid_identifier("{"));
    assert!(!is_valid_identifier("\u{e9}"));
}

#[test]
fn tokens_carry_their_place_in_the_source() {
    let token = Token::new(RawToken::Key(Key(2)), 14);
    assert_eq!(token.source_index, 14);
    assert_eq!(token.flags, Flag::default());
    assert!(matches!(token.inner, RawToken::Key(Key(2))));

    let moved = token.with_source_index(3);
    assert_eq!(moved.source_index, 3);
    assert!(matches!(moved.inner, RawToken::Key(Key(2))));

    let free = Token::untracked(RawToken::Identifier("x".to_string()));
    assert_eq!(free.source_index, 0);
    assert!(matches!(&free.inner, RawToken::Identifier(name) if name == "x"));
}

#[test]
fn a_group_holds_its_tokens_in_order() {
    let inner = vec![
        Token::new(RawToken::Header(Header(0)), 0),
        Token::new(RawToken::Inlined(Inlined::Int(4)), 3),
        Token::new(RawToken::NewLine, 4),
    ];
    let group = Token::group(inner, 9);
    assert_eq!(group.source_index, 9);
    assert_eq!(group.flags, Flag(0));
    match group.inner {
        RawToken::Group(tokens) => {
            assert_eq!(tokens.len(), 3);
            assert_eq!(tokens[1].source_index, 3);
            assert!(matches!(tokens[1].inner, RawToken::Inlined(Inlined::Int(4))));
            assert!(matches!(tokens[2].inner, RawToken::NewLine));
        }
        other => panic!("no group: {other:?}"),
    }
}

#[test]
fn tokens_are_equal_wherever_they_stand() {
    let plus = || RawToken::Operator(Operator(1));
    let a = Token::new(RawToken::Identifier("x".to_string()), 4);
    let b = Token::new(RawToken::Identifier("x".to_string()), 90);
    let c = Token::new(RawToken::Identifier("y".to_string()), 4);
    assert!(a == b);
    assert!(a != c);
    assert!(Token::new(plus(), 0) != a);
    assert!(Token::untracked(RawToken::NewLine) == Token::new(RawToken::NewLine, 7));
    assert!(RawToken::Key(Key(1)) != RawToken::Header(Header(1)));
    assert!(RawToken::Inlined(Inlined::Int(3)) == RawToken::Inlined(Inlined::Int(3)));
    assert!(RawToken::Inlined(Inlined::Int(3)) != RawToken::Inlined(Inlined::Bool(true)));
    assert!(RawToken::Parameter(1, Type(2)) != RawToken::Parameter(1, Type(3)));

    // the places of the parts do not count either
    let group = |at: usize, name: &str| {
        Token::group(vec![Token::new(RawToken::Identifier(name.to_string()), at)], at + 1)
    };
    assert!(group(0, "x") == group(5, "x"));
    assert!(group(0, "x") != group(0, "z"));
    assert!(group(0, "x") != Token::group(vec![], 0));
    let sum = |left: Token, right: Token| {
        RawToken::Operation(Box::new((left, right)), Operator(1))
    };
    assert!(sum(group(0, "x"), group(1, "y")) == sum(group(8, "x"), group(9, "y")));
    assert!(sum(group(0, "x"), group(1, "y")) != sum(group(0, "y"), group(1, "x")));
    let call = |name: &str, args: Vec<Token>| RawToken::Parameterized(name.to_string(), args);
    assert!(call("f", vec![group(0, "x")]) == call("f", vec![group(3, "x")]));
    assert!(call("f", vec![group(0, "x")]) != call("g", vec![group(0, "x")]));
    assert!(call("f", vec![group(0, "x")]) != call("f", vec![group(0, "x"), group(0, "x")]));
}

#[test]
fn a_copy_of_a_token_keeps_every_place() {
    let inner = Token::new(RawToken::Identifier("x".to_string()), 12);
    let token = Token::group(vec![inner, Token::new(RawToken::NewLine, 13)], 11);
    let copy = token.clone();
    assert_eq!(copy.source_index, 11);
    assert_eq!(copy.flags, Flag::default());
    match &copy.inner {
        RawToken::Group(parts) => {
            assert_eq!(parts.len(), 2);
            assert_eq!(parts[0].source_index, 12);
            assert_eq!(parts[1].source_index, 13);
            assert!(matches!(&parts[0].inner, RawToken::Identifier(name) if name == "x"));
        },
        other => panic!("no group: {other:?}"),
    }
    assert!(copy == token);
    let pair = RawToken::Operation(
        Box::new((token.duplicate(), Token::new(RawToken::Key(Key(4)), 20))),
        Operator(2),
    );
    match pair.clone() {
        RawToken::Operation(sides, Operator(2)) => {
            assert_eq!(sides.0.source_index, 11);
            assert_eq!(sides.1.source_index, 20);
            assert!(sides.0 == token);
        },
        other => panic!("no operation: {other:?}"),
    }
}

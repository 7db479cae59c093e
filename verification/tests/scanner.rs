use simple_laxer::laxer::DfaState;
use simple_laxer::laxer::Laxer;
use simple_laxer::laxer::ScanError;
use simple_laxer::laxer::Token;
use simple_laxer::laxer::TokenType;

/// Drives a fresh scanner over `source` and collects every token, panicking
/// if the scan hits the fatal condition.
fn scan(source: &str) -> Vec<Token> {
    let mut laxer = Laxer::new(source, false);
    let mut tokens = Vec::new();
    loop {
        match laxer.next() {
            Ok(Some(token)) => tokens.push(token),
            Ok(None) => return tokens,
            Err(e) => panic!("fatal: {}", e.content),
        }
    }
}

/// Drives a fresh scanner over `source` expecting the fatal condition,
/// returning the tokens produced before it and the error.
fn scan_expect_fatal(source: &str) -> (Vec<Token>, ScanError) {
    let mut laxer = Laxer::new(source, false);
    let mut tokens = Vec::new();
    loop {
        match laxer.next() {
            Ok(Some(token)) => tokens.push(token),
            Ok(None) => panic!("scan ended without the fatal condition"),
            Err(e) => return (tokens, e),
        }
    }
}

fn assert_tokens(source: &str, expected: &[(TokenType, &str)]) {
    let tokens = scan(source);
    assert_eq!(tokens.len(), expected.len(), "token count for {:?}", source);
    for (token, (kind, content)) in tokens.iter().zip(expected.iter()) {
        assert_eq!(token.token_type, *kind, "kind for {:?}", source);
        assert_eq!(token.content, *content, "content for {:?}", source);
    }
}

#[test]
fn test_demo() {
    let source = "int Xana = 10\n";
    let mut l = Laxer::new(source, false);
    while let Ok(Some(token)) = l.next() {
        println!("{:?}", token)
    }
}

#[test]
fn separators_only_yield_nothing() {
    assert_tokens("", &[]);
    assert_tokens(" ", &[]);
    assert_tokens(" \t\n \t \n\n", &[]);
}

#[test]
fn single_identifier() {
    assert_tokens("abc", &[(TokenType::Identifier, "abc")]);
    assert_tokens("_x$1", &[(TokenType::Identifier, "_x$1")]);
    assert_tokens("Xana", &[(TokenType::Identifier, "Xana")]);
}

#[test]
fn single_int_literal() {
    assert_tokens("10", &[(TokenType::IntLiteral, "10")]);
    assert_tokens("0", &[(TokenType::IntLiteral, "0")]);
    assert_tokens("0042", &[(TokenType::IntLiteral, "0042")]);
}

#[test]
fn single_operators() {
    assert_tokens("=", &[(TokenType::Equal, "=")]);
    assert_tokens("+", &[(TokenType::Plus, "+")]);
    assert_tokens("-", &[(TokenType::Minus, "-")]);
    assert_tokens("*", &[(TokenType::Star, "*")]);
    assert_tokens("/", &[(TokenType::Slash, "/")]);
}

#[test]
fn great_then_and_great_equal() {
    assert_tokens(">", &[(TokenType::GreatThen, ">")]);
    assert_tokens(">=", &[(TokenType::GreatEqual, ">=")]);
    assert_tokens("> =", &[(TokenType::GreatThen, ">"), (TokenType::Equal, "=")]);
}

#[test]
fn reserved_word_disambiguation() {
    assert_tokens("int", &[(TokenType::Int, "int")]);
    assert_tokens("integer", &[(TokenType::Identifier, "integer")]);
    assert_tokens("int5", &[(TokenType::Identifier, "int5")]);
    assert_tokens("index", &[(TokenType::Identifier, "index")]);
    assert_tokens("i", &[(TokenType::Identifier, "i")]);
    assert_tokens("in", &[(TokenType::Identifier, "in")]);
    assert_tokens("i + in", &[
        (TokenType::Identifier, "i"),
        (TokenType::Plus, "+"),
        (TokenType::Identifier, "in"),
    ]);
}

#[test]
fn separated_tokens_scan_as_alone() {
    assert_tokens("abc 10", &[(TokenType::Identifier, "abc"), (TokenType::IntLiteral, "10")]);
    assert_tokens("10\nabc", &[(TokenType::IntLiteral, "10"), (TokenType::Identifier, "abc")]);
    assert_tokens("int\tmain", &[(TokenType::Int, "int"), (TokenType::Identifier, "main")]);
    assert_tokens("10\tabc", &[(TokenType::IntLiteral, "10"), (TokenType::Identifier, "abc")]);
}

#[test]
fn maximal_munch_without_separator() {
    assert_tokens("10*3", &[
        (TokenType::IntLiteral, "10"),
        (TokenType::Star, "*"),
        (TokenType::IntLiteral, "3"),
    ]);
    assert_tokens("a>=b", &[
        (TokenType::Identifier, "a"),
        (TokenType::GreatEqual, ">="),
        (TokenType::Identifier, "b"),
    ]);
    assert_tokens("x=1", &[
        (TokenType::Identifier, "x"),
        (TokenType::Equal, "="),
        (TokenType::IntLiteral, "1"),
    ]);
}

#[test]
fn operators_stay_separately_bounded() {
    assert_tokens("+-", &[(TokenType::Plus, "+"), (TokenType::Minus, "-")]);
    assert_tokens(">>", &[(TokenType::GreatThen, ">"), (TokenType::GreatThen, ">")]);
    assert_tokens("=>", &[(TokenType::Equal, "="), (TokenType::GreatThen, ">")]);
    assert_tokens("*/", &[(TokenType::Star, "*"), (TokenType::Slash, "/")]);
}

#[test]
fn end_to_end_scenario() {
    assert_tokens("int Xana = 10 + 5\n * 3 - main", &[
        (TokenType::Int, "int"),
        (TokenType::Identifier, "Xana"),
        (TokenType::Equal, "="),
        (TokenType::IntLiteral, "10"),
        (TokenType::Plus, "+"),
        (TokenType::IntLiteral, "5"),
        (TokenType::Star, "*"),
        (TokenType::IntLiteral, "3"),
        (TokenType::Minus, "-"),
        (TokenType::Identifier, "main"),
    ]);
}

#[test]
fn malformed_int_literal_is_fatal() {
    let (tokens, err) = scan_expect_fatal("10a");
    assert_eq!(tokens.len(), 0);
    assert_eq!(err.content, "10a");
}

#[test]
fn fatal_after_valid_tokens() {
    let (tokens, err) = scan_expect_fatal("x = 7b");
    assert_eq!(tokens.len(), 2);
    assert_eq!(tokens[0].token_type, TokenType::Identifier);
    assert_eq!(tokens[0].content, "x");
    assert_eq!(tokens[1].token_type, TokenType::Equal);
    assert_eq!(err.content, "7b");
}

#[test]
fn tab_terminates_digit_run() {
    assert_tokens("10\ta", &[(TokenType::IntLiteral, "10"), (TokenType::Identifier, "a")]);
}

#[test]
fn fatal_exhausts_the_scan() {
    let mut laxer = Laxer::new("10a 5 + 7", false);
    match laxer.next() {
        Err(e) => assert_eq!(e.content, "10a"),
        other => panic!("expected the fatal condition, got {:?}", other),
    }
    assert!(matches!(laxer.next(), Ok(None)));
    assert!(matches!(laxer.next(), Ok(None)));
}

#[test]
fn trailing_token_without_separator() {
    let mut laxer = Laxer::new("abc", false);
    let token = laxer.next().unwrap().expect("one token");
    assert_eq!(token.token_type, TokenType::Identifier);
    assert_eq!(token.content, "abc");
    assert!(matches!(laxer.next(), Ok(None)));
    assert!(matches!(laxer.next(), Ok(None)));
}

#[test]
fn unknown_characters_are_discarded() {
    assert_tokens("a # b", &[(TokenType::Identifier, "a"), (TokenType::Identifier, "b")]);
    assert_tokens("?!", &[]);
}

#[test]
fn verbose_tracing_does_not_affect_results() {
    let source = "int Xana = 10 + 5\n * 3 - main";
    let quiet = scan(source);
    let mut traced = Laxer::new(source, true);
    let mut i = 0;
    while let Ok(Some(token)) = traced.next() {
        assert_eq!(token.token_type, quiet[i].token_type);
        assert_eq!(token.content, quiet[i].content);
        i += 1;
    }
    assert_eq!(i, quiet.len());
}

#[test]
fn token_from_maps_states() {
    let t = Token::from(DfaState::Identifier, String::from("abc"));
    assert_eq!(t.token_type, TokenType::Identifier);
    assert_eq!(t.content, "abc");
    let t = Token::from(DfaState::Int, String::from("int"));
    assert_eq!(t.token_type, TokenType::Int);
    let t = Token::from(DfaState::IdInt1, String::from("i"));
    assert_eq!(t.token_type, TokenType::Invalid);
    let t = Token::from(DfaState::Terminal, String::new());
    assert_eq!(t.token_type, TokenType::Invalid);
}

use sbl::errors::LexError;
use sbl::tokenizer::{tokenizer, Token};

#[test]
fn it_escape_chars_in_strings() {
    let program = "\"Hello world!\\n\"\"Hello world!\\n\" ";

    let result = tokenizer(program.to_string()).unwrap();

    let goal = "Hello world!\n".to_string();

    if let Token::StringLiteral(x) = &result[0] {
        assert_eq!(x.clone(), goal);
    } else {
        panic!("Failed to escape")
    }

    if let Token::StringLiteral(x) = &result[1] {
        assert_eq!(x.clone(), goal);
    } else {
        panic!("Failed to escape")
    }
}

#[test]
fn it_escape_chars_in_chars() {
    let program = "'\\n''\\n'";

    let result = tokenizer(program.to_string()).unwrap();

    let goal = '\n';

    if let Token::CharLiteral(x) = &result[0] {
        assert_eq!(*x, goal);
    } else {
        panic!("Failed to escape")
    }

    if let Token::CharLiteral(x) = &result[1] {
        assert_eq!(*x, goal);
    } else {
        panic!("Failed to escape")
    }
}

#[test]
fn exp_0() {
    let program = "@main { \"Hello world!\\n\" . }";

    println!("{:?}", tokenizer(program.to_string()));
}

#[test]
fn exp_1() {
    let program = "@main { \"Hello world!\" . }";

    println!("{:?}", tokenizer(program.to_string()));
}

#[test]
fn exp_2() {
    let program = "@main {   \"Hello world!\"  .   }";

    println!("{:?}", tokenizer(program.to_string()));
}

#[test]
fn exp_3() {
    let program = "?fib[-a@(1 | 2) +a] @fib { drop 1 }

    ?fib [-a +a] @fib { dup 1 - fib swap 2 - fib + }

    @main { 10 fib . }";

    println!("{:?}", tokenizer(program.to_string()));
}

#[test]
fn hello_world_token_shapes() {
    let result = tokenizer("@main { \"Hello world!\\n\" . }".to_string()).unwrap();
    assert_eq!(
        result,
        vec![
            Token::AtSign,
            Token::Ident("main".to_string()),
            Token::Curly(true),
            Token::StringLiteral("Hello world!\n".to_string()),
            Token::Ident(".".to_string()),
            Token::Curly(false),
        ]
    );
}

#[test]
fn sigil_inside_identifier_is_not_a_token() {
    let result = tokenizer("a$b".to_string()).unwrap();
    assert_eq!(result, vec![Token::Ident("a$b".to_string())]);

    let result = tokenizer("x:y#z".to_string()).unwrap();
    assert_eq!(result, vec![Token::Ident("x:y#z".to_string())]);
}

#[test]
fn leading_sigils_are_their_own_tokens() {
    let result = tokenizer("$:name".to_string()).unwrap();
    assert_eq!(
        result,
        vec![Token::Dollar, Token::Colon, Token::Ident("name".to_string())]
    );
}

#[test]
fn comment_is_retained_without_marker() {
    let result = tokenizer("; note\nx".to_string()).unwrap();
    assert_eq!(
        result,
        vec![Token::Comment(" note".to_string()), Token::Ident("x".to_string())]
    );
}

#[test]
fn numeric_token_is_greedy() {
    let result = tokenizer("-3i4E2.fu)".to_string()).unwrap();
    assert_eq!(
        result,
        vec![
            Token::NumericLiteral("-3i4E2.fu".to_string()),
            Token::Ident(")".to_string()),
        ]
    );
}

#[test]
fn escaped_newline_in_string() {
    let result = tokenizer("\"a\\\nb\"".to_string()).unwrap();
    assert_eq!(result, vec![Token::StringLiteral("a\nb".to_string())]);
}

#[test]
fn carriage_return_escape() {
    let result = tokenizer("\"a\\rb\"".to_string()).unwrap();
    assert_eq!(result, vec![Token::StringLiteral("a\rb".to_string())]);
}

#[test]
fn bad_escape_is_fatal() {
    let result = tokenizer("\"a\\xb\"".to_string());
    assert_eq!(result, Err(LexError::BadEscape { at: 3 }));
}

#[test]
fn unterminated_string_is_fatal() {
    let result = tokenizer("x \"abc".to_string());
    assert_eq!(result, Err(LexError::UnterminatedString { at: 2 }));
}

#[test]
fn unterminated_char_is_fatal() {
    let result = tokenizer("'".to_string());
    assert_eq!(result, Err(LexError::UnterminatedChar { at: 0 }));
}

#[test]
fn char_literal_with_two_chars_is_fatal() {
    let result = tokenizer("'ab'".to_string());
    assert_eq!(result, Err(LexError::CharNotSingle { at: 2 }));
}

#[test]
fn empty_char_literal_is_fatal() {
    let result = tokenizer("''".to_string());
    assert_eq!(result, Err(LexError::CharNotSingle { at: 1 }));
}

#[test]
fn plain_char_literal() {
    let result = tokenizer("'a'".to_string()).unwrap();
    assert_eq!(result, vec![Token::CharLiteral('a')]);
}

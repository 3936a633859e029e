use lisp_reader::error::ReaderError;
use lisp_reader::lexer::{tokenize, Lexer};
use lisp_reader::parser::{token_to_string, Parser};
use lisp_reader::printer::format_value;
use lisp_reader::token::TokenType;
use lisp_reader::types::{MapEntry, Value};
use lisp_reader::{eval, read, read_eval_print};

#[test]
fn test_number() {
    let input = "123";
    let mut reader = Lexer::new(&input);
    let token = reader.next().unwrap();
    assert_eq!(token.token_type, TokenType::Number);
    assert_eq!(
        token_to_string(&token, input).parse::<f64>().unwrap(),
        123.0
    );
}

#[test]
fn test_string() {
    let input = "\"hello\"";
    let mut reader = Lexer::new(&input);
    let token = reader.next().unwrap();
    assert_eq!(token.token_type, TokenType::String);
    assert_eq!(token_to_string(&token, input).as_str(), "hello");
}

#[test]
fn test_symbol() {
    let mut reader = Lexer::new("hello");
    let token = reader.next().unwrap();
    assert_eq!(token.token_type, TokenType::Identifier);
    assert_eq!(token_to_string(&token, "hello").as_str(), "hello");
}

#[test]
fn test_all_single_character_tokens() {
    let mut reader = Lexer::new("(){}[]*-+=.,");
    let token = reader.next().unwrap();
    assert_eq!(token.token_type, TokenType::LeftParen);
    let token = reader.next().unwrap();
    assert_eq!(token.token_type, TokenType::RightParen);
    let token = reader.next().unwrap();
    assert_eq!(token.token_type, TokenType::LeftBrace);
    let token = reader.next().unwrap();
    assert_eq!(token.token_type, TokenType::RightBrace);
    let token = reader.next().unwrap();
    assert_eq!(token.token_type, TokenType::LeftBracket);
    let token = reader.next().unwrap();
    assert_eq!(token.token_type, TokenType::RightBracket);
    let token = reader.next().unwrap();
    assert_eq!(token.token_type, TokenType::Star);
    let token = reader.next().unwrap();
    assert_eq!(token.token_type, TokenType::Minus);
    let token = reader.next().unwrap();
    assert_eq!(token.token_type, TokenType::Plus);
    let token = reader.next().unwrap();
    assert_eq!(token.token_type, TokenType::Equal);
    let token = reader.next().unwrap();
    assert_eq!(token.token_type, TokenType::Dot);
    let token = reader.next().unwrap();
    assert_eq!(token.token_type, TokenType::Comma);
    let token = reader.next().unwrap();
    assert_eq!(token.token_type, TokenType::EOF);
}

#[test]
fn test_comments() {
    let input = "; hello \t\n\r   sym";
    let mut reader = Lexer::new(&input);
    let token = reader.next().unwrap();
    assert_eq!(token.token_type, TokenType::Identifier);
    assert_eq!(token_to_string(&token, input), "sym");
}

#[test]
fn test_tokenize() {
    // The token stream always ends with the EOF token.
    let input = "(+ 1 2)";
    let tokens = tokenize(input).unwrap();
    assert_eq!(tokens.len(), 6);
    assert_eq!(tokens[0].token_type, TokenType::LeftParen);
    assert_eq!(tokens[1].token_type, TokenType::Plus);
    assert_eq!(tokens[2].token_type, TokenType::Number);
    assert_eq!(tokens[3].token_type, TokenType::Number);
    assert_eq!(tokens[4].token_type, TokenType::RightParen);
    assert_eq!(tokens[5].token_type, TokenType::EOF);

    let input = "\"hello\"";
    let tokens = tokenize(input).unwrap();
    assert_eq!(tokens.len(), 2);
    assert_eq!(tokens[0].token_type, TokenType::String);
    assert_eq!(tokens[1].token_type, TokenType::EOF);

    // `/`, `>` and `<` are reserved punctuation the scanner does not
    // recognize, so this input fails at the first `/`.
    let input = "(- 1 2) (* 1 2) (/ 1 2) (= 1 2) (> 1 2) (< 1 2) (>= 1 2) (<= 1 2)";
    let result = tokenize(input);
    assert!(matches!(result, Err(ReaderError::UnknownCharacter(_))));

    let tokens = tokenize("(- 1 2) (* 1 2) (= 1 2)").unwrap();
    assert_eq!(tokens.len(), 16);
    assert_eq!(tokens[0].token_type, TokenType::LeftParen);
    assert_eq!(tokens[1].token_type, TokenType::Minus);
    assert_eq!(tokens[2].token_type, TokenType::Number);
    assert_eq!(tokens[3].token_type, TokenType::Number);
    assert_eq!(tokens[4].token_type, TokenType::RightParen);
    assert_eq!(tokens[5].token_type, TokenType::LeftParen);
    assert_eq!(tokens[6].token_type, TokenType::Star);
    assert_eq!(tokens[7].token_type, TokenType::Number);
    assert_eq!(tokens[8].token_type, TokenType::Number);
    assert_eq!(tokens[9].token_type, TokenType::RightParen);
    assert_eq!(tokens[10].token_type, TokenType::LeftParen);
    assert_eq!(tokens[11].token_type, TokenType::Equal);
    assert_eq!(tokens[12].token_type, TokenType::Number);
    assert_eq!(tokens[13].token_type, TokenType::Number);
    assert_eq!(tokens[14].token_type, TokenType::RightParen);
    assert_eq!(tokens[15].token_type, TokenType::EOF);
}

#[test]
fn test_parser() {
    println!("{:?}", TokenType::Quasiquote);
    let input = "(  +   1   2   ) ; should be ignored";
    let tokens = tokenize(&input).unwrap();
    let mut parser = Parser::new(tokens, input);
    let ast = parser.parse().unwrap();
    println!("{}", format_value(&ast));

    let right = Value::List(vec![
        Value::Keyword(TokenType::Plus),
        Value::Number(1),
        Value::Number(2),
    ]);
    assert_eq!(ast, right);

    assert_eq!(format_value(&ast), "(+ 1 2)");
}

#[test]
fn tokenize_kind_sequence_with_eof() {
    let tokens = tokenize("(+ 1 2)").unwrap();
    let kinds: Vec<TokenType> = tokens.iter().map(|t| t.token_type).collect();
    assert_eq!(
        kinds,
        vec![
            TokenType::LeftParen,
            TokenType::Plus,
            TokenType::Number,
            TokenType::Number,
            TokenType::RightParen,
            TokenType::EOF,
        ]
    );
}

#[test]
fn tokenize_single_number() {
    let tokens = tokenize("123").unwrap();
    assert_eq!(tokens.len(), 2);
    assert_eq!(tokens[0].token_type, TokenType::Number);
    assert_eq!(tokens[1].token_type, TokenType::EOF);
    assert_eq!(token_to_string(&tokens[0], "123").parse::<f64>().unwrap(), 123.0);
}

#[test]
fn tokenize_string_decoded_text() {
    let tokens = tokenize("\"hello\"").unwrap();
    assert_eq!(tokens[0].token_type, TokenType::String);
    assert_eq!(token_to_string(&tokens[0], "\"hello\""), "hello");
}

#[test]
fn tokenize_comment_produces_no_token() {
    let input = "; comment\nsym";
    let tokens = tokenize(input).unwrap();
    assert_eq!(tokens.len(), 2);
    assert_eq!(tokens[0].token_type, TokenType::Identifier);
    assert_eq!(token_to_string(&tokens[0], input), "sym");
    assert_eq!(tokens[1].token_type, TokenType::EOF);
}

#[test]
fn tokenize_unterminated_string_fails() {
    let result = tokenize("\"abc");
    assert!(matches!(result, Err(ReaderError::UnterminatedString(_))));
}

#[test]
fn tokenize_escaped_quote_stays_inside_string() {
    let input = "\"a\\\"b\"";
    let tokens = tokenize(input).unwrap();
    assert_eq!(tokens.len(), 2);
    assert_eq!(tokens[0].token_type, TokenType::String);
    assert_eq!(token_to_string(&tokens[0], input), "a\\\"b");
}

#[test]
fn tokenize_keywords_and_identifiers() {
    let tokens = tokenize("let fn quote quasiquote unquote foo").unwrap();
    let kinds: Vec<TokenType> = tokens.iter().map(|t| t.token_type).collect();
    assert_eq!(
        kinds,
        vec![
            TokenType::Let,
            TokenType::Fn,
            TokenType::Quote,
            TokenType::Quasiquote,
            TokenType::Unquote,
            TokenType::Identifier,
            TokenType::EOF,
        ]
    );
}

#[test]
fn tokenize_compound_keyword_splits() {
    // A `-` ends an alphanumeric run, so the spliced keyword never matches
    // as one token.
    let tokens = tokenize("unquote-splicing").unwrap();
    let kinds: Vec<TokenType> = tokens.iter().map(|t| t.token_type).collect();
    assert_eq!(
        kinds,
        vec![TokenType::Unquote, TokenType::Minus, TokenType::Identifier, TokenType::EOF]
    );
}

#[test]
fn tokenize_alphanumeric_identifier_run() {
    let input = "abc123 9";
    let tokens = tokenize(input).unwrap();
    assert_eq!(tokens[0].token_type, TokenType::Identifier);
    assert_eq!(token_to_string(&tokens[0], input), "abc123");
    assert_eq!(tokens[1].token_type, TokenType::Number);
}

#[test]
fn tokenize_unicode_identifier() {
    let input = "caf\u{e9}";
    let tokens = tokenize(input).unwrap();
    assert_eq!(tokens.len(), 2);
    assert_eq!(tokens[0].token_type, TokenType::Identifier);
    assert_eq!(token_to_string(&tokens[0], input), "caf\u{e9}");
}

#[test]
fn tokenize_unknown_character_fails() {
    let result = tokenize("&");
    assert!(matches!(result, Err(ReaderError::UnknownCharacter(_))));
}

#[test]
fn tokenize_counts_lines_once_per_newline() {
    let tokens = tokenize("a\nb\n\nc").unwrap();
    assert_eq!(tokens[0].line, 1);
    assert_eq!(tokens[1].line, 2);
    assert_eq!(tokens[2].line, 4);
}

#[test]
fn tokenize_counts_lines_inside_comments() {
    let tokens = tokenize("; one\n; two\nx").unwrap();
    assert_eq!(tokens[0].line, 3);
}

#[test]
fn parse_list_structure() {
    let input = "(+ 1 2)";
    let tokens = tokenize(input).unwrap();
    let mut parser = Parser::new(tokens, input);
    let ast = parser.parse().unwrap();
    assert_eq!(
        ast,
        Value::List(vec![
            Value::Keyword(TokenType::Plus),
            Value::Number(1),
            Value::Number(2),
        ])
    );
    assert_eq!(format_value(&ast), "(+ 1 2)");
}

#[test]
fn parse_nested_lists() {
    let ast = read("(a (1 b) c)").unwrap();
    assert_eq!(
        ast,
        Value::List(vec![
            Value::Symbol("a".to_string()),
            Value::List(vec![Value::Number(1), Value::Symbol("b".to_string())]),
            Value::Symbol("c".to_string()),
        ])
    );
}

#[test]
fn parse_unterminated_list_is_lenient() {
    let ast = read("(1 2").unwrap();
    assert_eq!(ast, Value::List(vec![Value::Number(1), Value::Number(2)]));
}

#[test]
fn parse_empty_input_yields_error_value() {
    let ast = read("").unwrap();
    assert_eq!(ast, Value::Error("End of Tokens".to_string()));
}

#[test]
fn parse_number_overflow_is_invalid_number() {
    let result = read("99999999999999999999");
    assert!(matches!(result, Err(ReaderError::InvalidNumber(_))));
}

#[test]
fn parse_largest_number() {
    let ast = read("18446744073709551615").unwrap();
    assert_eq!(ast, Value::Number(u64::MAX));
    assert_eq!(format_value(&ast), "18446744073709551615");
}

#[test]
fn print_atoms() {
    assert_eq!(format_value(&Value::Number(0)), "0");
    assert_eq!(format_value(&Value::Number(42)), "42");
    assert_eq!(format_value(&Value::String("hi".to_string())), "hi");
    assert_eq!(format_value(&Value::Symbol("sym".to_string())), "sym");
    assert_eq!(format_value(&Value::Boolean(true)), "true");
    assert_eq!(format_value(&Value::Boolean(false)), "false");
    assert_eq!(format_value(&Value::Null), "null");
    assert_eq!(format_value(&Value::Error("boom".to_string())), "boom");
    assert_eq!(format_value(&Value::Keyword(TokenType::Plus)), "+");
    assert_eq!(format_value(&Value::Keyword(TokenType::Let)), "let");
}

#[test]
fn print_list_with_single_spaces() {
    let v = Value::List(vec![
        Value::Number(1),
        Value::List(vec![Value::Number(2), Value::Number(3)]),
        Value::Number(4),
    ]);
    assert_eq!(format_value(&v), "(1 (2 3) 4)");
    assert_eq!(format_value(&Value::List(vec![])), "()");
}

#[test]
fn print_vec_and_map_fixed_output() {
    // The reserved vector and mapping forms print with no separator; this
    // formatting is a fixed output contract, not a round-trip target.
    let v = Value::Vec(vec![Value::Number(1), Value::Number(2)]);
    assert_eq!(format_value(&v), "[12]");
    let m = Value::Mapping(vec![
        MapEntry { key: "a".to_string(), value: Value::Number(1) },
        MapEntry { key: "b".to_string(), value: Value::Number(2) },
    ]);
    assert_eq!(format_value(&m), "{a:1b:2}");
}

#[test]
fn print_parse_round_trip_on_printed_text() {
    let first = read("(  add   (1   2)  x )").unwrap();
    let printed = format_value(&first);
    assert_eq!(printed, "(add (1 2) x)");
    let second = read(&printed).unwrap();
    assert_eq!(first, second);
}

#[test]
fn eval_is_identity() {
    let v = Value::List(vec![Value::Number(7)]);
    let expected = Value::List(vec![Value::Number(7)]);
    assert_eq!(eval(v).unwrap(), expected);
}

#[test]
fn read_eval_print_cycle() {
    assert_eq!(read_eval_print("(+ 1 2)").unwrap(), "(+ 1 2)");
    assert_eq!(read_eval_print("  42 ").unwrap(), "42");
    assert!(matches!(
        read_eval_print("\"abc"),
        Err(ReaderError::UnterminatedString(_))
    ));
}

#[test]
fn tokenize_counts_lines_inside_strings() {
    let input = "\"a\nb\" x";
    let tokens = tokenize(input).unwrap();
    assert_eq!(tokens[0].token_type, TokenType::String);
    assert_eq!(tokens[0].line, 2);
    assert_eq!(tokens[1].token_type, TokenType::Identifier);
    assert_eq!(tokens[1].line, 2);
}

#[test]
fn tokenize_empty_input_is_only_eof() {
    let tokens = tokenize("").unwrap();
    assert_eq!(tokens.len(), 1);
    assert_eq!(tokens[0].token_type, TokenType::EOF);
}

#[test]
fn lexer_cursor_primitives() {
    let mut lexer = Lexer::new("ab");
    assert!(!lexer.is_at_end());
    assert_eq!(lexer.peek(), Some('a'));
    assert_eq!(lexer.peek_next(), Some('b'));
    assert_eq!(lexer.next_char(), Some('a'));
    assert_eq!(lexer.peek(), Some('b'));
    lexer.advance();
    assert_eq!(lexer.peek(), None);
    assert!(lexer.is_at_end());
}

#[test]
fn parser_cursor_primitives() {
    let input = "1 2";
    let tokens = tokenize(input).unwrap();
    let mut parser = Parser::new(tokens.clone(), input);
    assert_eq!(parser.peek(), Some(tokens[0]));
    parser.advance();
    assert_eq!(parser.peek(), Some(tokens[1]));
}

use psnotation::chars::{is_alpha, is_alphanumeric, is_digit};
use psnotation::convert::{ps_to_value, value_to_ps, PsError};
use psnotation::lexer::{scan, LexError, Scanner, TokenType};
use psnotation::parser::{ParseError, Parser};
use psnotation::value::{object_insert, Value};
use psnotation::writer::{padding, WriteError, Writer};

fn kinds(text: &str) -> Vec<TokenType> {
    scan(text.to_string()).unwrap().into_iter().map(|t| t._type).collect()
}

fn read(text: &str) -> Value {
    ps_to_value(text.to_string()).unwrap()
}

fn s(text: &str) -> Value {
    Value::String(text.to_string())
}

fn num(text: &str) -> Value {
    Value::Number(text.to_string())
}

fn obj(pairs: Vec<(&str, Value)>) -> Value {
    Value::Object(pairs.into_iter().map(|(k, v)| (k.to_string(), v)).collect())
}

#[test]
fn char_classes() {
    assert!(is_alpha('a'));
    assert!(is_alpha('Z'));
    assert!(is_alpha('_'));
    assert!(is_alpha('$'));
    assert!(is_alpha('é'));
    assert!(!is_alpha('7'));
    assert!(!is_alpha('-'));
    assert!(is_alpha('中'));
    assert!(!is_alpha('€'));
    assert!(is_digit('0'));
    assert!(is_digit('9'));
    assert!(!is_digit('a'));
    assert!(is_alphanumeric('5'));
    assert!(is_alphanumeric('q'));
    assert!(!is_alphanumeric(' '));
}

#[test]
fn empty_object_and_array() {
    assert_eq!(read("@{}"), Value::Object(vec![]));
    assert_eq!(read("@()"), Value::Array(vec![]));
    assert_eq!(read("@{ }"), Value::Object(vec![]));
}

#[test]
fn writer_empty_containers() {
    assert_eq!(value_to_ps(Value::Object(vec![])).unwrap(), "@{\n}\n");
    assert_eq!(value_to_ps(Value::Array(vec![])).unwrap(), "@(\n)\n");
    assert_eq!(read(&value_to_ps(Value::Object(vec![])).unwrap()), Value::Object(vec![]));
    assert_eq!(read(&value_to_ps(Value::Array(vec![])).unwrap()), Value::Array(vec![]));
}

#[test]
fn boolean_literals() {
    assert_eq!(kinds("$true"), vec![TokenType::Boolean(true)]);
    assert_eq!(kinds("$false"), vec![TokenType::Boolean(false)]);
    let toks = scan("$truexyz".to_string()).unwrap();
    assert_eq!(toks.len(), 1);
    assert_eq!(toks[0]._type, TokenType::Identifier("$truexyz".to_string()));
    assert_eq!(toks[0].lexeme, "$truexyz");
}

#[test]
fn negative_number_is_rejected() {
    assert_eq!(scan("-5".to_string()), Err(LexError::UnexpectedCharacter('-', 1)));
}

#[test]
fn fraction_is_rejected_at_the_point() {
    assert_eq!(scan("3.14".to_string()), Err(LexError::UnexpectedCharacter('.', 1)));
    let mut scanner = Scanner::new("3.14".to_string());
    let first = scanner.scan_token().unwrap().unwrap();
    assert_eq!(first._type, TokenType::Number("3".to_string()));
    assert_eq!(first.lexeme, "3");
    assert_eq!(scanner.scan_token(), Err(LexError::UnexpectedCharacter('.', 1)));
}

#[test]
fn nested_structure() {
    let v = read("@{ a = @( 1 2 3 ) b = $true }");
    let expected = obj(vec![
        ("a", Value::Array(vec![num("1"), num("2"), num("3")])),
        ("b", Value::Boolean(true)),
    ]);
    assert_eq!(v, expected);
}

#[test]
fn unterminated_string() {
    assert_eq!(
        ps_to_value("@{ a = \"unterminated".to_string()),
        Err(PsError::Lex(LexError::UnterminatedString))
    );
}

#[test]
fn boolean_key_is_rejected() {
    assert_eq!(
        ps_to_value("@{ $true = 1 }".to_string()),
        Err(PsError::Parse(ParseError::UnexpectedToken(1)))
    );
    assert_eq!(
        ps_to_value("@{\n a = 1\n $false = 2 }".to_string()),
        Err(PsError::Parse(ParseError::UnexpectedToken(3)))
    );
}

#[test]
fn token_lines_and_lexemes() {
    let toks = scan("@{\n  name = \"x y\"\n  n = 42\n}".to_string()).unwrap();
    let lines: Vec<usize> = toks.iter().map(|t| t.line).collect();
    assert_eq!(lines, vec![1, 1, 2, 2, 2, 3, 3, 3, 4]);
    assert_eq!(toks[4]._type, TokenType::String("x y".to_string()));
    assert_eq!(toks[4].lexeme, "x y");
    assert_eq!(toks[7]._type, TokenType::Number("42".to_string()));
    assert_eq!(toks[7].lexeme, "42");
    assert_eq!(toks[2]._type, TokenType::Identifier("name".to_string()));
}

#[test]
fn newline_inside_string_keeps_line() {
    let toks = scan("\"a\nb\" x".to_string()).unwrap();
    assert_eq!(toks[0]._type, TokenType::String("a\nb".to_string()));
    assert_eq!(toks[1].line, 1);
}

#[test]
fn unexpected_character() {
    assert_eq!(scan("@{\n a = # }".to_string()), Err(LexError::UnexpectedCharacter('#', 2)));
}

#[test]
fn long_digit_runs_are_numbers() {
    let toks = scan("18446744073709551616 123456789012345678901234567890".to_string()).unwrap();
    assert_eq!(toks.len(), 2);
    assert_eq!(toks[0]._type, TokenType::Number("18446744073709551616".to_string()));
    assert_eq!(toks[1]._type, TokenType::Number("123456789012345678901234567890".to_string()));
    assert_eq!(toks[1].lexeme, "123456789012345678901234567890");
    let big = num("123456789012345678901234567890");
    assert_eq!(read(&value_to_ps(num("123456789012345678901234567890")).unwrap()), big);
}

#[test]
fn identifier_reads_as_string() {
    assert_eq!(read("hello"), s("hello"));
    assert_eq!(read("\"hello\""), s("hello"));
    assert_eq!(read("élan_2"), s("élan_2"));
    assert_eq!(read("007"), num("007"));
}

#[test]
fn parse_errors() {
    assert_eq!(ps_to_value("".to_string()), Err(PsError::Parse(ParseError::UnexpectedEndOfInput)));
    assert_eq!(ps_to_value("@{ a 1 }".to_string()), Err(PsError::Parse(ParseError::ExpectedEqual(1))));
    assert_eq!(ps_to_value("@{ a".to_string()), Err(PsError::Parse(ParseError::ExpectedEqual(1))));
    assert_eq!(ps_to_value("@( 1 2".to_string()), Err(PsError::Parse(ParseError::UnexpectedEndOfInput)));
    assert_eq!(ps_to_value("@\n=".to_string()), Err(PsError::Parse(ParseError::UnexpectedToken(2))));
    assert_eq!(ps_to_value("}".to_string()), Err(PsError::Parse(ParseError::UnexpectedToken(1))));
    assert_eq!(ps_to_value("@{ \"k\" = 1 }".to_string()), Err(PsError::Parse(ParseError::UnexpectedToken(1))));
}

#[test]
fn duplicate_key_keeps_first_position() {
    let v = read("@{ a = 1 b = 2 a = 3 }");
    assert_eq!(v, obj(vec![("a", num("3")), ("b", num("2"))]));
}

#[test]
fn object_insert_in_place_or_appended() {
    let mut o = vec![("x".to_string(), num("1"))];
    object_insert(&mut o, "y".to_string(), num("2"));
    object_insert(&mut o, "x".to_string(), num("5"));
    assert_eq!(o, vec![("x".to_string(), num("5")), ("y".to_string(), num("2"))]);
}

#[test]
fn writer_exact_text() {
    let v = obj(vec![
        ("a", Value::Array(vec![num("1"), s("two")])),
        ("b", Value::Boolean(false)),
        ("c", num("1234567890")),
    ]);
    let text = value_to_ps(v).unwrap();
    assert_eq!(
        text,
        "@{\n    a = @(\n        1\n        \"two\"\n    )\n\n    b = $false\n    c = 1234567890\n}\n"
    );
}

#[test]
fn writer_scalars() {
    assert_eq!(value_to_ps(s("hi")).unwrap(), "\"hi\"");
    assert_eq!(value_to_ps(num("0")).unwrap(), "0");
    assert_eq!(value_to_ps(num("-1.5")).unwrap(), "-1.5");
    assert_eq!(value_to_ps(num("18446744073709551615")).unwrap(), "18446744073709551615");
    assert_eq!(value_to_ps(Value::Boolean(true)).unwrap(), "$true");
}

#[test]
fn writer_rejects_null() {
    assert_eq!(value_to_ps(Value::Null), Err(WriteError::UnsupportedValue));
    assert_eq!(
        value_to_ps(Value::Array(vec![num("1"), Value::Null])),
        Err(WriteError::UnsupportedValue)
    );
}

#[test]
fn writer_keeps_its_indent() {
    let mut w = Writer::new(Value::Array(vec![num("1")]));
    w.indent = 2;
    assert_eq!(w.write().unwrap(), "@(\n      1\n  )\n");
    assert_eq!(w.indent, 2);
    assert_eq!(padding(3), "   ");
    assert_eq!(padding(0), "");
}

#[test]
fn round_trip_concrete() {
    let v = obj(vec![
        ("name", s("demo")),
        ("items", Value::Array(vec![num("1"), Value::Boolean(true), obj(vec![("k", s("v"))])])),
        ("empty", Value::Object(vec![])),
        ("$flag", Value::Boolean(false)),
    ]);
    let text = value_to_ps(obj(vec![
        ("name", s("demo")),
        ("items", Value::Array(vec![num("1"), Value::Boolean(true), obj(vec![("k", s("v"))])])),
        ("empty", Value::Object(vec![])),
        ("$flag", Value::Boolean(false)),
    ]))
    .unwrap();
    assert_eq!(read(&text), v);
}

#[test]
fn parser_cursor_helpers() {
    let toks = scan("@( 1 )".to_string()).unwrap();
    let mut p = Parser::new(toks);
    assert!(!p.is_eof());
    assert!(p.check_token(TokenType::At));
    assert!(!p.check_token(TokenType::Equal));
    assert_eq!(p.peek(Some(2)).unwrap()._type, TokenType::Number("1".to_string()));
    assert!(p.peek(Some(4)).is_none());
    assert!(!p.match_tokens(vec![TokenType::LeftParen, TokenType::Equal]));
    assert!(p.match_tokens(vec![TokenType::LeftParen, TokenType::At]));
    assert_eq!(p.i, 1);
    assert_eq!(p.advance().unwrap()._type, TokenType::LeftParen);
    assert_eq!(p.parse_number(), Ok(num("1")));
    assert_eq!(p.advance().unwrap()._type, TokenType::RightParen);
    assert!(p.is_eof());
    assert!(p.advance().is_none());
    assert_eq!(p.i, 5);
    assert!(p.is_eof());
}

#[test]
fn scanner_cursor_helpers() {
    let mut sc = Scanner::new("ab".to_string());
    assert_eq!(sc.peek(None), 'a');
    assert_eq!(sc.peek(Some(1)), 'b');
    assert_eq!(sc.peek(Some(2)), '\0');
    assert_eq!(sc.advance(), 'a');
    assert!(!sc.is_at_end());
    assert_eq!(sc.advance(), 'b');
    assert!(sc.is_at_end());
}

#[test]
fn writer_nesting_limit() {
    let mut w = Writer::new(Value::Array(vec![]));
    w.indent = usize::MAX - 2;
    assert_eq!(w.write(), Err(WriteError::NestingTooDeep));
    let mut w = Writer::new(num("5"));
    w.indent = usize::MAX;
    assert_eq!(w.write(), Ok("5".to_string()));
}

#[test]
fn round_trip_keeps_newlines_in_strings() {
    let make = || {
        Value::Array(vec![
            s("line one\nline two"),
            s(""),
            Value::Array(vec![Value::Array(vec![])]),
            obj(vec![("_k1", num("0")), ("Zz", s("= @ ( ) { }"))]),
        ])
    };
    let text = value_to_ps(make()).unwrap();
    assert_eq!(read(&text), make());
}

#[test]
fn scan_tokens_appends() {
    let mut sc = Scanner::new("a = 1".to_string());
    assert_eq!(sc.scan_tokens(), Ok(()));
    let kinds: Vec<TokenType> = sc.tokens.iter().map(|t| t._type.clone()).collect();
    assert_eq!(
        kinds,
        vec![TokenType::Identifier("a".to_string()), TokenType::Equal, TokenType::Number("1".to_string())]
    );
    let mut bad = Scanner::new("a ?".to_string());
    assert_eq!(bad.scan_tokens(), Err(LexError::UnexpectedCharacter('?', 1)));
}

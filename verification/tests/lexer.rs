use script_frontend::lexer::Lexer;
use script_frontend::token::Token;

fn text(s: &str) -> Token {
    Token::Text(s.to_string())
}

fn identifier(s: &str) -> Token {
    Token::Identifier(s.to_string())
}

fn decimal(s: &str) -> Token {
    Token::Decimal(s.to_string())
}

fn unknown(s: &str) -> Token {
    Token::Unknown(s.to_string())
}

fn decimal_value(token: &Token) -> f32 {
    match token {
        Token::Decimal(literal) => literal.parse::<f32>().unwrap(),
        other => panic!("not a decimal: {:?}", other),
    }
}

#[test]
fn empty_text_has_no_tokens() {
    assert_eq!(Lexer::tokenize(""), vec![]);
}

#[test]
fn integer_literal_keeps_its_value() {
    assert_eq!(Lexer::tokenize("42"), vec![Token::Integer(42)]);
    assert_eq!(Lexer::tokenize("0"), vec![Token::Integer(0)]);
    assert_eq!(Lexer::tokenize("007"), vec![Token::Integer(7)]);
    assert_eq!(Lexer::tokenize("1234567890"), vec![Token::Integer(1234567890)]);
}

#[test]
fn largest_integer_literal_is_exact() {
    assert_eq!(Lexer::tokenize("2147483647"), vec![Token::Integer(i32::MAX)]);
    assert_eq!(Lexer::tokenize("2147483646"), vec![Token::Integer(2147483646)]);
}

#[test]
fn integer_literal_above_range_saturates() {
    assert_eq!(Lexer::tokenize("2147483648"), vec![Token::Integer(i32::MAX)]);
    assert_eq!(Lexer::tokenize("4294967296"), vec![Token::Integer(i32::MAX)]);
    assert_eq!(
        Lexer::tokenize("99999999999999999999999999999999999999999999"),
        vec![Token::Integer(i32::MAX)]
    );
}

#[test]
fn every_small_number_round_trips() {
    for n in 0..2000 {
        assert_eq!(Lexer::tokenize(&format!("{}", n)), vec![Token::Integer(n)]);
    }
}

#[test]
fn decimal_literal_is_kept_as_written() {
    let tokens = Lexer::tokenize("3.14");
    assert_eq!(tokens, vec![decimal("3.14")]);
    assert_eq!(decimal_value(&tokens[0]), 3.14f32);
}

#[test]
fn second_point_ends_a_decimal() {
    let tokens = Lexer::tokenize("3.14.5");
    assert_eq!(tokens, vec![decimal("3.14"), unknown("."), Token::Integer(5)]);
    assert_eq!(decimal_value(&tokens[0]), 3.14f32);
}

#[test]
fn decimal_may_end_with_its_point() {
    let tokens = Lexer::tokenize("3.");
    assert_eq!(tokens, vec![decimal("3.")]);
    assert_eq!(decimal_value(&tokens[0]), 3.0f32);
    assert_eq!(Lexer::tokenize("3.x"), vec![decimal("3."), identifier("x")]);
}

#[test]
fn point_without_leading_digit_is_unknown() {
    assert_eq!(Lexer::tokenize(".5"), vec![unknown("."), Token::Integer(5)]);
}

#[test]
fn long_decimal_is_not_saturated() {
    assert_eq!(
        Lexer::tokenize("99999999999.25"),
        vec![decimal("99999999999.25")]
    );
}

#[test]
fn comment_is_elided() {
    let expected = vec![
        Token::VarDeclaration,
        identifier("x"),
        Token::Assign,
        Token::Integer(1),
    ];
    assert_eq!(Lexer::tokenize("var x = 1"), expected);
    assert_eq!(Lexer::tokenize("// comment\nvar x = 1"), expected);
}

#[test]
fn comment_ends_with_its_line() {
    assert_eq!(
        Lexer::tokenize("1 // one\n2 // two"),
        vec![Token::Integer(1), Token::Integer(2)]
    );
    assert_eq!(Lexer::tokenize("//"), vec![]);
    assert_eq!(Lexer::tokenize("//\n"), vec![]);
    assert_eq!(Lexer::tokenize("// a // b\n+"), vec![Token::Add]);
}

#[test]
fn carriage_return_does_not_end_a_comment() {
    assert_eq!(Lexer::tokenize("// a\r1\n2"), vec![Token::Integer(2)]);
}

#[test]
fn double_equals_is_one_token() {
    assert_eq!(Lexer::tokenize("=="), vec![Token::Equals]);
    assert_eq!(Lexer::tokenize("= ="), vec![Token::Assign, Token::Assign]);
    assert_eq!(Lexer::tokenize("="), vec![Token::Assign]);
    assert_eq!(Lexer::tokenize("==="), vec![Token::Equals, Token::Assign]);
    assert_eq!(Lexer::tokenize("===="), vec![Token::Equals, Token::Equals]);
}

#[test]
fn slash_alone_is_division() {
    assert_eq!(Lexer::tokenize("/"), vec![Token::Divide]);
    assert_eq!(
        Lexer::tokenize("a/b"),
        vec![identifier("a"), Token::Divide, identifier("b")]
    );
    assert_eq!(Lexer::tokenize("/ /"), vec![Token::Divide, Token::Divide]);
}

#[test]
fn operators_and_braces() {
    assert_eq!(
        Lexer::tokenize("+-*/{}"),
        vec![
            Token::Add,
            Token::Subtract,
            Token::Multiply,
            Token::Divide,
            Token::ScopeStart,
            Token::ScopeEnd,
        ]
    );
}

#[test]
fn string_literal_loses_its_quotes() {
    assert_eq!(Lexer::tokenize("\"hello\""), vec![text("hello")]);
    assert_eq!(Lexer::tokenize("\"\""), vec![text("")]);
    assert_eq!(
        Lexer::tokenize("\"a b // c\" d"),
        vec![text("a b // c"), identifier("d")]
    );
    assert_eq!(Lexer::tokenize("\"line\nbreak\""), vec![text("line\nbreak")]);
}

#[test]
fn open_string_literal_ends_with_the_text() {
    assert_eq!(Lexer::tokenize("\"abc"), vec![text("abc")]);
    assert_eq!(Lexer::tokenize("\""), vec![text("")]);
    assert_eq!(Lexer::tokenize("x \"a\" \"b"), vec![identifier("x"), text("a"), text("b")]);
}

#[test]
fn keywords_are_recognized() {
    assert_eq!(
        Lexer::tokenize("var true false"),
        vec![Token::VarDeclaration, Token::Boolean(true), Token::Boolean(false)]
    );
}

#[test]
fn keyword_must_be_the_whole_word() {
    assert_eq!(
        Lexer::tokenize("varx truest False _var"),
        vec![identifier("varx"), identifier("truest"), identifier("False"), identifier("_var")]
    );
}

#[test]
fn identifier_characters() {
    assert_eq!(Lexer::tokenize("$a_1"), vec![identifier("$a_1")]);
    assert_eq!(Lexer::tokenize("_"), vec![identifier("_")]);
    assert_eq!(Lexer::tokenize("a$b"), vec![identifier("a"), identifier("$b")]);
    assert_eq!(Lexer::tokenize("x1y2"), vec![identifier("x1y2")]);
    assert_eq!(Lexer::tokenize("1x"), vec![Token::Integer(1), identifier("x")]);
    assert_eq!(Lexer::tokenize("\u{e9}t\u{e9}"), vec![identifier("\u{e9}t\u{e9}")]);
}

#[test]
fn unknown_character_is_a_token_and_scanning_goes_on() {
    assert_eq!(Lexer::tokenize("@"), vec![unknown("@")]);
    assert_eq!(
        Lexer::tokenize("a @ # b"),
        vec![identifier("a"), unknown("@"), unknown("#"), identifier("b")]
    );
}

#[test]
fn unicode_whitespace_separates_tokens() {
    assert_eq!(
        Lexer::tokenize("\t1\n \r2\u{a0}3\u{2003}\u{3000}4 "),
        vec![Token::Integer(1), Token::Integer(2), Token::Integer(3), Token::Integer(4)]
    );
}

#[test]
fn small_program() {
    assert_eq!(
        Lexer::tokenize("var total = price * 2 // twice\n{ total == 3.5 }"),
        vec![
            Token::VarDeclaration,
            identifier("total"),
            Token::Assign,
            identifier("price"),
            Token::Multiply,
            Token::Integer(2),
            Token::ScopeStart,
            identifier("total"),
            Token::Equals,
            decimal("3.5"),
            Token::ScopeEnd,
        ]
    );
}

#[test]
fn next_token_reports_whitespace_and_comments() {
    let mut lexer = Lexer::new("a  // c\nb");
    assert_eq!(lexer.next_token(), Some(identifier("a")));
    assert_eq!(lexer.position(), 1);
    assert_eq!(lexer.next_token(), Some(Token::Whitespace));
    assert_eq!(lexer.position(), 3);
    assert_eq!(lexer.next_token(), Some(Token::Comment));
    assert_eq!(lexer.position(), 8);
    assert_eq!(lexer.next_token(), Some(identifier("b")));
    assert_eq!(lexer.position(), 9);
    assert_eq!(lexer.next_token(), None);
    assert_eq!(lexer.position(), 9);
    assert_eq!(lexer.next_token(), None);
}

#[test]
fn token_spans_put_together_are_the_text() {
    let sources = [
        "var x = 1",
        "// comment\nvar x = 1",
        "3.14.5",
        "\"open",
        "a == b = c / d // e",
        "  \t\n",
        "@#~ \u{e9}\u{2003}$x_1 99999999999999999999",
        "{ var s = \"a{b}\" } //",
    ];
    for source in sources {
        let chars: Vec<char> = source.chars().collect();
        let mut lexer = Lexer::new(source);
        let mut rebuilt = String::new();
        let mut start = lexer.position();
        while let Some(_) = lexer.next_token() {
            let end = lexer.position();
            assert!(start < end);
            rebuilt.extend(chars[start..end].iter());
            start = end;
        }
        assert_eq!(start, chars.len());
        assert_eq!(rebuilt, source);
    }
}

#[test]
fn peek_does_not_read() {
    let mut lexer = Lexer::new("ab");
    assert_eq!(lexer.peek(), Some('a'));
    assert_eq!(lexer.peek(), Some('a'));
    assert_eq!(lexer.position(), 0);
    assert_eq!(lexer.advance(), Some('a'));
    assert_eq!(lexer.peek(), Some('b'));
    assert_eq!(lexer.advance(), Some('b'));
    assert_eq!(lexer.position(), 2);
    assert_eq!(lexer.peek(), None);
    assert_eq!(lexer.advance(), None);
    assert_eq!(lexer.position(), 2);
}

#[test]
fn positions_count_characters_not_bytes() {
    let mut lexer = Lexer::new("\u{e9}\u{4eac}x");
    assert_eq!(lexer.advance(), Some('\u{e9}'));
    assert_eq!(lexer.advance(), Some('\u{4eac}'));
    assert_eq!(lexer.position(), 2);
    assert_eq!(lexer.advance(), Some('x'));
    assert_eq!(lexer.advance(), None);
}

#[test]
fn next_line_skips_through_the_line_feed() {
    let mut lexer = Lexer::new("abc\ndef");
    lexer.next_line();
    assert_eq!(lexer.position(), 4);
    assert_eq!(lexer.peek(), Some('d'));
    lexer.next_line();
    assert_eq!(lexer.position(), 7);
    lexer.next_line();
    assert_eq!(lexer.position(), 7);
}

#[test]
fn next_line_on_an_empty_line() {
    let mut lexer = Lexer::new("\n\nx");
    lexer.next_line();
    assert_eq!(lexer.position(), 1);
    lexer.next_line();
    assert_eq!(lexer.position(), 2);
}

#[test]
fn read_string_stops_after_the_closing_quote() {
    let mut lexer = Lexer::new("\"ab\"c");
    assert_eq!(lexer.advance(), Some('"'));
    assert_eq!(lexer.read_string(), text("ab"));
    assert_eq!(lexer.position(), 4);
    assert_eq!(lexer.peek(), Some('c'));
}

#[test]
fn read_number_takes_the_rest_of_the_literal() {
    let mut lexer = Lexer::new("123+");
    assert_eq!(lexer.advance(), Some('1'));
    assert_eq!(lexer.read_number('1'), Token::Integer(123));
    assert_eq!(lexer.position(), 3);

    let mut lexer = Lexer::new("1.5.2");
    assert_eq!(lexer.advance(), Some('1'));
    assert_eq!(lexer.read_number('1'), decimal("1.5"));
    assert_eq!(lexer.position(), 3);

    let mut lexer = Lexer::new("7");
    assert_eq!(lexer.advance(), Some('7'));
    assert_eq!(lexer.read_number('7'), Token::Integer(7));
    assert_eq!(lexer.position(), 1);
}

#[test]
fn read_identifier_takes_the_rest_of_the_word() {
    let mut lexer = Lexer::new("abc_1 x");
    assert_eq!(lexer.advance(), Some('a'));
    assert_eq!(lexer.read_identifier('a'), "abc_1");
    assert_eq!(lexer.position(), 5);

    let mut lexer = Lexer::new("$a$");
    assert_eq!(lexer.advance(), Some('$'));
    assert_eq!(lexer.read_identifier('$'), "$a");
    assert_eq!(lexer.position(), 2);
}

#[test]
fn check_keyword_knows_the_table() {
    let lexer = Lexer::new("");
    assert_eq!(lexer.check_keyword("var"), Some(Token::VarDeclaration));
    assert_eq!(lexer.check_keyword("true"), Some(Token::Boolean(true)));
    assert_eq!(lexer.check_keyword("false"), Some(Token::Boolean(false)));
    assert_eq!(lexer.check_keyword("Var"), None);
    assert_eq!(lexer.check_keyword("va"), None);
    assert_eq!(lexer.check_keyword("vars"), None);
    assert_eq!(lexer.check_keyword(""), None);
}

#[test]
fn identifier_start_and_part() {
    let lexer = Lexer::new("");
    for c in ['a', 'Z', '_', '$', '\u{e9}', '\u{4eac}'] {
        assert!(lexer.is_identifier_start(c), "{:?}", c);
    }
    for c in ['1', ' ', '+', '.', '"', '\u{663}'] {
        assert!(!lexer.is_identifier_start(c), "{:?}", c);
    }
    for c in ['a', 'Z', '_', '0', '9', '\u{e9}', '\u{663}'] {
        assert!(lexer.is_identifier_part(c), "{:?}", c);
    }
    for c in ['$', ' ', '+', '.', '"'] {
        assert!(!lexer.is_identifier_part(c), "{:?}", c);
    }
}

#[test]
fn only_ascii_digits_begin_a_number() {
    assert_eq!(Lexer::tokenize("\u{663}"), vec![unknown("\u{663}")]);
    assert_eq!(Lexer::tokenize("1\u{663}"), vec![Token::Integer(1), unknown("\u{663}")]);
    assert_eq!(Lexer::tokenize("x\u{663}"), vec![identifier("x\u{663}")]);
}

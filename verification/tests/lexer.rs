use mon_lexer::token::{tokenize, Lexer, Token};

fn ident(name: &str) -> Token {
    Token::Ident(name.to_string())
}

#[test]
fn test_lexer_iterator() {
    let input = "=+(){},;";
    let expected_tokens = vec![
        Token::Assign,
        Token::Plus,
        Token::LParen,
        Token::RParen,
        Token::LBrace,
        Token::RBrace,
        Token::Comma,
        Token::Semicolon,
    ];

    let lexer = Lexer::new(input);
    let result = lexer.collect();
    assert_eq!(result, expected_tokens);
}

#[test]
fn empty_input_has_no_tokens() {
    assert_eq!(tokenize(""), Vec::<Token>::new());
    assert_eq!(Lexer::new("").next(), None);
}

#[test]
fn blank_input_has_no_tokens() {
    assert_eq!(tokenize(" "), Vec::<Token>::new());
    assert_eq!(tokenize(" \t\r\n  \n"), Vec::<Token>::new());
    assert_eq!(Lexer::new("\t\t").next(), None);
}

#[test]
fn double_equals_is_one_token() {
    assert_eq!(tokenize("=="), vec![Token::Equal]);
}

#[test]
fn three_equals_are_equal_then_assign() {
    assert_eq!(tokenize("==="), vec![Token::Equal, Token::Assign]);
}

#[test]
fn bang_equals_is_not_equal() {
    assert_eq!(tokenize("!="), vec![Token::NotEqual]);
}

#[test]
fn lone_bang_is_bang() {
    assert_eq!(tokenize("!"), vec![Token::Bang]);
    assert_eq!(tokenize("!a"), vec![Token::Bang, ident("a")]);
    assert_eq!(tokenize("! ="), vec![Token::Bang, Token::Assign]);
}

#[test]
fn comparisons() {
    assert_eq!(
        tokenize("< > <= >="),
        vec![Token::Lt, Token::Gt, Token::Le, Token::Ge]
    );
    assert_eq!(tokenize("<>"), vec![Token::Lt, Token::Gt]);
    assert_eq!(tokenize("=<"), vec![Token::Assign, Token::Lt]);
}

#[test]
fn arithmetic_operators() {
    assert_eq!(
        tokenize("+-/"),
        vec![Token::Plus, Token::Minus, Token::Slash]
    );
}

#[test]
fn let_statement() {
    assert_eq!(
        tokenize("let five = 5;"),
        vec![
            Token::Let,
            ident("five"),
            Token::Assign,
            Token::Int(5),
            Token::Semicolon,
        ]
    );
}

#[test]
fn reserved_words_are_keywords() {
    assert_eq!(
        tokenize("if else fn let"),
        vec![Token::If, Token::Else, Token::Function, Token::Let]
    );
}

#[test]
fn keywords_are_case_sensitive() {
    assert_eq!(
        tokenize("If ELSE Fn leT"),
        vec![ident("If"), ident("ELSE"), ident("Fn"), ident("leT")]
    );
}

#[test]
fn word_that_begins_with_a_keyword_is_an_identifier() {
    assert_eq!(tokenize("letter"), vec![ident("letter")]);
    assert_eq!(tokenize("iff"), vec![ident("iff")]);
    assert_eq!(tokenize("f"), vec![ident("f")]);
    assert_eq!(tokenize("els"), vec![ident("els")]);
}

#[test]
fn unknown_symbol_is_illegal() {
    assert_eq!(tokenize("@"), vec![Token::Illegal]);
}

#[test]
fn lexing_resumes_behind_an_illegal_character() {
    assert_eq!(
        tokenize("@let x"),
        vec![Token::Illegal, Token::Let, ident("x")]
    );
    assert_eq!(
        tokenize("1 # 2"),
        vec![Token::Int(1), Token::Illegal, Token::Int(2)]
    );
    assert_eq!(tokenize("@@"), vec![Token::Illegal, Token::Illegal]);
}

#[test]
fn underscore_is_no_part_of_an_identifier() {
    assert_eq!(
        tokenize("a_b"),
        vec![ident("a"), Token::Illegal, ident("b")]
    );
}

#[test]
fn digits_are_no_part_of_an_identifier() {
    assert_eq!(tokenize("x1"), vec![ident("x"), Token::Int(1)]);
    assert_eq!(tokenize("1x"), vec![Token::Int(1), ident("x")]);
}

#[test]
fn only_ascii_letters_make_words() {
    assert_eq!(tokenize("\u{e9}"), vec![Token::Illegal]);
    assert_eq!(
        tokenize("a\u{e9}b"),
        vec![ident("a"), Token::Illegal, ident("b")]
    );
}

#[test]
fn only_ascii_digits_make_literals() {
    assert_eq!(tokenize("\u{663}"), vec![Token::Illegal]);
}

#[test]
fn other_white_space_is_no_blank() {
    assert_eq!(tokenize("\u{b}"), vec![Token::Illegal]);
    assert_eq!(tokenize("\u{c}"), vec![Token::Illegal]);
    assert_eq!(tokenize("\u{a0}"), vec![Token::Illegal]);
}

#[test]
fn same_text_same_tokens() {
    let text = "let add = fn(x, y) { x + y; }; 10 != 9 @";
    let first = tokenize(text);
    let second = tokenize(text);
    assert_eq!(first, second);
    assert_eq!(Lexer::new(text).collect(), first);
}

#[test]
fn literal_takes_the_whole_run_of_digits() {
    assert_eq!(tokenize("12345"), vec![Token::Int(12345)]);
    assert_eq!(
        tokenize("12345abc"),
        vec![Token::Int(12345), ident("abc")]
    );
    assert_eq!(tokenize("12 345"), vec![Token::Int(12), Token::Int(345)]);
}

#[test]
fn identifier_takes_the_whole_run_of_letters() {
    assert_eq!(tokenize("foobar"), vec![ident("foobar")]);
    assert_eq!(tokenize("fooBAR;"), vec![ident("fooBAR"), Token::Semicolon]);
    assert_eq!(tokenize("letfn"), vec![ident("letfn")]);
}

#[test]
fn literal_values() {
    assert_eq!(tokenize("0"), vec![Token::Int(0)]);
    assert_eq!(tokenize("7"), vec![Token::Int(7)]);
    assert_eq!(tokenize("10"), vec![Token::Int(10)]);
    assert_eq!(tokenize("909"), vec![Token::Int(909)]);
    assert_eq!(tokenize("4294967295"), vec![Token::Int(4294967295)]);
}

#[test]
fn leading_zeros_do_not_count() {
    assert_eq!(tokenize("007"), vec![Token::Int(7)]);
    assert_eq!(tokenize("0000"), vec![Token::Int(0)]);
}

#[test]
fn largest_literal_keeps_its_value() {
    let text = usize::MAX.to_string();
    assert_eq!(tokenize(&text), vec![Token::Int(usize::MAX)]);
}

#[test]
fn literal_too_large_is_the_largest_value() {
    let mut text = usize::MAX.to_string();
    text.push('0');
    assert_eq!(tokenize(&text), vec![Token::Int(usize::MAX)]);
    assert_eq!(
        tokenize("99999999999999999999999999999999999999999999 1"),
        vec![Token::Int(usize::MAX), Token::Int(1)]
    );
    let above = format!("{}", usize::MAX as u128 + 1);
    assert_eq!(tokenize(&above), vec![Token::Int(usize::MAX)]);
}

#[test]
fn no_end_marker_is_produced() {
    let tokens = tokenize("let x = 1;");
    assert!(!tokens.contains(&Token::Eof));
    assert_eq!(tokens.len(), 5);
}

#[test]
fn next_gives_one_token_at_a_time() {
    let mut lexer = Lexer::new("  fn ( 42");
    assert_eq!(lexer.next(), Some(Token::Function));
    assert_eq!(lexer.next(), Some(Token::LParen));
    assert_eq!(lexer.next(), Some(Token::Int(42)));
    assert_eq!(lexer.next(), None);
    assert_eq!(lexer.next(), None);
}

#[test]
fn next_stops_at_trailing_blanks() {
    let mut lexer = Lexer::new("x \n\t ");
    assert_eq!(lexer.next(), Some(ident("x")));
    assert_eq!(lexer.next(), None);
    assert_eq!(lexer.peek(), None);
}

#[test]
fn peek_does_not_read() {
    let lexer = Lexer::new("ab");
    assert_eq!(lexer.peek(), Some('a'));
    assert_eq!(lexer.peek(), Some('a'));
    assert_eq!(Lexer::new("").peek(), None);
}

#[test]
fn read_char_moves_on() {
    let mut lexer = Lexer::new("a\u{e9}");
    assert_eq!(lexer.read_char(), Some('a'));
    assert_eq!(lexer.peek(), Some('\u{e9}'));
    assert_eq!(lexer.read_char(), Some('\u{e9}'));
    assert_eq!(lexer.read_char(), None);
    assert_eq!(lexer.read_char(), None);
}

#[test]
fn skip_whitespace_stops_at_the_first_other_character() {
    let mut lexer = Lexer::new(" \t\r\n x y");
    lexer.skip_whitespace();
    assert_eq!(lexer.peek(), Some('x'));
    lexer.skip_whitespace();
    assert_eq!(lexer.peek(), Some('x'));
}

#[test]
fn skip_whitespace_at_the_end() {
    let mut lexer = Lexer::new("   ");
    lexer.skip_whitespace();
    assert_eq!(lexer.peek(), None);
    lexer.skip_whitespace();
    assert_eq!(lexer.peek(), None);
}

#[test]
fn keep_reading_takes_the_longest_run() {
    let mut lexer = Lexer::new("123abc");
    let first = lexer.read_char().unwrap();
    let run = lexer.keep_reading(first, |c: &char| c.is_ascii_digit());
    assert_eq!(run, vec!['1', '2', '3']);
    assert_eq!(lexer.peek(), Some('a'));
}

#[test]
fn keep_reading_keeps_the_first_character_whatever_it_is() {
    let mut lexer = Lexer::new("x12;");
    let first = lexer.read_char().unwrap();
    let run = lexer.keep_reading(first, |c: &char| c.is_ascii_digit());
    assert_eq!(run, vec!['x', '1', '2']);
    assert_eq!(lexer.peek(), Some(';'));
}

#[test]
fn keep_reading_may_read_nothing() {
    let mut lexer = Lexer::new("a;");
    let first = lexer.read_char().unwrap();
    let run = lexer.keep_reading(first, |c: &char| c.is_ascii_alphabetic());
    assert_eq!(run, vec!['a']);
    assert_eq!(lexer.peek(), Some(';'));
}

#[test]
fn keep_reading_stops_at_the_end() {
    let mut lexer = Lexer::new("abc");
    let first = lexer.read_char().unwrap();
    let run = lexer.keep_reading(first, |c: &char| c.is_ascii_alphabetic());
    assert_eq!(run, vec!['a', 'b', 'c']);
    assert_eq!(lexer.peek(), None);
}

#[test]
fn collect_reads_what_is_left() {
    let mut lexer = Lexer::new("a b c");
    assert_eq!(lexer.next(), Some(ident("a")));
    assert_eq!(lexer.collect(), vec![ident("b"), ident("c")]);
}

#[test]
fn a_small_program() {
    let text = "let add = fn(x, y) {\n\tx + y;\n};\nif (5 < 10) { !x } else { y / 2 - 1 }";
    assert_eq!(
        tokenize(text),
        vec![
            Token::Let,
            ident("add"),
            Token::Assign,
            Token::Function,
            Token::LParen,
            ident("x"),
            Token::Comma,
            ident("y"),
            Token::RParen,
            Token::LBrace,
            ident("x"),
            Token::Plus,
            ident("y"),
            Token::Semicolon,
            Token::RBrace,
            Token::Semicolon,
            Token::If,
            Token::LParen,
            Token::Int(5),
            Token::Lt,
            Token::Int(10),
            Token::RParen,
            Token::LBrace,
            Token::Bang,
            ident("x"),
            Token::RBrace,
            Token::Else,
            Token::LBrace,
            ident("y"),
            Token::Slash,
            Token::Int(2),
            Token::Minus,
            Token::Int(1),
            Token::RBrace,
        ]
    );
}

#[test]
fn clone_keeps_the_token() {
    let tokens = tokenize("let x = 15;");
    assert_eq!(tokens.clone(), tokens);
    assert_eq!(ident("abc").clone(), ident("abc"));
    assert_eq!(Token::Int(3).clone(), Token::Int(3));
    assert_ne!(Token::Int(3).clone(), Token::Int(4));
}

#[test]
fn tokens_print_by_their_names() {
    assert_eq!(
        format!("{:?}", tokenize("let five = 5;")),
        "[Let, Ident(\"five\"), Assign, Int(5), Semicolon]"
    );
    assert_eq!(format!("{:?}", tokenize("")), "[]");
}

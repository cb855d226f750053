use minicc::lexer::{LexError, Token, Tokenizer};

fn lex(input: &str) -> Result<Vec<Token>, LexError> {
    Tokenizer::new().tokenize(input)
}

fn ident(s: &str) -> Token {
    Token::Identifier(String::from(s))
}

fn constant(s: &str) -> Token {
    Token::Constant(String::from(s))
}

#[test]
fn empty_input_yields_no_tokens() {
    assert_eq!(lex(""), Ok(vec![]));
}

#[test]
fn blank_input_yields_no_tokens() {
    assert_eq!(lex("   "), Ok(vec![]));
}

#[test]
fn mixed_whitespace_yields_no_tokens() {
    assert_eq!(lex(" \t\r\n \t"), Ok(vec![]));
}

#[test]
fn unicode_whitespace_yields_no_tokens() {
    assert_eq!(lex("\u{a0}\u{85}\u{1680}\u{2003}\u{2028}\u{202f}\u{3000}"), Ok(vec![]));
}

#[test]
fn unicode_whitespace_separates_tokens() {
    assert_eq!(
        lex("int\u{a0}main\u{2009};"),
        Ok(vec![Token::IntKeyword, ident("main"), Token::Semicolon])
    );
}

#[test]
fn unicode_whitespace_is_trimmed_at_both_ends() {
    assert_eq!(lex("\u{2028} return ;\u{a0}"), lex("return;"));
}

#[test]
fn reserved_word_is_a_keyword_token() {
    assert_eq!(lex("return"), Ok(vec![Token::ReturnKeyword]));
    assert_eq!(lex("int"), Ok(vec![Token::IntKeyword]));
    assert_eq!(lex("void"), Ok(vec![Token::VoidKeyword]));
}

#[test]
fn keyword_with_suffix_is_one_identifier() {
    assert_eq!(lex("returning"), Ok(vec![ident("returning")]));
}

#[test]
fn keyword_with_digit_suffix_is_one_identifier() {
    assert_eq!(lex("int0"), Ok(vec![ident("int0")]));
}

#[test]
fn identifiers_may_hold_underscores_and_digits() {
    assert_eq!(lex("_a1 b_2"), Ok(vec![ident("_a1"), ident("b_2")]));
}

#[test]
fn constants_are_digit_runs() {
    assert_eq!(lex("42"), Ok(vec![constant("42")]));
    assert_eq!(lex("0 007"), Ok(vec![constant("0"), constant("007")]));
}

#[test]
fn digits_then_letters_are_a_lexical_error() {
    match lex("12ab") {
        Err(e) => assert_eq!(e.remainder, "12ab"),
        Ok(tokens) => panic!("expected a lexical error, got {:?}", tokens),
    }
}

#[test]
fn digits_space_letters_are_two_tokens() {
    assert_eq!(lex("12 ab"), Ok(vec![constant("12"), ident("ab")]));
}

#[test]
fn punctuation_stands_for_itself() {
    assert_eq!(
        lex("(){};"),
        Ok(vec![
            Token::OpenParen,
            Token::CloseParen,
            Token::OpenBrace,
            Token::CloseBrace,
            Token::Semicolon,
        ])
    );
}

#[test]
fn whole_program_scans_to_expected_tokens() {
    assert_eq!(
        lex("int main(void) { return 2; }"),
        Ok(vec![
            Token::IntKeyword,
            ident("main"),
            Token::OpenParen,
            Token::VoidKeyword,
            Token::CloseParen,
            Token::OpenBrace,
            Token::ReturnKeyword,
            constant("2"),
            Token::Semicolon,
            Token::CloseBrace,
        ])
    );
}

#[test]
fn unrecognized_character_reports_the_remainder() {
    match lex("int x = 5;") {
        Err(e) => assert_eq!(e.remainder, "= 5;"),
        Ok(tokens) => panic!("expected a lexical error, got {:?}", tokens),
    }
}

#[test]
fn error_remainder_is_trimmed_of_trailing_whitespace() {
    match lex("  @  ") {
        Err(e) => assert_eq!(e.remainder, "@"),
        Ok(tokens) => panic!("expected a lexical error, got {:?}", tokens),
    }
}

#[test]
fn keyword_precedence_holds_inside_larger_inputs() {
    assert_eq!(
        lex("return return2"),
        Ok(vec![Token::ReturnKeyword, ident("return2")])
    );
}

#[test]
fn tokenize_is_deterministic() {
    let tokenizer = Tokenizer::new();
    let input = "int main(void) { return 2; }";
    assert_eq!(tokenizer.tokenize(input), tokenizer.tokenize(input));
    let bad = "int x = 5;";
    assert_eq!(tokenizer.tokenize(bad), tokenizer.tokenize(bad));
}

#[test]
fn lexemes_reconstruct_the_input_without_whitespace() {
    let tokens = lex(" int  main ( void )\t{ return 2 ; } ").unwrap();
    let mut rebuilt = String::new();
    for t in &tokens {
        match t {
            Token::Identifier(s) => rebuilt.push_str(s),
            Token::Constant(s) => rebuilt.push_str(s),
            Token::IntKeyword => rebuilt.push_str("int"),
            Token::VoidKeyword => rebuilt.push_str("void"),
            Token::ReturnKeyword => rebuilt.push_str("return"),
            Token::OpenParen => rebuilt.push_str("("),
            Token::CloseParen => rebuilt.push_str(")"),
            Token::OpenBrace => rebuilt.push_str("{"),
            Token::CloseBrace => rebuilt.push_str("}"),
            Token::Semicolon => rebuilt.push_str(";"),
        }
    }
    assert_eq!(rebuilt, "intmain(void){return2;}");
}

#[test]
fn leading_and_trailing_whitespace_do_not_change_tokens() {
    assert_eq!(lex("  return ;  "), lex("return;"));
}

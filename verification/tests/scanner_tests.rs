use asm_lexer::scanner::Scanner;
use asm_lexer::token::LexError;
use asm_lexer::token::Op;
use asm_lexer::token::Token;

fn scan_all(src: &str) -> (Vec<Token>, Vec<LexError>, bool) {
    let mut scanner = Scanner::new(String::from(src));
    let tokens = scanner.scan();
    (tokens, scanner.errors, scanner.has_error)
}

#[test]
fn empty_input_yields_nothing() {
    let (tokens, errors, has_error) = scan_all("");
    assert_eq!(tokens, vec![]);
    assert_eq!(errors, vec![]);
    assert!(!has_error);
}

#[test]
fn hex_literal_is_parsed_base_sixteen() {
    let (tokens, errors, _) = scan_all("$FF");
    assert_eq!(tokens, vec![Token::Number(255)]);
    assert!(errors.is_empty());
}

#[test]
fn decimal_literal_is_parsed_base_ten() {
    let (tokens, errors, _) = scan_all("255");
    assert_eq!(tokens, vec![Token::Number(255)]);
    assert!(errors.is_empty());
}

#[test]
fn lowercase_hex_digits_count() {
    let (tokens, errors, _) = scan_all("$aF");
    assert_eq!(tokens, vec![Token::Number(175)]);
    assert!(errors.is_empty());
}

#[test]
fn zero_and_leading_zeros() {
    let (tokens, errors, _) = scan_all("0 007");
    assert_eq!(tokens, vec![Token::Number(0), Token::Number(7)]);
    assert!(errors.is_empty());
}

#[test]
fn bare_dollar_is_an_invalid_number() {
    let (tokens, errors, has_error) = scan_all("$");
    assert_eq!(tokens, vec![]);
    assert_eq!(errors.len(), 1);
    assert_eq!(errors[0].line, 1);
    assert_eq!(errors[0].message, "invalid number");
    assert!(has_error);
}

#[test]
fn dollar_before_non_hex_errs_then_identifier() {
    let (tokens, errors, has_error) = scan_all("$GG");
    assert_eq!(tokens, vec![Token::Identifier(String::from("GG"))]);
    assert_eq!(errors.len(), 1);
    assert_eq!(errors[0].message, "invalid number");
    assert!(has_error);
}

#[test]
fn largest_values_fit() {
    let (tokens, errors, _) = scan_all("$FFFFFFFF 4294967295");
    assert_eq!(tokens, vec![Token::Number(4294967295), Token::Number(4294967295)]);
    assert!(errors.is_empty());
}

#[test]
fn decimal_overflow_is_an_invalid_number() {
    let (tokens, errors, has_error) = scan_all("4294967296");
    assert_eq!(tokens, vec![]);
    assert_eq!(errors.len(), 1);
    assert_eq!(errors[0].message, "invalid number");
    assert!(has_error);
}

#[test]
fn hex_overflow_is_an_invalid_number() {
    let (tokens, errors, has_error) = scan_all("$100000000");
    assert_eq!(tokens, vec![]);
    assert_eq!(errors.len(), 1);
    assert!(has_error);
}

#[test]
fn keyword_match_is_case_insensitive() {
    for src in ["ADC", "adc", "Adc"] {
        let (tokens, errors, _) = scan_all(src);
        assert_eq!(tokens, vec![Token::Op(Op::ADC)]);
        assert!(errors.is_empty());
    }
}

#[test]
fn maximal_munch_beats_keyword_prefix() {
    let (tokens, errors, _) = scan_all("adcx");
    assert_eq!(tokens, vec![Token::Identifier(String::from("adcx"))]);
    assert!(errors.is_empty());
}

#[test]
fn mixed_line_of_keyword_number_identifier() {
    let (tokens, errors, _) = scan_all("LDA $10,X");
    assert_eq!(
        tokens,
        vec![Token::Op(Op::LDA), Token::Number(16), Token::Identifier(String::from("X"))]
    );
    assert!(errors.is_empty());
}

#[test]
fn identifier_keeps_original_case() {
    let (tokens, _, _) = scan_all("AbC9");
    assert_eq!(tokens, vec![Token::Identifier(String::from("AbC9"))]);
}

#[test]
fn identifier_may_contain_digits_after_a_letter() {
    let (tokens, _, _) = scan_all("a1b2");
    assert_eq!(tokens, vec![Token::Identifier(String::from("a1b2"))]);
}

#[test]
fn hex_letters_without_prefix_are_an_identifier() {
    let (tokens, errors, _) = scan_all("face");
    assert_eq!(tokens, vec![Token::Identifier(String::from("face"))]);
    assert!(errors.is_empty());
}

#[test]
fn punctuation_and_whitespace_are_discarded_silently() {
    let (tokens, errors, has_error) = scan_all("  !,;:#  ");
    assert_eq!(tokens, vec![]);
    assert_eq!(errors, vec![]);
    assert!(!has_error);
}

#[test]
fn unicode_letters_form_identifiers() {
    let (tokens, errors, _) = scan_all("héllo");
    assert_eq!(tokens, vec![Token::Identifier(String::from("héllo"))]);
    assert!(errors.is_empty());
}

#[test]
fn newline_advances_the_error_line() {
    let (tokens, errors, has_error) = scan_all("$\n$");
    assert_eq!(tokens, vec![]);
    assert_eq!(errors.len(), 2);
    assert_eq!(errors[0].line, 1);
    assert_eq!(errors[1].line, 2);
    assert!(has_error);
}

#[test]
fn tokens_after_an_error_are_still_returned() {
    let (tokens, errors, has_error) = scan_all("adc $ 42");
    assert_eq!(tokens, vec![Token::Op(Op::ADC), Token::Number(42)]);
    assert_eq!(errors.len(), 1);
    assert!(has_error);
}

#[test]
fn separated_texts_concatenate_their_tokens() {
    let (left, _, _) = scan_all("adc $10");
    let (right, _, _) = scan_all("x 255");
    let (joined, _, _) = scan_all("adc $10 x 255");
    let mut expected = left;
    expected.extend(right);
    assert_eq!(joined, expected);
}

#[test]
fn rescanning_appends_to_the_accumulated_tokens() {
    let mut scanner = Scanner::new(String::from("adc"));
    let first = scanner.scan();
    assert_eq!(first, vec![Token::Op(Op::ADC)]);
    let second = scanner.scan();
    assert_eq!(second, vec![Token::Op(Op::ADC), Token::Op(Op::ADC)]);
    assert!(!scanner.has_error);
}

#[test]
fn fresh_scanner_state() {
    let scanner = Scanner::new(String::from("adc"));
    assert_eq!(scanner.line, 1);
    assert!(scanner.tokens.is_empty());
    assert!(scanner.errors.is_empty());
    assert!(!scanner.has_error);
}

#[test]
fn keyword_lookup_reads_the_table() {
    assert_eq!(asm_lexer::scanner::keyword_lookup("adc"), Some(Op::ADC));
    assert_eq!(asm_lexer::scanner::keyword_lookup("lda"), Some(Op::LDA));
    assert_eq!(asm_lexer::scanner::keyword_lookup("nop"), None);
    assert_eq!(asm_lexer::scanner::keyword_lookup("ADC"), None);
    assert_eq!(asm_lexer::scanner::keyword_lookup(""), None);
}

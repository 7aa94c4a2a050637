use lox::scanner::{ScanError, build_scanner, scan, with_decimal};
use lox::token::{Token, TokenType};
use lox::build_lox;

fn kinds(tokens: &[Token]) -> Vec<TokenType> {
    tokens.iter().map(|t| t.token_type).collect()
}

fn chars(s: &str) -> Vec<char> {
    s.chars().collect()
}

#[test]
fn integer_literal_renders_with_one_decimal() {
    let (tokens, error) = scan("123".to_string());
    assert!(!error);
    assert_eq!(kinds(&tokens), vec![TokenType::NUMBER, TokenType::EOF]);
    assert_eq!(tokens[0].lexeme, "123");
    assert_eq!(tokens[0].literal, "123.0");
}

#[test]
fn fractional_literal_renders_as_written() {
    let (tokens, error) = scan("123.456".to_string());
    assert!(!error);
    assert_eq!(kinds(&tokens), vec![TokenType::NUMBER, TokenType::EOF]);
    assert_eq!(tokens[0].lexeme, "123.456");
    assert_eq!(tokens[0].literal, "123.456");
}

#[test]
fn trailing_dot_is_a_separate_token() {
    let (tokens, error) = scan("123.".to_string());
    assert!(!error);
    assert_eq!(kinds(&tokens), vec![TokenType::NUMBER, TokenType::DOT, TokenType::EOF]);
    assert_eq!(tokens[0].lexeme, "123");
    assert_eq!(tokens[0].literal, "123.0");
    assert_eq!(tokens[1].lexeme, ".");
}

#[test]
fn unterminated_string_sets_the_flag() {
    let mut scanner = build_scanner("\"abc".to_string());
    let tokens = scanner.scan_tokens();
    assert!(scanner.has_error);
    assert_eq!(kinds(&tokens), vec![TokenType::EOF]);
    assert_eq!(scanner.diagnostics().len(), 1);
    assert_eq!(scanner.diagnostics()[0].line, 1);
    assert_eq!(scanner.diagnostics()[0].error, ScanError::UnterminatedString);
}

#[test]
fn bang_equal_is_one_token() {
    let (tokens, _) = scan("!=".to_string());
    assert_eq!(kinds(&tokens), vec![TokenType::BANG_EQUAL, TokenType::EOF]);
    assert_eq!(tokens[0].lexeme, "!=");
}

#[test]
fn comment_is_skipped_and_counts_its_newline() {
    let (tokens, error) = scan("// comment\n123".to_string());
    assert!(!error);
    assert_eq!(kinds(&tokens), vec![TokenType::NUMBER, TokenType::EOF]);
    assert_eq!(tokens[0].lexeme, "123");
    assert_eq!(tokens[0].line, 2);
    assert_eq!(tokens[1].line, 2);
}

#[test]
fn keyword_and_prefixed_identifier() {
    let (tokens, _) = scan("and".to_string());
    assert_eq!(kinds(&tokens), vec![TokenType::AND, TokenType::EOF]);
    let (tokens, _) = scan("android".to_string());
    assert_eq!(kinds(&tokens), vec![TokenType::IDENTIFIER, TokenType::EOF]);
    assert_eq!(tokens[0].lexeme, "android");
}

#[test]
fn every_keyword_is_recognised() {
    let source = "and class else false for fun if nil or print return super this true var while";
    let (tokens, error) = scan(source.to_string());
    assert!(!error);
    assert_eq!(
        kinds(&tokens),
        vec![
            TokenType::AND,
            TokenType::CLASS,
            TokenType::ELSE,
            TokenType::FALSE,
            TokenType::FOR,
            TokenType::FUN,
            TokenType::IF,
            TokenType::NIL,
            TokenType::OR,
            TokenType::PRINT,
            TokenType::RETURN,
            TokenType::SUPER,
            TokenType::THIS,
            TokenType::TRUE,
            TokenType::VAR,
            TokenType::WHILE,
            TokenType::EOF,
        ]
    );
}

#[test]
fn keywords_are_case_sensitive() {
    let (tokens, _) = scan("And orchid _or or2".to_string());
    assert_eq!(
        kinds(&tokens),
        vec![
            TokenType::IDENTIFIER,
            TokenType::IDENTIFIER,
            TokenType::IDENTIFIER,
            TokenType::IDENTIFIER,
            TokenType::EOF
        ]
    );
}

#[test]
fn empty_source_gives_only_eof() {
    let (tokens, error) = scan(String::new());
    assert!(!error);
    assert_eq!(kinds(&tokens), vec![TokenType::EOF]);
    assert_eq!(tokens[0].lexeme, "");
    assert_eq!(tokens[0].line, 1);
}

#[test]
fn stream_ends_in_exactly_one_eof() {
    let (tokens, _) = scan("var x = (1 + 2) * 3; // done\n\"s\" @".to_string());
    let eofs = tokens.iter().filter(|t| t.token_type == TokenType::EOF).count();
    assert_eq!(eofs, 1);
    assert_eq!(tokens.last().unwrap().token_type, TokenType::EOF);
}

#[test]
fn token_lines_count_preceding_newlines() {
    let source = "a\n\nb \"x\ny\" c\n// z\nd";
    let (tokens, error) = scan(source.to_string());
    assert!(!error);
    let text = chars(source);
    let mut from = 0;
    for t in &tokens {
        let lexeme = chars(&t.lexeme);
        let mut p = from;
        while text[p..].len() < lexeme.len() || text[p..p + lexeme.len()] != lexeme[..] {
            p += 1;
        }
        let newlines = text[..p].iter().filter(|c| **c == '\n').count();
        assert_eq!(t.line, 1 + newlines);
        from = p + lexeme.len();
    }
    let lines: Vec<usize> = tokens.iter().map(|t| t.line).collect();
    assert_eq!(lines, vec![1, 3, 3, 4, 6, 6]);
}

#[test]
fn multi_line_string_keeps_its_first_line() {
    let (tokens, error) = scan("\"one\ntwo\" x".to_string());
    assert!(!error);
    assert_eq!(kinds(&tokens), vec![TokenType::STRING, TokenType::IDENTIFIER, TokenType::EOF]);
    assert_eq!(tokens[0].literal, "one\ntwo");
    assert_eq!(tokens[0].line, 1);
    assert_eq!(tokens[1].line, 2);
}

#[test]
fn scanning_twice_gives_the_same_result() {
    let source = "fun f(a) { return a >= 1.50 and \"q\"; } # \"open";
    let (first, first_error) = scan(source.to_string());
    let (second, second_error) = scan(source.to_string());
    assert_eq!(first_error, second_error);
    assert!(first_error);
    assert_eq!(first.len(), second.len());
    for (a, b) in first.iter().zip(second.iter()) {
        assert_eq!(a.token_type, b.token_type);
        assert_eq!(a.lexeme, b.lexeme);
        assert_eq!(a.literal, b.literal);
        assert_eq!(a.line, b.line);
    }
}

#[test]
fn operators_and_punctuation() {
    let (tokens, error) = scan("(){},.-+;*/ ! = == < <= > >=".to_string());
    assert!(!error);
    assert_eq!(
        kinds(&tokens),
        vec![
            TokenType::LEFT_PAREN,
            TokenType::RIGHT_PAREN,
            TokenType::LEFT_BRACE,
            TokenType::RIGHT_BRACE,
            TokenType::COMMA,
            TokenType::DOT,
            TokenType::MINUS,
            TokenType::PLUS,
            TokenType::SEMICOLON,
            TokenType::STAR,
            TokenType::SLASH,
            TokenType::BANG,
            TokenType::EQUAL,
            TokenType::EQUAL_EQUAL,
            TokenType::LESS,
            TokenType::LESS_EQUAL,
            TokenType::GREATER,
            TokenType::GREATER_EQUAL,
            TokenType::EOF,
        ]
    );
}

#[test]
fn unexpected_character_is_reported_and_scan_goes_on() {
    let mut scanner = build_scanner("1\n@ 2".to_string());
    let tokens = scanner.scan_tokens();
    assert!(scanner.has_error);
    assert_eq!(kinds(&tokens), vec![TokenType::NUMBER, TokenType::NUMBER, TokenType::EOF]);
    assert_eq!(scanner.diagnostics().len(), 1);
    assert_eq!(scanner.diagnostics()[0].line, 2);
    assert_eq!(scanner.diagnostics()[0].error, ScanError::UnexpectedCharacter('@'));
}

#[test]
fn every_error_is_reported() {
    let mut scanner = build_scanner("# $\n\"x".to_string());
    let _ = scanner.scan_tokens();
    let errors: Vec<(usize, ScanError)> =
        scanner.diagnostics().iter().map(|d| (d.line, d.error)).collect();
    assert_eq!(
        errors,
        vec![
            (1, ScanError::UnexpectedCharacter('#')),
            (1, ScanError::UnexpectedCharacter('$')),
            (2, ScanError::UnterminatedString),
        ]
    );
}

#[test]
fn string_literal_holds_its_content() {
    let (tokens, error) = scan("\"hi there\"".to_string());
    assert!(!error);
    assert_eq!(tokens[0].token_type, TokenType::STRING);
    assert_eq!(tokens[0].lexeme, "\"hi there\"");
    assert_eq!(tokens[0].literal, "hi there");
    assert_eq!(tokens[0].to_string(), "STRING \"hi there\" hi there");
}

#[test]
fn empty_string_literal() {
    let (tokens, _) = scan("\"\"".to_string());
    assert_eq!(tokens[0].token_type, TokenType::STRING);
    assert_eq!(tokens[0].literal, "");
    assert_eq!(tokens[0].to_string(), "STRING \"\" ");
}

#[test]
fn number_rendering() {
    let cases = [
        ("7", "7.0"),
        ("007", "7.0"),
        ("0", "0.0"),
        ("1.50", "1.5"),
        ("2.000", "2.0"),
        ("0.25", "0.25"),
        ("1.04", "1.04"),
        ("10.0", "10.0"),
    ];
    for (source, expected) in cases {
        let (tokens, error) = scan(source.to_string());
        assert!(!error);
        assert_eq!(tokens[0].token_type, TokenType::NUMBER);
        assert_eq!(tokens[0].lexeme, source);
        assert_eq!(tokens[0].literal, expected, "rendering of {}", source);
    }
}

#[test]
fn with_decimal_on_parts() {
    let src = chars("0120.4500");
    assert_eq!(with_decimal(&src, 0, 4, 9), "120.45");
    assert_eq!(with_decimal(&src, 0, 4, 4), "120.0");
    assert_eq!(with_decimal(&src, 1, 2, 2), "1.0");
}

#[test]
fn dump_lines() {
    let (tokens, _) = scan("x = 3;".to_string());
    let lines: Vec<String> = tokens.iter().map(|t| t.to_string()).collect();
    assert_eq!(
        lines,
        vec!["IDENTIFIER x null", "EQUAL = null", "NUMBER 3 3.0", "SEMICOLON ; null", "EOF  null"]
    );
}

#[test]
fn lox_run_sets_the_error_flag() {
    let mut lox = build_lox();
    assert!(!lox.had_error);
    let (lines, diagnostics) = lox.run("print 1;".to_string());
    assert_eq!(lines, vec!["PRINT print null", "NUMBER 1 1.0", "SEMICOLON ; null", "EOF  null"]);
    assert!(diagnostics.is_empty());
    assert!(!lox.had_error);
    let (lines, diagnostics) = lox.run("~".to_string());
    assert_eq!(lines, vec!["EOF  null"]);
    assert_eq!(diagnostics.len(), 1);
    assert!(lox.had_error);
    let _ = lox.run("ok".to_string());
    assert!(lox.had_error);
}

#[test]
fn comment_at_end_of_input() {
    let (tokens, error) = scan("1 // trailing".to_string());
    assert!(!error);
    assert_eq!(kinds(&tokens), vec![TokenType::NUMBER, TokenType::EOF]);
}

#[test]
fn non_ascii_outside_strings_is_unexpected() {
    let mut scanner = build_scanner("\"é\" é".to_string());
    let tokens = scanner.scan_tokens();
    assert_eq!(kinds(&tokens), vec![TokenType::STRING, TokenType::EOF]);
    assert_eq!(tokens[0].literal, "é");
    assert_eq!(scanner.diagnostics()[0].error, ScanError::UnexpectedCharacter('é'));
}

#[test]
fn whitespace_produces_no_tokens() {
    let (tokens, error) = scan(" \t\r\n".to_string());
    assert!(!error);
    assert_eq!(kinds(&tokens), vec![TokenType::EOF]);
    assert_eq!(tokens[0].line, 2);
}

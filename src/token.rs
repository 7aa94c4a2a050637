use vstd::prelude::*;
use vstd::string::*;

verus! {

/// The closed set of token kinds.
#[allow(non_camel_case_types)]
#[derive(Clone, Copy, Debug, PartialEq, Eq, Structural)]
pub enum TokenType {
    // Single-character tokens.
    LEFT_PAREN,
    RIGHT_PAREN,
    LEFT_BRACE,
    RIGHT_BRACE,
    COMMA,
    DOT,
    MINUS,
    PLUS,
    SEMICOLON,
    SLASH,
    STAR,
    // One or two character tokens.
    BANG,
    BANG_EQUAL,
    EQUAL,
    EQUAL_EQUAL,
    GREATER,
    GREATER_EQUAL,
    LESS,
    LESS_EQUAL,
    // Literals.
    IDENTIFIER,
    STRING,
    NUMBER,
    // Keywords.
    AND,
    CLASS,
    ELSE,
    FALSE,
    FUN,
    FOR,
    IF,
    NIL,
    OR,
    PRINT,
    RETURN,
    SUPER,
    THIS,
    TRUE,
    VAR,
    WHILE,
    EOF,
}

/// The name of a token kind, as the token dump writes it.
pub open spec fn kind_name(kind: TokenType) -> Seq<char> {
    match kind {
        TokenType::LEFT_PAREN => "LEFT_PAREN"@,
        TokenType::RIGHT_PAREN => "RIGHT_PAREN"@,
        TokenType::LEFT_BRACE => "LEFT_BRACE"@,
        TokenType::RIGHT_BRACE => "RIGHT_BRACE"@,
        TokenType::COMMA => "COMMA"@,
        TokenType::DOT => "DOT"@,
        TokenType::MINUS => "MINUS"@,
        TokenType::PLUS => "PLUS"@,
        TokenType::SEMICOLON => "SEMICOLON"@,
        TokenType::SLASH => "SLASH"@,
        TokenType::STAR => "STAR"@,
        TokenType::BANG => "BANG"@,
        TokenType::BANG_EQUAL => "BANG_EQUAL"@,
        TokenType::EQUAL => "EQUAL"@,
        TokenType::EQUAL_EQUAL => "EQUAL_EQUAL"@,
        TokenType::GREATER => "GREATER"@,
        TokenType::GREATER_EQUAL => "GREATER_EQUAL"@,
        TokenType::LESS => "LESS"@,
        TokenType::LESS_EQUAL => "LESS_EQUAL"@,
        TokenType::IDENTIFIER => "IDENTIFIER"@,
        TokenType::STRING => "STRING"@,
        TokenType::NUMBER => "NUMBER"@,
        TokenType::AND => "AND"@,
        TokenType::CLASS => "CLASS"@,
        TokenType::ELSE => "ELSE"@,
        TokenType::FALSE => "FALSE"@,
        TokenType::FUN => "FUN"@,
        TokenType::FOR => "FOR"@,
        TokenType::IF => "IF"@,
        TokenType::NIL => "NIL"@,
        TokenType::OR => "OR"@,
        TokenType::PRINT => "PRINT"@,
        TokenType::RETURN => "RETURN"@,
        TokenType::SUPER => "SUPER"@,
        TokenType::THIS => "THIS"@,
        TokenType::TRUE => "TRUE"@,
        TokenType::VAR => "VAR"@,
        TokenType::WHILE => "WHILE"@,
        TokenType::EOF => "EOF"@,
    }
}

/// Executable form of `kind_name`.
pub fn name_of(kind: TokenType) -> (r: &'static str)
    ensures
        r@ == kind_name(kind),
{
    match kind {
        TokenType::LEFT_PAREN => "LEFT_PAREN",
        TokenType::RIGHT_PAREN => "RIGHT_PAREN",
        TokenType::LEFT_BRACE => "LEFT_BRACE",
        TokenType::RIGHT_BRACE => "RIGHT_BRACE",
        TokenType::COMMA => "COMMA",
        TokenType::DOT => "DOT",
        TokenType::MINUS => "MINUS",
        TokenType::PLUS => "PLUS",
        TokenType::SEMICOLON => "SEMICOLON",
        TokenType::SLASH => "SLASH",
        TokenType::STAR => "STAR",
        TokenType::BANG => "BANG",
        TokenType::BANG_EQUAL => "BANG_EQUAL",
        TokenType::EQUAL => "EQUAL",
        TokenType::EQUAL_EQUAL => "EQUAL_EQUAL",
        TokenType::GREATER => "GREATER",
        TokenType::GREATER_EQUAL => "GREATER_EQUAL",
        TokenType::LESS => "LESS",
        TokenType::LESS_EQUAL => "LESS_EQUAL",
        TokenType::IDENTIFIER => "IDENTIFIER",
        TokenType::STRING => "STRING",
        TokenType::NUMBER => "NUMBER",
        TokenType::AND => "AND",
        TokenType::CLASS => "CLASS",
        TokenType::ELSE => "ELSE",
        TokenType::FALSE => "FALSE",
        TokenType::FUN => "FUN",
        TokenType::FOR => "FOR",
        TokenType::IF => "IF",
        TokenType::NIL => "NIL",
        TokenType::OR => "OR",
        TokenType::PRINT => "PRINT",
        TokenType::RETURN => "RETURN",
        TokenType::SUPER => "SUPER",
        TokenType::THIS => "THIS",
        TokenType::TRUE => "TRUE",
        TokenType::VAR => "VAR",
        TokenType::WHILE => "WHILE",
        TokenType::EOF => "EOF",
    }
}

/// What a token is, as the contracts see it.
pub struct TokenView {
    pub kind: TokenType,
    pub lexeme: Seq<char>,
    pub literal: Seq<char>,
    pub line: nat,
}

/// A scanned token. `literal` holds the decoded string content of a STRING
/// token and the rendered value of a NUMBER token; it is empty for every
/// other kind.
#[derive(Clone, Debug)]
pub struct Token {
    pub token_type: TokenType,
    pub lexeme: String,
    pub literal: String,
    pub line: usize,
}

impl View for Token {
    type V = TokenView;

    open spec fn view(&self) -> TokenView {
        TokenView {
            kind: self.token_type,
            lexeme: self.lexeme@,
            literal: self.literal@,
            line: self.line as nat,
        }
    }
}

/// The views of a sequence of tokens.
pub open spec fn token_views(ts: Seq<Token>) -> Seq<TokenView> {
    ts.map_values(|t: Token| t@)
}

/// Whether tokens of this kind carry a literal value.
pub open spec fn has_literal(kind: TokenType) -> bool {
    kind == TokenType::STRING || kind == TokenType::NUMBER
}

/// The dump line of a token: kind, lexeme and literal, or `null` for a kind
/// without a literal.
pub open spec fn dump_line(t: TokenView) -> Seq<char> {
    kind_name(t.kind) + " "@ + t.lexeme + " "@ + if has_literal(t.kind) {
        t.literal
    } else {
        "null"@
    }
}

impl Token {
    /// The token's line of the token dump.
    pub fn to_string(&self) -> (r: String)
        ensures
            r@ == dump_line(self@),
    {
        let mut r = name_of(self.token_type).to_owned();
        r.append(" ");
        r.append(self.lexeme.as_str());
        r.append(" ");
        if self.token_type == TokenType::STRING || self.token_type == TokenType::NUMBER {
            r.append(self.literal.as_str());
        } else {
            r.append("null");
        }
        r
    }
}

} // verus!

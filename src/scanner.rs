use vstd::prelude::*;
use crate::token::{Token, TokenType, TokenView, token_views};

verus! {

// ---------------------------------------------------------------------------
// Character classes
// ---------------------------------------------------------------------------

pub open spec fn digit(c: char) -> bool {
    '0' <= c && c <= '9'
}

pub open spec fn alpha(c: char) -> bool {
    ('a' <= c && c <= 'z') || ('A' <= c && c <= 'Z') || c == '_'
}

pub open spec fn alpha_numeric(c: char) -> bool {
    alpha(c) || digit(c)
}

/// Whether `c` is an ASCII digit.
pub fn is_digit(c: char) -> (r: bool)
    ensures
        r == digit(c),
{
    c >= '0' && c <= '9'
}

/// Whether `c` is an ASCII letter or `_`.
pub fn is_alpha(c: char) -> (r: bool)
    ensures
        r == alpha(c),
{
    (c >= 'a' && c <= 'z') || (c >= 'A' && c <= 'Z') || c == '_'
}

/// Whether `c` is an ASCII letter, an ASCII digit or `_`.
pub fn is_alpha_numeric(c: char) -> (r: bool)
    ensures
        r == alpha_numeric(c),
{
    is_alpha(c) || is_digit(c)
}

// ---------------------------------------------------------------------------
// The lexical grammar, over the characters of the source
// ---------------------------------------------------------------------------

/// Line number of position `pos`: one more than the newlines before it.
pub open spec fn line_at(src: Seq<char>, pos: int) -> nat {
    1 + newlines(src.take(pos))
}

pub open spec fn newlines(s: Seq<char>) -> nat
    decreases s.len(),
{
    if s.len() == 0 {
        0
    } else {
        newlines(s.drop_last()) + if s.last() == '\n' {
            1nat
        } else {
            0nat
        }
    }
}

/// Whether position `i` holds the character `c`.
pub open spec fn char_is(src: Seq<char>, i: int, c: char) -> bool {
    0 <= i < src.len() && src[i] == c
}

/// First position at or after `i` that does not hold a digit.
pub open spec fn digits_end(src: Seq<char>, i: int) -> int
    decreases src.len() - i,
{
    if 0 <= i < src.len() && digit(src[i]) {
        digits_end(src, i + 1)
    } else {
        i
    }
}

/// First position at or after `i` that holds neither a letter, a digit nor `_`.
pub open spec fn word_end(src: Seq<char>, i: int) -> int
    decreases src.len() - i,
{
    if 0 <= i < src.len() && alpha_numeric(src[i]) {
        word_end(src, i + 1)
    } else {
        i
    }
}

/// First position at or after `i` that holds a newline, or the end.
pub open spec fn line_end(src: Seq<char>, i: int) -> int
    decreases src.len() - i,
{
    if 0 <= i < src.len() && src[i] != '\n' {
        line_end(src, i + 1)
    } else {
        i
    }
}

/// First position at or after `i` that holds a double quote, or the end.
pub open spec fn quote_index(src: Seq<char>, i: int) -> int
    decreases src.len() - i,
{
    if 0 <= i < src.len() && src[i] != '"' {
        quote_index(src, i + 1)
    } else {
        i
    }
}

/// End of a number literal that starts at `start`: its digits, and a
/// fraction only where the point is followed by a digit.
pub open spec fn number_end(src: Seq<char>, start: int) -> int {
    let e = digits_end(src, start);
    if char_is(src, e, '.') && e + 1 < src.len() && digit(src[e + 1]) {
        digits_end(src, e + 1)
    } else {
        e
    }
}

/// The reserved word spelled by `s`, if any.
pub open spec fn keyword(s: Seq<char>) -> Option<TokenType> {
    if s == seq!['a', 'n', 'd'] {
        Some(TokenType::AND)
    } else if s == seq!['c', 'l', 'a', 's', 's'] {
        Some(TokenType::CLASS)
    } else if s == seq!['e', 'l', 's', 'e'] {
        Some(TokenType::ELSE)
    } else if s == seq!['f', 'a', 'l', 's', 'e'] {
        Some(TokenType::FALSE)
    } else if s == seq!['f', 'o', 'r'] {
        Some(TokenType::FOR)
    } else if s == seq!['f', 'u', 'n'] {
        Some(TokenType::FUN)
    } else if s == seq!['i', 'f'] {
        Some(TokenType::IF)
    } else if s == seq!['n', 'i', 'l'] {
        Some(TokenType::NIL)
    } else if s == seq!['o', 'r'] {
        Some(TokenType::OR)
    } else if s == seq!['p', 'r', 'i', 'n', 't'] {
        Some(TokenType::PRINT)
    } else if s == seq!['r', 'e', 't', 'u', 'r', 'n'] {
        Some(TokenType::RETURN)
    } else if s == seq!['s', 'u', 'p', 'e', 'r'] {
        Some(TokenType::SUPER)
    } else if s == seq!['t', 'h', 'i', 's'] {
        Some(TokenType::THIS)
    } else if s == seq!['t', 'r', 'u', 'e'] {
        Some(TokenType::TRUE)
    } else if s == seq!['v', 'a', 'r'] {
        Some(TokenType::VAR)
    } else if s == seq!['w', 'h', 'i', 'l', 'e'] {
        Some(TokenType::WHILE)
    } else {
        None
    }
}

/// The kind of a word: its keyword, or IDENTIFIER.
pub open spec fn word_kind(s: Seq<char>) -> TokenType {
    match keyword(s) {
        Some(k) => k,
        None => TokenType::IDENTIFIER,
    }
}


// ---------------------------------------------------------------------------
// Rendering of number literals
// ---------------------------------------------------------------------------

/// Digits without the leading zeros, keeping one digit at least.
pub open spec fn strip_leading_zeros(s: Seq<char>) -> Seq<char>
    decreases s.len(),
{
    if s.len() > 1 && s[0] == '0' {
        strip_leading_zeros(s.drop_first())
    } else {
        s
    }
}

/// Digits without the trailing zeros.
pub open spec fn strip_trailing_zeros(s: Seq<char>) -> Seq<char>
    decreases s.len(),
{
    if s.len() > 0 && s.last() == '0' {
        strip_trailing_zeros(s.drop_last())
    } else {
        s
    }
}

/// The decimal text of the number with integer digits `int_part` and
/// fraction digits `frac`: an integral value ends in `.0`, any other value
/// is written in its shortest decimal form.
pub open spec fn render_decimal(int_part: Seq<char>, frac: Seq<char>) -> Seq<char> {
    let i = strip_leading_zeros(int_part);
    let f = strip_trailing_zeros(frac);
    if f.len() == 0 {
        i + seq!['.', '0']
    } else {
        i + seq!['.'] + f
    }
}

/// The fraction digits of a number whose point (if any) stands at `point`.
pub open spec fn fraction_part(src: Seq<char>, point: int, end: int) -> Seq<char> {
    if point < end {
        src.subrange(point + 1, end)
    } else {
        seq![]
    }
}

/// Relies on String::push: the character is appended at the end.
#[verifier::external_body]
fn push_char(s: &mut String, c: char)
    ensures
        final(s)@ == old(s)@.push(c),
{
    s.push(c);
}

/// Appends `src[from, to)` to `s`.
fn push_range(s: &mut String, src: &Vec<char>, from: usize, to: usize)
    requires
        from <= to <= src@.len(),
    ensures
        final(s)@ == old(s)@ + src@.subrange(from as int, to as int),
{
    let mut i = from;
    while i < to
        invariant
            from <= i <= to <= src@.len(),
            s@ == old(s)@ + src@.subrange(from as int, i as int),
        decreases to - i,
    {
        push_char(s, src[i]);
        assert(src@.subrange(from as int, i + 1) =~= src@.subrange(from as int, i as int).push(
            src@[i as int],
        ));
        i += 1;
    }
}

/// The text of `src[from, to)`.
pub fn text_of(src: &Vec<char>, from: usize, to: usize) -> (r: String)
    requires
        from <= to <= src@.len(),
    ensures
        r@ == src@.subrange(from as int, to as int),
{
    let mut r = String::new();
    push_range(&mut r, src, from, to);
    assert(r@ =~= src@.subrange(from as int, to as int));
    r
}

/// Renders the number whose integer digits are `src[start, point)` and whose
/// fraction digits, where `point < end`, are `src[point + 1, end)`.
pub fn with_decimal(src: &Vec<char>, start: usize, point: usize, end: usize) -> (r: String)
    requires
        start <= point <= end <= src@.len(),
        point < end ==> point + 1 <= end,
    ensures
        r@ == render_decimal(
            src@.subrange(start as int, point as int),
            fraction_part(src@, point as int, end as int),
        ),
{
    let ghost s = src@;
    let mut i = start;
    while point - i > 1 && src[i] == '0'
        invariant
            start <= i <= point <= end <= s.len(),
            s == src@,
            strip_leading_zeros(s.subrange(i as int, point as int)) == strip_leading_zeros(
                s.subrange(start as int, point as int),
            ),
        decreases point - i,
    {
        assert(s.subrange(i as int, point as int).drop_first() =~= s.subrange(
            i + 1,
            point as int,
        ));
        i += 1;
    }
    assert(strip_leading_zeros(s.subrange(i as int, point as int)) == s.subrange(
        i as int,
        point as int,
    ));
    let mut r = String::new();
    push_range(&mut r, src, i, point);
    push_char(&mut r, '.');
    if point < end {
        let mut f = end;
        while f > point + 1 && src[f - 1] == '0'
            invariant
                point + 1 <= f <= end <= s.len(),
                s == src@,
                strip_trailing_zeros(s.subrange(point + 1, f as int)) == strip_trailing_zeros(
                    s.subrange(point + 1, end as int),
                ),
            decreases f,
        {
            assert(s.subrange(point + 1, f as int).drop_last() =~= s.subrange(
                point + 1,
                f - 1,
            ));
            f -= 1;
        }
        assert(strip_trailing_zeros(s.subrange(point + 1, f as int)) == s.subrange(
            point + 1,
            f as int,
        ));
        if f == point + 1 {
            push_char(&mut r, '0');
        } else {
            push_range(&mut r, src, point + 1, f);
        }
    } else {
        push_char(&mut r, '0');
    }
    assert(r@ =~= render_decimal(
        s.subrange(start as int, point as int),
        fraction_part(s, point as int, end as int),
    ));
    r
}

/// Whether `src[from, to)` spells `w`.
fn word_is(src: &Vec<char>, from: usize, to: usize, w: &[char]) -> (r: bool)
    requires
        from <= to <= src@.len(),
    ensures
        r == (src@.subrange(from as int, to as int) == w@),
{
    if to - from != w.len() {
        assert(src@.subrange(from as int, to as int).len() != w@.len());
        return false;
    }
    let mut k: usize = 0;
    while k < w.len()
        invariant
            k <= w@.len() == to - from,
            from <= to <= src@.len(),
            forall|j: int| 0 <= j < k ==> src@[from + j] == w@[j],
        decreases w@.len() - k,
    {
        if src[from + k] != w[k] {
            assert(src@.subrange(from as int, to as int)[k as int] != w@[k as int]);
            return false;
        }
        k += 1;
    }
    assert(src@.subrange(from as int, to as int) =~= w@);
    true
}

/// The reserved word spelled by `src[from, to)`, if any.
fn keyword_kind(src: &Vec<char>, from: usize, to: usize) -> (r: Option<TokenType>)
    requires
        from <= to <= src@.len(),
    ensures
        r == keyword(src@.subrange(from as int, to as int)),
{
    if word_is(src, from, to, &['a', 'n', 'd']) {
        Some(TokenType::AND)
    } else if word_is(src, from, to, &['c', 'l', 'a', 's', 's']) {
        Some(TokenType::CLASS)
    } else if word_is(src, from, to, &['e', 'l', 's', 'e']) {
        Some(TokenType::ELSE)
    } else if word_is(src, from, to, &['f', 'a', 'l', 's', 'e']) {
        Some(TokenType::FALSE)
    } else if word_is(src, from, to, &['f', 'o', 'r']) {
        Some(TokenType::FOR)
    } else if word_is(src, from, to, &['f', 'u', 'n']) {
        Some(TokenType::FUN)
    } else if word_is(src, from, to, &['i', 'f']) {
        Some(TokenType::IF)
    } else if word_is(src, from, to, &['n', 'i', 'l']) {
        Some(TokenType::NIL)
    } else if word_is(src, from, to, &['o', 'r']) {
        Some(TokenType::OR)
    } else if word_is(src, from, to, &['p', 'r', 'i', 'n', 't']) {
        Some(TokenType::PRINT)
    } else if word_is(src, from, to, &['r', 'e', 't', 'u', 'r', 'n']) {
        Some(TokenType::RETURN)
    } else if word_is(src, from, to, &['s', 'u', 'p', 'e', 'r']) {
        Some(TokenType::SUPER)
    } else if word_is(src, from, to, &['t', 'h', 'i', 's']) {
        Some(TokenType::THIS)
    } else if word_is(src, from, to, &['t', 'r', 'u', 'e']) {
        Some(TokenType::TRUE)
    } else if word_is(src, from, to, &['v', 'a', 'r']) {
        Some(TokenType::VAR)
    } else if word_is(src, from, to, &['w', 'h', 'i', 'l', 'e']) {
        Some(TokenType::WHILE)
    } else {
        None
    }
}

// ---------------------------------------------------------------------------
// One scanning step, and the whole pass
// ---------------------------------------------------------------------------

/// A recoverable lexical error.
#[derive(Clone, Copy, Debug, PartialEq, Eq, Structural)]
pub enum ScanError {
    /// A character that starts no token.
    UnexpectedCharacter(char),
    /// A string literal without its closing quote.
    UnterminatedString,
}

/// A lexical error and the line it was found on.
#[derive(Clone, Copy, Debug, PartialEq, Eq, Structural)]
pub struct Diagnostic {
    pub line: usize,
    pub error: ScanError,
}

/// What one step of the scan produces.
pub enum Step {
    Emit(TokenType),
    Silent,
    Fail(ScanError),
}

/// The kind of a one- or two-character operator: `two` where the next
/// character is `=`.
pub open spec fn with_equal(src: Seq<char>, n: int, one: TokenType, two: TokenType) -> (int, Step) {
    if char_is(src, n, '=') {
        (n + 1, Step::Emit(two))
    } else {
        (n, Step::Emit(one))
    }
}

/// The step that starts at `start`: where the next one starts, and what
/// this one produces.
pub open spec fn step(src: Seq<char>, start: int) -> (int, Step) {
    let c = src[start];
    let n = start + 1;
    match c {
        '(' => (n, Step::Emit(TokenType::LEFT_PAREN)),
        ')' => (n, Step::Emit(TokenType::RIGHT_PAREN)),
        '{' => (n, Step::Emit(TokenType::LEFT_BRACE)),
        '}' => (n, Step::Emit(TokenType::RIGHT_BRACE)),
        ',' => (n, Step::Emit(TokenType::COMMA)),
        '.' => (n, Step::Emit(TokenType::DOT)),
        '-' => (n, Step::Emit(TokenType::MINUS)),
        '+' => (n, Step::Emit(TokenType::PLUS)),
        ';' => (n, Step::Emit(TokenType::SEMICOLON)),
        '*' => (n, Step::Emit(TokenType::STAR)),
        '!' => with_equal(src, n, TokenType::BANG, TokenType::BANG_EQUAL),
        '=' => with_equal(src, n, TokenType::EQUAL, TokenType::EQUAL_EQUAL),
        '<' => with_equal(src, n, TokenType::LESS, TokenType::LESS_EQUAL),
        '>' => with_equal(src, n, TokenType::GREATER, TokenType::GREATER_EQUAL),
        '/' => if char_is(src, n, '/') {
            (line_end(src, n + 1), Step::Silent)
        } else {
            (n, Step::Emit(TokenType::SLASH))
        },
        ' ' | '\r' | '\t' | '\n' => (n, Step::Silent),
        '"' => {
            let q = quote_index(src, n);
            if q < src.len() {
                (q + 1, Step::Emit(TokenType::STRING))
            } else {
                (q, Step::Fail(ScanError::UnterminatedString))
            }
        },
        _ => if digit(c) {
            (number_end(src, start), Step::Emit(TokenType::NUMBER))
        } else if alpha(c) {
            let e = word_end(src, n);
            (e, Step::Emit(word_kind(src.subrange(start, e))))
        } else {
            (n, Step::Fail(ScanError::UnexpectedCharacter(c)))
        },
    }
}

/// The literal of a token of kind `kind` over `src[start, end)`.
pub open spec fn literal_of(src: Seq<char>, start: int, end: int, kind: TokenType) -> Seq<char> {
    if kind == TokenType::STRING {
        src.subrange(start + 1, end - 1)
    } else if kind == TokenType::NUMBER {
        let point = digits_end(src, start);
        render_decimal(src.subrange(start, point), fraction_part(src, point, end))
    } else {
        seq![]
    }
}

/// The token of kind `kind` over `src[start, end)`.
pub open spec fn token_at(src: Seq<char>, start: int, end: int, kind: TokenType) -> TokenView {
    TokenView {
        kind,
        lexeme: src.subrange(start, end),
        literal: literal_of(src, start, end, kind),
        line: line_at(src, start),
    }
}

/// The tokens and the errors of the scan from `pos` to the end, without
/// the end-of-input token.
pub open spec fn scan_from(src: Seq<char>, pos: int) -> (Seq<TokenView>, Seq<(nat, ScanError)>)
    decreases src.len() - pos,
{
    if pos < 0 || pos >= src.len() {
        (seq![], seq![])
    } else {
        let (end, s) = step(src, pos);
        if end <= pos || end > src.len() {
            (seq![], seq![])
        } else {
            let rest = scan_from(src, end);
            match s {
                Step::Emit(kind) => (seq![token_at(src, pos, end, kind)] + rest.0, rest.1),
                Step::Silent => rest,
                Step::Fail(e) => (rest.0, seq![(line_at(src, end), e)] + rest.1),
            }
        }
    }
}

/// The end-of-input token.
pub open spec fn eof_token(src: Seq<char>) -> TokenView {
    TokenView {
        kind: TokenType::EOF,
        lexeme: seq![],
        literal: seq![],
        line: line_at(src, src.len() as int),
    }
}

/// The token stream of `src`: every token, then the end-of-input token.
pub open spec fn scanned(src: Seq<char>) -> Seq<TokenView> {
    scan_from(src, 0).0.push(eof_token(src))
}

/// The lexical errors of `src`, each with its line, in order.
pub open spec fn scan_errors(src: Seq<char>) -> Seq<(nat, ScanError)> {
    scan_from(src, 0).1
}

impl View for Diagnostic {
    type V = (nat, ScanError);

    open spec fn view(&self) -> (nat, ScanError) {
        (self.line as nat, self.error)
    }
}

/// The views of a sequence of diagnostics.
pub open spec fn diagnostic_views(ds: Seq<Diagnostic>) -> Seq<(nat, ScanError)> {
    ds.map_values(|d: Diagnostic| d@)
}

// ---------------------------------------------------------------------------
// Lemmas on line numbers
// ---------------------------------------------------------------------------

/// Passing one character raises the line number by one exactly when that
/// character is a newline.
pub proof fn lemma_line_next(src: Seq<char>, i: int)
    requires
        0 <= i < src.len(),
    ensures
        line_at(src, i + 1) == line_at(src, i) + if src[i] == '\n' {
            1nat
        } else {
            0nat
        },
{
    assert(src.take(i + 1).drop_last() =~= src.take(i));
}

/// A position's line number is at most one more than the position.
pub proof fn lemma_line_bound(src: Seq<char>, i: int)
    requires
        0 <= i <= src.len(),
    ensures
        line_at(src, i) <= i + 1,
    decreases i,
{
    if i > 0 {
        lemma_line_bound(src, i - 1);
        lemma_line_next(src, i - 1);
    } else {
        assert(src.take(0).len() == 0);
    }
}

// ---------------------------------------------------------------------------
// The scanner
// ---------------------------------------------------------------------------

/// Scans one source text into tokens, in one pass.
pub struct Scanner {
    source: Vec<char>,
    tokens: Vec<Token>,
    diagnostics: Vec<Diagnostic>,
    start: usize,
    current: usize,
    line: usize,
    start_line: usize,
    pub has_error: bool,
}

/// The characters of `s`, in order.
fn chars_of(s: &String) -> (r: Vec<char>)
    ensures
        r@ == s@,
{
    let mut v: Vec<char> = Vec::new();
    for c in it: s.as_str().chars()
        invariant
            v@ == it.seq().take(it.index() as int),
    {
        v.push(c);
    }
    v
}

/// A scanner over `source`, before its scan.
pub fn build_scanner(source: String) -> (s: Scanner)
    ensures
        s.source_view() == source@,
        s.is_fresh(),
{
    Scanner {
        source: chars_of(&source),
        tokens: Vec::new(),
        diagnostics: Vec::new(),
        start: 0,
        current: 0,
        line: 1,
        start_line: 1,
        has_error: false,
    }
}

impl Scanner {
    /// The characters of the source text.
    pub closed spec fn source_view(&self) -> Seq<char> {
        self.source@
    }

    /// The errors found so far, each with its line.
    pub closed spec fn diagnostics_view(&self) -> Seq<(nat, ScanError)> {
        diagnostic_views(self.diagnostics@)
    }

    /// The sticky error flag.
    pub closed spec fn error_flag(&self) -> bool {
        self.has_error
    }

    /// Nothing has been scanned yet.
    pub closed spec fn is_fresh(&self) -> bool {
        &&& self.tokens@.len() == 0
        &&& self.diagnostics@.len() == 0
        &&& self.start == 0
        &&& self.current == 0
        &&& self.line == 1
        &&& self.start_line == 1
        &&& !self.has_error
    }

    /// The cursor stands inside the step that began at `start`, and the
    /// line counters agree with the source.
    spec fn in_step(&self) -> bool {
        &&& self.start < self.current <= self.source@.len() < usize::MAX
        &&& self.line == line_at(self.source@, self.current as int)
        &&& self.start_line == line_at(self.source@, self.start as int)
    }

    /// Everything but the cursor is as in `o`.
    spec fn same_but_cursor(&self, o: &Scanner) -> bool {
        &&& self.source@ == o.source@
        &&& self.tokens@ == o.tokens@
        &&& self.diagnostics@ == o.diagnostics@
        &&& self.start == o.start
        &&& self.line == o.line
        &&& self.start_line == o.start_line
        &&& self.has_error == o.has_error
    }

    /// Whether the cursor has reached the end of the source.
    fn is_at_end(&self) -> (r: bool)
        ensures
            r == (self.current >= self.source@.len()),
    {
        self.current >= self.source.len()
    }

    /// Consumes one character.
    fn advance(&mut self)
        requires
            old(self).current < old(self).source@.len() < usize::MAX,
        ensures
            final(self).same_but_cursor(old(self)),
            final(self).current == old(self).current + 1,
    {
        self.current += 1;
    }

    /// Consumes the next character where it is `expected`.
    fn match_char(&mut self, expected: char) -> (r: bool)
        requires
            old(self).source@.len() < usize::MAX,
        ensures
            final(self).same_but_cursor(old(self)),
            r == char_is(old(self).source@, old(self).current as int, expected),
            final(self).current == old(self).current + if r {
                1usize
            } else {
                0usize
            },
    {
        if self.is_at_end() {
            return false;
        }
        if self.source[self.current] != expected {
            return false;
        }
        self.current += 1;
        true
    }

    /// The next character, or `\0` at the end.
    fn peek(&self) -> (r: char)
        ensures
            r == if self.current < self.source@.len() {
                self.source@[self.current as int]
            } else {
                '\0'
            },
    {
        if self.is_at_end() {
            return '\0';
        }
        self.source[self.current]
    }

    /// The character after the next one, or `\0` past the end.
    fn peek_next(&self) -> (r: char)
        requires
            self.current < self.source@.len(),
        ensures
            r == if self.current + 1 < self.source@.len() {
                self.source@[self.current + 1]
            } else {
                '\0'
            },
    {
        if self.source.len() - self.current <= 1 {
            return '\0';
        }
        self.source[self.current + 1]
    }

    /// Emits a token without a literal over `source[start, current)`.
    fn add_token(&mut self, token_type: TokenType)
        requires
            old(self).start <= old(self).current <= old(self).source@.len(),
        ensures
            final(self).tokens@ == old(self).tokens@.push(
                Token {
                    token_type,
                    lexeme: final(self).tokens@.last().lexeme,
                    literal: final(self).tokens@.last().literal,
                    line: old(self).start_line,
                },
            ),
            final(self).tokens@.last().lexeme@ == old(self).source@.subrange(
                old(self).start as int,
                old(self).current as int,
            ),
            final(self).tokens@.last().literal@ == Seq::<char>::empty(),
            final(self).source@ == old(self).source@,
            final(self).diagnostics@ == old(self).diagnostics@,
            final(self).start == old(self).start,
            final(self).current == old(self).current,
            final(self).line == old(self).line,
            final(self).start_line == old(self).start_line,
            final(self).has_error == old(self).has_error,
    {
        self.add_token_literal(token_type, String::new());
    }

    /// Emits a token with `literal` over `source[start, current)`.
    fn add_token_literal(&mut self, token_type: TokenType, literal: String)
        requires
            old(self).start <= old(self).current <= old(self).source@.len(),
        ensures
            final(self).tokens@ == old(self).tokens@.push(
                Token {
                    token_type,
                    lexeme: final(self).tokens@.last().lexeme,
                    literal: final(self).tokens@.last().literal,
                    line: old(self).start_line,
                },
            ),
            final(self).tokens@.last().lexeme@ == old(self).source@.subrange(
                old(self).start as int,
                old(self).current as int,
            ),
            final(self).tokens@.last().literal@ == literal@,
            final(self).source@ == old(self).source@,
            final(self).diagnostics@ == old(self).diagnostics@,
            final(self).start == old(self).start,
            final(self).current == old(self).current,
            final(self).line == old(self).line,
            final(self).start_line == old(self).start_line,
            final(self).has_error == old(self).has_error,
    {
        let lexeme = text_of(&self.source, self.start, self.current);
        let token = Token { token_type, lexeme, literal, line: self.start_line };
        self.tokens.push(token);
    }
    /// `self` holds the tokens of `o` and one more, whose view is `t`.
    spec fn emitted(&self, o: &Scanner, t: TokenView) -> bool {
        &&& self.tokens@.len() == o.tokens@.len() + 1
        &&& self.tokens@.drop_last() == o.tokens@
        &&& self.tokens@.last()@ == t
    }

    /// Scans a string literal whose opening quote was consumed.
    fn string(&mut self)
        requires
            old(self).in_step(),
            old(self).current == old(self).start + 1,
            old(self).source@[old(self).start as int] == '"',
        ensures
            final(self).source@ == old(self).source@,
            final(self).start == old(self).start,
            final(self).start_line == old(self).start_line,
            old(self).current <= final(self).current <= old(self).source@.len(),
            final(self).line == line_at(old(self).source@, final(self).current as int),
            ({
                let src = old(self).source@;
                let q = quote_index(src, old(self).current as int);
                if q < src.len() {
                    &&& final(self).current == q + 1
                    &&& final(self).emitted(
                        old(self),
                        token_at(src, old(self).start as int, q + 1, TokenType::STRING),
                    )
                    &&& final(self).diagnostics@ == old(self).diagnostics@
                    &&& final(self).has_error == old(self).has_error
                } else {
                    &&& final(self).current == q
                    &&& final(self).tokens@ == old(self).tokens@
                    &&& final(self).diagnostics@ == old(self).diagnostics@.push(
                        Diagnostic { line: final(self).line, error: ScanError::UnterminatedString },
                    )
                    &&& final(self).has_error
                }
            }),
    {
        let ghost src = self.source@;
        while self.peek() != '"' && !self.is_at_end()
            invariant
                self.source@ == src,
                src.len() < usize::MAX,
                self.start + 1 <= self.current <= src.len(),
                self.line == line_at(src, self.current as int),
                quote_index(src, self.current as int) == quote_index(src, self.start + 1),
                self.tokens@ == old(self).tokens@,
                self.diagnostics@ == old(self).diagnostics@,
                self.has_error == old(self).has_error,
                self.start == old(self).start,
                self.start_line == old(self).start_line,
            decreases src.len() - self.current,
        {
            proof {
                lemma_line_next(src, self.current as int);
                lemma_line_bound(src, self.current + 1);
            }
            if self.peek() == '\n' {
                self.line += 1;
            }
            self.advance();
        }
        if self.is_at_end() {
            self.diagnostics.push(Diagnostic { line: self.line, error: ScanError::UnterminatedString });
            self.has_error = true;
            return;
        }
        self.advance();
        proof {
            lemma_line_next(src, self.current - 1);
        }
        let value = text_of(&self.source, self.start + 1, self.current - 1);
        self.add_token_literal(TokenType::STRING, value);
        assert(self.tokens@.drop_last() =~= old(self).tokens@);
    }

    /// Scans a number literal whose first digit was consumed.
    fn number(&mut self)
        requires
            old(self).in_step(),
            old(self).current == old(self).start + 1,
            digit(old(self).source@[old(self).start as int]),
        ensures
            final(self).source@ == old(self).source@,
            final(self).start == old(self).start,
            final(self).start_line == old(self).start_line,
            old(self).current <= final(self).current <= old(self).source@.len(),
            final(self).current == number_end(old(self).source@, old(self).start as int),
            final(self).line == line_at(old(self).source@, final(self).current as int),
            final(self).emitted(
                old(self),
                token_at(
                    old(self).source@,
                    old(self).start as int,
                    final(self).current as int,
                    TokenType::NUMBER,
                ),
            ),
            final(self).diagnostics@ == old(self).diagnostics@,
            final(self).has_error == old(self).has_error,
    {
        let ghost src = self.source@;
        while is_digit(self.peek())
            invariant
                self.source@ == src,
                src.len() < usize::MAX,
                self.start + 1 <= self.current <= src.len(),
                self.line == line_at(src, self.current as int),
                digits_end(src, self.current as int) == digits_end(src, self.start as int),
                self.same_but_cursor(old(self)),
            decreases src.len() - self.current,
        {
            proof {
                lemma_line_next(src, self.current as int);
            }
            self.advance();
        }
        let point = self.current;
        if self.peek() == '.' && is_digit(self.peek_next()) {
            self.advance();
            proof {
                lemma_line_next(src, point as int);
            }
            while is_digit(self.peek())
                invariant
                    self.source@ == src,
                    src.len() < usize::MAX,
                    point + 1 <= self.current <= src.len(),
                    self.line == line_at(src, self.current as int),
                    digits_end(src, self.current as int) == digits_end(src, point + 1),
                    self.same_but_cursor(old(self)),
                decreases src.len() - self.current,
            {
                proof {
                    lemma_line_next(src, self.current as int);
                }
                self.advance();
            }
        }
        let literal = with_decimal(&self.source, self.start, point, self.current);
        self.add_token_literal(TokenType::NUMBER, literal);
        assert(self.tokens@.drop_last() =~= old(self).tokens@);
    }

    /// Scans an identifier or a keyword whose first character was consumed.
    fn identifier(&mut self)
        requires
            old(self).in_step(),
            old(self).current == old(self).start + 1,
            alpha(old(self).source@[old(self).start as int]),
        ensures
            final(self).source@ == old(self).source@,
            final(self).start == old(self).start,
            final(self).start_line == old(self).start_line,
            old(self).current <= final(self).current <= old(self).source@.len(),
            final(self).current == word_end(old(self).source@, old(self).current as int),
            final(self).line == line_at(old(self).source@, final(self).current as int),
            final(self).emitted(
                old(self),
                token_at(
                    old(self).source@,
                    old(self).start as int,
                    final(self).current as int,
                    word_kind(
                        old(self).source@.subrange(
                            old(self).start as int,
                            final(self).current as int,
                        ),
                    ),
                ),
            ),
            final(self).diagnostics@ == old(self).diagnostics@,
            final(self).has_error == old(self).has_error,
    {
        let ghost src = self.source@;
        while is_alpha_numeric(self.peek())
            invariant
                self.source@ == src,
                src.len() < usize::MAX,
                self.start + 1 <= self.current <= src.len(),
                self.line == line_at(src, self.current as int),
                word_end(src, self.current as int) == word_end(src, self.start + 1),
                self.same_but_cursor(old(self)),
            decreases src.len() - self.current,
        {
            proof {
                lemma_line_next(src, self.current as int);
            }
            self.advance();
        }
        let token_type = match keyword_kind(&self.source, self.start, self.current) {
            Some(k) => k,
            None => TokenType::IDENTIFIER,
        };
        self.add_token(token_type);
        assert(self.tokens@.drop_last() =~= old(self).tokens@);
    }
    /// Whether a lexical error was found.
    pub fn has_error(&self) -> (r: bool)
        ensures
            r == self.error_flag(),
    {
        self.has_error
    }

    /// The lexical errors found, each with its line.
    pub fn diagnostics(&self) -> (r: &Vec<Diagnostic>)
        ensures
            diagnostic_views(r@) == self.diagnostics_view(),
    {
        &self.diagnostics
    }

    /// Scans the token, comment, blank or error that starts at `current`.
    fn scan_token(&mut self)
        requires
            old(self).start == old(self).current < old(self).source@.len() < usize::MAX,
            old(self).line == line_at(old(self).source@, old(self).current as int),
            old(self).start_line == old(self).line,
        ensures
            final(self).source@ == old(self).source@,
            final(self).start == old(self).start,
            ({
                let src = old(self).source@;
                let (end, s) = step(src, old(self).current as int);
                &&& final(self).current == end
                &&& old(self).current < end <= src.len()
                &&& final(self).line == line_at(src, end)
                &&& match s {
                    Step::Emit(kind) => {
                        &&& final(self).emitted(
                            old(self),
                            token_at(src, old(self).start as int, end, kind),
                        )
                        &&& final(self).diagnostics@ == old(self).diagnostics@
                        &&& final(self).has_error == old(self).has_error
                    },
                    Step::Silent => {
                        &&& final(self).tokens@ == old(self).tokens@
                        &&& final(self).diagnostics@ == old(self).diagnostics@
                        &&& final(self).has_error == old(self).has_error
                    },
                    Step::Fail(e) => {
                        &&& final(self).tokens@ == old(self).tokens@
                        &&& final(self).diagnostics@ == old(self).diagnostics@.push(
                            Diagnostic { line: final(self).line, error: e },
                        )
                        &&& final(self).has_error
                    },
                }
            }),
    {
        let ghost src = self.source@;
        let c = self.source[self.current];
        self.advance();
        proof {
            lemma_line_next(src, self.start as int);
            lemma_line_bound(src, self.start as int);
            if self.start + 1 < src.len() {
                lemma_line_next(src, self.start + 1);
            }
        }
        match c {
            '(' => self.add_token(TokenType::LEFT_PAREN),
            ')' => self.add_token(TokenType::RIGHT_PAREN),
            '{' => self.add_token(TokenType::LEFT_BRACE),
            '}' => self.add_token(TokenType::RIGHT_BRACE),
            ',' => self.add_token(TokenType::COMMA),
            '.' => self.add_token(TokenType::DOT),
            '-' => self.add_token(TokenType::MINUS),
            '+' => self.add_token(TokenType::PLUS),
            ';' => self.add_token(TokenType::SEMICOLON),
            '*' => self.add_token(TokenType::STAR),
            '!' => {
                if self.match_char('=') {
                    self.add_token(TokenType::BANG_EQUAL);
                } else {
                    self.add_token(TokenType::BANG);
                }
            },
            '=' => {
                if self.match_char('=') {
                    self.add_token(TokenType::EQUAL_EQUAL);
                } else {
                    self.add_token(TokenType::EQUAL);
                }
            },
            '<' => {
                if self.match_char('=') {
                    self.add_token(TokenType::LESS_EQUAL);
                } else {
                    self.add_token(TokenType::LESS);
                }
            },
            '>' => {
                if self.match_char('=') {
                    self.add_token(TokenType::GREATER_EQUAL);
                } else {
                    self.add_token(TokenType::GREATER);
                }
            },
            '/' => {
                if self.match_char('/') {
                    while self.peek() != '\n' && !self.is_at_end()
                        invariant
                            self.source@ == src,
                            src.len() < usize::MAX,
                            self.start + 2 <= self.current <= src.len(),
                            self.line == line_at(src, self.current as int),
                            line_end(src, self.current as int) == line_end(src, self.start + 2),
                            self.same_but_cursor(old(self)),
                        decreases src.len() - self.current,
                    {
                        proof {
                            lemma_line_next(src, self.current as int);
                        }
                        self.advance();
                    }
                } else {
                    self.add_token(TokenType::SLASH);
                }
            },
            ' ' | '\r' | '\t' => {},
            '\n' => {
                self.line += 1;
            },
            '"' => {
                self.string();
            },
            _ => {
                if is_digit(c) {
                    self.number();
                } else if is_alpha(c) {
                    self.identifier();
                } else {
                    self.diagnostics.push(
                        Diagnostic { line: self.line, error: ScanError::UnexpectedCharacter(c) },
                    );
                    self.has_error = true;
                }
            },
        }
        proof {
            if self.tokens@.len() == old(self).tokens@.len() + 1 {
                assert(self.tokens@.drop_last() =~= old(self).tokens@);
            }
        }
    }

    /// Scans the whole source: every token, then the end-of-input token.
    /// The scanner's error flag then tells whether a lexical error was
    /// found, and its diagnostics list each of them with its line.
    pub fn scan_tokens(&mut self) -> (r: Vec<Token>)
        requires
            old(self).is_fresh(),
            old(self).source_view().len() < usize::MAX,
        ensures
            token_views(r@) == scanned(old(self).source_view()),
            final(self).source_view() == old(self).source_view(),
            final(self).diagnostics_view() == scan_errors(old(self).source_view()),
            final(self).error_flag() == (scan_errors(old(self).source_view()).len() > 0),
    {
        let ghost src = self.source@;
        assert(src.take(0) =~= Seq::<char>::empty());
        assert(token_views(self.tokens@) =~= Seq::<TokenView>::empty());
        assert(diagnostic_views(self.diagnostics@) =~= Seq::<(nat, ScanError)>::empty());
        while !self.is_at_end()
            invariant
                self.source@ == src,
                src.len() < usize::MAX,
                self.current <= src.len(),
                self.line == line_at(src, self.current as int),
                token_views(self.tokens@) + scan_from(src, self.current as int).0 == scan_from(
                    src,
                    0,
                ).0,
                diagnostic_views(self.diagnostics@) + scan_from(src, self.current as int).1
                    == scan_from(src, 0).1,
                self.has_error == (self.diagnostics@.len() > 0),
            decreases src.len() - self.current,
        {
            self.start = self.current;
            self.start_line = self.line;
            let ghost pos = self.current as int;
            let ghost toks = self.tokens@;
            let ghost diags = self.diagnostics@;
            self.scan_token();
            proof {
                let (end, s) = step(src, pos);
                let rest = scan_from(src, end);
                match s {
                    Step::Emit(kind) => {
                        assert(self.tokens@ =~= toks.push(self.tokens@.last()));
                        assert(token_views(self.tokens@) =~= token_views(toks).push(
                            token_at(src, pos, end, kind),
                        ));
                        assert(token_views(self.tokens@) + rest.0 =~= token_views(toks) + (seq![
                            token_at(src, pos, end, kind),
                        ] + rest.0));
                    },
                    Step::Silent => {},
                    Step::Fail(e) => {
                        assert(diagnostic_views(self.diagnostics@) =~= diagnostic_views(
                            diags,
                        ).push((line_at(src, end), e)));
                        assert(diagnostic_views(self.diagnostics@) + rest.1 =~= diagnostic_views(
                            diags,
                        ) + (seq![(line_at(src, end), e)] + rest.1));
                    },
                }
            }
        }
        assert(scan_from(src, self.current as int).0 =~= Seq::<TokenView>::empty());
        assert(token_views(self.tokens@) =~= scan_from(src, 0).0);
        assert(diagnostic_views(self.diagnostics@) =~= scan_from(src, 0).1);
        let ghost toks = self.tokens@;
        let eof = Token {
            token_type: TokenType::EOF,
            lexeme: String::new(),
            literal: String::new(),
            line: self.line,
        };
        self.tokens.push(eof);
        assert(token_views(self.tokens@) =~= token_views(toks).push(eof_token(src)));
        let mut out: Vec<Token> = Vec::new();
        std::mem::swap(&mut out, &mut self.tokens);
        out
    }
}

/// Scans `source` with a fresh scanner: its tokens, ending in the
/// end-of-input token, and whether a lexical error was found.
pub fn scan(source: String) -> (r: (Vec<Token>, bool))
    requires
        source@.len() < usize::MAX,
    ensures
        token_views(r.0@) == scanned(source@),
        r.1 == (scan_errors(source@).len() > 0),
{
    let mut scanner = build_scanner(source);
    let tokens = scanner.scan_tokens();
    (tokens, scanner.has_error())
}

// ---------------------------------------------------------------------------
// Laws of the scan
// ---------------------------------------------------------------------------

/// No token of the scan from `pos` is an end-of-input token.
proof fn lemma_no_eof_from(src: Seq<char>, pos: int)
    ensures
        forall|k: int|
            0 <= k < scan_from(src, pos).0.len() ==> #[trigger] scan_from(src, pos).0[k].kind
                != TokenType::EOF,
    decreases src.len() - pos,
{
    if 0 <= pos < src.len() {
        let (end, s) = step(src, pos);
        if pos < end <= src.len() {
            lemma_no_eof_from(src, end);
        }
    }
}

/// The token stream ends in exactly one end-of-input token: the last token
/// is one, and no other token is.
pub proof fn lemma_single_eof(src: Seq<char>)
    ensures
        scanned(src).len() >= 1,
        scanned(src).last().kind == TokenType::EOF,
        forall|k: int|
            0 <= k < scanned(src).len() - 1 ==> #[trigger] scanned(src)[k].kind != TokenType::EOF,
{
    lemma_no_eof_from(src, 0);
    assert forall|k: int| 0 <= k < scanned(src).len() - 1 implies #[trigger] scanned(
        src,
    )[k].kind != TokenType::EOF by {
        assert(scanned(src)[k] == scan_from(src, 0).0[k]);
    }
}

/// The lexeme of `t` stands in `src` at position `p`, and the line of `t`
/// is one more than the number of newlines before `p`.
pub open spec fn located(src: Seq<char>, t: TokenView, p: int) -> bool {
    &&& 0 <= p
    &&& p + t.lexeme.len() <= src.len()
    &&& t.lexeme == src.subrange(p, p + t.lexeme.len())
    &&& t.line == 1 + newlines(src.take(p))
}

/// Each token of `ts` stands at the matching position of `starts`, and each
/// ends before the next one begins.
pub open spec fn placed(src: Seq<char>, ts: Seq<TokenView>, starts: Seq<int>) -> bool {
    &&& starts.len() == ts.len()
    &&& forall|k: int| 0 <= k < ts.len() ==> #[trigger] located(src, ts[k], starts[k])
    &&& forall|k: int|
        0 <= k < ts.len() - 1 ==> starts[k] + ts[k].lexeme.len() <= #[trigger] starts[k + 1]
}

/// Where the tokens of the scan from `pos` begin.
spec fn starts_from(src: Seq<char>, pos: int) -> Seq<int>
    decreases src.len() - pos,
{
    if pos < 0 || pos >= src.len() {
        seq![]
    } else {
        let (end, s) = step(src, pos);
        if end <= pos || end > src.len() {
            seq![]
        } else {
            let rest = starts_from(src, end);
            match s {
                Step::Emit(_) => seq![pos] + rest,
                _ => rest,
            }
        }
    }
}

proof fn lemma_placed_from(src: Seq<char>, pos: int)
    requires
        0 <= pos,
    ensures
        placed(src, scan_from(src, pos).0, starts_from(src, pos)),
        forall|k: int|
            0 <= k < starts_from(src, pos).len() ==> pos <= #[trigger] starts_from(src, pos)[k],
    decreases src.len() - pos,
{
    if pos < src.len() {
        let (end, s) = step(src, pos);
        if pos < end <= src.len() {
            lemma_placed_from(src, end);
            let rest = scan_from(src, end).0;
            let rs = starts_from(src, end);
            if let Step::Emit(kind) = s {
                let t = token_at(src, pos, end, kind);
                let ts = scan_from(src, pos).0;
                let st = starts_from(src, pos);
                assert(ts == seq![t] + rest);
                assert(st == seq![pos] + rs);
                assert(located(src, t, pos));
                assert forall|k: int| 0 <= k < ts.len() implies #[trigger] located(
                    src,
                    ts[k],
                    st[k],
                ) by {
                    if k > 0 {
                        assert(ts[k] == rest[k - 1]);
                        assert(st[k] == rs[k - 1]);
                    }
                }
                assert forall|k: int| 0 <= k < ts.len() - 1 implies st[k] + ts[k].lexeme.len()
                    <= #[trigger] st[k + 1] by {
                    if k > 0 {
                        assert(ts[k] == rest[k - 1]);
                        assert(st[k] == rs[k - 1]);
                        assert(st[k + 1] == rs[k]);
                        assert(k - 1 < rest.len() - 1);
                        assert(rs[k - 1] + rest[k - 1].lexeme.len() <= rs[(k - 1) + 1]);
                    } else {
                        assert(ts[0] == t);
                        assert(t.lexeme.len() == end - pos);
                        assert(rs.len() == rest.len());
                        assert(end <= rs[0]);
                        assert(st[1] == rs[0]);
                    }
                }
            }
        }
    }
}

/// Every token, the end-of-input token included, stands at a position of
/// the source whose text is its lexeme, the tokens follow one another in
/// the source without overlap, and each token's line is one more than the
/// number of newlines before its first character.
pub proof fn lemma_token_lines(src: Seq<char>)
    ensures
        exists|starts: Seq<int>| placed(src, scanned(src), starts),
{
    lemma_placed_from(src, 0);
    let ts = scan_from(src, 0).0;
    let st = starts_from(src, 0);
    let all = st.push(src.len() as int);
    let eof = eof_token(src);
    assert(src.subrange(src.len() as int, src.len() as int) =~= Seq::<char>::empty());
    assert(located(src, eof, src.len() as int));
    assert forall|k: int| 0 <= k < scanned(src).len() implies #[trigger] located(
        src,
        scanned(src)[k],
        all[k],
    ) by {
        if k < ts.len() {
            assert(scanned(src)[k] == ts[k]);
            assert(all[k] == st[k]);
        }
    }
    assert forall|k: int| 0 <= k < scanned(src).len() - 1 implies all[k]
        + scanned(src)[k].lexeme.len() <= #[trigger] all[k + 1] by {
        assert(scanned(src)[k] == ts[k]);
        assert(all[k] == st[k]);
        assert(located(src, ts[k], st[k]));
        if k + 1 < ts.len() {
            assert(all[k + 1] == st[k + 1]);
        }
    }
    assert(placed(src, scanned(src), all));
}

/// Two scans of the same text give the same tokens, field for field, and
/// the same error flag.
pub proof fn lemma_scan_idempotent(
    src: Seq<char>,
    first: Seq<Token>,
    first_error: bool,
    second: Seq<Token>,
    second_error: bool,
)
    requires
        token_views(first) == scanned(src),
        first_error == (scan_errors(src).len() > 0),
        token_views(second) == scanned(src),
        second_error == (scan_errors(src).len() > 0),
    ensures
        first.len() == second.len(),
        forall|k: int| 0 <= k < first.len() ==> #[trigger] first[k]@ == second[k]@,
        first_error == second_error,
{
    assert(token_views(first).len() == first.len());
    assert(token_views(second).len() == second.len());
    assert forall|k: int| 0 <= k < first.len() implies #[trigger] first[k]@ == second[k]@ by {
        assert(token_views(first)[k] == first[k]@);
        assert(token_views(second)[k] == second[k]@);
    }
}

} // verus!

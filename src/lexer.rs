//! The tokenizer: a cursor over the source text that hands out one token per
//! call of `Lexer::next_token`.
//!
//! Choices made here:
//! - positions count characters, so non-ASCII text never splits a character;
//! - blanks between tokens are space, tab, newline and carriage return;
//! - an unrecognised character, a NUL inside the input included, gives an
//!   `ILLEGAL` token whose literal is that character, and a digit run too large for `i64` gives an `ILLEGAL` token
//!   whose literal is the digits; neither stops the stream.
use vstd::prelude::*;
use vstd::string::*;
use crate::laws::lemma_step_bounds;
use crate::token::{Lexeme, Token, TokenKind, TokenType};

verus! {

// ---------------------------------------------------------------------------
// Character classes
// ---------------------------------------------------------------------------

/// Whether a non-ASCII character has the Unicode `Alphabetic` property.
pub uninterp spec fn unicode_alphabetic(c: char) -> bool;

pub open spec fn ascii_letter(c: char) -> bool {
    ('a' <= c && c <= 'z') || ('A' <= c && c <= 'Z')
}

/// What `char::is_alphabetic` returns: ASCII letters are alphabetic and the
/// other ASCII characters are not; beyond ASCII the Unicode property decides.
pub open spec fn alphabetic(c: char) -> bool {
    if (c as u32) < 128 {
        ascii_letter(c)
    } else {
        unicode_alphabetic(c)
    }
}

/// Relies on `char::is_alphabetic`, which tests the ASCII letter ranges
/// directly and looks the Unicode `Alphabetic` property up for the rest.
#[verifier::external_body]
fn is_alphabetic(c: char) -> (r: bool)
    ensures
        r == (if (c as u32) < 128 {
            ascii_letter(c)
        } else {
            unicode_alphabetic(c)
        }),
{
    c.is_alphabetic()
}

/// Characters skipped between tokens.
pub open spec fn is_blank(c: char) -> bool {
    c == ' ' || c == '\t' || c == '\n' || c == '\r'
}

/// Characters that make up identifiers and keywords (digits excluded).
pub open spec fn is_letter_char(c: char) -> bool {
    alphabetic(c) || c == '_'
}

pub open spec fn is_digit_char(c: char) -> bool {
    '0' <= c && c <= '9'
}

/// The value of a decimal digit.
pub open spec fn digit_value(c: char) -> int {
    (c as int) - ('0' as int)
}

/// The value of a string of decimal digits, most significant first.
pub open spec fn decimal(ds: Seq<char>) -> int
    decreases ds.len(),
{
    if ds.len() == 0 {
        0
    } else {
        decimal(ds.drop_last()) * 10 + digit_value(ds.last())
    }
}

// ---------------------------------------------------------------------------
// Scanning, stated over the unread rest of the input
// ---------------------------------------------------------------------------

/// The current character: the first one of `s`, or NUL once `s` is exhausted.
pub open spec fn head(s: Seq<char>) -> char {
    if s.len() > 0 {
        s[0]
    } else {
        '\0'
    }
}

/// The character after the current one, or NUL when there is none.
pub open spec fn second(s: Seq<char>) -> char {
    if s.len() > 1 {
        s[1]
    } else {
        '\0'
    }
}

/// Length of the longest prefix of `s` whose characters all satisfy `p`.
pub open spec fn run_len(s: Seq<char>, p: spec_fn(char) -> bool) -> nat
    decreases s.len(),
{
    if s.len() > 0 && p(s[0]) {
        1 + run_len(s.drop_first(), p)
    } else {
        0
    }
}

pub open spec fn blank_pred() -> spec_fn(char) -> bool {
    |c: char| is_blank(c)
}

pub open spec fn letter_pred() -> spec_fn(char) -> bool {
    |c: char| is_letter_char(c)
}

pub open spec fn digit_pred() -> spec_fn(char) -> bool {
    |c: char| is_digit_char(c)
}

pub open spec fn blank_run(s: Seq<char>) -> nat {
    run_len(s, blank_pred())
}

pub open spec fn word_run(s: Seq<char>) -> nat {
    run_len(s, letter_pred())
}

pub open spec fn digit_run(s: Seq<char>) -> nat {
    run_len(s, digit_pred())
}

/// `run_len` is the length of a prefix whose characters all satisfy `p` and
/// which is followed by the end of `s` or by a character that does not.
pub proof fn lemma_run_len_facts(s: Seq<char>, p: spec_fn(char) -> bool)
    ensures
        run_len(s, p) <= s.len(),
        forall|i: int| 0 <= i < run_len(s, p) ==> p(#[trigger] s[i]),
        run_len(s, p) < s.len() ==> !p(s[run_len(s, p) as int]),
    decreases s.len(),
{
    if s.len() > 0 && p(s[0]) {
        lemma_run_len_facts(s.drop_first(), p);
        assert forall|i: int| 0 <= i < run_len(s, p) implies p(#[trigger] s[i]) by {
            if i > 0 {
                assert(s[i] == s.drop_first()[i - 1]);
            }
        }
    }
}

/// A prefix of length `n` that satisfies `p` and cannot be extended is the run.
pub proof fn lemma_run_len_is(s: Seq<char>, p: spec_fn(char) -> bool, n: int)
    requires
        0 <= n <= s.len(),
        forall|i: int| 0 <= i < n ==> p(#[trigger] s[i]),
        n == s.len() || !p(s[n]),
    ensures
        run_len(s, p) == n,
    decreases n,
{
    if n > 0 {
        assert forall|i: int| 0 <= i < n - 1 implies p(#[trigger] s.drop_first()[i]) by {
            assert(s.drop_first()[i] == s[i + 1]);
        }
        if n < s.len() {
            assert(s.drop_first()[n - 1] == s[n]);
        }
        lemma_run_len_is(s.drop_first(), p, n - 1);
    }
}

/// The reserved words and the kinds they stand for.
pub open spec fn keyword_kind(w: Seq<char>) -> Option<TokenKind> {
    if w == seq!['l', 'a', 'm', 'b', 'd', 'a'] {
        Some(TokenKind::Func)
    } else if w == seq!['l', 'e', 't'] {
        Some(TokenKind::Let)
    } else if w == seq!['t', 'r', 'u', 'e'] {
        Some(TokenKind::True)
    } else if w == seq!['f', 'a', 'l', 's', 'e'] {
        Some(TokenKind::False)
    } else if w == seq!['r', 'e', 't', 'u', 'r', 'n'] {
        Some(TokenKind::Return)
    } else if w == seq!['i', 'f'] {
        Some(TokenKind::If)
    } else if w == seq!['e', 'l', 's', 'e'] {
        Some(TokenKind::Else)
    } else {
        None
    }
}

/// The kind of a scanned word: its keyword if it is one, else an identifier.
pub open spec fn word_kind(w: Seq<char>) -> TokenKind {
    match keyword_kind(w) {
        Some(k) => k,
        None => TokenKind::Ident(w),
    }
}

/// The kind of a character that is a token by itself (`=` and `!` only when
/// no `=` follows them).
pub open spec fn single_kind(c: char) -> Option<TokenKind> {
    if c == '=' {
        Some(TokenKind::Assign)
    } else if c == ';' {
        Some(TokenKind::Semicolon)
    } else if c == '(' {
        Some(TokenKind::Lparen)
    } else if c == ')' {
        Some(TokenKind::Rparen)
    } else if c == '{' {
        Some(TokenKind::Lbrace)
    } else if c == '}' {
        Some(TokenKind::Rbrace)
    } else if c == ',' {
        Some(TokenKind::Comma)
    } else if c == '+' {
        Some(TokenKind::Plus)
    } else if c == '!' {
        Some(TokenKind::Bang)
    } else if c == '<' {
        Some(TokenKind::Lt)
    } else if c == '>' {
        Some(TokenKind::Gt)
    } else if c == '*' {
        Some(TokenKind::Asterisk)
    } else if c == '/' {
        Some(TokenKind::Fslash)
    } else if c == '-' {
        Some(TokenKind::Minus)
    } else {
        None
    }
}

pub open spec fn lexeme(kind: TokenKind, literal: Seq<char>) -> Lexeme {
    Lexeme { kind, literal }
}

/// The token at the start of `s` (no blanks skipped), and how many characters
/// it consumes.
///
/// The end of the input gives the end-of-input token and consumes nothing;
/// a NUL character inside the input is an illegal character. A digit run whose value does
/// not fit in `i64` gives an illegal token carrying the digits, and any other
/// unrecognised character gives an illegal token carrying that character.
pub open spec fn scan(s: Seq<char>) -> (Lexeme, nat) {
    let c = head(s);
    if c == '=' && second(s) == '=' {
        (lexeme(TokenKind::Eq, seq!['=', '=']), 2)
    } else if c == '!' && second(s) == '=' {
        (lexeme(TokenKind::Neq, seq!['!', '=']), 2)
    } else if single_kind(c) is Some {
        (lexeme(single_kind(c)->0, seq![c]), 1)
    } else if s.len() == 0 {
        (lexeme(TokenKind::Eof, Seq::empty()), 0)
    } else if is_letter_char(c) {
        let w = s.take(word_run(s) as int);
        (lexeme(word_kind(w), w), word_run(s))
    } else if is_digit_char(c) {
        let ds = s.take(digit_run(s) as int);
        if decimal(ds) <= i64::MAX {
            (lexeme(TokenKind::Int(decimal(ds)), ds), digit_run(s))
        } else {
            (lexeme(TokenKind::Illegal, ds), digit_run(s))
        }
    } else {
        (lexeme(TokenKind::Illegal, seq![c]), 1)
    }
}

/// One call of `next_token` on the unread input `s`: the token it returns and
/// how many characters it consumes, leading blanks included.
pub open spec fn lex_step(s: Seq<char>) -> (Lexeme, nat) {
    let b = blank_run(s);
    let (t, n) = scan(s.skip(b as int));
    (t, b + n)
}

/// All tokens of `s`, up to and including the first end-of-input token.
pub open spec fn lex_all(s: Seq<char>) -> Seq<Lexeme>
    decreases s.len(),
{
    let (t, n) = lex_step(s);
    if t.kind is Eof || n == 0 || n > s.len() {
        seq![t]
    } else {
        seq![t] + lex_all(s.skip(n as int))
    }
}

/// Each further digit can only make a decimal value larger.
pub proof fn lemma_decimal_grows(ds: Seq<char>, i: int, j: int)
    requires
        0 <= i <= j <= ds.len(),
        forall|k: int| 0 <= k < ds.len() ==> is_digit_char(#[trigger] ds[k]),
    ensures
        0 <= decimal(ds.take(i)) <= decimal(ds.take(j)),
    decreases j,
{
    if j > 0 {
        assert(ds.take(j).drop_last() =~= ds.take(j - 1));
        if j > i {
            lemma_decimal_grows(ds, i, j - 1);
        } else {
            lemma_decimal_grows(ds, j - 1, j - 1);
        }
    }
}

// ---------------------------------------------------------------------------
// Executable helpers
// ---------------------------------------------------------------------------

/// Whether two strings hold the same characters.
fn same_text(a: &str, b: &str) -> (r: bool)
    ensures
        r == (a@ == b@),
{
    let n = a.unicode_len();
    if n != b.unicode_len() {
        return false;
    }
    let mut i: usize = 0;
    while i < n
        invariant
            n == a@.len(),
            n == b@.len(),
            i <= n,
            forall|j: int| 0 <= j < i ==> a@[j] == b@[j],
        decreases n - i,
    {
        if a.get_char(i) != b.get_char(i) {
            return false;
        }
        i = i + 1;
    }
    assert(a@ =~= b@);
    true
}

/// The kind a reserved word stands for, or `None` for any other word.
pub fn lookup_keyword(word: &str) -> (r: Option<TokenType>)
    ensures
        match r {
            Some(t) => keyword_kind(word@) == Some(t@),
            None => keyword_kind(word@) is None,
        },
{
    proof {
        reveal_strlit("lambda");
        reveal_strlit("let");
        reveal_strlit("true");
        reveal_strlit("false");
        reveal_strlit("return");
        reveal_strlit("if");
        reveal_strlit("else");
        assert("lambda"@ =~= seq!['l', 'a', 'm', 'b', 'd', 'a']);
        assert("let"@ =~= seq!['l', 'e', 't']);
        assert("true"@ =~= seq!['t', 'r', 'u', 'e']);
        assert("false"@ =~= seq!['f', 'a', 'l', 's', 'e']);
        assert("return"@ =~= seq!['r', 'e', 't', 'u', 'r', 'n']);
        assert("if"@ =~= seq!['i', 'f']);
        assert("else"@ =~= seq!['e', 'l', 's', 'e']);
    }
    if same_text(word, "lambda") {
        Some(TokenType::FUNC)
    } else if same_text(word, "let") {
        Some(TokenType::LET)
    } else if same_text(word, "true") {
        Some(TokenType::TRUE)
    } else if same_text(word, "false") {
        Some(TokenType::FALSE)
    } else if same_text(word, "return") {
        Some(TokenType::RETURN)
    } else if same_text(word, "if") {
        Some(TokenType::IF)
    } else if same_text(word, "else") {
        Some(TokenType::ELSE)
    } else {
        None
    }
}

/// The value of a string of decimal digits, or `None` when it exceeds `i64`.
pub fn parse_decimal(digits: &str) -> (r: Option<i64>)
    requires
        forall|k: int| 0 <= k < digits@.len() ==> is_digit_char(#[trigger] digits@[k]),
    ensures
        match r {
            Some(v) => decimal(digits@) <= i64::MAX && v == decimal(digits@),
            None => decimal(digits@) > i64::MAX,
        },
{
    let n = digits.unicode_len();
    let ghost ds = digits@;
    let mut acc: i64 = 0;
    let mut i: usize = 0;
    while i < n
        invariant
            n == ds.len(),
            ds == digits@,
            i <= n,
            acc == decimal(ds.take(i as int)),
            forall|k: int| 0 <= k < ds.len() ==> is_digit_char(#[trigger] ds[k]),
        decreases n - i,
    {
        let c = digits.get_char(i);
        let d = (c as u32 - '0' as u32) as i64;
        assert(ds.take(i + 1).drop_last() =~= ds.take(i as int));
        proof {
            lemma_decimal_grows(ds, i as int, i as int);
        }
        if acc > (i64::MAX - d) / 10 {
            proof {
                assert(acc * 10 + d > i64::MAX) by (nonlinear_arith)
                    requires
                        acc > (i64::MAX - d) / 10,
                        0 <= d <= 9,
                ;
                lemma_decimal_grows(ds, i + 1, n as int);
                assert(ds.take(n as int) =~= ds);
            }
            return None;
        }
        assert(acc * 10 + d <= i64::MAX) by (nonlinear_arith)
            requires
                acc <= (i64::MAX - d) / 10,
                0 <= acc,
                0 <= d <= 9,
        ;
        acc = acc * 10 + d;
        i = i + 1;
    }
    assert(ds.take(n as int) =~= ds);
    Some(acc)
}

// ---------------------------------------------------------------------------
// The lexer
// ---------------------------------------------------------------------------

/// A cursor over the source text. Positions count characters, not bytes.
///
/// `position` is the index of `current_char`, and `read_position` the index
/// of the character after it. At or past the end of the input
/// `current_char` is the NUL sentinel.
#[derive(Debug)]
pub struct Lexer {
    pub input: String,
    pub position: i64,
    pub read_position: i64,
    pub current_char: char,
}

impl Lexer {
    /// The cursor is consistent with the input.
    pub open spec fn wf(&self) -> bool {
        &&& self.input@.len() < i64::MAX
        &&& self.input@.len() <= usize::MAX
        &&& 0 <= self.position
        &&& self.read_position == self.position + 1
        &&& self.current_char == head(self.rest())
    }

    /// The input from the current character on; empty once the cursor is at
    /// or past the end.
    pub open spec fn rest(&self) -> Seq<char> {
        if self.position < self.input@.len() {
            self.input@.subrange(self.position as int, self.input@.len() as int)
        } else {
            Seq::empty()
        }
    }

    /// Moves the cursor one character forward; past the end of the input the
    /// current character is NUL.
    pub fn read_char(&mut self)
        requires
            old(self).wf(),
            old(self).read_position < i64::MAX,
        ensures
            final(self).wf(),
            final(self).input@ == old(self).input@,
            final(self).position == old(self).read_position,
            final(self).read_position == old(self).read_position + 1,
    {
        let len = self.input.as_str().unicode_len();
        if self.read_position < len as i64 {
            self.current_char = self.input.as_str().get_char(self.read_position as usize);
        } else {
            self.current_char = '\0';
        }
        self.position = self.read_position;
        self.read_position = self.read_position + 1;
        assert(self.position < len ==> self.rest()[0] == self.input@[self.position as int]);
    }

    /// Moves the cursor one character back.
    pub fn back_char(&mut self)
        requires
            old(self).wf(),
            old(self).position > 0,
        ensures
            final(self).wf(),
            final(self).input@ == old(self).input@,
            final(self).position == old(self).position - 1,
            final(self).read_position == old(self).read_position - 1,
    {
        let len = self.input.as_str().unicode_len();
        self.position = self.position - 1;
        self.read_position = self.read_position - 1;
        if self.position < len as i64 {
            self.current_char = self.input.as_str().get_char(self.position as usize);
        } else {
            self.current_char = '\0';
        }
        assert(self.position < len ==> self.rest()[0] == self.input@[self.position as int]);
    }

    /// The character after the current one, or NUL past the end of the input.
    fn peek_ahead(&self) -> (c: char)
        requires
            self.wf(),
        ensures
            c == second(self.rest()),
    {
        let len = self.input.as_str().unicode_len();
        if self.read_position >= len as i64 {
            return '\0';
        }
        assert(self.rest()[1] == self.input@[self.read_position as int]);
        self.input.as_str().get_char(self.read_position as usize)
    }
}

/// Whether `c` is skipped between tokens.
fn blank(c: char) -> (r: bool)
    ensures
        r == is_blank(c),
{
    c == ' ' || c == '\t' || c == '\n' || c == '\r'
}

impl Lexer {
    fn is_letter(&self) -> (r: bool)
        ensures
            r == is_letter_char(self.current_char),
    {
        is_alphabetic(self.current_char) || self.current_char == '_'
    }

    fn is_digit(&self) -> (r: bool)
        ensures
            r == is_digit_char(self.current_char),
    {
        '0' <= self.current_char && self.current_char <= '9'
    }

    /// Moves past the blanks at the cursor.
    fn skip_whitespace(&mut self)
        requires
            old(self).wf(),
        ensures
            final(self).wf(),
            final(self).input@ == old(self).input@,
            final(self).position == old(self).position + blank_run(old(self).rest()),
    {
        let ghost s0 = self.rest();
        let ghost p0 = self.position as int;
        let ghost input = self.input@;
        while blank(self.current_char)
            invariant
                self.wf(),
                self.input@ == input,
                p0 < input.len() ==> s0 == input.subrange(p0, input.len() as int),
                p0 >= input.len() ==> s0.len() == 0 && self.position == p0,
                p0 <= self.position,
                p0 < input.len() ==> self.position <= input.len(),
                forall|i: int| p0 <= i < self.position ==> is_blank(#[trigger] input[i]),
            decreases input.len() - self.position,
        {
            self.read_char();
        }
        proof {
            let n = self.position - p0;
            assert forall|i: int| 0 <= i < n implies (blank_pred())(#[trigger] s0[i]) by {
                assert(s0[i] == input[p0 + i]);
            }
            if n < s0.len() {
                assert(s0[n] == self.rest()[0]);
            }
            lemma_run_len_is(s0, blank_pred(), n);
        }
    }

    /// Reads the word at the cursor, leaving the cursor on its last character.
    fn read_identifier(&mut self) -> (r: String)
        requires
            old(self).wf(),
            is_letter_char(old(self).current_char),
        ensures
            final(self).wf(),
            final(self).input@ == old(self).input@,
            word_run(old(self).rest()) >= 1,
            r@ == old(self).rest().take(word_run(old(self).rest()) as int),
            final(self).position == old(self).position + word_run(old(self).rest()) - 1,
    {
        let pos = self.position as usize;
        let ghost s0 = self.rest();
        let ghost p0 = self.position as int;
        let ghost input = self.input@;
        while self.is_letter()
            invariant
                self.wf(),
                self.input@ == input,
                s0 == input.subrange(p0, input.len() as int),
                p0 <= self.position <= input.len(),
                pos == p0,
                forall|i: int| p0 <= i < self.position ==> is_letter_char(#[trigger] input[i]),
            decreases input.len() - self.position,
        {
            self.read_char();
        }
        let ghost n = self.position - p0;
        proof {
            assert forall|i: int| 0 <= i < n implies (letter_pred())(#[trigger] s0[i]) by {
                assert(s0[i] == input[p0 + i]);
            }
            if n < s0.len() {
                assert(s0[n] == self.rest()[0]);
            }
            lemma_run_len_is(s0, letter_pred(), n);
        }
        self.back_char();
        let word = self.input.as_str().substring_char(pos, self.position as usize + 1).to_string();
        assert(word@ =~= s0.take(n));
        word
    }
}

impl Lexer {
    /// Reads the word at the cursor as a keyword or identifier token.
    fn parse_string(&mut self) -> (tok: Token)
        requires
            old(self).wf(),
            is_letter_char(old(self).current_char),
        ensures
            final(self).wf(),
            final(self).input@ == old(self).input@,
            word_run(old(self).rest()) >= 1,
            final(self).position == old(self).position + word_run(old(self).rest()) - 1,
            ({
                let w = old(self).rest().take(word_run(old(self).rest()) as int);
                tok@ == lexeme(word_kind(w), w)
            }),
    {
        let word = self.read_identifier();
        let t = match lookup_keyword(word.as_str()) {
            Some(x) => x,
            None => TokenType::IDENT(word.clone()),
        };
        Token { t, l: word }
    }

    /// Reads the digit run at the cursor as an integer token; a run whose
    /// value exceeds `i64` becomes an illegal token carrying the digits.
    fn parse_number(&mut self) -> (tok: Token)
        requires
            old(self).wf(),
            is_digit_char(old(self).current_char),
        ensures
            final(self).wf(),
            final(self).input@ == old(self).input@,
            digit_run(old(self).rest()) >= 1,
            final(self).position == old(self).position + digit_run(old(self).rest()) - 1,
            ({
                let ds = old(self).rest().take(digit_run(old(self).rest()) as int);
                tok@ == if decimal(ds) <= i64::MAX {
                    lexeme(TokenKind::Int(decimal(ds)), ds)
                } else {
                    lexeme(TokenKind::Illegal, ds)
                }
            }),
    {
        let pos = self.position as usize;
        let ghost s0 = self.rest();
        let ghost p0 = self.position as int;
        let ghost input = self.input@;
        while self.is_digit()
            invariant
                self.wf(),
                self.input@ == input,
                s0 == input.subrange(p0, input.len() as int),
                p0 <= self.position <= input.len(),
                pos == p0,
                forall|i: int| p0 <= i < self.position ==> is_digit_char(#[trigger] input[i]),
            decreases input.len() - self.position,
        {
            self.read_char();
        }
        let ghost n = self.position - p0;
        proof {
            assert forall|i: int| 0 <= i < n implies (digit_pred())(#[trigger] s0[i]) by {
                assert(s0[i] == input[p0 + i]);
            }
            if n < s0.len() {
                assert(s0[n] == self.rest()[0]);
            }
            lemma_run_len_is(s0, digit_pred(), n);
        }
        self.back_char();
        let n_as_s: String = self.input.as_str().substring_char(pos, self.position as usize + 1).to_string();
        assert(n_as_s@ =~= s0.take(n));
        match parse_decimal(n_as_s.as_str()) {
            Some(v) => Token { t: TokenType::INT(v), l: n_as_s },
            None => Token { t: TokenType::ILLEGAL, l: n_as_s },
        }
    }
}

impl Lexer {
    /// A token of kind `t` whose literal is the input from `start` through
    /// the current character.
    fn token_through(&self, start: usize, t: TokenType) -> (tok: Token)
        requires
            self.wf(),
            start <= self.position < self.input@.len(),
        ensures
            tok.t == t,
            tok.l@ == self.input@.subrange(start as int, self.position + 1),
    {
        let l = self.input.as_str().substring_char(start, self.position as usize + 1).to_string();
        Token { t, l }
    }

    /// Returns the next token and moves the cursor past it.
    ///
    /// Blanks before the token are skipped. The end-of-input token comes only
    /// once nothing but blanks is left, and from then on every call returns
    /// it again; each such call still moves the cursor one step on.
    pub fn next_token(&mut self) -> (tok: Token)
        requires
            old(self).wf(),
            old(self).input@.len() < i64::MAX - 2,
            old(self).read_position < i64::MAX - 1,
        ensures
            final(self).wf(),
            final(self).input@ == old(self).input@,
            tok@ == lex_step(old(self).rest()).0,
            !(tok@.kind is Eof) ==> final(self).position == old(self).position + lex_step(
                old(self).rest(),
            ).1,
            tok@.kind is Eof ==> final(self).rest().len() == 0 && final(self).position
                == old(self).position + lex_step(old(self).rest()).1 + 1,
            tok@.kind is Ident ==> keyword_kind(tok@.kind->Ident_0) is None,
            old(self).rest().len() == 0 ==> tok@ == lexeme(TokenKind::Eof, Seq::empty()),
    {
        let ghost s0 = self.rest();
        let ghost input = self.input@;
        self.skip_whitespace();
        let ghost s1 = self.rest();
        let ghost p1 = self.position as int;
        proof {
            lemma_run_len_facts(s0, blank_pred());
        }
        assert(s1 =~= s0.skip(blank_run(s0) as int));
        let len = self.input.as_str().unicode_len();
        let inside = self.position < len as i64;
        let start: usize = if inside { self.position as usize } else { 0 };
        let tok: Token = match self.current_char {
            '=' => if self.peek_ahead() == '=' {
                self.read_char();
                self.token_through(start, TokenType::EQ)
            } else {
                self.token_through(start, TokenType::ASSIGN)
            },
            ';' => self.token_through(start, TokenType::SEMICOLON),
            '(' => self.token_through(start, TokenType::LPAREN),
            ')' => self.token_through(start, TokenType::RPAREN),
            '{' => self.token_through(start, TokenType::LBRACE),
            '}' => self.token_through(start, TokenType::RBRACE),
            ',' => self.token_through(start, TokenType::COMMA),
            '+' => self.token_through(start, TokenType::PLUS),
            '!' => if self.peek_ahead() == '=' {
                self.read_char();
                self.token_through(start, TokenType::NEQ)
            } else {
                self.token_through(start, TokenType::BANG)
            },
            '<' => self.token_through(start, TokenType::LT),
            '>' => self.token_through(start, TokenType::GT),
            '*' => self.token_through(start, TokenType::ASTERISK),
            '/' => self.token_through(start, TokenType::FSLASH),
            '-' => self.token_through(start, TokenType::MINUS),
            '\0' => if inside {
                self.token_through(start, TokenType::ILLEGAL)
            } else {
                Token { t: TokenType::EOF, l: String::new() }
            },
            _ => if self.is_letter() {
                self.parse_string()
            } else if self.is_digit() {
                self.parse_number()
            } else {
                self.token_through(start, TokenType::ILLEGAL)
            },
        };
        proof {
            if s1.len() > 0 {
                assert(s1[0] == input[p1]);
            }
            if s1.len() > 1 {
                assert(s1[1] == input[p1 + 1]);
            }
            if self.position == p1 && p1 < input.len() {
                assert(input.subrange(p1, p1 + 1) =~= seq![s1[0]]);
            }
            if self.position == p1 + 1 && s1.len() > 1 {
                assert(input.subrange(p1, p1 + 2) =~= seq![s1[0], s1[1]]);
            }
        }
        proof {
            lemma_run_len_facts(s1, letter_pred());
            lemma_run_len_facts(s1, digit_pred());
        }
        self.read_char();
        tok
    }
}

/// The models of a sequence of tokens.
pub open spec fn views(ts: Seq<Token>) -> Seq<Lexeme> {
    ts.map_values(|t: Token| t@)
}

/// All tokens of `i`, one call of `next_token` after another, up to and
/// including the end-of-input token.
pub fn tokenize(i: &str) -> (r: Vec<Token>)
    requires
        i@.len() < i64::MAX - 2,
    ensures
        views(r@) == lex_all(i@),
{
    let ghost input = i@;
    let mut lex = new(i.to_string());
    let mut out: Vec<Token> = Vec::new();
    let mut done = false;
    assert(lex.rest() =~= input);
    assert(views(out@) + lex_all(lex.rest()) =~= lex_all(input));
    while !done
        invariant
            lex.wf(),
            lex.input@ == input,
            input.len() < i64::MAX - 2,
            !done ==> lex.position <= input.len(),
            !done ==> views(out@) + lex_all(lex.rest()) == lex_all(input),
            done ==> views(out@) == lex_all(input),
        decreases if done { 0int } else { input.len() + 1 - lex.position },
    {
        let ghost s = lex.rest();
        let ghost before = views(out@);
        proof {
            lemma_step_bounds(s);
        }
        let tok = lex.next_token();
        done = matches!(tok.t, TokenType::EOF);
        let ghost t = tok@;
        out.push(tok);
        assert(views(out@) =~= before.push(t));
        if done {
            assert(lex_all(s) == seq![t]);
            assert(before.push(t) =~= before + seq![t]);
        } else {
            let ghost n = lex_step(s).1;
            assert(lex.rest() =~= s.skip(n as int));
            assert(before.push(t) + lex_all(lex.rest()) =~= before + (seq![t] + lex_all(
                s.skip(n as int),
            )));
        }
    }
    out
}

/// A lexer at the start of `i`.
pub fn new(i: String) -> (lex: Lexer)
    requires
        i@.len() < i64::MAX,
    ensures
        lex.wf(),
        lex.input@ == i@,
        lex.position == 0,
{
    let first = if i.as_str().unicode_len() > 0 {
        i.as_str().get_char(0)
    } else {
        '\0'
    };
    Lexer { input: i, position: 0, read_position: 1, current_char: first }
}

} // verus!

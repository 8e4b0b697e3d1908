use vstd::prelude::*;

verus! {

/// The category of a token, as the lexer hands it out.
#[derive(Clone, Debug, PartialEq)]
pub enum TokenType {
    ILLEGAL,
    EOF,
    // identifiers and literals
    IDENT(String),
    INT(i64),
    // operators
    ASSIGN,
    PLUS,
    MINUS,
    ASTERISK,
    FSLASH,
    BANG,
    LT,
    GT,
    EQ,
    NEQ,
    // delimiters
    COMMA,
    SEMICOLON,
    // brackets of all sorts
    LPAREN,
    RPAREN,
    LBRACE,
    RBRACE,
    LSQUARE,
    RSQUARE,
    // keywords
    FUNC,
    LET,
    IF,
    ELSE,
    RETURN,
    TRUE,
    FALSE,
}

/// One lexical unit: its category `t` and the source text `l` it came from.
#[derive(Clone, Debug, PartialEq)]
pub struct Token {
    pub t: TokenType,
    pub l: String,
}

/// Mathematical model of `TokenType`: strings become character sequences and
/// integers become `int`.
pub ghost enum TokenKind {
    Illegal,
    Eof,
    Ident(Seq<char>),
    Int(int),
    Assign,
    Plus,
    Minus,
    Asterisk,
    Fslash,
    Bang,
    Lt,
    Gt,
    Eq,
    Neq,
    Comma,
    Semicolon,
    Lparen,
    Rparen,
    Lbrace,
    Rbrace,
    Lsquare,
    Rsquare,
    Func,
    Let,
    If,
    Else,
    Return,
    True,
    False,
}

/// Mathematical model of `Token`.
pub ghost struct Lexeme {
    pub kind: TokenKind,
    pub literal: Seq<char>,
}

impl View for TokenType {
    type V = TokenKind;

    open spec fn view(&self) -> TokenKind {
        match self {
            TokenType::ILLEGAL => TokenKind::Illegal,
            TokenType::EOF => TokenKind::Eof,
            TokenType::IDENT(s) => TokenKind::Ident(s@),
            TokenType::INT(n) => TokenKind::Int(*n as int),
            TokenType::ASSIGN => TokenKind::Assign,
            TokenType::PLUS => TokenKind::Plus,
            TokenType::MINUS => TokenKind::Minus,
            TokenType::ASTERISK => TokenKind::Asterisk,
            TokenType::FSLASH => TokenKind::Fslash,
            TokenType::BANG => TokenKind::Bang,
            TokenType::LT => TokenKind::Lt,
            TokenType::GT => TokenKind::Gt,
            TokenType::EQ => TokenKind::Eq,
            TokenType::NEQ => TokenKind::Neq,
            TokenType::COMMA => TokenKind::Comma,
            TokenType::SEMICOLON => TokenKind::Semicolon,
            TokenType::LPAREN => TokenKind::Lparen,
            TokenType::RPAREN => TokenKind::Rparen,
            TokenType::LBRACE => TokenKind::Lbrace,
            TokenType::RBRACE => TokenKind::Rbrace,
            TokenType::LSQUARE => TokenKind::Lsquare,
            TokenType::RSQUARE => TokenKind::Rsquare,
            TokenType::FUNC => TokenKind::Func,
            TokenType::LET => TokenKind::Let,
            TokenType::IF => TokenKind::If,
            TokenType::ELSE => TokenKind::Else,
            TokenType::RETURN => TokenKind::Return,
            TokenType::TRUE => TokenKind::True,
            TokenType::FALSE => TokenKind::False,
        }
    }
}

impl View for Token {
    type V = Lexeme;

    open spec fn view(&self) -> Lexeme {
        Lexeme { kind: self.t@, literal: self.l@ }
    }
}

} // verus!

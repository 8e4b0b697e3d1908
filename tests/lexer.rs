use interpreter::lexer::{lookup_keyword, new, parse_decimal, tokenize, Lexer};
use interpreter::token::{Token, TokenType};

#[test]
fn test_next_token() {
    let input = "=+(){},;".to_string();

    let expected: Vec<Token> = vec![
        Token { t: TokenType::ASSIGN, l: "=".to_string() },
        Token { t: TokenType::PLUS, l: "+".to_string() },
        Token { t: TokenType::LPAREN, l: "(".to_string() },
        Token { t: TokenType::RPAREN, l: ")".to_string() },
        Token { t: TokenType::LBRACE, l: "{".to_string() },
        Token { t: TokenType::RBRACE, l: "}".to_string() },
        Token { t: TokenType::COMMA, l: ",".to_string() },
        Token { t: TokenType::SEMICOLON, l: ";".to_string() },
        Token { t: TokenType::EOF, l: "".to_string() }
    ];

    let mut lex = new(input);

    for t in expected {
        let curr_tok = lex.next_token();
        assert_eq!(t.l, curr_tok.l);
        assert_eq!(t.t, curr_tok.t);
    }
}

#[test]
fn test_identifiers() {
    let input = "
let five = 5;
let ten = 10;
let add = lambda(x, y) {
    x + y;
};

let result = add(five, ten);".to_string();

    let expected: Vec<Token> = vec![
        Token { t: TokenType::LET, l: "let".to_string() },
        Token { t: TokenType::IDENT(String::from("five")), l: "five".to_string() },
        Token { t: TokenType::ASSIGN, l: "=".to_string() },
        Token { t: TokenType::INT(5), l: "5".to_string() },
        Token { t: TokenType::SEMICOLON, l: ";".to_string() },

        Token { t: TokenType::LET, l: "let".to_string() },
        Token { t: TokenType::IDENT(String::from("ten")), l: "ten".to_string() },
        Token { t: TokenType::ASSIGN, l: "=".to_string() },
        Token { t: TokenType::INT(10), l: "10".to_string() },
        Token { t: TokenType::SEMICOLON, l: ";".to_string() },

        Token { t: TokenType::LET, l: "let".to_string() },
        Token { t: TokenType::IDENT(String::from("add")), l: "add".to_string() },
        Token { t: TokenType::ASSIGN, l: "=".to_string() },
        Token { t: TokenType::FUNC, l: "lambda".to_string() },
        Token { t: TokenType::LPAREN, l: "(".to_string() },
        Token { t: TokenType::IDENT(String::from("x")), l: "x".to_string() },
        Token { t: TokenType::COMMA, l: ",".to_string() },
        Token { t: TokenType::IDENT(String::from("y")), l: "y".to_string() },
        Token { t: TokenType::RPAREN, l: ")".to_string() },
        Token { t: TokenType::LBRACE, l: "{".to_string() },

        Token { t: TokenType::IDENT(String::from("x")), l: "x".to_string() },
        Token { t: TokenType::PLUS, l: "+".to_string() },
        Token { t: TokenType::IDENT(String::from("y")), l: "y".to_string() },
        Token { t: TokenType::SEMICOLON, l: ";".to_string() },

        Token { t: TokenType::RBRACE, l: "}".to_string() },
        Token { t: TokenType::SEMICOLON, l: ";".to_string() },

        Token { t: TokenType::LET, l: "let".to_string() },
        Token { t: TokenType::IDENT(String::from("result")), l: "result".to_string() },
        Token { t: TokenType::ASSIGN, l: "=".to_string() },
        Token { t: TokenType::IDENT(String::from("add")), l: "add".to_string() },
        Token { t: TokenType::LPAREN, l: "(".to_string() },
        Token { t: TokenType::IDENT(String::from("five")), l: "five".to_string() },
        Token { t: TokenType::COMMA, l: ",".to_string() },
        Token { t: TokenType::IDENT(String::from("ten")), l: "ten".to_string() },
        Token { t: TokenType::RPAREN, l: ")".to_string() },
        Token { t: TokenType::SEMICOLON, l: ";".to_string() },
        Token { t: TokenType::EOF, l: "".to_string() }
    ];

    let mut lex = new(input);
    
    for t in expected {
        let curr_tok = lex.next_token();
        assert_eq!(t.l, curr_tok.l);
        assert_eq!(t.t, curr_tok.t);
    }
}

#[test]
fn test_all_symbols() {
    let input = "let five = 5;
let ten = 10;

let add = lambda(x, y) {
  x + y;
};

let result = add(five, ten);
!-/*5;
5 < 10 > 5;

if (5 < 10) {
	return true;
} else {
	return false;
}

10 == 10;
10 != 9;".to_string();
    
    let mut lex = new(input);
    let expected = vec![
        Token { t: TokenType::LET, l: "let".to_string() },
        Token { t: TokenType::IDENT(String::from("five")), l: "five".to_string() },
        Token { t: TokenType::ASSIGN, l: "=".to_string() },
        Token { t: TokenType::INT(5), l: "5".to_string() },
        Token { t: TokenType::SEMICOLON, l: ";".to_string() },

        Token { t: TokenType::LET, l: "let".to_string() },
        Token { t: TokenType::IDENT(String::from("ten")), l: "ten".to_string() },
        Token { t: TokenType::ASSIGN, l: "=".to_string() },
        Token { t: TokenType::INT(10), l: "10".to_string() },
        Token { t: TokenType::SEMICOLON, l: ";".to_string() },

        Token { t: TokenType::LET, l: "let".to_string() },
        Token { t: TokenType::IDENT(String::from("add")), l: "add".to_string() },
        Token { t: TokenType::ASSIGN, l: "=".to_string() },
        Token { t: TokenType::FUNC, l: "lambda".to_string() },
        Token { t: TokenType::LPAREN, l: "(".to_string() },
        Token { t: TokenType::IDENT(String::from("x")), l: "x".to_string() },
        Token { t: TokenType::COMMA, l: ",".to_string() },
        Token { t: TokenType::IDENT(String::from("y")), l: "y".to_string() },
        Token { t: TokenType::RPAREN, l: ")".to_string() },
        Token { t: TokenType::LBRACE, l: "{".to_string() },

        Token { t: TokenType::IDENT(String::from("x")), l: "x".to_string() },
        Token { t: TokenType::PLUS, l: "+".to_string() },
        Token { t: TokenType::IDENT(String::from("y")), l: "y".to_string() },
        Token { t: TokenType::SEMICOLON, l: ";".to_string() },

        Token { t: TokenType::RBRACE, l: "}".to_string() },
        Token { t: TokenType::SEMICOLON, l: ";".to_string() },

        Token { t: TokenType::LET, l: "let".to_string() },
        Token { t: TokenType::IDENT(String::from("result")), l: "result".to_string() },
        Token { t: TokenType::ASSIGN, l: "=".to_string() },
        Token { t: TokenType::IDENT(String::from("add")), l: "add".to_string() },
        Token { t: TokenType::LPAREN, l: "(".to_string() },
        Token { t: TokenType::IDENT(String::from("five")), l: "five".to_string() },
        Token { t: TokenType::COMMA, l: ",".to_string() },
        Token { t: TokenType::IDENT(String::from("ten")), l: "ten".to_string() },
        Token { t: TokenType::RPAREN, l: ")".to_string() },
        Token { t: TokenType::SEMICOLON, l: ";".to_string() },

        Token { t: TokenType::BANG, l: "!".to_string() },
        Token { t: TokenType::MINUS, l: "-".to_string() },
        Token { t: TokenType::FSLASH, l: "/".to_string() },
        Token { t: TokenType::ASTERISK, l: "*".to_string() },
        Token { t: TokenType::INT(5), l: "5".to_string() },
        Token { t: TokenType::SEMICOLON, l: ";".to_string() },

        Token { t: TokenType::INT(5), l: "5".to_string() },
        Token { t: TokenType::LT, l: "<".to_string() },
        Token { t: TokenType::INT(10), l: "10".to_string() },
        Token { t: TokenType::GT, l: ">".to_string() },
        Token { t: TokenType::INT(5), l: "5".to_string() },
        Token { t: TokenType::SEMICOLON, l: ";".to_string() },

        Token { t: TokenType::IF, l: "if".to_string() },
        Token { t: TokenType::LPAREN, l: "(".to_string() },
        Token { t: TokenType::INT(5), l: "5".to_string() },
        Token { t: TokenType::LT, l: "<".to_string() },
        Token { t: TokenType::INT(10), l: "10".to_string() },
        Token { t: TokenType::RPAREN, l: ")".to_string() },
        Token { t: TokenType::LBRACE, l: "{".to_string() },

        Token { t: TokenType::RETURN, l: "return".to_string() },
        Token { t: TokenType::TRUE, l: "true".to_string() },
        Token { t: TokenType::SEMICOLON, l: ";".to_string() },
        Token { t: TokenType::RBRACE, l: "}".to_string() },

        Token { t: TokenType::ELSE, l: "else".to_string() },
        Token { t: TokenType::LBRACE, l: "{".to_string() },

        Token { t: TokenType::RETURN, l: "return".to_string() },
        Token { t: TokenType::FALSE, l: "false".to_string() },
        Token { t: TokenType::SEMICOLON, l: ";".to_string() },
        Token { t: TokenType::RBRACE, l: "}".to_string() },

        Token { t: TokenType::INT(10), l: "10".to_string() },
        Token { t: TokenType::EQ, l: "==".to_string() },
        Token { t: TokenType::INT(10), l: "10".to_string() },
        Token { t: TokenType::SEMICOLON, l: ";".to_string() },

        Token { t: TokenType::INT(10), l: "10".to_string() },
        Token { t: TokenType::NEQ, l: "!=".to_string() },
        Token { t: TokenType::INT(9), l: "9".to_string() },
        Token { t: TokenType::SEMICOLON, l: ";".to_string() },
        Token { t: TokenType::EOF, l: "".to_string() }
    ];

    for t in expected {
        let curr_tok = lex.next_token();
        assert_eq!(t.t, curr_tok.t);
        assert_eq!(t.l, curr_tok.l);
    }
}

fn kinds_and_literals(input: &str) -> Vec<(TokenType, String)> {
    let mut lex = new(input.to_string());
    let mut out = Vec::new();
    loop {
        let tok = lex.next_token();
        let end = tok.t == TokenType::EOF;
        out.push((tok.t, tok.l));
        if end {
            return out;
        }
    }
}

fn tk(t: TokenType, l: &str) -> (TokenType, String) {
    (t, l.to_string())
}

#[test]
fn operators_one_token_per_character() {
    let input = "=+-*/!<>,;(){}";
    let toks = kinds_and_literals(input);
    assert_eq!(toks.len(), input.chars().count() + 1);
    for (i, c) in input.chars().enumerate() {
        assert_eq!(toks[i].1, c.to_string());
    }
    assert_eq!(toks[0].0, TokenType::ASSIGN);
    assert_eq!(toks[5].0, TokenType::BANG);
    assert_eq!(toks[13].0, TokenType::RBRACE);
    assert_eq!(toks[14], tk(TokenType::EOF, ""));
}

#[test]
fn double_equals_is_one_token() {
    assert_eq!(kinds_and_literals("=="), vec![tk(TokenType::EQ, "=="), tk(TokenType::EOF, "")]);
}

#[test]
fn assign_then_identifier() {
    assert_eq!(
        kinds_and_literals("=a"),
        vec![
            tk(TokenType::ASSIGN, "="),
            tk(TokenType::IDENT("a".to_string()), "a"),
            tk(TokenType::EOF, ""),
        ]
    );
}

#[test]
fn bang_forms() {
    assert_eq!(
        kinds_and_literals("!!="),
        vec![tk(TokenType::BANG, "!"), tk(TokenType::NEQ, "!="), tk(TokenType::EOF, "")]
    );
}

#[test]
fn keyword_let_in_any_context() {
    assert_eq!(kinds_and_literals("let"), vec![tk(TokenType::LET, "let"), tk(TokenType::EOF, "")]);
    assert_eq!(
        kinds_and_literals("(let)"),
        vec![
            tk(TokenType::LPAREN, "("),
            tk(TokenType::LET, "let"),
            tk(TokenType::RPAREN, ")"),
            tk(TokenType::EOF, ""),
        ]
    );
}

#[test]
fn longer_word_is_identifier() {
    assert_eq!(
        kinds_and_literals("letx"),
        vec![tk(TokenType::IDENT("letx".to_string()), "letx"), tk(TokenType::EOF, "")]
    );
}

#[test]
fn digits_end_an_identifier() {
    assert_eq!(
        kinds_and_literals("ab12_c"),
        vec![
            tk(TokenType::IDENT("ab".to_string()), "ab"),
            tk(TokenType::INT(12), "12"),
            tk(TokenType::IDENT("_c".to_string()), "_c"),
            tk(TokenType::EOF, ""),
        ]
    );
}

#[test]
fn non_ascii_letters_form_identifiers() {
    assert_eq!(
        kinds_and_literals("caf\u{e9} = 1"),
        vec![
            tk(TokenType::IDENT("caf\u{e9}".to_string()), "caf\u{e9}"),
            tk(TokenType::ASSIGN, "="),
            tk(TokenType::INT(1), "1"),
            tk(TokenType::EOF, ""),
        ]
    );
}

#[test]
fn integer_round_trip() {
    for n in [0i64, 7, 42, 1000, 9876543210, i64::MAX] {
        let s = n.to_string();
        assert_eq!(kinds_and_literals(&s), vec![tk(TokenType::INT(n), &s), tk(TokenType::EOF, "")]);
    }
}

#[test]
fn integer_overflow_is_illegal() {
    let s = "9223372036854775808";
    assert_eq!(kinds_and_literals(s), vec![tk(TokenType::ILLEGAL, s), tk(TokenType::EOF, "")]);
}

#[test]
fn illegal_character_carries_itself() {
    assert_eq!(
        kinds_and_literals("a ? b"),
        vec![
            tk(TokenType::IDENT("a".to_string()), "a"),
            tk(TokenType::ILLEGAL, "?"),
            tk(TokenType::IDENT("b".to_string()), "b"),
            tk(TokenType::EOF, ""),
        ]
    );
}

#[test]
fn end_of_input_repeats() {
    let mut lex = new("x".to_string());
    assert_eq!(lex.next_token().t, TokenType::IDENT("x".to_string()));
    for _ in 0..5 {
        let tok = lex.next_token();
        assert_eq!(tok.t, TokenType::EOF);
        assert_eq!(tok.l, "");
    }
    assert_eq!(lex.position, 6);
    assert_eq!(lex.read_position, 7);
}

#[test]
fn empty_input() {
    let mut lex = new(String::new());
    assert_eq!(lex.current_char, '\0');
    assert_eq!(lex.next_token(), Token { t: TokenType::EOF, l: String::new() });
    assert_eq!(lex.next_token(), Token { t: TokenType::EOF, l: String::new() });
}

#[test]
fn blank_only_input() {
    assert_eq!(kinds_and_literals(" \t\r\n "), vec![tk(TokenType::EOF, "")]);
}

#[test]
fn whitespace_between_tokens_is_ignored() {
    let tight = kinds_and_literals("let x=add(1,y);");
    let loose = kinds_and_literals("  let \t x \n=\r\nadd ( 1 ,\n\n y ) ;  ");
    assert_eq!(tight, loose);
}

#[test]
fn let_five_scenario() {
    assert_eq!(
        kinds_and_literals("let five = 5;"),
        vec![
            tk(TokenType::LET, "let"),
            tk(TokenType::IDENT("five".to_string()), "five"),
            tk(TokenType::ASSIGN, "="),
            tk(TokenType::INT(5), "5"),
            tk(TokenType::SEMICOLON, ";"),
            tk(TokenType::EOF, ""),
        ]
    );
}

#[test]
fn conditional_scenario() {
    let toks = kinds_and_literals("if (5 < 10) { return true; } else { return false; }");
    let expected = vec![
        tk(TokenType::IF, "if"),
        tk(TokenType::LPAREN, "("),
        tk(TokenType::INT(5), "5"),
        tk(TokenType::LT, "<"),
        tk(TokenType::INT(10), "10"),
        tk(TokenType::RPAREN, ")"),
        tk(TokenType::LBRACE, "{"),
        tk(TokenType::RETURN, "return"),
        tk(TokenType::TRUE, "true"),
        tk(TokenType::SEMICOLON, ";"),
        tk(TokenType::RBRACE, "}"),
        tk(TokenType::ELSE, "else"),
    ];
    assert_eq!(toks[..expected.len()].to_vec(), expected);
}

#[test]
fn not_equal_scenario() {
    assert_eq!(
        kinds_and_literals("10 != 9;"),
        vec![
            tk(TokenType::INT(10), "10"),
            tk(TokenType::NEQ, "!="),
            tk(TokenType::INT(9), "9"),
            tk(TokenType::SEMICOLON, ";"),
            tk(TokenType::EOF, ""),
        ]
    );
}

#[test]
fn keyword_table() {
    assert_eq!(lookup_keyword("lambda"), Some(TokenType::FUNC));
    assert_eq!(lookup_keyword("else"), Some(TokenType::ELSE));
    assert_eq!(lookup_keyword("Let"), None);
    assert_eq!(lookup_keyword(""), None);
}

#[test]
fn decimal_parsing() {
    assert_eq!(parse_decimal("0"), Some(0));
    assert_eq!(parse_decimal("00120"), Some(120));
    assert_eq!(parse_decimal("9223372036854775807"), Some(i64::MAX));
    assert_eq!(parse_decimal("9223372036854775808"), None);
}

#[test]
fn cursor_moves_by_characters() {
    let mut lex: Lexer = new("\u{e9}b".to_string());
    assert_eq!(lex.current_char, '\u{e9}');
    lex.read_char();
    assert_eq!((lex.position, lex.read_position, lex.current_char), (1, 2, 'b'));
    lex.read_char();
    assert_eq!(lex.current_char, '\0');
    lex.read_char();
    assert_eq!((lex.position, lex.read_position, lex.current_char), (3, 4, '\0'));
    lex.back_char();
    lex.back_char();
    assert_eq!((lex.position, lex.current_char), (1, 'b'));
}

#[test]
fn read_char_past_empty_input() {
    let mut lex = new(String::new());
    lex.read_char();
    assert_eq!((lex.position, lex.read_position, lex.current_char), (1, 2, '\0'));
}

#[test]
fn nul_inside_input_is_illegal() {
    assert_eq!(
        kinds_and_literals("\0x"),
        vec![
            tk(TokenType::ILLEGAL, "\0"),
            tk(TokenType::IDENT("x".to_string()), "x"),
            tk(TokenType::EOF, ""),
        ]
    );
}

#[test]
fn tokenize_collects_through_end_of_input() {
    let toks = tokenize("let x = 10 != 9;");
    let got: Vec<(TokenType, String)> = toks.into_iter().map(|t| (t.t, t.l)).collect();
    assert_eq!(got, kinds_and_literals("let x = 10 != 9;"));
    assert_eq!(got.len(), 8);
    assert_eq!(tokenize(""), vec![Token { t: TokenType::EOF, l: String::new() }]);
}

#[test]
fn tokenize_ignores_inserted_blanks() {
    assert_eq!(tokenize("if(x){return 1;}"), tokenize("if ( x ) {\n\treturn 1 ;\r\n}\n"));
}

//! Properties of the whole token stream, stated over the scanning model in
//! `lexer` and proved from it.
use vstd::prelude::*;
use vstd::arithmetic::div_mod::lemma_fundamental_div_mod;
use crate::lexer::{
    blank_pred, blank_run, decimal, digit_pred, digit_run, digit_value, head, is_blank,
    is_digit_char, is_letter_char, lemma_run_len_facts, lemma_run_len_is, letter_pred, lex_all,
    lex_step, lexeme, run_len, scan, single_kind, word_run, keyword_kind,
};
use crate::token::{Lexeme, TokenKind};

verus! {

/// A token never consumes more than what is left, and consumes something
/// unless it is the end-of-input token.
pub proof fn lemma_step_bounds(s: Seq<char>)
    ensures
        lex_step(s).1 <= s.len(),
        lex_step(s).1 == 0 ==> lex_step(s).0.kind is Eof,
{
    let b = blank_run(s);
    lemma_run_len_facts(s, blank_pred());
    let r = s.skip(b as int);
    lemma_run_len_facts(r, letter_pred());
    lemma_run_len_facts(r, digit_pred());
    if r.len() > 0 && is_letter_char(r[0]) {
        assert((letter_pred())(r[0]));
    }
    if r.len() > 0 && is_digit_char(r[0]) {
        assert((digit_pred())(r[0]));
    }
}

/// The end-of-input token of a rest.
pub open spec fn eof() -> Lexeme {
    lexeme(TokenKind::Eof, Seq::empty())
}

/// Characters that are tokens by themselves.
pub open spec fn is_operator_char(c: char) -> bool {
    single_kind(c) is Some
}

/// Whether some `=` or `!` in `s` is directly followed by `=`.
pub open spec fn has_two_char_operator(s: Seq<char>) -> bool {
    exists|i: int| 0 <= i < s.len() - 1 && (s[i] == '=' || s[i] == '!') && #[trigger] s[i + 1] == '='
}

/// An input made only of operator and delimiter characters gives one token
/// per character, carrying that character, and then the end-of-input token,
/// provided no `=` or `!` is followed by `=` (those pairs are single tokens).
pub proof fn lemma_operators_one_token_each(s: Seq<char>)
    requires
        forall|i: int| 0 <= i < s.len() ==> is_operator_char(#[trigger] s[i]),
        !has_two_char_operator(s),
    ensures
        lex_all(s) == s.map_values(|c: char| lexeme(single_kind(c)->0, seq![c])).push(eof()),
    decreases s.len(),
{
    let expected = s.map_values(|c: char| lexeme(single_kind(c)->0, seq![c])).push(eof());
    if s.len() == 0 {
        assert(lex_all(s) =~= expected);
    } else {
        assert(!is_blank(s[0]));
        assert(s.skip(0) =~= s);
        if s.len() > 1 {
            assert(!((s[0] == '=' || s[0] == '!') && s[(0 as int) + 1] == '='));
        }
        let rest = s.skip(1);
        assert forall|i: int| 0 <= i < rest.len() implies is_operator_char(#[trigger] rest[i]) by {
            assert(rest[i] == s[i + 1]);
        }
        assert(!has_two_char_operator(rest)) by {
            if has_two_char_operator(rest) {
                let i = choose|i: int| 0 <= i < rest.len() - 1 && (rest[i] == '=' || rest[i] == '!')
                    && #[trigger] rest[i + 1] == '=';
                assert(rest[i] == s[i + 1] && rest[i + 1] == s[(i + 1) + 1]);
            }
        }
        lemma_operators_one_token_each(rest);
        assert(lex_all(s) =~= expected);
    }
}

/// The word `let` is the keyword token wherever it stands, as long as no
/// further letter or underscore is attached to it: when the input left after
/// the blanks starts with it, the next token is `LET` with literal `let`.
pub proof fn lemma_let_is_keyword(s: Seq<char>)
    requires
        s.skip(blank_run(s) as int).len() >= 3,
        s.skip(blank_run(s) as int).take(3) == seq!['l', 'e', 't'],
        !is_letter_char(head(s.skip(blank_run(s) as int).skip(3))),
    ensures
        lex_step(s).0 == lexeme(TokenKind::Let, seq!['l', 'e', 't']),
        lex_step(s).1 == blank_run(s) + 3,
{
    let r = s.skip(blank_run(s) as int);
    let w = seq!['l', 'e', 't'];
    assert(r[0] == r.take(3)[0] && r[1] == r.take(3)[1] && r[2] == r.take(3)[2]);
    assert(r[0] == w[0] && r[1] == w[1] && r[2] == w[2]);
    if r.len() > 3 {
        assert(r.skip(3)[0] == r[3]);
    }
    lemma_run_len_is(r, letter_pred(), 3);
    assert(r.take(3) =~= w);
}

/// A scanned identifier never spells a keyword.
pub proof fn lemma_identifier_not_keyword(s: Seq<char>)
    ensures
        scan(s).0.kind is Ident ==> keyword_kind(scan(s).0.kind->Ident_0) is None,
{
}

/// The decimal digit for `d` in `0..10`.
pub open spec fn digit_char(d: nat) -> char {
    (('0' as nat) + d) as char
}

/// The decimal spelling of `n`, without leading zeros.
pub open spec fn decimal_text(n: nat) -> Seq<char>
    decreases n,
{
    if n < 10 {
        seq![digit_char(n)]
    } else {
        decimal_text(n / 10).push(digit_char(n % 10))
    }
}

proof fn lemma_decimal_text(n: nat)
    ensures
        decimal_text(n).len() >= 1,
        forall|i: int| 0 <= i < decimal_text(n).len() ==> is_digit_char(#[trigger] decimal_text(n)[i]),
        decimal(decimal_text(n)) == n,
    decreases n,
{
    if n >= 10 {
        lemma_decimal_text(n / 10);
        lemma_fundamental_div_mod(n as int, 10);
        let t = decimal_text(n);
        assert(t.drop_last() =~= decimal_text(n / 10));
        assert(t.last() == digit_char(n % 10));
        assert(digit_value(digit_char(n % 10)) == n % 10);
        assert(decimal(t) == decimal(t.drop_last()) * 10 + digit_value(t.last()));
    } else {
        assert(decimal_text(n).drop_last() =~= Seq::<char>::empty());
        assert(decimal(Seq::<char>::empty()) == 0);
        assert(digit_value(digit_char(n)) == n);
    }
}

/// The decimal spelling of any integer that fits in `i64` is read back as a
/// single integer token with that value and that spelling.
pub proof fn lemma_integer_round_trip(n: nat)
    requires
        n <= i64::MAX,
    ensures
        lex_all(decimal_text(n)) == seq![lexeme(TokenKind::Int(n as int), decimal_text(n)), eof()],
{
    let s = decimal_text(n);
    lemma_decimal_text(n);
    assert(!is_blank(s[0]));
    assert(s.skip(0) =~= s);
    lemma_run_len_is(s, digit_pred(), s.len() as int);
    assert(s.take(s.len() as int) =~= s);
    assert(s.skip(s.len() as int) =~= Seq::<char>::empty());
    assert(lex_all(s.skip(s.len() as int)) =~= seq![eof()]);
}

/// The end-of-input token comes only when nothing but blanks is left: it
/// consumes the whole rest, and every further step gives it again.
pub proof fn lemma_exhaustion_is_final(s: Seq<char>)
    requires
        lex_step(s).0.kind is Eof,
    ensures
        lex_step(s).1 == s.len(),
        lex_step(s.skip(lex_step(s).1 as int)) == (eof(), 0nat),
{
    lemma_run_len_facts(s, blank_pred());
    assert(s.skip(s.len() as int) =~= Seq::<char>::empty());
}

/// Whether lexing `s` from its start ends a token exactly `k` characters in,
/// with no end-of-input token before that point (`k == 0` is the start).
pub open spec fn token_boundary(s: Seq<char>, k: int) -> bool
    decreases s.len(),
{
    if k == 0 {
        true
    } else {
        let (t, n) = lex_step(s);
        &&& !(t.kind is Eof)
        &&& 0 < n <= k
        &&& n <= s.len()
        &&& token_boundary(s.skip(n as int), k - n)
    }
}

/// A run over `x + y` where all of `x` satisfies `p` covers `x` and then the
/// run over `y`.
proof fn lemma_run_len_concat(x: Seq<char>, y: Seq<char>, p: spec_fn(char) -> bool)
    requires
        forall|i: int| 0 <= i < x.len() ==> p(#[trigger] x[i]),
    ensures
        run_len(x + y, p) == x.len() + run_len(y, p),
{
    let r = run_len(y, p);
    lemma_run_len_facts(y, p);
    let s = x + y;
    assert forall|i: int| 0 <= i < x.len() + r implies p(#[trigger] s[i]) by {
        if i >= x.len() {
            assert(s[i] == y[i - x.len()]);
        }
    }
    if x.len() + r < s.len() {
        assert(s[x.len() + r as int] == y[r as int]);
    }
    lemma_run_len_is(s, p, x.len() + r as int);
}

/// A token that ends within the first `m` characters of `z1` is read the same
/// from any `z2` that starts with those characters and has a blank (or its
/// end) right after them.
proof fn lemma_scan_prefix(z1: Seq<char>, z2: Seq<char>, m: int)
    requires
        1 <= m <= z1.len(),
        m <= z2.len(),
        z1.take(m) == z2.take(m),
        scan(z1).1 <= m,
        m == z2.len() || is_blank(z2[m]),
    ensures
        scan(z2) == scan(z1),
{
    assert forall|i: int| 0 <= i < m implies z1[i] == z2[i] by {
        assert(z1.take(m)[i] == z1[i]);
        assert(z2.take(m)[i] == z2[i]);
        assert(z1.take(m)[i] == z2.take(m)[i]);
    }
    let c = z1[0];
    if is_letter_char(c) || is_digit_char(c) {
        let p = if is_letter_char(c) { letter_pred() } else { digit_pred() };
        let r = run_len(z1, p);
        lemma_run_len_facts(z1, p);
        assert((p)(c));
        assert(r <= m) by {
            if single_kind(c) is None && c != '\0' {
                if is_letter_char(c) {
                    assert(r == word_run(z1));
                } else {
                    assert(r == digit_run(z1));
                }
            }
        }
        assert forall|i: int| 0 <= i < r implies (p)(#[trigger] z2[i]) by {
            assert(z1[i] == z2[i]);
        }
        if r < m {
            assert(z1[r as int] == z2[r as int]);
        }
        lemma_run_len_is(z2, p, r as int);
        assert(z1.take(r as int) =~= z2.take(r as int));
    }
}

/// Inserting a run of blanks between two tokens leaves the token stream
/// (what `tokenize` returns) unchanged: when lexing `a + b` ends a token right after `a`, then
/// `a + w + b` gives the same tokens for every run `w` of blanks.
pub proof fn lemma_blank_insertion(a: Seq<char>, w: Seq<char>, b: Seq<char>)
    requires
        token_boundary(a + b, a.len() as int),
        forall|i: int| 0 <= i < w.len() ==> is_blank(#[trigger] w[i]),
    ensures
        lex_all(a + w + b) == lex_all(a + b),
    decreases a.len(),
{
    let x = a + b;
    let y = a + w + b;
    if w.len() == 0 {
        assert(y =~= x);
    } else if a.len() == 0 {
        assert(x =~= b);
        assert(y =~= w + b);
        let bb = blank_run(b);
        lemma_run_len_concat(w, b, blank_pred());
        lemma_run_len_facts(b, blank_pred());
        assert((w + b).skip(w.len() + bb as int) =~= b.skip(bb as int));
        lemma_step_bounds(b);
        let n = lex_step(b).1;
        assert((w + b).skip(w.len() + n as int) =~= b.skip(n as int));
    } else {
        let (t, n) = lex_step(x);
        let bb = blank_run(x);
        lemma_run_len_facts(x, blank_pred());
        let z1 = x.skip(bb as int);
        let z2 = y.skip(bb as int);
        assert(bb < n) by {
            if bb == n {
                assert(z1.len() == 0 || z1[0] == '\0' || scan(z1).1 > 0) by {
                    lemma_step_bounds(z1);
                    assert(z1.skip(0) =~= z1);
                    lemma_run_len_facts(z1, blank_pred());
                    if z1.len() > 0 {
                        assert(!is_blank(z1[0]));
                    }
                }
            }
        }
        assert(x[bb as int] == y[bb as int]);
        assert forall|i: int| 0 <= i < bb implies (blank_pred())(#[trigger] y[i]) by {
            assert(x[i] == y[i]);
        }
        lemma_run_len_is(y, blank_pred(), bb as int);
        let m = a.len() - bb;
        assert(z1.take(m) =~= z2.take(m));
        assert(z2[m] == w[0]);
        lemma_scan_prefix(z1, z2, m);
        assert(lex_step(y) == lex_step(x));
        let a2 = a.skip(n as int);
        assert(x.skip(n as int) =~= a2 + b);
        assert(y.skip(n as int) =~= a2 + w + b);
        lemma_blank_insertion(a2, w, b);
    }
}

} // verus!

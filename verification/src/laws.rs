//! What holds of the grammar on every input.

use crate::grammar::{
    is_blank, is_digit, is_letter, is_maximal_run, keyword, lemma_maximal_run_is_run_len,
    lemma_next_token_consumes, lemma_run_len_is_maximal, lex, literal_value, next_token, operator,
    punctuation, run_len, word_token, CharClass,
};
use crate::token::{token_views, Token, TokenView};
use vstd::prelude::*;

verus! {

/// An input has no first token exactly when it holds nothing but blanks; the
/// empty input is one such.
pub proof fn lemma_no_token_iff_blank(s: Seq<char>)
    ensures
        next_token(s) is None <==> (forall|i: int| 0 <= i < s.len() ==> is_blank(#[trigger] s[i])),
{
    lemma_run_len_is_maximal(s, CharClass::Blank);
    let b = run_len(s, CharClass::Blank) as int;
    if forall|i: int| 0 <= i < s.len() ==> is_blank(#[trigger] s[i]) {
        if b < s.len() {
            assert(is_blank(s[b]));
        }
    }
}

/// An input that holds nothing but blanks has no tokens at all, and only
/// such an input has none.
pub proof fn lemma_blank_input_has_no_tokens(s: Seq<char>)
    ensures
        lex(s).len() == 0 <==> (forall|i: int| 0 <= i < s.len() ==> is_blank(#[trigger] s[i])),
{
    lemma_no_token_iff_blank(s);
}

/// A character that is no blank, starts no token of the language and is
/// neither digit nor letter gives one `Illegal` token, and the tokens of what
/// follows it come behind that one as if the character had not been there.
pub proof fn lemma_illegal_character(c: char, rest: Seq<char>)
    requires
        !is_blank(c),
        punctuation(c) is None,
        operator(c) is None,
        !is_digit(c),
        !is_letter(c),
    ensures
        next_token(seq![c] + rest) == Some((TokenView::Illegal, rest)),
        lex(seq![c] + rest) == seq![TokenView::Illegal] + lex(rest),
{
    let s = seq![c] + rest;
    assert(s[0] == c);
    assert(run_len(s, CharClass::Blank) == 0);
    assert(s.skip(0) =~= s);
    assert(s.skip(1) =~= rest);
}

/// Lexing depends on the text alone: two sequences of tokens that were read
/// off the same text agree in length and token by token.
pub proof fn lemma_same_text_same_tokens(code: Seq<char>, first: Seq<Token>, second: Seq<Token>)
    requires
        token_views(first) == lex(code),
        token_views(second) == lex(code),
    ensures
        first.len() == second.len(),
        forall|i: int| 0 <= i < first.len() ==> (#[trigger] first[i])@ == second[i]@,
{
    assert(token_views(first).len() == first.len());
    assert(token_views(second).len() == second.len());
    assert forall|i: int| 0 <= i < first.len() implies (#[trigger] first[i])@ == second[i]@ by {
        assert(token_views(first)[i] == first[i]@);
        assert(token_views(second)[i] == second[i]@);
    }
}

/// An integer literal takes the whole run of digits that it begins: the token
/// holds the value of all `n` of them, they are all digits, and no digit
/// stands behind them.
pub proof fn lemma_literal_is_maximal(s: Seq<char>)
    requires
        s.len() > 0,
        is_digit(s[0]),
    ensures
        ({
            let n = run_len(s, CharClass::Digit) as int;
            &&& n >= 1
            &&& is_maximal_run(s, CharClass::Digit, n)
            &&& next_token(s) == Some((TokenView::Int(literal_value(s.take(n))), s.skip(n)))
        }),
{
    lemma_run_len_is_maximal(s, CharClass::Digit);
    assert(run_len(s, CharClass::Blank) == 0);
    assert(s.skip(0) =~= s);
}

/// A word takes the whole run of letters that it begins: the keyword or the
/// identifier is made of all `n` of them, they are all letters, and no letter
/// stands behind them. An identifier holds the run itself.
pub proof fn lemma_word_is_maximal(s: Seq<char>)
    requires
        s.len() > 0,
        is_letter(s[0]),
    ensures
        ({
            let n = run_len(s, CharClass::Letter) as int;
            &&& n >= 1
            &&& is_maximal_run(s, CharClass::Letter, n)
            &&& next_token(s) == Some((word_token(s.take(n)), s.skip(n)))
            &&& keyword(s.take(n)) is None ==> word_token(s.take(n)) == TokenView::Ident(s.take(n))
        }),
{
    lemma_run_len_is_maximal(s, CharClass::Letter);
    assert(run_len(s, CharClass::Blank) == 0);
    assert(s.skip(0) =~= s);
}

/// Never a prefix of the run: a run that stops before `run_len` can be made
/// longer, so it is not maximal, and no token is read off it.
pub proof fn lemma_no_shorter_run(s: Seq<char>, class: CharClass, n: int)
    requires
        0 <= n < run_len(s, class),
    ensures
        !is_maximal_run(s, class, n),
{
    if is_maximal_run(s, class, n) {
        lemma_maximal_run_is_run_len(s, class, n);
    }
}

/// The end of the input is the end of the sequence: no token of any input is
/// `Eof`.
pub proof fn lemma_no_eof_token(s: Seq<char>)
    ensures
        forall|i: int| 0 <= i < lex(s).len() ==> #[trigger] lex(s)[i] != TokenView::Eof,
    decreases s.len(),
{
    match next_token(s) {
        Some((token, rest)) => {
            lemma_next_token_consumes(s);
            lemma_no_eof_token(rest);
            assert(token != TokenView::Eof);
            assert forall|i: int| 0 <= i < lex(s).len() implies #[trigger] lex(s)[i]
                != TokenView::Eof by {
                if i > 0 {
                    assert(lex(s)[i] == lex(rest)[i - 1]);
                }
            }
        },
        None => {},
    }
}

} // verus!

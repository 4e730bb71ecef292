//! The language's lexical grammar, as functions on sequences of characters.
//!
//! `next_token` says which token an input starts with and what input is left
//! behind it; `lex` is the whole sequence of tokens of an input. The
//! executable lexer is specified by these two.

use crate::token::TokenView;
use vstd::prelude::*;

verus! {

/// The blanks between tokens: space, tab, newline and carriage return.
pub open spec fn is_blank(c: char) -> bool {
    c == ' ' || c == '\t' || c == '\n' || c == '\r'
}

/// An ASCII decimal digit.
pub open spec fn is_digit(c: char) -> bool {
    '0' <= c && c <= '9'
}

/// An ASCII letter, of either case.
pub open spec fn is_letter(c: char) -> bool {
    ('a' <= c && c <= 'z') || ('A' <= c && c <= 'Z')
}

/// The classes of characters that are read in runs.
pub enum CharClass {
    Blank,
    Digit,
    Letter,
}

impl CharClass {
    /// Whether `c` belongs to the class.
    pub open spec fn contains(self, c: char) -> bool {
        match self {
            CharClass::Blank => is_blank(c),
            CharClass::Digit => is_digit(c),
            CharClass::Letter => is_letter(c),
        }
    }
}

/// The length of the longest prefix of `s` whose characters all belong to
/// `class`.
pub open spec fn run_len(s: Seq<char>, class: CharClass) -> nat
    decreases s.len(),
{
    if s.len() > 0 && class.contains(s[0]) {
        1 + run_len(s.drop_first(), class)
    } else {
        0
    }
}

/// `n` characters at the start of `s` form a run of `class` that cannot be
/// made longer: all of them belong to the class, and the character behind
/// them, if there is one, does not.
pub open spec fn is_maximal_run(s: Seq<char>, class: CharClass, n: int) -> bool {
    &&& 0 <= n <= s.len()
    &&& forall|i: int| 0 <= i < n ==> class.contains(#[trigger] s[i])
    &&& n < s.len() ==> !class.contains(s[n])
}

/// The value of a decimal digit; zero for any other character.
pub open spec fn digit_value(c: char) -> nat {
    if is_digit(c) {
        (c as int - '0' as int) as nat
    } else {
        0
    }
}

/// The number that a sequence of digits denotes in base ten, the first digit
/// being the most significant. Leading zeros do not count.
pub open spec fn decimal_value(digits: Seq<char>) -> nat
    decreases digits.len(),
{
    if digits.len() == 0 {
        0
    } else {
        10 * decimal_value(digits.drop_last()) + digit_value(digits.last())
    }
}

/// The value of an integer literal: the number that its digits denote, or
/// `usize::MAX` where that number is larger.
pub open spec fn literal_value(digits: Seq<char>) -> nat {
    if decimal_value(digits) <= usize::MAX {
        decimal_value(digits)
    } else {
        usize::MAX as nat
    }
}

/// The reserved word that `word` spells, if it spells one.
pub open spec fn keyword(word: Seq<char>) -> Option<TokenView> {
    if word == "fn"@ {
        Some(TokenView::Function)
    } else if word == "let"@ {
        Some(TokenView::Let)
    } else if word == "if"@ {
        Some(TokenView::If)
    } else if word == "else"@ {
        Some(TokenView::Else)
    } else {
        None
    }
}

/// The token of a run of letters: its keyword, or else an identifier that
/// holds the run.
pub open spec fn word_token(word: Seq<char>) -> TokenView {
    match keyword(word) {
        Some(reserved) => reserved,
        None => TokenView::Ident(word),
    }
}

/// The token that `c` is by itself, whatever follows it.
pub open spec fn punctuation(c: char) -> Option<TokenView> {
    if c == ',' {
        Some(TokenView::Comma)
    } else if c == ';' {
        Some(TokenView::Semicolon)
    } else if c == '(' {
        Some(TokenView::LParen)
    } else if c == ')' {
        Some(TokenView::RParen)
    } else if c == '{' {
        Some(TokenView::LBrace)
    } else if c == '}' {
        Some(TokenView::RBrace)
    } else if c == '/' {
        Some(TokenView::Slash)
    } else if c == '+' {
        Some(TokenView::Plus)
    } else if c == '-' {
        Some(TokenView::Minus)
    } else {
        None
    }
}

/// For a character that begins both a one-character operator and, with `=`
/// behind it, a two-character one: the pair of them, the short one first.
pub open spec fn operator(c: char) -> Option<(TokenView, TokenView)> {
    if c == '!' {
        Some((TokenView::Bang, TokenView::NotEqual))
    } else if c == '=' {
        Some((TokenView::Assign, TokenView::Equal))
    } else if c == '>' {
        Some((TokenView::Gt, TokenView::Ge))
    } else if c == '<' {
        Some((TokenView::Lt, TokenView::Le))
    } else {
        None
    }
}

/// The token at the very start of `s`, and the number of characters that it
/// takes up. Meant for an `s` that begins with a character other than a blank.
pub open spec fn scan(s: Seq<char>) -> (TokenView, nat)
    recommends
        s.len() > 0,
{
    let c = s[0];
    if let Some(token) = punctuation(c) {
        (token, 1)
    } else if let Some((short, long)) = operator(c) {
        if s.len() > 1 && s[1] == '=' {
            (long, 2)
        } else {
            (short, 1)
        }
    } else if is_digit(c) {
        let n = run_len(s, CharClass::Digit);
        (TokenView::Int(literal_value(s.take(n as int))), n)
    } else if is_letter(c) {
        let n = run_len(s, CharClass::Letter);
        (word_token(s.take(n as int)), n)
    } else {
        (TokenView::Illegal, 1)
    }
}

/// The first token of `s` and the input that is left behind it, or `None`
/// where `s` holds nothing but blanks.
pub open spec fn next_token(s: Seq<char>) -> Option<(TokenView, Seq<char>)> {
    let t = s.skip(run_len(s, CharClass::Blank) as int);
    if t.len() == 0 {
        None
    } else {
        Some((scan(t).0, t.skip(scan(t).1 as int)))
    }
}

/// All the tokens of `s`, in the order in which they stand in it.
pub open spec fn lex(s: Seq<char>) -> Seq<TokenView>
    decreases s.len(),
    via lex_decreases
{
    match next_token(s) {
        Some((token, rest)) => seq![token] + lex(rest),
        None => Seq::empty(),
    }
}

#[via_fn]
proof fn lex_decreases(s: Seq<char>) {
    lemma_next_token_consumes(s);
}

/// A run is no longer than the input, holds only characters of its class, and
/// ends where the input ends or a character of another kind stands.
pub proof fn lemma_run_len_is_maximal(s: Seq<char>, class: CharClass)
    ensures
        is_maximal_run(s, class, run_len(s, class) as int),
    decreases s.len(),
{
    if s.len() > 0 && class.contains(s[0]) {
        let tail = s.drop_first();
        lemma_run_len_is_maximal(tail, class);
        let n = run_len(s, class) as int;
        assert forall|i: int| 0 <= i < n implies class.contains(#[trigger] s[i]) by {
            if i > 0 {
                assert(s[i] == tail[i - 1]);
            }
        }
        if n < s.len() {
            assert(s[n] == tail[n - 1]);
        }
    }
}

/// There is one maximal run at the start of an input: any `n` that is one is
/// `run_len`.
pub proof fn lemma_maximal_run_is_run_len(s: Seq<char>, class: CharClass, n: int)
    requires
        is_maximal_run(s, class, n),
    ensures
        run_len(s, class) == n,
    decreases s.len(),
{
    if n > 0 {
        let tail = s.drop_first();
        assert(class.contains(s[0]));
        assert forall|i: int| 0 <= i < n - 1 implies class.contains(#[trigger] tail[i]) by {
            assert(tail[i] == s[i + 1]);
        }
        if n - 1 < tail.len() {
            assert(tail[n - 1] == s[n]);
        }
        lemma_maximal_run_is_run_len(tail, class, n - 1);
    }
}

/// A token takes up at least one character and no more than there are.
pub proof fn lemma_scan_consumes(s: Seq<char>)
    requires
        s.len() > 0,
    ensures
        1 <= scan(s).1 <= s.len(),
{
    lemma_run_len_is_maximal(s, CharClass::Digit);
    lemma_run_len_is_maximal(s, CharClass::Letter);
}

/// No character is read twice: what is left behind a token is a proper suffix
/// of the input.
pub proof fn lemma_next_token_consumes(s: Seq<char>)
    ensures
        next_token(s) matches Some((_, rest)) ==> {
            &&& rest.len() < s.len()
            &&& rest == s.skip(s.len() - rest.len())
        },
{
    let b = run_len(s, CharClass::Blank) as int;
    lemma_run_len_is_maximal(s, CharClass::Blank);
    let t = s.skip(b);
    if t.len() > 0 {
        lemma_scan_consumes(t);
        let n = scan(t).1 as int;
        assert(t.skip(n) =~= s.skip(b + n));
    }
}

} // verus!

use crate::grammar::{
    digit_value, is_blank, is_digit, is_letter, is_maximal_run, keyword,
    lemma_maximal_run_is_run_len, lemma_next_token_consumes, lex, literal_value, next_token,
    run_len, CharClass,
};
use vstd::prelude::*;

verus! {

/// One lexical unit of the language.
#[derive(Debug, PartialEq)]
pub enum Token {
    Illegal,
    Eof,
    // Identifiers + literals
    Ident(String),
    Int(usize),
    // Operators
    Assign,
    Plus,
    Minus,
    Bang,
    Slash,
    Equal,
    NotEqual,
    Lt,
    Gt,
    Le,
    Ge,
    // Delimiters
    Comma,
    Semicolon,
    LParen,
    RParen,
    LBrace,
    RBrace,
    // Keywords
    Function,
    Let,
    If,
    Else,
}

/// The mathematical value of a token: the same variants, an identifier's
/// spelling as a sequence of characters and a literal's value as a natural
/// number.
pub enum TokenView {
    Illegal,
    Eof,
    Ident(Seq<char>),
    Int(nat),
    Assign,
    Plus,
    Minus,
    Bang,
    Slash,
    Equal,
    NotEqual,
    Lt,
    Gt,
    Le,
    Ge,
    Comma,
    Semicolon,
    LParen,
    RParen,
    LBrace,
    RBrace,
    Function,
    Let,
    If,
    Else,
}

impl View for Token {
    type V = TokenView;

    open spec fn view(&self) -> TokenView {
        match self {
            Token::Illegal => TokenView::Illegal,
            Token::Eof => TokenView::Eof,
            Token::Ident(name) => TokenView::Ident(name@),
            Token::Int(value) => TokenView::Int(*value as nat),
            Token::Assign => TokenView::Assign,
            Token::Plus => TokenView::Plus,
            Token::Minus => TokenView::Minus,
            Token::Bang => TokenView::Bang,
            Token::Slash => TokenView::Slash,
            Token::Equal => TokenView::Equal,
            Token::NotEqual => TokenView::NotEqual,
            Token::Lt => TokenView::Lt,
            Token::Gt => TokenView::Gt,
            Token::Le => TokenView::Le,
            Token::Ge => TokenView::Ge,
            Token::Comma => TokenView::Comma,
            Token::Semicolon => TokenView::Semicolon,
            Token::LParen => TokenView::LParen,
            Token::RParen => TokenView::RParen,
            Token::LBrace => TokenView::LBrace,
            Token::RBrace => TokenView::RBrace,
            Token::Function => TokenView::Function,
            Token::Let => TokenView::Let,
            Token::If => TokenView::If,
            Token::Else => TokenView::Else,
        }
    }
}

impl Clone for Token {
    fn clone(&self) -> (copy: Token)
        ensures
            copy == *self,
    {
        match self {
            Token::Illegal => Token::Illegal,
            Token::Eof => Token::Eof,
            Token::Ident(name) => Token::Ident(name.clone()),
            Token::Int(value) => Token::Int(*value),
            Token::Assign => Token::Assign,
            Token::Plus => Token::Plus,
            Token::Minus => Token::Minus,
            Token::Bang => Token::Bang,
            Token::Slash => Token::Slash,
            Token::Equal => Token::Equal,
            Token::NotEqual => Token::NotEqual,
            Token::Lt => Token::Lt,
            Token::Gt => Token::Gt,
            Token::Le => Token::Le,
            Token::Ge => Token::Ge,
            Token::Comma => Token::Comma,
            Token::Semicolon => Token::Semicolon,
            Token::LParen => Token::LParen,
            Token::RParen => Token::RParen,
            Token::LBrace => Token::LBrace,
            Token::RBrace => Token::RBrace,
            Token::Function => Token::Function,
            Token::Let => Token::Let,
            Token::If => Token::If,
            Token::Else => Token::Else,
        }
    }
}

/// The values of a sequence of tokens, one by one.
pub open spec fn token_views(tokens: Seq<Token>) -> Seq<TokenView> {
    tokens.map_values(|t: Token| t@)
}

/// A cursor over the characters of a source text, and the lexer that reads
/// tokens off it. It is used once: it moves forward only, and a new text takes
/// a new `Lexer`.
#[derive(Debug)]
pub struct Lexer {
    chars: Vec<char>,
    pos: usize,
}

impl View for Lexer {
    type V = Seq<char>;

    /// The input that has not been read yet.
    closed spec fn view(&self) -> Seq<char> {
        self.chars@.skip(self.pos as int)
    }
}

impl Lexer {
    #[verifier::type_invariant]
    spec fn cursor_in_bounds(&self) -> bool {
        self.pos <= self.chars@.len()
    }

    /// A lexer that stands at the start of `code`.
    pub fn new(code: &str) -> (lexer: Lexer)
        ensures
            lexer@ == code@,
    {
        let mut chars: Vec<char> = Vec::new();
        for c in it: code.chars()
            invariant
                chars@ == it.seq().take(it.index() as int),
        {
            chars.push(c);
        }
        Lexer { chars, pos: 0 }
    }

    /// The next character, which stays unread; `None` at the end of the input.
    pub fn peek(&self) -> (c: Option<char>)
        ensures
            c == if self@.len() > 0 {
                Some(self@[0])
            } else {
                None
            },
    {
        proof {
            use_type_invariant(self);
        }
        if self.pos < self.chars.len() {
            Some(self.chars[self.pos])
        } else {
            None
        }
    }

    /// Reads the next character; `None` at the end of the input, where nothing
    /// changes.
    pub fn read_char(&mut self) -> (c: Option<char>)
        ensures
            old(self)@.len() > 0 ==> c == Some(old(self)@[0]) && final(self)@ == old(self)@.drop_first(),
            old(self)@.len() == 0 ==> c is None && final(self)@ == old(self)@,
    {
        proof {
            use_type_invariant(&*self);
        }
        if self.pos < self.chars.len() {
            let c = self.chars[self.pos];
            self.pos = self.pos + 1;
            assert(self@ =~= old(self)@.drop_first());
            Some(c)
        } else {
            None
        }
    }

    /// Reads past the blanks at the cursor, as many as there are and no more.
    pub fn skip_whitespace(&mut self)
        ensures
            final(self)@ == old(self)@.skip(run_len(old(self)@, CharClass::Blank) as int),
    {
        let ghost mut skipped: int = 0;
        loop
            invariant
                0 <= skipped <= old(self)@.len(),
                self@ == old(self)@.skip(skipped),
                forall|i: int| 0 <= i < skipped ==> is_blank(#[trigger] old(self)@[i]),
            ensures
                self@ == old(self)@.skip(skipped),
                is_maximal_run(old(self)@, CharClass::Blank, skipped),
            decreases self@.len(),
        {
            match self.peek() {
                Some(c) => {
                    if !blank(c) {
                        break ;
                    }
                    self.read_char();
                    proof {
                        assert(self@ =~= old(self)@.skip(skipped + 1));
                        skipped = skipped + 1;
                    }
                },
                None => {
                    break ;
                },
            }
        }
        proof {
            lemma_maximal_run_is_run_len(old(self)@, CharClass::Blank, skipped);
        }
    }

    /// Reads on for as long as the next character satisfies `f`, and returns
    /// the run: `c`, which the caller has read just before and which `f` is
    /// not asked about, and behind it the characters read here, in their
    /// order. The first character that fails `f` stays unread.
    pub fn keep_reading<F: Fn(&char) -> bool>(&mut self, c: char, f: F) -> (out: Vec<char>)
        requires
            forall|x: char| call_requires(f, (&x,)),
        ensures
            out@.len() >= 1,
            out@[0] == c,
            old(self)@ == out@.skip(1) + final(self)@,
            forall|i: int| 1 <= i < out@.len() ==> call_ensures(f, (&#[trigger] out@[i],), true),
            final(self)@.len() > 0 ==> call_ensures(f, (&final(self)@[0],), false),
    {
        let mut out: Vec<char> = Vec::new();
        out.push(c);
        loop
            invariant
                forall|x: char| call_requires(f, (&x,)),
                out@.len() >= 1,
                out@[0] == c,
                old(self)@ == out@.skip(1) + self@,
                forall|i: int| 1 <= i < out@.len() ==> call_ensures(f, (&#[trigger] out@[i],), true),
            ensures
                out@.len() >= 1,
                out@[0] == c,
                old(self)@ == out@.skip(1) + self@,
                forall|i: int| 1 <= i < out@.len() ==> call_ensures(f, (&#[trigger] out@[i],), true),
                self@.len() > 0 ==> call_ensures(f, (&self@[0],), false),
            decreases self@.len(),
        {
            match self.peek() {
                Some(val) => {
                    if !f(&val) {
                        break ;
                    }
                    let ghost before = self@;
                    let ghost read = out@;
                    self.read_char();
                    out.push(val);
                    assert(out@.skip(1) + self@ =~= read.skip(1) + before);
                },
                None => {
                    break ;
                },
            }
        }
        out
    }

    /// Reads the next character if it is `=`, and says whether it did.
    fn read_equals(&mut self) -> (found: bool)
        ensures
            found == (old(self)@.len() > 0 && old(self)@[0] == '='),
            found ==> final(self)@ == old(self)@.drop_first(),
            !found ==> final(self)@ == old(self)@,
    {
        match self.peek() {
            Some(c) => {
                if c == '=' {
                    self.read_char();
                    true
                } else {
                    false
                }
            },
            None => false,
        }
    }

    /// Reads the next token: `Some` of it, or `None` once nothing but blanks
    /// is left, which is how the sequence of tokens ends (no `Token::Eof`
    /// marks the end).
    ///
    /// Blanks before the token are skipped. An operator takes a following `=`
    /// with it where that makes a longer operator; digits and letters are read
    /// in runs as long as they go. A run of letters that spells a reserved
    /// word is that keyword, any other an identifier. A character that starts
    /// no token is `Token::Illegal` by itself, and reading goes on behind it.
    ///
    /// A literal too large for `usize` does not stop the lexer: its value is
    /// `usize::MAX`.
    pub fn next(&mut self) -> (token: Option<Token>)
        ensures
            match next_token(old(self)@) {
                Some((expected, rest)) => {
                    &&& token matches Some(t)
                    &&& t@ == expected
                    &&& final(self)@ == rest
                },
                None => token is None && final(self)@.len() == 0,
            },
    {
        self.skip_whitespace();
        let ghost t = self@;
        let first = self.read_char();
        proof {
            if t.len() > 0 {
                assert(t.drop_first() =~= t.skip(1));
                if t.len() > 1 {
                    assert(t.drop_first().drop_first() =~= t.skip(2));
                }
            }
        }
        match first {
            Some(',') => Some(Token::Comma),
            Some(';') => Some(Token::Semicolon),
            Some('(') => Some(Token::LParen),
            Some(')') => Some(Token::RParen),
            Some('{') => Some(Token::LBrace),
            Some('}') => Some(Token::RBrace),
            Some('/') => Some(Token::Slash),
            Some('+') => Some(Token::Plus),
            Some('-') => Some(Token::Minus),
            Some('!') => {
                if self.read_equals() {
                    Some(Token::NotEqual)
                } else {
                    Some(Token::Bang)
                }
            },
            Some('=') => {
                if self.read_equals() {
                    Some(Token::Equal)
                } else {
                    Some(Token::Assign)
                }
            },
            Some('>') => {
                if self.read_equals() {
                    Some(Token::Ge)
                } else {
                    Some(Token::Gt)
                }
            },
            Some('<') => {
                if self.read_equals() {
                    Some(Token::Le)
                } else {
                    Some(Token::Lt)
                }
            },
            Some(c) => {
                if digit(c) {
                    let in_run = |x: &char| -> (b: bool)
                        ensures
                            b == is_digit(*x),
                        {
                            digit(*x)
                        };
                    let run = self.keep_reading(c, in_run);
                    proof {
                        lemma_run_was_read(t, run@, self@, CharClass::Digit);
                    }
                    Some(Token::Int(decimal(&run)))
                } else if letter(c) {
                    let in_run = |x: &char| -> (b: bool)
                        ensures
                            b == is_letter(*x),
                        {
                            letter(*x)
                        };
                    let run = self.keep_reading(c, in_run);
                    proof {
                        lemma_run_was_read(t, run@, self@, CharClass::Letter);
                    }
                    match reserved(&run) {
                        Some(token) => Some(token),
                        None => Some(Token::Ident(spelling(&run))),
                    }
                } else {
                    Some(Token::Illegal)
                }
            },
            None => None,
        }
    }

    /// Reads all the tokens that are left, in their order.
    pub fn collect(self) -> (tokens: Vec<Token>)
        ensures
            token_views(tokens@) == lex(self@),
    {
        let mut lexer = self;
        let mut tokens: Vec<Token> = Vec::new();
        loop
            invariant
                token_views(tokens@) + lex(lexer@) == lex(self@),
            ensures
                token_views(tokens@) == lex(self@),
            decreases lexer@.len(),
        {
            let ghost read = tokens@;
            proof {
                lemma_next_token_consumes(lexer@);
            }
            match lexer.next() {
                Some(token) => {
                    tokens.push(token);
                    assert(token_views(tokens@) =~= token_views(read).push(token@));
                    assert(token_views(tokens@) + lex(lexer@) =~= token_views(read) + (seq![token@]
                        + lex(lexer@)));
                },
                None => {
                    assert(token_views(tokens@) + Seq::<TokenView>::empty() =~= token_views(
                        tokens@,
                    ));
                    break ;
                },
            }
        }
        tokens
    }
}

/// The tokens of `code`, in their order. The same text gives the same tokens
/// every time: they depend on nothing else.
pub fn tokenize(code: &str) -> (tokens: Vec<Token>)
    ensures
        token_views(tokens@) == lex(code@),
{
    Lexer::new(code).collect()
}

/// What `keep_reading` hands back on an input `t` that begins a run of
/// `class`: the longest such run, with the rest of `t` left unread.
proof fn lemma_run_was_read(t: Seq<char>, run: Seq<char>, rest: Seq<char>, class: CharClass)
    requires
        t.len() > 0,
        class.contains(t[0]),
        run.len() >= 1,
        run[0] == t[0],
        t.drop_first() == run.skip(1) + rest,
        forall|i: int| 1 <= i < run.len() ==> class.contains(#[trigger] run[i]),
        rest.len() > 0 ==> !class.contains(rest[0]),
    ensures
        run == t.take(run_len(t, class) as int),
        rest == t.skip(run_len(t, class) as int),
{
    let n = run.len() as int;
    let tail = run.skip(1) + rest;
    assert(t.len() == n + rest.len()) by {
        assert(t.drop_first().len() == tail.len());
    }
    assert forall|i: int| 0 <= i < t.len() implies t[i] == (run + rest)[i] by {
        if i > 0 {
            assert(t[i] == t.drop_first()[i - 1]);
            assert(tail[i - 1] == (run + rest)[i]);
        }
    }
    assert(t =~= run + rest);
    lemma_maximal_run_is_run_len(t, class, n);
    assert(t.take(n) =~= run);
    assert(t.skip(n) =~= rest);
}

/// Tells whether `c` is a blank.
fn blank(c: char) -> (b: bool)
    ensures
        b == is_blank(c),
{
    c == ' ' || c == '\t' || c == '\n' || c == '\r'
}

/// Tells whether `c` is an ASCII decimal digit.
fn digit(c: char) -> (b: bool)
    ensures
        b == is_digit(c),
{
    '0' <= c && c <= '9'
}

/// Tells whether `c` is an ASCII letter.
fn letter(c: char) -> (b: bool)
    ensures
        b == is_letter(c),
{
    ('a' <= c && c <= 'z') || ('A' <= c && c <= 'Z')
}

/// The keyword that `word` spells, if it spells one.
fn reserved(word: &Vec<char>) -> (token: Option<Token>)
    ensures
        match token {
            Some(t) => keyword(word@) == Some(t@),
            None => keyword(word@) is None,
        },
{
    proof {
        reveal_strlit("fn");
        reveal_strlit("let");
        reveal_strlit("if");
        reveal_strlit("else");
    }
    let n = word.len();
    if n == 2 && word[0] == 'f' && word[1] == 'n' {
        assert(word@ =~= "fn"@);
        Some(Token::Function)
    } else if n == 3 && word[0] == 'l' && word[1] == 'e' && word[2] == 't' {
        assert(word@ =~= "let"@);
        Some(Token::Let)
    } else if n == 2 && word[0] == 'i' && word[1] == 'f' {
        assert(word@ =~= "if"@);
        Some(Token::If)
    } else if n == 4 && word[0] == 'e' && word[1] == 'l' && word[2] == 's' && word[3] == 'e' {
        assert(word@ =~= "else"@);
        Some(Token::Else)
    } else {
        None
    }
}

/// The value of a literal, from its digits.
fn decimal(digits: &Vec<char>) -> (value: usize)
    ensures
        value == literal_value(digits@),
{
    let mut value: usize = 0;
    let mut i: usize = 0;
    while i < digits.len()
        invariant
            i <= digits.len(),
            value == literal_value(digits@.take(i as int)),
        decreases digits.len() - i,
    {
        let c = digits[i];
        let d: usize = if digit(c) {
            (c as u32 - '0' as u32) as usize
        } else {
            0
        };
        proof {
            let read = digits@.take(i as int + 1);
            assert(read.drop_last() =~= digits@.take(i as int));
            assert(read.last() == c);
            assert(d == digit_value(c));
        }
        value = match value.checked_mul(10) {
            Some(tens) => match tens.checked_add(d) {
                Some(sum) => sum,
                None => usize::MAX,
            },
            None => usize::MAX,
        };
        i = i + 1;
    }
    assert(digits@.take(i as int) =~= digits@);
    value
}

/// The string that holds `chars`, in their order.
fn spelling(chars: &Vec<char>) -> (s: String)
    ensures
        s@ == chars@,
{
    let mut s = String::new();
    let mut i: usize = 0;
    while i < chars.len()
        invariant
            i <= chars.len(),
            s@ == chars@.take(i as int),
        decreases chars.len() - i,
    {
        s.push(chars[i]);
        assert(chars@.take(i as int + 1) =~= chars@.take(i as int).push(chars@[i as int]));
        i = i + 1;
    }
    assert(chars@.take(i as int) =~= chars@);
    s
}

/// `String::push` appends the character to the end of the string and leaves
/// the rest of it as it was.
pub assume_specification[ String::push ](s: &mut String, ch: char)
    ensures
        final(s)@ == old(s)@.push(ch),
;

} // verus!

use vstd::prelude::*;

use crate::ast::{lemma_nodes_view, name_view, names_view, nodes_view, Bound, Mut, Node, Op};
use crate::ast::Term;
use crate::num::{num_of_int, Num};

verus! {

/// A lexical token.
#[derive(Debug)]
pub enum Token {
    Int(i64),
    Str(String),
    Name(String),
    Let,
    Mut,
    Fn,
    If,
    Then,
    Else,
    End,
    For,
    In,
    Do,
    While,
    LParen,
    RParen,
    LBracket,
    RBracket,
    Comma,
    Semi,
    Assign,
    Plus,
    Minus,
    Star,
    Slash,
    Caret,
    Bang,
    EqEq,
    NotEq,
    Lt,
    Le,
    Gt,
    Ge,
}

/// Why a source text was rejected; `at` is a character offset into it.
#[derive(Debug, Clone, Copy, PartialEq, Eq, Structural)]
pub enum ParseError {
    /// The text does not match the grammar.
    Syntax { at: usize },
    /// A numeric literal that cannot be read.
    Lexical { at: usize },
    /// An operator that is reserved (`^`, postfix `!`).
    Reserved { at: usize },
}

/// The characters of the text, in order.
fn chars_of(s: &str) -> (r: Vec<char>)
    ensures
        r@ == s@,
{
    let n = s.unicode_len();
    let mut v: Vec<char> = Vec::new();
    let mut i: usize = 0;
    while i < n
        invariant
            n == s@.len(),
            i <= n,
            v@ == s@.subrange(0, i as int),
        decreases n - i,
    {
        v.push(s.get_char(i));
        i = i + 1;
        assert(v@ =~= s@.subrange(0, i as int));
    }
    assert(s@.subrange(0, n as int) =~= s@);
    v
}

/// Relies on `String::from_iter` over `char`s: the string of exactly these characters.
#[verifier::external_body]
pub(crate) fn string_of(cs: Vec<char>) -> (r: String)
    ensures
        r@ == cs@,
{
    String::from_iter(cs)
}

pub open spec fn is_digit(c: char) -> bool {
    '0' <= c <= '9'
}

pub open spec fn is_name_start(c: char) -> bool {
    ('a' <= c <= 'z') || ('A' <= c <= 'Z') || c == '_'
}

pub open spec fn is_name_char(c: char) -> bool {
    is_name_start(c) || is_digit(c)
}

pub open spec fn digit_value(c: char) -> int {
    (c as int) - ('0' as int)
}

/// The value of a string of decimal digits.
pub open spec fn digits_value(s: Seq<char>) -> int
    decreases s.len(),
{
    if s.len() == 0 {
        0
    } else {
        digits_value(s.drop_last()) * 10 + digit_value(s.last())
    }
}

proof fn lemma_digits_nonneg(s: Seq<char>)
    requires
        forall|i: int| 0 <= i < s.len() ==> is_digit(#[trigger] s[i]),
    ensures
        digits_value(s) >= 0,
    decreases s.len(),
{
    if s.len() > 0 {
        lemma_digits_nonneg(s.drop_last());
    }
}

/// Reads the decimal digits `cs[i..j]`.
pub fn read_int(cs: &Vec<char>, i: usize, j: usize) -> (r: Option<i64>)
    requires
        i <= j <= cs@.len(),
        forall|k: int| i <= k < j ==> is_digit(#[trigger] cs@[k]),
    ensures
        match r {
            Some(v) => v == digits_value(cs@.subrange(i as int, j as int)),
            None => digits_value(cs@.subrange(i as int, j as int)) > i64::MAX,
        },
{
    let mut v: i64 = 0;
    let mut k: usize = i;
    while k < j
        invariant
            i <= k <= j <= cs@.len(),
            forall|m: int| i <= m < j ==> is_digit(#[trigger] cs@[m]),
            v == digits_value(cs@.subrange(i as int, k as int)),
        decreases j - k,
    {
        let d = (cs[k] as u32 - '0' as u32) as i64;
        assert(cs@.subrange(i as int, k + 1).drop_last() =~= cs@.subrange(i as int, k as int));
        if v > (i64::MAX - d) / 10 {
            proof {
                let rest = cs@.subrange(k + 1, j as int);
                lemma_digits_prefix(cs@.subrange(i as int, j as int), (k + 1 - i) as int);
                assert(cs@.subrange(i as int, j as int).subrange(0, (k + 1 - i) as int) =~= cs@.subrange(i as int, k + 1));
            }
            return None;
        }
        proof {
            lemma_digits_nonneg(cs@.subrange(i as int, k as int));
            assert(v * 10 + d <= i64::MAX) by (nonlinear_arith)
                requires
                    0 <= v <= (i64::MAX - d) / 10,
                    0 <= d <= 9,
            ;
        }
        v = v * 10 + d;
        k = k + 1;
    }
    Some(v)
}

/// A number never shrinks as digits are appended.
proof fn lemma_digits_prefix(s: Seq<char>, n: int)
    requires
        0 <= n <= s.len(),
        forall|i: int| 0 <= i < s.len() ==> is_digit(#[trigger] s[i]),
    ensures
        digits_value(s) >= digits_value(s.subrange(0, n)),
    decreases s.len(),
{
    if n < s.len() {
        assert(s.drop_last().subrange(0, n) =~= s.subrange(0, n));
        lemma_digits_prefix(s.drop_last(), n);
        lemma_digits_nonneg(s.drop_last());
    } else {
        assert(s.subrange(0, n) =~= s);
    }
}

/// The mathematical value of a token: names and string contents as character sequences.
pub enum TokenView {
    Int(i64),
    Str(Seq<char>),
    Name(Seq<char>),
    Let,
    Mut,
    Fn,
    If,
    Then,
    Else,
    End,
    For,
    In,
    Do,
    While,
    LParen,
    RParen,
    LBracket,
    RBracket,
    Comma,
    Semi,
    Assign,
    Plus,
    Minus,
    Star,
    Slash,
    Caret,
    Bang,
    EqEq,
    NotEq,
    Lt,
    Le,
    Gt,
    Ge,
}

impl Token {
    pub open spec fn view(&self) -> TokenView {
        match self {
            Token::Int(v) => TokenView::Int(*v),
            Token::Str(s) => TokenView::Str(s@),
            Token::Name(s) => TokenView::Name(s@),
            Token::Let => TokenView::Let,
            Token::Mut => TokenView::Mut,
            Token::Fn => TokenView::Fn,
            Token::If => TokenView::If,
            Token::Then => TokenView::Then,
            Token::Else => TokenView::Else,
            Token::End => TokenView::End,
            Token::For => TokenView::For,
            Token::In => TokenView::In,
            Token::Do => TokenView::Do,
            Token::While => TokenView::While,
            Token::LParen => TokenView::LParen,
            Token::RParen => TokenView::RParen,
            Token::LBracket => TokenView::LBracket,
            Token::RBracket => TokenView::RBracket,
            Token::Comma => TokenView::Comma,
            Token::Semi => TokenView::Semi,
            Token::Assign => TokenView::Assign,
            Token::Plus => TokenView::Plus,
            Token::Minus => TokenView::Minus,
            Token::Star => TokenView::Star,
            Token::Slash => TokenView::Slash,
            Token::Caret => TokenView::Caret,
            Token::Bang => TokenView::Bang,
            Token::EqEq => TokenView::EqEq,
            Token::NotEq => TokenView::NotEq,
            Token::Lt => TokenView::Lt,
            Token::Le => TokenView::Le,
            Token::Gt => TokenView::Gt,
            Token::Ge => TokenView::Ge,
        }
    }
}

pub open spec fn toks_view(s: Seq<Token>) -> Seq<TokenView> {
    s.map_values(|t: Token| t.view())
}

pub open spec fn is_space(c: char) -> bool {
    c == ' ' || c == '\n' || c == '\t' || c == '\r'
}

/// The keyword a word spells, else a name.
pub open spec fn word_view(w: Seq<char>) -> TokenView {
    if w == seq!['l', 'e', 't'] {
        TokenView::Let
    } else if w == seq!['m', 'u', 't'] {
        TokenView::Mut
    } else if w == seq!['f', 'n'] {
        TokenView::Fn
    } else if w == seq!['i', 'f'] {
        TokenView::If
    } else if w == seq!['t', 'h', 'e', 'n'] {
        TokenView::Then
    } else if w == seq!['e', 'l', 's', 'e'] {
        TokenView::Else
    } else if w == seq!['e', 'n', 'd'] {
        TokenView::End
    } else if w == seq!['f', 'o', 'r'] {
        TokenView::For
    } else if w == seq!['i', 'n'] {
        TokenView::In
    } else if w == seq!['d', 'o'] {
        TokenView::Do
    } else if w == seq!['w', 'h', 'i', 'l', 'e'] {
        TokenView::While
    } else {
        TokenView::Name(w)
    }
}

/// The symbol at `cs[i]` with its length: two characters where the pair is one.
pub open spec fn symbol_spec(cs: Seq<char>, i: int) -> Option<(TokenView, int)> {
    let c = cs[i];
    let next = if i + 1 < cs.len() { cs[i + 1] } else { ' ' };
    if c == '(' {
        Some((TokenView::LParen, 1))
    } else if c == ')' {
        Some((TokenView::RParen, 1))
    } else if c == '[' {
        Some((TokenView::LBracket, 1))
    } else if c == ']' {
        Some((TokenView::RBracket, 1))
    } else if c == ',' {
        Some((TokenView::Comma, 1))
    } else if c == ';' {
        Some((TokenView::Semi, 1))
    } else if c == '+' {
        Some((TokenView::Plus, 1))
    } else if c == '-' {
        Some((TokenView::Minus, 1))
    } else if c == '*' {
        Some((TokenView::Star, 1))
    } else if c == '/' {
        Some((TokenView::Slash, 1))
    } else if c == '^' {
        Some((TokenView::Caret, 1))
    } else if c == '=' && next == '=' {
        Some((TokenView::EqEq, 2))
    } else if c == '=' {
        Some((TokenView::Assign, 1))
    } else if c == '!' && next == '=' {
        Some((TokenView::NotEq, 2))
    } else if c == '!' {
        Some((TokenView::Bang, 1))
    } else if c == '<' && next == '=' {
        Some((TokenView::Le, 2))
    } else if c == '<' {
        Some((TokenView::Lt, 1))
    } else if c == '>' && next == '=' {
        Some((TokenView::Ge, 2))
    } else if c == '>' {
        Some((TokenView::Gt, 1))
    } else {
        None
    }
}

/// The end of the run of digits that starts at or before `j`.
pub open spec fn digits_end(cs: Seq<char>, j: int) -> int
    decreases cs.len() - j,
{
    if 0 <= j < cs.len() && is_digit(cs[j]) {
        digits_end(cs, j + 1)
    } else {
        j
    }
}

/// The end of the run of name characters that starts at or before `j`.
pub open spec fn name_end(cs: Seq<char>, j: int) -> int
    decreases cs.len() - j,
{
    if 0 <= j < cs.len() && is_name_char(cs[j]) {
        name_end(cs, j + 1)
    } else {
        j
    }
}

/// The contents of a string literal from `j` on, after `w`, with `\n` and `\0` unescaped,
/// and the index of its closing quote (the length of the text when there is none).
pub open spec fn string_spec(cs: Seq<char>, j: int, w: Seq<char>) -> (Seq<char>, int)
    decreases cs.len() - j,
{
    if !(0 <= j < cs.len()) || cs[j] == '"' {
        (w, j)
    } else if cs[j] == '\\' && j + 1 < cs.len() && cs[j + 1] == 'n' {
        string_spec(cs, j + 2, w.push('\n'))
    } else if cs[j] == '\\' && j + 1 < cs.len() && cs[j + 1] == '0' {
        string_spec(cs, j + 2, w.push('\0'))
    } else {
        string_spec(cs, j + 1, w.push(cs[j]))
    }
}

/// The tokens of `cs` from index `i` on, after `toks`, each with the offset where it starts.
pub open spec fn lex_spec(cs: Seq<char>, i: int, toks: Seq<TokenView>, at: Seq<usize>) -> Result<
    (Seq<TokenView>, Seq<usize>),
    ParseError,
>
    decreases cs.len() - i,
{
    if !(0 <= i < cs.len()) {
        Ok((toks, at))
    } else {
        let c = cs[i];
        if is_space(c) {
            lex_spec(cs, i + 1, toks, at)
        } else if is_digit(c) {
            let j = digits_end(cs, i);
            let v = digits_value(cs.subrange(i, j));
            if v > i64::MAX || j <= i || j > cs.len() {
                Err(ParseError::Lexical { at: i as usize })
            } else {
                lex_spec(cs, j, toks.push(TokenView::Int(v as i64)), at.push(i as usize))
            }
        } else if is_name_start(c) {
            let j = name_end(cs, i);
            if j <= i || j > cs.len() {
                Err(ParseError::Syntax { at: i as usize })
            } else {
                lex_spec(cs, j, toks.push(word_view(cs.subrange(i, j))), at.push(i as usize))
            }
        } else if c == '"' {
            let (w, j) = string_spec(cs, i + 1, Seq::empty());
            if j >= cs.len() || j <= i {
                Err(ParseError::Syntax { at: i as usize })
            } else {
                lex_spec(cs, j + 1, toks.push(TokenView::Str(w.push('\0'))), at.push(i as usize))
            }
        } else {
            match symbol_spec(cs, i) {
                Some((t, n)) => if 1 <= n <= 2 {
                    lex_spec(cs, i + n, toks.push(t), at.push(i as usize))
                } else {
                    Err(ParseError::Syntax { at: i as usize })
                },
                None => Err(ParseError::Syntax { at: i as usize }),
            }
        }
    }
}

fn is_word(w: &Vec<char>, k: &[char]) -> (r: bool)
    ensures
        r == (w@ == k@),
{
    if w.len() != k.len() {
        return false;
    }
    let mut i: usize = 0;
    while i < w.len()
        invariant
            w@.len() == k@.len(),
            i <= w@.len(),
            forall|j: int| 0 <= j < i ==> w@[j] == k@[j],
        decreases w@.len() - i,
    {
        if w[i] != k[i] {
            return false;
        }
        i = i + 1;
    }
    assert(w@ =~= k@);
    true
}

/// The token for a word: a keyword, else a name.
fn word_token(w: Vec<char>) -> (r: Token)
    ensures
        r.view() == word_view(w@),
{
    let let_kw = ['l', 'e', 't'];
    let mut_kw = ['m', 'u', 't'];
    let fn_kw = ['f', 'n'];
    let if_kw = ['i', 'f'];
    let then_kw = ['t', 'h', 'e', 'n'];
    let else_kw = ['e', 'l', 's', 'e'];
    let end_kw = ['e', 'n', 'd'];
    let for_kw = ['f', 'o', 'r'];
    let in_kw = ['i', 'n'];
    let do_kw = ['d', 'o'];
    let while_kw = ['w', 'h', 'i', 'l', 'e'];
    assert(let_kw@ =~= seq!['l', 'e', 't']);
    assert(mut_kw@ =~= seq!['m', 'u', 't']);
    assert(fn_kw@ =~= seq!['f', 'n']);
    assert(if_kw@ =~= seq!['i', 'f']);
    assert(then_kw@ =~= seq!['t', 'h', 'e', 'n']);
    assert(else_kw@ =~= seq!['e', 'l', 's', 'e']);
    assert(end_kw@ =~= seq!['e', 'n', 'd']);
    assert(for_kw@ =~= seq!['f', 'o', 'r']);
    assert(in_kw@ =~= seq!['i', 'n']);
    assert(do_kw@ =~= seq!['d', 'o']);
    assert(while_kw@ =~= seq!['w', 'h', 'i', 'l', 'e']);
    if is_word(&w, &let_kw) {
        Token::Let
    } else if is_word(&w, &mut_kw) {
        Token::Mut
    } else if is_word(&w, &fn_kw) {
        Token::Fn
    } else if is_word(&w, &if_kw) {
        Token::If
    } else if is_word(&w, &then_kw) {
        Token::Then
    } else if is_word(&w, &else_kw) {
        Token::Else
    } else if is_word(&w, &end_kw) {
        Token::End
    } else if is_word(&w, &for_kw) {
        Token::For
    } else if is_word(&w, &in_kw) {
        Token::In
    } else if is_word(&w, &do_kw) {
        Token::Do
    } else if is_word(&w, &while_kw) {
        Token::While
    } else {
        Token::Name(string_of(w))
    }
}

/// The token of a one- or two-character symbol at `cs[i]`, with its length.
fn symbol(cs: &Vec<char>, i: usize) -> (r: Option<(Token, usize)>)
    requires
        i < cs@.len(),
    ensures
        match r {
            Some((t, n)) => symbol_spec(cs@, i as int) == Some((t.view(), n as int)),
            None => symbol_spec(cs@, i as int) is None,
        },
{
    let c = cs[i];
    let next: char = if cs.len() - i > 1 { cs[i + 1] } else { ' ' };
    if c == '(' {
        Some((Token::LParen, 1))
    } else if c == ')' {
        Some((Token::RParen, 1))
    } else if c == '[' {
        Some((Token::LBracket, 1))
    } else if c == ']' {
        Some((Token::RBracket, 1))
    } else if c == ',' {
        Some((Token::Comma, 1))
    } else if c == ';' {
        Some((Token::Semi, 1))
    } else if c == '+' {
        Some((Token::Plus, 1))
    } else if c == '-' {
        Some((Token::Minus, 1))
    } else if c == '*' {
        Some((Token::Star, 1))
    } else if c == '/' {
        Some((Token::Slash, 1))
    } else if c == '^' {
        Some((Token::Caret, 1))
    } else if c == '=' && next == '=' {
        Some((Token::EqEq, 2))
    } else if c == '=' {
        Some((Token::Assign, 1))
    } else if c == '!' && next == '=' {
        Some((Token::NotEq, 2))
    } else if c == '!' {
        Some((Token::Bang, 1))
    } else if c == '<' && next == '=' {
        Some((Token::Le, 2))
    } else if c == '<' {
        Some((Token::Lt, 1))
    } else if c == '>' && next == '=' {
        Some((Token::Ge, 2))
    } else if c == '>' {
        Some((Token::Gt, 1))
    } else {
        None
    }
}

proof fn lemma_toks_push(s: Seq<Token>, t: Token)
    ensures
        toks_view(s.push(t)) == toks_view(s).push(t.view()),
{
    assert(toks_view(s.push(t)) =~= toks_view(s).push(t.view()));
}

/// Splits a text into tokens, each with the offset where it starts.
pub fn lex(cs: &Vec<char>) -> (r: Result<(Vec<Token>, Vec<usize>), ParseError>)
    ensures
        match r {
            Ok((toks, at)) => lex_spec(cs@, 0, Seq::empty(), Seq::empty()) == Ok::<(Seq<TokenView>, Seq<usize>), ParseError>((toks_view(toks@), at@))
                && toks@.len() == at@.len(),
            Err(e) => lex_spec(cs@, 0, Seq::empty(), Seq::empty()) == Err::<(Seq<TokenView>, Seq<usize>), ParseError>(e),
        },
{
    let mut toks: Vec<Token> = Vec::new();
    let mut at: Vec<usize> = Vec::new();
    assert(toks_view(toks@) =~= Seq::<TokenView>::empty());
    assert(at@ =~= Seq::<usize>::empty());
    let mut i: usize = 0;
    while i < cs.len()
        invariant
            i <= cs@.len(),
            toks@.len() == at@.len(),
            lex_spec(cs@, i as int, toks_view(toks@), at@) == lex_spec(cs@, 0, Seq::empty(), Seq::empty()),
        decreases cs@.len() - i,
    {
        let c = cs[i];
        if c == ' ' || c == '\n' || c == '\t' || c == '\r' {
            i = i + 1;
        } else if '0' <= c && c <= '9' {
            let mut j = i;
            while j < cs.len() && '0' <= cs[j] && cs[j] <= '9'
                invariant
                    i <= j <= cs@.len(),
                    forall|k: int| i <= k < j ==> is_digit(#[trigger] cs@[k]),
                    digits_end(cs@, j as int) == digits_end(cs@, i as int),
                decreases cs@.len() - j,
            {
                j = j + 1;
            }
            match read_int(cs, i, j) {
                Some(v) => {
                    proof {
                        lemma_toks_push(toks@, Token::Int(v));
                    }
                    toks.push(Token::Int(v));
                    at.push(i);
                },
                None => {
                    return Err(ParseError::Lexical { at: i });
                },
            }
            i = j;
        } else if ('a' <= c && c <= 'z') || ('A' <= c && c <= 'Z') || c == '_' {
            let mut w: Vec<char> = Vec::new();
            let mut j = i;
            while j < cs.len() && (('a' <= cs[j] && cs[j] <= 'z') || ('A' <= cs[j] && cs[j] <= 'Z')
                || cs[j] == '_' || ('0' <= cs[j] && cs[j] <= '9'))
                invariant
                    i <= j <= cs@.len(),
                    w@ == cs@.subrange(i as int, j as int),
                    name_end(cs@, j as int) == name_end(cs@, i as int),
                decreases cs@.len() - j,
            {
                w.push(cs[j]);
                j = j + 1;
                assert(w@ =~= cs@.subrange(i as int, j as int));
            }
            let t = word_token(w);
            proof {
                lemma_toks_push(toks@, t);
            }
            toks.push(t);
            at.push(i);
            i = j;
        } else if c == '"' {
            let mut w: Vec<char> = Vec::new();
            let mut j = i + 1;
            assert(w@ =~= Seq::<char>::empty());
            while j < cs.len() && cs[j] != '"'
                invariant
                    i < j <= cs@.len(),
                    string_spec(cs@, j as int, w@) == string_spec(cs@, i + 1, Seq::empty()),
                decreases cs@.len() - j,
            {
                if cs[j] == '\\' && cs.len() - j > 1 && cs[j + 1] == 'n' {
                    w.push('\n');
                    j = j + 2;
                } else if cs[j] == '\\' && cs.len() - j > 1 && cs[j + 1] == '0' {
                    w.push('\0');
                    j = j + 2;
                } else {
                    w.push(cs[j]);
                    j = j + 1;
                }
            }
            if j >= cs.len() {
                return Err(ParseError::Syntax { at: i });
            }
            w.push('\0');
            let t = Token::Str(string_of(w));
            proof {
                lemma_toks_push(toks@, t);
            }
            toks.push(t);
            at.push(i);
            i = j + 1;
        } else {
            match symbol(cs, i) {
                Some((t, n)) => {
                    proof {
                        lemma_toks_push(toks@, t);
                    }
                    toks.push(t);
                    at.push(i);
                    i = i + n;
                },
                None => {
                    return Err(ParseError::Syntax { at: i });
                },
            }
        }
    }
    Ok((toks, at))
}

/// The operator, binding power and associativity (true: right) of an infix token.
pub open spec fn infix_spec(t: Token) -> Option<(Op, u8, bool)> {
    match t {
        Token::Plus => Some((Op::Add, 1u8, false)),
        Token::Minus => Some((Op::Sub, 1u8, false)),
        Token::Star => Some((Op::Mul, 2u8, false)),
        Token::Slash => Some((Op::Div, 2u8, false)),
        Token::Lt => Some((Op::Lt, 6u8, true)),
        Token::Le => Some((Op::Le, 6u8, true)),
        Token::Gt => Some((Op::Gt, 6u8, true)),
        Token::Ge => Some((Op::Ge, 6u8, true)),
        Token::EqEq => Some((Op::Eq, 7u8, true)),
        Token::NotEq => Some((Op::Neq, 7u8, true)),
        _ => None,
    }
}

fn infix(t: &Token) -> (r: Option<(Op, u8, bool)>)
    ensures
        r == infix_spec(*t),
{
    match t {
        Token::Plus => Some((Op::Add, 1, false)),
        Token::Minus => Some((Op::Sub, 1, false)),
        Token::Star => Some((Op::Mul, 2, false)),
        Token::Slash => Some((Op::Div, 2, false)),
        Token::Lt => Some((Op::Lt, 6, true)),
        Token::Le => Some((Op::Le, 6, true)),
        Token::Gt => Some((Op::Gt, 6, true)),
        Token::Ge => Some((Op::Ge, 6, true)),
        Token::EqEq => Some((Op::Eq, 7, true)),
        Token::NotEq => Some((Op::Neq, 7, true)),
        _ => None,
    }
}

/// Binding power of the reserved infix `^`.
pub const POW_POWER: u8 = 3;
/// Binding power of the reserved postfix `!`.
pub const FAC_POWER: u8 = 4;
/// Binding power of prefix `-`.
pub const NEG_POWER: u8 = 5;

/// Whether two tokens are the same keyword or punctuation.
pub open spec fn same_kind(a: Token, b: Token) -> bool {
    match (a, b) {
        (Token::Let, Token::Let) => true,
        (Token::Mut, Token::Mut) => true,
        (Token::Then, Token::Then) => true,
        (Token::Else, Token::Else) => true,
        (Token::End, Token::End) => true,
        (Token::In, Token::In) => true,
        (Token::Do, Token::Do) => true,
        (Token::LParen, Token::LParen) => true,
        (Token::RParen, Token::RParen) => true,
        (Token::LBracket, Token::LBracket) => true,
        (Token::RBracket, Token::RBracket) => true,
        (Token::Comma, Token::Comma) => true,
        (Token::Semi, Token::Semi) => true,
        (Token::Assign, Token::Assign) => true,
        (Token::Minus, Token::Minus) => true,
        _ => false,
    }
}

/// `-e`, which stands for `-1 * e`.
pub open spec fn neg_term(e: Term) -> Term {
    Term::Expr { op: Op::Mul, lhs: Box::new(Term::Number(num_of_int(-1))), rhs: Box::new(e) }
}

pub open spec fn closer(paren: bool) -> Token {
    if paren {
        Token::RParen
    } else {
        Token::RBracket
    }
}

/// A parse of one construct: its value and the position after it.
pub type Step = Result<(Term, int), ParseError>;

/// A parse of comma-separated expressions: their values and the position after the closer.
pub type ListStep = Result<(Seq<Term>, int), ParseError>;

/// A parse of parameter names: the names and the position after the last one.
pub type NamesStep = Result<(Seq<Seq<char>>, int), ParseError>;

/// What a parse step returns: a node and the position after it.
pub type Parsed = Result<(Node, usize), ParseError>;

pub open spec fn parsed_view(r: Parsed) -> Step {
    match r {
        Ok((n, p)) => Ok((n.view(), p as int)),
        Err(e) => Err(e),
    }
}

/// Parser of the language over a token sequence, with the offset of each token in the text
/// and the length of the text.
pub struct AlphaParser {
    pub toks: Vec<Token>,
    pub at: Vec<usize>,
    pub end: usize,
}

impl AlphaParser {
    pub open spec fn wf(&self) -> bool {
        &&& self.toks@.len() == self.at@.len()
        &&& self.toks@.len() + 8 < usize::MAX
    }

    pub open spec fn len(&self) -> int {
        self.toks@.len() as int
    }

    /// The error for an unexpected token at `pos`, or for the end of input.
    pub open spec fn err_at(&self, pos: int) -> ParseError {
        if 0 <= pos < self.at@.len() {
            ParseError::Syntax { at: self.at@[pos] }
        } else {
            ParseError::Syntax { at: self.end }
        }
    }

    pub open spec fn tok_is(&self, pos: int, t: Token) -> bool {
        0 <= pos < self.len() && same_kind(self.toks@[pos], t)
    }

    pub open spec fn name_spec(&self, pos: int) -> Option<Seq<char>> {
        if 0 <= pos < self.len() {
            match self.toks@[pos] {
                Token::Name(s) => Some(s@),
                _ => None,
            }
        } else {
            None
        }
    }

    pub open spec fn endpoint_ok(&self, pos: int) -> bool {
        0 <= pos < self.len() && (self.toks@[pos] is Int || self.toks@[pos] is Name)
    }

    pub open spec fn endpoint_spec(&self, pos: int) -> Term {
        match self.toks@[pos] {
            Token::Int(v) => Term::Number(num_of_int(v as int)),
            Token::Name(s) => Term::VarRef(s@),
            _ => Term::Nada,
        }
    }

    /// A whole program: statements up to the end of input.
    pub open spec fn sp_program(&self) -> Result<Term, ParseError> {
        match self.sp_statements(0, Seq::empty()) {
            Ok((n, p)) => if p < self.len() {
                Err(self.err_at(p))
            } else {
                Ok(n)
            },
            Err(e) => Err(e),
        }
    }

    /// Statements from `pos` on, after those in `acc`, separated by optional `;`, up to
    /// `end`, `else` or the end of input.
    pub open spec fn sp_statements(&self, pos: int, acc: Seq<Term>) -> Step
        decreases self.len() - pos, 3nat,
    {
        if !(0 <= pos <= self.len()) {
            Err(self.err_at(pos))
        } else if pos == self.len() || self.tok_is(pos, Token::End) || self.tok_is(pos, Token::Else) {
            Ok((Term::Statements(acc), pos))
        } else if self.tok_is(pos, Token::Semi) {
            self.sp_statements(pos + 1, acc)
        } else {
            match self.sp_statement(pos) {
                Ok((n, q)) => if pos < q <= self.len() {
                    self.sp_statements(q, acc.push(n))
                } else {
                    Err(self.err_at(q))
                },
                Err(e) => Err(e),
            }
        }
    }

    /// `let [mut] name = expr`, `name = expr`, or an expression.
    pub open spec fn sp_statement(&self, pos: int) -> Step
        decreases self.len() - pos, 2nat,
    {
        if !(0 <= pos < self.len()) {
            Err(self.err_at(pos))
        } else if self.tok_is(pos, Token::Let) {
            let mutable = self.tok_is(pos + 1, Token::Mut);
            let p = if mutable { pos + 2 } else { pos + 1 };
            match self.name_spec(p) {
                None => Err(self.err_at(p)),
                Some(name) => if !self.tok_is(p + 1, Token::Assign) {
                    Err(self.err_at(p + 1))
                } else if p + 2 >= self.len() {
                    Err(self.err_at(p + 2))
                } else {
                    match self.sp_expr(p + 2, 0) {
                        Ok((e, q)) => Ok((
                            Term::Define(
                                if mutable { Mut::Mutable } else { Mut::Immutable },
                                name,
                                Box::new(e),
                            ),
                            q,
                        )),
                        Err(x) => Err(x),
                    }
                },
            }
        } else if self.name_spec(pos) is Some && self.tok_is(pos + 1, Token::Assign) {
            if pos + 2 >= self.len() {
                Err(self.err_at(pos + 2))
            } else {
                match self.sp_expr(pos + 2, 0) {
                    Ok((e, q)) => Ok((Term::Assign(self.name_spec(pos)->Some_0, Box::new(e)), q)),
                    Err(x) => Err(x),
                }
            }
        } else {
            self.sp_expr(pos, 0)
        }
    }

    /// An expression from `pos` whose operators bind at least as tightly as `min`.
    pub open spec fn sp_expr(&self, pos: int, min: int) -> Step
        decreases self.len() - pos, 1nat,
    {
        if !(0 <= pos < self.len()) {
            Err(self.err_at(pos))
        } else {
            let head = if self.tok_is(pos, Token::Minus) {
                if pos + 1 >= self.len() {
                    Err(self.err_at(pos + 1))
                } else {
                    match self.sp_expr(pos + 1, NEG_POWER as int) {
                        Ok((r, q)) => Ok((neg_term(r), q)),
                        Err(x) => Err(x),
                    }
                }
            } else {
                self.sp_primary(pos)
            };
            match head {
                Ok((lhs, p)) => if pos < p <= self.len() {
                    self.sp_climb(lhs, p, min)
                } else {
                    Err(self.err_at(p))
                },
                Err(x) => Err(x),
            }
        }
    }

    /// Applies the infix operators from `p` on that bind at least as tightly as `min`.
    pub open spec fn sp_climb(&self, lhs: Term, p: int, min: int) -> Step
        decreases self.len() - p, 1nat,
    {
        if !(0 <= p <= self.len()) {
            Err(self.err_at(p))
        } else if p == self.len() {
            Ok((lhs, p))
        } else if self.toks@[p] is Bang {
            if FAC_POWER as int >= min {
                Err(ParseError::Reserved { at: self.at@[p] })
            } else {
                Ok((lhs, p))
            }
        } else if self.toks@[p] is Caret {
            if POW_POWER as int >= min {
                Err(ParseError::Reserved { at: self.at@[p] })
            } else {
                Ok((lhs, p))
            }
        } else {
            match infix_spec(self.toks@[p]) {
                None => Ok((lhs, p)),
                Some((op, power, right)) => if (power as int) < min {
                    Ok((lhs, p))
                } else if p + 1 >= self.len() {
                    Err(self.err_at(p + 1))
                } else {
                    match self.sp_expr(p + 1, if right { power as int } else { power as int + 1 }) {
                        Ok((rhs, q)) => if p < q <= self.len() {
                            self.sp_climb(Term::Expr { op, lhs: Box::new(lhs), rhs: Box::new(rhs) }, q, min)
                        } else {
                            Err(self.err_at(q))
                        },
                        Err(x) => Err(x),
                    }
                },
            }
        }
    }

    /// Expressions from `pos` on, after those in `acc`, separated by `,`, up to the closer.
    pub open spec fn sp_args(&self, pos: int, paren: bool, acc: Seq<Term>) -> ListStep
        decreases self.len() - pos, 2nat,
    {
        if !(0 <= pos < self.len()) {
            Err(self.err_at(pos))
        } else {
            match self.sp_expr(pos, 0) {
                Ok((n, q)) => if !(pos < q <= self.len()) {
                    Err(self.err_at(q))
                } else if self.tok_is(q, closer(paren)) {
                    Ok((acc.push(n), q + 1))
                } else if !self.tok_is(q, Token::Comma) {
                    Err(self.err_at(q))
                } else {
                    self.sp_args(q + 1, paren, acc.push(n))
                },
                Err(x) => Err(x),
            }
        }
    }

    /// An argument or element list from `pos` on, empty or not, with its closer.
    pub open spec fn sp_list(&self, pos: int, paren: bool) -> ListStep
        decreases self.len() - pos, 3nat,
    {
        if self.tok_is(pos, closer(paren)) {
            Ok((Seq::empty(), pos + 1))
        } else {
            self.sp_args(pos, paren, Seq::empty())
        }
    }

    /// Parameter names from `p` on, after those in `acc`, separated by `,`.
    pub open spec fn sp_params(&self, p: int, acc: Seq<Seq<char>>) -> NamesStep
        decreases self.len() - p,
    {
        if !(0 <= p < self.len()) {
            Err(self.err_at(p))
        } else {
            match self.name_spec(p) {
                None => Err(self.err_at(p)),
                Some(n) => if self.tok_is(p + 1, Token::Comma) {
                    self.sp_params(p + 2, acc.push(n))
                } else {
                    Ok((acc.push(n), p + 1))
                },
            }
        }
    }

    /// A block `statements end` from `p`.
    pub open spec fn sp_block_end(&self, p: int) -> Step
        decreases self.len() - p, 4nat,
    {
        if !(0 <= p <= self.len()) {
            Err(self.err_at(p))
        } else {
            match self.sp_statements(p, Seq::empty()) {
                Ok((body, q)) => if self.tok_is(q, Token::End) {
                    Ok((body, q + 1))
                } else {
                    Err(self.err_at(q))
                },
                Err(x) => Err(x),
            }
        }
    }

    /// A literal, a range, a list, a call, a name, a parenthesized expression, or a
    /// function, conditional or loop.
    pub open spec fn sp_primary(&self, pos: int) -> Step
        decreases self.len() - pos, 0nat,
    {
        if !(0 <= pos < self.len()) {
            Err(self.err_at(pos))
        } else {
            let open_paren = self.tok_is(pos, Token::LParen);
            let open_bracket = self.tok_is(pos, Token::LBracket);
            if (open_paren || open_bracket) && self.endpoint_ok(pos + 1) && self.tok_is(pos + 2, Token::Comma)
                && self.endpoint_ok(pos + 3) && (self.tok_is(pos + 4, Token::RParen) || (open_paren
                && self.tok_is(pos + 4, Token::RBracket))) {
                Ok((
                    Term::Range {
                        from: Box::new(self.endpoint_spec(pos + 1)),
                        to: Box::new(self.endpoint_spec(pos + 3)),
                        lower: if open_bracket { Bound::Inclusive } else { Bound::Exclusive },
                        upper: if self.tok_is(pos + 4, Token::RBracket) { Bound::Inclusive } else { Bound::Exclusive },
                    },
                    pos + 5,
                ))
            } else if open_paren {
                if pos + 1 >= self.len() {
                    Err(self.err_at(pos + 1))
                } else {
                    match self.sp_expr(pos + 1, 0) {
                        Ok((e, q)) => if self.tok_is(q, Token::RParen) {
                            Ok((e, q + 1))
                        } else {
                            Err(self.err_at(q))
                        },
                        Err(x) => Err(x),
                    }
                }
            } else if open_bracket {
                match self.sp_list(pos + 1, false) {
                    Ok((items, q)) => Ok((Term::List(items), q)),
                    Err(x) => Err(x),
                }
            } else {
                match self.toks@[pos] {
                    Token::Int(v) => Ok((Term::Number(num_of_int(v as int)), pos + 1)),
                    Token::Str(s) => Ok((Term::Str(s@), pos + 1)),
                    Token::Name(s) => if self.tok_is(pos + 1, Token::LParen) {
                        match self.sp_list(pos + 2, true) {
                            Ok((args, q)) => Ok((Term::FnCall(s@, args), q)),
                            Err(x) => Err(x),
                        }
                    } else {
                        Ok((Term::VarRef(s@), pos + 1))
                    },
                    Token::Fn => {
                        let name = self.name_spec(pos + 1);
                        let p = if name is Some { pos + 2 } else { pos + 1 };
                        if !self.tok_is(p, Token::LParen) {
                            Err(self.err_at(p))
                        } else {
                            let ps = if self.tok_is(p + 1, Token::RParen) {
                                Ok((Seq::empty(), p + 1))
                            } else {
                                self.sp_params(p + 1, Seq::empty())
                            };
                            match ps {
                                Err(x) => Err(x),
                                Ok((params, p2)) => if !self.tok_is(p2, Token::RParen) || p2 < pos {
                                    Err(self.err_at(p2))
                                } else {
                                    match self.sp_block_end(p2 + 1) {
                                        Ok((body, q)) => Ok((Term::FnDef(name, params, Box::new(body)), q)),
                                        Err(x) => Err(x),
                                    }
                                },
                            }
                        }
                    },
                    Token::If => if pos + 1 >= self.len() {
                        Err(self.err_at(pos + 1))
                    } else {
                        match self.sp_expr(pos + 1, 0) {
                            Err(x) => Err(x),
                            Ok((cond, p)) => if !self.tok_is(p, Token::Then) || p < pos {
                                Err(self.err_at(p))
                            } else {
                                match self.sp_statements(p + 1, Seq::empty()) {
                                    Err(x) => Err(x),
                                    Ok((then_block, p2)) => {
                                        let rest = if self.tok_is(p2, Token::Else) && p2 >= pos {
                                            match self.sp_statements(p2 + 1, Seq::empty()) {
                                                Ok((else_block, p3)) => Ok((else_block, p3)),
                                                Err(x) => Err(x),
                                            }
                                        } else {
                                            Ok((Term::Nada, p2))
                                        };
                                        match rest {
                                            Err(x) => Err(x),
                                            Ok((else_block, p3)) => if self.tok_is(p3, Token::End) {
                                                Ok((
                                                    Term::IfElse {
                                                        condition: Box::new(cond),
                                                        if_block: Box::new(then_block),
                                                        else_block: Box::new(else_block),
                                                    },
                                                    p3 + 1,
                                                ))
                                            } else {
                                                Err(self.err_at(p3))
                                            },
                                        }
                                    },
                                }
                            },
                        }
                    },
                    Token::While => if pos + 1 >= self.len() {
                        Err(self.err_at(pos + 1))
                    } else {
                        match self.sp_expr(pos + 1, 0) {
                            Err(x) => Err(x),
                            Ok((cond, p)) => if !self.tok_is(p, Token::Do) || p < pos {
                                Err(self.err_at(p))
                            } else {
                                match self.sp_block_end(p + 1) {
                                    Ok((body, q)) => Ok((Term::While { condition: Box::new(cond), inner: Box::new(body) }, q)),
                                    Err(x) => Err(x),
                                }
                            },
                        }
                    },
                    Token::For => match self.name_spec(pos + 1) {
                        None => Err(self.err_at(pos + 1)),
                        Some(var) => if !self.tok_is(pos + 2, Token::In) {
                            Err(self.err_at(pos + 2))
                        } else if pos + 3 >= self.len() {
                            Err(self.err_at(pos + 3))
                        } else {
                            match self.sp_expr(pos + 3, 0) {
                                Err(x) => Err(x),
                                Ok((iterable, p)) => if !self.tok_is(p, Token::Do) || p < pos {
                                    Err(self.err_at(p))
                                } else {
                                    match self.sp_block_end(p + 1) {
                                        Ok((body, q)) => Ok((
                                            Term::Loop { var, iterable: Box::new(iterable), inner: Box::new(body) },
                                            q,
                                        )),
                                        Err(x) => Err(x),
                                    }
                                },
                            }
                        },
                    },
                    _ => Err(self.err_at(pos)),
                }
            }
        }
    }
}

pub open spec fn program_view(r: Result<Node, ParseError>) -> Result<Term, ParseError> {
    match r {
        Ok(n) => Ok(n.view()),
        Err(e) => Err(e),
    }
}

pub open spec fn list_view(r: Result<(Vec<Node>, usize), ParseError>) -> ListStep {
    match r {
        Ok((v, p)) => Ok((nodes_view(v@), p as int)),
        Err(e) => Err(e),
    }
}

pub open spec fn params_view(r: Result<(Vec<String>, usize), ParseError>) -> NamesStep {
    match r {
        Ok((v, p)) => Ok((names_view(v@), p as int)),
        Err(e) => Err(e),
    }
}

proof fn lemma_names_push(v: Seq<String>, n: String)
    ensures
        names_view(v.push(n)) == names_view(v).push(n@),
{
    assert(names_view(v.push(n)) =~= names_view(v).push(n@));
}

proof fn lemma_nodes_push(v: Seq<Node>, n: Node)
    ensures
        nodes_view(v.push(n)) == nodes_view(v).push(n.view()),
{
    lemma_nodes_view(v);
    lemma_nodes_view(v.push(n));
    assert(nodes_view(v.push(n)) =~= nodes_view(v).push(n.view()));
}

proof fn lemma_nodes_empty(v: Seq<Node>)
    requires
        v.len() == 0,
    ensures
        nodes_view(v) == Seq::<Term>::empty(),
{
    lemma_nodes_view(v);
    assert(nodes_view(v) =~= Seq::<Term>::empty());
}

impl AlphaParser {
    /// Parses a whole source text: the text is split into tokens as `lex_spec` says, and
    /// the result is what the grammar gives for those tokens.
    pub fn parse_source(source: &str) -> (r: Result<Node, ParseError>)
        ensures
            match lex_spec(source@, 0, Seq::empty(), Seq::empty()) {
                Err(e) => r == Err::<Node, ParseError>(e),
                Ok((tv, at)) => tv.len() + 8 < usize::MAX ==> exists|p: AlphaParser|
                    p.wf() && toks_view(p.toks@) == tv && p.at@ == at && p.end == source@.len()
                        && #[trigger] p.sp_program() == program_view(r),
            },
    {
        let cs = chars_of(source);
        let (toks, at) = match lex(&cs) {
            Ok(pair) => pair,
            Err(e) => return Err(e),
        };
        if toks.len() >= usize::MAX - 8 {
            return Err(ParseError::Syntax { at: 0 });
        }
        let p = AlphaParser { toks, at, end: cs.len() };
        let r = p.parse_tokens();
        assert(p.sp_program() == program_view(r));
        r
    }

    /// Parses the whole token sequence as a program.
    pub fn parse_tokens(&self) -> (r: Result<Node, ParseError>)
        requires
            self.wf(),
        ensures
            program_view(r) == self.sp_program(),
    {
        let (node, pos) = match self.parse_statements(0) {
            Ok(r) => r,
            Err(e) => return Err(e),
        };
        if pos < self.toks.len() {
            return Err(self.error_at(pos));
        }
        Ok(node)
    }

    /// A literal range endpoint: a number when it starts with a digit, else a name.
    pub fn number_or_var(s: &str) -> (r: Result<Node, ParseError>)
        requires
            s@.len() > 0,
        ensures
            is_digit(s@[0]) ==> (r is Ok <==> (forall|k: int| 0 <= k < s@.len() ==> is_digit(#[trigger] s@[k]))
                && digits_value(s@) <= i64::MAX),
            is_digit(s@[0]) ==> match r {
                Ok(n) => n.view() == Term::Number(num_of_int(digits_value(s@))),
                Err(e) => e == ParseError::Lexical { at: 0 },
            },
            !is_digit(s@[0]) ==> r is Ok && r->Ok_0 is VarRef && r->Ok_0->VarRef_0@ == s@,
    {
        let cs = chars_of(s);
        if '0' <= cs[0] && cs[0] <= '9' {
            let mut j: usize = 0;
            while j < cs.len() && '0' <= cs[j] && cs[j] <= '9'
                invariant
                    j <= cs@.len(),
                    forall|k: int| 0 <= k < j ==> is_digit(#[trigger] cs@[k]),
                decreases cs@.len() - j,
            {
                j = j + 1;
            }
            if j < cs.len() {
                assert(!is_digit(s@[j as int]));
                return Err(ParseError::Lexical { at: 0 });
            }
            assert(cs@.subrange(0, j as int) =~= cs@);
            match read_int(&cs, 0, j) {
                Some(v) => Ok(Node::Number(Num::from_int(v))),
                None => Err(ParseError::Lexical { at: 0 }),
            }
        } else {
            Ok(Node::VarRef(string_of(cs)))
        }
    }

    fn error_at(&self, pos: usize) -> (r: ParseError)
        requires
            self.wf(),
        ensures
            r == self.err_at(pos as int),
    {
        if pos < self.at.len() {
            ParseError::Syntax { at: self.at[pos] }
        } else {
            ParseError::Syntax { at: self.end }
        }
    }

    fn is_tok(&self, pos: usize, t: Token) -> (r: bool)
        requires
            self.wf(),
        ensures
            r == self.tok_is(pos as int, t),
    {
        if pos >= self.toks.len() {
            return false;
        }
        match (&self.toks[pos], t) {
            (Token::Let, Token::Let) => true,
            (Token::Mut, Token::Mut) => true,
            (Token::Then, Token::Then) => true,
            (Token::Else, Token::Else) => true,
            (Token::End, Token::End) => true,
            (Token::In, Token::In) => true,
            (Token::Do, Token::Do) => true,
            (Token::LParen, Token::LParen) => true,
            (Token::RParen, Token::RParen) => true,
            (Token::LBracket, Token::LBracket) => true,
            (Token::RBracket, Token::RBracket) => true,
            (Token::Comma, Token::Comma) => true,
            (Token::Semi, Token::Semi) => true,
            (Token::Assign, Token::Assign) => true,
            (Token::Minus, Token::Minus) => true,
            _ => false,
        }
    }

    fn name_at(&self, pos: usize) -> (r: Option<String>)
        requires
            self.wf(),
        ensures
            name_view(r) == self.name_spec(pos as int),
    {
        if pos < self.toks.len() {
            match &self.toks[pos] {
                Token::Name(s) => Some(s.clone()),
                _ => None,
            }
        } else {
            None
        }
    }

    fn is_endpoint(&self, pos: usize) -> (r: bool)
        requires
            self.wf(),
        ensures
            r == self.endpoint_ok(pos as int),
    {
        pos < self.toks.len() && (matches!(self.toks[pos], Token::Int(_)) || matches!(self.toks[pos], Token::Name(_)))
    }

    fn endpoint(&self, pos: usize) -> (r: Node)
        requires
            self.wf(),
            self.endpoint_ok(pos as int),
        ensures
            r.view() == self.endpoint_spec(pos as int),
    {
        match &self.toks[pos] {
            Token::Int(v) => Node::Number(Num::from_int(*v)),
            Token::Name(s) => Node::VarRef(s.clone()),
            _ => Node::Nada,
        }
    }

    fn parse_statements(&self, pos: usize) -> (r: Parsed)
        requires
            self.wf(),
            pos <= self.len(),
        ensures
            parsed_view(r) == self.sp_statements(pos as int, Seq::empty()),
            r is Ok ==> r->Ok_0.1 <= self.len(),
        decreases self.len() - pos, 3nat,
    {
        let mut nodes: Vec<Node> = Vec::new();
        proof {
            lemma_nodes_empty(nodes@);
        }
        let mut p = pos;
        loop
            invariant
                self.wf(),
                pos <= p <= self.len(),
                self.sp_statements(p as int, nodes_view(nodes@)) == self.sp_statements(pos as int, Seq::empty()),
            decreases self.len() - p,
        {
            if p >= self.toks.len() || self.is_tok(p, Token::End) || self.is_tok(p, Token::Else) {
                return Ok((Node::Statements(nodes), p));
            }
            if self.is_tok(p, Token::Semi) {
                p = p + 1;
            } else {
                match self.parse_statement(p) {
                    Ok((n, q)) => {
                        if !(p < q && q <= self.toks.len()) {
                            return Err(self.error_at(q));
                        }
                        proof {
                            lemma_nodes_push(nodes@, n);
                        }
                        nodes.push(n);
                        p = q;
                    },
                    Err(e) => {
                        return Err(e);
                    },
                }
            }
        }
    }

    fn parse_statement(&self, pos: usize) -> (r: Parsed)
        requires
            self.wf(),
            pos < self.len(),
        ensures
            parsed_view(r) == self.sp_statement(pos as int),
        decreases self.len() - pos, 2nat,
    {
        if self.is_tok(pos, Token::Let) {
            let mutable = self.is_tok(pos + 1, Token::Mut);
            let p = if mutable { pos + 2 } else { pos + 1 };
            let name = match self.name_at(p) {
                Some(n) => n,
                None => return Err(self.error_at(p)),
            };
            if !self.is_tok(p + 1, Token::Assign) {
                return Err(self.error_at(p + 1));
            }
            if p + 2 >= self.toks.len() {
                return Err(self.error_at(p + 2));
            }
            let m = if mutable { Mut::Mutable } else { Mut::Immutable };
            return match self.parse_expr(p + 2, 0) {
                Ok((e, q)) => Ok((Node::Define(m, name, Box::new(e)), q)),
                Err(x) => Err(x),
            };
        }
        match self.name_at(pos) {
            Some(name) => {
                if self.is_tok(pos + 1, Token::Assign) {
                    if pos + 2 >= self.toks.len() {
                        return Err(self.error_at(pos + 2));
                    }
                    return match self.parse_expr(pos + 2, 0) {
                        Ok((e, q)) => Ok((Node::Assign(name, Box::new(e)), q)),
                        Err(x) => Err(x),
                    };
                }
            },
            None => {},
        }
        self.parse_expr(pos, 0)
    }

    fn parse_expr(&self, pos: usize, min: u8) -> (r: Parsed)
        requires
            self.wf(),
            pos < self.len(),
        ensures
            parsed_view(r) == self.sp_expr(pos as int, min as int),
        decreases self.len() - pos, 1nat,
    {
        let head = if self.is_tok(pos, Token::Minus) {
            if pos + 1 >= self.toks.len() {
                return Err(self.error_at(pos + 1));
            }
            match self.parse_expr(pos + 1, NEG_POWER) {
                Ok((rhs, q)) => {
                    let minus_one = Num::from_int(-1);
                    let e = Node::Expr { op: Op::Mul, lhs: Box::new(Node::Number(minus_one)), rhs: Box::new(rhs) };
                    assert(Node::Number(minus_one).view() == Term::Number(num_of_int(-1)));
                    assert(e.view() == neg_term(rhs.view()));
                    (e, q)
                },
                Err(e) => return Err(e),
            }
        } else {
            match self.parse_primary(pos) {
                Ok(h) => h,
                Err(e) => return Err(e),
            }
        };
        let (mut lhs, mut p) = head;
        if !(pos < p && p <= self.toks.len()) {
            return Err(self.error_at(p));
        }
        loop
            invariant
                self.wf(),
                pos < p <= self.len(),
                self.sp_climb(lhs.view(), p as int, min as int) == self.sp_expr(pos as int, min as int),
            decreases self.len() - p,
        {
            if p >= self.toks.len() {
                return Ok((lhs, p));
            }
            if matches!(self.toks[p], Token::Bang) {
                if FAC_POWER >= min {
                    return Err(ParseError::Reserved { at: self.at[p] });
                }
                return Ok((lhs, p));
            }
            if matches!(self.toks[p], Token::Caret) {
                if POW_POWER >= min {
                    return Err(ParseError::Reserved { at: self.at[p] });
                }
                return Ok((lhs, p));
            }
            match infix(&self.toks[p]) {
                Some((op, power, right)) => {
                    if power < min {
                        return Ok((lhs, p));
                    }
                    if p + 1 >= self.toks.len() {
                        return Err(self.error_at(p + 1));
                    }
                    let next = if right { power } else { power + 1 };
                    match self.parse_expr(p + 1, next) {
                        Ok((rhs, q)) => {
                            if !(p < q && q <= self.toks.len()) {
                                return Err(self.error_at(q));
                            }
                            lhs = Node::Expr { op, lhs: Box::new(lhs), rhs: Box::new(rhs) };
                            p = q;
                        },
                        Err(e) => {
                            return Err(e);
                        },
                    }
                },
                None => {
                    return Ok((lhs, p));
                },
            }
        }
    }

    fn parse_args(&self, pos: usize, paren: bool) -> (r: Result<(Vec<Node>, usize), ParseError>)
        requires
            self.wf(),
            pos <= self.len(),
        ensures
            list_view(r) == self.sp_args(pos as int, paren, Seq::empty()),
            r is Ok ==> r->Ok_0.1 <= self.len(),
        decreases self.len() - pos, 2nat,
    {
        let mut items: Vec<Node> = Vec::new();
        proof {
            lemma_nodes_empty(items@);
        }
        let mut p = pos;
        loop
            invariant
                self.wf(),
                pos <= p <= self.len(),
                self.sp_args(p as int, paren, nodes_view(items@)) == self.sp_args(pos as int, paren, Seq::empty()),
            decreases self.len() - p,
        {
            if p >= self.toks.len() {
                return Err(self.error_at(p));
            }
            match self.parse_expr(p, 0) {
                Ok((n, q)) => {
                    if !(p < q && q <= self.toks.len()) {
                        return Err(self.error_at(q));
                    }
                    proof {
                        lemma_nodes_push(items@, n);
                    }
                    if self.is_tok(q, if paren { Token::RParen } else { Token::RBracket }) {
                        items.push(n);
                        return Ok((items, q + 1));
                    }
                    if !self.is_tok(q, Token::Comma) {
                        return Err(self.error_at(q));
                    }
                    items.push(n);
                    p = q + 1;
                },
                Err(e) => {
                    return Err(e);
                },
            }
        }
    }

    fn parse_list(&self, pos: usize, paren: bool) -> (r: Result<(Vec<Node>, usize), ParseError>)
        requires
            self.wf(),
            pos <= self.len(),
        ensures
            list_view(r) == self.sp_list(pos as int, paren),
            r is Ok ==> r->Ok_0.1 <= self.len(),
        decreases self.len() - pos, 3nat,
    {
        if self.is_tok(pos, if paren { Token::RParen } else { Token::RBracket }) {
            let items: Vec<Node> = Vec::new();
            proof {
                lemma_nodes_empty(items@);
            }
            return Ok((items, pos + 1));
        }
        self.parse_args(pos, paren)
    }

    fn parse_params(&self, pos: usize) -> (r: Result<(Vec<String>, usize), ParseError>)
        requires
            self.wf(),
            pos <= self.len(),
        ensures
            params_view(r) == self.sp_params(pos as int, Seq::empty()),
            r is Ok ==> r->Ok_0.1 <= self.len(),
    {
        let mut params: Vec<String> = Vec::new();
        assert(names_view(params@) =~= Seq::<Seq<char>>::empty());
        let mut p = pos;
        loop
            invariant
                self.wf(),
                pos <= p <= self.len(),
                self.sp_params(p as int, names_view(params@)) == self.sp_params(pos as int, Seq::empty()),
            decreases self.len() - p,
        {
            if p >= self.toks.len() {
                return Err(self.error_at(p));
            }
            match self.name_at(p) {
                None => {
                    return Err(self.error_at(p));
                },
                Some(n) => {
                    proof {
                        lemma_names_push(params@, n);
                    }
                    if self.is_tok(p + 1, Token::Comma) {
                        params.push(n);
                        p = p + 2;
                    } else {
                        params.push(n);
                        return Ok((params, p + 1));
                    }
                },
            }
        }
    }

    fn parse_block_end(&self, p: usize) -> (r: Parsed)
        requires
            self.wf(),
            p <= self.len(),
        ensures
            parsed_view(r) == self.sp_block_end(p as int),
            r is Ok ==> r->Ok_0.1 <= self.len(),
        decreases self.len() - p, 4nat,
    {
        match self.parse_statements(p) {
            Ok((body, q)) => if self.is_tok(q, Token::End) {
                Ok((body, q + 1))
            } else {
                Err(self.error_at(q))
            },
            Err(x) => Err(x),
        }
    }

    #[verifier::rlimit(60)]
    fn parse_primary(&self, pos: usize) -> (r: Parsed)
        requires
            self.wf(),
            pos < self.len(),
        ensures
            parsed_view(r) == self.sp_primary(pos as int),
        decreases self.len() - pos, 0nat,
    {
        let open_paren = self.is_tok(pos, Token::LParen);
        let open_bracket = self.is_tok(pos, Token::LBracket);
        if (open_paren || open_bracket) && self.is_endpoint(pos + 1) && self.is_tok(pos + 2, Token::Comma)
            && self.is_endpoint(pos + 3) && (self.is_tok(pos + 4, Token::RParen) || (open_paren
            && self.is_tok(pos + 4, Token::RBracket))) {
            let from = self.endpoint(pos + 1);
            let to = self.endpoint(pos + 3);
            let lower = if open_bracket { Bound::Inclusive } else { Bound::Exclusive };
            let upper = if self.is_tok(pos + 4, Token::RBracket) { Bound::Inclusive } else { Bound::Exclusive };
            return Ok((Node::Range { from: Box::new(from), to: Box::new(to), lower, upper }, pos + 5));
        }
        if open_paren {
            if pos + 1 >= self.toks.len() {
                return Err(self.error_at(pos + 1));
            }
            return match self.parse_expr(pos + 1, 0) {
                Ok((e, q)) => if self.is_tok(q, Token::RParen) {
                    Ok((e, q + 1))
                } else {
                    Err(self.error_at(q))
                },
                Err(x) => Err(x),
            };
        }
        if open_bracket {
            return match self.parse_list(pos + 1, false) {
                Ok((items, q)) => Ok((Node::List(items), q)),
                Err(x) => Err(x),
            };
        }
        match &self.toks[pos] {
            Token::Int(v) => Ok((Node::Number(Num::from_int(*v)), pos + 1)),
            Token::Str(s) => Ok((Node::String(s.clone()), pos + 1)),
            Token::Name(s) => {
                if self.is_tok(pos + 1, Token::LParen) {
                    match self.parse_list(pos + 2, true) {
                        Ok((args, q)) => Ok((Node::FnCall(s.clone(), args), q)),
                        Err(x) => Err(x),
                    }
                } else {
                    Ok((Node::VarRef(s.clone()), pos + 1))
                }
            },
            Token::Fn => {
                let name = self.name_at(pos + 1);
                let p = if name.is_some() { pos + 2 } else { pos + 1 };
                if !self.is_tok(p, Token::LParen) {
                    return Err(self.error_at(p));
                }
                let (params, p2) = if self.is_tok(p + 1, Token::RParen) {
                    let v: Vec<String> = Vec::new();
                    assert(names_view(v@) =~= Seq::<Seq<char>>::empty());
                    (v, p + 1)
                } else {
                    match self.parse_params(p + 1) {
                        Ok(r) => r,
                        Err(x) => return Err(x),
                    }
                };
                if !self.is_tok(p2, Token::RParen) || p2 < pos {
                    return Err(self.error_at(p2));
                }
                match self.parse_block_end(p2 + 1) {
                    Ok((body, q)) => Ok((Node::FnDef(name, params, Box::new(body)), q)),
                    Err(x) => Err(x),
                }
            },
            Token::If => {
                if pos + 1 >= self.toks.len() {
                    return Err(self.error_at(pos + 1));
                }
                let (cond, p) = match self.parse_expr(pos + 1, 0) {
                    Ok(r) => r,
                    Err(x) => return Err(x),
                };
                if !self.is_tok(p, Token::Then) || p < pos {
                    return Err(self.error_at(p));
                }
                let (then_block, p2) = match self.parse_statements(p + 1) {
                    Ok(r) => r,
                    Err(x) => return Err(x),
                };
                let (else_block, p3) = if self.is_tok(p2, Token::Else) && p2 >= pos {
                    match self.parse_statements(p2 + 1) {
                        Ok(r) => r,
                        Err(x) => return Err(x),
                    }
                } else {
                    (Node::Nada, p2)
                };
                if self.is_tok(p3, Token::End) {
                    Ok((
                        Node::IfElse {
                            condition: Box::new(cond),
                            if_block: Box::new(then_block),
                            else_block: Box::new(else_block),
                        },
                        p3 + 1,
                    ))
                } else {
                    Err(self.error_at(p3))
                }
            },
            Token::While => {
                if pos + 1 >= self.toks.len() {
                    return Err(self.error_at(pos + 1));
                }
                let (cond, p) = match self.parse_expr(pos + 1, 0) {
                    Ok(r) => r,
                    Err(x) => return Err(x),
                };
                if !self.is_tok(p, Token::Do) || p < pos {
                    return Err(self.error_at(p));
                }
                match self.parse_block_end(p + 1) {
                    Ok((body, q)) => Ok((Node::While { condition: Box::new(cond), inner: Box::new(body) }, q)),
                    Err(x) => Err(x),
                }
            },
            Token::For => {
                let var = match self.name_at(pos + 1) {
                    Some(n) => n,
                    None => return Err(self.error_at(pos + 1)),
                };
                if !self.is_tok(pos + 2, Token::In) {
                    return Err(self.error_at(pos + 2));
                }
                if pos + 3 >= self.toks.len() {
                    return Err(self.error_at(pos + 3));
                }
                let (iterable, p) = match self.parse_expr(pos + 3, 0) {
                    Ok(r) => r,
                    Err(x) => return Err(x),
                };
                if !self.is_tok(p, Token::Do) || p < pos {
                    return Err(self.error_at(p));
                }
                match self.parse_block_end(p + 1) {
                    Ok((body, q)) => Ok((Node::Loop { var, iterable: Box::new(iterable), inner: Box::new(body) }, q)),
                    Err(x) => Err(x),
                }
            },
            _ => Err(self.error_at(pos)),
        }
    }
}

} // verus!

//! The tokenizer: its specification on character sequences, and a lazy token
//! stream over a character source.

use vstd::prelude::*;

use crate::error::EvalError;
use crate::reader::{string_reader, Reader};
use crate::token::Token;

verus! {

/// The whitespace that separates tokens: space, tab, line feed, form feed
/// and carriage return.
pub open spec fn is_space(c: char) -> bool {
    c == ' ' || c == '\t' || c == '\n' || c == '\x0C' || c == '\r'
}

/// A decimal digit.
pub open spec fn is_digit(c: char) -> bool {
    '0' <= c <= '9'
}

/// The value of a decimal digit.
pub open spec fn digit_value(c: char) -> int {
    c as int - '0' as int
}

/// The token that a one-character operator or parenthesis stands for.
pub open spec fn symbol_token(c: char) -> Option<Token> {
    if c == '+' {
        Some(Token::Plus)
    } else if c == '-' {
        Some(Token::Minus)
    } else if c == '*' {
        Some(Token::Times)
    } else if c == '/' {
        Some(Token::Div)
    } else if c == '(' {
        Some(Token::LeftParenthesis)
    } else if c == ')' {
        Some(Token::RightParenthesis)
    } else {
        None
    }
}

/// The length of the run of digits at the front of `s`.
pub open spec fn digit_run(s: Seq<char>) -> nat
    decreases s.len(),
{
    if s.len() > 0 && is_digit(s[0]) {
        1 + digit_run(s.drop_first())
    } else {
        0
    }
}

/// The number that the digits `d` write in decimal, most significant first.
pub open spec fn decimal(d: Seq<char>) -> int
    decreases d.len(),
{
    if d.len() == 0 {
        0
    } else {
        10 * decimal(d.drop_last()) + digit_value(d.last())
    }
}

/// The tokens of `s`, and how the token sequence ends: `None` when `s` is
/// used up, or the lexical error that stops it. A literal is the longest run
/// of digits; one whose value exceeds `i32::MAX` is an `Overflow`.
pub open spec fn lex(s: Seq<char>) -> (Seq<Token>, Option<EvalError>)
    decreases s.len(),
{
    if s.len() == 0 {
        (Seq::empty(), None)
    } else if is_space(s[0]) {
        lex(s.drop_first())
    } else if is_digit(s[0]) {
        let n = digit_run(s);
        let v = decimal(s.take(n as int));
        if v > i32::MAX {
            (Seq::empty(), Some(EvalError::Overflow))
        } else {
            proof {
                lemma_digit_run_bounds(s);
            }
            let r = lex(s.skip(n as int));
            (seq![Token::Value(v as i32)] + r.0, r.1)
        }
    } else {
        match symbol_token(s[0]) {
            Some(t) => {
                let r = lex(s.drop_first());
                (seq![t] + r.0, r.1)
            },
            None => (Seq::empty(), Some(EvalError::UnsupportedCharacter(s[0]))),
        }
    }
}

/// A run of digits lies within the sequence, and is not empty where it starts with a digit.
pub proof fn lemma_digit_run_bounds(s: Seq<char>)
    ensures
        digit_run(s) <= s.len(),
        s.len() > 0 && is_digit(s[0]) ==> digit_run(s) >= 1,
        forall|i: int| 0 <= i < digit_run(s) ==> is_digit(#[trigger] s[i]),
        digit_run(s) < s.len() ==> !is_digit(s[digit_run(s) as int]),
    decreases s.len(),
{
    if s.len() > 0 && is_digit(s[0]) {
        lemma_digit_run_bounds(s.drop_first());
        if digit_run(s) < s.len() {
            assert(s[digit_run(s) as int] == s.drop_first()[digit_run(s.drop_first()) as int]);
        }
        assert forall|i: int| 0 <= i < digit_run(s) implies is_digit(#[trigger] s[i]) by {
            if i > 0 {
                assert(s[i] == s.drop_first()[i - 1]);
            }
        }
    }
}

/// A run of exactly `k` digits stands at the front of `s`.
proof fn lemma_digit_run_exact(s: Seq<char>, k: int)
    requires
        0 <= k <= s.len(),
        forall|i: int| 0 <= i < k ==> is_digit(#[trigger] s[i]),
        k == s.len() || !is_digit(s[k]),
    ensures
        digit_run(s) == k,
    decreases k,
{
    if k > 0 {
        lemma_digit_run_exact(s.drop_first(), k - 1);
    }
}

/// A run of at least `k` digits stands at the front of `s`.
proof fn lemma_digit_run_at_least(s: Seq<char>, k: int)
    requires
        0 <= k <= s.len(),
        forall|i: int| 0 <= i < k ==> is_digit(#[trigger] s[i]),
    ensures
        digit_run(s) >= k,
    decreases k,
{
    if k > 0 {
        lemma_digit_run_at_least(s.drop_first(), k - 1);
    }
}

/// Appending a digit shifts the number one place and adds the digit.
proof fn lemma_decimal_push(d: Seq<char>, c: char)
    ensures
        decimal(d.push(c)) == 10 * decimal(d) + digit_value(c),
{
    assert(d.push(c).drop_last() =~= d);
}

/// Over a run of digits, a longer prefix writes a number at least as large.
proof fn lemma_decimal_monotone(s: Seq<char>, k: int, j: int)
    requires
        0 <= k <= j <= s.len(),
        forall|i: int| 0 <= i < j ==> is_digit(#[trigger] s[i]),
    ensures
        0 <= decimal(s.take(k)) <= decimal(s.take(j)),
    decreases j,
{
    if j > 0 {
        if k < j {
            lemma_decimal_monotone(s, k, j - 1);
        } else {
            lemma_decimal_monotone(s, j - 1, j - 1);
        }
        assert(s.take(j) =~= s.take(j - 1).push(s[j - 1]));
        lemma_decimal_push(s.take(j - 1), s[j - 1]);
    }
}

fn char_is_space(c: char) -> (r: bool)
    ensures
        r == is_space(c),
{
    c == ' ' || c == '\t' || c == '\n' || c == '\x0C' || c == '\r'
}

fn char_is_digit(c: char) -> (r: bool)
    ensures
        r == is_digit(c),
{
    '0' <= c && c <= '9'
}

/// The value of the decimal digit `c`.
pub fn to_10_digit(c: char) -> (r: i32)
    requires
        is_digit(c),
    ensures
        r == digit_value(c),
{
    (c as u32 - '0' as u32) as i32
}

fn symbol(c: char) -> (r: Option<Token>)
    ensures
        r == symbol_token(c),
{
    if c == '+' {
        Some(Token::Plus)
    } else if c == '-' {
        Some(Token::Minus)
    } else if c == '*' {
        Some(Token::Times)
    } else if c == '/' {
        Some(Token::Div)
    } else if c == '(' {
        Some(Token::LeftParenthesis)
    } else if c == ')' {
        Some(Token::RightParenthesis)
    } else {
        None
    }
}

/// A stream of tokens, pulled one at a time.
pub trait Lexer {
    /// The tokens still to come, and how the stream ends after them: `None`
    /// where the input is used up, or the lexical error met there.
    spec fn upcoming(&self) -> (Seq<Token>, Option<EvalError>);

    /// Pulls the next token: `Ok(None)` at the end of the input, `Err` where
    /// a lexical error stops the stream.
    fn next_token(&mut self) -> (r: Result<Option<Token>, EvalError>)
        ensures
            old(self).upcoming().0.len() > 0 ==> r == Ok::<Option<Token>, EvalError>(Some(old(self).upcoming().0[0]))
                && final(self).upcoming() == (old(self).upcoming().0.drop_first(), old(self).upcoming().1),
            old(self).upcoming().0.len() == 0 && old(self).upcoming().1 is None
                ==> r == Ok::<Option<Token>, EvalError>(None) && final(self).upcoming() == old(self).upcoming(),
            old(self).upcoming().0.len() == 0 && old(self).upcoming().1 is Some
                ==> r == Err::<Option<Token>, EvalError>(old(self).upcoming().1->0),
    ;
}

/// The token stream of a reader: the reader, and the character that was
/// read past the end of the last literal, if any.
pub struct LexerIteratorImpl<R: Reader> {
    last: Option<char>,
    it: R,
}

impl<R: Reader> LexerIteratorImpl<R> {
    /// The characters that the stream has not turned into tokens yet.
    pub closed spec fn input(&self) -> Seq<char> {
        match self.last {
            Some(c) => seq![c] + self.it.rest(),
            None => self.it.rest(),
        }
    }

    /// The stream of the tokens of the characters that `it` has left.
    pub fn new(it: R) -> (r: LexerIteratorImpl<R>)
        ensures
            r.upcoming() == lex(it.rest()),
    {
        LexerIteratorImpl { last: None, it }
    }

    /// Reads the literal that starts with the digit `c`, the characters
    /// after it coming from the reader.
    fn read_token_value(&mut self, c: char) -> (r: Result<i32, EvalError>)
        requires
            is_digit(c),
            old(self).last is None,
        ensures
            ({
                let s = seq![c] + old(self).it.rest();
                let n = digit_run(s) as int;
                if decimal(s.take(n)) > i32::MAX {
                    r == Err::<i32, EvalError>(EvalError::Overflow)
                } else {
                    &&& r == Ok::<i32, EvalError>(decimal(s.take(n)) as i32)
                    &&& final(self).input() == s.skip(n)
                    &&& if n < s.len() {
                        // the first character after the literal was pulled and is kept pending
                        final(self).last == Some(s[n]) && final(self).it.rest() == s.skip(n + 1)
                    } else {
                        final(self).last is None && final(self).it.rest().len() == 0
                    }
                }
            }),
    {
        let ghost s = seq![c] + self.it.rest();
        let mut value: i32 = to_10_digit(c);
        let ghost mut k: int = 1;
        assert(s.take(1) =~= seq![].push(c));
        proof {
            lemma_decimal_push(seq![], c);
        }
        loop
            invariant
                1 <= k <= s.len(),
                s == seq![c] + old(self).it.rest(),
                forall|i: int| 0 <= i < k ==> is_digit(#[trigger] s[i]),
                value == decimal(s.take(k)),
                self.last is None,
                self.it.rest() == s.skip(k),
            decreases self.it.rest().len(),
        {
            let next = self.it.next_char();
            match next {
                Some(d) => {
                    assert(d == s[k]);
                    if char_is_digit(d) {
                        let dv = to_10_digit(d);
                        assert(s.take(k + 1) =~= s.take(k).push(d));
                        proof {
                            lemma_decimal_push(s.take(k), d);
                        }
                        let grown = match value.checked_mul(10) {
                            Some(m) => m.checked_add(dv),
                            None => None,
                        };
                        match grown {
                            Some(g) => {
                                value = g;
                                proof {
                                    k = k + 1;
                                }
                                assert(self.it.rest() =~= s.skip(k));
                            },
                            None => {
                                proof {
                                    lemma_digit_run_at_least(s, k + 1);
                                    lemma_digit_run_bounds(s);
                                    lemma_decimal_monotone(s, k + 1, digit_run(s) as int);
                                }
                                return Err(EvalError::Overflow);
                            },
                        }
                    } else {
                        self.last = Some(d);
                        proof {
                            lemma_digit_run_exact(s, k);
                        }
                        assert(self.it.rest() =~= s.skip(k + 1));
                        assert(self.input() =~= s.skip(k));
                        return Ok(value);
                    }
                },
                None => {
                    proof {
                        lemma_digit_run_exact(s, k);
                    }
                    assert(self.input() =~= s.skip(k));
                    return Ok(value);
                },
            }
        }
    }
}

impl<R: Reader> Lexer for LexerIteratorImpl<R> {
    closed spec fn upcoming(&self) -> (Seq<Token>, Option<EvalError>) {
        lex(self.input())
    }

    fn next_token(&mut self) -> (r: Result<Option<Token>, EvalError>) {
        let first = self.last;
        self.last = None;
        let mut c = match first {
            Some(c) => c,
            None => match self.it.next_char() {
                Some(c) => c,
                None => return Ok(None),
            },
        };
        assert(old(self).input() =~= seq![c] + self.it.rest());
        while char_is_space(c)
            invariant
                lex(old(self).input()) == lex(seq![c] + self.it.rest()),
                self.last is None,
            decreases self.it.rest().len(),
        {
            let ghost before = self.it.rest();
            assert((seq![c] + before).drop_first() =~= before);
            match self.it.next_char() {
                Some(d) => {
                    c = d;
                    assert(before =~= seq![c] + self.it.rest());
                },
                None => {
                    assert(before =~= Seq::<char>::empty());
                    assert(lex(before).0.len() == 0);
                    return Ok(None);
                },
            }
        }
        let ghost s = seq![c] + self.it.rest();
        assert(s.drop_first() =~= self.it.rest());
        if char_is_digit(c) {
            match self.read_token_value(c) {
                Ok(v) => {
                    assert(lex(s).0.drop_first() =~= lex(self.input()).0);
                    Ok(Some(Token::Value(v)))
                },
                Err(e) => Err(e),
            }
        } else {
            match symbol(c) {
                Some(t) => {
                    assert(lex(s).0.drop_first() =~= lex(self.input()).0);
                    Ok(Some(t))
                },
                None => Err(EvalError::UnsupportedCharacter(c)),
            }
        }
    }
}

/// Tokenizing depends on the text alone: two equal texts give structurally
/// equal token sequences, ending the same way.
pub proof fn lemma_tokenizing_is_deterministic(s: Seq<char>, t: Seq<char>)
    requires
        s == t,
    ensures
        lex(s).0 == lex(t).0,
        lex(s).1 == lex(t).1,
{
}

/// Whitespace between tokens does not matter: a whitespace character put
/// anywhere but between two digits leaves the tokens, and how they end, as
/// they were.
pub proof fn lemma_whitespace_insensitive(a: Seq<char>, w: char, b: Seq<char>)
    requires
        is_space(w),
        !(a.len() > 0 && b.len() > 0 && is_digit(a.last()) && is_digit(b[0])),
    ensures
        lex(a + seq![w] + b) == lex(a + b),
    decreases a.len(),
{
    let x = a + seq![w] + b;
    let y = a + b;
    if a.len() == 0 {
        assert(x.drop_first() =~= b);
        assert(y =~= b);
    } else if is_digit(a[0]) {
        let n = digit_run(a) as int;
        lemma_digit_run_bounds(a);
        assert(x[0] == a[0] && y[0] == a[0]);
        if n < a.len() {
            assert(x[n] == a[n] && y[n] == a[n]);
            lemma_digit_run_exact(x, n);
            lemma_digit_run_exact(y, n);
            assert(x.take(n) =~= a.take(n));
            assert(y.take(n) =~= a.take(n));
            assert(x.skip(n) =~= a.skip(n) + seq![w] + b);
            assert(y.skip(n) =~= a.skip(n) + b);
            assert(a.skip(n).last() == a.last());
            lemma_whitespace_insensitive(a.skip(n), w, b);
        } else {
            assert(x[n] == w);
            lemma_digit_run_exact(x, n);
            assert(is_digit(a[n - 1]));
            if b.len() > 0 {
                assert(y[n] == b[0]);
            }
            lemma_digit_run_exact(y, n);
            assert(x.take(n) =~= a);
            assert(y.take(n) =~= a);
            assert(x.skip(n) =~= seq![w] + b);
            assert((seq![w] + b).drop_first() =~= b);
            assert(y.skip(n) =~= b);
            assert(lex(x.skip(n)) == lex(b));
        }
    } else {
        assert(x[0] == a[0] && y[0] == a[0]);
        assert(x.drop_first() =~= a.drop_first() + seq![w] + b);
        assert(y.drop_first() =~= a.drop_first() + b);
        if a.len() > 1 {
            assert(a.drop_first().last() == a.last());
        }
        lemma_whitespace_insensitive(a.drop_first(), w, b);
    }
}

/// Whitespace between tokens does not matter, however much of it: a run of
/// whitespace put in anywhere but between two digits, or taken out from
/// such a place, leaves the tokens, and how they end, as they were.
pub proof fn lemma_whitespace_run_insensitive(a: Seq<char>, ws: Seq<char>, b: Seq<char>)
    requires
        forall|i: int| 0 <= i < ws.len() ==> is_space(#[trigger] ws[i]),
        !(a.len() > 0 && b.len() > 0 && is_digit(a.last()) && is_digit(b[0])),
    ensures
        lex(a + ws + b) == lex(a + b),
    decreases ws.len(),
{
    if ws.len() == 0 {
        assert(a + ws + b =~= a + b);
    } else {
        let rest = ws.drop_last();
        let front = a + rest;
        lemma_whitespace_run_insensitive(a, rest, b);
        assert(a + rest + b =~= front + b);
        if rest.len() > 0 {
            assert(front.last() == rest.last());
            assert(is_space(rest[rest.len() - 1]));
        } else {
            assert(front =~= a);
        }
        assert(is_space(ws[ws.len() - 1]));
        lemma_whitespace_insensitive(front, ws.last(), b);
        assert(a + ws + b =~= front + seq![ws.last()] + b);
    }
}

/// A lexer over the characters of a reader.
pub struct LexerImpl<R: Reader> {
    reader: R,
}

impl<R: Reader> LexerImpl<R> {
    /// The characters that the lexer will read.
    pub closed spec fn source(&self) -> Seq<char> {
        self.reader.rest()
    }

    pub fn new(reader: R) -> (r: LexerImpl<R>)
        ensures
            r.source() == reader.rest(),
    {
        LexerImpl { reader }
    }

    /// The stream of the tokens of the source.
    pub fn tokens(self) -> (r: LexerIteratorImpl<R>)
        ensures
            r.upcoming() == lex(self.source()),
    {
        LexerIteratorImpl::new(self.reader)
    }
}

/// A lexer over the characters that `reader` has left.
pub fn lexer_impl<R: Reader>(reader: R) -> (r: LexerImpl<R>)
    ensures
        r.source() == reader.rest(),
{
    LexerImpl::new(reader)
}

/// All the tokens of `s`, or the lexical error that stops them.
pub fn tokenize(s: &str) -> (r: Result<Vec<Token>, EvalError>)
    ensures
        match lex(s@).1 {
            None => r matches Ok(v) && v@ == lex(s@).0,
            Some(e) => r == Err::<Vec<Token>, EvalError>(e),
        },
{
    let mut stream = lexer_impl(string_reader(s)).tokens();
    let mut out: Vec<Token> = Vec::new();
    loop
        invariant
            out@ + stream.upcoming().0 == lex(s@).0,
            stream.upcoming().1 == lex(s@).1,
        decreases stream.upcoming().0.len(),
    {
        let ghost before = stream.upcoming();
        match stream.next_token() {
            Ok(Some(t)) => {
                out.push(t);
                assert(out@ + stream.upcoming().0 =~= lex(s@).0);
            },
            Ok(None) => {
                assert(out@ =~= lex(s@).0);
                return Ok(out);
            },
            Err(e) => return Err(e),
        }
    }
}

} // verus!

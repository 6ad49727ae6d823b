//! Splitting program text into tokens.

use vstd::prelude::*;

use crate::parse::{Error, Token};

verus! {

/// Space, tab or newline.
pub open spec fn is_space(c: u8) -> bool {
    c == 32 || c == 9 || c == 10
}

/// An ASCII digit.
pub open spec fn is_digit(c: u8) -> bool {
    48 <= c <= 57
}

/// A letter or an underscore: what an identifier starts with.
pub open spec fn is_ident_start(c: u8) -> bool {
    c == 95 || (65 <= c <= 90) || (97 <= c <= 122)
}

/// What an identifier goes on with.
pub open spec fn is_ident_char(c: u8) -> bool {
    is_ident_start(c) || is_digit(c)
}

/// The one-byte tokens.
pub open spec fn punct(c: u8) -> Option<Token> {
    if c == 61 {
        Some(Token::Eq)
    } else if c == 42 {
        Some(Token::Era)
    } else if c == 40 {
        Some(Token::OpenParen)
    } else if c == 41 {
        Some(Token::CloseParen)
    } else if c == 91 {
        Some(Token::OpenBracket)
    } else if c == 93 {
        Some(Token::CloseBracket)
    } else if c == 123 {
        Some(Token::OpenBrace)
    } else if c == 125 {
        Some(Token::CloseBrace)
    } else {
        None
    }
}

/// Where the run of digits starting at `i` ends.
pub open spec fn digits_end(s: Seq<u8>, i: int) -> int
    decreases s.len() - i,
{
    if 0 <= i < s.len() && is_digit(s[i]) {
        digits_end(s, i + 1)
    } else {
        i
    }
}

/// Where the run of identifier characters starting at `i` ends.
pub open spec fn ident_end(s: Seq<u8>, i: int) -> int
    decreases s.len() - i,
{
    if 0 <= i < s.len() && is_ident_char(s[i]) {
        ident_end(s, i + 1)
    } else {
        i
    }
}

/// The decimal value of the digits from `i` to `j`.
pub open spec fn digits_value(s: Seq<u8>, i: int, j: int) -> int
    decreases j - i,
{
    if j <= i {
        0
    } else {
        digits_value(s, i, j - 1) * 10 + (s[j - 1] - 48)
    }
}

proof fn lemma_digits_end(s: Seq<u8>, i: int)
    ensures
        digits_end(s, i) >= i,
        0 <= i <= s.len() ==> digits_end(s, i) <= s.len(),
    decreases s.len() - i,
{
    if 0 <= i < s.len() && is_digit(s[i]) {
        lemma_digits_end(s, i + 1);
    }
}

proof fn lemma_ident_end(s: Seq<u8>, i: int)
    ensures
        ident_end(s, i) >= i,
        0 <= i <= s.len() ==> ident_end(s, i) <= s.len(),
    decreases s.len() - i,
{
    if 0 <= i < s.len() && is_ident_char(s[i]) {
        lemma_ident_end(s, i + 1);
    }
}

/// The tokens of `s` from byte `i` on. Whitespace separates tokens; a run of
/// digits is a number, which must fit in a `usize`; an identifier is named
/// by its byte range. The first byte that starts no token gives a lexical
/// error, and nothing after it is read.
pub open spec fn lex_from(s: Seq<u8>, i: int) -> Seq<Result<Token, Error>>
    decreases s.len() - i,
    via lex_from_decreases
{
    if i < 0 || i >= s.len() {
        seq![]
    } else if is_space(s[i]) {
        lex_from(s, i + 1)
    } else if punct(s[i]) is Some {
        seq![Ok(punct(s[i])->Some_0)] + lex_from(s, i + 1)
    } else if is_digit(s[i]) {
        let j = digits_end(s, i);
        let v = digits_value(s, i, j);
        if v > usize::MAX {
            seq![Err(Error::LexError)]
        } else {
            seq![Ok(Token::Number(v as usize))] + lex_from(s, j)
        }
    } else if is_ident_start(s[i]) {
        let j = ident_end(s, i + 1);
        seq![Ok(Token::Ident(i as usize, j as usize))] + lex_from(s, j)
    } else {
        seq![Err(Error::LexError)]
    }
}

#[via_fn]
proof fn lex_from_decreases(s: Seq<u8>, i: int) {
    lemma_digits_end(s, i);
    lemma_ident_end(s, i + 1);
    if 0 <= i < s.len() && is_digit(s[i]) {
        lemma_digits_end(s, i + 1);
    }
}

/// The tokens of `s`.
pub open spec fn lex_spec(s: Seq<u8>) -> Seq<Result<Token, Error>> {
    lex_from(s, 0)
}

fn space_byte(c: u8) -> (r: bool)
    ensures
        r == is_space(c),
{
    c == 32 || c == 9 || c == 10
}

fn digit_byte(c: u8) -> (r: bool)
    ensures
        r == is_digit(c),
{
    48 <= c && c <= 57
}

fn ident_start_byte(c: u8) -> (r: bool)
    ensures
        r == is_ident_start(c),
{
    c == 95 || (65 <= c && c <= 90) || (97 <= c && c <= 122)
}

fn ident_byte(c: u8) -> (r: bool)
    ensures
        r == is_ident_char(c),
{
    ident_start_byte(c) || digit_byte(c)
}

fn punct_token(c: u8) -> (r: Option<Token>)
    ensures
        r == punct(c),
{
    if c == 61 {
        Some(Token::Eq)
    } else if c == 42 {
        Some(Token::Era)
    } else if c == 40 {
        Some(Token::OpenParen)
    } else if c == 41 {
        Some(Token::CloseParen)
    } else if c == 91 {
        Some(Token::OpenBracket)
    } else if c == 93 {
        Some(Token::CloseBracket)
    } else if c == 123 {
        Some(Token::OpenBrace)
    } else if c == 125 {
        Some(Token::CloseBrace)
    } else {
        None
    }
}

/// Splits `s` into tokens, up to and including the first lexical error.
pub fn lex(s: &[u8]) -> (r: Vec<Result<Token, Error>>)
    ensures
        r@ == lex_spec(s@),
{
    let mut toks: Vec<Result<Token, Error>> = Vec::new();
    let mut i: usize = 0;
    let mut stop = false;
    while i < s.len() && !stop
        invariant
            i <= s@.len(),
            !stop ==> toks@ + lex_from(s@, i as int) == lex_spec(s@),
            stop ==> toks@ == lex_spec(s@),
        decreases s@.len() - i + (if stop {
            0int
        } else {
            1int
        }),
    {
        let c = s[i];
        let ghost rest = lex_from(s@, i as int);
        if space_byte(c) {
            i = i + 1;
        } else if let Some(p) = punct_token(c) {
            toks.push(Ok(p));
            assert(toks@ + lex_from(s@, i + 1) =~= toks@.drop_last() + rest);
            i = i + 1;
        } else if digit_byte(c) {
            let mut j: usize = i;
            let mut v: usize = 0;
            let mut over = false;
            while j < s.len() && digit_byte(s[j])
                invariant
                    i <= j <= s@.len(),
                    is_digit(s@[i as int]),
                    j > i ==> digits_end(s@, i as int) == digits_end(s@, j as int),
                    j == i ==> v == 0 && !over,
                    !over ==> v == digits_value(s@, i as int, j as int),
                    over ==> digits_value(s@, i as int, j as int) > usize::MAX,
                decreases s@.len() - j,
            {
                let d = (s[j] - 48) as usize;
                if !over {
                    match v.checked_mul(10) {
                        Some(m) => match m.checked_add(d) {
                            Some(t) => {
                                v = t;
                            },
                            None => {
                                over = true;
                            },
                        },
                        None => {
                            over = true;
                        },
                    }
                }
                j = j + 1;
            }
            proof {
                lemma_digits_end(s@, i as int);
            }
            if over {
                toks.push(Err(Error::LexError));
                assert(toks@ =~= lex_spec(s@));
                stop = true;
            } else {
                toks.push(Ok(Token::Number(v)));
                assert(toks@ + lex_from(s@, j as int) =~= toks@.drop_last() + rest);
                i = j;
            }
        } else if ident_start_byte(c) {
            let mut j: usize = i + 1;
            while j < s.len() && ident_byte(s[j])
                invariant
                    i < j <= s@.len(),
                    ident_end(s@, i + 1) == ident_end(s@, j as int),
                decreases s@.len() - j,
            {
                j = j + 1;
            }
            toks.push(Ok(Token::Ident(i, j)));
            assert(toks@ + lex_from(s@, j as int) =~= toks@.drop_last() + rest);
            i = j;
        } else {
            toks.push(Err(Error::LexError));
            assert(toks@ =~= lex_spec(s@));
            stop = true;
        }
    }
    toks
}

} // verus!

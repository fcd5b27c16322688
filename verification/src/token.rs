//! Tokens of the source language and the byte-level tokenizer.

use vstd::prelude::*;

verus! {

/// One of the eight commands of the language.
#[derive(Clone, Copy, Debug, PartialEq, Eq, Hash, Structural)]
pub enum Token {
    /// `+`
    Increment,
    /// `-`
    Decrement,
    /// `>`
    MoveRight,
    /// `<`
    MoveLeft,
    /// `[`
    LoopOpen,
    /// `]`
    LoopClose,
    /// `.`
    Output,
    /// `,`
    Input,
}

impl Token {
    /// Whether the token changes a cell or moves the pointer by one: the four
    /// tokens that the compiler coalesces.
    pub open spec fn is_arith(self) -> bool {
        self is Increment || self is Decrement || self is MoveRight || self is MoveLeft
    }
}

/// The token that a source byte denotes, if it denotes one.
pub open spec fn token_of(c: u8) -> Option<Token> {
    if c == '+' as u8 {
        Some(Token::Increment)
    } else if c == '-' as u8 {
        Some(Token::Decrement)
    } else if c == '>' as u8 {
        Some(Token::MoveRight)
    } else if c == '<' as u8 {
        Some(Token::MoveLeft)
    } else if c == '[' as u8 {
        Some(Token::LoopOpen)
    } else if c == ']' as u8 {
        Some(Token::LoopClose)
    } else if c == '.' as u8 {
        Some(Token::Output)
    } else if c == ',' as u8 {
        Some(Token::Input)
    } else {
        None
    }
}

/// Maps one source byte to its token; every byte that is not a command is a
/// comment and yields `None`.
pub fn to_basic_opcode(c: u8) -> (r: Option<Token>)
    ensures
        r == token_of(c),
{
    match c {
        // '+'
        43 => Some(Token::Increment),
        // '-'
        45 => Some(Token::Decrement),
        // '>'
        62 => Some(Token::MoveRight),
        // '<'
        60 => Some(Token::MoveLeft),
        // '['
        91 => Some(Token::LoopOpen),
        // ']'
        93 => Some(Token::LoopClose),
        // '.'
        46 => Some(Token::Output),
        // ','
        44 => Some(Token::Input),
        _ => None,
    }
}

/// The tokens of a source text: the tokens of its command bytes, in order.
pub open spec fn tokens_of(src: Seq<u8>) -> Seq<Token>
    decreases src.len(),
{
    if src.len() == 0 {
        Seq::empty()
    } else {
        match token_of(src.last()) {
            Some(t) => tokens_of(src.drop_last()).push(t),
            None => tokens_of(src.drop_last()),
        }
    }
}

/// Tokenizes a whole source text, dropping every byte that is not a command.
pub fn tokenize(src: &[u8]) -> (tokens: Vec<Token>)
    ensures
        tokens@ == tokens_of(src@),
{
    let mut tokens: Vec<Token> = Vec::new();
    let mut i: usize = 0;
    while i < src.len()
        invariant
            i <= src.len(),
            tokens@ == tokens_of(src@.take(i as int)),
        decreases src.len() - i,
    {
        proof {
            assert(src@.take(i + 1).drop_last() =~= src@.take(i as int));
        }
        match to_basic_opcode(src[i]) {
            Some(t) => tokens.push(t),
            None => {},
        }
        i += 1;
    }
    proof {
        assert(src@.take(src.len() as int) =~= src@);
    }
    tokens
}

} // verus!

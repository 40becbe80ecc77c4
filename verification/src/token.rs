//! Token and error data types produced by the scanner.

use vstd::prelude::*;

verus! {

/// The closed set of recognized instruction mnemonics.
#[derive(Clone, Copy, Debug, PartialEq, Eq)]
pub enum Op {
    ADC,
    LDA,
}

/// One lexical token: a numeric literal, an identifier, or a mnemonic keyword.
#[derive(Debug, PartialEq, Eq)]
pub enum Token {
    Number(u32),
    Identifier(String),
    Op(Op),
}

/// One recoverable lexical error: the line it was found on and a message.
#[derive(Debug, PartialEq, Eq)]
pub struct LexError {
    pub line: usize,
    pub message: String,
}

/// The mathematical value of a `Token`: the identifier payload is seen as a
/// sequence of characters.
pub enum TokenModel {
    Number(u32),
    Identifier(Seq<char>),
    Op(Op),
}

impl View for Token {
    type V = TokenModel;

    open spec fn view(&self) -> TokenModel {
        match self {
            Token::Number(n) => TokenModel::Number(*n),
            Token::Identifier(s) => TokenModel::Identifier(s@),
            Token::Op(op) => TokenModel::Op(*op),
        }
    }
}

impl Clone for Token {
    /// Cloning preserves the token's value.
    fn clone(&self) -> (r: Self)
        ensures
            r@ == self@,
    {
        match self {
            Token::Number(n) => Token::Number(*n),
            Token::Identifier(s) => Token::Identifier(s.clone()),
            Token::Op(op) => Token::Op(*op),
        }
    }
}

/// The token values of a sequence of tokens.
pub open spec fn tokens_view(ts: Seq<Token>) -> Seq<TokenModel> {
    ts.map_values(|t: Token| t@)
}

/// The line numbers of a sequence of errors.
pub open spec fn error_lines_of(es: Seq<LexError>) -> Seq<int> {
    es.map_values(|e: LexError| e.line as int)
}

} // verus!

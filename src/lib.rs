//! A line-oriented lexer for NodeScript source text.
//!
//! The scanner reads the source one line at a time and turns each line into
//! a sequence of tokens. Literal tokens do not copy their text: they carry the
//! inclusive byte range of the lexeme inside the source, which the token
//! stream keeps beside the tokens.
use vstd::prelude::*;

pub mod laws;
pub mod model;
pub mod tokens;

verus! {

/// Tokenizes a whole source text; see [`tokens::tokenize`].
pub fn tokenize_string(code: String) -> (r: Result<tokens::Tokens, &'static str>)
    ensures
        match model::tokenize_bytes(model::source_bytes(code@)) {
            Ok(ls) => r matches Ok(t) && t.token_lines() == ls && t.code@ == code@,
            Err(e) => r == Err::<tokens::Tokens, &'static str>(tokens::error_message(e)),
        },
{
    tokens::tokenize(code)
}
} // verus!

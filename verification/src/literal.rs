//! Reading a literal out of the tokens of a macro call.

use vstd::prelude::*;

use crate::syntax::Lit;

verus! {

/// What `syn::parse_str::<syn::Lit>` makes of a text: nothing if the text is not exactly one
/// literal, and otherwise the string that the literal stands for, if it is a string literal.
pub uninterp spec fn parsed_literal(tokens: Seq<char>) -> Option<Option<Seq<char>>>;

/// Parses a text as a single literal.
///
/// Calls `syn::parse_str::<syn::Lit>` and, on a string literal, `syn::LitStr::value`. What they
/// return is a function of the text alone, which the contract names [`parsed_literal`]: a
/// literal comes back exactly where the parser accepts the text, and a string literal comes back
/// as the string that it stands for, with escapes resolved. Which texts are literals, and what
/// string an escape stands for, is left to the parser. The tokenizer underneath keeps every text
/// that a thread hands to it and numbers their characters with 32 bits; the contract takes it
/// that a thread does not use these up.
#[verifier::external_body]
pub(crate) fn parse_literal(tokens: &str) -> (r: Option<Lit>)
    ensures
        match r {
            Some(lit) => parsed_literal(tokens@) == Some(lit@),
            None => parsed_literal(tokens@) is None,
        },
{
    match syn::parse_str::<syn::Lit>(tokens) {
        Ok(syn::Lit::Str(s)) => Some(Lit::Str(s.value())),
        Ok(_) => Some(Lit::Other),
        Err(_) => None,
    }
}

} // verus!

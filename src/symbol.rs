use vstd::prelude::*;

verus! {

/// Sentinel that marks the end of the input and of a lookahead window.
pub const END_MARKER: char = '\0';

/// Head of the synthetic root production (Greek capital omega), kept out of
/// ordinary grammars.
pub const ROOT_HEAD: char = '\u{03A9}';

/// What `char::is_uppercase` answers for `c` (the Unicode Uppercase property).
pub uninterp spec fn uppercase(c: char) -> bool;

/// A nonterminal is an uppercase symbol other than the end marker.
pub open spec fn nonterminal(c: char) -> bool {
    c != END_MARKER && uppercase(c)
}

/// Relies on `char::is_uppercase`: whether `c` has the Unicode Uppercase
/// property, which depends on `c` alone.
#[verifier::external_body]
fn char_is_uppercase(c: char) -> (r: bool)
    ensures
        r == uppercase(c),
{
    c.is_uppercase()
}

/// Classifies a symbol: uppercase symbols are nonterminals, every other
/// symbol (the end marker included) is a terminal.
pub fn symbol_is_nonterminal(c: char) -> (r: bool)
    ensures
        r == nonterminal(c),
{
    c != END_MARKER && char_is_uppercase(c)
}

} // verus!

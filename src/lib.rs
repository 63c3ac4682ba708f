//! A recognizer for context-free grammars: Earley-style tabulation of
//! dotted productions, each carrying a short right-context string that
//! restricts when a finished production may be completed.
//!
//! A finished item is completed only where its lookahead string occurs in
//! the window of `horizon + 1` input symbols at the current position. Under
//! horizon 0 the lookahead string is empty and the check always passes.
//! What `recognize` returns is stated in `item::accepts`: the root
//! production, completed over the whole input, has a derivation by the
//! predictor, scanner and completer.

pub mod symbol;
pub mod grammar;
pub mod item;
pub mod recognizer;
pub mod laws;

pub use symbol::{END_MARKER, ROOT_HEAD};
pub use grammar::{Grammar, Production};
pub use recognizer::Recognizer;

//! The errors an extraction can end with.

use vstd::prelude::*;

verus! {

/// Everything that can go wrong while parsing a spec or extracting.
///
/// * `SpecParse` — the spec text is malformed; holds the offending token.
/// * `SelectorSyntax` — a CSS selector did not compile; holds the raw
///   selector text and the cause reported by the selector parser.
/// * `ScopeRequired` — a next-sibling selector was used without a scope.
/// * `TypeMismatch` — a transform pipe received a non-string value.
/// * `Conversion` — a numeric parse pipe failed; holds the text.
/// * `RegexCompile` — a regex pattern was invalid or oversized; holds the
///   cause reported by the regex engine.
#[derive(Debug, PartialEq)]
pub enum Error {
    SpecParse(String),
    SelectorSyntax(String, String),
    ScopeRequired,
    TypeMismatch,
    Conversion(String),
    RegexCompile(String),
}

} // verus!

//! Extracts structured JSON values from HTML documents, driven by a
//! declarative JSON "spec": CSS selectors pick elements, pipe commands
//! transform the extracted text, and shaping rules decide which fields
//! survive in the output.

pub mod dom;
pub mod dsl;
pub mod engine;
pub mod extractor;
pub mod errors;
pub mod json;
pub mod pipe;
pub mod shape;
pub mod strutil;

use vstd::prelude::*;

pub use dom::Dom;
pub use dsl::Spec;
pub use extractor::Extractor;
pub use json::JsonValue;

use crate::engine::extraction_cannot_fail;
use crate::engine::is_extract_error;
use crate::engine::spec_result_ok;
use crate::errors::Error;

verus! {

/// Extract a JSON value from an HTML fragment by the given spec.
///
/// The document is parsed once; the result, when extraction succeeds,
/// has exactly the shape the spec prescribes, and a failure is one of
/// the extraction errors — never a spec-parse error, since the spec is
/// already built.
pub fn extract(html: &str, spec: &Spec) -> (r: Result<JsonValue, Error>)
    ensures
        r matches Ok(w) ==> spec_result_ok(*spec, w@),
        r matches Err(e) ==> is_extract_error(e),
        extraction_cannot_fail(*spec) ==> r is Ok,
{
    let extractor = match Extractor::new(html) {
        Result::Ok(x) => x,
        Result::Err(e) => {
            return Result::Err(e);
        },
    };
    extractor.extract(spec)
}

} // verus!

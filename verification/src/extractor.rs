//! A convenience wrapper owning one parsed document.

use vstd::prelude::*;

use crate::dom::Dom;
use crate::dsl::Spec;
use crate::engine::extraction_cannot_fail;
use crate::engine::is_extract_error;
use crate::engine::spec_result_ok;
use crate::errors::Error;
use crate::json::JsonValue;

verus! {

/// An extractor bound to one parsed document.
pub struct Extractor {
    dom: Dom,
}

impl Extractor {
    /// Parse the HTML once; parsing itself never fails.
    pub fn new(html: &str) -> (r: Result<Extractor, Error>)
        ensures
            r is Ok,
    {
        match Dom::parse(html) {
            Result::Ok(dom) => Result::Ok(Extractor { dom }),
            Result::Err(e) => Result::Err(e),
        }
    }

    /// Extract a JSON value by the spec.
    pub fn extract(&self, spec: &Spec) -> (r: Result<JsonValue, Error>)
        ensures
            r matches Ok(w) ==> spec_result_ok(*spec, w@),
            r matches Err(e) ==> is_extract_error(e),
            extraction_cannot_fail(*spec) ==> r is Ok,
    {
        self.dom.extract(spec)
    }
}

} // verus!

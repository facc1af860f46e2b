//! Validation of flattened shader code.

use vstd::prelude::*;
use crate::error::{Error, ErrorView};

verus! {

/// What the WGSL front end and validator report for `source`: `None` where
/// the text parses and validates, else the rendered diagnostic.
pub uninterp spec fn wgsl_diagnostic(source: Seq<char>) -> Option<Seq<char>>;

/// Parses `source` with `naga::front::wgsl::parse_str` and validates the
/// module with a `naga::valid::Validator` that has every flag and every
/// capability. A failure of either is rendered against `source` by the
/// error's `emit_to_string_with_path`, with an empty path.
///
/// Trusted: the result is the one named by [`wgsl_diagnostic`], that is,
/// the same text gives the same answer. Nothing is claimed of what the
/// answer is. The parser recurses on nested code: a text nested deeply
/// enough can exhaust the stack of the calling thread.
#[verifier::external_body]
fn check_wgsl(source: &str) -> (r: Option<String>)
    ensures
        match r {
            Some(text) => wgsl_diagnostic(source@) == Some(text@),
            None => wgsl_diagnostic(source@) is None,
        },
{
    match naga::front::wgsl::parse_str(source) {
        Err(err) => Some(err.emit_to_string_with_path(source, "")),
        Ok(module) => naga::valid::Validator::new(
            naga::valid::ValidationFlags::all(),
            naga::valid::Capabilities::all(),
        ).validate(&module).err().map(|err| err.emit_to_string_with_path(source, "")),
    }
}

/// What validating a text comes to once the validator has answered:
/// success without a diagnostic, a validation error that carries the
/// diagnostic otherwise.
pub fn verdict(diagnostic: Option<String>) -> (r: Result<(), Error>)
    ensures
        match r {
            Ok(_) => diagnostic is None,
            Err(e) => diagnostic is Some && e@ == (ErrorView::ValidationError {
                diagnostic: diagnostic->0@,
            }),
        },
{
    match diagnostic {
        Some(text) => Err(Error::ValidationError { diagnostic: text }),
        None => Ok(()),
    }
}

/// Checks that `source` is valid shader code: it parses, and the parsed
/// module passes validation with every capability enabled.
pub fn validate(source: &str) -> (r: Result<(), Error>)
    ensures
        match r {
            Ok(_) => wgsl_diagnostic(source@) is None,
            Err(e) => wgsl_diagnostic(source@) is Some && e@ == (ErrorView::ValidationError {
                diagnostic: wgsl_diagnostic(source@)->0,
            }),
        },
{
    verdict(check_wgsl(source))
}

} // verus!

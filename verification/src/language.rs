use vstd::prelude::*;

verus! {

/// The closed set of supported locales; exactly one is active per request.
#[derive(Clone, Copy, Debug, PartialEq, Eq, Structural)]
pub enum Language {
    En,
    De,
}

} // verus!

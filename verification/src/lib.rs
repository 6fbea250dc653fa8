//! A localized error-response builder: maps an HTTP status code and a locale
//! to a structured error record, and renders that record as JSON.

use vstd::prelude::*;

mod error;
mod json;
mod language;

verus! {

pub use crate::error::I18nError;
pub use crate::error::details_label_of;
pub use crate::error::error_text_of;
pub use crate::error::is_classified;
pub use crate::error::lemma_default_branch;
pub use crate::error::lemma_texts_nonempty;
pub use crate::error::lemma_unauthorized_forbidden_merged;
pub use crate::error::opt_text;
pub use crate::error::status_line_of;
pub use crate::json::details_text_json;
pub use crate::json::escape_char;
pub use crate::json::escape_seq;
pub use crate::json::hex_digit;
pub use crate::json::json_of;
pub use crate::json::must_escape;
pub use crate::language::Language;

} // verus!

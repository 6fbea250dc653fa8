use vstd::prelude::*;

use crate::language::Language;

verus! {

/// The serializable error record: a status line, a localized summary, a
/// localized label for revealing details, and optional caller-supplied
/// diagnostic text passed through verbatim.
pub struct I18nError {
    pub error: String,
    pub error_text: String,
    pub details: String,
    pub details_text: Option<String>,
}

/// The status codes that get a message of their own; every other code falls
/// through to the locale's default "not found" summary.
pub open spec fn is_classified(code: u16) -> bool {
    code == 400 || code == 401 || code == 403 || code == 500
}

/// The localized summary chosen for a status code: one text per status class,
/// with 401 and 403 deliberately sharing the "access denied" class.
pub open spec fn error_text_of(lang: Language, code: u16) -> Seq<char> {
    match lang {
        Language::En => if code == 400 {
            "Your request is malformed or incorrect, please see details."@
        } else if code == 401 || code == 403 {
            "Access denied - you are not allowed to use or access this resource."@
        } else if code == 500 {
            "Internal Server Error"@
        } else {
            "The requested data could not be found"@
        },
        Language::De => if code == 400 {
            "Der Request ist falsch formuliert. Weitere Informationen in den Details."@
        } else if code == 401 || code == 403 {
            "Zugriff verweigert - das Nutzen oder der Zugriff auf diese Ressource ist nicht erlaubt."@
        } else if code == 500 {
            "Interner Server Fehler"@
        } else {
            "Die angeforderte Seite konnte nicht gefunden werden."@
        },
    }
}

/// The fixed per-locale label under which a UI reveals the diagnostic text.
pub open spec fn details_label_of(lang: Language) -> Seq<char> {
    match lang {
        Language::En => "Show Details"@,
        Language::De => "Details Anzeigen"@,
    }
}

/// The canonical textual form of a status code: its decimal digits, a space,
/// and the standard reason phrase.
pub uninterp spec fn status_line_of(code: u16) -> Seq<char>;

/// The view of the optional diagnostic text.
pub open spec fn opt_text(d: Option<String>) -> Option<Seq<char>> {
    match d {
        Some(s) => Some(s@),
        None => None,
    }
}

/// Relies on `actix_web::http::StatusCode`: `from_u16` returns `Ok` exactly
/// for the codes in `100..1000`, and `Display` renders the code's decimal
/// digits, a space, and the fixed canonical reason phrase (or a fixed
/// placeholder where none is assigned) -- a non-empty string that is a
/// function of the code alone.
#[verifier::external_body]
fn status_line(code: u16) -> (r: String)
    requires
        100 <= code < 1000,
    ensures
        r@ == status_line_of(code),
        r@.len() > 0,
{
    match actix_web::http::StatusCode::from_u16(code) {
        Ok(status) => status.to_string(),
        Err(_) => String::new(),
    }
}

impl I18nError {
    /// The record's invariant: the status line and the summary are never empty.
    pub open spec fn wf(self) -> bool {
        self.error@.len() > 0 && self.error_text@.len() > 0
    }

    /// Builds the record for a status code under the given locale; the
    /// diagnostic text is passed through unchanged. Total over all standard
    /// status codes: construction never fails.
    pub fn build_with(lang: &Language, status_code: u16, details_text: Option<String>) -> (r: Self)
        requires
            100 <= status_code < 1000,
        ensures
            r.error@ == status_line_of(status_code),
            r.error_text@ == error_text_of(*lang, status_code),
            r.details@ == details_label_of(*lang),
            opt_text(r.details_text) == opt_text(details_text),
            r.wf(),
    {
        match lang {
            Language::En => Self::build_en(status_code, details_text),
            Language::De => Self::build_de(status_code, details_text),
        }
    }

    /// Builds the generic fallback record for the given locale: a "not found"
    /// response with no diagnostic text.
    pub fn build_default(lang: &Language) -> (r: Self)
        ensures
            r.error@ == status_line_of(404),
            r.error_text@ == error_text_of(*lang, 404),
            r.details@ == details_label_of(*lang),
            r.details_text is None,
            r.wf(),
    {
        match lang {
            Language::En => Self::build_en(404, None),
            Language::De => Self::build_de(404, None),
        }
    }

    fn build_en(status_code: u16, details_text: Option<String>) -> (r: Self)
        requires
            100 <= status_code < 1000,
        ensures
            r.error@ == status_line_of(status_code),
            r.error_text@ == error_text_of(Language::En, status_code),
            r.details@ == details_label_of(Language::En),
            opt_text(r.details_text) == opt_text(details_text),
            r.wf(),
    {
        proof {
            lemma_texts_nonempty(Language::En, status_code);
        }
        let error_text = if status_code == 400 {
            "Your request is malformed or incorrect, please see details.".to_string()
        } else if status_code == 401 || status_code == 403 {
            "Access denied - you are not allowed to use or access this resource.".to_string()
        } else if status_code == 500 {
            "Internal Server Error".to_string()
        } else {
            "The requested data could not be found".to_string()
        };
        Self {
            error: status_line(status_code),
            error_text,
            details: "Show Details".to_string(),
            details_text,
        }
    }

    fn build_de(status_code: u16, details_text: Option<String>) -> (r: Self)
        requires
            100 <= status_code < 1000,
        ensures
            r.error@ == status_line_of(status_code),
            r.error_text@ == error_text_of(Language::De, status_code),
            r.details@ == details_label_of(Language::De),
            opt_text(r.details_text) == opt_text(details_text),
            r.wf(),
    {
        proof {
            lemma_texts_nonempty(Language::De, status_code);
        }
        let error_text = if status_code == 400 {
            "Der Request ist falsch formuliert. Weitere Informationen in den Details.".to_string()
        } else if status_code == 401 || status_code == 403 {
            "Zugriff verweigert - das Nutzen oder der Zugriff auf diese Ressource ist nicht erlaubt.".to_string()
        } else if status_code == 500 {
            "Interner Server Fehler".to_string()
        } else {
            "Die angeforderte Seite konnte nicht gefunden werden.".to_string()
        };
        Self {
            error: status_line(status_code),
            error_text,
            details: "Details Anzeigen".to_string(),
            details_text,
        }
    }
}

/// Every locale's summary text and details label are non-empty, whatever
/// the status code.
pub proof fn lemma_texts_nonempty(lang: Language, code: u16)
    ensures
        error_text_of(lang, code).len() > 0,
        details_label_of(lang).len() > 0,
{
    reveal_strlit("Your request is malformed or incorrect, please see details.");
    reveal_strlit("Access denied - you are not allowed to use or access this resource.");
    reveal_strlit("Internal Server Error");
    reveal_strlit("The requested data could not be found");
    reveal_strlit("Der Request ist falsch formuliert. Weitere Informationen in den Details.");
    reveal_strlit("Zugriff verweigert - das Nutzen oder der Zugriff auf diese Ressource ist nicht erlaubt.");
    reveal_strlit("Interner Server Fehler");
    reveal_strlit("Die angeforderte Seite konnte nicht gefunden werden.");
    reveal_strlit("Show Details");
    reveal_strlit("Details Anzeigen");
}

/// Default-branch consistency: every status code outside the classified set
/// yields the same summary as the locale's default "not found" code.
pub proof fn lemma_default_branch(lang: Language, code: u16)
    requires
        !is_classified(code),
    ensures
        error_text_of(lang, code) == error_text_of(lang, 404),
{
}

/// Intentional merging: unauthorized and forbidden share one summary in every
/// locale.
pub proof fn lemma_unauthorized_forbidden_merged(lang: Language)
    ensures
        error_text_of(lang, 401) == error_text_of(lang, 403),
{
}

} // verus!

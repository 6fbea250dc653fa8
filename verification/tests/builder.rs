use i18n_error::I18nError;
use i18n_error::Language;

#[test]
fn en_400_no_details() {
    let e = I18nError::build_with(&Language::En, 400, None);
    assert_eq!(e.error, "400 Bad Request");
    assert_eq!(
        e.error_text,
        "Your request is malformed or incorrect, please see details."
    );
    assert_eq!(e.details, "Show Details");
    assert!(e.details_text.is_none());
    assert_eq!(
        e.as_json(),
        "{\"error\":\"400 Bad Request\",\"errorText\":\"Your request is malformed or incorrect, please see details.\",\"details\":\"Show Details\",\"detailsText\":null}"
    );
}

#[test]
fn de_401_with_details() {
    let e = I18nError::build_with(&Language::De, 401, Some("token expired".to_string()));
    assert_eq!(e.error, "401 Unauthorized");
    assert_eq!(
        e.error_text,
        "Zugriff verweigert - das Nutzen oder der Zugriff auf diese Ressource ist nicht erlaubt."
    );
    assert_eq!(e.details, "Details Anzeigen");
    assert_eq!(e.details_text.as_deref(), Some("token expired"));
    assert_eq!(
        e.as_json(),
        "{\"error\":\"401 Unauthorized\",\"errorText\":\"Zugriff verweigert - das Nutzen oder der Zugriff auf diese Ressource ist nicht erlaubt.\",\"details\":\"Details Anzeigen\",\"detailsText\":\"token expired\"}"
    );
}

#[test]
fn classified_codes_have_nonempty_text_and_fixed_label() {
    let langs = [Language::En, Language::De];
    let codes = [400u16, 401, 403, 500];
    for lang in langs.iter() {
        for code in codes.iter() {
            let e = I18nError::build_with(lang, *code, None);
            assert!(!e.error.is_empty());
            assert!(!e.error_text.is_empty());
            assert!(e.details == "Show Details" || e.details == "Details Anzeigen");
            assert!(e.details_text.is_none());
        }
    }
}

#[test]
fn unclassified_codes_share_the_default_text() {
    let codes = [100u16, 200, 301, 404, 418, 502, 599, 999];
    for code in codes.iter() {
        let en = I18nError::build_with(&Language::En, *code, None);
        let en_default = I18nError::build_default(&Language::En);
        assert_eq!(en.error_text, en_default.error_text);
        let de = I18nError::build_with(&Language::De, *code, None);
        let de_default = I18nError::build_default(&Language::De);
        assert_eq!(de.error_text, de_default.error_text);
    }
}

#[test]
fn unauthorized_and_forbidden_share_one_text() {
    for lang in [Language::En, Language::De].iter() {
        let a = I18nError::build_with(lang, 401, None);
        let b = I18nError::build_with(lang, 403, None);
        assert_eq!(a.error_text, b.error_text);
        assert_eq!(a.details, b.details);
    }
}

#[test]
fn default_build_equals_unclassified_builds_except_status_line() {
    for lang in [Language::En, Language::De].iter() {
        let d = I18nError::build_default(lang);
        let e404 = I18nError::build_with(lang, 404, None);
        let e599 = I18nError::build_with(lang, 599, None);
        assert_eq!(d.error_text, e404.error_text);
        assert_eq!(d.error_text, e599.error_text);
        assert_eq!(d.details, e404.details);
        assert_eq!(d.details, e599.details);
        assert_eq!(d.error, e404.error);
        assert_ne!(e404.error, e599.error);
    }
    let d = I18nError::build_default(&Language::En);
    assert_eq!(d.error, "404 Not Found");
    assert_eq!(d.error_text, "The requested data could not be found");
}

#[test]
fn details_text_passes_through_unchanged() {
    let langs = [Language::En, Language::De];
    let codes = [400u16, 401, 403, 404, 500, 503];
    for lang in langs.iter() {
        for code in codes.iter() {
            let e = I18nError::build_with(lang, *code, Some("x".to_string()));
            assert_eq!(e.details_text.as_deref(), Some("x"));
        }
    }
}

#[test]
fn exactly_four_codes_are_classified() {
    let en_default = I18nError::build_default(&Language::En).error_text;
    let de_default = I18nError::build_default(&Language::De).error_text;
    for code in 100u16..1000 {
        let classified = code == 400 || code == 401 || code == 403 || code == 500;
        let en = I18nError::build_with(&Language::En, code, None);
        let de = I18nError::build_with(&Language::De, code, None);
        assert_eq!(en.error_text != en_default, classified);
        assert_eq!(de.error_text != de_default, classified);
    }
}

#[test]
fn status_line_carries_the_reason_phrase() {
    let e = I18nError::build_with(&Language::En, 500, None);
    assert_eq!(e.error, "500 Internal Server Error");
    let t = I18nError::build_with(&Language::De, 403, None);
    assert_eq!(t.error, "403 Forbidden");
}

use i18n_error::I18nError;
use i18n_error::Language;

fn assert_round_trip(e: &I18nError) {
    let decoded = I18nError::from_json(e.as_json().as_str()).unwrap();
    assert_eq!(decoded.error, e.error);
    assert_eq!(decoded.error_text, e.error_text);
    assert_eq!(decoded.details, e.details);
    assert_eq!(decoded.details_text, e.details_text);
}

#[test]
fn round_trip_without_details() {
    assert_round_trip(&I18nError::build_default(&Language::En));
    assert_round_trip(&I18nError::build_default(&Language::De));
    assert_round_trip(&I18nError::build_with(&Language::En, 500, None));
}

#[test]
fn round_trip_with_plain_details() {
    assert_round_trip(&I18nError::build_with(
        &Language::De,
        401,
        Some("token expired".to_string()),
    ));
}

#[test]
fn round_trip_with_characters_that_need_escaping() {
    let tricky = "a \"quoted\" word, a back\\slash,\na newline, a tab\tand a bell\u{7}";
    let e = I18nError::build_with(&Language::En, 400, Some(tricky.to_string()));
    assert_round_trip(&e);
    let unicode = "umlauts \u{e4}\u{f6}\u{fc} and a snowman \u{2603}";
    let u = I18nError::build_with(&Language::De, 503, Some(unicode.to_string()));
    assert_round_trip(&u);
    let empty = I18nError::build_with(&Language::En, 403, Some(String::new()));
    assert_round_trip(&empty);
}

#[test]
fn from_json_rejects_what_as_json_never_produces() {
    assert!(I18nError::from_json("").is_none());
    assert!(I18nError::from_json("{}").is_none());
    assert!(I18nError::from_json("not json at all").is_none());
    assert!(I18nError::from_json("{\"error\":\"x\"}").is_none());
    let good = I18nError::build_default(&Language::En).as_json();
    let mut trailing = good.clone();
    trailing.push(' ');
    assert!(I18nError::from_json(trailing.as_str()).is_none());
    assert!(I18nError::from_json(&good[..good.len() - 1]).is_none());
    assert!(I18nError::from_json(good.as_str()).is_some());
}

#[test]
fn from_json_accepts_only_the_canonical_escaping() {
    let good = I18nError::build_with(&Language::En, 400, Some("\n".to_string())).as_json();
    assert!(good.ends_with("\"detailsText\":\"\\u000a\"}"));
    let short = good.replace("\\u000a", "\\n");
    assert!(I18nError::from_json(short.as_str()).is_none());
    let needless = good.replace("\\u000a", "\\u0041");
    assert!(I18nError::from_json(needless.as_str()).is_none());
}

#[test]
fn serialized_form_parses_as_json_elsewhere() {
    let e = I18nError::build_with(
        &Language::En,
        400,
        Some("line one\nline \"two\" \\ done".to_string()),
    );
    let v: serde_json::Value = serde_json::from_str(e.as_json().as_str()).unwrap();
    assert_eq!(v["error"].as_str(), Some("400 Bad Request"));
    assert_eq!(
        v["errorText"].as_str(),
        Some("Your request is malformed or incorrect, please see details.")
    );
    assert_eq!(v["details"].as_str(), Some("Show Details"));
    assert_eq!(
        v["detailsText"].as_str(),
        Some("line one\nline \"two\" \\ done")
    );
}

#[test]
fn absent_details_serialize_as_null() {
    let e = I18nError::build_default(&Language::De);
    let v: serde_json::Value = serde_json::from_str(e.as_json().as_str()).unwrap();
    assert!(v["detailsText"].is_null());
    assert_eq!(v["details"].as_str(), Some("Details Anzeigen"));
}

use pixel_paint_rs::localization::bundle::{bundle_get, bundle_or_empty, parse_bundle};
use pixel_paint_rs::localization::languages::{load_bundles, LANGUAGE_COUNT, SUPPORTED_LANGUAGES};
use pixel_paint_rs::localization::manager::LocalizationManager;

#[test]
fn english_texts_are_found() {
    let loc = LocalizationManager::new("en");
    assert_eq!(loc.current_language(), "en");
    assert_eq!(loc.get("menu_file"), "File");
    assert_eq!(loc.get("sheet_name"), "Sheet");
}

#[test]
fn unknown_language_falls_back_to_russian() {
    let loc = LocalizationManager::new("xx");
    assert_eq!(loc.current_language(), "ru");
    assert_eq!(loc.get("menu_file"), "Файл");
}

#[test]
fn unknown_key_is_returned_as_is() {
    let loc = LocalizationManager::new("de");
    assert_eq!(loc.get("no_such_key"), "no_such_key");
    assert_eq!(loc.get("menu_file"), "Datei");
}

#[test]
fn set_language_only_switches_to_known_languages() {
    let mut loc = LocalizationManager::new("en");
    loc.set_language("de");
    assert_eq!(loc.current_language(), "de");
    loc.set_language("klingon");
    assert_eq!(loc.current_language(), "de");
    assert_eq!(loc.get("status_ready"), "Bereit");
}

#[test]
fn all_languages_are_loaded() {
    let bundles = load_bundles();
    assert_eq!(bundles.len(), LANGUAGE_COUNT);
    let codes: Vec<&str> = bundles.iter().map(|(c, _)| c.as_str()).collect();
    assert_eq!(codes, vec!["ru", "en", "de", "es", "fr", "ja", "zh"]);
    for (_, bundle) in &bundles {
        assert!(bundle_get(bundle, "menu_file").is_some());
    }
}

#[test]
fn parse_bundle_reads_string_maps() {
    let bundle = parse_bundle(r#"{"a": "b", "greeting": "hi"}"#);
    assert_eq!(bundle.len(), 2);
    assert_eq!(bundle_get(&bundle, "greeting").map(|s| s.as_str()), Some("hi"));
    assert_eq!(bundle_get(&bundle, "a").map(|s| s.as_str()), Some("b"));
    assert!(bundle_get(&bundle, "c").is_none());
}

#[test]
fn invalid_bundle_text_gives_empty_bundle() {
    assert!(parse_bundle("not json").is_empty());
    assert!(parse_bundle(r#"{"a": 1}"#).is_empty());
    assert!(parse_bundle("[]").is_empty());
}

#[test]
fn unparsed_text_gives_no_pairs() {
    assert!(bundle_or_empty(None).is_empty());
    let pairs = vec![("k".to_string(), "v".to_string())];
    assert_eq!(bundle_or_empty(Some(pairs.clone())), pairs);
}

#[test]
fn every_offered_language_has_a_bundle_and_a_name() {
    let en = LocalizationManager::new("en");
    for (code, key) in SUPPORTED_LANGUAGES {
        let loc = LocalizationManager::new(code);
        assert_eq!(loc.current_language(), code);
        assert_ne!(en.get(key), key);
    }
}

#[test]
fn current_language_is_always_a_supported_one() {
    let mut loc = LocalizationManager::new("nope");
    for lang in ["de", "", "xx", "ja", "EN", "zh"] {
        loc.set_language(lang);
        assert!(SUPPORTED_LANGUAGES.iter().any(|(code, _)| *code == loc.current_language()));
    }
    assert_eq!(loc.current_language(), "zh");
}

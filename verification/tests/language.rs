use ezmempass::error::LogLevel;
use ezmempass::generate::GenerationMethod;
use ezmempass::lang::{get_language_by_code, get_supported_languages, Language};
use ezmempass::version;

#[test]
fn test_version() {
    assert!(!version().is_empty());
}

#[test]
fn supported_languages_lead_with_english() {
    let langs = get_supported_languages();
    assert_eq!(langs.len(), 8);
    assert_eq!(langs[0].code, "en");
    assert!(langs[0].available);
    for lang in langs.iter().skip(1) {
        assert!(!lang.available);
    }
}

#[test]
fn language_lookup_by_code() {
    let en = get_language_by_code("en").unwrap();
    assert_eq!(en.code, "en");
    assert_eq!(en.name, "English");
    let ru = get_language_by_code("ru").unwrap();
    assert_eq!(ru.code, "ru");
    assert!(get_language_by_code("xx").is_none());
    assert!(get_language_by_code("").is_none());
}

#[test]
fn dataset_id_is_derived_from_the_code() {
    let lang = Language::new("en", "English", "English", true);
    assert_eq!(lang.dataset_id(), "wikipedia/20231201.en");
}

#[test]
fn labels_spell_out_the_variants() {
    assert_eq!(LogLevel::Error.label(), "ERROR");
    assert_eq!(LogLevel::Trace.label(), "TRACE");
    assert_eq!(GenerationMethod::GraphSearch.label(), "Graph Search");
    assert_eq!(GenerationMethod::LanguageModel.label(), "Language Model");
    assert_eq!(GenerationMethod::Random.label(), "Random");
}

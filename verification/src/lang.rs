//! Language definitions and lookup.

use crate::strutil::str_eq;
use vstd::prelude::*;
use vstd::string::StrSliceExecFns;
use vstd::string::StringExecFns;

verus! {

/// A language a dictionary can be built for.
#[derive(Debug, Clone)]
pub struct Language {
    /// ISO 639-1 language code.
    pub code: String,
    /// English name of the language.
    pub name: String,
    /// Native name of the language.
    pub native_name: String,
    /// Whether the language is available in the current build.
    pub available: bool,
}

impl Language {
    /// Creates a new language definition.
    pub fn new(code: &str, name: &str, native_name: &str, available: bool) -> (r: Language)
        ensures
            r.code@ == code@,
            r.name@ == name@,
            r.native_name@ == native_name@,
            r.available == available,
    {
        Language {
            code: String::from_str(code),
            name: String::from_str(name),
            native_name: String::from_str(native_name),
            available,
        }
    }

    /// The dataset identifier for this language's corpus.
    pub fn dataset_id(&self) -> (r: String)
        ensures
            r@ == "wikipedia/20231201."@ + self.code@,
    {
        let mut s = String::from_str("wikipedia/20231201.");
        s.append(self.code.as_str());
        s
    }
}

/// The language codes the registry below knows.
pub open spec fn spec_supported_codes() -> Seq<Seq<char>> {
    seq!["en"@, "es"@, "fr"@, "de"@, "zh"@, "ja"@, "ru"@, "ar"@]
}

/// All supported languages, most supported first; only English ships
/// with a dictionary today.
pub fn get_supported_languages() -> (r: Vec<Language>)
    ensures
        r@.len() == spec_supported_codes().len(),
        forall|i: int| 0 <= i < r@.len() ==> (#[trigger] r@[i]).code@ == spec_supported_codes()[i],
        forall|i: int| 0 <= i < r@.len() ==> ((#[trigger] r@[i]).available <==> i == 0),
{
    let mut out: Vec<Language> = Vec::new();
    out.push(Language::new("en", "English", "English", true));
    out.push(Language::new("es", "Spanish", "Espanol", false));
    out.push(Language::new("fr", "French", "Francais", false));
    out.push(Language::new("de", "German", "Deutsch", false));
    out.push(Language::new("zh", "Chinese", "Zhongwen", false));
    out.push(Language::new("ja", "Japanese", "Nihongo", false));
    out.push(Language::new("ru", "Russian", "Russkij", false));
    out.push(Language::new("ar", "Arabic", "Alarabiyya", false));
    proof {
        assert forall|i: int| 0 <= i < out@.len() implies (#[trigger] out@[i]).code@
            == spec_supported_codes()[i] by {
            assert(spec_supported_codes().len() == 8);
        }
    }
    out
}

/// Finds a supported language by its ISO code.
pub fn get_language_by_code(code: &str) -> (r: Option<Language>)
    ensures
        match r {
            Some(lang) => lang.code@ == code@ && spec_supported_codes().contains(code@),
            None => !spec_supported_codes().contains(code@),
        },
{
    let langs = get_supported_languages();
    let mut i: usize = 0;
    while i < langs.len()
        invariant
            langs@.len() == spec_supported_codes().len(),
            forall|m: int|
                0 <= m < langs@.len() ==> (#[trigger] langs@[m]).code@ == spec_supported_codes()[m],
            i <= langs@.len(),
            forall|m: int| 0 <= m < i ==> spec_supported_codes()[m] != code@,
        decreases langs@.len() - i,
    {
        if str_eq(langs[i].as_code(), code) {
            proof {
                assert(spec_supported_codes()[i as int] == code@);
            }
            let found = &langs[i];
            let r = Language::new(
                found.code.as_str(),
                found.name.as_str(),
                found.native_name.as_str(),
                found.available,
            );
            return Some(r);
        }
        i = i + 1;
    }
    proof {
        if spec_supported_codes().contains(code@) {
            let m = choose|m: int|
                0 <= m < spec_supported_codes().len() && spec_supported_codes()[m] == code@;
        }
    }
    None
}

impl Language {
    /// The language's code as a string slice.
    pub fn as_code(&self) -> (r: &str)
        ensures
            r@ == self.code@,
    {
        self.code.as_str()
    }
}

} // verus!

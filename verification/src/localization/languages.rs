use super::bundle::{entries_map, keys_unique, parse_bundle, parsed_bundle, BundleMap};
use super::locales::{DE_JSON, EN_JSON, ES_JSON, FR_JSON, JA_JSON, RU_JSON, ZH_JSON};
use vstd::prelude::*;

verus! {

/// The language codes with a bundle, in order.
pub open spec fn language_code(i: int) -> Seq<char> {
    if i == 0 {
        "ru"@
    } else if i == 1 {
        "en"@
    } else if i == 2 {
        "de"@
    } else if i == 3 {
        "es"@
    } else if i == 4 {
        "fr"@
    } else if i == 5 {
        "ja"@
    } else {
        "zh"@
    }
}

/// The JSON text of each language, in the order of `language_code`.
pub open spec fn language_text(i: int) -> Seq<char> {
    if i == 0 {
        RU_JSON@
    } else if i == 1 {
        EN_JSON@
    } else if i == 2 {
        DE_JSON@
    } else if i == 3 {
        ES_JSON@
    } else if i == 4 {
        FR_JSON@
    } else if i == 5 {
        JA_JSON@
    } else {
        ZH_JSON@
    }
}

/// The languages offered to the user, each with the key of its name.
pub const SUPPORTED_LANGUAGES: [(&'static str, &'static str); 7] = [
    ("ru", "lang_ru"),
    ("en", "lang_en"),
    ("de", "lang_de"),
    ("es", "lang_es"),
    ("fr", "lang_fr"),
    ("ja", "lang_ja"),
    ("zh", "lang_zh"),
];

/// Each language offered to the user has a bundle, in the same order.
pub proof fn lemma_supported_languages_have_bundles()
    ensures
        forall|i: int| 0 <= i < 7 ==> (#[trigger] SUPPORTED_LANGUAGES[i]).0@ == language_code(i),
{
    assert(SUPPORTED_LANGUAGES[0].0@ == language_code(0));
    assert(SUPPORTED_LANGUAGES[1].0@ == language_code(1));
    assert(SUPPORTED_LANGUAGES[2].0@ == language_code(2));
    assert(SUPPORTED_LANGUAGES[3].0@ == language_code(3));
    assert(SUPPORTED_LANGUAGES[4].0@ == language_code(4));
    assert(SUPPORTED_LANGUAGES[5].0@ == language_code(5));
    assert(SUPPORTED_LANGUAGES[6].0@ == language_code(6));
}

/// The number of languages with a bundle.
pub const LANGUAGE_COUNT: usize = 7;

fn push_bundle(bundles: &mut Vec<(String, BundleMap)>, code: &str, text: &str)
    ensures
        final(bundles)@.len() == old(bundles)@.len() + 1,
        forall|j: int| 0 <= j < old(bundles)@.len() ==> final(bundles)@[j] == old(bundles)@[j],
        final(bundles)@.last().0@ == code@,
        keys_unique(final(bundles)@.last().1@),
        entries_map(final(bundles)@.last().1@) == parsed_bundle(text@),
{
    bundles.push((code.to_owned(), parse_bundle(text)));
}

/// The built-in bundles of all languages, keyed by language code.
pub fn load_bundles() -> (r: Vec<(String, BundleMap)>)
    ensures
        r@.len() == LANGUAGE_COUNT,
        forall|i: int|
            0 <= i < LANGUAGE_COUNT ==> (#[trigger] r@[i]).0@ == language_code(i) && keys_unique(
                r@[i].1@,
            ) && entries_map(r@[i].1@) == parsed_bundle(language_text(i)),
{
    let mut bundles: Vec<(String, BundleMap)> = Vec::new();
    push_bundle(&mut bundles, "ru", RU_JSON);
    push_bundle(&mut bundles, "en", EN_JSON);
    push_bundle(&mut bundles, "de", DE_JSON);
    push_bundle(&mut bundles, "es", ES_JSON);
    push_bundle(&mut bundles, "fr", FR_JSON);
    push_bundle(&mut bundles, "ja", JA_JSON);
    push_bundle(&mut bundles, "zh", ZH_JSON);
    bundles
}

} // verus!

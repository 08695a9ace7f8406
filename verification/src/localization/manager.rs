use super::bundle::{bundle_get, entries_map, keys_unique, BundleMap};
use super::languages::{language_code, language_text, load_bundles, LANGUAGE_COUNT};
use super::bundle::parsed_bundle;
use crate::text::str_eq;
use vstd::prelude::*;

verus! {

/// The texts of the user interface in several languages, one of them current.
pub struct LocalizationManager {
    current_language: String,
    bundles: Vec<(String, BundleMap)>,
}

/// The mathematical content of a localization manager: the current language
/// code and, per language code, its map from keys to texts.
pub struct LocView {
    pub current_language: Seq<char>,
    pub bundles: Seq<(Seq<char>, Map<Seq<char>, Seq<char>>)>,
}

/// The position of the first bundle of the given language.
pub open spec fn bundle_pos(bundles: Seq<(Seq<char>, Map<Seq<char>, Seq<char>>)>, code: Seq<char>) -> Option<int> {
    if exists|i: int| 0 <= i < bundles.len() && bundles[i].0 == code && forall|j: int| 0 <= j < i ==> bundles[j].0 != code {
        Some(choose|i: int| 0 <= i < bundles.len() && bundles[i].0 == code && forall|j: int| 0 <= j < i ==> bundles[j].0 != code)
    } else {
        None
    }
}

/// The text for `key` in the given language, if that language has one.
pub open spec fn text_in(v: LocView, code: Seq<char>, key: Seq<char>) -> Option<Seq<char>> {
    match bundle_pos(v.bundles, code) {
        Some(i) => if v.bundles[i].1.contains_key(key) {
            Some(v.bundles[i].1[key])
        } else {
            None
        },
        None => None,
    }
}

/// The text shown for `key`: in the current language, else in English, else the
/// key itself.
pub open spec fn spec_get(v: LocView, key: Seq<char>) -> Seq<char> {
    match text_in(v, v.current_language, key) {
        Some(t) => t,
        None => match text_in(v, "en"@, key) {
            Some(t) => t,
            None => key,
        },
    }
}

/// The built-in bundles, as loaded by `load_bundles`.
pub open spec fn builtin_bundles() -> Seq<(Seq<char>, Map<Seq<char>, Seq<char>>)> {
    Seq::new(LANGUAGE_COUNT as nat, |i: int| (language_code(i), parsed_bundle(language_text(i))))
}

/// Some bundle has the language code.
pub open spec fn has_language(v: LocView, code: Seq<char>) -> bool {
    exists|i: int| 0 <= i < v.bundles.len() && v.bundles[i].0 == code
}

/// The language codes that have a built-in bundle.
pub open spec fn is_supported_language(code: Seq<char>) -> bool {
    exists|i: int| 0 <= i < LANGUAGE_COUNT && code == language_code(i)
}

/// A code some bundle has has a first bundle.
proof fn lemma_first_bundle(b: Seq<(Seq<char>, Map<Seq<char>, Seq<char>>)>, code: Seq<char>)
    requires
        exists|i: int| 0 <= i < b.len() && b[i].0 == code,
    ensures
        bundle_pos(b, code) is Some,
    decreases b.len(),
{
    if b[0].0 != code {
        let i = choose|i: int| 0 <= i < b.len() && b[i].0 == code;
        let rest = b.drop_first();
        assert(rest[i - 1].0 == code);
        lemma_first_bundle(rest, code);
        let k = choose|k: int| 0 <= k < rest.len() && rest[k].0 == code && forall|j: int| 0 <= j < k ==> rest[j].0 != code;
        assert(b[k + 1].0 == code);
        assert forall|j: int| 0 <= j < k + 1 implies b[j].0 != code by {
            if j > 0 {
                assert(b[j] == rest[j - 1]);
            }
        }
    } else {
        assert(b[0].0 == code && forall|j: int| 0 <= j < 0 ==> b[j].0 != code);
    }
}

/// The bundles as codes and maps.
pub open spec fn bundles_view(b: Seq<(String, BundleMap)>) -> Seq<(Seq<char>, Map<Seq<char>, Seq<char>>)> {
    b.map_values(|e: (String, BundleMap)| (e.0@, entries_map(e.1@)))
}

impl View for LocalizationManager {
    type V = LocView;

    closed spec fn view(&self) -> LocView {
        LocView { current_language: self.current_language@, bundles: bundles_view(self.bundles@) }
    }
}

/// The position of the first bundle of a language.
fn find_bundle(bundles: &Vec<(String, BundleMap)>, code: &str) -> (r: Option<usize>)
    ensures
        match r {
            Some(i) => bundle_pos(bundles_view(bundles@), code@) == Some(i as int) && i
                < bundles@.len(),
            None => bundle_pos(bundles_view(bundles@), code@) is None && !(exists|i: int|
                0 <= i < bundles@.len() && bundles_view(bundles@)[i].0 == code@),
        },
{
    let ghost b = bundles_view(bundles@);
    let mut i: usize = 0;
    while i < bundles.len()
        invariant
            i <= bundles@.len(),
            b == bundles_view(bundles@),
            forall|j: int| 0 <= j < i ==> b[j].0 != code@,
        decreases bundles@.len() - i,
    {
        if str_eq(bundles[i].0.as_str(), code) {
            proof {
                assert(b[i as int].0 == bundles@[i as int].0@);
                assert(0 <= i < b.len() && b[i as int].0 == code@ && forall|j: int| 0 <= j < i ==> b[j].0 != code@);
                let k = choose|k: int| 0 <= k < b.len() && b[k].0 == code@ && forall|j: int| 0 <= j < k ==> b[j].0 != code@;
                if k < i {
                    assert(b[k].0 != code@);
                }
                if i < k {
                    assert(b[i as int].0 != code@);
                }
            }
            return Some(i);
        }
        proof {
            assert(b[i as int].0 == bundles@[i as int].0@);
        }
        i += 1;
    }
    None
}

impl LocalizationManager {
    #[verifier::type_invariant]
    closed spec fn inv(self) -> bool {
        &&& forall|i: int| 0 <= i < self.bundles@.len() ==> keys_unique(#[trigger] self.bundles@[i].1@)
        &&& bundles_view(self.bundles@) == builtin_bundles()
        &&& is_supported_language(self.current_language@)
    }

    /// A manager with the built-in bundles, set to the given language, or to
    /// Russian when there is no bundle for it.
    pub fn new(language: &str) -> (r: LocalizationManager)
        ensures
            r@.bundles == builtin_bundles(),
            r@.current_language == (if has_language(r@, language@) {
                language@
            } else {
                "ru"@
            }),
            is_supported_language(r@.current_language),
    {
        let bundles = load_bundles();
        assert(bundles_view(bundles@) =~= builtin_bundles());
        let current_language = match find_bundle(&bundles, language) {
            Some(i) => {
                proof {
                    assert(bundles_view(bundles@)[i as int].0 == language_code(i as int));
                    let k = choose|k: int| 0 <= k < bundles_view(bundles@).len() && bundles_view(bundles@)[k].0 == language@ && forall|j: int| 0 <= j < k ==> bundles_view(bundles@)[j].0 != language@;
                    assert(k == i);
                }
                language.to_owned()
            },
            None => {
                proof {
                    assert(bundles_view(bundles@)[0].0 == language_code(0));
                }
                "ru".to_owned()
            },
        };
        let r = LocalizationManager { current_language, bundles };
        proof {
            assert(r@.bundles == bundles_view(r.bundles@));
            if has_language(r@, language@) {
                let i = choose|i: int| 0 <= i < r@.bundles.len() && r@.bundles[i].0 == language@;
                assert(bundles_view(r.bundles@)[i].0 == language@);
            }
        }
        r
    }

    /// The text for `key` in the current language, else in English, else the key.
    pub fn get(&self, key: &str) -> (r: String)
        ensures
            r@ == spec_get(self@, key@),
    {
        proof {
            use_type_invariant(self);
        }
        if let Some(i) = find_bundle(&self.bundles, self.current_language.as_str()) {
            assert(keys_unique(self.bundles@[i as int].1@));
            if let Some(text) = bundle_get(&self.bundles[i].1, key) {
                return text.clone();
            }
        }
        if let Some(i) = find_bundle(&self.bundles, "en") {
            assert(keys_unique(self.bundles@[i as int].1@));
            if let Some(text) = bundle_get(&self.bundles[i].1, key) {
                return text.clone();
            }
        }
        key.to_owned()
    }

    /// Switches to the given language if there is a bundle for it.
    pub fn set_language(&mut self, language: &str)
        ensures
            final(self)@ == (if has_language(old(self)@, language@) {
                LocView { current_language: language@, ..old(self)@ }
            } else {
                old(self)@
            }),
            is_supported_language(final(self)@.current_language),
    {
        proof {
            use_type_invariant(&*self);
        }
        if let Some(i) = find_bundle(&self.bundles, language) {
            proof {
                assert(bundles_view(self.bundles@)[i as int].0 == language_code(i as int));
            }
            self.current_language = language.to_owned();
        }
        proof {
            use_type_invariant(&*self);
        }
    }

    /// The code of the current language.
    pub fn current_language(&self) -> (r: &str)
        ensures
            r@ == self@.current_language,
            is_supported_language(r@),
            bundle_pos(self@.bundles, r@) is Some,
    {
        proof {
            use_type_invariant(self);
            let k = choose|k: int| 0 <= k < LANGUAGE_COUNT && self@.current_language == language_code(k);
            assert(self@.bundles[k].0 == language_code(k));
            assert(has_language(self@, self@.current_language));
        }
        let r = self.current_language.as_str();
        proof {
            let b = self@.bundles;
            let code = self@.current_language;
            if bundle_pos(b, code) is None {
                lemma_first_bundle(b, code);
            }
        }
        r
    }
}

} // verus!

//! The texts of the editor's chrome, by keys that stay.

use vstd::prelude::*;

verus! {

/// The languages that the editor speaks.
#[derive(Debug, Clone, Copy, PartialEq, Eq, Structural)]
pub enum Locale {
    /// English.
    English,
}

impl Default for Locale {
    fn default() -> (locale: Locale)
        ensures
            locale == Locale::English,
    {
        Locale::English
    }
}

/// The keys of the labels.
#[derive(Debug, Clone, Copy, PartialEq, Eq, Structural)]
pub enum TextKey {
    /// The window menu.
    Window,
    /// The asset browser.
    AssetBrowser,
    /// The inspector.
    Inspector,
    /// The hierarchy.
    Hierarchy,
    /// The scene.
    Scene,
    /// The console.
    Console,
}

impl TextKey {
    /// The label in a language; in English where the language has none.
    pub open spec fn text(self, locale: Locale) -> Seq<char> {
        match self {
            TextKey::Window => "Window"@,
            TextKey::AssetBrowser => "Asset Browser"@,
            TextKey::Inspector => "Inspector / Lighting"@,
            TextKey::Hierarchy => "Hierarchy"@,
            TextKey::Scene => "Scene"@,
            TextKey::Console => "Console / Problems / Output"@,
        }
    }

    /// The label in a language; in English where the language has none.
    pub fn label(self, locale: Locale) -> (label: &'static str)
        ensures
            label@ == self.text(locale),
    {
        match self {
            TextKey::Window => "Window",
            TextKey::AssetBrowser => "Asset Browser",
            TextKey::Inspector => "Inspector / Lighting",
            TextKey::Hierarchy => "Hierarchy",
            TextKey::Scene => "Scene",
            TextKey::Console => "Console / Problems / Output",
        }
    }
}

/// What the keys stand for in English.
pub proof fn law_english_texts(choice: TextKey, locale: Locale)
    ensures
        choice is Window ==> choice.text(locale) == "Window"@,
        choice is AssetBrowser ==> choice.text(locale) == "Asset Browser"@,
        choice is Inspector ==> choice.text(locale) == "Inspector / Lighting"@,
        choice is Hierarchy ==> choice.text(locale) == "Hierarchy"@,
        choice is Scene ==> choice.text(locale) == "Scene"@,
        choice is Console ==> choice.text(locale) == "Console / Problems / Output"@,
{
}

} // verus!

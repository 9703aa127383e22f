//! Theme vocabulary: appearance modes, animation timing tokens, validation
//! errors and the registry of built-in theme packs.
use vstd::prelude::*;

verus! {

/// The built-in appearance variants.
#[derive(Clone, Copy, Debug, PartialEq, Eq, Structural)]
pub enum ThemeMode {
    Light,
    Dark,
}

/// Animation durations, in milliseconds.
#[derive(Clone, Copy, Debug, PartialEq, Eq, Structural)]
pub struct AnimationTokens {
    /// Hover, press.
    pub fast_ms: u32,
    /// Transition, toggle.
    pub normal_ms: u32,
    /// Enter, leave.
    pub slow_ms: u32,
    /// Panel slide.
    pub slide_ms: u32,
}

/// Why a theme failed validation.
#[derive(Clone, Copy, Debug, PartialEq, Eq, Structural)]
pub enum ThemeValidationError {
    InvalidColor,
    InvalidSpacing,
    InvalidRadius,
    InvalidTypography,
}

/// Apple-inspired design pack.
pub struct ApplePack;

/// Windows 10 design pack.
pub struct Windows10Pack;

/// Windows 11 design pack.
pub struct Windows11Pack;

/// Ubuntu design pack.
pub struct UbuntuPack;

/// Material design pack.
pub struct MaterialPack;

/// Nord design pack (arctic blue palette).
pub struct NordPack;

/// Dracula design pack.
pub struct DraculaPack;

/// Solarized design pack.
pub struct SolarizedPack;

/// Gruvbox design pack.
pub struct GruvboxPack;

/// One Dark design pack.
pub struct OneDarkPack;

impl ApplePack {
    /// The stable identifier of the pack.
    pub fn name(&self) -> (r: &'static str)
        ensures
            r@ == "apple"@,
    {
        "apple"
    }
}

impl Windows10Pack {
    /// The stable identifier of the pack.
    pub fn name(&self) -> (r: &'static str)
        ensures
            r@ == "windows10"@,
    {
        "windows10"
    }
}

impl Windows11Pack {
    /// The stable identifier of the pack.
    pub fn name(&self) -> (r: &'static str)
        ensures
            r@ == "windows11"@,
    {
        "windows11"
    }
}

impl UbuntuPack {
    /// The stable identifier of the pack.
    pub fn name(&self) -> (r: &'static str)
        ensures
            r@ == "ubuntu"@,
    {
        "ubuntu"
    }
}

impl MaterialPack {
    /// The stable identifier of the pack.
    pub fn name(&self) -> (r: &'static str)
        ensures
            r@ == "material"@,
    {
        "material"
    }
}

impl NordPack {
    /// The stable identifier of the pack.
    pub fn name(&self) -> (r: &'static str)
        ensures
            r@ == "nord"@,
    {
        "nord"
    }
}

impl DraculaPack {
    /// The stable identifier of the pack.
    pub fn name(&self) -> (r: &'static str)
        ensures
            r@ == "dracula"@,
    {
        "dracula"
    }
}

impl SolarizedPack {
    /// The stable identifier of the pack.
    pub fn name(&self) -> (r: &'static str)
        ensures
            r@ == "solarized"@,
    {
        "solarized"
    }
}

impl GruvboxPack {
    /// The stable identifier of the pack.
    pub fn name(&self) -> (r: &'static str)
        ensures
            r@ == "gruvbox"@,
    {
        "gruvbox"
    }
}

impl OneDarkPack {
    /// The stable identifier of the pack.
    pub fn name(&self) -> (r: &'static str)
        ensures
            r@ == "one-dark"@,
    {
        "one-dark"
    }
}

/// The names of all registered theme packs, in registration order.
pub open spec fn theme_names() -> Seq<Seq<char>> {
    seq![
        "apple"@,
        "windows10"@,
        "windows11"@,
        "ubuntu"@,
        "material"@,
        "nord"@,
        "dracula"@,
        "solarized"@,
        "gruvbox"@,
        "one-dark"@,
    ]
}

/// All registered theme pack names (stable identifiers).
pub fn available_themes() -> (r: Vec<&'static str>)
    ensures
        r@.len() == theme_names().len(),
        forall|i: int| 0 <= i < r@.len() ==> #[trigger] r@[i]@ == theme_names()[i],
{
    let r = vec![
        "apple",
        "windows10",
        "windows11",
        "ubuntu",
        "material",
        "nord",
        "dracula",
        "solarized",
        "gruvbox",
        "one-dark",
    ];
    r
}

/// The registered theme packs.
#[derive(Clone, Copy, Debug, PartialEq, Eq, Structural)]
pub enum ThemePackId {
    Apple,
    Windows10,
    Windows11,
    Ubuntu,
    Material,
    Nord,
    Dracula,
    Solarized,
    Gruvbox,
    OneDark,
}

/// The pack registered under `name`: each pack under its stable
/// identifier, One Dark also under "onedark"; any other name has none.
pub open spec fn pack_named(name: Seq<char>) -> Option<ThemePackId> {
    if name == "apple"@ {
        Some(ThemePackId::Apple)
    } else if name == "windows10"@ {
        Some(ThemePackId::Windows10)
    } else if name == "windows11"@ {
        Some(ThemePackId::Windows11)
    } else if name == "ubuntu"@ {
        Some(ThemePackId::Ubuntu)
    } else if name == "material"@ {
        Some(ThemePackId::Material)
    } else if name == "nord"@ {
        Some(ThemePackId::Nord)
    } else if name == "dracula"@ {
        Some(ThemePackId::Dracula)
    } else if name == "solarized"@ {
        Some(ThemePackId::Solarized)
    } else if name == "gruvbox"@ {
        Some(ThemePackId::Gruvbox)
    } else if name == "one-dark"@ || name == "onedark"@ {
        Some(ThemePackId::OneDark)
    } else {
        None
    }
}

/// Whether two strings hold the same characters.
fn same_text(a: &str, b: &str) -> (r: bool)
    ensures
        r == (a@ == b@),
{
    let n = a.unicode_len();
    if n != b.unicode_len() {
        return false;
    }
    let mut i: usize = 0;
    while i < n
        invariant
            n == a@.len(),
            n == b@.len(),
            0 <= i <= n,
            forall|j: int| 0 <= j < i ==> a@[j] == b@[j],
        decreases n - i,
    {
        if a.get_char(i) != b.get_char(i) {
            return false;
        }
        i += 1;
    }
    proof {
        assert(a@ =~= b@);
    }
    true
}

/// Looks up a theme pack by its stable identifier ("onedark" is accepted
/// for One Dark too); `None` for an unknown name.
pub fn pack_by_name(name: &str) -> (r: Option<ThemePackId>)
    ensures
        r == pack_named(name@),
{
    if same_text(name, "apple") {
        Some(ThemePackId::Apple)
    } else if same_text(name, "windows10") {
        Some(ThemePackId::Windows10)
    } else if same_text(name, "windows11") {
        Some(ThemePackId::Windows11)
    } else if same_text(name, "ubuntu") {
        Some(ThemePackId::Ubuntu)
    } else if same_text(name, "material") {
        Some(ThemePackId::Material)
    } else if same_text(name, "nord") {
        Some(ThemePackId::Nord)
    } else if same_text(name, "dracula") {
        Some(ThemePackId::Dracula)
    } else if same_text(name, "solarized") {
        Some(ThemePackId::Solarized)
    } else if same_text(name, "gruvbox") {
        Some(ThemePackId::Gruvbox)
    } else if same_text(name, "one-dark") || same_text(name, "onedark") {
        Some(ThemePackId::OneDark)
    } else {
        None
    }
}

/// The packs in registration order, matching `theme_names`.
pub open spec fn registered_packs() -> Seq<ThemePackId> {
    seq![
        ThemePackId::Apple,
        ThemePackId::Windows10,
        ThemePackId::Windows11,
        ThemePackId::Ubuntu,
        ThemePackId::Material,
        ThemePackId::Nord,
        ThemePackId::Dracula,
        ThemePackId::Solarized,
        ThemePackId::Gruvbox,
        ThemePackId::OneDark,
    ]
}

/// Every registered name finds its pack.
pub proof fn lemma_registered_names_resolve(i: int)
    requires
        0 <= i < theme_names().len(),
    ensures
        pack_named(theme_names()[i]) is Some,
{
    lemma_registered_names_find_their_packs(i, 0);
}

/// The registered name at place `i` finds the pack registered there.
proof fn lemma_name_finds_pack(i: int)
    requires
        0 <= i < theme_names().len(),
    ensures
        pack_named(theme_names()[i]) == Some(registered_packs()[i]),
{
    reveal_strlit("apple");
    reveal_strlit("windows10");
    reveal_strlit("windows11");
    reveal_strlit("ubuntu");
    reveal_strlit("material");
    reveal_strlit("nord");
    reveal_strlit("dracula");
    reveal_strlit("solarized");
    reveal_strlit("gruvbox");
    reveal_strlit("one-dark");
    reveal_strlit("onedark");
    let names = theme_names();
    if i == 0 {
        assert(names[0] == "apple"@);
    } else if i == 1 {
        assert(names[1] == "windows10"@);
        assert("windows10"@ != "apple"@) by { assert("windows10"@.len() != "apple"@.len()); }
    } else if i == 2 {
        assert(names[2] == "windows11"@);
        assert("windows11"@ != "apple"@) by { assert("windows11"@.len() != "apple"@.len()); }
        assert("windows11"@ != "windows10"@) by { assert("windows11"@[8] != "windows10"@[8]); }
    } else if i == 3 {
        assert(names[3] == "ubuntu"@);
        assert("ubuntu"@ != "apple"@) by { assert("ubuntu"@.len() != "apple"@.len()); }
        assert("ubuntu"@ != "windows10"@) by { assert("ubuntu"@.len() != "windows10"@.len()); }
        assert("ubuntu"@ != "windows11"@) by { assert("ubuntu"@.len() != "windows11"@.len()); }
    } else if i == 4 {
        assert(names[4] == "material"@);
        assert("material"@ != "apple"@) by { assert("material"@.len() != "apple"@.len()); }
        assert("material"@ != "windows10"@) by { assert("material"@.len() != "windows10"@.len()); }
        assert("material"@ != "windows11"@) by { assert("material"@.len() != "windows11"@.len()); }
        assert("material"@ != "ubuntu"@) by { assert("material"@.len() != "ubuntu"@.len()); }
    } else if i == 5 {
        assert(names[5] == "nord"@);
        assert("nord"@ != "apple"@) by { assert("nord"@.len() != "apple"@.len()); }
        assert("nord"@ != "windows10"@) by { assert("nord"@.len() != "windows10"@.len()); }
        assert("nord"@ != "windows11"@) by { assert("nord"@.len() != "windows11"@.len()); }
        assert("nord"@ != "ubuntu"@) by { assert("nord"@.len() != "ubuntu"@.len()); }
        assert("nord"@ != "material"@) by { assert("nord"@.len() != "material"@.len()); }
    } else if i == 6 {
        assert(names[6] == "dracula"@);
        assert("dracula"@ != "apple"@) by { assert("dracula"@.len() != "apple"@.len()); }
        assert("dracula"@ != "windows10"@) by { assert("dracula"@.len() != "windows10"@.len()); }
        assert("dracula"@ != "windows11"@) by { assert("dracula"@.len() != "windows11"@.len()); }
        assert("dracula"@ != "ubuntu"@) by { assert("dracula"@.len() != "ubuntu"@.len()); }
        assert("dracula"@ != "material"@) by { assert("dracula"@.len() != "material"@.len()); }
        assert("dracula"@ != "nord"@) by { assert("dracula"@.len() != "nord"@.len()); }
    } else if i == 7 {
        assert(names[7] == "solarized"@);
        assert("solarized"@ != "apple"@) by { assert("solarized"@.len() != "apple"@.len()); }
        assert("solarized"@ != "windows10"@) by { assert("solarized"@[0] != "windows10"@[0]); }
        assert("solarized"@ != "windows11"@) by { assert("solarized"@[0] != "windows11"@[0]); }
        assert("solarized"@ != "ubuntu"@) by { assert("solarized"@.len() != "ubuntu"@.len()); }
        assert("solarized"@ != "material"@) by { assert("solarized"@.len() != "material"@.len()); }
        assert("solarized"@ != "nord"@) by { assert("solarized"@.len() != "nord"@.len()); }
        assert("solarized"@ != "dracula"@) by { assert("solarized"@.len() != "dracula"@.len()); }
    } else if i == 8 {
        assert(names[8] == "gruvbox"@);
        assert("gruvbox"@ != "apple"@) by { assert("gruvbox"@.len() != "apple"@.len()); }
        assert("gruvbox"@ != "windows10"@) by { assert("gruvbox"@.len() != "windows10"@.len()); }
        assert("gruvbox"@ != "windows11"@) by { assert("gruvbox"@.len() != "windows11"@.len()); }
        assert("gruvbox"@ != "ubuntu"@) by { assert("gruvbox"@.len() != "ubuntu"@.len()); }
        assert("gruvbox"@ != "material"@) by { assert("gruvbox"@.len() != "material"@.len()); }
        assert("gruvbox"@ != "nord"@) by { assert("gruvbox"@.len() != "nord"@.len()); }
        assert("gruvbox"@ != "dracula"@) by { assert("gruvbox"@[0] != "dracula"@[0]); }
        assert("gruvbox"@ != "solarized"@) by { assert("gruvbox"@.len() != "solarized"@.len()); }
    } else {
        assert(names[9] == "one-dark"@);
        assert("one-dark"@ != "apple"@) by { assert("one-dark"@.len() != "apple"@.len()); }
        assert("one-dark"@ != "windows10"@) by { assert("one-dark"@.len() != "windows10"@.len()); }
        assert("one-dark"@ != "windows11"@) by { assert("one-dark"@.len() != "windows11"@.len()); }
        assert("one-dark"@ != "ubuntu"@) by { assert("one-dark"@.len() != "ubuntu"@.len()); }
        assert("one-dark"@ != "material"@) by { assert("one-dark"@[0] != "material"@[0]); }
        assert("one-dark"@ != "nord"@) by { assert("one-dark"@.len() != "nord"@.len()); }
        assert("one-dark"@ != "dracula"@) by { assert("one-dark"@.len() != "dracula"@.len()); }
        assert("one-dark"@ != "solarized"@) by { assert("one-dark"@.len() != "solarized"@.len()); }
        assert("one-dark"@ != "gruvbox"@) by { assert("one-dark"@.len() != "gruvbox"@.len()); }
    }
}

/// Each registered name finds its own pack, the one registered at the same
/// place, so distinct registered names find distinct packs.
pub proof fn lemma_registered_names_find_their_packs(i: int, j: int)
    requires
        0 <= i < theme_names().len(),
        0 <= j < theme_names().len(),
    ensures
        pack_named(theme_names()[i]) == Some(registered_packs()[i]),
        i != j ==> pack_named(theme_names()[i]) != pack_named(theme_names()[j]),
{
    lemma_name_finds_pack(i);
    lemma_name_finds_pack(j);
}

} // verus!

//! Style vocabulary: display, font weight and text alignment.
use vstd::prelude::*;

verus! {

/// The display behaviour of a widget, as CSS `display`.
#[derive(Clone, Copy, Debug, Default, PartialEq, Eq, Structural)]
pub enum Display {
    /// The default flex behaviour (row / column / stack).
    #[default]
    Flex,
    /// The element is not displayed and takes no space.
    Hidden,
}

/// Font weight, as CSS `font-weight`.
#[derive(Clone, Copy, Debug, Default, PartialEq, Eq, Structural)]
pub enum FontWeight {
    /// Thin (100).
    Thin,
    /// ExtraLight (200).
    ExtraLight,
    /// Light (300).
    Light,
    /// Normal (400).
    #[default]
    Normal,
    /// Medium (500).
    Medium,
    /// SemiBold (600).
    SemiBold,
    /// Bold (700).
    Bold,
    /// ExtraBold (800).
    ExtraBold,
    /// Black (900).
    Black,
}

/// Text alignment, as CSS `text-align`.
#[derive(Clone, Copy, Debug, Default, PartialEq, Eq, Structural)]
pub enum TextAlign {
    #[default]
    Left,
    Center,
    Right,
}

} // verus!

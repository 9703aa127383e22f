//! Layout vocabulary: text-wrap modes of measured nodes, layout kinds,
//! overflow, layout errors and the layout engine handle.
use crate::text::TextWrap;
use crate::textbuf::string_push;
use crate::tree::NodeId;
use vstd::prelude::*;

verus! {

/// How text wraps when measured during layout.
#[derive(Clone, Copy, Debug, PartialEq, Eq, Structural)]
pub enum TextWrapMode {
    /// No wrapping.
    NoWrap,
    Word,
    Character,
}

/// How a node lays out its children.
#[derive(Clone, Copy, Debug, PartialEq, Eq, Structural)]
pub enum LayoutKind {
    Row,
    Column,
    Stack,
    Leaf,
}

/// What happens to content that overflows a node.
#[derive(Clone, Copy, Debug, PartialEq, Eq, Structural)]
pub enum Overflow {
    Visible,
    Clip,
    Scroll,
}

/// The shaping wrap mode used to measure text of a given layout wrap mode:
/// character wrapping breaks between glyphs.
pub open spec fn wrap_of(mode: TextWrapMode) -> TextWrap {
    match mode {
        TextWrapMode::NoWrap => TextWrap::NoWrap,
        TextWrapMode::Word => TextWrap::Word,
        TextWrapMode::Character => TextWrap::Glyph,
    }
}

/// Maps a layout wrap mode to the shaping wrap mode.
pub fn map_wrap(mode: TextWrapMode) -> (r: TextWrap)
    ensures
        r == wrap_of(mode),
{
    match mode {
        TextWrapMode::NoWrap => TextWrap::NoWrap,
        TextWrapMode::Word => TextWrap::Word,
        TextWrapMode::Character => TextWrap::Glyph,
    }
}

/// The decimal digit for `d` (taken modulo 10).
pub open spec fn digit(d: u64) -> char {
    let d = d % 10;
    if d == 0 {
        '0'
    } else if d == 1 {
        '1'
    } else if d == 2 {
        '2'
    } else if d == 3 {
        '3'
    } else if d == 4 {
        '4'
    } else if d == 5 {
        '5'
    } else if d == 6 {
        '6'
    } else if d == 7 {
        '7'
    } else if d == 8 {
        '8'
    } else {
        '9'
    }
}

/// The decimal notation of `n`, most significant digit first, without
/// leading zeros.
pub open spec fn decimal(n: u64) -> Seq<char>
    decreases n,
{
    if n < 10 {
        seq![digit(n)]
    } else {
        decimal(n / 10).push(digit(n % 10))
    }
}

fn digit_char(d: u64) -> (r: char)
    ensures
        r == digit(d),
{
    let d = d % 10;
    if d == 0 {
        '0'
    } else if d == 1 {
        '1'
    } else if d == 2 {
        '2'
    } else if d == 3 {
        '3'
    } else if d == 4 {
        '4'
    } else if d == 5 {
        '5'
    } else if d == 6 {
        '6'
    } else if d == 7 {
        '7'
    } else if d == 8 {
        '8'
    } else {
        '9'
    }
}

/// Appends the decimal notation of `n` to `out`.
pub fn push_decimal(out: &mut String, n: u64)
    ensures
        final(out)@ == old(out)@ + decimal(n),
    decreases n,
{
    if n >= 10 {
        push_decimal(out, n / 10);
    }
    let d = digit_char(n % 10);
    string_push(out, d);
    proof {
        if n < 10 {
            assert(digit(n % 10) == digit(n));
        }
    }
}

/// Why a layout pass failed.
#[derive(Debug)]
pub enum LayoutError {
    DuplicateId(NodeId),
    InvalidViewport,
    Engine(String),
}

impl LayoutError {
    /// The human-readable description of the error.
    pub fn message(&self) -> (r: String)
        ensures
            r@ == match self {
                LayoutError::DuplicateId(id) => "duplicate layout id "@ + decimal(id.0),
                LayoutError::InvalidViewport => "viewport must be finite and non-negative"@,
                LayoutError::Engine(e) => e@,
            },
    {
        match self {
            LayoutError::DuplicateId(id) => {
                let mut out = "duplicate layout id ".to_owned();
                push_decimal(&mut out, id.0);
                out
            },
            LayoutError::InvalidViewport => "viewport must be finite and non-negative".to_owned(),
            LayoutError::Engine(e) => e.clone(),
        }
    }
}

/// Handle on the layout engine.
#[derive(Default)]
pub struct LayoutEngine;

impl LayoutEngine {
    /// A layout engine.
    pub fn new() -> (r: Self) {
        LayoutEngine
    }
}

} // verus!

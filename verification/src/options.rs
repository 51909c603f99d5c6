//! Configuration for encoding and decoding, with defaults: two spaces per
//! indent level, comma as the array delimiter, folding and expansion off,
//! strict decoding on.

use vstd::prelude::*;

verus! {

/// Whether the encoder folds single-child object chains into dotted keys.
#[derive(Debug, Clone, Copy, PartialEq, Eq, Structural)]
pub enum KeyFoldingMode {
    Off,
    Safe,
}

/// Whether the decoder expands dotted keys back into nested objects.
#[derive(Debug, Clone, Copy, PartialEq, Eq, Structural)]
pub enum ExpandPathsMode {
    Off,
    Safe,
}

/// A value transform applied before emission.  The only transform provided
/// leaves the value as it is, so a set slot does not change the output.
#[derive(Debug, Clone, Copy, PartialEq, Eq, Structural)]
pub enum Replacer {
    Identity,
}

/// Encoder configuration; every field may be left to its default.
#[derive(Debug, Clone)]
pub struct EncodeOptions {
    /// Spaces per indent level; default 2.
    pub indent: Option<usize>,
    /// The delimiter between array cells; default `,`.
    pub delimiter: Option<char>,
    /// Key folding mode; default off.
    pub key_folding: Option<KeyFoldingMode>,
    /// Cap on the number of folded segments; default unlimited.
    pub flatten_depth: Option<usize>,
    /// A value transform applied before emission; default none.
    pub replacer: Option<Replacer>,
}

/// Decoder configuration; every field may be left to its default.
#[derive(Debug, Clone)]
pub struct DecodeOptions {
    /// Expected spaces per indent level; default 2.
    pub indent: Option<usize>,
    /// Strict validation: reject tabs in indentation and inexact indent
    /// steps; default true.
    pub strict: Option<bool>,
    /// Path expansion mode; default off.
    pub expand_paths: Option<ExpandPathsMode>,
}

/// The effective spaces-per-level of encode options.
pub open spec fn enc_indent(o: Option<EncodeOptions>) -> int {
    match o {
        Option::None => 2,
        Option::Some(e) => match e.indent {
            Option::None => 2,
            Option::Some(n) => n as int,
        },
    }
}

/// The effective delimiter of encode options.
pub open spec fn enc_delim(o: Option<EncodeOptions>) -> char {
    match o {
        Option::None => ',',
        Option::Some(e) => match e.delimiter {
            Option::None => ',',
            Option::Some(d) => d,
        },
    }
}

/// Whether encode options ask for key folding.
pub open spec fn enc_folding(o: Option<EncodeOptions>) -> bool {
    match o {
        Option::None => false,
        Option::Some(e) => match e.key_folding {
            Option::None => false,
            Option::Some(m) => m == KeyFoldingMode::Safe,
        },
    }
}

/// The folded-segment cap of encode options; nothing means unlimited.
pub open spec fn enc_flatten(o: Option<EncodeOptions>) -> Option<usize> {
    match o {
        Option::None => Option::None,
        Option::Some(e) => e.flatten_depth,
    }
}

/// The stated spaces-per-level of decode options, before validation.
pub open spec fn dec_indent(o: Option<DecodeOptions>) -> int {
    match o {
        Option::None => 2,
        Option::Some(e) => match e.indent {
            Option::None => 2,
            Option::Some(n) => n as int,
        },
    }
}

/// Whether decode options ask for strict validation.
pub open spec fn dec_strict(o: Option<DecodeOptions>) -> bool {
    match o {
        Option::None => true,
        Option::Some(e) => match e.strict {
            Option::None => true,
            Option::Some(b) => b,
        },
    }
}

/// Whether decode options ask for path expansion.
pub open spec fn dec_expand(o: Option<DecodeOptions>) -> bool {
    match o {
        Option::None => false,
        Option::Some(e) => match e.expand_paths {
            Option::None => false,
            Option::Some(m) => m == ExpandPathsMode::Safe,
        },
    }
}

/// The effective spaces-per-level of the given encode options.
pub fn get_enc_indent(o: &Option<EncodeOptions>) -> (r: usize)
    ensures
        r as int == enc_indent(*o),
{
    match o {
        Option::None => 2,
        Option::Some(e) => match e.indent {
            Option::None => 2,
            Option::Some(n) => n,
        },
    }
}

/// The effective delimiter of the given encode options.
pub fn get_enc_delim(o: &Option<EncodeOptions>) -> (r: char)
    ensures
        r == enc_delim(*o),
{
    match o {
        Option::None => ',',
        Option::Some(e) => match e.delimiter {
            Option::None => ',',
            Option::Some(d) => d,
        },
    }
}

/// Whether the given encode options ask for key folding.
pub fn get_enc_folding(o: &Option<EncodeOptions>) -> (r: bool)
    ensures
        r == enc_folding(*o),
{
    match o {
        Option::None => false,
        Option::Some(e) => match e.key_folding {
            Option::None => false,
            Option::Some(m) => match m {
                KeyFoldingMode::Off => false,
                KeyFoldingMode::Safe => true,
            },
        },
    }
}

/// The folded-segment cap of the given encode options.
pub fn get_enc_flatten(o: &Option<EncodeOptions>) -> (r: Option<usize>)
    ensures
        r == enc_flatten(*o),
{
    match o {
        Option::None => Option::None,
        Option::Some(e) => e.flatten_depth,
    }
}

/// The stated spaces-per-level of the given decode options.
pub fn get_dec_indent(o: &Option<DecodeOptions>) -> (r: usize)
    ensures
        r as int == dec_indent(*o),
{
    match o {
        Option::None => 2,
        Option::Some(e) => match e.indent {
            Option::None => 2,
            Option::Some(n) => n,
        },
    }
}

/// Whether the given decode options ask for strict validation.
pub fn get_dec_strict(o: &Option<DecodeOptions>) -> (r: bool)
    ensures
        r == dec_strict(*o),
{
    match o {
        Option::None => true,
        Option::Some(e) => match e.strict {
            Option::None => true,
            Option::Some(b) => b,
        },
    }
}

/// Whether the given decode options ask for path expansion.
pub fn get_dec_expand(o: &Option<DecodeOptions>) -> (r: bool)
    ensures
        r == dec_expand(*o),
{
    match o {
        Option::None => false,
        Option::Some(e) => match e.expand_paths {
            Option::None => false,
            Option::Some(m) => match m {
                ExpandPathsMode::Off => false,
                ExpandPathsMode::Safe => true,
            },
        },
    }
}

} // verus!

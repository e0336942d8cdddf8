//! Why a text was rejected.

use vstd::prelude::*;

verus! {

/// The reasons for which reading fails. No partial tree comes with any of
/// them.
#[derive(Clone, Copy, Debug, PartialEq, Eq, Structural)]
pub enum ParseError {
    /// The text held no expression at all.
    EmptyInput,
    /// When the text ended, something other than one finished form was left:
    /// a form still open, several forms side by side, or a bare token.
    MalformedStructure,
    /// A form was headed by neither a symbol nor another form.
    Structure,
}

} // verus!

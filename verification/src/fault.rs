//! The error of the library's parsers: a kind, and a message for the operator.

use vstd::prelude::*;

verus! {

/// What sort of input was refused.
#[derive(Debug, Clone, Copy, PartialEq, Eq, Structural)]
pub enum FaultKind {
    /// A setting or an argument that an operator wrote.
    InvalidInput,
    /// Bytes that a peer sent.
    InvalidData,
    /// A peer closed its side too early.
    UnexpectedEof,
}

/// A refusal, with the message that is shown for it.
#[derive(Debug)]
pub struct Fault {
    pub kind: FaultKind,
    pub message: String,
}

/// A refusal in a specification: either a value or the message of the refusal.
pub type Outcome<T> = Result<T, Seq<char>>;

/// The refusal of a setting.
pub fn bad_input(message: String) -> (e: Fault)
    ensures
        e.kind == FaultKind::InvalidInput,
        e.message@ == message@,
{
    Fault { kind: FaultKind::InvalidInput, message }
}

/// The refusal of a peer's bytes.
pub fn bad_data(message: String) -> (e: Fault)
    ensures
        e.kind == FaultKind::InvalidData,
        e.message@ == message@,
{
    Fault { kind: FaultKind::InvalidData, message }
}

} // verus!

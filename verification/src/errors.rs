//! Failure kinds of the cipher machine.
//!
//! All of them are setup-time or caller-error conditions: once an engine is
//! configured from valid data, encryption itself cannot fail.

use vstd::prelude::*;

verus! {

/// Everything that can go wrong while building or driving the machine.
#[derive(Clone, Copy, Debug, PartialEq, Eq, Structural)]
pub enum EnigmaError {
    /// A configuration named a rotor that the catalog does not hold.
    UnknownRotor,
    /// A configured rotor offset lies outside the alphabet range, or a
    /// fixed wheel was configured away from offset zero.
    InvalidPosition,
    /// A plug pair repeats a letter already assigned, pairs a letter with
    /// itself, or references a character outside the alphabet.
    InvalidPlug,
    /// Routing was attempted with no rotors configured.
    EmptyStack,
}

} // verus!

//! The data model: the declared variable hierarchy and the change-event
//! stream that the resolver and the generator consume.

use vstd::prelude::*;

verus! {

/// The kind of a declared variable: only single-bit wires are eligible for
/// stimulus generation; every other kind is carried as `Other`.
#[derive(Clone, Copy, PartialEq, Eq, Structural, Debug)]
pub enum VarKind {
    Wire,
    Other,
}

/// A variable declared in the trace header: its kind, its bit width, its
/// identifier (unique handle within the trace) and its local name.
pub struct Variable {
    pub kind: VarKind,
    pub width: u64,
    pub code: u64,
    pub name: String,
}

/// One hierarchy level: a named scope holding an ordered list of child
/// scopes and variables.
pub struct ScopeNode {
    pub name: String,
    pub children: Vec<ScopeItem>,
}

/// An item of the declaration hierarchy: a nested scope or a variable.
pub enum ScopeItem {
    Scope(ScopeNode),
    Var(Variable),
}

/// A scalar logic level of a change event.
#[derive(Clone, Copy, PartialEq, Eq, Structural, Debug)]
pub enum Logic {
    L0,
    L1,
    LX,
    LZ,
}

/// The character a logic level prints as in an assignment statement.
pub open spec fn logic_char(v: Logic) -> char {
    match v {
        Logic::L0 => '0',
        Logic::L1 => '1',
        Logic::LX => 'x',
        Logic::LZ => 'z',
    }
}

/// Returns the character a logic level prints as.
pub fn logic_to_char(v: Logic) -> (c: char)
    ensures
        c == logic_char(v),
{
    match v {
        Logic::L0 => '0',
        Logic::L1 => '1',
        Logic::LX => 'x',
        Logic::LZ => 'z',
    }
}

/// One event of the change stream: a timestamp, a scalar change to the
/// variable with the given identifier, or any other command of the trace
/// (ignored by the generator).
#[derive(Clone, Copy, PartialEq, Eq, Structural, Debug)]
pub enum Event {
    Timestamp(u64),
    Scalar(u64, Logic),
    Other,
}

} // verus!

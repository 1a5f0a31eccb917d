//! Plain data values carried by records and by nested-operation arguments.

use vstd::prelude::*;

verus! {

/// A stored scalar value: an integer, a boolean, or a run of raw bytes
/// (strings travel as their bytes on this wire).
#[derive(Clone, Debug, PartialEq, Eq)]
pub enum Value {
    Int(i64),
    Bool(bool),
    Bytes(Vec<u8>),
}

} // verus!


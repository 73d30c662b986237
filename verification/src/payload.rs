//! Payload types of a sample chain that turns numbers into verdicts.

use vstd::prelude::*;

verus! {

/// What enters the sample chain: an unsigned number.
#[derive(Debug, PartialEq)]
pub struct Type1 {
    pub payload: u32,
}

/// What leaves the sample chain: a verdict.
#[derive(Debug, PartialEq)]
pub struct Type3 {
    pub payload: bool,
}

} // verus!

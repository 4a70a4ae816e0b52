//! The on-chain contract: a method that accepts any arguments and does
//! nothing. Draw calls are read from the chain's receipts, not from
//! contract state.

use vstd::prelude::*;

verus! {

/// The contract's state: it has none.
#[derive(Debug, Clone, Copy, PartialEq, Eq, Structural)]
pub struct Contract {}

impl Contract {
    /// Accept a draw call. The state is left as it is.
    pub fn draw(&mut self)
        ensures
            *final(self) == *old(self),
    {
    }
}

impl Default for Contract {
    fn default() -> (contract: Contract)
        ensures
            contract == (Contract {  }),
    {
        Contract {  }
    }
}

} // verus!

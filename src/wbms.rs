use vstd::prelude::*;

verus! {

/// A command of the working chart form.
#[derive(Clone, Copy, Debug, PartialEq, Eq, Structural)]
pub enum WCommand {
    Channel(u32, u32),
}

} // verus!

use vstd::prelude::*;

verus! {

/// One parsed invocation.
pub struct Cli {
    pub command: Commands,
}

/// What the user asked for, as plain values; argument parsing itself is
/// the front end's concern.
pub enum Commands {
    Init,
    Commit { message: Vec<u8> },
    Log,
    Add { path: Vec<u8> },
    Status,
    Branch { name: Option<Vec<u8>> },
    Switch { name: Vec<u8>, create: bool },
}

} // verus!

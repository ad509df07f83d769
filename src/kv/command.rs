//! The commands a client can give: as arguments of the tools and on the wire.

use vstd::prelude::*;

verus! {

/// One command. On the wire it is an object tagged `Get`, `Set` or `Rm`.
pub enum KVCommand {
    Get { key: String },
    /// The `Set` command.
    Put { key: String, value: String },
    Rm { key: String },
}

/// The arguments of the local tool: the command to run against the store.
pub struct KVArgs {
    pub operations: KVCommand,
}

} // verus!

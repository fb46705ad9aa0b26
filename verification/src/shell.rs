//! The session state a shell carries between input lines.

use vstd::prelude::*;

use crate::aliases::AliasTable;

verus! {

/// A shell session: the alias table consulted by expansion and maintained by
/// the alias builtin.
pub struct Shell {
    pub aliases: AliasTable,
}

impl Shell {
    /// A fresh shell has no aliases defined.
    pub fn new() -> (shell: Shell)
        ensures
            shell.aliases@ == Map::<Seq<char>, Seq<char>>::empty(),
            shell.aliases.names() == Seq::<Seq<char>>::empty(),
            shell.aliases.wf(),
    {
        Shell { aliases: AliasTable::new() }
    }
}

} // verus!

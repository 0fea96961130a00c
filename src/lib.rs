//! Game collections on disk: what each one holds, resolved from its metadata
//! file or from its files, and how the whole tree is stored in the database.

use vstd::prelude::*;

pub mod directory;
pub mod entry;
pub mod gamelist;
pub mod paths;
pub mod sync;

verus! {

} // verus!

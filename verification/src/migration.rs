//! Events of the virtual machine migration component.

use vstd::prelude::*;

verus! {

/// The periodic event on which the migration component looks for machines to move.
pub struct PerformMigrations {}

} // verus!

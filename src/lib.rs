//! Keeps a local working set of a bootloader configuration project in step
//! with published builds: resolving a component's version on a build channel
//! from a build catalog, deciding how a local clone is brought to its branch
//! tip, classifying the external validator's verdict on a configuration
//! document, and tracking an editor's cursor through that document.
use vstd::prelude::*;

pub mod catalog;
pub mod config;
pub mod position;
pub mod sync;
pub mod validate;

verus! {

} // verus!

//! Hardware facts and settings-page logic for the WMDE settings application.
use vstd::prelude::*;

pub mod hardware;
pub mod settings;
pub mod num;
pub mod order;
pub mod table;
pub mod text;

verus! {

} // verus!

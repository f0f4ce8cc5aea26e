//! The marker of an entry's type state.

use vstd::prelude::*;

verus! {

/// Restricts the entry type state to the markers defined in this crate.
pub trait State {

}

} // verus!

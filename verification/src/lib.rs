//! Core of a retained-mode UI toolkit on an entity-component model.
//!
//! The crate covers three cooperating subsystems: a two-pass layout engine
//! (measure and arrange, with per-node dirty tracking), an event dispatch and
//! widget lifecycle system (bottom-up hit testing, handler resolution and
//! deferred widget removal), and a theme cascade (style inheritance with
//! state-dependent overrides and resource indirection).
//!
//! All geometry is expressed in integer device units; the windowing shell is
//! expected to translate to and from its own coordinate types at the boundary.

pub mod assoc;
pub mod console;
pub mod events;
pub mod geometry;
pub mod layout;
pub mod slider;
pub mod store;
pub mod text;
pub mod theme;

use vstd::prelude::*;

verus! {

} // verus!

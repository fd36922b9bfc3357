//! Recognising the marker types of the port vocabulary by their type paths.
//!
//! A reflected field whose type is one of the markers is not an ordinary
//! value: it is an event list, a product or a slot, and the schema treats it
//! as such.

use vstd::prelude::*;
use crate::text::starts_with;

verus! {

/// Whether `path` names an `Events<..>` port.
pub fn is_events_marker_path(path: &str) -> (r: bool)
    ensures
        r == "sway_graph::ports::Events<"@.is_prefix_of(path@),
{
    starts_with(path, "sway_graph::ports::Events<")
}

/// Whether `path` names a `Product<..>` port.
pub fn is_product_marker_path(path: &str) -> (r: bool)
    ensures
        r == "sway_graph::ports::Product<"@.is_prefix_of(path@),
{
    starts_with(path, "sway_graph::ports::Product<")
}

/// Whether `path` names a `Slot<..>` field.
pub fn is_slot_marker_path(path: &str) -> (r: bool)
    ensures
        r == "sway_graph::slots::Slot<"@.is_prefix_of(path@),
{
    starts_with(path, "sway_graph::slots::Slot<")
}

} // verus!

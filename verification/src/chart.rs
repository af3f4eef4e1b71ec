//! Plain carriers for chart annotations.
//!
//! The presentation layer renders the analyses; these types carry what it
//! needs in plain values. Serialization stays outside the library.

use vstd::prelude::*;

verus! {

/// Tooltip text for a chart: per-point title lines and label lines.
#[derive(Debug)]
pub struct Tooltip {
    /// Title lines, one vector per dataset.
    pub title: Vec<Vec<String>>,
    /// Label lines, one vector per dataset.
    pub label: Vec<Vec<String>>,
}

impl Default for Tooltip {
    /// An empty tooltip.
    fn default() -> (r: Tooltip)
        ensures
            r.title@.len() == 0,
            r.label@.len() == 0,
    {
        Tooltip { title: Vec::new(), label: Vec::new() }
    }
}

/// How a chart point is drawn: a named style, or none to hide the point.
#[derive(Debug)]
pub struct PointStyle(pub Option<String>);

impl PointStyle {
    /// A point style under the given name.
    pub fn named(name: String) -> (r: PointStyle)
        ensures
            r.0 == Some(name),
    {
        PointStyle(Some(name))
    }

    /// The hidden point style.
    pub fn hidden() -> (r: PointStyle)
        ensures
            r.0 is None,
    {
        PointStyle(None)
    }
}

} // verus!

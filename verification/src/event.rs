//! The event record: a timestamp plus a list of named attribute values.

use vstd::prelude::*;

verus! {

/// The mathematical shape of an [`Event`]: its timestamp together with
/// its attribute pairs, each name and value a sequence of characters.
pub struct EventView {
    pub timestamp: u64,
    pub attributes: Seq<(Seq<char>, Seq<char>)>,
}

/// A timestamped record extracted from one line by one matching
/// definition. Attributes keep the order in which their patterns were
/// listed; an attribute whose pattern did not match the line is absent.
#[derive(Debug, Clone, PartialEq, Eq)]
pub struct Event {
    pub timestamp: u64,
    pub attributes: Vec<(String, String)>,
}

impl View for Event {
    type V = EventView;

    open spec fn view(&self) -> EventView {
        EventView { timestamp: self.timestamp, attributes: self.attributes.deep_view() }
    }
}

impl DeepView for Event {
    type V = EventView;

    open spec fn deep_view(&self) -> EventView {
        self@
    }
}

} // verus!

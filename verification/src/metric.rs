//! Metric definitions.

use vstd::prelude::*;

use crate::name::valid_metric_name;

verus! {

/// A metric definition: a single-segment name (or a lone wildcard), a
/// display label, a stacking hint, and whether the emitted value is the
/// rate of change of the reading rather than the reading itself.
#[derive(Clone, Debug)]
pub struct Metric {
    pub name: String,
    pub label: String,
    pub stacked: bool,
    pub diff: bool,
}

impl Metric {
    /// Constructs a metric definition.  The name must be a non-empty run of
    /// letters, digits, `-` and `_`, or exactly `*` or `#`.
    pub fn new(name: String, label: String, stacked: bool, diff: bool) -> (m: Metric)
        requires
            valid_metric_name(name@),
        ensures
            m.name == name,
            m.label == label,
            m.stacked == stacked,
            m.diff == diff,
    {
        Metric { name, label, stacked, diff }
    }
}

impl PartialEq for Metric {
    fn eq(&self, other: &Metric) -> (r: bool) {
        self.name == other.name && self.label == other.label && self.stacked == other.stacked
            && self.diff == other.diff
    }
}

impl vstd::std_specs::cmp::PartialEqSpecImpl for Metric {
    open spec fn obeys_eq_spec() -> bool {
        true
    }

    open spec fn eq_spec(&self, other: &Metric) -> bool {
        self.name@ == other.name@ && self.label@ == other.label@ && self.stacked == other.stacked
            && self.diff == other.diff
    }
}

} // verus!

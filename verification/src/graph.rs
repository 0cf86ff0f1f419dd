//! Graph definitions.

use vstd::prelude::*;

use crate::metric::Metric;
use crate::name::{is_valid_graph_name, is_valid_metric_name, valid_graph_name, valid_metric_name};
use crate::unit::Unit;

verus! {

/// A graph: a (possibly empty) dotted name that prefixes the names of its
/// metrics, a display label, a unit, and the ordered metric definitions.
#[derive(Clone, Debug)]
pub struct Graph {
    pub name: String,
    pub label: String,
    pub unit: Unit,
    pub metrics: Vec<Metric>,
}

impl Graph {
    /// Whether any metric of this graph asks for a rate of change.
    pub open spec fn spec_has_diff(self) -> bool {
        exists|i: int| 0 <= i < self.metrics@.len() && self.metrics@[i].diff
    }

    /// Whether the graph name and every metric name are well formed.
    pub open spec fn wf(self) -> bool {
        valid_graph_name(self.name@) && (forall|i: int|
            0 <= i < self.metrics@.len() ==> valid_metric_name(#[trigger] self.metrics@[i].name@))
    }

    /// Whether any metric of this graph asks for a rate of change; when no
    /// graph does, a run touches no snapshot storage at all.
    pub fn has_diff(&self) -> (r: bool)
        ensures
            r == self.spec_has_diff(),
    {
        let n = self.metrics.len();
        let mut i: usize = 0;
        while i < n
            invariant
                0 <= i <= n,
                n == self.metrics@.len(),
                forall|j: int| 0 <= j < i ==> !self.metrics@[j].diff,
            decreases n - i,
        {
            if self.metrics[i].diff {
                return true;
            }
            i = i + 1;
        }
        false
    }

    /// Executable check for `wf`.
    pub fn well_formed(&self) -> (r: bool)
        ensures
            r == self.wf(),
    {
        if !is_valid_graph_name(self.name.as_str()) {
            return false;
        }
        let n = self.metrics.len();
        let mut i: usize = 0;
        while i < n
            invariant
                0 <= i <= n,
                n == self.metrics@.len(),
                valid_graph_name(self.name@),
                forall|j: int| 0 <= j < i ==> valid_metric_name(#[trigger] self.metrics@[j].name@),
            decreases n - i,
        {
            if !is_valid_metric_name(self.metrics[i].name.as_str()) {
                return false;
            }
            i = i + 1;
        }
        true
    }
}

/// Whether any graph in the schema asks for a rate of change.
pub open spec fn spec_any_diff(graphs: Seq<Graph>) -> bool {
    exists|i: int| 0 <= i < graphs.len() && graphs[i].spec_has_diff()
}

/// Whether every graph in the schema is well formed.
pub open spec fn graphs_wf(graphs: Seq<Graph>) -> bool {
    forall|i: int| 0 <= i < graphs.len() ==> (#[trigger] graphs[i]).wf()
}

/// Executable check for `spec_any_diff`.
pub fn any_diff(graphs: &Vec<Graph>) -> (r: bool)
    ensures
        r == spec_any_diff(graphs@),
{
    let n = graphs.len();
    let mut i: usize = 0;
    while i < n
        invariant
            0 <= i <= n,
            n == graphs@.len(),
            forall|j: int| 0 <= j < i ==> !(#[trigger] graphs@[j]).spec_has_diff(),
        decreases n - i,
    {
        if graphs[i].has_diff() {
            return true;
        }
        i = i + 1;
    }
    false
}

/// Executable check for `graphs_wf`.
pub fn graphs_valid(graphs: &Vec<Graph>) -> (r: bool)
    ensures
        r == graphs_wf(graphs@),
{
    let n = graphs.len();
    let mut i: usize = 0;
    while i < n
        invariant
            0 <= i <= n,
            n == graphs@.len(),
            forall|j: int| 0 <= j < i ==> (#[trigger] graphs@[j]).wf(),
        decreases n - i,
    {
        if !graphs[i].well_formed() {
            return false;
        }
        i = i + 1;
    }
    true
}

} // verus!

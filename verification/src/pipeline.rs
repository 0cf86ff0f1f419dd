//! The value-emission pipeline.
//!
//! For every metric definition of every graph, in declaration order, the
//! pipeline resolves the definition's (possibly wildcarded) effective name
//! against the current reading set, applies the rate policy to diff
//! metrics, drops non-finite raw readings, and produces the fully
//! qualified output values in reading order.  Rates come out as
//! [`RateSample`]s: the caller evaluates the floating-point quotient and
//! drops non-finite results.

use vstd::prelude::*;

use crate::fbits::{bits_is_finite, is_finite_bits};
use crate::graph::Graph;
use crate::metric::Metric;
use crate::name::{
    dot_join, has_wildcard_segment, join_with_dot, key_matches, lemma_dot_join_valid,
    lemma_literal_pattern_matches_only_itself, name_matches, valid_graph_name, valid_metric_name,
    valid_pattern,
};
use crate::rate::{calc_diff, rate_suppressed, RateSample};
use crate::readings::{lemma_lookup_none_iff, lookup, Reading, ReadingSet};

verus! {

/// What one output line carries besides its name.
#[derive(Clone, Copy, Debug, PartialEq, Eq, Structural)]
pub enum EmittedKind {
    /// A raw reading, already known to be finite.
    Raw { value: u64 },
    /// A rate still to be evaluated from its sample.
    Rate { sample: RateSample },
}

/// One unit of output: the fully qualified name and what to print for it.
#[derive(Clone, Debug)]
pub struct EmittedValue {
    pub name: String,
    pub kind: EmittedKind,
}

/// The name/kind pairs denoted by a sequence of emitted values.
pub open spec fn emissions_view(out: Seq<EmittedValue>) -> Seq<(Seq<char>, EmittedKind)> {
    out.map_values(|e: EmittedValue| (e.name@, e.kind))
}

/// What one reading contributes for one metric definition: nothing if the
/// key does not match; for a diff metric, a rate sample when a previous
/// reading exists and the policy allows it; otherwise the raw value when it
/// is finite.
pub open spec fn entry_emission(
    pattern: Seq<char>,
    diff: bool,
    entry: Reading,
    cur_ts: i64,
    prev: ReadingSet,
) -> Option<(Seq<char>, EmittedKind)> {
    if !name_matches(pattern, entry.name@) {
        None
    } else if diff {
        match lookup(prev.readings@, entry.name@) {
            Option::None => None,
            Option::Some(pv) => if rate_suppressed(
                entry.value,
                cur_ts as int,
                pv,
                prev.timestamp as int,
            ) {
                None
            } else {
                Some(
                    (
                        entry.name@,
                        EmittedKind::Rate {
                            sample: RateSample {
                                value: entry.value,
                                prev_value: pv,
                                elapsed: (cur_ts - prev.timestamp) as u32,
                            },
                        },
                    ),
                )
            },
        }
    } else {
        if bits_is_finite(entry.value) {
            Some((entry.name@, EmittedKind::Raw { value: entry.value }))
        } else {
            None
        }
    }
}

/// Everything one metric definition emits, in reading order, with names
/// not yet prefixed by the plugin key prefix.
pub open spec fn collect_spec(
    pattern: Seq<char>,
    diff: bool,
    entries: Seq<Reading>,
    cur_ts: i64,
    prev: ReadingSet,
) -> Seq<(Seq<char>, EmittedKind)>
    decreases entries.len(),
{
    if entries.len() == 0 {
        Seq::empty()
    } else {
        collect_spec(pattern, diff, entries.drop_last(), cur_ts, prev) + (match entry_emission(
            pattern,
            diff,
            entries.last(),
            cur_ts,
            prev,
        ) {
            Option::Some(e) => seq![e],
            Option::None => Seq::empty(),
        })
    }
}

/// Applies the plugin key prefix to every output name.
pub open spec fn with_prefix(prefix: Seq<char>, pairs: Seq<(Seq<char>, EmittedKind)>) -> Seq<
    (Seq<char>, EmittedKind),
> {
    pairs.map_values(|p: (Seq<char>, EmittedKind)| (dot_join(prefix, p.0), p.1))
}

/// Everything the metrics of one graph emit, in declaration order, with
/// the plugin key prefix applied.
pub open spec fn metrics_emissions(
    prefix: Seq<char>,
    gname: Seq<char>,
    metrics: Seq<Metric>,
    cur: ReadingSet,
    prev: ReadingSet,
) -> Seq<(Seq<char>, EmittedKind)>
    decreases metrics.len(),
{
    if metrics.len() == 0 {
        Seq::empty()
    } else {
        metrics_emissions(prefix, gname, metrics.drop_last(), cur, prev) + with_prefix(
            prefix,
            collect_spec(
                dot_join(gname, metrics.last().name@),
                metrics.last().diff,
                cur.readings@,
                cur.timestamp,
                prev,
            ),
        )
    }
}

/// Everything a schema emits for one run, in declaration order.
pub open spec fn emit_spec(
    prefix: Seq<char>,
    graphs: Seq<Graph>,
    cur: ReadingSet,
    prev: ReadingSet,
) -> Seq<(Seq<char>, EmittedKind)>
    decreases graphs.len(),
{
    if graphs.len() == 0 {
        Seq::empty()
    } else {
        emit_spec(prefix, graphs.drop_last(), cur, prev) + metrics_emissions(
            prefix,
            graphs.last().name@,
            graphs.last().metrics@,
            cur,
            prev,
        )
    }
}

/// Resolves one metric definition against the current readings: every
/// matching key, with the rate policy applied to diff metrics and
/// non-finite raw readings dropped.  Output names carry no plugin key
/// prefix yet.
pub fn collect_metric_values(
    graph_name: &str,
    metric: &Metric,
    current: &ReadingSet,
    previous: &ReadingSet,
) -> (out: Vec<EmittedValue>)
    ensures
        emissions_view(out@) == collect_spec(
            dot_join(graph_name@, metric.name@),
            metric.diff,
            current.readings@,
            current.timestamp,
            *previous,
        ),
{
    let pattern = join_with_dot(graph_name, metric.name.as_str());
    let n = current.readings.len();
    let mut out: Vec<EmittedValue> = Vec::new();
    let mut i: usize = 0;
    proof {
        assert(current.readings@.subrange(0, 0) =~= Seq::<Reading>::empty());
        assert(emissions_view(out@) =~= Seq::<(Seq<char>, EmittedKind)>::empty());
    }
    while i < n
        invariant
            0 <= i <= n,
            n == current.readings@.len(),
            pattern@ == dot_join(graph_name@, metric.name@),
            emissions_view(out@) == collect_spec(
                pattern@,
                metric.diff,
                current.readings@.subrange(0, i as int),
                current.timestamp,
                *previous,
            ),
        decreases n - i,
    {
        let ghost pre = current.readings@.subrange(0, i as int);
        let ghost post = current.readings@.subrange(0, i + 1);
        proof {
            assert(post.drop_last() =~= pre);
            assert(post.last() == current.readings@[i as int]);
        }
        let entry = &current.readings[i];
        let ghost head = entry_emission(
            pattern@,
            metric.diff,
            current.readings@[i as int],
            current.timestamp,
            *previous,
        );
        if key_matches(pattern.as_str(), entry.name.as_str()) {
            if metric.diff {
                match previous.get(entry.name.as_str()) {
                    Option::Some(pv) => {
                        match calc_diff(entry.value, current.timestamp, pv, previous.timestamp) {
                            Option::Some(sample) => {
                                let ev = EmittedValue {
                                    name: entry.name.clone(),
                                    kind: EmittedKind::Rate { sample },
                                };
                                proof {
                                    assert(head == Some((entry.name@, ev.kind)));
                                    assert(emissions_view(out@.push(ev)) =~= emissions_view(out@)
                                        + seq![(entry.name@, ev.kind)]);
                                }
                                out.push(ev);
                            },
                            Option::None => {
                                proof {
                                    assert(head is None);
                                    assert(emissions_view(out@) =~= emissions_view(out@)
                                        + Seq::<(Seq<char>, EmittedKind)>::empty());
                                }
                            },
                        }
                    },
                    Option::None => {
                        proof {
                            assert(head is None);
                            assert(emissions_view(out@) =~= emissions_view(out@) + Seq::<
                                (Seq<char>, EmittedKind),
                            >::empty());
                        }
                    },
                }
            } else {
                if is_finite_bits(entry.value) {
                    let ev = EmittedValue {
                        name: entry.name.clone(),
                        kind: EmittedKind::Raw { value: entry.value },
                    };
                    proof {
                        assert(head == Some((entry.name@, ev.kind)));
                        assert(emissions_view(out@.push(ev)) =~= emissions_view(out@) + seq![
                            (entry.name@, ev.kind),
                        ]);
                    }
                    out.push(ev);
                } else {
                    proof {
                        assert(head is None);
                        assert(emissions_view(out@) =~= emissions_view(out@) + Seq::<
                            (Seq<char>, EmittedKind),
                        >::empty());
                    }
                }
            }
        } else {
            proof {
                assert(head is None);
                assert(emissions_view(out@) =~= emissions_view(out@) + Seq::<
                    (Seq<char>, EmittedKind),
                >::empty());
            }
        }
        i = i + 1;
    }
    proof {
        assert(current.readings@.subrange(0, n as int) =~= current.readings@);
    }
    out
}

/// Runs the whole schema against the current readings: one pass over every
/// graph and metric in declaration order, with the plugin key prefix
/// applied to every output name.
pub fn emit_values(
    prefix: &str,
    graphs: &Vec<Graph>,
    current: &ReadingSet,
    previous: &ReadingSet,
) -> (out: Vec<EmittedValue>)
    ensures
        emissions_view(out@) == emit_spec(prefix@, graphs@, *current, *previous),
{
    let gn = graphs.len();
    let mut out: Vec<EmittedValue> = Vec::new();
    let mut gi: usize = 0;
    proof {
        assert(graphs@.subrange(0, 0) =~= Seq::<Graph>::empty());
        assert(emissions_view(out@) =~= Seq::<(Seq<char>, EmittedKind)>::empty());
    }
    while gi < gn
        invariant
            0 <= gi <= gn,
            gn == graphs@.len(),
            emissions_view(out@) == emit_spec(
                prefix@,
                graphs@.subrange(0, gi as int),
                *current,
                *previous,
            ),
        decreases gn - gi,
    {
        proof {
            assert(graphs@.subrange(0, gi + 1).drop_last() =~= graphs@.subrange(0, gi as int));
            assert(graphs@.subrange(0, gi + 1).last() == graphs@[gi as int]);
        }
        let graph = &graphs[gi];
        let mn = graph.metrics.len();
        let mut mi: usize = 0;
        proof {
            assert(graph.metrics@.subrange(0, 0) =~= Seq::<Metric>::empty());
            assert(emissions_view(out@) == emit_spec(
                prefix@,
                graphs@.subrange(0, gi as int),
                *current,
                *previous,
            ) + metrics_emissions(
                prefix@,
                graph.name@,
                graph.metrics@.subrange(0, 0),
                *current,
                *previous,
            ));
        }
        while mi < mn
            invariant
                0 <= mi <= mn,
                0 <= gi < gn,
                gn == graphs@.len(),
                graph == graphs@[gi as int],
                mn == graph.metrics@.len(),
                emissions_view(out@) == emit_spec(
                    prefix@,
                    graphs@.subrange(0, gi as int),
                    *current,
                    *previous,
                ) + metrics_emissions(
                    prefix@,
                    graph.name@,
                    graph.metrics@.subrange(0, mi as int),
                    *current,
                    *previous,
                ),
            decreases mn - mi,
        {
            proof {
                assert(graph.metrics@.subrange(0, mi + 1).drop_last() =~= graph.metrics@.subrange(
                    0,
                    mi as int,
                ));
                assert(graph.metrics@.subrange(0, mi + 1).last() == graph.metrics@[mi as int]);
            }
            let metric = &graph.metrics[mi];
            let sub = collect_metric_values(graph.name.as_str(), metric, current, previous);
            let ghost subv = collect_spec(
                dot_join(graph.name@, metric.name@),
                metric.diff,
                current.readings@,
                current.timestamp,
                *previous,
            );
            let sn = sub.len();
            let mut si: usize = 0;
            proof {
                assert(emissions_view(sub@) == subv);
                assert(with_prefix(prefix@, subv.subrange(0, 0)) =~= Seq::<
                    (Seq<char>, EmittedKind),
                >::empty());
                assert(emissions_view(out@) + Seq::<(Seq<char>, EmittedKind)>::empty() =~= emissions_view(out@));
            }
            while si < sn
                invariant
                    0 <= si <= sn,
                    sn == sub@.len(),
                    emissions_view(sub@) == subv,
                    emissions_view(out@) == emit_spec(
                        prefix@,
                        graphs@.subrange(0, gi as int),
                        *current,
                        *previous,
                    ) + metrics_emissions(
                        prefix@,
                        graph.name@,
                        graph.metrics@.subrange(0, mi as int),
                        *current,
                        *previous,
                    ) + with_prefix(prefix@, subv.subrange(0, si as int)),
                decreases sn - si,
            {
                let e = &sub[si];
                let name = join_with_dot(prefix, e.name.as_str());
                let ev = EmittedValue { name, kind: e.kind };
                proof {
                    assert(subv[si as int] == (e.name@, e.kind));
                    assert(with_prefix(prefix@, subv.subrange(0, si + 1)) =~= with_prefix(
                        prefix@,
                        subv.subrange(0, si as int),
                    ).push((dot_join(prefix@, e.name@), e.kind)));
                    assert(emissions_view(out@.push(ev)) =~= emissions_view(out@).push(
                        (ev.name@, ev.kind),
                    ));
                }
                out.push(ev);
                si = si + 1;
            }
            proof {
                assert(subv.subrange(0, sn as int) =~= subv);
                assert(metrics_emissions(
                    prefix@,
                    graph.name@,
                    graph.metrics@.subrange(0, mi + 1),
                    *current,
                    *previous,
                ) == metrics_emissions(
                    prefix@,
                    graph.name@,
                    graph.metrics@.subrange(0, mi as int),
                    *current,
                    *previous,
                ) + with_prefix(prefix@, subv));
            }
            mi = mi + 1;
        }
        proof {
            assert(graph.metrics@.subrange(0, mn as int) =~= graph.metrics@);
            assert(emit_spec(prefix@, graphs@.subrange(0, gi + 1), *current, *previous)
                == emit_spec(prefix@, graphs@.subrange(0, gi as int), *current, *previous)
                + metrics_emissions(prefix@, graph.name@, graph.metrics@, *current, *previous));
        }
        gi = gi + 1;
    }
    proof {
        assert(graphs@.subrange(0, gn as int) =~= graphs@);
    }
    out
}

/// Law: a metric definition whose effective name has no wildcard segment
/// emits nothing when that name is absent from the current reading set.
pub proof fn lemma_absent_literal_emits_nothing(
    pattern: Seq<char>,
    diff: bool,
    entries: Seq<Reading>,
    cur_ts: i64,
    prev: ReadingSet,
)
    requires
        valid_pattern(pattern),
        !has_wildcard_segment(pattern),
        lookup(entries, pattern) is None,
    ensures
        collect_spec(pattern, diff, entries, cur_ts, prev) == Seq::<(Seq<char>, EmittedKind)>::empty(),
    decreases entries.len(),
{
    lemma_lookup_none_iff(entries, pattern);
    if entries.len() > 0 {
        let front = entries.drop_last();
        assert(forall|i: int| 0 <= i < front.len() ==> #[trigger] front[i] == entries[i]);
        lemma_lookup_none_iff(front, pattern);
        lemma_absent_literal_emits_nothing(pattern, diff, front, cur_ts, prev);
        let e = entries.last();
        assert(e == entries[entries.len() - 1]);
        assert(e.name@ != pattern);
        if name_matches(pattern, e.name@) {
            lemma_literal_pattern_matches_only_itself(pattern, e.name@);
        }
        assert(entry_emission(pattern, diff, e, cur_ts, prev) is None);
        assert(collect_spec(pattern, diff, entries, cur_ts, prev) =~= Seq::<
            (Seq<char>, EmittedKind),
        >::empty());
    }
}

/// Law: a well-formed metric definition whose effective name has no
/// wildcard segment contributes no output value when that name is absent
/// from the current reading set.
pub proof fn lemma_absent_metric_definition_emits_nothing(
    gname: Seq<char>,
    m: Metric,
    cur: ReadingSet,
    prev: ReadingSet,
)
    requires
        valid_graph_name(gname),
        valid_metric_name(m.name@),
        !has_wildcard_segment(dot_join(gname, m.name@)),
        lookup(cur.readings@, dot_join(gname, m.name@)) is None,
    ensures
        collect_spec(dot_join(gname, m.name@), m.diff, cur.readings@, cur.timestamp, prev)
            == Seq::<(Seq<char>, EmittedKind)>::empty(),
{
    lemma_dot_join_valid(gname, m.name@);
    lemma_absent_literal_emits_nothing(
        dot_join(gname, m.name@),
        m.diff,
        cur.readings@,
        cur.timestamp,
        prev,
    );
}

} // verus!

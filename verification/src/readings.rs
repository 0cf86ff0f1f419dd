//! Reading sets: a timestamp and a flat name-to-value mapping.

use vstd::prelude::*;

use crate::name::str_eq;

verus! {

/// One named reading; the value is an IEEE 754 binary64 bit pattern.
#[derive(Clone, Debug)]
pub struct Reading {
    pub name: String,
    pub value: u64,
}

/// The value under `name` in a sequence of readings: the first match.
pub open spec fn lookup(rs: Seq<Reading>, name: Seq<char>) -> Option<u64>
    decreases rs.len(),
{
    if rs.len() == 0 {
        None
    } else if rs[0].name@ == name {
        Some(rs[0].value)
    } else {
        lookup(rs.drop_first(), name)
    }
}

/// `lookup` fails exactly when no reading carries the name.
pub proof fn lemma_lookup_none_iff(rs: Seq<Reading>, name: Seq<char>)
    ensures
        lookup(rs, name) is None <==> (forall|i: int| 0 <= i < rs.len() ==> rs[i].name@ != name),
    decreases rs.len(),
{
    if rs.len() > 0 {
        let tail = rs.drop_first();
        lemma_lookup_none_iff(tail, name);
        assert(forall|i: int| 0 <= i < tail.len() ==> #[trigger] tail[i] == rs[i + 1]);
        if lookup(rs, name) is None {
            assert(rs[0].name@ != name);
            assert forall|i: int| 0 <= i < rs.len() implies rs[i].name@ != name by {
                if i > 0 {
                    assert(rs[i] == tail[i - 1]);
                }
            }
        } else {
            if rs[0].name@ == name {
                assert(0 <= 0 < rs.len() && rs[0].name@ == name);
            } else {
                assert(lookup(tail, name) is Some);
                let w = choose|i: int| 0 <= i < tail.len() && tail[i].name@ == name;
                assert(rs[w + 1].name@ == name);
            }
        }
    }
}

/// How `lookup` behaves on an extended sequence.
pub proof fn lemma_lookup_push(rs: Seq<Reading>, r: Reading, name: Seq<char>)
    ensures
        lookup(rs.push(r), name) == (if lookup(rs, name) is Some {
            lookup(rs, name)
        } else if r.name@ == name {
            Some(r.value)
        } else {
            None
        }),
    decreases rs.len(),
{
    if rs.len() == 0 {
        assert(lookup(rs, name) is None);
        assert(rs.push(r).len() == 1);
        assert(rs.push(r)[0] == r);
        assert(rs.push(r).drop_first() =~= Seq::<Reading>::empty());
        if r.name@ == name {
            assert(lookup(rs.push(r), name) == Some(r.value));
        } else {
            assert(lookup(rs.push(r), name) == lookup(rs.push(r).drop_first(), name));
        }
    } else {
        lemma_lookup_push(rs.drop_first(), r, name);
        assert(rs.push(r).len() == rs.len() + 1);
        assert(rs.push(r)[0] == rs[0]);
        assert(rs.push(r).drop_first() =~= rs.drop_first().push(r));
        if rs[0].name@ == name {
            assert(lookup(rs.push(r), name) == Some(rs[0].value));
            assert(lookup(rs, name) == Some(rs[0].value));
        } else {
            assert(lookup(rs.push(r), name) == lookup(rs.drop_first().push(r), name));
            assert(lookup(rs, name) == lookup(rs.drop_first(), name));
        }
    }
}

/// A point-in-time snapshot: a Unix timestamp in seconds and a flat mapping
/// from fully qualified metric name to a binary64 bit pattern, with
/// pairwise distinct names.
#[derive(Clone, Debug)]
pub struct ReadingSet {
    pub timestamp: i64,
    pub readings: Vec<Reading>,
}

impl ReadingSet {
    /// Pairwise distinct names.
    pub open spec fn wf(self) -> bool {
        forall|i: int, j: int|
            0 <= i < j < self.readings@.len() ==> self.readings@[i].name@
                != self.readings@[j].name@
    }

    /// The value under `name`, if any.
    pub open spec fn spec_lookup(self, name: Seq<char>) -> Option<u64> {
        lookup(self.readings@, name)
    }

    /// An empty reading set at the given timestamp.
    pub fn new(timestamp: i64) -> (rs: ReadingSet)
        ensures
            rs.timestamp == timestamp,
            rs.readings@ == Seq::<Reading>::empty(),
            rs.wf(),
    {
        ReadingSet { timestamp, readings: Vec::new() }
    }

    /// Looks a name up in the set.
    pub fn get(&self, name: &str) -> (r: Option<u64>)
        ensures
            r == self.spec_lookup(name@),
    {
        let n = self.readings.len();
        let mut i: usize = 0;
        proof {
            assert(self.readings@.subrange(0, n as int) =~= self.readings@);
        }
        while i < n
            invariant
                0 <= i <= n,
                n == self.readings@.len(),
                lookup(self.readings@, name@) == lookup(
                    self.readings@.subrange(i as int, n as int),
                    name@,
                ),
            decreases n - i,
        {
            let tail = Ghost(self.readings@.subrange(i as int, n as int));
            proof {
                assert(tail@[0] == self.readings@[i as int]);
            }
            if str_eq(self.readings[i].name.as_str(), name) {
                return Some(self.readings[i].value);
            }
            proof {
                assert(tail@.drop_first() =~= self.readings@.subrange(i + 1, n as int));
            }
            i = i + 1;
        }
        proof {
            assert(self.readings@.subrange(n as int, n as int) =~= Seq::<Reading>::empty());
        }
        None
    }

    /// Adds a reading under a name that is not yet present.
    pub fn insert(&mut self, name: String, value: u64)
        requires
            old(self).wf(),
            old(self).spec_lookup(name@) is None,
        ensures
            final(self).wf(),
            final(self).timestamp == old(self).timestamp,
            final(self).readings@ == old(self).readings@.push(Reading { name, value }),
            final(self).spec_lookup(name@) == Some::<u64>(value),
            forall|n: Seq<char>|
                n != name@ ==> final(self).spec_lookup(n) == old(self).spec_lookup(n),
    {
        proof {
            lemma_lookup_none_iff(self.readings@, name@);
            lemma_lookup_push(self.readings@, Reading { name, value }, name@);
            assert forall|n: Seq<char>| n != name@ implies lookup(
                self.readings@.push(Reading { name, value }),
                n,
            ) == lookup(self.readings@, n) by {
                lemma_lookup_push(self.readings@, Reading { name, value }, n);
            }
        }
        let r = Reading { name, value };
        self.readings.push(r);
    }

    /// The number of readings in the set.
    pub fn len(&self) -> (n: usize)
        ensures
            n == self.readings@.len(),
    {
        self.readings.len()
    }
}

} // verus!

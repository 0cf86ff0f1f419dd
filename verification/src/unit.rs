//! Metric units.

use vstd::prelude::*;

use crate::name::str_eq;

verus! {

/// The display unit of a graph.
#[derive(Clone, Copy, PartialEq, Eq, Structural, Debug)]
pub enum Unit {
    Float,
    Integer,
    Percentage,
    Bytes,
    BytesPerSecond,
    IOPS,
}

impl Unit {
    /// The canonical name of the unit.
    pub open spec fn spec_name(self) -> Seq<char> {
        match self {
            Unit::Float => "float"@,
            Unit::Integer => "integer"@,
            Unit::Percentage => "percentage"@,
            Unit::Bytes => "bytes"@,
            Unit::BytesPerSecond => "bytes/sec"@,
            Unit::IOPS => "iops"@,
        }
    }

    /// The unit denoted by a canonical name, if any.
    pub open spec fn spec_from_name(s: Seq<char>) -> Option<Unit> {
        if s == "float"@ {
            Some(Unit::Float)
        } else if s == "integer"@ {
            Some(Unit::Integer)
        } else if s == "percentage"@ {
            Some(Unit::Percentage)
        } else if s == "bytes"@ {
            Some(Unit::Bytes)
        } else if s == "bytes/sec"@ {
            Some(Unit::BytesPerSecond)
        } else if s == "iops"@ {
            Some(Unit::IOPS)
        } else {
            None
        }
    }

    /// The canonical name of the unit, as used in serialized schemas.
    pub fn name(&self) -> (r: String)
        ensures
            r@ == self.spec_name(),
    {
        match self {
            Unit::Float => String::from_str("float"),
            Unit::Integer => String::from_str("integer"),
            Unit::Percentage => String::from_str("percentage"),
            Unit::Bytes => String::from_str("bytes"),
            Unit::BytesPerSecond => String::from_str("bytes/sec"),
            Unit::IOPS => String::from_str("iops"),
        }
    }

    /// Parses a canonical unit name; `None` exactly when the name is not
    /// one of `float`, `integer`, `percentage`, `bytes`, `bytes/sec`, `iops`.
    pub fn from_name(s: &str) -> (r: Option<Unit>)
        ensures
            r == Unit::spec_from_name(s@),
    {
        if str_eq(s, "float") {
            Some(Unit::Float)
        } else if str_eq(s, "integer") {
            Some(Unit::Integer)
        } else if str_eq(s, "percentage") {
            Some(Unit::Percentage)
        } else if str_eq(s, "bytes") {
            Some(Unit::Bytes)
        } else if str_eq(s, "bytes/sec") {
            Some(Unit::BytesPerSecond)
        } else if str_eq(s, "iops") {
            Some(Unit::IOPS)
        } else {
            None
        }
    }

    /// Law: the canonical name of a unit parses back to the same unit.
    pub proof fn lemma_name_round_trip(u: Unit)
        ensures
            Unit::spec_from_name(u.spec_name()) == Some(u),
    {
        broadcast use vstd::string::group_string_axioms;

        reveal_strlit("float");
        reveal_strlit("integer");
        reveal_strlit("percentage");
        reveal_strlit("bytes");
        reveal_strlit("bytes/sec");
        reveal_strlit("iops");
        assert("float"@.len() == 5);
        assert("integer"@.len() == 7);
        assert("percentage"@.len() == 10);
        assert("bytes"@.len() == 5);
        assert("bytes/sec"@.len() == 9);
        assert("iops"@.len() == 4);
        assert("bytes"@[0] == 'b');
        assert("float"@[0] == 'f');
    }
}

} // verus!

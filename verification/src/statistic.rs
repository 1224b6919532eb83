//! The statistics that can be computed per bin, and the command-line choice
//! that selects one.

use vstd::prelude::*;

verus! {

/// The statistic to compute per bin.
#[derive(Copy, Clone, Debug, PartialEq, Eq, Structural)]
pub enum Statistic {
    Mean,
    Std,
    Median,
    Count,
    Sum,
    Min,
    Max,
}

/// The name under which each statistic is known (and printed).
pub open spec fn statistic_name(s: Statistic) -> Seq<char> {
    match s {
        Statistic::Mean => "mean"@,
        Statistic::Std => "std"@,
        Statistic::Median => "median"@,
        Statistic::Count => "count"@,
        Statistic::Sum => "sum"@,
        Statistic::Min => "min"@,
        Statistic::Max => "max"@,
    }
}

impl Statistic {
    /// The statistic's name: `mean`, `std`, `median`, `count`, `sum`, `min`
    /// or `max`.
    #[must_use]
    pub fn name(self) -> (r: &'static str)
        ensures
            r@ == statistic_name(self),
    {
        match self {
            Statistic::Mean => "mean",
            Statistic::Std => "std",
            Statistic::Median => "median",
            Statistic::Count => "count",
            Statistic::Sum => "sum",
            Statistic::Min => "min",
            Statistic::Max => "max",
        }
    }
}

/// Distinct statistics have distinct names, so a name identifies its
/// statistic.
pub proof fn lemma_names_distinct(a: Statistic, b: Statistic)
    requires
        a != b,
    ensures
        statistic_name(a) != statistic_name(b),
{
    reveal_strlit("mean");
    reveal_strlit("std");
    reveal_strlit("median");
    reveal_strlit("count");
    reveal_strlit("sum");
    reveal_strlit("min");
    reveal_strlit("max");
    assert("mean"@.len() == 4 && "mean"@[0] == 'm' && "mean"@[1] == 'e');
    assert("std"@.len() == 3 && "std"@[0] == 's' && "std"@[1] == 't');
    assert("median"@.len() == 6 && "median"@[0] == 'm' && "median"@[1] == 'e');
    assert("count"@.len() == 5 && "count"@[0] == 'c' && "count"@[1] == 'o');
    assert("sum"@.len() == 3 && "sum"@[0] == 's' && "sum"@[1] == 'u');
    assert("min"@.len() == 3 && "min"@[0] == 'm' && "min"@[1] == 'i');
    assert("max"@.len() == 3 && "max"@[0] == 'm' && "max"@[1] == 'a');
}

/// The statistic as chosen on the command line (`--statistic`).
#[derive(Copy, Clone, Debug, PartialEq, Eq, Structural)]
pub enum Stat {
    Mean,
    Std,
    Median,
    Count,
    Sum,
    Min,
    Max,
}

/// The statistic that each command-line choice selects: the one of the same
/// name.
pub open spec fn selected(s: Stat) -> Statistic {
    match s {
        Stat::Mean => Statistic::Mean,
        Stat::Std => Statistic::Std,
        Stat::Median => Statistic::Median,
        Stat::Count => Statistic::Count,
        Stat::Sum => Statistic::Sum,
        Stat::Min => Statistic::Min,
        Stat::Max => Statistic::Max,
    }
}

impl From<Stat> for Statistic {
    fn from(s: Stat) -> (r: Self) {
        match s {
            Stat::Mean => Statistic::Mean,
            Stat::Std => Statistic::Std,
            Stat::Median => Statistic::Median,
            Stat::Count => Statistic::Count,
            Stat::Sum => Statistic::Sum,
            Stat::Min => Statistic::Min,
            Stat::Max => Statistic::Max,
        }
    }
}

impl vstd::std_specs::convert::FromSpecImpl<Stat> for Statistic {
    open spec fn obeys_from_spec() -> bool {
        true
    }

    open spec fn from_spec(v: Stat) -> Self {
        selected(v)
    }
}

/// Every statistic can be chosen on the command line, by exactly one choice.
pub proof fn lemma_selection_bijective(t: Statistic)
    ensures
        exists|s: Stat| selected(s) == t,
        forall|s1: Stat, s2: Stat| selected(s1) == t && selected(s2) == t ==> s1 == s2,
{
    let s = match t {
        Statistic::Mean => Stat::Mean,
        Statistic::Std => Stat::Std,
        Statistic::Median => Stat::Median,
        Statistic::Count => Stat::Count,
        Statistic::Sum => Stat::Sum,
        Statistic::Min => Stat::Min,
        Statistic::Max => Stat::Max,
    };
    assert(selected(s) == t);
}

} // verus!

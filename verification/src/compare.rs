//! The comparator engine: the fixed set of predicates a `Where` chain can
//! apply to a resolved value.
//!
//! Each predicate is defined over one shape of value; a type mismatch yields
//! "does not match", never an error, and there is no coercion between string
//! and numeric representations.

use vstd::prelude::*;

use crate::value::{chars_eq, JsonValue, Jv};

verus! {

/// A predicate over a resolved value.
#[derive(Debug)]
pub enum Comparator {
    /// String equality.
    Equals(Vec<char>),
    /// String inequality.
    NotEquals(Vec<char>),
    /// Strict unsigned comparison.
    LessThan(u64),
    /// Strict unsigned comparison.
    GreaterThan(u64),
    /// String membership in the given list.
    In(Vec<Vec<char>>),
    /// Inclusive unsigned range.
    Between((u64, u64)),
}

/// The mathematical shape of a `Comparator`.
pub enum CmpSpec {
    Equals(Seq<char>),
    NotEquals(Seq<char>),
    LessThan(u64),
    GreaterThan(u64),
    In(Seq<Seq<char>>),
    Between((u64, u64)),
}

impl Comparator {
    /// The predicate this comparator denotes.
    pub open spec fn view(self) -> CmpSpec {
        match self {
            Comparator::Equals(s) => CmpSpec::Equals(s@),
            Comparator::NotEquals(s) => CmpSpec::NotEquals(s@),
            Comparator::LessThan(n) => CmpSpec::LessThan(n),
            Comparator::GreaterThan(n) => CmpSpec::GreaterThan(n),
            Comparator::In(vs) => CmpSpec::In(vs@.map_values(|s: Vec<char>| s@)),
            Comparator::Between(r) => CmpSpec::Between(r),
        }
    }
}

/// Whether a resolved value satisfies a predicate.  A value of the wrong
/// shape satisfies no predicate.
pub open spec fn value_matches(v: Jv, c: CmpSpec) -> bool {
    match c {
        CmpSpec::Equals(s) => v matches Jv::Str(x) && x == s,
        CmpSpec::NotEquals(s) => v matches Jv::Str(x) && x != s,
        CmpSpec::LessThan(n) => v matches Jv::Num(x) && x < n,
        CmpSpec::GreaterThan(n) => v matches Jv::Num(x) && x > n,
        CmpSpec::In(vs) => v matches Jv::Str(x) && vs.contains(x),
        CmpSpec::Between(r) => v matches Jv::Num(x) && r.0 <= x <= r.1,
    }
}

/// Decides whether `value` satisfies `comparator`.
pub fn eval_comparator(value: &JsonValue, comparator: &Comparator) -> (r: bool)
    ensures
        r == value_matches(value@, comparator@),
{
    match comparator {
        Comparator::Equals(s) => match value {
            JsonValue::Str(x) => chars_eq(x, s),
            _ => false,
        },
        Comparator::NotEquals(s) => match value {
            JsonValue::Str(x) => !chars_eq(x, s),
            _ => false,
        },
        Comparator::LessThan(n) => match value {
            JsonValue::Num(x) => *x < *n,
            _ => false,
        },
        Comparator::GreaterThan(n) => match value {
            JsonValue::Num(x) => *x > *n,
            _ => false,
        },
        Comparator::In(vs) => match value {
            JsonValue::Str(x) => {
                let mut i: usize = 0;
                let ghost gvs = comparator@->In_0;
                proof {
                    assert(gvs =~= vs@.map_values(|s: Vec<char>| s@));
                }
                while i < vs.len()
                    invariant
                        value@ == Jv::Str(x@),
                        comparator@ is In,
                        gvs == comparator@->In_0,
                        gvs.len() == vs@.len(),
                        forall|k: int| 0 <= k < vs@.len() ==> gvs[k] == vs@[k]@,
                        i <= vs@.len(),
                        forall|k: int| 0 <= k < i ==> gvs[k] != x@,
                    decreases vs@.len() - i,
                {
                    if chars_eq(&vs[i], x) {
                        proof {
                            assert(gvs[i as int] == vs@[i as int]@);
                            assert(gvs[i as int] == x@);
                            assert(gvs.contains(x@));
                        }
                        return true;
                    }
                    proof {
                        assert(gvs[i as int] == vs@[i as int]@);
                    }
                    i += 1;
                }
                proof {
                    if gvs.contains(x@) {
                        let k = choose|k: int| 0 <= k < gvs.len() && gvs[k] == x@;
                        assert(gvs[k] == x@);
                    }
                }
                false
            },
            _ => false,
        },
        Comparator::Between(r) => match value {
            JsonValue::Num(x) => r.0 <= *x && *x <= r.1,
            _ => false,
        },
    }
}

} // verus!

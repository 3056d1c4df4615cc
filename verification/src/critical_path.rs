//! The error of the critical path analysis, which needs a graph without cycles.
use vstd::prelude::*;

use crate::text::{decimal, i64_text};

verus! {

/// Why the critical path of a graph could not be found.
#[derive(Debug, Clone)]
pub enum CriticalPathError {
    /// The graph has a cycle, so no longest path exists; `cycle` lists its nodes in order.
    NotADag { cycle: Vec<i64> },
    /// An edge's weight could not be read or is not a finite number.
    InvalidWeight { from: i64, to: i64, reason: String },
}

/// The items of `xs` in decimal, separated by `", "`.
pub open spec fn joined_ids(xs: Seq<i64>) -> Seq<char>
    decreases xs.len(),
{
    if xs.len() == 0 {
        Seq::empty()
    } else if xs.len() == 1 {
        decimal(xs[0] as int)
    } else {
        joined_ids(xs.drop_last()) + ", "@ + decimal(xs.last() as int)
    }
}

/// The text of the error.
pub open spec fn critical_path_error_text(e: CriticalPathError) -> Seq<char> {
    match e {
        CriticalPathError::NotADag { cycle } => "Critical path analysis requires a DAG: cycle detected: ["@
            + joined_ids(cycle@) + "]"@,
        CriticalPathError::InvalidWeight { from, to, reason } => "Invalid weight for edge "@ + decimal(
            from as int,
        ) + " -> "@ + decimal(to as int) + ": "@ + reason@,
    }
}

impl CriticalPathError {
    /// The message of the error: the cycle, or the edge and why its weight is invalid.
    pub fn to_string(&self) -> (s: String)
        ensures
            s@ == critical_path_error_text(*self),
    {
        match self {
            CriticalPathError::NotADag { cycle } => {
                let mut s = String::from_str("Critical path analysis requires a DAG: cycle detected: [");
                let ghost start = s@;
                let mut i: usize = 0;
                proof {
                    reveal_strlit("Critical path analysis requires a DAG: cycle detected: [");
                    assert(cycle@.take(0) =~= Seq::<i64>::empty());
                }
                while i < cycle.len()
                    invariant
                        i <= cycle@.len(),
                        s@ == start + joined_ids(cycle@.take(i as int)),
                    decreases cycle.len() - i,
                {
                    if i > 0 {
                        s.append(", ");
                    }
                    s.append(i64_text(cycle[i]).as_str());
                    proof {
                        reveal_strlit(", ");
                        let t = cycle@.take(i + 1);
                        assert(t.drop_last() =~= cycle@.take(i as int));
                        assert(t.last() == cycle@[i as int]);
                        if i == 0 {
                            assert(cycle@.take(0) =~= Seq::<i64>::empty());
                        }
                    }
                    i = i + 1;
                }
                s.append("]");
                proof {
                    assert(cycle@.take(cycle@.len() as int) =~= cycle@);
                }
                s
            },
            CriticalPathError::InvalidWeight { from, to, reason } => {
                let mut s = String::from_str("Invalid weight for edge ");
                s.append(i64_text(*from).as_str());
                s.append(" -> ");
                s.append(i64_text(*to).as_str());
                s.append(": ");
                s.append(reason.as_str());
                s
            },
        }
    }
}

} // verus!

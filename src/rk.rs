use vstd::prelude::*;

pub mod eda;
pub mod errors;
pub mod problems;
pub mod utils;

verus! {

/// Whether lower or higher fitness is better.
#[derive(Debug, Clone, Copy, PartialEq, Eq, Structural)]
pub enum Objective {
    Maximize,
    Minimize,
}

/// Fitness `a` is strictly better than fitness `b` under `obj`.
pub open spec fn better(a: usize, b: usize, obj: Objective) -> bool {
    match obj {
        Objective::Minimize => a < b,
        Objective::Maximize => a > b,
    }
}

} // verus!

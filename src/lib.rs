use vstd::prelude::*;

pub mod hungarian;
pub mod instance;
pub mod permu_utils;
pub mod population;
pub mod problems;
pub mod rk;
pub mod rng;
pub mod umda;

verus! {

} // verus!

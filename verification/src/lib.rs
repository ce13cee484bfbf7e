use vstd::prelude::*;

pub mod models;
pub mod services;
pub mod text;

verus! {

} // verus!

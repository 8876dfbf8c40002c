use vstd::prelude::*;

pub mod balance;
pub mod brute_force;
pub mod copies;
pub mod generate;
pub mod judge;
pub mod label_observation;
pub mod pairing;
pub mod ploidy;
pub mod problem;
pub mod problem_definition;
pub mod random;
pub mod random_walk;
pub mod request;
pub mod rooms;
pub mod routes;
pub mod sorting;
pub mod text;
pub mod types;
pub mod union_find;
pub mod walk_data;
pub mod walker;

verus! {

} // verus!

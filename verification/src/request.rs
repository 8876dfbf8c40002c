use vstd::prelude::*;

use crate::types::{ExploreResponse, GuessRequestMap, GuessResponse, SelectResponse};

verus! {

/// The contest server as the solvers see it: select a problem, explore plans on
/// its map, submit a guess of the map. The failure of a call is its message.
pub trait Requester {
    fn select(&self, problem_name: String) -> Result<SelectResponse, String>;

    fn explore(&self, plans: Vec<String>) -> Result<ExploreResponse, String>;

    fn guess(&self, map: GuessRequestMap) -> Result<GuessResponse, String>;
}

} // verus!

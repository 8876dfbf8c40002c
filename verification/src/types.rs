use vstd::prelude::*;

verus! {

/// Asks the server to start problem `problem_name` for team `id`.
#[derive(Debug)]
pub struct SelectRequest {
    pub id: String,
    pub problem_name: String,
}

#[derive(Debug)]
pub struct SelectResponse {
    pub problem_name: String,
}

/// Plans to explore, each a string of doors (and of `[d]` label rewrites).
#[derive(Debug)]
pub struct ExploreRequest {
    pub id: String,
    pub plans: Vec<String>,
}

/// The labels seen along each plan, and how many queries were made.
#[derive(Debug)]
pub struct ExploreResponse {
    pub results: Vec<Vec<i8>>,
    pub query_count: usize,
}

#[derive(Debug)]
pub struct GuessRequest {
    pub id: String,
    pub map: GuessRequestMap,
}

/// A map: the label of each room, the starting room, and the doors joined in pairs.
#[derive(Debug)]
pub struct GuessRequestMap {
    pub rooms: Vec<i8>,
    pub starting_room: usize,
    pub connections: Vec<GuessRequestConnection>,
}

/// Two doors joined to each other.
#[derive(Clone, Copy, Debug, PartialEq, Eq, Structural)]
pub struct GuessRequestConnection {
    pub from: GuessRequestRoom,
    pub to: GuessRequestRoom,
}

/// Door `door` of room `room`.
#[derive(Clone, Copy, Debug, PartialEq, Eq, Structural)]
pub struct GuessRequestRoom {
    pub room: usize,
    pub door: usize,
}

#[derive(Debug)]
pub struct GuessResponse {
    pub correct: bool,
}

} // verus!

//! Placement optimizer for point-like players on a rectangular stage.
//!
//! A `Problem` gives a room, a stage, a list of players (each bound to an
//! instrument category), weighted observers (attendees) and circular
//! occluders (pillars). The library scores a candidate placement — an
//! attendee's contribution for a player falls with the squared distance and
//! is lost entirely when the line of sight is blocked — and searches the
//! placement space for high-scoring solutions with a deterministic grid
//! baseline, a best-of-N random restart search and an evolutionary search.
//!
//! All geometry and scoring is exact integer arithmetic, so every scoring
//! rule is stated and proved as a contract.

pub mod geometry;
pub mod icfp;
pub mod rng;
pub mod scorer;
pub mod solver;

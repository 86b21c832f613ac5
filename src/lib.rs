pub mod generators;
pub mod harness;
pub mod metrics;
pub mod plan;
mod random;
pub mod relations;
pub mod search;

pub use plan::{Plan, Swap};
pub use relations::{GuestRelations, Problem};
pub use search::{HillClimbingPlanner, LahcPlanner, SeatingPlanner};

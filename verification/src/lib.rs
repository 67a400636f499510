//! A verified backtracking shift scheduler.
//!
//! A fixed roster of employees is assigned to a week of work shifts so that
//! every shift slot is filled, no employee works more than a maximum number
//! of days, no employee is booked twice on the same day, and employee shift
//! preferences are used as a soft ordering heuristic. The search either
//! produces a full valid schedule or reports that none exists.

pub mod laws;
pub mod model;
pub mod search;

pub use model::Config;
pub use model::Employee;
pub use model::Schedule;
pub use search::backtrack;
pub use search::solve;
pub use search::week_config;

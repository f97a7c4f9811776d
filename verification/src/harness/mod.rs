//! The agent around the model: which of the tools it calls are run, and what
//! it is told of itself and of the project it works in.
pub mod agent;
pub mod calendar;
pub mod exchange;
pub mod laws;
pub mod listing;
pub mod prompt;
pub mod report;

pub use agent::{event, Event, Harness, Round, REPEATED};
pub use calendar::date;
pub use exchange::{Exchange, Heard, Next};
pub use listing::files;
pub use prompt::{environment, system_prompt, tools, truncate, CALLING, INSTRUCTIONS};
pub use report::{Rates, Seconds, Stats};

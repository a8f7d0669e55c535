//! A daily task tracker: tasks recorded against calendar dates, moved
//! through a small status lifecycle, and summarised in plain-text reports.
pub mod error;
pub mod order;
pub mod parts;
pub mod report;
pub mod state;

pub use error::ReporterError;
pub use order::compare_dates;
pub use state::{DateRows, Row, State, Status};

//! What each command decides and reports.

pub mod release;
pub mod repos;
pub mod start;
pub mod status;
pub mod sync;
pub mod wip;

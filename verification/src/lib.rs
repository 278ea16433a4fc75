//! Showback views over cost-attribution events: multi-period wide tables,
//! period-over-period trends and top-N rankings, with their text layouts.

pub mod amount;
pub mod event;
pub mod laws;
pub mod layout;
pub mod text;
pub mod ordering;
pub mod time;
pub mod uniqueness;
pub mod view;

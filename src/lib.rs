//! A personal event log kept in a flat comma-separated file: dated entries with
//! a description and up to two hierarchical categories, with queries by date,
//! category and description prefix, and deletion by rewriting the file.
use vstd::prelude::*;

pub mod date;
pub mod event;
pub mod filter;
pub mod order;
pub mod query;
pub mod store;
pub mod text;

pub use crate::date::{Date, DateError, validate_date_format};
pub use crate::event::{Event, StringFormat, parse_string};
pub use crate::filter::{DateComparison, filter_by_date, filter_by_reference_date, filter_by_string};
pub use crate::order::sort_events;
pub use crate::store::{RowError, events_from_csv, parse_persisted_row, retained_contents, retained_events};

verus! {

} // verus!

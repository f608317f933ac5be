//! A minimal record keeper: records of four text fields (`day`, `condition`,
//! `high`, `low`) are encoded as single `|`-separated lines, appended to a flat
//! text store, read back in order, and summarized.
use vstd::prelude::*;

pub mod text;
pub mod record;
pub mod error;
pub mod codec;
pub mod store;
pub mod summary;

pub use codec::{field_name, format_record, is_field_name, parse_kv, parse_line};
pub use error::Error;
pub use record::Record;
pub use store::{load_all, record_line, store_path};
pub use summary::{numeric_field, parse_int, summarize, summary};

verus! {

} // verus!

//! Tracking of "time since an action was last done": a store of labelled
//! timestamps, its line-oriented text encoding, and the rendering of elapsed
//! time.

pub mod clock;
pub mod codec;
pub mod controller;
pub mod decimal;
pub mod duration;
pub mod error;
pub mod store;

pub use clock::{get_current_time_as_ms, get_time_difference_as_str};
pub use codec::{get_hashmap_as_string, parse_contents_into_map};
pub use controller::{
    answer_message, parse_command, query_elapsed, record_action, Answer, Command,
    STORAGE_FILE_NAME,
};
pub use duration::milliseconds_to_string;
pub use error::{invalid_content_error, ClockError, MalformedRecord, Reason, UsageError};
pub use store::{Entry, Store};

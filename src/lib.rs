//! Stream framing for segmented, word-aligned messages: the segment table,
//! the owned segment store, and the byte layout of a whole message.
use vstd::prelude::*;

pub mod le;
pub mod table;
pub mod store;
pub mod encode;
pub mod message;

pub use encode::{encoded_len, write_message, write_segment_table, OutputSegmentsContainer};
pub use message::{read_message, try_read_message};
pub use store::OwnedSegments;
pub use table::{
    parse_segment_table, read_segment_count, remaining_table_len, segment_table_len, FramingError,
    SegmentLayout,
};

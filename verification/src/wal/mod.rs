//! The write-ahead log: framed, checksummed records appended to a log and
//! replayed from it in order.

pub mod log_entry;
pub mod reader;
pub mod writer;

pub use log_entry::WALEntry;
pub use reader::WALReader;
pub use writer::WALWriter;

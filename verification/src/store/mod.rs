//! Small in-memory stores from text keys to text values.

pub mod case_insensitive;
pub mod key_value;
pub mod scan;
pub mod table;
pub mod ttl;

pub use case_insensitive::CaseInsensitiveStore;
pub use key_value::KeyValueStore;
pub use scan::ScanableStore;
pub use ttl::TtlKeyValueStore;

//! Zero-copy byte buffers: shared immutable views (`Bytes`), chunked
//! sequences of them (`Buffer`), one capability over every byte source
//! (`BytesAble`) and fixed-width integer reads that may cross chunks
//! (`Number`).
pub mod able;
pub mod buffer;
pub mod bytes;
pub mod coalesce;
pub mod cursor;
pub mod flat;
pub mod laws;
pub mod number;

pub use able::BytesAble;
pub use buffer::{Buffer, MIN_UNIT_SIZE};
pub use bytes::{Bytes, IntoBytes};
pub use cursor::Cursor;
pub use number::{Number, NumberAble};

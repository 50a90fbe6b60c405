//! A suspension-aware binary serialization core.
//!
//! Encoding and decoding never block: every operation either finishes,
//! fails, or suspends carrying enough state to resume exactly where it
//! left off, whatever the readiness of the underlying byte sink or
//! source.  Each codec's contract pins the bytes it moves: a finished
//! encode has appended exactly its value's wire image, and a finished
//! decode has consumed exactly one parse of its shape's wire grammar,
//! however many suspensions happened along the way.

pub mod buffer;
pub mod codec;
pub mod collection;
pub mod deserializer;
pub mod format;
pub mod internal;
pub mod intrinsic;
pub mod io;
pub mod serializer;
pub mod util;
pub mod wrapper;

pub use codec::{AsyncSerialization, Decode, Encode, Format, PollDecodeStatus, PollEncodeStatus, StartDecodeStatus, StartEncodeStatus};
pub use deserializer::{deserializer, Deserialize, Deserializer};
pub use io::Error;
pub use serializer::{serializer, Serialize, Serializer};

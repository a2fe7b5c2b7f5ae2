//! Content-addressed object encoding and packfile decoding.
//!
//! The crate frames and hashes objects, decodes the variable-length integers
//! and delta instructions of a packfile, and rebuilds every object of a pack
//! from its compressed, possibly delta-encoded entries. It also builds trees
//! and commits, and frames the packets of the transfer protocol.

pub mod commit;
pub mod delta;
pub mod digest;
pub mod error;
pub mod object;
pub mod pack;
pub mod table;
pub mod transport;
pub mod tree;
pub mod varint;
pub mod zlib;

pub use delta::{dedelta_buf, delta_copy_length, DeltaOp};
pub use error::PackError;
pub use object::ObjectKind;
pub use pack::{parse_pack, PackFailure};
pub use table::{PackObject, PackTable};
pub use tree::TreeEntry;
pub use varint::{delta_buf_length, delta_offset, pack_item};

//! Read-optimized, immutable archives: many files packed into one, each
//! starting on a page boundary, so that a file of an archive that is mapped
//! into memory can be handed out as a borrowed view into the mapping.
//!
//! An archive is built once and read many times. It holds, in this order,
//!
//! - the header, [`header::HEADER_LENGTH`] bytes long,
//! - the header's checksum,
//! - the serialized entries table, which maps each path to the place, the
//!   length and the checksum of the file's contents,
//! - zero bytes up to the next page boundary, and
//! - the contents of the files in the order of their paths, each followed
//!   by zero bytes up to the next page boundary.
//!
//! The library works on bytes that its caller holds: it neither opens nor
//! maps files. [`v1::FileArco::make`] builds an archive in memory, and
//! [`v1::FileArco::prepare`] builds what precedes the contents, for callers
//! that write the contents out as they read them. [`v1::FileArco::new`]
//! checks the bytes of an archive and reads its entries table, and
//! [`v1::FileArco::get`] finds a file in it.
//!
//! Every function is verified against a contract over the bytes of the
//! archive; `laws` holds what follows for archives as a whole.

pub mod align;
pub mod checksum;
pub mod codec;
pub mod entries;
pub mod file_data;
pub mod header;
pub mod laws;
pub mod layout;
pub mod make;
pub mod order;
pub mod v1;
pub mod wire;

pub use file_data::{FileData, FileDataError, FileDatum};

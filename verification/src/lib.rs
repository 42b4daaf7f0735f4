//! A page-structured store for variable-length records.
//!
//! Records are collections of typed, nullable attributes. They are packed
//! into fixed-size pages; each page starts with a slot directory that grows
//! forward while record bytes grow backward from the end of the page.
//!
//! The store works on the bytes of a file and leaves it to its user to bring
//! them from and to a disk.
//!
//! - [`bitmap`]: a fixed-length bit vector, which marks the attributes of a
//!   record that have a value.
//! - [`page`]: a fixed-size byte buffer.
//! - [`paged_file`]: a file of pages behind a header that names the page
//!   size.
//! - [`attribute`], [`record`]: schemas, values and records.
//! - [`record_codec`], [`codec_laws`]: the byte layout of a record, and the
//!   proof that a record is read back as it was written.
//! - [`slot_directory`], [`record_page`]: the slot directory of a page, and
//!   records in one page.
//! - [`record_based_file_mgr`], [`store_laws`]: the record manager, and what
//!   holds of it.

pub mod attribute;
pub mod bitmap;
pub mod byte_ops;
pub mod codec_laws;
pub mod error;
pub mod page;
pub mod paged_file;
pub mod record;
pub mod record_based_file_mgr;
pub mod record_codec;
pub mod record_page;
pub mod slot_directory;
pub mod store_laws;

//! A verified codec for the rpeg container format: a textual header
//! (`"Compressed image format 2"`, a newline, two decimal dimensions, a
//! newline) followed by a binary payload of opaque four-byte words.

pub mod cursor;
pub mod decode;
pub mod encode;
pub mod errors;
pub mod format;
pub mod laws;

pub use cursor::ByteCursor;
pub use decode::group_words;
pub use decode::read_in_rpeg_data;
pub use encode::debug_format_rpeg_data;
pub use encode::encode_rpeg_data;
pub use errors::RpegError;

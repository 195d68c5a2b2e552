//! Reading, checking and writing Amlogic burning images: a container that
//! bundles boot firmware, bootloader, partition images and metadata into one
//! flashable file.

pub mod crc32;
pub mod error;
pub mod sha1sum;
pub mod layout;
pub mod names;
pub mod image;
pub mod decode;
pub mod encode;
pub mod dir;
pub mod laws;
pub mod readback;
pub mod roundtrip;

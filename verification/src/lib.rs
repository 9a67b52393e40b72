//! Splice machine code into existing binaries.
//!
//! A replacement is compiled into a section named `.rspl.<begin>.<end>` of an rlib. The library
//! reads those sections back, links them against the target binary, injects what they need as a
//! new segment, and patches each replacement over its range.
pub mod arch;
pub mod attribute;
pub mod binary;
pub mod bind_laws;
pub mod bytes;
pub mod cli;
pub mod closure;
pub mod decode;
pub mod elf;
pub mod error;
pub mod field_laws;
pub mod header_laws;
pub mod image;
pub mod inject;
pub mod jump;
pub mod layout_laws;
pub mod link;
pub mod link_laws;
pub mod macho;
pub mod mapping_laws;
pub mod message_laws;
pub mod model;
pub mod object_file;
pub mod object_laws;
pub mod plan;
pub mod refusal_laws;
pub mod reloc;
pub mod rlib;
pub mod section_name;
pub mod segment_laws;
pub mod site_laws;
pub mod symbol_laws;
pub mod text;
pub mod text_laws;
pub mod word;

pub use arch::Architecture;
pub use binary::Binary;
pub use bytes::Endian;
pub use error::Error;
pub use image::BinaryFormat;
pub use link::Applied;
pub use rlib::{link_rlib, read_splices_from_rlib, Splice};

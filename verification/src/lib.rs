//! A reader and writer for the NRRD raster format — a text header followed by
//! a raw binary payload — and a typed, dimension-generic image that converts
//! to and from it.
//!
//! `header` holds the data model; `reader` parses wire bytes into a validated
//! record; `writer` serializes a record back; `codec` and `pixel` convert
//! pixel values to and from payload bytes under an explicit endianness; and
//! `image` is the generic in-memory container with its conversion contract.
//! Every function is verified against a specification stated over byte
//! sequences, including the round-trip laws of the codec and of the image
//! conversion.

pub mod codec;
pub mod header;
pub mod image;
pub mod pixel;
pub mod reader;
pub mod text;
pub mod writer;

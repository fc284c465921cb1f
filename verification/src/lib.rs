//! A verified core for a TCP service that turns uncompressed 24-bit BMP
//! images grey: parsing and serializing the file header, transcoding pixel
//! rows to greyscale while leaving padding untouched, and sequencing a whole
//! connection from header parse to tail passthrough.

pub mod greyscale;
pub mod handler;
pub mod header;

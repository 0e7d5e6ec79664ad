//! Block splitting for a DEFLATE compressor, with the token store it reads and the format's
//! symbol tables.

pub mod blocksplitter;
pub mod lz77;
pub mod minimum;
pub mod split_model;
pub mod zopfli;

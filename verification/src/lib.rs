//! Storage core of an RDF quad store: a binary term codec, nine redundant
//! ordered indexes over quads, a transactional writer, a bulk loader and an
//! interval-labelled class and property taxonomy.

pub mod annotation_laws;
pub mod backend;
pub mod binary_encoder;
pub mod decoder;
pub mod endian;
pub mod error;
pub mod graph_laws;
pub mod index;
pub mod interval_encoder;
pub mod laws;
pub mod loader;
pub mod model;
pub mod numeric_encoder;
pub mod offsets;
pub mod rooted_laws;
pub mod small_string;
pub mod storage;
pub mod store_laws;
pub mod strings;
pub mod taxonomy;
pub mod taxonomy_file;
pub mod text;
pub mod vocab;
pub mod writer;

//! Shannon information theory: the discrete, integer-valued parts of source
//! coding (Huffman code trees, their code words, the Kraft inequality and its
//! converse, the code-length adjustment step) and the initial cluster
//! assignment of the information bottleneck.

pub mod coding;
pub mod huffman;
pub mod kraft;
pub mod kraft_code;
pub mod agent;

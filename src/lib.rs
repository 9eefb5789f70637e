//! Bioinformatics algorithms: sequence primitives, DNA strings, k-mer
//! counting and motif search.
pub mod data;
pub mod dna;
pub mod io;
pub mod raw;
pub mod seq;
pub mod strings;

use vstd::prelude::*;

pub mod text;
pub mod bpe;
pub mod ngrams;
pub mod decoder;
pub mod http;
pub mod fnv;
pub mod splits;
pub mod kernels;
pub mod quant;
pub mod attention;
pub mod retrieval;
pub mod timing;
pub mod reward;
pub mod schema;
pub mod moe;
pub mod checkpoint;
pub mod corpus;
pub mod lexical;
pub mod sparse;
pub mod audit;

pub mod training;
pub mod batch;
pub mod minibatch;
pub mod dense;
pub mod capacity;
pub mod caption;

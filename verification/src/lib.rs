//! Search engine core for the Maknuune lexicon of Palestinian Arabic.

pub mod address;
pub mod display;
pub mod lexicon;
pub mod normalized;
pub mod paths;
pub mod query;
pub mod sorting;
pub mod text;
pub mod tf_idf;
pub mod title;

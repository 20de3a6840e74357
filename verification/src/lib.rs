pub mod display;
pub mod bible_structure;
pub mod config;
pub mod progress;
pub mod range_laws;
pub mod range_query;
pub mod stats;
pub mod utils;

pub mod text;
pub mod chunker;
pub mod markdown;
pub mod extract;
pub mod search;
pub mod search_laws;
pub mod query;
pub mod model;
pub mod scan;
pub mod progress;
pub mod runtime;
pub mod platform;
pub mod eval_args;

pub mod types;
pub mod stop_times;
pub mod lines;
pub mod index;
pub mod raptor;
pub mod patterns;

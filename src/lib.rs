pub mod tree;
pub mod skip;
pub mod progress;
pub mod estimate;
pub mod scanner;
pub mod volumes;

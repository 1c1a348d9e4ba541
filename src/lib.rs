pub mod filter;
pub mod measure;
pub mod root;
pub mod scanner;
pub mod threshold;

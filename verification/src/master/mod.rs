pub mod orchestrate;
pub mod paths;

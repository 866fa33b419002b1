pub mod suggestion;
pub mod suggestions;
pub mod suggestions_builder;

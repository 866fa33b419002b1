pub mod string_range;
pub mod command_context;
pub mod parsed_argument;

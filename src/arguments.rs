pub mod bool_argument_type;
pub mod integer_argument_type;
pub mod long_argument_type;
pub mod string_argument_type;

pub use bool_argument_type::BoolArgumentType;
pub use integer_argument_type::IntegerArgumentType;
pub use long_argument_type::LongArgumentType;
pub use string_argument_type::StringArgumentType;

pub mod command_node;

pub mod ast_node;
pub mod location;
pub mod literal_value;

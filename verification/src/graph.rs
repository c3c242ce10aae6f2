pub mod adjacent_list_representation;
pub mod graph_representation;
pub mod node;

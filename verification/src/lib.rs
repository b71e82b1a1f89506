pub mod deck;
pub mod game;
pub mod solver_tree;
pub mod traversal;

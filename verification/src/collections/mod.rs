pub mod maple_tree;

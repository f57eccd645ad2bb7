pub mod node;
pub mod tree;
pub mod path;
pub mod order;
pub mod sort;
pub mod repair;
pub mod regroup;
pub mod scan;
pub mod validation;
pub mod ops;
pub mod stats;
pub mod visualizer;
pub mod checks;
pub mod validity;

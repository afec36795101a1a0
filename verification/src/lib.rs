pub mod error;
pub mod interactive;
pub mod renamer;
pub mod solver;

pub mod types;
pub mod instances;
pub mod maps;
pub mod encodings;
pub mod solvers;

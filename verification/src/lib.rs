pub mod benchmark;
pub mod number_theory;
pub mod sorting;

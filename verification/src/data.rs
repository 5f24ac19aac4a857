pub mod field;
pub mod point;
pub mod vector;

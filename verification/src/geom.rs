pub mod space;
pub mod field;
pub mod mode;
pub mod invariants;

pub mod correspondance;
pub mod matcher;
pub mod expand;

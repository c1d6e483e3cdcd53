pub mod allocation;
pub mod text;

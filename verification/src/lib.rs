pub mod builder;
pub mod recipes;

pub use builder::Ccmk4Builder;

//! A product catalog: an ordered list of products with case-insensitive
//! lookup indices over name, brand and category.
pub mod text;
pub mod product;
pub mod index;
pub mod catalog;
pub mod laws;

pub use catalog::{Catalog, CatalogError, LoadError};
pub use product::{Field, Product};

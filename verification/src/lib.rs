//! Functional-dependency algebra for relational schema design: attribute
//! closures, canonical (minimal) covers, and candidate-key enumeration over
//! finite sets of named attributes.

pub mod attribute;
pub mod attribute_set;
mod counting;
mod cover;
pub mod dependency;
pub mod dependency_set;
pub mod laws;
pub mod model;
pub mod text;

pub use attribute::Attribute;
pub use attribute_set::AttributeSet;
pub use dependency::Dependency;
pub use dependency_set::DependencySet;

//! Bundles script files: import directives are replaced by the text of the
//! files they name, recursively.
pub mod text;
pub mod paths;
pub mod sources;
pub mod bundle;
pub mod laws;

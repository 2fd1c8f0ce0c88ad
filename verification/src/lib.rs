//! Line endings of files in a repository: how a stream is normalized to one format, and which
//! format the `.gitattributes` files of the repository ask for.
pub mod attribute_search;
pub mod eol;
pub mod eol_laws;
pub mod git_attributes;
pub mod git_attributes_laws;
pub mod line_endings;
pub mod repo_path;
pub mod repo_path_laws;
pub mod resolver_laws;

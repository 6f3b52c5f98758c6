//! Name checking for protobuf files: the table of every name that a file
//! defines or imports, duplicate detection, and name resolution in scopes.
pub mod naming;
pub mod span;
pub mod descriptor;
pub mod inversion_list;
pub mod check;
pub mod names;
pub mod pass;
pub mod parsed;
pub mod properties;

pub mod archive;
pub mod manifest;
pub mod path_structure;
pub mod install;
pub mod cli;

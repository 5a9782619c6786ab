mod bytes;
pub mod manifest;
pub mod renamer;

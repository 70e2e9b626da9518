pub mod diff;
pub mod excel;
pub mod file;
pub mod folder;

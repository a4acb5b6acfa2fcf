pub mod directory;

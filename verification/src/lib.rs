pub mod blob;
pub mod branch;
pub mod bytes;
pub mod cli;
pub mod codec;
pub mod commands;
pub mod commit;
pub mod errors;
pub mod hash;
pub mod index;
pub mod paths;
pub mod repository;
pub mod repository_status;
pub mod signature;
pub mod objects;
pub mod store;
pub mod table;
pub mod tree;
pub mod workspace;

pub mod text;
pub mod types;
pub mod scan;
pub mod resolve;
pub mod store;
pub mod render;
pub mod fountain;
pub mod next;
pub mod annotate;
pub mod link;
pub mod mdtree;
pub mod ids;
pub mod init;
pub mod write;
pub mod show;

//! Verified core of a peer-to-peer file sharing node: the text wire format,
//! the bookkeeping of files, pieces and peers, and the assembly of a download.
pub mod text;
mod matching;
pub mod file_handler;
pub mod digest;
pub mod table;
pub mod address;
pub mod protocol;
pub mod swarmnet;
pub mod selection;
pub mod assembly;
pub mod listing;
pub mod search;
pub mod paths;
pub mod readback;

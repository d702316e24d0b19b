//! TuneCall library: the song indexes of scanned fake books (building them
//! from transcribed or OCR'd tables of contents, repairing page numbers,
//! loading and searching them) and the viewer's decisions and user data.

pub mod annotations;
pub mod config;
pub mod db;
pub mod index;
pub mod indexer;
pub mod keys;
pub mod order;
pub mod path;
pub mod setlist;
pub mod settings;
pub mod storage;
pub mod sync;
pub mod text;
pub mod viewer;

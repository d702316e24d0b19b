//! The offline indexer's logic: turning transcribed or OCR'd tables of
//! contents into per-book song indexes.

pub mod corrections;
pub mod index;
pub mod repair;
pub mod resolve;
pub mod toc;

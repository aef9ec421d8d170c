//! unei's editing core: the text model, motions, number editing, the
//! window tree, the machine lens and the keymap, with their contracts.

pub mod base64;
pub mod chars;
pub mod comment;
pub mod editing;
pub mod editor;
pub mod format;
pub mod launch;
pub mod lens;
pub mod lsp;
pub mod lsp_client;
pub mod paths;
pub mod preview;
pub mod search;
pub mod syntax;
pub mod config;

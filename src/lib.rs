//! Embeds a directory snapshot as a typed tree of declarations: path
//! metadata, entry classification, identifier derivation, tree building and
//! code synthesis.

pub mod embedded_path;
pub mod entry_kind;
pub mod ident;
pub mod synth;
pub mod text;
pub mod tree;

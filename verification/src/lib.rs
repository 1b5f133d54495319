//! Idents of the assets of a module graph, and the names of the files that they are written to.
pub mod bytes;
pub mod hash_laws;
pub mod ident;
pub mod ident_laws;
pub mod laws;
pub mod layer;
pub mod layer_laws;
pub mod modifiers;
pub mod naming;
pub mod naming_laws;
pub mod output_laws;
pub mod output_name;
pub mod path;
pub mod text;
pub mod text_laws;

// Reading of basis-set, atom and orbital-coefficient descriptors, and rendering of the
// array literals that a molecular-orbital shader is built from.
pub mod args;
pub mod atom;
pub mod basis;
pub mod c_fmt;
pub mod error;
pub mod grid;
pub mod index;
pub mod mo_coefs;
pub mod params;
pub mod text;

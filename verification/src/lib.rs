//! A filesystem sandbox: paths are resolved against a fixed jail root and
//! rejected whenever the resolution would land outside it.
//!
//! The jail root is held as its canonical segments.  Untrusted input is
//! parsed into syntactic components (`path_model`), and the resolver walks
//! them in order, probing the filesystem through a small trusted boundary and
//! re-checking containment after every step that can change which entry is
//! referenced (`jail`).  Since the filesystem's answers are outside this
//! crate's control, the walk is specified as a function of those answers
//! (`resolve`), and the laws proved there hold for every answer sequence.

pub mod error;
pub mod jail;
pub mod path_model;
pub mod resolve;

pub use error::JailError;
pub use jail::Jail;
pub use path_model::PathComponent;

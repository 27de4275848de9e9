//! Episode compilation pipeline: resolves a downloaded season/episode
//! hierarchy from descriptor data, normalizes subtitles into the native
//! target syntax, plans the external mux invocation, and packages the
//! finished containers into a library layout.

pub mod error;
pub mod text;
pub mod metadata;
pub mod subtitle;
pub mod codec;
pub mod combiner;
pub mod packager;
pub mod compiler;
pub mod lister;

//! Decoding of Geometry Dash save data and a beat-based timeline model.
pub mod codec;
pub mod text;
pub mod lines;
pub mod timeline;
pub mod music;
pub mod level;
pub mod save;
pub mod song;

//! Cherry: the plain-data logic of a music visualizer — its settings file,
//! command line, export bookkeeping and the small decision tables its game
//! modes share.

pub mod text;
pub mod volume;
pub mod color;
pub mod config;
pub mod course;
pub mod modes;
pub mod export;
pub mod cli;
pub mod media;
pub mod session;

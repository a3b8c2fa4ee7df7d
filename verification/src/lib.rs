//! Firing-network control: a validating compiler for show scripts and the
//! wire protocol spoken with the firing boards.

pub mod cue;
pub mod laws;
pub mod order;
pub mod portfire;
pub mod script;
pub mod show;
pub mod text;
pub mod tts;
pub mod validate;

//! Scripted keystroke playback into a terminal session: a compiler from script
//! text to commands, the key notation it uses, the pacing of playback, and
//! the order of a session's teardown.
pub mod keys;
pub mod playback;
pub mod script;
pub mod session;

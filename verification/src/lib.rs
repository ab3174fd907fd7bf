//! Resolution of a game's content-addressed sound assets: locating the
//! installation directory, selecting the newest versioned asset index,
//! filtering it down to sound entries, and deriving the on-disk,
//! hash-addressed object path that holds a named sound.
pub mod catalog;
pub mod indexes;
pub mod locate;
pub mod text;

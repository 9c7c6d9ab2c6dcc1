//! Sound data of the MusyX sound system.
pub mod snd_init;

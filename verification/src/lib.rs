//! Message codecs for the Soulseek server and peer protocols and for the
//! museek daemon interface, with the bookkeeping that the daemon keeps.
pub mod codec;
pub mod foreign;
pub mod state;

//! Reader for the serial protocol of a removable memory card.
//!
//! The card is reached through a [`transport::Transport`]: one blocking byte
//! exchange and a bounded wait on the card's ready line. On top of it,
//! [`io::Io`] runs the fixed command sequence that reads one 128-byte sector,
//! and [`memory_card::MemoryCard`] assembles sectors into 8192-byte blocks and
//! blocks into the card image.
pub mod bits;
pub mod codes;
pub mod transport;
pub mod io;
pub mod memory_card;

//! The Colonel Blotto game: players split a pool of soldiers over a row of
//! battles, whoever commits more soldiers to a battle wins it, and whoever
//! wins more battles wins the round.
//!
//! [`allocation`] holds one split and the rule that decides a round between
//! two of them, [`enumeration`] lists every legal split in the order from
//! which the strategy ids come, [`game`] builds the table of all rounds and
//! runs the players through the rounds, and [`players`] holds a player that
//! learns by regret matching. [`random`] is where that player draws its
//! numbers.

pub mod allocation;
pub mod enumeration;
pub mod game;
pub mod players;
pub mod random;

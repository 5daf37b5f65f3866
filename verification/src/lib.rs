//! The address resolver of a validator map: it reads the current validator set of a
//! chain, looks up the address of each validator in the DHT, places the addresses on
//! the map, and keeps what it learned between collections. The network, the files and
//! the clock of the programme lie outside; what is decided and computed lies here.

pub mod bootstrap;
pub mod clock;
pub mod collect;
pub mod config;
pub mod geo;
pub mod keyed;
pub mod keys;
pub mod ordering;
pub mod paths;
pub mod report;
pub mod resolution;
pub mod sweep;
pub mod text;
pub mod validator_map;

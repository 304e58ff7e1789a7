//! What holds of the library as a whole: laws that relate several of its functions, each
//! proved of the models that the functions' contracts speak of.

pub mod acks;
pub mod arrival;
pub mod bounds;
pub mod delivery;
pub mod fragments;
pub mod history;
pub mod order;
pub mod outcomes;
pub mod receiving;
pub mod reports;
pub mod sending;
pub mod settings;
pub mod statistics;
pub mod storage;
pub mod views;
pub mod window;
pub mod wire;

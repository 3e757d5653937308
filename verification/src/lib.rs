//! Team building for a matchmaking test system: the data it exchanges, the
//! addresses it talks to, and the arithmetic that weighs a match.
pub mod constants;
pub mod models;
pub mod services;
pub mod sorting;

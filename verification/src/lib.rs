//! Ranking-and-navigation core of an application launcher.
//!
//! The library keeps a persistent usage-frequency ("frecency") ranking of
//! previously chosen items, filters a candidate catalog against typed input
//! (literal prefix or case-insensitive pattern), and drives a two-dimensional
//! keyboard-navigable selection cursor over the filtered, paginated result
//! set.  Reading and writing the backing store file, catalog scanning and all
//! presentation are left to the surrounding program; the library works on
//! plain values and is verified.

pub mod codec;
pub mod desktop;
pub mod filter;
pub mod item;
pub mod natural;
pub mod nav;
pub mod pattern;
pub mod rank;
pub mod store;
pub mod text;

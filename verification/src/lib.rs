use vstd::prelude::*;

pub mod text;
pub mod package;
pub mod size;
pub mod pacman;
pub mod config;
pub mod app;
pub mod listing;
pub mod laws;
pub mod view;
pub mod dates;

verus! {

} // verus!

//! A pager's engine: a lazily built table of the lines of a byte source, windowed
//! reads over it, and the scroll state machine that turns navigation commands into
//! moves of the window.
use vstd::prelude::*;

pub mod formats;
pub mod lines;
pub mod reader;
pub mod screen_move_handler;

verus! {

} // verus!

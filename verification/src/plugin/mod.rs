//! The reloadable half of the visualiser: frame-based sample handling and the
//! preparation of a block for its spectrum.

pub mod fft;
pub mod music;

use vstd::prelude::*;

verus! {

/// Whether the window of the visualiser has been closed.
pub struct State {
    pub window_closed: bool,
}

} // verus!

//! A value per audio channel.
use vstd::prelude::*;

verus! {

/// One value for the left channel and one for the right.
pub struct Stereo<T> {
    pub l: T,
    pub r: T,
}

} // verus!

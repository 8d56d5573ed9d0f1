//! Data layouts for recurrent-network input and output tensors, as the
//! vendor library distinguishes them.

use vstd::prelude::*;

verus! {

/// The data layout for input and output of a recurrent neural network.
#[derive(Clone, Copy, Debug, PartialEq, Eq, Hash)]
pub enum RnnDataLayout {
    /// Data layout is padded, with outer stride from one time-step to the next.
    SeqMajorUnpacked,
    /// The sequence length is sorted and packed as in the basic RNN API.
    SeqMajorPacked,
    /// Data layout is padded, with outer stride from one batch to the next.
    BatchMajorUnpacked,
}

} // verus!

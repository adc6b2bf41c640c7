use vstd::prelude::*;

verus! {

/// Where a block's memory came from, and therefore which release protocol
/// applies to it.
#[derive(Clone, Copy, Debug)]
pub enum Origin {
    /// Carved out of the data segment; recycled through the bin table.
    Pool,
    /// An anonymous mapping of its own; returned to the system on release.
    Mapped,
}

/// The bookkeeping that precedes every block. Stepping back one header
/// from a block address yields the header that describes it.
///
/// For a pool block, `size` is the usable byte count of the block that
/// follows. For a mapped block, `size` is the total mapped length — header
/// plus payload — because the release path must unmap exactly the length
/// that the mapping call was given.
///
/// The free-chain link that the header also carries is represented by the
/// order of the addresses on a bin's chain, newest last.
#[derive(Clone, Copy, Debug)]
pub struct Header {
    /// Byte count described above.
    pub size: usize,
    /// Which release protocol applies.
    pub origin: Origin,
}

} // verus!

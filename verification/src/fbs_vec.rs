//! A row table that is built in the FlatBuffers format.
use vstd::prelude::*;

use flatbuffers::FlatBufferBuilder;

verus! {

/// The FlatBuffers builder of a row table, held unopened. The builder type
/// itself cannot be declared here: its allocator parameter is bounded by a
/// trait that the declaration cannot carry.
#[verifier::external_body]
pub struct RowBuilder<'fbb> {
    inner: FlatBufferBuilder<'fbb>,
}

/// The bytes a builder has written so far (what `unfinished_data` shows).
pub uninterp spec fn row_builder_written(b: RowBuilder) -> Seq<u8>;

/// The length of the buffer a builder holds, which it was made with.
pub uninterp spec fn row_builder_capacity(b: RowBuilder) -> nat;

/// The largest buffer a FlatBuffers builder holds: 2 GiB.
pub const MAX_BUFFER_SIZE: usize = 2147483648;

/// The number of bytes a new row table reserves.
pub const INITIAL_CAPACITY: usize = 1024;

/// Calls `FlatBufferBuilder::with_capacity`, which makes a builder whose
/// buffer holds `size` bytes and which has written nothing yet; it panics
/// above 2 GiB, which the `requires` leaves out.
#[verifier::external_body]
fn builder_with_capacity<'fbb>(size: usize) -> (r: RowBuilder<'fbb>)
    requires
        size <= MAX_BUFFER_SIZE,
    ensures
        row_builder_capacity(r) == size,
        row_builder_written(r) == Seq::<u8>::empty(),
{
    RowBuilder { inner: FlatBufferBuilder::with_capacity(size) }
}

/// A table of rows under construction.
pub struct FbsRowTable<'fbb> {
    fbb: RowBuilder<'fbb>,
}

impl<'fbb> FbsRowTable<'fbb> {
    /// The bytes of the table written so far.
    pub closed spec fn written(&self) -> Seq<u8> {
        row_builder_written(self.fbb)
    }

    /// The length of the buffer the table's builder holds.
    pub closed spec fn capacity(&self) -> nat {
        row_builder_capacity(self.fbb)
    }

    /// A row table whose builder reserves `INITIAL_CAPACITY` bytes and has
    /// written nothing.
    pub fn new() -> (r: FbsRowTable<'fbb>)
        ensures
            r.capacity() == INITIAL_CAPACITY,
            r.written() == Seq::<u8>::empty(),
    {
        FbsRowTable { fbb: builder_with_capacity(INITIAL_CAPACITY) }
    }

    /// Adds the cells of the fields; no cell is added yet.
    pub fn create_fields_cell() {
    }
}

} // verus!

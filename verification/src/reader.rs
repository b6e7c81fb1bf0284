//! The byte range reader, modelled as a bounded cursor: after a seek to the
//! range's offset, reads hand out at most `length` bytes in blocks no larger
//! than a configured buffer capacity, then signal end of stream regardless
//! of how many bytes the underlying source holds beyond the range.  Each
//! worker opens its own cursor, so no seek position is ever shared.

use vstd::prelude::*;

verus! {

/// A read cursor over one `(offset, length)` sub-range of a source.
#[derive(Clone, Copy, Debug)]
pub struct RangeCursor {
    pub start: u64,
    pub length: u64,
    pub consumed: u64,
}

impl RangeCursor {
    /// The cursor never hands out more than its range's length, and the
    /// range itself lies within the addressable source.
    pub open spec fn wf(self) -> bool {
        &&& self.consumed <= self.length
        &&& self.start + self.length <= u64::MAX
    }

    /// Bytes of the range not yet handed out.
    pub open spec fn remaining(self) -> int {
        self.length - self.consumed
    }

    /// The source position of the next byte to read: the range offset plus
    /// everything consumed so far.
    pub open spec fn position(self) -> int {
        self.start + self.consumed
    }

    /// The offset at which the range begins.
    pub open spec fn range_offset(self) -> int {
        self.start as int
    }

    /// The total length of the range.
    pub open spec fn range_length(self) -> int {
        self.length as int
    }

    /// Open a cursor over the sub-range starting at `offset` with `length`
    /// bytes: the model of seeking a fresh handle to `offset` and taking at
    /// most `length` bytes from it.
    pub fn open(offset: u64, length: u64) -> (cursor: RangeCursor)
        requires
            offset + length <= u64::MAX,
        ensures
            cursor.wf(),
            cursor.range_offset() == offset,
            cursor.range_length() == length,
            cursor.position() == offset,
            cursor.remaining() == length,
    {
        RangeCursor { start: offset, length, consumed: 0 }
    }

    /// Whether the cursor has handed out its whole range.
    pub fn exhausted(&self) -> (r: bool)
        requires
            self.wf(),
        ensures
            r <==> self.remaining() == 0,
    {
        self.consumed == self.length
    }

    /// Take the next block: at most `capacity` bytes, never past the end of
    /// the range.  Returns the block's size; a zero-sized block means the
    /// stream has ended.
    pub fn next_block(&mut self, capacity: u64) -> (block: u64)
        requires
            old(self).wf(),
            capacity > 0,
        ensures
            final(self).wf(),
            block == if old(self).remaining() <= capacity {
                old(self).remaining()
            } else {
                capacity as int
            },
            final(self).range_offset() == old(self).range_offset(),
            final(self).range_length() == old(self).range_length(),
            final(self).position() == old(self).position() + block,
            final(self).remaining() == old(self).remaining() - block,
            block == 0 <==> old(self).remaining() == 0,
    {
        let left: u64 = self.length - self.consumed;
        let block: u64 = if left <= capacity {
            left
        } else {
            capacity
        };
        self.consumed = self.consumed + block;
        block
    }
}

/// The sum of a sequence of block sizes.
pub open spec fn sum_of_blocks(blocks: Seq<u64>) -> int
    decreases blocks.len(),
{
    if blocks.len() == 0 {
        0
    } else {
        sum_of_blocks(blocks.drop_last()) + blocks.last()
    }
}

/// The sizes of the successive blocks a cursor over `length` bytes yields
/// with read buffers of `capacity` bytes: full buffers until less than one
/// buffer is left, then the final short block.  The blocks cover the range
/// exactly: no byte is read twice, none is skipped, and none is read past
/// the end of the range.
pub fn block_layout(length: u64, capacity: u64) -> (blocks: Vec<u64>)
    requires
        capacity > 0,
    ensures
        sum_of_blocks(blocks@) == length,
        forall|i: int| 0 <= i < blocks@.len() ==> 0 < #[trigger] blocks@[i] <= capacity,
        forall|i: int| 0 <= i < blocks@.len() - 1 ==> #[trigger] blocks@[i] == capacity,
        length == 0 ==> blocks@.len() == 0,
{
    let mut cursor = RangeCursor::open(0, length);
    let mut blocks: Vec<u64> = Vec::new();
    while !cursor.exhausted()
        invariant
            cursor.wf(),
            capacity > 0,
            cursor.range_length() == length,
            cursor.remaining() == length - sum_of_blocks(blocks@),
            length == 0 ==> blocks@.len() == 0,
            forall|i: int| 0 <= i < blocks@.len() ==> 0 < #[trigger] blocks@[i] <= capacity,
            forall|i: int|
                0 <= i < blocks@.len() ==> (i < blocks@.len() - 1 || cursor.remaining() > 0)
                    ==> #[trigger] blocks@[i] == capacity,
        decreases cursor.remaining(),
    {
        let ghost prev = blocks@;
        let block = cursor.next_block(capacity);
        blocks.push(block);
        proof {
            assert(blocks@.drop_last() =~= prev);
        }
    }
    blocks
}

} // verus!

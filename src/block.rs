use vstd::prelude::*;

verus! {

/// What can go wrong while building, converting or reading blocks.
#[derive(Debug, Clone, Copy, PartialEq, Eq, Structural)]
pub enum BlockError {
    /// A position array with no element.
    EmptyInput,
    /// A block whose start and stop do not describe a non-empty run.
    InvalidRange,
    /// Two lengths that must agree do not.
    LengthMismatch,
    /// A removal index at or past the end of the sequence.
    IndexOutOfRange,
    /// A textual block without a `:`.
    SeparatorNotFound,
    /// A textual bound that is not a 32-bit signed integer.
    ParseError,
}

/// An interval of positions.
///
/// With `start >= 0` it is the ascending run `start, start + 1, ..., stop - 1`;
/// with `start < 0` the descending run `start, start - 1, ..., stop + 1`.
/// A gap run of `n` alignment columns is written `(-1, -1 - n)`.
#[derive(Debug, Clone, Copy, PartialEq, Eq, Structural)]
pub struct Block {
    pub start: i32,
    pub stop: i32,
}

impl Block {
    /// A block is never empty and runs in the direction its start's sign gives.
    pub open spec fn wf(self) -> bool {
        (self.start >= 0 && self.stop > self.start) || (self.start < 0 && self.stop < self.start)
    }

    /// The positions a block stands for, in order. A block with
    /// `start <= stop` counts up to `stop` (exclusive), any other counts down.
    pub open spec fn positions(self) -> Seq<i32> {
        if self.start <= self.stop {
            Seq::new((self.stop - self.start) as nat, |i: int| (self.start + i) as i32)
        } else {
            Seq::new((self.start - self.stop) as nat, |i: int| (self.start - i) as i32)
        }
    }

    /// Builds a block without checking it.
    pub fn new(start: i32, stop: i32) -> (b: Block)
        ensures
            b.start == start,
            b.stop == stop,
    {
        Block { start, stop }
    }

    /// Builds a block, refusing one that is empty or runs against its direction.
    pub fn check_new(start: i32, stop: i32) -> (r: Result<Block, BlockError>)
        ensures
            (Block { start, stop }).wf() ==> r == Ok::<Block, BlockError>(Block { start, stop }),
            !(Block { start, stop }).wf() ==> r == Err::<Block, BlockError>(BlockError::InvalidRange),
    {
        if (start >= 0 && stop > start) || (start < 0 && stop < start) {
            Ok(Block { start, stop })
        } else {
            Err(BlockError::InvalidRange)
        }
    }
}

/// Whether `cur` extends a run whose last position is `prev`: one step up
/// among non-negative positions, one step down among negative ones.
pub open spec fn continues(prev: i32, cur: i32) -> bool {
    (prev >= 0 && cur >= 0 && cur == prev + 1) || (prev < 0 && cur < 0 && cur == prev - 1)
}

/// A position that can close a block: its successor in its direction is an `i32`.
pub open spec fn closable(p: i32) -> bool {
    i32::MIN < p < i32::MAX
}

/// The block of the run from `start` to `last`, both included.
pub open spec fn closing(start: i32, last: i32) -> Block {
    Block { start, stop: if last >= 0 { (last + 1) as i32 } else { (last - 1) as i32 } }
}

/// The run from `start` to `last`, in the direction of the sign they share.
pub open spec fn run_from(start: i32, last: i32) -> bool {
    (start >= 0 && last >= start) || (start < 0 && last <= start)
}

/// Grows the last block of `bs` by the position `v`.
pub open spec fn extend_run(bs: Seq<Block>, v: i32) -> Seq<Block> {
    bs.update(bs.len() - 1, closing(bs.last().start, v))
}

/// Appends a block that holds `v` alone.
pub open spec fn open_run(bs: Seq<Block>, v: i32) -> Seq<Block> {
    bs.push(closing(v, v))
}

/// The positions of a block list, block after block.
pub open spec fn decode(bs: Seq<Block>) -> Seq<i32>
    decreases bs.len(),
{
    if bs.len() == 0 {
        Seq::empty()
    } else {
        decode(bs.drop_last()) + bs.last().positions()
    }
}

/// Decoding one more block appends its positions.
pub proof fn lemma_decode_push(bs: Seq<Block>, b: Block)
    ensures
        decode(bs.push(b)) == decode(bs) + b.positions(),
{
    assert(bs.push(b).drop_last() =~= bs);
}

/// Closes the run from `start` to `last`.
pub fn close_run(start: i32, last: i32) -> (b: Block)
    requires
        closable(last),
    ensures
        b == closing(start, last),
{
    if last >= 0 {
        Block { start, stop: last + 1 }
    } else {
        Block { start, stop: last - 1 }
    }
}

} // verus!

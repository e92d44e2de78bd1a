use vstd::prelude::*;
use crate::block::{Block, BlockError};
use crate::chars::chars_of;

verus! {

/// What an alignment column holds, seen from the reference.
#[derive(Debug, Clone, Copy, PartialEq, Eq, Structural)]
pub enum Column {
    /// Both sequences have a residue.
    Aligned,
    /// The reference has a residue, the other sequence a gap.
    Deleted,
    /// Both sequences have a gap.
    Empty,
    /// The reference has a gap, the other sequence a residue.
    Inserted,
}

pub open spec fn column_of(r: char, o: char, gap: char) -> Column {
    if r != gap && o != gap {
        Column::Aligned
    } else if r != gap {
        Column::Deleted
    } else if o == gap {
        Column::Empty
    } else {
        Column::Inserted
    }
}

/// Classifies one alignment column.
pub fn classify(r: char, o: char, gap: char) -> (c: Column)
    ensures
        c == column_of(r, o, gap),
{
    if r != gap && o != gap {
        Column::Aligned
    } else if r != gap {
        Column::Deleted
    } else if o == gap {
        Column::Empty
    } else {
        Column::Inserted
    }
}

/// The number of residues (characters other than `gap`) in `s`.
pub open spec fn residues(s: Seq<char>, gap: char) -> int
    decreases s.len(),
{
    if s.len() == 0 {
        0
    } else {
        residues(s.drop_last(), gap) + if s.last() != gap {
            1int
        } else {
            0int
        }
    }
}

/// The last block of `bs`, one column longer.
pub open spec fn widen(bs: Seq<Block>) -> Seq<Block> {
    let b = bs.last();
    bs.update(
        bs.len() - 1,
        Block { start: b.start, stop: if b.start >= 0 { (b.stop + 1) as i32 } else { (b.stop - 1) as i32 } },
    )
}

/// The blocks of the alignment of `r` (the reference) with `o`: each maximal
/// stretch of aligned columns is the forward block of the reference positions
/// it covers, each maximal stretch of inserted columns a gap-run block
/// `(-1, -1 - length)`, in column order. Other columns give no block.
pub open spec fn align(r: Seq<char>, o: Seq<char>, gap: char) -> Seq<Block>
    decreases r.len(),
{
    if r.len() == 0 || o.len() == 0 {
        Seq::empty()
    } else {
        let n = r.len();
        let before = align(r.drop_last(), o.drop_last(), gap);
        let c = column_of(r[n - 1], o[n - 1], gap);
        let same = n >= 2 && column_of(r[n - 2], o[n - 2], gap) == c;
        match c {
            Column::Aligned => if same {
                widen(before)
            } else {
                let p = residues(r.drop_last(), gap);
                before.push(Block { start: p as i32, stop: (p + 1) as i32 })
            },
            Column::Inserted => if same {
                widen(before)
            } else {
                before.push(Block { start: -1i32, stop: -2i32 })
            },
            _ => before,
        }
    }
}

proof fn lemma_residues_bound(s: Seq<char>, gap: char)
    ensures
        0 <= residues(s, gap) <= s.len(),
    decreases s.len(),
{
    if s.len() > 0 {
        lemma_residues_bound(s.drop_last(), gap);
    }
}

/// Every block of an alignment is valid: a forward block of reference
/// positions, or a gap run `(-1, -1 - n)` with `n >= 1`. The last one is a
/// forward block ending at the reference positions read so far when the last
/// column is aligned, and a gap run of at most the column count when it is
/// inserted.
proof fn lemma_align_valid(r: Seq<char>, o: Seq<char>, gap: char)
    requires
        r.len() == o.len() <= i32::MAX,
    ensures
        forall|k: int| 0 <= k < align(r, o, gap).len() ==> (#[trigger] align(r, o, gap)[k]).wf(),
        forall|k: int|
            0 <= k < align(r, o, gap).len() ==> (#[trigger] align(r, o, gap)[k]).start >= -1,
        r.len() > 0 && column_of(r.last(), o.last(), gap) == Column::Aligned ==> align(
            r,
            o,
            gap,
        ).len() > 0 && align(r, o, gap).last().start >= 0 && align(r, o, gap).last().stop
            == residues(r, gap),
        r.len() > 0 && column_of(r.last(), o.last(), gap) == Column::Inserted ==> align(
            r,
            o,
            gap,
        ).len() > 0 && align(r, o, gap).last().start == -1 && align(r, o, gap).last().stop
            >= -1 - r.len(),
    decreases r.len(),
{
    if r.len() > 0 {
        let n = r.len();
        let r0 = r.drop_last();
        let o0 = o.drop_last();
        lemma_align_valid(r0, o0, gap);
        lemma_residues_bound(r0, gap);
        lemma_residues_bound(r, gap);
        let before = align(r0, o0, gap);
        let after = align(r, o, gap);
        if n >= 2 {
            assert(r0.last() == r[n - 2] && o0.last() == o[n - 2]);
        }
        assert forall|k: int| 0 <= k < after.len() - 1 implies after[k] == before[k] by {}
    }
}

/// Every block that `pairwise_to_blocks` builds is valid: a forward block of
/// reference positions, or a gap run `(-1, -1 - n)` with `n >= 1`.
pub proof fn law_align_valid(r: Seq<char>, o: Seq<char>, gap: char)
    requires
        r.len() == o.len() <= i32::MAX,
    ensures
        forall|k: int| 0 <= k < align(r, o, gap).len() ==> (#[trigger] align(r, o, gap)[k]).wf(),
{
    lemma_align_valid(r, o, gap);
}

/// The open stretch while the columns are read.
enum Stretch {
    Idle,
    Run(i32),
    Gap(i32),
}

spec fn pending(blocks: Seq<Block>, s: Stretch, seq_cnt: i32) -> Seq<Block> {
    match s {
        Stretch::Idle => blocks,
        Stretch::Run(start) => blocks.push(Block { start, stop: seq_cnt }),
        Stretch::Gap(k) => blocks.push(Block { start: -1i32, stop: (-1 - k) as i32 }),
    }
}

/// The stretch that the column before position `i` leaves open.
spec fn stretch_fits(r: Seq<char>, o: Seq<char>, gap: char, i: int, s: Stretch, seq_cnt: i32) -> bool {
    match s {
        Stretch::Idle => i == 0 || (column_of(r[i - 1], o[i - 1], gap) != Column::Aligned
            && column_of(r[i - 1], o[i - 1], gap) != Column::Inserted),
        Stretch::Run(start) => i > 0 && column_of(r[i - 1], o[i - 1], gap) == Column::Aligned && 0
            <= start < seq_cnt,
        Stretch::Gap(k) => i > 0 && column_of(r[i - 1], o[i - 1], gap) == Column::Inserted && 1
            <= k <= i,
    }
}

fn flush(blocks: &mut Vec<Block>, s: Stretch, seq_cnt: i32)
    requires
        match s {
            Stretch::Gap(k) => 1 <= k <= i32::MAX,
            _ => true,
        },
    ensures
        final(blocks)@ == pending(old(blocks)@, s, seq_cnt),
{
    match s {
        Stretch::Idle => {},
        Stretch::Run(start) => blocks.push(Block { start, stop: seq_cnt }),
        Stretch::Gap(k) => blocks.push(Block { start: -1, stop: -1 - k }),
    }
}

/// Derives from two aligned sequences the blocks of reference positions that
/// the other sequence covers, with its insertions as gap-run blocks.
///
/// Fails with `LengthMismatch` when the sequences differ in length.
pub fn pairwise_to_blocks(ref_seq: &str, other_seq: &str, gap_char: char) -> (r: Result<
    Vec<Block>,
    BlockError,
>)
    requires
        ref_seq@.len() <= i32::MAX,
    ensures
        ref_seq@.len() != other_seq@.len() ==> r == Err::<Vec<Block>, BlockError>(
            BlockError::LengthMismatch,
        ),
        ref_seq@.len() == other_seq@.len() ==> r is Ok && r->Ok_0@ == align(
            ref_seq@,
            other_seq@,
            gap_char,
        ),
{
    let rs = chars_of(ref_seq);
    let os = chars_of(other_seq);
    let n = rs.len();
    if n != os.len() {
        return Err(BlockError::LengthMismatch);
    }
    let mut blocks: Vec<Block> = Vec::new();
    let mut seq_cnt: i32 = 0;
    let mut state = Stretch::Idle;
    let mut i: usize = 0;
    while i < n
        invariant
            i <= n,
            n == rs@.len(),
            n == os@.len(),
            n <= i32::MAX,
            0 <= seq_cnt <= i,
            seq_cnt == residues(rs@.take(i as int), gap_char),
            stretch_fits(rs@, os@, gap_char, i as int, state, seq_cnt),
            pending(blocks@, state, seq_cnt) == align(
                rs@.take(i as int),
                os@.take(i as int),
                gap_char,
            ),
        decreases n - i,
    {
        let ghost rt = rs@.take(i as int + 1);
        let ghost ot = os@.take(i as int + 1);
        assert(rt.drop_last() =~= rs@.take(i as int));
        assert(ot.drop_last() =~= os@.take(i as int));
        let c = classify(rs[i], os[i], gap_char);
        match c {
            Column::Aligned => {
                match state {
                    Stretch::Run(start) => {},
                    _ => {
                        flush(&mut blocks, state, seq_cnt);
                        state = Stretch::Run(seq_cnt);
                    },
                }
                seq_cnt = seq_cnt + 1;
            },
            Column::Inserted => {
                match state {
                    Stretch::Gap(k) => {
                        state = Stretch::Gap(k + 1);
                    },
                    _ => {
                        flush(&mut blocks, state, seq_cnt);
                        state = Stretch::Gap(1);
                    },
                }
            },
            Column::Deleted => {
                flush(&mut blocks, state, seq_cnt);
                state = Stretch::Idle;
                seq_cnt = seq_cnt + 1;
            },
            Column::Empty => {
                flush(&mut blocks, state, seq_cnt);
                state = Stretch::Idle;
            },
        }
        i = i + 1;
    }
    assert(rs@.take(n as int) =~= rs@);
    assert(os@.take(n as int) =~= os@);
    flush(&mut blocks, state, seq_cnt);
    Ok(blocks)
}

} // verus!

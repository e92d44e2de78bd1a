use vstd::prelude::*;
use crate::block::{
    closable, close_run, closing, continues, decode, extend_run, lemma_decode_push, open_run,
    run_from, Block,
    BlockError,
};

verus! {

/// The blocks of a position array: each position joins the run of the one
/// before it when it continues that run, and opens a new block otherwise.
pub open spec fn encode(p: Seq<i32>) -> Seq<Block>
    decreases p.len(),
{
    if p.len() == 0 {
        Seq::empty()
    } else if p.len() >= 2 && continues(p[p.len() - 2], p.last()) {
        extend_run(encode(p.drop_last()), p.last())
    } else {
        open_run(encode(p.drop_last()), p.last())
    }
}

/// Every position of `p` can close a block.
pub open spec fn all_closable(p: Seq<i32>) -> bool {
    forall|i: int| 0 <= i < p.len() ==> closable(#[trigger] p[i])
}

proof fn lemma_decode_take(bs: Seq<Block>, k: int)
    requires
        0 <= k < bs.len(),
    ensures
        decode(bs.take(k + 1)) == decode(bs.take(k)) + bs[k].positions(),
{
    assert(bs.take(k + 1) =~= bs.take(k).push(bs[k]));
    lemma_decode_push(bs.take(k), bs[k]);
}

/// The run from `s` to `u` followed by `v`, where `v` continues it, is the run from `s` to `v`.
proof fn lemma_grow_run(s: i32, u: i32, v: i32)
    requires
        run_from(s, u),
        continues(u, v),
        closable(u),
        closable(v),
    ensures
        run_from(s, v),
        closing(s, v).positions() == closing(s, u).positions().push(v),
{
    assert(closing(s, v).positions() =~= closing(s, u).positions().push(v));
}

/// Decoding the blocks of a position array gives the array back; the last
/// block is the run that ends at the last position.
proof fn lemma_decode_encode(p: Seq<i32>)
    requires
        all_closable(p),
    ensures
        decode(encode(p)) == p,
        p.len() > 0 ==> encode(p).len() > 0 && run_from(encode(p).last().start, p.last())
            && encode(p).last() == closing(encode(p).last().start, p.last()),
    decreases p.len(),
{
    if p.len() > 0 {
        let q = p.drop_last();
        let e = encode(q);
        let v = p.last();
        assert(all_closable(q));
        lemma_decode_encode(q);
        assert(p =~= q.push(v));
        if p.len() >= 2 && continues(p[p.len() - 2], v) {
            let s = e.last().start;
            let u = q.last();
            assert(u == p[p.len() - 2]);
            assert(closable(u) && closable(v));
            lemma_grow_run(s, u, v);
            let e2 = extend_run(e, v);
            assert(e2.drop_last() =~= e.drop_last());
            assert(e =~= e.drop_last().push(e.last()));
            lemma_decode_push(e.drop_last(), e.last());
        } else {
            lemma_decode_push(e, closing(v, v));
            assert(closable(v));
            assert(closing(v, v).positions() =~= seq![v]);
        }
    }
}

/// Decoding the blocks of any position array that `array_to_blocks` accepts
/// gives back that array, position for position.
pub proof fn law_decode_after_encode(p: Seq<i32>)
    requires
        all_closable(p),
    ensures
        decode(encode(p)) == p,
{
    lemma_decode_encode(p);
}

/// A block list built by `array_to_blocks` comes back unchanged through
/// `blocks_to_array` and `array_to_blocks`: no block merges or splits.
pub proof fn law_encode_after_decode(p: Seq<i32>)
    requires
        all_closable(p),
    ensures
        all_closable(decode(encode(p))),
        encode(decode(encode(p))) == encode(p),
{
    lemma_decode_encode(p);
}

/// The last position of a valid block.
pub open spec fn last_position(b: Block) -> i32 {
    if b.start >= 0 {
        (b.stop - 1) as i32
    } else {
        (b.stop + 1) as i32
    }
}

/// Every block is valid, and no block's first position continues the run of
/// the block before it, so no two neighbours could be one block.
pub open spec fn minimal(bs: Seq<Block>) -> bool {
    &&& forall|k: int| 0 <= k < bs.len() ==> (#[trigger] bs[k]).wf()
    &&& forall|k: int|
        0 <= k < bs.len() - 1 ==> !continues(last_position(#[trigger] bs[k]), bs[k + 1].start)
}

/// The blocks that `array_to_blocks` builds are valid and as few as the
/// positions allow.
pub proof fn law_encode_minimal(p: Seq<i32>)
    requires
        all_closable(p),
    ensures
        minimal(encode(p)),
    decreases p.len(),
{
    if p.len() > 0 {
        let q = p.drop_last();
        let e = encode(q);
        let v = p.last();
        assert(all_closable(q));
        law_encode_minimal(q);
        lemma_decode_encode(q);
        assert(closable(v));
        let f = encode(p);
        if p.len() >= 2 && continues(p[p.len() - 2], v) {
            let s = e.last().start;
            let u = q.last();
            assert(u == p[p.len() - 2]);
            assert(closable(u));
            lemma_grow_run(s, u, v);
            assert forall|k: int| 0 <= k < f.len() implies (#[trigger] f[k]).wf() by {
                if k < f.len() - 1 {
                    assert(f[k] == e[k]);
                }
            }
            assert forall|k: int| 0 <= k < f.len() - 1 implies !continues(
                last_position(#[trigger] f[k]),
                f[k + 1].start,
            ) by {
                assert(f[k] == e[k]);
                assert(f[k + 1].start == e[k + 1].start);
            }
        } else {
            if q.len() > 0 {
                let s = e.last().start;
                let u = q.last();
                assert(closable(u));
                assert(last_position(e.last()) == u);
                if p.len() >= 2 {
                    assert(u == p[p.len() - 2]);
                }
            }
            assert forall|k: int| 0 <= k < f.len() implies (#[trigger] f[k]).wf() by {
                if k < f.len() - 1 {
                    assert(f[k] == e[k]);
                }
            }
            assert forall|k: int| 0 <= k < f.len() - 1 implies !continues(
                last_position(#[trigger] f[k]),
                f[k + 1].start,
            ) by {
                assert(f[k] == e[k]);
                if k < f.len() - 2 {
                    assert(f[k + 1] == e[k + 1]);
                }
            }
        }
    }
}

/// Converts a list of blocks into the explicit list of positions it stands for.
pub fn blocks_to_array(block_list: Vec<Block>) -> (r: Vec<i32>)
    ensures
        r@ == decode(block_list@),
{
    let mut out: Vec<i32> = Vec::new();
    let mut k: usize = 0;
    while k < block_list.len()
        invariant
            k <= block_list.len(),
            out@ == decode(block_list@.take(k as int)),
        decreases block_list.len() - k,
    {
        let b = block_list[k];
        let ghost before = out@;
        proof {
            lemma_decode_take(block_list@, k as int);
        }
        if b.start <= b.stop {
            let mut i: i32 = b.start;
            while i < b.stop
                invariant
                    b.start <= i <= b.stop,
                    b.start <= b.stop,
                    out@ == before + b.positions().take(i - b.start),
                decreases b.stop - i,
            {
                proof {
                    assert(b.positions().take(i + 1 - b.start) =~= b.positions().take(
                        i - b.start,
                    ).push(i));
                }
                out.push(i);
                i = i + 1;
            }
            assert(b.positions().take(b.stop - b.start) =~= b.positions());
        } else {
            let mut i: i32 = b.start;
            while i > b.stop
                invariant
                    b.stop <= i <= b.start,
                    b.start > b.stop,
                    out@ == before + b.positions().take(b.start - i),
                decreases i - b.stop,
            {
                proof {
                    assert(b.positions().take(b.start - i + 1) =~= b.positions().take(
                        b.start - i,
                    ).push(i));
                }
                out.push(i);
                i = i - 1;
            }
            assert(b.positions().take(b.start - b.stop) =~= b.positions());
        }
        k = k + 1;
    }
    assert(block_list@.take(k as int) =~= block_list@);
    out
}

/// Converts an explicit list of positions into its list of blocks.
///
/// Fails with `EmptyInput` on an empty list, and with `InvalidRange` where a
/// position is `i32::MIN` or `i32::MAX`, since no block can end there.
pub fn array_to_blocks(range_list: Vec<i32>) -> (r: Result<Vec<Block>, BlockError>)
    ensures
        range_list@.len() == 0 ==> r == Err::<Vec<Block>, BlockError>(BlockError::EmptyInput),
        range_list@.len() > 0 && !all_closable(range_list@) ==> r == Err::<Vec<Block>, BlockError>(
            BlockError::InvalidRange,
        ),
        range_list@.len() > 0 && all_closable(range_list@) ==> r is Ok && r->Ok_0@ == encode(
            range_list@,
        ),
{
    let n = range_list.len();
    if n == 0 {
        return Err(BlockError::EmptyInput);
    }
    let mut j: usize = 0;
    while j < n
        invariant
            j <= n,
            n == range_list.len(),
            forall|i: int| 0 <= i < j ==> closable(#[trigger] range_list@[i]),
        decreases n - j,
    {
        if range_list[j] == i32::MIN || range_list[j] == i32::MAX {
            return Err(BlockError::InvalidRange);
        }
        j = j + 1;
    }
    let mut block_list: Vec<Block> = Vec::new();
    let mut start: i32 = range_list[0];
    let mut prev: i32 = range_list[0];
    assert(range_list@.take(1) =~= seq![prev]);
    assert(seq![prev].drop_last() =~= Seq::<i32>::empty());
    assert(encode(Seq::<i32>::empty()) == Seq::<Block>::empty());
    assert(encode(seq![prev]) == open_run(Seq::<Block>::empty(), prev));
    assert(block_list@.push(closing(start, prev)) =~= open_run(Seq::<Block>::empty(), prev));
    let mut i: usize = 1;
    while i < n
        invariant
            1 <= i <= n,
            n == range_list.len(),
            all_closable(range_list@),
            prev == range_list@[i - 1],
            block_list@.push(closing(start, prev)) == encode(range_list@.take(i as int)),
        decreases n - i,
    {
        let cur = range_list[i];
        let ghost p = range_list@.take(i as int + 1);
        assert(p.drop_last() =~= range_list@.take(i as int));
        assert(p[p.len() - 2] == prev);
        if (prev >= 0 && cur >= 0 && cur == prev + 1) || (prev < 0 && cur < 0 && cur == prev - 1) {
            assert(block_list@.push(closing(start, cur)) =~= extend_run(
                block_list@.push(closing(start, prev)),
                cur,
            ));
        } else {
            assert(closable(prev));
            let b = close_run(start, prev);
            block_list.push(b);
            start = cur;
        }
        prev = cur;
        i = i + 1;
    }
    assert(range_list@.take(n as int) =~= range_list@);
    assert(closable(prev));
    let b = close_run(start, prev);
    block_list.push(b);
    Ok(block_list)
}

} // verus!

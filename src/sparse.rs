use vstd::prelude::*;
use crate::codec::encode;
use crate::block::{
    closable, close_run, closing, continues, decode, extend_run, lemma_decode_push, open_run,
    run_from, Block,
    BlockError,
};

verus! {

/// The blocks of an array with absent slots: a present position joins the run
/// of the slot before it when that slot is present and the position continues
/// its run; an absent slot ends any run.
pub open spec fn merge(p: Seq<Option<i32>>) -> Seq<Block>
    decreases p.len(),
{
    if p.len() == 0 {
        Seq::empty()
    } else {
        match p.last() {
            None => merge(p.drop_last()),
            Some(v) => if p.len() >= 2 && p[p.len() - 2] is Some && continues(
                p[p.len() - 2]->0,
                v,
            ) {
                extend_run(merge(p.drop_last()), v)
            } else {
                open_run(merge(p.drop_last()), v)
            },
        }
    }
}

/// The present positions of `p`, in order.
pub open spec fn present(p: Seq<Option<i32>>) -> Seq<i32>
    decreases p.len(),
{
    if p.len() == 0 {
        Seq::empty()
    } else {
        match p.last() {
            None => present(p.drop_last()),
            Some(v) => present(p.drop_last()).push(v),
        }
    }
}

/// Every present position of `p` can close a block.
pub open spec fn present_closable(p: Seq<Option<i32>>) -> bool {
    forall|i: int| 0 <= i < p.len() && (#[trigger] p[i]) is Some ==> closable(p[i]->0)
}

/// The blocks of `p` while the run of its last slot is still open.
pub open spec fn merge_pending(blocks: Seq<Block>, start: i32, prev: Option<i32>) -> Seq<Block> {
    match prev {
        Some(u) => blocks.push(closing(start, u)),
        None => blocks,
    }
}

/// Decoding the merged blocks of `p` gives its present positions; when the
/// last slot is present, the last block is the run that ends there.
proof fn lemma_decode_merge(p: Seq<Option<i32>>)
    requires
        present_closable(p),
    ensures
        decode(merge(p)) == present(p),
        p.len() > 0 && p.last() is Some ==> merge(p).len() > 0 && run_from(
            merge(p).last().start,
            p.last()->0,
        ) && merge(p).last() == closing(merge(p).last().start, p.last()->0),
    decreases p.len(),
{
    if p.len() > 0 {
        let q = p.drop_last();
        let e = merge(q);
        assert(present_closable(q)) by {
            assert forall|i: int| 0 <= i < q.len() && (#[trigger] q[i]) is Some implies closable(
                q[i]->0,
            ) by {
                assert(q[i] == p[i]);
            }
        }
        lemma_decode_merge(q);
        if let Some(v) = p.last() {
            assert(p[p.len() - 1] is Some);
            assert(closable(v));
            if p.len() >= 2 && p[p.len() - 2] is Some && continues(p[p.len() - 2]->0, v) {
                let s = e.last().start;
                let u = q.last()->0;
                assert(q.last() == p[p.len() - 2]);
                assert(closable(u));
                assert(closing(s, v).positions() =~= closing(s, u).positions().push(v));
                let e2 = extend_run(e, v);
                assert(e2.drop_last() =~= e.drop_last());
                assert(e =~= e.drop_last().push(e.last()));
                lemma_decode_push(e.drop_last(), e.last());
            } else {
                lemma_decode_push(e, closing(v, v));
                assert(closing(v, v).positions() =~= seq![v]);
            }
        }
    }
}

/// Decoding the blocks of an array with absent slots gives its present
/// positions, in order.
pub proof fn law_decode_after_merge(p: Seq<Option<i32>>)
    requires
        present_closable(p),
    ensures
        decode(merge(p)) == present(p),
{
    lemma_decode_merge(p);
}

/// An array with no absent slot merges into the blocks that encoding it gives.
pub proof fn law_merge_without_gaps(p: Seq<i32>)
    ensures
        merge(p.map_values(|x: i32| Some(x))) == encode(p),
    decreases p.len(),
{
    let m = p.map_values(|x: i32| Some(x));
    if p.len() > 0 {
        let q = p.drop_last();
        law_merge_without_gaps(q);
        assert(m.drop_last() =~= q.map_values(|x: i32| Some(x)));
        assert(m.last() == Some(p.last()));
        if p.len() >= 2 {
            assert(m[p.len() - 2] == Some(p[p.len() - 2]));
        }
    }
}

/// Converts an array of positions with absent slots into its list of blocks.
///
/// Fails with `EmptyInput` on an empty array, and with `InvalidRange` where a
/// present position is `i32::MIN` or `i32::MAX`.
pub fn option_array_to_blocks(range_list: Vec<Option<i32>>) -> (r: Result<Vec<Block>, BlockError>)
    ensures
        range_list@.len() == 0 ==> r == Err::<Vec<Block>, BlockError>(BlockError::EmptyInput),
        range_list@.len() > 0 && !present_closable(range_list@) ==> r == Err::<
            Vec<Block>,
            BlockError,
        >(BlockError::InvalidRange),
        range_list@.len() > 0 && present_closable(range_list@) ==> r is Ok && r->Ok_0@ == merge(
            range_list@,
        ),
{
    let n = range_list.len();
    if n == 0 {
        return Err(BlockError::EmptyInput);
    }
    let mut j: usize = 0;
    while j < n
        invariant
            j <= n,
            n == range_list.len(),
            forall|i: int|
                0 <= i < j && (#[trigger] range_list@[i]) is Some ==> closable(range_list@[i]->0),
        decreases n - j,
    {
        if let Some(v) = range_list[j] {
            if v == i32::MIN || v == i32::MAX {
                return Err(BlockError::InvalidRange);
            }
        }
        j = j + 1;
    }
    let mut block_list: Vec<Block> = Vec::new();
    let mut start: i32 = 0;
    let mut prev: Option<i32> = None;
    let mut i: usize = 0;
    assert(range_list@.take(0) =~= Seq::<Option<i32>>::empty());
    while i < n
        invariant
            i <= n,
            n == range_list.len(),
            present_closable(range_list@),
            prev == (if i == 0 {
                None
            } else {
                range_list@[i - 1]
            }),
            merge_pending(block_list@, start, prev) == merge(range_list@.take(i as int)),
        decreases n - i,
    {
        let cur = range_list[i];
        let ghost p = range_list@.take(i as int + 1);
        assert(p.drop_last() =~= range_list@.take(i as int));
        assert(p.last() == cur);
        match (prev, cur) {
            (Some(u), Some(v)) => {
                assert(p[p.len() - 2] == prev);
                if (u >= 0 && v >= 0 && v == u + 1) || (u < 0 && v < 0 && v == u - 1) {
                    assert(block_list@.push(closing(start, v)) =~= extend_run(
                        block_list@.push(closing(start, u)),
                        v,
                    ));
                } else {
                    assert(closable(range_list@[i - 1]->0));
                    let b = close_run(start, u);
                    block_list.push(b);
                    start = v;
                }
            },
            (Some(u), None) => {
                assert(closable(range_list@[i - 1]->0));
                let b = close_run(start, u);
                block_list.push(b);
            },
            (None, Some(v)) => {
                if i > 0 {
                    assert(p[p.len() - 2] == prev);
                }
                start = v;
            },
            (None, None) => {},
        }
        prev = cur;
        i = i + 1;
    }
    assert(range_list@.take(n as int) =~= range_list@);
    if let Some(u) = prev {
        assert(closable(range_list@[n - 1]->0));
        let b = close_run(start, u);
        block_list.push(b);
    }
    Ok(block_list)
}

} // verus!

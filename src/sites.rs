use vstd::prelude::*;
use crate::align::residues;
use crate::block::{decode, Block, BlockError};
use crate::chars::{chars_of, string_of};
use crate::codec::blocks_to_array;
use crate::sparse::{merge, option_array_to_blocks, present_closable};

verus! {

/// The slots of `s` paired with `coords`: a residue takes the next
/// coordinate, a gap takes none.
pub open spec fn slots(s: Seq<char>, coords: Seq<i32>, gap: char) -> Seq<Option<i32>> {
    Seq::new(
        s.len(),
        |i: int|
            if s[i] == gap {
                None
            } else {
                Some(coords[residues(s.take(i), gap)])
            },
    )
}

/// The elements of `s` whose index is not listed in `rm`, in order.
pub open spec fn kept<A>(s: Seq<A>, rm: Seq<usize>) -> Seq<A>
    decreases s.len(),
{
    if s.len() == 0 {
        Seq::empty()
    } else if rm.contains((s.len() - 1) as usize) {
        kept(s.drop_last(), rm)
    } else {
        kept(s.drop_last(), rm).push(s.last())
    }
}

proof fn lemma_residues_step(s: Seq<char>, gap: char, i: int)
    requires
        0 <= i < s.len(),
    ensures
        residues(s.take(i + 1), gap) == residues(s.take(i), gap) + if s[i] != gap {
            1int
        } else {
            0int
        },
        0 <= residues(s.take(i), gap) <= i,
    decreases i,
{
    assert(s.take(i + 1).drop_last() =~= s.take(i));
    if i > 0 {
        lemma_residues_step(s, gap, i - 1);
    } else {
        assert(s.take(0) =~= Seq::<char>::empty());
    }
}

proof fn lemma_residues_grow(s: Seq<char>, gap: char, i: int, j: int)
    requires
        0 <= i <= j <= s.len(),
    ensures
        residues(s.take(i), gap) <= residues(s.take(j), gap),
    decreases j - i,
{
    if i < j {
        lemma_residues_step(s, gap, j - 1);
        lemma_residues_grow(s, gap, i, j - 1);
    }
}

proof fn lemma_kept_step<A>(s: Seq<A>, rm: Seq<usize>, j: int)
    requires
        0 <= j < s.len(),
    ensures
        kept(s.take(j + 1), rm) == if rm.contains(j as usize) {
            kept(s.take(j), rm)
        } else {
            kept(s.take(j), rm).push(s[j])
        },
{
    assert(s.take(j + 1).drop_last() =~= s.take(j));
}

/// Removes the listed positions from a sequence and from the block list
/// that describes its residues, and rebuilds the blocks of what is left.
/// A position listed more than once is removed once.
///
/// With nothing to remove, both come back unchanged. Otherwise it fails with
/// `LengthMismatch` when the blocks do not hold one position per residue,
/// with `IndexOutOfRange` when a listed position is past the end, and with
/// `InvalidRange` when a kept position is `i32::MIN` or `i32::MAX`.
#[verifier::loop_isolation(false)]
pub fn remove_sites(
    seq: &str,
    block_list: Vec<Block>,
    remove_pos_list: Vec<usize>,
    gap_char: char,
) -> (r: Result<(String, Vec<Block>), BlockError>)
    ensures
        remove_pos_list@.len() == 0 ==> r is Ok && r->Ok_0.0@ == seq@ && r->Ok_0.1@
            == block_list@,
        remove_pos_list@.len() > 0 ==> {
            let coords = decode(block_list@);
            let rest = kept(slots(seq@, coords, gap_char), remove_pos_list@);
            if coords.len() != residues(seq@, gap_char) {
                r == Err::<(String, Vec<Block>), BlockError>(BlockError::LengthMismatch)
            } else if exists|k: int|
                0 <= k < remove_pos_list@.len() && #[trigger] remove_pos_list@[k] >= seq@.len() {
                r == Err::<(String, Vec<Block>), BlockError>(BlockError::IndexOutOfRange)
            } else if !present_closable(rest) {
                r == Err::<(String, Vec<Block>), BlockError>(BlockError::InvalidRange)
            } else {
                r is Ok && r->Ok_0.0@ == kept(seq@, remove_pos_list@) && r->Ok_0.1@ == merge(rest)
            }
        },
{
    if remove_pos_list.len() == 0 {
        return Ok((seq.to_owned(), block_list));
    }
    let coords = blocks_to_array(block_list);
    let chars = chars_of(seq);
    let n = chars.len();
    let mut count: usize = 0;
    let mut i: usize = 0;
    while i < n
        invariant
            i <= n,
            n == chars@.len(),
            count == residues(chars@.take(i as int), gap_char),
        decreases n - i,
    {
        proof {
            lemma_residues_step(chars@, gap_char, i as int);
        }
        if chars[i] != gap_char {
            count = count + 1;
        }
        i = i + 1;
    }
    assert(chars@.take(n as int) =~= chars@);
    if coords.len() != count {
        return Err(BlockError::LengthMismatch);
    }
    let ghost all_slots = slots(chars@, coords@, gap_char);
    let mut filled: Vec<Option<i32>> = Vec::new();
    let mut x: usize = 0;
    i = 0;
    while i < n
        invariant
            i <= n,
            n == chars@.len(),
            coords@.len() == residues(chars@, gap_char),
            all_slots == slots(chars@, coords@, gap_char),
            x == residues(chars@.take(i as int), gap_char),
            filled@ == all_slots.take(i as int),
        decreases n - i,
    {
        proof {
            lemma_residues_step(chars@, gap_char, i as int);
            if i + 1 < n {
                lemma_residues_step(chars@, gap_char, i as int + 1);
            }
            lemma_residues_grow(chars@, gap_char, i as int + 1, n as int);
            assert(chars@.take(n as int) =~= chars@);
        }
        if chars[i] != gap_char {
            filled.push(Some(coords[x]));
            x = x + 1;
        } else {
            filled.push(None);
        }
        assert(filled@ =~= all_slots.take(i as int + 1));
        i = i + 1;
    }
    let mut marked: Vec<bool> = Vec::new();
    i = 0;
    while i < n
        invariant
            i <= n,
            marked@.len() == i,
            forall|j: int| 0 <= j < i ==> !(#[trigger] marked@[j]),
        decreases n - i,
    {
        marked.push(false);
        i = i + 1;
    }
    let m = remove_pos_list.len();
    let mut t: usize = 0;
    while t < m
        invariant
            t <= m,
            m == remove_pos_list@.len(),
            marked@.len() == n,
            forall|k: int| 0 <= k < t ==> #[trigger] remove_pos_list@[k] < n,
            forall|j: int|
                0 <= j < n ==> (#[trigger] marked@[j] <==> remove_pos_list@.take(t as int).contains(
                    j as usize,
                )),
        decreases m - t,
    {
        let idx = remove_pos_list[t];
        if idx >= n {
            assert(remove_pos_list@[t as int] >= seq@.len());
            return Err(BlockError::IndexOutOfRange);
        }
        let ghost old_marked = marked@;
        marked.set(idx, true);
        proof {
            let before = remove_pos_list@.take(t as int);
            let after = remove_pos_list@.take(t as int + 1);
            assert(after =~= before.push(idx));
            assert(after[t as int] == idx);
            assert forall|j: int| 0 <= j < n implies (#[trigger] marked@[j] <==> after.contains(
                j as usize,
            )) by {
                if j != idx {
                    assert(marked@[j] == old_marked[j]);
                    assert(old_marked[j] <==> before.contains(j as usize));
                }
                if after.contains(j as usize) {
                    let k = choose|k: int| 0 <= k < after.len() && after[k] == j as usize;
                    if k < t {
                        assert(before[k] == j as usize);
                    }
                }
                if before.contains(j as usize) {
                    let k = choose|k: int| 0 <= k < before.len() && before[k] == j as usize;
                    assert(after[k] == j as usize);
                }
            }
        }
        t = t + 1;
    }
    assert(remove_pos_list@.take(m as int) =~= remove_pos_list@);
    let mut rest_chars: Vec<char> = Vec::new();
    let mut rest_slots: Vec<Option<i32>> = Vec::new();
    i = 0;
    while i < n
        invariant
            i <= n,
            n == chars@.len(),
            n == filled@.len(),
            filled@ == all_slots,
            marked@.len() == n,
            forall|j: int|
                0 <= j < n ==> (#[trigger] marked@[j] <==> remove_pos_list@.contains(j as usize)),
            rest_chars@.len() == rest_slots@.len(),
            rest_chars@ == kept(chars@.take(i as int), remove_pos_list@),
            rest_slots@ == kept(filled@.take(i as int), remove_pos_list@),
        decreases n - i,
    {
        proof {
            lemma_kept_step(chars@, remove_pos_list@, i as int);
            lemma_kept_step(filled@, remove_pos_list@, i as int);
        }
        if !marked[i] {
            rest_chars.push(chars[i]);
            rest_slots.push(filled[i]);
        }
        i = i + 1;
    }
    assert(chars@.take(n as int) =~= chars@);
    assert(filled@.take(n as int) =~= filled@);
    if rest_chars.len() == 0 {
        return Ok((String::new(), Vec::new()));
    }
    let text = string_of(&rest_chars);
    match option_array_to_blocks(rest_slots) {
        Ok(blocks) => Ok((text, blocks)),
        Err(e) => Err(e),
    }
}

} // verus!

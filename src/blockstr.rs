use vstd::prelude::*;
use crate::block::{Block, BlockError};
use crate::chars::{chars_of, lemma_split_len, split_bounds, split_on, string_of};

verus! {

pub open spec fn is_digit(c: char) -> bool {
    '0' <= c && c <= '9'
}

pub open spec fn digit_value(c: char) -> int {
    c as int - '0' as int
}

/// The character of the decimal digit `d`.
pub open spec fn digit_char(d: int) -> char {
    ((d + 48) as u8) as char
}

/// The decimal digits of `n`, most significant first, without leading zeros.
pub open spec fn decimal(n: nat) -> Seq<char>
    decreases n,
{
    if n < 10 {
        seq![digit_char(n as int)]
    } else {
        decimal(n / 10).push(digit_char((n % 10) as int))
    }
}

/// The decimal text of `n`, with a leading `-` when it is negative.
pub open spec fn int_text(n: int) -> Seq<char> {
    if n < 0 {
        seq!['-'] + decimal((-n) as nat)
    } else {
        decimal(n as nat)
    }
}

pub open spec fn all_digits(s: Seq<char>) -> bool {
    forall|i: int| 0 <= i < s.len() ==> is_digit(#[trigger] s[i])
}

/// The value of a string of decimal digits.
pub open spec fn digits_value(s: Seq<char>) -> int
    decreases s.len(),
{
    if s.len() == 0 {
        0
    } else {
        10 * digits_value(s.drop_last()) + digit_value(s.last())
    }
}

/// The value of one or more decimal digits.
pub open spec fn unsigned_value(s: Seq<char>) -> Option<int> {
    if s.len() > 0 && all_digits(s) {
        Some(digits_value(s))
    } else {
        None
    }
}

/// The value of a decimal integer: an optional `+` or `-`, then one or more digits.
pub open spec fn int_value(s: Seq<char>) -> Option<int> {
    if s.len() > 0 && s[0] == '-' {
        match unsigned_value(s.drop_first()) {
            Some(v) => Some(-v),
            None => None,
        }
    } else if s.len() > 0 && s[0] == '+' {
        unsigned_value(s.drop_first())
    } else {
        unsigned_value(s)
    }
}

/// The 32-bit signed integer that `s` writes, if any.
pub open spec fn i32_value(s: Seq<char>) -> Option<i32> {
    match int_value(s) {
        Some(v) => if i32::MIN <= v <= i32::MAX {
            Some(v as i32)
        } else {
            None
        },
        None => None,
    }
}

proof fn lemma_decimal(n: nat)
    ensures
        decimal(n).len() > 0,
        all_digits(decimal(n)),
        digits_value(decimal(n)) == n,
        !(decimal(n).contains(':')),
        !(decimal(n).contains(';')),
    decreases n,
{
    let d = decimal(n);
    if n < 10 {
        assert(is_digit(d[0]));
        assert(d.drop_last() =~= Seq::<char>::empty());
        assert(digits_value(d) == 10 * digits_value(d.drop_last()) + digit_value(d.last()));
    } else {
        lemma_decimal(n / 10);
        assert(d.drop_last() =~= decimal(n / 10));
        assert(digits_value(d) == 10 * digits_value(d.drop_last()) + digit_value(d.last()));
        assert(10 * (n / 10) + n % 10 == n);
        assert forall|i: int| 0 <= i < d.len() implies is_digit(#[trigger] d[i]) by {
            if i < d.len() - 1 {
                assert(d[i] == decimal(n / 10)[i]);
            }
        }
    }
    assert(!d.contains(':')) by {
        if d.contains(':') {
            let i = choose|i: int| 0 <= i < d.len() && d[i] == ':';
            assert(is_digit(d[i]));
        }
    }
    assert(!d.contains(';')) by {
        if d.contains(';') {
            let i = choose|i: int| 0 <= i < d.len() && d[i] == ';';
            assert(is_digit(d[i]));
        }
    }
}

/// Reading the decimal text of a 32-bit integer gives the integer back.
pub proof fn lemma_int_text(n: i32)
    ensures
        i32_value(int_text(n as int)) == Some(n),
        !(int_text(n as int).contains(':')),
        !(int_text(n as int).contains(';')),
{
    if n < 0 {
        let m = (-n) as nat;
        lemma_decimal(m);
        let t = int_text(n as int);
        assert(t.drop_first() =~= decimal(m));
        assert(!t.contains(':')) by {
            if t.contains(':') {
                let i = choose|i: int| 0 <= i < t.len() && t[i] == ':';
                assert(decimal(m)[i - 1] == ':');
            }
        }
        assert(!t.contains(';')) by {
            if t.contains(';') {
                let i = choose|i: int| 0 <= i < t.len() && t[i] == ';';
                assert(decimal(m)[i - 1] == ';');
            }
        }
    } else {
        lemma_decimal(n as nat);
        assert(is_digit(decimal(n as nat)[0]));
    }
}

proof fn lemma_digits_value_grow(s: Seq<char>, k: int)
    requires
        all_digits(s),
        0 <= k <= s.len(),
    ensures
        0 <= digits_value(s.take(k)) <= digits_value(s),
    decreases s.len(),
{
    if s.len() > 0 {
        let t = s.drop_last();
        assert(all_digits(t)) by {
            assert forall|i: int| 0 <= i < t.len() implies is_digit(#[trigger] t[i]) by {
                assert(t[i] == s[i]);
            }
        }
        assert(is_digit(s[s.len() - 1]));
        if k < s.len() {
            assert(s.take(k) =~= t.take(k));
            lemma_digits_value_grow(t, k);
        } else {
            assert(s.take(k) =~= s);
        }
        lemma_digits_value_grow(t, t.len() as int);
        assert(t.take(t.len() as int) =~= t);
    } else {
        assert(s.take(k) =~= s);
    }
}

fn digit_to_char(d: u32) -> (c: char)
    requires
        d < 10,
    ensures
        c == digit_char(d as int),
{
    ((d + 48) as u8) as char
}

/// Appends the decimal digits of `n`.
fn push_decimal(out: &mut Vec<char>, n: u32)
    ensures
        final(out)@ == old(out)@ + decimal(n as nat),
    decreases n,
{
    if n >= 10 {
        push_decimal(out, n / 10);
    }
    let ghost mid = out@;
    out.push(digit_to_char(n % 10));
    if n >= 10 {
        assert(out@ =~= old(out)@ + decimal(n as nat));
    } else {
        assert(out@ =~= old(out)@ + decimal(n as nat));
    }
}

/// Appends the decimal text of `n`.
fn push_int(out: &mut Vec<char>, n: i32)
    ensures
        final(out)@ == old(out)@ + int_text(n as int),
{
    if n < 0 {
        out.push('-');
        let m = (-(n as i64)) as u32;
        push_decimal(out, m);
        assert(out@ =~= old(out)@ + int_text(n as int));
    } else {
        push_decimal(out, n as u32);
    }
}

/// Reads the 32-bit integer that `cs[a..b]` writes.
#[verifier::loop_isolation(false)]
fn parse_i32_in(cs: &Vec<char>, a: usize, b: usize) -> (r: Option<i32>)
    requires
        a <= b <= cs@.len(),
    ensures
        r == i32_value(cs@.subrange(a as int, b as int)),
{
    let ghost s = cs@.subrange(a as int, b as int);
    if a == b {
        return None;
    }
    let mut neg = false;
    let mut i: usize = a;
    if cs[a] == '-' {
        neg = true;
        i = a + 1;
    } else if cs[a] == '+' {
        i = a + 1;
    }
    let first = i;
    let ghost body = cs@.subrange(first as int, b as int);
    assert(body =~= if first == a {
        s
    } else {
        s.drop_first()
    });
    if first == b {
        return None;
    }
    let mut acc: i64 = 0;
    while i < b
        invariant
            first <= i <= b <= cs@.len(),
            body == cs@.subrange(first as int, b as int),
            all_digits(body.take(i - first)),
            acc == digits_value(body.take(i - first)),
            0 <= acc <= 2147483648,
        decreases b - i,
    {
        let c = cs[i];
        if !('0' <= c && c <= '9') {
            assert(body[i - first] == c);
            return None;
        }
        let d = (c as u32) - ('0' as u32);
        proof {
            let t = body.take(i - first + 1);
            assert(t.drop_last() =~= body.take(i - first));
            assert(t.last() == c);
            assert forall|j: int| 0 <= j < t.len() implies is_digit(#[trigger] t[j]) by {
                if j < t.len() - 1 {
                    assert(t[j] == body.take(i - first)[j]);
                }
            }
        }
        acc = acc * 10 + d as i64;
        proof {
            let t = body.take(i - first + 1);
            assert(digits_value(t) == 10 * digits_value(t.drop_last()) + digit_value(t.last()));
        }
        if acc > 2147483648 {
            proof {
                if all_digits(body) {
                    lemma_digits_value_grow(body, i - first + 1);
                }
            }
            return None;
        }
        i = i + 1;
    }
    assert(body.take(b - first) =~= body);
    if neg {
        Some((-acc) as i32)
    } else if acc > 2147483647 {
        None
    } else {
        Some(acc as i32)
    }
}

/// The index of the last `c` in `s`, if any.
pub open spec fn last_index_of(s: Seq<char>, c: char) -> Option<int>
    decreases s.len(),
{
    if s.len() == 0 {
        None
    } else if s.last() == c {
        Some(s.len() - 1)
    } else {
        last_index_of(s.drop_last(), c)
    }
}

/// The block that `start:stop` writes, split at the last `:`.
pub open spec fn block_of_text(t: Seq<char>) -> Result<Block, BlockError> {
    match last_index_of(t, ':') {
        None => Err(BlockError::SeparatorNotFound),
        Some(k) => match (i32_value(t.take(k)), i32_value(t.skip(k + 1))) {
            (Some(a), Some(b)) => if (Block { start: a, stop: b }).wf() {
                Ok(Block { start: a, stop: b })
            } else {
                Err(BlockError::InvalidRange)
            },
            _ => Err(BlockError::ParseError),
        },
    }
}

/// The blocks of a list of `start:stop` pieces, or the error of the first bad one.
pub open spec fn blocks_of_pieces(ps: Seq<Seq<char>>) -> Result<Seq<Block>, BlockError>
    decreases ps.len(),
{
    if ps.len() == 0 {
        Ok(Seq::empty())
    } else {
        match blocks_of_pieces(ps.drop_last()) {
            Err(e) => Err(e),
            Ok(bs) => match block_of_text(ps.last()) {
                Err(e) => Err(e),
                Ok(b) => Ok(bs.push(b)),
            },
        }
    }
}

/// What reading a block string gives.
pub open spec fn parse_blocks(s: Seq<char>) -> Result<Seq<Block>, BlockError> {
    blocks_of_pieces(split_on(s, ';'))
}

/// The text `start:stop` of one block.
pub open spec fn block_text(b: Block) -> Seq<char> {
    int_text(b.start as int) + seq![':'] + int_text(b.stop as int)
}

/// The texts of the blocks joined by `;`.
pub open spec fn blocks_text(bs: Seq<Block>) -> Seq<char>
    decreases bs.len(),
{
    if bs.len() == 0 {
        Seq::empty()
    } else if bs.len() == 1 {
        block_text(bs[0])
    } else {
        blocks_text(bs.drop_last()) + seq![';'] + block_text(bs.last())
    }
}

/// Text without a separator extends the last piece.
proof fn lemma_split_append(x: Seq<char>, y: Seq<char>, sep: char)
    requires
        !y.contains(sep),
    ensures
        split_on(x + y, sep) == split_on(x, sep).update(
            split_on(x, sep).len() - 1,
            split_on(x, sep).last() + y,
        ),
    decreases y.len(),
{
    lemma_split_len(x, sep);
    let p = split_on(x, sep);
    if y.len() == 0 {
        assert(x + y =~= x);
        assert(p.last() + y =~= p.last());
        assert(p.update(p.len() - 1, p.last() + y) =~= p);
    } else {
        let z = y.drop_last();
        let c = y.last();
        assert(!z.contains(sep)) by {
            if z.contains(sep) {
                let i = choose|i: int| 0 <= i < z.len() && z[i] == sep;
                assert(y[i] == sep);
            }
        }
        assert(c != sep) by {
            assert(y[y.len() - 1] == c);
        }
        lemma_split_append(x, z, sep);
        assert((x + y).drop_last() =~= x + z);
        assert((p.last() + z).push(c) =~= p.last() + y);
        assert(split_on(x + y, sep) =~= p.update(p.len() - 1, p.last() + y));
    }
}

proof fn lemma_split_text(bs: Seq<Block>)
    requires
        bs.len() > 0,
    ensures
        split_on(blocks_text(bs), ';') == Seq::new(bs.len(), |k: int| block_text(bs[k])),
    decreases bs.len(),
{
    let b = bs.last();
    lemma_int_text(b.start);
    lemma_int_text(b.stop);
    let t = block_text(b);
    assert(!t.contains(';')) by {
        if t.contains(';') {
            let i = choose|i: int| 0 <= i < t.len() && t[i] == ';';
            let l = int_text(b.start as int).len() as int;
            if i < l {
                assert(int_text(b.start as int)[i] == ';');
            } else if i > l {
                assert(int_text(b.stop as int)[i - l - 1] == ';');
            }
        }
    }
    if bs.len() == 1 {
        lemma_split_append(Seq::empty(), t, ';');
        assert(Seq::<char>::empty() + t =~= t);
        assert(split_on(Seq::<char>::empty(), ';') =~= seq![Seq::<char>::empty()]);
        assert(split_on(t, ';') =~= Seq::new(bs.len(), |k: int| block_text(bs[k])));
    } else {
        let front = blocks_text(bs.drop_last());
        lemma_split_text(bs.drop_last());
        let x = front.push(';');
        assert(x.drop_last() =~= front);
        lemma_split_len(x, ';');
        lemma_split_append(x, t, ';');
        assert(front + seq![';'] + t =~= x + t);
        assert(Seq::<char>::empty() + t =~= t);
        assert(split_on(x + t, ';') =~= Seq::new(bs.len(), |k: int| block_text(bs[k])));
    }
}

proof fn lemma_last_index(x: Seq<char>, c: char, y: Seq<char>)
    requires
        !y.contains(c),
    ensures
        last_index_of(x.push(c) + y, c) == Some(x.len() as int),
    decreases y.len(),
{
    if y.len() == 0 {
        assert(x.push(c) + y =~= x.push(c));
    } else {
        let z = y.drop_last();
        assert(!z.contains(c)) by {
            if z.contains(c) {
                let i = choose|i: int| 0 <= i < z.len() && z[i] == c;
                assert(y[i] == c);
            }
        }
        assert(y[y.len() - 1] != c);
        lemma_last_index(x, c, z);
        assert((x.push(c) + y).drop_last() =~= x.push(c) + z);
    }
}

proof fn lemma_block_text(b: Block)
    requires
        b.wf(),
    ensures
        block_of_text(block_text(b)) == Ok::<Block, BlockError>(b),
{
    lemma_int_text(b.start);
    lemma_int_text(b.stop);
    let x = int_text(b.start as int);
    let y = int_text(b.stop as int);
    assert(block_text(b) =~= x.push(':') + y);
    lemma_last_index(x, ':', y);
    assert((x.push(':') + y).take(x.len() as int) =~= x);
    assert((x.push(':') + y).skip(x.len() as int + 1) =~= y);
}

proof fn lemma_pieces(bs: Seq<Block>)
    requires
        forall|k: int| 0 <= k < bs.len() ==> (#[trigger] bs[k]).wf(),
    ensures
        blocks_of_pieces(Seq::new(bs.len(), |k: int| block_text(bs[k]))) == Ok::<
            Seq<Block>,
            BlockError,
        >(bs),
    decreases bs.len(),
{
    let ps = Seq::new(bs.len(), |k: int| block_text(bs[k]));
    if bs.len() > 0 {
        let front = bs.drop_last();
        lemma_pieces(front);
        assert(ps.drop_last() =~= Seq::new(front.len(), |k: int| block_text(front[k])));
        lemma_block_text(bs.last());
        assert(front.push(bs.last()) =~= bs);
    } else {
        assert(Seq::<Block>::empty() =~= bs);
    }
}

/// Reading the text of a non-empty list of valid blocks gives the list back.
pub proof fn law_parse_after_format(bs: Seq<Block>)
    requires
        bs.len() > 0,
        forall|k: int| 0 <= k < bs.len() ==> (#[trigger] bs[k]).wf(),
    ensures
        parse_blocks(blocks_text(bs)) == Ok::<Seq<Block>, BlockError>(bs),
{
    lemma_split_text(bs);
    lemma_pieces(bs);
}

proof fn lemma_pieces_prefix(ps: Seq<Seq<char>>, k: int)
    requires
        0 <= k <= ps.len(),
        blocks_of_pieces(ps.take(k)) is Err,
    ensures
        blocks_of_pieces(ps) == blocks_of_pieces(ps.take(k)),
    decreases ps.len(),
{
    if k < ps.len() {
        assert(ps.drop_last().take(k) =~= ps.take(k));
        lemma_pieces_prefix(ps.drop_last(), k);
    } else {
        assert(ps.take(k) =~= ps);
    }
}

/// Reads the block of `cs[a..k]`, `:` at `k`, `cs[k + 1..b]`.
fn block_at(cs: &Vec<char>, a: usize, k: usize, b: usize) -> (r: Result<Block, BlockError>)
    requires
        a <= k < b <= cs@.len(),
    ensures
        match (
            i32_value(cs@.subrange(a as int, k as int)),
            i32_value(cs@.subrange(k + 1, b as int)),
        ) {
            (Some(x), Some(y)) => if (Block { start: x, stop: y }).wf() {
                r == Ok::<Block, BlockError>(Block { start: x, stop: y })
            } else {
                r == Err::<Block, BlockError>(BlockError::InvalidRange)
            },
            _ => r == Err::<Block, BlockError>(BlockError::ParseError),
        },
{
    let start = parse_i32_in(cs, a, k);
    let stop = parse_i32_in(cs, k + 1, b);
    match (start, stop) {
        (Some(x), Some(y)) => Block::check_new(x, y),
        _ => Err(BlockError::ParseError),
    }
}

/// Reads the block that `cs[a..b]` writes.
fn block_in(cs: &Vec<char>, a: usize, b: usize) -> (r: Result<Block, BlockError>)
    requires
        a <= b <= cs@.len(),
    ensures
        r == block_of_text(cs@.subrange(a as int, b as int)),
{
    let ghost t = cs@.subrange(a as int, b as int);
    let mut j: usize = b;
    assert(t.take(b - a) =~= t);
    while j > a
        invariant
            a <= j <= b <= cs@.len(),
            t == cs@.subrange(a as int, b as int),
            last_index_of(t, ':') == last_index_of(t.take(j - a), ':'),
        decreases j - a,
    {
        let ghost u = t.take(j - a);
        assert(u.last() == cs@[j - 1]);
        assert(u.drop_last() =~= t.take(j - 1 - a));
        if cs[j - 1] == ':' {
            let k = j - 1;
            assert(t.take(k - a) =~= cs@.subrange(a as int, k as int));
            assert(t.skip(k - a + 1) =~= cs@.subrange(k + 1, b as int));
            return block_at(cs, a, k, b);
        }
        j = j - 1;
    }
    assert(t.take(0) =~= Seq::<char>::empty());
    Err(BlockError::SeparatorNotFound)
}

/// Reads a block string `start:stop;start:stop;...` into its blocks.
///
/// Each piece between `;` is split at its last `:`. Fails with
/// `SeparatorNotFound` on a piece without `:`, with `ParseError` on a bound
/// that is not a 32-bit integer, and with `InvalidRange` on a block that is
/// empty or runs against its direction; the first bad piece decides.
pub fn from_block_str(data_str: &str) -> (r: Result<Vec<Block>, BlockError>)
    ensures
        match parse_blocks(data_str@) {
            Ok(bs) => r is Ok && r->Ok_0@ == bs,
            Err(e) => r == Err::<Vec<Block>, BlockError>(e),
        },
{
    let cs = chars_of(data_str);
    let n = cs.len();
    let bounds = split_bounds(&cs, ';');
    let ghost all = split_on(data_str@, ';');
    let m = bounds.len();
    let mut blocks: Vec<Block> = Vec::new();
    let mut k: usize = 0;
    assert(all.take(0) =~= Seq::<Seq<char>>::empty());
    while k < m
        invariant
            k <= m,
            m == bounds@.len(),
            m == all.len(),
            all == split_on(data_str@, ';'),
            n == cs@.len(),
            forall|q: int|
                0 <= q < bounds@.len() ==> (#[trigger] bounds@[q]).0 <= bounds@[q].1 <= n
                    && all[q] == cs@.subrange(bounds@[q].0 as int, bounds@[q].1 as int),
            blocks_of_pieces(all.take(k as int)) == Ok::<Seq<Block>, BlockError>(blocks@),
        decreases m - k,
    {
        let (lo, hi) = bounds[k];
        assert(bounds@[k as int].0 <= bounds@[k as int].1 <= n);
        let ghost front = all.take(k as int + 1);
        assert(front.drop_last() =~= all.take(k as int));
        assert(front.last() == all[k as int]);
        match block_in(&cs, lo, hi) {
            Ok(b) => {
                blocks.push(b);
            },
            Err(e) => {
                proof {
                    assert(blocks_of_pieces(front) == Err::<Seq<Block>, BlockError>(e));
                    lemma_pieces_prefix(all, k as int + 1);
                }
                return Err(e);
            },
        }
        k = k + 1;
    }
    assert(all.take(m as int) =~= all);
    Ok(blocks)
}

/// Writes blocks as `start:stop` joined by `;`.
pub fn to_block_str(block_list: &Vec<Block>) -> (r: String)
    ensures
        r@ == blocks_text(block_list@),
{
    let mut out: Vec<char> = Vec::new();
    let mut k: usize = 0;
    assert(block_list@.take(0) =~= Seq::<Block>::empty());
    while k < block_list.len()
        invariant
            k <= block_list.len(),
            out@ == blocks_text(block_list@.take(k as int)),
        decreases block_list.len() - k,
    {
        let ghost front = block_list@.take(k as int + 1);
        assert(front.drop_last() =~= block_list@.take(k as int));
        let b = block_list[k];
        let ghost before = out@;
        if k > 0 {
            out.push(';');
        }
        push_int(&mut out, b.start);
        out.push(':');
        push_int(&mut out, b.stop);
        if k > 0 {
            assert(out@ =~= before + seq![';'] + block_text(b));
        } else {
            assert(out@ =~= block_text(b));
            assert(front =~= seq![b]);
        }
        k = k + 1;
    }
    assert(block_list@.take(k as int) =~= block_list@);
    string_of(&out)
}

} // verus!

use vstd::prelude::*;
use crate::chars::{chars_of, lemma_split_len, split_bounds, split_on, string_of};

verus! {

/// One sequence record: `>{id} {description}` followed by the sequence.
#[derive(Debug, Clone, PartialEq, Eq)]
pub struct SeqRecord {
    pub id: String,
    pub description: String,
    pub sequence: String,
}

/// The identifier, description and sequence of a record.
pub type RecordText = (Seq<char>, Seq<char>, Seq<char>);

impl View for SeqRecord {
    type V = RecordText;

    open spec fn view(&self) -> RecordText {
        (self.id@, self.description@, self.sequence@)
    }
}

impl SeqRecord {
    /// A record of the given identifier, description and sequence.
    pub fn new(id: &str, description: &str, sequence: &str) -> (r: SeqRecord)
        ensures
            r@ == (id@, description@, sequence@),
    {
        SeqRecord { id: id.to_owned(), description: description.to_owned(), sequence: sequence.to_owned() }
    }
}

/// Why record text cannot be written.
#[derive(Debug, Clone, Copy, PartialEq, Eq, Structural)]
pub enum FastaError {
    /// A line width other than `-1` (no wrapping) or a positive width.
    InvalidLineWidth,
}

/// The views of a list of records.
pub open spec fn records_view(rs: Seq<SeqRecord>) -> Seq<RecordText> {
    rs.map_values(|r: SeqRecord| r@)
}

/// The characters that Unicode calls white space.
pub open spec fn is_space(c: char) -> bool {
    ('\t' <= c && c <= '\r') || c == ' ' || c == '\u{85}' || c == '\u{a0}' || c == '\u{1680}' || (
    '\u{2000}' <= c && c <= '\u{200a}') || c == '\u{2028}' || c == '\u{2029}' || c == '\u{202f}'
        || c == '\u{205f}' || c == '\u{3000}'
}

fn space(c: char) -> (r: bool)
    ensures
        r == is_space(c),
{
    ('\t' <= c && c <= '\r') || c == ' ' || c == '\u{85}' || c == '\u{a0}' || c == '\u{1680}' || (
    '\u{2000}' <= c && c <= '\u{200a}') || c == '\u{2028}' || c == '\u{2029}' || c == '\u{202f}'
        || c == '\u{205f}' || c == '\u{3000}'
}

/// `s` without its trailing white space.
pub open spec fn trim_end(s: Seq<char>) -> Seq<char>
    decreases s.len(),
{
    if s.len() > 0 && is_space(s.last()) {
        trim_end(s.drop_last())
    } else {
        s
    }
}

/// `s` without its leading `>` characters.
pub open spec fn strip_marks(s: Seq<char>) -> Seq<char>
    decreases s.len(),
{
    if s.len() > 0 && s[0] == '>' {
        strip_marks(s.drop_first())
    } else {
        s
    }
}

/// The index of the first `c` in `s`, if any.
pub open spec fn first_index_of(s: Seq<char>, c: char) -> Option<int>
    decreases s.len(),
{
    if s.len() == 0 {
        None
    } else if s[0] == c {
        Some(0)
    } else {
        match first_index_of(s.drop_first(), c) {
            Some(i) => Some(i + 1),
            None => None,
        }
    }
}

/// The lines of a text: its pieces between newlines, but for an empty last one.
pub open spec fn lines(s: Seq<char>) -> Seq<Seq<char>> {
    let p = split_on(s, '\n');
    if p.last().len() == 0 {
        p.drop_last()
    } else {
        p
    }
}

/// What reading the lines of a record file has gathered: the finished
/// records, the identifier and description of the last header, whether a
/// sequence line came after it, and the sequence so far.
pub struct Scan {
    pub records: Seq<RecordText>,
    pub id: Seq<char>,
    pub desc: Seq<char>,
    pub open: bool,
    pub seq: Seq<char>,
}

/// The records of a scan, with the one still being read.
pub open spec fn finish(st: Scan) -> Seq<RecordText> {
    if st.open {
        st.records.push((st.id, st.desc, st.seq))
    } else {
        st.records
    }
}

/// Reads one line. A header `>id description` ends the record before it
/// (if any sequence line came after its header) and starts another; its
/// text is split at the first space, and a header without a space keeps
/// the description of the one before. Any other line, without its trailing
/// white space, extends the sequence.
pub open spec fn scan_line(st: Scan, l: Seq<char>) -> Scan {
    if l.len() > 0 && l[0] == '>' {
        let h = strip_marks(trim_end(l));
        let (id, desc) = match first_index_of(h, ' ') {
            Some(k) => (h.take(k), h.skip(k + 1)),
            None => (h, st.desc),
        };
        Scan { records: finish(st), id, desc, open: false, seq: Seq::empty() }
    } else {
        Scan { open: true, seq: st.seq + trim_end(l), ..st }
    }
}

pub open spec fn scan(ls: Seq<Seq<char>>) -> Scan
    decreases ls.len(),
{
    if ls.len() == 0 {
        Scan { records: Seq::empty(), id: Seq::empty(), desc: Seq::empty(), open: false, seq: Seq::empty() }
    } else {
        scan_line(scan(ls.drop_last()), ls.last())
    }
}

/// The records of a record file's text.
pub open spec fn fasta_records(s: Seq<char>) -> Seq<RecordText> {
    finish(scan(lines(s)))
}

/// The characters of `cs[a..b]` as a string.
fn string_in(cs: &Vec<char>, a: usize, b: usize) -> (r: String)
    requires
        a <= b <= cs@.len(),
    ensures
        r@ == cs@.subrange(a as int, b as int),
{
    let mut v: Vec<char> = Vec::new();
    let mut i: usize = a;
    while i < b
        invariant
            a <= i <= b <= cs@.len(),
            v@ == cs@.subrange(a as int, i as int),
        decreases b - i,
    {
        v.push(cs[i]);
        assert(v@ =~= cs@.subrange(a as int, i as int + 1));
        i = i + 1;
    }
    string_of(&v)
}

/// The end of `cs[a..b]` once its trailing white space is dropped.
fn trimmed_end(cs: &Vec<char>, a: usize, b: usize) -> (e: usize)
    requires
        a <= b <= cs@.len(),
    ensures
        a <= e <= b,
        cs@.subrange(a as int, e as int) == trim_end(cs@.subrange(a as int, b as int)),
{
    let mut e: usize = b;
    while e > a && space(cs[e - 1])
        invariant
            a <= e <= b <= cs@.len(),
            trim_end(cs@.subrange(a as int, e as int)) == trim_end(cs@.subrange(a as int, b as int)),
        decreases e - a,
    {
        assert(cs@.subrange(a as int, e as int).drop_last() =~= cs@.subrange(a as int, e - 1));
        e = e - 1;
    }
    e
}

/// The start of `cs[a..b]` once its leading `>` characters are dropped.
fn marks_end(cs: &Vec<char>, a: usize, b: usize) -> (f: usize)
    requires
        a <= b <= cs@.len(),
    ensures
        a <= f <= b,
        cs@.subrange(f as int, b as int) == strip_marks(cs@.subrange(a as int, b as int)),
{
    let mut f: usize = a;
    while f < b && cs[f] == '>'
        invariant
            a <= f <= b <= cs@.len(),
            strip_marks(cs@.subrange(f as int, b as int)) == strip_marks(cs@.subrange(a as int, b as int)),
        decreases b - f,
    {
        assert(cs@.subrange(f as int, b as int).drop_first() =~= cs@.subrange(f + 1, b as int));
        f = f + 1;
    }
    f
}

/// The index of the first space in `cs[a..b]`, counted from `a`.
fn first_space(cs: &Vec<char>, a: usize, b: usize) -> (r: Option<usize>)
    requires
        a <= b <= cs@.len(),
    ensures
        match r {
            Some(s) => a <= s < b && first_index_of(cs@.subrange(a as int, b as int), ' ') == Some(
                s - a,
            ),
            None => first_index_of(cs@.subrange(a as int, b as int), ' ') is None,
        },
    decreases b - a,
{
    if a == b {
        None
    } else if cs[a] == ' ' {
        Some(a)
    } else {
        assert(cs@.subrange(a as int, b as int).drop_first() =~= cs@.subrange(a + 1, b as int));
        first_space(cs, a + 1, b)
    }
}

/// Reads the records of a record file's text.
pub fn parse_fasta(data: &str) -> (r: Vec<SeqRecord>)
    ensures
        records_view(r@) == fasta_records(data@),
{
    let cs = chars_of(data);
    let bounds = split_bounds(&cs, '\n');
    let ghost pieces = split_on(cs@, '\n');
    proof {
        lemma_split_len(cs@, '\n');
    }
    let mut m = bounds.len();
    let (la, lb) = bounds[m - 1];
    if la == lb {
        m = m - 1;
    }
    let ghost ls = lines(cs@);
    assert(ls =~= pieces.take(m as int));
    let mut records: Vec<SeqRecord> = Vec::new();
    let mut id: (usize, usize) = (0, 0);
    let mut desc: (usize, usize) = (0, 0);
    let mut open = false;
    let mut seq: Vec<char> = Vec::new();
    let mut k: usize = 0;
    assert(ls.take(0) =~= Seq::<Seq<char>>::empty());
    assert(cs@.subrange(0, 0) =~= Seq::<char>::empty());
    while k < m
        invariant
            k <= m <= bounds@.len(),
            bounds@.len() == pieces.len(),
            ls == pieces.take(m as int),
            forall|q: int|
                0 <= q < bounds@.len() ==> (#[trigger] bounds@[q]).0 <= bounds@[q].1 <= cs@.len()
                    && pieces[q] == cs@.subrange(bounds@[q].0 as int, bounds@[q].1 as int),
            id.0 <= id.1 <= cs@.len(),
            desc.0 <= desc.1 <= cs@.len(),
            ({
                let st = scan(ls.take(k as int));
                &&& records_view(records@) == st.records
                &&& cs@.subrange(id.0 as int, id.1 as int) == st.id
                &&& cs@.subrange(desc.0 as int, desc.1 as int) == st.desc
                &&& open == st.open
                &&& seq@ == st.seq
            }),
        decreases m - k,
    {
        let (a, b) = bounds[k];
        let ghost l = cs@.subrange(a as int, b as int);
        let ghost prev = scan(ls.take(k as int));
        assert(ls.take(k as int + 1).drop_last() =~= ls.take(k as int));
        assert(ls.take(k as int + 1).last() == l);
        let e = trimmed_end(&cs, a, b);
        if a < b && cs[a] == '>' {
            if open {
                let r = SeqRecord {
                    id: string_in(&cs, id.0, id.1),
                    description: string_in(&cs, desc.0, desc.1),
                    sequence: string_of(&seq),
                };
                records.push(r);
                assert(records_view(records@) =~= finish(prev));
            }
            let f = marks_end(&cs, a, e);
            let ghost h = cs@.subrange(f as int, e as int);
            match first_space(&cs, f, e) {
                Some(s) => {
                    id = (f, s);
                    desc = (s + 1, e);
                    assert(h.take(s - f) =~= cs@.subrange(f as int, s as int));
                    assert(h.skip(s - f + 1) =~= cs@.subrange(s + 1, e as int));
                    assert(first_index_of(h, ' ') == Some((s - f) as int));
                    assert(h == strip_marks(trim_end(l)));
                },
                None => {
                    id = (f, e);
                    assert(first_index_of(h, ' ') is None);
                    assert(h == strip_marks(trim_end(l)));
                },
            }
            open = false;
            seq = Vec::new();
            assert(seq@ =~= Seq::<char>::empty());
        } else {
            let mut i: usize = a;
            let ghost before = seq@;
            while i < e
                invariant
                    a <= i <= e <= b,
                    b <= cs@.len(),
                    seq@ == before + cs@.subrange(a as int, i as int),
                decreases e - i,
            {
                seq.push(cs[i]);
                assert(seq@ =~= before + cs@.subrange(a as int, i as int + 1));
                i = i + 1;
            }
            open = true;
        }
        k = k + 1;
    }
    assert(ls.take(m as int) =~= ls);
    if open {
        let r = SeqRecord {
            id: string_in(&cs, id.0, id.1),
            description: string_in(&cs, desc.0, desc.1),
            sequence: string_of(&seq),
        };
        records.push(r);
    }
    assert(records_view(records@) =~= fasta_records(data@));
    records
}

/// The header line of a record: `>id`, then a space and the description if it has one.
pub open spec fn header_text(r: RecordText) -> Seq<char> {
    if r.1.len() > 0 {
        seq!['>'] + r.0 + seq![' '] + r.1
    } else {
        seq!['>'] + r.0
    }
}

/// `s` cut into lines of `w` characters, the last one possibly shorter.
pub open spec fn wrap(s: Seq<char>, w: nat) -> Seq<Seq<char>>
    decreases s.len(),
{
    if s.len() == 0 || w == 0 {
        Seq::empty()
    } else if s.len() <= w {
        seq![s]
    } else {
        seq![s.take(w as int)] + wrap(s.skip(w as int), w)
    }
}

/// The lines of one record: its header, then its sequence on one line when
/// `width` is `-1`, or cut into lines of `width` characters.
pub open spec fn record_lines(r: RecordText, width: int) -> Seq<Seq<char>> {
    seq![header_text(r)] + if width == -1 {
        seq![r.2]
    } else {
        wrap(r.2, width as nat)
    }
}

pub open spec fn file_lines(rs: Seq<RecordText>, width: int) -> Seq<Seq<char>>
    decreases rs.len(),
{
    if rs.len() == 0 {
        Seq::empty()
    } else {
        file_lines(rs.drop_last(), width) + record_lines(rs.last(), width)
    }
}

/// Lines joined by newlines, with none after the last.
pub open spec fn join_lines(ls: Seq<Seq<char>>) -> Seq<char>
    decreases ls.len(),
{
    if ls.len() == 0 {
        Seq::empty()
    } else if ls.len() == 1 {
        ls[0]
    } else {
        join_lines(ls.drop_last()) + seq!['\n'] + ls.last()
    }
}

/// Appends `line[a..b]` as one more line.
fn add_line(
    out: &mut Vec<char>,
    line: &Vec<char>,
    a: usize,
    b: usize,
    started: bool,
    Ghost(ls): Ghost<Seq<Seq<char>>>,
)
    requires
        a <= b <= line@.len(),
        started == (ls.len() > 0),
        old(out)@ == join_lines(ls),
    ensures
        final(out)@ == join_lines(ls.push(line@.subrange(a as int, b as int))),
{
    let ghost l = line@.subrange(a as int, b as int);
    assert(ls.push(l).drop_last() =~= ls);
    if started {
        out.push('\n');
    }
    let ghost before = out@;
    let mut i: usize = a;
    while i < b
        invariant
            a <= i <= b <= line@.len(),
            out@ == before + line@.subrange(a as int, i as int),
        decreases b - i,
    {
        out.push(line[i]);
        assert(out@ =~= before + line@.subrange(a as int, i as int + 1));
        i = i + 1;
    }
    if started {
        assert(out@ =~= join_lines(ls) + seq!['\n'] + l);
    } else {
        assert(out@ =~= l);
    }
}

/// Writes records as text: each record's header line, then its sequence on
/// one line when `linewidth` is `-1`, or in lines of `linewidth` characters
/// when it is positive; lines are joined by newlines.
///
/// Fails with `InvalidLineWidth` for any other width.
pub fn fasta_text(sequences: &Vec<SeqRecord>, linewidth: i32) -> (r: Result<String, FastaError>)
    ensures
        linewidth == -1 || linewidth > 0 ==> r is Ok && r->Ok_0@ == join_lines(
            file_lines(records_view(sequences@), linewidth as int),
        ),
        !(linewidth == -1 || linewidth > 0) ==> r == Err::<String, FastaError>(
            FastaError::InvalidLineWidth,
        ),
{
    if !(linewidth == -1 || linewidth > 0) {
        return Err(FastaError::InvalidLineWidth);
    }
    let ghost rs = records_view(sequences@);
    let mut out: Vec<char> = Vec::new();
    let mut started = false;
    let ghost mut ls: Seq<Seq<char>> = Seq::empty();
    let mut k: usize = 0;
    assert(rs.take(0) =~= Seq::<RecordText>::empty());
    while k < sequences.len()
        invariant
            k <= sequences.len(),
            rs == records_view(sequences@),
            linewidth == -1 || linewidth > 0,
            ls == file_lines(rs.take(k as int), linewidth as int),
            started == (ls.len() > 0),
            out@ == join_lines(ls),
        decreases sequences.len() - k,
    {
        let rec = &sequences[k];
        let ghost rv = rs[k as int];
        assert(rv == rec@);
        let ghost base = ls;
        let mut header: Vec<char> = Vec::new();
        header.push('>');
        let id = chars_of(rec.id.as_str());
        let desc = chars_of(rec.description.as_str());
        header.append(&mut id.clone());
        if desc.len() > 0 {
            header.push(' ');
            header.append(&mut desc.clone());
        }
        assert(header@ =~= header_text(rv));
        add_line(&mut out, &header, 0, header.len(), started, Ghost(ls));
        assert(header@.subrange(0, header@.len() as int) =~= header@);
        proof {
            ls = ls.push(header_text(rv));
        }
        started = true;
        let sc = chars_of(rec.sequence.as_str());
        let n = sc.len();
        if linewidth == -1 {
            add_line(&mut out, &sc, 0, n, started, Ghost(ls));
            assert(sc@.subrange(0, n as int) =~= sc@);
            proof {
                ls = ls.push(sc@);
            }
            assert(ls =~= base + record_lines(rv, linewidth as int));
        } else {
            let w = linewidth as usize;
            let ghost top = ls;
            let mut pos: usize = 0;
            assert(sc@.skip(0) =~= sc@);
            assert(top + wrap(sc@, w as nat) =~= ls + wrap(sc@.skip(0), w as nat));
            while pos < n
                invariant
                    pos <= n,
                    n == sc@.len(),
                    w > 0,
                    started,
                    ls.len() > 0,
                    out@ == join_lines(ls),
                    top + wrap(sc@, w as nat) == ls + wrap(sc@.skip(pos as int), w as nat),
                decreases n - pos,
            {
                let end = if n - pos <= w {
                    n
                } else {
                    pos + w
                };
                let ghost rest = sc@.skip(pos as int);
                assert(rest.take(w as int) =~= sc@.subrange(pos as int, end as int) || rest.len()
                    <= w);
                add_line(&mut out, &sc, pos, end, started, Ghost(ls));
                proof {
                    let chunk = sc@.subrange(pos as int, end as int);
                    if rest.len() <= w {
                        assert(rest =~= chunk);
                        assert(sc@.skip(end as int) =~= Seq::<char>::empty());
                        assert(wrap(rest, w as nat) == seq![chunk]);
                    } else {
                        assert(rest.skip(w as int) =~= sc@.skip(end as int));
                        assert(wrap(rest, w as nat) == seq![chunk] + wrap(
                            sc@.skip(end as int),
                            w as nat,
                        ));
                    }
                    assert(ls + (seq![chunk] + wrap(sc@.skip(end as int), w as nat)) =~= ls.push(
                        chunk,
                    ) + wrap(sc@.skip(end as int), w as nat));
                    ls = ls.push(chunk);
                }
                pos = end;
            }
            assert(sc@.skip(n as int) =~= Seq::<char>::empty());
            assert(wrap(Seq::<char>::empty(), w as nat) =~= Seq::<Seq<char>>::empty());
            assert(ls =~= top + wrap(sc@, w as nat));
            assert(ls =~= base + record_lines(rv, linewidth as int));
        }
        proof {
            let front = rs.take(k as int + 1);
            assert(front.drop_last() =~= rs.take(k as int));
            assert(front.last() == rv);
        }
        k = k + 1;
    }
    assert(rs.take(k as int) =~= rs);
    Ok(string_of(&out))
}

} // verus!

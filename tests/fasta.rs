use blockcodec::{fasta_text, parse_fasta, FastaError, SeqRecord};

fn rec(id: &str, description: &str, sequence: &str) -> SeqRecord {
    SeqRecord::new(id, description, sequence)
}

#[test]
fn record_new_keeps_fields() {
    let r = rec("s1", "first one", "ACGT");
    assert_eq!(r.id, "s1");
    assert_eq!(r.description, "first one");
    assert_eq!(r.sequence, "ACGT");
}

#[test]
fn parse_records() {
    let data = ">s1 first one\nAC-G\nTT  \n>s2\nGG\n";
    assert_eq!(
        parse_fasta(data),
        vec![rec("s1", "first one", "AC-GTT"), rec("s2", "first one", "GG")]
    );
}

#[test]
fn parse_crlf_and_marks() {
    let data = ">>a b c\r\nAC\r\nGT\r\n";
    assert_eq!(parse_fasta(data), vec![rec("a", "b c", "ACGT")]);
}

#[test]
fn parse_header_without_sequence_is_dropped() {
    let data = ">a x\n>b y\nCC";
    assert_eq!(parse_fasta(data), vec![rec("b", "y", "CC")]);
    assert_eq!(parse_fasta(""), vec![]);
    assert_eq!(parse_fasta(">only\n"), vec![]);
}

#[test]
fn write_without_wrap() {
    let rs = vec![rec("s1", "desc", "ACGTACGT"), rec("s2", "", "GG")];
    assert_eq!(fasta_text(&rs, -1).unwrap(), ">s1 desc\nACGTACGT\n>s2\nGG");
}

#[test]
fn write_wrapped() {
    let rs = vec![rec("s1", "", "ACGTACG"), rec("s2", "d", "")];
    assert_eq!(fasta_text(&rs, 3).unwrap(), ">s1\nACG\nTAC\nG\n>s2 d");
    assert_eq!(fasta_text(&vec![rec("x", "", "ACGTAC")], 3).unwrap(), ">x\nACG\nTAC");
}

#[test]
fn write_bad_width() {
    let rs = vec![rec("s1", "", "AC")];
    assert_eq!(fasta_text(&rs, 0), Err(FastaError::InvalidLineWidth));
    assert_eq!(fasta_text(&rs, -2), Err(FastaError::InvalidLineWidth));
}

#[test]
fn write_then_read() {
    let rs = vec![rec("s1", "a b", "ACGTACGTA"), rec("s2", "c", "GGT")];
    assert_eq!(parse_fasta(&fasta_text(&rs, 4).unwrap()), rs);
}

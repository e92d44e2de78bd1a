use blockcodec::{pairwise_to_blocks, Block, BlockError};

fn b(start: i32, stop: i32) -> Block {
    Block::new(start, stop)
}

#[test]
fn align_without_gaps() {
    assert_eq!(pairwise_to_blocks("ACGT", "ACGT", '-').unwrap(), vec![b(0, 4)]);
}

#[test]
fn align_with_insertion() {
    assert_eq!(
        pairwise_to_blocks("AC-GT", "ACXGT", '-').unwrap(),
        vec![b(0, 2), b(-1, -2), b(2, 4)]
    );
}

#[test]
fn align_with_deletion() {
    assert_eq!(pairwise_to_blocks("ACGT", "A-GT", '-').unwrap(), vec![b(0, 1), b(2, 4)]);
}

#[test]
fn align_leading_and_trailing_insertions() {
    assert_eq!(
        pairwise_to_blocks("--AC--", "XYAC-Z", '-').unwrap(),
        vec![b(-1, -3), b(0, 2), b(-1, -2)]
    );
}

#[test]
fn align_empty_columns_and_other_gap_symbol() {
    assert_eq!(pairwise_to_blocks("A.CG", "A.C.", '.').unwrap(), vec![b(0, 1), b(1, 2)]);
    assert_eq!(pairwise_to_blocks("", "", '-').unwrap(), vec![]);
}

#[test]
fn align_length_mismatch() {
    assert_eq!(pairwise_to_blocks("ACG", "AC", '-'), Err(BlockError::LengthMismatch));
}

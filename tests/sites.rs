use blockcodec::{remove_sites, Block, BlockError};

fn b(start: i32, stop: i32) -> Block {
    Block::new(start, stop)
}

#[test]
fn remove_nothing_keeps_inputs() {
    let blocks = vec![b(7, 9), b(100, 3)];
    let (s, out) = remove_sites("A-CG", blocks.clone(), vec![], '-').unwrap();
    assert_eq!(s, "A-CG");
    assert_eq!(out, blocks);
}

#[test]
fn remove_everything_gives_empty() {
    let (s, out) = remove_sites("A", vec![b(0, 1)], vec![0], '-').unwrap();
    assert_eq!(s, "");
    assert_eq!(out, vec![]);
}

#[test]
fn remove_splits_run() {
    let (s, out) = remove_sites("AC-GT", vec![b(0, 4)], vec![1], '-').unwrap();
    assert_eq!(s, "A-GT");
    assert_eq!(out, vec![b(0, 1), b(2, 4)]);
}

#[test]
fn remove_gap_joins_run() {
    let (s, out) = remove_sites("AC-GT", vec![b(0, 4)], vec![2], '-').unwrap();
    assert_eq!(s, "ACGT");
    assert_eq!(out, vec![b(0, 4)]);
}

#[test]
fn remove_reverse_positions() {
    let (s, out) = remove_sites("ACGT", vec![b(-1, -5)], vec![3, 0], '-').unwrap();
    assert_eq!(s, "CG");
    assert_eq!(out, vec![b(-2, -4)]);
}

#[test]
fn remove_out_of_range() {
    assert_eq!(
        remove_sites("ACGT", vec![b(0, 4)], vec![1, 4], '-'),
        Err(BlockError::IndexOutOfRange)
    );
}

#[test]
fn remove_with_mismatched_blocks() {
    assert_eq!(
        remove_sites("AC-GT", vec![b(0, 5)], vec![0], '-'),
        Err(BlockError::LengthMismatch)
    );
}

#[test]
fn remove_repeated_position_once() {
    let (s, out) = remove_sites("ACGT", vec![b(0, 4)], vec![2, 2, 0], '-').unwrap();
    assert_eq!(s, "CT");
    assert_eq!(out, vec![b(1, 2), b(3, 4)]);
}

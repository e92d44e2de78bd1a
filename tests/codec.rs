use blockcodec::{array_to_blocks, blocks_to_array, option_array_to_blocks, Block, BlockError};

fn b(start: i32, stop: i32) -> Block {
    Block::new(start, stop)
}

#[test]
fn encode_switches_direction() {
    let blocks = array_to_blocks(vec![0, 1, 2, -1, -2]).unwrap();
    assert_eq!(blocks, vec![b(0, 3), b(-1, -3)]);
}

#[test]
fn encode_breaks_on_jump() {
    let blocks = array_to_blocks(vec![3, 4, 5, 10, 11, -3, -4, -6, 7]).unwrap();
    assert_eq!(blocks, vec![b(3, 6), b(10, 12), b(-3, -5), b(-6, -7), b(7, 8)]);
}

#[test]
fn encode_single_and_repeats() {
    assert_eq!(array_to_blocks(vec![4]).unwrap(), vec![b(4, 5)]);
    assert_eq!(array_to_blocks(vec![3, 3]).unwrap(), vec![b(3, 4), b(3, 4)]);
    assert_eq!(array_to_blocks(vec![-1]).unwrap(), vec![b(-1, -2)]);
}

#[test]
fn encode_empty_fails() {
    assert_eq!(array_to_blocks(vec![]), Err(BlockError::EmptyInput));
}

#[test]
fn encode_unclosable_position_fails() {
    assert_eq!(array_to_blocks(vec![1, i32::MAX]), Err(BlockError::InvalidRange));
    assert_eq!(array_to_blocks(vec![i32::MIN]), Err(BlockError::InvalidRange));
}

#[test]
fn decode_both_directions() {
    assert_eq!(blocks_to_array(vec![b(0, 3), b(-1, -3)]), vec![0, 1, 2, -1, -2]);
    assert_eq!(blocks_to_array(vec![b(5, 2), b(7, 9)]), vec![5, 4, 3, 7, 8]);
    assert_eq!(blocks_to_array(vec![]), Vec::<i32>::new());
}

#[test]
fn decode_after_encode_gives_positions() {
    let p = vec![3, 4, 5, 10, -3, -4, 7, 7, 0, -1];
    let blocks = array_to_blocks(p.clone()).unwrap();
    assert_eq!(blocks_to_array(blocks), p);
}

#[test]
fn encode_after_decode_keeps_blocks() {
    let blocks = array_to_blocks(vec![0, 1, 2, 8, -5, -6, -7, 2]).unwrap();
    let again = array_to_blocks(blocks_to_array(blocks.clone())).unwrap();
    assert_eq!(again, blocks);
}

#[test]
fn check_new_validates() {
    assert_eq!(Block::check_new(3, 3), Err(BlockError::InvalidRange));
    assert_eq!(Block::check_new(5, 2), Err(BlockError::InvalidRange));
    assert_eq!(Block::check_new(-1, 3), Err(BlockError::InvalidRange));
    assert_eq!(Block::check_new(0, 5), Ok(b(0, 5)));
    assert_eq!(Block::check_new(-1, -4), Ok(b(-1, -4)));
}

#[test]
fn sparse_gap_breaks_run() {
    let blocks = option_array_to_blocks(vec![Some(0), Some(1), None, Some(2), Some(3)]).unwrap();
    assert_eq!(blocks, vec![b(0, 2), b(2, 4)]);
}

#[test]
fn sparse_leading_and_trailing_gaps() {
    let blocks = option_array_to_blocks(vec![None, Some(5), Some(6), None, None]).unwrap();
    assert_eq!(blocks, vec![b(5, 7)]);
    let blocks = option_array_to_blocks(vec![Some(-2), Some(-3), Some(4)]).unwrap();
    assert_eq!(blocks, vec![b(-2, -4), b(4, 5)]);
}

#[test]
fn sparse_all_absent_and_empty() {
    assert_eq!(option_array_to_blocks(vec![None, None]).unwrap(), vec![]);
    assert_eq!(option_array_to_blocks(vec![]), Err(BlockError::EmptyInput));
    assert_eq!(option_array_to_blocks(vec![Some(i32::MAX)]), Err(BlockError::InvalidRange));
}

#[test]
fn sparse_decodes_to_present_positions() {
    let p = vec![None, Some(1), Some(2), None, Some(9), Some(-4), None];
    let blocks = option_array_to_blocks(p).unwrap();
    assert_eq!(blocks_to_array(blocks), vec![1, 2, 9, -4]);
}

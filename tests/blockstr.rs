use blockcodec::{from_block_str, to_block_str, Block, BlockError};

fn b(start: i32, stop: i32) -> Block {
    Block::new(start, stop)
}

#[test]
fn format_blocks() {
    assert_eq!(to_block_str(&vec![b(0, 5), b(-1, -4)]), "0:5;-1:-4");
    assert_eq!(to_block_str(&vec![]), "");
    assert_eq!(to_block_str(&vec![b(-5, i32::MIN)]), "-5:-2147483648");
}

#[test]
fn parse_blocks() {
    assert_eq!(
        from_block_str("0:5;-1:-4;10:20").unwrap(),
        vec![b(0, 5), b(-1, -4), b(10, 20)]
    );
    assert_eq!(from_block_str("+3:007").unwrap(), vec![b(3, 7)]);
}

#[test]
fn parse_after_format() {
    let blocks = vec![b(0, 5), b(-1, -4), b(2147483646, 2147483647), b(-5, i32::MIN)];
    assert_eq!(from_block_str(&to_block_str(&blocks)).unwrap(), blocks);
}

#[test]
fn parse_errors() {
    assert_eq!(from_block_str("0-5"), Err(BlockError::SeparatorNotFound));
    assert_eq!(from_block_str(""), Err(BlockError::SeparatorNotFound));
    assert_eq!(from_block_str("0:5;"), Err(BlockError::SeparatorNotFound));
    assert_eq!(from_block_str("a:5"), Err(BlockError::ParseError));
    assert_eq!(from_block_str("0:"), Err(BlockError::ParseError));
    assert_eq!(from_block_str("0:2147483648"), Err(BlockError::ParseError));
    assert_eq!(from_block_str(" 0:5"), Err(BlockError::ParseError));
    assert_eq!(from_block_str("3:3"), Err(BlockError::InvalidRange));
    assert_eq!(from_block_str("1:2;5:0;x"), Err(BlockError::InvalidRange));
}

//! Run-length interval ("block") encoding of signed position sequences, with
//! derivation of blocks from pairwise alignments and site removal.

pub mod block;
pub mod codec;
pub mod sparse;
mod chars;
pub mod align;
pub mod sites;
pub mod blockstr;
pub mod fasta;

pub use block::{Block, BlockError};
pub use codec::{array_to_blocks, blocks_to_array};
pub use sparse::option_array_to_blocks;
pub use align::pairwise_to_blocks;
pub use sites::remove_sites;
pub use blockstr::{from_block_str, to_block_str};
pub use fasta::{fasta_text, parse_fasta, FastaError, SeqRecord};

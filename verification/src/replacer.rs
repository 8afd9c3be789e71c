use vstd::prelude::*;
use vstd::string::*;
use crate::matching::{replace_all, replace_bytes};
use crate::stream::concat_chunks;

verus! {

/// How a file's content is read and replaced.
#[derive(Debug, Clone, Copy, PartialEq, Eq, Structural)]
pub enum ReplaceStrategy {
    /// Read at once and replaced as a whole.
    Directly,
    /// Read and replaced chunk by chunk.
    Streaming,
}

/// Files larger than the threshold are streamed; the others are read at once.
pub fn choose_strategy(file_size: u64, threshold: u64) -> (s: ReplaceStrategy)
    ensures
        s == (if file_size > threshold {
            ReplaceStrategy::Streaming
        } else {
            ReplaceStrategy::Directly
        }),
{
    if file_size > threshold {
        ReplaceStrategy::Streaming
    } else {
        ReplaceStrategy::Directly
    }
}

/// The new content of a file that is read at once: every match of `from`
/// replaced by `to`, all other bytes kept as they are.
pub fn replace_content_directly(content: &[u8], from: &str, to: &str) -> (res: Vec<u8>)
    ensures
        res@ == replace_all(content@, from.spec_bytes(), to.spec_bytes()),
{
    replace_bytes(content, from.as_bytes(), to.as_bytes())
}

/// Whichever way a file is read, at once or in chunks cut anywhere, its new
/// content is the same: the threshold and the buffer size choose the way,
/// never the result.
pub proof fn law_strategies_agree(content: Seq<u8>, chunks: Seq<Vec<u8>>, from: &str, to: &str)
    requires
        concat_chunks(chunks) == content,
    ensures
        replace_all(content, from.spec_bytes(), to.spec_bytes()) == replace_all(
            concat_chunks(chunks),
            from.spec_bytes(),
            to.spec_bytes(),
        ),
{
}

} // verus!

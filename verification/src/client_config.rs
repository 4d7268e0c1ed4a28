//! The client's settings that have rules: the render range.

use vstd::prelude::*;

verus! {

/// The render range, in chunks, that a client starts with.
pub const DEFAULT_RENDER_RANGE_CHUNKS: u16 = 16;

/// A render range that is more than 4 and at most 256 chunks is kept; any other is reset to
/// the default.
pub fn validated_render_range(render_range_chunks: u16) -> (r: u16)
    ensures
        r == if 4 < render_range_chunks <= 256 {
            render_range_chunks
        } else {
            DEFAULT_RENDER_RANGE_CHUNKS
        },
{
    if render_range_chunks <= 4 || render_range_chunks > 256 {
        DEFAULT_RENDER_RANGE_CHUNKS
    } else {
        render_range_chunks
    }
}

} // verus!

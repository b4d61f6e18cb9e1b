//! What the embedding model is fed: the token ids of a note, cut to the
//! model's window, with their attention mask and segment ids.
use vstd::prelude::*;

use crate::index::min_len;

verus! {

/// The most tokens the model reads of one note.
pub const MAX_TOKENS: usize = 256;

/// The ids, mask and segment ids for a tokenised note: the first
/// `min(MAX_TOKENS, ids.len())` token ids and mask values, and as many zero
/// segment ids.
pub fn model_inputs(ids: &[u32], mask: &[u32]) -> (r: (Vec<u32>, Vec<u32>, Vec<u32>))
    requires
        mask@.len() >= min_len(MAX_TOKENS as int, ids@.len() as int),
    ensures
        r.0@ == ids@.take(min_len(MAX_TOKENS as int, ids@.len() as int)),
        r.1@ == mask@.take(min_len(MAX_TOKENS as int, ids@.len() as int)),
        r.2@ == Seq::new(min_len(MAX_TOKENS as int, ids@.len() as int) as nat, |i: int| 0u32),
{
    let len = if ids.len() < MAX_TOKENS {
        ids.len()
    } else {
        MAX_TOKENS
    };
    let mut input_ids: Vec<u32> = Vec::new();
    let mut attention: Vec<u32> = Vec::new();
    let mut segments: Vec<u32> = Vec::new();
    let mut i: usize = 0;
    while i < len
        invariant
            len == min_len(MAX_TOKENS as int, ids@.len() as int),
            len <= ids@.len(),
            len <= mask@.len(),
            i <= len,
            input_ids@ == ids@.take(i as int),
            attention@ == mask@.take(i as int),
            segments@ == Seq::new(i as nat, |j: int| 0u32),
        decreases len - i,
    {
        input_ids.push(ids[i]);
        attention.push(mask[i]);
        segments.push(0);
        assert(input_ids@ == ids@.take(i + 1));
        assert(attention@ == mask@.take(i + 1));
        assert(segments@ == Seq::new((i + 1) as nat, |j: int| 0u32));
        i = i + 1;
    }
    (input_ids, attention, segments)
}

} // verus!

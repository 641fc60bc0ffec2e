//! What holds of every read: a buffer cut short is never read as if whole,
//! and no tree comes out deeper than lists may nest.

use vstd::prelude::*;
use crate::error::DecodeError;
use crate::item::Tree;
use crate::reader::{spec_header, spec_item, spec_items};

verus! {

/// Where a buffer is cut inside the payload that an item's header states,
/// reading that item reports truncated input at the item's control byte.
pub proof fn lemma_truncation_detected(b: Seq<u8>, pos: int, keep: int, depth: nat)
    requires
        0 <= pos <= keep <= b.len() <= usize::MAX,
        spec_header(b, pos, b.len() as int) matches Ok(h) && h.start <= keep < h.start + h.len,
    ensures
        spec_item(b.subrange(0, keep), pos, keep, depth) == Err::<(Tree, int), DecodeError>(
            DecodeError::TruncatedInput { offset: pos as usize },
        ),
{
    let cut = b.subrange(0, keep);
    if pos < keep {
        assert(cut[pos] == b[pos]);
        let c = b[pos];
        if c >= 0xb8 && (c <= 0xbf || c >= 0xf8) {
            let n: int = if c <= 0xbf { c - 0xb7 } else { c - 0xf7 };
            assert(cut.subrange(pos + 1, pos + 1 + n) =~= b.subrange(pos + 1, pos + 1 + n));
            assert(cut[pos + 1] == b[pos + 1]);
        }
    }
}

/// A whole item less its last byte is reported as truncated input.
pub proof fn lemma_last_byte_missed(b: Seq<u8>, depth: nat)
    requires
        b.len() <= usize::MAX,
        spec_item(b, 0, b.len() as int, depth) matches Ok((_, next)) && next == b.len(),
    ensures
        spec_item(b.drop_last(), 0, b.len() - 1, depth) == Err::<(Tree, int), DecodeError>(
            DecodeError::TruncatedInput { offset: 0 },
        ),
{
    crate::reader::lemma_header_bounds(b, 0, b.len() as int);
    assert(b.drop_last() =~= b.subrange(0, b.len() - 1));
    if b.len() > 1 {
        lemma_truncation_detected(b, 0, b.len() - 1, depth);
    }
}

/// A tree that was read is no deeper than lists were allowed to nest.
pub proof fn lemma_read_depth(b: Seq<u8>, pos: int, end: int, depth: nat)
    requires
        spec_item(b, pos, end, depth) is Ok,
    ensures
        spec_item(b, pos, end, depth)->Ok_0.0.depth() <= depth,
    decreases depth, end - pos, 0int,
{
    let h = spec_header(b, pos, end)->Ok_0;
    if h.list {
        lemma_read_items_depth(b, h.start as int, h.start + h.len, (depth - 1) as nat);
    }
}

/// Trees that were read one after another are no deeper than lists were
/// allowed to nest.
pub proof fn lemma_read_items_depth(b: Seq<u8>, pos: int, end: int, depth: nat)
    requires
        spec_items(b, pos, end, depth) is Ok,
    ensures
        Tree::max_depth(spec_items(b, pos, end, depth)->Ok_0) <= depth,
    decreases depth, end - pos, 1int,
{
    if pos < end {
        lemma_read_depth(b, pos, end, depth);
        let (first, next) = spec_item(b, pos, end, depth)->Ok_0;
        let items = spec_items(b, pos, end, depth)->Ok_0;
        if pos < next <= end {
            lemma_read_items_depth(b, next, end, depth);
            let rest = spec_items(b, next, end, depth)->Ok_0;
            assert(items.drop_first() =~= rest);
        } else {
            assert(items.drop_first() =~= Seq::<Tree>::empty());
            assert(Tree::max_depth(items.drop_first()) == 0);
        }
        assert(items.len() > 0);
        assert(items[0] == first);
    }
}

} // verus!

//! Reading and encoding undo each other.

use vstd::prelude::*;
use crate::encode::{be_bytes, encode, encode_all, prefix};
use crate::error::DecodeError;
use crate::item::Tree;
use crate::reader::{
    be_value, lemma_be_value_bound, lemma_header_bounds, pow256, spec_header, spec_item,
    spec_items, Header,
};

verus! {

/// The number that the bytes of `n` write is `n`.
pub proof fn lemma_value_of_bytes(n: nat)
    ensures
        be_value(be_bytes(n)) == n,
    decreases n,
{
    if n > 0 {
        lemma_value_of_bytes(n / 256);
        assert(be_bytes(n).drop_last() =~= be_bytes(n / 256));
    }
}

/// The bytes of a number other than zero do not start with zero.
pub proof fn lemma_bytes_start_nonzero(n: nat)
    requires
        n > 0,
    ensures
        be_bytes(n).len() > 0,
        be_bytes(n)[0] != 0,
    decreases n,
{
    if n / 256 > 0 {
        lemma_bytes_start_nonzero(n / 256);
    } else {
        assert(be_bytes(n / 256) =~= Seq::<u8>::empty());
    }
}

/// A number below 256 to the `k` is written in at most `k` bytes.
pub proof fn lemma_bytes_len(n: nat, k: nat)
    requires
        n < pow256(k),
    ensures
        be_bytes(n).len() <= k,
    decreases n,
{
    if n > 0 {
        if k == 0 {
            assert(pow256(0) == 1);
        } else {
            lemma_bytes_len(n / 256, (k - 1) as nat);
        }
    }
}

/// Bytes that start with a byte other than zero write a number other than
/// zero.
pub proof fn lemma_value_positive(bytes: Seq<u8>)
    requires
        bytes.len() > 0,
        bytes[0] != 0,
    ensures
        be_value(bytes) > 0,
    decreases bytes.len(),
{
    if bytes.len() > 1 {
        lemma_value_positive(bytes.drop_last());
    } else {
        assert(bytes.drop_last() =~= Seq::<u8>::empty());
        assert(be_value(bytes.drop_last()) == 0);
    }
}

/// Bytes without a leading zero are the bytes of the number they write.
pub proof fn lemma_bytes_of_value(bytes: Seq<u8>)
    requires
        bytes.len() > 0 ==> bytes[0] != 0,
    ensures
        be_bytes(be_value(bytes)) == bytes,
    decreases bytes.len(),
{
    if bytes.len() == 0 {
    } else {
        let front = bytes.drop_last();
        let v = be_value(bytes);
        if front.len() > 0 {
            assert(front[0] == bytes[0]);
        }
        lemma_bytes_of_value(front);
        assert(v / 256 == be_value(front));
        assert(v % 256 == bytes.last());
        lemma_value_positive(bytes);
        assert(be_bytes(v) == be_bytes(v / 256).push((v % 256) as u8));
        assert(front.push(bytes.last()) =~= bytes);
    }
}

/// The encodings of a first item and of those after it, joined, are the
/// encodings of them all.
pub proof fn lemma_encode_all_front(first: Tree, rest: Seq<Tree>)
    ensures
        encode_all(seq![first] + rest) == encode(first) + encode_all(rest),
    decreases rest.len(),
{
    let all = seq![first] + rest;
    if rest.len() == 0 {
        assert(all.drop_last() =~= Seq::<Tree>::empty());
        assert(all.last() == first);
        assert(encode_all(all.drop_last()) =~= Seq::<u8>::empty());
        assert(encode_all(all) =~= encode(first) + encode_all(rest));
    } else {
        assert(all.drop_last() =~= seq![first] + rest.drop_last());
        assert(all.last() == rest.last());
        lemma_encode_all_front(first, rest.drop_last());
        assert(encode_all(all) =~= encode(first) + encode_all(rest));
    }
}

/// The bytes from an item's control byte up to its payload are the length
/// prefix of that payload, unless the control byte is itself the payload.
pub proof fn lemma_header_is_prefix(b: Seq<u8>, pos: int, end: int)
    requires
        0 <= pos <= end <= b.len() <= usize::MAX,
        spec_header(b, pos, end) is Ok,
    ensures
        ({
            let h = spec_header(b, pos, end)->Ok_0;
            if b[pos] < 0x80 {
                !h.list && h.start == pos && h.len == 1
            } else {
                b.subrange(pos, h.start as int) == prefix(
                    if h.list { 0xc0u8 } else { 0x80u8 },
                    h.len as nat,
                ) && (!h.list && h.len == 1 ==> b[pos + 1] >= 0x80)
            }
        }),
{
    let h = spec_header(b, pos, end)->Ok_0;
    let c = b[pos];
    if c < 0x80 {
    } else if c <= 0xb7 || (0xc0 <= c <= 0xf7) {
        assert(b.subrange(pos, h.start as int) =~= seq![c]);
    } else {
        let n: int = if c <= 0xbf { c - 0xb7 } else { c - 0xf7 };
        let field = b.subrange(pos + 1, pos + 1 + n);
        assert(field[0] == b[pos + 1]);
        lemma_bytes_of_value(field);
        assert(b.subrange(pos, h.start as int) =~= seq![c] + field);
    }
}

/// An item that was read is read from its own encoding: the bytes from its
/// control byte to its end are the shortest encoding of its tree.
pub proof fn lemma_read_is_encoding(b: Seq<u8>, pos: int, end: int, depth: nat)
    requires
        0 <= pos <= end <= b.len() <= usize::MAX,
        spec_item(b, pos, end, depth) is Ok,
    ensures
        ({
            let (tree, next) = spec_item(b, pos, end, depth)->Ok_0;
            pos < next <= end && encode(tree) == b.subrange(pos, next)
        }),
    decreases depth, end - pos, 0int,
{
    let h = spec_header(b, pos, end)->Ok_0;
    let (tree, next) = spec_item(b, pos, end, depth)->Ok_0;
    lemma_header_bounds(b, pos, end);
    lemma_header_is_prefix(b, pos, end);
    let payload = b.subrange(h.start as int, next);
    if h.list {
        lemma_items_are_encodings(b, h.start as int, next, (depth - 1) as nat);
    }
    if b[pos] >= 0x80 {
        assert(b.subrange(pos, next) =~= b.subrange(pos, h.start as int) + payload);
    }
}

/// Items that were read one after another are read from their encodings,
/// one after another.
pub proof fn lemma_items_are_encodings(b: Seq<u8>, pos: int, end: int, depth: nat)
    requires
        0 <= pos <= end <= b.len() <= usize::MAX,
        spec_items(b, pos, end, depth) is Ok,
    ensures
        encode_all(spec_items(b, pos, end, depth)->Ok_0) == b.subrange(pos, end),
    decreases depth, end - pos, 1int,
{
    if pos >= end {
        assert(b.subrange(pos, end) =~= Seq::<u8>::empty());
    } else {
        lemma_read_is_encoding(b, pos, end, depth);
        let (first, next) = spec_item(b, pos, end, depth)->Ok_0;
        lemma_items_are_encodings(b, next, end, depth);
        let rest = spec_items(b, next, end, depth)->Ok_0;
        lemma_encode_all_front(first, rest);
        assert(b.subrange(pos, end) =~= b.subrange(pos, next) + b.subrange(next, end));
    }
}

/// The length prefix of a payload that fits in memory is read back as the
/// header of that payload.
pub proof fn lemma_prefix_is_header(b: Seq<u8>, pos: int, end: int, list: bool, len: nat)
    requires
        0 <= pos,
        end <= b.len() <= usize::MAX,
        ({
            let p = prefix(if list { 0xc0u8 } else { 0x80u8 }, len);
            &&& pos + p.len() + len <= end
            &&& b.subrange(pos, pos + p.len()) == p
            &&& !list && len == 1 ==> b[pos + p.len()] >= 0x80
        }),
    ensures
        ({
            let p = prefix(if list { 0xc0u8 } else { 0x80u8 }, len);
            spec_header(b, pos, end) == Ok::<Header, DecodeError>(
                Header { list, start: (pos + p.len()) as usize, len: len as usize },
            )
        }),
{
    let base = if list { 0xc0u8 } else { 0x80u8 };
    let p = prefix(base, len);
    assert(b[pos] == b.subrange(pos, pos + p.len())[0]);
    if len >= 56 {
        let digits = be_bytes(len);
        assert(pow256(8) == 0x1_0000_0000_0000_0000) by {
            reveal_with_fuel(pow256, 9);
        }
        lemma_bytes_len(len, 8);
        lemma_bytes_start_nonzero(len);
        lemma_value_of_bytes(len);
        assert(b.subrange(pos + 1, pos + 1 + digits.len()) =~= digits) by {
            assert forall|i: int| 0 <= i < digits.len() implies b[pos + 1 + i] == digits[i] by {
                assert(b[pos + 1 + i] == b.subrange(pos, pos + p.len())[1 + i]);
            }
        }
        assert(b[pos + 1] == b.subrange(pos, pos + p.len())[1]);
    }
}

/// The shortest encoding of a tree, wherever it stands in a buffer with
/// room for it, is read as that tree and nothing after it, if lists may nest
/// as deep as the tree is.
pub proof fn lemma_encoding_is_read(b: Seq<u8>, pos: int, end: int, tree: Tree, depth: nat)
    requires
        0 <= pos,
        pos + encode(tree).len() <= end <= b.len() <= usize::MAX,
        b.subrange(pos, pos + encode(tree).len()) == encode(tree),
        tree.depth() <= depth,
    ensures
        spec_item(b, pos, end, depth) == Ok::<(Tree, int), DecodeError>(
            (tree, pos + encode(tree).len()),
        ),
        encode(tree).len() > 0,
    decreases tree,
{
    let code = encode(tree);
    let next = pos + code.len();
    match tree {
        Tree::Scalar(bytes) => {
            if bytes.len() == 1 && bytes[0] < 0x80 {
                assert(b[pos] == b.subrange(pos, next)[0]);
                assert(b.subrange(pos, pos + 1) =~= bytes);
            } else {
                let p = prefix(0x80u8, bytes.len());
                assert(b.subrange(pos, pos + p.len()) =~= p) by {
                    assert forall|i: int| 0 <= i < p.len() implies b[pos + i] == p[i] by {
                        assert(b[pos + i] == b.subrange(pos, next)[i]);
                    }
                }
                if bytes.len() == 1 {
                    assert(b[pos + p.len()] == b.subrange(pos, next)[p.len() as int]);
                }
                lemma_prefix_is_header(b, pos, end, false, bytes.len());
                assert(b.subrange(pos + p.len(), next) =~= bytes) by {
                    assert forall|i: int| 0 <= i < bytes.len() implies b[pos + p.len() + i]
                        == bytes[i] by {
                        assert(b[pos + p.len() + i] == b.subrange(pos, next)[p.len() + i]);
                    }
                }
            }
        },
        Tree::List(items) => {
            let payload = encode_all(items);
            let p = prefix(0xc0u8, payload.len());
            assert(b.subrange(pos, pos + p.len()) =~= p) by {
                assert forall|i: int| 0 <= i < p.len() implies b[pos + i] == p[i] by {
                    assert(b[pos + i] == b.subrange(pos, next)[i]);
                }
            }
            lemma_prefix_is_header(b, pos, end, true, payload.len());
            assert(b.subrange(pos + p.len(), next) =~= payload) by {
                assert forall|i: int| 0 <= i < payload.len() implies b[pos + p.len() + i]
                    == payload[i] by {
                    assert(b[pos + p.len() + i] == b.subrange(pos, next)[p.len() + i]);
                }
            }
            lemma_encodings_are_read(b, pos + p.len(), next, items, (depth - 1) as nat);
        },
    }
}

/// The encodings of trees, one after another and filling a stretch of a
/// buffer, are read as those trees.
pub proof fn lemma_encodings_are_read(b: Seq<u8>, pos: int, end: int, items: Seq<Tree>, depth: nat)
    requires
        0 <= pos <= end <= b.len() <= usize::MAX,
        b.subrange(pos, end) == encode_all(items),
        Tree::max_depth(items) <= depth,
    ensures
        spec_items(b, pos, end, depth) == Ok::<Seq<Tree>, DecodeError>(items),
    decreases items, items.len(),
{
    if items.len() == 0 {
        assert(b.subrange(pos, end).len() == 0);
        assert(items =~= Seq::<Tree>::empty());
    } else {
        let first = items[0];
        let rest = items.drop_first();
        assert(items =~= seq![first] + rest);
        lemma_encode_all_front(first, rest);
        let code = encode(first);
        let next = pos + code.len();
        assert(b.subrange(pos, end).len() == code.len() + encode_all(rest).len());
        assert(b.subrange(pos, next) =~= code) by {
            assert forall|i: int| 0 <= i < code.len() implies b[pos + i] == code[i] by {
                assert(b[pos + i] == b.subrange(pos, end)[i]);
            }
        }
        assert(b.subrange(next, end) =~= encode_all(rest)) by {
            assert forall|i: int| 0 <= i < end - next implies b[next + i] == encode_all(rest)[i] by {
                assert(b[next + i] == b.subrange(pos, end)[code.len() + i]);
            }
        }
        lemma_encoding_is_read(b, pos, end, first, depth);
        lemma_encodings_are_read(b, next, end, rest, depth);
    }
}

} // verus!

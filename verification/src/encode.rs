//! The shortest encoding of an item: the bytes that the reader reads it from.

use vstd::prelude::*;
use crate::item::{Item, Tree, trees_of};
use crate::reader::pow256;

verus! {

/// The bytes that write `n` most significant first, without leading zeros.
pub open spec fn be_bytes(n: nat) -> Seq<u8>
    decreases n,
{
    if n == 0 {
        Seq::empty()
    } else {
        be_bytes(n / 256).push((n % 256) as u8)
    }
}

/// The length prefix of a payload of `len` bytes; `base` is `0x80` for a
/// scalar and `0xc0` for a list.
pub open spec fn prefix(base: u8, len: nat) -> Seq<u8> {
    if len < 56 {
        seq![(base + len) as u8]
    } else {
        seq![(base + 55 + be_bytes(len).len()) as u8] + be_bytes(len)
    }
}

/// The encoding of a tree.
pub open spec fn encode(tree: Tree) -> Seq<u8>
    decreases tree,
{
    match tree {
        Tree::Scalar(bytes) => if bytes.len() == 1 && bytes[0] < 0x80 {
            bytes
        } else {
            prefix(0x80, bytes.len()) + bytes
        },
        Tree::List(items) => prefix(0xc0, encode_all(items).len()) + encode_all(items),
    }
}

/// The encodings of `items`, one after another.
pub open spec fn encode_all(items: Seq<Tree>) -> Seq<u8>
    decreases items, items.len(),
{
    if items.len() == 0 {
        Seq::empty()
    } else {
        encode_all(items.drop_last()) + encode(items.last())
    }
}

/// Writes the length prefix of a payload of `len` bytes.
fn write_prefix(base: u8, len: usize) -> (out: Vec<u8>)
    requires
        base == 0x80 || base == 0xc0,
    ensures
        out@ == prefix(base, len as nat),
{
    let mut out: Vec<u8> = Vec::new();
    if len < 56 {
        out.push(base + len as u8);
        return out;
    }
    let mut rest: u64 = len as u64;
    proof {
        reveal_with_fuel(pow256, 9);
    }
    while rest > 0
        invariant
            out@.len() <= 8,
            rest < pow256((8 - out@.len()) as nat),
            be_bytes(len as nat) == be_bytes(rest as nat) + out@,
        decreases rest,
    {
        proof {
            let k = out@.len();
            if k == 8 {
                assert(pow256(0) == 1) by {
                    reveal_with_fuel(pow256, 1);
                }
            } else {
                assert(pow256((8 - k) as nat) == 256 * pow256((8 - k - 1) as nat)) by {
                    reveal_with_fuel(pow256, 2);
                }
            }
            assert(be_bytes(rest as nat) + out@ =~= be_bytes(rest as nat / 256) + out@.insert(
                0,
                (rest % 256) as u8,
            ));
        }
        out.insert(0, (rest % 256) as u8);
        rest = rest / 256;
    }
    assert(be_bytes(0) + out@ =~= out@);
    let n: usize = out.len();
    out.insert(0, base + 55 + n as u8);
    assert(out@ =~= seq![(base + 55 + n) as u8] + be_bytes(len as nat));
    out
}

/// Appends `more` to `out`.
fn append_bytes(out: &mut Vec<u8>, more: &Vec<u8>)
    ensures
        final(out)@ == old(out)@ + more@,
{
    let ghost before = out@;
    let mut i: usize = 0;
    while i < more.len()
        invariant
            i <= more@.len(),
            out@ == before + more@.subrange(0, i as int),
        decreases more@.len() - i,
    {
        out.push(more[i]);
        i += 1;
        assert(out@ =~= before + more@.subrange(0, i as int));
    }
    assert(more@.subrange(0, more@.len() as int) =~= more@);
}

/// Encodes an item in the shortest form.
#[verifier::loop_isolation(false)]
pub fn encode_item(item: &Item) -> (out: Vec<u8>)
    ensures
        out@ == encode(item@),
    decreases item,
{
    match item {
        Item::Scalar(bytes) => {
            if bytes.len() == 1 && bytes[0] < 0x80 {
                let mut out: Vec<u8> = Vec::new();
                out.push(bytes[0]);
                assert(out@ =~= bytes@);
                out
            } else {
                let mut out = write_prefix(0x80, bytes.len());
                append_bytes(&mut out, bytes);
                out
            }
        },
        Item::List(items) => {
            let mut payload: Vec<u8> = Vec::new();
            let mut i: usize = 0;
            while i < items.len()
                invariant
                    i <= items@.len(),
                    payload@ == encode_all(trees_of(items@).subrange(0, i as int)),
                decreases items@.len() - i,
            {
                let one = encode_item(&items[i]);
                append_bytes(&mut payload, &one);
                i += 1;
                proof {
                    let now = trees_of(items@).subrange(0, i as int);
                    assert(now.drop_last() =~= trees_of(items@).subrange(0, i - 1));
                }
            }
            assert(trees_of(items@).subrange(0, items@.len() as int) =~= trees_of(items@));
            assert(item@->List_0 =~= trees_of(items@));
            let mut out = write_prefix(0xc0, payload.len());
            append_bytes(&mut out, &payload);
            out
        },
    }
}

} // verus!

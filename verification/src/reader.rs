//! Reading one length-prefixed item, with everything nested in it, from bytes.
//!
//! A control byte says what follows. Below `0x80` the byte is itself a
//! one-byte scalar. `0x80..=0xb7` starts a scalar of up to 55 bytes and
//! `0xc0..=0xf7` a list whose payload is up to 55 bytes long, the length being
//! the control byte less the first of its range. `0xb8..=0xbf` and
//! `0xf8..=0xff` start a scalar or a list whose length is written big-endian
//! in the one to eight bytes that follow the control byte. Only the shortest
//! form of a length is accepted.

use vstd::prelude::*;
use vstd::slice::{slice_subrange, slice_to_vec};
use crate::error::DecodeError;
use crate::item::{Item, Tree, trees_of};

verus! {

/// Deepest nesting of lists that [`read_item`] follows.
pub const MAX_NESTING: usize = 128;

/// The number that `bytes` write, most significant byte first.
pub open spec fn be_value(bytes: Seq<u8>) -> nat
    decreases bytes.len(),
{
    if bytes.len() == 0 {
        0
    } else {
        be_value(bytes.drop_last()) * 256 + bytes.last() as nat
    }
}

/// 256 to the power `n`.
pub open spec fn pow256(n: nat) -> nat
    decreases n,
{
    if n == 0 {
        1
    } else {
        256 * pow256((n - 1) as nat)
    }
}

/// A number written in `n` bytes is below 256 to the `n`.
pub proof fn lemma_be_value_bound(bytes: Seq<u8>)
    ensures
        be_value(bytes) < pow256(bytes.len()),
    decreases bytes.len(),
{
    if bytes.len() > 0 {
        lemma_be_value_bound(bytes.drop_last());
    }
}

/// Where an item's payload lies and what kind of item it is.
pub struct Header {
    /// Whether the item is a list.
    pub list: bool,
    /// Index of the first payload byte.
    pub start: usize,
    /// Number of payload bytes.
    pub len: usize,
}

/// The header of the item whose control byte is `b[pos]`, for an item that
/// has to end at or before `end`.
pub open spec fn spec_header(b: Seq<u8>, pos: int, end: int) -> Result<Header, DecodeError> {
    if pos >= end {
        Err(DecodeError::TruncatedInput { offset: pos as usize })
    } else {
        let c = b[pos];
        if c < 0x80 {
            Ok(Header { list: false, start: pos as usize, len: 1 })
        } else if c <= 0xb7 {
            short_form(b, pos, end, false, c - 0x80)
        } else if c <= 0xbf {
            long_form(b, pos, end, false, c - 0xb7)
        } else if c <= 0xf7 {
            short_form(b, pos, end, true, c - 0xc0)
        } else {
            long_form(b, pos, end, true, c - 0xf7)
        }
    }
}

/// Header of an item whose control byte states the payload length `len`.
pub open spec fn short_form(b: Seq<u8>, pos: int, end: int, list: bool, len: int) -> Result<
    Header,
    DecodeError,
> {
    if pos + 1 + len > end {
        Err(DecodeError::TruncatedInput { offset: pos as usize })
    } else if !list && len == 1 && b[pos + 1] < 0x80 {
        Err(DecodeError::InvalidLengthEncoding { offset: pos as usize })
    } else {
        Ok(Header { list, start: (pos + 1) as usize, len: len as usize })
    }
}

/// Header of an item whose payload length is written in the `n` bytes after
/// the control byte.
pub open spec fn long_form(b: Seq<u8>, pos: int, end: int, list: bool, n: int) -> Result<
    Header,
    DecodeError,
> {
    let len = be_value(b.subrange(pos + 1, pos + 1 + n));
    if pos + 1 + n > end || b[pos + 1] == 0 || len < 56 || len > usize::MAX {
        Err(DecodeError::InvalidLengthEncoding { offset: pos as usize })
    } else if pos + 1 + n + len > end {
        Err(DecodeError::TruncatedInput { offset: pos as usize })
    } else {
        Ok(Header { list, start: (pos + 1 + n) as usize, len: len as usize })
    }
}

/// Reads the number written in `bytes[from..from + n]`.
pub(crate) fn read_be(bytes: &[u8], from: usize, n: usize) -> (value: u64)
    requires
        n <= 8,
        from + n <= bytes@.len(),
    ensures
        value == be_value(bytes@.subrange(from as int, from + n)),
{
    let total: usize = bytes.len();
    let mut value: u64 = 0;
    let mut i: usize = 0;
    while i < n
        invariant
            i <= n <= 8,
            from + n <= bytes@.len() == total,
            value == be_value(bytes@.subrange(from as int, from + i)),
        decreases n - i,
    {
        proof {
            let done = bytes@.subrange(from as int, from + i);
            let next = bytes@.subrange(from as int, from + i + 1);
            assert(next.drop_last() == done);
            lemma_be_value_bound(done);
            reveal_with_fuel(pow256, 9);
            assert(pow256(i as nat) <= pow256(7)) by {
                reveal_with_fuel(pow256, 9);
            }
        }
        value = value * 256 + bytes[from + i] as u64;
        i += 1;
    }
    value
}

/// Reads the header of the item at `pos`.
pub fn read_header(bytes: &[u8], pos: usize, end: usize) -> (r: Result<Header, DecodeError>)
    requires
        pos <= end <= bytes@.len(),
    ensures
        r == spec_header(bytes@, pos as int, end as int),
{
    if pos >= end {
        return Err(DecodeError::TruncatedInput { offset: pos });
    }
    let c = bytes[pos];
    let room: usize = end - pos - 1;
    if c < 0x80 {
        Ok(Header { list: false, start: pos, len: 1 })
    } else if c <= 0xb7 || (0xc0 <= c && c <= 0xf7) {
        let list = c >= 0xc0;
        let len: usize = if list { (c - 0xc0) as usize } else { (c - 0x80) as usize };
        if len > room {
            Err(DecodeError::TruncatedInput { offset: pos })
        } else if !list && len == 1 && bytes[pos + 1] < 0x80 {
            Err(DecodeError::InvalidLengthEncoding { offset: pos })
        } else {
            Ok(Header { list, start: pos + 1, len })
        }
    } else {
        let list = c >= 0xf8;
        let n: usize = if list { (c - 0xf7) as usize } else { (c - 0xb7) as usize };
        if n > room || bytes[pos + 1] == 0 {
            return Err(DecodeError::InvalidLengthEncoding { offset: pos });
        }
        let len = read_be(bytes, pos + 1, n);
        if len < 56 || len > usize::MAX as u64 {
            Err(DecodeError::InvalidLengthEncoding { offset: pos })
        } else if len > (room - n) as u64 {
            Err(DecodeError::TruncatedInput { offset: pos })
        } else {
            Ok(Header { list, start: pos + 1 + n, len: len as usize })
        }
    }
}

/// In what a successful header says, the payload lies inside the room given
/// and the item takes at least one byte.
pub proof fn lemma_header_bounds(b: Seq<u8>, pos: int, end: int)
    requires
        0 <= pos <= end <= b.len() <= usize::MAX,
    ensures
        spec_header(b, pos, end) matches Ok(h) ==> pos <= h.start && h.start + h.len <= end && pos
            < h.start + h.len,
{
}

/// The item whose control byte is `b[pos]` and the index after its last
/// byte, when lists may nest `depth` deep and the item must end by `end`.
pub open spec fn spec_item(b: Seq<u8>, pos: int, end: int, depth: nat) -> Result<
    (Tree, int),
    DecodeError,
>
    decreases depth, end - pos, 0int,
{
    match spec_header(b, pos, end) {
        Err(e) => Err(e),
        Ok(h) => {
            let stop = h.start + h.len;
            if !h.list {
                Ok((Tree::Scalar(b.subrange(h.start as int, stop)), stop))
            } else if depth == 0 {
                Err(DecodeError::DecodeDepthExceeded)
            } else {
                match spec_items(b, h.start as int, stop, (depth - 1) as nat) {
                    Err(e) => Err(e),
                    Ok(items) => Ok((Tree::List(items), stop)),
                }
            }
        },
    }
}

/// The items written one after another in `b[pos..end]`.
pub open spec fn spec_items(b: Seq<u8>, pos: int, end: int, depth: nat) -> Result<
    Seq<Tree>,
    DecodeError,
>
    decreases depth, end - pos, 1int,
{
    if pos >= end {
        Ok(Seq::empty())
    } else {
        match spec_item(b, pos, end, depth) {
            Err(e) => Err(e),
            Ok((first, next)) => {
                if pos < next <= end {
                    prepend(seq![first], spec_items(b, next, end, depth))
                } else {
                    Ok(seq![first])
                }
            },
        }
    }
}

/// `rest` with `done` put in front of what it holds.
pub open spec fn prepend(done: Seq<Tree>, rest: Result<Seq<Tree>, DecodeError>) -> Result<
    Seq<Tree>,
    DecodeError,
> {
    match rest {
        Ok(items) => Ok(done + items),
        Err(e) => Err(e),
    }
}

/// Reads the item at `pos`, which has to end by `end`.
pub(crate) fn read_at(bytes: &[u8], pos: usize, end: usize, depth: usize) -> (r: Result<
    (Item, usize),
    DecodeError,
>)
    requires
        pos <= end <= bytes@.len(),
    ensures
        match r {
            Ok((item, next)) => spec_item(bytes@, pos as int, end as int, depth as nat) == Ok::<
                (Tree, int),
                DecodeError,
            >((item@, next as int)) && pos < next <= end,
            Err(e) => spec_item(bytes@, pos as int, end as int, depth as nat) == Err::<
                (Tree, int),
                DecodeError,
            >(e),
        },
    decreases depth, 0int,
{
    let total: usize = bytes.len();
    proof {
        lemma_header_bounds(bytes@, pos as int, end as int);
    }
    let h = match read_header(bytes, pos, end) {
        Ok(h) => h,
        Err(e) => { return Err(e); },
    };
    let stop: usize = h.start + h.len;
    if !h.list {
        let payload = slice_to_vec(slice_subrange(bytes, h.start, stop));
        Ok((Item::Scalar(payload), stop))
    } else if depth == 0 {
        Err(DecodeError::DecodeDepthExceeded)
    } else {
        match read_items(bytes, h.start, stop, depth - 1) {
            Err(e) => Err(e),
            Ok(items) => {
                let item = Item::List(items);
                assert(item@ == Tree::List(trees_of(items@))) by {
                    assert(item@->List_0 =~= trees_of(items@));
                }
                Ok((item, stop))
            },
        }
    }
}

/// Reads the items written one after another in `bytes[pos..end]`.
fn read_items(bytes: &[u8], pos: usize, end: usize, depth: usize) -> (r: Result<
    Vec<Item>,
    DecodeError,
>)
    requires
        pos <= end <= bytes@.len(),
    ensures
        match r {
            Ok(items) => spec_items(bytes@, pos as int, end as int, depth as nat) == Ok::<
                Seq<Tree>,
                DecodeError,
            >(trees_of(items@)),
            Err(e) => spec_items(bytes@, pos as int, end as int, depth as nat) == Err::<
                Seq<Tree>,
                DecodeError,
            >(e),
        },
    decreases depth, 1int,
{
    let mut items: Vec<Item> = Vec::new();
    let mut at: usize = pos;
    proof {
        let all = spec_items(bytes@, pos as int, end as int, depth as nat);
        if all is Ok {
            assert(trees_of(items@) + all->Ok_0 =~= all->Ok_0);
        }
    }
    while at < end
        invariant
            pos <= at <= end <= bytes@.len(),
            spec_items(bytes@, pos as int, end as int, depth as nat) == prepend(
                trees_of(items@),
                spec_items(bytes@, at as int, end as int, depth as nat),
            ),
        decreases end - at,
    {
        let ghost done = trees_of(items@);
        match read_at(bytes, at, end, depth) {
            Err(e) => { return Err(e); },
            Ok((item, next)) => {
                items.push(item);
                proof {
                    let rest = spec_items(bytes@, next as int, end as int, depth as nat);
                    assert(trees_of(items@) =~= done + seq![item@]);
                    if rest is Ok {
                        assert(done + (seq![item@] + rest->Ok_0) =~= (done + seq![item@])
                            + rest->Ok_0);
                    }
                }
                at = next;
            },
        }
    }
    proof {
        assert(trees_of(items@) + Seq::<Tree>::empty() =~= trees_of(items@));
    }
    Ok(items)
}

/// The item that starts at `from` and may reach to the end of `b`, with the
/// index after its last byte.
pub open spec fn spec_read(b: Seq<u8>, from: int) -> Result<(Tree, int), DecodeError> {
    spec_item(b, from, b.len() as int, MAX_NESTING as nat)
}

/// Reads the item that `bytes` start with and says how many bytes it takes.
/// Bytes after the item are left alone.
pub fn read_item(bytes: &[u8]) -> (r: Result<(Item, usize), DecodeError>)
    ensures
        match r {
            Ok((item, used)) => spec_read(bytes@, 0) == Ok::<(Tree, int), DecodeError>(
                (item@, used as int),
            ) && 0 < used <= bytes@.len(),
            Err(e) => spec_read(bytes@, 0) == Err::<(Tree, int), DecodeError>(e),
        },
{
    read_at(bytes, 0, bytes.len(), MAX_NESTING)
}

} // verus!

//! What holds of every batch: order, placeholders, grouping and nesting.

use vstd::prelude::*;
use crate::cli::receipts::{
    batch_of, contribution, flatten, is_decoding_of, models_of, spec_from_bytes, spec_receipt,
    Receipt, ReceiptModel,
};
use crate::encode::encode;
use crate::encode_laws::lemma_encoding_is_read;
use crate::reader::{spec_read, MAX_NESTING};
use crate::reader_laws::lemma_truncation_detected;
use crate::error::DecodeError;
use crate::item::{Tree, MAX_DEPTH};

verus! {

/// Whether two outcomes agree: the same batch, or errors of one kind.
pub open spec fn agree(
    a: Result<Seq<ReceiptModel>, DecodeError>,
    b: Result<Seq<ReceiptModel>, DecodeError>,
) -> bool {
    match (a, b) {
        (Ok(x), Ok(y)) => x == y,
        (Err(e), Err(f)) => e.same_kind(f),
        _ => false,
    }
}

/// What a sibling contributes does not depend on its place among its
/// siblings; only the place that an error names does.
pub proof fn lemma_contribution_any_place(tree: Tree, i: int, j: int, depth: nat)
    ensures
        agree(contribution(tree, i, depth), contribution(tree, j, depth)),
        contribution(tree, i, depth) is Err && tree is List ==> contribution(tree, i, depth)
            == contribution(tree, j, depth),
{
}

/// A batch of two runs of siblings is the batch of the first followed by the
/// batch of the second.
pub proof fn lemma_flatten_concat(a: Seq<Tree>, b: Seq<Tree>, depth: nat)
    requires
        flatten(a, depth) is Ok,
        flatten(b, depth) is Ok,
    ensures
        flatten(a + b, depth) == Ok::<Seq<ReceiptModel>, DecodeError>(
            flatten(a, depth)->Ok_0 + flatten(b, depth)->Ok_0,
        ),
    decreases b.len(),
{
    if b.len() == 0 {
        assert(a + b =~= a);
        assert(flatten(a, depth)->Ok_0 + flatten(b, depth)->Ok_0 =~= flatten(a, depth)->Ok_0);
    } else {
        assert((a + b).drop_last() =~= a + b.drop_last());
        lemma_flatten_concat(a, b.drop_last(), depth);
        lemma_contribution_any_place(b.last(), b.len() - 1, (a + b).len() - 1, depth);
        let x = flatten(a, depth)->Ok_0;
        let y = flatten(b.drop_last(), depth)->Ok_0;
        let z = contribution(b.last(), b.len() - 1, depth)->Ok_0;
        assert((x + y) + z =~= x + (y + z));
    }
}

/// Siblings that are all receipts give exactly those receipts, one for each
/// sibling and in the order of the siblings.
pub proof fn lemma_order_preserved(siblings: Seq<Tree>, depth: nat)
    requires
        forall|i: int| 0 <= i < siblings.len() ==> spec_receipt(#[trigger] siblings[i]) is Ok,
    ensures
        flatten(siblings, depth) == Ok::<Seq<ReceiptModel>, DecodeError>(
            Seq::new(siblings.len(), |i: int| spec_receipt(siblings[i])->Ok_0),
        ),
    decreases siblings.len(),
{
    let all = Seq::new(siblings.len(), |i: int| spec_receipt(siblings[i])->Ok_0);
    if siblings.len() == 0 {
        assert(all =~= Seq::<ReceiptModel>::empty());
    } else {
        let front = siblings.drop_last();
        assert forall|i: int| 0 <= i < front.len() implies spec_receipt(
            #[trigger] front[i],
        ) is Ok by {
            assert(front[i] == siblings[i]);
        }
        lemma_order_preserved(front, depth);
        let before = Seq::new(front.len(), |i: int| spec_receipt(front[i])->Ok_0);
        let last = siblings[siblings.len() - 1];
        assert(spec_receipt(last) is Ok);
        assert(contribution(last, siblings.len() - 1, depth) == Ok::<
            Seq<ReceiptModel>,
            DecodeError,
        >(seq![spec_receipt(last)->Ok_0]));
        assert(all =~= before + seq![spec_receipt(last)->Ok_0]);
    }
}

/// A placeholder put anywhere among siblings changes nothing: the batch is
/// the same, and where there was an error there is one of the same kind.
pub proof fn lemma_placeholder_skipped(siblings: Seq<Tree>, k: int, depth: nat)
    requires
        0 <= k <= siblings.len(),
    ensures
        agree(
            flatten(siblings.insert(k, Tree::Scalar(Seq::empty())), depth),
            flatten(siblings, depth),
        ),
    decreases siblings.len(),
{
    let hole = Tree::Scalar(Seq::<u8>::empty());
    let with = siblings.insert(k, hole);
    if k == siblings.len() {
        assert(with.drop_last() =~= siblings);
        assert(with.last() == hole);
        assert(hole.is_placeholder());
        assert(contribution(hole, with.len() - 1, depth) == Ok::<Seq<ReceiptModel>, DecodeError>(
            Seq::empty(),
        ));
        if flatten(siblings, depth) is Ok {
            let x = flatten(siblings, depth)->Ok_0;
            assert(x + Seq::<ReceiptModel>::empty() =~= x);
            assert(flatten(with, depth) == Ok::<Seq<ReceiptModel>, DecodeError>(x));
        } else {
            assert(flatten(with, depth) == flatten(siblings, depth));
        }
    } else {
        assert(with.drop_last() =~= siblings.drop_last().insert(k, hole));
        assert(with.last() == siblings.last());
        lemma_placeholder_skipped(siblings.drop_last(), k, depth);
        lemma_contribution_any_place(siblings.last(), with.len() - 1, siblings.len() - 1, depth);
        let front = flatten(with.drop_last(), depth);
        let tail = contribution(with.last(), with.len() - 1, depth);
        assert(flatten(with, depth) == match front {
            Err(e) => Err::<Seq<ReceiptModel>, DecodeError>(e),
            Ok(before) => match tail {
                Err(e) => Err(e),
                Ok(more) => Ok(before + more),
            },
        });
    }
}

/// The batch of one sibling is what that sibling contributes.
pub proof fn lemma_flatten_single(tree: Tree, depth: nat)
    ensures
        flatten(seq![tree], depth) == contribution(tree, 0, depth),
{
    let one = seq![tree];
    assert(one.drop_last() =~= Seq::<Tree>::empty());
    assert(one.last() == tree);
    assert(flatten(one.drop_last(), depth) == Ok::<Seq<ReceiptModel>, DecodeError>(Seq::empty()));
    if contribution(tree, 0, depth) is Ok {
        let more = contribution(tree, 0, depth)->Ok_0;
        assert(Seq::<ReceiptModel>::empty() + more =~= more);
    }
}

/// A list that is not itself a receipt stands for its members: to group
/// siblings into such a list does not change the batch.
pub proof fn lemma_group_flattened(group: Seq<Tree>, rest: Seq<Tree>, depth: nat)
    requires
        depth >= 1,
        spec_receipt(Tree::List(group)) is Err,
        flatten(group, (depth - 1) as nat) is Ok,
        flatten(rest, depth) is Ok,
    ensures
        flatten(seq![Tree::List(group)] + rest, depth) == Ok::<Seq<ReceiptModel>, DecodeError>(
            flatten(group, (depth - 1) as nat)->Ok_0 + flatten(rest, depth)->Ok_0,
        ),
{
    let one = seq![Tree::List(group)];
    let inner = flatten(group, (depth - 1) as nat)->Ok_0;
    lemma_flatten_single(Tree::List(group), depth);
    assert(contribution(Tree::List(group), 0, depth) == flatten(group, (depth - 1) as nat));
    lemma_flatten_concat(one, rest, depth);
}

/// Two receipts in a list of their own, followed by a third, give the three
/// in that order.
pub proof fn lemma_nested_flattening(r1: Tree, r2: Tree, r3: Tree)
    requires
        spec_receipt(r1) is Ok,
        spec_receipt(r2) is Ok,
        spec_receipt(r3) is Ok,
    ensures
        batch_of(Tree::List(seq![Tree::List(seq![r1, r2]), r3])) == Ok::<
            Seq<ReceiptModel>,
            DecodeError,
        >(seq![spec_receipt(r1)->Ok_0, spec_receipt(r2)->Ok_0, spec_receipt(r3)->Ok_0]),
{
    let depth = (MAX_DEPTH - 1) as nat;
    let group = seq![r1, r2];
    let rest = seq![r3];
    lemma_order_preserved(group, (depth - 1) as nat);
    lemma_order_preserved(rest, depth);
    lemma_group_flattened(group, rest, depth);
    let g = Seq::new(group.len(), |i: int| spec_receipt(group[i])->Ok_0);
    let r = Seq::new(rest.len(), |i: int| spec_receipt(rest[i])->Ok_0);
    assert(g + r =~= seq![
        spec_receipt(r1)->Ok_0,
        spec_receipt(r2)->Ok_0,
        spec_receipt(r3)->Ok_0,
    ]);
    assert(seq![Tree::List(group)] + rest =~= seq![Tree::List(seq![r1, r2]), r3]);
}

/// `tree` inside `k` lists of one member each.
pub open spec fn wrapped(tree: Tree, k: nat) -> Tree
    decreases k,
{
    if k == 0 {
        tree
    } else {
        Tree::List(seq![wrapped(tree, (k - 1) as nat)])
    }
}

/// A receipt inside `k` lists of one member each is found where `k` levels
/// may be entered, and the depth is exceeded where fewer may.
pub proof fn lemma_wrapped_sibling(receipt: Tree, k: nat, depth: nat)
    requires
        spec_receipt(receipt) is Ok,
    ensures
        flatten(seq![wrapped(receipt, k)], depth) == if k <= depth {
            Ok::<Seq<ReceiptModel>, DecodeError>(seq![spec_receipt(receipt)->Ok_0])
        } else {
            Err(DecodeError::DecodeDepthExceeded)
        },
    decreases k,
{
    let tree = wrapped(receipt, k);
    let one = seq![tree];
    let found = seq![spec_receipt(receipt)->Ok_0];
    lemma_flatten_single(tree, depth);
    if k == 0 {
        assert(contribution(tree, 0, depth) == Ok::<Seq<ReceiptModel>, DecodeError>(found));
    } else {
        let inner = seq![wrapped(receipt, (k - 1) as nat)];
        assert(tree == Tree::List(inner));
        assert(spec_receipt(tree) is Err);
        if depth > 0 {
            lemma_wrapped_sibling(receipt, (k - 1) as nat, (depth - 1) as nat);
            assert(contribution(tree, 0, depth) == flatten(inner, (depth - 1) as nat));
        } else {
            assert(contribution(tree, 0, depth) == Err::<Seq<ReceiptModel>, DecodeError>(
                DecodeError::DecodeDepthExceeded,
            ));
        }
    }
}

/// A root that is a receipt inside `k` lists of one member each holds that
/// one receipt for every `k` from one to [`MAX_DEPTH`], and exceeds the depth
/// for every greater `k`.
pub proof fn lemma_depth_tolerance(receipt: Tree, k: nat)
    requires
        spec_receipt(receipt) is Ok,
        k >= 1,
    ensures
        batch_of(wrapped(receipt, k)) == if k <= MAX_DEPTH {
            Ok::<Seq<ReceiptModel>, DecodeError>(seq![spec_receipt(receipt)->Ok_0])
        } else {
            Err(DecodeError::DecodeDepthExceeded)
        },
{
    lemma_wrapped_sibling(receipt, (k - 1) as nat, (MAX_DEPTH - 1) as nat);
}

/// A sibling that is a non-empty scalar fails the whole batch; where the
/// siblings before it decode, the error names that sibling.
pub proof fn lemma_malformed_entry_rejected(siblings: Seq<Tree>, k: int, depth: nat)
    requires
        0 <= k < siblings.len() <= usize::MAX,
        siblings[k] matches Tree::Scalar(bytes) && bytes.len() > 0,
    ensures
        flatten(siblings, depth) is Err,
        flatten(siblings.subrange(0, k), depth) is Ok ==> flatten(siblings, depth) == Err::<
            Seq<ReceiptModel>,
            DecodeError,
        >(DecodeError::MalformedReceiptEntry { index: k as usize }),
{
    let upto = siblings.subrange(0, k + 1);
    assert(upto.drop_last() =~= siblings.subrange(0, k));
    assert(upto.last() == siblings[k]);
    assert(contribution(siblings[k], k, depth) == Err::<Seq<ReceiptModel>, DecodeError>(
        DecodeError::MalformedReceiptEntry { index: k as usize },
    ));
    assert(flatten(upto, depth) is Err);
    crate::cli::receipts::lemma_flatten_error_stays(siblings, k + 1, depth);
}

/// An export whose root item reaches to its end, less its last byte, is
/// reported as truncated at the root, unless the root was that one byte.
pub proof fn lemma_truncated_export(data: Seq<u8>)
    requires
        2 < data.len() <= usize::MAX,
        spec_read(data, 1) matches Ok((_, next)) && next == data.len(),
    ensures
        spec_from_bytes(data.drop_last()) == Err::<Seq<ReceiptModel>, DecodeError>(
            DecodeError::TruncatedInput { offset: 1 },
        ),
{
    crate::reader::lemma_header_bounds(data, 1, data.len() as int);
    assert(data.drop_last() =~= data.subrange(0, data.len() - 1));
    lemma_truncation_detected(data, 1, data.len() - 1, crate::reader::MAX_NESTING as nat);
}

/// The content of an export has one outcome: two decodings of the same
/// bytes give the same receipts in the same order, or the same error.
pub proof fn lemma_one_outcome(
    data: Seq<u8>,
    first: Result<Vec<Receipt>, DecodeError>,
    second: Result<Vec<Receipt>, DecodeError>,
)
    requires
        is_decoding_of(data, first),
        is_decoding_of(data, second),
    ensures
        match (first, second) {
            (Ok(a), Ok(b)) => models_of(a@) == models_of(b@),
            (Err(e), Err(f)) => e == f,
            _ => false,
        },
{
}

/// An export that is a marker byte and then the shortest encoding of a
/// root, possibly with more bytes after it, holds the batch of that root:
/// what holds of the batch of every tree holds of the bytes that encode it.
pub proof fn lemma_export_of_tree(marker: u8, root: Tree, after: Seq<u8>)
    requires
        root.depth() <= MAX_NESTING,
        1 + encode(root).len() + after.len() <= usize::MAX,
    ensures
        spec_from_bytes(seq![marker] + encode(root) + after) == batch_of(root),
{
    let data = seq![marker] + encode(root) + after;
    assert(data.subrange(1, 1 + encode(root).len() as int) =~= encode(root));
    lemma_encoding_is_read(data, 1, data.len() as int, root, MAX_NESTING as nat);
}

} // verus!

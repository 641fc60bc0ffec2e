//! Receipts and the decoding of a batch of them from an item tree.

use vstd::prelude::*;
use vstd::slice::slice_to_vec;
use vstd::utf8::{decode_utf8, valid_utf8};
use crate::encode::{encode, encode_item};
use crate::error::DecodeError;
use crate::item::{Item, Tree, trees_of, MAX_DEPTH};
use crate::primitives::{is_uint, text_from_utf8, uint_from_bytes, H256, U256};
use crate::reader::{be_value, pow256, read_at, spec_read, MAX_NESTING};

verus! {

/// Number of fields of a receipt.
pub const RECEIPT_FIELDS: usize = 16;

/// Receipts command
#[derive(Debug, Clone)]
pub struct Command {
    /// The path to the receipts export
    pub path: String,
}

impl Command {
    /// The path that is used where none is given.
    pub fn default_path() -> (path: &'static str)
        ensures
            path@ == "data/"@,
    {
        "data/"
    }
}

/// The outcome of one transaction.
#[derive(Clone, Debug, PartialEq, Eq)]
pub struct Receipt {
    /// The receipt type
    pub ty: u8,
    /// The post state root
    pub post_state: Vec<u8>,
    /// The tx receipt status
    pub status: u64,
    /// The cumulative gas used
    pub cumulative_gas_used: u64,
    /// The bloom filter
    pub bloom: Vec<u8>,
    /// Receipt logs, as their encoding
    pub logs: Vec<u8>,
    /// The transaction hash
    pub tx_hash: H256,
    /// The contract address
    pub contract_address: String,
    /// The gas used
    pub gas_used: u64,
    /// The block hash
    pub block_hash: H256,
    /// The block number
    pub block_number: U256,
    /// The transaction index
    pub transaction_index: u64,
    /// The L1 gas price
    pub l1_gas_price: U256,
    /// The L1 gas used
    pub l1_gas_used: U256,
    /// The L1 fee
    pub l1_fee: U256,
    /// The L1 fee scalar
    pub l1_fee_scalar: String,
}

/// Mathematical model of a [`Receipt`].
pub ghost struct ReceiptModel {
    pub ty: nat,
    pub post_state: Seq<u8>,
    pub status: nat,
    pub cumulative_gas_used: nat,
    pub bloom: Seq<u8>,
    pub logs: Seq<u8>,
    pub tx_hash: Seq<u8>,
    pub contract_address: Seq<char>,
    pub gas_used: nat,
    pub block_hash: Seq<u8>,
    pub block_number: nat,
    pub transaction_index: nat,
    pub l1_gas_price: nat,
    pub l1_gas_used: nat,
    pub l1_fee: nat,
    pub l1_fee_scalar: Seq<char>,
}

impl View for Receipt {
    type V = ReceiptModel;

    open spec fn view(&self) -> ReceiptModel {
        ReceiptModel {
            ty: self.ty as nat,
            post_state: self.post_state@,
            status: self.status as nat,
            cumulative_gas_used: self.cumulative_gas_used as nat,
            bloom: self.bloom@,
            logs: self.logs@,
            tx_hash: self.tx_hash@,
            contract_address: self.contract_address@,
            gas_used: self.gas_used as nat,
            block_hash: self.block_hash@,
            block_number: self.block_number@,
            transaction_index: self.transaction_index as nat,
            l1_gas_price: self.l1_gas_price@,
            l1_gas_used: self.l1_gas_used@,
            l1_fee: self.l1_fee@,
            l1_fee_scalar: self.l1_fee_scalar@,
        }
    }
}

/// The models of a sequence of receipts, in order.
pub open spec fn models_of(receipts: Seq<Receipt>) -> Seq<ReceiptModel> {
    Seq::new(receipts.len(), |i: int| receipts[i]@)
}

/// Why an item is not one receipt.
#[derive(Clone, Copy, Debug, PartialEq, Eq, Structural)]
pub enum Mismatch {
    /// The item is a scalar.
    NotAList,
    /// The item is a list of `found` members, not of sixteen.
    FieldCount { found: usize },
    /// Member `index` is the first that is not a value of its field's type.
    Field { index: usize },
}

/// The payload of a scalar, no bytes for a list.
pub open spec fn payload(tree: Tree) -> Seq<u8> {
    match tree {
        Tree::Scalar(bytes) => bytes,
        Tree::List(_) => Seq::empty(),
    }
}

/// Whether member `i` of a receipt's list is a value of field `i`: the logs
/// may be any item, every other field is a scalar; an integer is written in
/// the shortest form and fits its width, a hash has 32 bytes, a string is
/// valid UTF-8.
pub open spec fn field_ok(fields: Seq<Tree>, i: int) -> bool {
    let bytes = payload(fields[i]);
    if i == 5 {
        true
    } else if !(fields[i] is Scalar) {
        false
    } else if i == 0 {
        is_uint(bytes, 1)
    } else if i == 2 || i == 3 || i == 8 || i == 11 {
        is_uint(bytes, 8)
    } else if i == 6 || i == 9 {
        bytes.len() == 32
    } else if i == 7 || i == 15 {
        valid_utf8(bytes)
    } else if i == 10 || i == 12 || i == 13 || i == 14 {
        is_uint(bytes, 32)
    } else {
        true
    }
}

/// The first index from `from` on whose member is not a value of its field,
/// or sixteen if there is none.
pub open spec fn first_bad(fields: Seq<Tree>, from: int) -> int
    decreases 16 - from,
{
    if from >= 16 {
        16
    } else if !field_ok(fields, from) {
        from
    } else {
        first_bad(fields, from + 1)
    }
}

/// The receipt that sixteen well-typed members write.
pub open spec fn receipt_of(fields: Seq<Tree>) -> ReceiptModel {
    ReceiptModel {
        ty: be_value(payload(fields[0])),
        post_state: payload(fields[1]),
        status: be_value(payload(fields[2])),
        cumulative_gas_used: be_value(payload(fields[3])),
        bloom: payload(fields[4]),
        logs: encode(fields[5]),
        tx_hash: payload(fields[6]),
        contract_address: decode_utf8(payload(fields[7])),
        gas_used: be_value(payload(fields[8])),
        block_hash: payload(fields[9]),
        block_number: be_value(payload(fields[10])),
        transaction_index: be_value(payload(fields[11])),
        l1_gas_price: be_value(payload(fields[12])),
        l1_gas_used: be_value(payload(fields[13])),
        l1_fee: be_value(payload(fields[14])),
        l1_fee_scalar: decode_utf8(payload(fields[15])),
    }
}

/// The direct decode of one item as one receipt.
pub open spec fn spec_receipt(tree: Tree) -> Result<ReceiptModel, Mismatch> {
    match tree {
        Tree::Scalar(_) => Err(Mismatch::NotAList),
        Tree::List(fields) => if fields.len() != 16 {
            Err(Mismatch::FieldCount { found: fields.len() as usize })
        } else if first_bad(fields, 0) < 16 {
            Err(Mismatch::Field { index: first_bad(fields, 0) as usize })
        } else {
            Ok(receipt_of(fields))
        },
    }
}

/// The bytes of a scalar.
fn scalar_bytes(item: &Item) -> (r: Option<&Vec<u8>>)
    ensures
        r is Some <==> item@ is Scalar,
        r matches Some(bytes) ==> bytes@ == payload(item@),
{
    match item {
        Item::Scalar(bytes) => Some(bytes),
        Item::List(_) => None,
    }
}

/// An integer field of at most `width` bytes.
fn uint_field(item: &Item, width: usize) -> (r: Option<u64>)
    requires
        width <= 8,
    ensures
        r is Some <==> item@ is Scalar && is_uint(payload(item@), width as nat),
        r matches Some(v) ==> v == be_value(payload(item@)) && v < pow256(width as nat),
{
    match scalar_bytes(item) {
        Some(bytes) => uint_from_bytes(bytes.as_slice(), width),
        None => None,
    }
}

/// A 256-bit integer field.
fn u256_field(item: &Item) -> (r: Option<U256>)
    ensures
        r is Some <==> item@ is Scalar && is_uint(payload(item@), 32),
        r matches Some(v) ==> v@ == be_value(payload(item@)),
{
    match scalar_bytes(item) {
        Some(bytes) => U256::from_be_slice(bytes.as_slice()),
        None => None,
    }
}

/// A hash field.
fn hash_field(item: &Item) -> (r: Option<H256>)
    ensures
        r is Some <==> item@ is Scalar && payload(item@).len() == 32,
        r matches Some(h) ==> h@ == payload(item@),
{
    match scalar_bytes(item) {
        Some(bytes) => H256::from_slice(bytes.as_slice()),
        None => None,
    }
}

/// A byte-string field.
fn bytes_field(item: &Item) -> (r: Option<Vec<u8>>)
    ensures
        r is Some <==> item@ is Scalar,
        r matches Some(v) ==> v@ == payload(item@),
{
    match scalar_bytes(item) {
        Some(bytes) => Some(slice_to_vec(bytes.as_slice())),
        None => None,
    }
}

/// A string field.
fn text_field(item: &Item) -> (r: Option<String>)
    ensures
        r is Some <==> item@ is Scalar && valid_utf8(payload(item@)),
        r matches Some(s) ==> s@ == decode_utf8(payload(item@)),
{
    match scalar_bytes(item) {
        Some(bytes) => text_from_utf8(slice_to_vec(bytes.as_slice())),
        None => None,
    }
}

impl Receipt {
    /// Decodes `item` as one receipt: a list of sixteen members, each a value
    /// of the field at its place.
    pub fn decode(item: &Item) -> (r: Result<Receipt, Mismatch>)
        ensures
            match r {
                Ok(receipt) => spec_receipt(item@) == Ok::<ReceiptModel, Mismatch>(receipt@),
                Err(why) => spec_receipt(item@) == Err::<ReceiptModel, Mismatch>(why),
            },
    {
        let fields = match item {
            Item::Scalar(_) => { return Err(Mismatch::NotAList); },
            Item::List(fields) => fields,
        };
        assert(item@->List_0 =~= trees_of(fields@));
        if fields.len() != RECEIPT_FIELDS {
            return Err(Mismatch::FieldCount { found: fields.len() });
        }
        proof {
            reveal_with_fuel(first_bad, 17);
            reveal_with_fuel(pow256, 2);
        }
        let ty = match uint_field(&fields[0], 1) {
            Some(v) => v,
            None => { return Err(Mismatch::Field { index: 0 }); },
        };
        let post_state = match bytes_field(&fields[1]) {
            Some(v) => v,
            None => { return Err(Mismatch::Field { index: 1 }); },
        };
        let status = match uint_field(&fields[2], 8) {
            Some(v) => v,
            None => { return Err(Mismatch::Field { index: 2 }); },
        };
        let cumulative_gas_used = match uint_field(&fields[3], 8) {
            Some(v) => v,
            None => { return Err(Mismatch::Field { index: 3 }); },
        };
        let bloom = match bytes_field(&fields[4]) {
            Some(v) => v,
            None => { return Err(Mismatch::Field { index: 4 }); },
        };
        let logs = encode_item(&fields[5]);
        let tx_hash = match hash_field(&fields[6]) {
            Some(v) => v,
            None => { return Err(Mismatch::Field { index: 6 }); },
        };
        let contract_address = match text_field(&fields[7]) {
            Some(v) => v,
            None => { return Err(Mismatch::Field { index: 7 }); },
        };
        let gas_used = match uint_field(&fields[8], 8) {
            Some(v) => v,
            None => { return Err(Mismatch::Field { index: 8 }); },
        };
        let block_hash = match hash_field(&fields[9]) {
            Some(v) => v,
            None => { return Err(Mismatch::Field { index: 9 }); },
        };
        let block_number = match u256_field(&fields[10]) {
            Some(v) => v,
            None => { return Err(Mismatch::Field { index: 10 }); },
        };
        let transaction_index = match uint_field(&fields[11], 8) {
            Some(v) => v,
            None => { return Err(Mismatch::Field { index: 11 }); },
        };
        let l1_gas_price = match u256_field(&fields[12]) {
            Some(v) => v,
            None => { return Err(Mismatch::Field { index: 12 }); },
        };
        let l1_gas_used = match u256_field(&fields[13]) {
            Some(v) => v,
            None => { return Err(Mismatch::Field { index: 13 }); },
        };
        let l1_fee = match u256_field(&fields[14]) {
            Some(v) => v,
            None => { return Err(Mismatch::Field { index: 14 }); },
        };
        let l1_fee_scalar = match text_field(&fields[15]) {
            Some(v) => v,
            None => { return Err(Mismatch::Field { index: 15 }); },
        };
        Ok(
            Receipt {
                ty: ty as u8,
                post_state,
                status,
                cumulative_gas_used,
                bloom,
                logs,
                tx_hash,
                contract_address,
                gas_used,
                block_hash,
                block_number,
                transaction_index,
                l1_gas_price,
                l1_gas_used,
                l1_fee,
                l1_fee_scalar,
            },
        )
    }
}

/// What one sibling contributes to the batch: nothing if it is a
/// placeholder, itself if it decodes as a receipt, else what its own members
/// contribute if it is a list and `depth` further levels may be entered.
pub open spec fn contribution(tree: Tree, index: int, depth: nat) -> Result<
    Seq<ReceiptModel>,
    DecodeError,
>
    decreases depth, 0int,
{
    if tree.is_placeholder() {
        Ok(Seq::empty())
    } else {
        match spec_receipt(tree) {
            Ok(receipt) => Ok(seq![receipt]),
            Err(_) => match tree {
                Tree::Scalar(_) => Err(DecodeError::MalformedReceiptEntry { index: index as usize }),
                Tree::List(members) => if depth == 0 {
                    Err(DecodeError::DecodeDepthExceeded)
                } else {
                    flatten(members, (depth - 1) as nat)
                },
            },
        }
    }
}

/// The receipts among `siblings`, depth first and from left to right, or the
/// first error met on that way.
pub open spec fn flatten(siblings: Seq<Tree>, depth: nat) -> Result<Seq<ReceiptModel>, DecodeError>
    decreases depth, 1 + siblings.len(),
{
    if siblings.len() == 0 {
        Ok(Seq::empty())
    } else {
        match flatten(siblings.drop_last(), depth) {
            Err(e) => Err(e),
            Ok(before) => match contribution(siblings.last(), siblings.len() - 1, depth) {
                Err(e) => Err(e),
                Ok(more) => Ok(before + more),
            },
        }
    }
}

/// The batch that a root item holds: the receipts among the members of a
/// list, nothing for a scalar. The root counts as the first of the
/// [`MAX_DEPTH`] levels that are entered.
pub open spec fn batch_of(root: Tree) -> Result<Seq<ReceiptModel>, DecodeError> {
    match root {
        Tree::Scalar(_) => Ok(Seq::empty()),
        Tree::List(members) => flatten(members, (MAX_DEPTH - 1) as nat),
    }
}

/// An error among the first `k` siblings is the error of them all.
pub proof fn lemma_flatten_error_stays(siblings: Seq<Tree>, k: int, depth: nat)
    requires
        0 <= k <= siblings.len(),
        flatten(siblings.subrange(0, k), depth) is Err,
    ensures
        flatten(siblings, depth) == flatten(siblings.subrange(0, k), depth),
    decreases siblings.len(),
{
    if k < siblings.len() {
        assert(siblings.drop_last().subrange(0, k) =~= siblings.subrange(0, k));
        lemma_flatten_error_stays(siblings.drop_last(), k, depth);
    } else {
        assert(siblings.subrange(0, k) =~= siblings);
    }
}

/// Collects the receipts among `siblings`.
#[verifier::loop_isolation(false)]
fn flatten_items(siblings: &Vec<Item>, depth: usize) -> (r: Result<Vec<Receipt>, DecodeError>)
    ensures
        match r {
            Ok(batch) => flatten(trees_of(siblings@), depth as nat) == Ok::<
                Seq<ReceiptModel>,
                DecodeError,
            >(models_of(batch@)),
            Err(e) => flatten(trees_of(siblings@), depth as nat) == Err::<
                Seq<ReceiptModel>,
                DecodeError,
            >(e),
        },
    decreases depth,
{
    let ghost trees = trees_of(siblings@);
    let mut batch: Vec<Receipt> = Vec::new();
    let mut i: usize = 0;
    assert(models_of(batch@) =~= Seq::<ReceiptModel>::empty());
    while i < siblings.len()
        invariant
            i <= siblings@.len(),
            flatten(trees.subrange(0, i as int), depth as nat) == Ok::<
                Seq<ReceiptModel>,
                DecodeError,
            >(models_of(batch@)),
        decreases siblings@.len() - i,
    {
        let item = &siblings[i];
        let ghost before = models_of(batch@);
        let ghost upto = trees.subrange(0, i + 1);
        let ghost here = contribution(item@, i as int, depth as nat);
        proof {
            assert(upto.drop_last() =~= trees.subrange(0, i as int));
            assert(upto.last() == item@);
            assert(flatten(upto, depth as nat) == match here {
                Err(e) => Err::<Seq<ReceiptModel>, DecodeError>(e),
                Ok(more) => Ok(before + more),
            });
        }
        if item.is_placeholder() {
            assert(before + Seq::<ReceiptModel>::empty() =~= before);
        } else {
            match Receipt::decode(item) {
                Ok(receipt) => {
                    batch.push(receipt);
                    assert(models_of(batch@) =~= before + seq![receipt@]);
                },
                Err(_) => match item {
                    Item::Scalar(_) => {
                        proof {
                            assert(here == Err::<Seq<ReceiptModel>, DecodeError>(
                                DecodeError::MalformedReceiptEntry { index: i },
                            ));
                            lemma_flatten_error_stays(trees, i + 1, depth as nat);
                        }
                        return Err(DecodeError::MalformedReceiptEntry { index: i });
                    },
                    Item::List(members) => {
                        assert(item@->List_0 =~= trees_of(members@));
                        if depth == 0 {
                            proof {
                                assert(here == Err::<Seq<ReceiptModel>, DecodeError>(
                                    DecodeError::DecodeDepthExceeded,
                                ));
                                lemma_flatten_error_stays(trees, i + 1, depth as nat);
                            }
                            return Err(DecodeError::DecodeDepthExceeded);
                        }
                        assert(here == flatten(trees_of(members@), (depth - 1) as nat));
                        match flatten_items(members, depth - 1) {
                            Err(e) => {
                                proof {
                                    lemma_flatten_error_stays(trees, i + 1, depth as nat);
                                }
                                return Err(e);
                            },
                            Ok(inner) => {
                                let mut inner = inner;
                                let ghost more = models_of(inner@);
                                batch.append(&mut inner);
                                assert(models_of(batch@) =~= before + more);
                            },
                        }
                    },
                },
            }
        }
        i += 1;
    }
    assert(trees.subrange(0, i as int) =~= trees);
    Ok(batch)
}

impl Receipt {
    /// Decodes the batch that `root` holds: the receipts among its members,
    /// in the order in which a walk from left to right, entering each list
    /// that is not itself a receipt, meets them. Placeholders are passed
    /// over. A scalar root holds no receipts.
    pub fn decode_receipt_vec(root: &Item) -> (r: Result<Vec<Receipt>, DecodeError>)
        ensures
            match r {
                Ok(batch) => batch_of(root@) == Ok::<Seq<ReceiptModel>, DecodeError>(
                    models_of(batch@),
                ),
                Err(e) => batch_of(root@) == Err::<Seq<ReceiptModel>, DecodeError>(e),
            },
    {
        match root {
            Item::Scalar(_) => {
                let batch: Vec<Receipt> = Vec::new();
                assert(models_of(batch@) =~= Seq::<ReceiptModel>::empty());
                Ok(batch)
            },
            Item::List(members) => {
                assert(root@->List_0 =~= trees_of(members@));
                flatten_items(members, MAX_DEPTH - 1)
            },
        }
    }
}

/// The batch that the content of an export holds. The first byte is a
/// marker that is passed over; the item after it is the root. Content
/// without a root holds no receipts, content without a marker is cut short.
pub open spec fn spec_from_bytes(data: Seq<u8>) -> Result<Seq<ReceiptModel>, DecodeError> {
    if data.len() == 0 {
        Err(DecodeError::TruncatedInput { offset: 0 })
    } else if data.len() == 1 {
        Ok(Seq::empty())
    } else {
        match spec_read(data, 1) {
            Err(e) => Err(e),
            Ok((root, _)) => batch_of(root),
        }
    }
}

/// Whether `r` is the outcome of decoding the content `data`.
pub open spec fn is_decoding_of(data: Seq<u8>, r: Result<Vec<Receipt>, DecodeError>) -> bool {
    match r {
        Ok(batch) => spec_from_bytes(data) == Ok::<Seq<ReceiptModel>, DecodeError>(
            models_of(batch@),
        ),
        Err(e) => spec_from_bytes(data) == Err::<Seq<ReceiptModel>, DecodeError>(e),
    }
}

impl Receipt {
    /// Decodes the receipts of an export from its whole content. Offsets in
    /// errors count from the start of `data`.
    pub fn from_bytes(data: &[u8]) -> (r: Result<Vec<Receipt>, DecodeError>)
        ensures
            is_decoding_of(data@, r),
    {
        if data.len() == 0 {
            return Err(DecodeError::TruncatedInput { offset: 0 });
        }
        if data.len() == 1 {
            let batch: Vec<Receipt> = Vec::new();
            assert(models_of(batch@) =~= Seq::<ReceiptModel>::empty());
            return Ok(batch);
        }
        match read_at(data, 1, data.len(), MAX_NESTING) {
            Err(e) => Err(e),
            Ok((root, _)) => Receipt::decode_receipt_vec(&root),
        }
    }
}

} // verus!

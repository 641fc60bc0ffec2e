//! Fixed-width values that receipt fields hold, and how scalars become them.

use vstd::prelude::*;
use vstd::utf8::{decode_utf8, valid_utf8};
use crate::reader::{be_value, lemma_be_value_bound, pow256};

verus! {

/// A 32-byte hash.
#[derive(Clone, Copy, Debug, PartialEq, Eq)]
pub struct H256(pub [u8; 32]);

/// A 256-bit unsigned integer, kept as its 32 bytes, most significant first.
#[derive(Clone, Copy, Debug, PartialEq, Eq)]
pub struct U256(pub [u8; 32]);

impl View for H256 {
    type V = Seq<u8>;

    open spec fn view(&self) -> Seq<u8> {
        self.0@
    }
}

impl View for U256 {
    type V = nat;

    open spec fn view(&self) -> nat {
        be_value(self.0@)
    }
}

/// Whether `bytes` write an unsigned integer of at most `width` bytes in the
/// shortest form: no more than `width` bytes, the first of them not zero.
pub open spec fn is_uint(bytes: Seq<u8>, width: nat) -> bool {
    bytes.len() <= width && (bytes.len() > 0 ==> bytes[0] != 0)
}

/// Zero bytes in front do not change the number written.
pub proof fn lemma_be_value_padded(zeros: Seq<u8>, bytes: Seq<u8>)
    requires
        forall|i: int| 0 <= i < zeros.len() ==> zeros[i] == 0,
    ensures
        be_value(zeros + bytes) == be_value(bytes),
    decreases bytes.len(), zeros.len(),
{
    if bytes.len() > 0 {
        assert((zeros + bytes).drop_last() =~= zeros + bytes.drop_last());
        lemma_be_value_padded(zeros, bytes.drop_last());
    } else {
        assert(zeros + bytes =~= zeros);
        if zeros.len() > 0 {
            assert(zeros.drop_last() + bytes =~= zeros.drop_last());
            lemma_be_value_padded(zeros.drop_last(), bytes);
        }
    }
}

/// The unsigned integer of at most eight bytes that `bytes` write, if they
/// write one in the shortest form. No bytes write zero.
pub fn uint_from_bytes(bytes: &[u8], width: usize) -> (r: Option<u64>)
    requires
        width <= 8,
    ensures
        r is Some <==> is_uint(bytes@, width as nat),
        r matches Some(v) ==> v == be_value(bytes@) && v < pow256(width as nat),
{
    let n: usize = bytes.len();
    if n > width || (n > 0 && bytes[0] == 0) {
        None
    } else {
        let v = crate::reader::read_be(bytes, 0, n);
        proof {
            assert(bytes@.subrange(0, n as int) =~= bytes@);
            lemma_be_value_bound(bytes@);
            lemma_pow256_monotonic(n as nat, width as nat);
        }
        Some(v)
    }
}

/// Powers of 256 grow with the exponent.
pub proof fn lemma_pow256_monotonic(a: nat, b: nat)
    requires
        a <= b,
    ensures
        pow256(a) <= pow256(b),
        pow256(a) >= 1,
    decreases b,
{
    if a < b {
        lemma_pow256_monotonic(a, (b - 1) as nat);
    } else if a > 0 {
        lemma_pow256_monotonic((a - 1) as nat, (a - 1) as nat);
    }
}

impl U256 {
    /// The 256-bit integer that `bytes` write, if they write one in the
    /// shortest form.
    pub fn from_be_slice(bytes: &[u8]) -> (r: Option<U256>)
        ensures
            r is Some <==> is_uint(bytes@, 32),
            r matches Some(v) ==> v@ == be_value(bytes@),
    {
        let n: usize = bytes.len();
        if n > 32 || (n > 0 && bytes[0] == 0) {
            return None;
        }
        let mut out: [u8; 32] = [0u8; 32];
        let gap: usize = 32 - n;
        let mut i: usize = 0;
        while i < n
            invariant
                i <= n <= 32,
                gap == 32 - n,
                n == bytes@.len(),
                forall|k: int| 0 <= k < gap ==> out@[k] == 0,
                forall|k: int| 0 <= k < i ==> out@[gap + k] == bytes@[k],
            decreases n - i,
        {
            out[gap + i] = bytes[i];
            i += 1;
        }
        proof {
            let zeros = out@.subrange(0, gap as int);
            assert(out@ =~= zeros + bytes@);
            lemma_be_value_padded(zeros, bytes@);
        }
        Some(U256(out))
    }
}

impl H256 {
    /// The hash that `bytes` are, if there are exactly 32 of them.
    pub fn from_slice(bytes: &[u8]) -> (r: Option<H256>)
        ensures
            r is Some <==> bytes@.len() == 32,
            r matches Some(h) ==> h@ == bytes@,
    {
        if bytes.len() != 32 {
            return None;
        }
        let mut out: [u8; 32] = [0u8; 32];
        let mut i: usize = 0;
        while i < 32
            invariant
                i <= 32,
                bytes@.len() == 32,
                forall|k: int| 0 <= k < i ==> out@[k] == bytes@[k],
            decreases 32 - i,
        {
            out[i] = bytes[i];
            i += 1;
        }
        assert(out@ =~= bytes@);
        Some(H256(out))
    }
}

/// The text that `bytes` encode.
///
/// Calls `String::from_utf8`, which gives the string whose UTF-8 encoding the
/// bytes are and fails exactly when they are not valid UTF-8.
#[verifier::external_body]
pub(crate) fn text_from_utf8(bytes: Vec<u8>) -> (r: Option<String>)
    ensures
        r is Some <==> valid_utf8(bytes@),
        r matches Some(s) ==> s@ == decode_utf8(bytes@),
{
    match String::from_utf8(bytes) {
        Ok(s) => Some(s),
        Err(_) => None,
    }
}

} // verus!

//! Why a decode was abandoned.

use vstd::prelude::*;

verus! {

/// A failed decode. Every variant aborts the decode of the whole buffer.
#[derive(Clone, Copy, Debug, PartialEq, Eq, Structural)]
pub enum DecodeError {
    /// The item whose control byte stands at `offset` states more payload
    /// bytes than are left for it, or `offset` is where a control byte was
    /// expected and none is left.
    TruncatedInput { offset: usize },
    /// The item whose control byte stands at `offset` has a length prefix
    /// that is cut short, out of the representable range, or not in its
    /// shortest form.
    InvalidLengthEncoding { offset: usize },
    /// Sibling number `index` of some list is a non-empty scalar where a
    /// receipt, a placeholder or a further list is expected.
    MalformedReceiptEntry { index: usize },
    /// Lists are nested more deeply than the decoder follows them.
    DecodeDepthExceeded,
}

impl DecodeError {
    /// Whether two errors are of one kind, whatever position each names.
    pub open spec fn same_kind(self, other: DecodeError) -> bool {
        match self {
            DecodeError::TruncatedInput { .. } => other is TruncatedInput,
            DecodeError::InvalidLengthEncoding { .. } => other is InvalidLengthEncoding,
            DecodeError::MalformedReceiptEntry { .. } => other is MalformedReceiptEntry,
            DecodeError::DecodeDepthExceeded => other is DecodeDepthExceeded,
        }
    }

    /// A one-line description for reports.
    pub fn describe(&self) -> (text: &'static str)
        ensures
            text@ == (match *self {
                DecodeError::TruncatedInput { .. } => "truncated input"@,
                DecodeError::InvalidLengthEncoding { .. } => "invalid length encoding"@,
                DecodeError::MalformedReceiptEntry { .. } => "malformed receipt entry"@,
                DecodeError::DecodeDepthExceeded => "decode depth exceeded"@,
            }),
    {
        match self {
            DecodeError::TruncatedInput { .. } => "truncated input",
            DecodeError::InvalidLengthEncoding { .. } => "invalid length encoding",
            DecodeError::MalformedReceiptEntry { .. } => "malformed receipt entry",
            DecodeError::DecodeDepthExceeded => "decode depth exceeded",
        }
    }
}

} // verus!

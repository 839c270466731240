use vstd::prelude::*;

verus! {

/// Why decoding or encoding a DNS value failed.
#[derive(Clone, Copy, Debug, PartialEq, Eq, Structural)]
pub enum DnsError {
    /// Fewer than two bytes: there is no transaction id to answer to.
    MissingId,
    /// The header's response bit is set on what should be a query.
    NotAQuery,
    /// A domain name is malformed, or points to an offset never registered.
    CorruptName,
    /// A question ends before its type and class.
    TruncatedQuestion,
    /// A type code outside the supported set.
    InvalidType(u16),
    /// A class code outside the supported set.
    InvalidClass(u16),
    /// Only names without a compression pointer can be compressed.
    AlreadyCompressed,
    /// The text is not four period-separated decimal octets.
    InvalidAddress,
}

} // verus!

//! Prefix extractors: pure functions from a key to the bucket it belongs to.

use vstd::prelude::*;

verus! {

/// A prefix extractor. It names the keys it applies to (its domain) and maps
/// each of them to a prefix; keys with the same prefix form a bucket.
pub trait SliceTransform {
    /// The extractor applies to `key`.
    spec fn domain(&self, key: Seq<u8>) -> bool;

    /// The prefix of a key of the domain.
    spec fn prefix(&self, key: Seq<u8>) -> Seq<u8>;

    /// The prefix of `key`, a part of `key` itself.
    fn transform<'a>(&self, key: &'a [u8]) -> (p: &'a [u8])
        requires
            self.domain(key@),
        ensures
            p@ == self.prefix(key@),
    ;

    /// Whether the extractor applies to `key`.
    fn in_domain(&self, key: &[u8]) -> (b: bool)
        ensures
            b == self.domain(key@),
    ;
}

/// The extractor that takes the first `prefix_len` bytes of a key. It applies
/// to the keys that have that many bytes.
#[derive(Clone, Copy, Debug)]
pub struct FixedPrefixTransform {
    pub prefix_len: usize,
}

impl SliceTransform for FixedPrefixTransform {
    open spec fn domain(&self, key: Seq<u8>) -> bool {
        key.len() >= self.prefix_len
    }

    open spec fn prefix(&self, key: Seq<u8>) -> Seq<u8> {
        key.subrange(0, self.prefix_len as int)
    }

    fn transform<'a>(&self, key: &'a [u8]) -> (p: &'a [u8]) {
        let p = &key[0..self.prefix_len];
        p
    }

    fn in_domain(&self, key: &[u8]) -> (b: bool) {
        key.len() >= self.prefix_len
    }
}

/// The extractor that drops the last `suffix_len` bytes of a key. It applies
/// to the keys that have that many bytes.
#[derive(Clone, Copy, Debug)]
pub struct FixedSuffixTransform {
    pub suffix_len: usize,
}

impl SliceTransform for FixedSuffixTransform {
    open spec fn domain(&self, key: Seq<u8>) -> bool {
        key.len() >= self.suffix_len
    }

    open spec fn prefix(&self, key: Seq<u8>) -> Seq<u8> {
        key.subrange(0, key.len() - self.suffix_len)
    }

    fn transform<'a>(&self, key: &'a [u8]) -> (p: &'a [u8]) {
        let p = &key[0..key.len() - self.suffix_len];
        p
    }

    fn in_domain(&self, key: &[u8]) -> (b: bool) {
        key.len() >= self.suffix_len
    }
}

} // verus!

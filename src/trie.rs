//! Lookups in the code point tries of `icu_collections`, and the conversion
//! of code points to `char`.

use vstd::prelude::*;
use icu_collections::codepointtrie::{CodePointTrie, CodePointTrieHeader, TrieType};
use zerovec::ZeroVec;

verus! {

/// The fixed fields of a code point trie, as its serialized form gives them.
#[derive(Clone, Copy, Debug, PartialEq, Eq)]
pub struct TrieHeader {
    pub high_start: u32,
    pub shifted12_high_start: u16,
    pub index3_null_offset: u16,
    pub data_null_offset: u32,
    pub null_value: u32,
    /// `true` for the "small" trie type, `false` for the "fast" one.
    pub small: bool,
}

/// A code point trie of 32-bit values (`icu_collections::CodePointTrie`).
#[verifier::external_body]
pub struct CodePointMap32 {
    trie: CodePointTrie<'static, u32>,
}

/// A code point trie of 8-bit values (`icu_collections::CodePointTrie`).
#[verifier::external_body]
pub struct CodePointMap8 {
    trie: CodePointTrie<'static, u8>,
}

/// The value that a trie of 32-bit values holds for each code point.
pub uninterp spec fn trie_values32(t: CodePointMap32) -> Map<u32, u32>;

/// The value that a trie of 8-bit values holds for each code point.
pub uninterp spec fn trie_values8(t: CodePointMap8) -> Map<u32, u8>;

impl CodePointMap32 {
    /// Relies on `CodePointTrie::try_new`: a trie from its header, index and
    /// data arrays, refused only where `data` is empty. Lookups read the
    /// last two entries of `data` (the value above `high_start` and the error
    /// value) at offsets computed in `u32`, so `data` holds at least those
    /// two and no more entries than a `u32` counts.
    #[verifier::external_body]
    pub fn try_new(header: TrieHeader, index: Vec<u16>, data: Vec<u32>) -> (r: Option<CodePointMap32>)
        requires
            2 <= data@.len() <= u32::MAX,
        ensures
            r is Some,
    {
        let header = CodePointTrieHeader {
            high_start: header.high_start,
            shifted12_high_start: header.shifted12_high_start,
            index3_null_offset: header.index3_null_offset,
            data_null_offset: header.data_null_offset,
            null_value: header.null_value,
            trie_type: if header.small { TrieType::Small } else { TrieType::Fast },
        };
        let trie = CodePointTrie::try_new(header, ZeroVec::alloc_from_slice(&index), ZeroVec::alloc_from_slice(&data));
        trie.ok().map(|trie| CodePointMap32 { trie })
    }

    /// Relies on `CodePointTrie::get32`: the value that the trie holds for
    /// `c` (its error value beyond the code point range).
    #[verifier::external_body]
    pub fn get32(&self, c: u32) -> (r: u32)
        ensures
            r == trie_values32(*self)[c],
    {
        self.trie.get32(c)
    }
}

impl CodePointMap8 {
    /// Relies on `CodePointTrie::try_new`: a trie from its header, index and
    /// data arrays, refused only where `data` is empty. Lookups read the
    /// last two entries of `data` (the value above `high_start` and the error
    /// value) at offsets computed in `u32`, so `data` holds at least those
    /// two and no more entries than a `u32` counts.
    #[verifier::external_body]
    pub fn try_new(header: TrieHeader, index: Vec<u16>, data: Vec<u8>) -> (r: Option<CodePointMap8>)
        requires
            2 <= data@.len() <= u32::MAX,
        ensures
            r is Some,
    {
        let header = CodePointTrieHeader {
            high_start: header.high_start,
            shifted12_high_start: header.shifted12_high_start,
            index3_null_offset: header.index3_null_offset,
            data_null_offset: header.data_null_offset,
            null_value: header.null_value,
            trie_type: if header.small { TrieType::Small } else { TrieType::Fast },
        };
        let trie = CodePointTrie::try_new(header, ZeroVec::alloc_from_slice(&index), ZeroVec::alloc_from_slice(&data));
        trie.ok().map(|trie| CodePointMap8 { trie })
    }

    /// Relies on `CodePointTrie::get32`: the value that the trie holds for
    /// `c` (its error value beyond the code point range).
    #[verifier::external_body]
    pub fn get32(&self, c: u32) -> (r: u8)
        ensures
            r == trie_values8(*self)[c],
    {
        self.trie.get32(c)
    }
}

/// Unicode scalar values: code points other than surrogates.
pub open spec fn is_scalar(v: u32) -> bool {
    v < 0xD800 || (0xE000 <= v && v <= 0x10FFFF)
}

/// `v` where it is a scalar value, else U+FFFD REPLACEMENT CHARACTER.
pub open spec fn scalar_or_replacement(v: u32) -> u32 {
    if is_scalar(v) {
        v
    } else {
        0xFFFD
    }
}

/// Relies on `char::from_u32`: `Some` exactly for scalar values, holding
/// the `char` of that value.
#[verifier::external_body]
pub(crate) fn char_from_u32(v: u32) -> (r: Option<char>)
    ensures
        r is Some <==> is_scalar(v),
        r matches Some(c) ==> c as u32 == v,
{
    char::from_u32(v)
}

/// The `char` of `v`, or U+FFFD where `v` is not a scalar value.
pub fn char_or_replacement(v: u32) -> (r: char)
    ensures
        r as u32 == scalar_or_replacement(v),
{
    match char_from_u32(v) {
        Some(c) => c,
        None => '\u{FFFD}',
    }
}

} // verus!

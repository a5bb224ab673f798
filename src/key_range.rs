//! Half-open ranges of keys, with the single-key, from-key and all-keys
//! encodings.
use vstd::prelude::*;

use crate::bytes::{bytes_eq, compare_bytes, lex_le, lex_lt};

verus! {

/// A range of keys `[start, end)`.
///
/// An empty `end` names the single key `start`; an `end` of `[0]` is
/// unbounded above, and with a `start` of `[0]` the range holds every key.
#[derive(Clone, Debug)]
pub struct KeyRange {
    /// First key of the range.
    pub start: Vec<u8>,
    /// End marker of the range.
    pub end: Vec<u8>,
}

/// Whether `k` lies in the range encoded by `start` and `end`.
pub open spec fn range_contains(start: Seq<u8>, end: Seq<u8>, k: Seq<u8>) -> bool {
    if end.len() == 0 {
        k == start
    } else if end == seq![0u8] {
        start == seq![0u8] || lex_le(start, k)
    } else {
        lex_le(start, k) && lex_lt(k, end)
    }
}

/// The end marker of the range of all keys that start with `p`: `p` with
/// trailing `0xff` bytes dropped and its last byte then incremented, or `[0]`
/// when no byte is below `0xff`.
pub open spec fn prefix_end(p: Seq<u8>) -> Seq<u8>
    decreases p.len(),
{
    if p.len() == 0 {
        seq![0u8]
    } else if p.last() < 0xff {
        p.drop_last().push((p.last() + 1) as u8)
    } else {
        prefix_end(p.drop_last())
    }
}

impl KeyRange {
    /// The range of the single key `key`.
    pub fn new_one_key(key: Vec<u8>) -> (r: KeyRange)
        ensures
            r.start@ == key@,
            r.end@.len() == 0,
    {
        KeyRange { start: key, end: Vec::new() }
    }

    /// Whether `key` lies in this range.
    pub fn contains_key(&self, key: &[u8]) -> (r: bool)
        ensures
            r == range_contains(self.start@, self.end@, key@),
    {
        if self.end.len() == 0 {
            return bytes_eq(key, self.start.as_slice());
        }
        let zero: [u8; 1] = [0u8];
        let end_is_zero = bytes_eq(self.end.as_slice(), zero.as_slice());
        assert(zero@ =~= seq![0u8]);
        if end_is_zero {
            if bytes_eq(self.start.as_slice(), zero.as_slice()) {
                return true;
            }
            return compare_bytes(self.start.as_slice(), key) <= 0;
        }
        compare_bytes(self.start.as_slice(), key) <= 0 && compare_bytes(key, self.end.as_slice()) < 0
    }

    /// The end marker of the range of keys with prefix `key`.
    pub fn get_prefix(key: &[u8]) -> (r: Vec<u8>)
        ensures
            r@ == prefix_end(key@),
    {
        let mut i: usize = key.len();
        assert(key@.subrange(0, i as int) =~= key@);
        while i > 0
            invariant
                i <= key@.len(),
                prefix_end(key@) == prefix_end(key@.subrange(0, i as int)),
            decreases i,
        {
            let last = key[i - 1];
            assert(key@.subrange(0, i as int).drop_last() =~= key@.subrange(0, i - 1));
            if last < 0xff {
                let mut out: Vec<u8> = Vec::new();
                let mut j: usize = 0;
                while j < i - 1
                    invariant
                        j <= i - 1,
                        i <= key@.len(),
                        out@ =~= key@.subrange(0, j as int),
                    decreases i - 1 - j,
                {
                    out.push(key[j]);
                    j = j + 1;
                }
                out.push(last + 1);
                return out;
            }
            i = i - 1;
        }
        assert(key@.subrange(0, 0) =~= Seq::<u8>::empty());
        vec![0u8]
    }
}

} // verus!

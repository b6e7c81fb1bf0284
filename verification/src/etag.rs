//! Presentation of store-assigned tags: object stores return etags wrapped
//! in quote characters, and the process-facing surface prints the tag with
//! the surrounding quotes stripped.

use vstd::prelude::*;

verus! {

/// The quote byte `"` that stores wrap etags in.
pub const QUOTE: u8 = 34;

/// `bytes` with every leading quote removed.
pub open spec fn trim_leading_quotes(bytes: Seq<u8>) -> Seq<u8>
    decreases bytes.len(),
{
    if bytes.len() > 0 && bytes.first() == QUOTE {
        trim_leading_quotes(bytes.drop_first())
    } else {
        bytes
    }
}

/// `bytes` with every trailing quote removed.
pub open spec fn trim_trailing_quotes(bytes: Seq<u8>) -> Seq<u8>
    decreases bytes.len(),
{
    if bytes.len() > 0 && bytes.last() == QUOTE {
        trim_trailing_quotes(bytes.drop_last())
    } else {
        bytes
    }
}

/// `bytes` with the surrounding quotes stripped from both ends.
pub open spec fn trim_quotes(bytes: Seq<u8>) -> Seq<u8> {
    trim_trailing_quotes(trim_leading_quotes(bytes))
}

/// Strip the quote characters surrounding a store-assigned tag, as the
/// process-facing surface prints it.  Interior bytes are untouched.
pub fn strip_surrounding_quotes(bytes: &Vec<u8>) -> (r: Vec<u8>)
    ensures
        r@ == trim_quotes(bytes@),
{
    let n = bytes.len();
    proof {
        assert(bytes@.skip(0) =~= bytes@);
    }
    let mut lo: usize = 0;
    while lo < n && bytes[lo] == QUOTE
        invariant
            n == bytes@.len(),
            lo <= n,
            trim_leading_quotes(bytes@) == trim_leading_quotes(bytes@.skip(lo as int)),
        decreases n - lo,
    {
        proof {
            assert(bytes@.skip(lo as int).first() == bytes@[lo as int]);
            assert(bytes@.skip(lo as int).drop_first() =~= bytes@.skip(lo as int + 1));
        }
        lo = lo + 1;
    }
    proof {
        if lo < n {
            assert(bytes@.skip(lo as int).first() == bytes@[lo as int]);
            assert(trim_leading_quotes(bytes@.skip(lo as int)) == bytes@.skip(lo as int));
        } else {
            assert(bytes@.skip(lo as int) =~= Seq::<u8>::empty());
        }
    }
    let mut hi: usize = n;
    while hi > lo && bytes[hi - 1] == QUOTE
        invariant
            n == bytes@.len(),
            lo <= hi <= n,
            trim_leading_quotes(bytes@) == bytes@.skip(lo as int),
            trim_trailing_quotes(bytes@.skip(lo as int)) == trim_trailing_quotes(
                bytes@.subrange(lo as int, hi as int),
            ),
        decreases hi,
    {
        proof {
            assert(bytes@.subrange(lo as int, hi as int).last() == bytes@[hi - 1]);
            assert(bytes@.subrange(lo as int, hi as int).drop_last() =~= bytes@.subrange(
                lo as int,
                hi as int - 1,
            ));
        }
        hi = hi - 1;
    }
    proof {
        assert(bytes@.skip(lo as int) =~= bytes@.subrange(lo as int, n as int));
        if hi > lo {
            assert(bytes@.subrange(lo as int, hi as int).last() == bytes@[hi - 1]);
            assert(trim_trailing_quotes(bytes@.subrange(lo as int, hi as int)) == bytes@.subrange(
                lo as int,
                hi as int,
            ));
        } else {
            assert(bytes@.subrange(lo as int, hi as int) =~= Seq::<u8>::empty());
        }
    }
    let mut trimmed: Vec<u8> = Vec::new();
    let mut i: usize = lo;
    while i < hi
        invariant
            n == bytes@.len(),
            lo <= i <= hi <= n,
            trimmed@ =~= bytes@.subrange(lo as int, i as int),
        decreases hi - i,
    {
        trimmed.push(bytes[i]);
        i = i + 1;
    }
    proof {
        assert(trimmed@ =~= bytes@.subrange(lo as int, hi as int));
    }
    trimmed
}

} // verus!

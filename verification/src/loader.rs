//! Normalizing a raw file image into searchable text.
//!
//! A FASTA file is treated as one undifferentiated byte stream: the loader
//! removes every newline byte (`0x0A`) and keeps everything else, header
//! characters included, in its original order. Reading the file from disk is
//! the caller's business; this module holds the pure transformation.

use vstd::prelude::*;

verus! {

/// The newline byte that the loader removes.
pub const NEWLINE: u8 = 10;

/// The bytes of `s` that are not the newline byte, in their original order.
pub open spec fn stripped(s: Seq<u8>) -> Seq<u8> {
    s.filter(|b: u8| b != NEWLINE)
}

/// Removes every newline byte from `data` in place, preserving the relative
/// order of the remaining bytes, and returns the compacted buffer.
///
/// A single linear pass keeps a write cursor `j`: each non-newline byte read
/// at `i` is written at `j`, and the buffer is truncated to `j` afterwards.
pub fn strip_newlines(data: Vec<u8>) -> (r: Vec<u8>)
    ensures
        r@ == stripped(data@),
{
    let mut d = data;
    let n = d.len();
    let mut j: usize = 0;
    let mut i: usize = 0;
    while i < n
        invariant
            n == d@.len(),
            n == data@.len(),
            j <= i <= n,
            forall|k: int| i <= k < n ==> #[trigger] d@[k] == data@[k],
            d@.subrange(0, j as int) == stripped(data@.subrange(0, i as int)),
        decreases n - i,
    {
        let ghost pre = d@;
        let b = d[i];
        proof {
            assert(data@.subrange(0, i as int + 1).drop_last() =~= data@.subrange(0, i as int));
            reveal_with_fuel(Seq::filter, 2);
        }
        if b != NEWLINE {
            d[j] = b;
            proof {
                assert(d@.subrange(0, j as int + 1) =~= pre.subrange(0, j as int).push(b));
            }
            j += 1;
        }
        i += 1;
    }
    proof {
        assert(data@.subrange(0, n as int) =~= data@);
    }
    d.truncate(j);
    d
}

} // verus!

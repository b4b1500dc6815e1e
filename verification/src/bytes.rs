//! Sparse byte contents: the mathematical model of an object's bytes and the
//! executable operations on the locally cached buffer.
//!
//! An object's content is a byte sequence whose length is the object size.
//! Writing past the end grows the content, and every byte that was never
//! written reads as zero, which is the sparse-file contract: untouched ranges
//! are logically zero-filled.

use vstd::prelude::*;

verus! {

/// The content after writing `b` at `pos`: the sequence grows to cover the
/// written range, bytes of the range come from `b`, bytes below the old
/// length keep their value, and any gap between the old end and `pos` is
/// zero-filled.
pub open spec fn splice_bytes(d: Seq<u8>, pos: int, b: Seq<u8>) -> Seq<u8> {
    let new_len = if d.len() >= pos + b.len() {
        d.len() as int
    } else {
        pos + b.len()
    };
    Seq::new(
        new_len as nat,
        |i: int|
            if pos <= i < pos + b.len() {
                b[i - pos]
            } else if i < d.len() {
                d[i]
            } else {
                0u8
            },
    )
}

/// The content after truncating (or growing) to length `n`: bytes below
/// `min(n, d.len())` keep their value and bytes beyond the old end are zero.
pub open spec fn resize_bytes(d: Seq<u8>, n: int) -> Seq<u8> {
    Seq::new(n as nat, |i: int| if i < d.len() { d[i] } else { 0u8 })
}

/// How many bytes a read at `pos` asking for `len` bytes returns: the request
/// is capped at end-of-file, never served beyond it.
pub open spec fn read_len(d: Seq<u8>, pos: int, len: int) -> int {
    if pos + len <= d.len() {
        len
    } else {
        d.len() - pos
    }
}

/// The bytes a read at `pos` asking for `len` bytes returns, for
/// `0 <= pos <= d.len()`.
pub open spec fn read_window(d: Seq<u8>, pos: int, len: int) -> Seq<u8> {
    d.subrange(pos, pos + read_len(d, pos, len))
}

/// Write `length` bytes of `buffer` into `data` at `position`, growing and
/// zero-filling `data` as needed.
pub fn splice_into(data: &mut Vec<u8>, position: usize, buffer: &Vec<u8>, length: usize)
    requires
        length <= buffer.len(),
        position + length <= usize::MAX,
    ensures
        final(data)@ == splice_bytes(old(data)@, position as int, buffer@.take(length as int)),
{
    let end = position + length;
    let target = if end > data.len() {
        end
    } else {
        data.len()
    };
    proof {
        assert(data@ =~= resize_bytes(old(data)@, data@.len() as int));
    }
    while data.len() < target
        invariant
            old(data)@.len() <= data@.len() <= target,
            data@ == resize_bytes(old(data)@, data@.len() as int),
            target <= usize::MAX,
        decreases target - data.len(),
    {
        data.push(0u8);
        proof {
            assert(data@ =~= resize_bytes(old(data)@, data@.len() as int));
        }
    }
    let ghost padded = data@;
    let mut j: usize = 0;
    while j < length
        invariant
            length <= buffer.len(),
            position + length <= usize::MAX,
            j <= length,
            data@.len() == padded.len(),
            position + length <= padded.len(),
            padded == resize_bytes(old(data)@, padded.len() as int),
            padded.len() == (if position + length > old(data)@.len() {
                (position + length) as int
            } else {
                old(data)@.len() as int
            }),
            forall|i: int|
                0 <= i < data@.len() && !(position <= i < position + j) ==> data@[i] == padded[i],
            forall|i: int| position <= i < position + j ==> data@[i] == buffer@[i - position],
        decreases length - j,
    {
        data.set(position + j, buffer[j]);
        j += 1;
    }
    proof {
        let s = splice_bytes(old(data)@, position as int, buffer@.take(length as int));
        assert(buffer@.take(length as int).len() == length);
        assert(data@.len() == s.len());
        assert forall|i: int| 0 <= i < data@.len() implies data@[i] == s[i] by {
            if position <= i < position + length {
                assert(data@[i] == buffer@[i - position]);
                assert(s[i] == buffer@.take(length as int)[i - position]);
            } else {
                assert(data@[i] == padded[i]);
            }
        }
        assert(data@ =~= s);
    }
}

/// Read up to `length` bytes of `data` starting at `position` into `out`,
/// replacing its previous contents; returns how many bytes were read.
pub fn read_into(data: &Vec<u8>, position: usize, length: usize, out: &mut Vec<u8>) -> (n: usize)
    requires
        position <= data.len(),
    ensures
        n as int == read_len(data@, position as int, length as int),
        final(out)@ == read_window(data@, position as int, length as int),
{
    out.clear();
    let n = if length <= data.len() - position {
        length
    } else {
        data.len() - position
    };
    let mut j: usize = 0;
    while j < n
        invariant
            position + n <= data.len(),
            j <= n,
            out@ =~= data@.subrange(position as int, position + j),
        decreases n - j,
    {
        out.push(data[position + j]);
        proof {
            assert(out@ =~= data@.subrange(position as int, position + j + 1));
        }
        j += 1;
    }
    proof {
        assert(out@ =~= read_window(data@, position as int, length as int));
    }
    n
}

/// Truncate or grow `data` to length `size`, zero-filling any growth.
pub fn resize_to(data: &mut Vec<u8>, size: usize)
    ensures
        final(data)@ == resize_bytes(old(data)@, size as int),
{
    if size <= data.len() {
        data.truncate(size);
        proof {
            assert(data@ =~= resize_bytes(old(data)@, size as int));
        }
    } else {
        proof {
            assert(data@ =~= resize_bytes(old(data)@, data@.len() as int));
        }
        while data.len() < size
            invariant
                old(data)@.len() <= data@.len() <= size,
                data@ == resize_bytes(old(data)@, data@.len() as int),
            decreases size - data.len(),
        {
            data.push(0u8);
            proof {
                assert(data@ =~= resize_bytes(old(data)@, data@.len() as int));
            }
        }
    }
}

/// Round trip: writing `b` at `pos` and reading the same range back returns
/// exactly `b`, for every content `d` and every non-negative position.
pub proof fn lemma_write_read_round_trip(d: Seq<u8>, pos: int, b: Seq<u8>)
    requires
        0 <= pos,
    ensures
        read_window(splice_bytes(d, pos, b), pos, b.len() as int) == b,
{
    assert(read_window(splice_bytes(d, pos, b), pos, b.len() as int) =~= b);
}

/// Zero fill on growth: after resizing to `n`, every byte at or beyond the
/// old end reads as zero, not as stale data.
pub proof fn lemma_resize_zero_fill(d: Seq<u8>, n: int, i: int)
    requires
        d.len() <= i < n,
    ensures
        resize_bytes(d, n)[i] == 0u8,
{
}

/// Zero fill on a gapped write: writing at `pos` beyond the old end leaves
/// every byte between the old end and `pos` zero.
pub proof fn lemma_write_gap_zero_fill(d: Seq<u8>, pos: int, b: Seq<u8>, i: int)
    requires
        0 <= pos,
        d.len() <= i < pos,
    ensures
        splice_bytes(d, pos, b)[i] == 0u8,
{
}

/// Truncation discards: every byte readable after resizing to `n` is either
/// an original byte from below `n` or zero, so no byte beyond the truncation
/// point is ever resurrected by a later read.
pub proof fn lemma_truncate_then_read(d: Seq<u8>, n: int, pos: int, len: int)
    requires
        0 <= pos <= n,
        0 <= len,
    ensures
        forall|j: int|
            0 <= j < read_window(resize_bytes(d, n), pos, len).len()
                ==> read_window(resize_bytes(d, n), pos, len)[j] == (if pos + j < d.len() && pos + j
                < n {
                d[pos + j]
            } else {
                0u8
            }),
{
}

} // verus!

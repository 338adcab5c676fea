//! Runs of chunks laid end to end, and what the scan over chunk headers
//! finds in them.

use crate::layout::well_framed_leaf;
use crate::riff::{chunk_end, declared_size, scan_count, scan_nth, tag_at, well_framed, ReadError};
use vstd::prelude::*;

verus! {

/// Whether the bytes from `pos` to `end` are whole chunks laid end to end,
/// each with a tag that `allowed` holds.
pub open spec fn chunks_between(buf: Seq<u8>, pos: int, end: int, allowed: Set<Seq<u8>>) -> bool
    decreases end - pos,
{
    pos == end || (pos < end && well_framed(buf, pos) && chunk_end(buf, pos) <= end
        && allowed.contains(tag_at(buf, pos)) && chunks_between(
        buf,
        chunk_end(buf, pos),
        end,
        allowed,
    ))
}

/// The offsets of the chunks tagged `tag` among the chunks laid end to end
/// from `pos` to `end`, in order.
pub open spec fn tagged(buf: Seq<u8>, tag: Seq<u8>, pos: int, end: int) -> Seq<int>
    decreases end - pos,
{
    if pos >= end || !well_framed(buf, pos) || chunk_end(buf, pos) > end {
        Seq::empty()
    } else if tag_at(buf, pos) == tag {
        seq![pos] + tagged(buf, tag, chunk_end(buf, pos), end)
    } else {
        tagged(buf, tag, chunk_end(buf, pos), end)
    }
}

/// A run of chunks none of which may carry the tag holds no chunk with
/// that tag.
pub proof fn lemma_tagged_none(
    buf: Seq<u8>,
    tag: Seq<u8>,
    pos: int,
    end: int,
    allowed: Set<Seq<u8>>,
)
    requires
        chunks_between(buf, pos, end, allowed),
        !allowed.contains(tag),
    ensures
        tagged(buf, tag, pos, end) == Seq::<int>::empty(),
    decreases end - pos,
{
    if pos < end {
        lemma_tagged_none(buf, tag, chunk_end(buf, pos), end, allowed);
    }
}

/// Two runs of chunks, one behind the other, are one run, and what is
/// tagged in it is what is tagged in the first and then in the second.
pub proof fn lemma_chunks_join(
    buf: Seq<u8>,
    tag: Seq<u8>,
    pos: int,
    mid: int,
    end: int,
    first: Set<Seq<u8>>,
    second: Set<Seq<u8>>,
)
    requires
        chunks_between(buf, pos, mid, first),
        chunks_between(buf, mid, end, second),
    ensures
        chunks_between(buf, pos, end, first.union(second)),
        tagged(buf, tag, pos, end) == tagged(buf, tag, pos, mid) + tagged(buf, tag, mid, end),
        pos <= mid <= end,
    decreases mid - pos,
{
    lemma_chunks_order(buf, mid, end, second);
    if pos < mid {
        lemma_chunks_join(buf, tag, chunk_end(buf, pos), mid, end, first, second);
        let next = chunk_end(buf, pos);
        assert(tagged(buf, tag, pos, end) =~= tagged(buf, tag, pos, mid) + tagged(
            buf,
            tag,
            mid,
            end,
        ));
    } else {
        lemma_chunks_widen(buf, mid, end, second, first.union(second));
        assert(tagged(buf, tag, pos, mid) =~= Seq::<int>::empty());
        assert(tagged(buf, tag, pos, end) =~= tagged(buf, tag, pos, mid) + tagged(
            buf,
            tag,
            mid,
            end,
        ));
    }
}

/// A run of chunks does not end before it starts.
pub proof fn lemma_chunks_order(buf: Seq<u8>, pos: int, end: int, allowed: Set<Seq<u8>>)
    requires
        chunks_between(buf, pos, end, allowed),
    ensures
        pos <= end,
{
}

/// A run of chunks stays one where more tags are allowed.
pub proof fn lemma_chunks_widen(
    buf: Seq<u8>,
    pos: int,
    end: int,
    allowed: Set<Seq<u8>>,
    wider: Set<Seq<u8>>,
)
    requires
        chunks_between(buf, pos, end, allowed),
        allowed.subset_of(wider),
    ensures
        chunks_between(buf, pos, end, wider),
    decreases end - pos,
{
    if pos < end {
        lemma_chunks_widen(buf, chunk_end(buf, pos), end, allowed, wider);
    }
}

/// Whether a chunk tagged `own` with `size` bytes of content stands whole
/// at `pos`.
pub open spec fn frame_at(buf: Seq<u8>, pos: int, own: Seq<u8>, size: int) -> bool {
    &&& 0 <= pos
    &&& 0 <= size
    &&& pos + 12 + size <= buf.len()
    &&& tag_at(buf, pos) == own
    &&& declared_size(buf, pos) == size
}

/// A chunk without children that stands whole at `pos` is a chunk that
/// stands whole at `pos`.
pub proof fn lemma_leaf_frame(buf: Seq<u8>, pos: int, own: Seq<u8>, size: int)
    requires
        well_framed_leaf(buf, pos, own, size),
        0 <= size,
    ensures
        frame_at(buf, pos, own, size),
{
}

/// One chunk is a run of chunks, and is what is tagged in it where it
/// carries the tag asked for.
pub proof fn lemma_chunks_one(buf: Seq<u8>, tag: Seq<u8>, pos: int, own: Seq<u8>, size: int)
    requires
        frame_at(buf, pos, own, size),
    ensures
        chunks_between(buf, pos, pos + 12 + size, set![own]),
        chunk_end(buf, pos) == pos + 12 + size,
        tagged(buf, tag, pos, pos + 12 + size) == if own == tag {
            seq![pos]
        } else {
            Seq::<int>::empty()
        },
{
    let end = pos + 12 + size;
    assert(chunk_end(buf, pos) == end);
    assert(chunks_between(buf, end, end, set![own]));
    assert(tagged(buf, tag, end, end) =~= Seq::<int>::empty());
    assert(tagged(buf, tag, pos, end) =~= if own == tag {
        seq![pos]
    } else {
        Seq::<int>::empty()
    });
}

/// In a buffer that is a run of chunks from `pos` to its end, the scan
/// counts the chunks that are tagged, and finds the `n`-th such chunk where
/// the `n`-th tagged chunk stands.
pub proof fn lemma_scan_finds_tagged(
    buf: Seq<u8>,
    tag: Seq<u8>,
    pos: int,
    allowed: Set<Seq<u8>>,
    n: int,
)
    requires
        chunks_between(buf, pos, buf.len() as int, allowed),
    ensures
        scan_count(buf, tag, pos) == Ok::<int, ReadError>(
            tagged(buf, tag, pos, buf.len() as int).len() as int,
        ),
        1 <= n <= tagged(buf, tag, pos, buf.len() as int).len() ==> scan_nth(buf, tag, pos, n)
            == Ok::<int, ReadError>(tagged(buf, tag, pos, buf.len() as int)[n - 1]),
        !(1 <= n <= tagged(buf, tag, pos, buf.len() as int).len()) ==> scan_nth(buf, tag, pos, n)
            == Err::<int, ReadError>(ReadError::NotFound),
    decreases buf.len() - pos,
{
    let end = buf.len() as int;
    if pos < end {
        let next = chunk_end(buf, pos);
        lemma_scan_finds_tagged(buf, tag, next, allowed, n);
        lemma_scan_finds_tagged(buf, tag, next, allowed, n - 1);
    }
}

} // verus!

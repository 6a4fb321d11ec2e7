//! Splitting a byte range of a container into ranges of its fixed-size children.

use vstd::arithmetic::div_mod::{lemma_div_is_ordered_by_denominator, lemma_div_pos_is_pos, lemma_fundamental_div_mod, lemma_mod_bound};
use vstd::prelude::*;

verus! {

/// A contiguous range `[offset, offset + len)` inside the container numbered `index`.
#[derive(Debug, Clone, Copy, PartialEq, Eq, Structural)]
pub struct Span {
    pub index: u64,
    pub offset: u64,
    pub len: u64,
}

/// The length of the piece that starts at `pos` and stops at the next child
/// boundary or at `end`, whichever comes first.
pub open spec fn piece_len(pos: int, end: int, child: int) -> int {
    if end - pos < child - pos % child {
        end - pos
    } else {
        child - pos % child
    }
}

/// The child spans that cover `[pos, end)`, in increasing order, for children of
/// `child` bytes.
pub open spec fn split_spec(pos: int, end: int, child: int) -> Seq<Span>
    decreases end - pos,
{
    if pos >= end || child <= 0 || pos < 0 {
        Seq::empty()
    } else {
        let l = piece_len(pos, end, child);
        if l <= 0 {
            Seq::empty()
        } else {
            seq![Span { index: (pos / child) as u64, offset: (pos % child) as u64, len: l as u64 }]
                + split_spec(pos + l, end, child)
        }
    }
}

/// The integers `start, start + 1, ..., start + n - 1`.
pub open spec fn int_range(start: int, n: int) -> Seq<int> {
    Seq::new(n as nat, |i: int| start + i)
}

/// The positions, relative to the parent container, that `spans` cover in order.
pub open spec fn span_positions(spans: Seq<Span>, child: int) -> Seq<int>
    decreases spans.len(),
{
    if spans.len() == 0 {
        Seq::empty()
    } else {
        int_range(spans[0].index * child + spans[0].offset, spans[0].len as int) + span_positions(
            spans.drop_first(),
            child,
        )
    }
}

/// `positions` moved up by `delta`.
pub open spec fn shift(positions: Seq<int>, delta: int) -> Seq<int> {
    positions.map_values(|p: int| p + delta)
}

/// The chunk-relative positions covered when every span of `blocks` (relative to
/// blocks of `block_size` bytes) is split again into pages of `page_size` bytes.
pub open spec fn nested_positions(blocks: Seq<Span>, block_size: int, page_size: int) -> Seq<int>
    decreases blocks.len(),
{
    if blocks.len() == 0 {
        Seq::empty()
    } else {
        let b = blocks[0];
        shift(
            span_positions(
                split_spec(b.offset as int, b.offset + b.len, page_size),
                page_size,
            ),
            b.index * block_size,
        ) + nested_positions(blocks.drop_first(), block_size, page_size)
    }
}

/// Splitting `[pos, end)` into children covers every position of it exactly once,
/// in increasing order.
pub proof fn lemma_split_covers(pos: int, end: int, child: int)
    requires
        0 <= pos <= end <= u64::MAX,
        0 < child <= u64::MAX,
    ensures
        span_positions(split_spec(pos, end, child), child) == int_range(pos, end - pos),
    decreases end - pos,
{
    if pos < end {
        let l = piece_len(pos, end, child);
        lemma_fundamental_div_mod(pos, child);
        lemma_mod_bound(pos, child);
        lemma_div_pos_is_pos(pos, child);
        lemma_div_is_ordered_by_denominator(pos, 1, child);
        lemma_split_covers(pos + l, end, child);
        let s = split_spec(pos, end, child);
        assert(s.drop_first() == split_spec(pos + l, end, child));
        let q = pos / child;
        assert(pos / 1 == pos);
        assert(0 <= q <= pos);
        assert(s[0].index == q);
        assert(s[0].offset == pos % child);
        assert(q * child == child * q) by (nonlinear_arith);
        assert(s[0].index * child + s[0].offset == pos);
        assert(int_range(pos, l) + int_range(pos + l, end - (pos + l)) =~= int_range(pos, end - pos));
    } else {
        assert(int_range(pos, 0) =~= Seq::<int>::empty());
    }
}

/// Each span produced by a split stays inside one child.
pub proof fn lemma_split_within_child(pos: int, end: int, child: int, k: int)
    requires
        0 <= pos <= end <= u64::MAX,
        0 < child <= u64::MAX,
        0 <= k < split_spec(pos, end, child).len(),
    ensures
        split_spec(pos, end, child)[k].offset + split_spec(pos, end, child)[k].len <= child,
        split_spec(pos, end, child)[k].len > 0,
    decreases end - pos,
{
    let l = piece_len(pos, end, child);
    lemma_mod_bound(pos, child);
    lemma_div_pos_is_pos(pos, child);
    lemma_div_is_ordered_by_denominator(pos, 1, child);
    if k > 0 {
        lemma_split_within_child(pos + l, end, child, k - 1);
    }
}

proof fn lemma_nested_is_flat(blocks: Seq<Span>, block_size: int, page_size: int)
    requires
        0 < page_size <= u64::MAX,
        forall|k: int| 0 <= k < blocks.len() ==> #[trigger] blocks[k].offset + blocks[k].len <= u64::MAX,
    ensures
        nested_positions(blocks, block_size, page_size) == span_positions(blocks, block_size),
    decreases blocks.len(),
{
    if blocks.len() > 0 {
        let b = blocks[0];
        assert(b.offset + b.len <= u64::MAX);
        lemma_split_covers(b.offset as int, b.offset + b.len, page_size);
        assert forall|k: int| 0 <= k < blocks.drop_first().len() implies #[trigger] blocks.drop_first()[k].offset
            + blocks.drop_first()[k].len <= u64::MAX by {
            assert(blocks.drop_first()[k] == blocks[k + 1]);
        }
        lemma_nested_is_flat(blocks.drop_first(), block_size, page_size);
        assert(shift(int_range(b.offset as int, b.len as int), b.index * block_size) =~= int_range(
            b.index * block_size + b.offset,
            b.len as int,
        ));
    }
}

/// Splitting a chunk-relative range into block spans, and each block span into
/// page spans, covers the range exactly once and in order: no gaps, no overlaps.
pub proof fn lemma_block_page_round_trip(
    offset: int,
    length: int,
    chunk_size: int,
    block_size: int,
    page_size: int,
)
    requires
        0 <= offset,
        0 <= length,
        offset + length <= chunk_size <= u64::MAX,
        0 < block_size <= u64::MAX,
        0 < page_size <= u64::MAX,
    ensures
        nested_positions(split_spec(offset, offset + length, block_size), block_size, page_size)
            == int_range(offset, length),
{
    let blocks = split_spec(offset, offset + length, block_size);
    assert forall|k: int| 0 <= k < blocks.len() implies #[trigger] blocks[k].offset + blocks[k].len
        <= u64::MAX by {
        lemma_split_within_child(offset, offset + length, block_size, k);
    }
    lemma_nested_is_flat(blocks, block_size, page_size);
    lemma_split_covers(offset, offset + length, block_size);
}

impl Span {
    pub fn new(index: u64, offset: u64, len: u64) -> (r: Span)
        ensures
            r == (Span { index, offset, len }),
    {
        Span { index, offset, len }
    }

    /// The end of this span, clipped to `container_size` (as a mathematical integer).
    pub open spec fn clipped_end(&self, container_size: u64) -> int {
        if self.offset + self.len > container_size {
            container_size as int
        } else {
            self.offset + self.len
        }
    }

    /// Splits this span, taken relative to a container of `container_size` bytes,
    /// into spans relative to children of `child_size` bytes. A span that reaches
    /// past the container is truncated to it when `clip` holds, and refused otherwise.
    pub fn split_into(&self, container_size: u64, child_size: u64, clip: bool) -> (r: Option<
        Vec<Span>,
    >)
        requires
            child_size > 0,
        ensures
            self.offset + self.len > container_size && !clip ==> r.is_none(),
            self.offset + self.len <= container_size || clip ==> r.is_some() && r.unwrap()@
                == split_spec(
                self.offset as int,
                self.clipped_end(container_size),
                child_size as int,
            ),
    {
        let exceeds = self.offset > container_size || self.len > container_size - self.offset;
        if exceeds && !clip {
            return None;
        }
        let end: u64 = if self.offset > container_size {
            self.offset
        } else if exceeds {
            container_size
        } else {
            self.offset + self.len
        };
        let ghost target = split_spec(self.offset as int, self.clipped_end(container_size), child_size as int);
        assert(target == split_spec(self.offset as int, end as int, child_size as int));
        let mut out: Vec<Span> = Vec::new();
        let mut pos: u64 = self.offset;
        while pos < end
            invariant
                child_size > 0,
                out@ + split_spec(pos as int, end as int, child_size as int) == target,
            decreases end - pos,
        {
            let within = pos % child_size;
            let room = child_size - within;
            let len: u64 = if end - pos < room {
                end - pos
            } else {
                room
            };
            let piece = Span { index: pos / child_size, offset: within, len };
            proof {
                let rest = split_spec(pos + len, end as int, child_size as int);
                assert(split_spec(pos as int, end as int, child_size as int) == seq![piece] + rest);
                assert(out@.push(piece) + rest =~= out@ + (seq![piece] + rest));
            }
            out.push(piece);
            pos = pos + len;
        }
        assert(out@ =~= target);
        Some(out)
    }
}

} // verus!

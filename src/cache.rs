//! The per-chunk write buffer: a flat table of optional pages, written by appends
//! and overwrites, frozen block by block, collected for flushing and released
//! under memory pressure.

use crate::buf::{bytes_prefix, bytes_view, zeros};
use crate::page::{CacheError, Page};
use crate::span::{split_spec, Span};
use bytes::Bytes;
use std::sync::Arc;
use vstd::arithmetic::div_mod::{
    lemma_div_multiples_vanish, lemma_fundamental_div_mod, lemma_fundamental_div_mod_converse,
    lemma_mod_bound, lemma_div_pos_is_pos,
};
use vstd::arithmetic::mul::lemma_mul_inequality;
use vstd::prelude::*;

verus! {

/// The page size a write configuration starts with.
pub const DEFAULT_PAGE_SIZE: u32 = 65536;

/// The fixed sizes of a chunk and of the blocks it is split into.
#[derive(Debug, Clone, Copy, PartialEq, Eq, Structural)]
pub struct ChunkLayout {
    pub chunk_size: u64,
    pub block_size: u32,
}

/// The layout that a write buffer works with, and the size of its pages.
#[derive(Debug, Clone, Copy, PartialEq, Eq, Structural)]
pub struct WriteConfig {
    pub layout: ChunkLayout,
    pub page_size: u32,
}

impl WriteConfig {
    /// Pages divide blocks, blocks divide the chunk, and a chunk offset fits in `usize`.
    pub open spec fn valid(&self) -> bool {
        &&& self.page_size > 0
        &&& self.layout.block_size > 0
        &&& self.layout.block_size % self.page_size == 0
        &&& self.layout.chunk_size % (self.layout.block_size as u64) == 0
        &&& self.layout.chunk_size <= usize::MAX
    }

    pub fn new(layout: ChunkLayout) -> (r: WriteConfig)
        ensures
            r.layout == layout,
            r.page_size == DEFAULT_PAGE_SIZE,
    {
        WriteConfig { layout, page_size: DEFAULT_PAGE_SIZE }
    }

    /// The same configuration with pages of `page_size` bytes.
    pub fn page_size(self, page_size: u32) -> (r: WriteConfig)
        ensures
            r.layout == self.layout,
            r.page_size == page_size,
    {
        WriteConfig { layout: self.layout, page_size }
    }
}

/// How a write relates to the bytes already buffered.
#[derive(Debug, Clone, Copy, PartialEq, Eq, Structural)]
pub enum WriteAction {
    /// It rewrites bytes that are already there.
    Overlap,
    /// It starts exactly where the buffered bytes end.
    Append,
}

/// A snapshot of a write buffer's counters.
#[derive(Debug, Clone, Copy, PartialEq, Eq, Structural)]
pub struct CacheSliceStats {
    pub len: u64,
    pub alloc_bytes: u64,
    pub pages_total: usize,
    pub pages_used: usize,
}

/// The number of pages present in `slots`.
pub open spec fn allocated(slots: Seq<Option<Page>>) -> nat
    decreases slots.len(),
{
    if slots.len() == 0 {
        0
    } else {
        allocated(slots.drop_last()) + if slots.last() is Some {
            1nat
        } else {
            0nat
        }
    }
}

/// `1` for a present page, `0` for a hole.
pub open spec fn present(slot: Option<Page>) -> nat {
    if slot is Some {
        1
    } else {
        0
    }
}

pub proof fn lemma_allocated_bound(slots: Seq<Option<Page>>)
    ensures
        allocated(slots) <= slots.len(),
    decreases slots.len(),
{
    if slots.len() > 0 {
        lemma_allocated_bound(slots.drop_last());
    }
}

pub proof fn lemma_allocated_update(slots: Seq<Option<Page>>, i: int, v: Option<Page>)
    requires
        0 <= i < slots.len(),
    ensures
        allocated(slots.update(i, v)) + present(slots[i]) == allocated(slots) + present(v),
    decreases slots.len(),
{
    let u = slots.update(i, v);
    if i < slots.len() - 1 {
        assert(u.drop_last() =~= slots.drop_last().update(i, v));
        lemma_allocated_update(slots.drop_last(), i, v);
    } else {
        assert(u.drop_last() =~= slots.drop_last());
    }
}

pub proof fn lemma_allocated_concat(a: Seq<Option<Page>>, b: Seq<Option<Page>>)
    ensures
        allocated(a + b) == allocated(a) + allocated(b),
    decreases b.len(),
{
    if b.len() == 0 {
        assert(a + b =~= a);
    } else {
        assert((a + b).drop_last() =~= a + b.drop_last());
        lemma_allocated_concat(a, b.drop_last());
    }
}

pub proof fn lemma_allocated_none(slots: Seq<Option<Page>>)
    requires
        forall|g: int| 0 <= g < slots.len() ==> slots[g] is None,
    ensures
        allocated(slots) == 0,
    decreases slots.len(),
{
    if slots.len() > 0 {
        lemma_allocated_none(slots.drop_last());
    }
}

/// `g * ps <= x` exactly when `g <= x / ps`.
pub proof fn lemma_floor_le(x: int, g: int, ps: int)
    requires
        0 <= x,
        ps > 0,
    ensures
        (g * ps <= x) == (g <= x / ps),
{
    lemma_fundamental_div_mod(x, ps);
    lemma_mod_bound(x, ps);
    let q = x / ps;
    if g <= q {
        assert(g * ps <= q * ps) by (nonlinear_arith)
            requires g <= q, ps > 0;
        assert(q * ps == ps * q) by (nonlinear_arith);
    } else {
        assert(g * ps >= (q + 1) * ps) by (nonlinear_arith)
            requires g >= q + 1, ps > 0;
        assert((q + 1) * ps == ps * q + ps) by (nonlinear_arith);
    }
}

/// The offsets of page `g` are exactly those with `i / ps == g`.
pub proof fn lemma_in_page(i: int, g: int, ps: int)
    requires
        ps > 0,
        0 <= g,
        g * ps <= i < g * ps + ps,
    ensures
        i / ps == g,
        i % ps == i - g * ps,
{
    lemma_fundamental_div_mod_converse(i, ps, g, i - g * ps);
}

/// The sizes that a valid configuration implies.
pub proof fn lemma_layout(cs: int, bs: int, ps: int)
    requires
        cs >= 0,
        bs > 0,
        ps > 0,
        bs % ps == 0,
        cs % bs == 0,
    ensures
        (bs / ps) * ps == bs,
        (cs / bs) * bs == cs,
        (cs / bs) * (bs / ps) * ps == cs,
        (cs / bs) * (bs / ps) == cs / ps,
        bs / ps >= 1,
        cs / bs >= 0,
{
    lemma_fundamental_div_mod(bs, ps);
    lemma_fundamental_div_mod(cs, bs);
    assert((bs / ps) * ps == bs) by (nonlinear_arith)
        requires bs == ps * (bs / ps) + 0;
    assert((cs / bs) * bs == cs) by (nonlinear_arith)
        requires cs == bs * (cs / bs) + 0;
    let n = (cs / bs) * (bs / ps);
    assert(n * ps == cs) by (nonlinear_arith)
        requires (bs / ps) * ps == bs, (cs / bs) * bs == cs, n == (cs / bs) * (bs / ps);
    lemma_div_multiples_vanish(n, ps);
    assert(ps * n == n * ps) by (nonlinear_arith);
    assert(bs / ps >= 1) by (nonlinear_arith)
        requires (bs / ps) * ps == bs, bs > 0, ps > 0;
    lemma_div_pos_is_pos(cs, bs);
}

/// A chunk offset below `n * ps` lies on one of the first `n` pages.
pub proof fn lemma_page_index_bound(i: int, ps: int, n: int)
    requires
        0 <= i,
        ps > 0,
        i < n * ps,
    ensures
        0 <= i / ps < n,
        0 <= i % ps < ps,
{
    lemma_fundamental_div_mod(i, ps);
    lemma_mod_bound(i, ps);
    lemma_div_pos_is_pos(i, ps);
    assert(i / ps < n) by (nonlinear_arith)
        requires i == ps * (i / ps) + i % ps, 0 <= i % ps, i < n * ps, ps > 0;
}

/// The bytes of `parts`, one after another.
pub open spec fn concat_bytes(parts: Seq<Bytes>) -> Seq<u8>
    decreases parts.len(),
{
    if parts.len() == 0 {
        Seq::empty()
    } else {
        concat_bytes(parts.drop_last()) + bytes_view(parts.last())
    }
}

/// The bytes of every block of `blocks`, one after another.
pub open spec fn concat_blocks(blocks: Seq<(usize, Vec<Bytes>)>) -> Seq<u8>
    decreases blocks.len(),
{
    if blocks.len() == 0 {
        Seq::empty()
    } else {
        concat_blocks(blocks.drop_last()) + concat_bytes(blocks.last().1@)
    }
}

pub open spec fn min_int(a: int, b: int) -> int {
    if a < b {
        a
    } else {
        b
    }
}

/// A shared buffer of `n` zero bytes, standing for a hole.
fn zero_bytes(n: usize) -> (r: Bytes)
    ensures
        bytes_view(r) == zeros(n as nat),
{
    let mut v: Vec<u8> = Vec::new();
    let mut i: usize = 0;
    while i < n
        invariant
            i <= n,
            v@ == zeros(i as nat),
        decreases n - i,
    {
        v.push(0u8);
        i = i + 1;
        assert(v@ =~= zeros(i as nat));
    }
    Bytes::from(v)
}

/// Whether page `g` (of `ps` bytes) holds a byte of the non-empty range `[lo, hi)`.
pub open spec fn touches_page(g: int, ps: int, lo: int, hi: int) -> bool {
    lo < hi && g * ps < hi && lo < g * ps + ps
}

/// The number of holes in `slots` among the pages that `[lo, hi)` touches.
pub open spec fn holes_touched(slots: Seq<Option<Page>>, ps: int, lo: int, hi: int) -> nat
    decreases slots.len(),
{
    if slots.len() == 0 {
        0
    } else {
        holes_touched(slots.drop_last(), ps, lo, hi) + if touches_page(slots.len() - 1, ps, lo, hi)
            && slots.last() is None {
            1nat
        } else {
            0nat
        }
    }
}

/// Filling the touched pages of `[lo, hi)` and keeping the others adds one page
/// per touched hole.
pub proof fn lemma_holes_touched(
    old: Seq<Option<Page>>,
    new: Seq<Option<Page>>,
    ps: int,
    lo: int,
    hi: int,
)
    requires
        old.len() == new.len(),
        forall|g: int| 0 <= g < old.len() && touches_page(g, ps, lo, hi) ==> #[trigger] new[g] is Some,
        forall|g: int| 0 <= g < old.len() && !touches_page(g, ps, lo, hi) ==> #[trigger] new[g] == old[g],
    ensures
        allocated(new) == allocated(old) + holes_touched(old, ps, lo, hi),
    decreases old.len(),
{
    if old.len() > 0 {
        let n = old.len() - 1;
        assert forall|g: int| 0 <= g < old.drop_last().len() && touches_page(g, ps, lo, hi) implies #[trigger] new.drop_last()[g]
            is Some by {
            assert(new.drop_last()[g] == new[g]);
        }
        assert forall|g: int| 0 <= g < old.drop_last().len() && !touches_page(g, ps, lo, hi) implies #[trigger] new.drop_last()[g]
            == old.drop_last()[g] by {
            assert(new.drop_last()[g] == new[g]);
        }
        lemma_holes_touched(old.drop_last(), new.drop_last(), ps, lo, hi);
        if touches_page(n, ps, lo, hi) {
            assert(new[n] is Some);
        } else {
            assert(new[n] == old[n]);
        }
    }
}

/// Writing `[pos, pos + l)`, which lies inside page `g`, after `[lo, pos)` adds
/// page `g` to the touched pages and no other.
pub proof fn lemma_touch_step(h: int, g: int, ps: int, lo: int, pos: int, l: int)
    requires
        ps > 0,
        g >= 0,
        h >= 0,
        l > 0,
        lo <= pos,
        g * ps <= pos,
        pos + l <= g * ps + ps,
    ensures
        touches_page(h, ps, lo, pos + l) == (h == g || touches_page(h, ps, lo, pos)),
{
    if h < g {
        assert(h * ps + ps <= g * ps) by (nonlinear_arith)
            requires h < g, ps > 0;
    } else if h > g {
        assert(h * ps >= g * ps + ps) by (nonlinear_arith)
            requires h > g, ps > 0;
    }
}

/// The per-chunk write buffer.
pub struct CacheSlice {
    config: Arc<WriteConfig>,
    len: u64,
    alloc_bytes: u64,
    pages: Vec<Option<Page>>,
}

impl CacheSlice {
    /// The configuration the buffer was made with.
    pub closed spec fn config_view(&self) -> WriteConfig {
        *self.config
    }

    /// The logical length: the number of contiguous bytes written from offset 0.
    pub closed spec fn spec_len(&self) -> u64 {
        self.len
    }

    /// The bytes backed by present pages.
    pub closed spec fn spec_alloc_bytes(&self) -> u64 {
        self.alloc_bytes
    }

    /// The page table, indexed by `block * pages_per_block + page`.
    pub closed spec fn slots(&self) -> Seq<Option<Page>> {
        self.pages@
    }

    pub open spec fn ps(&self) -> int {
        self.config_view().page_size as int
    }

    pub open spec fn bs(&self) -> int {
        self.config_view().layout.block_size as int
    }

    pub open spec fn cs(&self) -> int {
        self.config_view().layout.chunk_size as int
    }

    pub open spec fn ppb(&self) -> int {
        self.bs() / self.ps()
    }

    pub open spec fn nblocks(&self) -> int {
        self.cs() / self.bs()
    }

    /// The buffer's invariant.
    pub open spec fn wf(&self) -> bool {
        &&& self.config_view().valid()
        &&& self.ppb() * self.ps() == self.bs()
        &&& self.nblocks() * self.bs() == self.cs()
        &&& self.slots().len() == self.nblocks() * self.ppb()
        &&& self.slots().len() * self.ps() == self.cs()
        &&& self.ppb() >= 1
        &&& self.slots().len() <= self.cs()
        &&& self.spec_len() <= self.cs()
        &&& forall|g: int|
            0 <= g < self.slots().len() && #[trigger] self.slots()[g] is Some ==> self.slots()[g].unwrap().contents().len()
                == self.ps()
        &&& self.spec_alloc_bytes() == self.ps() * allocated(self.slots())
    }

    /// The byte at chunk offset `i`: from its page where the page is present, zero
    /// in a hole.
    pub open spec fn byte_at(&self, i: int) -> u8 {
        let slot = self.slots()[i / self.ps()];
        if slot is Some {
            slot.unwrap().contents()[i % self.ps()]
        } else {
            0
        }
    }

    /// The logical contents: the first `len` bytes of the chunk.
    pub open spec fn content(&self) -> Seq<u8> {
        Seq::new(self.spec_len() as nat, |i: int| self.byte_at(i))
    }

    /// The same pages present as in `old`, and where one is present, the same bytes.
    pub open spec fn keeps_data(&self, old: &CacheSlice) -> bool {
        &&& self.config_view() == old.config_view()
        &&& self.spec_len() == old.spec_len()
        &&& self.slots().len() == old.slots().len()
        &&& forall|g: int|
            0 <= g < self.slots().len() ==> (#[trigger] self.slots()[g] is Some <==> old.slots()[g] is Some)
                && (self.slots()[g] is Some ==> self.slots()[g].unwrap().contents() == old.slots()[g].unwrap().contents())
    }

    pub proof fn lemma_keeps_content(&self, old: &CacheSlice)
        requires
            self.keeps_data(old),
            old.wf(),
        ensures
            self.content() == old.content(),
    {
        assert forall|i: int| 0 <= i < self.spec_len() implies self.byte_at(i) == old.byte_at(i) by {
            lemma_fundamental_div_mod(i, self.ps());
            lemma_div_pos_is_pos(i, self.ps());
            assert(i / self.ps() < self.slots().len()) by {
                lemma_page_index_bound(i, self.ps(), self.slots().len() as int);
            }
        }
        assert(self.content() =~= old.content());
    }

    /// `self` is `old` with every present page frozen.
    pub open spec fn froze_all(&self, old: &CacheSlice) -> bool {
        &&& self.keeps_data(old)
        &&& self.spec_alloc_bytes() == old.spec_alloc_bytes()
        &&& forall|g: int|
            0 <= g < self.slots().len() && #[trigger] self.slots()[g] is Some ==> self.slots()[g].unwrap().frozen()
        &&& self.content() == old.content()
    }

    /// Freezes every present page; the buffered bytes stay as they are.
    pub fn freeze(&mut self)
        requires
            old(self).wf(),
        ensures
            final(self).wf(),
            final(self).froze_all(old(self)),
    {
        let mut i: usize = 0;
        while i < self.pages.len()
            invariant
                old(self).wf(),
                self.wf(),
                self.keeps_data(old(self)),
                self.spec_alloc_bytes() == old(self).spec_alloc_bytes(),
                i <= self.slots().len(),
                forall|g: int|
                    0 <= g < i && #[trigger] self.slots()[g] is Some ==> self.slots()[g].unwrap().frozen(),
            decreases self.slots().len() - i,
        {
            let ghost before = self.pages@;
            match &mut self.pages[i] {
                Some(page) => page.freeze(),
                None => {},
            }
            proof {
                lemma_allocated_update(before, i as int, self.pages@[i as int]);
            }
            i = i + 1;
        }
        proof {
            self.lemma_keeps_content(old(self));
        }
    }

    /// Freezes the present pages of blocks `[start, end)`; the other pages, and all
    /// bytes, stay as they are.
    pub fn freeze_blocks(&mut self, start: usize, end: usize)
        requires
            old(self).wf(),
            start <= end <= old(self).nblocks(),
        ensures
            final(self).wf(),
            final(self).keeps_data(old(self)),
            final(self).spec_alloc_bytes() == old(self).spec_alloc_bytes(),
            forall|g: int|
                0 <= g < final(self).slots().len() && !(start * old(self).ppb() <= g < end
                    * old(self).ppb()) ==> #[trigger] final(self).slots()[g] == old(self).slots()[g],
            forall|g: int|
                start * old(self).ppb() <= g < end * old(self).ppb() && #[trigger] final(self).slots()[g] is Some ==> final(self).slots()[g].unwrap().frozen(),
            final(self).content() == old(self).content(),
    {
        let pages_per_block = self.pages_per_block();
        proof {
            lemma_mul_inequality(end as int, self.nblocks(), self.ppb());
            lemma_mul_inequality(start as int, end as int, self.ppb());
        }
        let start_idx = start * pages_per_block;
        let end_idx = end * pages_per_block;
        let mut i: usize = start_idx;
        while i < end_idx
            invariant
                old(self).wf(),
                self.wf(),
                self.keeps_data(old(self)),
                self.spec_alloc_bytes() == old(self).spec_alloc_bytes(),
                start_idx <= i <= end_idx <= self.slots().len(),
                start_idx == start * old(self).ppb(),
                end_idx == end * old(self).ppb(),
                forall|g: int|
                    0 <= g < self.slots().len() && !(start_idx <= g < i) ==> #[trigger] self.slots()[g]
                        == old(self).slots()[g],
                forall|g: int|
                    start_idx <= g < i && #[trigger] self.slots()[g] is Some ==> self.slots()[g].unwrap().frozen(),
            decreases end_idx - i,
        {
            let ghost before = self.pages@;
            match &mut self.pages[i] {
                Some(page) => page.freeze(),
                None => {},
            }
            proof {
                lemma_allocated_update(before, i as int, self.pages@[i as int]);
            }
            i = i + 1;
        }
        proof {
            self.lemma_keeps_content(old(self));
        }
    }

    /// Drops every page; returns the bytes they held.
    pub fn release_all(&mut self) -> (r: u64)
        requires
            old(self).wf(),
        ensures
            final(self).wf(),
            r == old(self).spec_alloc_bytes(),
            final(self).spec_alloc_bytes() == 0,
            final(self).config_view() == old(self).config_view(),
            final(self).spec_len() == old(self).spec_len(),
            final(self).slots().len() == old(self).slots().len(),
            forall|g: int| 0 <= g < final(self).slots().len() ==> #[trigger] final(self).slots()[g] is None,
    {
        let freed = self.alloc_bytes;
        let mut i: usize = 0;
        while i < self.pages.len()
            invariant
                self.config_view() == old(self).config_view(),
                self.spec_len() == old(self).spec_len(),
                self.slots().len() == old(self).slots().len(),
                i <= self.slots().len(),
                forall|g: int| 0 <= g < i ==> #[trigger] self.slots()[g] is None,
            decreases self.slots().len() - i,
        {
            self.pages[i] = None;
            i = i + 1;
        }
        self.alloc_bytes = 0;
        proof {
            lemma_allocated_none(self.pages@);
        }
        freed
    }

    /// Whether the page at flat index `g` lies in one of the blocks listed in `idx`.
    pub open spec fn in_released(&self, idx: Seq<usize>, g: int) -> bool {
        exists|k: int| 0 <= k < idx.len() && #[trigger] idx[k] * self.ppb() <= g < idx[k] * self.ppb() + self.ppb()
    }

    /// `self` is `old` without the pages of the blocks listed in `idx`, and `freed`
    /// is what they held.
    pub open spec fn released(&self, old: &CacheSlice, idx: Seq<usize>, freed: u64) -> bool {
        &&& self.config_view() == old.config_view()
        &&& self.spec_len() == old.spec_len()
        &&& self.slots().len() == old.slots().len()
        &&& forall|g: int|
            0 <= g < self.slots().len() ==> #[trigger] self.slots()[g] == if old.in_released(idx, g) {
                None
            } else {
                old.slots()[g]
            }
        &&& freed == old.spec_alloc_bytes() - self.spec_alloc_bytes()
    }

    /// Drops the pages of the blocks listed in `idx` (the eviction step for blocks
    /// already flushed); returns the bytes they held, which `alloc_bytes` loses.
    pub fn release_block(&mut self, idx: Vec<usize>) -> (r: u64)
        requires
            old(self).wf(),
            forall|k: int| 0 <= k < idx@.len() ==> #[trigger] idx@[k] < old(self).nblocks(),
        ensures
            final(self).wf(),
            final(self).released(old(self), idx@, r),
    {
        let page_size = self.config.page_size as u64;
        let pages_per_block = self.pages_per_block();
        let mut freed: u64 = 0;
        let mut k: usize = 0;
        while k < idx.len()
            invariant
                old(self).wf(),
                self.config_view() == old(self).config_view(),
                self.spec_len() == old(self).spec_len(),
                self.spec_alloc_bytes() == old(self).spec_alloc_bytes(),
                self.slots().len() == old(self).slots().len(),
                page_size == self.ps(),
                pages_per_block == self.ppb(),
                k <= idx@.len(),
                forall|j: int| 0 <= j < idx@.len() ==> #[trigger] idx@[j] < old(self).nblocks(),
                forall|g: int|
                    0 <= g < self.slots().len() && #[trigger] self.slots()[g] is Some ==> self.slots()[g].unwrap().contents().len() == self.ps(),
                forall|g: int|
                    0 <= g < self.slots().len() ==> #[trigger] self.slots()[g] == if old(self).in_released(
                        idx@.take(k as int),
                        g,
                    ) {
                        None
                    } else {
                        old(self).slots()[g]
                    },
                freed + self.ps() * allocated(self.slots()) == old(self).spec_alloc_bytes(),
            decreases idx@.len() - k,
        {
            let block_idx = idx[k];
            proof {
                lemma_mul_inequality(block_idx + 1, self.nblocks(), self.ppb());
                assert((block_idx + 1) * self.ppb() == block_idx * self.ppb() + self.ppb()) by (nonlinear_arith);
            }
            let first = block_idx * pages_per_block;
            let last = first + pages_per_block;
            let mut i: usize = first;
            while i < last
                invariant
                    old(self).wf(),
                    self.config_view() == old(self).config_view(),
                    self.spec_len() == old(self).spec_len(),
                    self.spec_alloc_bytes() == old(self).spec_alloc_bytes(),
                    self.slots().len() == old(self).slots().len(),
                    page_size == self.ps(),
                    pages_per_block == self.ppb(),
                    k < idx@.len(),
                    block_idx == idx@[k as int],
                    first == block_idx * self.ppb(),
                    last == first + self.ppb(),
                    first <= i <= last <= self.slots().len(),
                    forall|g: int|
                        0 <= g < self.slots().len() && #[trigger] self.slots()[g] is Some ==> self.slots()[g].unwrap().contents().len() == self.ps(),
                    forall|g: int|
                        0 <= g < self.slots().len() ==> #[trigger] self.slots()[g] == if old(self).in_released(
                            idx@.take(k as int),
                            g,
                        ) || (first <= g < i) {
                            None
                        } else {
                            old(self).slots()[g]
                        },
                    freed + self.ps() * allocated(self.slots()) == old(self).spec_alloc_bytes(),
                decreases last - i,
            {
                let ghost before = self.pages@;
                if self.pages[i].is_some() {
                    self.pages[i] = None;
                    proof {
                        lemma_allocated_update(before, i as int, None);
                        assert(self.ps() * allocated(before) == self.ps() * allocated(self.pages@) + self.ps()) by (nonlinear_arith)
                            requires allocated(before) == allocated(self.pages@) + 1;
                    }
                    freed = freed + page_size;
                }
                i = i + 1;
            }
            proof {
                assert forall|g: int| 0 <= g < self.slots().len() implies #[trigger] self.slots()[g] == if old(self).in_released(
                    idx@.take(k + 1),
                    g,
                ) {
                    None
                } else {
                    old(self).slots()[g]
                } by {
                    let t = idx@.take(k + 1);
                    if old(self).in_released(idx@.take(k as int), g) {
                        let j = choose|j: int| 0 <= j < idx@.take(k as int).len() && #[trigger] idx@.take(k as int)[j] * self.ppb() <= g < idx@.take(k as int)[j] * self.ppb() + self.ppb();
                        assert(t[j] == idx@.take(k as int)[j]);
                    }
                    if first <= g < last {
                        assert(t[k as int] == block_idx);
                    }
                    if old(self).in_released(t, g) {
                        let j = choose|j: int| 0 <= j < t.len() && #[trigger] t[j] * self.ppb() <= g < t[j] * self.ppb() + self.ppb();
                        if j < k {
                            assert(idx@.take(k as int)[j] == t[j]);
                        }
                    }
                }
            }
            k = k + 1;
        }
        proof {
            assert(idx@.take(idx@.len() as int) =~= idx@);
            lemma_allocated_bound(self.pages@);
        }
        self.alloc_bytes = self.alloc_bytes - freed;
        freed
    }

    /// The flat index of page `p` of block `b`.
    pub open spec fn flat(&self, b: int, p: int) -> int {
        b * self.ppb() + p
    }

    /// Whether some frozen page holds a byte of `[lo, hi)`.
    pub open spec fn touches_frozen(&self, lo: int, hi: int) -> bool {
        lo < hi && exists|g: int|
            0 <= g < self.slots().len() && g * self.ps() < hi && lo < g * self.ps() + self.ps()
                && #[trigger] self.slots()[g] is Some && self.slots()[g].unwrap().frozen()
    }

    fn flat_index(&self, block_idx: usize, page_idx: usize, pages_per_block: usize) -> (r: usize)
        requires
            block_idx * pages_per_block + page_idx <= usize::MAX,
        ensures
            r == block_idx * pages_per_block + page_idx,
    {
        block_idx * pages_per_block + page_idx
    }

    fn flat_index_checked(&self, block_idx: usize, page_idx: usize, pages_per_block: usize) -> (r:
        Option<usize>)
        requires
            self.wf(),
            pages_per_block == self.ppb(),
        ensures
            self.flat(block_idx as int, page_idx as int) < self.slots().len() ==> r == Some(
                self.flat(block_idx as int, page_idx as int) as usize,
            ),
            self.flat(block_idx as int, page_idx as int) >= self.slots().len() ==> r is None,
    {
        let total = self.pages.len();
        if block_idx >= total / pages_per_block {
            proof {
                lemma_floor_le(total as int, block_idx as int, pages_per_block as int);
                assert(block_idx * pages_per_block == pages_per_block * block_idx) by (nonlinear_arith);
                assert(total as int == self.nblocks() * self.ppb());
                lemma_div_multiples_vanish(self.nblocks(), self.ppb());
                assert(self.nblocks() * self.ppb() == self.ppb() * self.nblocks()) by (nonlinear_arith);
                lemma_mul_inequality(self.nblocks(), block_idx as int, self.ppb());
            }
            return None;
        }
        proof {
            lemma_floor_le(total as int, block_idx as int + 1, pages_per_block as int);
            assert((block_idx + 1) * pages_per_block == block_idx * pages_per_block + pages_per_block) by (nonlinear_arith);
        }
        let first = block_idx * pages_per_block;
        if page_idx >= total - first {
            return None;
        }
        Some(self.flat_index(block_idx, page_idx, pages_per_block))
    }

    /// Page `page_idx` of block `block_idx`, if that slot exists and holds a page.
    pub fn page(&self, block_idx: usize, page_idx: usize) -> (r: Option<&Page>)
        requires
            self.wf(),
        ensures
            r is Some <==> (self.flat(block_idx as int, page_idx as int) < self.slots().len()
                && self.slots()[self.flat(block_idx as int, page_idx as int)] is Some),
            r is Some ==> *r.unwrap() == self.slots()[self.flat(
                block_idx as int,
                page_idx as int,
            )].unwrap(),
    {
        let pages_per_block = self.pages_per_block();
        match self.flat_index_checked(block_idx, page_idx, pages_per_block) {
            Some(flat_idx) => self.pages[flat_idx].as_ref(),
            None => None,
        }
    }

    /// The page at `flat_idx`, made (zero-filled and mutable) if the slot was a hole.
    fn ensure_page_mut_by_flat(&mut self, flat_idx: usize, page_size: usize) -> (page: &mut Page)
        requires
            old(self).wf(),
            flat_idx < old(self).slots().len(),
            page_size == old(self).ps(),
        ensures
            old(self).slots()[flat_idx as int] is Some ==> *page == old(self).slots()[flat_idx as int].unwrap()
                && final(self).spec_alloc_bytes() == old(self).spec_alloc_bytes(),
            old(self).slots()[flat_idx as int] is None ==> page.contents() == zeros(page_size as nat)
                && !page.frozen() && final(self).spec_alloc_bytes() == old(self).spec_alloc_bytes() + page_size,
            final(self).slots() == old(self).slots().update(flat_idx as int, Some(*final(page))),
            final(self).config_view() == old(self).config_view(),
            final(self).spec_len() == old(self).spec_len(),
    {
        if self.pages[flat_idx].is_none() {
            let fresh = Page::new(page_size);
            proof {
                lemma_allocated_update(self.pages@, flat_idx as int, Some(fresh));
                lemma_allocated_bound(self.pages@.update(flat_idx as int, Some(fresh)));
                lemma_mul_inequality(
                    allocated(self.pages@) as int + 1,
                    self.pages@.len() as int,
                    self.ps(),
                );
                assert((allocated(self.pages@) + 1) * self.ps() == self.ps() * allocated(self.pages@) + self.ps()) by (nonlinear_arith);
            }
            self.pages[flat_idx] = Some(fresh);
            self.alloc_bytes = self.alloc_bytes + page_size as u64;
        }
        self.pages[flat_idx].as_mut().unwrap()
    }

    /// Copies `n` bytes of `buf` from `from` on into page `g` at `within`.
    fn write_page(&mut self, g: usize, within: usize, buf: &[u8], from: usize, n: usize)
        requires
            old(self).wf(),
            g < old(self).slots().len(),
            within + n <= old(self).ps(),
            from + n <= buf@.len(),
            !(old(self).slots()[g as int] is Some && old(self).slots()[g as int].unwrap().frozen()),
        ensures
            final(self).wf(),
            final(self).config_view() == old(self).config_view(),
            final(self).spec_len() == old(self).spec_len(),
            final(self).slots()[g as int] is Some,
            !final(self).slots()[g as int].unwrap().frozen(),
            forall|h: int| 0 <= h < old(self).slots().len() && h != g ==> #[trigger] final(self).slots()[h] == old(self).slots()[h],
            final(self).slots().len() == old(self).slots().len(),
            forall|i: int|
                0 <= i < old(self).cs() ==> #[trigger] final(self).byte_at(i) == if g * old(self).ps() + within <= i
                    < g * old(self).ps() + within + n {
                    buf@[from + i - (g * old(self).ps() + within)]
                } else {
                    old(self).byte_at(i)
                },
    {
        let page_size = self.config.page_size as usize;
        let ghost old_slots = self.pages@;
        let page = self.ensure_page_mut_by_flat(g, page_size);
        let ghost before = *page;
        let _ = page.write_slice(within, buf, from, n);
        proof {
            let ps = self.ps();
            let newp = self.pages@[g as int];
            lemma_allocated_update(old_slots, g as int, newp);
            if old_slots[g as int] is None {
                assert(ps * allocated(self.pages@) == ps * allocated(old_slots) + ps) by (nonlinear_arith)
                    requires allocated(self.pages@) == allocated(old_slots) + 1;
            }
            assert(newp.unwrap().contents().len() == ps);
            assert forall|h: int| 0 <= h < self.slots().len() && #[trigger] self.slots()[h] is Some implies self.slots()[h].unwrap().contents().len() == ps by {
                if h != g {
                    assert(self.slots()[h] == old_slots[h]);
                }
            }
            assert forall|i: int| 0 <= i < self.cs() implies #[trigger] self.byte_at(i) == if g * ps + within <= i < g * ps + within + n {
                buf@[from + i - (g * ps + within)]
            } else {
                old(self).byte_at(i)
            } by {
                lemma_page_index_bound(i, ps, self.slots().len() as int);
                let h = i / ps;
                if h == g {
                    lemma_fundamental_div_mod(i, ps);
                    assert(g * ps == ps * g) by (nonlinear_arith);
                    assert(i % ps == i - g * ps);
                } else {
                    assert(self.slots()[h] == old_slots[h]);
                    if g * ps <= i < g * ps + ps {
                        lemma_in_page(i, g as int, ps);
                    }
                }
            }
        }
    }

    /// Whether some frozen page holds a byte of `[lo, hi)`.
    fn range_has_frozen(&self, lo: u64, hi: u64) -> (r: bool)
        requires
            self.wf(),
            lo <= hi <= self.cs(),
        ensures
            r == self.touches_frozen(lo as int, hi as int),
    {
        if lo >= hi {
            return false;
        }
        let page_size = self.config.page_size as u64;
        let first = (lo / page_size) as usize;
        let last = ((hi - 1) / page_size) as usize;
        proof {
            lemma_page_index_bound(hi - 1, self.ps(), self.slots().len() as int);
            lemma_div_pos_is_pos(lo as int, self.ps());
            assert(lo / page_size <= (hi - 1) as int / page_size as int) by {
                vstd::arithmetic::div_mod::lemma_div_is_ordered(lo as int, hi - 1, self.ps());
            }
        }
        let mut g: usize = first;
        while g <= last
            invariant
                self.wf(),
                page_size == self.ps(),
                first == lo / page_size,
                last == (hi - 1) as int / page_size as int,
                last < self.slots().len(),
                lo < hi <= self.cs(),
                first <= g <= last + 1,
                forall|h: int|
                    first <= h < g ==> !(#[trigger] self.slots()[h] is Some && self.slots()[h].unwrap().frozen()),
            decreases last + 1 - g,
        {
            if let Some(page) = &self.pages[g] {
                if page.is_frozen() {
                    proof {
                        lemma_floor_le(hi - 1, g as int, self.ps());
                        lemma_floor_le(lo as int, g + 1, self.ps());
                        assert((g + 1) * self.ps() == g * self.ps() + self.ps()) by (nonlinear_arith);
                    }
                    return true;
                }
            }
            g = g + 1;
        }
        proof {
            if self.touches_frozen(lo as int, hi as int) {
                let h = choose|h: int|
                    0 <= h < self.slots().len() && h * self.ps() < hi && lo < h * self.ps() + self.ps()
                        && #[trigger] self.slots()[h] is Some && self.slots()[h].unwrap().frozen();
                lemma_floor_le(hi - 1, h, self.ps());
                lemma_floor_le(lo as int, h + 1, self.ps());
                assert((h + 1) * self.ps() == h * self.ps() + self.ps()) by (nonlinear_arith);
                assert(false);
            }
        }
        false
    }

    /// The buffer holds `data` at `offset` (what falls past the chunk is dropped),
    /// and every other byte as `old` held it. Each page that the range touches is
    /// present and mutable, a hole there having been filled with a fresh page; every
    /// other page slot is as it was.
    pub open spec fn writes(&self, old: &CacheSlice, offset: int, data: Seq<u8>) -> bool {
        &&& self.config_view() == old.config_view()
        &&& self.slots().len() == old.slots().len()
        &&& forall|g: int|
            0 <= g < self.slots().len() && touches_page(g, old.ps(), offset, offset + data.len()) ==> #[trigger] self.slots()[g]
                is Some && !self.slots()[g].unwrap().frozen()
        &&& forall|g: int|
            0 <= g < self.slots().len() && !touches_page(g, old.ps(), offset, offset + data.len()) ==> #[trigger] self.slots()[g]
                == old.slots()[g]
        &&& self.spec_alloc_bytes() == old.spec_alloc_bytes() + old.ps() * holes_touched(
            old.slots(),
            old.ps(),
            offset,
            offset + data.len(),
        )
        &&& forall|i: int|
            0 <= i < old.cs() ==> #[trigger] self.byte_at(i) == if offset <= i < offset + data.len() {
                data[i - offset]
            } else {
                old.byte_at(i)
            }
    }

    /// Writes `buf` at chunk offset `offset`, split into block spans and those into
    /// page spans, making pages where there are holes. Nothing is written when a
    /// frozen page lies in the way.
    fn write_range(&mut self, offset: u64, buf: &[u8]) -> (r: Result<(), CacheError>)
        requires
            old(self).wf(),
        ensures
            final(self).wf(),
            final(self).spec_len() == old(self).spec_len(),
            old(self).touches_frozen(offset as int, offset + buf@.len()) ==> r == Err::<(), CacheError>(
                CacheError::FrozenPageWrite,
            ) && *final(self) == *old(self),
            !old(self).touches_frozen(offset as int, offset + buf@.len()) ==> r is Ok
                && final(self).writes(old(self), offset as int, buf@),
            buf@.len() == 0 ==> r is Ok && *final(self) == *old(self),
    {
        if buf.len() == 0 {
            proof {
                assert forall|i: int| 0 <= i < self.cs() implies #[trigger] self.byte_at(i) == self.byte_at(i) by {}
                assert(buf@.len() == 0);
                assert(offset + buf@.len() == offset as int);
                assert(holes_touched(self.slots(), self.ps(), offset as int, offset as int) == 0) by {
                    lemma_holes_touched(self.slots(), self.slots(), self.ps(), offset as int, offset as int);
                }
                assert(self.spec_alloc_bytes() == old(self).spec_alloc_bytes() + old(self).ps() * holes_touched(
                    old(self).slots(), old(self).ps(), offset as int, offset + buf@.len()));
                assert(self.writes(old(self), offset as int, buf@));
            }
            return Ok(());
        }
        let chunk_size = self.config.layout.chunk_size;
        let block_size = self.config.layout.block_size as u64;
        let page_size = self.config.page_size as u64;
        let pages_per_block = self.pages_per_block();
        let n = buf.len() as u64;
        let end: u64 = if offset >= chunk_size {
            chunk_size
        } else if n > chunk_size - offset {
            chunk_size
        } else {
            offset + n
        };
        proof {
            let ps = self.ps();
            if offset < chunk_size {
                assert forall|g: int| 0 <= g < self.slots().len() implies (#[trigger] self.slots()[g] == self.slots()[g]) && g * ps + ps <= chunk_size by {
                    lemma_mul_inequality(g + 1, self.slots().len() as int, ps);
                    assert((g + 1) * ps == g * ps + ps) by (nonlinear_arith);
                }
                assert(self.touches_frozen(offset as int, offset + buf@.len()) == self.touches_frozen(offset as int, end as int));
            } else if self.touches_frozen(offset as int, offset + buf@.len()) {
                let g = choose|g: int|
                    0 <= g < self.slots().len() && g * ps < offset + buf@.len() && offset < g * ps + ps
                        && #[trigger] self.slots()[g] is Some && self.slots()[g].unwrap().frozen();
                lemma_mul_inequality(g + 1, self.slots().len() as int, ps);
                assert((g + 1) * ps == g * ps + ps) by (nonlinear_arith);
            }
        }
        if offset < chunk_size {
            if self.range_has_frozen(offset, end) {
                return Err(CacheError::FrozenPageWrite);
            }
        }
        let span = Span::new(0, offset, n);
        let blocks = span.split_into(chunk_size, block_size, true).unwrap();
        assert(blocks@ == split_spec(offset as int, end as int, block_size as int));
        let mut bi: usize = 0;
        let mut consumed: usize = 0;
        while bi < blocks.len()
            invariant
                old(self).wf(),
                self.wf(),
                self.config_view() == old(self).config_view(),
                self.spec_len() == old(self).spec_len(),
                self.slots().len() == old(self).slots().len(),
                chunk_size == self.cs(),
                block_size == self.bs(),
                page_size == self.ps(),
                pages_per_block == self.ppb(),
                n == buf@.len(),
                end <= chunk_size,
                offset < chunk_size ==> end <= offset + n,
                offset >= chunk_size ==> blocks@.len() == 0,
                offset >= chunk_size ==> consumed == 0,
                offset < chunk_size ==> offset + consumed <= end,
                bi <= blocks@.len(),
                blocks@.skip(bi as int) == split_spec(offset + consumed, end as int, block_size as int),
                !old(self).touches_frozen(offset as int, end as int),
                forall|g: int|
                    0 <= g < self.slots().len() && touches_page(g, page_size as int, offset as int, offset + consumed)
                        ==> #[trigger] self.slots()[g] is Some && !self.slots()[g].unwrap().frozen(),
                forall|g: int|
                    0 <= g < self.slots().len() && !touches_page(g, page_size as int, offset as int, offset + consumed)
                        ==> #[trigger] self.slots()[g] == old(self).slots()[g],
                forall|i: int|
                    0 <= i < self.cs() ==> #[trigger] self.byte_at(i) == if offset <= i < offset + consumed {
                        buf@[i - offset]
                    } else {
                        old(self).byte_at(i)
                    },
            decreases blocks@.len() - bi,
        {
            let block = blocks[bi];
            let ghost pos0: int = offset + consumed;
            let ghost bs = block_size as int;
            let ghost ps = page_size as int;
            proof {
                assert(blocks@.skip(bi as int)[0] == block);
                assert(split_spec(pos0, end as int, bs).len() > 0);
                assert(pos0 < end);
                lemma_mod_bound(pos0, bs);
                lemma_fundamental_div_mod(pos0, bs);
                lemma_page_index_bound(pos0, bs, self.nblocks());
                assert(block.index == pos0 / bs);
                assert(block.offset == pos0 % bs);
                assert(blocks@.skip(bi + 1) =~= split_spec(pos0 + block.len, end as int, bs)) by {
                    assert(blocks@.skip(bi + 1) =~= blocks@.skip(bi as int).drop_first());
                }
                assert(block.index * bs + block.offset == pos0) by (nonlinear_arith)
                    requires pos0 == bs * (pos0 / bs) + pos0 % bs, block.index == pos0 / bs, block.offset == pos0 % bs;
            }
            let page_spans = block.split_into(block_size, page_size, true).unwrap();
            assert(page_spans@ == split_spec(block.offset as int, block.offset + block.len, ps));
            let mut pj: usize = 0;
            let ghost q: int = block.offset as int;
            while pj < page_spans.len()
                invariant
                    old(self).wf(),
                    self.wf(),
                    self.config_view() == old(self).config_view(),
                    self.spec_len() == old(self).spec_len(),
                    self.slots().len() == old(self).slots().len(),
                    chunk_size == self.cs(),
                    block_size == self.bs(),
                    page_size == self.ps(),
                    bs == self.bs(),
                    ps == self.ps(),
                    pages_per_block == self.ppb(),
                    n == buf@.len(),
                    offset < chunk_size,
                    end <= chunk_size,
                    end <= offset + n,
                    block.index < self.nblocks(),
                    block.offset <= q <= block.offset + block.len <= bs,
                    pos0 + block.len <= end,
                    block.index * bs + block.offset == pos0,
                    block.index * bs + q == offset + consumed,
                    offset <= offset + consumed,
                    pj <= page_spans@.len(),
                    page_spans@.skip(pj as int) == split_spec(q, block.offset + block.len, ps),
                    !old(self).touches_frozen(offset as int, end as int),
                    forall|g: int|
                        0 <= g < self.slots().len() && touches_page(g, ps, offset as int, offset + consumed)
                            ==> #[trigger] self.slots()[g] is Some && !self.slots()[g].unwrap().frozen(),
                    forall|g: int|
                        0 <= g < self.slots().len() && !touches_page(g, ps, offset as int, offset + consumed)
                            ==> #[trigger] self.slots()[g] == old(self).slots()[g],
                    forall|i: int|
                        0 <= i < self.cs() ==> #[trigger] self.byte_at(i) == if offset <= i < offset + consumed {
                            buf@[i - offset]
                        } else {
                            old(self).byte_at(i)
                        },
                decreases page_spans@.len() - pj,
            {
                let piece = page_spans[pj];
                let ghost pos: int = offset + consumed;
                let ghost g: int = block.index * self.ppb() + piece.index;
                proof {
                    assert(page_spans@.skip(pj as int)[0] == piece);
                    assert(split_spec(q, block.offset + block.len, ps).len() > 0);
                    assert(q < block.offset + block.len);
                    lemma_mod_bound(q, ps);
                    lemma_fundamental_div_mod(q, ps);
                    lemma_page_index_bound(q, ps, self.ppb());
                    assert(piece.index == q / ps);
                    assert(piece.offset == q % ps);
                    assert(page_spans@.skip(pj + 1) =~= split_spec(q + piece.len, block.offset + block.len, ps)) by {
                        assert(page_spans@.skip(pj + 1) =~= page_spans@.skip(pj as int).drop_first());
                    }
                    lemma_mul_inequality(block.index + 1, self.nblocks(), self.ppb());
                    assert((block.index + 1) * self.ppb() == block.index * self.ppb() + self.ppb()) by (nonlinear_arith);
                    assert(piece.len > 0);
                    assert(g * ps == block.index * bs + piece.index * ps) by (nonlinear_arith)
                        requires g == block.index * self.ppb() + piece.index, self.ppb() * ps == bs;
                    assert(piece.index * ps + piece.offset == q) by (nonlinear_arith)
                        requires q == ps * (q / ps) + q % ps, piece.index == q / ps, piece.offset == q % ps;
                    assert(g * ps + piece.offset == pos);
                    assert(0 <= g < self.slots().len());
                    lemma_mul_inequality(0, block.index as int, self.ppb());
                    if old(self).slots()[g] is Some && old(self).slots()[g].unwrap().frozen() {
                        assert(old(self).slots()[g] == old(self).slots()[g]);
                        assert(g * ps < end as int);
                        assert(offset < g * ps + ps);
                        assert(old(self).touches_frozen(offset as int, end as int));
                    }
                }
                let flat_idx = self.flat_index(block.index as usize, piece.index as usize, pages_per_block);
                self.write_page(flat_idx, piece.offset as usize, buf, consumed, piece.len as usize);
                proof {
                    let l = piece.len as int;
                    assert forall|h: int| 0 <= h < self.slots().len() implies touches_page(h, ps, offset as int, pos + l)
                        == (h == g || touches_page(h, ps, offset as int, pos)) by {
                        lemma_touch_step(h, g, ps, offset as int, pos, l);
                    }
                    q = q + piece.len;
                }
                consumed = consumed + piece.len as usize;
                pj = pj + 1;
            }
            proof {
                if q < block.offset + block.len {
                    lemma_mod_bound(q, ps);
                }
            }
            bi = bi + 1;
        }
        proof {
            if offset < chunk_size && offset + consumed < end {
                lemma_mod_bound(offset + consumed, block_size as int);
            }
            let ps = page_size as int;
            let hi = offset + buf@.len();
            assert forall|g: int| 0 <= g < self.slots().len() implies touches_page(g, ps, offset as int, offset + consumed)
                == touches_page(g, ps, offset as int, hi) by {
                lemma_mul_inequality(g + 1, self.slots().len() as int, ps);
                assert((g + 1) * ps == g * ps + ps) by (nonlinear_arith);
            }
            lemma_holes_touched(old(self).slots(), self.slots(), ps, offset as int, hi);
            let k = holes_touched(old(self).slots(), ps, offset as int, hi);
            let a0 = allocated(old(self).slots());
            let a1 = allocated(self.slots());
            assert(ps * a1 == ps * a0 + ps * k) by (nonlinear_arith)
                requires a1 == a0 + k;
        }
        Ok(())
    }

    /// What an append of `data` to `old` leaves and returns.
    pub open spec fn append_outcome(
        &self,
        old: &CacheSlice,
        data: Seq<u8>,
        r: Result<(), CacheError>,
    ) -> bool {
        if old.spec_len() + data.len() > old.cs() {
            r == Err::<(), CacheError>(CacheError::ChunkOverflow) && *self == *old
        } else if old.touches_frozen(old.spec_len() as int, old.spec_len() + data.len()) {
            r == Err::<(), CacheError>(CacheError::FrozenPageWrite) && *self == *old
        } else {
            &&& r is Ok
            &&& self.writes(old, old.spec_len() as int, data)
            &&& self.spec_len() == old.spec_len() + data.len()
            &&& self.content() == old.content() + data
            &&& data.len() == 0 ==> *self == *old
        }
    }

    /// What an overwrite of `data` at `offset` leaves and returns.
    pub open spec fn write_at_outcome(
        &self,
        old: &CacheSlice,
        offset: int,
        data: Seq<u8>,
        r: Result<(), CacheError>,
    ) -> bool {
        if old.touches_frozen(offset, offset + data.len()) {
            r == Err::<(), CacheError>(CacheError::FrozenPageWrite) && *self == *old
        } else {
            &&& r is Ok
            &&& self.writes(old, offset, data)
            &&& self.spec_len() == old.spec_len()
            &&& data.len() == 0 ==> *self == *old
        }
    }

    /// Overwrites the bytes at `offset` with `buf`; bytes past the chunk are
    /// dropped and the length stays as it is. Fails, writing nothing, when a frozen
    /// page lies in the way.
    pub fn write_at(&mut self, offset: u64, buf: &[u8]) -> (r: Result<(), CacheError>)
        requires
            old(self).wf(),
        ensures
            final(self).wf(),
            final(self).write_at_outcome(old(self), offset as int, buf@, r),
    {
        self.write_range(offset, buf)
    }

    /// Appends `buf` behind the buffered bytes. Fails, changing nothing, when the
    /// chunk would overflow or a frozen page lies in the way.
    pub fn append(&mut self, buf: &[u8]) -> (r: Result<(), CacheError>)
        requires
            old(self).wf(),
        ensures
            final(self).wf(),
            final(self).append_outcome(old(self), buf@, r),
    {
        let max_len = self.config.layout.chunk_size;
        let n = buf.len() as u64;
        if n > max_len - self.len {
            return Err(CacheError::ChunkOverflow);
        }
        let offset = self.len;
        match self.write_range(offset, buf) {
            Ok(()) => {
                let ghost mid = *self;
                self.len = self.len + n;
                proof {
                    assert(self.slots() == mid.slots());
                    assert(self.config_view() == mid.config_view());
                    assert forall|i: int| 0 <= i < self.cs() implies #[trigger] self.byte_at(i) == mid.byte_at(i) by {}
                    assert(self.content() =~= old(self).content() + buf@) by {
                        assert forall|i: int| 0 <= i < self.spec_len() implies self.content()[i] == (old(self).content() + buf@)[i] by {
                            assert(i < self.cs());
                            assert(self.byte_at(i) == mid.byte_at(i));
                        }
                    }
                }
                Ok(())
            },
            Err(e) => Err(e),
        }
    }

    /// Carries out a write that `can_write` classified.
    pub fn write(&mut self, offset: u64, buf: &[u8], action: WriteAction) -> (r: Result<
        (),
        CacheError,
    >)
        requires
            old(self).wf(),
        ensures
            final(self).wf(),
            action == WriteAction::Append ==> final(self).append_outcome(old(self), buf@, r),
            action == WriteAction::Overlap ==> final(self).write_at_outcome(
                old(self),
                offset as int,
                buf@,
                r,
            ),
    {
        match action {
            WriteAction::Append => self.append(buf),
            WriteAction::Overlap => self.write_at(offset, buf),
        }
    }

    /// `part` is what collecting emits for page `j` of the block starting at chunk
    /// offset `block_pos`: the bytes from the page's start up to the page's end or
    /// the logical length, whichever comes first.
    pub open spec fn slot_bytes(&self, block_pos: int, j: int, part: Bytes) -> bool {
        &&& block_pos + j * self.ps() < self.spec_len()
        &&& bytes_view(part) == self.content().subrange(
            block_pos + j * self.ps(),
            min_int(block_pos + j * self.ps() + self.ps(), self.spec_len() as int),
        )
    }

    /// Whether one of the slots that collecting blocks `[start, end)` reads holds a
    /// page that is still mutable.
    pub open spec fn has_unfrozen_slot(&self, start: int, end: int) -> bool {
        exists|g: int|
            start * self.ppb() <= g < end * self.ppb() && 0 <= g < self.slots().len() && g * self.ps()
                < self.spec_len() && #[trigger] self.slots()[g] is Some && !self.slots()[g].unwrap().frozen()
    }

    /// `out` is what collecting blocks `[start, end)` returns: one entry per block
    /// from `start` on, each with one buffer per page slot below `len`, a page's
    /// frozen bytes or zeros for a hole, cut at `len`.
    pub open spec fn collected(&self, start: int, end: int, out: Seq<(usize, Vec<Bytes>)>) -> bool {
        let bs = self.bs();
        let ps = self.ps();
        let len = self.spec_len() as int;
        if len <= start * bs {
            out.len() == 0
        } else {
            &&& out.len() == if end > start {
                end - start
            } else {
                0
            }
            &&& forall|k: int| 0 <= k < out.len() ==> #[trigger] out[k].0 == start + k
            &&& forall|k: int, j: int|
                0 <= k < out.len() && 0 <= j < out[k].1@.len() ==> self.slot_bytes(
                    (start + k) * bs,
                    j,
                    #[trigger] out[k].1@[j],
                )
            &&& forall|k: int|
                0 <= k < out.len() ==> (#[trigger] out[k].1@).len() <= self.ppb() && (out[k].1@.len()
                    == self.ppb() || (start + k) * bs + out[k].1@.len() * ps >= len)
            &&& concat_blocks(out) == self.content().subrange(
                start * bs,
                min_int(if end > start { end } else { start } * bs, len),
            )
        }
    }

    /// What collecting blocks `[start, end)` returns.
    pub open spec fn collect_outcome(
        &self,
        start: int,
        end: int,
        r: Result<Vec<(usize, Vec<Bytes>)>, CacheError>,
    ) -> bool {
        if self.has_unfrozen_slot(start, end) {
            r == Err::<Vec<(usize, Vec<Bytes>)>, CacheError>(CacheError::ReadBeforeFreeze)
        } else {
            r is Ok && self.collected(start, end, r->Ok_0@)
        }
    }

    /// The bytes of blocks `[start, end)` as shared buffers, page by page, up to the
    /// logical length: a frozen page's bytes, or zeros for a hole. Every page read
    /// must be frozen.
    pub fn collect_pages(&self, start: usize, end: usize) -> (r: Result<Vec<(usize, Vec<Bytes>)>, CacheError>)
        requires
            self.wf(),
        ensures
            self.collect_outcome(start as int, end as int, r),
    {
        let page_size = self.config.page_size as usize;
        let block_size = self.config.layout.block_size as usize;
        let pages_per_block = self.pages_per_block();
        let len = self.len as usize;
        let ghost ps = self.ps();
        let ghost bs = self.bs();
        let ghost ppb = self.ppb();
        if start >= self.pages.len() / pages_per_block {
            proof {
                lemma_floor_le(self.slots().len() as int, start as int, ppb);
                lemma_div_multiples_vanish(self.nblocks(), ppb);
                assert(self.nblocks() * ppb == ppb * self.nblocks()) by (nonlinear_arith);
                lemma_mul_inequality(self.nblocks(), start as int, bs);
                assert(start * ppb * ps == start * bs) by (nonlinear_arith)
                    requires ppb * ps == bs;
                if self.has_unfrozen_slot(start as int, end as int) {
                    let g = choose|g: int|
                        start * ppb <= g < end * ppb && 0 <= g < self.slots().len() && g * ps
                            < self.spec_len() && #[trigger] self.slots()[g] is Some && !self.slots()[g].unwrap().frozen();
                    lemma_mul_inequality(start * ppb, g, ps);
                }
            }
            return Ok(Vec::new());
        }
        proof {
            lemma_div_multiples_vanish(self.nblocks(), ppb);
            assert(self.nblocks() * ppb == ppb * self.nblocks()) by (nonlinear_arith);
            lemma_mul_inequality(start + 1, self.nblocks(), bs);
            assert((start + 1) * bs == start * bs + bs) by (nonlinear_arith);
            assert(start * ppb * ps == start * bs) by (nonlinear_arith)
                requires ppb * ps == bs;
        }
        let skip = start * block_size;
        if len <= skip {
            proof {
                if self.has_unfrozen_slot(start as int, end as int) {
                    let g = choose|g: int|
                        start * ppb <= g < end * ppb && 0 <= g < self.slots().len() && g * ps
                            < self.spec_len() && #[trigger] self.slots()[g] is Some && !self.slots()[g].unwrap().frozen();
                    lemma_mul_inequality(start * ppb, g, ps);
                }
            }
            return Ok(Vec::new());
        }
        let mut remaining = len - skip;
        let ghost mut pos: int = skip as int;
        proof {
            assert forall|g: int| start * ppb <= g && 0 <= g < self.slots().len() && #[trigger] self.slots()[g] is Some implies g * ps >= pos by {
                lemma_mul_inequality(start * ppb, g, ps);
            }
        }
        let mut out: Vec<(usize, Vec<Bytes>)> = Vec::new();
        let mut block_idx = start;
        while block_idx < end
            invariant
                self.wf(),
                page_size == ps,
                block_size == bs,
                pages_per_block == ppb,
                ps == self.ps(),
                bs == self.bs(),
                ppb == self.ppb(),
                len == self.spec_len(),
                skip == start * bs,
                skip < len,
                start <= block_idx,
                block_idx <= end || block_idx == start,
                pos + remaining == len,
                remaining > 0 ==> pos == block_idx * bs,
                remaining == 0 ==> pos <= block_idx * bs,
                skip <= pos <= len,
                out@.len() == block_idx - start,
                forall|k: int| 0 <= k < out@.len() ==> #[trigger] out@[k].0 == start + k,
                forall|k: int, j: int|
                    0 <= k < out@.len() && 0 <= j < out@[k].1@.len() ==> self.slot_bytes(
                        (start + k) * bs,
                        j,
                        #[trigger] out@[k].1@[j],
                    ),
                forall|k: int|
                    0 <= k < out@.len() ==> (#[trigger] out@[k].1@).len() <= ppb && (out@[k].1@.len()
                        == ppb || (start + k) * bs + out@[k].1@.len() * ps >= len),
                concat_blocks(out@) == self.content().subrange(skip as int, pos),
                forall|g: int|
                    start * ppb <= g && 0 <= g < self.slots().len() && g * ps < pos ==> !(
                    #[trigger] self.slots()[g] is Some && !self.slots()[g].unwrap().frozen()),
            decreases end - block_idx,
        {
            let mut pages: Vec<Bytes> = Vec::new();
            let mut page_idx: usize = 0;
            let ghost block_pos: int = block_idx * bs;
            while page_idx < pages_per_block && remaining > 0
                invariant
                    self.wf(),
                    page_size == ps,
                    block_size == bs,
                    pages_per_block == ppb,
                    ps == self.ps(),
                    bs == self.bs(),
                    ppb == self.ppb(),
                    len == self.spec_len(),
                    skip == start * bs,
                    skip < len,
                    start <= block_idx < end,
                    block_pos == block_idx * bs,
                    page_idx <= ppb,
                    pos + remaining == len,
                    remaining > 0 ==> pos == block_pos + page_idx * ps,
                    remaining == 0 ==> pos <= block_pos + page_idx * ps,
                    skip <= pos <= len,
                    pages@.len() == page_idx,
                    forall|j: int| 0 <= j < pages@.len() ==> self.slot_bytes(block_pos, j, #[trigger] pages@[j]),
                    concat_blocks(out@) + concat_bytes(pages@) == self.content().subrange(skip as int, pos),
                    forall|g: int|
                        start * ppb <= g && 0 <= g < self.slots().len() && g * ps < pos ==> !(
                        #[trigger] self.slots()[g] is Some && !self.slots()[g].unwrap().frozen()),
                decreases ppb - page_idx,
            {
                let take = if remaining < page_size {
                    remaining
                } else {
                    page_size
                };
                let ghost g: int = block_idx * ppb + page_idx;
                proof {
                    assert(g * ps == block_pos + page_idx * ps) by (nonlinear_arith)
                        requires g == block_idx * ppb + page_idx, ppb * ps == bs, block_pos == block_idx * bs;
                    lemma_page_index_bound(pos, ps, self.slots().len() as int);
                    lemma_in_page(pos, g, ps);
                    lemma_mul_inequality(start as int, block_idx as int, ppb);
                }
                let flat_idx = self.flat_index(block_idx, page_idx, pages_per_block);
                let ghost before = pages@;
                match &self.pages[flat_idx] {
                    Some(page) => {
                        let shared = match page.frozen_bytes() {
                            Ok(b) => b,
                            Err(e) => {
                                proof {
                                    assert(start * ppb <= g < end * ppb) by {
                                        lemma_mul_inequality(block_idx + 1, end as int, ppb);
                                        assert((block_idx + 1) * ppb == block_idx * ppb + ppb) by (nonlinear_arith);
                                    }
                                    assert(self.has_unfrozen_slot(start as int, end as int));
                                }
                                return Err(e);
                            },
                        };
                        let part = bytes_prefix(&shared, take);
                        proof {
                            assert(bytes_view(part) =~= self.content().subrange(pos, pos + take)) by {
                                assert forall|t: int| 0 <= t < take implies bytes_view(part)[t] == self.content()[pos + t] by {
                                    lemma_in_page(pos + t, g, ps);
                                }
                            }
                        }
                        pages.push(part);
                        assert(bytes_view(pages@[page_idx as int]) == self.content().subrange(pos, pos + take));
                    },
                    None => {
                        let part = zero_bytes(take);
                        proof {
                            assert(bytes_view(part) =~= self.content().subrange(pos, pos + take)) by {
                                assert forall|t: int| 0 <= t < take implies bytes_view(part)[t] == self.content()[pos + t] by {
                                    lemma_in_page(pos + t, g, ps);
                                }
                            }
                        }
                        pages.push(part);
                        assert(bytes_view(pages@[page_idx as int]) == self.content().subrange(pos, pos + take));
                    },
                }
                proof {
                    assert(pages@.drop_last() == before);
                    assert forall|j: int| 0 <= j < pages@.len() implies self.slot_bytes(block_pos, j, #[trigger] pages@[j]) by {
                        if j < page_idx {
                            assert(pages@[j] == before[j]);
                        } else {
                            assert(j == page_idx);
                            assert(min_int(block_pos + page_idx * ps + ps, len as int) == pos + take);
                            assert(block_pos + j * ps == pos);
                            assert(bytes_view(pages@[j]) == self.content().subrange(pos, pos + take));
                        }
                    }
                    assert(self.content().subrange(skip as int, pos + take) =~= self.content().subrange(skip as int, pos)
                        + self.content().subrange(pos, pos + take));
                    assert(min_int(block_pos + page_idx * ps + ps, len as int) == pos + take);
                    assert forall|h: int|
                        start * ppb <= h && 0 <= h < self.slots().len() && h * ps < pos + take implies !(
                        #[trigger] self.slots()[h] is Some && !self.slots()[h].unwrap().frozen()) by {
                        if h * ps >= pos {
                            assert(h == g) by (nonlinear_arith)
                                requires h * ps >= g * ps, h * ps < g * ps + ps, ps > 0;
                        }
                    }
                    pos = pos + take;
                }
                proof {
                    assert(block_pos + (page_idx + 1) * ps == block_pos + page_idx * ps + ps) by (nonlinear_arith);
                }
                remaining = remaining - take;
                page_idx = page_idx + 1;
            }
            proof {
                if remaining > 0 {
                    assert(page_idx == ppb);
                    assert(block_pos + ppb * ps == (block_idx + 1) * bs) by (nonlinear_arith)
                        requires block_pos == block_idx * bs, ppb * ps == bs;
                } else {
                    lemma_mul_inequality(page_idx as int, ppb, ps);
                    assert(block_pos + ppb * ps == (block_idx + 1) * bs) by (nonlinear_arith)
                        requires block_pos == block_idx * bs, ppb * ps == bs;
                }
                assert(block_pos == (start + (block_idx - start)) * bs);
            }
            let ghost before = out@;
            out.push((block_idx, pages));
            proof {
                assert(out@.drop_last() == before);
                let k = block_idx - start;
                assert(out@[k].1@ == pages@);
                assert forall|k2: int, j: int|
                    0 <= k2 < out@.len() && 0 <= j < out@[k2].1@.len() implies self.slot_bytes(
                        (start + k2) * bs,
                        j,
                        #[trigger] out@[k2].1@[j],
                    ) by {
                    if k2 < k {
                        assert(out@[k2] == before[k2]);
                    } else {
                        assert(k2 == k);
                        assert(start + k2 == block_idx);
                        assert((start + k2) * bs == block_pos);
                        assert(out@[k2].1@[j] == pages@[j]);
                    }
                }
                assert forall|k2: int|
                    0 <= k2 < out@.len() implies (#[trigger] out@[k2].1@).len() <= ppb && (out@[k2].1@.len()
                        == ppb || (start + k2) * bs + out@[k2].1@.len() * ps >= len) by {
                    if k2 < k {
                        assert(out@[k2] == before[k2]);
                    }
                }
            }
            block_idx = block_idx + 1;
        }
        proof {
            let e = if end > start { end as int } else { start as int };
            assert(block_idx == e);
            assert(pos == min_int(e * bs, len as int));
            if self.has_unfrozen_slot(start as int, end as int) {
                let g = choose|g: int|
                    start * ppb <= g < end * ppb && 0 <= g < self.slots().len() && g * ps
                        < self.spec_len() && #[trigger] self.slots()[g] is Some && !self.slots()[g].unwrap().frozen();
                lemma_mul_inequality(g + 1, end * ppb, ps);
                assert((g + 1) * ps == g * ps + ps) by (nonlinear_arith);
                assert(end * ppb * ps == end * bs) by (nonlinear_arith)
                    requires ppb * ps == bs;
                assert(start < end) by (nonlinear_arith)
                    requires start * ppb <= g, g < end * ppb, ppb >= 1;
                assert(g * ps < pos);
            }
        }
        Ok(out)
    }

    /// An empty buffer for one chunk; every page slot starts as a hole.
    pub fn new(config: Arc<WriteConfig>) -> (r: CacheSlice)
        requires
            config.valid(),
        ensures
            r.wf(),
            r.config_view() == *config,
            r.spec_len() == 0,
            r.spec_alloc_bytes() == 0,
            forall|g: int| 0 <= g < r.slots().len() ==> r.slots()[g] is None,
    {
        let chunk_size = config.layout.chunk_size;
        let block_size = config.layout.block_size as u64;
        let page_size = config.page_size as u64;
        proof {
            lemma_layout(chunk_size as int, block_size as int, page_size as int);
            lemma_fundamental_div_mod(chunk_size as int, page_size as int);
            lemma_div_pos_is_pos(chunk_size as int, page_size as int);
            assert(chunk_size / page_size <= chunk_size) by (nonlinear_arith)
                requires page_size >= 1, (chunk_size / page_size) * page_size == chunk_size;
        }
        let blocks = (chunk_size / block_size) as usize;
        let pages_per_block = (block_size / page_size) as usize;
        let total_pages = blocks * pages_per_block;
        let mut pages: Vec<Option<Page>> = Vec::new();
        let mut i: usize = 0;
        while i < total_pages
            invariant
                i <= total_pages,
                pages@.len() == i,
                forall|g: int| 0 <= g < i ==> pages@[g] is None,
            decreases total_pages - i,
        {
            pages.push(None);
            i = i + 1;
        }
        proof {
            lemma_allocated_none(pages@);
        }
        CacheSlice { config, len: 0, alloc_bytes: 0, pages }
    }

    /// How a write of `len` bytes at `offset` is classified.
    pub open spec fn write_action(&self, offset: int, len: int) -> Option<WriteAction> {
        if offset == self.spec_len() {
            Some(WriteAction::Append)
        } else if offset + len <= self.spec_len() {
            Some(WriteAction::Overlap)
        } else {
            None
        }
    }

    /// What a write of `len` bytes at `offset` would be: an append when it starts
    /// at the end of the buffered bytes, an overlap when it stays inside them, and
    /// refused (`None`) when it would leave a gap.
    pub fn can_write(&self, offset: u64, len: u64) -> (r: Option<WriteAction>)
        ensures
            r == self.write_action(offset as int, len as int),
    {
        if self.can_append(offset) {
            return Some(WriteAction::Append);
        }
        if self.can_write_at(offset, len) {
            return Some(WriteAction::Overlap);
        }
        None
    }

    /// Whether `[offset, offset + len)` lies within the buffered bytes.
    pub fn can_write_at(&self, offset: u64, len: u64) -> (r: bool)
        ensures
            r == (offset + len <= self.spec_len()),
    {
        len <= self.len && offset <= self.len - len
    }

    /// Whether a write at `offset` starts where the buffered bytes end.
    pub fn can_append(&self, offset: u64) -> (r: bool)
        ensures
            r == (offset == self.spec_len()),
    {
        self.len == offset
    }

    pub fn len(&self) -> (r: u64)
        ensures
            r == self.spec_len(),
    {
        self.len
    }

    pub fn block_size(&self) -> (r: u32)
        ensures
            r == self.config_view().layout.block_size,
    {
        self.config.layout.block_size
    }

    pub fn alloc_bytes(&self) -> (r: u64)
        ensures
            r == self.spec_alloc_bytes(),
    {
        self.alloc_bytes
    }

    fn pages_per_block(&self) -> (r: usize)
        requires
            self.wf(),
        ensures
            r == self.ppb(),
    {
        let page_size = self.config.page_size as usize;
        let block_size = self.config.layout.block_size as usize;
        block_size / page_size
    }

    /// The counters the caller schedules flushes and evictions by.
    pub fn stats(&self) -> (r: CacheSliceStats)
        ensures
            r.len == self.spec_len(),
            r.alloc_bytes == self.spec_alloc_bytes(),
            r.pages_total == self.slots().len(),
            r.pages_used == allocated(self.slots()),
    {
        let mut used: usize = 0;
        let mut i: usize = 0;
        while i < self.pages.len()
            invariant
                i <= self.pages@.len(),
                used == allocated(self.pages@.take(i as int)),
            decreases self.pages@.len() - i,
        {
            proof {
                assert(self.pages@.take(i + 1).drop_last() =~= self.pages@.take(i as int));
                lemma_allocated_bound(self.pages@.take(i as int));
            }
            if self.pages[i].is_some() {
                used = used + 1;
            }
            i = i + 1;
        }
        assert(self.pages@.take(i as int) =~= self.pages@);
        CacheSliceStats {
            len: self.len,
            alloc_bytes: self.alloc_bytes,
            pages_total: self.pages.len(),
            pages_used: used,
        }
    }
}

/// A write at the current length is an append; a non-empty write one byte past
/// it is refused.
pub proof fn lemma_can_write_at_len(s: CacheSlice, n: int)
    requires
        n >= 0,
    ensures
        s.write_action(s.spec_len() as int, n) == Some(WriteAction::Append),
        n > 0 ==> s.write_action(s.spec_len() + 1, n) is None,
{
}

/// Appending bytes, freezing, and collecting every block up to the length gives
/// back, byte for byte, what was buffered followed by what was appended.
pub proof fn lemma_append_freeze_collect(
    s0: CacheSlice,
    data: Seq<u8>,
    s1: CacheSlice,
    appended: Result<(), CacheError>,
    s2: CacheSlice,
    end: int,
    collected: Result<Vec<(usize, Vec<Bytes>)>, CacheError>,
)
    requires
        s0.wf(),
        s1.wf(),
        s1.append_outcome(&s0, data, appended),
        appended is Ok,
        s2.wf(),
        s2.froze_all(&s1),
        end * s2.bs() >= s2.spec_len(),
        s2.collect_outcome(0, end, collected),
    ensures
        collected is Ok,
        concat_blocks(collected->Ok_0@) == s0.content() + data,
{
    if s2.has_unfrozen_slot(0, end) {
        let g = choose|g: int|
            0 * s2.ppb() <= g < end * s2.ppb() && 0 <= g < s2.slots().len() && g * s2.ps() < s2.spec_len()
                && #[trigger] s2.slots()[g] is Some && !s2.slots()[g].unwrap().frozen();
        assert(s2.slots()[g].unwrap().frozen());
    }
    let out = collected->Ok_0@;
    if s2.spec_len() == 0 {
        assert(s2.content() =~= Seq::<u8>::empty());
        if out.len() > 0 {
            assert(end > 0);
            assert(s2.content().subrange(0, 0) =~= Seq::<u8>::empty());
        } else {
            assert(out =~= Seq::<(usize, Vec<Bytes>)>::empty());
        }
    } else {
        assert(end > 0) by (nonlinear_arith)
            requires end * s2.bs() >= s2.spec_len(), s2.spec_len() > 0, s2.bs() > 0;
        assert(s2.content().subrange(0, s2.spec_len() as int) =~= s2.content());
    }
}

/// A write shorter than a page into an empty buffer, frozen and collected from
/// the first block on, comes back as one buffer holding exactly the written bytes,
/// while the rest of that page reads as zeros.
pub proof fn lemma_short_write_collects_prefix(
    s0: CacheSlice,
    data: Seq<u8>,
    s1: CacheSlice,
    appended: Result<(), CacheError>,
    s2: CacheSlice,
    end: int,
    collected: Result<Vec<(usize, Vec<Bytes>)>, CacheError>,
)
    requires
        s0.wf(),
        s0.spec_len() == 0,
        s0.cs() > 0,
        forall|g: int| 0 <= g < s0.slots().len() ==> s0.slots()[g] is None,
        0 < data.len() < s0.ps(),
        s1.wf(),
        s1.append_outcome(&s0, data, appended),
        s2.wf(),
        s2.froze_all(&s1),
        end >= 1,
        s2.collect_outcome(0, end, collected),
    ensures
        appended is Ok,
        collected is Ok,
        collected->Ok_0@[0].1@.len() == 1,
        bytes_view(collected->Ok_0@[0].1@[0]) == data,
        forall|i: int| 0 <= i < s2.ps() ==> #[trigger] s2.byte_at(i) == (data + zeros((s2.ps() - data.len()) as nat))[i],
{
    assert(s0.nblocks() >= 1) by (nonlinear_arith)
        requires s0.nblocks() * s0.bs() == s0.cs(), s0.cs() > 0, s0.bs() > 0;
    assert(s0.ps() <= s0.bs()) by (nonlinear_arith)
        requires s0.ppb() * s0.ps() == s0.bs(), s0.ppb() >= 1, s0.ps() > 0;
    assert(s0.bs() <= s0.cs()) by (nonlinear_arith)
        requires s0.nblocks() * s0.bs() == s0.cs(), s0.nblocks() >= 1, s0.bs() > 0;
    assert(!s0.touches_frozen(0, data.len() as int));
    if s2.has_unfrozen_slot(0, end) {
        let g = choose|g: int|
            0 * s2.ppb() <= g < end * s2.ppb() && 0 <= g < s2.slots().len() && g * s2.ps() < s2.spec_len()
                && #[trigger] s2.slots()[g] is Some && !s2.slots()[g].unwrap().frozen();
        assert(s2.slots()[g].unwrap().frozen());
    }
    let out = collected->Ok_0@;
    assert(s2.ps() <= s2.bs()) by (nonlinear_arith)
        requires s2.ppb() * s2.ps() == s2.bs(), s2.ppb() >= 1, s2.ps() > 0;
    assert(s2.spec_len() == data.len());
    assert(s2.spec_len() > 0 * s2.bs());
    assert(out.len() == end);
    let cnt = out[0].1@.len();
    assert(out[0].0 == 0);
    if cnt == 0 {
        assert(0 * s2.bs() + 0 * s2.ps() >= s2.spec_len());
    }
    if cnt >= 2 {
        assert(s2.slot_bytes(0 * s2.bs(), 1, out[0].1@[1]));
        assert(1 * s2.ps() == s2.ps());
    }
    assert(cnt == 1);
    assert(s2.slot_bytes(0 * s2.bs(), 0, out[0].1@[0]));
    assert(s2.content() =~= data) by {
        assert(s2.content() == s1.content());
        assert(s1.content() == s0.content() + data);
        assert(s0.content() =~= Seq::<u8>::empty());
    }
    assert(s2.content().subrange(0, data.len() as int) =~= data);
    assert forall|i: int| 0 <= i < s2.ps() implies #[trigger] s2.byte_at(i) == (data + zeros((s2.ps() - data.len()) as nat))[i] by {
        assert(s2.slots().len() * s2.ps() == s2.cs());
        lemma_page_index_bound(i, s2.ps(), s2.slots().len() as int);
        assert(s2.byte_at(i) == s1.byte_at(i));
        if i >= data.len() {
            lemma_in_page(i, 0, s2.ps());
            assert(s0.byte_at(i) == 0);
        }
    }
}

/// Releasing one block drops each of its pages and lowers `alloc_bytes` by exactly
/// the bytes its present pages held.
pub proof fn lemma_release_one_block(s0: CacheSlice, b: usize, s1: CacheSlice, freed: u64)
    requires
        s0.wf(),
        s1.wf(),
        b < s0.nblocks(),
        s1.released(&s0, seq![b], freed),
    ensures
        freed == s0.ps() * allocated(s0.slots().subrange(b * s0.ppb(), b * s0.ppb() + s0.ppb())),
        s1.spec_alloc_bytes() == s0.spec_alloc_bytes() - freed,
        forall|p: int| 0 <= p < s0.ppb() ==> #[trigger] s1.slots()[s1.flat(b as int, p)] is None,
{
    let ppb = s0.ppb();
    let lo = b * ppb;
    let hi = lo + ppb;
    lemma_mul_inequality(b + 1, s0.nblocks(), ppb);
    assert((b + 1) * ppb == b * ppb + ppb) by (nonlinear_arith);
    let a = s0.slots().subrange(0, lo);
    let m = s0.slots().subrange(lo, hi);
    let c = s0.slots().subrange(hi, s0.slots().len() as int);
    let nm = s1.slots().subrange(lo, hi);
    assert forall|g: int| 0 <= g < s1.slots().len() implies #[trigger] s1.slots()[g] == if lo <= g < hi {
        None
    } else {
        s0.slots()[g]
    } by {
        assert(s1.slots()[g] == if s0.in_released(seq![b], g) { None } else { s0.slots()[g] });
        if lo <= g < hi {
            assert(seq![b][0] == b);
        }
        if s0.in_released(seq![b], g) {
            let k = choose|k: int| 0 <= k < seq![b].len() && #[trigger] seq![b][k] * ppb <= g < seq![b][k] * ppb + ppb;
            assert(k == 0);
        }
    }
    assert(s0.slots() =~= a + m + c);
    assert(s1.slots() =~= a + nm + c);
    lemma_allocated_concat(a, m);
    lemma_allocated_concat(a + m, c);
    lemma_allocated_concat(a, nm);
    lemma_allocated_concat(a + nm, c);
    lemma_allocated_none(nm);
    assert(s0.ps() * allocated(s0.slots()) == s0.ps() * allocated(s1.slots()) + s0.ps() * allocated(m)) by (nonlinear_arith)
        requires allocated(s0.slots()) == allocated(s1.slots()) + allocated(m);
    assert forall|p: int| 0 <= p < ppb implies #[trigger] s1.slots()[s1.flat(b as int, p)] is None by {
        assert(s1.flat(b as int, p) == lo + p);
    }
}

} // verus!

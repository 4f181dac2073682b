//! What allocation and release do to a free list, as functions on sequences
//! of blocks, and the facts about them that the allocator rests on.

use vstd::prelude::*;
use crate::block::{align_up, is_aligned, lemma_align_up, span_of, total_free, well_formed, Block};

verus! {

/// Whether block `b` can serve a request for `size` bytes at alignment
/// `align`: the request's span, placed at the first aligned address of the
/// block, ends within the block.
pub open spec fn fits(b: Block, size: int, align: int) -> bool
    recommends
        align > 0,
{
    align_up(b.addr as int, align) + span_of(size) <= b.end()
}

/// The index of the first block of `list`, at or after `from`, that fits the
/// request; `list.len()` if there is none.
pub open spec fn first_fit_from(list: Seq<Block>, from: int, size: int, align: int) -> int
    decreases list.len() - from,
{
    if from >= list.len() {
        list.len() as int
    } else if fits(list[from], size, align) {
        from
    } else {
        first_fit_from(list, from + 1, size, align)
    }
}

/// The index of the first block of `list` that fits the request;
/// `list.len()` if there is none.
pub open spec fn first_fit(list: Seq<Block>, size: int, align: int) -> int {
    first_fit_from(list, 0, size, align)
}

/// The address that a request is served at: the first aligned address of the
/// first block that fits.  `None` if no block fits.
pub open spec fn placement(list: Seq<Block>, size: int, align: int) -> Option<int> {
    let i = first_fit(list, size, align);
    if i < list.len() {
        Some(align_up(list[i].addr as int, align))
    } else {
        None
    }
}

/// What stays free of block `b` once `span` bytes at `start` are taken out of
/// it: the bytes in front of `start`, if any, then the bytes behind the span,
/// if any.
pub open spec fn remainders(b: Block, start: int, span: int) -> Seq<Block> {
    let front = if b.addr < start {
        seq![Block { addr: b.addr, size: (start - b.addr) as usize }]
    } else {
        Seq::<Block>::empty()
    };
    let back = if start + span < b.end() {
        seq![Block { addr: (start + span) as usize, size: (b.end() - (start + span)) as usize }]
    } else {
        Seq::<Block>::empty()
    };
    front + back
}

/// The free list after `span` bytes at `start` are taken out of block `i`.
pub open spec fn carve(list: Seq<Block>, i: int, start: int, span: int) -> Seq<Block> {
    list.subrange(0, i) + remainders(list[i], start, span) + list.subrange(
        i + 1,
        list.len() as int,
    )
}

/// The free list after a request has been served from it; the list itself
/// where no block fits.
pub open spec fn after_allocate(list: Seq<Block>, size: int, align: int) -> Seq<Block> {
    let i = first_fit(list, size, align);
    if i < list.len() {
        carve(list, i, align_up(list[i].addr as int, align), span_of(size))
    } else {
        list
    }
}

/// The index of the first block of `list`, at or after `from`, that does not
/// start below `addr`; `list.len()` if there is none.
pub open spec fn position_from(list: Seq<Block>, from: int, addr: int) -> int
    decreases list.len() - from,
{
    if from >= list.len() {
        list.len() as int
    } else if list[from].addr >= addr {
        from
    } else {
        position_from(list, from + 1, addr)
    }
}

/// The index at which a block starting at `addr` enters the address-ordered
/// `list`.
pub open spec fn position(list: Seq<Block>, addr: int) -> int {
    position_from(list, 0, addr)
}

/// Whether the `span` bytes at `addr` can be returned to the free list of the
/// range `[bottom, top)`: they lie in the range and none of them is free.
pub open spec fn releasable(list: Seq<Block>, bottom: int, top: int, addr: int, span: int) -> bool {
    &&& bottom <= addr
    &&& addr + span <= top
    &&& forall|j: int|
        0 <= j < list.len() ==> (#[trigger] list[j]).end() <= addr || addr + span <= list[j].addr
}

/// The free list after the `span` bytes at `addr` have been returned to it:
/// the new block enters in address order and is merged with the block that
/// ends where it starts and with the block that starts where it ends.
pub open spec fn release(list: Seq<Block>, addr: int, span: int) -> Seq<Block> {
    let i = position(list, addr);
    let joins_prev = i > 0 && list[i - 1].end() == addr;
    let joins_next = i < list.len() && addr + span == list[i].addr;
    let start = if joins_prev {
        list[i - 1].addr as int
    } else {
        addr
    };
    let end = if joins_next {
        list[i].end()
    } else {
        addr + span
    };
    let from = if joins_prev {
        i - 1
    } else {
        i
    };
    let to = if joins_next {
        i + 1
    } else {
        i
    };
    list.subrange(0, from) + seq![Block { addr: start as usize, size: (end - start) as usize }]
        + list.subrange(to, list.len() as int)
}

/// The free list after a release was asked for: `release` where the span is
/// releasable, the list itself where it is not.
pub open spec fn after_deallocate(
    list: Seq<Block>,
    bottom: int,
    top: int,
    addr: int,
    size: int,
) -> Seq<Block> {
    if releasable(list, bottom, top, addr, span_of(size)) {
        release(list, addr, span_of(size))
    } else {
        list
    }
}

/// `first_fit_from` returns the least index from `from` on whose block fits.
pub proof fn lemma_first_fit_from(list: Seq<Block>, from: int, size: int, align: int)
    requires
        0 <= from <= list.len(),
    ensures
        from <= first_fit_from(list, from, size, align) <= list.len(),
        first_fit_from(list, from, size, align) < list.len() ==> fits(
            list[first_fit_from(list, from, size, align)],
            size,
            align,
        ),
        forall|j: int|
            from <= j < first_fit_from(list, from, size, align) ==> !fits(
                #[trigger] list[j],
                size,
                align,
            ),
    decreases list.len() - from,
{
    if from < list.len() && !fits(list[from], size, align) {
        lemma_first_fit_from(list, from + 1, size, align);
    }
}

/// A request that is served is served at a multiple of its alignment, from
/// the first block that fits, on bytes that lie in that block and so in the
/// range.
pub proof fn lemma_placement(
    list: Seq<Block>,
    bottom: int,
    top: int,
    size: int,
    align: int,
    addr: int,
)
    requires
        well_formed(list, bottom, top),
        align > 0,
        placement(list, size, align) == Some(addr),
    ensures
        is_aligned(addr, align),
        0 <= first_fit(list, size, align) < list.len(),
        list[first_fit(list, size, align)].addr <= addr,
        addr + span_of(size) <= list[first_fit(list, size, align)].end(),
        bottom <= addr,
        addr + span_of(size) <= top,
        forall|j: int| 0 <= j < first_fit(list, size, align) ==> !fits(#[trigger] list[j], size, align),
{
    lemma_first_fit_from(list, 0, size, align);
    let i = first_fit(list, size, align);
    lemma_align_up(list[i].addr as int, align);
}

/// `position_from` returns the least index from `from` on whose block does
/// not start below `addr`.
pub proof fn lemma_position_from(list: Seq<Block>, from: int, addr: int)
    requires
        0 <= from <= list.len(),
    ensures
        from <= position_from(list, from, addr) <= list.len(),
        position_from(list, from, addr) < list.len() ==> list[position_from(
            list,
            from,
            addr,
        )].addr >= addr,
        forall|j: int|
            from <= j < position_from(list, from, addr) ==> (#[trigger] list[j]).addr < addr,
    decreases list.len() - from,
{
    if from < list.len() && list[from].addr < addr {
        lemma_position_from(list, from + 1, addr);
    }
}

/// The free bytes of two lists laid end to end are those of the one plus
/// those of the other.
pub proof fn lemma_total_free_concat(a: Seq<Block>, b: Seq<Block>)
    ensures
        total_free(a + b) == total_free(a) + total_free(b),
    decreases b.len(),
{
    if b.len() == 0 {
        assert(a + b =~= a);
    } else {
        assert((a + b).drop_last() =~= a + b.drop_last());
        lemma_total_free_concat(a, b.drop_last());
    }
}

/// The blocks of a well-formed list up to index `k` hold no more bytes than
/// lie between `bottom` and the start of what follows them.
pub proof fn lemma_total_free_prefix(list: Seq<Block>, bottom: int, top: int, k: int)
    requires
        well_formed(list, bottom, top),
        0 <= k <= list.len(),
    ensures
        0 <= total_free(list.subrange(0, k)),
        k > 0 ==> total_free(list.subrange(0, k)) <= list[k - 1].end() - bottom,
        total_free(list.subrange(0, k)) <= top - bottom,
    decreases k,
{
    if k > 0 {
        lemma_total_free_prefix(list, bottom, top, k - 1);
        assert(list.subrange(0, k).drop_last() =~= list.subrange(0, k - 1));
        if k > 1 {
            assert(list[k - 2].end() < list[k - 1].addr);
        }
    }
}

/// Taking a span out of one block of a well-formed list leaves a well-formed
/// list with that many free bytes fewer.
pub proof fn lemma_carve(list: Seq<Block>, bottom: int, top: int, i: int, start: int, span: int)
    requires
        well_formed(list, bottom, top),
        0 <= i < list.len(),
        list[i].addr <= start,
        span >= 1,
        start + span <= list[i].end(),
    ensures
        well_formed(carve(list, i, start, span), bottom, top),
        total_free(carve(list, i, start, span)) == total_free(list) - span,
{
    let b = list[i];
    let rem = remainders(b, start, span);
    let head = list.subrange(0, i);
    let tail = list.subrange(i + 1, list.len() as int);
    let out = carve(list, i, start, span);
    assert(out == head + rem + tail);
    lemma_remainders(b, start, span);
    assert forall|k: int| 0 <= k < out.len() implies (#[trigger] out[k]).size >= 1 && bottom
        <= out[k].addr && out[k].end() <= top by {
        if k < i {
            assert(out[k] == list[k]);
        } else if k < i + rem.len() {
            assert(out[k] == rem[k - i]);
        } else {
            assert(out[k] == list[k - rem.len() + 1]);
        }
    }
    assert forall|k: int, l: int| 0 <= k < l < out.len() implies (#[trigger] out[k]).end()
        < (#[trigger] out[l]).addr by {
        if l < i {
            assert(out[k] == list[k] && out[l] == list[l]);
        } else if l < i + rem.len() {
            assert(out[l] == rem[l - i]);
            if k < i {
                assert(out[k] == list[k]);
                assert(list[k].end() < list[i].addr);
            } else {
                assert(out[k] == rem[k - i]);
            }
        } else {
            assert(out[l] == list[l - rem.len() + 1]);
            if k < i {
                assert(out[k] == list[k]);
            } else if k < i + rem.len() {
                assert(out[k] == rem[k - i]);
                assert(list[i].end() < list[l - rem.len() + 1].addr);
            } else {
                assert(out[k] == list[k - rem.len() + 1]);
            }
        }
    }
    assert(list =~= head + seq![b] + tail);
    lemma_total_free_concat(head + seq![b], tail);
    lemma_total_free_concat(head, seq![b]);
    lemma_total_free_concat(head + rem, tail);
    lemma_total_free_concat(head, rem);
    lemma_total_free_single(b);
    lemma_total_free_remainders(b, start, span);
}

/// Around the position of a releasable span, every block in front of it ends
/// at or before the span, and every block from it on starts at or behind the
/// span's end.
pub proof fn lemma_releasable_neighbours(
    list: Seq<Block>,
    bottom: int,
    top: int,
    addr: int,
    span: int,
)
    requires
        well_formed(list, bottom, top),
        span >= 1,
        releasable(list, bottom, top, addr, span),
    ensures
        0 <= position(list, addr) <= list.len(),
        forall|j: int| 0 <= j < position(list, addr) ==> (#[trigger] list[j]).end() <= addr,
        forall|j: int|
            position(list, addr) <= j < list.len() ==> addr + span <= (#[trigger] list[j]).addr,
{
    lemma_position_from(list, 0, addr);
    let i = position(list, addr);
    assert forall|j: int| i <= j < list.len() implies addr + span <= (#[trigger] list[j]).addr by {
        if i < j {
            assert(list[i].end() < list[j].addr);
        }
    }
}

/// Replacing the blocks `from..to` of a well-formed list by one block that
/// lies strictly between the block before them and the block after them
/// leaves a well-formed list.
proof fn lemma_splice(list: Seq<Block>, bottom: int, top: int, from: int, to: int, b: Block)
    requires
        well_formed(list, bottom, top),
        0 <= from <= to <= list.len(),
        b.size >= 1,
        bottom <= b.addr,
        b.end() <= top,
        from > 0 ==> list[from - 1].end() < b.addr,
        to < list.len() ==> b.end() < list[to].addr,
    ensures
        well_formed(
            list.subrange(0, from) + seq![b] + list.subrange(to, list.len() as int),
            bottom,
            top,
        ),
{
    let out = list.subrange(0, from) + seq![b] + list.subrange(to, list.len() as int);
    assert(out[from] == b);
    assert forall|k: int| 0 <= k < out.len() implies (#[trigger] out[k]).size >= 1 && bottom
        <= out[k].addr && out[k].end() <= top by {
        if k < from {
            assert(out[k] == list[k]);
        } else if k > from {
            assert(out[k] == list[k - from - 1 + to]);
        }
    }
    assert forall|k: int, l: int| 0 <= k < l < out.len() implies (#[trigger] out[k]).end()
        < (#[trigger] out[l]).addr by {
        if l < from {
            assert(out[k] == list[k] && out[l] == list[l]);
        } else if l == from {
            assert(out[k] == list[k]);
            assert(k < from - 1 ==> list[k].end() < list[from - 1].addr);
        } else {
            let m = l - from - 1 + to;
            assert(out[l] == list[m]);
            if k < from {
                assert(out[k] == list[k]);
            } else if k == from {
                assert(to < m ==> list[to].end() < list[m].addr);
            } else {
                assert(out[k] == list[k - from - 1 + to]);
            }
        }
    }
}

/// Replacing the blocks `from..to` of a list by one block changes the free
/// bytes by that block's size less the sizes of the blocks replaced.
proof fn lemma_splice_total(list: Seq<Block>, from: int, to: int, b: Block)
    requires
        0 <= from <= to <= list.len(),
    ensures
        total_free(list.subrange(0, from) + seq![b] + list.subrange(to, list.len() as int))
            == total_free(list) - total_free(list.subrange(from, to)) + b.size,
{
    let head = list.subrange(0, from);
    let mid = list.subrange(from, to);
    let tail = list.subrange(to, list.len() as int);
    assert(list =~= head + mid + tail);
    lemma_total_free_concat(head + mid, tail);
    lemma_total_free_concat(head, mid);
    lemma_total_free_concat(head + seq![b], tail);
    lemma_total_free_concat(head, seq![b]);
    lemma_total_free_single(b);
}

/// Returning a releasable span to a well-formed list leaves a well-formed
/// list with that many free bytes more.
pub proof fn lemma_release(list: Seq<Block>, bottom: int, top: int, addr: int, span: int)
    requires
        well_formed(list, bottom, top),
        span >= 1,
        releasable(list, bottom, top, addr, span),
    ensures
        well_formed(release(list, addr, span), bottom, top),
        total_free(release(list, addr, span)) == total_free(list) + span,
{
    lemma_releasable_neighbours(list, bottom, top, addr, span);
    let i = position(list, addr);
    let joins_prev = i > 0 && list[i - 1].end() == addr;
    let joins_next = i < list.len() && addr + span == list[i].addr;
    let start = if joins_prev {
        list[i - 1].addr as int
    } else {
        addr
    };
    let end = if joins_next {
        list[i].end()
    } else {
        addr + span
    };
    let from = if joins_prev {
        i - 1
    } else {
        i
    };
    let to = if joins_next {
        i + 1
    } else {
        i
    };
    let merged = Block { addr: start as usize, size: (end - start) as usize };
    let mid = list.subrange(from, to);
    if i > 0 {
        assert(list[i - 1].end() <= addr);
        assert(i > 1 ==> list[i - 2].end() < list[i - 1].addr);
    }
    if i < list.len() {
        assert(addr + span <= list[i].addr);
        assert(i + 1 < list.len() ==> list[i].end() < list[i + 1].addr);
    }
    lemma_splice(list, bottom, top, from, to, merged);
    lemma_splice_total(list, from, to, merged);
    if joins_prev {
        if joins_next {
            assert(mid =~= seq![list[i - 1]] + seq![list[i]]);
            lemma_total_free_concat(seq![list[i - 1]], seq![list[i]]);
            lemma_total_free_single(list[i]);
        } else {
            assert(mid =~= seq![list[i - 1]]);
        }
        lemma_total_free_single(list[i - 1]);
    } else {
        if joins_next {
            assert(mid =~= seq![list[i]]);
            lemma_total_free_single(list[i]);
        } else {
            assert(mid =~= Seq::<Block>::empty());
        }
    }
}

/// The position of an address in a well-formed list is the one index with
/// every block before it starting below the address and every block from it
/// on starting at or above it.
pub proof fn lemma_position_is(list: Seq<Block>, addr: int, p: int)
    requires
        0 <= p <= list.len(),
        forall|j: int| 0 <= j < p ==> (#[trigger] list[j]).addr < addr,
        p < list.len() ==> list[p].addr >= addr,
    ensures
        position(list, addr) == p,
{
    lemma_position_from(list, 0, addr);
    let q = position(list, addr);
    if q < p {
        assert(list[q].addr < addr);
    } else if q > p {
        assert(list[p].addr < addr);
    }
}

/// A span that was taken out of a block of a well-formed list can be
/// released, and its release gives the list back as it was.
pub proof fn lemma_carve_release(
    list: Seq<Block>,
    bottom: int,
    top: int,
    i: int,
    start: int,
    span: int,
)
    requires
        well_formed(list, bottom, top),
        0 <= i < list.len(),
        list[i].addr <= start,
        span >= 1,
        start + span <= list[i].end(),
    ensures
        releasable(carve(list, i, start, span), bottom, top, start, span),
        release(carve(list, i, start, span), start, span) == list,
{
    let b = list[i];
    let rem = remainders(b, start, span);
    let out = carve(list, i, start, span);
    let nf: int = if b.addr < start {
        1
    } else {
        0
    };
    let nb: int = if start + span < b.end() {
        1
    } else {
        0
    };
    let front = Block { addr: b.addr, size: (start - b.addr) as usize };
    let back = Block { addr: (start + span) as usize, size: (b.end() - (start + span)) as usize };
    lemma_remainders(b, start, span);
    lemma_carve(list, bottom, top, i, start, span);
    assert(rem.len() == nf + nb) by {
        if nf == 1 {
            if nb == 1 {
                assert(rem =~= seq![front, back]);
            } else {
                assert(rem =~= seq![front]);
            }
        } else {
            if nb == 1 {
                assert(rem =~= seq![back]);
            } else {
                assert(rem =~= Seq::<Block>::empty());
            }
        }
    }
    assert(out.len() == list.len() - 1 + nf + nb);
    assert forall|j: int| 0 <= j < out.len() implies #[trigger] out[j] == (if j < i {
        list[j]
    } else if j < i + nf {
        front
    } else if j < i + nf + nb {
        back
    } else {
        list[j - nf - nb + 1]
    }) by {
        if j < i {
        } else if j < i + nf + nb {
            assert(out[j] == rem[j - i]);
        } else {
        }
    }
    let p = i + nf;
    assert forall|j: int| 0 <= j < p implies (#[trigger] out[j]).addr < start by {
        if j < i {
            assert(list[j].end() < list[i].addr);
        }
    }
    if p < out.len() {
        if nb == 0 {
            assert(out[p] == list[i + 1]);
            assert(list[i].end() < list[i + 1].addr);
        }
    }
    lemma_position_is(out, start, p);
    assert forall|j: int| 0 <= j < out.len() implies (#[trigger] out[j]).end() <= start || start
        + span <= out[j].addr by {
        if j < i {
            assert(list[j].end() < list[i].addr);
        } else if j >= i + nf + nb {
            assert(list[i].end() < list[j - nf - nb + 1].addr);
        }
    }
    if i > 0 {
        assert(out[i - 1] == list[i - 1]);
        assert(list[i - 1].end() < list[i].addr);
    }
    let joins_prev = p > 0 && out[p - 1].end() == start;
    let joins_next = p < out.len() && start + span == out[p].addr;
    assert(joins_prev == (nf == 1));
    assert(joins_next == (nb == 1));
    assert(release(out, start, span) =~= list);
}

/// What stays of a block lies within the block, in address order, with the
/// span that was taken between the two parts.
pub proof fn lemma_remainders(b: Block, start: int, span: int)
    requires
        b.addr <= start,
        span >= 1,
        start + span <= b.end(),
        b.end() <= usize::MAX,
    ensures
        remainders(b, start, span).len() <= 2,
        forall|k: int|
            0 <= k < remainders(b, start, span).len() ==> (#[trigger] remainders(
                b,
                start,
                span,
            )[k]).size >= 1 && b.addr <= remainders(b, start, span)[k].addr && remainders(
                b,
                start,
                span,
            )[k].end() <= b.end(),
        forall|k: int, l: int|
            0 <= k < l < remainders(b, start, span).len() ==> (#[trigger] remainders(
                b,
                start,
                span,
            )[k]).end() < (#[trigger] remainders(b, start, span)[l]).addr,
{
    let front = Block { addr: b.addr, size: (start - b.addr) as usize };
    let back = Block { addr: (start + span) as usize, size: (b.end() - (start + span)) as usize };
    let rem = remainders(b, start, span);
    if b.addr < start {
        if start + span < b.end() {
            assert(rem =~= seq![front, back]);
        } else {
            assert(rem =~= seq![front]);
        }
    } else {
        if start + span < b.end() {
            assert(rem =~= seq![back]);
        } else {
            assert(rem =~= Seq::<Block>::empty());
        }
    }
}

/// A list of one block holds that block's bytes.
pub proof fn lemma_total_free_single(b: Block)
    ensures
        total_free(seq![b]) == b.size,
{
    assert(seq![b].drop_last() =~= Seq::<Block>::empty());
    assert(total_free(seq![b].drop_last()) == 0);
}

/// What stays of a block holds the block's bytes less the span taken.
pub proof fn lemma_total_free_remainders(b: Block, start: int, span: int)
    requires
        b.addr <= start,
        span >= 0,
        start + span <= b.end(),
        b.end() <= usize::MAX,
    ensures
        total_free(remainders(b, start, span)) == b.size - span,
{
    let front = Block { addr: b.addr, size: (start - b.addr) as usize };
    let back = Block { addr: (start + span) as usize, size: (b.end() - (start + span)) as usize };
    let f = if b.addr < start {
        seq![front]
    } else {
        Seq::<Block>::empty()
    };
    let t = if start + span < b.end() {
        seq![back]
    } else {
        Seq::<Block>::empty()
    };
    assert(remainders(b, start, span) == f + t);
    lemma_total_free_concat(f, t);
    lemma_total_free_single(front);
    lemma_total_free_single(back);
}

} // verus!

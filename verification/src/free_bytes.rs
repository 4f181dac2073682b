//! The free list read as a set of free bytes: which bytes an allocation
//! takes, which a release gives back, and why a well-formed list is fixed by
//! the bytes it holds.

use vstd::prelude::*;
use crate::block::{well_formed, Block};
use crate::free_list::{
    carve, lemma_carve, lemma_position_from, lemma_release, lemma_releasable_neighbours,
    lemma_remainders, position, releasable, release, remainders,
};

verus! {

/// Whether the byte at `x` lies in block `b`.
pub open spec fn covers(b: Block, x: int) -> bool {
    b.addr <= x < b.end()
}

/// Whether the byte at `x` is free: some block of `list` holds it.
pub open spec fn is_free(list: Seq<Block>, x: int) -> bool {
    exists|j: int| 0 <= j < list.len() && covers(#[trigger] list[j], x)
}

/// Whether all bytes of the span of `span` bytes at `addr` are free.
pub open spec fn all_free(list: Seq<Block>, addr: int, span: int) -> bool {
    forall|x: int| addr <= x < addr + span ==> #[trigger] is_free(list, x)
}

/// Whether no byte of the span of `span` bytes at `addr` is free.
pub open spec fn none_free(list: Seq<Block>, addr: int, span: int) -> bool {
    forall|x: int| addr <= x < addr + span ==> !#[trigger] is_free(list, x)
}

/// Whether two lists hold the same free bytes.
pub open spec fn same_bytes(a: Seq<Block>, b: Seq<Block>) -> bool {
    forall|x: int| #[trigger] is_free(a, x) <==> #[trigger] is_free(b, x)
}

/// Taking a span out of a block of a well-formed list takes exactly the
/// bytes of the span out of the free bytes, and all of them were free.
pub proof fn lemma_carve_bytes(
    list: Seq<Block>,
    bottom: int,
    top: int,
    i: int,
    start: int,
    span: int,
)
    requires
        well_formed(list, bottom, top),
        0 <= i < list.len(),
        list[i].addr <= start,
        span >= 1,
        start + span <= list[i].end(),
    ensures
        all_free(list, start, span),
        forall|x: int| #[trigger]
            is_free(carve(list, i, start, span), x) <==> is_free(list, x) && !(start <= x < start
                + span),
{
    let b = list[i];
    let rem = remainders(b, start, span);
    let out = carve(list, i, start, span);
    let front = Block { addr: b.addr, size: (start - b.addr) as usize };
    let back = Block { addr: (start + span) as usize, size: (b.end() - (start + span)) as usize };
    let nf: int = if b.addr < start {
        1
    } else {
        0
    };
    let nb: int = if start + span < b.end() {
        1
    } else {
        0
    };
    lemma_remainders(b, start, span);
    assert(rem.len() == nf + nb && (nf == 1 ==> rem[0] == front) && (nb == 1 ==> rem[nf]
        == back)) by {
        if nf == 1 {
            if nb == 1 {
                assert(rem =~= seq![front, back]);
            } else {
                assert(rem =~= seq![front]);
            }
        } else {
            if nb == 1 {
                assert(rem =~= seq![back]);
            } else {
                assert(rem =~= Seq::<Block>::empty());
            }
        }
    }
    assert forall|x: int| start <= x < start + span implies #[trigger] is_free(list, x) by {
        assert(covers(list[i], x));
    }
    assert forall|x: int| #[trigger]
        is_free(out, x) <==> is_free(list, x) && !(start <= x < start + span) by {
        if is_free(out, x) {
            let k = choose|k: int| 0 <= k < out.len() && covers(#[trigger] out[k], x);
            if k < i {
                assert(out[k] == list[k]);
                assert(covers(list[k], x));
                assert(list[k].end() < list[i].addr);
            } else if k < i + nf + nb {
                assert(out[k] == rem[k - i]);
                assert(covers(list[i], x));
            } else {
                let m = k - nf - nb + 1;
                assert(out[k] == list[m]);
                assert(covers(list[m], x));
                assert(list[i].end() < list[m].addr);
            }
        }
        if is_free(list, x) && !(start <= x < start + span) {
            let j = choose|j: int| 0 <= j < list.len() && covers(#[trigger] list[j], x);
            if j < i {
                assert(out[j] == list[j]);
                assert(covers(out[j], x));
            } else if j == i {
                if x < start {
                    assert(out[i] == rem[0]);
                    assert(covers(out[i], x));
                } else {
                    assert(out[i + nf] == rem[nf]);
                    assert(covers(out[i + nf], x));
                }
            } else {
                assert(out[j - 1 + nf + nb] == list[j]);
                assert(covers(out[j - 1 + nf + nb], x));
            }
        }
    }
}

/// A span can be released exactly when it lies in the range and none of its
/// bytes is free.
pub proof fn lemma_releasable_bytes(list: Seq<Block>, bottom: int, top: int, addr: int, span: int)
    requires
        well_formed(list, bottom, top),
        span >= 1,
    ensures
        releasable(list, bottom, top, addr, span) <==> bottom <= addr && addr + span <= top
            && none_free(list, addr, span),
{
    if releasable(list, bottom, top, addr, span) {
        assert forall|x: int| addr <= x < addr + span implies !#[trigger] is_free(list, x) by {
            if is_free(list, x) {
                let j = choose|j: int| 0 <= j < list.len() && covers(#[trigger] list[j], x);
                assert(list[j].end() <= addr || addr + span <= list[j].addr);
            }
        }
    }
    if bottom <= addr && addr + span <= top && none_free(list, addr, span) {
        assert forall|j: int| 0 <= j < list.len() implies (#[trigger] list[j]).end() <= addr
            || addr + span <= list[j].addr by {
            if !(list[j].end() <= addr || addr + span <= list[j].addr) {
                let x = if addr <= list[j].addr {
                    list[j].addr as int
                } else {
                    addr
                };
                assert(covers(list[j], x));
                assert(is_free(list, x));
            }
        }
    }
}

/// Whether some block of `list` outside the indices `from..to` holds the
/// byte at `x`.
spec fn is_free_outside(list: Seq<Block>, from: int, to: int, x: int) -> bool {
    exists|j: int| 0 <= j < list.len() && !(from <= j < to) && covers(#[trigger] list[j], x)
}

/// Once the blocks `from..to` of a list are replaced by one block, a byte is
/// free if that block holds it or a block outside `from..to` did.
proof fn lemma_splice_bytes(list: Seq<Block>, from: int, to: int, b: Block, x: int)
    requires
        0 <= from <= to <= list.len(),
    ensures
        is_free(list.subrange(0, from) + seq![b] + list.subrange(to, list.len() as int), x)
            <==> covers(b, x) || is_free_outside(list, from, to, x),
{
    let out = list.subrange(0, from) + seq![b] + list.subrange(to, list.len() as int);
    assert(out[from] == b);
    if is_free(out, x) {
        let k = choose|k: int| 0 <= k < out.len() && covers(#[trigger] out[k], x);
        if k < from {
            assert(out[k] == list[k]);
            assert(covers(list[k], x));
        } else if k > from {
            let m = k - from - 1 + to;
            assert(out[k] == list[m]);
            assert(covers(list[m], x));
        }
    }
    if covers(b, x) {
        assert(covers(out[from], x));
    }
    if is_free_outside(list, from, to, x) {
        let j = choose|j: int|
            0 <= j < list.len() && !(from <= j < to) && covers(#[trigger] list[j], x);
        if j < from {
            assert(out[j] == list[j]);
            assert(covers(out[j], x));
        } else {
            let k = j - to + from + 1;
            assert(out[k] == list[j]);
            assert(covers(out[k], x));
        }
    }
}

/// Returning a releasable span to a well-formed list adds exactly the bytes
/// of the span to the free bytes.
pub proof fn lemma_release_bytes(list: Seq<Block>, bottom: int, top: int, addr: int, span: int)
    requires
        well_formed(list, bottom, top),
        span >= 1,
        releasable(list, bottom, top, addr, span),
    ensures
        forall|x: int| #[trigger]
            is_free(release(list, addr, span), x) <==> is_free(list, x) || addr <= x < addr + span,
{
    lemma_releasable_neighbours(list, bottom, top, addr, span);
    let i = position(list, addr);
    let joins_prev = i > 0 && list[i - 1].end() == addr;
    let joins_next = i < list.len() && addr + span == list[i].addr;
    let start = if joins_prev {
        list[i - 1].addr as int
    } else {
        addr
    };
    let end = if joins_next {
        list[i].end()
    } else {
        addr + span
    };
    let from = if joins_prev {
        i - 1
    } else {
        i
    };
    let to = if joins_next {
        i + 1
    } else {
        i
    };
    let merged = Block { addr: start as usize, size: (end - start) as usize };
    let out = release(list, addr, span);
    if i > 0 {
        assert(list[i - 1].end() <= addr);
    }
    if i < list.len() {
        assert(addr + span <= list[i].addr);
        assert(list[i].end() <= top);
    }
    assert(merged.addr == start && merged.end() == end);
    assert forall|x: int| #[trigger]
        is_free(out, x) <==> is_free(list, x) || addr <= x < addr + span by {
        lemma_splice_bytes(list, from, to, merged, x);
        if is_free_outside(list, from, to, x) {
            let j = choose|j: int|
                0 <= j < list.len() && !(from <= j < to) && covers(#[trigger] list[j], x);
            assert(is_free(list, x));
        }
        if covers(merged, x) && !(addr <= x < addr + span) {
            if x < addr {
                assert(covers(list[i - 1], x));
            } else {
                assert(covers(list[i], x));
            }
            assert(is_free(list, x));
        }
        if is_free(list, x) {
            let j = choose|j: int| 0 <= j < list.len() && covers(#[trigger] list[j], x);
            if from <= j < to {
                assert(covers(merged, x));
            } else {
                assert(is_free_outside(list, from, to, x));
            }
        }
    }
}

/// A run of free bytes lies in one block: blocks that touch have been
/// merged.
pub proof fn lemma_free_run_in_block(
    list: Seq<Block>,
    bottom: int,
    top: int,
    addr: int,
    span: int,
) -> (j: int)
    requires
        well_formed(list, bottom, top),
        span >= 1,
        all_free(list, addr, span),
    ensures
        0 <= j < list.len(),
        list[j].addr <= addr,
        addr + span <= list[j].end(),
    decreases span,
{
    if span == 1 {
        assert(is_free(list, addr));
        choose|j: int| 0 <= j < list.len() && covers(#[trigger] list[j], addr)
    } else {
        assert forall|x: int| addr <= x < addr + (span - 1) implies #[trigger] is_free(
            list,
            x,
        ) by {}
        let j = lemma_free_run_in_block(list, bottom, top, addr, span - 1);
        let y = addr + span - 1;
        assert(is_free(list, y));
        let k = choose|k: int| 0 <= k < list.len() && covers(#[trigger] list[k], y);
        if k > j {
            assert(list[j].end() < list[k].addr);
        } else if k < j {
            assert(list[k].end() < list[j].addr);
        }
        j
    }
}

/// The first block of a non-empty well-formed list starts at the lowest free
/// byte and ends at the first byte above it that is not free.
proof fn lemma_first_block(list: Seq<Block>, bottom: int, top: int)
    requires
        well_formed(list, bottom, top),
        list.len() > 0,
    ensures
        forall|x: int| list[0].addr <= x < list[0].end() ==> #[trigger] is_free(list, x),
        forall|x: int| x < list[0].addr ==> !#[trigger] is_free(list, x),
        !is_free(list, list[0].end()),
{
    assert forall|x: int| list[0].addr <= x < list[0].end() implies #[trigger] is_free(
        list,
        x,
    ) by {
        assert(covers(list[0], x));
    }
    assert forall|x: int| x < list[0].addr implies !#[trigger] is_free(list, x) by {
        if is_free(list, x) {
            let j = choose|j: int| 0 <= j < list.len() && covers(#[trigger] list[j], x);
            assert(j > 0 ==> list[0].end() < list[j].addr);
        }
    }
    if is_free(list, list[0].end()) {
        let j = choose|j: int| 0 <= j < list.len() && covers(#[trigger] list[j], list[0].end());
        assert(j > 0 ==> list[0].end() < list[j].addr);
    }
}

/// The blocks of a well-formed list behind the first form a well-formed list
/// that holds the same bytes but those of the first block.
proof fn lemma_rest(list: Seq<Block>, bottom: int, top: int)
    requires
        well_formed(list, bottom, top),
        list.len() > 0,
    ensures
        well_formed(list.subrange(1, list.len() as int), bottom, top),
        forall|x: int| #[trigger]
            is_free(list.subrange(1, list.len() as int), x) <==> is_free(list, x) && !covers(
                list[0],
                x,
            ),
{
    let rest = list.subrange(1, list.len() as int);
    assert forall|k: int| 0 <= k < rest.len() implies (#[trigger] rest[k]).size >= 1 && bottom
        <= rest[k].addr && rest[k].end() <= top by {
        assert(rest[k] == list[k + 1]);
    }
    assert forall|k: int, l: int| 0 <= k < l < rest.len() implies (#[trigger] rest[k]).end()
        < (#[trigger] rest[l]).addr by {
        assert(rest[k] == list[k + 1] && rest[l] == list[l + 1]);
    }
    assert forall|x: int| #[trigger]
        is_free(rest, x) <==> is_free(list, x) && !covers(list[0], x) by {
        if is_free(rest, x) {
            let k = choose|k: int| 0 <= k < rest.len() && covers(#[trigger] rest[k], x);
            assert(rest[k] == list[k + 1]);
            assert(covers(list[k + 1], x));
            assert(list[0].end() < list[k + 1].addr);
        }
        if is_free(list, x) && !covers(list[0], x) {
            let j = choose|j: int| 0 <= j < list.len() && covers(#[trigger] list[j], x);
            assert(rest[j - 1] == list[j]);
            assert(covers(rest[j - 1], x));
        }
    }
}

/// Two well-formed lists that hold the same free bytes are the same list.
pub proof fn lemma_same_bytes_same_list(a: Seq<Block>, b: Seq<Block>, bottom: int, top: int)
    requires
        well_formed(a, bottom, top),
        well_formed(b, bottom, top),
        same_bytes(a, b),
    ensures
        a == b,
    decreases a.len(),
{
    if a.len() == 0 {
        if b.len() > 0 {
            lemma_first_block(b, bottom, top);
            assert(is_free(b, b[0].addr as int));
            assert(is_free(a, b[0].addr as int));
        }
        assert(a =~= b);
    } else {
        lemma_first_block(a, bottom, top);
        assert(is_free(a, a[0].addr as int));
        assert(is_free(b, a[0].addr as int));
        lemma_first_block(b, bottom, top);
        assert(is_free(b, b[0].addr as int));
        assert(is_free(a, b[0].addr as int));
        assert(a[0].addr == b[0].addr);
        if a[0].end() < b[0].end() {
            assert(is_free(b, a[0].end()));
            assert(is_free(a, a[0].end()));
        }
        if b[0].end() < a[0].end() {
            assert(is_free(a, b[0].end()));
            assert(is_free(b, b[0].end()));
        }
        assert(a[0] == b[0]);
        lemma_rest(a, bottom, top);
        lemma_rest(b, bottom, top);
        let ra = a.subrange(1, a.len() as int);
        let rb = b.subrange(1, b.len() as int);
        assert forall|x: int| #[trigger] is_free(ra, x) <==> #[trigger] is_free(rb, x) by {
            assert(is_free(a, x) <==> is_free(b, x));
        }
        lemma_same_bytes_same_list(ra, rb, bottom, top);
        assert(a =~= seq![a[0]] + ra);
        assert(b =~= seq![b[0]] + rb);
    }
}

} // verus!

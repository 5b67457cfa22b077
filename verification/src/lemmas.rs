use crate::error::PallocError;
use crate::layout::{
    adds_one, all_free, first_fit, free_span, keeps_used, linked, locate, merged, room, roomy, segmented,
    served_by, stuck, Header, HEADER_SIZE,
};
use vstd::prelude::*;

verus! {

/// `locate` gives the first block whose payload starts at `payload`, and the
/// chain's length exactly when no block's payload starts there.
pub proof fn lemma_locate(chain: Seq<Header>, payload: nat)
    ensures
        0 <= locate(chain, payload) <= chain.len(),
        locate(chain, payload) < chain.len() ==> chain[locate(chain, payload)].payload_base()
            == payload,
        forall|j: int|
            0 <= j < locate(chain, payload) ==> (#[trigger] chain[j]).payload_base() != payload,
    decreases chain.len(),
{
    if chain.len() > 0 && chain[0].payload_base() != payload {
        let rest = chain.skip(1);
        lemma_locate(rest, payload);
        assert forall|j: int| 0 <= j < locate(chain, payload) implies
            (#[trigger] chain[j]).payload_base() != payload by {
            if j > 0 {
                assert(chain[j] == rest[j - 1]);
            }
        }
    }
}

/// A request for no bytes that is not stuck changes nothing and is turned
/// down: for want of memory where the last block is the first free one, as
/// not in use where an earlier block is.
pub proof fn lemma_first_fit_nothing(chain: Seq<Header>, limit: nat)
    requires
        chain.len() > 0,
        chain.last().is_free(),
        !stuck(chain, 0, limit),
    ensures
        first_fit(chain, 0, limit).0 == chain,
        first_fit(chain, 0, limit).1 == Err::<nat, PallocError>(PallocError::OutOfMemory)
            || first_fit(chain, 0, limit).1 == Err::<nat, PallocError>(
            PallocError::NotAllocated,
        ),
        first_fit(chain, 0, limit).1 == Err::<nat, PallocError>(PallocError::OutOfMemory)
            ==> chain.last().payload_base() > limit,
    decreases chain.len(),
{
    if chain.len() > 1 && !chain[0].is_free() {
        let rest = chain.skip(1);
        lemma_first_fit_nothing(rest, limit);
        assert(seq![chain[0]] + rest =~= chain);
    }
}

/// A block that is too small is served as after coalescing: swallowing free
/// successors first does not change what a request gets.
pub proof fn lemma_first_fit_merged(chain: Seq<Header>, size: nat, limit: nat)
    requires
        chain.len() > 0,
        chain[0].is_free(),
        size > 0,
    ensures
        first_fit(chain, size, limit) == first_fit(merged(chain, size), size, limit),
    decreases chain.len(),
{
    if !roomy(chain, size) && chain[1].is_free() {
        lemma_first_fit_merged(chain.remove(1), size, limit);
    }
}

/// Coalescing keeps the first header where it is and free if it was, keeps
/// the last header, and stops at a block that is roomy or blocked by a
/// successor in use.
pub proof fn lemma_merged_shape(chain: Seq<Header>, target: nat)
    requires
        chain.len() > 0,
    ensures
        merged(chain, target).len() > 0,
        merged(chain, target).len() <= chain.len(),
        merged(chain, target)[0] == chain[0],
        merged(chain, target).last() == chain.last() || (merged(chain, target).len() == 1
            && chain.last().is_free()),
        roomy(merged(chain, target), target) || !merged(chain, target)[1].is_free(),
    decreases chain.len(),
{
    if !roomy(chain, target) && chain[1].is_free() {
        lemma_merged_shape(chain.remove(1), target);
    }
}

/// What is left of a linked chain behind its first block is linked, and so
/// is the chain without its second block.
pub proof fn lemma_linked_parts(chain: Seq<Header>)
    requires
        linked(chain),
        chain.len() > 1,
    ensures
        linked(chain.skip(1)),
        linked(chain.remove(1)),
        chain.skip(1).last() == chain.last(),
        chain.len() > 2 ==> chain.remove(1).last() == chain.last(),
{
    let rest = chain.skip(1);
    assert forall|i: int, j: int| 0 <= i < j < rest.len() implies rest[i].payload_end()
        <= rest[j].address by {
        assert(rest[i] == chain[i + 1] && rest[j] == chain[j + 1]);
    }
    let cut = chain.remove(1);
    assert forall|i: int, j: int| 0 <= i < j < cut.len() implies cut[i].payload_end()
        <= cut[j].address by {
        assert(cut[j] == chain[j + 1]);
        assert(cut[i] == if i == 0 {
            chain[0]
        } else {
            chain[i + 1]
        });
    }
}

/// A linked chain behind a header that ends before the chain starts is a
/// linked chain again.
pub proof fn lemma_linked_behind(first: Header, rest: Seq<Header>)
    requires
        linked(rest),
        first.payload_end() <= rest[0].address,
    ensures
        linked(seq![first] + rest),
        (seq![first] + rest).last() == rest.last(),
        (seq![first] + rest).skip(1) == rest,
{
    let chain = seq![first] + rest;
    assert(chain.skip(1) =~= rest);
    assert forall|i: int, j: int| 0 <= i < j < chain.len() implies chain[i].payload_end()
        <= chain[j].address by {
        assert(chain[j] == rest[j - 1]);
        if i == 0 {
            if j > 1 {
                assert(rest[0].payload_end() <= rest[j - 1].address);
            }
        } else {
            assert(chain[i] == rest[i - 1]);
        }
    }
}

/// What a request leaves behind, and what it answers.
///
/// The chain stays linked, starts where it started, and ends with a free
/// block that starts within `limit`. A request is either served or turned
/// down for want of memory. A served request got the payload of a block that
/// stands in the chain, in use for exactly `size` bytes, and that payload
/// ends within `limit`.
pub proof fn lemma_first_fit_sound(chain: Seq<Header>, size: nat, limit: nat)
    requires
        linked(chain),
        chain.last().is_free(),
        chain.last().address <= limit,
        size > 0,
    ensures
        ({
            let after = first_fit(chain, size, limit).0;
            let answer = first_fit(chain, size, limit).1;
            &&& linked(after)
            &&& after[0].address == chain[0].address
            &&& after.last().is_free()
            &&& after.last().address <= limit
            &&& answer is Err ==> answer == Err::<nat, PallocError>(PallocError::OutOfMemory)
            &&& answer matches Ok(payload) ==> {
                let i = locate(after, payload);
                &&& 0 <= i < after.len() - 1
                &&& after[i].payload_base() == payload
                &&& after[i].allocation == size
                &&& payload + size <= limit
                &&& chain[0].payload_base() <= payload
            }
        }),
    decreases chain.len(),
{
    let after = first_fit(chain, size, limit).0;
    let first = chain[0];
    if first.is_free() && chain.len() == 1 {
    } else if first.is_free() && room(chain) >= size {
        let taken = chain.update(0, first.holding(size));
        assert(linked(taken)) by {
            assert forall|i: int, j: int| 0 <= i < j < taken.len() implies taken[i].payload_end()
                <= taken[j].address by {
                assert(taken[j] == chain[j]);
                if i == 0 {
                    assert(chain[1].address <= chain[j].address) by {
                        if j > 1 {
                            assert(chain[1].payload_end() <= chain[j].address);
                        }
                    }
                } else {
                    assert(taken[i] == chain[i]);
                }
            }
        }
        lemma_segmented_linked(taken);
        assert(chain[0].payload_end() <= chain.last().address) by {
            assert(chain.last() == chain[chain.len() - 1]);
        }
    } else if first.is_free() && chain[1].is_free() {
        lemma_linked_parts(chain);
        let cut = chain.remove(1);
        if chain.len() == 2 {
            assert(cut.last() == chain[0]);
            assert(chain[0].payload_end() <= chain[1].address);
        }
        lemma_first_fit_sound(cut, size, limit);
    } else {
        lemma_linked_parts(chain);
        let rest = chain.skip(1);
        lemma_first_fit_sound(rest, size, limit);
        let served = first_fit(rest, size, limit);
        assert(first.payload_end() <= chain[1].address);
        lemma_linked_behind(first, served.0);
        if let Ok(payload) = served.1 {
            assert(after.skip(1) == served.0);
        }
    }
}

/// The free bytes of a chain are those of its first block, which reaches to
/// the second header, and those of the chain behind it.
pub proof fn lemma_free_span_behind(first: Header, rest: Seq<Header>, limit: nat)
    requires
        rest.len() > 0,
    ensures
        free_span(seq![first] + rest, limit) == free_span(rest, limit) + if first.is_free() {
            rest[0].address - first.address
        } else {
            0
        },
{
    let chain = seq![first] + rest;
    assert(chain.skip(1) =~= rest);
    assert(chain[1] == rest[0]);
}

/// A free block that swallows a free successor covers the bytes of both.
pub proof fn lemma_free_span_swallowed(chain: Seq<Header>, limit: nat)
    requires
        chain.len() > 1,
        chain[0].is_free(),
        chain[1].is_free(),
    ensures
        free_span(chain.remove(1), limit) == free_span(chain, limit),
{
    let rest = chain.skip(1);
    let cut = chain.remove(1);
    assert(rest.skip(1) =~= cut.skip(1));
    assert(free_span(rest, limit) == free_span(rest.skip(1), limit) + if rest.len() > 1 {
        rest[1].address - rest[0].address
    } else {
        limit - rest[0].address
    });
}

/// A free block covers the same bytes before it is segmented as it does
/// together with the block split off it once its payload is given back.
pub proof fn lemma_free_span_segmented(chain: Seq<Header>, size: nat, limit: nat)
    requires
        chain.len() > 1,
        chain[0].is_free(),
        size <= room(chain),
    ensures
        ({
            let taken = segmented(chain.update(0, chain[0].holding(size)));
            free_span(taken.update(0, chain[0]), limit) == free_span(chain, limit)
        }),
{
    let first = chain[0];
    let rest = chain.skip(1);
    let back = segmented(chain.update(0, first.holding(size))).update(0, first);
    assert(chain =~= seq![first] + rest);
    lemma_free_span_behind(first, rest, limit);
    if size + HEADER_SIZE < room(chain) {
        let gap = Header::fresh(first.payload_base() + size);
        assert(back =~= seq![first] + (seq![gap] + rest));
        lemma_free_span_behind(gap, rest, limit);
        lemma_free_span_behind(first, seq![gap] + rest, limit);
    } else {
        assert(back =~= chain);
    }
}

/// A free last block covers the same bytes before it serves a request as it
/// does together with its new successor once its payload is given back.
pub proof fn lemma_free_span_extended(first: Header, size: nat, limit: nat)
    requires
        first.is_free(),
    ensures
        free_span(seq![first, Header::fresh(first.payload_base() + size)], limit) == free_span(
            seq![first],
            limit,
        ),
{
    let tail = Header::fresh(first.payload_base() + size);
    assert(seq![first, tail] =~= seq![first] + seq![tail]);
    lemma_free_span_behind(first, seq![tail], limit);
    assert(free_span(seq![tail].skip(1), limit) == 0);
    assert(free_span(seq![first].skip(1), limit) == 0);
}

/// Serving a request moves no byte between free and in use but those of the
/// block that serves it: a request that is turned down leaves the free bytes
/// as they were, and so does a served request once its payload is given
/// back.
pub proof fn lemma_first_fit_span(chain: Seq<Header>, size: nat, limit: nat)
    requires
        linked(chain),
        chain.last().is_free(),
        chain.last().address <= limit,
        size > 0,
    ensures
        ({
            let after = first_fit(chain, size, limit).0;
            let answer = first_fit(chain, size, limit).1;
            &&& answer is Err ==> free_span(after, limit) == free_span(chain, limit)
            &&& answer matches Ok(payload) ==> {
                let i = locate(after, payload);
                free_span(after.update(i, after[i].holding(0)), limit) == free_span(chain, limit)
            }
        }),
    decreases chain.len(),
{
    let after = first_fit(chain, size, limit).0;
    let answer = first_fit(chain, size, limit).1;
    let first = chain[0];
    if first.is_free() && chain.len() == 1 {
        if answer is Ok {
            assert(after.update(0, after[0].holding(0)) =~= seq![
                first,
                Header::fresh(first.payload_base() + size),
            ]);
            assert(chain =~= seq![first]);
            lemma_free_span_extended(first, size, limit);
        }
    } else if first.is_free() && room(chain) >= size {
        let taken = segmented(chain.update(0, first.holding(size)));
        assert(taken.update(0, taken[0].holding(0)) =~= taken.update(0, first));
        lemma_free_span_segmented(chain, size, limit);
    } else if first.is_free() && chain[1].is_free() {
        lemma_linked_parts(chain);
        let cut = chain.remove(1);
        if chain.len() == 2 {
            assert(cut.last() == chain[0]);
            assert(chain[0].payload_end() <= chain[1].address);
        }
        lemma_first_fit_span(cut, size, limit);
        lemma_free_span_swallowed(chain, limit);
    } else {
        lemma_linked_parts(chain);
        let rest = chain.skip(1);
        lemma_first_fit_span(rest, size, limit);
        lemma_first_fit_sound(rest, size, limit);
        let served = first_fit(rest, size, limit);
        assert(chain =~= seq![first] + rest);
        lemma_free_span_behind(first, rest, limit);
        lemma_free_span_behind(first, served.0, limit);
        if let Ok(payload) = answer {
            let i = locate(served.0, payload);
            assert(after.skip(1) =~= served.0);
            assert(locate(after, payload) == i + 1);
            let back = served.0.update(i, served.0[i].holding(0));
            assert(after.update(i + 1, after[i + 1].holding(0)) =~= seq![first] + back);
            lemma_free_span_behind(first, back, limit);
        }
    }
}

/// A request touches no block in use: every header in use stands in the
/// chain afterwards as it stood before, and the only header in use that is
/// new is the one of the payload that was handed out.
pub proof fn lemma_first_fit_keeps_used(chain: Seq<Header>, size: nat, limit: nat)
    requires
        linked(chain),
        chain.last().is_free(),
        size > 0,
    ensures
        keeps_used(chain, first_fit(chain, size, limit).0),
        adds_one(chain, first_fit(chain, size, limit).0, first_fit(chain, size, limit).1, size),
    decreases chain.len(),
{
    let after = first_fit(chain, size, limit).0;
    let answer = first_fit(chain, size, limit).1;
    let first = chain[0];
    if first.is_free() && chain.len() == 1 {
    } else if first.is_free() && room(chain) >= size {
        let shift: int = if size + HEADER_SIZE < room(chain) {
            1
        } else {
            0
        };
        assert forall|i: int| 0 <= i < chain.len() && !(#[trigger] chain[i]).is_free() implies
            after.contains(chain[i]) by {
            assert(after[i + shift] == chain[i]);
        }
        assert forall|j: int| 0 <= j < after.len() && !(#[trigger] after[j]).is_free() implies
            chain.contains(after[j]) || served_by(after[j], answer, size) by {
            if j > 0 {
                assert(after[j] == chain[j - shift]);
            }
        }
    } else if first.is_free() && chain[1].is_free() {
        lemma_linked_parts(chain);
        let cut = chain.remove(1);
        if chain.len() == 2 {
            assert(cut.last() == chain[0]);
        }
        lemma_first_fit_keeps_used(cut, size, limit);
        assert forall|i: int| 0 <= i < chain.len() && !(#[trigger] chain[i]).is_free() implies
            after.contains(chain[i]) by {
            assert(cut[i - 1] == chain[i]);
        }
        assert forall|j: int| 0 <= j < after.len() && !(#[trigger] after[j]).is_free() implies
            chain.contains(after[j]) || served_by(after[j], answer, size) by {
            if cut.contains(after[j]) {
                let k = choose|k: int| 0 <= k < cut.len() && cut[k] == after[j];
                let at: int = if k == 0 {
                    0
                } else {
                    k + 1
                };
                assert(chain[at] == cut[k]);
            }
        }
    } else {
        lemma_linked_parts(chain);
        let rest = chain.skip(1);
        lemma_first_fit_keeps_used(rest, size, limit);
        let served = first_fit(rest, size, limit).0;
        assert(after[0] == first);
        assert forall|i: int| 0 <= i < chain.len() && !(#[trigger] chain[i]).is_free() implies
            after.contains(chain[i]) by {
            if i > 0 {
                assert(rest[i - 1] == chain[i]);
                let k = choose|k: int| 0 <= k < served.len() && served[k] == chain[i];
                assert(after[k + 1] == served[k]);
            }
        }
        assert forall|j: int| 0 <= j < after.len() && !(#[trigger] after[j]).is_free() implies
            chain.contains(after[j]) || served_by(after[j], answer, size) by {
            if j > 0 {
                assert(after[j] == served[j - 1]);
                if rest.contains(served[j - 1]) {
                    let k = choose|k: int| 0 <= k < rest.len() && rest[k] == served[j - 1];
                    assert(chain[k + 1] == rest[k]);
                }
            }
        }
    }
}

/// In a chain without a block in use the first block serves every request
/// that fits between it and `limit`, whatever the chain is cut into.
pub proof fn lemma_first_fit_all_free(chain: Seq<Header>, size: nat, limit: nat)
    requires
        linked(chain),
        all_free(chain),
        size > 0,
        chain[0].payload_base() + size <= limit,
    ensures
        first_fit(chain, size, limit).1 == Ok::<nat, PallocError>(chain[0].payload_base()),
    decreases chain.len(),
{
    if chain.len() > 1 && room(chain) < size {
        lemma_linked_parts(chain);
        let cut = chain.remove(1);
        assert forall|i: int| 0 <= i < cut.len() implies (#[trigger] cut[i]).is_free() by {
            let at: int = if i == 0 {
                0
            } else {
                i + 1
            };
            assert(cut[i] == chain[at]);
        }
        lemma_first_fit_all_free(cut, size, limit);
    }
}

/// The last block after a request. It is the last block from before, or a
/// block from before that has swallowed everything behind it, or the fresh
/// block right behind the payload that was handed out. So a last payload
/// base within `limit` stays within `limit` unless the request was served by
/// the last block and left less than a header behind its payload.
pub proof fn lemma_first_fit_tail(chain: Seq<Header>, size: nat, limit: nat)
    requires
        linked(chain),
        chain.last().is_free(),
        chain.last().address <= limit,
        chain.last().payload_base() <= limit,
        size > 0,
    ensures
        ({
            let after = first_fit(chain, size, limit).0;
            let answer = first_fit(chain, size, limit).1;
            ||| after.last().payload_base() <= limit
            ||| answer matches Ok(payload) && after.last() == Header::fresh(payload + size)
                && payload + size + HEADER_SIZE > limit
        }),
    decreases chain.len(),
{
    let first = chain[0];
    if first.is_free() && chain.len() == 1 {
    } else if first.is_free() && room(chain) >= size {
        lemma_segmented_linked(chain.update(0, first.holding(size)));
    } else if first.is_free() && chain[1].is_free() {
        lemma_linked_parts(chain);
        let cut = chain.remove(1);
        if chain.len() == 2 {
            assert(cut.last() == chain[0]);
            assert(chain[0].payload_end() <= chain[1].address);
        }
        lemma_first_fit_tail(cut, size, limit);
    } else {
        lemma_linked_parts(chain);
        let rest = chain.skip(1);
        lemma_first_fit_tail(rest, size, limit);
        lemma_first_fit_sound(rest, size, limit);
        let served = first_fit(rest, size, limit);
        assert((seq![first] + served.0).last() == served.0.last());
    }
}

/// Splitting the slack off the first block keeps a chain linked, and keeps
/// its first and last header.
pub proof fn lemma_segmented_linked(chain: Seq<Header>)
    requires
        linked(chain),
        chain.len() > 1,
    ensures
        linked(segmented(chain)),
        segmented(chain)[0] == chain[0],
        segmented(chain).last() == chain.last(),
        segmented(chain).len() > 1,
{
    let after = segmented(chain);
    if chain[0].allocation + HEADER_SIZE < room(chain) {
        assert forall|i: int, j: int| 0 <= i < j < after.len() implies after[i].payload_end()
            <= after[j].address by {
            if j >= 2 {
                assert(after[j] == chain[j - 1]);
                if j > 2 {
                    assert(chain[1].payload_end() <= chain[j - 1].address);
                }
            }
            if i >= 2 {
                assert(after[i] == chain[i - 1]);
            }
        }
    }
}

} // verus!

//! Laws relating the traversal views to each other and to the line index:
//! what flattening adds over the nested view, what a location lookup returns
//! at a line start, and how a pair's span, text and location fit together.

use vstd::prelude::*;

use crate::flat_pairs::{flat_seq, lemma_flat_seq_concat, lemma_flat_seq_members, lemma_flat_seq_snoc};
use crate::line_index::{col_of, is_line_start, lemma_line_start_fixpoint, line_of};
use crate::pair::Pair;
use crate::pairs::sibling_seq;
use crate::queueable_token::{
    lemma_drop_first_sibling, lemma_range_closed_ends, partner, queue_wf, range_closed,
    token_wf, QueueableToken,
};

verus! {

/// Flattening a closed range yields at least as many nodes as the nested view
/// of the same range — one per `Start` token instead of one per sibling — and
/// strictly more as soon as any sibling has a descendant.
pub proof fn lemma_flatten_superset<R>(q: Seq<QueueableToken<R>>, start: int, end: int, n: nat)
    requires
        queue_wf(q, n),
        0 <= start <= end <= q.len(),
        range_closed(q, start, end),
    ensures
        flat_seq(q, start, end).len() >= sibling_seq(q, start, end).len(),
        (exists|i: int|
            sibling_seq(q, start, end).contains(i) && partner(q, i) > i + 1) ==> flat_seq(
            q,
            start,
            end,
        ).len() > sibling_seq(q, start, end).len(),
    decreases end - start,
{
    if start >= end {
        assert(flat_seq(q, start, end) =~= Seq::<int>::empty());
        assert(sibling_seq(q, start, end) =~= Seq::<int>::empty());
        assert forall|i: int|
            !(sibling_seq(q, start, end).contains(i) && partner(q, i) > i + 1) by {}
    } else {
        lemma_drop_first_sibling(q, start, end, n);
        let j = partner(q, start);
        lemma_flat_seq_concat(q, start + 1, j + 1, end);
        lemma_flat_seq_snoc(q, start + 1, j);
        lemma_flatten_superset(q, j + 1, end, n);
        assert(flat_seq(q, start, end) == seq![start] + (flat_seq(q, start + 1, j) + flat_seq(
            q,
            j + 1,
            end,
        )));
        assert(sibling_seq(q, start, end) == seq![start] + sibling_seq(q, j + 1, end));
        if exists|i: int| sibling_seq(q, start, end).contains(i) && partner(q, i) > i + 1 {
            let i = choose|i: int|
                sibling_seq(q, start, end).contains(i) && partner(q, i) > i + 1;
            if i == start {
                assert(token_wf(q, start, n));
                lemma_range_closed_ends(q, start + 1, j, n);
                lemma_flat_seq_members(q, start + 1, j);
                assert(flat_seq(q, start + 1, j).contains(start + 1));
                assert(flat_seq(q, start + 1, j).len() > 0);
            } else {
                let w = choose|w: int|
                    0 <= w < sibling_seq(q, start, end).len() && sibling_seq(q, start, end)[w]
                        == i;
                assert(sibling_seq(q, j + 1, end)[w - 1] == i);
                assert(sibling_seq(q, j + 1, end).contains(i));
            }
        }
    }
}

/// At the head of the text the location is line 1, column 1; at the first
/// position of any line the column is 1 (and the line number is the count of
/// line feeds before it, plus one).
pub proof fn lemma_line_start_location(s: Seq<char>, off: int)
    requires
        0 <= off <= s.len(),
        is_line_start(s, off),
    ensures
        line_of(s, 0) == 1,
        col_of(s, 0) == 1,
        col_of(s, off) == 1,
{
    lemma_line_start_fixpoint(s, off);
}

/// Round trip: a pair's matched text is exactly the source text sliced at its
/// reported span, and the span lies inside the text, so a line-index lookup
/// at the span's start is always possible and — by the contracts of
/// `Pair::line_col` and `LineIndex::locate` — reproduces the pair's own line
/// and column.
pub proof fn lemma_pair_round_trip<R: Copy>(p: Pair<'_, R>)
    requires
        p.wf(),
    ensures
        p.matched() == p.input@.subrange(p.span_start(), p.span_end()),
        0 <= p.span_start() <= p.span_end() <= p.input@.len(),
{
    assert(token_wf(p.queue@, p.start as int, p.input@.len()));
    assert(token_wf(p.queue@, p.end_index(), p.input@.len()));
}

} // verus!

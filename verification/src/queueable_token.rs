//! The flat token encoding of a matched parse tree, and the structural
//! invariant every view over it relies on.
//!
//! A matched node is written as a `Start` token and an `End` token that point
//! at each other by index; the tokens of its descendants sit strictly between
//! them. The matching engine that produces a queue guarantees the invariant
//! [`queue_wf`]; it is a precondition of every view constructor here and is
//! never re-validated.

use vstd::prelude::*;

verus! {

/// One token of the flat parse-tree encoding.
///
/// `input_pos` is the position of the token in the source text, counted in
/// characters. A `Start` carries the matched rule and the index of its paired
/// `End`; an `End` mirrors back the index of its paired `Start`.
pub enum QueueableToken<R> {
    Start { rule: R, end_token_index: usize, input_pos: usize },
    End { start_token_index: usize, input_pos: usize },
}

/// Index of the token paired with the token at `i`: for a `Start`, its `End`;
/// for an `End`, its `Start`.
pub open spec fn partner<R>(q: Seq<QueueableToken<R>>, i: int) -> int {
    match q[i] {
        QueueableToken::Start { end_token_index, .. } => end_token_index as int,
        QueueableToken::End { start_token_index, .. } => start_token_index as int,
    }
}

/// Position in the source text of the token at `i`, counted in characters.
pub open spec fn pos<R>(q: Seq<QueueableToken<R>>, i: int) -> int {
    match q[i] {
        QueueableToken::Start { input_pos, .. } => input_pos as int,
        QueueableToken::End { input_pos, .. } => input_pos as int,
    }
}

/// The token at `i` opens a node.
pub open spec fn is_start<R>(q: Seq<QueueableToken<R>>, i: int) -> bool {
    q[i] is Start
}

/// The rule carried by the `Start` token at `i`.
pub open spec fn rule_of<R>(q: Seq<QueueableToken<R>>, i: int) -> R
    recommends
        is_start(q, i),
{
    q[i]->Start_rule
}

/// Every token of `[start, end)` has its partner inside `[start, end)`.
///
/// A range with this property covers whole nodes only, so its boundaries
/// coincide with pair boundaries.
pub open spec fn range_closed<R>(q: Seq<QueueableToken<R>>, start: int, end: int) -> bool {
    forall|k: int| start <= k < end ==> start <= #[trigger] partner(q, k) < end
}

/// The token at `i` and its partner point at each other, on opposite sides.
pub open spec fn token_matched<R>(q: Seq<QueueableToken<R>>, i: int) -> bool {
    if is_start(q, i) {
        &&& i < partner(q, i) < q.len()
        &&& !is_start(q, partner(q, i))
        &&& partner(q, partner(q, i)) == i
    } else {
        &&& 0 <= partner(q, i) < i
        &&& is_start(q, partner(q, i))
        &&& partner(q, partner(q, i)) == i
    }
}

/// Everything the queue invariant asks of the single token at `i`, against a
/// source text of `n` characters: it is matched, the tokens strictly between
/// it and its partner stay between them, and its position lies in the text.
pub open spec fn token_wf<R>(q: Seq<QueueableToken<R>>, i: int, n: nat) -> bool {
    &&& token_matched(q, i)
    &&& (is_start(q, i) ==> range_closed(q, i + 1, partner(q, i)))
    &&& 0 <= pos(q, i) <= n
}

/// The structural invariant of a queue over a source text of `n` characters:
/// tokens form a well-nested bracket sequence and positions are non-decreasing
/// positions in the text. `n < usize::MAX` records that the text fits in
/// memory, which every real source does.
pub open spec fn queue_wf<R>(q: Seq<QueueableToken<R>>, n: nat) -> bool {
    &&& n < usize::MAX
    &&& forall|i: int| 0 <= i < q.len() ==> #[trigger] token_wf(q, i, n)
    &&& forall|i: int, j: int|
        0 <= i <= j < q.len() ==> #[trigger] pos(q, i) <= #[trigger] pos(q, j)
}

/// In a well-formed queue, a closed non-empty range opens with a `Start` and
/// closes with an `End`.
pub proof fn lemma_range_closed_ends<R>(q: Seq<QueueableToken<R>>, start: int, end: int, n: nat)
    requires
        queue_wf(q, n),
        0 <= start < end <= q.len(),
        range_closed(q, start, end),
    ensures
        is_start(q, start),
        !is_start(q, end - 1),
{
    assert(token_wf(q, start, n));
    assert(token_wf(q, end - 1, n));
}

/// Dropping the first whole pair of a closed range leaves a closed range: the
/// tokens after the pair's `End` still have their partners among themselves.
pub proof fn lemma_drop_first_sibling<R>(q: Seq<QueueableToken<R>>, start: int, end: int, n: nat)
    requires
        queue_wf(q, n),
        0 <= start < end <= q.len(),
        range_closed(q, start, end),
    ensures
        is_start(q, start),
        start < partner(q, start) < end,
        !is_start(q, partner(q, start)),
        partner(q, partner(q, start)) == start,
        range_closed(q, partner(q, start) + 1, end),
{
    lemma_range_closed_ends(q, start, end, n);
    assert(token_wf(q, start, n));
    let j = partner(q, start);
    assert forall|k: int| j + 1 <= k < end implies j + 1 <= #[trigger] partner(q, k) < end by {
        assert(token_wf(q, k, n));
        let p = partner(q, k);
        assert(start <= p < end);
        if p == start {
            assert(partner(q, p) == k);
            assert(false);
        } else if p == j {
            assert(partner(q, p) == k);
            assert(false);
        } else if start < p < j {
            assert(range_closed(q, start + 1, j));
            assert(start + 1 <= partner(q, p) < j);
            assert(partner(q, p) == k);
            assert(false);
        }
    }
}

/// The pair closed by the last token of a closed range is the last whole pair
/// of the range: the tokens before its `Start` form a closed range, and so do
/// the pair's own tokens.
pub proof fn lemma_last_sibling<R>(q: Seq<QueueableToken<R>>, start: int, end: int, n: nat)
    requires
        queue_wf(q, n),
        0 <= start < end <= q.len(),
        range_closed(q, start, end),
    ensures
        !is_start(q, end - 1),
        start <= partner(q, end - 1) < end - 1,
        is_start(q, partner(q, end - 1)),
        partner(q, partner(q, end - 1)) == end - 1,
        range_closed(q, start, partner(q, end - 1)),
        range_closed(q, partner(q, end - 1), end),
    decreases end - start,
{
    lemma_range_closed_ends(q, start, end, n);
    assert(token_wf(q, end - 1, n));
    let s = partner(q, end - 1);
    assert(start <= s < end - 1 || s == end - 1);
    assert(token_wf(q, s, n));
    assert forall|k: int| start <= k < s implies start <= #[trigger] partner(q, k) < s by {
        assert(token_wf(q, k, n));
        let p = partner(q, k);
        assert(start <= p < end);
        if p == s {
            assert(partner(q, p) == k);
            assert(false);
        } else if s < p < end - 1 {
            assert(range_closed(q, s + 1, end - 1));
            assert(s + 1 <= partner(q, p) < end - 1);
            assert(partner(q, p) == k);
            assert(false);
        } else if p == end - 1 {
            assert(partner(q, p) == k);
            assert(false);
        }
    }
    assert forall|k: int| s <= k < end implies s <= #[trigger] partner(q, k) < end by {
        assert(token_wf(q, k, n));
        if s < k < end - 1 {
            assert(range_closed(q, s + 1, end - 1));
            assert(s + 1 <= partner(q, k) < end - 1);
        }
    }
}

/// Reads the partner index of the token at `i`.
pub fn token_partner<R>(queue: &Vec<QueueableToken<R>>, i: usize) -> (r: usize)
    requires
        i < queue@.len(),
    ensures
        r == partner(queue@, i as int),
{
    match &queue[i] {
        QueueableToken::Start { end_token_index, .. } => *end_token_index,
        QueueableToken::End { start_token_index, .. } => *start_token_index,
    }
}

/// Reads the text position of the token at `i`.
pub fn token_pos<R>(queue: &Vec<QueueableToken<R>>, i: usize) -> (r: usize)
    requires
        i < queue@.len(),
    ensures
        r == pos(queue@, i as int),
{
    match &queue[i] {
        QueueableToken::Start { input_pos, .. } => *input_pos,
        QueueableToken::End { input_pos, .. } => *input_pos,
    }
}

/// Tests whether the token at `i` opens a node.
pub fn token_is_start<R>(queue: &Vec<QueueableToken<R>>, i: usize) -> (r: bool)
    requires
        i < queue@.len(),
    ensures
        r == is_start(queue@, i as int),
{
    match &queue[i] {
        QueueableToken::Start { .. } => true,
        QueueableToken::End { .. } => false,
    }
}

} // verus!

//! Iterator over a contiguous run of sibling nodes, forward and backward.
//!
//! The cursor pair (`start`, `end`) always sits on pair boundaries. Going
//! forward, a whole subtree is stepped over at a time, so successive pairs are
//! siblings; going backward the same siblings come out in reverse order, and
//! the two cursors may meet but never cross.

use std::rc::Rc;

use vstd::prelude::*;

use crate::flat_pairs::FlatPairs;
use crate::line_index::LineIndex;
use crate::locate_pairs::LocatablePairs;
use crate::pair::{line_index_wf, Pair};
use crate::queueable_token::{
    lemma_drop_first_sibling, lemma_last_sibling, lemma_range_closed_ends, partner,
    queue_wf, range_closed, token_partner, QueueableToken,
};

verus! {

/// Indices of the `Start` tokens of the whole pairs of `[start, end)`, first
/// sibling first: the order in which forward iteration yields them.
pub open spec fn sibling_seq<R>(q: Seq<QueueableToken<R>>, start: int, end: int) -> Seq<int>
    decreases end - start,
{
    if start >= end {
        Seq::empty()
    } else {
        let j = partner(q, start);
        if start < j < end {
            seq![start] + sibling_seq(q, j + 1, end)
        } else {
            seq![start]
        }
    }
}

/// The same siblings as [`sibling_seq`], last sibling first: the order in
/// which backward iteration yields them.
pub open spec fn rev_sibling_seq<R>(q: Seq<QueueableToken<R>>, start: int, end: int) -> Seq<int>
    decreases end - start,
{
    if start >= end {
        Seq::empty()
    } else {
        let s = partner(q, end - 1);
        if start <= s < end - 1 {
            seq![s] + rev_sibling_seq(q, start, s)
        } else {
            seq![end - 1]
        }
    }
}

/// A non-empty closed range splits off its last whole pair: the sibling
/// sequence ends with the `Start` of the pair closed by the range's last
/// token.
pub proof fn lemma_sibling_seq_last<R>(q: Seq<QueueableToken<R>>, start: int, end: int, n: nat)
    requires
        queue_wf(q, n),
        0 <= start < end <= q.len(),
        range_closed(q, start, end),
    ensures
        sibling_seq(q, start, end) == sibling_seq(q, start, partner(q, end - 1)).push(
            partner(q, end - 1),
        ),
    decreases end - start,
{
    let s = partner(q, end - 1);
    lemma_last_sibling(q, start, end, n);
    lemma_drop_first_sibling(q, start, end, n);
    let j = partner(q, start);
    if s == start {
        assert(j == end - 1);
        assert(sibling_seq(q, end, end) =~= Seq::<int>::empty());
        assert(sibling_seq(q, start, start) =~= Seq::<int>::empty());
        assert(sibling_seq(q, start, end) =~= sibling_seq(q, start, s).push(s));
    } else {
        assert(s != j);
        if start < s < j {
            assert(range_closed(q, start + 1, j));
            assert(start + 1 <= partner(q, s) < j);
            assert(false);
        }
        assert(j + 1 <= s);
        lemma_sibling_seq_last(q, j + 1, end, n);
        assert(sibling_seq(q, j + 1, end) == sibling_seq(q, j + 1, s).push(s));
        assert(partner(q, s) == end - 1);
        assert(sibling_seq(q, start, s) == seq![start] + sibling_seq(q, j + 1, s));
        assert(sibling_seq(q, start, end) =~= sibling_seq(q, start, s).push(s));
    }
}

/// Backward iteration enumerates exactly the forward sibling sequence, in
/// reverse order.
pub proof fn lemma_reverse_iteration<R>(q: Seq<QueueableToken<R>>, start: int, end: int, n: nat)
    requires
        queue_wf(q, n),
        0 <= start <= end <= q.len(),
        range_closed(q, start, end),
    ensures
        rev_sibling_seq(q, start, end) == sibling_seq(q, start, end).reverse(),
    decreases end - start,
{
    if start >= end {
        assert(rev_sibling_seq(q, start, end) =~= sibling_seq(q, start, end).reverse());
    } else {
        let s = partner(q, end - 1);
        lemma_last_sibling(q, start, end, n);
        lemma_sibling_seq_last(q, start, end, n);
        lemma_reverse_iteration(q, start, s, n);
        assert(rev_sibling_seq(q, start, end) == seq![s] + rev_sibling_seq(q, start, s));
        assert(rev_sibling_seq(q, start, end) =~= sibling_seq(q, start, end).reverse());
    }
}

/// Iterator over the sibling pairs whose tokens fill `[start, end)`.
pub struct Pairs<'i, R> {
    pub queue: Rc<Vec<QueueableToken<R>>>,
    pub input: &'i str,
    pub line_index: Option<Rc<LineIndex>>,
    pub start: usize,
    pub end: usize,
}

/// A nested view over the whole pairs of `queue[start..end]`, without location
/// decoration. The range must cover whole pairs of a well-formed queue.
pub fn new<'i, R: Copy>(
    queue: Rc<Vec<QueueableToken<R>>>,
    input: &'i str,
    start: usize,
    end: usize,
) -> (r: Pairs<'i, R>)
    requires
        queue_wf(queue@, input@.len()),
        start <= end <= queue@.len(),
        range_closed(queue@, start as int, end as int),
    ensures
        r.wf(),
        r.queue == queue,
        r.input == input,
        r.line_index is None,
        r.start == start,
        r.end == end,
{
    Pairs { queue, input, line_index: None, start, end }
}

impl<'i, R: Copy> Pairs<'i, R> {
    /// The cursors sit on pair boundaries of a well-formed queue over the
    /// text, and any attached line index belongs to that text.
    pub open spec fn wf(self) -> bool {
        &&& queue_wf(self.queue@, self.input@.len())
        &&& self.start <= self.end <= self.queue@.len()
        &&& range_closed(self.queue@, self.start as int, self.end as int)
        &&& line_index_wf(self.line_index, self.input@)
    }

    /// The siblings not yet yielded, in forward order.
    pub open spec fn remaining(self) -> Seq<int> {
        sibling_seq(self.queue@, self.start as int, self.end as int)
    }

    /// The first remaining pair, without advancing: its result depends on the
    /// cursor state alone, so repeated peeks agree.
    pub fn peek(&self) -> (r: Option<Pair<'i, R>>)
        requires
            self.wf(),
        ensures
            match r {
                Some(p) => {
                    &&& self.start < self.end
                    &&& p.wf()
                    &&& p.queue == self.queue
                    &&& p.input == self.input
                    &&& p.line_index == self.line_index
                    &&& p.start == self.start
                },
                None => self.start >= self.end,
            },
    {
        if self.start < self.end {
            proof {
                lemma_range_closed_ends(
                    self.queue@,
                    self.start as int,
                    self.end as int,
                    self.input@.len(),
                );
            }
            let line_index = match &self.line_index {
                Some(li) => Some(li.clone()),
                None => None,
            };
            Some(Pair { queue: self.queue.clone(), input: self.input, line_index, start: self.start })
        } else {
            None
        }
    }

    /// Yields the first remaining pair and steps over its whole subtree, so
    /// the next yield is its sibling.
    pub fn next(&mut self) -> (r: Option<Pair<'i, R>>)
        requires
            old(self).wf(),
        ensures
            final(self).wf(),
            final(self).queue == old(self).queue,
            final(self).input == old(self).input,
            final(self).line_index == old(self).line_index,
            final(self).end == old(self).end,
            old(self).start >= old(self).end ==> r is None && final(self).start == old(self).start,
            old(self).start < old(self).end ==> {
                &&& r matches Some(p) && p.wf() && p.queue == old(self).queue && p.input == old(
                    self,
                ).input && p.line_index == old(self).line_index && p.start == old(self).start
                &&& old(self).remaining().len() > 0 && old(self).remaining().first() == old(
                    self,
                ).start as int
                &&& final(self).start == partner(old(self).queue@, old(self).start as int) + 1
                &&& final(self).remaining() == old(self).remaining().drop_first()
            },
    {
        match self.peek() {
            None => None,
            Some(p) => {
                proof {
                    lemma_drop_first_sibling(
                        self.queue@,
                        self.start as int,
                        self.end as int,
                        self.input@.len(),
                    );
                }
                let j = token_partner(&self.queue, self.start);
                proof {
                    assert(sibling_seq(self.queue@, self.start as int, self.end as int)
                        == seq![self.start as int] + sibling_seq(
                        self.queue@,
                        j + 1,
                        self.end as int,
                    ));
                    assert((seq![self.start as int] + sibling_seq(
                        self.queue@,
                        j + 1,
                        self.end as int,
                    )).drop_first() =~= sibling_seq(self.queue@, j + 1, self.end as int));
                }
                self.start = j + 1;
                Some(p)
            },
        }
    }

    /// Yields the last remaining pair and retreats the end cursor to its
    /// `Start`, so the previous yield comes next: the same siblings as
    /// forward iteration, in reverse order.
    pub fn next_back(&mut self) -> (r: Option<Pair<'i, R>>)
        requires
            old(self).wf(),
        ensures
            final(self).wf(),
            final(self).queue == old(self).queue,
            final(self).input == old(self).input,
            final(self).line_index == old(self).line_index,
            final(self).start == old(self).start,
            old(self).start >= old(self).end ==> r is None && final(self).end == old(self).end,
            old(self).start < old(self).end ==> {
                &&& r matches Some(p) && p.wf() && p.queue == old(self).queue && p.input == old(
                    self,
                ).input && p.line_index == old(self).line_index && p.start == partner(
                    old(self).queue@,
                    old(self).end - 1,
                )
                &&& old(self).remaining().len() > 0 && old(self).remaining().last() == partner(
                    old(self).queue@,
                    old(self).end - 1,
                )
                &&& final(self).end == partner(old(self).queue@, old(self).end - 1)
                &&& final(self).remaining() == old(self).remaining().drop_last()
            },
    {
        if self.end <= self.start {
            return None;
        }
        proof {
            lemma_last_sibling(self.queue@, self.start as int, self.end as int, self.input@.len());
            lemma_sibling_seq_last(
                self.queue@,
                self.start as int,
                self.end as int,
                self.input@.len(),
            );
        }
        let s = token_partner(&self.queue, self.end - 1);
        proof {
            assert(sibling_seq(self.queue@, self.start as int, s as int).push(s as int).drop_last()
                =~= sibling_seq(self.queue@, self.start as int, s as int));
        }
        self.end = s;
        let line_index = match &self.line_index {
            Some(li) => Some(li.clone()),
            None => None,
        };
        Some(Pair { queue: self.queue.clone(), input: self.input, line_index, start: s })
    }

    /// The same range, location-aware: builds the line index for the text,
    /// once, and attaches it to every pair yielded from here on.
    pub fn locatable(self) -> (r: LocatablePairs<'i, R>)
        requires
            self.wf(),
        ensures
            r.wf(),
            r.queue == self.queue,
            r.input == self.input,
            r.start == self.start,
            r.end == self.end,
    {
        crate::locate_pairs::new(self.queue, self.input, self.start, self.end)
    }

    /// The same range, viewed flat: every node of every subtree in `[start,
    /// end)`, in document (preorder) order, with any location decoration
    /// kept.
    pub fn flatten(self) -> (r: FlatPairs<'i, R>)
        requires
            self.wf(),
        ensures
            r.wf(),
            r.queue == self.queue,
            r.input == self.input,
            r.line_index == self.line_index,
            r.start == self.start,
            r.end == self.end,
    {
        proof {
            if self.start < self.end {
                lemma_range_closed_ends(
                    self.queue@,
                    self.start as int,
                    self.end as int,
                    self.input@.len(),
                );
            }
        }
        FlatPairs {
            queue: self.queue,
            input: self.input,
            line_index: self.line_index,
            start: self.start,
            end: self.end,
        }
    }
}

} // verus!

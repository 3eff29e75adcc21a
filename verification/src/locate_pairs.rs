//! The location-decorated sibling iterator: the nested view of
//! [`crate::pairs::Pairs`], with a line index built once at construction and
//! attached to every pair it yields, so each can answer line/column queries
//! without re-scanning the source.

use std::rc::Rc;

use vstd::prelude::*;

use crate::flat_pairs::FlatPairs;
use crate::line_index::LineIndex;
use crate::pair::Pair;
use crate::pairs::{sibling_seq, lemma_sibling_seq_last};
use crate::queueable_token::{
    lemma_drop_first_sibling, lemma_last_sibling, lemma_range_closed_ends, partner,
    queue_wf, range_closed, QueueableToken,
};

verus! {

/// Iterator over the sibling pairs of `[start, end)` that decorates every
/// yielded pair with a shared line index.
pub struct LocatablePairs<'i, R> {
    pub queue: Rc<Vec<QueueableToken<R>>>,
    pub input: &'i str,
    pub start: usize,
    pub end: usize,
    pub line_index: Rc<LineIndex>,
}

/// A location-aware view over the whole pairs of `queue[start..end]`. The
/// range must cover whole pairs of a well-formed queue; the line index for
/// `input` is built here, once, and shared by every pair the view yields.
pub fn new<'i, R: Copy>(
    queue: Rc<Vec<QueueableToken<R>>>,
    input: &'i str,
    start: usize,
    end: usize,
) -> (r: LocatablePairs<'i, R>)
    requires
        queue_wf(queue@, input@.len()),
        start <= end <= queue@.len(),
        range_closed(queue@, start as int, end as int),
    ensures
        r.wf(),
        r.queue == queue,
        r.input == input,
        r.start == start,
        r.end == end,
{
    let line_index = Rc::new(LineIndex::new(input));
    LocatablePairs { queue, input, line_index, start, end }
}

impl<'i, R: Copy> LocatablePairs<'i, R> {
    /// The cursors sit on pair boundaries of a well-formed queue over the
    /// text, and the line index belongs to the text.
    pub open spec fn wf(self) -> bool {
        &&& queue_wf(self.queue@, self.input@.len())
        &&& self.start <= self.end <= self.queue@.len()
        &&& range_closed(self.queue@, self.start as int, self.end as int)
        &&& self.line_index.wf()
        &&& self.line_index.text@ == self.input@
    }

    /// The siblings not yet yielded, in forward order.
    pub open spec fn remaining(self) -> Seq<int> {
        sibling_seq(self.queue@, self.start as int, self.end as int)
    }

    /// The first remaining pair, without advancing: its result depends on the
    /// cursor state alone, so repeated peeks agree. The pair carries the
    /// shared line index.
    pub fn peek(&self) -> (r: Option<Pair<'i, R>>)
        requires
            self.wf(),
        ensures
            match r {
                Some(p) => {
                    &&& self.start < self.end
                    &&& p.wf()
                    &&& p.queue == self.queue
                    &&& p.input == self.input
                    &&& p.line_index == Some(self.line_index)
                    &&& p.start == self.start
                },
                None => self.start >= self.end,
            },
    {
        if self.start < self.end {
            proof {
                lemma_range_closed_ends(
                    self.queue@,
                    self.start as int,
                    self.end as int,
                    self.input@.len(),
                );
            }
            Some(
                Pair {
                    queue: self.queue.clone(),
                    input: self.input,
                    line_index: Some(self.line_index.clone()),
                    start: self.start,
                },
            )
        } else {
            None
        }
    }

    /// Index of the `End` token closing the pair at the forward cursor.
    pub fn pair(&self) -> (r: usize)
        requires
            self.wf(),
            self.start < self.end,
        ensures
            r == partner(self.queue@, self.start as int),
    {
        proof {
            lemma_range_closed_ends(
                self.queue@,
                self.start as int,
                self.end as int,
                self.input@.len(),
            );
        }
        match &(&*self.queue)[self.start] {
            QueueableToken::Start { end_token_index, .. } => *end_token_index,
            QueueableToken::End { .. } => vstd::pervasive::unreached(),
        }
    }

    /// Index of the `Start` token of the pair closed right before the end
    /// cursor.
    pub fn pair_from_end(&self) -> (r: usize)
        requires
            self.wf(),
            self.start < self.end,
        ensures
            r == partner(self.queue@, self.end - 1),
    {
        proof {
            lemma_range_closed_ends(
                self.queue@,
                self.start as int,
                self.end as int,
                self.input@.len(),
            );
        }
        match &(&*self.queue)[self.end - 1] {
            QueueableToken::End { start_token_index, .. } => *start_token_index,
            QueueableToken::Start { .. } => vstd::pervasive::unreached(),
        }
    }

    /// Yields the first remaining pair, decorated with the line index, and
    /// steps over its whole subtree, so the next yield is its sibling.
    pub fn next(&mut self) -> (r: Option<Pair<'i, R>>)
        requires
            old(self).wf(),
        ensures
            final(self).wf(),
            final(self).queue == old(self).queue,
            final(self).input == old(self).input,
            final(self).line_index == old(self).line_index,
            final(self).end == old(self).end,
            old(self).start >= old(self).end ==> r is None && final(self).start == old(self).start,
            old(self).start < old(self).end ==> {
                &&& r matches Some(p) && p.wf() && p.queue == old(self).queue && p.input == old(
                    self,
                ).input && p.line_index == Some(old(self).line_index) && p.start == old(self).start
                &&& old(self).remaining().len() > 0 && old(self).remaining().first() == old(
                    self,
                ).start as int
                &&& final(self).start == partner(old(self).queue@, old(self).start as int) + 1
                &&& final(self).remaining() == old(self).remaining().drop_first()
            },
    {
        match self.peek() {
            None => None,
            Some(p) => {
                proof {
                    lemma_drop_first_sibling(
                        self.queue@,
                        self.start as int,
                        self.end as int,
                        self.input@.len(),
                    );
                }
                let j = self.pair();
                proof {
                    assert(sibling_seq(self.queue@, self.start as int, self.end as int)
                        == seq![self.start as int] + sibling_seq(
                        self.queue@,
                        j + 1,
                        self.end as int,
                    ));
                    assert((seq![self.start as int] + sibling_seq(
                        self.queue@,
                        j + 1,
                        self.end as int,
                    )).drop_first() =~= sibling_seq(self.queue@, j + 1, self.end as int));
                }
                self.start = j + 1;
                Some(p)
            },
        }
    }

    /// Yields the last remaining pair, decorated with the line index, and
    /// retreats the end cursor to its `Start`: the same siblings as forward
    /// iteration, in reverse order.
    pub fn next_back(&mut self) -> (r: Option<Pair<'i, R>>)
        requires
            old(self).wf(),
        ensures
            final(self).wf(),
            final(self).queue == old(self).queue,
            final(self).input == old(self).input,
            final(self).line_index == old(self).line_index,
            final(self).start == old(self).start,
            old(self).start >= old(self).end ==> r is None && final(self).end == old(self).end,
            old(self).start < old(self).end ==> {
                &&& r matches Some(p) && p.wf() && p.queue == old(self).queue && p.input == old(
                    self,
                ).input && p.line_index == Some(old(self).line_index) && p.start == partner(
                    old(self).queue@,
                    old(self).end - 1,
                )
                &&& old(self).remaining().len() > 0 && old(self).remaining().last() == partner(
                    old(self).queue@,
                    old(self).end - 1,
                )
                &&& final(self).end == partner(old(self).queue@, old(self).end - 1)
                &&& final(self).remaining() == old(self).remaining().drop_last()
            },
    {
        if self.end <= self.start {
            return None;
        }
        proof {
            lemma_last_sibling(self.queue@, self.start as int, self.end as int, self.input@.len());
            lemma_sibling_seq_last(
                self.queue@,
                self.start as int,
                self.end as int,
                self.input@.len(),
            );
        }
        let s = self.pair_from_end();
        proof {
            assert(sibling_seq(self.queue@, self.start as int, s as int).push(s as int).drop_last()
                =~= sibling_seq(self.queue@, self.start as int, s as int));
        }
        self.end = s;
        Some(
            Pair {
                queue: self.queue.clone(),
                input: self.input,
                line_index: Some(self.line_index.clone()),
                start: s,
            },
        )
    }

    /// The same range, viewed flat: every node of every subtree in `[start,
    /// end)`, in document (preorder) order, still carrying the line index.
    pub fn flatten(self) -> (r: FlatPairs<'i, R>)
        requires
            self.wf(),
        ensures
            r.wf(),
            r.queue == self.queue,
            r.input == self.input,
            r.line_index == Some(self.line_index),
            r.start == self.start,
            r.end == self.end,
    {
        proof {
            if self.start < self.end {
                lemma_range_closed_ends(
                    self.queue@,
                    self.start as int,
                    self.end as int,
                    self.input@.len(),
                );
            }
        }
        FlatPairs {
            queue: self.queue,
            input: self.input,
            line_index: Some(self.line_index),
            start: self.start,
            end: self.end,
        }
    }
}

} // verus!

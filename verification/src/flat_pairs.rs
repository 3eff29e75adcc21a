//! Iterator over every node of a token range, in document (preorder) order.
//!
//! Where the nested view steps over a subtree it has just yielded, the flat
//! view descends into it: it yields a pair for every `Start` token of the
//! range, in increasing token-index order.

use std::rc::Rc;

use vstd::prelude::*;

use crate::line_index::LineIndex;
use crate::pair::{line_index_wf, Pair};
use crate::queueable_token::{
    is_start, queue_wf, token_is_start, QueueableToken,
};

verus! {

/// Indices of the `Start` tokens of `[start, end)`, in increasing order: the
/// order in which flat forward iteration yields them.
pub open spec fn flat_seq<R>(q: Seq<QueueableToken<R>>, start: int, end: int) -> Seq<int>
    decreases end - start,
{
    if start >= end {
        Seq::empty()
    } else if is_start(q, start) {
        seq![start] + flat_seq(q, start + 1, end)
    } else {
        flat_seq(q, start + 1, end)
    }
}

/// Extending a range by one token appends its index exactly when it is a
/// `Start`.
pub proof fn lemma_flat_seq_snoc<R>(q: Seq<QueueableToken<R>>, start: int, b: int)
    requires
        start <= b,
    ensures
        is_start(q, b) ==> flat_seq(q, start, b + 1) == flat_seq(q, start, b).push(b),
        !is_start(q, b) ==> flat_seq(q, start, b + 1) == flat_seq(q, start, b),
    decreases b - start,
{
    assert(flat_seq(q, b + 1, b + 1) =~= Seq::<int>::empty());
    assert(flat_seq(q, b, b) =~= Seq::<int>::empty());
    if start < b {
        lemma_flat_seq_snoc(q, start + 1, b);
        if is_start(q, b) {
            assert(flat_seq(q, start, b + 1) =~= flat_seq(q, start, b).push(b));
        }
    } else {
        if is_start(q, b) {
            assert(flat_seq(q, b, b + 1) =~= seq![b]);
            assert(flat_seq(q, start, b + 1) =~= flat_seq(q, start, b).push(b));
        } else {
            assert(flat_seq(q, b, b + 1) =~= Seq::<int>::empty());
        }
    }
}

/// Flat sequences of adjacent ranges concatenate.
pub proof fn lemma_flat_seq_concat<R>(q: Seq<QueueableToken<R>>, a: int, b: int, c: int)
    requires
        a <= b <= c,
    ensures
        flat_seq(q, a, c) == flat_seq(q, a, b) + flat_seq(q, b, c),
    decreases b - a,
{
    if a >= b {
        assert(flat_seq(q, a, b) =~= Seq::<int>::empty());
        assert(flat_seq(q, a, c) =~= flat_seq(q, a, b) + flat_seq(q, b, c));
    } else {
        lemma_flat_seq_concat(q, a + 1, b, c);
        assert(flat_seq(q, a, c) =~= flat_seq(q, a, b) + flat_seq(q, b, c));
    }
}

/// The flat sequence holds exactly the `Start` token indices of its range, in
/// strictly increasing order.
pub proof fn lemma_flat_seq_members<R>(q: Seq<QueueableToken<R>>, start: int, end: int)
    requires
        start <= end,
    ensures
        forall|x: int| flat_seq(q, start, end).contains(x) <==> start <= x < end && is_start(q, x),
        forall|i: int, j: int|
            0 <= i < j < flat_seq(q, start, end).len() ==> #[trigger] flat_seq(q, start, end)[i]
                < #[trigger] flat_seq(q, start, end)[j],
        forall|i: int|
            0 <= i < flat_seq(q, start, end).len() ==> start <= #[trigger] flat_seq(
                q,
                start,
                end,
            )[i] < end && is_start(q, flat_seq(q, start, end)[i]),
    decreases end - start,
{
    if start >= end {
        assert forall|x: int| flat_seq(q, start, end).contains(x) implies start <= x < end
            && is_start(q, x) by {}
    } else {
        lemma_flat_seq_members(q, start + 1, end);
        let tail = flat_seq(q, start + 1, end);
        let cur = flat_seq(q, start, end);
        assert forall|x: int| cur.contains(x) implies start <= x < end && is_start(q, x) by {
            if is_start(q, start) {
                let i = choose|i: int| 0 <= i < cur.len() && cur[i] == x;
                if i == 0 {
                } else {
                    assert(tail[i - 1] == x);
                    assert(tail.contains(x));
                }
            } else {
                assert(tail.contains(x));
            }
        }
        assert forall|x: int| start <= x < end && is_start(q, x) implies cur.contains(x) by {
            if x == start {
                assert(cur[0] == x);
            } else {
                assert(tail.contains(x));
                let i = choose|i: int| 0 <= i < tail.len() && tail[i] == x;
                if is_start(q, start) {
                    assert(cur[i + 1] == x);
                } else {
                    assert(cur[i] == x);
                }
            }
        }
    }
}

/// Iterator over every node whose `Start` token lies in `[start, end)`, in
/// preorder.
pub struct FlatPairs<'i, R> {
    pub queue: Rc<Vec<QueueableToken<R>>>,
    pub input: &'i str,
    pub line_index: Option<Rc<LineIndex>>,
    pub start: usize,
    pub end: usize,
}

impl<'i, R: Copy> FlatPairs<'i, R> {
    /// The queue is well-formed over the text, the range lies in the queue,
    /// the forward cursor sits on a `Start` token whenever the range is
    /// non-empty, and any attached line index belongs to the text.
    pub open spec fn wf(self) -> bool {
        &&& queue_wf(self.queue@, self.input@.len())
        &&& self.start <= self.end <= self.queue@.len()
        &&& (self.start < self.end ==> is_start(self.queue@, self.start as int))
        &&& line_index_wf(self.line_index, self.input@)
    }

    /// The nodes not yet yielded, in preorder.
    pub open spec fn remaining(self) -> Seq<int> {
        flat_seq(self.queue@, self.start as int, self.end as int)
    }

    /// Yields the node at the forward cursor and advances to the next `Start`
    /// token of the range, descending into subtrees rather than stepping over
    /// them.
    pub fn next(&mut self) -> (r: Option<Pair<'i, R>>)
        requires
            old(self).wf(),
        ensures
            final(self).wf(),
            final(self).queue == old(self).queue,
            final(self).input == old(self).input,
            final(self).line_index == old(self).line_index,
            final(self).end == old(self).end,
            old(self).start >= old(self).end ==> r is None && final(self).start == old(self).start,
            old(self).start < old(self).end ==> {
                &&& r matches Some(p) && p.wf() && p.queue == old(self).queue && p.input == old(
                    self,
                ).input && p.line_index == old(self).line_index && p.start == old(self).start
                &&& old(self).start < final(self).start <= old(self).end
                &&& forall|k: int|
                    old(self).start < k < final(self).start ==> !is_start(old(self).queue@, k)
                &&& final(self).remaining() == old(self).remaining().drop_first()
            },
    {
        if self.start >= self.end {
            return None;
        }
        let line_index = match &self.line_index {
            Some(li) => Some(li.clone()),
            None => None,
        };
        let p = Pair {
            queue: self.queue.clone(),
            input: self.input,
            line_index,
            start: self.start,
        };
        let ghost q = self.queue@;
        let ghost end0 = self.end as int;
        let ghost s0 = self.start as int;
        self.start = self.start + 1;
        while self.start < self.end && !token_is_start(&self.queue, self.start)
            invariant
                self.queue == old(self).queue,
                self.input == old(self).input,
                self.line_index == old(self).line_index,
                self.end == old(self).end,
                q == self.queue@,
                end0 == self.end as int,
                s0 == old(self).start as int,
                s0 < self.start <= end0,
                end0 <= q.len(),
                forall|k: int| s0 < k < self.start ==> !is_start(q, k),
                flat_seq(q, self.start as int, end0) == flat_seq(q, s0 + 1, end0),
            decreases end0 - self.start,
        {
            assert(flat_seq(q, self.start + 1, end0) == flat_seq(q, self.start as int, end0));
            self.start = self.start + 1;
        }
        proof {
            assert(flat_seq(q, s0, end0) == seq![s0] + flat_seq(q, s0 + 1, end0));
            assert((seq![s0] + flat_seq(q, s0 + 1, end0)).drop_first() =~= flat_seq(
                q,
                s0 + 1,
                end0,
            ));
        }
        Some(p)
    }

    /// Yields the last node of the range, found by walking back over the
    /// closing `End` tokens, and retreats the end cursor to it: preorder,
    /// backwards.
    pub fn next_back(&mut self) -> (r: Option<Pair<'i, R>>)
        requires
            old(self).wf(),
        ensures
            final(self).wf(),
            final(self).queue == old(self).queue,
            final(self).input == old(self).input,
            final(self).line_index == old(self).line_index,
            final(self).start == old(self).start,
            old(self).start >= old(self).end ==> r is None && final(self).end == old(self).end,
            old(self).start < old(self).end ==> {
                &&& old(self).remaining().len() > 0
                &&& r matches Some(p) && p.wf() && p.queue == old(self).queue && p.input == old(
                    self,
                ).input && p.line_index == old(self).line_index && p.start == old(
                    self,
                ).remaining().last()
                &&& final(self).end == old(self).remaining().last()
                &&& final(self).remaining() == old(self).remaining().drop_last()
            },
    {
        if self.start >= self.end {
            return None;
        }
        let ghost q = self.queue@;
        let ghost s0 = self.start as int;
        let ghost end0 = self.end as int;
        let mut k = self.end;
        while !token_is_start(&self.queue, k - 1)
            invariant
                self.queue == old(self).queue,
                self.input == old(self).input,
                self.line_index == old(self).line_index,
                self.start == old(self).start,
                self.end == old(self).end,
                q == self.queue@,
                s0 == self.start as int,
                end0 == self.end as int,
                s0 < k <= end0,
                end0 <= q.len(),
                is_start(q, s0),
                flat_seq(q, s0, k as int) == flat_seq(q, s0, end0),
            decreases k,
        {
            proof {
                if k - 1 == s0 {
                    assert(false);
                }
                lemma_flat_seq_snoc(q, s0, k - 1);
            }
            k = k - 1;
        }
        let idx = k - 1;
        proof {
            lemma_flat_seq_snoc(q, s0, idx as int);
            assert(flat_seq(q, s0, k as int) == flat_seq(q, s0, idx as int).push(idx as int));
            assert(flat_seq(q, s0, idx as int).push(idx as int).drop_last() =~= flat_seq(
                q,
                s0,
                idx as int,
            ));
            assert(flat_seq(q, s0, end0).last() == idx as int);
        }
        self.end = idx;
        let line_index = match &self.line_index {
            Some(li) => Some(li.clone()),
            None => None,
        };
        Some(Pair { queue: self.queue.clone(), input: self.input, line_index, start: idx })
    }
}

} // verus!

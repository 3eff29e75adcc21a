//! A single matched node of the parse tree: a cheap handle into the shared
//! token queue, exposing the matched rule, the matched text, the node's
//! children, and — when a line index is attached — its line and column.

use std::rc::Rc;

use vstd::prelude::*;
use vstd::string::StrSliceExecFns;

use crate::line_index::{col_of, line_of, LineIndex};
use crate::pairs::Pairs;
use crate::queueable_token::{
    is_start, partner, pos, queue_wf, rule_of, token_wf, token_partner, token_pos, QueueableToken,
};

verus! {

/// The attached line index, if any, was built from the given text.
pub open spec fn line_index_wf(li: Option<Rc<LineIndex>>, text: Seq<char>) -> bool {
    match li {
        Some(l) => l.wf() && l.text@ == text,
        None => true,
    }
}

/// One matched node: the `Start` token at `start` together with everything up
/// to its paired `End`.
pub struct Pair<'i, R> {
    pub queue: Rc<Vec<QueueableToken<R>>>,
    pub input: &'i str,
    pub line_index: Option<Rc<LineIndex>>,
    pub start: usize,
}

impl<'i, R: Copy> Pair<'i, R> {
    /// The handle points at a `Start` token of a well-formed queue over its
    /// text, and any attached line index belongs to that text.
    pub open spec fn wf(self) -> bool {
        &&& queue_wf(self.queue@, self.input@.len())
        &&& self.start < self.queue@.len()
        &&& is_start(self.queue@, self.start as int)
        &&& line_index_wf(self.line_index, self.input@)
    }

    /// Index of the `End` token closing this node.
    pub open spec fn end_index(self) -> int {
        partner(self.queue@, self.start as int)
    }

    /// First character position of the matched span.
    pub open spec fn span_start(self) -> int {
        pos(self.queue@, self.start as int)
    }

    /// One-past-last character position of the matched span.
    pub open spec fn span_end(self) -> int {
        pos(self.queue@, self.end_index())
    }

    /// The matched text, as the characters of the span.
    pub open spec fn matched(self) -> Seq<char> {
        self.input@.subrange(self.span_start(), self.span_end())
    }

    /// The rule this node matched.
    pub fn as_rule(&self) -> (r: R)
        requires
            self.wf(),
        ensures
            r == rule_of(self.queue@, self.start as int),
    {
        match &(&*self.queue)[self.start] {
            QueueableToken::Start { rule, .. } => *rule,
            QueueableToken::End { .. } => vstd::pervasive::unreached(),
        }
    }

    /// The matched span as (first, one-past-last) character positions.
    pub fn as_span(&self) -> (r: (usize, usize))
        requires
            self.wf(),
        ensures
            r.0 == self.span_start(),
            r.1 == self.span_end(),
    {
        proof {
            assert(token_wf(self.queue@, self.start as int, self.input@.len()));
        }
        let start_pos = token_pos(&self.queue, self.start);
        let end_index = token_partner(&self.queue, self.start);
        let end_pos = token_pos(&self.queue, end_index);
        (start_pos, end_pos)
    }

    /// The matched substring of the source text.
    pub fn as_str(&self) -> (r: &'i str)
        requires
            self.wf(),
        ensures
            r@ == self.matched(),
    {
        proof {
            assert(token_wf(self.queue@, self.start as int, self.input@.len()));
            assert(token_wf(self.queue@, self.end_index(), self.input@.len()));
        }
        let (start_pos, end_pos) = self.as_span();
        self.input.substring_char(start_pos, end_pos)
    }

    /// 1-based (line, column) of the start of the matched span, looked up in
    /// the attached line index.
    pub fn line_col(&self) -> (r: (usize, usize))
        requires
            self.wf(),
            self.line_index is Some,
        ensures
            r.0 == line_of(self.input@, self.span_start()),
            r.1 == col_of(self.input@, self.span_start()),
    {
        proof {
            assert(token_wf(self.queue@, self.start as int, self.input@.len()));
        }
        let start_pos = token_pos(&self.queue, self.start);
        match &self.line_index {
            Some(li) => li.locate(start_pos),
            None => vstd::pervasive::unreached(),
        }
    }

    /// The forest of this node's direct children: a nested view over the
    /// tokens strictly between this node's `Start` and its `End`. Any attached
    /// line index is kept.
    pub fn into_inner(self) -> (r: Pairs<'i, R>)
        requires
            self.wf(),
        ensures
            r.wf(),
            r.queue == self.queue,
            r.input == self.input,
            r.line_index == self.line_index,
            r.start == self.start + 1,
            r.end == self.end_index(),
    {
        proof {
            assert(token_wf(self.queue@, self.start as int, self.input@.len()));
        }
        let end = token_partner(&self.queue, self.start);
        Pairs {
            queue: self.queue,
            input: self.input,
            line_index: self.line_index,
            start: self.start + 1,
            end,
        }
    }
}

} // verus!

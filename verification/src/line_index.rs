//! Precomputed table of line-start positions, for fast position-to-(line,
//! column) lookup.
//!
//! The index is built once per parse result by a single scan of the source
//! text and shared by every view that answers location queries; a lookup is a
//! binary search, never a re-scan. Positions are counted in characters, both
//! lines and columns are 1-based, and the line terminator is the line-feed
//! character.

use vstd::prelude::*;
use vstd::string::StrSliceExecFns;

verus! {

/// Number of line feeds among the first `n` characters of `s`.
pub open spec fn newline_count(s: Seq<char>, n: int) -> int
    decreases n,
{
    if n <= 0 {
        0
    } else {
        newline_count(s, n - 1) + if s[n - 1] == '\n' {
            1int
        } else {
            0int
        }
    }
}

/// 1-based line number of the character position `off` in `s`.
pub open spec fn line_of(s: Seq<char>, off: int) -> int {
    newline_count(s, off) + 1
}

/// Position of the start of the line that the character position `off` lies
/// on: the nearest line start at or before `off`.
pub open spec fn line_start_of(s: Seq<char>, off: int) -> int
    decreases off,
{
    if off <= 0 {
        0
    } else if s[off - 1] == '\n' {
        off
    } else {
        line_start_of(s, off - 1)
    }
}

/// 1-based column of the character position `off` in `s`: characters from the
/// start of its line to `off`, plus one.
pub open spec fn col_of(s: Seq<char>, off: int) -> int {
    off - line_start_of(s, off) + 1
}

/// `off` is the first position of a line: position 0, or the position right
/// after a line feed.
pub open spec fn is_line_start(s: Seq<char>, off: int) -> bool {
    off == 0 || (0 < off <= s.len() && s[off - 1] == '\n')
}

/// The line starts among the first `n` positions of `s`, in increasing order,
/// beginning with position 0.
pub open spec fn line_starts_upto(s: Seq<char>, n: int) -> Seq<int>
    decreases n,
{
    if n <= 0 {
        seq![0int]
    } else if s[n - 1] == '\n' {
        line_starts_upto(s, n - 1).push(n)
    } else {
        line_starts_upto(s, n - 1)
    }
}

/// All line starts of `s`, in increasing order.
pub open spec fn line_starts_of(s: Seq<char>) -> Seq<int> {
    line_starts_upto(s, s.len() as int)
}

/// Shape of the table of line starts: the entry at index `k` is the start of
/// line `k + 1`, entries are strictly increasing, and no line start of the
/// first `n` positions is missing.
pub proof fn lemma_line_starts_upto(s: Seq<char>, n: int)
    requires
        0 <= n <= s.len(),
    ensures
        0 <= newline_count(s, n) <= n,
        line_starts_upto(s, n).len() == newline_count(s, n) + 1,
        line_starts_upto(s, n)[0] == 0,
        forall|k: int|
            0 <= k < line_starts_upto(s, n).len() ==> {
                &&& 0 <= #[trigger] line_starts_upto(s, n)[k] <= n
                &&& is_line_start(s, line_starts_upto(s, n)[k])
                &&& newline_count(s, line_starts_upto(s, n)[k]) == k
            },
        forall|k: int, l: int|
            0 <= k < l < line_starts_upto(s, n).len()
                ==> #[trigger] line_starts_upto(s, n)[k] < #[trigger] line_starts_upto(s, n)[l],
        forall|o: int|
            0 <= o <= n && #[trigger] is_line_start(s, o) ==> line_starts_upto(s, n).contains(o),
    decreases n,
{
    if n <= 0 {
        assert(line_starts_upto(s, n) =~= seq![0int]);
        assert(forall|o: int|
            0 <= o <= n && #[trigger] is_line_start(s, o) ==> line_starts_upto(s, n)[0] == o);
    } else {
        lemma_line_starts_upto(s, n - 1);
        let prev = line_starts_upto(s, n - 1);
        let cur = line_starts_upto(s, n);
        if s[n - 1] == '\n' {
            assert(cur == prev.push(n));
            assert(forall|o: int|
                0 <= o <= n - 1 && #[trigger] is_line_start(s, o) ==> prev.contains(o));
            assert forall|o: int| 0 <= o <= n && #[trigger] is_line_start(s, o) implies cur.contains(
                o,
            ) by {
                if o == n {
                    assert(cur[cur.len() - 1] == o);
                } else {
                    let j = choose|j: int| 0 <= j < prev.len() && prev[j] == o;
                    assert(cur[j] == o);
                }
            }
        } else {
            assert(cur == prev);
            assert forall|o: int| 0 <= o <= n && #[trigger] is_line_start(s, o) implies cur.contains(
                o,
            ) by {
                assert(o != n);
                let j = choose|j: int| 0 <= j < prev.len() && prev[j] == o;
                assert(cur[j] == o);
            }
        }
    }
}

/// At a line start, the start of the enclosing line is the position itself.
pub proof fn lemma_line_start_fixpoint(s: Seq<char>, off: int)
    requires
        is_line_start(s, off),
    ensures
        line_start_of(s, off) == off,
{
}

/// A lookup that lands between two consecutive recorded line starts reads off
/// the line number and the line's own start.
proof fn lemma_locate(s: Seq<char>, off: int, k: int)
    requires
        0 <= off <= s.len(),
        0 <= k < line_starts_of(s).len(),
        line_starts_of(s)[k] <= off,
        k + 1 < line_starts_of(s).len() ==> off < line_starts_of(s)[k + 1],
    ensures
        newline_count(s, off) == k,
        line_start_of(s, off) == line_starts_of(s)[k],
    decreases off,
{
    let ls = line_starts_of(s);
    lemma_line_starts_upto(s, s.len() as int);
    if off == ls[k] {
        lemma_line_start_fixpoint(s, off);
    } else {
        assert(off > ls[k]);
        if s[off - 1] == '\n' {
            assert(is_line_start(s, off));
            assert(ls.contains(off));
            let j = choose|j: int| 0 <= j < ls.len() && ls[j] == off;
            assert(j > k);
            assert(ls[k + 1] <= ls[j]);
            assert(false);
        }
        lemma_locate(s, off - 1, k);
    }
}

/// Precomputed line-start table for one source text.
///
/// `text` records, in ghost form, which text the table was built from; the
/// table itself holds every line start of that text in increasing order.
pub struct LineIndex {
    pub line_starts: Vec<usize>,
    pub text: Ghost<Seq<char>>,
}

impl LineIndex {
    /// The table holds exactly the line starts of the recorded text.
    pub open spec fn wf(self) -> bool {
        &&& self.text@.len() < usize::MAX
        &&& self.line_starts@.map_values(|x: usize| x as int) == line_starts_of(self.text@)
    }

    /// Builds the index by one scan of `input`, recording the position after
    /// each line feed as the start of the next line.
    pub fn new(input: &str) -> (r: LineIndex)
        requires
            input@.len() < usize::MAX,
        ensures
            r.wf(),
            r.text@ == input@,
    {
        let ghost s = input@;
        let n = input.unicode_len();
        let mut line_starts: Vec<usize> = Vec::new();
        line_starts.push(0);
        assert(line_starts@.map_values(|x: usize| x as int) =~= line_starts_upto(s, 0));
        let mut i: usize = 0;
        while i < n
            invariant
                i <= n,
                n == s.len(),
                n < usize::MAX,
                s == input@,
                line_starts@.map_values(|x: usize| x as int) == line_starts_upto(s, i as int),
            decreases n - i,
        {
            let c = input.get_char(i);
            if c == '\n' {
                line_starts.push(i + 1);
                assert(line_starts@.map_values(|x: usize| x as int) =~= line_starts_upto(
                    s,
                    i + 1,
                ));
            } else {
                assert(line_starts@.map_values(|x: usize| x as int) =~= line_starts_upto(
                    s,
                    i + 1,
                ));
            }
            i += 1;
        }
        LineIndex { line_starts, text: Ghost(s) }
    }

    /// 1-based (line, column) of the character position `offset`, by binary
    /// search over the recorded line starts.
    pub fn locate(&self, offset: usize) -> (r: (usize, usize))
        requires
            self.wf(),
            offset <= self.text@.len(),
        ensures
            r.0 == line_of(self.text@, offset as int),
            r.1 == col_of(self.text@, offset as int),
    {
        let ghost s = self.text@;
        let ghost ls = line_starts_of(s);
        proof {
            lemma_line_starts_upto(s, s.len() as int);
        }
        let len = self.line_starts.len();
        assert(len == ls.len()) by {
            assert(self.line_starts@.map_values(|x: usize| x as int).len()
                == self.line_starts@.len());
        }
        let mut lo: usize = 0;
        let mut hi: usize = len;
        assert(self.line_starts@.map_values(|x: usize| x as int)[0] == self.line_starts@[0] as int);
        while hi - lo > 1
            invariant
                0 <= lo < hi <= len,
                len == ls.len(),
                self.line_starts@.map_values(|x: usize| x as int) == ls,
                ls[lo as int] <= offset,
                hi < len ==> offset < ls[hi as int],
            decreases hi - lo,
        {
            let mid = lo + (hi - lo) / 2;
            assert(self.line_starts@.map_values(|x: usize| x as int)[mid as int]
                == self.line_starts@[mid as int] as int);
            if self.line_starts[mid] <= offset {
                lo = mid;
            } else {
                hi = mid;
            }
        }
        proof {
            lemma_locate(s, offset as int, lo as int);
        }
        let start = self.line_starts[lo];
        assert(self.line_starts@.map_values(|x: usize| x as int)[lo as int]
            == self.line_starts@[lo as int] as int);
        (lo + 1, offset - start + 1)
    }
}

} // verus!

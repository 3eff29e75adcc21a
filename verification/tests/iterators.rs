use std::rc::Rc;

use pest::flat_pairs::FlatPairs;
use pest::line_index::LineIndex;
use pest::locate_pairs;
use pest::locate_pairs::LocatablePairs;
use pest::pair::Pair;
use pest::pairs;
use pest::queueable_token::QueueableToken;

#[derive(Clone, Copy, Debug, PartialEq, Eq)]
#[allow(non_camel_case_types)]
enum Rule {
    a,
    b,
    c,
}

/// The queue a matching engine would produce for the source "abc\nefgh" with
/// a rule `a` matching "abc" (containing a nested `b` matching "b"), then two
/// `c` nodes matching "e" and "fgh".
fn abc_queue() -> Rc<Vec<QueueableToken<Rule>>> {
    Rc::new(vec![
        QueueableToken::Start { rule: Rule::a, end_token_index: 3, input_pos: 0 },
        QueueableToken::Start { rule: Rule::b, end_token_index: 2, input_pos: 1 },
        QueueableToken::End { start_token_index: 1, input_pos: 2 },
        QueueableToken::End { start_token_index: 0, input_pos: 3 },
        QueueableToken::Start { rule: Rule::c, end_token_index: 5, input_pos: 4 },
        QueueableToken::End { start_token_index: 4, input_pos: 5 },
        QueueableToken::Start { rule: Rule::c, end_token_index: 7, input_pos: 5 },
        QueueableToken::End { start_token_index: 6, input_pos: 8 },
    ])
}

const ABC: &str = "abc\nefgh";

fn abc_locatable() -> LocatablePairs<'static, Rule> {
    locate_pairs::new(abc_queue(), ABC, 0, 8)
}

#[test]
fn test_locatable_line_col() {
    let mut pairs = abc_locatable();
    let pair = pairs.next().unwrap();
    assert_eq!(pair.as_str(), "abc");
    assert_eq!(pair.line_col(), (1, 1));

    let pair = pairs.next().unwrap();
    assert_eq!(pair.as_str(), "e");
    assert_eq!(pair.line_col(), (2, 1));

    let pair = pairs.next().unwrap();
    assert_eq!(pair.as_str(), "fgh");
    assert_eq!(pair.line_col(), (2, 2));
}

#[test]
fn test_locatable_flatten_line_col() {
    let mut pairs = abc_locatable().flatten();
    let pair = pairs.next().unwrap();
    assert_eq!(pair.as_str(), "abc");
    assert_eq!(pair.line_col(), (1, 1));

    let pair = pairs.next().unwrap();
    assert_eq!(pair.as_str(), "b");
    assert_eq!(pair.line_col(), (1, 2));

    let pair = pairs.next().unwrap();
    assert_eq!(pair.as_str(), "e");
    assert_eq!(pair.line_col(), (2, 1));

    let pair = pairs.next().unwrap();
    assert_eq!(pair.as_str(), "fgh");
    assert_eq!(pair.line_col(), (2, 2));
}

#[test]
fn test_locatable_rev_iter_line_col() {
    let mut pairs = abc_locatable();
    let pair = pairs.next_back().unwrap();
    assert_eq!(pair.as_str(), "fgh");
    assert_eq!(pair.line_col(), (2, 2));

    let pair = pairs.next_back().unwrap();
    assert_eq!(pair.as_str(), "e");
    assert_eq!(pair.line_col(), (2, 1));

    let pair = pairs.next_back().unwrap();
    assert_eq!(pair.as_str(), "abc");
    assert_eq!(pair.line_col(), (1, 1));
}

#[test]
fn forward_and_backward_are_reverses() {
    let mut fwd = abc_locatable();
    let mut forward: Vec<String> = Vec::new();
    while let Some(p) = fwd.next() {
        forward.push(p.as_str().to_owned());
    }
    assert_eq!(forward, vec!["abc", "e", "fgh"]);

    let mut bwd = abc_locatable();
    let mut backward: Vec<String> = Vec::new();
    while let Some(p) = bwd.next_back() {
        backward.push(p.as_str().to_owned());
    }
    backward.reverse();
    assert_eq!(forward, backward);
}

#[test]
fn flatten_yields_every_start_in_order() {
    let mut flat = abc_locatable().flatten();
    let mut starts: Vec<usize> = Vec::new();
    let mut count: usize = 0;
    while let Some(p) = flat.next() {
        starts.push(p.start);
        count += 1;
    }
    // every Start token of the range, in increasing token-index order
    assert_eq!(starts, vec![0, 1, 4, 6]);

    let mut nested = abc_locatable();
    let mut nested_count: usize = 0;
    while nested.next().is_some() {
        nested_count += 1;
    }
    // a strict superset by count: the `a` node has a descendant
    assert!(count > nested_count);
    assert_eq!(nested_count, 3);
}

#[test]
fn flat_pairs_backward_is_reverse_preorder() {
    let mut flat = abc_locatable().flatten();
    let mut names: Vec<String> = Vec::new();
    while let Some(p) = flat.next_back() {
        names.push(p.as_str().to_owned());
    }
    assert_eq!(names, vec!["fgh", "e", "b", "abc"]);
}

#[test]
fn line_col_at_line_starts() {
    let li = LineIndex::new(ABC);
    assert_eq!(li.locate(0), (1, 1));
    // position 4 is the first character of line 2
    assert_eq!(li.locate(4), (2, 1));
    // the end of the text is a valid query position
    assert_eq!(li.locate(8), (2, 5));
    // a text that ends in a line feed starts one more line
    let li = LineIndex::new("x\n");
    assert_eq!(li.locate(2), (2, 1));
}

#[test]
fn peek_is_idempotent() {
    let pairs = abc_locatable();
    let first = pairs.peek().unwrap();
    let again = pairs.peek().unwrap();
    assert_eq!(first.as_str(), again.as_str());
    assert_eq!(first.line_col(), again.line_col());
    assert_eq!(first.start, again.start);

    let mut pairs = pairs;
    let yielded = pairs.next().unwrap();
    assert_eq!(yielded.as_str(), first.as_str());
    assert_eq!(yielded.start, first.start);
}

#[test]
fn round_trip_span_str_and_location() {
    let li = LineIndex::new(ABC);
    let mut flat = abc_locatable().flatten();
    while let Some(p) = flat.next() {
        let (from, to) = p.as_span();
        let by_chars: String = ABC.chars().skip(from).take(to - from).collect();
        assert_eq!(p.as_str(), by_chars);
        assert_eq!(p.line_col(), li.locate(from));
    }
}

#[test]
fn into_inner_yields_direct_children() {
    let mut pairs = abc_locatable();
    let a = pairs.next().unwrap();
    assert_eq!(a.as_rule(), Rule::a);
    let mut children = a.into_inner();
    let b = children.next().unwrap();
    assert_eq!(b.as_rule(), Rule::b);
    assert_eq!(b.as_str(), "b");
    // the line index is kept when descending
    assert_eq!(b.line_col(), (1, 2));
    assert!(children.next().is_none());
    // a leaf has no children
    let mut none = b.into_inner();
    assert!(none.next().is_none());
}

#[test]
fn pair_and_pair_from_end_report_partners() {
    let pairs = abc_locatable();
    assert_eq!(pairs.pair(), 3);
    assert_eq!(pairs.pair_from_end(), 6);
}

#[test]
fn plain_pairs_iterate_without_location() {
    let mut ps = pairs::new(abc_queue(), ABC, 0, 8);
    let first = ps.peek().unwrap();
    assert_eq!(first.as_str(), "abc");
    assert_eq!(first.as_span(), (0, 3));
    let last = ps.next_back().unwrap();
    assert_eq!(last.as_str(), "fgh");
    assert_eq!(last.as_span(), (5, 8));
    let first = ps.next().unwrap();
    assert_eq!(first.as_str(), "abc");
    let mid = ps.next().unwrap();
    assert_eq!(mid.as_str(), "e");
    assert!(ps.next().is_none());
    assert!(ps.next_back().is_none());
}

#[test]
fn empty_range_is_exhausted() {
    let queue: Rc<Vec<QueueableToken<Rule>>> = Rc::new(Vec::new());
    let mut ps = locate_pairs::new(queue.clone(), "", 0, 0);
    assert!(ps.peek().is_none());
    assert!(ps.next().is_none());
    assert!(ps.next_back().is_none());
    let mut flat: FlatPairs<'_, Rule> = locate_pairs::new(queue, "", 0, 0).flatten();
    assert!(flat.next().is_none());
    assert!(flat.next_back().is_none());
}

#[test]
fn multibyte_characters_count_as_one_column() {
    // chars: h é l l o \n w ö r l d  — positions count characters, not bytes
    let text = "h\u{e9}llo\nw\u{f6}rld";
    let queue: Rc<Vec<QueueableToken<Rule>>> = Rc::new(vec![
        QueueableToken::Start { rule: Rule::a, end_token_index: 1, input_pos: 6 },
        QueueableToken::End { start_token_index: 0, input_pos: 11 },
    ]);
    let mut ps = locate_pairs::new(queue, text, 0, 2);
    let p: Pair<'_, Rule> = ps.next().unwrap();
    assert_eq!(p.as_str(), "w\u{f6}rld");
    assert_eq!(p.line_col(), (2, 1));
    let li = LineIndex::new(text);
    assert_eq!(li.locate(8), (2, 3));
}

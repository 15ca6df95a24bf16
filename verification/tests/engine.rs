use std::collections::HashSet;

use fhe_strings::ciphertext::{FheAsciiChar, FheString, Padding};
use fhe_strings::execution::{Execution, ExecutionTree, FoldKind, PatternId};
use fhe_strings::pattern_matcher::{
    build_bitwise_execution_tree, build_leaves, nb_zeros_before, FheResult, MatchResult,
    MatchingOptions, Pattern, SimpleEngine,
};
use fhe_strings::trivial::Trivial;

fn string(bytes: &[u8], padding: Padding) -> FheString<Trivial> {
    FheString { chars: bytes.iter().map(|b| FheAsciiChar { byte: *b }).collect(), padding }
}

fn flags(start: bool, middle: bool, end: bool) -> Padding {
    Padding { start, middle, end }
}

fn and(l: Execution, r: Execution) -> Execution {
    Execution::And { l_res: Box::new(l), r_res: Box::new(r) }
}

fn or(l: Execution, r: Execution) -> Execution {
    Execution::Or { l_res: Box::new(l), r_res: Box::new(r) }
}

fn fold(kind: FoldKind, l: Execution, r: Execution) -> Execution {
    match kind {
        FoldKind::And => and(l, r),
        FoldKind::Or => or(l, r),
        FoldKind::StartIndex => Execution::StartIndex { l_res: Box::new(l), r_res: Box::new(r) },
    }
}

/// The balanced fold over `start ..= end`, written down from its description.
fn balanced(kind: FoldKind, start: usize, end: usize, leaf: &dyn Fn(usize) -> Execution) -> Execution {
    let mut row: Vec<Execution> = Vec::new();
    if end - start < 1 || start % 2 > 0 {
        row.push(leaf(start));
    }
    for c in start..=end {
        row.push(leaf(c));
    }
    while row.len() > 1 {
        let mut next = Vec::new();
        for pair in row.chunks(2) {
            let l = pair[0].clone();
            let r = if pair.len() > 1 { pair[1].clone() } else { pair[0].clone() };
            next.push(fold(kind, l, r));
        }
        row = next;
    }
    row.pop().unwrap()
}

struct Counter {
    n: usize,
    pattern: Vec<u8>,
    padding: Padding,
    sof: bool,
    eof: bool,
    seen: HashSet<Execution>,
}

impl Counter {
    fn zero_range(&self, start: usize, end: usize) -> Execution {
        balanced(FoldKind::And, start, end, &|c| Execution::Eq(c, PatternId::Zero))
    }

    fn branch(&self, c: usize, p: usize) -> Execution {
        let m = self.pattern.len();
        let eq = Execution::Eq(c, PatternId::Byte(self.pattern[p]));
        let mut byte = if m - p < 2 {
            eq
        } else {
            and(eq, Execution::PatternMatch { c_pos: c + 1, p_pos: p + 1 })
        };
        if c > 0 && p == 0 && self.sof && self.padding.start {
            byte = and(self.zero_range(0, c - 1), byte);
        }
        if self.n - c > 1 && m - p == 1 && self.eof && self.padding.end {
            byte = and(byte, self.zero_range(c + 1, self.n - 1));
        }
        let may_skip = self.n - c > m - p
            && ((p == 0 && self.padding.start) || (p > 0 && self.padding.middle));
        if may_skip {
            let zero = and(
                Execution::Eq(c, PatternId::Zero),
                Execution::PatternMatch { c_pos: c + 1, p_pos: p },
            );
            or(byte, zero)
        } else {
            byte
        }
    }

    fn visit(&mut self, e: &Execution) {
        if !self.seen.insert(e.clone()) {
            return;
        }
        match e {
            Execution::Eq(_, _) => {}
            Execution::And { l_res, r_res }
            | Execution::Or { l_res, r_res }
            | Execution::StartIndex { l_res, r_res } => {
                self.visit(l_res);
                self.visit(r_res);
            }
            Execution::IndexMatch { c_pos, p_pos } => {
                self.visit(&Execution::PatternMatch { c_pos: *c_pos, p_pos: *p_pos });
            }
            Execution::PatternMatch { c_pos, p_pos } => {
                let branch = self.branch(*c_pos, *p_pos);
                self.visit(&branch);
            }
        }
    }

    fn count(mut self, kind: FoldKind) -> usize {
        let last = if self.sof { 0 } else { self.n - self.pattern.len() };
        let root = balanced(kind, 0, last, &|c| match kind {
            FoldKind::StartIndex => Execution::IndexMatch { c_pos: c, p_pos: 0 },
            _ => Execution::PatternMatch { c_pos: c, p_pos: 0 },
        });
        self.visit(&root);
        self.seen.len()
    }
}

fn plan_size(content: &FheString<Trivial>, pattern: &[u8], options: MatchingOptions) -> (usize, usize) {
    let mut engine = SimpleEngine::<Trivial>::new();
    let clear = Pattern::Clear(pattern.to_vec());
    let _ = engine.find_match(content, &clear, options);
    let nodes = engine.plan_nodes();
    let distinct: HashSet<Execution> = nodes.iter().cloned().collect();
    assert_eq!(nodes.len(), engine.plan_len());
    assert_eq!(distinct.len(), nodes.len());
    let kind = match options.result {
        MatchResult::Bool => FoldKind::Or,
        _ => FoldKind::StartIndex,
    };
    let counter = Counter {
        n: content.chars.len(),
        pattern: pattern.to_vec(),
        padding: content.padding,
        sof: options.sof,
        eof: options.eof,
        seen: HashSet::new(),
    };
    (engine.plan_len(), counter.count(kind))
}

#[test]
fn plan_of_contains_holds_each_node_once() {
    let content = string(b"hello wo", flags(false, false, false));
    let (size, distinct) = plan_size(&content, b"abc", MatchingOptions::default());
    assert_eq!(size, distinct);
    // six start positions, each with three match nodes, three equality tests and
    // two conjunctions; and the six folds (three, two and one) over the six starts
    assert_eq!(size, 6 * 3 + 6 * 3 + 6 * 2 + 6);
    // the equality tests with the two `l` of the pattern are shared where they
    // meet at one content position
    let (size, distinct) = plan_size(&content, b"llo", MatchingOptions::default());
    assert_eq!(size, distinct);
    assert_eq!(size, 6 * 3 + (7 + 6) + 6 * 2 + 6);
}

#[test]
fn plan_sizes_agree_under_every_flag() {
    let bytes = [b'a', 0, b'b', b'c', 0, 0, b'd', 0];
    for bits in 0..8u8 {
        let padding = flags(bits & 1 > 0, bits & 2 > 0, bits & 4 > 0);
        let content = string(&bytes, padding);
        for (sof, eof) in [(false, false), (true, false), (true, true), (false, true)] {
            for result in [MatchResult::Bool, MatchResult::StartIndex] {
                if padding.start == false && padding.middle == false && padding.end == false && sof && eof {
                    continue;
                }
                let (size, distinct) = plan_size(&content, b"abc", MatchingOptions { sof, eof, result });
                assert_eq!(size, distinct, "flags {bits} sof {sof} eof {eof}");
            }
        }
    }
}

#[test]
fn engine_with_impossible_lengths_builds_no_plan() {
    let content = string(b"ab", flags(false, false, true));
    let mut engine = SimpleEngine::<Trivial>::new();
    let found = engine.has_match(&content, &Pattern::Clear(b"abc".to_vec()), MatchingOptions::default());
    assert!(!found);
    assert_eq!(engine.plan_len(), 0);
    let mut engine = SimpleEngine::<Trivial>::new();
    let options = MatchingOptions { sof: false, eof: false, result: MatchResult::StartIndex };
    assert_eq!(engine.find(&content, &Pattern::Clear(b"abc".to_vec()), options), -1);
    // unpadded content of another length than the pattern cannot be equal to it
    let unpadded = string(b"abcd", flags(false, false, false));
    let mut engine = SimpleEngine::<Trivial>::new();
    let full = MatchingOptions { sof: true, eof: true, result: MatchResult::Bool };
    assert!(!engine.has_match(&unpadded, &Pattern::Clear(b"abc".to_vec()), full));
    assert_eq!(engine.plan_len(), 0);
}

#[test]
fn leaves_stand_twice_where_the_row_is_odd_or_single() {
    let row = build_leaves(2, 4, PatternId::Zero, FoldKind::And);
    assert_eq!(row.len(), 3);
    let row = build_leaves(3, 4, PatternId::Zero, FoldKind::And);
    assert_eq!(row.len(), 3);
    match (&row[0], &row[1]) {
        (ExecutionTree::Leaf(a), ExecutionTree::Leaf(b)) => {
            assert_eq!(a, &Execution::Eq(3, PatternId::Zero));
            assert_eq!(a, b);
        }
        _ => panic!("leaves expected"),
    }
    let row = build_leaves(6, 6, PatternId::Index(1), FoldKind::Or);
    assert_eq!(row.len(), 2);
    match &row[1] {
        ExecutionTree::Leaf(e) => assert_eq!(e, &Execution::PatternMatch { c_pos: 6, p_pos: 1 }),
        _ => panic!("leaf expected"),
    }
    let row = build_leaves(0, 1, PatternId::Index(0), FoldKind::StartIndex);
    match &row[1] {
        ExecutionTree::Leaf(e) => assert_eq!(e, &Execution::IndexMatch { c_pos: 1, p_pos: 0 }),
        _ => panic!("leaf expected"),
    }
}

#[test]
fn balanced_tree_pairs_neighbours() {
    let row = build_leaves(0, 2, PatternId::Zero, FoldKind::And);
    let tree = build_bitwise_execution_tree(row, FoldKind::And);
    let zero = |c: usize| Execution::Eq(c, PatternId::Zero);
    let expected = and(and(zero(0), zero(1)), and(zero(2), zero(2)));
    assert_eq!(tree.root(), &expected);
    let same = balanced(FoldKind::And, 0, 2, &zero);
    assert_eq!(same, expected);
    // rows that overlap share their pairs
    let left = build_bitwise_execution_tree(build_leaves(0, 3, PatternId::Zero, FoldKind::And), FoldKind::And);
    let right = build_bitwise_execution_tree(build_leaves(2, 5, PatternId::Zero, FoldKind::And), FoldKind::And);
    match (left.root(), right.root()) {
        (Execution::And { r_res: shared_l, .. }, Execution::And { l_res: shared_r, .. }) => {
            assert_eq!(shared_l, shared_r);
        }
        _ => panic!("folds expected"),
    }
}

#[test]
fn raw_index_counts_positions_and_start_index_counts_characters() {
    let content = string(&[0, 0, b'a', 0, b'b', b'c', 0], flags(true, true, true));
    let pattern = Pattern::Clear(b"bc".to_vec());
    let mut engine = SimpleEngine::<Trivial>::new();
    let raw = MatchingOptions { sof: false, eof: false, result: MatchResult::RawStartIndex };
    assert_eq!(engine.find(&content, &pattern, raw), 4);
    let mut engine = SimpleEngine::<Trivial>::new();
    let visible = MatchingOptions { sof: false, eof: false, result: MatchResult::StartIndex };
    assert_eq!(engine.find(&content, &pattern, visible), 1);
    let mut engine = SimpleEngine::<Trivial>::new();
    match engine.find_match(&content, &pattern, visible) {
        FheResult::Uint(raw_index) => assert_eq!(raw_index, 5),
        FheResult::Bool(_) => panic!("index expected"),
    }
    assert_eq!(nb_zeros_before(&content, 5u16), 3);
    assert_eq!(nb_zeros_before(&content, 0u16), 0);
    assert_eq!(nb_zeros_before(&content, 7u16), 4);
}

#[test]
fn match_skips_padding_only_where_flags_allow() {
    let bytes = [b'a', 0, b'b'];
    let pattern = Pattern::Clear(b"ab".to_vec());
    let mut engine = SimpleEngine::<Trivial>::new();
    assert!(engine.has_match(&string(&bytes, flags(false, true, false)), &pattern, MatchingOptions::default()));
    let mut engine = SimpleEngine::<Trivial>::new();
    assert!(!engine.has_match(&string(&bytes, flags(true, false, true)), &pattern, MatchingOptions::default()));
    // a zero never stands for the last byte of the pattern
    let mut engine = SimpleEngine::<Trivial>::new();
    assert!(!engine.has_match(&string(&[b'a', 0, 0], flags(false, true, true)), &pattern, MatchingOptions::default()));
    let mut engine = SimpleEngine::<Trivial>::new();
    let single = Pattern::Clear(b"a".to_vec());
    assert!(!engine.has_match(&string(&[0, 0], flags(true, false, true)), &single, MatchingOptions::default()));
}

#[test]
fn anchors_with_padding_at_both_ends() {
    let content = string(&[0, 0, b'a', b'b', 0], flags(true, false, true));
    let full = MatchingOptions { sof: true, eof: true, result: MatchResult::Bool };
    let start = MatchingOptions { sof: true, eof: false, result: MatchResult::Bool };
    for (pattern, starts, equal) in [("ab", true, true), ("a", true, false), ("b", false, false)] {
        let clear = Pattern::Clear(pattern.as_bytes().to_vec());
        let mut engine = SimpleEngine::<Trivial>::new();
        assert_eq!(engine.has_match(&content, &clear, start), starts, "{pattern}");
        let mut engine = SimpleEngine::<Trivial>::new();
        assert_eq!(engine.has_match(&content, &clear, full), equal, "{pattern}");
    }
}

#[test]
fn encrypted_and_clear_patterns_agree() {
    let content = string(&[b'x', b'a', 0, b'b', b'a', b'b'], flags(false, true, false));
    let encrypted = string(b"ab", flags(false, false, false));
    for result in [MatchResult::Bool, MatchResult::StartIndex, MatchResult::RawStartIndex] {
        let options = MatchingOptions { sof: false, eof: false, result };
        let mut e1 = SimpleEngine::<Trivial>::new();
        let mut e2 = SimpleEngine::<Trivial>::new();
        let a = e1.find_match(&content, &Pattern::Encrypted(&encrypted), options);
        let b = e2.find_match(&content, &Pattern::Clear(b"ab".to_vec()), options);
        match (a, b) {
            (FheResult::Bool(x), FheResult::Bool(y)) => {
                assert!(x);
                assert_eq!(x, y);
            }
            (FheResult::Uint(x), FheResult::Uint(y)) => {
                assert_eq!(x, 2);
                assert_eq!(x, y);
            }
            _ => panic!("results of one kind expected"),
        }
    }
}

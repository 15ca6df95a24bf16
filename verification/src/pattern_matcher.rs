//! The pattern-matching engine.
//!
//! A matching call builds an execution plan, a set of [`Execution`] nodes that
//! depends on public data only, and then evaluates the plan on the encrypted
//! bytes, one homomorphic operation per node.
use crate::ciphertext::{FheString, Padding};
use crate::execution::{fold_node, Execution, ExecutionTree, FoldKind, PatternId};
use crate::primitives::{bit, wrap_i16, wrap_u16, Fhe};
use crate::reduction::{height, lemma_reduce_keeps, lemma_reduce_wf, level, mentions};
use crate::semantics::{
    found_index, leaf, leaves, pair_up, reduce, zero_range, zeros_before, Outcome, Scene, Shape,
};
use vstd::prelude::*;

verus! {

/// What a matching call returns.
#[derive(Debug, Copy, Clone)]
pub enum MatchResult {
    /// Whether the pattern matches.
    Bool,
    /// The raw index of the first match, to be turned into a visible index.
    StartIndex,
    /// The raw index of the first match, to be kept raw.
    RawStartIndex,
}

impl Default for MatchResult {
    fn default() -> (result: Self)
        ensures
            result is Bool,
    {
        MatchResult::Bool
    }
}

/// The options of a matching call.
#[derive(Debug, Copy, Clone)]
pub struct MatchingOptions {
    /// The match must begin where the content begins.
    pub sof: bool,
    /// The match must end where the content ends.
    pub eof: bool,
    pub result: MatchResult,
}

impl Default for MatchingOptions {
    fn default() -> (options: Self)
        ensures
            !options.sof,
            !options.eof,
            options.result is Bool,
    {
        MatchingOptions { sof: false, eof: false, result: MatchResult::Bool }
    }
}

impl MatchingOptions {
    /// The kind of fold that combines the start positions.
    pub open spec fn fold_kind(self) -> FoldKind {
        if self.result is Bool {
            FoldKind::Or
        } else {
            FoldKind::StartIndex
        }
    }
}

impl ExecutionTree {
    /// The node at the root of the tree.
    pub fn root(&self) -> (op: &Execution)
        ensures
            *op == self.op(),
    {
        match self {
            ExecutionTree::Leaf(ex) => ex,
            ExecutionTree::Node { op, .. } => op,
        }
    }
}

/// Are the trees of a row all leaves, or all inner nodes?
pub open spec fn uniform(nodes: Seq<ExecutionTree>) -> bool {
    ||| forall|i: int| 0 <= i < nodes.len() ==> #[trigger] nodes[i] is Leaf
    ||| forall|i: int| 0 <= i < nodes.len() ==> #[trigger] nodes[i] is Node
}

/// The row of leaves over the content positions `c_start ..= c_end`.
pub fn build_leaves(c_start: usize, c_end: usize, p_id: PatternId, kind: FoldKind) -> (nodes: Vec<
    ExecutionTree,
>)
    requires
        c_start <= c_end < usize::MAX,
        kind is And || p_id is Index,
    ensures
        nodes@ == leaves(kind, c_start, c_end, p_id),
{
    let mut nodes: Vec<ExecutionTree> = Vec::new();
    if c_end - c_start < 1 || c_start % 2 > 0 {
        nodes.push(ExecutionTree::Leaf(make_leaf(kind, c_start, p_id)));
    }
    let ghost head = nodes@;
    let mut i: usize = c_start;
    while i <= c_end
        invariant
            c_start <= i <= c_end + 1,
            c_end < usize::MAX,
            kind is And || p_id is Index,
            nodes@.len() == head.len() + (i - c_start),
            forall|k: int| 0 <= k < head.len() ==> nodes@[k] == head[k],
            forall|j: int|
                head.len() <= j < nodes@.len() ==> #[trigger] nodes@[j] == ExecutionTree::Leaf(
                    leaf(kind, (c_start + (j - head.len())) as usize, p_id),
                ),
        decreases c_end + 1 - i,
    {
        nodes.push(ExecutionTree::Leaf(make_leaf(kind, i, p_id)));
        i = i + 1;
    }
    assert(nodes@ =~= leaves(kind, c_start, c_end, p_id));
    nodes
}

/// The leaf of a fold of kind `kind` at content position `c_pos`.
fn make_leaf(kind: FoldKind, c_pos: usize, p_id: PatternId) -> (op: Execution)
    requires
        kind is And || p_id is Index,
    ensures
        op == leaf(kind, c_pos, p_id),
{
    match kind {
        FoldKind::And => Execution::Eq(c_pos, p_id),
        FoldKind::Or => match p_id {
            PatternId::Index(p_pos) => Execution::PatternMatch { c_pos, p_pos },
            _ => Execution::Eq(c_pos, p_id),
        },
        FoldKind::StartIndex => match p_id {
            PatternId::Index(p_pos) => Execution::IndexMatch { c_pos, p_pos },
            _ => Execution::Eq(c_pos, p_id),
        },
    }
}

/// The balanced reduction of a row of trees under a fold of kind `kind`.
pub fn build_bitwise_execution_tree(nodes: Vec<ExecutionTree>, kind: FoldKind) -> (tree:
    ExecutionTree)
    requires
        nodes@.len() > 0,
        uniform(nodes@),
    ensures
        tree == reduce(kind, nodes@),
{
    let ghost row = nodes@;
    let mut nodes = nodes;
    while nodes.len() > 1
        invariant
            nodes@.len() > 0,
            reduce(kind, nodes@) == reduce(kind, row),
        decreases nodes@.len(),
    {
        let mut next: Vec<ExecutionTree> = Vec::new();
        let len: usize = nodes.len();
        let half: usize = len / 2 + len % 2;
        let mut k: usize = 0;
        while k < half
            invariant
                k <= half,
                len == nodes@.len(),
                half == (nodes@.len() + 1) / 2,
                next@.len() == k,
                forall|j: int| 0 <= j < k ==> #[trigger] next@[j] == pair_up(kind, nodes@)[j],
            decreases half - k,
        {
            let left = nodes[2 * k].duplicate();
            let right = if 2 * k + 1 < nodes.len() {
                nodes[2 * k + 1].duplicate()
            } else {
                nodes[2 * k].duplicate()
            };
            let op = kind.make(left.root().duplicate(), right.root().duplicate());
            next.push(ExecutionTree::Node { op, left: Box::new(left), right: Box::new(right) });
            k = k + 1;
        }
        assert(next@ =~= pair_up(kind, nodes@));
        nodes = next;
    }
    nodes.pop().unwrap()
}

/// The encrypted value of a node.
pub enum FheResult<F: Fhe> {
    Bool(F::Bool),
    Uint(F::U16),
}

impl<F: Fhe> FheResult<F> {
    /// The clear value of the result.
    pub open spec fn view(&self) -> Outcome {
        match self {
            FheResult::Bool(b) => Outcome::Bool(F::clear_bool(*b)),
            FheResult::Uint(u) => Outcome::Index(F::clear_u16(*u)),
        }
    }

    /// A copy of the result.
    pub fn duplicate(&self) -> (copy: Self)
        ensures
            copy@ == self@,
    {
        match self {
            FheResult::Bool(b) => FheResult::Bool(F::bool_clone(b)),
            FheResult::Uint(u) => FheResult::Uint(F::u16_clone(u)),
        }
    }
}

/// A pattern: clear bytes, or an encrypted string without padding.
pub enum Pattern<'a, F: Fhe> {
    Clear(Vec<u8>),
    Encrypted(&'a FheString<F>),
}

impl<'a, F: Fhe> Pattern<'a, F> {
    /// The bytes of the pattern, in the clear.
    pub open spec fn view(&self) -> Seq<u8> {
        match self {
            Pattern::Clear(bytes) => bytes@,
            Pattern::Encrypted(pattern) => pattern@,
        }
    }

    /// What a plan compares a content byte with, for the pattern byte at `p`.
    pub open spec fn id_at(&self, p: usize) -> PatternId {
        match self {
            Pattern::Clear(bytes) => PatternId::Byte(bytes@[p as int]),
            Pattern::Encrypted(_) => PatternId::Index(p),
        }
    }

    /// Is the pattern flagged as padded?
    pub open spec fn padded(&self) -> bool {
        match self {
            Pattern::Clear(_) => false,
            Pattern::Encrypted(pattern) => pattern.padding.any(),
        }
    }

    pub fn has_padding(&self) -> (b: bool)
        ensures
            b == self.padded(),
    {
        match self {
            Pattern::Clear(_) => false,
            Pattern::Encrypted(pattern) => pattern.has_padding(),
        }
    }

    pub fn len(&self) -> (n: usize)
        ensures
            n == self@.len(),
    {
        match self {
            Pattern::Clear(pattern) => pattern.len(),
            Pattern::Encrypted(pattern) => pattern.chars.len(),
        }
    }
}

/// An entry of the side table of a plan: the value of `op` is also the value
/// of `pattern_match`.
pub struct PatternAlias {
    pub op: Execution,
    pub pattern_match: Execution,
}

/// The engine of one matching call.  Its plan cache holds each node of the
/// plan once, with the node's encrypted value as soon as it is known.
pub struct SimpleEngine<F: Fhe> {
    nodes: Vec<Execution>,
    results: Vec<Option<FheResult<F>>>,
    pm_cache: Vec<PatternAlias>,
}

/// The operands of a fold are in `nodes`, but for those that are a
/// `PatternMatch`.
pub open spec fn supported(nodes: Seq<Execution>, e: Execution) -> bool {
    e.is_fold() ==> {
        &&& e.left() is PatternMatch || nodes.contains(e.left())
        &&& e.right() is PatternMatch || nodes.contains(e.right())
    }
}

/// `after` is `before` with nodes added at its end, none of them a
/// `PatternMatch`.
pub open spec fn extends(before: Seq<Execution>, after: Seq<Execution>) -> bool {
    &&& before.len() <= after.len()
    &&& forall|i: int| 0 <= i < before.len() ==> after[i] == before[i]
    &&& forall|i: int| before.len() <= i < after.len() ==> !(#[trigger] after[i] is PatternMatch)
}

impl<F: Fhe> SimpleEngine<F> {
    /// The nodes of the plan cache.
    pub closed spec fn plan(&self) -> Seq<Execution> {
        self.nodes@
    }

    /// The engine holds no plan.
    pub closed spec fn is_new(&self) -> bool {
        self.nodes@.len() == 0 && self.results@.len() == 0 && self.pm_cache@.len() == 0
    }

    /// A plan under construction: no node stands twice, none has a value,
    /// every node is valid for `shape`, every fold has its operands in the
    /// plan (a `PatternMatch` may still be missing), and the matches that the
    /// nodes mention are among `allowed`.
    #[verifier::opaque]
    pub closed spec fn building(&self, shape: Shape, allowed: Set<(usize, usize)>) -> bool {
        &&& self.nodes@.len() == self.results@.len()
        &&& self.nodes@.no_duplicates()
        &&& forall|i: int| 0 <= i < self.results@.len() ==> #[trigger] self.results@[i] is None
        &&& forall|i: int| 0 <= i < self.nodes@.len() ==> shape.valid(#[trigger] self.nodes@[i])
        &&& forall|i: int|
            0 <= i < self.nodes@.len() ==> supported(self.nodes@, #[trigger] self.nodes@[i])
        &&& forall|i: int, c: usize, p: usize|
            0 <= i < self.nodes@.len() && #[trigger] mentions(self.nodes@[i], c, p)
                ==> allowed.contains((c, p))
    }

    pub fn new() -> (engine: Self)
        ensures
            engine.is_new(),
    {
        SimpleEngine { nodes: Vec::new(), results: Vec::new(), pm_cache: Vec::new() }
    }

    /// Number of nodes in the plan cache.
    pub fn plan_len(&self) -> (n: usize)
        ensures
            n == self.plan().len(),
    {
        self.nodes.len()
    }

    /// A copy of the nodes in the plan cache.
    pub fn plan_nodes(&self) -> (nodes: Vec<Execution>)
        ensures
            nodes@ == self.plan(),
    {
        let mut nodes: Vec<Execution> = Vec::new();
        let mut i: usize = 0;
        while i < self.nodes.len()
            invariant
                i <= self.nodes@.len(),
                nodes@ == self.nodes@.take(i as int),
            decreases self.nodes@.len() - i,
        {
            nodes.push(self.nodes[i].duplicate());
            proof {
                assert(self.nodes@.take(i + 1) =~= self.nodes@.take(i as int).push(
                    self.nodes@[i as int],
                ));
            }
            i = i + 1;
        }
        proof {
            assert(self.nodes@.take(self.nodes@.len() as int) =~= self.nodes@);
        }
        nodes
    }

    /// Where `e` stands in the plan cache.
    fn position(&self, e: &Execution) -> (at: Option<usize>)
        ensures
            match at {
                Some(i) => i < self.nodes@.len() && self.nodes@[i as int] == *e,
                None => !self.nodes@.contains(*e),
            },
    {
        let mut i: usize = 0;
        while i < self.nodes.len()
            invariant
                i <= self.nodes@.len(),
                forall|j: int| 0 <= j < i ==> self.nodes@[j] != *e,
            decreases self.nodes@.len() - i,
        {
            if self.nodes[i].same(e) {
                return Some(i);
            }
            i = i + 1;
        }
        None
    }

    fn contains_key(&self, e: &Execution) -> (b: bool)
        ensures
            b == self.nodes@.contains(*e),
    {
        self.position(e).is_some()
    }

    /// Adds `e` to the plan cache, without a value, unless it is there.
    fn insert(
        &mut self,
        e: Execution,
        Ghost(shape): Ghost<Shape>,
        Ghost(allowed): Ghost<Set<(usize, usize)>>,
    )
        requires
            old(self).building(shape, allowed),
            shape.valid(e),
            supported(old(self).nodes@, e),
            !(e is PatternMatch),
            forall|c: usize, p: usize| #[trigger] mentions(e, c, p) ==> allowed.contains((c, p)),
        ensures
            final(self).building(shape, allowed),
            final(self).nodes@.contains(e),
            extends(old(self).nodes@, final(self).nodes@),
            final(self).pm_cache@ == old(self).pm_cache@,
    {
        reveal(SimpleEngine::building);
        if !self.contains_key(&e) {
            let ghost before = self.nodes@;
            self.nodes.push(e);
            self.results.push(None);
            proof {
                assert(self.nodes@[before.len() as int] == e);
                assert forall|i: int| 0 <= i < self.nodes@.len() implies supported(
                    self.nodes@,
                    #[trigger] self.nodes@[i],
                ) by {
                    let x = self.nodes@[i];
                    if i < before.len() {
                        assert(supported(before, before[i]));
                    }
                    if x.is_fold() {
                        if !(x.left() is PatternMatch) {
                            let j = choose|j: int| 0 <= j < before.len() && before[j] == x.left();
                            assert(self.nodes@[j] == x.left());
                        }
                        if !(x.right() is PatternMatch) {
                            let j = choose|j: int| 0 <= j < before.len() && before[j] == x.right();
                            assert(self.nodes@[j] == x.right());
                        }
                    }
                }
            }
        }
    }

    /// Adds the nodes of `node` to the plan cache, operands before folds.
    /// Below a node that the cache holds already nothing is added: its
    /// operands are there.
    fn insert_tree(
        &mut self,
        node: &ExecutionTree,
        Ghost(shape): Ghost<Shape>,
        Ghost(allowed): Ghost<Set<(usize, usize)>>,
    )
        requires
            old(self).building(shape, allowed),
            node.wf(),
            shape.valid(node.op()),
            !(node.op() is PatternMatch),
            forall|c: usize, p: usize|
                #[trigger] mentions(node.op(), c, p) ==> allowed.contains((c, p)),
        ensures
            final(self).building(shape, allowed),
            final(self).nodes@.contains(node.op()),
            extends(old(self).nodes@, final(self).nodes@),
            final(self).pm_cache@ == old(self).pm_cache@,
        decreases *node,
    {
        let execution = node.root();
        if self.contains_key(execution) {
            return ;
        }
        match node {
            ExecutionTree::Leaf(_) => {},
            ExecutionTree::Node { op, left, right } => {
                proof {
                    assert forall|c: usize, p: usize| #[trigger]
                        mentions(left.op(), c, p) implies allowed.contains((c, p)) by {
                        assert(mentions(*op, c, p));
                    }
                    assert forall|c: usize, p: usize| #[trigger]
                        mentions(right.op(), c, p) implies allowed.contains((c, p)) by {
                        assert(mentions(*op, c, p));
                    }
                }
                if !is_pattern_match(left.root()) {
                    self.insert_tree(left, Ghost(shape), Ghost(allowed));
                }
                let ghost middle = self.nodes@;
                if !is_pattern_match(right.root()) {
                    self.insert_tree(right, Ghost(shape), Ghost(allowed));
                }
                proof {
                    if !(left.op() is PatternMatch) {
                        let j = choose|j: int| 0 <= j < middle.len() && middle[j] == left.op();
                        assert(self.nodes@[j] == left.op());
                        assert(self.nodes@.contains(op.left()));
                    }
                    if !(right.op() is PatternMatch) {
                        assert(self.nodes@.contains(op.right()));
                    }
                }
            },
        }
        self.insert(execution.duplicate(), Ghost(shape), Ghost(allowed));
    }

    /// Adds the nodes of the tree to the plan cache and returns its root node.
    fn insert_execution_tree(
        &mut self,
        root: ExecutionTree,
        Ghost(shape): Ghost<Shape>,
        Ghost(allowed): Ghost<Set<(usize, usize)>>,
    ) -> (op: Execution)
        requires
            old(self).building(shape, allowed),
            root.wf(),
            shape.valid(root.op()),
            !(root.op() is PatternMatch),
            forall|c: usize, p: usize|
                #[trigger] mentions(root.op(), c, p) ==> allowed.contains((c, p)),
        ensures
            op == root.op(),
            final(self).building(shape, allowed),
            final(self).nodes@.contains(op),
            extends(old(self).nodes@, final(self).nodes@),
            final(self).pm_cache@ == old(self).pm_cache@,
    {
        self.insert_tree(&root, Ghost(shape), Ghost(allowed));
        match root {
            ExecutionTree::Node { op, .. } => op,
            ExecutionTree::Leaf(ex) => ex,
        }
    }

    /// Adds to the plan cache the nodes that test whether the content is zero
    /// at every position of `c_start ..= c_end`, and returns their root.
    fn insert_zero_range(
        &mut self,
        c_start: usize,
        c_end: usize,
        Ghost(shape): Ghost<Shape>,
        Ghost(allowed): Ghost<Set<(usize, usize)>>,
    ) -> (op: Execution)
        requires
            old(self).building(shape, allowed),
            c_start <= c_end < shape.n,
        ensures
            op == zero_range(c_start, c_end),
            final(self).building(shape, allowed),
            final(self).nodes@.contains(op),
            extends(old(self).nodes@, final(self).nodes@),
            final(self).pm_cache@ == old(self).pm_cache@,
            shape.valid(op),
            !op.yields_index(),
            forall|c: usize, p: usize| !mentions(op, c, p),
    {
        let nodes = build_leaves(c_start, c_end, PatternId::Zero, FoldKind::And);
        proof {
            let row = nodes@;
            let q = |e: Execution|
                shape.valid(e) && !e.yields_index() && !(e is PatternMatch) && forall|
                    c: usize,
                    p: usize,
                |
                    !mentions(e, c, p);
            assert forall|i: int| 0 <= i < row.len() implies q((#[trigger] row[i]).op())
                && row[i].wf() && row[i] is Leaf by {
                assert(row[i].op() is Eq);
            }
            lemma_reduce_wf(FoldKind::And, row);
            assert forall|a: Execution, b: Execution| q(a) && q(b) implies q(
                #[trigger] fold_node(FoldKind::And, a, b),
            ) by {
                let e = fold_node(FoldKind::And, a, b);
                assert forall|c: usize, p: usize| !mentions(e, c, p) by {
                    assert(!mentions(a, c, p) && !mentions(b, c, p));
                }
            }
            lemma_reduce_keeps(FoldKind::And, row, q);
        }
        let root = build_bitwise_execution_tree(nodes, FoldKind::And);
        self.insert_execution_tree(root, Ghost(shape), Ghost(allowed))
    }

    /// Adds to the plan cache the nodes of one step at the content position
    /// `c_range.0` and the pattern position `p_range.0`, where `c_range.1`
    /// content bytes and `p_range.1` pattern bytes are left, and returns the
    /// node of the step.  With `p_id` zero the step consumes a padding zero,
    /// else the pattern byte that `p_id` names.
    fn consume_pattern(
        &mut self,
        c_range: (usize, usize),
        p_range: (usize, usize),
        p_id: PatternId,
        match_options: MatchingOptions,
        padding: Padding,
        Ghost(allowed): Ghost<Set<(usize, usize)>>,
    ) -> (op: Execution)
        requires
            c_range.0 + c_range.1 <= usize::MAX,
            p_range.0 + p_range.1 <= usize::MAX,
            ({
                let shape = shape_of(c_range, p_range, match_options, padding);
                &&& old(self).building(shape, allowed)
                &&& shape.in_range(c_range.0 as int, p_range.0 as int)
                &&& p_id matches PatternId::Index(q) ==> q < shape.m
                &&& p_id is Zero ==> c_range.1 > p_range.1 && allowed.contains(
                    ((c_range.0 + 1) as usize, p_range.0),
                )
                &&& !(p_id is Zero) && p_range.1 >= 2 ==> allowed.contains(
                    ((c_range.0 + 1) as usize, (p_range.0 + 1) as usize),
                )
            }),
        ensures
            ({
                let shape = shape_of(c_range, p_range, match_options, padding);
                &&& op == shape.step(c_range.0, p_range.0, p_id)
                &&& final(self).building(shape, allowed)
                &&& shape.valid(op)
                &&& !op.yields_index()
                &&& !(op is PatternMatch)
            }),
            final(self).nodes@.contains(op),
            extends(old(self).nodes@, final(self).nodes@),
            final(self).pm_cache@ == old(self).pm_cache@,
            forall|c: usize, p: usize| #[trigger] mentions(op, c, p) ==> allowed.contains((c, p)),
    {
        let ghost shape = shape_of(c_range, p_range, match_options, padding);
        let (c_pos, remain_c) = c_range;
        let (p_pos, remain_p) = p_range;
        let consumes_zero = p_id == PatternId::Zero;
        let zero_prefixed = !consumes_zero && c_pos > 0 && p_pos == 0 && match_options.sof
            && padding.start;
        let zero_suffixed = !consumes_zero && remain_c > 1 && remain_p == 1 && match_options.eof
            && padding.end;

        let p_eq = Execution::Eq(c_pos, p_id);
        self.insert(p_eq.duplicate(), Ghost(shape), Ghost(allowed));

        assert(shape.valid(Execution::Eq(c_pos, p_id)));
        let main_match = if consumes_zero {
            assert(shape.valid(Execution::PatternMatch { c_pos: (c_pos + 1) as usize, p_pos }));
            let ex_and = Execution::And {
                l_res: Box::new(p_eq),
                r_res: Box::new(Execution::PatternMatch { c_pos: c_pos + 1, p_pos }),
            };
            proof {
                lemma_mentions_fold(
                    FoldKind::And,
                    Execution::Eq(c_pos, p_id),
                    Execution::PatternMatch { c_pos: (c_pos + 1) as usize, p_pos },
                    allowed,
                );
            }
            assert(shape.valid(ex_and));
            self.insert(ex_and.duplicate(), Ghost(shape), Ghost(allowed));
            ex_and
        } else if remain_p < 2 {
            // This is the last byte of the pattern to match.
            p_eq
        } else {
            assert(shape.valid(
                Execution::PatternMatch {
                    c_pos: (c_pos + 1) as usize,
                    p_pos: (p_pos + 1) as usize,
                },
            ));
            let ex_and = Execution::And {
                l_res: Box::new(p_eq),
                r_res: Box::new(Execution::PatternMatch { c_pos: c_pos + 1, p_pos: p_pos + 1 }),
            };
            proof {
                lemma_mentions_fold(
                    FoldKind::And,
                    Execution::Eq(c_pos, p_id),
                    Execution::PatternMatch {
                        c_pos: (c_pos + 1) as usize,
                        p_pos: (p_pos + 1) as usize,
                    },
                    allowed,
                );
            }
            assert(shape.valid(ex_and));
            self.insert(ex_and.duplicate(), Ghost(shape), Ghost(allowed));
            ex_and
        };
        let ghost main = main_match;
        assert(shape.valid(main) && !main.yields_index() && !(main is PatternMatch));
        let ghost after_main = self.nodes@;
        assert(after_main.contains(main));
        assert(forall|c: usize, p: usize| #[trigger]
            mentions(main, c, p) ==> allowed.contains((c, p)));

        if zero_prefixed && zero_suffixed {
            let zero_prefix_ex = self.insert_zero_range(
                0,
                c_pos - 1,
                Ghost(shape),
                Ghost(allowed),
            );
            let ghost after_prefix = self.nodes@;
            let zero_suffix_ex = self.insert_zero_range(
                c_pos + 1,
                c_pos + remain_c - 1,
                Ghost(shape),
                Ghost(allowed),
            );
            let ghost after_suffix = self.nodes@;
            let ex_and = Execution::And {
                l_res: Box::new(zero_prefix_ex),
                r_res: Box::new(main_match),
            };
            proof {
                lemma_extends_contains(after_main, self.nodes@, main);
                lemma_extends_contains(after_prefix, self.nodes@, *ex_and->And_l_res);
                lemma_mentions_fold(FoldKind::And, *ex_and->And_l_res, main, allowed);
            }
            assert(shape.valid(ex_and));
            self.insert(ex_and.duplicate(), Ghost(shape), Ghost(allowed));
            let ghost after_and = self.nodes@;
            let final_and = Execution::And {
                l_res: Box::new(ex_and),
                r_res: Box::new(zero_suffix_ex),
            };
            proof {
                lemma_extends_contains(after_suffix, after_and, *final_and->And_r_res);
                lemma_mentions_fold(
                    FoldKind::And,
                    *final_and->And_l_res,
                    *final_and->And_r_res,
                    allowed,
                );
            }
            assert(shape.valid(final_and));
            self.insert(final_and.duplicate(), Ghost(shape), Ghost(allowed));
            final_and
        } else if zero_prefixed {
            let zero_prefix_ex = self.insert_zero_range(
                0,
                c_pos - 1,
                Ghost(shape),
                Ghost(allowed),
            );
            let ex_and = Execution::And {
                l_res: Box::new(zero_prefix_ex),
                r_res: Box::new(main_match),
            };
            proof {
                lemma_extends_contains(after_main, self.nodes@, main);
                lemma_mentions_fold(FoldKind::And, *ex_and->And_l_res, main, allowed);
            }
            assert(shape.valid(ex_and));
            self.insert(ex_and.duplicate(), Ghost(shape), Ghost(allowed));
            ex_and
        } else if zero_suffixed {
            let zero_suffix_ex = self.insert_zero_range(
                c_pos + 1,
                c_pos + remain_c - 1,
                Ghost(shape),
                Ghost(allowed),
            );
            let ex_and = Execution::And {
                l_res: Box::new(main_match),
                r_res: Box::new(zero_suffix_ex),
            };
            proof {
                lemma_extends_contains(after_main, self.nodes@, main);
                lemma_mentions_fold(FoldKind::And, main, *ex_and->And_r_res, allowed);
            }
            assert(shape.valid(ex_and));
            self.insert(ex_and.duplicate(), Ghost(shape), Ghost(allowed));
            ex_and
        } else {
            main_match
        }
    }

    /// The positions `(c, p)` whose `PatternMatch` node is in the plan.
    pub closed spec fn matched(&self) -> Set<(usize, usize)> {
        Set::new(
            |cp: (usize, usize)|
                self.nodes@.contains(Execution::PatternMatch { c_pos: cp.0, p_pos: cp.1 }),
        )
    }

    /// The entry `alias` of the side table stands for `PatternMatch { c, p }`
    /// with the node that `shape` and the pattern give to it, and both nodes
    /// are in the plan.
    pub closed spec fn alias_ok(&self, shape: Shape, ids: Seq<PatternId>, alias: PatternAlias)
        -> bool {
        &&& alias.pattern_match matches Execution::PatternMatch { c_pos, p_pos }
        &&& shape.in_range(c_pos as int, p_pos as int)
        &&& alias.op == shape.branch(c_pos, p_pos, ids[p_pos as int])
        &&& self.nodes@.contains(alias.op)
        &&& self.nodes@.contains(alias.pattern_match)
    }

    /// The side table is sound, and covers every `PatternMatch` in the plan.
    #[verifier::opaque]
    pub closed spec fn aliased(&self, shape: Shape, ids: Seq<PatternId>) -> bool {
        &&& forall|k: int|
            0 <= k < self.pm_cache@.len() ==> self.alias_ok(shape, ids, #[trigger] self.pm_cache@[k])
        &&& forall|i: int|
            0 <= i < self.nodes@.len() && (#[trigger] self.nodes@[i]) is PatternMatch ==> exists|
                k: int,
            |
                0 <= k < self.pm_cache@.len() && (#[trigger] self.pm_cache@[k]).pattern_match
                    == self.nodes@[i]
    }

    /// A complete plan for `shape` and the pattern ids `ids`: a plan as under
    /// construction, in which every match that a node mentions has its own
    /// node, and every such node its entry in the side table.
    pub closed spec fn planned(&self, shape: Shape, ids: Seq<PatternId>) -> bool {
        &&& self.building(shape, self.matched())
        &&& self.aliased(shape, ids)
    }

    proof fn lemma_aliased_extends(&self, before: Self, shape: Shape, ids: Seq<PatternId>)
        requires
            before.aliased(shape, ids),
            extends(before.nodes@, self.nodes@),
            self.pm_cache@ == before.pm_cache@,
        ensures
            self.aliased(shape, ids),
    {
        reveal(SimpleEngine::aliased);
        assert forall|k: int| 0 <= k < self.pm_cache@.len() implies self.alias_ok(
            shape,
            ids,
            #[trigger] self.pm_cache@[k],
        ) by {
            let a = self.pm_cache@[k];
            assert(before.alias_ok(shape, ids, before.pm_cache@[k]));
            lemma_extends_contains(before.nodes@, self.nodes@, a.op);
            lemma_extends_contains(before.nodes@, self.nodes@, a.pattern_match);
        }
        assert forall|i: int|
            0 <= i < self.nodes@.len() && (#[trigger] self.nodes@[i]) is PatternMatch implies exists|
            k: int,
        |
            0 <= k < self.pm_cache@.len() && (#[trigger] self.pm_cache@[k]).pattern_match
                == self.nodes@[i] by {
            assert(i < before.nodes@.len());
            assert(before.nodes@[i] is PatternMatch);
        }
    }

    proof fn lemma_building_grows(
        &self,
        shape: Shape,
        small: Set<(usize, usize)>,
        large: Set<(usize, usize)>,
    )
        requires
            self.building(shape, small),
            small.subset_of(large),
        ensures
            self.building(shape, large),
    {
        reveal(SimpleEngine::building);
    }

    /// Records that `PatternMatch { c_pos, p_pos }` takes the value of `op`.
    fn insert_pattern_match(
        &mut self,
        op: Execution,
        c_pos: usize,
        p_pos: usize,
        Ghost(shape): Ghost<Shape>,
        Ghost(ids): Ghost<Seq<PatternId>>,
        Ghost(allowed): Ghost<Set<(usize, usize)>>,
    )
        requires
            old(self).building(shape, allowed),
            old(self).aliased(shape, ids),
            allowed.contains((c_pos, p_pos)),
            shape.in_range(c_pos as int, p_pos as int),
            op == shape.branch(c_pos, p_pos, ids[p_pos as int]),
            old(self).nodes@.contains(op),
            !old(self).nodes@.contains(Execution::PatternMatch { c_pos, p_pos }),
        ensures
            final(self).building(shape, allowed),
            final(self).aliased(shape, ids),
            final(self).nodes@ == old(self).nodes@.push(Execution::PatternMatch { c_pos, p_pos }),
    {
        reveal(SimpleEngine::building);
        reveal(SimpleEngine::aliased);
        let ghost before = *self;
        let pattern_match = Execution::PatternMatch { c_pos, p_pos };
        self.pm_cache.push(PatternAlias { op, pattern_match: pattern_match.duplicate() });
        self.nodes.push(pattern_match);
        self.results.push(None);
        proof {
            let last = before.nodes@.len() as int;
            assert(self.nodes@[last] == pattern_match);
            assert forall|i: int| 0 <= i < self.nodes@.len() implies supported(
                self.nodes@,
                #[trigger] self.nodes@[i],
            ) by {
                let x = self.nodes@[i];
                if i < last {
                    assert(supported(before.nodes@, before.nodes@[i]));
                    if x.is_fold() {
                        if !(x.left() is PatternMatch) {
                            let j = choose|j: int| 0 <= j < last && before.nodes@[j] == x.left();
                            assert(self.nodes@[j] == x.left());
                        }
                        if !(x.right() is PatternMatch) {
                            let j = choose|j: int| 0 <= j < last && before.nodes@[j] == x.right();
                            assert(self.nodes@[j] == x.right());
                        }
                    }
                }
            }
            assert forall|k: int| 0 <= k < self.pm_cache@.len() implies self.alias_ok(
                shape,
                ids,
                #[trigger] self.pm_cache@[k],
            ) by {
                let a = self.pm_cache@[k];
                if k < before.pm_cache@.len() {
                    assert(before.alias_ok(shape, ids, before.pm_cache@[k]));
                    lemma_push_contains(before.nodes@, pattern_match, a.op);
                    lemma_push_contains(before.nodes@, pattern_match, a.pattern_match);
                } else {
                    lemma_push_contains(before.nodes@, pattern_match, a.op);
                }
            }
            assert forall|i: int|
                0 <= i < self.nodes@.len() && (#[trigger] self.nodes@[i]) is PatternMatch implies exists|
                k: int,
            |
                0 <= k < self.pm_cache@.len() && (#[trigger] self.pm_cache@[k]).pattern_match
                    == self.nodes@[i] by {
                if i < last {
                    let k = choose|k: int|
                        0 <= k < before.pm_cache@.len() && (
                        #[trigger] before.pm_cache@[k]).pattern_match == before.nodes@[i];
                    assert(self.pm_cache@[k].pattern_match == self.nodes@[i]);
                } else {
                    let k = before.pm_cache@.len() as int;
                    assert(self.pm_cache@[k].pattern_match == self.nodes@[i]);
                }
            }
        }
    }

    /// Works on one candidate of the worklist: unless `PatternMatch { c_pos,
    /// p_pos }` is in the plan, adds the nodes of its steps and the node
    /// itself, and puts the matches that the steps go on with on the worklist.
    fn plan_candidate(
        &mut self,
        content: &FheString<F>,
        pattern: &Pattern<F>,
        match_options: MatchingOptions,
        c_pos: usize,
        p_pos: usize,
        match_candidates: &mut Vec<(usize, usize)>,
    )
        requires
            1 <= pattern@.len() <= content@.len(),
            scene_of(content, pattern, match_options).shape.in_range(c_pos as int, p_pos as int),
            old(self).building(
                scene_of(content, pattern, match_options).shape,
                frontier(old(self).nodes@, old(match_candidates)@.push((c_pos, p_pos))),
            ),
            old(self).aliased(scene_of(content, pattern, match_options).shape, ids_of(pattern)),
            forall|k: int|
                0 <= k < old(match_candidates)@.len() ==> scene_of(
                    content,
                    pattern,
                    match_options,
                ).shape.in_range(
                    (#[trigger] old(match_candidates)@[k]).0 as int,
                    old(match_candidates)@[k].1 as int,
                ),
        ensures
            final(self).building(
                scene_of(content, pattern, match_options).shape,
                frontier(final(self).nodes@, final(match_candidates)@),
            ),
            final(self).aliased(scene_of(content, pattern, match_options).shape, ids_of(pattern)),
            forall|e: Execution|
                old(self).nodes@.contains(e) ==> #[trigger] final(self).nodes@.contains(e),
            forall|k: int|
                0 <= k < final(match_candidates)@.len() ==> scene_of(
                    content,
                    pattern,
                    match_options,
                ).shape.in_range(
                    (#[trigger] final(match_candidates)@[k]).0 as int,
                    final(match_candidates)@[k].1 as int,
                ),
            load(content@.len() as usize, final(match_candidates)@) < load(
                content@.len() as usize,
                old(match_candidates)@.push((c_pos, p_pos)),
            ),
    {
        let ghost shape = scene_of(content, pattern, match_options).shape;
        let ghost ids = ids_of(pattern);
        let ghost cands1 = match_candidates@;
        let ghost cands0 = cands1.push((c_pos, p_pos));
        let ghost start_state = *self;
        let ghost nodes0 = self.nodes@;
        let ghost allowed0 = frontier(nodes0, cands0);
        let n: usize = content.chars.len();
        let m: usize = pattern.len();
        let pattern_match = Execution::PatternMatch { c_pos, p_pos };
        let remain_c: usize = n - c_pos;
        let remain_p: usize = m - p_pos;
        proof {
            lemma_pow3_grows((n - c_pos - 1) as nat);
            lemma_load_push(n, cands1, (c_pos, p_pos));
        }

        if self.contains_key(&pattern_match) {
            proof {
                assert forall|cp: (usize, usize)| allowed0.contains(cp) implies frontier(
                    self.nodes@,
                    cands1,
                ).contains(cp) by {
                    if cands0.contains(cp) {
                        let k = choose|k: int| 0 <= k < cands0.len() && cands0[k] == cp;
                        if k < cands1.len() {
                            assert(cands1[k] == cp);
                        }
                    }
                }
                self.lemma_building_grows(shape, allowed0, frontier(self.nodes@, cands1));
            }
            return ;
        }
        let can_consume_zero = remain_c > remain_p && ((p_pos == 0 && content.padding.start) || (
        p_pos > 0 && content.padding.middle));
        let ghost next_byte = ((c_pos + 1) as usize, (p_pos + 1) as usize);
        let ghost next_zero = ((c_pos + 1) as usize, p_pos);
        let ghost with_byte = if remain_p > 1 {
            allowed0.insert(next_byte)
        } else {
            allowed0
        };
        let ghost allowed = if can_consume_zero {
            with_byte.insert(next_zero)
        } else {
            with_byte
        };
        proof {
            self.lemma_building_grows(shape, allowed0, allowed);
        }
        let p_id = match pattern {
            Pattern::Clear(p) => PatternId::Byte(p[p_pos]),
            Pattern::Encrypted(_) => PatternId::Index(p_pos),
        };
        assert(p_id == ids[p_pos as int]);
        let l_res = self.consume_pattern(
            (c_pos, remain_c),
            (p_pos, remain_p),
            p_id,
            match_options,
            content.padding,
            Ghost(allowed),
        );
        if remain_p > 1 {
            match_candidates.push((c_pos + 1, p_pos + 1));
        }
        let ghost cands2 = match_candidates@;
        let ghost after_left = self.nodes@;

        let execution = if can_consume_zero {
            let r_res = self.consume_pattern(
                (c_pos, remain_c),
                (p_pos, remain_p),
                PatternId::Zero,
                match_options,
                content.padding,
                Ghost(allowed),
            );
            match_candidates.push((c_pos + 1, p_pos));
            let ex = Execution::Or { l_res: Box::new(l_res), r_res: Box::new(r_res) };
            proof {
                lemma_extends_contains(after_left, self.nodes@, *ex->Or_l_res);
                lemma_mentions_fold(FoldKind::Or, *ex->Or_l_res, *ex->Or_r_res, allowed);
                assert(shape.valid(ex));
            }
            self.insert(ex.duplicate(), Ghost(shape), Ghost(allowed));
            ex
        } else {
            l_res
        };
        let ghost cands3 = match_candidates@;
        let ghost before_match = self.nodes@;
        proof {
            self.lemma_aliased_extends(start_state, shape, ids);
            assert(cands0.drop_last() =~= cands1);
            assert(!before_match.contains(pattern_match)) by {
                if before_match.contains(pattern_match) {
                    let j = choose|j: int|
                        0 <= j < before_match.len() && before_match[j] == pattern_match;
                    if j < nodes0.len() {
                        assert(nodes0[j] == pattern_match);
                    }
                }
            }
            assert(allowed.contains((c_pos, p_pos))) by {
                assert(cands0[cands0.len() - 1] == (c_pos, p_pos));
            }
        }
        self.insert_pattern_match(
            execution,
            c_pos,
            p_pos,
            Ghost(shape),
            Ghost(ids),
            Ghost(allowed),
        );
        proof {
            assert forall|e: Execution| nodes0.contains(e) implies #[trigger] self.nodes@.contains(
                e,
            ) by {
                lemma_extends_contains(nodes0, before_match, e);
                lemma_push_contains(before_match, pattern_match, e);
            }
            lemma_push_contains(before_match, pattern_match, pattern_match);
            assert forall|cp: (usize, usize)| allowed.contains(cp) implies frontier(
                self.nodes@,
                cands3,
            ).contains(cp) by {
                if cp == next_byte && remain_p > 1 {
                    assert(cands3[cands1.len() as int] == cp);
                } else if cp == next_zero && can_consume_zero {
                    assert(cands3[cands3.len() - 1] == cp);
                } else if cp == (c_pos, p_pos) {
                } else if cands0.contains(cp) {
                    let k = choose|k: int| 0 <= k < cands0.len() && cands0[k] == cp;
                    assert(k < cands1.len());
                    assert(cands3[k] == cp);
                } else {
                    assert(allowed0.contains(cp));
                    let e = Execution::PatternMatch { c_pos: cp.0, p_pos: cp.1 };
                    assert(nodes0.contains(e));
                }
            }
            self.lemma_building_grows(shape, allowed, frontier(self.nodes@, cands3));
            lemma_load_after(n, cands0, cands1, cands2, cands3, c_pos, p_pos);
            assert forall|k: int| 0 <= k < cands3.len() implies shape.in_range(
                (#[trigger] cands3[k]).0 as int,
                cands3[k].1 as int,
            ) by {
                if k < cands1.len() {
                    assert(cands3[k] == cands1[k]);
                }
            }
        }
    }

    /// Builds the plan of a matching call and returns the node whose value is
    /// the result of the call.
    fn build_execution_plan(
        &mut self,
        content: &FheString<F>,
        pattern: &Pattern<F>,
        match_options: MatchingOptions,
    ) -> (final_op: Execution)
        requires
            old(self).is_new(),
            1 <= pattern@.len() <= content@.len(),
        ensures
            final_op == scene_of(content, pattern, match_options).shape.root(
                match_options.fold_kind(),
            ),
            final(self).planned(
                scene_of(content, pattern, match_options).shape,
                ids_of(pattern),
            ),
            final(self).nodes@.contains(final_op),
            scene_of(content, pattern, match_options).shape.valid(final_op),
            final_op.is_fold(),
            final_op.yields_index() == !(match_options.result is Bool),
    {
        let ghost shape = scene_of(content, pattern, match_options).shape;
        let ghost ids = ids_of(pattern);
        let n: usize = content.chars.len();
        let m: usize = pattern.len();
        let max_start: usize = if match_options.sof {
            0
        } else {
            n - m
        };
        let kind = match match_options.result {
            MatchResult::Bool => FoldKind::Or,
            MatchResult::StartIndex | MatchResult::RawStartIndex => FoldKind::StartIndex,
        };
        let ghost starts = Set::new(|cp: (usize, usize)| cp.0 <= max_start && cp.1 == 0);
        let nodes = build_leaves(0, max_start, PatternId::Index(0), kind);
        proof {
            reveal(SimpleEngine::building);
            reveal(SimpleEngine::aliased);
            let row = nodes@;
            let q = |e: Execution|
                shape.valid(e) && (e.yields_index() <==> kind is StartIndex) && forall|
                    c: usize,
                    p: usize,
                |
                    mentions(e, c, p) ==> starts.contains((c, p));
            assert forall|i: int| 0 <= i < row.len() implies q((#[trigger] row[i]).op())
                && row[i].wf() && row[i] is Leaf by {
                let e = row[i].op();
                assert(e is PatternMatch || e is IndexMatch);
            }
            lemma_reduce_wf(kind, row);
            assert forall|a: Execution, b: Execution| q(a) && q(b) implies q(
                #[trigger] fold_node(kind, a, b),
            ) by {
                lemma_mentions_fold(kind, a, b, starts);
            }
            lemma_reduce_keeps(kind, row, q);
            lemma_reduce_is_fold(kind, row);
            assert(self.building(shape, starts));
            assert(self.aliased(shape, ids));
        }
        let root = build_bitwise_execution_tree(nodes, kind);
        let final_op = self.insert_execution_tree(root, Ghost(shape), Ghost(starts));

        let mut match_candidates: Vec<(usize, usize)> = Vec::new();
        let mut start: usize = 0;
        while start <= max_start
            invariant
                start <= max_start + 1,
                max_start < n,
                match_candidates@.len() == start,
                forall|k: int|
                    0 <= k < start ==> #[trigger] match_candidates@[k] == (k as usize, 0usize),
            decreases max_start + 1 - start,
        {
            match_candidates.push((start, 0));
            start = start + 1;
        }
        proof {
            assert forall|cp: (usize, usize)| starts.contains(cp) implies frontier(
                self.nodes@,
                match_candidates@,
            ).contains(cp) by {
                assert(match_candidates@[cp.0 as int] == cp);
            }
            self.lemma_building_grows(shape, starts, frontier(self.nodes@, match_candidates@));
        }

        while match_candidates.len() > 0
            invariant
                shape == scene_of(content, pattern, match_options).shape,
                ids == ids_of(pattern),
                n == content@.len(),
                1 <= pattern@.len() <= content@.len(),
                self.building(shape, frontier(self.nodes@, match_candidates@)),
                self.aliased(shape, ids),
                self.nodes@.contains(final_op),
                forall|k: int|
                    0 <= k < match_candidates@.len() ==> shape.in_range(
                        (#[trigger] match_candidates@[k]).0 as int,
                        match_candidates@[k].1 as int,
                    ),
            decreases load(n, match_candidates@),
        {
            let ghost cands0 = match_candidates@;
            let (c_pos, p_pos) = match_candidates.pop().unwrap();
            proof {
                assert(match_candidates@.push((c_pos, p_pos)) =~= cands0);
                assert(shape.in_range(
                    cands0[cands0.len() - 1].0 as int,
                    cands0[cands0.len() - 1].1 as int,
                ));
            }
            self.plan_candidate(
                content,
                pattern,
                match_options,
                c_pos,
                p_pos,
                &mut match_candidates,
            );
        }
        proof {
            assert forall|cp: (usize, usize)|
                frontier(self.nodes@, match_candidates@).contains(cp) implies self.matched().contains(
                cp,
            ) by {}
            self.lemma_building_grows(
                shape,
                frontier(self.nodes@, match_candidates@),
                self.matched(),
            );
        }
        final_op
    }
}

/// 3 to the power `k`.
pub open spec fn pow3(k: nat) -> nat
    decreases k,
{
    if k == 0 {
        1
    } else {
        3 * pow3((k - 1) as nat)
    }
}

/// The work that a row of candidates stands for in a content of length `n`: a
/// candidate at content position `c` weighs `pow3(n - c)`, more than two
/// candidates at `c + 1` together.
pub open spec fn load(n: usize, cands: Seq<(usize, usize)>) -> nat
    decreases cands.len(),
{
    if cands.len() == 0 {
        0
    } else {
        load(n, cands.drop_last()) + pow3((n - cands.last().0) as nat)
    }
}

proof fn lemma_pow3_grows(k: nat)
    ensures
        pow3(k) >= 1,
        pow3(k + 1) == 3 * pow3(k),
    decreases k,
{
    if k > 0 {
        lemma_pow3_grows((k - 1) as nat);
    }
}

proof fn lemma_load_push(n: usize, cands: Seq<(usize, usize)>, cp: (usize, usize))
    ensures
        load(n, cands.push(cp)) == load(n, cands) + pow3((n - cp.0) as nat),
{
    assert(cands.push(cp).drop_last() =~= cands);
}

proof fn lemma_load_after(
    n: usize,
    cands0: Seq<(usize, usize)>,
    cands1: Seq<(usize, usize)>,
    cands2: Seq<(usize, usize)>,
    cands3: Seq<(usize, usize)>,
    c_pos: usize,
    p_pos: usize,
)
    requires
        cands0.len() > 0,
        cands1 == cands0.drop_last(),
        cands0.last() == (c_pos, p_pos),
        c_pos < n,
        cands2 == cands1 || cands2 == cands1.push(((c_pos + 1) as usize, (p_pos + 1) as usize)),
        cands3 == cands2 || cands3 == cands2.push(((c_pos + 1) as usize, p_pos)),
    ensures
        load(n, cands3) < load(n, cands0),
{
    lemma_pow3_grows((n - c_pos - 1) as nat);
    lemma_load_push(n, cands1, ((c_pos + 1) as usize, (p_pos + 1) as usize));
    lemma_load_push(n, cands2, ((c_pos + 1) as usize, p_pos));
}

/// The matches that a plan under construction may mention: those with a node
/// in `nodes` and those still to be worked on.
pub open spec fn frontier(nodes: Seq<Execution>, cands: Seq<(usize, usize)>) -> Set<
    (usize, usize),
> {
    Set::new(
        |cp: (usize, usize)|
            cands.contains(cp) || nodes.contains(
                Execution::PatternMatch { c_pos: cp.0, p_pos: cp.1 },
            ),
    )
}

/// The matching call on `content` and `pattern` under `match_options`.
pub open spec fn scene_of<F: Fhe>(
    content: &FheString<F>,
    pattern: &Pattern<F>,
    match_options: MatchingOptions,
) -> Scene {
    Scene {
        shape: Shape {
            n: content@.len() as usize,
            m: pattern@.len() as usize,
            padding: content.padding,
            sof: match_options.sof,
            eof: match_options.eof,
        },
        content: content@,
        pattern: pattern@,
    }
}

/// What a plan compares content bytes with, for each position of the pattern.
pub open spec fn ids_of<F: Fhe>(pattern: &Pattern<F>) -> Seq<PatternId> {
    Seq::new(pattern@.len(), |p: int| pattern.id_at(p as usize))
}

proof fn lemma_push_contains(nodes: Seq<Execution>, added: Execution, e: Execution)
    requires
        nodes.contains(e) || e == added,
    ensures
        nodes.push(added).contains(e),
{
    if nodes.contains(e) {
        let j = choose|j: int| 0 <= j < nodes.len() && nodes[j] == e;
        assert(nodes.push(added)[j] == e);
    } else {
        assert(nodes.push(added)[nodes.len() as int] == e);
    }
}

/// The root of the reduction of two trees or more is a fold.
proof fn lemma_reduce_is_fold(kind: FoldKind, nodes: Seq<ExecutionTree>)
    requires
        nodes.len() >= 2 || (nodes.len() == 1 && nodes[0].op().is_fold()),
    ensures
        reduce(kind, nodes).op().is_fold(),
    decreases nodes.len(),
{
    if nodes.len() > 1 {
        let next = pair_up(kind, nodes);
        assert(next[0].op().is_fold());
        if next.len() >= 2 {
            lemma_reduce_is_fold(kind, next);
        } else {
            lemma_reduce_is_fold(kind, next);
        }
    }
}

/// The shape of the matching call in which `c_range.1` content bytes are left
/// at the content position `c_range.0`, and `p_range.1` pattern bytes at the
/// pattern position `p_range.0`.
pub open spec fn shape_of(
    c_range: (usize, usize),
    p_range: (usize, usize),
    match_options: MatchingOptions,
    padding: Padding,
) -> Shape {
    Shape {
        n: (c_range.0 + c_range.1) as usize,
        m: (p_range.0 + p_range.1) as usize,
        padding,
        sof: match_options.sof,
        eof: match_options.eof,
    }
}

proof fn lemma_mentions_fold(
    kind: FoldKind,
    a: Execution,
    b: Execution,
    allowed: Set<(usize, usize)>,
)
    requires
        forall|c: usize, p: usize| #[trigger] mentions(a, c, p) ==> allowed.contains((c, p)),
        forall|c: usize, p: usize| #[trigger] mentions(b, c, p) ==> allowed.contains((c, p)),
    ensures
        forall|c: usize, p: usize| #[trigger]
            mentions(fold_node(kind, a, b), c, p) ==> allowed.contains((c, p)),
{
    assert forall|c: usize, p: usize| #[trigger]
        mentions(fold_node(kind, a, b), c, p) implies allowed.contains((c, p)) by {
        assert(mentions(a, c, p) || mentions(b, c, p));
    }
}

proof fn lemma_extends_contains(before: Seq<Execution>, after: Seq<Execution>, e: Execution)
    requires
        extends(before, after),
        before.contains(e),
    ensures
        after.contains(e),
{
    let j = choose|j: int| 0 <= j < before.len() && before[j] == e;
    assert(after[j] == e);
}

fn is_pattern_match(e: &Execution) -> (b: bool)
    ensures
        b == (*e is PatternMatch),
{
    match e {
        Execution::PatternMatch { .. } => true,
        _ => false,
    }
}

/// Each id of `ids` names the pattern byte at its position.
pub open spec fn ids_agree(scene: Scene, ids: Seq<PatternId>) -> bool {
    &&& ids.len() == scene.shape.m
    &&& forall|p: int| 0 <= p < ids.len() ==> !(#[trigger] ids[p] is Zero)
    &&& forall|p: int| 0 <= p < ids.len() ==> (#[trigger] ids[p] matches PatternId::Index(q) ==> q < ids.len())
    &&& forall|c: int, p: int|
        0 <= c < scene.shape.n && 0 <= p < ids.len() ==> #[trigger] scene.holds(c, ids[p]) == (
        scene.content[c] == scene.pattern[p])
}

/// Masking with all ones keeps an index, masking with zero clears it.
proof fn lemma_mask_u16(x: u16, keep: bool)
    ensures
        x & wrap_u16((bit(keep) as u16) * 0xFFFFu16) == if keep {
            x
        } else {
            0u16
        },
{
    if keep {
        assert(wrap_u16(1u16 * 0xFFFFu16) == 0xFFFFu16);
        assert(x & 0xFFFFu16 == x) by (bit_vector);
    } else {
        assert(wrap_u16(0u16 * 0xFFFFu16) == 0u16);
        assert(x & 0u16 == 0u16) by (bit_vector);
    }
}

/// The fold of two indices keeps the left one unless it is zero.
proof fn lemma_start_index(l: u16, r: u16)
    ensures
        l | (r & wrap_u16((bit(!(l > 0)) as u16) * 0xFFFFu16)) == if l != 0 {
            l
        } else {
            r
        },
{
    lemma_mask_u16(r, !(l > 0));
    if l > 0 {
        assert(l | 0u16 == l) by (bit_vector);
    } else {
        assert(0u16 | r == r) by (bit_vector);
    }
}

impl<F: Fhe> SimpleEngine<F> {
    /// Has the node `e` a value in the plan cache?
    pub closed spec fn filled(&self, e: Execution) -> bool {
        exists|j: int|
            0 <= j < self.nodes@.len() && j < self.results@.len() && (#[trigger] self.nodes@[j])
                == e && self.results@[j] is Some
    }

    /// Can the node at `i` be given its value now?  An equality test always
    /// can, a fold when both operands have their values, an `IndexMatch` when
    /// its `PatternMatch` has.  A `PatternMatch` gets its value with the node
    /// that stands for it.
    pub closed spec fn computable(&self, i: int) -> bool {
        match self.nodes@[i] {
            Execution::Eq(_, _) => true,
            Execution::PatternMatch { .. } => false,
            Execution::IndexMatch { c_pos, p_pos } => self.filled(
                Execution::PatternMatch { c_pos, p_pos },
            ),
            _ => self.filled(self.nodes@[i].left()) && self.filled(self.nodes@[i].right()),
        }
    }

    /// A complete plan under evaluation on `scene`: every value in the cache
    /// is the encryption of what its node stands for, and a `PatternMatch` has
    /// its value as soon as the node that stands for it has.
    #[verifier::opaque]
    pub closed spec fn evaluating(&self, scene: Scene, ids: Seq<PatternId>) -> bool {
        &&& scene.wf()
        &&& ids_agree(scene, ids)
        &&& self.nodes@.len() == self.results@.len()
        &&& self.nodes@.no_duplicates()
        &&& forall|i: int| 0 <= i < self.nodes@.len() ==> scene.shape.valid(#[trigger] self.nodes@[i])
        &&& forall|i: int|
            0 <= i < self.nodes@.len() && (#[trigger] self.nodes@[i]).is_fold()
                ==> self.nodes@.contains(self.nodes@[i].left()) && self.nodes@.contains(
                self.nodes@[i].right(),
            )
        &&& forall|i: int|
            0 <= i < self.nodes@.len() ==> ((#[trigger] self.nodes@[i]) matches Execution::IndexMatch {
                c_pos,
                p_pos,
            } ==> self.nodes@.contains(Execution::PatternMatch { c_pos, p_pos }))
        &&& self.aliased(scene.shape, ids)
        &&& forall|i: int|
            0 <= i < self.results@.len() ==> ((#[trigger] self.results@[i]) matches Some(v) ==> v@
                == scene.denote(self.nodes@[i]))
        &&& forall|k: int|
            0 <= k < self.pm_cache@.len() && self.filled((#[trigger] self.pm_cache@[k]).op)
                ==> self.filled(self.pm_cache@[k].pattern_match)
    }

    /// A complete plan without values is ready for evaluation.
    proof fn lemma_planned_evaluating(&self, scene: Scene, ids: Seq<PatternId>)
        requires
            self.planned(scene.shape, ids),
            scene.wf(),
            ids_agree(scene, ids),
        ensures
            self.evaluating(scene, ids),
    {
        reveal(SimpleEngine::building);
        reveal(SimpleEngine::evaluating);
        assert forall|i: int|
            0 <= i < self.nodes@.len() && (#[trigger] self.nodes@[i]).is_fold() implies self.nodes@.contains(
            self.nodes@[i].left(),
        ) && self.nodes@.contains(self.nodes@[i].right()) by {
            let x = self.nodes@[i];
            assert(supported(self.nodes@, x));
            if x.left() is PatternMatch {
                let c = x.left()->PatternMatch_c_pos;
                let q = x.left()->PatternMatch_p_pos;
                assert(mentions(x.left(), c, q));
                assert(mentions(x, c, q));
                assert(self.matched().contains((c, q)));
            }
            if x.right() is PatternMatch {
                let c = x.right()->PatternMatch_c_pos;
                let q = x.right()->PatternMatch_p_pos;
                assert(mentions(x.right(), c, q));
                assert(mentions(x, c, q));
                assert(self.matched().contains((c, q)));
            }
        }
        assert forall|i: int| 0 <= i < self.nodes@.len() implies ((
        #[trigger] self.nodes@[i]) matches Execution::IndexMatch { c_pos, p_pos }
            ==> self.nodes@.contains(Execution::PatternMatch { c_pos, p_pos })) by {
            let x = self.nodes@[i];
            if x is IndexMatch {
                let c = x->IndexMatch_c_pos;
                let q = x->IndexMatch_p_pos;
                assert(mentions(x, c, q));
                assert(self.matched().contains((c, q)));
            }
        }
        assert forall|k: int|
            0 <= k < self.pm_cache@.len() && self.filled(
                (#[trigger] self.pm_cache@[k]).op,
            ) implies self.filled(self.pm_cache@[k].pattern_match) by {
            let e = self.pm_cache@[k].op;
            let j = choose|j: int|
                0 <= j < self.nodes@.len() && j < self.results@.len() && (
                #[trigger] self.nodes@[j]) == e && self.results@[j] is Some;
            assert(self.results@[j] is None);
        }
    }

    /// Where `e` stands in the plan cache, if it has a value there.
    fn find_filled(&self, e: &Execution) -> (at: Option<usize>)
        requires
            self.nodes@.len() == self.results@.len(),
            self.nodes@.no_duplicates(),
        ensures
            match at {
                Some(j) => j < self.nodes@.len() && self.nodes@[j as int] == *e
                    && self.results@[j as int] is Some,
                None => !self.filled(*e),
            },
    {
        match self.position(e) {
            Some(j) => {
                if self.results[j].is_some() {
                    Some(j)
                } else {
                    None
                }
            },
            None => {
                proof {
                    if self.filled(*e) {
                        let j = choose|j: int|
                            0 <= j < self.nodes@.len() && j < self.results@.len() && (
                            #[trigger] self.nodes@[j]) == *e && self.results@[j] is Some;
                        assert(self.nodes@.contains(*e));
                    }
                }
                None
            },
        }
    }

    /// The value of the node at `i`, if it can be computed from the values
    /// that the plan cache holds: one homomorphic operation on the encrypted
    /// bytes or on the values of the operands.
    fn evaluate(
        &self,
        i: usize,
        content: &FheString<F>,
        pattern: &Pattern<F>,
        Ghost(match_options): Ghost<MatchingOptions>,
    ) -> (value: Option<FheResult<F>>)
        requires
            self.evaluating(scene_of(content, pattern, match_options), ids_of(pattern)),
            i < self.nodes@.len(),
        ensures
            value is Some <==> self.computable(i as int),
            value matches Some(v) ==> v@ == scene_of(content, pattern, match_options).denote(
                self.nodes@[i as int],
            ),
    {
        reveal(SimpleEngine::evaluating);
        let ghost scene = scene_of(content, pattern, match_options);
        let ghost node = self.nodes@[i as int];
        assert(scene.shape.valid(node));
        match &self.nodes[i] {
            Execution::Eq(c_pos, p_id) => {
                let byte = &content.chars[*c_pos].byte;
                assert(content@[*c_pos as int] == F::clear_u8(*byte));
                match p_id {
                    PatternId::Zero => Some(FheResult::Bool(F::u8_eq_scalar(byte, 0))),
                    PatternId::Byte(b) => Some(FheResult::Bool(F::u8_eq_scalar(byte, *b))),
                    PatternId::Index(p_pos) => match pattern {
                        Pattern::Encrypted(p) => {
                            assert(p@[*p_pos as int] == F::clear_u8(p.chars@[*p_pos as int].byte));
                            Some(FheResult::Bool(F::u8_eq(byte, &p.chars[*p_pos].byte)))
                        },
                        Pattern::Clear(bytes) => Some(
                            FheResult::Bool(F::u8_eq_scalar(byte, bytes[*p_pos])),
                        ),
                    },
                }
            },
            Execution::And { l_res, r_res } => {
                assert(scene.shape.valid(**l_res) && scene.shape.valid(**r_res));
                match (self.find_filled(l_res), self.find_filled(r_res)) {
                    (Some(a), Some(b)) => match (&self.results[a], &self.results[b]) {
                        (Some(FheResult::Bool(l)), Some(FheResult::Bool(r))) => Some(
                            FheResult::Bool(F::bool_and(l, r)),
                        ),
                        _ => {
                            assert(!(self.results@[a as int]->0@ is Index));
                            assert(!(self.results@[b as int]->0@ is Index));
                            None
                        },
                    },
                    _ => None,
                }
            },
            Execution::Or { l_res, r_res } => {
                assert(scene.shape.valid(**l_res) && scene.shape.valid(**r_res));
                match (self.find_filled(l_res), self.find_filled(r_res)) {
                    (Some(a), Some(b)) => match (&self.results[a], &self.results[b]) {
                        (Some(FheResult::Bool(l)), Some(FheResult::Bool(r))) => Some(
                            FheResult::Bool(F::bool_or(l, r)),
                        ),
                        _ => {
                            assert(!(self.results@[a as int]->0@ is Index));
                            assert(!(self.results@[b as int]->0@ is Index));
                            None
                        },
                    },
                    _ => None,
                }
            },
            Execution::StartIndex { l_res, r_res } => {
                assert(scene.shape.valid(**l_res) && scene.shape.valid(**r_res));
                match (self.find_filled(l_res), self.find_filled(r_res)) {
                    (Some(a), Some(b)) => match (&self.results[a], &self.results[b]) {
                        (Some(FheResult::Uint(l)), Some(FheResult::Uint(r))) => {
                            let u16_max = F::u16_trivial(u16::MAX);
                            let left_is_zero = F::bool_not(&F::u16_gt_scalar(l, 0));
                            let mask = F::u16_mul(&F::u16_from_bool(&left_is_zero), &u16_max);
                            let new_r = F::u16_bitand(r, &mask);
                            proof {
                                lemma_start_index(F::clear_u16(*l), F::clear_u16(*r));
                            }
                            Some(FheResult::Uint(F::u16_bitor(l, &new_r)))
                        },
                        _ => {
                            assert(self.results@[a as int]->0@ is Index);
                            assert(self.results@[b as int]->0@ is Index);
                            None
                        },
                    },
                    _ => None,
                }
            },
            Execution::IndexMatch { c_pos, p_pos } => {
                let pattern_match = Execution::PatternMatch { c_pos: *c_pos, p_pos: *p_pos };
                match self.find_filled(&pattern_match) {
                    Some(a) => match &self.results[a] {
                        Some(FheResult::Bool(res)) => {
                            let byte = &content.chars[*c_pos].byte;
                            assert(content@[*c_pos as int] == F::clear_u8(*byte));
                            let must_keep = F::bool_and(res, &F::u8_gt_scalar(byte, 0));
                            let u16_max = F::u16_trivial(u16::MAX);
                            let modulus: usize = 0x1_0000;
                            let raw: u16 = ((*c_pos + 1) % modulus) as u16;
                            let mask = F::u16_mul(&F::u16_from_bool(&must_keep), &u16_max);
                            proof {
                                lemma_mask_u16(raw, F::clear_bool(must_keep));
                            }
                            Some(FheResult::Uint(F::u16_bitand(&F::u16_trivial(raw), &mask)))
                        },
                        _ => {
                            assert(!(self.results@[a as int]->0@ is Index));
                            None
                        },
                    },
                    None => None,
                }
            },
            Execution::PatternMatch { .. } => None,
        }
    }
}

impl<F: Fhe> SimpleEngine<F> {
    /// Gives the node at `j` its value.
    fn fill(
        &mut self,
        j: usize,
        value: FheResult<F>,
        Ghost(scene): Ghost<Scene>,
        Ghost(ids): Ghost<Seq<PatternId>>,
    )
        requires
            old(self).evaluating(scene, ids),
            j < old(self).nodes@.len(),
            value@ == scene.denote(old(self).nodes@[j as int]),
            forall|k: int|
                0 <= k < old(self).pm_cache@.len() && (#[trigger] old(self).pm_cache@[k]).op == old(
                    self,
                ).nodes@[j as int] ==> old(self).filled(old(self).pm_cache@[k].pattern_match),
        ensures
            final(self).evaluating(scene, ids),
            final(self).nodes@ == old(self).nodes@,
            final(self).pm_cache@ == old(self).pm_cache@,
            final(self).results@ == old(self).results@.update(j as int, Some(value)),
    {
        reveal(SimpleEngine::evaluating);
        reveal(SimpleEngine::aliased);
        let ghost before = *self;
        self.results.set(j, Some(value));
        proof {
            assert forall|e: Execution| before.filled(e) implies self.filled(e) by {
                let w = choose|w: int|
                    0 <= w < before.nodes@.len() && w < before.results@.len() && (
                    #[trigger] before.nodes@[w]) == e && before.results@[w] is Some;
                assert(self.nodes@[w] == e && self.results@[w] is Some);
            }
            assert forall|k: int|
                0 <= k < self.pm_cache@.len() && self.filled(
                    (#[trigger] self.pm_cache@[k]).op,
                ) implies self.filled(self.pm_cache@[k].pattern_match) by {
                let e = self.pm_cache@[k].op;
                let w = choose|w: int|
                    0 <= w < self.nodes@.len() && w < self.results@.len() && (
                    #[trigger] self.nodes@[w]) == e && self.results@[w] is Some;
                if w != j {
                    assert(before.nodes@[w] == e && before.results@[w] is Some);
                    assert(before.filled(e));
                }
                assert(before.filled(before.pm_cache@[k].pattern_match));
            }
            assert forall|k: int| 0 <= k < self.pm_cache@.len() implies self.alias_ok(
                scene.shape,
                ids,
                #[trigger] self.pm_cache@[k],
            ) by {
                assert(before.alias_ok(scene.shape, ids, before.pm_cache@[k]));
            }
        }
    }

    /// Gives the node at `i` its value, and the same value to every
    /// `PatternMatch` that the node stands for.
    fn record(
        &mut self,
        i: usize,
        value: FheResult<F>,
        Ghost(scene): Ghost<Scene>,
        Ghost(ids): Ghost<Seq<PatternId>>,
    )
        requires
            old(self).evaluating(scene, ids),
            i < old(self).nodes@.len(),
            old(self).results@[i as int] is None,
            value@ == scene.denote(old(self).nodes@[i as int]),
            !(old(self).nodes@[i as int] is PatternMatch),
        ensures
            final(self).evaluating(scene, ids),
            final(self).nodes@ == old(self).nodes@,
            final(self).pm_cache@ == old(self).pm_cache@,
            final(self).results@.len() == old(self).results@.len(),
            final(self).results@[i as int] is Some,
            forall|j: int|
                0 <= j < old(self).results@.len() && old(self).results@[j] is Some
                    ==> #[trigger] final(self).results@[j] is Some,
    {
        let ghost before = *self;
        proof {
            reveal(SimpleEngine::evaluating);
        }
        let mut k: usize = 0;
        while k < self.pm_cache.len()
            invariant
                self.evaluating(scene, ids),
                self.nodes@ == before.nodes@,
                self.pm_cache@ == before.pm_cache@,
                self.results@.len() == before.results@.len(),
                self.nodes@.len() == self.results@.len(),
                i < self.nodes@.len(),
                self.results@[i as int] is None,
                value@ == scene.denote(self.nodes@[i as int]),
                !(self.nodes@[i as int] is PatternMatch),
                k <= self.pm_cache@.len(),
                forall|j: int|
                    0 <= j < before.results@.len() && before.results@[j] is Some
                        ==> #[trigger] self.results@[j] is Some,
                forall|a: int|
                    0 <= a < k && (#[trigger] self.pm_cache@[a]).op == self.nodes@[i as int]
                        ==> self.filled(self.pm_cache@[a].pattern_match),
            decreases self.pm_cache@.len() - k,
        {
            if self.pm_cache[k].op.same(&self.nodes[i]) {
                let ghost alias = self.pm_cache@[k as int];
                let ghost middle = *self;
                proof {
                    reveal(SimpleEngine::evaluating);
                    reveal(SimpleEngine::aliased);
                    assert(self.alias_ok(scene.shape, ids, alias));
                }
                match self.position(&self.pm_cache[k].pattern_match) {
                    Some(j) => {
                        proof {
                            reveal(SimpleEngine::evaluating);
                            reveal(SimpleEngine::aliased);
                            let c = alias.pattern_match->PatternMatch_c_pos;
                            let q = alias.pattern_match->PatternMatch_p_pos;
                            assert(scene.holds(c as int, ids[q as int]) == (scene.content[c as int]
                                == scene.pattern[q as int]));
                            scene.lemma_branch_denotes(c, q, ids[q as int]);
                            assert forall|a: int|
                                0 <= a < self.pm_cache@.len() && (#[trigger] self.pm_cache@[a]).op
                                    == self.nodes@[j as int] implies self.filled(
                                self.pm_cache@[a].pattern_match,
                            ) by {
                                let other = self.pm_cache@[a];
                                assert(self.alias_ok(scene.shape, ids, other));
                                let c2 = other.pattern_match->PatternMatch_c_pos;
                                let q2 = other.pattern_match->PatternMatch_p_pos;
                                scene.shape.lemma_branch_plain(c2, q2, ids[q2 as int]);
                            }
                        }
                        self.fill(j, value.duplicate(), Ghost(scene), Ghost(ids));
                        proof {
                            assert(self.nodes@[j as int] == alias.pattern_match);
                            assert(self.results@[j as int] is Some);
                            assert(self.filled(alias.pattern_match));
                            assert forall|a: int|
                                0 <= a < k && (#[trigger] self.pm_cache@[a]).op
                                    == self.nodes@[i as int] implies self.filled(
                                self.pm_cache@[a].pattern_match,
                            ) by {
                                let e = self.pm_cache@[a].pattern_match;
                                assert(middle.filled(e));
                                let w = choose|w: int|
                                    0 <= w < middle.nodes@.len() && w < middle.results@.len() && (
                                    #[trigger] middle.nodes@[w]) == e && middle.results@[w] is Some;
                                assert(self.nodes@[w] == e && self.results@[w] is Some);
                            }
                        }
                    },
                    None => {},
                }
            }
            k = k + 1;
        }
        self.fill(i, value, Ghost(scene), Ghost(ids));
    }

    /// While a node has no value, some node without value can be given one.
    proof fn lemma_progress(&self, scene: Scene, ids: Seq<PatternId>, i: int) -> (j: int)
        requires
            self.evaluating(scene, ids),
            0 <= i < self.nodes@.len(),
            self.results@[i] is None,
        ensures
            0 <= j < self.nodes@.len(),
            self.results@[j] is None,
            self.computable(j),
        decreases level(scene.shape.n, self.nodes@[i]), height(self.nodes@[i]),
    {
        reveal(SimpleEngine::evaluating);
        reveal(SimpleEngine::aliased);
        let n = scene.shape.n;
        let x = self.nodes@[i];
        assert(scene.shape.valid(x));
        match x {
            Execution::Eq(_, _) => i,
            Execution::PatternMatch { c_pos, p_pos } => {
                let k = choose|k: int|
                    0 <= k < self.pm_cache@.len() && (#[trigger] self.pm_cache@[k]).pattern_match
                        == x;
                let alias = self.pm_cache@[k];
                assert(self.alias_ok(scene.shape, ids, alias));
                scene.shape.lemma_branch_plain(c_pos, p_pos, ids[p_pos as int]);
                let at = choose|at: int| 0 <= at < self.nodes@.len() && self.nodes@[at] == alias.op;
                if self.results@[at] is Some {
                    assert(self.filled(alias.op));
                    assert(self.filled(x));
                    let w = choose|w: int|
                        0 <= w < self.nodes@.len() && w < self.results@.len() && (
                        #[trigger] self.nodes@[w]) == x && self.results@[w] is Some;
                    assert(w == i);
                    assert(false);
                }
                self.lemma_progress(scene, ids, at)
            },
            Execution::IndexMatch { c_pos, p_pos } => {
                let target = Execution::PatternMatch { c_pos, p_pos };
                if self.filled(target) {
                    i
                } else {
                    let at = choose|at: int|
                        0 <= at < self.nodes@.len() && self.nodes@[at] == target;
                    assert(self.results@[at] is None);
                    self.lemma_progress(scene, ids, at)
                }
            },
            _ => {
                assert(x.is_fold());
                if !self.filled(x.left()) {
                    let at = choose|at: int|
                        0 <= at < self.nodes@.len() && self.nodes@[at] == x.left();
                    assert(self.results@[at] is None);
                    self.lemma_progress(scene, ids, at)
                } else if !self.filled(x.right()) {
                    let at = choose|at: int|
                        0 <= at < self.nodes@.len() && self.nodes@[at] == x.right();
                    assert(self.results@[at] is None);
                    self.lemma_progress(scene, ids, at)
                } else {
                    i
                }
            },
        }
    }
}

impl<F: Fhe> SimpleEngine<F> {
    /// One wave of the evaluation: every node of `remaining` that has no value
    /// and can be given one is given it.  Returned are the nodes that had no
    /// value when the wave came to them and could not be given one.
    fn run_wave(
        &mut self,
        remaining: &Vec<usize>,
        content: &FheString<F>,
        pattern: &Pattern<F>,
        Ghost(match_options): Ghost<MatchingOptions>,
    ) -> (next: Vec<usize>)
        requires
            old(self).evaluating(scene_of(content, pattern, match_options), ids_of(pattern)),
            forall|k: int| 0 <= k < remaining@.len() ==> #[trigger] remaining@[k] < old(self).nodes@.len(),
        ensures
            final(self).evaluating(scene_of(content, pattern, match_options), ids_of(pattern)),
            final(self).nodes@ == old(self).nodes@,
            final(self).pm_cache@ == old(self).pm_cache@,
            final(self).results@.len() == old(self).results@.len(),
            next@.len() <= remaining@.len(),
            forall|k: int| 0 <= k < next@.len() ==> #[trigger] next@[k] < final(self).nodes@.len(),
            forall|j: int|
                0 <= j < old(self).results@.len() && old(self).results@[j] is Some
                    ==> #[trigger] final(self).results@[j] is Some,
            forall|k: int|
                0 <= k < remaining@.len() && final(self).results@[(#[trigger] remaining@[k]) as int] is None
                    ==> next@.contains(remaining@[k]),
            next@.len() == remaining@.len() ==> final(self).results@ == old(self).results@ && forall|
                k: int,
            |
                0 <= k < remaining@.len() ==> !old(self).computable(
                    (#[trigger] remaining@[k]) as int,
                ),
    {
        let ghost scene = scene_of(content, pattern, match_options);
        let ghost ids = ids_of(pattern);
        let ghost before = *self;
        let mut next: Vec<usize> = Vec::new();
        let mut k: usize = 0;
        proof {
            reveal(SimpleEngine::evaluating);
        }
        while k < remaining.len()
            invariant
                k <= remaining@.len(),
                scene == scene_of(content, pattern, match_options),
                ids == ids_of(pattern),
                self.evaluating(scene, ids),
                self.nodes@ == before.nodes@,
                self.pm_cache@ == before.pm_cache@,
                self.results@.len() == before.results@.len(),
                self.nodes@.len() == self.results@.len(),
                forall|a: int| 0 <= a < remaining@.len() ==> #[trigger] remaining@[a] < self.nodes@.len(),
                next@.len() <= k,
                forall|a: int| 0 <= a < next@.len() ==> #[trigger] next@[a] < self.nodes@.len(),
                forall|j: int|
                    0 <= j < before.results@.len() && before.results@[j] is Some
                        ==> #[trigger] self.results@[j] is Some,
                forall|a: int|
                    0 <= a < k && self.results@[(#[trigger] remaining@[a]) as int] is None
                        ==> next@.contains(remaining@[a]),
                next@.len() == k ==> self.results@ == before.results@ && forall|a: int|
                    0 <= a < k ==> !before.computable((#[trigger] remaining@[a]) as int),
            decreases remaining@.len() - k,
        {
            let i = remaining[k];
            let ghost next0 = next@;
            let ghost middle = *self;
            if self.results[i].is_none() {
                match self.evaluate(i, content, pattern, Ghost(match_options)) {
                    Some(value) => {
                        self.record(i, value, Ghost(scene), Ghost(ids));
                    },
                    None => {
                        next.push(i);
                        proof {
                            assert(next@[next0.len() as int] == i);
                            assert forall|a: int|
                                0 <= a < k + 1 && self.results@[(#[trigger] remaining@[a]) as int] is None implies next@.contains(
                                remaining@[a],
                            ) by {
                                if a < k {
                                    let w = choose|w: int|
                                        0 <= w < next0.len() && next0[w] == remaining@[a];
                                    assert(next@[w] == remaining@[a]);
                                }
                            }
                            if next0.len() == k {
                                assert(middle.results@ == before.results@);
                                assert(!middle.computable(i as int));
                                assert(middle.nodes@ == before.nodes@);
                                assert(middle.computable(i as int) == before.computable(i as int)) by {
                                    lemma_computable_same(middle, before, i as int);
                                }
                            }
                        }
                    },
                }
            }
            k = k + 1;
        }
        next
    }

    /// Builds the plan of the matching call and evaluates it on the encrypted
    /// bytes.  The result is an encrypted boolean for `MatchResult::Bool`, and
    /// else the encrypted raw index of the first match: one more than the
    /// content position where that match begins, or 0 where there is none.
    /// Where the public lengths exclude a match, the result is a trivial
    /// encryption of `false` or of 0.
    pub fn find_match(
        &mut self,
        content: &FheString<F>,
        pattern: &Pattern<F>,
        match_options: MatchingOptions,
    ) -> (result: FheResult<F>)
        requires
            old(self).is_new(),
            !pattern.padded(),
            pattern@.len() >= 1,
        ensures
            result@ == scene_of(content, pattern, match_options).outcome(
                !(match_options.result is Bool),
            ),
            final(self).plan().no_duplicates(),
    {
        let ghost scene = scene_of(content, pattern, match_options);
        let ghost ids = ids_of(pattern);
        let full_match = match_options.sof && match_options.eof;
        if content.chars.len() < pattern.len() || (!content.has_padding() && full_match
            && content.chars.len() != pattern.len()) {
            return match match_options.result {
                MatchResult::Bool => FheResult::Bool(F::bool_trivial(false)),
                _ => FheResult::Uint(F::u16_trivial(0)),
            };
        }
        let final_op = self.build_execution_plan(content, pattern, match_options);
        proof {
            assert(ids_agree(scene, ids)) by {
                assert forall|c: int, p: int|
                    0 <= c < scene.shape.n && 0 <= p < ids.len() implies #[trigger] scene.holds(
                    c,
                    ids[p],
                ) == (scene.content[c] == scene.pattern[p]) by {
                    assert(ids[p] == pattern.id_at(p as usize));
                }
            }
            self.lemma_planned_evaluating(scene, ids);
            reveal(SimpleEngine::evaluating);
        }
        let ghost plan = self.nodes@;

        let mut remaining_ops: Vec<usize> = Vec::new();
        let mut at: usize = 0;
        while at < self.nodes.len()
            invariant
                at <= self.nodes@.len(),
                remaining_ops@.len() == at,
                forall|k: int| 0 <= k < at ==> #[trigger] remaining_ops@[k] == k,
            decreases self.nodes@.len() - at,
        {
            remaining_ops.push(at);
            at = at + 1;
        }
        proof {
            assert forall|j: int| 0 <= j < self.results@.len() implies covers(
                remaining_ops@,
                j,
            ) by {
                assert(remaining_ops@[j] == j);
            }
        }
        let mut progressed = true;
        while progressed
            invariant
                scene == scene_of(content, pattern, match_options),
                ids == ids_of(pattern),
                self.evaluating(scene, ids),
                self.nodes@ == plan,
                self.nodes@.len() == self.results@.len(),
                forall|k: int|
                    0 <= k < remaining_ops@.len() ==> #[trigger] remaining_ops@[k] < self.nodes@.len(),
                forall|j: int|
                    0 <= j < self.results@.len() && (#[trigger] self.results@[j]) is None
                        ==> covers(remaining_ops@, j),
                !progressed ==> forall|j: int|
                    0 <= j < self.results@.len() ==> (#[trigger] self.results@[j]) is Some,
            decreases remaining_ops@.len(), bit(progressed),
        {
            let prev_len = remaining_ops.len();
            let ghost before = *self;
            let ghost old_remaining = remaining_ops@;
            let next_ops = self.run_wave(&remaining_ops, content, pattern, Ghost(match_options));
            progressed = next_ops.len() < prev_len;
            proof {
                assert forall|j: int|
                    0 <= j < self.results@.len() && (#[trigger] self.results@[j]) is None implies covers(
                    next_ops@,
                    j,
                ) by {
                    assert(before.results@[j] is None);
                    let k = choose|k: int|
                        0 <= k < old_remaining.len() && (#[trigger] old_remaining[k]) == j;
                    assert(self.results@[old_remaining[k] as int] is None);
                    assert(next_ops@.contains(old_remaining[k]));
                    let w = choose|w: int| 0 <= w < next_ops@.len() && next_ops@[w] == old_remaining[k];
                    assert(next_ops@[w] == j);
                }
                if !progressed {
                    assert forall|j: int| 0 <= j < self.results@.len() implies (
                    #[trigger] self.results@[j]) is Some by {
                        if self.results@[j] is None {
                            assert(before.results@[j] is None);
                            let w = before.lemma_progress(scene, ids, j);
                            assert(before.results@[w] is None);
                            let k = choose|k: int|
                                0 <= k < old_remaining.len() && (#[trigger] old_remaining[k]) == w;
                            assert(!before.computable(old_remaining[k] as int));
                        }
                    }
                }
            }
            remaining_ops = next_ops;
        }
        let root = self.position(&final_op).unwrap();
        proof {
            assert(self.results@[root as int] is Some);
            lemma_denote_kind(scene, final_op);
            if match_options.result is Bool {
                scene.lemma_root_bool();
            } else {
                scene.lemma_root_index();
            }
        }
        match &self.results[root] {
            Some(result) => result.duplicate(),
            None => vstd::pervasive::unreached(),
        }
    }

    /// Does the pattern match the content under the anchors of
    /// `match_options`?
    pub fn has_match(
        &mut self,
        content: &FheString<F>,
        pattern: &Pattern<F>,
        match_options: MatchingOptions,
    ) -> (found: F::Bool)
        requires
            old(self).is_new(),
            !pattern.padded(),
            pattern@.len() >= 1,
            match_options.result is Bool,
        ensures
            F::clear_bool(found) == scene_of(content, pattern, match_options).outcome(false).truth(),
            final(self).plan().no_duplicates(),
    {
        match self.find_match(content, pattern, match_options) {
            FheResult::Bool(result) => result,
            FheResult::Uint(_) => vstd::pervasive::unreached(),
        }
    }

    /// The index of the first match, as a signed integer: -1 where there is
    /// none.  For `MatchResult::StartIndex` the index counts characters: the
    /// padding zeros before the match are taken off.  For
    /// `MatchResult::RawStartIndex` it counts content positions.
    pub fn find(
        &mut self,
        content: &FheString<F>,
        pattern: &Pattern<F>,
        match_options: MatchingOptions,
    ) -> (index: F::I16)
        requires
            old(self).is_new(),
            !pattern.padded(),
            pattern@.len() >= 1,
            !(match_options.result is Bool),
        ensures
            F::clear_i16(index) == found_index(
                content@,
                scene_of(content, pattern, match_options).outcome(true).index(),
                match_options.result is RawStartIndex,
            ),
            final(self).plan().no_duplicates(),
    {
        match self.find_match(content, pattern, match_options) {
            FheResult::Uint(result) => {
                let shift_count = match match_options.result {
                    MatchResult::RawStartIndex => F::i16_trivial(0),
                    _ => F::i16_mul(
                        &F::i16_from_bool(&F::u16_gt_scalar(&result, 1)),
                        &nb_zeros_before(content, F::u16_clone(&result)),
                    ),
                };
                F::i16_sub_scalar(&F::i16_sub(&F::i16_from_u16(&result), &shift_count), 1)
            },
            FheResult::Bool(_) => vstd::pervasive::unreached(),
        }
    }
}

/// The number of padding zeros of `content` before the raw index `index`.
pub fn nb_zeros_before<F: Fhe>(content: &FheString<F>, index: F::U16) -> (count: F::I16)
    ensures
        F::clear_i16(count) == wrap_i16(
            zeros_before(content@, F::clear_u16(index), content@.len() as int) as int,
        ),
{
    let mut res = F::u16_trivial(0);
    let modulus: usize = 0x1_0000;
    let mut i: usize = 0;
    while i < content.chars.len()
        invariant
            i <= content.chars@.len(),
            modulus == 0x1_0000,
            F::clear_u16(res) == zeros_before(content@, F::clear_u16(index), i as int),
        decreases content.chars@.len() - i,
    {
        let position: u16 = (i % modulus) as u16;
        assert(content@[i as int] == F::clear_u8(content.chars@[i as int].byte));
        let must_count = F::bool_and(
            &F::u8_eq_scalar(&content.chars[i].byte, 0),
            &F::u16_gt_scalar(&index, position),
        );
        res = F::u16_add(&res, &F::u16_from_bool(&must_count));
        i = i + 1;
    }
    F::i16_from_u16(&res)
}

/// A plan cache that holds no node twice has as many nodes as there are
/// distinct nodes in it: what two alignments share is held, and evaluated,
/// once.
pub proof fn law_plan_size(plan: Seq<Execution>)
    requires
        plan.no_duplicates(),
    ensures
        plan.to_set().len() == plan.len(),
{
    plan.unique_seq_to_set();
}

/// Is `j` one of the indices of `remaining`?
pub open spec fn covers(remaining: Seq<usize>, j: int) -> bool {
    exists|k: int| 0 <= k < remaining.len() && (#[trigger] remaining[k]) == j
}

/// What a node yields is an index exactly if the node yields indices.
proof fn lemma_denote_kind(scene: Scene, e: Execution)
    ensures
        scene.denote(e) == if e.yields_index() {
            Outcome::Index(scene.denote(e).index())
        } else {
            Outcome::Bool(scene.denote(e).truth())
        },
{
}

proof fn lemma_computable_same<F: Fhe>(a: SimpleEngine<F>, b: SimpleEngine<F>, i: int)
    requires
        a.nodes@ == b.nodes@,
        a.results@ == b.results@,
    ensures
        a.computable(i) == b.computable(i),
{
    assert forall|e: Execution| a.filled(e) == b.filled(e) by {
        if a.filled(e) {
            let w = choose|w: int|
                0 <= w < a.nodes@.len() && w < a.results@.len() && (#[trigger] a.nodes@[w]) == e
                    && a.results@[w] is Some;
            assert(b.nodes@[w] == e);
        }
        if b.filled(e) {
            let w = choose|w: int|
                0 <= w < b.nodes@.len() && w < b.results@.len() && (#[trigger] b.nodes@[w]) == e
                    && b.results@[w] is Some;
            assert(a.nodes@[w] == e);
        }
    }
}

} // verus!

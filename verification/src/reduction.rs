//! Facts about balanced reductions: what they keep of their leaves and what
//! their root stands for.
use crate::execution::{fold_node, Execution, ExecutionTree, FoldKind, PatternId};
use crate::semantics::{leaf, leaves, pair_up, reduce, zero_range, Outcome, Scene, Shape};
use vstd::prelude::*;

verus! {

/// Does `PatternMatch { c, p }` or `IndexMatch { c, p }` occur in the node?
pub open spec fn mentions(e: Execution, c: usize, p: usize) -> bool
    decreases e,
{
    match e {
        Execution::Eq(_, _) => false,
        Execution::And { l_res, r_res }
        | Execution::Or { l_res, r_res }
        | Execution::StartIndex { l_res, r_res } => mentions(*l_res, c, p) || mentions(
            *r_res,
            c,
            p,
        ),
        Execution::PatternMatch { c_pos, p_pos } | Execution::IndexMatch { c_pos, p_pos } => c_pos
            == c && p_pos == p,
    }
}

/// Number of folds above the deepest leaf, an `IndexMatch` counting as one
/// fold.
pub open spec fn height(e: Execution) -> nat
    decreases e,
{
    match e {
        Execution::Eq(_, _) => 0,
        Execution::PatternMatch { .. } => 0,
        Execution::IndexMatch { .. } => 1,
        Execution::And { l_res, r_res }
        | Execution::Or { l_res, r_res }
        | Execution::StartIndex { l_res, r_res } => {
            if height(*l_res) >= height(*r_res) {
                height(*l_res) + 1
            } else {
                height(*r_res) + 1
            }
        },
    }
}

/// How far from the end of a content of length `n` the matches that the node
/// mentions begin, plus one; 0 where it mentions none.
pub open spec fn level(n: usize, e: Execution) -> nat
    decreases e,
{
    match e {
        Execution::Eq(_, _) => 0,
        Execution::PatternMatch { c_pos, .. } | Execution::IndexMatch { c_pos, .. } => {
            if c_pos < n {
                (n - c_pos + 1) as nat
            } else {
                1
            }
        },
        Execution::And { l_res, r_res }
        | Execution::Or { l_res, r_res }
        | Execution::StartIndex { l_res, r_res } => {
            if level(n, *l_res) >= level(n, *r_res) {
                level(n, *l_res)
            } else {
                level(n, *r_res)
            }
        },
    }
}

/// A property of nodes that every leaf has, and that a fold of kind `kind`
/// has as soon as its operands have it, holds of the root of the reduction.
pub proof fn lemma_reduce_keeps(
    kind: FoldKind,
    nodes: Seq<ExecutionTree>,
    q: spec_fn(Execution) -> bool,
)
    requires
        nodes.len() > 0,
        forall|i: int| 0 <= i < nodes.len() ==> q((#[trigger] nodes[i]).op()),
        forall|a: Execution, b: Execution| q(a) && q(b) ==> q(#[trigger] fold_node(kind, a, b)),
    ensures
        q(reduce(kind, nodes).op()),
    decreases nodes.len(),
{
    if nodes.len() > 1 {
        let next = pair_up(kind, nodes);
        assert forall|i: int| 0 <= i < next.len() implies q((#[trigger] next[i]).op()) by {
            let l = nodes[2 * i];
            let r = if 2 * i + 1 < nodes.len() {
                nodes[2 * i + 1]
            } else {
                nodes[2 * i]
            };
            assert(q(l.op()) && q(r.op()));
            assert(next[i].op() == fold_node(kind, l.op(), r.op()));
        }
        lemma_reduce_keeps(kind, next, q);
    }
}

/// The reduction of well-formed trees is a well-formed tree.
pub proof fn lemma_reduce_wf(kind: FoldKind, nodes: Seq<ExecutionTree>)
    requires
        nodes.len() > 0,
        forall|i: int| 0 <= i < nodes.len() ==> (#[trigger] nodes[i]).wf(),
    ensures
        reduce(kind, nodes).wf(),
    decreases nodes.len(),
{
    if nodes.len() > 1 {
        let next = pair_up(kind, nodes);
        assert forall|i: int| 0 <= i < next.len() implies (#[trigger] next[i]).wf() by {
            assert(nodes[2 * i].wf());
            if 2 * i + 1 < nodes.len() {
                assert(nodes[2 * i + 1].wf());
            }
        }
        lemma_reduce_wf(kind, next);
    }
}

impl Scene {
    /// Is every root of the row true?
    pub open spec fn all_true(self, nodes: Seq<ExecutionTree>) -> bool {
        forall|i: int| 0 <= i < nodes.len() ==> self.denote((#[trigger] nodes[i]).op()).truth()
    }

    /// Is some root of the row true?
    pub open spec fn some_true(self, nodes: Seq<ExecutionTree>) -> bool {
        exists|i: int| 0 <= i < nodes.len() && self.denote((#[trigger] nodes[i]).op()).truth()
    }

    /// The first index that is not zero among the roots of the row from
    /// position `from` on, or 0.
    pub open spec fn first_nonzero(self, nodes: Seq<ExecutionTree>, from: int) -> u16
        decreases nodes.len() - from,
    {
        if from < 0 || from >= nodes.len() {
            0
        } else if self.denote(nodes[from].op()).index() != 0 {
            self.denote(nodes[from].op()).index()
        } else {
            self.first_nonzero(nodes, from + 1)
        }
    }

    /// The root of an `And` reduction is true exactly if every leaf is.
    pub proof fn lemma_reduce_and(self, nodes: Seq<ExecutionTree>)
        requires
            nodes.len() > 0,
        ensures
            self.denote(reduce(FoldKind::And, nodes).op()).truth() == self.all_true(nodes),
        decreases nodes.len(),
    {
        if nodes.len() > 1 {
            let next = pair_up(FoldKind::And, nodes);
            self.lemma_reduce_and(next);
            if self.all_true(nodes) {
                assert forall|i: int| 0 <= i < next.len() implies self.denote(
                    (#[trigger] next[i]).op(),
                ).truth() by {
                    assert(self.denote(nodes[2 * i].op()).truth());
                    if 2 * i + 1 < nodes.len() {
                        assert(self.denote(nodes[2 * i + 1].op()).truth());
                    }
                }
            }
            if self.all_true(next) {
                assert forall|j: int| 0 <= j < nodes.len() implies self.denote(
                    (#[trigger] nodes[j]).op(),
                ).truth() by {
                    let i = j / 2;
                    assert(self.denote(next[i].op()).truth());
                }
            }
        } else {
            if self.denote(nodes[0].op()).truth() {
                assert(self.all_true(nodes));
            }
        }
    }

    /// The root of an `Or` reduction is true exactly if some leaf is.
    pub proof fn lemma_reduce_or(self, nodes: Seq<ExecutionTree>)
        requires
            nodes.len() > 0,
        ensures
            self.denote(reduce(FoldKind::Or, nodes).op()).truth() == self.some_true(nodes),
        decreases nodes.len(),
    {
        if nodes.len() > 1 {
            let next = pair_up(FoldKind::Or, nodes);
            self.lemma_reduce_or(next);
            if self.some_true(nodes) {
                let j = choose|j: int|
                    0 <= j < nodes.len() && self.denote((#[trigger] nodes[j]).op()).truth();
                let i = j / 2;
                assert(self.denote(next[i].op()).truth());
            }
            if self.some_true(next) {
                let i = choose|i: int|
                    0 <= i < next.len() && self.denote((#[trigger] next[i]).op()).truth();
                if self.denote(nodes[2 * i].op()).truth() {
                } else {
                    assert(2 * i + 1 < nodes.len());
                    assert(self.denote(nodes[2 * i + 1].op()).truth());
                }
            }
        } else {
            if self.some_true(nodes) {
                let j = choose|j: int|
                    0 <= j < nodes.len() && self.denote((#[trigger] nodes[j]).op()).truth();
                assert(j == 0);
            } else {
                if self.denote(nodes[0].op()).truth() {
                    assert(self.some_true(nodes));
                }
            }
        }
    }

    proof fn lemma_pair_up_first_nonzero(self, nodes: Seq<ExecutionTree>, k: int)
        requires
            0 <= k,
        ensures
            self.first_nonzero(pair_up(FoldKind::StartIndex, nodes), k) == self.first_nonzero(
                nodes,
                2 * k,
            ),
        decreases pair_up(FoldKind::StartIndex, nodes).len() - k,
    {
        let next = pair_up(FoldKind::StartIndex, nodes);
        if k < next.len() {
            self.lemma_pair_up_first_nonzero(nodes, k + 1);
            assert(2 * k < nodes.len());
            if 2 * k + 1 < nodes.len() {
                assert(self.first_nonzero(nodes, 2 * k + 1) == if self.denote(
                    nodes[2 * k + 1].op(),
                ).index() != 0 {
                    self.denote(nodes[2 * k + 1].op()).index()
                } else {
                    self.first_nonzero(nodes, 2 * k + 2)
                });
            } else {
                assert(self.first_nonzero(nodes, 2 * k + 1) == 0);
                assert(k + 1 >= next.len());
            }
        }
    }

    /// The root of a `StartIndex` reduction is the first index among the
    /// leaves that is not zero.
    pub proof fn lemma_reduce_start_index(self, nodes: Seq<ExecutionTree>)
        requires
            nodes.len() > 0,
        ensures
            self.denote(reduce(FoldKind::StartIndex, nodes).op()).index() == self.first_nonzero(
                nodes,
                0,
            ),
        decreases nodes.len(),
    {
        if nodes.len() > 1 {
            let next = pair_up(FoldKind::StartIndex, nodes);
            self.lemma_reduce_start_index(next);
            self.lemma_pair_up_first_nonzero(nodes, 0);
        } else {
            assert(self.first_nonzero(nodes, 1) == 0);
        }
    }

    /// The node `zero_range(a, b)` is true exactly if the content is zero at
    /// all of `a ..= b`.
    pub proof fn lemma_zero_range(self, c_start: usize, c_end: usize)
        requires
            c_start <= c_end < usize::MAX,
        ensures
            self.denote(zero_range(c_start, c_end)).truth() == self.zeros(
                c_start as int,
                c_end + 1,
            ),
    {
        let row = leaves(FoldKind::And, c_start, c_end, PatternId::Zero);
        self.lemma_reduce_and(row);
        let dup: int = if c_end - c_start < 1 || c_start % 2 > 0 {
            1
        } else {
            0
        };
        assert(row.len() == c_end - c_start + 1 + dup);
        assert forall|j: int| dup <= j < row.len() implies #[trigger] row[j].op() == Execution::Eq(
            (c_start + j - dup) as usize,
            PatternId::Zero,
        ) by {}
        if dup == 1 {
            assert(row[0].op() == Execution::Eq(c_start, PatternId::Zero));
        }
        if self.all_true(row) {
            assert forall|i: int| c_start <= i < c_end + 1 implies self.content[i] == 0 by {
                let j = i - c_start + dup;
                assert(self.denote(row[j].op()).truth());
            }
        }
        if self.zeros(c_start as int, c_end + 1) {
            assert forall|j: int| 0 <= j < row.len() implies self.denote(
                (#[trigger] row[j]).op(),
            ).truth() by {
                if j >= dup {
                    assert(row[j].op() == Execution::Eq(
                        (c_start + j - dup) as usize,
                        PatternId::Zero,
                    ));
                }
            }
        }
    }

    proof fn lemma_first_nonzero_row(self, row: Seq<ExecutionTree>, dup: int, k: int)
        requires
            self.shape.max_start() >= 0,
            self.shape.max_start() < usize::MAX,
            0 <= k,
            dup == 0 || dup == 1,
            row.len() == self.shape.max_start() + 1 + dup,
            forall|j: int|
                dup <= j < row.len() ==> (#[trigger] row[j]).op() == (Execution::IndexMatch {
                    c_pos: (j - dup) as usize,
                    p_pos: 0,
                }),
        ensures
            self.first_nonzero(row, k + dup) == self.first_index_from(k),
        decreases self.shape.max_start() - k + 1,
    {
        if k <= self.shape.max_start() {
            self.lemma_first_nonzero_row(row, dup, k + 1);
            assert(row[k + dup].op() == (Execution::IndexMatch { c_pos: k as usize, p_pos: 0 }));
        }
    }

    /// The root of the plan of an index query is the raw index of the first
    /// match.
    pub proof fn lemma_root_index(self)
        requires
            0 <= self.shape.max_start() < usize::MAX,
        ensures
            self.denote(self.shape.root(FoldKind::StartIndex)).index() == self.first_index_from(0),
    {
        let last = self.shape.max_start() as usize;
        let row = leaves(FoldKind::StartIndex, 0, last, PatternId::Index(0));
        self.lemma_reduce_start_index(row);
        let dup: int = if last < 1 {
            1
        } else {
            0
        };
        assert forall|j: int| dup <= j < row.len() implies (#[trigger] row[j]).op() == (
        Execution::IndexMatch { c_pos: (j - dup) as usize, p_pos: 0 }) by {}
        self.lemma_first_nonzero_row(row, dup, 0);
        if dup == 1 {
            assert(row[0].op() == (Execution::IndexMatch { c_pos: 0, p_pos: 0 }));
            assert(row[1].op() == (Execution::IndexMatch { c_pos: 0, p_pos: 0 }));
            assert(self.first_nonzero(row, 0) == self.first_nonzero(row, 1));
        }
    }

    /// The root of the plan of a boolean query says whether the pattern
    /// matches from some start position.
    pub proof fn lemma_root_bool(self)
        requires
            0 <= self.shape.max_start() < usize::MAX,
        ensures
            self.denote(self.shape.root(FoldKind::Or)).truth() == self.any_match(),
    {
        let last = self.shape.max_start() as usize;
        let row = leaves(FoldKind::Or, 0, last, PatternId::Index(0));
        self.lemma_reduce_or(row);
        let dup: int = if last < 1 {
            1
        } else {
            0
        };
        assert forall|j: int| dup <= j < row.len() implies (#[trigger] row[j]).op() == (
        Execution::PatternMatch { c_pos: (j - dup) as usize, p_pos: 0 }) by {}
        if self.some_true(row) {
            let j = choose|j: int|
                0 <= j < row.len() && self.denote((#[trigger] row[j]).op()).truth();
            if j >= dup {
                assert(self.pm(j - dup, 0));
            } else {
                assert(row[0].op() == (Execution::PatternMatch { c_pos: 0, p_pos: 0 }));
                assert(self.pm(0, 0));
            }
        }
        if self.any_match() {
            let c = choose|c: int| 0 <= c <= self.shape.max_start() && #[trigger] self.pm(c, 0);
            assert(self.denote(row[c + dup].op()).truth());
        }
    }
}

/// The node `zero_range(a, b)` is valid, boolean, mentions no match and has
/// level 0.
pub proof fn lemma_zero_range_plain(shape: Shape, c_start: usize, c_end: usize)
    requires
        c_start <= c_end < shape.n,
    ensures
        shape.valid(zero_range(c_start, c_end)),
        !zero_range(c_start, c_end).yields_index(),
        !(zero_range(c_start, c_end) is PatternMatch),
        level(shape.n, zero_range(c_start, c_end)) == 0,
{
    let row = leaves(FoldKind::And, c_start, c_end, PatternId::Zero);
    let q = |e: Execution|
        shape.valid(e) && !e.yields_index() && !(e is PatternMatch) && level(shape.n, e) == 0;
    assert forall|i: int| 0 <= i < row.len() implies q((#[trigger] row[i]).op()) by {
        assert(row[i].op() is Eq);
    }
    assert forall|a: Execution, b: Execution| q(a) && q(b) implies q(
        #[trigger] fold_node(FoldKind::And, a, b),
    ) by {}
    lemma_reduce_keeps(FoldKind::And, row, q);
}

impl Shape {
    /// The node of a step is a valid boolean node, no `PatternMatch` itself,
    /// and the matches it mentions begin after `c`.
    pub proof fn lemma_step_plain(self, c: usize, p: usize, id: PatternId)
        requires
            self.in_range(c as int, p as int),
            id matches PatternId::Index(q) ==> q < self.m,
            id is Zero ==> self.n - c > self.m - p,
        ensures
            self.valid(self.step(c, p, id)),
            !self.step(c, p, id).yields_index(),
            !(self.step(c, p, id) is PatternMatch),
            level(self.n, self.step(c, p, id)) <= self.n - c,
    {
        let eq = Execution::Eq(c, id);
        assert(self.valid(eq));
        assert(level(self.n, eq) == 0);
        if id is Zero {
            let next = Execution::PatternMatch { c_pos: (c + 1) as usize, p_pos: p };
            assert(self.valid(next));
            assert(level(self.n, next) <= self.n - c);
        } else {
            let next = Execution::PatternMatch {
                c_pos: (c + 1) as usize,
                p_pos: (p + 1) as usize,
            };
            let main = if self.m - p < 2 {
                eq
            } else {
                fold_node(FoldKind::And, eq, next)
            };
            if self.m - p >= 2 {
                assert(self.valid(next));
                assert(level(self.n, next) <= self.n - c);
            }
            assert(self.valid(main) && !main.yields_index() && level(self.n, main) <= self.n - c);
            let prefixed = if self.zero_prefixed(c as int, p as int) {
                fold_node(FoldKind::And, zero_range(0, (c - 1) as usize), main)
            } else {
                main
            };
            if self.zero_prefixed(c as int, p as int) {
                lemma_zero_range_plain(self, 0, (c - 1) as usize);
            }
            assert(self.valid(prefixed) && !prefixed.yields_index() && level(self.n, prefixed)
                <= self.n - c);
            if self.zero_suffixed(c as int, p as int) {
                lemma_zero_range_plain(self, (c + 1) as usize, (self.n - 1) as usize);
            }
        }
    }

    /// The node that stands for `PatternMatch { c, p }` is a valid boolean
    /// node, no `PatternMatch` itself, and of a lower level.
    pub proof fn lemma_branch_plain(self, c: usize, p: usize, id: PatternId)
        requires
            self.in_range(c as int, p as int),
            id matches PatternId::Index(q) ==> q < self.m,
            !(id is Zero),
        ensures
            self.valid(self.branch(c, p, id)),
            !self.branch(c, p, id).yields_index(),
            !(self.branch(c, p, id) is PatternMatch),
            level(self.n, self.branch(c, p, id)) <= self.n - c,
    {
        self.lemma_step_plain(c, p, id);
        if self.can_consume_zero(c as int, p as int) {
            self.lemma_step_plain(c, p, PatternId::Zero);
        }
    }
}

impl Scene {
    /// The node that stands for `PatternMatch { c, p }` has its value.
    pub proof fn lemma_branch_denotes(self, c: usize, p: usize, id: PatternId)
        requires
            self.wf(),
            self.shape.in_range(c as int, p as int),
            !(id is Zero),
            self.holds(c as int, id) == (self.content[c as int] == self.pattern[p as int]),
        ensures
            self.denote(self.shape.branch(c, p, id)) == Outcome::Bool(self.pm(c as int, p as int)),
    {
        let shape = self.shape;
        let eq = Execution::Eq(c, id);
        let next = Execution::PatternMatch { c_pos: (c + 1) as usize, p_pos: (p + 1) as usize };
        let main = if shape.m - p < 2 {
            eq
        } else {
            fold_node(FoldKind::And, eq, next)
        };
        assert(self.denote(eq) == Outcome::Bool(self.holds(c as int, id)));
        assert(self.denote(next) == Outcome::Bool(self.pm(c + 1, p + 1)));
        assert(self.denote(main).truth() == (self.content[c as int] == self.pattern[p as int] && (p
            + 1 < shape.m ==> self.pm(c + 1, p + 1))));
        let prefixed = if shape.zero_prefixed(c as int, p as int) {
            fold_node(FoldKind::And, zero_range(0, (c - 1) as usize), main)
        } else {
            main
        };
        if shape.zero_prefixed(c as int, p as int) {
            self.lemma_zero_range(0, (c - 1) as usize);
        }
        assert(self.denote(prefixed).truth() == ((shape.zero_prefixed(c as int, p as int)
            ==> self.zeros(0, c as int)) && self.denote(main).truth()));
        if shape.zero_suffixed(c as int, p as int) {
            self.lemma_zero_range((c + 1) as usize, (shape.n - 1) as usize);
        }
        let byte = shape.step(c, p, id);
        assert(self.denote(byte).truth() == self.byte_step(
            c as int,
            p as int,
            self.pm(c + 1, p + 1),
        ));
        let zero = shape.step(c, p, PatternId::Zero);
        assert(self.denote(Execution::Eq(c, PatternId::Zero)) == Outcome::Bool(
            self.content[c as int] == 0,
        ));
        assert(self.denote(Execution::PatternMatch { c_pos: (c + 1) as usize, p_pos: p })
            == Outcome::Bool(self.pm(c + 1, p as int)));
        assert(self.denote(zero).truth() == (self.content[c as int] == 0 && self.pm(
            c + 1,
            p as int,
        )));
    }
}

} // verus!

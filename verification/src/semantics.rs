//! What a match is, and what each node of an execution plan stands for.
//!
//! The content of length `n` may hold padding zeros where its [`Padding`]
//! allows them; the pattern of length `m` holds none.  An alignment walks the
//! content from a start position.  At content position `c` and pattern
//! position `p` it either consumes the pattern byte (the content byte equals
//! it; both positions advance) or consumes a padding zero (the content byte is
//! zero; only `c` advances).  A zero may be consumed before the first pattern
//! byte only under `padding.start`, between two pattern bytes only under
//! `padding.middle`, and only while as many content bytes are left after it as
//! pattern bytes are still to be matched.
//!
//! With the start anchor `sof` under `padding.start`, the step that consumes
//! the first pattern byte away from position 0 also demands that all content
//! before it is zero.  With the end anchor `eof` under `padding.end`, the step
//! that consumes the last pattern byte before the last position also demands
//! that all content after it is zero.  Both demands belong to the steps that
//! consume a pattern byte, never to a step that consumes a zero.
use crate::ciphertext::Padding;
use crate::execution::{fold_node, Execution, ExecutionTree, FoldKind, PatternId};
use crate::primitives::{bit, wrap_i16, wrap_u16};
use vstd::prelude::*;

verus! {

/// The public data of a matching call: the two lengths, the padding flags of
/// the content and the anchors.
pub struct Shape {
    /// Length of the content, padding included.
    pub n: usize,
    /// Length of the pattern.
    pub m: usize,
    pub padding: Padding,
    /// The match must begin where the content begins.
    pub sof: bool,
    /// The match must end where the content ends.
    pub eof: bool,
}

/// The clear value of a node: a boolean or a 1-based index (0: none).
pub enum Outcome {
    Bool(bool),
    Index(u16),
}

impl Outcome {
    /// The boolean of a boolean outcome.
    pub open spec fn truth(self) -> bool {
        self matches Outcome::Bool(b) && b
    }

    /// The index of an index outcome.
    pub open spec fn index(self) -> u16 {
        match self {
            Outcome::Index(i) => i,
            Outcome::Bool(_) => 0,
        }
    }
}

/// The node that starts a fold of kind `kind` at content position `c`: an
/// equality test with `id` under `And`; under `Or` and `StartIndex` the match
/// of the pattern from the position that `id` names.
pub open spec fn leaf(kind: FoldKind, c: usize, id: PatternId) -> Execution {
    match kind {
        FoldKind::And => Execution::Eq(c, id),
        FoldKind::Or => Execution::PatternMatch { c_pos: c, p_pos: id->Index_0 },
        FoldKind::StartIndex => Execution::IndexMatch { c_pos: c, p_pos: id->Index_0 },
    }
}

/// The row of leaves over the content positions `c_start ..= c_end`.  The
/// first leaf stands twice when the row has one position or starts at an odd
/// one, so that pairs always begin at even positions and overlapping rows pair
/// up alike.
pub open spec fn leaves(kind: FoldKind, c_start: usize, c_end: usize, id: PatternId) -> Seq<
    ExecutionTree,
> {
    let row = Seq::new(
        (c_end - c_start + 1) as nat,
        |i: int| ExecutionTree::Leaf(leaf(kind, (c_start + i) as usize, id)),
    );
    if c_end - c_start < 1 || c_start % 2 > 0 {
        seq![ExecutionTree::Leaf(leaf(kind, c_start, id))] + row
    } else {
        row
    }
}

/// One round of a balanced reduction: neighbours are joined two by two; a last
/// tree without neighbour is joined with itself.
pub open spec fn pair_up(kind: FoldKind, nodes: Seq<ExecutionTree>) -> Seq<ExecutionTree> {
    Seq::new(
        ((nodes.len() + 1) / 2) as nat,
        |i: int|
            ExecutionTree::join(
                kind,
                nodes[2 * i],
                if 2 * i + 1 < nodes.len() {
                    nodes[2 * i + 1]
                } else {
                    nodes[2 * i]
                },
            ),
    )
}

/// The balanced reduction of a row of trees to one tree.
pub open spec fn reduce(kind: FoldKind, nodes: Seq<ExecutionTree>) -> ExecutionTree
    decreases nodes.len(),
{
    if nodes.len() <= 1 {
        nodes[0]
    } else {
        reduce(kind, pair_up(kind, nodes))
    }
}

/// The node that tests whether the content is zero at every position of
/// `c_start ..= c_end`.
pub open spec fn zero_range(c_start: usize, c_end: usize) -> Execution {
    reduce(FoldKind::And, leaves(FoldKind::And, c_start, c_end, PatternId::Zero)).op()
}

impl Shape {
    /// May an alignment stand at content position `c` and pattern position
    /// `p`?  Both are inside, and the content left is no shorter than the
    /// pattern left.
    pub open spec fn in_range(self, c: int, p: int) -> bool {
        0 <= c < self.n && 0 <= p < self.m && self.n - c >= self.m - p
    }

    /// Does consuming the pattern byte at `(c, p)` demand zeros before `c`?
    pub open spec fn zero_prefixed(self, c: int, p: int) -> bool {
        c > 0 && p == 0 && self.sof && self.padding.start
    }

    /// Does consuming the pattern byte at `(c, p)` demand zeros after `c`?
    pub open spec fn zero_suffixed(self, c: int, p: int) -> bool {
        self.n - c > 1 && self.m - p == 1 && self.eof && self.padding.end
    }

    /// May a padding zero be consumed at `(c, p)`?
    pub open spec fn can_consume_zero(self, c: int, p: int) -> bool {
        self.n - c > self.m - p && ((p == 0 && self.padding.start) || (p > 0
            && self.padding.middle))
    }

    /// The lengths alone exclude a match.
    pub open spec fn impossible(self) -> bool {
        self.n < self.m || (!self.padding.any() && self.sof && self.eof && self.n != self.m)
    }

    /// The last content position at which a match may start.
    pub open spec fn max_start(self) -> int {
        if self.sof {
            0
        } else {
            self.n - self.m
        }
    }

    /// The node is made of positions inside the content and the pattern, and
    /// each fold in it has operands of the kind it folds.
    pub open spec fn valid(self, e: Execution) -> bool
        decreases e,
    {
        match e {
            Execution::Eq(c, id) => c < self.n && (id matches PatternId::Index(q) ==> q < self.m),
            Execution::And { l_res, r_res } | Execution::Or { l_res, r_res } => {
                &&& !l_res.yields_index()
                &&& !r_res.yields_index()
                &&& self.valid(*l_res)
                &&& self.valid(*r_res)
            },
            Execution::StartIndex { l_res, r_res } => {
                &&& l_res.yields_index()
                &&& r_res.yields_index()
                &&& self.valid(*l_res)
                &&& self.valid(*r_res)
            },
            Execution::PatternMatch { c_pos, p_pos } | Execution::IndexMatch { c_pos, p_pos } => {
                self.in_range(c_pos as int, p_pos as int)
            },
        }
    }

    /// The node of one step at `(c, p)`.  With the id `Zero` the step consumes
    /// a padding zero.  With another id it consumes the pattern byte that the
    /// id names, with the zero ranges that the anchors demand.
    pub open spec fn step(self, c: usize, p: usize, id: PatternId) -> Execution {
        let eq = Execution::Eq(c, id);
        if id is Zero {
            fold_node(
                FoldKind::And,
                eq,
                Execution::PatternMatch { c_pos: (c + 1) as usize, p_pos: p },
            )
        } else {
            let main = if self.m - p < 2 {
                eq
            } else {
                fold_node(
                    FoldKind::And,
                    eq,
                    Execution::PatternMatch { c_pos: (c + 1) as usize, p_pos: (p + 1) as usize },
                )
            };
            let prefixed = if self.zero_prefixed(c as int, p as int) {
                fold_node(FoldKind::And, zero_range(0, (c - 1) as usize), main)
            } else {
                main
            };
            if self.zero_suffixed(c as int, p as int) {
                fold_node(
                    FoldKind::And,
                    prefixed,
                    zero_range((c + 1) as usize, (self.n - 1) as usize),
                )
            } else {
                prefixed
            }
        }
    }

    /// The node whose value is that of `PatternMatch { c, p }`, where `id`
    /// names the pattern byte at `p`: the step that consumes the pattern byte,
    /// or, where a zero may be consumed, the disjunction of both steps.
    pub open spec fn branch(self, c: usize, p: usize, id: PatternId) -> Execution {
        if self.can_consume_zero(c as int, p as int) {
            fold_node(FoldKind::Or, self.step(c, p, id), self.step(c, p, PatternId::Zero))
        } else {
            self.step(c, p, id)
        }
    }

    /// The node that a matching call evaluates: the fold, of kind `kind`, of
    /// the matches at every start position.
    pub open spec fn root(self, kind: FoldKind) -> Execution {
        reduce(kind, leaves(kind, 0, self.max_start() as usize, PatternId::Index(0))).op()
    }
}

/// A matching call with its secret data: the bytes that content and pattern
/// decrypt to.
pub struct Scene {
    pub shape: Shape,
    pub content: Seq<u8>,
    pub pattern: Seq<u8>,
}

impl Scene {
    /// The lengths of the shape are those of the two byte rows.
    pub open spec fn wf(self) -> bool {
        self.content.len() == self.shape.n && self.pattern.len() == self.shape.m
    }

    /// Is the content zero at every position of `from .. to`?
    pub open spec fn zeros(self, from: int, to: int) -> bool {
        forall|i: int| from <= i < to ==> self.content[i] == 0
    }

    /// Does the content byte at `c` equal what `id` names?
    pub open spec fn holds(self, c: int, id: PatternId) -> bool {
        match id {
            PatternId::Zero => self.content[c] == 0,
            PatternId::Byte(b) => self.content[c] == b,
            PatternId::Index(q) => self.content[c] == self.pattern[q as int],
        }
    }

    /// Does the step that consumes the pattern byte at `(c, p)` succeed, given
    /// whether the rest of the pattern matches from `c + 1` on?
    pub open spec fn byte_step(self, c: int, p: int, rest: bool) -> bool {
        &&& self.shape.zero_prefixed(c, p) ==> self.zeros(0, c)
        &&& self.content[c] == self.pattern[p]
        &&& p + 1 < self.shape.m ==> rest
        &&& self.shape.zero_suffixed(c, p) ==> self.zeros(c + 1, self.shape.n as int)
    }

    /// Does the pattern, from `p` on, match the content from `c` on?
    pub open spec fn pm(self, c: int, p: int) -> bool
        decreases self.shape.n - c,
    {
        if self.shape.in_range(c, p) {
            ||| self.byte_step(c, p, self.pm(c + 1, p + 1))
            ||| {
                &&& self.shape.can_consume_zero(c, p)
                &&& self.content[c] == 0
                &&& self.pm(c + 1, p)
            }
        } else {
            false
        }
    }

    /// The raw index of a match that starts at `c`: `c + 1` (in sixteen bits)
    /// if the pattern matches from `(c, p)` and the content byte at `c` is no
    /// padding, else 0.
    pub open spec fn index_at(self, c: int, p: int) -> u16 {
        if self.pm(c, p) && self.content[c] > 0 {
            wrap_u16(c + 1)
        } else {
            0
        }
    }

    /// Does the pattern match from some start position?
    pub open spec fn any_match(self) -> bool {
        exists|c: int| 0 <= c <= self.shape.max_start() && #[trigger] self.pm(c, 0)
    }

    /// The first raw index that is not zero among the start positions from
    /// `c` on, or 0.
    pub open spec fn first_index_from(self, c: int) -> u16
        decreases self.shape.max_start() - c + 1,
    {
        if c < 0 || c > self.shape.max_start() {
            0
        } else if self.index_at(c, 0) != 0 {
            self.index_at(c, 0)
        } else {
            self.first_index_from(c + 1)
        }
    }

    /// What a matching call yields: `false` or 0 where the lengths exclude a
    /// match; else whether there is a match or, for an index query, the raw
    /// index of the first one.
    pub open spec fn outcome(self, index: bool) -> Outcome {
        if index {
            Outcome::Index(
                if self.shape.impossible() {
                    0
                } else {
                    self.first_index_from(0)
                },
            )
        } else {
            Outcome::Bool(!self.shape.impossible() && self.any_match())
        }
    }

    /// The clear value of a node.
    pub open spec fn denote(self, e: Execution) -> Outcome
        decreases e,
    {
        match e {
            Execution::Eq(c, id) => Outcome::Bool(self.holds(c as int, id)),
            Execution::And { l_res, r_res } => Outcome::Bool(
                self.denote(*l_res).truth() && self.denote(*r_res).truth(),
            ),
            Execution::Or { l_res, r_res } => Outcome::Bool(
                self.denote(*l_res).truth() || self.denote(*r_res).truth(),
            ),
            Execution::PatternMatch { c_pos, p_pos } => Outcome::Bool(
                self.pm(c_pos as int, p_pos as int),
            ),
            Execution::IndexMatch { c_pos, p_pos } => Outcome::Index(
                self.index_at(c_pos as int, p_pos as int),
            ),
            Execution::StartIndex { l_res, r_res } => Outcome::Index(
                if self.denote(*l_res).index() != 0 {
                    self.denote(*l_res).index()
                } else {
                    self.denote(*r_res).index()
                },
            ),
        }
    }
}

/// Number of padding zeros among the first `upto` content bytes that stand
/// before the raw index `index`, counted in sixteen bits.
pub open spec fn zeros_before(content: Seq<u8>, index: u16, upto: int) -> u16
    decreases upto,
{
    if upto <= 0 {
        0
    } else {
        wrap_u16(
            zeros_before(content, index, upto - 1) + bit(
                content[upto - 1] == 0 && index > wrap_u16(upto - 1),
            ),
        )
    }
}

/// The signed index that an index query returns for the raw index `raw`: one
/// less than `raw` (so -1 where there is no match), and, unless the index is
/// to be kept raw, less the padding zeros before the match.
pub open spec fn found_index(content: Seq<u8>, raw: u16, keep_raw: bool) -> i16 {
    let shift = if keep_raw {
        0i16
    } else {
        wrap_i16(bit(raw > 1) * wrap_i16(zeros_before(content, raw, content.len() as int) as int))
    };
    wrap_i16(wrap_i16(wrap_i16(raw as int) - shift) - 1)
}

} // verus!

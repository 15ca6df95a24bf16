//! The nodes of an execution plan.
//!
//! A plan is a set of [`Execution`] nodes.  A node is identified by its
//! structure: two nodes built along different paths are the same node as soon
//! as they are equal as values, and a plan then evaluates them once.
use vstd::prelude::*;

verus! {

/// What a content byte is compared with.
#[derive(Debug, Copy, Clone, PartialEq, Eq, Hash, Structural)]
pub enum PatternId {
    /// The literal zero: the content byte is padding.
    Zero,
    /// The byte of an encrypted pattern at this position.
    Index(usize),
    /// This clear byte.
    Byte(u8),
}

/// A node of an execution plan.
#[derive(Debug, PartialEq, Eq, Hash)]
pub enum Execution {
    /// Is the content byte at this position equal to what the id names?
    Eq(usize, PatternId),
    /// Conjunction of two boolean nodes.
    And { l_res: Box<Execution>, r_res: Box<Execution> },
    /// Disjunction of two boolean nodes.
    Or { l_res: Box<Execution>, r_res: Box<Execution> },
    /// The 1-based index `c_pos + 1` if the pattern, from `p_pos` on, matches
    /// the content from `c_pos` on and the content byte at `c_pos` is no
    /// padding; zero otherwise.
    IndexMatch { c_pos: usize, p_pos: usize },
    /// Does the pattern, from `p_pos` on, match the content from `c_pos` on?
    PatternMatch { c_pos: usize, p_pos: usize },
    /// The left index if it is not zero, else the right index.
    StartIndex { l_res: Box<Execution>, r_res: Box<Execution> },
}

/// The three ways of folding a row of nodes into one.
#[derive(Debug, Copy, Clone, PartialEq, Eq, Structural)]
pub enum FoldKind {
    And,
    Or,
    StartIndex,
}

/// A fold of nodes, kept as a tree so that it can be walked node by node.
#[derive(Debug)]
pub enum ExecutionTree {
    Leaf(Execution),
    Node { op: Execution, left: Box<ExecutionTree>, right: Box<ExecutionTree> },
}

/// The node that folds `l` and `r` in the way `kind` names.
pub open spec fn fold_node(kind: FoldKind, l: Execution, r: Execution) -> Execution {
    match kind {
        FoldKind::And => Execution::And { l_res: Box::new(l), r_res: Box::new(r) },
        FoldKind::Or => Execution::Or { l_res: Box::new(l), r_res: Box::new(r) },
        FoldKind::StartIndex => Execution::StartIndex { l_res: Box::new(l), r_res: Box::new(r) },
    }
}

impl Execution {
    /// Does the node yield an index (and not a boolean)?
    pub open spec fn yields_index(self) -> bool {
        self is IndexMatch || self is StartIndex
    }

    /// Is the node a fold of two operands?
    pub open spec fn is_fold(self) -> bool {
        self is And || self is Or || self is StartIndex
    }

    /// The left operand of a fold.
    pub open spec fn left(self) -> Execution {
        match self {
            Execution::And { l_res, .. } => *l_res,
            Execution::Or { l_res, .. } => *l_res,
            Execution::StartIndex { l_res, .. } => *l_res,
            _ => self,
        }
    }

    /// The right operand of a fold.
    pub open spec fn right(self) -> Execution {
        match self {
            Execution::And { r_res, .. } => *r_res,
            Execution::Or { r_res, .. } => *r_res,
            Execution::StartIndex { r_res, .. } => *r_res,
            _ => self,
        }
    }

    /// Structural equality.
    pub fn same(&self, other: &Execution) -> (b: bool)
        ensures
            b == (*self == *other),
        decreases *self,
    {
        match self {
            Execution::Eq(c, id) => match other {
                Execution::Eq(c2, id2) => *c == *c2 && *id == *id2,
                _ => false,
            },
            Execution::And { l_res, r_res } => match other {
                Execution::And { l_res: l2, r_res: r2 } => l_res.same(l2) && r_res.same(r2),
                _ => false,
            },
            Execution::Or { l_res, r_res } => match other {
                Execution::Or { l_res: l2, r_res: r2 } => l_res.same(l2) && r_res.same(r2),
                _ => false,
            },
            Execution::IndexMatch { c_pos, p_pos } => match other {
                Execution::IndexMatch { c_pos: c_other, p_pos: p_other } => *c_pos == *c_other && *p_pos == *p_other,
                _ => false,
            },
            Execution::PatternMatch { c_pos, p_pos } => match other {
                Execution::PatternMatch { c_pos: c_other, p_pos: p_other } => *c_pos == *c_other && *p_pos == *p_other,
                _ => false,
            },
            Execution::StartIndex { l_res, r_res } => match other {
                Execution::StartIndex { l_res: l2, r_res: r2 } => l_res.same(l2) && r_res.same(r2),
                _ => false,
            },
        }
    }

    /// A copy of the node.
    pub fn duplicate(&self) -> (copy: Execution)
        ensures
            copy == *self,
        decreases *self,
    {
        match self {
            Execution::Eq(c, id) => Execution::Eq(*c, *id),
            Execution::And { l_res, r_res } => Execution::And {
                l_res: Box::new(l_res.duplicate()),
                r_res: Box::new(r_res.duplicate()),
            },
            Execution::Or { l_res, r_res } => Execution::Or {
                l_res: Box::new(l_res.duplicate()),
                r_res: Box::new(r_res.duplicate()),
            },
            Execution::IndexMatch { c_pos, p_pos } => Execution::IndexMatch {
                c_pos: *c_pos,
                p_pos: *p_pos,
            },
            Execution::PatternMatch { c_pos, p_pos } => Execution::PatternMatch {
                c_pos: *c_pos,
                p_pos: *p_pos,
            },
            Execution::StartIndex { l_res, r_res } => Execution::StartIndex {
                l_res: Box::new(l_res.duplicate()),
                r_res: Box::new(r_res.duplicate()),
            },
        }
    }
}

impl Clone for Execution {
    fn clone(&self) -> (copy: Self)
        ensures
            copy == *self,
    {
        self.duplicate()
    }
}

impl FoldKind {
    /// Builds the node that folds `l_res` and `r_res`.
    pub fn make(self, l_res: Execution, r_res: Execution) -> (op: Execution)
        ensures
            op == fold_node(self, l_res, r_res),
    {
        match self {
            FoldKind::And => Execution::And { l_res: Box::new(l_res), r_res: Box::new(r_res) },
            FoldKind::Or => Execution::Or { l_res: Box::new(l_res), r_res: Box::new(r_res) },
            FoldKind::StartIndex => Execution::StartIndex {
                l_res: Box::new(l_res),
                r_res: Box::new(r_res),
            },
        }
    }
}

impl ExecutionTree {
    /// The node at the root of the tree.
    pub open spec fn op(self) -> Execution {
        match self {
            ExecutionTree::Leaf(ex) => ex,
            ExecutionTree::Node { op, .. } => op,
        }
    }

    /// The tree that joins `l` and `r` under a fold of kind `kind`.
    pub open spec fn join(kind: FoldKind, l: ExecutionTree, r: ExecutionTree) -> ExecutionTree {
        ExecutionTree::Node {
            op: fold_node(kind, l.op(), r.op()),
            left: Box::new(l),
            right: Box::new(r),
        }
    }

    /// Every inner node of the tree is a fold of the roots of its two
    /// subtrees, and no leaf is a fold.
    pub open spec fn wf(self) -> bool
        decreases self,
    {
        match self {
            ExecutionTree::Leaf(ex) => !ex.is_fold(),
            ExecutionTree::Node { op, left, right } => {
                &&& op.is_fold()
                &&& op.left() == left.op()
                &&& op.right() == right.op()
                &&& left.wf()
                &&& right.wf()
            },
        }
    }

    /// A copy of the tree.
    pub fn duplicate(&self) -> (copy: ExecutionTree)
        ensures
            copy == *self,
        decreases *self,
    {
        match self {
            ExecutionTree::Leaf(ex) => ExecutionTree::Leaf(ex.duplicate()),
            ExecutionTree::Node { op, left, right } => ExecutionTree::Node {
                op: op.duplicate(),
                left: Box::new(left.duplicate()),
                right: Box::new(right.duplicate()),
            },
        }
    }
}

} // verus!

use vstd::prelude::*;

use crate::lexer::{Token, TokenKind};
use crate::parser::AST;

verus! {

/// A node of an expression tree.
#[derive(Debug, PartialEq)]
pub enum Expr<T> {
    /// An operator, with its operands as children.
    Operator(Token<T>),
    /// A single operand.
    Operand(Token<T>),
    /// A run of tokens with no known operator in it, left for another parser.
    Unknown(Vec<Token<T>>),
}

/// Where an operator stands with respect to its operands.
#[derive(Debug, PartialEq, Eq, Hash, Clone, Copy, Structural)]
pub enum Position {
    /// Before its one operand (`-a`).
    Prefix,
    /// Between its two operands (`a - b`).
    Infix,
    /// After its one operand (`a!`).
    Sufix,
}

/// An operator: a kind of token and where it stands.
#[derive(Debug, PartialEq, Eq, Hash, Clone, Copy)]
pub struct Operator<T> {
    pub kind: T,
    pub position: Position,
}

/// The shape that a parse gives to a run of tokens.
pub enum ExprShape<T> {
    /// A leaf holding one operand.
    Operand(Token<T>),
    /// A leaf holding tokens with no known operator among them.
    Unknown(Seq<Token<T>>),
    /// An operator with one operand.
    Unary(Token<T>, Box<ExprShape<T>>),
    /// An operator with two operands, left then right.
    Binary(Token<T>, Box<ExprShape<T>>, Box<ExprShape<T>>),
}

/// Whether the tree `t` has the shape `s`.
pub open spec fn has_shape<T>(t: AST<Expr<T>>, s: ExprShape<T>) -> bool
    decreases s,
{
    match s {
        ExprShape::Operand(tok) => t.kind == Expr::Operand(tok) && t.children@.len() == 0,
        ExprShape::Unknown(toks) => {
            &&& t.kind is Unknown
            &&& t.kind->Unknown_0@ == toks
            &&& t.children@.len() == 0
        },
        ExprShape::Unary(tok, a) => {
            &&& t.kind == Expr::Operator(tok)
            &&& t.children@.len() == 1
            &&& has_shape(t.children@[0], *a)
        },
        ExprShape::Binary(tok, a, b) => {
            &&& t.kind == Expr::Operator(tok)
            &&& t.children@.len() == 2
            &&& has_shape(t.children@[0], *a)
            &&& has_shape(t.children@[1], *b)
        },
    }
}

/// The first entry of the table from `k` on whose operator has this kind.
pub open spec fn op_lookup<T>(ops: Seq<(Operator<T>, usize)>, kind: T, k: int) -> Option<int>
    decreases ops.len() - k,
{
    if k < 0 || k >= ops.len() {
        None
    } else if ops[k].0.kind == kind {
        Some(k)
    } else {
        op_lookup(ops, kind, k + 1)
    }
}

/// Whether tokens of this kind are operators.
pub open spec fn is_operator<T>(ops: Seq<(Operator<T>, usize)>, kind: T) -> bool {
    op_lookup(ops, kind, 0) is Some
}

/// The operator, and its priority, that tokens of this kind stand for.
pub open spec fn operator_of<T>(ops: Seq<(Operator<T>, usize)>, kind: T) -> (Operator<T>, usize) {
    ops[op_lookup(ops, kind, 0)->0]
}

/// How a token of this kind changes the grouping depth.
pub open spec fn depth_delta<T>(g: Option<(T, T)>, kind: T) -> int {
    match g {
        Some((open, close)) => if kind == open {
            1
        } else if kind == close {
            -1
        } else {
            0
        },
        None => 0,
    }
}

/// Whether tokens of this kind open or close a group.
pub open spec fn is_delimiter<T>(g: Option<(T, T)>, kind: T) -> bool {
    depth_delta(g, kind) != 0
}

/// The grouping depth after the first `n` tokens.
pub open spec fn depth<T>(g: Option<(T, T)>, toks: Seq<Token<T>>, n: int) -> int
    decreases n,
{
    if n <= 0 {
        0
    } else {
        depth(g, toks, n - 1) + depth_delta(g, toks[n - 1].kind)
    }
}

/// Groups are balanced: the depth never drops below zero and ends at zero.
pub open spec fn balanced<T>(g: Option<(T, T)>, toks: Seq<Token<T>>) -> bool {
    &&& forall|n: int| 0 <= n <= toks.len() ==> depth(g, toks, n) >= 0
    &&& depth(g, toks, toks.len() as int) == 0
}

/// The whole run is one group: the depth stays at one or more until the very end.
pub open spec fn wrapped<T>(g: Option<(T, T)>, toks: Seq<Token<T>>) -> bool {
    &&& g is Some
    &&& toks.len() >= 2
    &&& forall|n: int| 1 <= n < toks.len() ==> depth(g, toks, n) >= 1
}

/// Whether the token at `i` is an operator that the split may take.
pub open spec fn split_candidate<T>(
    ops: Seq<(Operator<T>, usize)>,
    g: Option<(T, T)>,
    toks: Seq<Token<T>>,
    i: int,
) -> bool {
    0 <= i < toks.len() && !is_delimiter(g, toks[i].kind) && is_operator(ops, toks[i].kind)
}

/// The operator at `i` binds no tighter than the one at `j`: it is less
/// deeply grouped, or as deep with a priority no higher.
pub open spec fn binds_no_tighter<T>(
    ops: Seq<(Operator<T>, usize)>,
    g: Option<(T, T)>,
    toks: Seq<Token<T>>,
    i: int,
    j: int,
) -> bool {
    ||| depth(g, toks, i) < depth(g, toks, j)
    ||| (depth(g, toks, i) == depth(g, toks, j) && operator_of(ops, toks[i].kind).1
        <= operator_of(ops, toks[j].kind).1)
}

/// Among the first `n` tokens, the operator that binds least tightly; of
/// several such, the last.
pub open spec fn split_point<T>(
    ops: Seq<(Operator<T>, usize)>,
    g: Option<(T, T)>,
    toks: Seq<Token<T>>,
    n: int,
) -> Option<int>
    decreases n,
{
    if n <= 0 {
        None
    } else {
        let best = split_point(ops, g, toks, n - 1);
        if split_candidate(ops, g, toks, n - 1) && (best is None || binds_no_tighter(
            ops,
            g,
            toks,
            n - 1,
            best->0,
        )) {
            Some(n - 1)
        } else {
            best
        }
    }
}

/// The shape of the expression that a run of tokens parses into, if any.
pub open spec fn expr_shape<T>(
    ops: Seq<(Operator<T>, usize)>,
    g: Option<(T, T)>,
    toks: Seq<Token<T>>,
) -> Option<ExprShape<T>>
    decreases toks.len(),
{
    if toks.len() == 0 {
        None
    } else if toks.len() == 1 {
        if is_operator(ops, toks[0].kind) {
            None
        } else {
            Some(ExprShape::Operand(toks[0]))
        }
    } else if !balanced(g, toks) {
        None
    } else if wrapped(g, toks) {
        expr_shape(ops, g, toks.subrange(1, toks.len() - 1))
    } else {
        match split_point(ops, g, toks, toks.len() as int) {
            None => Some(ExprShape::Unknown(toks)),
            Some(i) => if !(0 <= i < toks.len()) {
                None
            } else {
                let tok = toks[i];
                let left = toks.subrange(0, i);
                let right = toks.subrange(i + 1, toks.len() as int);
                match operator_of(ops, tok.kind).0.position {
                    Position::Prefix => if i != 0 {
                        None
                    } else {
                        match expr_shape(ops, g, right) {
                            Some(r) => Some(ExprShape::Unary(tok, Box::new(r))),
                            None => None,
                        }
                    },
                    Position::Sufix => if i != toks.len() - 1 {
                        None
                    } else {
                        match expr_shape(ops, g, left) {
                            Some(l) => Some(ExprShape::Unary(tok, Box::new(l))),
                            None => None,
                        }
                    },
                    Position::Infix => {
                        let l = expr_shape(ops, g, left);
                        let r = expr_shape(ops, g, right);
                        match (l, r) {
                            (None, None) => None,
                            (Some(a), None) => Some(ExprShape::Unary(tok, Box::new(a))),
                            (None, Some(b)) => Some(ExprShape::Unary(tok, Box::new(b))),
                            (Some(a), Some(b)) => Some(
                                ExprShape::Binary(tok, Box::new(a), Box::new(b)),
                            ),
                        }
                    },
                }
            },
        }
    }
}


proof fn lemma_split_point_candidate<T>(
    ops: Seq<(Operator<T>, usize)>,
    g: Option<(T, T)>,
    toks: Seq<Token<T>>,
    n: int,
)
    ensures
        split_point(ops, g, toks, n) matches Some(i) ==> 0 <= i < n && split_candidate(
            ops,
            g,
            toks,
            i,
        ),
    decreases n,
{
    if n > 0 {
        lemma_split_point_candidate(ops, g, toks, n - 1);
    }
}

/// A parser of expressions: it splits a run of tokens at the operator that
/// binds least tightly, and parses each side in turn. An operator inside
/// more groups always binds tighter than one inside fewer, whatever their
/// priorities; at equal depth the lower priority binds less tightly, and of
/// equals the last one is the split, so chains lean to the left.
pub struct ExpressionParser<T: TokenKind> {
    /// Known operators with their priorities, in order of registration.
    operators: Vec<(Operator<T>, usize)>,
    /// The tokens that open and close a group of higher priority.
    high_priority_group: Option<(T, T)>,
}

impl<T: TokenKind> ExpressionParser<T> {
    /// The operator table, in order of registration.
    pub closed spec fn table(&self) -> Seq<(Operator<T>, usize)> {
        self.operators@
    }

    /// The kinds that open and close a group, if set.
    pub closed spec fn grouping(&self) -> Option<(T, T)> {
        self.high_priority_group
    }

    /// A parser that knows no operator and no grouping.
    pub fn new() -> (r: Self)
        ensures
            r.table() == Seq::<(Operator<T>, usize)>::empty(),
            r.grouping() is None,
    {
        ExpressionParser { operators: Vec::new(), high_priority_group: None }
    }

    /// Adds an operator with its priority; an operator already known keeps
    /// its place and takes the new priority.
    pub fn add_operator(&mut self, operator: Operator<T>, priority: usize)
        ensures
            final(self).grouping() == old(self).grouping(),
            (exists|k: int|
                0 <= k < old(self).table().len() && old(self).table()[k].0 == operator)
                ==> exists|k: int|
                0 <= k < old(self).table().len() && old(self).table()[k].0 == operator
                    && final(self).table() == old(self).table().update(k, (operator, priority)),
            (forall|k: int|
                0 <= k < old(self).table().len() ==> old(self).table()[k].0 != operator)
                ==> final(self).table() == old(self).table().push((operator, priority)),
    {
        let mut k: usize = 0;
        while k < self.operators.len()
            invariant
                k <= self.operators@.len(),
                self.operators@ == old(self).operators@,
                self.high_priority_group == old(self).high_priority_group,
                forall|j: int| 0 <= j < k ==> self.operators@[j].0 != operator,
            decreases self.operators@.len() - k,
        {
            let known = self.operators[k].0;
            if known.kind.equals(&operator.kind) && known.position == operator.position {
                self.operators.set(k, (operator, priority));
                return;
            }
            k = k + 1;
        }
        self.operators.push((operator, priority));
    }

    /// Sets the kinds of the tokens that open and close a group of higher priority.
    pub fn set_high_priority_group(&mut self, start: T, end: T)
        ensures
            final(self).grouping() == Some((start, end)),
            final(self).table() == old(self).table(),
    {
        self.high_priority_group = Some((start, end));
    }

    /// The first entry of the table for tokens of this kind.
    fn lookup(&self, kind: &T) -> (r: Option<usize>)
        ensures
            r matches Some(k) ==> k < self.table().len(),
            match r {
                Some(k) => op_lookup(self.table(), *kind, 0) == Some(k as int),
                None => op_lookup(self.table(), *kind, 0) is None,
            },
    {
        let mut k: usize = 0;
        while k < self.operators.len()
            invariant
                k <= self.operators@.len(),
                op_lookup(self.table(), *kind, 0) == op_lookup(self.table(), *kind, k as int),
            decreases self.operators@.len() - k,
        {
            if self.operators[k].0.kind.equals(kind) {
                return Some(k);
            }
            k = k + 1;
        }
        None
    }

    /// How a token of this kind changes the grouping depth: 1 for an
    /// opening token, 2 for a closing one, 0 for any other.
    fn delimiter(&self, kind: &T) -> (r: u8)
        ensures
            r == 0 <==> depth_delta(self.grouping(), *kind) == 0,
            r == 1 <==> depth_delta(self.grouping(), *kind) == 1,
            r == 2 <==> depth_delta(self.grouping(), *kind) == -1,
    {
        match &self.high_priority_group {
            Some((open, close)) => if open.equals(kind) {
                1
            } else if close.equals(kind) {
                2
            } else {
                0
            },
            None => 0,
        }
    }

    /// Whether the groups in the candidates are balanced.
    fn check_groups_validity(&self, candidates: &[Token<T>]) -> (r: bool)
        ensures
            r == balanced(self.grouping(), candidates@),
    {
        let ghost g = self.grouping();
        let ghost toks = candidates@;
        let mut open_groups: usize = 0;
        let mut i: usize = 0;
        while i < candidates.len()
            invariant
                g == self.grouping(),
                toks == candidates@,
                i <= toks.len(),
                open_groups == depth(g, toks, i as int),
                open_groups <= i,
                forall|n: int| 0 <= n <= i ==> depth(g, toks, n) >= 0,
            decreases toks.len() - i,
        {
            let d = self.delimiter(&candidates[i].kind);
            if d == 1 {
                open_groups = open_groups + 1;
            } else if d == 2 {
                if open_groups == 0 {
                    assert(depth(g, toks, i + 1) < 0);
                    return false;
                }
                open_groups = open_groups - 1;
            }
            i = i + 1;
        }
        open_groups == 0
    }

    /// Whether the candidates form one group around everything.
    fn is_in_group(&self, candidates: &[Token<T>]) -> (r: bool)
        ensures
            r == wrapped(self.grouping(), candidates@),
    {
        let ghost g = self.grouping();
        let ghost toks = candidates@;
        if self.high_priority_group.is_none() || candidates.len() < 2 {
            return false;
        }
        let mut open_groups: usize = 0;
        let mut i: usize = 0;
        while i < candidates.len() - 1
            invariant
                g == self.grouping(),
                toks == candidates@,
                toks.len() >= 2,
                i < toks.len(),
                open_groups == depth(g, toks, i as int),
                open_groups <= i,
                forall|n: int| 1 <= n <= i ==> depth(g, toks, n) >= 1,
            decreases toks.len() - i,
        {
            let d = self.delimiter(&candidates[i].kind);
            if d == 1 {
                open_groups = open_groups + 1;
            } else if d == 2 {
                if open_groups == 0 {
                    assert(1 <= i + 1 < toks.len() && depth(g, toks, i + 1) < 1);
                    return false;
                }
                open_groups = open_groups - 1;
            }
            i = i + 1;
            if open_groups < 1 {
                assert(1 <= i < toks.len() && depth(g, toks, i as int) < 1);
                return false;
            }
        }
        true
    }

    /// The position of the operator that binds least tightly; of several
    /// such, the last.
    fn find_min_priority(&self, candidates: &[Token<T>]) -> (r: Option<usize>)
        ensures
            r matches Some(i) ==> i < candidates@.len(),
            balanced(self.grouping(), candidates@) ==> match r {
                Some(i) => split_point(
                    self.table(),
                    self.grouping(),
                    candidates@,
                    candidates@.len() as int,
                ) == Some(i as int),
                None => split_point(
                    self.table(),
                    self.grouping(),
                    candidates@,
                    candidates@.len() as int,
                ) is None,
            },
    {
        let ghost g = self.grouping();
        let ghost ops = self.table();
        let ghost toks = candidates@;
        let mut level: usize = 0;
        let mut best: Option<usize> = None;
        let mut best_level: usize = 0;
        let mut best_priority: usize = 0;
        let mut i: usize = 0;
        while i < candidates.len()
            invariant
                g == self.grouping(),
                ops == self.table(),
                toks == candidates@,
                i <= toks.len(),
                level <= i,
                best matches Some(b) ==> b < i,
                balanced(g, toks) ==> level == depth(g, toks, i as int),
                balanced(g, toks) ==> match best {
                    Some(b) => {
                        &&& split_point(ops, g, toks, i as int) == Some(b as int)
                        &&& best_level == depth(g, toks, b as int)
                        &&& best_priority == operator_of(ops, toks[b as int].kind).1
                    },
                    None => split_point(ops, g, toks, i as int) is None,
                },
            decreases toks.len() - i,
        {
            let d = self.delimiter(&candidates[i].kind);
            if d == 1 {
                level = level + 1;
            } else if d == 2 {
                // A closing token with no group open leaves the depth at zero.
                if level > 0 {
                    level = level - 1;
                }
                proof {
                    if balanced(g, toks) {
                        assert(depth(g, toks, i + 1) >= 0);
                    }
                }
            } else {
                match self.lookup(&candidates[i].kind) {
                    Some(k) => {
                        let priority = self.operators[k].1;
                        let take = match best {
                            None => true,
                            Some(_) => level < best_level || (level == best_level && priority
                                <= best_priority),
                        };
                        if take {
                            best = Some(i);
                            best_level = level;
                            best_priority = priority;
                        }
                    },
                    None => {},
                }
            }
            i = i + 1;
        }
        best
    }

    /// Parses an expression: `None` where the tokens do not form one.
    pub fn parse(&self, candidates: &[Token<T>]) -> (r: Option<AST<Expr<T>>>)
        ensures
            match r {
                Some(t) => {
                    &&& expr_shape(self.table(), self.grouping(), candidates@) is Some
                    &&& has_shape(t, expr_shape(self.table(), self.grouping(), candidates@)->0)
                },
                None => expr_shape(self.table(), self.grouping(), candidates@) is None,
            },
        decreases candidates@.len(),
    {
        let ghost ops = self.table();
        let ghost g = self.grouping();
        let ghost toks = candidates@;
        let len = candidates.len();
        if len == 0 {
            return None;
        }
        if len == 1 {
            if self.lookup(&candidates[0].kind).is_some() {
                return None;
            }
            return Some(AST { kind: Expr::Operand(candidates[0].duplicate()), children: Vec::new() });
        }
        if !self.check_groups_validity(candidates) {
            return None;
        }
        if self.is_in_group(candidates) {
            return self.parse(&candidates[1..len - 1]);
        }
        match self.find_min_priority(candidates) {
            None => Some(AST { kind: Expr::Unknown(Self::copy_tokens(candidates)), children: Vec::new() }),
            Some(i) => {
                proof {
                    lemma_split_point_candidate(ops, g, toks, len as int);
                }
                let k = match self.lookup(&candidates[i].kind) {
                    Some(k) => k,
                    None => {
                        return None;
                    },
                };
                let op = self.operators[k].0;
                let tok = candidates[i].duplicate();
                let mut children: Vec<AST<Expr<T>>> = Vec::new();
                match op.position {
                    Position::Prefix => {
                        if i != 0 {
                            return None;
                        }
                        match self.parse(&candidates[1..len]) {
                            Some(right) => children.push(right),
                            None => {
                                return None;
                            },
                        }
                    },
                    Position::Sufix => {
                        if i != len - 1 {
                            return None;
                        }
                        match self.parse(&candidates[0..i]) {
                            Some(left) => children.push(left),
                            None => {
                                return None;
                            },
                        }
                    },
                    Position::Infix => {
                        let left = self.parse(&candidates[0..i]);
                        let right = self.parse(&candidates[i + 1..len]);
                        if left.is_none() && right.is_none() {
                            return None;
                        }
                        match left {
                            Some(l) => children.push(l),
                            None => {},
                        }
                        match right {
                            Some(r) => children.push(r),
                            None => {},
                        }
                    },
                }
                Some(AST { kind: Expr::Operator(tok), children })
            },
        }
    }

    /// The same tokens as a vector.
    fn copy_tokens(candidates: &[Token<T>]) -> (r: Vec<Token<T>>)
        ensures
            r@ == candidates@,
    {
        let mut r: Vec<Token<T>> = Vec::new();
        let mut i: usize = 0;
        while i < candidates.len()
            invariant
                i <= candidates@.len(),
                r@ == candidates@.subrange(0, i as int),
            decreases candidates@.len() - i,
        {
            r.push(candidates[i].duplicate());
            i = i + 1;
        }
        assert(r@ =~= candidates@);
        r
    }
}


proof fn lemma_depth_in_group<T>(g: Option<(T, T)>, toks: Seq<Token<T>>, open: Token<T>, close: Token<T>, n: int)
    requires
        g == Some((open.kind, close.kind)),
        1 <= n <= toks.len() + 1,
    ensures
        depth(g, seq![open] + toks + seq![close], n) == 1 + depth(g, toks, n - 1),
    decreases n,
{
    let w = seq![open] + toks + seq![close];
    if n > 1 {
        lemma_depth_in_group(g, toks, open, close, n - 1);
        assert(w[n - 1] == toks[n - 2]);
        assert(depth(g, w, n) == depth(g, w, n - 1) + depth_delta(g, w[n - 1].kind));
        assert(depth(g, toks, n - 1) == depth(g, toks, n - 2) + depth_delta(g, toks[n - 2].kind));
    } else {
        assert(w[0] == open);
        assert(depth(g, w, 0) == 0);
        assert(depth(g, w, 1) == depth(g, w, 0) + depth_delta(g, w[0].kind));
    }
}

/// Wrapping an expression whose groups are balanced in one more pair of
/// grouping tokens leaves its parse unchanged: the extra group is stripped.
pub proof fn lemma_redundant_group<T: TokenKind>(
    p: ExpressionParser<T>,
    toks: Seq<Token<T>>,
    open: Token<T>,
    close: Token<T>,
)
    requires
        p.grouping() == Some((open.kind, close.kind)),
        open.kind != close.kind,
        balanced(p.grouping(), toks),
        expr_shape(p.table(), p.grouping(), toks) is Some,
    ensures
        expr_shape(p.table(), p.grouping(), seq![open] + toks + seq![close]) == expr_shape(
            p.table(),
            p.grouping(),
            toks,
        ),
{
    let g = p.grouping();
    let w = seq![open] + toks + seq![close];
    let len = toks.len() as int;
    assert forall|n: int| 1 <= n <= len + 1 implies depth(g, w, n) == 1 + depth(g, toks, n - 1) by {
        lemma_depth_in_group(g, toks, open, close, n);
    }
    assert(w[len + 1] == close);
    assert(depth(g, w, len + 2) == depth(g, w, len + 1) + depth_delta(g, close.kind));
    assert(depth(g, w, len + 2) == 0);
    assert(balanced(g, w));
    assert(wrapped(g, w));
    assert(w.subrange(1, w.len() - 1) =~= toks);
}

/// Operands at the even positions, operators at the odd ones: every operator
/// infix and of priority `prio`, and no grouping token anywhere.
pub open spec fn infix_chain<T>(
    ops: Seq<(Operator<T>, usize)>,
    g: Option<(T, T)>,
    toks: Seq<Token<T>>,
    prio: usize,
) -> bool {
    &&& toks.len() % 2 == 1
    &&& forall|i: int| 0 <= i < toks.len() ==> !is_delimiter(g, #[trigger] toks[i].kind)
    &&& forall|i: int|
        0 <= i < toks.len() && i % 2 == 0 ==> !is_operator(ops, #[trigger] toks[i].kind)
    &&& forall|i: int|
        0 <= i < toks.len() && i % 2 == 1 ==> {
            &&& is_operator(ops, #[trigger] toks[i].kind)
            &&& operator_of(ops, toks[i].kind).0.position == Position::Infix
            &&& operator_of(ops, toks[i].kind).1 == prio
        }
}

/// The left-leaning tree over the first `2m + 1` tokens of a chain:
/// `((x0 op1 x1) op2 x2) ... opm xm`.
pub open spec fn left_chain<T>(toks: Seq<Token<T>>, m: int) -> ExprShape<T>
    decreases m,
{
    if m <= 0 {
        ExprShape::Operand(toks[0])
    } else {
        ExprShape::Binary(
            toks[2 * m - 1],
            Box::new(left_chain(toks, m - 1)),
            Box::new(ExprShape::Operand(toks[2 * m])),
        )
    }
}

/// The number of operators on the longest path from the root to a leaf.
pub open spec fn shape_height<T>(s: ExprShape<T>) -> nat
    decreases s,
{
    match s {
        ExprShape::Operand(_) => 0,
        ExprShape::Unknown(_) => 0,
        ExprShape::Unary(_, a) => 1 + shape_height(*a),
        ExprShape::Binary(_, a, b) => 1 + if shape_height(*a) >= shape_height(*b) {
            shape_height(*a)
        } else {
            shape_height(*b)
        },
    }
}

proof fn lemma_left_chain_height<T>(toks: Seq<Token<T>>, m: int)
    requires
        m >= 0,
    ensures
        shape_height(left_chain(toks, m)) == m,
    decreases m,
{
    if m > 0 {
        lemma_left_chain_height(toks, m - 1);
        let a = left_chain(toks, m - 1);
        let b = ExprShape::<T>::Operand(toks[2 * m]);
        assert(shape_height(b) == 0);
        assert(left_chain(toks, m) == ExprShape::Binary(toks[2 * m - 1], Box::new(a), Box::new(b)));
    }
}

proof fn lemma_depth_flat<T>(g: Option<(T, T)>, toks: Seq<Token<T>>, n: int)
    requires
        0 <= n <= toks.len(),
        forall|i: int| 0 <= i < toks.len() ==> !is_delimiter(g, #[trigger] toks[i].kind),
    ensures
        depth(g, toks, n) == 0,
    decreases n,
{
    if n > 0 {
        lemma_depth_flat(g, toks, n - 1);
        assert(!is_delimiter(g, toks[n - 1].kind));
    }
}

proof fn lemma_chain_split<T>(
    ops: Seq<(Operator<T>, usize)>,
    g: Option<(T, T)>,
    toks: Seq<Token<T>>,
    prio: usize,
    n: int,
)
    requires
        infix_chain(ops, g, toks, prio),
        0 <= n <= toks.len(),
    ensures
        split_point(ops, g, toks, n) == (if n < 2 {
            None
        } else if (n - 1) % 2 == 1 {
            Some(n - 1)
        } else {
            Some(n - 2)
        }),
    decreases n,
{
    if n > 0 {
        lemma_chain_split(ops, g, toks, prio, n - 1);
        let i = n - 1;
        assert(!is_delimiter(g, toks[i].kind));
        if i % 2 == 1 {
            assert(is_operator(ops, toks[i].kind));
            lemma_depth_flat(g, toks, i);
            if n >= 3 {
                let b = n - 2 - 1;
                assert(b % 2 == 1);
                assert(is_operator(ops, toks[b].kind));
                lemma_depth_flat(g, toks, b);
            }
        } else {
            assert(!is_operator(ops, toks[i].kind));
        }
    }
}

proof fn lemma_left_chain_prefix<T>(toks: Seq<Token<T>>, other: Seq<Token<T>>, m: int)
    requires
        m >= 0,
        2 * m + 1 <= toks.len(),
        2 * m + 1 <= other.len(),
        forall|i: int| 0 <= i < 2 * m + 1 ==> toks[i] == other[i],
    ensures
        left_chain(toks, m) == left_chain(other, m),
    decreases m,
{
    if m > 0 {
        lemma_left_chain_prefix(toks, other, m - 1);
        assert(toks[2 * m - 1] == other[2 * m - 1]);
        assert(toks[2 * m] == other[2 * m]);
    } else {
        assert(toks[0] == other[0]);
    }
}

proof fn lemma_chain_shape<T>(
    ops: Seq<(Operator<T>, usize)>,
    g: Option<(T, T)>,
    toks: Seq<Token<T>>,
    prio: usize,
)
    requires
        infix_chain(ops, g, toks, prio),
    ensures
        expr_shape(ops, g, toks) == Some(left_chain(toks, (toks.len() - 1) / 2)),
    decreases toks.len(),
{
    let len = toks.len() as int;
    let m = (len - 1) / 2;
    if len == 1 {
        assert(!is_operator(ops, toks[0].kind));
    } else {
        assert forall|n: int| 0 <= n <= len implies depth(g, toks, n) == 0 by {
            lemma_depth_flat(g, toks, n);
        }
        assert(balanced(g, toks));
        assert(!wrapped(g, toks)) by {
            assert(depth(g, toks, 1) == 0);
        }
        lemma_chain_split(ops, g, toks, prio, len);
        let i = len - 2;
        assert(i % 2 == 1);
        assert(is_operator(ops, toks[i].kind));
        let left = toks.subrange(0, i);
        let right = toks.subrange(i + 1, len);
        assert forall|j: int| 0 <= j < left.len() implies #[trigger] left[j] == toks[j] by {}
        assert(infix_chain(ops, g, left, prio)) by {
            assert forall|j: int| 0 <= j < left.len() implies !is_delimiter(g, #[trigger] left[j].kind) by {
                assert(left[j] == toks[j]);
                assert(!is_delimiter(g, toks[j].kind));
            }
            assert forall|j: int| 0 <= j < left.len() && j % 2 == 0 implies !is_operator(ops, #[trigger] left[j].kind) by {
                assert(left[j] == toks[j]);
                assert(!is_operator(ops, toks[j].kind));
            }
            assert forall|j: int| 0 <= j < left.len() && j % 2 == 1 implies {
                &&& is_operator(ops, #[trigger] left[j].kind)
                &&& operator_of(ops, left[j].kind).0.position == Position::Infix
                &&& operator_of(ops, left[j].kind).1 == prio
            } by {
                assert(left[j] == toks[j]);
                assert(is_operator(ops, toks[j].kind));
            }
        }
        lemma_chain_shape(ops, g, left, prio);
        lemma_left_chain_prefix(left, toks, m - 1);
        assert(right.len() == 1);
        assert(right[0] == toks[len - 1]);
        assert(!is_operator(ops, toks[len - 1].kind));
        assert(expr_shape(ops, g, right) == Some(ExprShape::Operand(toks[len - 1])));
    }
}

/// Operands joined by infix operators of one priority parse as a tree that
/// leans to the left, `((a - b) - c) - d`, whose height is the number of
/// operators.
pub proof fn lemma_left_associative<T: TokenKind>(
    p: ExpressionParser<T>,
    toks: Seq<Token<T>>,
    prio: usize,
)
    requires
        infix_chain(p.table(), p.grouping(), toks, prio),
    ensures
        expr_shape(p.table(), p.grouping(), toks) == Some(
            left_chain(toks, (toks.len() - 1) / 2),
        ),
        shape_height(left_chain(toks, (toks.len() - 1) / 2)) == (toks.len() - 1) / 2,
{
    lemma_chain_shape(p.table(), p.grouping(), toks, prio);
    lemma_left_chain_height(toks, (toks.len() - 1) / 2);
}

} // verus!

use neoglot::lexer::{Location, Token, TokenKind};
use neoglot::parser::expression::{Expr, ExpressionParser, Operator, Position};
use neoglot::parser::AST;
use neoglot::regex::Symbol;
use crate::T::{Minus, Mul, Plus, A, B, C, D, L, R};

#[derive(Debug, Hash, Clone, Copy, PartialOrd, PartialEq, Eq)]
enum T {
    L,
    R,
    Plus,
    Minus,
    Mul,
    A,
    B,
    C,
    D,
}

impl Symbol for T {
    fn spec_at_most(self, other: Self) -> bool {
        self <= other
    }

    fn equals(&self, other: &Self) -> bool {
        self == other
    }

    fn at_most(&self, other: &Self) -> bool {
        self <= other
    }
}

impl TokenKind for T {}

fn toks(kinds: &[T]) -> Vec<Token<T>> {
    kinds
        .iter()
        .map(|k| Token { location: Location { file: String::new(), line: 0, column: 0 }, kind: *k, literal: format!("{:?}", k) })
        .collect()
}

fn tok(k: T) -> Token<T> {
    toks(&[k]).remove(0)
}

fn operand(k: T) -> AST<Expr<T>> {
    AST { kind: Expr::Operand(tok(k)), children: vec![] }
}

fn op(k: T, children: Vec<AST<Expr<T>>>) -> AST<Expr<T>> {
    AST { kind: Expr::Operator(tok(k)), children }
}

fn arithmetic() -> ExpressionParser<T> {
    let mut parser = ExpressionParser::new();
    parser.add_operator(Operator { kind: T::Plus, position: Position::Infix }, 1);
    parser.add_operator(Operator { kind: T::Minus, position: Position::Infix }, 1);
    parser.add_operator(Operator { kind: T::Mul, position: Position::Infix }, 2);
    parser.set_high_priority_group(T::L, T::R);
    parser
}

#[test]
fn redundant_group_is_stripped() {
    let parser = arithmetic();
    let bare = parser.parse(&toks(&[A, Minus, B, Mul, C]));
    assert!(bare.is_some());
    assert_eq!(parser.parse(&toks(&[L, A, Minus, B, Mul, C, R])), bare);
    assert_eq!(parser.parse(&toks(&[L, L, A, Minus, B, Mul, C, R, R])), bare);
}

#[test]
fn equal_priorities_lean_left() {
    let parser = arithmetic();
    assert_eq!(
        parser.parse(&toks(&[A, Minus, B, Plus, C, Minus, D])),
        Some(op(Minus, vec![
            op(Plus, vec![op(Minus, vec![operand(A), operand(B)]), operand(C)]),
            operand(D),
        ]))
    );
}

#[test]
fn degenerate_inputs() {
    let parser = arithmetic();
    assert_eq!(parser.parse(&toks(&[])), None);
    assert_eq!(parser.parse(&toks(&[Plus])), None);
    assert_eq!(parser.parse(&toks(&[A])), Some(operand(A)));
    assert_eq!(parser.parse(&toks(&[L, A, Plus, B])), None);
    assert_eq!(parser.parse(&toks(&[R, A, Plus, B, L])), None);
    assert_eq!(parser.parse(&toks(&[L, R])), None);
    assert_eq!(
        parser.parse(&toks(&[A, B])),
        Some(AST { kind: Expr::Unknown(toks(&[A, B])), children: vec![] })
    );
    // An infix operator with one side missing keeps the side it has.
    assert_eq!(parser.parse(&toks(&[Minus, A])), Some(op(Minus, vec![operand(A)])));
}

#[test]
fn groups_separate_side_by_side() {
    let parser = arithmetic();
    // Two groups side by side are not one group around everything.
    assert_eq!(
        parser.parse(&toks(&[L, A, R, Mul, L, B, R])),
        Some(op(Mul, vec![operand(A), operand(B)]))
    );
}

#[test]
fn parser_without_grouping() {
    let mut parser = ExpressionParser::new();
    parser.add_operator(Operator { kind: Plus, position: Position::Infix }, 1);
    assert_eq!(parser.parse(&toks(&[A, Plus, B])), Some(op(Plus, vec![operand(A), operand(B)])));
}

#[test]
fn operator_added_again_takes_new_priority() {
    let mut parser = arithmetic();
    parser.add_operator(Operator { kind: Plus, position: Position::Infix }, 3);
    assert_eq!(
        parser.parse(&toks(&[A, Plus, B, Mul, C])),
        Some(op(Mul, vec![op(Plus, vec![operand(A), operand(B)]), operand(C)]))
    );
}

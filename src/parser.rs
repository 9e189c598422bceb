use vstd::prelude::*;

use crate::lexer::{kinds_of, Location, Token, TokenKind};
use crate::regex::{prefix_len, Regex, Symbol};

/// Operator-precedence parsing of expressions.
pub mod expression;

verus! {

/// A syntax tree: a node of some kind and its children, in order.
#[derive(Debug, PartialEq)]
pub struct AST<K> {
    pub kind: K,
    pub children: Vec<AST<K>>,
}

/// What can go wrong while building syntax trees.
#[derive(Debug, Clone, PartialEq)]
pub enum ParsingError<T> {
    /// Groups are not closed properly.
    InvalidGroups(Location),
    /// No rule could read the tokens from here.
    UnparsedSequence(Location),
    /// A block is opened and never closed.
    UnclosedBlock(Location),
    /// A token other than the one expected, or none at all.
    UnexpectedToken { expected: Option<T>, got: Option<T>, location: Location },
    /// There were no tokens to work on.
    NoTokens,
}

/// What building a forest gives: every tree, or every error.
pub enum ParsingResult<T> {
    /// The errors, in the order they were met; there was at least one.
    Errors(Vec<ParsingError<T>>),
    /// The trees, in order; no error was met.
    Forest(Vec<AST<T>>),
}

/// Checks that a token of kind `expected` came: an `UnexpectedToken` error,
/// at `location`, when no token came or one of another kind.
pub fn expect<T: TokenKind>(kind: Option<T>, expected: T, location: Location) -> (r: Result<
    (),
    ParsingError<T>,
>)
    ensures
        kind == Some(expected) ==> r is Ok,
        kind != Some(expected) ==> r == Err::<(), ParsingError<T>>(
            ParsingError::UnexpectedToken { expected: Some(expected), got: kind, location },
        ),
{
    match kind {
        None => Err(ParsingError::UnexpectedToken { expected: Some(expected), got: None, location }),
        Some(k) => if k.equals(&expected) {
            Ok(())
        } else {
            Err(ParsingError::UnexpectedToken { expected: Some(expected), got: kind, location })
        },
    }
}

/// The index of the token that closes the block open at depth `open`
/// before position `i`, if any.
pub open spec fn block_close<T>(kinds: Seq<T>, begin: T, end: T, i: int, open: nat) -> Option<int>
    decreases kinds.len() - i,
{
    if i < 0 || i >= kinds.len() {
        None
    } else if kinds[i] == begin {
        block_close(kinds, begin, end, i + 1, open + 1)
    } else if kinds[i] == end {
        if open <= 1 {
            Some(i)
        } else {
            block_close(kinds, begin, end, i + 1, (open - 1) as nat)
        }
    } else {
        block_close(kinds, begin, end, i + 1, open)
    }
}

proof fn lemma_block_close_range<T>(kinds: Seq<T>, begin: T, end: T, i: int, open: nat)
    requires
        0 <= i,
    ensures
        block_close(kinds, begin, end, i, open) matches Some(j) ==> i <= j < kinds.len(),
    decreases kinds.len() - i,
{
    if 0 <= i < kinds.len() {
        if kinds[i] == begin {
            lemma_block_close_range(kinds, begin, end, i + 1, open + 1);
        } else if kinds[i] == end {
            if open > 1 {
                lemma_block_close_range(kinds, begin, end, i + 1, (open - 1) as nat);
            }
        } else {
            lemma_block_close_range(kinds, begin, end, i + 1, open);
        }
    }
}

/// The kinds of the tokens, in order.
fn kinds_vec<T: TokenKind>(tokens: &[Token<T>]) -> (r: Vec<T>)
    ensures
        r@ == kinds_of(tokens@),
{
    let mut r: Vec<T> = Vec::new();
    let mut i: usize = 0;
    while i < tokens.len()
        invariant
            i <= tokens@.len(),
            r@ == kinds_of(tokens@.subrange(0, i as int)),
        decreases tokens@.len() - i,
    {
        r.push(tokens[i].kind);
        proof {
            assert(kinds_of(tokens@.subrange(0, i + 1)) =~= kinds_of(tokens@.subrange(0, i as int)).push(
                tokens@[i as int].kind,
            ));
        }
        i = i + 1;
    }
    proof {
        assert(tokens@.subrange(0, i as int) =~= tokens@);
    }
    r
}

/// A cursor over a sequence of tokens, for parsers written by hand.
pub struct Parser<'a, T: TokenKind> {
    /// The tokens not yet consumed.
    tokens: &'a [Token<T>],
}

impl<'a, T: TokenKind> Parser<'a, T> {
    /// The tokens not yet consumed.
    pub closed spec fn rest(&self) -> Seq<Token<T>> {
        self.tokens@
    }

    /// A cursor at the first of the tokens.
    pub fn new(tokens: &'a [Token<T>]) -> (r: Self)
        ensures
            r.rest() == tokens@,
    {
        Parser { tokens }
    }

    /// Skips `num` tokens, or none where fewer are left.
    pub fn skip(&mut self, num: usize)
        ensures
            num <= old(self).rest().len() ==> final(self).rest() == old(self).rest().subrange(
                num as int,
                old(self).rest().len() as int,
            ),
            num > old(self).rest().len() ==> final(self).rest() == old(self).rest(),
    {
        if num <= self.tokens.len() {
            self.tokens = &self.tokens[num..self.tokens.len()];
        }
    }

    /// Takes the current token out, if any.
    pub fn pop(&mut self) -> (r: Option<&'a Token<T>>)
        ensures
            old(self).rest().len() == 0 ==> r is None && final(self).rest() == old(self).rest(),
            old(self).rest().len() > 0 ==> r == Some(&old(self).rest()[0]) && final(self).rest()
                == old(self).rest().drop_first(),
    {
        if self.tokens.len() == 0 {
            return None;
        }
        let t = &self.tokens[0];
        self.tokens = &self.tokens[1..self.tokens.len()];
        Some(t)
    }

    /// The current token, if any.
    pub fn peek(&self) -> (r: Option<&'a Token<T>>)
        ensures
            self.rest().len() == 0 ==> r is None,
            self.rest().len() > 0 ==> r == Some(&self.rest()[0]),
    {
        self.peek_at(0)
    }

    /// The token `i` places ahead, if any.
    pub fn peek_at(&self, i: usize) -> (r: Option<&'a Token<T>>)
        ensures
            i >= self.rest().len() ==> r is None,
            i < self.rest().len() ==> r == Some(&self.rest()[i as int]),
    {
        if i < self.tokens.len() {
            Some(&self.tokens[i])
        } else {
            None
        }
    }

    /// Whether every token has been consumed.
    pub fn finished(&self) -> (r: bool)
        ensures
            r == (self.rest().len() == 0),
    {
        self.tokens.len() == 0
    }

    /// Whether the current token is of this kind.
    pub fn on_token(&self, kind: T) -> (r: bool)
        ensures
            r == (self.rest().len() > 0 && self.rest()[0].kind == kind),
    {
        if self.tokens.len() == 0 {
            return false;
        }
        self.tokens[0].kind.equals(&kind)
    }

    /// The kinds of the tokens not yet consumed.
    fn kinds(&self) -> (r: Vec<T>)
        ensures
            r@ == kinds_of(self.rest()),
    {
        kinds_vec(self.tokens)
    }

    /// Whether the pattern takes at least one token from here.
    pub fn on_regex(&self, regex: &Regex<T>) -> (r: bool)
        ensures
            r == (self.rest().len() > 0 && prefix_len(regex.elements(), kinds_of(self.rest())) > 0),
    {
        if self.tokens.len() == 0 {
            return false;
        }
        let kinds = self.kinds();
        let (matched, _) = regex.split_first(kinds.as_slice());
        matched.len() > 0
    }

    /// The tokens from here that the pattern takes.
    pub fn slice_regex(&self, regex: &Regex<T>) -> (r: Result<&'a [Token<T>], ParsingError<T>>)
        ensures
            self.rest().len() == 0 ==> r == Err::<&'a [Token<T>], ParsingError<T>>(
                ParsingError::NoTokens,
            ),
            self.rest().len() > 0 && prefix_len(regex.elements(), kinds_of(self.rest())) == 0
                ==> r == Err::<&'a [Token<T>], ParsingError<T>>(
                ParsingError::UnparsedSequence(self.rest()[0].location),
            ),
            self.rest().len() > 0 && prefix_len(regex.elements(), kinds_of(self.rest())) > 0
                ==> (r matches Ok(s) && s@ == self.rest().subrange(
                0,
                prefix_len(regex.elements(), kinds_of(self.rest())) as int,
            )),
    {
        if self.tokens.len() == 0 {
            return Err(ParsingError::NoTokens);
        }
        let kinds = self.kinds();
        let (matched, _) = regex.split_first(kinds.as_slice());
        if matched.len() == 0 {
            return Err(ParsingError::UnparsedSequence(self.tokens[0].location.duplicate()));
        }
        Ok(&self.tokens[0..matched.len()])
    }

    /// Builds the forest of the tokens not yet consumed, with the rules in
    /// order and the given kinds of block tokens: every tree where no error
    /// came, else every error.
    pub fn parse<P: Producer<T>>(&self, nodes: &Vec<ParserNode<T, P>>, begin: T, end: T) -> (r:
        ParsingResult<T>)
        ensures
            match r {
                ParsingResult::Forest(f) => builds(
                    nodes@,
                    self.rest(),
                    begin,
                    end,
                    0,
                    f@,
                    Seq::<ParsingError<T>>::empty(),
                ),
                ParsingResult::Errors(es) => {
                    &&& es@.len() > 0
                    &&& exists|a: Seq<AST<T>>| builds(nodes@, self.rest(), begin, end, 0, a, es@)
                },
            },
    {
        let (forest, errors) = build_forest(self.tokens, nodes, begin, end);
        if errors.len() > 0 {
            proof {
                assert(builds(nodes@, self.rest(), begin, end, 0, forest@, errors@));
            }
            ParsingResult::Errors(errors)
        } else {
            proof {
                assert(errors@ =~= Seq::<ParsingError<T>>::empty());
                assert(builds(nodes@, self.rest(), begin, end, 0, forest@, Seq::<ParsingError<T>>::empty()));
            }
            ParsingResult::Forest(forest)
        }
    }

    /// The tokens inside the block that opens here, without the opening and
    /// the closing token.
    pub fn slice_block(&self, begin: T, end: T) -> (r: Result<&'a [Token<T>], ParsingError<T>>)
        ensures
            self.rest().len() == 0 ==> r == Err::<&'a [Token<T>], ParsingError<T>>(
                ParsingError::NoTokens,
            ),
            self.rest().len() > 0 && self.rest()[0].kind != begin ==> r == Err::<
                &'a [Token<T>],
                ParsingError<T>,
            >(
                ParsingError::UnexpectedToken {
                    expected: Some(begin),
                    got: Some(self.rest()[0].kind),
                    location: self.rest()[0].location,
                },
            ),
            self.rest().len() > 0 && self.rest()[0].kind == begin ==> match block_close(
                kinds_of(self.rest()),
                begin,
                end,
                1,
                1,
            ) {
                Some(j) => r matches Ok(s) && s@ == self.rest().subrange(1, j),
                None => r == Err::<&'a [Token<T>], ParsingError<T>>(
                    ParsingError::UnclosedBlock(self.rest()[0].location),
                ),
            },
    {
        let ghost kinds = kinds_of(self.rest());
        if self.tokens.len() == 0 {
            return Err(ParsingError::NoTokens);
        }
        match expect(Some(self.tokens[0].kind), begin, self.tokens[0].location.duplicate()) {
            Err(e) => {
                return Err(e);
            },
            Ok(_) => {},
        }
        let len = self.tokens.len();
        let mut open_blocks: usize = 1;
        let mut i: usize = 1;
        while i < len
            invariant
                kinds == kinds_of(self.rest()),
                len == self.rest().len(),
                self.rest()[0].kind == begin,
                1 <= i <= len,
                1 <= open_blocks <= i,
                block_close(kinds, begin, end, 1, 1) == block_close(
                    kinds,
                    begin,
                    end,
                    i as int,
                    open_blocks as nat,
                ),
            decreases len - i,
        {
            let kind = self.tokens[i].kind;
            if kind.equals(&begin) {
                open_blocks = open_blocks + 1;
            } else if kind.equals(&end) {
                if open_blocks == 1 {
                    return Ok(&self.tokens[1..i]);
                }
                open_blocks = open_blocks - 1;
            }
            i = i + 1;
        }
        Err(ParsingError::UnclosedBlock(self.tokens[0].location.duplicate()))
    }
}


/// Makes a syntax tree of the tokens that a rule's pattern took.
///
/// An implementation may state in `produces` what it gives; forests are
/// then known to hold exactly such results.
pub trait Producer<T> {
    /// Whether `r` is a result the producer may give for `tokens`; unless
    /// an implementation says more, any result.
    open spec fn produces(&self, tokens: Seq<Token<T>>, r: Result<AST<T>, ParsingError<T>>) -> bool {
        true
    }

    /// The tree, or the error, made of `tokens`.
    fn produce(&self, tokens: &[Token<T>]) -> (r: Result<AST<T>, ParsingError<T>>)
        ensures
            self.produces(tokens@, r),
    ;
}

/// A producer that makes a leaf of the kind of the first token.
pub struct Leaf;

impl<T: TokenKind> Producer<T> for Leaf {
    open spec fn produces(&self, tokens: Seq<Token<T>>, r: Result<AST<T>, ParsingError<T>>) -> bool {
        if tokens.len() == 0 {
            r == Err::<AST<T>, ParsingError<T>>(ParsingError::NoTokens)
        } else {
            r matches Ok(a) && a.kind == tokens[0].kind && a.children@.len() == 0
        }
    }

    fn produce(&self, tokens: &[Token<T>]) -> (r: Result<AST<T>, ParsingError<T>>) {
        if tokens.len() == 0 {
            Err(ParsingError::NoTokens)
        } else {
            Ok(AST { kind: tokens[0].kind, children: Vec::new() })
        }
    }
}

/// A rule of a forest: the tokens its pattern takes are handed to its producer.
pub struct ParserNode<T: TokenKind, P: Producer<T>> {
    /// The pattern over token kinds.
    pub regex: Regex<T>,
    /// What makes a tree of the tokens taken.
    pub parser: P,
}

impl<T: TokenKind, P: Producer<T>> ParserNode<T, P> {
    /// Tries the rule on the first tokens: `None` where its pattern takes
    /// none, else how many it takes and what the producer made of them.
    pub fn parse(&self, tokens: &[Token<T>]) -> (r: Option<(usize, Result<AST<T>, ParsingError<T>>)>)
        ensures
            prefix_len(self.regex.elements(), kinds_of(tokens@)) == 0 ==> r is None,
            prefix_len(self.regex.elements(), kinds_of(tokens@)) > 0 ==> (r matches Some((n, res))
                && n == prefix_len(self.regex.elements(), kinds_of(tokens@)) && n <= tokens@.len()
                && self.parser.produces(tokens@.subrange(0, n as int), res)),
    {
        let kinds = kinds_vec(tokens);
        let (matched, _) = self.regex.split_first(kinds.as_slice());
        let n = matched.len();
        if n == 0 {
            None
        } else {
            Some((n, self.parser.produce(&tokens[0..n])))
        }
    }
}

/// The first rule from `k` on whose pattern takes tokens from the start of
/// `kinds`, and how many it takes.
pub open spec fn first_rule<T: TokenKind, P: Producer<T>>(
    rules: Seq<ParserNode<T, P>>,
    kinds: Seq<T>,
    k: int,
) -> Option<(int, nat)>
    decreases rules.len() - k,
{
    if k < 0 || k >= rules.len() {
        None
    } else if prefix_len(rules[k].regex.elements(), kinds) > 0 {
        Some((k, prefix_len(rules[k].regex.elements(), kinds)))
    } else {
        first_rule(rules, kinds, k + 1)
    }
}

/// A block node: of the opening kind, its last child a bare node of the closing kind.
pub open spec fn is_block<T>(a: AST<T>, begin: T, end: T) -> bool {
    &&& a.kind == begin
    &&& a.children@.len() >= 1
    &&& a.children@.last().kind == end
    &&& a.children@.last().children@.len() == 0
}

/// Whether building a forest from position `pos` of `toks` may give the
/// trees `asts` and the errors `errs`. At each position: a block is read as
/// a forest of its own and becomes one tree, its errors coming before those
/// met after it; an unclosed block is an error that skips its opening token;
/// a closing token with no block open is an error, and
/// then, as for any other token, the first rule whose pattern takes tokens
/// hands them to its producer (a tree is kept; an error skips one token).
/// Where no rule takes anything, an error ends the forest.
pub open spec fn builds<T: TokenKind, P: Producer<T>>(
    rules: Seq<ParserNode<T, P>>,
    toks: Seq<Token<T>>,
    begin: T,
    end: T,
    pos: int,
    asts: Seq<AST<T>>,
    errs: Seq<ParsingError<T>>,
) -> bool
    decreases toks.len(), toks.len() - pos,
{
    if pos < 0 || pos >= toks.len() {
        asts.len() == 0 && errs.len() == 0
    } else {
        let here = toks.subrange(pos, toks.len() as int);
        if toks[pos].kind == begin {
            match block_close(kinds_of(here), begin, end, 1, 1) {
                None => {
                    &&& errs.len() > 0
                    &&& errs[0] == ParsingError::<T>::UnclosedBlock(toks[pos].location)
                    &&& builds(rules, toks, begin, end, pos + 1, asts, errs.drop_first())
                },
                Some(j) => if j < 1 || pos + j >= toks.len() {
                    false
                } else {
                    let inner = toks.subrange(pos + 1, pos + j);
                    &&& asts.len() > 0
                    &&& is_block(asts[0], begin, end)
                    &&& exists|k: int|
                        #![trigger errs.take(k)]
                        {
                            &&& 0 <= k <= errs.len()
                            &&& builds(
                                rules,
                                inner,
                                begin,
                                end,
                                0,
                                asts[0].children@.drop_last(),
                                errs.take(k),
                            )
                            &&& builds(rules, toks, begin, end, pos + j + 1, asts.drop_first(), errs.skip(k))
                        }
                },
            }
        } else {
            let stray = toks[pos].kind == end;
            let rest = if stray {
                errs.drop_first()
            } else {
                errs
            };
            &&& stray ==> errs.len() > 0 && errs[0] == ParsingError::<T>::UnexpectedToken {
                expected: None,
                got: Some(end),
                location: toks[pos].location,
            }
            &&& match first_rule(rules, kinds_of(here), 0) {
                None => asts.len() == 0 && rest == seq![
                    ParsingError::<T>::UnparsedSequence(toks[pos].location),
                ],
                Some((k, n)) => if n == 0 || pos + n > toks.len() {
                    false
                } else {
                    let taken = toks.subrange(pos, pos + n);
                    ||| {
                        &&& asts.len() > 0
                        &&& rules[k].parser.produces(taken, Ok(asts[0]))
                        &&& builds(rules, toks, begin, end, pos + n, asts.drop_first(), rest)
                    }
                    ||| {
                        &&& rest.len() > 0
                        &&& rules[k].parser.produces(taken, Err(rest[0]))
                        &&& builds(rules, toks, begin, end, pos + 1, asts, rest.drop_first())
                    }
                },
            }
        }
    }
}


/// Builds the forest of `toks`: its trees and its errors.
fn build_forest<T: TokenKind, P: Producer<T>>(
    toks: &[Token<T>],
    nodes: &Vec<ParserNode<T, P>>,
    begin: T,
    end: T,
) -> (r: (Vec<AST<T>>, Vec<ParsingError<T>>))
    ensures
        builds(nodes@, toks@, begin, end, 0, r.0@, r.1@),
    decreases toks@.len(),
{
    let ghost rules = nodes@;
    let ghost s = toks@;
    let len = toks.len();
    let mut asts: Vec<AST<T>> = Vec::new();
    let mut errs: Vec<ParsingError<T>> = Vec::new();
    let mut pos: usize = 0;
    proof {
        assert forall|x: Seq<AST<T>>, y: Seq<ParsingError<T>>|
            builds(rules, s, begin, end, 0, x, y) implies builds(
            rules,
            s,
            begin,
            end,
            0,
            asts@ + x,
            errs@ + y,
        ) by {
            assert(asts@ + x =~= x);
            assert(errs@ + y =~= y);
        }
    }
    while pos < len
        invariant
            rules == nodes@,
            s == toks@,
            len == s.len(),
            pos <= len,
            forall|x: Seq<AST<T>>, y: Seq<ParsingError<T>>|
                builds(rules, s, begin, end, pos as int, x, y) ==> builds(
                    rules,
                    s,
                    begin,
                    end,
                    0,
                    asts@ + x,
                    errs@ + y,
                ),
        decreases len - pos,
    {
        let here = &toks[pos..len];
        let ghost a0 = asts@;
        let ghost e0 = errs@;
        let ghost cur = pos as int;
        if toks[pos].kind.equals(&begin) {
            let cursor = Parser::new(here);
            match cursor.slice_block(begin, end) {
                Ok(inner) => {
                    proof {
                        lemma_block_close_range(kinds_of(here@), begin, end, 1, 1);
                    }
                    let ghost jj = block_close(kinds_of(here@), begin, end, 1, 1)->0;
                    let j = inner.len() + 1;
                    assert(j == jj);
                    proof {
                        assert(inner@ =~= s.subrange(cur + 1, cur + jj));
                    }
                    let (inner_asts, inner_errs) = build_forest(inner, nodes, begin, end);
                    let ghost ie = inner_errs@;
                    let mut children = inner_asts;
                    children.push(AST { kind: end, children: Vec::new() });
                    let block = AST { kind: begin, children };
                    proof {
                        assert(block.children@.drop_last() =~= inner_asts@);
                        assert forall|x: Seq<AST<T>>, y: Seq<ParsingError<T>>|
                            builds(rules, s, begin, end, cur + jj + 1, x, y) implies builds(
                            rules,
                            s,
                            begin,
                            end,
                            0,
                            a0.push(block) + x,
                            (e0 + ie) + y,
                        ) by {
                            assert((seq![block] + x).drop_first() =~= x);
                            assert((seq![block] + x)[0] == block);
                            assert((ie + y).take(ie.len() as int) =~= ie);
                            assert((ie + y).skip(ie.len() as int) =~= y);
                            assert(builds(rules, s, begin, end, cur, seq![block] + x, ie + y));
                            assert(a0 + (seq![block] + x) =~= a0.push(block) + x);
                            assert(e0 + (ie + y) =~= (e0 + ie) + y);
                        }
                    }
                    asts.push(block);
                    let mut more = inner_errs;
                    errs.append(&mut more);
                    pos = pos + j + 1;
                },
                Err(e) => {
                    proof {
                        assert forall|x: Seq<AST<T>>, y: Seq<ParsingError<T>>|
                            builds(rules, s, begin, end, cur + 1, x, y) implies builds(
                            rules,
                            s,
                            begin,
                            end,
                            0,
                            a0 + x,
                            e0.push(e) + y,
                        ) by {
                            assert((seq![e] + y).drop_first() =~= y);
                            assert(builds(rules, s, begin, end, cur, x, seq![e] + y));
                            assert(e0 + (seq![e] + y) =~= e0.push(e) + y);
                        }
                    }
                    errs.push(e);
                    pos = pos + 1;
                },
            }
        } else {
            let stray = toks[pos].kind.equals(&end);
            let ghost mut strays: Seq<ParsingError<T>> = Seq::empty();
            if stray {
                let unexpected = ParsingError::UnexpectedToken {
                    expected: None,
                    got: Some(end),
                    location: toks[pos].location.duplicate(),
                };
                proof {
                    strays = seq![unexpected];
                }
                errs.push(unexpected);
            }
            let ghost e1 = errs@;
            proof {
                assert(e1 =~= e0 + strays);
            }
            let kinds = kinds_vec(here);
            let mut k: usize = 0;
            let mut found: Option<(usize, Result<AST<T>, ParsingError<T>>)> = None;
            while k < nodes.len()
                invariant_except_break
                    rules == nodes@,
                    k <= rules.len(),
                    found is None,
                    first_rule(rules, kinds_of(here@), 0) == first_rule(rules, kinds_of(here@), k as int),
                ensures
                    match found {
                        Some((n, res)) => {
                            &&& first_rule(rules, kinds_of(here@), 0) matches Some((i, m))
                            &&& m == n
                            &&& 0 < n <= here@.len()
                            &&& rules[i].parser.produces(here@.subrange(0, n as int), res)
                        },
                        None => first_rule(rules, kinds_of(here@), 0) is None,
                    },
                decreases rules.len() - k,
            {
                match nodes[k].parse(here) {
                    Some(r) => {
                        found = Some(r);
                        break;
                    },
                    None => {},
                }
                k = k + 1;
            }
            match found {
                None => {
                    let err = ParsingError::UnparsedSequence(toks[pos].location.duplicate());
                    errs.push(err);
                    proof {
                        if stray {
                            assert(strays.push(err).drop_first() =~= seq![err]);
                        } else {
                            assert(strays.push(err) =~= seq![err]);
                        }
                        assert(builds(rules, s, begin, end, cur, Seq::empty(), strays.push(err)));
                        assert(asts@ + Seq::<AST<T>>::empty() =~= asts@);
                        assert(e0 + strays.push(err) =~= errs@);
                    }
                    return (asts, errs);
                },
                Some((n, Ok(a))) => {
                    proof {
                        assert(here@.subrange(0, n as int) =~= s.subrange(cur, cur + n));
                        assert forall|x: Seq<AST<T>>, y: Seq<ParsingError<T>>|
                            builds(rules, s, begin, end, cur + n, x, y) implies builds(
                            rules,
                            s,
                            begin,
                            end,
                            0,
                            a0.push(a) + x,
                            e1 + y,
                        ) by {
                            assert((seq![a] + x).drop_first() =~= x);
                            if stray {
                                assert((strays + y).drop_first() =~= y);
                            } else {
                                assert(strays + y =~= y);
                            }
                            assert(builds(rules, s, begin, end, cur, seq![a] + x, strays + y));
                            assert(a0 + (seq![a] + x) =~= a0.push(a) + x);
                            assert(e0 + (strays + y) =~= e1 + y);
                        }
                    }
                    asts.push(a);
                    pos = pos + n;
                },
                Some((n, Err(e))) => {
                    proof {
                        assert(here@.subrange(0, n as int) =~= s.subrange(cur, cur + n));
                        assert forall|x: Seq<AST<T>>, y: Seq<ParsingError<T>>|
                            builds(rules, s, begin, end, cur + 1, x, y) implies builds(
                            rules,
                            s,
                            begin,
                            end,
                            0,
                            a0 + x,
                            e1.push(e) + y,
                        ) by {
                            if stray {
                                assert((strays + (seq![e] + y)).drop_first() =~= seq![e] + y);
                            } else {
                                assert(strays + (seq![e] + y) =~= seq![e] + y);
                            }
                            assert((seq![e] + y).drop_first() =~= y);
                            assert((seq![e] + y)[0] == e);
                            assert(builds(rules, s, begin, end, cur, x, strays + (seq![e] + y)));
                            assert(e0 + (strays + (seq![e] + y)) =~= e1.push(e) + y);
                        }
                    }
                    errs.push(e);
                    pos = pos + 1;
                },
            }
        }
    }
    proof {
        assert(builds(rules, s, begin, end, pos as int, Seq::empty(), Seq::empty()));
        assert(asts@ + Seq::<AST<T>>::empty() =~= asts@);
        assert(errs@ + Seq::<ParsingError<T>>::empty() =~= errs@);
    }
    (asts, errs)
}

} // verus!

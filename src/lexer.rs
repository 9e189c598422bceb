use vstd::prelude::*;

use crate::regex::{prefix_len, Regex, RegexElement, Symbol};
use crate::text::{chars_of, is_whitespace, text_of, white_space};

verus! {

/// Where a token starts: the origin of the text, the line and the column,
/// both counted from zero.
#[derive(Debug, Clone, PartialEq)]
pub struct Location {
    pub file: String,
    pub line: usize,
    pub column: usize,
}

impl Location {
    /// Moves the location to another line.
    pub fn line(&mut self, l: usize)
        ensures
            final(self).line == l,
            final(self).column == old(self).column,
            final(self).file == old(self).file,
    {
        self.line = l;
    }

    /// Moves the location to another column.
    pub fn column(&mut self, col: usize)
        ensures
            final(self).column == col,
            final(self).line == old(self).line,
            final(self).file == old(self).file,
    {
        self.column = col;
    }

    /// A copy of the location.
    pub fn duplicate(&self) -> (r: Location)
        ensures
            r == *self,
    {
        Location { file: self.file.clone(), line: self.line, column: self.column }
    }
}

/// The kind of a token (integer, keyword, operator...): a symbol that
/// patterns over tokens can match.
pub trait TokenKind: Symbol {

}

/// A lexical unit: its kind, the text it was read from, and where it starts.
#[derive(Debug, PartialEq, Clone)]
pub struct Token<T> {
    pub location: Location,
    pub kind: T,
    pub literal: String,
}

impl<T: Copy> Token<T> {
    /// A copy of the token.
    pub fn duplicate(&self) -> (r: Token<T>)
        ensures
            r == *self,
    {
        Token { location: self.location.duplicate(), kind: self.kind, literal: self.literal.clone() }
    }
}

/// The kinds of a sequence of tokens, in order.
pub open spec fn kinds_of<T>(tokens: Seq<Token<T>>) -> Seq<T> {
    tokens.map_values(|t: Token<T>| t.kind)
}


/// Turns the first characters that match a pattern into one kind of token.
pub struct LexerNode<K: TokenKind> {
    /// The pattern a token's text matches.
    regex: Regex<char>,
    /// The kind of the tokens it makes.
    kind: K,
}

impl<K: TokenKind> LexerNode<K> {
    /// The pattern of the node.
    pub closed spec fn pattern(&self) -> Vec<RegexElement<char>> {
        self.regex.elements()
    }

    /// The kind of the tokens the node makes.
    pub closed spec fn token_kind(&self) -> K {
        self.kind
    }

    /// A node making tokens of `kind` from what `regex` matches.
    pub fn new(regex: Regex<char>, kind: K) -> (r: Self)
        ensures
            r.pattern() == regex.elements(),
            r.token_kind() == kind,
    {
        LexerNode { regex, kind }
    }

    /// Splits off the characters the pattern takes: the rest, and a token
    /// made of them at `location`, or no token where the pattern took none.
    pub fn tokenize<'a>(&self, c: &'a [char], location: &Location) -> (r: (&'a [char], Option<Token<K>>))
        ensures
            prefix_len(self.pattern(), c@) <= c@.len(),
            r.0@ == c@.subrange(prefix_len(self.pattern(), c@) as int, c@.len() as int),
            prefix_len(self.pattern(), c@) == 0 ==> r.1 is None,
            prefix_len(self.pattern(), c@) > 0 ==> (r.1 matches Some(t) && t.location == *location
                && t.kind == self.token_kind() && t.literal@ == c@.subrange(
                0,
                prefix_len(self.pattern(), c@) as int,
            )),
    {
        let (matched, others) = self.regex.split_first(c);
        if matched.len() == 0 {
            (others, None)
        } else {
            let literal = text_of(matched);
            (others, Some(Token { location: location.duplicate(), kind: self.kind, literal }))
        }
    }
}

/// A character that no node could read, and where it stands.
#[derive(Debug, PartialEq)]
pub struct LexingError {
    pub location: Location,
}

/// What a lexer gives: every token, or every error.
pub enum LexingResult<T: TokenKind> {
    /// The characters that could not be read; the text had at least one.
    Errors(Vec<LexingError>),
    /// The tokens, in order; the text had no error.
    Tokens(Vec<Token<T>>),
}

/// A token as the lexer reads it: kind, text, line and column.
pub struct Lexeme<K> {
    pub kind: K,
    pub text: Seq<char>,
    pub line: nat,
    pub column: nat,
}

/// One pass over the nodes at column `pos` of a line: each node in turn
/// takes what its pattern matches from where the previous one stopped.
/// The tokens made, and the column reached.
pub open spec fn node_pass<K: TokenKind>(
    nodes: Seq<LexerNode<K>>,
    line: Seq<char>,
    ln: nat,
    pos: nat,
    k: int,
) -> (Seq<Lexeme<K>>, nat)
    decreases nodes.len() - k,
{
    if k < 0 || k >= nodes.len() {
        (Seq::empty(), pos)
    } else {
        let n = prefix_len(nodes[k].pattern(), line.subrange(pos as int, line.len() as int));
        if n > 0 {
            let lx = Lexeme {
                kind: nodes[k].token_kind(),
                text: line.subrange(pos as int, (pos + n) as int),
                line: ln,
                column: pos,
            };
            let rest = node_pass(nodes, line, ln, pos + n, k + 1);
            (seq![lx] + rest.0, rest.1)
        } else {
            node_pass(nodes, line, ln, pos, k + 1)
        }
    }
}

/// A line read from column `pos`: passes over the nodes while they make
/// tokens; where a pass makes none, one character is skipped, and it is an
/// error unless it is white space. The tokens, and the columns in error.
pub open spec fn scan_line<K: TokenKind>(nodes: Seq<LexerNode<K>>, line: Seq<char>, ln: nat, pos: nat) -> (
    Seq<Lexeme<K>>,
    Seq<nat>,
)
    decreases line.len() - pos,
{
    if pos >= line.len() {
        (Seq::empty(), Seq::empty())
    } else {
        let p = node_pass(nodes, line, ln, pos, 0);
        if pos < p.1 <= line.len() {
            let rest = scan_line(nodes, line, ln, p.1);
            (p.0 + rest.0, rest.1)
        } else {
            let rest = scan_line(nodes, line, ln, pos + 1);
            (rest.0, if white_space(line[pos as int]) {
                rest.1
            } else {
                seq![pos] + rest.1
            })
        }
    }
}

/// The number of characters from `i` to the end of its line.
pub open spec fn line_len(s: Seq<char>, i: int) -> nat
    decreases s.len() - i,
{
    if i < 0 || i >= s.len() || s[i] == '\n' {
        0
    } else {
        1 + line_len(s, i + 1)
    }
}

/// Where the text of the line from `i` to `e` stops: before a carriage
/// return that ends it ahead of a newline.
pub open spec fn line_body_end(s: Seq<char>, i: int, e: int) -> int {
    if i < e < s.len() && s[e - 1] == '\r' {
        e - 1
    } else {
        e
    }
}

/// The text read line by line from `i`, the first of them being line `ln`
/// (a line ends at a newline, which with a carriage return before it is
/// not part of the line):
/// the tokens, and the places (line, column) in error.
pub open spec fn lex_lines<K: TokenKind>(nodes: Seq<LexerNode<K>>, s: Seq<char>, i: int, ln: nat) -> (
    Seq<Lexeme<K>>,
    Seq<(nat, nat)>,
)
    decreases s.len() - i,
{
    if i < 0 || i >= s.len() {
        (Seq::empty(), Seq::empty())
    } else {
        let e = i + line_len(s, i);
        let r = scan_line(nodes, s.subrange(i, line_body_end(s, i, e)), ln, 0);
        let errors = r.1.map_values(|c: nat| (ln, c));
        if e < s.len() {
            let rest = lex_lines(nodes, s, e + 1, ln + 1);
            (r.0 + rest.0, errors + rest.1)
        } else {
            (r.0, errors)
        }
    }
}

/// The token stands for the lexeme, in the file named `file`.
pub open spec fn token_is<K>(t: Token<K>, lx: Lexeme<K>, file: Seq<char>) -> bool {
    &&& t.kind == lx.kind
    &&& t.literal@ == lx.text
    &&& t.location.line == lx.line
    &&& t.location.column == lx.column
    &&& t.location.file@ == file
}

/// The tokens stand for the lexemes, one for one.
pub open spec fn tokens_are<K>(ts: Seq<Token<K>>, lxs: Seq<Lexeme<K>>, file: Seq<char>) -> bool {
    &&& ts.len() == lxs.len()
    &&& forall|i: int| 0 <= i < ts.len() ==> token_is(#[trigger] ts[i], lxs[i], file)
}

/// The errors stand at the places given, one for one.
pub open spec fn errors_are(es: Seq<LexingError>, places: Seq<(nat, nat)>, file: Seq<char>) -> bool {
    &&& es.len() == places.len()
    &&& forall|i: int|
        0 <= i < es.len() ==> {
            &&& (#[trigger] es[i]).location.line == places[i].0
            &&& es[i].location.column == places[i].1
            &&& es[i].location.file@ == file
        }
}


proof fn lemma_tokens_are_split<K>(ts: Seq<Token<K>>, a: int, xs: Seq<Lexeme<K>>, ys: Seq<Lexeme<K>>, file: Seq<char>)
    requires
        0 <= a <= ts.len(),
        tokens_are(ts.subrange(0, a), xs, file),
        tokens_are(ts.subrange(a, ts.len() as int), ys, file),
    ensures
        tokens_are(ts, xs + ys, file),
{
    assert forall|i: int| 0 <= i < ts.len() implies token_is(#[trigger] ts[i], (xs + ys)[i], file) by {
        if i < a {
            assert(ts.subrange(0, a)[i] == ts[i]);
        } else {
            assert(ts.subrange(a, ts.len() as int)[i - a] == ts[i]);
        }
    }
}

proof fn lemma_errors_are_split(
    es: Seq<LexingError>,
    a: int,
    xs: Seq<(nat, nat)>,
    ys: Seq<(nat, nat)>,
    file: Seq<char>,
)
    requires
        0 <= a <= es.len(),
        errors_are(es.subrange(0, a), xs, file),
        errors_are(es.subrange(a, es.len() as int), ys, file),
    ensures
        errors_are(es, xs + ys, file),
{
    assert forall|i: int| 0 <= i < es.len() implies {
        &&& (#[trigger] es[i]).location.line == (xs + ys)[i].0
        &&& es[i].location.column == (xs + ys)[i].1
        &&& es[i].location.file@ == file
    } by {
        if i < a {
            assert(es.subrange(0, a)[i] == es[i]);
        } else {
            assert(es.subrange(a, es.len() as int)[i - a] == es[i]);
        }
    }
}

/// Reads text into tokens with an ordered list of nodes.
pub struct Lexer<K: TokenKind> {
    nodes: Vec<LexerNode<K>>,
}

impl<K: TokenKind> Lexer<K> {
    /// The nodes, in order of registration.
    pub closed spec fn nodes(&self) -> Seq<LexerNode<K>> {
        self.nodes@
    }

    /// A lexer with no node.
    pub fn new() -> (r: Self)
        ensures
            r.nodes() == Seq::<LexerNode<K>>::empty(),
    {
        Lexer { nodes: Vec::new() }
    }

    /// Adds a node after those already registered.
    pub fn register(&mut self, node: LexerNode<K>)
        ensures
            final(self).nodes() == old(self).nodes().push(node),
    {
        self.nodes.push(node);
    }

    /// Reads a text line by line: every token, or, where any character could
    /// not be read, every such error. Locations name `path`.
    pub fn tokenize_content(&self, content: String, path: &str) -> (r: LexingResult<K>)
        ensures
            match r {
                LexingResult::Tokens(ts) => {
                    &&& lex_lines(self.nodes(), content@, 0, 0).1.len() == 0
                    &&& tokens_are(ts@, lex_lines(self.nodes(), content@, 0, 0).0, path@)
                },
                LexingResult::Errors(es) => {
                    &&& lex_lines(self.nodes(), content@, 0, 0).1.len() > 0
                    &&& errors_are(es@, lex_lines(self.nodes(), content@, 0, 0).1, path@)
                },
            },
    {
        let ghost nodes = self.nodes();
        let text = chars_of(content.as_str());
        let ghost s = text@;
        let file = path.to_owned();
        let len = text.len();
        let mut tokens: Vec<Token<K>> = Vec::new();
        let mut errors: Vec<LexingError> = Vec::new();
        let ghost mut lx_done: Seq<Lexeme<K>> = Seq::empty();
        let ghost mut err_done: Seq<(nat, nat)> = Seq::empty();
        let mut i: usize = 0;
        let mut ln: usize = 0;
        proof {
            assert(lx_done + lex_lines(nodes, s, 0, 0).0 =~= lex_lines(nodes, s, 0, 0).0);
            assert(err_done + lex_lines(nodes, s, 0, 0).1 =~= lex_lines(nodes, s, 0, 0).1);
        }
        while i < len
            invariant_except_break
                nodes == self.nodes(),
                s == text@,
                s == content@,
                file@ == path@,
                len == s.len(),
                i <= len,
                ln <= i,
                lex_lines(nodes, s, 0, 0).0 == lx_done + lex_lines(nodes, s, i as int, ln as nat).0,
                lex_lines(nodes, s, 0, 0).1 == err_done + lex_lines(nodes, s, i as int, ln as nat).1,
                tokens_are(tokens@, lx_done, file@),
                errors_are(errors@, err_done, file@),
            ensures
                lex_lines(nodes, s, 0, 0).0 == lx_done,
                lex_lines(nodes, s, 0, 0).1 == err_done,
                tokens_are(tokens@, lx_done, file@),
                errors_are(errors@, err_done, file@),
            decreases len - i,
        {
            let mut j: usize = i;
            while j < len && text[j] != '\n'
                invariant
                    s == text@,
                    len == s.len(),
                    i <= j <= len,
                    (j - i) + line_len(s, j as int) == line_len(s, i as int),
                decreases len - j,
            {
                j = j + 1;
            }
            let ghost t0 = tokens@;
            let ghost e0 = errors@;
            let body_end = if i < j && j < len && text[j - 1] == '\r' {
                j - 1
            } else {
                j
            };
            assert(body_end == line_body_end(s, i as int, j as int));
            let ghost line = s.subrange(i as int, body_end as int);
            self.tokenize_line(&text[i..body_end], ln, &file, &mut tokens, &mut errors);
            proof {
                let r = scan_line(nodes, line, ln as nat, 0);
                lemma_tokens_are_split(tokens@, t0.len() as int, lx_done, r.0, file@);
                lemma_errors_are_split(errors@, e0.len() as int, err_done, r.1.map_values(|c: nat| (ln as nat, c)), file@);
                if j < len {
                    assert(lx_done + lex_lines(nodes, s, i as int, ln as nat).0 =~= (lx_done + r.0) + lex_lines(nodes, s, j + 1, (ln + 1) as nat).0);
                    assert(err_done + lex_lines(nodes, s, i as int, ln as nat).1 =~= (err_done + r.1.map_values(|c: nat| (ln as nat, c))) + lex_lines(nodes, s, j + 1, (ln + 1) as nat).1);
                } else {
                    assert(lx_done + lex_lines(nodes, s, i as int, ln as nat).0 =~= lx_done + r.0);
                    assert(err_done + lex_lines(nodes, s, i as int, ln as nat).1 =~= err_done + r.1.map_values(|c: nat| (ln as nat, c)));
                }
                lx_done = lx_done + r.0;
                err_done = err_done + r.1.map_values(|c: nat| (ln as nat, c));
            }
            if j >= len {
                break;
            }
            i = j + 1;
            ln = ln + 1;
        }
        if errors.len() > 0 {
            LexingResult::Errors(errors)
        } else {
            LexingResult::Tokens(tokens)
        }
    }

    /// Reads line `ln`, appending its tokens and its errors.
    fn tokenize_line(
        &self,
        line: &[char],
        ln: usize,
        file: &String,
        tokens: &mut Vec<Token<K>>,
        errors: &mut Vec<LexingError>,
    )
        ensures
            final(tokens)@.len() >= old(tokens)@.len(),
            final(tokens)@.subrange(0, old(tokens)@.len() as int) == old(tokens)@,
            tokens_are(
                final(tokens)@.subrange(old(tokens)@.len() as int, final(tokens)@.len() as int),
                scan_line(self.nodes(), line@, ln as nat, 0).0,
                file@,
            ),
            final(errors)@.len() >= old(errors)@.len(),
            final(errors)@.subrange(0, old(errors)@.len() as int) == old(errors)@,
            errors_are(
                final(errors)@.subrange(old(errors)@.len() as int, final(errors)@.len() as int),
                scan_line(self.nodes(), line@, ln as nat, 0).1.map_values(|c: nat| (ln as nat, c)),
                file@,
            ),
    {
        let ghost nodes = self.nodes();
        let ghost s = line@;
        let ghost t0 = tokens@;
        let ghost e0 = errors@;
        let ghost mut lx_done: Seq<Lexeme<K>> = Seq::empty();
        let ghost mut err_done: Seq<nat> = Seq::empty();
        let len = line.len();
        let mut pos: usize = 0;
        proof {
            assert(tokens@.subrange(0, t0.len() as int) =~= t0);
            assert(errors@.subrange(0, e0.len() as int) =~= e0);
            assert(tokens@.subrange(t0.len() as int, tokens@.len() as int) =~= Seq::<Token<K>>::empty());
            assert(errors@.subrange(e0.len() as int, errors@.len() as int) =~= Seq::<LexingError>::empty());
            assert(lx_done + scan_line(nodes, s, ln as nat, 0).0 =~= scan_line(nodes, s, ln as nat, 0).0);
            assert(err_done + scan_line(nodes, s, ln as nat, 0).1 =~= scan_line(nodes, s, ln as nat, 0).1);
        }
        while pos < len
            invariant
                nodes == self.nodes(),
                s == line@,
                len == s.len(),
                pos <= len,
                scan_line(nodes, s, ln as nat, 0).0 == lx_done + scan_line(nodes, s, ln as nat, pos as nat).0,
                scan_line(nodes, s, ln as nat, 0).1 == err_done + scan_line(nodes, s, ln as nat, pos as nat).1,
                tokens@.len() >= t0.len(),
                tokens@.subrange(0, t0.len() as int) == t0,
                tokens_are(tokens@.subrange(t0.len() as int, tokens@.len() as int), lx_done, file@),
                errors@.len() >= e0.len(),
                errors@.subrange(0, e0.len() as int) == e0,
                errors_are(
                    errors@.subrange(e0.len() as int, errors@.len() as int),
                    err_done.map_values(|c: nat| (ln as nat, c)),
                    file@,
                ),
            decreases len - pos,
        {
            let start = pos;
            let ghost mut pass_done: Seq<Lexeme<K>> = Seq::empty();
            let ghost t1 = tokens@;
            let mut k: usize = 0;
            proof {
                assert(pass_done + node_pass(nodes, s, ln as nat, pos as nat, 0).0 =~= node_pass(nodes, s, ln as nat, pos as nat, 0).0);
                assert(tokens@.subrange(t1.len() as int, tokens@.len() as int) =~= Seq::<Token<K>>::empty());
                assert(tokens@.subrange(0, t1.len() as int) =~= t1);
            }
            while k < self.nodes.len()
                invariant
                    nodes == self.nodes(),
                    s == line@,
                    len == s.len(),
                    start <= pos <= len,
                    k <= nodes.len(),
                    node_pass(nodes, s, ln as nat, start as nat, 0).0 == pass_done + node_pass(
                        nodes,
                        s,
                        ln as nat,
                        pos as nat,
                        k as int,
                    ).0,
                    node_pass(nodes, s, ln as nat, start as nat, 0).1 == node_pass(
                        nodes,
                        s,
                        ln as nat,
                        pos as nat,
                        k as int,
                    ).1,
                    pos == start <==> pass_done.len() == 0,
                    scan_line(nodes, s, ln as nat, 0).0 == lx_done + scan_line(nodes, s, ln as nat, start as nat).0,
                    scan_line(nodes, s, ln as nat, 0).1 == err_done + scan_line(nodes, s, ln as nat, start as nat).1,
                    t1.len() >= t0.len(),
                    t1.subrange(0, t0.len() as int) == t0,
                    tokens_are(t1.subrange(t0.len() as int, t1.len() as int), lx_done, file@),
                    errors@.len() >= e0.len(),
                    errors@.subrange(0, e0.len() as int) == e0,
                    errors_are(
                        errors@.subrange(e0.len() as int, errors@.len() as int),
                        err_done.map_values(|c: nat| (ln as nat, c)),
                        file@,
                    ),
                    tokens@.len() >= t1.len(),
                    tokens@.subrange(0, t1.len() as int) == t1,
                    tokens_are(tokens@.subrange(t1.len() as int, tokens@.len() as int), pass_done, file@),
                decreases nodes.len() - k,
            {
                let location = Location { file: file.clone(), line: ln, column: pos };
                let (others, result) = self.nodes[k].tokenize(&line[pos..len], &location);
                proof {
                    assert(line@.subrange(pos as int, len as int) == s.subrange(pos as int, s.len() as int));
                }
                match result {
                    Some(token) => {
                        let n = (len - pos) - others.len();
                        let ghost lx = Lexeme {
                            kind: nodes[k as int].token_kind(),
                            text: s.subrange(pos as int, pos + n),
                            line: ln as nat,
                            column: pos as nat,
                        };
                        let ghost before = tokens@;
                        proof {
                            assert(token.literal@ =~= s.subrange(pos as int, pos + n));
                            assert(token_is(token, lx, file@));
                        }
                        tokens.push(token);
                        proof {
                            assert(tokens@.subrange(0, t1.len() as int) =~= t1);
                            assert(tokens@.subrange(t1.len() as int, tokens@.len() as int) =~= before.subrange(t1.len() as int, before.len() as int).push(token));
                            assert forall|i: int| 0 <= i < pass_done.len() + 1 implies token_is(
                                #[trigger] tokens@.subrange(t1.len() as int, tokens@.len() as int)[i],
                                pass_done.push(lx)[i],
                                file@,
                            ) by {
                                if i < pass_done.len() {
                                    assert(tokens@.subrange(t1.len() as int, tokens@.len() as int)[i] == before.subrange(t1.len() as int, before.len() as int)[i]);
                                }
                            }
                            assert(pass_done + node_pass(nodes, s, ln as nat, pos as nat, k as int).0 =~= pass_done.push(lx) + node_pass(nodes, s, ln as nat, (pos + n) as nat, k + 1).0);
                            pass_done = pass_done.push(lx);
                        }
                        pos = pos + n;
                    },
                    None => {},
                }
                k = k + 1;
            }
            if pos == start {
                proof {
                    assert(tokens@.subrange(t1.len() as int, tokens@.len() as int).len() == 0);
                    assert(tokens@ =~= t1);
                }
                let c = line[pos];
                if !is_whitespace(c) {
                    let ghost before = errors@;
                    errors.push(LexingError { location: Location { file: file.clone(), line: ln, column: pos } });
                    proof {
                        assert(errors@.subrange(0, e0.len() as int) =~= e0);
                        assert(errors@.subrange(e0.len() as int, errors@.len() as int) =~= before.subrange(e0.len() as int, before.len() as int).push(errors@[errors@.len() - 1]));
                        assert(err_done.push(pos as nat).map_values(|c: nat| (ln as nat, c)) =~= err_done.map_values(|c: nat| (ln as nat, c)).push((ln as nat, pos as nat)));
                        assert forall|i: int| 0 <= i < err_done.len() + 1 implies {
                            &&& (#[trigger] errors@.subrange(e0.len() as int, errors@.len() as int)[i]).location.line == err_done.push(pos as nat).map_values(|c: nat| (ln as nat, c))[i].0
                            &&& errors@.subrange(e0.len() as int, errors@.len() as int)[i].location.column == err_done.push(pos as nat).map_values(|c: nat| (ln as nat, c))[i].1
                            &&& errors@.subrange(e0.len() as int, errors@.len() as int)[i].location.file@ == file@
                        } by {
                            if i < err_done.len() {
                                assert(errors@.subrange(e0.len() as int, errors@.len() as int)[i] == before.subrange(e0.len() as int, before.len() as int)[i]);
                            }
                        }
                        assert(err_done + scan_line(nodes, s, ln as nat, start as nat).1 =~= err_done.push(pos as nat) + scan_line(nodes, s, ln as nat, (pos + 1) as nat).1);
                        err_done = err_done.push(pos as nat);
                    }
                } else {
                    proof {
                        assert(scan_line(nodes, s, ln as nat, start as nat).1 == scan_line(nodes, s, ln as nat, (pos + 1) as nat).1);
                    }
                }
                pos = pos + 1;
            } else {
                proof {
                    assert(tokens@.subrange(t0.len() as int, tokens@.len() as int).subrange(0, t1.len() - t0.len()) =~= t1.subrange(t0.len() as int, t1.len() as int));
                    assert(tokens@.subrange(t0.len() as int, tokens@.len() as int).subrange(t1.len() - t0.len(), tokens@.len() - t0.len()) =~= tokens@.subrange(t1.len() as int, tokens@.len() as int));
                    lemma_tokens_are_split(tokens@.subrange(t0.len() as int, tokens@.len() as int), t1.len() - t0.len(), lx_done, pass_done, file@);
                    assert(lx_done + scan_line(nodes, s, ln as nat, start as nat).0 =~= (lx_done + pass_done) + scan_line(nodes, s, ln as nat, pos as nat).0);
                    lx_done = lx_done + pass_done;
                    assert(tokens@.subrange(0, t0.len() as int) =~= t0);
                }
            }
        }
    }
}


proof fn lemma_no_node_takes<K: TokenKind>(nodes: Seq<LexerNode<K>>, line: Seq<char>, ln: nat, pos: nat, k: int)
    requires
        0 <= k,
        pos < line.len(),
        forall|j: int|
            0 <= j < nodes.len() ==> prefix_len(
                #[trigger] nodes[j].pattern(),
                line.subrange(pos as int, line.len() as int),
            ) == 0,
    ensures
        node_pass(nodes, line, ln, pos, k) == (Seq::<Lexeme<K>>::empty(), pos),
    decreases nodes.len() - k,
{
    if k < nodes.len() {
        assert(prefix_len(nodes[k].pattern(), line.subrange(pos as int, line.len() as int)) == 0);
        lemma_no_node_takes(nodes, line, ln, pos, k + 1);
    }
}

proof fn lemma_unreadable_from<K: TokenKind>(nodes: Seq<LexerNode<K>>, line: Seq<char>, ln: nat, pos: nat)
    requires
        pos <= line.len(),
        forall|i: int| 0 <= i < line.len() ==> !white_space(#[trigger] line[i]),
        forall|j: int, p: int|
            0 <= j < nodes.len() && 0 <= p < line.len() ==> prefix_len(
                #[trigger] nodes[j].pattern(),
                #[trigger] line.subrange(p, line.len() as int),
            ) == 0,
    ensures
        scan_line(nodes, line, ln, pos).0 == Seq::<Lexeme<K>>::empty(),
        scan_line(nodes, line, ln, pos).1 == Seq::new(
            (line.len() - pos) as nat,
            |i: int| (pos + i) as nat,
        ),
    decreases line.len() - pos,
{
    if pos < line.len() {
        assert forall|j: int| 0 <= j < nodes.len() implies prefix_len(
            #[trigger] nodes[j].pattern(),
            line.subrange(pos as int, line.len() as int),
        ) == 0 by {}
        lemma_no_node_takes(nodes, line, ln, pos, 0);
        lemma_unreadable_from(nodes, line, ln, pos + 1);
        assert(!white_space(line[pos as int]));
        assert(seq![pos] + Seq::new((line.len() - (pos + 1)) as nat, |i: int| (pos + 1 + i) as nat)
            =~= Seq::new((line.len() - pos) as nat, |i: int| (pos + i) as nat));
    } else {
        assert(Seq::new((line.len() - pos) as nat, |i: int| (pos + i) as nat) =~= Seq::<nat>::empty());
    }
}

proof fn lemma_line_len_to_end(s: Seq<char>, i: int)
    requires
        0 <= i <= s.len(),
        forall|j: int| 0 <= j < s.len() ==> #[trigger] s[j] != '\n',
    ensures
        line_len(s, i) == s.len() - i,
    decreases s.len() - i,
{
    if i < s.len() {
        lemma_line_len_to_end(s, i + 1);
    }
}

/// A text of one line in which no character is white space and no node's
/// pattern accepts anything from any column gives no token and one error
/// per column, in order.
pub proof fn lemma_unreadable_line<K: TokenKind>(lexer: Lexer<K>, s: Seq<char>)
    requires
        forall|i: int| 0 <= i < s.len() ==> #[trigger] s[i] != '\n' && !white_space(s[i]),
        forall|j: int, p: int|
            0 <= j < lexer.nodes().len() && 0 <= p < s.len() ==> prefix_len(
                #[trigger] lexer.nodes()[j].pattern(),
                #[trigger] s.subrange(p, s.len() as int),
            ) == 0,
    ensures
        lex_lines(lexer.nodes(), s, 0, 0).0.len() == 0,
        lex_lines(lexer.nodes(), s, 0, 0).1 == Seq::new(s.len(), |i: int| (0nat, i as nat)),
{
    let nodes = lexer.nodes();
    if s.len() > 0 {
        lemma_line_len_to_end(s, 0);
        assert(line_body_end(s, 0, s.len() as int) == s.len());
        assert(s.subrange(0, s.len() as int) =~= s);
        lemma_unreadable_from(nodes, s, 0, 0);
        assert(scan_line(nodes, s, 0, 0).1.map_values(|c: nat| (0nat, c)) =~= Seq::new(
            s.len(),
            |i: int| (0nat, i as nat),
        ));
    } else {
        assert(Seq::new(s.len(), |i: int| (0nat, i as nat)) =~= Seq::<(nat, nat)>::empty());
    }
}

} // verus!

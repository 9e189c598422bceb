use vstd::prelude::*;

verus! {

/// A symbol is the smallest piece of input a pattern works on.
///
/// Implement it for any type to match patterns over that alphabet: `equals`
/// must agree with the equality of values, and `at_most` with the order that
/// `spec_at_most` states (the order in which `Range` elements read).
pub trait Symbol: Sized + Copy {
    /// The order in which ranges of symbols are read.
    spec fn spec_at_most(self, other: Self) -> bool;

    /// Whether the two symbols are the same.
    fn equals(&self, other: &Self) -> (r: bool)
        ensures
            r == (*self == *other),
    ;

    /// Whether `self` comes no later than `other` in the order of ranges.
    fn at_most(&self, other: &Self) -> (r: bool)
        ensures
            r == self.spec_at_most(*other),
    ;
}

impl Symbol for char {
    open spec fn spec_at_most(self, other: char) -> bool {
        self <= other
    }

    fn equals(&self, other: &char) -> (r: bool) {
        *self == *other
    }

    fn at_most(&self, other: &char) -> (r: bool) {
        *self <= *other
    }
}

/// How many times in a row an element must occur.
#[derive(Debug, Clone, Copy, PartialEq, Eq, Structural)]
pub enum Quantifier {
    /// Exactly this many times (`{n}`).
    Exactly(usize),
    /// At least once (`+`).
    OneOrMany,
    /// Any number of times (`*`).
    ZeroOrMany,
    /// At most once (`?`).
    ZeroOrOne,
}

/// Whether `n` occurrences satisfy the quantifier.
pub open spec fn quantifier_accepts(n: nat, q: Quantifier) -> bool {
    match q {
        Quantifier::Exactly(k) => n == k,
        Quantifier::OneOrMany => n >= 1,
        Quantifier::ZeroOrMany => true,
        Quantifier::ZeroOrOne => n <= 1,
    }
}

/// A run of `n` single-symbol occurrences, cut at the point where the
/// quantifier's target is reached (`Exactly` and `ZeroOrOne` stop early).
pub open spec fn capped(n: nat, q: Quantifier) -> nat {
    match q {
        Quantifier::Exactly(k) => if n <= k { n } else { k as nat },
        Quantifier::ZeroOrOne => if n <= 1 { n } else { 1 },
        _ => n,
    }
}

/// Whether a number of occurrences satisfies a quantifier.
pub fn match_quantifier(num: usize, quantifier: &Quantifier) -> (r: bool)
    ensures
        r == quantifier_accepts(num as nat, *quantifier),
        *quantifier matches Quantifier::Exactly(n) ==> (r <==> num == n),
        *quantifier == Quantifier::ZeroOrOne ==> (r <==> num == 0 || num == 1),
        *quantifier == Quantifier::OneOrMany ==> (r <==> num >= 1),
        *quantifier == Quantifier::ZeroOrMany ==> r,
{
    match quantifier {
        Quantifier::Exactly(n) => *n == num,
        Quantifier::OneOrMany => num >= 1,
        Quantifier::ZeroOrMany => true,
        Quantifier::ZeroOrOne => num == 0 || num == 1,
    }
}

/// One step of a pattern: what kind of symbols are expected, and how many.
#[derive(Debug, PartialEq)]
pub enum RegexElement<T: Symbol> {
    /// A symbol equal to the given one (`a`).
    Item(T, Quantifier),
    /// The inner elements, matched back to back, repeated as a whole (`(...)`).
    Group(Vec<RegexElement<T>>, Quantifier),
    /// The first inner element that accepts (`a|b|c`); its own quantifier governs it.
    AnyOf(Vec<RegexElement<T>>),
    /// A symbol that none of the inner elements accepts on its own (`[^abc]`).
    NoneOf(Vec<RegexElement<T>>, Quantifier),
    /// A symbol between the two bounds, both included (`[a-z]`).
    Range(T, T, Quantifier),
}

/// Whether one symbol is of the kind that an `Item`, `Range` or `NoneOf` element counts.
pub open spec fn accepts_symbol<T: Symbol>(e: RegexElement<T>, c: T) -> bool
    decreases e, 0int,
{
    match e {
        RegexElement::Item(v, _) => v == c,
        RegexElement::Range(low, high, _) => low.spec_at_most(c) && c.spec_at_most(high),
        RegexElement::NoneOf(es, _) => none_accepts(es, c, 0),
        _ => false,
    }
}

/// Whether none of `es[k..]`, matched against the one symbol `c`, accepts.
pub open spec fn none_accepts<T: Symbol>(es: Vec<RegexElement<T>>, c: T, k: int) -> bool
    decreases es, es.len() - k,
{
    if k < 0 || k >= es.len() {
        true
    } else {
        !element_match(es[k], seq![c], 0).0 && none_accepts(es, c, k + 1)
    }
}

/// The length of the longest run of symbols counted by `e` that starts at `i`.
pub open spec fn run_len<T: Symbol>(e: RegexElement<T>, s: Seq<T>, i: int) -> nat
    decreases e, 1 + s.len() - i,
{
    if 0 <= i < s.len() && accepts_symbol(e, s[i]) {
        1 + run_len(e, s, i + 1)
    } else {
        0
    }
}

/// The verdict of `e` on `s` from position `i`, and how many symbols it takes.
pub open spec fn element_match<T: Symbol>(e: RegexElement<T>, s: Seq<T>, i: int) -> (bool, nat)
    decreases e, 2 + s.len() - i,
{
    if i < 0 || i > s.len() {
        (false, 0)
    } else {
        match e {
            RegexElement::Item(_, q) => {
                let n = capped(run_len(e, s, i), q);
                (quantifier_accepts(n, q), n)
            },
            RegexElement::Range(_, _, q) => {
                let n = capped(run_len(e, s, i), q);
                (quantifier_accepts(n, q), n)
            },
            RegexElement::NoneOf(_, q) => {
                let n = capped(run_len(e, s, i), q);
                (quantifier_accepts(n, q), n)
            },
            RegexElement::AnyOf(es) => any_match(es, s, i, 0),
            RegexElement::Group(es, q) => {
                let g = group_reps(es, s, i);
                (quantifier_accepts(g.0, q), (g.1 - i) as nat)
            },
        }
    }
}

/// The first of `es[k..]` that accepts at `i`, or a refusal.
pub open spec fn any_match<T: Symbol>(es: Vec<RegexElement<T>>, s: Seq<T>, i: int, k: int) -> (
    bool,
    nat,
)
    decreases es, es.len() - k,
{
    if k < 0 || k >= es.len() {
        (false, 0)
    } else {
        let r = element_match(es[k], s, i);
        if r.0 {
            r
        } else {
            any_match(es, s, i, k + 1)
        }
    }
}

/// `es[k..]` matched one after the other from `i`, with no backtracking:
/// whether all of them accept, and how many symbols those that accepted
/// before the first refusal took.
pub open spec fn sequence_match<T: Symbol>(
    es: Vec<RegexElement<T>>,
    s: Seq<T>,
    i: int,
    k: int,
) -> (bool, nat)
    decreases es, es.len() - k,
{
    if k < 0 || k >= es.len() {
        (true, 0)
    } else {
        let r = element_match(es[k], s, i);
        if !r.0 {
            (false, 0)
        } else {
            let rest = sequence_match(es, s, i + r.1, k + 1);
            (rest.0, r.1 + rest.1)
        }
    }
}

/// The repetitions of a group from `i`: how many full passes over `es`
/// succeeded, and where the last of them ended. A pass that fails takes
/// nothing back; repetition stops when a fresh attempt at the first element
/// fails or would take no symbol.
pub open spec fn group_reps<T: Symbol>(es: Vec<RegexElement<T>>, s: Seq<T>, i: int) -> (nat, int)
    decreases es, es.len() + 2 + s.len() - i,
{
    if i < 0 || i > s.len() {
        (0, i)
    } else {
        let pass = sequence_match(es, s, i, 0);
        if !pass.0 {
            (0, i)
        } else {
            let j = i + pass.1;
            if pass.1 == 0 || j > s.len() || es.len() == 0 {
                (1, j)
            } else {
                let first = element_match(es[0], s, j);
                if !first.0 || first.1 == 0 {
                    (1, j)
                } else {
                    let rest = group_reps(es, s, j);
                    (rest.0 + 1, rest.1)
                }
            }
        }
    }
}


/// Whether `c` is of the kind that `e` counts symbol by symbol.
fn symbol_accepts<T: Symbol>(c: &T, e: &RegexElement<T>) -> (r: bool)
    ensures
        r == accepts_symbol(*e, *c),
    decreases e, 0int,
{
    match e {
        RegexElement::Item(v, _) => v.equals(c),
        RegexElement::Range(low, high, _) => low.at_most(c) && c.at_most(high),
        RegexElement::NoneOf(es, q) => {
            let mut one: Vec<T> = Vec::new();
            one.push(*c);
            assert(one@ =~= seq![*c]);
            let mut k: usize = 0;
            while k < es.len()
                invariant
                    k <= es.len(),
                    *e == RegexElement::NoneOf(*es, *q),
                    one@ == seq![*c],
                    none_accepts(*es, *c, 0) == none_accepts(*es, *c, k as int),
                decreases es.len() - k,
            {
                proof {
                    assert(decreases_to!(*e => e->NoneOf_0));
                }
                let r = match_element(one.as_slice(), 0, &es[k]);
                if r.0 {
                    return false;
                }
                k = k + 1;
            }
            true
        },
        _ => false,
    }
}

/// How many symbols from `pos` on `e` counts, stopping once its quantifier
/// can take no more.
fn count_run<T: Symbol>(candidate: &[T], pos: usize, e: &RegexElement<T>, q: &Quantifier) -> (n:
    usize)
    requires
        pos <= candidate@.len(),
    ensures
        n == capped(run_len(*e, candidate@, pos as int), *q),
        pos + n <= candidate@.len(),
    decreases e, 1int,
{
    let ghost s = candidate@;
    let len = candidate.len();
    let mut n: usize = 0;
    loop
        invariant_except_break
            s == candidate@,
            len == s.len(),
            pos + n <= s.len(),
            run_len(*e, s, pos as int) == n + run_len(*e, s, pos + n),
            *q matches Quantifier::Exactly(k) ==> n <= k,
            *q == Quantifier::ZeroOrOne ==> n <= 1,
        ensures
            n == capped(run_len(*e, s, pos as int), *q),
            pos + n <= s.len(),
        decreases s.len() - pos - n,
    {
        if pos + n >= len {
            break;
        }
        let full = match q {
            Quantifier::Exactly(k) => n == *k,
            Quantifier::ZeroOrOne => n == 1,
            _ => false,
        };
        if full {
            break;
        }
        if !symbol_accepts(&candidate[pos + n], e) {
            break;
        }
        n = n + 1;
    }
    n
}

/// Whether a number of group passes satisfies a quantifier.
fn passes_accepted(num: u128, quantifier: &Quantifier) -> (r: bool)
    ensures
        r == quantifier_accepts(num as nat, *quantifier),
{
    match quantifier {
        Quantifier::Exactly(n) => num == *n as u128,
        Quantifier::OneOrMany => num >= 1,
        Quantifier::ZeroOrMany => true,
        Quantifier::ZeroOrOne => num <= 1,
    }
}

/// The verdict of one element at `pos`, and how many symbols it takes.
fn match_element<T: Symbol>(candidate: &[T], pos: usize, e: &RegexElement<T>) -> (r: (bool, usize))
    requires
        pos <= candidate@.len(),
    ensures
        r.0 == element_match(*e, candidate@, pos as int).0,
        r.1 == element_match(*e, candidate@, pos as int).1,
        pos + r.1 <= candidate@.len(),
    decreases e, 2int,
{
    let ghost s = candidate@;
    let len = candidate.len();
    match e {
        RegexElement::Item(_, q) => {
            let n = count_run(candidate, pos, e, q);
            (match_quantifier(n, q), n)
        },
        RegexElement::Range(_, _, q) => {
            let n = count_run(candidate, pos, e, q);
            (match_quantifier(n, q), n)
        },
        RegexElement::NoneOf(_, q) => {
            let n = count_run(candidate, pos, e, q);
            (match_quantifier(n, q), n)
        },
        RegexElement::AnyOf(es) => {
            let mut k: usize = 0;
            while k < es.len()
                invariant
                    k <= es.len(),
                    *e == RegexElement::AnyOf(*es),
                    s == candidate@,
                    pos <= s.len(),
                    any_match(*es, s, pos as int, 0) == any_match(*es, s, pos as int, k as int),
                decreases es.len() - k,
            {
                proof {
                    assert(decreases_to!(*e => e->AnyOf_0));
                }
                let r = match_element(candidate, pos, &es[k]);
                if r.0 {
                    return r;
                }
                k = k + 1;
            }
            (false, 0)
        },
        RegexElement::Group(es, q) => {
            let mut ind: usize = pos;
            let mut occ: u128 = 0;
            loop
                invariant_except_break
                    *e == RegexElement::Group(*es, *q),
                    s == candidate@,
                    len == s.len(),
                    pos <= ind <= s.len(),
                    occ <= (ind - pos) as u128,
                    group_reps(*es, s, pos as int).0 == occ + group_reps(*es, s, ind as int).0,
                    group_reps(*es, s, pos as int).1 == group_reps(*es, s, ind as int).1,
                ensures
                    pos <= ind <= s.len(),
                    group_reps(*es, s, pos as int).0 == occ,
                    group_reps(*es, s, pos as int).1 == ind,
                decreases s.len() - ind,
            {
                proof {
                    assert(decreases_to!(*e => e->Group_0));
                }
                let pass = match_sequence(candidate, ind, es);
                if !pass.0 {
                    break;
                }
                occ = occ + 1;
                let next = ind + pass.1;
                if pass.1 == 0 || es.len() == 0 {
                    ind = next;
                    break;
                }
                let first = match_element(candidate, next, &es[0]);
                ind = next;
                if !first.0 || first.1 == 0 {
                    break;
                }
            }
            (passes_accepted(occ, q), ind - pos)
        },
    }
}

/// `es` matched one after the other from `pos`: whether all of them accept,
/// and how many symbols those that accepted took.
fn match_sequence<T: Symbol>(candidate: &[T], pos: usize, es: &Vec<RegexElement<T>>) -> (r: (
    bool,
    usize,
))
    requires
        pos <= candidate@.len(),
    ensures
        r.0 == sequence_match(*es, candidate@, pos as int, 0).0,
        r.1 == sequence_match(*es, candidate@, pos as int, 0).1,
        pos + r.1 <= candidate@.len(),
    decreases es, 0int,
{
    let ghost s = candidate@;
    let len = candidate.len();
    let mut ind: usize = pos;
    let mut k: usize = 0;
    while k < es.len()
        invariant
            k <= es.len(),
            s == candidate@,
            len == s.len(),
            pos <= ind <= s.len(),
            sequence_match(*es, s, pos as int, 0).0 == sequence_match(*es, s, ind as int, k as int).0,
            sequence_match(*es, s, pos as int, 0).1 == (ind - pos) + sequence_match(
                *es,
                s,
                ind as int,
                k as int,
            ).1,
        decreases es.len() - k,
    {
        let r = match_element(candidate, ind, &es[k]);
        if !r.0 {
            return (false, ind - pos);
        }
        ind = ind + r.1;
        k = k + 1;
    }
    (true, ind - pos)
}


proof fn lemma_run_len_bound<T: Symbol>(e: RegexElement<T>, s: Seq<T>, i: int)
    requires
        0 <= i <= s.len(),
    ensures
        run_len(e, s, i) <= s.len() - i,
    decreases s.len() - i,
{
    if i < s.len() && accepts_symbol(e, s[i]) {
        lemma_run_len_bound(e, s, i + 1);
    }
}

proof fn lemma_element_bound<T: Symbol>(e: RegexElement<T>, s: Seq<T>, i: int)
    requires
        0 <= i <= s.len(),
    ensures
        element_match(e, s, i).1 <= s.len() - i,
    decreases e, 2 + s.len() - i,
{
    match e {
        RegexElement::AnyOf(es) => lemma_any_bound(es, s, i, 0),
        RegexElement::Group(es, _) => lemma_group_bound(es, s, i),
        _ => lemma_run_len_bound(e, s, i),
    }
}

proof fn lemma_any_bound<T: Symbol>(es: Vec<RegexElement<T>>, s: Seq<T>, i: int, k: int)
    requires
        0 <= i <= s.len(),
    ensures
        any_match(es, s, i, k).1 <= s.len() - i,
    decreases es, es.len() - k,
{
    if 0 <= k < es.len() {
        lemma_element_bound(es[k], s, i);
        lemma_any_bound(es, s, i, k + 1);
    }
}

proof fn lemma_sequence_bound<T: Symbol>(es: Vec<RegexElement<T>>, s: Seq<T>, i: int, k: int)
    requires
        0 <= i <= s.len(),
    ensures
        sequence_match(es, s, i, k).1 <= s.len() - i,
    decreases es, es.len() - k,
{
    if 0 <= k < es.len() {
        lemma_element_bound(es[k], s, i);
        let r = element_match(es[k], s, i);
        if r.0 {
            lemma_sequence_bound(es, s, i + r.1, k + 1);
        }
    }
}

proof fn lemma_group_bound<T: Symbol>(es: Vec<RegexElement<T>>, s: Seq<T>, i: int)
    requires
        0 <= i <= s.len(),
    ensures
        i <= group_reps(es, s, i).1 <= s.len(),
    decreases es, es.len() + 2 + s.len() - i,
{
    lemma_sequence_bound(es, s, i, 0);
    let pass = sequence_match(es, s, i, 0);
    if pass.0 {
        let j = i + pass.1;
        if !(pass.1 == 0 || j > s.len() || es.len() == 0) {
            let first = element_match(es[0], s, j);
            if first.0 && first.1 != 0 {
                lemma_group_bound(es, s, j);
            }
        }
    }
}

/// What a pattern does from the start of `s`: whether every element
/// accepted, and how many symbols the elements took before the first refusal.
pub open spec fn pattern_run<T: Symbol>(pattern: Vec<RegexElement<T>>, s: Seq<T>) -> (bool, nat) {
    sequence_match(pattern, s, 0, 0)
}

/// Whether the pattern takes the whole of `s`.
pub open spec fn pattern_matches<T: Symbol>(pattern: Vec<RegexElement<T>>, s: Seq<T>) -> bool {
    pattern_run(pattern, s).0 && pattern_run(pattern, s).1 == s.len()
}

/// The length of the prefix of `s` that the pattern splits off: what its
/// elements took where every one of them accepted, else nothing.
pub open spec fn prefix_len<T: Symbol>(pattern: Vec<RegexElement<T>>, s: Seq<T>) -> nat {
    if pattern_run(pattern, s).0 {
        pattern_run(pattern, s).1
    } else {
        0
    }
}

/// A pattern of symbols: its elements are matched in order, each taking as
/// many symbols as it can, with no backtracking from one to the next.
#[derive(Debug)]
pub struct Regex<T: Symbol> {
    pattern: Vec<RegexElement<T>>,
}

impl<T: Symbol> Regex<T> {
    /// The elements of the pattern, in order.
    pub closed spec fn elements(self) -> Vec<RegexElement<T>> {
        self.pattern
    }

    /// A pattern with no element.
    pub fn new() -> (r: Self)
        ensures
            r.elements()@ == Seq::<RegexElement<T>>::empty(),
    {
        Regex { pattern: Vec::new() }
    }

    /// The same pattern with one more element at its end.
    pub fn then(self, e: RegexElement<T>) -> (r: Self)
        ensures
            r.elements()@ == self.elements()@.push(e),
    {
        let mut pattern = self.pattern;
        pattern.push(e);
        Regex { pattern }
    }

    /// Whether the pattern takes the whole candidate; on success the matched
    /// symbols (all of them) come with the verdict, else none.
    pub fn is_match(&self, candidate: &[T]) -> (r: (bool, Vec<T>))
        ensures
            r.0 == pattern_matches(self.elements(), candidate@),
            r.1@ == (if r.0 { candidate@ } else { Seq::<T>::empty() }),
    {
        let (valid, taken) = match_sequence(candidate, 0, &self.pattern);
        if valid && taken == candidate.len() {
            (true, vstd::slice::slice_to_vec(candidate))
        } else {
            (false, Vec::new())
        }
    }

    /// Splits the candidate into the prefix that the pattern accepts and the
    /// rest; the prefix is empty where an element refuses.
    pub fn split_first<'a>(&self, candidate: &'a [T]) -> (r: (&'a [T], &'a [T]))
        ensures
            prefix_len(self.elements(), candidate@) <= candidate@.len(),
            r.0@ == candidate@.subrange(0, prefix_len(self.elements(), candidate@) as int),
            r.1@ == candidate@.subrange(
                prefix_len(self.elements(), candidate@) as int,
                candidate@.len() as int,
            ),
    {
        let (valid, taken) = match_sequence(candidate, 0, &self.pattern);
        let k = if valid {
            taken
        } else {
            0
        };
        candidate.split_at(k)
    }
}

/// A pattern matches a non-empty sequence exactly when the prefix it splits
/// off is the whole sequence.
pub proof fn lemma_match_iff_whole_prefix<T: Symbol>(p: Regex<T>, s: Seq<T>)
    requires
        s.len() > 0,
    ensures
        pattern_matches(p.elements(), s) <==> s.subrange(0, prefix_len(p.elements(), s) as int)
            == s,
{
    lemma_sequence_bound(p.elements(), s, 0, 0);
    if s.subrange(0, prefix_len(p.elements(), s) as int) == s {
        assert(s.subrange(0, prefix_len(p.elements(), s) as int).len() == s.len());
    }
    if pattern_matches(p.elements(), s) {
        assert(s.subrange(0, s.len() as int) =~= s);
    }
}

/// `m` copies of `c`.
pub open spec fn copies<T>(c: T, m: nat) -> Seq<T> {
    Seq::new(m, |j: int| c)
}

proof fn lemma_run_of_copies<T: Symbol>(c: T, q: Quantifier, m: nat, i: int)
    requires
        0 <= i <= m,
    ensures
        run_len(RegexElement::Item(c, q), copies(c, m), i) == m - i,
    decreases m - i,
{
    if i < m {
        assert(copies(c, m)[i] == c);
        assert(accepts_symbol(RegexElement::Item(c, q), c));
        lemma_run_of_copies(c, q, m, i + 1);
    } else {
        assert(copies(c, m).len() == m);
    }
}

/// A pattern of one `Item` element takes a run of `m` copies of its symbol
/// whole exactly when `m` occurrences satisfy the quantifier: for
/// `Exactly(n)` when `m == n`, for `ZeroOrOne` when `m <= 1`, for
/// `OneOrMany` when `m >= 1`, and for `ZeroOrMany` always.
pub proof fn lemma_item_quantifier_law<T: Symbol>(p: Regex<T>, c: T, q: Quantifier, m: nat)
    requires
        p.elements()@ == seq![RegexElement::Item(c, q)],
    ensures
        pattern_matches(p.elements(), copies(c, m)) <==> quantifier_accepts(m, q),
{
    let s = copies(c, m);
    let e = RegexElement::Item(c, q);
    lemma_run_of_copies(c, q, m, 0);
    assert(p.elements()[0] == e);
    let r = element_match(e, s, 0);
    if r.0 {
        assert(sequence_match(p.elements(), s, r.1 as int, 1) == (true, 0nat));
        assert(pattern_run(p.elements(), s) == r);
    } else {
        assert(!pattern_run(p.elements(), s).0);
    }
}

} // verus!

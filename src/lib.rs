//! Building blocks for the front end of a custom language: a pattern engine
//! over any ordered alphabet, a tokenizer driven by such patterns, a forest
//! builder over token streams and an operator-precedence expression parser.

use vstd::prelude::*;

/// Characters and strings, as std hands them over.
pub mod text;

/// Patterns over an arbitrary alphabet, matched greedily and without backtracking.
pub mod regex;

/// Turning text into tokens.
pub mod lexer;

/// Turning tokens into syntax trees.
pub mod parser;

use crate::regex::copies;
use crate::text::{chars_of, text_of};

verus! {

/// The text, and under it on a line of its own `size` carets from column `start`.
pub fn highlight(text: &str, start: usize, size: usize) -> (r: String)
    ensures
        r@ == text@ + seq!['\n'] + copies(' ', start as nat) + copies('^', size as nat),
{
    let mut out = chars_of(text);
    out.push('\n');
    let ghost head = out@;
    let mut i: usize = 0;
    while i < start
        invariant
            i <= start,
            out@ == head + copies(' ', i as nat),
        decreases start - i,
    {
        out.push(' ');
        i = i + 1;
        proof {
            assert(out@ =~= head + copies(' ', i as nat));
        }
    }
    let ghost head2 = out@;
    let mut j: usize = 0;
    while j < size
        invariant
            j <= size,
            out@ == head2 + copies('^', j as nat),
        decreases size - j,
    {
        out.push('^');
        j = j + 1;
        proof {
            assert(out@ =~= head2 + copies('^', j as nat));
        }
    }
    proof {
        assert(out@ =~= text@ + seq!['\n'] + copies(' ', start as nat) + copies('^', size as nat));
    }
    text_of(out.as_slice())
}

} // verus!

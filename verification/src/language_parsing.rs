//! Tokenizer: splits raw text into word tokens on a fixed separator set,
//! discards empty runs, and strips one apostrophe from each end of a token.

use vstd::prelude::*;

use crate::utils::spec_strip_leading_trailing;
use crate::utils::strip_leading_trailing;

verus! {

/// The characters that end a token. The apostrophe is deliberately absent:
/// it is handled by stripping after the split.
pub open spec fn is_separator(c: char) -> bool {
    ||| c == ' '
    ||| c == ','
    ||| c == '.'
    ||| c == '!'
    ||| c == '?'
    ||| c == ';'
    ||| c == '"'
    ||| c == ':'
    ||| c == '\t'
    ||| c == '\n'
    ||| c == '('
    ||| c == ')'
    ||| c == '*'
    ||| c == '-'
}

/// Length of the longest separator-free prefix of `s`.
pub open spec fn run_len(s: Seq<char>) -> int
    decreases s.len(),
{
    if s.len() == 0 || is_separator(s[0]) {
        0
    } else {
        1 + run_len(s.drop_first())
    }
}

pub proof fn lemma_run_len_bounds(s: Seq<char>)
    ensures
        0 <= run_len(s) <= s.len(),
        s.len() > 0 && !is_separator(s[0]) ==> run_len(s) >= 1,
    decreases s.len(),
{
    if s.len() == 0 || is_separator(s[0]) {
    } else {
        lemma_run_len_bounds(s.drop_first());
    }
}

/// The maximal separator-free runs of `s`, in order, empties discarded.
pub open spec fn spec_split(s: Seq<char>) -> Seq<Seq<char>>
    decreases s.len(),
    via spec_split_decreases
{
    if s.len() == 0 {
        Seq::empty()
    } else if is_separator(s[0]) {
        spec_split(s.drop_first())
    } else {
        seq![s.subrange(0, run_len(s))] + spec_split(s.subrange(run_len(s), s.len() as int))
    }
}

#[via_fn]
proof fn spec_split_decreases(s: Seq<char>) {
    lemma_run_len_bounds(s);
}

/// One apostrophe removed from each end of a token, if present.
pub open spec fn strip_apostrophes(s: Seq<char>) -> Seq<char> {
    spec_strip_leading_trailing(s, '\'')
}

/// The token sequence of `s`: separator-free runs, each with one apostrophe
/// stripped from each end.
pub open spec fn spec_tokenise(s: Seq<char>) -> Seq<Seq<char>> {
    spec_split(s).map_values(|t: Seq<char>| strip_apostrophes(t))
}

proof fn lemma_run_len_concat(a: Seq<char>, b: Seq<char>)
    requires
        forall|j: int| 0 <= j < a.len() ==> !is_separator(a[j]),
        b.len() == 0 || is_separator(b[0]),
    ensures
        run_len(a + b) == a.len(),
    decreases a.len(),
{
    if a.len() == 0 {
        assert(a + b =~= b);
    } else {
        assert((a + b).drop_first() =~= a.drop_first() + b);
        lemma_run_len_concat(a.drop_first(), b);
    }
}

/// A separator-free run `a` followed by text that starts with a separator
/// (or ends) contributes exactly one token, `a` stripped of apostrophes.
pub proof fn lemma_tokenise_run(a: Seq<char>, b: Seq<char>)
    requires
        a.len() > 0,
        forall|j: int| 0 <= j < a.len() ==> !is_separator(a[j]),
        b.len() == 0 || is_separator(b[0]),
    ensures
        spec_tokenise(a + b) == seq![strip_apostrophes(a)] + spec_tokenise(b),
{
    lemma_run_len_concat(a, b);
    lemma_run_len_bounds(a + b);
    let s = a + b;
    assert(s.subrange(0, run_len(s)) =~= a);
    assert(s.subrange(run_len(s), s.len() as int) =~= b);
    assert(spec_split(s) == seq![a] + spec_split(b));
    assert(spec_tokenise(a + b) =~= seq![strip_apostrophes(a)] + spec_tokenise(b));
}

pub struct Splitter;

impl Splitter {
    /// True when `c` splits tokens.
    pub fn is_match(c: char) -> (r: bool)
        ensures
            r == is_separator(c),
    {
        match c {
            ' ' | ',' | '.' | '!' | '?' | ';' | '"' | ':' | '\t' | '\n' | '(' | ')' | '*'
                | '-' => true,
            _ => false,
        }
    }

    /// Strips one apostrophe from each end of `s`.
    pub fn strip_leading_trailing_apostrophes<'a>(s: &'a str) -> (r: &'a str)
        ensures
            r@ == strip_apostrophes(s@),
    {
        strip_leading_trailing(s, '\'')
    }
}

/// Splits `text` into word tokens.
pub fn tokenise<'a>(text: &'a str) -> (r: Vec<&'a str>)
    ensures
        r.deep_view() == spec_tokenise(text@),
{
    let len = text.unicode_len();
    let mut out: Vec<&'a str> = Vec::new();
    let mut start: usize = 0;
    let mut i: usize = 0;
    proof {
        assert(text@.skip(0) =~= text@);
    }
    while i < len
        invariant
            start <= i <= len,
            len == text@.len(),
            forall|j: int| start <= j < i ==> !is_separator(text@[j]),
            spec_tokenise(text@) == out.deep_view() + spec_tokenise(text@.skip(start as int)),
        decreases len - i,
    {
        let c = text.get_char(i);
        if Splitter::is_match(c) {
            if start < i {
                let tok = text.substring_char(start, i);
                let stripped = Splitter::strip_leading_trailing_apostrophes(tok);
                let ghost pre = out.deep_view();
                out.push(stripped);
                proof {
                    let a = text@.subrange(start as int, i as int);
                    let b = text@.skip(i as int);
                    assert(text@.skip(start as int) =~= a + b);
                    lemma_tokenise_run(a, b);
                    assert(b.drop_first() =~= text@.skip(i + 1));
                    assert(out.deep_view() =~= pre.push(strip_apostrophes(a)));
                    assert(pre.push(strip_apostrophes(a)) =~= pre + seq![strip_apostrophes(a)]);
                    assert(out.deep_view() + spec_tokenise(text@.skip(i + 1)) =~= pre
                        + spec_tokenise(text@.skip(start as int)));
                }
            } else {
                proof {
                    assert(text@.skip(start as int).drop_first() =~= text@.skip(start as int + 1));
                }
            }
            start = i + 1;
        }
        i = i + 1;
    }
    if start < len {
        let tok = text.substring_char(start, len);
        let stripped = Splitter::strip_leading_trailing_apostrophes(tok);
        let ghost pre = out.deep_view();
        out.push(stripped);
        proof {
            let a = text@.subrange(start as int, len as int);
            assert(text@.skip(start as int) =~= a + Seq::<char>::empty());
            lemma_tokenise_run(a, Seq::empty());
            assert(spec_tokenise(Seq::empty()) =~= Seq::<Seq<char>>::empty());
            assert(out.deep_view() =~= pre.push(strip_apostrophes(a)));
            assert(out.deep_view() =~= pre + seq![strip_apostrophes(a)]);
        }
    } else {
        proof {
            assert(text@.skip(start as int) =~= Seq::<char>::empty());
            assert(spec_tokenise(Seq::empty()) =~= Seq::<Seq<char>>::empty());
        }
    }
    out
}

} // verus!

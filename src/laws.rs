use vstd::prelude::*;

use crate::evaluation;
use crate::tokenizer::{
    is_blank, is_number_char, is_word_char, lemma_number_run_bound, lemma_word_run_bound, lex,
    number_run, prepend, word_run, Token,
};
use crate::error::EvalError;

verus! {

/// Evaluation keeps no state: the same text always gives the same result.
pub proof fn lemma_evaluation_deterministic(a: Seq<char>, b: Seq<char>)
    requires
        a == b,
    ensures
        evaluation(a) == evaluation(b),
{
}

/// The tokens of `a` followed by those of `b`; the first error if either fails.
pub open spec fn join(
    r1: Result<Seq<Token>, EvalError>,
    r2: Result<Seq<Token>, EvalError>,
) -> Result<Seq<Token>, EvalError> {
    match r1 {
        Ok(ts) => prepend(ts, r2),
        Err(e) => Err(e),
    }
}

/// No number and no name runs on from the end of `a` into `b`.
pub open spec fn clean_boundary(a: Seq<char>, b: Seq<char>) -> bool {
    a.len() == 0 || b.len() == 0 || (!(is_number_char(a.last()) && is_number_char(b[0])) && !(
    is_word_char(a.last()) && is_word_char(b[0])))
}

pub open spec fn all_blank(w: Seq<char>) -> bool {
    forall|i: int| 0 <= i < w.len() ==> is_blank(#[trigger] w[i])
}

proof fn lemma_runs_shift(p: Seq<char>, s: Seq<char>, k: int)
    requires
        0 <= k <= s.len(),
    ensures
        number_run(p + s, p.len() + k) == number_run(s, k),
        word_run(p + s, p.len() + k) == word_run(s, k),
    decreases s.len() - k,
{
    if k < s.len() {
        assert((p + s)[p.len() + k] == s[k]);
        lemma_runs_shift(p, s, k + 1);
    }
}

/// What follows a prefix is scanned as if the prefix were not there.
pub proof fn lemma_lex_shift(p: Seq<char>, s: Seq<char>, i: int)
    requires
        0 <= i <= s.len(),
    ensures
        lex(p + s, p.len() + i) == lex(s, i),
    decreases s.len() - i,
{
    let c = p + s;
    let n = p.len();
    if i < s.len() {
        assert(c[n + i] == s[i]);
        lemma_runs_shift(p, s, i + 1);
        lemma_number_run_bound(s, i + 1);
        lemma_word_run_bound(s, i + 1);
        let jn = i + 1 + number_run(s, i + 1);
        let jw = i + 1 + word_run(s, i + 1);
        assert(c.subrange(n + i, n + jn) =~= s.subrange(i, jn));
        assert(c.subrange(n + i, n + jw) =~= s.subrange(i, jw));
        lemma_lex_shift(p, s, i + 1);
        lemma_lex_shift(p, s, jn);
        lemma_lex_shift(p, s, jw);
    }
}

proof fn lemma_runs_prefix(a: Seq<char>, b: Seq<char>, k: int)
    requires
        clean_boundary(a, b),
        0 < k <= a.len(),
    ensures
        is_number_char(a[k - 1]) ==> number_run(a + b, k) == number_run(a, k),
        is_word_char(a[k - 1]) ==> word_run(a + b, k) == word_run(a, k),
    decreases a.len() - k,
{
    if k < a.len() {
        assert((a + b)[k] == a[k]);
        lemma_runs_prefix(a, b, k + 1);
    } else if b.len() > 0 {
        assert((a + b)[k] == b[0]);
    }
}

/// Where no run crosses the boundary, the tokens of `a + b` are those of `a`
/// followed by those of `b`.
pub proof fn lemma_lex_split(a: Seq<char>, b: Seq<char>, i: int)
    requires
        clean_boundary(a, b),
        0 <= i <= a.len(),
    ensures
        lex(a + b, i) == join(lex(a, i), lex(b, 0)),
    decreases a.len() - i,
{
    let c = a + b;
    if i == a.len() {
        lemma_lex_shift(a, b, 0);
        match lex(b, 0) {
            Ok(ts) => {
                assert(Seq::<Token>::empty() + ts =~= ts);
            },
            Err(_) => {},
        }
    } else {
        assert(c[i] == a[i]);
        lemma_runs_prefix(a, b, i + 1);
        lemma_number_run_bound(a, i + 1);
        lemma_word_run_bound(a, i + 1);
        let jn = i + 1 + number_run(a, i + 1);
        let jw = i + 1 + word_run(a, i + 1);
        assert(c.subrange(i, jn) =~= a.subrange(i, jn));
        assert(c.subrange(i, jw) =~= a.subrange(i, jw));
        lemma_lex_split(a, b, i + 1);
        lemma_lex_split(a, b, jn);
        lemma_lex_split(a, b, jw);
        assert forall|t: Token, r: Result<Seq<Token>, EvalError>|
            #![trigger prepend(seq![t], r)]
            join(prepend(seq![t], r), lex(b, 0)) == prepend(seq![t], join(r, lex(b, 0))) by {
            if let Ok(ts) = r {
                if let Ok(us) = lex(b, 0) {
                    assert(seq![t] + ts + us =~= seq![t] + (ts + us));
                }
            }
        }
    }
}

proof fn lemma_lex_leading_blanks(w: Seq<char>, b: Seq<char>, k: int)
    requires
        all_blank(w),
        0 <= k <= w.len(),
    ensures
        lex(w + b, k) == lex(b, 0),
    decreases w.len() - k,
{
    if k < w.len() {
        assert((w + b)[k] == w[k]);
        lemma_lex_leading_blanks(w, b, k + 1);
    } else {
        lemma_lex_shift(w, b, 0);
    }
}

/// Blanks added at either end of a text, or between two characters that no
/// single number or name spans, leave its value unchanged.
pub proof fn lemma_blank_insertion(a: Seq<char>, w: Seq<char>, b: Seq<char>)
    requires
        all_blank(w),
        clean_boundary(a, b),
    ensures
        evaluation(a + w + b) == evaluation(a + b),
{
    if w.len() == 0 {
        assert(a + w + b =~= a + b);
    } else {
        let wb = w + b;
        assert(a + w + b =~= a + wb);
        assert(wb[0] == w[0]);
        lemma_lex_split(a, wb, 0);
        lemma_lex_leading_blanks(w, b, 0);
        lemma_lex_split(a, b, 0);
    }
}

} // verus!

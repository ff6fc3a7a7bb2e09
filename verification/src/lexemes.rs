//! Where words, numbers and comments end.

use crate::lex;
use vstd::prelude::*;

verus! {

/// A word goes on as long as letters, digits and underscores do.
pub proof fn law_words_are_whole(b: Seq<u8>, i: int)
    requires
        0 <= i <= b.len(),
    ensures
        i <= lex::ident_end(b, i) <= b.len(),
        forall|k: int| i <= k < lex::ident_end(b, i) ==> lex::in_ident(#[trigger] b[k]),
        lex::ident_end(b, i) < b.len() ==> !lex::in_ident(b[lex::ident_end(b, i)]),
    decreases b.len() - i,
{
    if i < b.len() && lex::in_ident(b[i]) {
        law_words_are_whole(b, i + 1);
    }
}

/// A run of digits goes on as long as digits and underscores do.
pub proof fn law_numbers_are_whole(b: Seq<u8>, i: int)
    requires
        0 <= i <= b.len(),
    ensures
        i <= lex::digits_end(b, i) <= b.len(),
        forall|k: int| i <= k < lex::digits_end(b, i) ==> lex::in_digits(#[trigger] b[k]),
        lex::digits_end(b, i) < b.len() ==> !lex::in_digits(b[lex::digits_end(b, i)]),
    decreases b.len() - i,
{
    if i < b.len() && lex::in_digits(b[i]) {
        law_numbers_are_whole(b, i + 1);
    }
}

/// A comment to the end of the line goes up to the next newline, or to the end of the text.
pub proof fn law_lines_are_whole(b: Seq<u8>, i: int)
    requires
        0 <= i <= b.len(),
    ensures
        i <= lex::line_end(b, i) <= b.len(),
        forall|k: int| i <= k < lex::line_end(b, i) ==> #[trigger] b[k] != 10,
        lex::line_end(b, i) < b.len() ==> b[lex::line_end(b, i)] == 10,
    decreases b.len() - i,
{
    if i < b.len() && b[i] != 10 {
        law_lines_are_whole(b, i + 1);
    }
}

/// A block comment ends in `*/`, and one that holds others ends behind them: from inside
/// `d` more levels, it ends where those end and then the rest does.
pub proof fn law_comments_nest(b: Seq<u8>, i: int, d: nat, e: nat)
    requires
        0 <= i <= b.len(),
    ensures
        lex::comment_end(b, i, d) matches Some(j) ==> i <= j <= b.len() && (d > 0 ==> j >= i + 2 && b[j - 2] == 42 && b[j - 1] == 47),
        lex::comment_end(b, i, d + e) == match lex::comment_end(b, i, d) {
            Some(j) => lex::comment_end(b, j, e),
            None => None,
        },
    decreases b.len() - i,
{
    if d > 0 && i + 1 < b.len() {
        if b[i] == 47 && b[i + 1] == 42 {
            law_comments_nest(b, i + 2, d + 1, e);
        } else if b[i] == 42 && b[i + 1] == 47 {
            law_comments_nest(b, i + 2, (d - 1) as nat, e);
        } else {
            law_comments_nest(b, i + 1, d, e);
        }
    }
}

/// An underscore between digits changes neither the number nor how many digits it has.
pub proof fn law_separators_do_not_count(b: Seq<u8>, lo: int, hi: int)
    requires
        lo < hi,
        b[hi - 1] == 95,
    ensures
        lex::digits_value(b, lo, hi) == lex::digits_value(b, lo, hi - 1),
        lex::digits_count(b, lo, hi) == lex::digits_count(b, lo, hi - 1),
{
}

/// The value of digits in front of others counts ten times for each of those.
pub proof fn law_digits_have_their_places(b: Seq<u8>, lo: int, mid: int, hi: int)
    requires
        lo <= mid <= hi,
    ensures
        lex::digits_count(b, lo, hi) == lex::digits_count(b, lo, mid) + lex::digits_count(b, mid, hi),
        lex::digits_value(b, lo, hi) == lex::digits_value(b, lo, mid) * vstd::arithmetic::power::pow(
            10,
            lex::digits_count(b, mid, hi),
        ) + lex::digits_value(b, mid, hi),
    decreases hi - mid,
{
    vstd::arithmetic::power::lemma_pow0(10);
    if mid < hi {
        law_digits_have_their_places(b, lo, mid, hi - 1);
        if lex::is_digit(b[hi - 1]) {
            let n = lex::digits_count(b, mid, hi - 1);
            let v = lex::digits_value(b, lo, mid) as int;
            let p = vstd::arithmetic::power::pow(10, n);
            vstd::arithmetic::power::lemma_pow_adds(10, n, 1);
            vstd::arithmetic::power::lemma_pow1(10);
            assert(vstd::arithmetic::power::pow(10, n + 1) == p * 10);
            assert(10 * (v * p) == v * (p * 10)) by (nonlinear_arith);
        }
    }
}

} // verus!

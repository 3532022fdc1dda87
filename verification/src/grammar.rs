//! The grammar of a template body, as functions on a sequence of characters.
//!
//! Each function reads at a position and gives what it read together with
//! the position after it, or `None` where the text does not fit. A failure
//! inside a line is final: the body as a whole then does not parse.
use vstd::prelude::*;
use crate::text::{
    digits_end, has_at, is_alphanumeric, is_digit, lemma_run_end_bounds, number_value, run_end,
    spaces_end,
};
use crate::token::Tree;

verus! {

/// `lit` at `pos`: the position after it.
pub open spec fn literal(s: Seq<char>, pos: int, lit: Seq<char>) -> Option<int> {
    if has_at(s, pos, lit) {
        Some(pos + lit.len())
    } else {
        None
    }
}

/// White space, then `lit`.
pub open spec fn symbol(s: Seq<char>, pos: int, lit: Seq<char>) -> Option<int> {
    literal(s, spaces_end(s, pos), lit)
}

/// White space, then `word`, which no letter or digit may follow.
pub open spec fn reserved(s: Seq<char>, pos: int, word: Seq<char>) -> Option<int> {
    match symbol(s, pos, word) {
        Some(p) => if 0 <= p < s.len() && is_alphanumeric(s[p]) {
            None
        } else {
            Some(p)
        },
        None => None,
    }
}

/// One or more digits whose value fits in a `usize`.
pub open spec fn number(s: Seq<char>, pos: int) -> Option<(nat, int)> {
    let e = digits_end(s, pos);
    let v = number_value(s.subrange(pos, e));
    if pos < e && v <= usize::MAX {
        Some((v, e))
    } else {
        None
    }
}

/// The end of the longest run of characters other than `"`.
pub open spec fn quoted_end(s: Seq<char>, pos: int) -> int {
    run_end(s, pos, |c: char| c != '"')
}

/// A string between two `"`; it holds no `"`.
pub open spec fn string_lit(s: Seq<char>, pos: int) -> Option<(Seq<char>, int)> {
    if 0 <= pos < s.len() && s[pos] == '"' && quoted_end(s, pos + 1) < s.len() {
        Some((s.subrange(pos + 1, quoted_end(s, pos + 1)), quoted_end(s, pos + 1) + 1))
    } else {
        None
    }
}

/// String literals, each followed by optional white space, after those in
/// `acc`. The list ends before the first character that is no `"`.
pub open spec fn string_lits(s: Seq<char>, pos: int, acc: Seq<Seq<char>>) -> Option<
    (Seq<Seq<char>>, int),
>
    decreases s.len() - pos,
{
    if 0 <= pos < s.len() && s[pos] == '"' {
        match string_lit(s, pos) {
            Some((lit, e)) => {
                proof {
                    lemma_run_end_bounds(s, pos + 1, |c: char| c != '"');
                    lemma_run_end_bounds(s, e, |c: char| crate::text::is_space(c));
                }
                string_lits(s, spaces_end(s, e), acc.push(lit))
            },
            None => None,
        }
    } else {
        Some((acc, pos))
    }
}

/// A field with alternatives:
/// `${` number `:` `$$(` `yas-choose-value` `'(` literals `)` `)` `}`.
pub open spec fn choice(s: Seq<char>, pos: int) -> Option<(Tree, int)> {
    match literal(s, pos, "${"@) {
        None => None,
        Some(p0) => match number(s, p0) {
            None => None,
            Some((n, p1)) => match symbol(s, p1, ":"@) {
                None => None,
                Some(p2) => match literal(s, p2, "$$("@) {
                    None => None,
                    Some(p3) => match reserved(s, p3, "yas-choose-value"@) {
                        None => None,
                        Some(p4) => match symbol(s, p4, "'("@) {
                            None => None,
                            Some(p5) => match string_lits(s, spaces_end(s, p5), Seq::empty()) {
                                None => None,
                                Some((alts, p6)) => match literal(s, p6, ")"@) {
                                    None => None,
                                    Some(p7) => match symbol(s, p7, ")"@) {
                                        None => None,
                                        Some(p8) => match symbol(s, p8, "}"@) {
                                            None => None,
                                            Some(p9) => Some(
                                                (Tree::Choice { number: n, alternatives: alts }, p9),
                                            ),
                                        },
                                    },
                                },
                            },
                        },
                    },
                },
            },
        },
    }
}

/// Whether the `$` at `pos` starts a field: `{` or a digit follows it.
pub open spec fn starts_field(s: Seq<char>, pos: int) -> bool {
    0 <= pos && pos + 1 < s.len() && s[pos] == '$' && (s[pos + 1] == '{' || is_digit(s[pos + 1]))
}

/// A character that literal text cannot hold: a carriage return, a line
/// feed, `$`, and inside the braces of a field also `}`.
pub open spec fn ends_text(c: char, inside: bool) -> bool {
    c == '\r' || c == '\n' || c == '$' || (inside && c == '}')
}

/// The end of the longest run of literal text.
pub open spec fn text_end(s: Seq<char>, pos: int, inside: bool) -> int {
    run_end(s, pos, |c: char| !ends_text(c, inside))
}

/// The tree of a list: its only member, or else the list.
pub open spec fn collapse(ts: Seq<Tree>, stacked: bool) -> Tree {
    if ts.len() == 1 {
        ts[0]
    } else if stacked {
        Tree::Lines(ts)
    } else {
        Tree::Inline(ts)
    }
}

/// A field: `$` number, or `${` number `:` lines `}`.
pub open spec fn tabstop(s: Seq<char>, pos: int) -> Option<(Tree, int)>
    decreases s.len() - pos, 0nat,
{
    if !(0 <= pos < s.len() && s[pos] == '$') {
        None
    } else if pos + 1 < s.len() && s[pos + 1] == '{' {
        match number(s, pos + 2) {
            None => None,
            Some((n, p1)) => match symbol(s, p1, ":"@) {
                None => None,
                Some(p2) => {
                    proof {
                        lemma_run_end_bounds(s, pos + 2, |c: char| is_digit(c));
                        lemma_run_end_bounds(s, p1, |c: char| crate::text::is_space(c));
                    }
                    match lines(s, p2, true) {
                        None => None,
                        Some((body, p3)) => match symbol(s, p3, "}"@) {
                            None => None,
                            Some(p4) => Some(
                                (Tree::Tabstop { number: n, contents: Some(Box::new(body)) }, p4),
                            ),
                        },
                    }
                },
            },
        }
    } else {
        match number(s, pos + 1) {
            None => None,
            Some((n, p)) => Some((Tree::Tabstop { number: n, contents: None }, p)),
        }
    }
}

/// A field with alternatives, or else a field.
pub open spec fn primitive(s: Seq<char>, pos: int) -> Option<(Tree, int)>
    decreases s.len() - pos, 1nat,
{
    match choice(s, pos) {
        Some(r) => Some(r),
        None => tabstop(s, pos),
    }
}

/// Literal text: a `$` that starts no field, or the longest run of
/// characters that literal text can hold, which is not empty.
pub open spec fn raw(s: Seq<char>, pos: int, inside: bool) -> Option<(Tree, int)> {
    if !(0 <= pos < s.len()) || starts_field(s, pos) {
        None
    } else if s[pos] == '$' {
        Some((Tree::Raw(seq!['$']), pos + 1))
    } else if ends_text(s[pos], inside) {
        None
    } else {
        Some((Tree::Raw(s.subrange(pos, text_end(s, pos, inside))), text_end(s, pos, inside)))
    }
}

/// The fragments of a line after those in `acc`: literal text and fields,
/// up to the first character that starts neither. A `$` that starts a field
/// has to be followed by a whole one. A fragment reads at least one
/// character.
pub open spec fn fragments(s: Seq<char>, pos: int, inside: bool, acc: Seq<Tree>) -> Option<
    (Seq<Tree>, int),
>
    decreases s.len() - pos, 2nat,
{
    match raw(s, pos, inside) {
        Some((t, p)) => {
            proof {
                lemma_run_end_bounds(s, pos, |c: char| !ends_text(c, inside));
                lemma_run_end_bounds(s, pos + 1, |c: char| !ends_text(c, inside));
            }
            fragments(s, p, inside, acc.push(t))
        },
        None => if starts_field(s, pos) {
            match primitive(s, pos) {
                Some((t, p)) => if pos < p <= s.len() {
                    fragments(s, p, inside, acc.push(t))
                } else {
                    None
                },
                None => None,
            }
        } else {
            Some((acc, pos))
        },
    }
}

/// A line: its fragments, collapsed.
pub open spec fn line(s: Seq<char>, pos: int, inside: bool) -> Option<(Tree, int)>
    decreases s.len() - pos, 3nat,
{
    match fragments(s, pos, inside, Seq::empty()) {
        Some((ts, p)) => Some((collapse(ts, false), p)),
        None => None,
    }
}

/// The lines after those in `acc`: a line, and another after each line feed.
pub open spec fn line_seq(s: Seq<char>, pos: int, inside: bool, acc: Seq<Tree>) -> Option<
    (Seq<Tree>, int),
>
    decreases s.len() - pos, 4nat,
{
    match line(s, pos, inside) {
        Some((t, p)) => if pos <= p < s.len() && s[p] == '\n' {
            line_seq(s, p + 1, inside, acc.push(t))
        } else {
            Some((acc.push(t), p))
        },
        None => None,
    }
}

/// Lines separated by line feeds, collapsed.
pub open spec fn lines(s: Seq<char>, pos: int, inside: bool) -> Option<(Tree, int)>
    decreases s.len() - pos, 5nat,
{
    match line_seq(s, pos, inside, Seq::empty()) {
        Some((ts, p)) => Some((collapse(ts, true), p)),
        None => None,
    }
}

/// The tree of a whole body: lines that end where the body ends.
pub open spec fn snippet(s: Seq<char>) -> Option<Tree> {
    match lines(s, 0, false) {
        Some((t, p)) => if p == s.len() {
            Some(t)
        } else {
            None
        },
        None => None,
    }
}

} // verus!

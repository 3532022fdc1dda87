//! What holds of every tree that the grammar gives, and of the positions at
//! which its functions stop.
use vstd::prelude::*;
use crate::grammar::{
    choice, ends_text, fragments, line, line_seq, lines, literal, number, primitive, reserved,
    snippet, starts_field, string_lit, string_lits, symbol, tabstop, text_end,
};
use crate::text::{is_digit, is_space, lemma_run_end_bounds, spaces_end};
use crate::token::Tree;

verus! {

/// Literal text as the grammar reads it: a single `$`, or a text that is
/// not empty and holds no `$` and no line break.
pub open spec fn literal_text(s: Seq<char>) -> bool {
    s == seq!['$'] || (s.len() > 0 && forall|i: int|
        0 <= i < s.len() ==> !ends_text(#[trigger] s[i], false))
}

/// A text without `"`.
pub open spec fn quote_free(s: Seq<char>) -> bool {
    forall|i: int| 0 <= i < s.len() ==> #[trigger] s[i] != '"'
}

/// Texts without `"`.
pub open spec fn all_quote_free(ss: Seq<Seq<char>>) -> bool {
    forall|i: int| 0 <= i < ss.len() ==> quote_free(#[trigger] ss[i])
}

/// A tree as the grammar builds it: its literal text is as the grammar
/// reads it, its numbers fit in a `usize`, and its alternatives hold no `"`.
pub open spec fn well_formed(t: Tree) -> bool
    decreases t,
{
    match t {
        Tree::Raw(s) => literal_text(s),
        Tree::Lines(ts) => forall|i: int| 0 <= i < ts.len() ==> well_formed(#[trigger] ts[i]),
        Tree::Inline(ts) => forall|i: int| 0 <= i < ts.len() ==> well_formed(#[trigger] ts[i]),
        Tree::Tabstop { number, contents: None } => number <= usize::MAX,
        Tree::Tabstop { number, contents: Some(c) } => number <= usize::MAX && well_formed(*c),
        Tree::Choice { number, alternatives } => number <= usize::MAX && all_quote_free(
            alternatives,
        ),
    }
}

/// Trees as the grammar builds them.
pub open spec fn all_well_formed(ts: Seq<Tree>) -> bool {
    forall|i: int| 0 <= i < ts.len() ==> well_formed(#[trigger] ts[i])
}

/// A symbol ends after where it was looked for, within the text.
pub proof fn lemma_symbol_bounds(s: Seq<char>, pos: int, lit: Seq<char>)
    requires
        0 <= pos <= s.len(),
    ensures
        symbol(s, pos, lit) matches Some(p) ==> pos + lit.len() <= p <= s.len(),
{
    lemma_run_end_bounds(s, pos, |c: char| is_space(c));
}

/// A number reads at least one digit, and its value fits in a `usize`.
pub proof fn lemma_number_bounds(s: Seq<char>, pos: int)
    requires
        0 <= pos <= s.len(),
    ensures
        number(s, pos) matches Some((n, e)) ==> pos < e <= s.len() && n <= usize::MAX,
{
    lemma_run_end_bounds(s, pos, |c: char| is_digit(c));
}

/// The string literals of a list hold no `"`, and the list ends within the
/// text.
pub proof fn lemma_string_lits_sound(s: Seq<char>, pos: int, acc: Seq<Seq<char>>)
    requires
        0 <= pos <= s.len(),
        all_quote_free(acc),
    ensures
        string_lits(s, pos, acc) matches Some((alts, e)) ==> pos <= e <= s.len()
            && all_quote_free(alts),
    decreases s.len() - pos,
{
    if pos < s.len() && s[pos] == '"' {
        match string_lit(s, pos) {
            Some((lit, e)) => {
                lemma_run_end_bounds(s, pos + 1, |c: char| c != '"');
                lemma_run_end_bounds(s, e, |c: char| is_space(c));
                assert(quote_free(lit)) by {
                    assert forall|i: int| 0 <= i < lit.len() implies #[trigger] lit[i] != '"' by {
                        assert(lit[i] == s[pos + 1 + i]);
                    }
                }
                let next = acc.push(lit);
                assert(all_quote_free(next)) by {
                    assert forall|i: int| 0 <= i < next.len() implies quote_free(
                        #[trigger] next[i],
                    ) by {
                        if i < acc.len() {
                            assert(next[i] == acc[i]);
                        }
                    }
                }
                lemma_string_lits_sound(s, spaces_end(s, e), next);
            },
            None => {},
        }
    }
}

/// A field with alternatives reads at least one character, and its tree is
/// well formed.
#[verifier::rlimit(100)]
pub proof fn lemma_choice_sound(s: Seq<char>, pos: int)
    requires
        0 <= pos <= s.len(),
    ensures
        choice(s, pos) matches Some((t, p)) ==> pos < p <= s.len() && well_formed(t),
{
    reveal_strlit("${");
    if let Some(p0) = literal(s, pos, "${"@) {
        lemma_number_bounds(s, p0);
        if let Some((n, p1)) = number(s, p0) {
            lemma_symbol_bounds(s, p1, ":"@);
            if let Some(p2) = symbol(s, p1, ":"@) {
                if let Some(p3) = literal(s, p2, "$$("@) {
                    lemma_symbol_bounds(s, p3, "yas-choose-value"@);
                    if let Some(p4) = reserved(s, p3, "yas-choose-value"@) {
                        lemma_symbol_bounds(s, p4, "'("@);
                        if let Some(p5) = symbol(s, p4, "'("@) {
                            lemma_run_end_bounds(s, p5, |c: char| is_space(c));
                            lemma_string_lits_sound(s, spaces_end(s, p5), Seq::empty());
                            if let Some((alts, p6)) = string_lits(
                                s,
                                spaces_end(s, p5),
                                Seq::empty(),
                            ) {
                                if let Some(p7) = literal(s, p6, ")"@) {
                                    lemma_symbol_bounds(s, p7, ")"@);
                                    if let Some(p8) = symbol(s, p7, ")"@) {
                                        lemma_symbol_bounds(s, p8, "}"@);
                                    }
                                }
                            }
                        }
                    }
                }
            }
        }
    }
}

/// A field reads at least one character, and its tree is well formed.
pub proof fn lemma_tabstop_sound(s: Seq<char>, pos: int)
    requires
        0 <= pos <= s.len(),
    ensures
        tabstop(s, pos) matches Some((t, p)) ==> pos < p <= s.len() && well_formed(t),
    decreases s.len() - pos, 0nat,
{
    if pos < s.len() && s[pos] == '$' {
        if pos + 1 < s.len() && s[pos + 1] == '{' {
            lemma_number_bounds(s, pos + 2);
            if let Some((n, p1)) = number(s, pos + 2) {
                lemma_symbol_bounds(s, p1, ":"@);
                if let Some(p2) = symbol(s, p1, ":"@) {
                    lemma_lines_sound(s, p2, true);
                    if let Some((body, p3)) = lines(s, p2, true) {
                        lemma_symbol_bounds(s, p3, "}"@);
                    }
                }
            }
        } else {
            lemma_number_bounds(s, pos + 1);
        }
    }
}

/// A field of either kind reads at least one character, and its tree is
/// well formed.
pub proof fn lemma_primitive_sound(s: Seq<char>, pos: int)
    requires
        0 <= pos <= s.len(),
    ensures
        primitive(s, pos) matches Some((t, p)) ==> pos < p <= s.len() && well_formed(t),
    decreases s.len() - pos, 1nat,
{
    lemma_choice_sound(s, pos);
    lemma_tabstop_sound(s, pos);
}

/// One more well-formed tree keeps a list well formed.
pub proof fn lemma_push_well_formed(acc: Seq<Tree>, t: Tree)
    requires
        all_well_formed(acc),
        well_formed(t),
    ensures
        all_well_formed(acc.push(t)),
{
    let next = acc.push(t);
    assert forall|i: int| 0 <= i < next.len() implies well_formed(#[trigger] next[i]) by {
        if i < acc.len() {
            assert(next[i] == acc[i]);
        }
    }
}

/// The fragments of a line are well formed, and the line ends within the
/// text. In particular no field is refused for having read nothing.
pub proof fn lemma_fragments_sound(s: Seq<char>, pos: int, inside: bool, acc: Seq<Tree>)
    requires
        0 <= pos <= s.len(),
        all_well_formed(acc),
    ensures
        fragments(s, pos, inside, acc) matches Some((ts, p)) ==> pos <= p <= s.len()
            && all_well_formed(ts),
        starts_field(s, pos) ==> fragments(s, pos, inside, acc) == match primitive(s, pos) {
            Some((t, p)) => fragments(s, p, inside, acc.push(t)),
            None => None,
        },
    decreases s.len() - pos, 2nat,
{
    if pos < s.len() {
        if starts_field(s, pos) {
            lemma_primitive_sound(s, pos);
            if let Some((t, p)) = primitive(s, pos) {
                lemma_push_well_formed(acc, t);
                lemma_fragments_sound(s, p, inside, acc.push(t));
            }
        } else if s[pos] == '$' {
            let t = Tree::Raw(seq!['$']);
            lemma_push_well_formed(acc, t);
            lemma_fragments_sound(s, pos + 1, inside, acc.push(t));
        } else if !ends_text(s[pos], inside) {
            let e = text_end(s, pos, inside);
            lemma_run_end_bounds(s, pos, |c: char| !ends_text(c, inside));
            lemma_run_end_bounds(s, pos + 1, |c: char| !ends_text(c, inside));
            let t = Tree::Raw(s.subrange(pos, e));
            assert(literal_text(s.subrange(pos, e))) by {
                assert forall|i: int| 0 <= i < e - pos implies !ends_text(
                    #[trigger] s.subrange(pos, e)[i],
                    false,
                ) by {
                    assert(!ends_text(s[pos + i], inside));
                }
            }
            lemma_push_well_formed(acc, t);
            lemma_fragments_sound(s, e, inside, acc.push(t));
        }
    }
}

/// A line is well formed and ends within the text.
pub proof fn lemma_line_sound(s: Seq<char>, pos: int, inside: bool)
    requires
        0 <= pos <= s.len(),
    ensures
        line(s, pos, inside) matches Some((t, p)) ==> pos <= p <= s.len() && well_formed(t),
    decreases s.len() - pos, 3nat,
{
    lemma_fragments_sound(s, pos, inside, Seq::empty());
}

/// Lines are well formed and end within the text. In particular no line is
/// refused for having ended before its start.
pub proof fn lemma_line_seq_sound(s: Seq<char>, pos: int, inside: bool, acc: Seq<Tree>)
    requires
        0 <= pos <= s.len(),
        all_well_formed(acc),
    ensures
        line_seq(s, pos, inside, acc) matches Some((ts, p)) ==> pos <= p <= s.len()
            && all_well_formed(ts),
        line_seq(s, pos, inside, acc) == match line(s, pos, inside) {
            Some((t, p)) => if p < s.len() && s[p] == '\n' {
                line_seq(s, p + 1, inside, acc.push(t))
            } else {
                Some((acc.push(t), p))
            },
            None => None,
        },
    decreases s.len() - pos, 4nat,
{
    lemma_line_sound(s, pos, inside);
    if let Some((t, p)) = line(s, pos, inside) {
        lemma_push_well_formed(acc, t);
        if p < s.len() && s[p] == '\n' {
            lemma_line_seq_sound(s, p + 1, inside, acc.push(t));
        }
    }
}

/// The tree of some lines is well formed, and the lines end within the text.
pub proof fn lemma_lines_sound(s: Seq<char>, pos: int, inside: bool)
    requires
        0 <= pos <= s.len(),
    ensures
        lines(s, pos, inside) matches Some((t, p)) ==> pos <= p <= s.len() && well_formed(t),
    decreases s.len() - pos, 5nat,
{
    lemma_line_seq_sound(s, pos, inside, Seq::empty());
}

/// The tree of a template body is well formed: literal text holds no `$`
/// that could start a field, and no line break.
pub proof fn lemma_snippet_well_formed(s: Seq<char>)
    ensures
        snippet(s) matches Some(t) ==> well_formed(t),
{
    lemma_lines_sound(s, 0, false);
}

} // verus!

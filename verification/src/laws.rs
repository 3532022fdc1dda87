//! What holds of parsing and rendering together.
use vstd::prelude::*;
use crate::grammar::{
    choice, collapse, ends_text, fragments, line, line_seq, lines, literal, number, primitive, raw,
    snippet, starts_field, symbol, tabstop, text_end,
};
use crate::text::{
    decimal, digit_char, digit_value, digits_end, has_at, is_digit, number_value, run_end,
    spaces_end,
};
use crate::token::{
    bare_field, conversion_warnings, converted_lines, field_with_choice, field_with_default, join,
    join_first, render, render_row, render_stack, Tree,
};
use crate::Warning;

verus! {

/// A run ends at `e` where every character from `pos` to `e` satisfies `p`
/// and the text ends at `e` or the character there does not.
pub proof fn lemma_run_end_is(s: Seq<char>, pos: int, e: int, p: spec_fn(char) -> bool)
    requires
        0 <= pos <= e <= s.len(),
        forall|i: int| pos <= i < e ==> p(#[trigger] s[i]),
        e < s.len() ==> !p(s[e]),
    ensures
        run_end(s, pos, p) == e,
    decreases e - pos,
{
    if pos < e {
        lemma_run_end_is(s, pos + 1, e, p);
    }
}

/// A number written in base ten is made of digits and denotes the number.
pub proof fn lemma_decimal(n: nat)
    ensures
        decimal(n).len() >= 1,
        forall|i: int| 0 <= i < decimal(n).len() ==> is_digit(#[trigger] decimal(n)[i]),
        number_value(decimal(n)) == n,
    decreases n,
{
    let d = digit_char(n % 10);
    assert(is_digit(d) && digit_value(d) == n % 10);
    if n >= 10 {
        lemma_decimal(n / 10);
        assert(decimal(n).drop_last() =~= decimal(n / 10));
    } else {
        assert(decimal(n).drop_last() =~= Seq::<char>::empty());
        assert(number_value(decimal(n).drop_last()) == 0);
    }
}

/// Every text converts to the rendering of its tree without a warning, or,
/// where it has no tree, to itself as the only line with the warning that it
/// did not parse.
pub proof fn lemma_conversion_is_total(body: Seq<char>)
    ensures
        match snippet(body) {
            Some(t) => converted_lines(body) == render(t) && conversion_warnings(body)
                == Seq::<Warning>::empty(),
            None => converted_lines(body) == seq![body] && conversion_warnings(body)
                == seq![Warning::SnippetBodyParseFailed],
        },
{
}

/// A field whose default text renders to nothing renders as the bare
/// reference to the field.
pub proof fn lemma_empty_default_renders_bare(number: nat, contents: Tree)
    requires
        join(render(contents), seq!['\n']).len() == 0,
    ensures
        render(Tree::Tabstop { number, contents: Some(Box::new(contents)) }) == render(
            Tree::Tabstop { number, contents: None },
        ),
{
}

/// The references to one field without text of their own render alike,
/// wherever they stand.
pub proof fn lemma_mirrors_render_alike(number: nat)
    ensures
        render(Tree::Tabstop { number, contents: None }) == seq![bare_field(number)],
{
}

/// Text without a line break and without `$` parses as itself and converts
/// to itself.
#[verifier::rlimit(100)]
pub proof fn lemma_plain_text_converts_to_itself(s: Seq<char>)
    requires
        forall|i: int| 0 <= i < s.len() ==> !ends_text(#[trigger] s[i], false),
    ensures
        s.len() > 0 ==> snippet(s) == Some(Tree::Raw(s)),
        s.len() == 0 ==> snippet(s) == Some(Tree::Inline(Seq::empty())),
        converted_lines(s) == seq![s],
        conversion_warnings(s) == Seq::<Warning>::empty(),
{
    let none = Seq::<Tree>::empty();
    if s.len() == 0 {
        assert(fragments(s, 0, false, none) == Some((none, 0int)));
        assert(line(s, 0, false) == Some((Tree::Inline(none), 0int)));
        let one = none.push(Tree::Inline(none));
        assert(line_seq(s, 0, false, none) == Some((one, 0int)));
        assert(collapse(one, true) == Tree::Inline(none));
        assert(lines(s, 0, false) == Some((Tree::Inline(none), 0int)));
        assert(render_row(none, 0) =~= s);
    } else {
        let e = s.len() as int;
        lemma_run_end_is(s, 0, e, |c: char| !ends_text(c, false));
        assert(text_end(s, 0, false) == e);
        assert(s.subrange(0, e) =~= s);
        assert(!ends_text(s[0], false));
        let one = none.push(Tree::Raw(s));
        assert(fragments(s, e, false, one) == Some((one, e)));
        assert(fragments(s, 0, false, none) == Some((one, e)));
        assert(line(s, 0, false) == Some((Tree::Raw(s), e)));
        assert(line_seq(s, 0, false, none) == Some((one, e)));
        assert(lines(s, 0, false) == Some((Tree::Raw(s), e)));
    }
}

/// The bare reference to a field parses as that field and converts to
/// itself.
#[verifier::rlimit(100)]
pub proof fn lemma_bare_field_converts_to_itself(n: nat)
    requires
        n <= usize::MAX,
    ensures
        snippet(bare_field(n)) == Some(Tree::Tabstop { number: n, contents: None }),
        converted_lines(bare_field(n)) == seq![bare_field(n)],
        conversion_warnings(bare_field(n)) == Seq::<Warning>::empty(),
{
    let x = bare_field(n);
    let e = x.len() as int;
    let t = Tree::Tabstop { number: n, contents: None };
    let none = Seq::<Tree>::empty();
    let one = none.push(t);
    lemma_decimal(n);
    reveal_strlit("${");
    assert(x[0] == '$');
    assert forall|i: int| 1 <= i < e implies is_digit(#[trigger] x[i]) by {
        assert(x[i] == decimal(n)[i - 1]);
    }
    assert(is_digit(x[1]));
    assert(starts_field(x, 0));
    assert(!has_at(x, 0, "${"@)) by {
        if has_at(x, 0, "${"@) {
            assert(x.subrange(0, 2)[1] == "${"@[1]);
        }
    }
    assert(choice(x, 0) is None);
    lemma_run_end_is(x, 1, e, |c: char| is_digit(c));
    assert(digits_end(x, 1) == e);
    assert(x.subrange(1, e) =~= decimal(n));
    assert(number(x, 1) == Some((n, e)));
    assert(tabstop(x, 0) == Some((t, e)));
    assert(primitive(x, 0) == Some((t, e)));
    assert(fragments(x, e, false, one) == Some((one, e)));
    assert(fragments(x, 0, false, none) == Some((one, e)));
    assert(line(x, 0, false) == Some((t, e)));
    assert(line_seq(x, 0, false, none) == Some((one, e)));
    assert(lines(x, 0, false) == Some((t, e)));
}

/// Text that no context splits: it holds no line break, no `$` and no `}`.
pub open spec fn plain(s: Seq<char>) -> bool {
    forall|i: int| 0 <= i < s.len() ==> !ends_text(#[trigger] s[i], true)
}

/// A tree of plain text, fields whose numbers fit in a `usize`, and fields
/// with alternatives; the default text of a field is such a tree again.
pub open spec fn simple(t: Tree) -> bool
    decreases t,
{
    match t {
        Tree::Raw(s) => plain(s),
        Tree::Tabstop { number, contents: None } => number <= usize::MAX,
        Tree::Tabstop { number, contents: Some(c) } => number <= usize::MAX && simple(*c),
        Tree::Choice { number, alternatives } => true,
        _ => false,
    }
}

/// A tree that holds no field with alternatives.
pub open spec fn choice_free(t: Tree) -> bool
    decreases t,
{
    match t {
        Tree::Tabstop { number, contents: Some(c) } => choice_free(*c),
        Tree::Choice { number, alternatives } => false,
        _ => true,
    }
}

/// The characters of a text that stands in another.
pub proof fn lemma_has_at_index(x: Seq<char>, pos: int, lit: Seq<char>)
    requires
        has_at(x, pos, lit),
    ensures
        forall|i: int| 0 <= i < lit.len() ==> x[pos + i] == #[trigger] lit[i],
{
    assert forall|i: int| 0 <= i < lit.len() implies x[pos + i] == #[trigger] lit[i] by {
        assert(x.subrange(pos, pos + lit.len())[i] == x[pos + i]);
    }
}

/// A number written in base ten is read back where no digit follows it.
pub proof fn lemma_number_at(x: Seq<char>, p: int, n: nat)
    requires
        0 <= p,
        p + decimal(n).len() <= x.len(),
        forall|i: int| 0 <= i < decimal(n).len() ==> x[p + i] == #[trigger] decimal(n)[i],
        p + decimal(n).len() < x.len() ==> !is_digit(x[p + decimal(n).len()]),
    ensures
        number(x, p) == if n <= usize::MAX {
            Some((n, p + decimal(n).len()))
        } else {
            None
        },
{
    let e = p + decimal(n).len();
    lemma_decimal(n);
    assert forall|i: int| p <= i < e implies is_digit(#[trigger] x[i]) by {
        assert(x[p + (i - p)] == decimal(n)[i - p]);
    }
    lemma_run_end_is(x, p, e, |c: char| is_digit(c));
    assert(x.subrange(p, e) =~= decimal(n));
}

/// A simple tree renders to one line; where the line starts with `$`, a
/// digit or `{` follows.
pub proof fn lemma_simple_line(t: Tree)
    requires
        simple(t),
    ensures
        render(t).len() == 1,
        join(render(t), seq!['\n']) == render(t)[0],
        render(t)[0].len() > 0 && render(t)[0][0] == '$' ==> render(t)[0].len() >= 2 && render(
            t,
        )[0][1] != '$',
        render(t)[0].len() == 0 ==> t is Raw,
    decreases t,
{
    match t {
        Tree::Tabstop { number, contents } => {
            lemma_decimal(number);
            match contents {
                Some(c) => {
                    lemma_simple_line(*c);
                },
                None => {},
            }
        },
        Tree::Choice { number, alternatives } => {
            lemma_decimal(number);
        },
        _ => {},
    }
}

/// A fragment list that stops: at the end of the text, or inside braces at
/// a `}`.
pub open spec fn stops_at(x: Seq<char>, e: int, inside: bool) -> bool {
    e == x.len() || (0 <= e < x.len() && inside && x[e] == '}')
}

/// The bare reference to a field, read as a fragment of a line that stops
/// after it, is that field.
#[verifier::rlimit(100)]
proof fn lemma_bare_fragment(
    n: nat,
    x: Seq<char>,
    pos: int,
    inside: bool,
    acc: Seq<Tree>,
)
    requires
        n <= usize::MAX,
        has_at(x, pos, bare_field(n)),
        stops_at(x, pos + bare_field(n).len(), inside),
    ensures
        fragments(x, pos, inside, acc) == Some(
            (acc.push(Tree::Tabstop { number: n, contents: None }), pos + bare_field(n).len()),
        ),
{
    let t = Tree::Tabstop { number: n, contents: None };
    let e = pos + bare_field(n).len();
    lemma_mirror_step(n, x, pos, inside, acc);
    assert(raw(x, e, inside) is None);
    assert(fragments(x, e, inside, acc.push(t)) == Some((acc.push(t), e)));
}

/// Plain text, read as a fragment of a line that stops after it, is that
/// text.
#[verifier::rlimit(100)]
proof fn lemma_raw_fragment(s: Seq<char>, x: Seq<char>, pos: int, inside: bool, acc: Seq<Tree>)
    requires
        plain(s),
        s.len() > 0,
        has_at(x, pos, s),
        stops_at(x, pos + s.len(), inside),
    ensures
        fragments(x, pos, inside, acc) == Some((acc.push(Tree::Raw(s)), pos + s.len())),
{
    let t = Tree::Raw(s);
    let e = pos + s.len();
    assert forall|i: int| 0 <= i < s.len() implies !ends_text(#[trigger] s[i], inside) by {
        assert(!ends_text(s[i], true));
    }
    lemma_text_step(s, x, pos, inside, acc);
    assert(raw(x, e, inside) is None);
    assert(fragments(x, e, inside, acc.push(t)) == Some((acc.push(t), e)));
}

/// What stands where a field in braces stands: `${`, the number, and the
/// character `mark` after it.
#[verifier::rlimit(100)]
proof fn lemma_field_head(x: Seq<char>, pos: int, r: Seq<char>, n: nat, mark: char)
    requires
        has_at(x, pos, r),
        r.len() > 2 + decimal(n).len(),
        r.subrange(0, 3 + decimal(n).len() as int) == seq!['$', '{'] + decimal(n) + seq![mark],
        !is_digit(mark),
    ensures
        starts_field(x, pos),
        literal(x, pos, "${"@) == Some(pos + 2),
        x[pos + 1] == '{',
        x[pos + 2 + decimal(n).len()] == mark,
        number(x, pos + 2) == if n <= usize::MAX {
            Some((n, pos + 2 + decimal(n).len()))
        } else {
            None
        },
{
    let d = decimal(n);
    let h = seq!['$', '{'] + d + seq![mark];
    lemma_decimal(n);
    lemma_has_at_index(x, pos, r);
    reveal_strlit("${");
    assert forall|i: int| 0 <= i < h.len() implies x[pos + i] == #[trigger] h[i] by {
        assert(r.subrange(0, 3 + d.len() as int)[i] == r[i]);
    }
    assert(x[pos + 0] == h[0]);
    assert(x[pos + 1] == h[1]);
    assert forall|i: int| 0 <= i < d.len() implies x[pos + 2 + i] == #[trigger] d[i] by {
        assert(x[pos + (2 + i)] == h[2 + i]);
    }
    assert(x[pos + (2 + d.len())] == h[2 + d.len() as int]);
    lemma_number_at(x, pos + 2, n);
    assert(x.subrange(pos, pos + 2) =~= "${"@);
}

/// A line does not parse where the rendering of a field with alternatives
/// stands: no colon follows the number.
#[verifier::rlimit(100)]
proof fn lemma_choice_fragment(
    n: nat,
    alts: Seq<Seq<char>>,
    x: Seq<char>,
    pos: int,
    inside: bool,
    acc: Seq<Tree>,
)
    requires
        has_at(x, pos, field_with_choice(n, alts)),
    ensures
        fragments(x, pos, inside, acc) is None,
{
    let r = field_with_choice(n, alts);
    let k = pos + 2 + decimal(n).len();
    assert(r.subrange(0, 3 + decimal(n).len() as int) =~= seq!['$', '{'] + decimal(n) + seq!['|']);
    lemma_field_head(x, pos, r, n, '|');
    reveal_strlit(":");
    assert(spaces_end(x, k) == k);
    assert(!has_at(x, k, ":"@)) by {
        if has_at(x, k, ":"@) {
            assert(x.subrange(k, k + 1)[0] == ":"@[0]);
        }
    }
    assert(symbol(x, k, ":"@) is None);
    assert(choice(x, pos) is None);
    assert(tabstop(x, pos) is None);
    assert(primitive(x, pos) is None);
}

/// The default text of a field in braces stands after the colon, and the
/// closing brace after it.
proof fn lemma_field_body(x: Seq<char>, pos: int, n: nat, b: Seq<char>)
    requires
        has_at(x, pos, field_with_default(n, b)),
    ensures
        has_at(x, pos + 3 + decimal(n).len(), b),
        x[pos + 3 + decimal(n).len() + b.len()] == '}',
        pos + 4 + decimal(n).len() + b.len() <= x.len(),
        field_with_default(n, b).len() == 4 + decimal(n).len() + b.len(),
{
    let r = field_with_default(n, b);
    let d = decimal(n);
    let k = pos + 3 + d.len();
    lemma_has_at_index(x, pos, r);
    assert forall|i: int| 0 <= i < b.len() implies x[k + i] == #[trigger] b[i] by {
        assert(x[pos + (3 + d.len() + i)] == r[3 + d.len() as int + i]);
    }
    assert(x[pos + (3 + d.len() + b.len())] == r[3 + d.len() as int + b.len() as int]);
    assert(x.subrange(k, k + b.len()) =~= b);
}

/// Where a field with default text stands, no field with alternatives is
/// read: the default text does not start with `$$(`.
#[verifier::rlimit(100)]
proof fn lemma_default_is_no_choice(n: nat, b: Seq<char>, x: Seq<char>, pos: int)
    requires
        n <= usize::MAX,
        b.len() > 0,
        b[0] == '$' ==> b.len() >= 2 && b[1] != '$',
        has_at(x, pos, field_with_default(n, b)),
    ensures
        choice(x, pos) is None,
        number(x, pos + 2) == Some((n, pos + 2 + decimal(n).len())),
        symbol(x, pos + 2 + decimal(n).len(), ":"@) == Some(pos + 3 + decimal(n).len()),
        starts_field(x, pos),
        x[pos + 1] == '{',
{
    let r = field_with_default(n, b);
    let d = decimal(n);
    let k = pos + 2 + d.len();
    assert(r.subrange(0, 3 + d.len() as int) =~= seq!['$', '{'] + d + seq![':']);
    lemma_field_head(x, pos, r, n, ':');
    lemma_field_body(x, pos, n, b);
    lemma_has_at_index(x, k + 1, b);
    reveal_strlit(":");
    reveal_strlit("$$(");
    assert(spaces_end(x, k) == k);
    assert(x.subrange(k, k + 1) =~= ":"@);
    assert(symbol(x, k, ":"@) == Some(k + 1));
    assert(!has_at(x, k + 1, "$$("@)) by {
        if has_at(x, k + 1, "$$("@) {
            assert(x.subrange(k + 1, k + 4)[0] == "$$("@[0]);
            assert(x.subrange(k + 1, k + 4)[1] == "$$("@[1]);
            assert(x[k + 1 + 0] == b[0]);
            if b.len() >= 2 {
                assert(x[k + 1 + 1] == b[1]);
            }
        }
    }
    assert(literal(x, k + 1, "$$("@) is None);
}

/// The closing brace of a field is read where it stands.
proof fn lemma_closing_brace(x: Seq<char>, q: int)
    requires
        0 <= q < x.len(),
        x[q] == '}',
    ensures
        symbol(x, q, "}"@) == Some(q + 1),
{
    reveal_strlit("}");
    assert(spaces_end(x, q) == q);
    assert(x.subrange(q, q + 1) =~= "}"@);
}

/// Lines inside braces that are one fragment before the closing brace are
/// that fragment; lines whose fragments do not parse do not parse.
#[verifier::rlimit(100)]
proof fn lemma_lines_of_fragment(x: Seq<char>, p: int, uc: Tree, q: int)
    requires
        0 <= p <= q < x.len(),
        x[q] == '}',
        fragments(x, p, true, Seq::empty()) is None || fragments(x, p, true, Seq::empty())
            == Some((Seq::<Tree>::empty().push(uc), q)),
    ensures
        lines(x, p, true) == if fragments(x, p, true, Seq::empty()) is None {
            None
        } else {
            Some((uc, q))
        },
{
    let none = Seq::<Tree>::empty();
    if fragments(x, p, true, none) is None {
        assert(line(x, p, true) is None);
        assert(line_seq(x, p, true, none) is None);
    } else {
        let one = none.push(uc);
        assert(collapse(one, false) == uc);
        assert(line(x, p, true) == Some((uc, q)));
        assert(line_seq(x, p, true, none) == Some((one, q)));
        assert(collapse(one, true) == uc);
    }
}

/// What is read where a field with default text stands, given what its
/// default text is read as: nothing where the default text does not parse,
/// and else the field with the tree of the default text.
#[verifier::rlimit(100)]
proof fn lemma_default_tabstop(n: nat, b: Seq<char>, uc: Tree, x: Seq<char>, pos: int)
    requires
        n <= usize::MAX,
        b.len() > 0,
        b[0] == '$' ==> b.len() >= 2 && b[1] != '$',
        has_at(x, pos, field_with_default(n, b)),
        fragments(x, pos + 3 + decimal(n).len(), true, Seq::empty()) is None || fragments(
            x,
            pos + 3 + decimal(n).len(),
            true,
            Seq::empty(),
        ) == Some((Seq::<Tree>::empty().push(uc), pos + 3 + decimal(n).len() + b.len())),
    ensures
        starts_field(x, pos),
        primitive(x, pos) == if fragments(x, pos + 3 + decimal(n).len(), true, Seq::empty())
            is None {
            None
        } else {
            Some(
                (
                    Tree::Tabstop { number: n, contents: Some(Box::new(uc)) },
                    pos + field_with_default(n, b).len(),
                ),
            )
        },
        pos < pos + field_with_default(n, b).len() <= x.len(),
{
    let k = pos + 2 + decimal(n).len();
    let q = k + 1 + b.len();
    lemma_default_is_no_choice(n, b, x, pos);
    lemma_field_body(x, pos, n, b);
    lemma_closing_brace(x, q);
    lemma_lines_of_fragment(x, k + 1, uc, q);
    assert(number(x, pos + 2) == Some((n, k)));
    assert(symbol(x, k, ":"@) == Some(k + 1));
    assert(symbol(x, q, "}"@) == Some(q + 1));
    assert(x[pos] == '$' && x[pos + 1] == '{');
}

/// A field with default text, read as a fragment of a line that stops
/// after it: the line does not parse, or the fragment is the field with the
/// tree of the default text.
#[verifier::rlimit(100)]
proof fn lemma_default_fragment(
    n: nat,
    b: Seq<char>,
    uc: Tree,
    x: Seq<char>,
    pos: int,
    inside: bool,
    acc: Seq<Tree>,
)
    requires
        n <= usize::MAX,
        b.len() > 0,
        b[0] == '$' ==> b.len() >= 2 && b[1] != '$',
        has_at(x, pos, field_with_default(n, b)),
        stops_at(x, pos + field_with_default(n, b).len(), inside),
        fragments(x, pos + 3 + decimal(n).len(), true, Seq::empty()) is None || fragments(
            x,
            pos + 3 + decimal(n).len(),
            true,
            Seq::empty(),
        ) == Some((Seq::<Tree>::empty().push(uc), pos + 3 + decimal(n).len() + b.len())),
    ensures
        fragments(x, pos + 3 + decimal(n).len(), true, Seq::empty()) is None <==> fragments(
            x,
            pos,
            inside,
            acc,
        ) is None,
        fragments(x, pos, inside, acc) is None || fragments(x, pos, inside, acc) == Some(
            (
                acc.push(Tree::Tabstop { number: n, contents: Some(Box::new(uc)) }),
                pos + field_with_default(n, b).len(),
            ),
        ),
{
    let e = pos + field_with_default(n, b).len();
    let ut = Tree::Tabstop { number: n, contents: Some(Box::new(uc)) };
    lemma_default_tabstop(n, b, uc, x, pos);
    assert(raw(x, pos, inside) is None);
    if primitive(x, pos) is Some {
        assert(fragments(x, e, inside, acc.push(ut)) == Some((acc.push(ut), e)));
    }
}

/// The rendering of a simple tree, read as a fragment of a line that stops
/// after it: where the tree holds no field with alternatives, the fragment
/// is a tree with the same rendering; where it holds one, the line does not
/// parse.
#[verifier::rlimit(100)]
pub proof fn lemma_fragment(t: Tree, x: Seq<char>, pos: int, inside: bool, acc: Seq<Tree>) -> (u:
    Tree)
    requires
        simple(t),
        render(t)[0].len() > 0,
        has_at(x, pos, render(t)[0]),
        stops_at(x, pos + render(t)[0].len(), inside),
    ensures
        choice_free(t) ==> render(u) == render(t) && fragments(x, pos, inside, acc) == Some(
            (acc.push(u), pos + render(t)[0].len()),
        ),
        !choice_free(t) ==> fragments(x, pos, inside, acc) is None,
    decreases t,
{
    lemma_simple_line(t);
    match t {
        Tree::Raw(s) => {
            assert(render(t)[0] == s);
            lemma_raw_fragment(s, x, pos, inside, acc);
            t
        },
        Tree::Choice { number, alternatives } => {
            assert(render(t)[0] == field_with_choice(number, alternatives));
            lemma_choice_fragment(number, alternatives, x, pos, inside, acc);
            t
        },
        Tree::Tabstop { number, contents: None } => {
            assert(render(t)[0] == bare_field(number));
            lemma_bare_fragment(number, x, pos, inside, acc);
            t
        },
        Tree::Tabstop { number, contents: Some(c) } => {
            lemma_simple_line(*c);
            let b = render(*c)[0];
            assert(choice_free(t) == choice_free(*c));
            if b.len() == 0 {
                assert(*c is Raw);
                assert(choice_free(*c));
                assert(render(t)[0] == bare_field(number));
                lemma_bare_fragment(number, x, pos, inside, acc);
                let u = Tree::Tabstop { number, contents: None };
                assert(render(u) =~= render(t));
                u
            } else {
                assert(render(t)[0] == field_with_default(number, b));
                lemma_field_body(x, pos, number, b);
                let uc = lemma_fragment(
                    *c,
                    x,
                    pos + 3 + decimal(number).len(),
                    true,
                    Seq::empty(),
                );
                lemma_default_fragment(number, b, uc, x, pos, inside, acc);
                let u = Tree::Tabstop { number, contents: Some(Box::new(uc)) };
                if choice_free(t) {
                    assert(render(uc) == render(*c));
                    assert(render(u) =~= render(t));
                }
                u
            }
        },
        _ => {
            assert(!simple(t));
            t
        },
    }
}

/// The rendering of a simple tree converts to itself.
///
/// Where the tree holds no field with alternatives, its rendering parses,
/// to a tree with the same rendering, and converts without a warning. Where
/// it holds one, the rendering does not parse, since the destination's form
/// of such a field is none of the grammar, and is kept as it is.
#[verifier::rlimit(100)]
pub proof fn lemma_rendering_converts_to_itself(t: Tree) -> (u: Tree)
    requires
        simple(t),
    ensures
        render(t).len() == 1,
        converted_lines(render(t)[0]) == render(t),
        choice_free(t) ==> snippet(render(t)[0]) == Some(u) && render(u) == render(t),
        choice_free(t) ==> conversion_warnings(render(t)[0]) == Seq::<Warning>::empty(),
        !choice_free(t) ==> snippet(render(t)[0]) is None,
{
    lemma_simple_line(t);
    let x = render(t)[0];
    let e = x.len() as int;
    let none = Seq::<Tree>::empty();
    assert(render(t) =~= seq![x]);
    if x.len() == 0 {
        lemma_plain_text_converts_to_itself(x);
        Tree::Inline(none)
    } else {
        assert(x.subrange(0, e) =~= x);
        let u = lemma_fragment(t, x, 0, false, none);
        if choice_free(t) {
            let one = none.push(u);
            assert(line(x, 0, false) == Some((u, e)));
            assert(line_seq(x, 0, false, none) == Some((one, e)));
            assert(lines(x, 0, false) == Some((u, e)));
        } else {
            assert(line(x, 0, false) is None);
            assert(line_seq(x, 0, false, none) is None);
            assert(lines(x, 0, false) is None);
        }
        u
    }
}

/// A field with empty default text in braces converts as the bare
/// reference to the field does: to that reference.
#[verifier::rlimit(100)]
pub proof fn lemma_empty_default_converts_to_bare(n: nat)
    requires
        n <= usize::MAX,
    ensures
        converted_lines(field_with_default(n, Seq::empty())) == seq![bare_field(n)],
        converted_lines(field_with_default(n, Seq::empty())) == converted_lines(bare_field(n)),
{
    let x = field_with_default(n, Seq::empty());
    let d = decimal(n);
    let k = 2 + d.len() as int;
    let e = x.len() as int;
    let none = Seq::<Tree>::empty();
    let inner = Tree::Inline(none);
    let t = Tree::Tabstop { number: n, contents: Some(Box::new(inner)) };
    lemma_bare_field_converts_to_itself(n);
    assert(x.subrange(0, e) =~= x);
    assert(x.subrange(0, 3 + d.len() as int) =~= seq!['$', '{'] + d + seq![':']);
    lemma_field_head(x, 0, x, n, ':');
    lemma_field_body(x, 0, n, Seq::empty());
    reveal_strlit(":");
    reveal_strlit("$$(");
    assert(spaces_end(x, k) == k);
    assert(x.subrange(k, k + 1) =~= ":"@);
    assert(symbol(x, k, ":"@) == Some(k + 1));
    assert(literal(x, k + 1, "$$("@) is None);
    assert(choice(x, 0) is None);
    assert(x[k + 1] == '}');
    assert(fragments(x, k + 1, true, none) == Some((none, k + 1)));
    assert(line(x, k + 1, true) == Some((inner, k + 1)));
    assert(line_seq(x, k + 1, true, none) == Some((none.push(inner), k + 1)));
    assert(lines(x, k + 1, true) == Some((inner, k + 1)));
    lemma_closing_brace(x, k + 1);
    assert(tabstop(x, 0) == Some((t, e)));
    assert(primitive(x, 0) == Some((t, e)));
    let one = none.push(t);
    assert(fragments(x, e, false, one) == Some((one, e)));
    assert(fragments(x, 0, false, none) == Some((one, e)));
    assert(line(x, 0, false) == Some((t, e)));
    assert(line_seq(x, 0, false, none) == Some((one, e)));
    assert(lines(x, 0, false) == Some((t, e)));
    assert(snippet(x) == Some(t));
    assert(render_row(none, 0) =~= Seq::<char>::empty());
    assert(render(inner) =~= seq![Seq::<char>::empty()]);
    assert(join(render(inner), seq!['\n']) =~= Seq::<char>::empty());
}

/// Literal text up to a character that it cannot hold, or up to the end, is
/// read as one fragment.
#[verifier::rlimit(100)]
pub proof fn lemma_text_step(s: Seq<char>, x: Seq<char>, pos: int, inside: bool, acc: Seq<Tree>)
    requires
        s.len() > 0,
        forall|i: int| 0 <= i < s.len() ==> !ends_text(#[trigger] s[i], inside),
        has_at(x, pos, s),
        pos + s.len() < x.len() ==> ends_text(x[pos + s.len()], inside),
    ensures
        fragments(x, pos, inside, acc) == fragments(
            x,
            pos + s.len(),
            inside,
            acc.push(Tree::Raw(s)),
        ),
{
    let e = pos + s.len();
    lemma_has_at_index(x, pos, s);
    assert(x[pos + 0] == s[0]);
    assert forall|i: int| pos <= i < e implies !ends_text(#[trigger] x[i], inside) by {
        assert(x[pos + (i - pos)] == s[i - pos]);
    }
    lemma_run_end_is(x, pos, e, |c: char| !ends_text(c, inside));
    assert(text_end(x, pos, inside) == e);
    assert(x.subrange(pos, e) =~= s);
}

/// The bare reference to a field, where no digit follows it, is read as one
/// fragment: a mirror of the field.
#[verifier::rlimit(100)]
pub proof fn lemma_mirror_step(n: nat, x: Seq<char>, pos: int, inside: bool, acc: Seq<Tree>)
    requires
        n <= usize::MAX,
        has_at(x, pos, bare_field(n)),
        pos + bare_field(n).len() < x.len() ==> !is_digit(x[pos + bare_field(n).len()]),
    ensures
        fragments(x, pos, inside, acc) == fragments(
            x,
            pos + bare_field(n).len(),
            inside,
            acc.push(Tree::Tabstop { number: n, contents: None }),
        ),
{
    let r = bare_field(n);
    let e = pos + r.len();
    let t = Tree::Tabstop { number: n, contents: None };
    lemma_decimal(n);
    lemma_has_at_index(x, pos, r);
    reveal_strlit("${");
    assert(x[pos + 0] == r[0]);
    assert(x[pos + 1] == r[1]);
    assert(r[1] == decimal(n)[0]);
    assert(starts_field(x, pos));
    assert(!has_at(x, pos, "${"@)) by {
        if has_at(x, pos, "${"@) {
            assert(x.subrange(pos, pos + 2)[1] == "${"@[1]);
        }
    }
    assert(choice(x, pos) is None);
    assert forall|i: int| 0 <= i < decimal(n).len() implies x[pos + 1 + i] == #[trigger] decimal(
        n,
    )[i] by {
        assert(x[pos + (1 + i)] == r[1 + i]);
    }
    lemma_number_at(x, pos + 1, n);
    assert(tabstop(x, pos) == Some((t, e)));
    assert(primitive(x, pos) == Some((t, e)));
}

/// Two mirrors of a field around literal text.
pub open spec fn mirrors_around(n: nat, s: Seq<char>) -> Seq<Tree> {
    seq![
        Tree::Tabstop { number: n, contents: None },
        Tree::Raw(s),
        Tree::Tabstop { number: n, contents: None },
    ]
}

/// Two references to one field around literal text are read as three
/// fragments.
#[verifier::rlimit(100)]
proof fn lemma_mirrors_fragments(n: nat, s: Seq<char>)
    requires
        n <= usize::MAX,
        s.len() > 0,
        !is_digit(s[0]),
        forall|i: int| 0 <= i < s.len() ==> !ends_text(#[trigger] s[i], false),
    ensures
        fragments(bare_field(n) + s + bare_field(n), 0, false, Seq::empty()) == Some(
            (mirrors_around(n, s), (bare_field(n) + s + bare_field(n)).len() as int),
        ),
{
    let b = bare_field(n);
    let x = b + s + b;
    let m = b.len() as int;
    let k = m + s.len();
    let e = x.len() as int;
    let t = Tree::Tabstop { number: n, contents: None };
    let none = Seq::<Tree>::empty();
    let one = none.push(t);
    let two = one.push(Tree::Raw(s));
    let ts = two.push(t);
    assert(x.subrange(0, m) =~= b);
    assert(x.subrange(m, k) =~= s);
    assert(x.subrange(k, e) =~= b);
    assert(x[m] == s[0]);
    assert(x[k] == b[0]);
    lemma_mirror_step(n, x, 0, false, none);
    lemma_text_step(s, x, m, false, one);
    lemma_mirror_step(n, x, k, false, two);
    assert(fragments(x, e, false, ts) == Some((ts, e)));
    assert(ts =~= mirrors_around(n, s));
}

/// Two mirrors of a field around literal text render to one line: the two
/// references around the text.
#[verifier::rlimit(100)]
proof fn lemma_mirrors_render(n: nat, s: Seq<char>)
    ensures
        render(Tree::Inline(mirrors_around(n, s))) == seq![bare_field(n) + s + bare_field(n)],
{
    let b = bare_field(n);
    let ts = mirrors_around(n, s);
    let t = Tree::Tabstop { number: n, contents: None };
    assert(render_row(ts, 0) =~= Seq::<char>::empty());
    assert(join(render(t), seq!['\n']) == b);
    assert(join(render(Tree::Raw(s)), seq!['\n']) == s);
    assert(render_row(ts, 1) =~= b);
    assert(render_row(ts, 2) =~= b + s);
    assert(render_row(ts, 3) =~= b + s + b);
}

/// Two references to one field around literal text parse as two mirrors of
/// the field around that text, and the line converts to itself. The text
/// must not start with a digit, which would belong to the number before it.
#[verifier::rlimit(100)]
pub proof fn lemma_mirrors_around_text(n: nat, s: Seq<char>)
    requires
        n <= usize::MAX,
        s.len() > 0,
        !is_digit(s[0]),
        forall|i: int| 0 <= i < s.len() ==> !ends_text(#[trigger] s[i], false),
    ensures
        snippet(bare_field(n) + s + bare_field(n)) == Some(
            Tree::Inline(mirrors_around(n, s)),
        ),
        converted_lines(bare_field(n) + s + bare_field(n)) == seq![
            bare_field(n) + s + bare_field(n),
        ],
{
    let x = bare_field(n) + s + bare_field(n);
    let e = x.len() as int;
    let ts = mirrors_around(n, s);
    let none = Seq::<Tree>::empty();
    lemma_mirrors_fragments(n, s);
    lemma_mirrors_render(n, s);
    assert(line(x, 0, false) == Some((Tree::Inline(ts), e)));
    assert(line_seq(x, 0, false, none) == Some((none.push(Tree::Inline(ts)), e)));
    assert(lines(x, 0, false) == Some((Tree::Inline(ts), e)));
}

/// A line without fields: it holds no line break and no `$`.
pub open spec fn field_free(l: Seq<char>) -> bool {
    forall|i: int| 0 <= i < l.len() ==> !ends_text(#[trigger] l[i], false)
}

/// Lines without fields.
pub open spec fn all_field_free(ls: Seq<Seq<char>>) -> bool {
    forall|k: int| 0 <= k < ls.len() ==> field_free(#[trigger] ls[k])
}

/// The tree of a line without fields: its text, or the empty line.
pub open spec fn line_tree(l: Seq<char>) -> Tree {
    if l.len() == 0 {
        Tree::Inline(Seq::empty())
    } else {
        Tree::Raw(l)
    }
}

/// The trees of lines without fields.
pub open spec fn line_trees(ls: Seq<Seq<char>>) -> Seq<Tree> {
    Seq::new(ls.len(), |k: int| line_tree(ls[k]))
}

/// The lines from `k` up to `n`, with a line feed between each two.
pub open spec fn span(ls: Seq<Seq<char>>, k: int, n: int) -> Seq<char>
    decreases n - k,
{
    if n <= k || k < 0 || n > ls.len() {
        Seq::empty()
    } else if n == k + 1 {
        ls[k]
    } else {
        span(ls, k, n - 1) + seq!['\n'] + ls[n - 1]
    }
}

/// The first `n` lines joined are the lines from the first up to `n`.
pub proof fn lemma_span_is_join(ls: Seq<Seq<char>>, n: nat)
    requires
        n <= ls.len(),
    ensures
        join_first(ls, n, seq!['\n']) == span(ls, 0, n as int),
    decreases n,
{
    if n >= 2 {
        lemma_span_is_join(ls, (n - 1) as nat);
    }
}

/// Joined lines are the first line, a line feed, and the other lines joined.
#[verifier::rlimit(100)]
pub proof fn lemma_span_front(ls: Seq<Seq<char>>, k: int, n: int)
    requires
        0 <= k,
        k + 2 <= n <= ls.len(),
    ensures
        span(ls, k, n) == ls[k] + seq!['\n'] + span(ls, k + 1, n),
    decreases n - k,
{
    let sep = seq!['\n'];
    let a = ls[k];
    let z = ls[n - 1];
    assert(span(ls, k, n) == span(ls, k, n - 1) + sep + z);
    if n > k + 2 {
        lemma_span_front(ls, k, n - 1);
        let m = span(ls, k + 1, n - 1);
        assert(span(ls, k, n - 1) == a + sep + m);
        assert(span(ls, k + 1, n) == m + sep + z);
        assert((a + sep + m) + sep + z =~= a + sep + (m + sep + z));
    } else {
        assert(span(ls, k, n - 1) == a);
        assert(span(ls, k + 1, n) == z);
    }
}

/// A line without fields, up to a line feed or the end of the text, is read
/// as its tree.
#[verifier::rlimit(100)]
pub proof fn lemma_plain_line_at(l: Seq<char>, x: Seq<char>, pos: int)
    requires
        field_free(l),
        has_at(x, pos, l),
        pos + l.len() < x.len() ==> x[pos + l.len()] == '\n',
    ensures
        line(x, pos, false) == Some((line_tree(l), pos + l.len())),
{
    let none = Seq::<Tree>::empty();
    let e = pos + l.len();
    if l.len() == 0 {
        assert(raw(x, pos, false) is None);
        assert(fragments(x, pos, false, none) == Some((none, pos)));
    } else {
        lemma_text_step(l, x, pos, false, none);
        let one = none.push(Tree::Raw(l));
        assert(raw(x, e, false) is None);
        assert(fragments(x, e, false, one) == Some((one, e)));
    }
}

/// Lines without fields are read one by one, up to the end of the text.
#[verifier::rlimit(100)]
pub proof fn lemma_plain_lines_at(
    ls: Seq<Seq<char>>,
    k: int,
    x: Seq<char>,
    pos: int,
    acc: Seq<Tree>,
)
    requires
        all_field_free(ls),
        0 <= k < ls.len(),
        0 <= pos <= x.len(),
        x.subrange(pos, x.len() as int) == span(ls, k, ls.len() as int),
    ensures
        line_seq(x, pos, false, acc) == Some((acc + line_trees(ls).skip(k), x.len() as int)),
    decreases ls.len() - k,
{
    let n = ls.len() as int;
    let e = x.len() as int;
    let l = ls[k];
    let rest = x.subrange(pos, e);
    let t = line_tree(l);
    assert(field_free(l));
    if k == n - 1 {
        assert(rest == l);
        assert(x.subrange(pos, pos + l.len()) =~= l);
        lemma_plain_line_at(l, x, pos);
        assert(acc.push(t) =~= acc + line_trees(ls).skip(k));
    } else {
        lemma_span_front(ls, k, n);
        let tail = span(ls, k + 1, n);
        assert(rest == l + seq!['\n'] + tail);
        assert(rest.len() == l.len() + 1 + tail.len());
        assert(x.subrange(pos, pos + l.len()) =~= l) by {
            assert forall|i: int| 0 <= i < l.len() implies x.subrange(pos, pos + l.len())[i]
                == l[i] by {
                assert(rest[i] == x[pos + i]);
            }
        }
        assert(x[pos + l.len()] == '\n') by {
            assert(rest[l.len() as int] == x[pos + l.len()]);
        }
        assert(x.subrange(pos + l.len() + 1, e) =~= tail) by {
            assert forall|i: int| 0 <= i < tail.len() implies x.subrange(pos + l.len() + 1, e)[i]
                == tail[i] by {
                assert(rest[l.len() + 1 + i] == x[pos + (l.len() + 1 + i)]);
            }
        }
        lemma_plain_line_at(l, x, pos);
        lemma_plain_lines_at(ls, k + 1, x, pos + l.len() + 1, acc.push(t));
        assert(acc.push(t) + line_trees(ls).skip(k + 1) =~= acc + line_trees(ls).skip(k));
    }
}

/// The trees of lines without fields render to the lines.
#[verifier::rlimit(100)]
pub proof fn lemma_line_trees_render(ls: Seq<Seq<char>>, n: nat)
    requires
        n <= ls.len(),
    ensures
        render_stack(line_trees(ls), n) == ls.take(n as int),
    decreases n,
{
    if n > 0 {
        lemma_line_trees_render(ls, (n - 1) as nat);
        let l = ls[n - 1];
        assert(render(line_tree(l)) =~= seq![l]) by {
            if l.len() == 0 {
                assert(render_row(Seq::<Tree>::empty(), 0) =~= l);
            }
        }
        assert(render_stack(line_trees(ls), n) =~= ls.take(n as int));
    } else {
        assert(render_stack(line_trees(ls), n) =~= ls.take(n as int));
    }
}

/// Text of several lines without fields parses to the trees of its lines.
#[verifier::rlimit(100)]
proof fn lemma_plain_lines_parse(ls: Seq<Seq<char>>)
    requires
        ls.len() >= 1,
        all_field_free(ls),
    ensures
        snippet(join(ls, seq!['\n'])) == Some(collapse(line_trees(ls), true)),
{
    let x = join(ls, seq!['\n']);
    let e = x.len() as int;
    let trees = line_trees(ls);
    let none = Seq::<Tree>::empty();
    lemma_span_is_join(ls, ls.len());
    assert(x.subrange(0, e) =~= x);
    lemma_plain_lines_at(ls, 0, x, 0, none);
    assert(none + trees.skip(0) =~= trees);
    assert(line_seq(x, 0, false, none) == Some((trees, e)));
    assert(lines(x, 0, false) == Some((collapse(trees, true), e)));
}

/// The trees of one or more lines without fields, collapsed, render to the
/// lines.
#[verifier::rlimit(100)]
proof fn lemma_plain_lines_render(ls: Seq<Seq<char>>)
    requires
        ls.len() >= 1,
    ensures
        render(collapse(line_trees(ls), true)) == ls,
{
    let trees = line_trees(ls);
    lemma_line_trees_render(ls, ls.len());
    assert(ls.take(ls.len() as int) =~= ls);
    if ls.len() == 1 {
        let l = ls[0];
        assert(collapse(trees, true) == line_tree(l));
        assert(render(line_tree(l)) =~= seq![l]) by {
            if l.len() == 0 {
                assert(render_row(Seq::<Tree>::empty(), 0) =~= l);
            }
        }
        assert(seq![l] =~= ls);
    } else {
        assert(collapse(trees, true) == Tree::Lines(trees));
    }
}

/// Text of several lines without fields parses line by line and converts to
/// its lines, without a warning.
pub proof fn lemma_plain_lines_convert_line_by_line(ls: Seq<Seq<char>>)
    requires
        ls.len() >= 1,
        all_field_free(ls),
    ensures
        snippet(join(ls, seq!['\n'])) == Some(collapse(line_trees(ls), true)),
        converted_lines(join(ls, seq!['\n'])) == ls,
        conversion_warnings(join(ls, seq!['\n'])) == Seq::<Warning>::empty(),
{
    lemma_plain_lines_parse(ls);
    lemma_plain_lines_render(ls);
}

} // verus!

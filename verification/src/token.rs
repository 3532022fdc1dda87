//! The syntax tree of a template body and its rendering.
use vstd::prelude::*;
use vstd::string::StringExecFns;
use crate::grammar;
use crate::parser::TokenParser;
use crate::text::{decimal, push_decimal};
use crate::Warning;

verus! {

/// The mathematical model of a [`Token`].
pub enum Tree {
    /// A vertical stack of lines.
    Lines(Seq<Tree>),
    /// Fragments that stand on one line.
    Inline(Seq<Tree>),
    /// A numbered field; without contents it mirrors the field of that number.
    Tabstop { number: nat, contents: Option<Box<Tree>> },
    /// A numbered field whose value is one of the alternatives.
    Choice { number: nat, alternatives: Seq<Seq<char>> },
    /// Literal text.
    Raw(Seq<char>),
}

/// A node of the syntax tree of a template body.
#[derive(Eq, PartialEq, Debug)]
pub enum Token {
    Lines(Vec<Token>),
    Inline(Vec<Token>),
    Tabstop { number: usize, contents: Option<Box<Token>> },
    Choice { number: usize, alternatives: Vec<String> },
    Raw(String),
}

/// The texts of a sequence of strings.
pub open spec fn strings(v: Seq<String>) -> Seq<Seq<char>> {
    v.map_values(|s: String| s@)
}

/// The models of a sequence of tokens.
pub open spec fn models(ts: Seq<Token>) -> Seq<Tree> {
    ts.map_values(|t: Token| t@)
}

impl Token {
    /// The tree that a token stands for.
    pub open spec fn model(self) -> Tree
        decreases self,
    {
        match self {
            Token::Lines(ts) => Tree::Lines(
                Seq::new(
                    ts@.len(),
                    |i: int|
                        if 0 <= i < ts@.len() {
                            ts@[i].model()
                        } else {
                            Tree::Raw(Seq::empty())
                        },
                ),
            ),
            Token::Inline(ts) => Tree::Inline(
                Seq::new(
                    ts@.len(),
                    |i: int|
                        if 0 <= i < ts@.len() {
                            ts@[i].model()
                        } else {
                            Tree::Raw(Seq::empty())
                        },
                ),
            ),
            Token::Tabstop { number, contents } => Tree::Tabstop {
                number: number as nat,
                contents: match contents {
                    Some(b) => Some(Box::new((*b).model())),
                    None => None,
                },
            },
            Token::Choice { number, alternatives } => Tree::Choice {
                number: number as nat,
                alternatives: strings(alternatives@),
            },
            Token::Raw(s) => Tree::Raw(s@),
        }
    }
}

impl View for Token {
    type V = Tree;

    open spec fn view(&self) -> Tree {
        self.model()
    }
}

/// The model of a token with children is built from the models of the
/// children.
pub proof fn lemma_models(t: Token)
    ensures
        t matches Token::Lines(ts) ==> t@ == Tree::Lines(models(ts@)),
        t matches Token::Inline(ts) ==> t@ == Tree::Inline(models(ts@)),
{
    match t {
        Token::Lines(ts) => {
            assert(t@->Lines_0 =~= models(ts@));
        },
        Token::Inline(ts) => {
            assert(t@->Inline_0 =~= models(ts@));
        },
        _ => {},
    }
}

/// The first `n` of `lines`, with `sep` between each two.
pub open spec fn join_first(lines: Seq<Seq<char>>, n: nat, sep: Seq<char>) -> Seq<char>
    decreases n,
{
    if n == 0 || n > lines.len() {
        Seq::empty()
    } else if n == 1 {
        lines[0]
    } else {
        join_first(lines, (n - 1) as nat, sep) + sep + lines[n - 1]
    }
}

/// The `lines` with `sep` between each two.
pub open spec fn join(lines: Seq<Seq<char>>, sep: Seq<char>) -> Seq<char> {
    join_first(lines, lines.len(), sep)
}

/// The reference to field `n` that carries no text of its own.
pub open spec fn bare_field(n: nat) -> Seq<char> {
    seq!['$'] + decimal(n)
}

/// Field `n` with the default text `body`.
pub open spec fn field_with_default(n: nat, body: Seq<char>) -> Seq<char> {
    seq!['$', '{'] + decimal(n) + seq![':'] + body + seq!['}']
}

/// Field `n` with its alternatives.
pub open spec fn field_with_choice(n: nat, alternatives: Seq<Seq<char>>) -> Seq<char> {
    seq!['$', '{'] + decimal(n) + seq!['|'] + join(alternatives, seq![',']) + seq!['|', '}']
}

/// The line of a field: the bare reference where the default text is empty.
pub open spec fn field_line(n: nat, body: Seq<char>) -> Seq<char> {
    if body.len() == 0 {
        bare_field(n)
    } else {
        field_with_default(n, body)
    }
}

/// The lines that a tree renders to.
pub open spec fn render(t: Tree) -> Seq<Seq<char>>
    decreases t, 0nat,
{
    match t {
        Tree::Raw(s) => seq![s],
        Tree::Lines(ts) => render_stack(ts, ts.len()),
        Tree::Inline(ts) => seq![render_row(ts, ts.len())],
        Tree::Tabstop { number, contents: None } => seq![bare_field(number)],
        Tree::Tabstop { number, contents: Some(c) } => seq![
            field_line(number, join(render(*c), seq!['\n'])),
        ],
        Tree::Choice { number, alternatives } => seq![field_with_choice(number, alternatives)],
    }
}

/// The lines of the first `n` trees, one tree's lines after the other's.
pub open spec fn render_stack(ts: Seq<Tree>, n: nat) -> Seq<Seq<char>>
    decreases ts, n,
{
    if n == 0 || n > ts.len() {
        Seq::empty()
    } else {
        render_stack(ts, (n - 1) as nat) + render(ts[n - 1])
    }
}

/// The first `n` trees on one line: each tree's lines joined by a line feed,
/// with nothing between one tree's text and the next.
pub open spec fn render_row(ts: Seq<Tree>, n: nat) -> Seq<char>
    decreases ts, n,
{
    if n == 0 || n > ts.len() {
        Seq::empty()
    } else {
        render_row(ts, (n - 1) as nat) + join(render(ts[n - 1]), seq!['\n'])
    }
}

/// Appends `lines` to `out`, with `sep` between each two.
pub fn append_joined(out: &mut String, lines: &Vec<String>, sep: &str)
    ensures
        final(out)@ == old(out)@ + join(strings(lines@), sep@),
{
    let mut i: usize = 0;
    while i < lines.len()
        invariant
            i <= lines.len(),
            out@ == old(out)@ + join_first(strings(lines@), i as nat, sep@),
        decreases lines.len() - i,
    {
        if i > 0 {
            out.append(sep);
        }
        out.append(lines[i].as_str());
        i += 1;
        assert(out@ =~= old(out)@ + join_first(strings(lines@), i as nat, sep@));
    }
}

fn render_children(ts: &Vec<Token>, stacked: bool) -> (out: Vec<String>)
    ensures
        stacked ==> strings(out@) == render_stack(models(ts@), ts@.len()),
        !stacked ==> strings(out@) == seq![render_row(models(ts@), ts@.len())],
    decreases ts, 1nat,
{
    proof {
        reveal_strlit("\n");
    }
    assert("\n"@ =~= seq!['\n']);
    let mut out: Vec<String> = Vec::new();
    let mut row = String::new();
    let mut i: usize = 0;
    while i < ts.len()
        invariant
            i <= ts.len(),
            "\n"@ == seq!['\n'],
            stacked ==> strings(out@) == render_stack(models(ts@), i as nat),
            !stacked ==> row@ == render_row(models(ts@), i as nat),
            !stacked ==> out@.len() == 0,
        decreases ts.len() - i,
    {
        let mut r = render_tree(&ts[i]);
        if stacked {
            let ghost before = out@;
            out.append(&mut r);
            assert(strings(out@) =~= strings(before) + render(ts@[i as int]@));
        } else {
            append_joined(&mut row, &r, "\n");
        }
        i += 1;
    }
    if !stacked {
        out.push(row);
        assert(strings(out@) =~= seq![render_row(models(ts@), ts@.len())]);
    }
    out
}

fn render_tree(t: &Token) -> (out: Vec<String>)
    ensures
        strings(out@) == render(t@),
    decreases t, 0nat,
{
    proof {
        reveal_strlit("\n");
        reveal_strlit("$");
        reveal_strlit("${");
        reveal_strlit(":");
        reveal_strlit("}");
        reveal_strlit("|");
        reveal_strlit(",");
        reveal_strlit("|}");
        lemma_models(*t);
    }
    let mut line = String::new();
    match t {
        Token::Raw(s) => {
            line = s.clone();
        },
        Token::Lines(ts) => {
            return render_children(ts, true);
        },
        Token::Inline(ts) => {
            return render_children(ts, false);
        },
        Token::Choice { number, alternatives } => {
            line.append("${");
            push_decimal(&mut line, *number);
            line.append("|");
            append_joined(&mut line, alternatives, ",");
            line.append("|}");
            assert(","@ =~= seq![',']);
            assert(line@ =~= field_with_choice(*number as nat, strings(alternatives@)));
        },
        Token::Tabstop { number, contents } => {
            let mut body = String::new();
            match contents {
                Some(c) => {
                    let r = render_tree(c);
                    append_joined(&mut body, &r, "\n");
                    assert("\n"@ =~= seq!['\n']);
                    assert(body@ =~= join(render(c@), seq!['\n']));
                },
                None => {},
            }
            if body.as_str().unicode_len() == 0 {
                line.append("$");
                push_decimal(&mut line, *number);
                assert(line@ =~= bare_field(*number as nat));
            } else {
                line.append("${");
                push_decimal(&mut line, *number);
                line.append(":");
                line.append(body.as_str());
                line.append("}");
                assert(line@ =~= field_with_default(*number as nat, body@));
            }
        },
    }
    let mut out: Vec<String> = Vec::new();
    out.push(line);
    assert(strings(out@) =~= seq![line@]);
    out
}

/// The lines that a template body is converted to: the rendering of its
/// tree, or the body itself as one line where it does not parse.
pub open spec fn converted_lines(body: Seq<char>) -> Seq<Seq<char>> {
    match grammar::snippet(body) {
        Some(t) => render(t),
        None => seq![body],
    }
}

/// The warnings of a conversion: none, or that the body did not parse.
pub open spec fn conversion_warnings(body: Seq<char>) -> Seq<Warning> {
    match grammar::snippet(body) {
        Some(_) => Seq::empty(),
        None => seq![Warning::SnippetBodyParseFailed],
    }
}

impl Token {
    /// Parses a template body. A body that does not follow the grammar
    /// becomes one piece of literal text, with a warning.
    pub fn from_str(src: &str) -> (r: (Token, Vec<Warning>))
        ensures
            r.0@ == match grammar::snippet(src@) {
                Some(t) => t,
                None => Tree::Raw(src@),
            },
            r.1@ == conversion_warnings(src@),
    {
        let parser = TokenParser::new();
        match parser.parse(src) {
            Some(t) => (t, Vec::new()),
            None => {
                let mut warnings: Vec<Warning> = Vec::new();
                warnings.push(Warning::SnippetBodyParseFailed);
                assert(warnings@ =~= seq![Warning::SnippetBodyParseFailed]);
                (Token::Raw(String::from_str(src)), warnings)
            },
        }
    }

    /// Renders the tree into the lines of the destination dialect.
    pub fn render(self) -> (out: Vec<String>)
        ensures
            strings(out@) == render(self@),
    {
        render_tree(&self)
    }
}

/// Converts a template body: for every text, the rendering of its tree with
/// no warning, or the text itself as the only line with the warning that it
/// did not parse.
pub fn validate(src: String) -> (r: (Vec<String>, Vec<Warning>))
    ensures
        strings(r.0@) == converted_lines(src@),
        r.1@ == conversion_warnings(src@),
{
    let (tok, warns) = Token::from_str(src.as_str());
    (tok.render(), warns)
}

} // verus!

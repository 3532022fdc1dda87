//! The parser of template bodies: executable counterparts of the functions
//! of [`crate::grammar`], on the characters of a string.
use vstd::prelude::*;
use vstd::string::{StrSliceExecFns, StringExecFns};
use crate::grammar;
use crate::text::{
    chars_of, digit_value, digits_end, is_alphanumeric_char, is_digit, is_digit_char,
    is_space_char, number_value, spaces_end, starts_at,
};
use crate::token::{lemma_models, models, strings, Token, Tree};
use crate::Warning;

verus! {

/// The executable result `r` is what the grammar gives.
pub open spec fn parsed(r: Option<(Token, usize)>, g: Option<(Tree, int)>) -> bool {
    match r {
        Some((t, p)) => g == Some((t@, p as int)),
        None => g is None,
    }
}

/// The position `r` is the one that the grammar gives.
pub open spec fn found(r: Option<usize>, g: Option<int>) -> bool {
    match r {
        Some(p) => g == Some(p as int),
        None => g is None,
    }
}

/// Skips white space.
pub fn spaces(cs: &Vec<char>, pos: usize) -> (e: usize)
    requires
        pos <= cs.len(),
    ensures
        e == spaces_end(cs@, pos as int),
        pos <= e <= cs.len(),
{
    let mut i: usize = pos;
    while i < cs.len() && is_space_char(cs[i])
        invariant
            pos <= i <= cs.len(),
            spaces_end(cs@, pos as int) == spaces_end(cs@, i as int),
        decreases cs.len() - i,
    {
        i += 1;
    }
    i
}

/// Reads `lit`.
pub fn literal(cs: &Vec<char>, pos: usize, lit: &str) -> (r: Option<usize>)
    requires
        pos <= cs.len(),
    ensures
        found(r, grammar::literal(cs@, pos as int, lit@)),
        r matches Some(p) ==> p == pos + lit@.len() && p <= cs.len(),
{
    if starts_at(cs, pos, lit) {
        Some(pos + lit.unicode_len())
    } else {
        None
    }
}

/// Skips white space and reads `lit`.
pub fn symbol(cs: &Vec<char>, pos: usize, lit: &str) -> (r: Option<usize>)
    requires
        pos <= cs.len(),
    ensures
        found(r, grammar::symbol(cs@, pos as int, lit@)),
        r matches Some(p) ==> pos + lit@.len() <= p <= cs.len(),
{
    literal(cs, spaces(cs, pos), lit)
}

/// Skips white space and reads `word`, unless a letter or a digit follows it.
pub fn reserved(cs: &Vec<char>, pos: usize, word: &str) -> (r: Option<usize>)
    requires
        pos <= cs.len(),
    ensures
        found(r, grammar::reserved(cs@, pos as int, word@)),
        r matches Some(p) ==> pos + word@.len() <= p <= cs.len(),
{
    match symbol(cs, pos, word) {
        Some(p) => {
            if p < cs.len() && is_alphanumeric_char(cs[p]) {
                None
            } else {
                Some(p)
            }
        },
        None => None,
    }
}

/// A number does not get smaller when digits are added to it.
pub proof fn lemma_number_value_grows(s: Seq<char>, pos: int, a: int, b: int)
    requires
        0 <= pos <= a <= b <= s.len(),
    ensures
        number_value(s.subrange(pos, a)) <= number_value(s.subrange(pos, b)),
    decreases b - a,
{
    if a < b {
        lemma_number_value_grows(s, pos, a, b - 1);
        assert(s.subrange(pos, b).drop_last() =~= s.subrange(pos, b - 1));
    }
}

fn digit_of(c: char) -> (d: usize)
    requires
        is_digit(c),
    ensures
        d == digit_value(c),
        d < 10,
{
    (c as u32 - '0' as u32) as usize
}

/// Reads a number that fits in a `usize`.
pub fn number(cs: &Vec<char>, pos: usize) -> (r: Option<(usize, usize)>)
    requires
        pos <= cs.len(),
    ensures
        match r {
            Some((n, e)) => grammar::number(cs@, pos as int) == Some((n as nat, e as int)) && pos
                < e <= cs.len(),
            None => grammar::number(cs@, pos as int) is None,
        },
{
    let mut i: usize = pos;
    let mut v: usize = 0;
    assert(cs@.subrange(pos as int, pos as int) =~= Seq::empty());
    while i < cs.len() && is_digit_char(cs[i])
        invariant
            pos <= i <= cs.len(),
            digits_end(cs@, pos as int) == digits_end(cs@, i as int),
            v == number_value(cs@.subrange(pos as int, i as int)),
        decreases cs.len() - i,
    {
        let d = digit_of(cs[i]);
        proof {
            assert(cs@.subrange(pos as int, i + 1).drop_last() =~= cs@.subrange(
                pos as int,
                i as int,
            ));
        }
        if v > (usize::MAX - d) / 10 {
            proof {
                crate::text::lemma_run_end_bounds(cs@, i as int, |c: char| is_digit(c));
                lemma_number_value_grows(
                    cs@,
                    pos as int,
                    i + 1,
                    digits_end(cs@, pos as int),
                );
            }
            return None;
        }
        v = v * 10 + d;
        i += 1;
    }
    if i == pos {
        None
    } else {
        Some((v, i))
    }
}

/// Reads a string between two `"`.
pub fn string_lit(src: &str, cs: &Vec<char>, pos: usize) -> (r: Option<(String, usize)>)
    requires
        cs@ == src@,
        pos <= cs.len(),
    ensures
        match r {
            Some((t, e)) => grammar::string_lit(cs@, pos as int) == Some((t@, e as int)) && pos + 2
                <= e <= cs.len(),
            None => grammar::string_lit(cs@, pos as int) is None,
        },
{
    if pos >= cs.len() || cs[pos] != '"' {
        return None;
    }
    let mut i: usize = pos + 1;
    while i < cs.len() && cs[i] != '"'
        invariant
            pos < i <= cs.len(),
            grammar::quoted_end(cs@, pos + 1) == grammar::quoted_end(cs@, i as int),
        decreases cs.len() - i,
    {
        i += 1;
    }
    if i >= cs.len() {
        None
    } else {
        Some((String::from_str(src.substring_char(pos + 1, i)), i + 1))
    }
}

/// Reads string literals, each followed by optional white space, up to the
/// first character that is no `"`.
pub fn string_lits(src: &str, cs: &Vec<char>, pos: usize) -> (r: Option<(Vec<String>, usize)>)
    requires
        cs@ == src@,
        pos <= cs.len(),
    ensures
        match r {
            Some((alts, e)) => grammar::string_lits(cs@, pos as int, Seq::empty()) == Some(
                (strings(alts@), e as int),
            ) && pos <= e <= cs.len(),
            None => grammar::string_lits(cs@, pos as int, Seq::empty()) is None,
        },
{
    let mut alts: Vec<String> = Vec::new();
    let mut i: usize = pos;
    assert(strings(alts@) =~= Seq::empty());
    loop
        invariant
            cs@ == src@,
            pos <= i <= cs.len(),
            grammar::string_lits(cs@, pos as int, Seq::empty()) == grammar::string_lits(
                cs@,
                i as int,
                strings(alts@),
            ),
        ensures
            pos <= i <= cs.len(),
            grammar::string_lits(cs@, pos as int, Seq::empty()) == Some(
                (strings(alts@), i as int),
            ),
        decreases cs.len() - i,
    {
        if i < cs.len() && cs[i] == '"' {
            match string_lit(src, cs, i) {
                Some((t, e)) => {
                    let ghost before = alts@;
                    alts.push(t);
                    assert(strings(alts@) =~= strings(before).push(t@));
                    i = spaces(cs, e);
                },
                None => { return None; },
            }
        } else {
            break ;
        }
    }
    Some((alts, i))
}

/// Reads a field with alternatives.
#[verifier::rlimit(100)]
pub fn choice(src: &str, cs: &Vec<char>, pos: usize) -> (r: Option<(Token, usize)>)
    requires
        cs@ == src@,
        pos <= cs.len(),
    ensures
        parsed(r, grammar::choice(cs@, pos as int)),
        r matches Some((_, p)) ==> pos < p <= cs.len(),
{
    proof {
        reveal_strlit("${");
    }
    let p0 = match literal(cs, pos, "${") {
        Some(p) => p,
        None => { return None; },
    };
    let (n, p1) = match number(cs, p0) {
        Some(r) => r,
        None => { return None; },
    };
    let p2 = match symbol(cs, p1, ":") {
        Some(p) => p,
        None => { return None; },
    };
    let p3 = match literal(cs, p2, "$$(") {
        Some(p) => p,
        None => { return None; },
    };
    let p4 = match reserved(cs, p3, "yas-choose-value") {
        Some(p) => p,
        None => { return None; },
    };
    let p5 = match symbol(cs, p4, "'(") {
        Some(p) => p,
        None => { return None; },
    };
    let (alts, p6) = match string_lits(src, cs, spaces(cs, p5)) {
        Some(r) => r,
        None => { return None; },
    };
    let p7 = match literal(cs, p6, ")") {
        Some(p) => p,
        None => { return None; },
    };
    let p8 = match symbol(cs, p7, ")") {
        Some(p) => p,
        None => { return None; },
    };
    let p9 = match symbol(cs, p8, "}") {
        Some(p) => p,
        None => { return None; },
    };
    Some((Token::Choice { number: n, alternatives: alts }, p9))
}

/// Reads a field: a bare reference, or one with default text in braces.
pub fn tabstop(src: &str, cs: &Vec<char>, pos: usize) -> (r: Option<(Token, usize)>)
    requires
        cs@ == src@,
        pos <= cs.len(),
    ensures
        parsed(r, grammar::tabstop(cs@, pos as int)),
        r matches Some((_, p)) ==> pos < p <= cs.len(),
    decreases cs.len() - pos, 0nat,
{
    if pos >= cs.len() || cs[pos] != '$' {
        return None;
    }
    if pos + 1 < cs.len() && cs[pos + 1] == '{' {
        let (n, p1) = match number(cs, pos + 2) {
            Some(r) => r,
            None => { return None; },
        };
        let p2 = match symbol(cs, p1, ":") {
            Some(p) => p,
            None => { return None; },
        };
        let (body, p3) = match lines(src, cs, p2, true) {
            Some(r) => r,
            None => { return None; },
        };
        let p4 = match symbol(cs, p3, "}") {
            Some(p) => p,
            None => { return None; },
        };
        Some((Token::Tabstop { number: n, contents: Some(Box::new(body)) }, p4))
    } else {
        match number(cs, pos + 1) {
            Some((n, p)) => Some((Token::Tabstop { number: n, contents: None }, p)),
            None => None,
        }
    }
}

/// Reads a field with alternatives, or else a field.
pub fn primitive(src: &str, cs: &Vec<char>, pos: usize) -> (r: Option<(Token, usize)>)
    requires
        cs@ == src@,
        pos <= cs.len(),
    ensures
        parsed(r, grammar::primitive(cs@, pos as int)),
        r matches Some((_, p)) ==> pos < p <= cs.len(),
    decreases cs.len() - pos, 1nat,
{
    match choice(src, cs, pos) {
        Some(r) => Some(r),
        None => tabstop(src, cs, pos),
    }
}

/// Reads literal text: a `$` that starts no field, or a run of characters
/// that holds no line break, no `$` and, inside braces, no `}`.
pub fn raw(src: &str, cs: &Vec<char>, pos: usize, inside: bool) -> (r: Option<(Token, usize)>)
    requires
        cs@ == src@,
        pos <= cs.len(),
    ensures
        parsed(r, grammar::raw(cs@, pos as int, inside)),
        r matches Some((_, p)) ==> pos < p <= cs.len(),
{
    if pos >= cs.len() {
        return None;
    }
    let c = cs[pos];
    if c == '$' {
        if pos + 1 < cs.len() && (cs[pos + 1] == '{' || is_digit_char(cs[pos + 1])) {
            None
        } else {
            proof {
                reveal_strlit("$");
            }
            let t = String::from_str("$");
            assert(t@ =~= seq!['$']);
            Some((Token::Raw(t), pos + 1))
        }
    } else {
        let mut i: usize = pos;
        while i < cs.len() && !(cs[i] == '\r' || cs[i] == '\n' || cs[i] == '$' || (inside && cs[i]
            == '}'))
            invariant
                pos <= i <= cs.len(),
                grammar::text_end(cs@, pos as int, inside) == grammar::text_end(
                    cs@,
                    i as int,
                    inside,
                ),
            decreases cs.len() - i,
        {
            i += 1;
        }
        if i == pos {
            None
        } else {
            proof {
                crate::text::lemma_run_end_bounds(
                    cs@,
                    pos as int,
                    |c: char| !grammar::ends_text(c, inside),
                );
            }
            Some((Token::Raw(String::from_str(src.substring_char(pos, i))), i))
        }
    }
}

fn collapse(mut ts: Vec<Token>, stacked: bool) -> (t: Token)
    ensures
        t@ == grammar::collapse(models(ts@), stacked),
{
    if ts.len() == 1 {
        let ghost before = ts@;
        let t = ts.pop().unwrap();
        assert(t == before[0]);
        t
    } else if stacked {
        let t = Token::Lines(ts);
        proof {
            lemma_models(t);
        }
        t
    } else {
        let t = Token::Inline(ts);
        proof {
            lemma_models(t);
        }
        t
    }
}

/// Reads the fragments of a line.
#[verifier::rlimit(100)]
pub fn line(src: &str, cs: &Vec<char>, pos: usize, inside: bool) -> (r: Option<(Token, usize)>)
    requires
        cs@ == src@,
        pos <= cs.len(),
    ensures
        parsed(r, grammar::line(cs@, pos as int, inside)),
        r matches Some((_, p)) ==> pos <= p <= cs.len(),
    decreases cs.len() - pos, 3nat,
{
    let mut acc: Vec<Token> = Vec::new();
    let mut i: usize = pos;
    assert(models(acc@) =~= Seq::empty());
    loop
        invariant
            cs@ == src@,
            pos <= i <= cs.len(),
            grammar::fragments(cs@, pos as int, inside, Seq::empty()) == grammar::fragments(
                cs@,
                i as int,
                inside,
                models(acc@),
            ),
        ensures
            pos <= i <= cs.len(),
            grammar::fragments(cs@, pos as int, inside, Seq::empty()) == Some(
                (models(acc@), i as int),
            ),
        decreases cs.len() - i,
    {
        let ghost before = acc@;
        match raw(src, cs, i, inside) {
            Some((t, p)) => {
                acc.push(t);
                assert(models(acc@) =~= models(before).push(t@));
                i = p;
            },
            None => {
                if i < cs.len() && cs[i] == '$' {
                    match primitive(src, cs, i) {
                        Some((t, p)) => {
                            acc.push(t);
                            assert(models(acc@) =~= models(before).push(t@));
                            i = p;
                        },
                        None => { return None; },
                    }
                } else {
                    break ;
                }
            },
        }
    }
    Some((collapse(acc, false), i))
}

/// Reads lines that line feeds separate.
pub fn lines(src: &str, cs: &Vec<char>, pos: usize, inside: bool) -> (r: Option<(Token, usize)>)
    requires
        cs@ == src@,
        pos <= cs.len(),
    ensures
        parsed(r, grammar::lines(cs@, pos as int, inside)),
        r matches Some((_, p)) ==> pos <= p <= cs.len(),
    decreases cs.len() - pos, 5nat,
{
    let mut acc: Vec<Token> = Vec::new();
    let mut i: usize = pos;
    assert(models(acc@) =~= Seq::empty());
    loop
        invariant_except_break
            grammar::line_seq(cs@, pos as int, inside, Seq::empty()) == grammar::line_seq(
                cs@,
                i as int,
                inside,
                models(acc@),
            ),
        invariant
            cs@ == src@,
            pos <= i <= cs.len(),
        ensures
            pos <= i <= cs.len(),
            grammar::line_seq(cs@, pos as int, inside, Seq::empty()) == Some(
                (models(acc@), i as int),
            ),
        decreases cs.len() - i,
    {
        let ghost before = acc@;
        match line(src, cs, i, inside) {
            Some((t, p)) => {
                acc.push(t);
                assert(models(acc@) =~= models(before).push(t@));
                if p < cs.len() && cs[p] == '\n' {
                    i = p + 1;
                } else {
                    i = p;
                    break ;
                }
            },
            None => { return None; },
        }
    }
    Some((collapse(acc, true), i))
}

/// Parses a whole template body.
///
/// The result is the tree that the grammar gives for the text, and `None`
/// where the grammar gives none: where a construct is malformed, or where
/// the lines end before the text does.
pub fn snippet(src: &str) -> (r: Option<Token>)
    ensures
        match r {
            Some(t) => grammar::snippet(src@) == Some(t@),
            None => grammar::snippet(src@) is None,
        },
{
    let cs = chars_of(src);
    match lines(src, &cs, 0, false) {
        Some((t, p)) => {
            if p == cs.len() {
                Some(t)
            } else {
                None
            }
        },
        None => None,
    }
}

/// The parser of template bodies, with the warnings it has collected.
#[derive(Debug)]
pub struct TokenParser {
    pub warnings: Vec<Warning>,
}

impl TokenParser {
    pub fn new() -> (p: TokenParser)
        ensures
            p.warnings@.len() == 0,
    {
        TokenParser { warnings: Vec::new() }
    }

    /// Parses a whole template body, as [`snippet`] does.
    pub fn parse(&self, src: &str) -> (r: Option<Token>)
        ensures
            match r {
                Some(t) => grammar::snippet(src@) == Some(t@),
                None => grammar::snippet(src@) is None,
            },
    {
        snippet(src)
    }
}

} // verus!

//! The grammar written with the parser combinators of the crate combine,
//! held against the parser of the library on many small bodies.
use combine::parser::char::{alpha_num, digit, newline, spaces, string};
use combine::{
    attempt, eof, many, many1, none_of, not_followed_by, parser, sep_end_by, token, ParseResult,
    Parser,
};
use yas_to_vscode::parser::snippet;
use yas_to_vscode::token::Token;
use yas_to_vscode::token::Token::{Choice, Inline, Lines, Raw, Tabstop};

fn c_number<'a>(input: &mut &'a str) -> ParseResult<usize, &'a str> {
    many1::<String, _>(digit())
        .map(|a| a.parse::<usize>().unwrap())
        .parse_stream(input)
}

fn c_string_lit<'a>(input: &mut &'a str) -> ParseResult<String, &'a str> {
    token('"')
        .with(many(none_of(vec!['"'])))
        .skip(token('"'))
        .parse_stream(input)
}

fn c_symbol<'a>(sym: &'static str) -> impl Parser<Input = &'a str, Output = ()> {
    spaces().skip(string(sym))
}

fn c_reserved<'a>(sym: &'static str) -> impl Parser<Input = &'a str, Output = ()> {
    spaces()
        .skip(string(sym))
        .skip(not_followed_by(alpha_num()))
}

fn c_snippet<'a>(input: &mut &'a str) -> ParseResult<Token, &'a str> {
    parser(|a| c_lines(false, a)).skip(eof()).parse_stream(input)
}

fn c_raw<'a>(inside: bool, input: &mut &'a str) -> ParseResult<Token, &'a str> {
    let banned = if inside { "}\r\n$" } else { "\r\n$" };
    let mut p = attempt(
        token('$')
            .map(|_| Raw("$".to_string()))
            .skip(not_followed_by(token('{').or(digit()))),
    )
    .or(many1::<String, _>(none_of(banned.chars())).map(Raw));
    p.parse_stream(input)
}

fn c_lines<'a>(inside: bool, input: &mut &'a str) -> ParseResult<Token, &'a str> {
    let mut p = sep_end_by(parser(|a| c_line(inside, a)), newline()).map(|ls: Vec<_>| {
        if ls.len() == 1 {
            ls.into_iter().next().unwrap()
        } else {
            Lines(ls)
        }
    });
    p.parse_stream(input)
}

fn c_line<'a>(inside: bool, input: &mut &'a str) -> ParseResult<Token, &'a str> {
    many(parser(move |i| c_raw(inside, i)).or(parser(c_primitive)))
        .map(|ts: Vec<_>| {
            if ts.len() == 1 {
                ts.into_iter().next().unwrap()
            } else {
                Inline(ts)
            }
        })
        .parse_stream(input)
}

fn c_primitive<'a>(input: &mut &'a str) -> ParseResult<Token, &'a str> {
    let mut p = attempt(parser(c_choice)).or(parser(c_tabstop));
    p.parse_stream(input)
}

fn c_choice<'a>(input: &mut &'a str) -> ParseResult<Token, &'a str> {
    let mut p = string("${")
        .with(
            parser(c_number)
                .skip(c_symbol(":"))
                .skip(string("$$("))
                .skip(c_reserved("yas-choose-value"))
                .skip(c_symbol("'("))
                .skip(spaces())
                .then(move |n| {
                    sep_end_by(parser(c_string_lit), spaces()).map(move |alts| Choice {
                        number: n,
                        alternatives: alts,
                    })
                })
                .skip(token(')'))
                .skip(c_symbol(")")),
        )
        .skip(c_symbol("}"));
    p.parse_stream(input)
}

fn c_tabstop<'a>(input: &mut &'a str) -> ParseResult<Token, &'a str> {
    let complex = token('{')
        .with(parser(c_number).then(|n| {
            c_symbol(":")
                .with(parser(|a| c_lines(true, a)))
                .map(move |tks| Tabstop {
                    number: n,
                    contents: Some(Box::new(tks)),
                })
        }))
        .skip(c_symbol("}"));
    let simple = parser(c_number).map(|s| Tabstop {
        number: s,
        contents: None,
    });
    let mut parser = token('$').with(complex.or(simple));
    parser.parse_stream(input)
}

fn with_combinators(src: &str) -> Option<Token> {
    parser(c_snippet).parse(src).map(|x| x.0).ok()
}

fn bodies(pieces: &[&str], length: usize) -> Vec<String> {
    let mut all = vec![String::new()];
    let mut last = vec![String::new()];
    for _ in 0..length {
        let mut next = Vec::new();
        for body in &last {
            for piece in pieces {
                next.push(format!("{}{}", body, piece));
            }
        }
        all.extend(next.iter().cloned());
        last = next;
    }
    all
}

#[test]
fn agrees_with_combinators_on_short_bodies() {
    let pieces = ["$", "{", "}", "1", ":", "a", "\n", " "];
    for body in bodies(&pieces, 5) {
        assert_eq!(snippet(&body), with_combinators(&body), "body {:?}", body);
    }
}

#[test]
fn agrees_with_combinators_on_line_breaks_and_braces() {
    let pieces = ["${1:", "${2 :", "}", "\r", "\n", "\t", "$3", "x}", "$"];
    for body in bodies(&pieces, 4) {
        assert_eq!(snippet(&body), with_combinators(&body), "body {:?}", body);
    }
}

#[test]
fn agrees_with_combinators_on_choices() {
    let pieces = [
        "${7:",
        "$$(",
        "yas-choose-value",
        " '(",
        "\"a\"",
        "\"b c\" ",
        ")",
        ")}",
        "x",
        "\n",
    ];
    let heads = ["${7:$$(yas-choose-value '(", "${7:$$( yas-choose-value'(\"a\"", ""];
    for head in heads {
        for tail in bodies(&pieces, 4) {
            let body = format!("{}{}", head, tail);
            assert_eq!(snippet(&body), with_combinators(&body), "body {:?}", body);
        }
    }
}

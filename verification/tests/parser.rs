use yas_to_vscode::parser;
use yas_to_vscode::parser::{
    choice, literal, number, primitive, reserved, snippet, spaces, string_lit, string_lits,
    symbol, tabstop, TokenParser,
};
use yas_to_vscode::text::chars_of;
use yas_to_vscode::token::Token;
use yas_to_vscode::token::Token::{Choice, Inline, Lines, Raw, Tabstop};

#[test]
fn strlit_parse() {
    assert_eq!(
        string_lit("\"foo\"", &chars_of("\"foo\""), 0).map(|x| x.0),
        Some("foo".to_string())
    );
}

#[test]
fn choice_parse() {
    let alts = vec!["foo", "bar", "buz"]
        .into_iter()
        .map(|a| a.to_string())
        .collect();
    let src = "${25:$$(yas-choose-value '( \n\t\"foo\"\"bar\" \n  \"buz\" ))}";
    assert_eq!(
        choice(src, &chars_of(src), 0).map(|x| x.0),
        Some(Choice {
            number: 25,
            alternatives: alts
        })
    );
}

#[test]
fn snippet_parse() {
    let src = r#"type role  ${1:Type} ${2:$$(
                    yas-choose-value
                    '("representational""phantom"  
                    "nominal" "_"))}"#;
    let roles = vec!["representational", "phantom", "nominal", "_"]
        .into_iter()
        .map(|a| a.to_string())
        .collect();
    assert_eq!(
        snippet(src),
        Some(Inline(vec![
            Raw("type role  ".to_string()),
            Tabstop {
                number: 1,
                contents: Some(Box::new(Raw("Type".to_string())))
            },
            Raw(" ".to_string()),
            Choice {
                number: 2,
                alternatives: roles
            }
        ]))
    );

    let src = r#"impl${1:<${2:T}>} ${3:Type$1} {
    ${4:fn ${5:new}(${6:arg}) -> ${7:$3} {
        ${8:$3 { ${9:arg} } }
    }
    }$0
}"#;
    assert_eq!(
        snippet(src),
        Some(Lines(vec![
            Inline(vec![
                Raw("impl".to_string()),
                Tabstop {
                    number: 1,
                    contents: Some(Box::new(Inline(vec![
                        Raw("<".to_string()),
                        Tabstop {
                            number: 2,
                            contents: Some(Box::new(Raw("T".to_string())))
                        },
                        Raw(">".to_string())
                    ])))
                },
                Raw(" ".to_string()),
                Tabstop {
                    number: 3,
                    contents: Some(Box::new(Inline(vec![
                        Raw("Type".to_string()),
                        Tabstop {
                            number: 1,
                            contents: None
                        }
                    ])))
                },
                Raw(" {".to_string())
            ]),
            Inline(vec![
                Raw("    ".to_string()),
                Tabstop {
                    number: 4,
                    contents: Some(Box::new(Lines(vec![
                        Inline(vec![
                            Raw("fn ".to_string()),
                            Tabstop {
                                number: 5,
                                contents: Some(Box::new(Raw("new".to_string())))
                            },
                            Raw("(".to_string()),
                            Tabstop {
                                number: 6,
                                contents: Some(Box::new(Raw("arg".to_string())))
                            },
                            Raw(") -> ".to_string()),
                            Tabstop {
                                number: 7,
                                contents: Some(Box::new(Tabstop {
                                    number: 3,
                                    contents: None
                                }))
                            },
                            Raw(" {".to_string())
                        ]),
                        Inline(vec![
                            Raw("        ".to_string()),
                            Tabstop {
                                number: 8,
                                contents: Some(Box::new(Inline(vec![
                                    Tabstop {
                                        number: 3,
                                        contents: None
                                    },
                                    Raw(" { ".to_string()),
                                    Tabstop {
                                        number: 9,
                                        contents: Some(Box::new(Raw("arg".to_string())))
                                    },
                                    Raw(" ".to_string())
                                ])))
                            },
                            Raw(" ".to_string())
                        ])
                    ])))
                }
            ]),
            Raw("    }".to_string()),
            Inline(vec![
                Raw("    }".to_string()),
                Tabstop {
                    number: 0,
                    contents: None
                }
            ]),
            Raw("}".to_string())
        ]))
    )
}

fn raw(s: &str) -> Token {
    Raw(s.to_string())
}

fn mirror(number: usize) -> Token {
    Tabstop { number, contents: None }
}

fn field(number: usize, contents: Token) -> Token {
    Tabstop { number, contents: Some(Box::new(contents)) }
}

#[test]
fn empty_body_is_an_empty_line() {
    assert_eq!(snippet(""), Some(Inline(vec![])));
}

#[test]
fn plain_text_is_one_raw() {
    assert_eq!(snippet("hello } world"), Some(raw("hello } world")));
}

#[test]
fn dollar_before_a_digit_is_a_field() {
    assert_eq!(snippet("cost: $5"), Some(Inline(vec![raw("cost: "), mirror(5)])));
}

#[test]
fn dollar_before_other_text_is_literal() {
    assert_eq!(snippet("a$b"), Some(Inline(vec![raw("a"), raw("$"), raw("b")])));
    assert_eq!(snippet("$"), Some(raw("$")));
    assert_eq!(snippet("$$"), Some(Inline(vec![raw("$"), raw("$")])));
}

#[test]
fn mirrors_share_a_number() {
    assert_eq!(snippet("$1 and $1"), Some(Inline(vec![mirror(1), raw(" and "), mirror(1)])));
}

#[test]
fn default_text_over_two_lines() {
    assert_eq!(
        snippet("${1:a\nb} end"),
        Some(Inline(vec![field(1, Lines(vec![raw("a"), raw("b")])), raw(" end")]))
    );
}

#[test]
fn choice_of_three() {
    assert_eq!(
        snippet("${7:$$(yas-choose-value '(\"x\" \"y\" \"z\"))}"),
        Some(Choice {
            number: 7,
            alternatives: vec!["x".to_string(), "y".to_string(), "z".to_string()]
        })
    );
}

#[test]
fn choice_without_alternatives() {
    assert_eq!(
        snippet("${7:$$(yas-choose-value '())}"),
        Some(Choice { number: 7, alternatives: vec![] })
    );
}

#[test]
fn empty_default_is_an_empty_line() {
    assert_eq!(snippet("${3:}"), Some(field(3, Inline(vec![]))));
}

#[test]
fn trailing_line_feed_starts_an_empty_line() {
    assert_eq!(snippet("a\n"), Some(Lines(vec![raw("a"), Inline(vec![])])));
    assert_eq!(snippet("a\n\nb"), Some(Lines(vec![raw("a"), Inline(vec![]), raw("b")])));
}

#[test]
fn keyword_must_end_at_a_boundary() {
    let src = "${1:$$(yas-choose-valuex '(\"a\"))}";
    assert_eq!(choice(src, &chars_of(src), 0), None);
    assert_eq!(
        snippet(src),
        Some(field(
            1,
            Inline(vec![raw("$"), raw("$"), raw("(yas-choose-valuex '(\"a\"))")])
        ))
    );
    let src = "${1:$$(yas-choose-value\u{e9} '(\"a\"))}";
    assert_eq!(choice(src, &chars_of(src), 0), None);
    let src = "${1:$$(yas-choose-value'(\"a\"))}";
    assert_eq!(
        snippet(src),
        Some(Choice { number: 1, alternatives: vec!["a".to_string()] })
    );
}

#[test]
fn malformed_choice_falls_back_to_a_field() {
    let src = "${2:$$(yas-choose-value '(\"a\" b))}";
    assert_eq!(choice(src, &chars_of(src), 0), None);
    assert_eq!(
        tabstop(src, &chars_of(src), 0),
        Some((
            field(2, Inline(vec![raw("$"), raw("$"), raw("(yas-choose-value '(\"a\" b))")])),
            src.chars().count()
        ))
    );
}

#[test]
fn unterminated_string_is_no_choice() {
    let src = "${2:$$(yas-choose-value '(\"a))}";
    assert_eq!(choice(src, &chars_of(src), 0), None);
    assert_eq!(string_lit("\"abc", &chars_of("\"abc"), 0), None);
    assert_eq!(string_lit("abc\"", &chars_of("abc\""), 0), None);
}

#[test]
fn malformed_fields_do_not_parse() {
    assert_eq!(snippet("${true}"), None);
    assert_eq!(snippet("${1"), None);
    assert_eq!(snippet("${1:abc"), None);
    assert_eq!(snippet("${"), None);
    assert_eq!(snippet("${1abc}"), None);
    assert_eq!(snippet("a ${1:b ${2:c} d"), None);
}

#[test]
fn carriage_return_does_not_parse_outside_braces() {
    assert_eq!(snippet("a\r\nb"), None);
    assert_eq!(snippet("${1:a\r\n  }"), Some(field(1, raw("a"))));
}

#[test]
fn number_too_large_does_not_parse() {
    assert_eq!(snippet("$99999999999999999999999999"), None);
    assert_eq!(snippet("${99999999999999999999999999:a}"), None);
    assert_eq!(snippet("$18446744073709551615"), Some(mirror(18446744073709551615)));
    assert_eq!(snippet("$18446744073709551616"), None);
    assert_eq!(snippet("$007"), Some(mirror(7)));
}

#[test]
fn closing_brace_is_reserved_inside_braces_only() {
    assert_eq!(snippet("}"), Some(raw("}")));
    assert_eq!(snippet("${1:a}}"), Some(Inline(vec![field(1, raw("a")), raw("}")])));
}

#[test]
fn white_space_is_allowed_before_colon_and_brace() {
    assert_eq!(snippet("${1 \t:a}"), Some(field(1, raw("a"))));
    assert_eq!(snippet("${1\u{3000}:a}"), Some(field(1, raw("a"))));
}

#[test]
fn parser_value_parses_like_snippet() {
    let p = TokenParser::new();
    assert!(p.warnings.is_empty());
    assert_eq!(p.parse("$1"), Some(mirror(1)));
    assert_eq!(p.parse("${"), None);
}

#[test]
fn lexical_functions_give_value_and_position() {
    let cs = chars_of("  \t12 : yas-choose-value) x");
    assert_eq!(spaces(&cs, 0), 3);
    assert_eq!(spaces(&cs, 3), 3);
    assert_eq!(number(&cs, 3), Some((12, 5)));
    assert_eq!(number(&cs, 0), None);
    assert_eq!(literal(&cs, 3, "12"), Some(5));
    assert_eq!(literal(&cs, 4, "12"), None);
    assert_eq!(symbol(&cs, 5, ":"), Some(7));
    assert_eq!(symbol(&cs, 5, "y"), None);
    assert_eq!(reserved(&cs, 7, "yas-choose-value"), Some(24));
    assert_eq!(reserved(&cs, 7, "yas-choose"), Some(18));
    assert_eq!(reserved(&cs, 7, "yas"), Some(11));
    assert_eq!(reserved(&cs, 7, "ya"), None);
    assert_eq!(reserved(&cs, 24, ") x"), Some(27));
}

#[test]
fn string_literals_are_read_up_to_the_first_other_character() {
    let src = "\"a\" \"\"\n\"b c\")";
    let cs = chars_of(src);
    assert_eq!(
        string_lits(src, &cs, 0),
        Some((vec!["a".to_string(), "".to_string(), "b c".to_string()], 12))
    );
    assert_eq!(string_lits(src, &cs, 12), Some((vec![], 12)));
    assert_eq!(string_lits(src, &cs, 2), Some((vec![" ".to_string(), "\n".to_string()], 8)));
    assert_eq!(string_lits(src, &cs, 11), None);
}

#[test]
fn fragments_and_lines_stop_where_the_grammar_says() {
    let src = "ab$c}d\ne$1";
    let cs = chars_of(src);
    assert_eq!(parser::raw(src, &cs, 0, false), Some((raw("ab"), 2)));
    assert_eq!(parser::raw(src, &cs, 2, false), Some((raw("$"), 3)));
    assert_eq!(parser::raw(src, &cs, 3, false), Some((raw("c}d"), 6)));
    assert_eq!(parser::raw(src, &cs, 3, true), Some((raw("c"), 4)));
    assert_eq!(parser::raw(src, &cs, 4, true), None);
    assert_eq!(parser::raw(src, &cs, 6, false), None);
    assert_eq!(parser::raw(src, &cs, 8, false), None);
    assert_eq!(parser::raw(src, &cs, 10, false), None);
    assert_eq!(primitive(src, &cs, 8), Some((mirror(1), 10)));
    assert_eq!(primitive(src, &cs, 0), None);
    assert_eq!(
        parser::line(src, &cs, 0, true),
        Some((Inline(vec![raw("ab"), raw("$"), raw("c")]), 4))
    );
    assert_eq!(parser::line(src, &cs, 6, false), Some((Inline(vec![]), 6)));
    assert_eq!(
        parser::lines(src, &cs, 0, false),
        Some((
            Lines(vec![
                Inline(vec![raw("ab"), raw("$"), raw("c}d")]),
                Inline(vec![raw("e"), mirror(1)])
            ]),
            10
        ))
    );
    assert_eq!(
        parser::lines(src, &cs, 5, true),
        Some((Lines(vec![raw("d"), Inline(vec![raw("e"), mirror(1)])]), 10))
    );
}

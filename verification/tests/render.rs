use yas_to_vscode::parser::snippet;
use yas_to_vscode::token::validate;
use yas_to_vscode::token::Token;
use yas_to_vscode::token::Token::{Choice, Inline, Lines, Raw, Tabstop};
use yas_to_vscode::Warning;

fn raw(s: &str) -> Token {
    Raw(s.to_string())
}

fn convert(body: &str) -> (Vec<String>, Vec<Warning>) {
    validate(body.to_string())
}

fn clean(lines: &[&str]) -> (Vec<String>, Vec<Warning>) {
    (lines.iter().map(|l| l.to_string()).collect(), vec![])
}

fn verbatim(body: &str) -> (Vec<String>, Vec<Warning>) {
    (vec![body.to_string()], vec![Warning::SnippetBodyParseFailed])
}

#[test]
fn raw_renders_as_itself() {
    assert_eq!(raw("plain text").render(), vec!["plain text".to_string()]);
    assert_eq!(raw("").render(), vec!["".to_string()]);
}

#[test]
fn lines_render_flat() {
    let t = Lines(vec![raw("a"), Lines(vec![raw("b"), raw("c")]), raw("d")]);
    assert_eq!(t.render(), vec!["a", "b", "c", "d"]);
    assert_eq!(Lines(vec![]).render(), Vec::<String>::new());
}

#[test]
fn inline_renders_one_line() {
    let t = Inline(vec![raw("a"), Lines(vec![raw("b"), raw("c")]), raw("d")]);
    assert_eq!(t.render(), vec!["ab\ncd"]);
    assert_eq!(Inline(vec![]).render(), vec![""]);
}

#[test]
fn tabstop_renders_bare_or_with_default() {
    assert_eq!(Tabstop { number: 4, contents: None }.render(), vec!["$4"]);
    assert_eq!(
        Tabstop { number: 12, contents: Some(Box::new(raw("text"))) }.render(),
        vec!["${12:text}"]
    );
    assert_eq!(
        Tabstop { number: 0, contents: Some(Box::new(Lines(vec![raw("a"), raw("b")]))) }.render(),
        vec!["${0:a\nb}"]
    );
}

#[test]
fn empty_default_renders_as_bare_field() {
    let bare = Tabstop { number: 3, contents: None }.render();
    assert_eq!(Tabstop { number: 3, contents: Some(Box::new(raw(""))) }.render(), bare);
    assert_eq!(Tabstop { number: 3, contents: Some(Box::new(Inline(vec![]))) }.render(), bare);
    assert_eq!(Tabstop { number: 3, contents: Some(Box::new(Lines(vec![]))) }.render(), bare);
    assert_eq!(bare, vec!["$3"]);
    assert_eq!(convert("${3:}"), convert("$3"));
    assert_eq!(convert("${3:}"), clean(&["$3"]));
}

#[test]
fn choice_renders_alternatives_in_order() {
    let t = Choice {
        number: 7,
        alternatives: vec!["x".to_string(), "y".to_string(), "z".to_string()],
    };
    assert_eq!(t.render(), vec!["${7|x,y,z|}"]);
    assert_eq!(Choice { number: 10, alternatives: vec![] }.render(), vec!["${10||}"]);
    assert_eq!(
        Choice { number: 1, alternatives: vec!["only".to_string()] }.render(),
        vec!["${1|only|}"]
    );
}

#[test]
fn numbers_render_in_decimal() {
    assert_eq!(Tabstop { number: 0, contents: None }.render(), vec!["$0"]);
    assert_eq!(Tabstop { number: 9, contents: None }.render(), vec!["$9"]);
    assert_eq!(Tabstop { number: 10, contents: None }.render(), vec!["$10"]);
    assert_eq!(Tabstop { number: 1234567890, contents: None }.render(), vec!["$1234567890"]);
    assert_eq!(
        Tabstop { number: usize::MAX, contents: None }.render(),
        vec![format!("${}", usize::MAX)]
    );
}

#[test]
fn literal_dollar_is_kept() {
    assert_eq!(convert("cost: $5"), clean(&["cost: $5"]));
    assert_eq!(convert("cost: $ 5"), clean(&["cost: $ 5"]));
    assert_eq!(convert("a$"), clean(&["a$"]));
}

#[test]
fn mirror_field_renders_twice() {
    assert_eq!(convert("$1 and $1"), clean(&["$1 and $1"]));
}

#[test]
fn nested_default_stays_on_one_line() {
    assert_eq!(convert("${1:a\nb} end"), clean(&["${1:a\nb} end"]));
}

#[test]
fn choice_is_converted() {
    assert_eq!(
        convert("${7:$$(yas-choose-value '(\"x\" \"y\" \"z\"))}"),
        clean(&["${7|x,y,z|}"])
    );
}

#[test]
fn lines_are_converted_one_by_one() {
    assert_eq!(
        convert("fn ${1:name}() {\n    $0\n}"),
        clean(&["fn ${1:name}() {", "    $0", "}"])
    );
    assert_eq!(convert(""), clean(&[""]));
    assert_eq!(convert("a\n"), clean(&["a", ""]));
}

#[test]
fn body_that_does_not_parse_is_kept_verbatim() {
    assert_eq!(convert("${true}"), verbatim("${true}"));
    assert_eq!(convert("${1:open"), verbatim("${1:open"));
    assert_eq!(convert("line\nwith ${"), verbatim("line\nwith ${"));
    assert_eq!(convert("a\r\nb"), verbatim("a\r\nb"));
    assert_eq!(convert("$99999999999999999999999"), verbatim("$99999999999999999999999"));
}

#[test]
fn rendering_parses_to_the_same_rendering() {
    let bodies = [
        "impl${1:<${2:T}>} ${3:Type$1} {",
        "${7:$$(yas-choose-value '(\"x\" \"y\" \"z\"))}",
        "plain",
        "$1$2 ${3:x}",
        "${4:a\nb}",
        "$007 ${3:}",
    ];
    for body in bodies {
        let (first, warnings) = convert(body);
        assert!(warnings.is_empty());
        assert_eq!(first.len(), 1);
        let (second, _) = convert(&first[0]);
        assert_eq!(second, first);
    }
}

#[test]
fn rendered_choice_is_kept_verbatim() {
    assert_eq!(convert("${7|x,y,z|}"), verbatim("${7|x,y,z|}"));
}

#[test]
fn from_str_falls_back_to_raw() {
    assert_eq!(Token::from_str("$2"), (Tabstop { number: 2, contents: None }, vec![]));
    assert_eq!(
        Token::from_str("${x"),
        (raw("${x"), vec![Warning::SnippetBodyParseFailed])
    );
}

#[test]
fn plain_lines_convert_line_by_line() {
    assert_eq!(convert("a\n\nb }"), clean(&["a", "", "b }"]));
    assert_eq!(convert("one line"), clean(&["one line"]));
    assert_eq!(convert("\n"), clean(&["", ""]));
}

#[test]
fn rendering_without_choice_parses_again() {
    let inner = Tabstop { number: 2, contents: Some(Box::new(raw("T"))) };
    let t = Tabstop { number: 1, contents: Some(Box::new(inner)) };
    let line = t.render().remove(0);
    assert_eq!(line, "${1:${2:T}}");
    let again = snippet(&line).unwrap();
    assert_eq!(again.render(), vec![line]);
    let with_choice = Tabstop {
        number: 1,
        contents: Some(Box::new(Choice { number: 2, alternatives: vec!["a".to_string()] })),
    };
    let line = with_choice.render().remove(0);
    assert_eq!(line, "${1:${2|a|}}");
    assert_eq!(snippet(&line), None);
    assert_eq!(convert(&line), verbatim(&line));
}

use yas_to_vscode::script::{flag_script, has_script, is_find, line_has_script, with_script_warning};
use yas_to_vscode::{Converted, Snippet, Warning};

fn lines(ls: &[&str]) -> Vec<String> {
    ls.iter().map(|l| l.to_string()).collect()
}

#[test]
fn backquoted_form_is_script() {
    assert!(line_has_script("`(current-time-string)`"));
    assert!(line_has_script("x `(foo)`"));
    assert!(!line_has_script("x \\`(foo)`"));
    assert!(!line_has_script("`foo`"));
}

#[test]
fn dollar_forms_are_script() {
    assert!(line_has_script("${1:$$(upcase yas-text)}"));
    assert!(line_has_script("a $(b"));
    assert!(line_has_script("$$()"));
    assert!(!line_has_script("$$"));
    assert!(!line_has_script("${1:name} $0"));
    assert!(!line_has_script(""));
    assert!(!line_has_script("(^|[^\\\\])`\\(|\\$\\$\\(.+\\)|\\$\\("));
}

#[test]
fn one_line_with_script_is_enough() {
    assert!(!has_script(&lines(&[])));
    assert!(!has_script(&lines(&["a", "b"])));
    assert!(has_script(&lines(&["a", "`(b)`", "c"])));
    assert!(has_script(&lines(&["a", "c", "$(d)"])));
}

#[test]
fn only_a_match_is_a_find() {
    assert!(is_find(Some(true)));
    assert!(!is_find(Some(false)));
    assert!(!is_find(None));
}

#[test]
fn warning_is_added_at_the_end() {
    assert_eq!(with_script_warning(vec![], false), vec![]);
    assert_eq!(with_script_warning(vec![], true), vec![Warning::ElispCodeFound]);
    assert_eq!(
        with_script_warning(vec![Warning::SnippetBodyParseFailed], true),
        vec![Warning::SnippetBodyParseFailed, Warning::ElispCodeFound]
    );
}

#[test]
fn template_with_script_is_flagged_and_kept() {
    let c = Snippet::parse("t", "# key: k\n# --\ntime: `(current-time-string)`").unwrap();
    assert_eq!(c.warnings, vec![]);
    let c = flag_script(c);
    assert_eq!(c.result.prefix, "k");
    assert_eq!(c.result.body, vec!["time: `(current-time-string)`"]);
    assert_eq!(c.warnings, vec![Warning::ElispCodeFound]);
    let plain = Converted {
        result: Snippet { description: String::new(), prefix: "p".to_string(), body: lines(&["$1"]) },
        warnings: vec![],
    };
    let plain = flag_script(plain);
    assert_eq!(plain.result.body, vec!["$1"]);
    assert_eq!(plain.warnings, vec![]);
}

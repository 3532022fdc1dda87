//! Detection of embedded Emacs Lisp, which a conversion leaves as it is.
use vstd::prelude::*;
use crate::token::strings;
use crate::{Converted, Snippet, Warning};

verus! {

/// Whether the regular expression `pattern` matches somewhere in `text`;
/// `None` where `pattern` is no regular expression.
pub uninterp spec fn regex_search(pattern: Seq<char>, text: Seq<char>) -> Option<bool>;

/// `Regex::new` and `Regex::is_match` of the crate regex: compiles `pattern`
/// and searches `text` for a match. The result depends on the two texts
/// alone and is given the name [`regex_search`]; a pattern that the crate
/// refuses gives `None`. Nothing is claimed of which texts match.
#[verifier::external_body]
fn search(pattern: &str, text: &str) -> (r: Option<bool>)
    ensures
        r == regex_search(pattern@, text@),
{
    match regex::Regex::new(pattern) {
        Ok(re) => Some(re.is_match(text)),
        Err(_) => None,
    }
}

/// The pattern of embedded Emacs Lisp: a backquoted form that no backslash
/// precedes, a `$$(` form, or a `$(` form.
pub open spec fn script_pattern() -> Seq<char> {
    "(^|[^\\\\])`\\(|\\$\\$\\(.+\\)|\\$\\("@
}

/// Whether a line holds embedded Emacs Lisp.
pub open spec fn holds_script(line: Seq<char>) -> bool {
    regex_search(script_pattern(), line) == Some(true)
}

/// Whether one of the lines holds embedded Emacs Lisp.
pub open spec fn any_holds_script(lines: Seq<Seq<char>>) -> bool {
    exists|i: int| 0 <= i < lines.len() && holds_script(#[trigger] lines[i])
}

/// What a search says of a line: a match is a find; no match, or no answer,
/// is none.
pub fn is_find(answer: Option<bool>) -> (b: bool)
    ensures
        b == (answer == Some(true)),
{
    match answer {
        Some(found) => found,
        None => false,
    }
}

/// Whether a line holds embedded Emacs Lisp.
pub fn line_has_script(line: &str) -> (b: bool)
    ensures
        b == holds_script(line@),
{
    is_find(search("(^|[^\\\\])`\\(|\\$\\$\\(.+\\)|\\$\\(", line))
}

/// Whether one of the rendered lines holds embedded Emacs Lisp.
pub fn has_script(lines: &Vec<String>) -> (b: bool)
    ensures
        b == any_holds_script(strings(lines@)),
{
    let mut i: usize = 0;
    while i < lines.len()
        invariant
            i <= lines.len(),
            forall|k: int| 0 <= k < i ==> !holds_script(#[trigger] strings(lines@)[k]),
        decreases lines.len() - i,
    {
        if line_has_script(lines[i].as_str()) {
            assert(holds_script(strings(lines@)[i as int]));
            return true;
        }
        i += 1;
    }
    false
}

/// The warnings of a conversion after the look for embedded Emacs Lisp:
/// `found` adds the warning for it at the end.
pub fn with_script_warning(warnings: Vec<Warning>, found: bool) -> (out: Vec<Warning>)
    ensures
        out@ == if found {
            warnings@.push(Warning::ElispCodeFound)
        } else {
            warnings@
        },
{
    let mut out = warnings;
    if found {
        out.push(Warning::ElispCodeFound);
    }
    out
}

/// Adds the warning for embedded Emacs Lisp to a converted template whose
/// body holds some. The template itself stays as it is.
pub fn flag_script(converted: Converted<Snippet>) -> (out: Converted<Snippet>)
    ensures
        out.result == converted.result,
        out.warnings@ == if any_holds_script(strings(converted.result.body@)) {
            converted.warnings@.push(Warning::ElispCodeFound)
        } else {
            converted.warnings@
        },
{
    let found = has_script(&converted.result.body);
    Converted { result: converted.result, warnings: with_script_warning(converted.warnings, found) }
}

} // verus!

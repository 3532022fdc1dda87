//! Conversion of snippet templates from the YASnippet dialect to the
//! template syntax of Visual Studio Code.
//!
//! The body of a template is parsed into a [`token::Token`] tree by the
//! functions of [`parser`], which follow the grammar of [`grammar`], and the
//! tree is rendered into lines of the destination dialect. A body that does
//! not follow the grammar is kept as it is, with a warning.
//!
//! - [`text`]: characters, runs of characters, decimal numbers
//! - [`token`]: the tree, its rendering, and the conversion of a body
//! - [`grammar`]: the grammar, as functions on sequences of characters
//! - [`parser`]: the parser, proved against the grammar
//! - [`header`]: the lines and the metadata header of a template file
//! - [`script`]: the look for embedded Emacs Lisp in converted lines
//! - [`laws`]: what holds of parsing and rendering together
//! - [`shape`]: what holds of every tree that the grammar gives
use vstd::prelude::*;
use vstd::string::StringExecFns;

pub mod text;
pub mod token;
pub mod grammar;
pub mod parser;
pub mod header;
pub mod script;
pub mod laws;
pub mod shape;

pub use header::separating;

use header::{header_entry, header_value, lines, separator_from, split_lines};
use token::{append_joined, conversion_warnings, converted_lines, join, strings, validate};

verus! {

/// A converted template.
#[derive(Debug)]
pub struct Snippet {
    pub description: String,
    pub prefix: String,
    pub body: Vec<String>,
}

/// What a conversion went through without stopping.
#[derive(Debug, PartialEq, Eq, Structural)]
pub enum Warning {
    /// The template holds embedded Emacs Lisp that is not converted.
    ElispCodeFound,
    /// The body does not follow the grammar and was taken over as it is.
    SnippetBodyParseFailed,
}

/// What stops the conversion of a template.
#[derive(Debug)]
pub enum Error {
    /// The file is no template; the text says why.
    ParseError(String),
    /// The header lacks the field of this name.
    MissingField(String),
}

/// A result together with the warnings that came up on the way to it.
#[derive(Debug)]
pub struct Converted<T> {
    pub result: T,
    pub warnings: Vec<Warning>,
}

/// The body of a template file: the lines after the separator at line `i`,
/// with a line feed between each two.
pub open spec fn body_text(ls: Seq<Seq<char>>, i: int) -> Seq<char> {
    join(ls.skip(i + 1), seq!['\n'])
}

/// The value of a header field, or `default` where the header has none.
pub open spec fn field_or(value: Option<Seq<char>>, default: Seq<char>) -> Seq<char> {
    match value {
        Some(v) => v,
        None => default,
    }
}

/// The text of an optional string.
pub open spec fn text_of(value: Option<String>) -> Option<Seq<char>> {
    match value {
        Some(v) => Some(v@),
        None => None,
    }
}

/// Splits a template file into the description and the key of its header
/// and the text of its body; `None` where the file has no separator.
///
/// The lines up to the first separator are the header; of two header lines
/// with one key the later counts. The lines after the separator are the
/// body.
pub fn split_template(src: &str) -> (r: Option<(Option<String>, Option<String>, String)>)
    ensures
        match separator_from(lines(src@), 0) {
            None => r is None,
            Some(i) => r matches Some((description, key, body)) && {
                &&& text_of(description) == header_value(lines(src@), i as nat, "description"@)
                &&& text_of(key) == header_value(lines(src@), i as nat, "key"@)
                &&& body@ == body_text(lines(src@), i)
            },
        },
{
    let ls = split_lines(src);
    let mut i: usize = 0;
    while i < ls.len() && !separating(ls[i].as_str())
        invariant
            i <= ls.len(),
            separator_from(strings(ls@), 0) == separator_from(strings(ls@), i as int),
        decreases ls.len() - i,
    {
        i += 1;
    }
    if i >= ls.len() {
        return None;
    }
    let description_key = String::from_str("description");
    let prefix_key = String::from_str("key");
    let mut description: Option<String> = None;
    let mut prefix: Option<String> = None;
    let mut j: usize = 0;
    while j < i
        invariant
            j <= i < ls.len(),
            description_key@ == "description"@,
            prefix_key@ == "key"@,
            text_of(description) == header_value(strings(ls@), j as nat, "description"@),
            text_of(prefix) == header_value(strings(ls@), j as nat, "key"@),
        decreases i - j,
    {
        let (k, v) = header_entry(ls[j].as_str());
        proof {
            reveal_strlit("description");
            reveal_strlit("key");
            assert("description"@.len() != "key"@.len());
        }
        if k == description_key {
            description = Some(v);
        } else if k == prefix_key {
            prefix = Some(v);
        }
        j += 1;
    }
    let mut body_lines: Vec<String> = Vec::new();
    let mut j: usize = i + 1;
    while j < ls.len()
        invariant
            i < j <= ls.len(),
            strings(body_lines@) == strings(ls@).subrange(i + 1, j as int),
        decreases ls.len() - j,
    {
        let ghost before = body_lines@;
        let l = ls[j].clone();
        body_lines.push(l);
        assert(strings(body_lines@) =~= strings(before).push(ls@[j as int]@));
        j += 1;
        assert(strings(body_lines@) =~= strings(ls@).subrange(i + 1, j as int));
    }
    assert(strings(ls@).subrange(i + 1, ls@.len() as int) =~= strings(ls@).skip(i + 1));
    proof {
        reveal_strlit("\n");
    }
    assert("\n"@ =~= seq!['\n']);
    let mut body = String::new();
    append_joined(&mut body, &body_lines, "\n");
    assert(body@ =~= body_text(lines(src@), i as int));
    Some((description, prefix, body))
}

impl Snippet {
    /// Converts a template file, taking the template's name where the
    /// header gives no key.
    ///
    /// Without a separator the file is refused. The description is the
    /// header's `description`, or empty; the prefix is the header's `key`,
    /// or `name`, so that a header without `key` is no error. The body is
    /// converted as [`validate`] says.
    pub fn parse(name: &str, src: &str) -> (r: Result<Converted<Snippet>, Error>)
        ensures
            match separator_from(lines(src@), 0) {
                None => r matches Err(Error::ParseError(m)) && m@
                    == "No metadata separator found"@,
                Some(i) => r matches Ok(c) && {
                    &&& c.result.description@ == field_or(
                        header_value(lines(src@), i as nat, "description"@),
                        Seq::empty(),
                    )
                    &&& c.result.prefix@ == field_or(
                        header_value(lines(src@), i as nat, "key"@),
                        name@,
                    )
                    &&& strings(c.result.body@) == converted_lines(body_text(lines(src@), i))
                    &&& c.warnings@ == conversion_warnings(body_text(lines(src@), i))
                },
            },
    {
        match split_template(src) {
            None => Err(Error::ParseError(String::from_str("No metadata separator found"))),
            Some((description, key, body)) => {
                let (body, warnings) = validate(body);
                let description = match description {
                    Some(d) => d,
                    None => String::new(),
                };
                let prefix = match key {
                    Some(p) => p,
                    None => String::from_str(name),
                };
                Ok(Converted { result: Snippet { prefix, body, description }, warnings })
            },
        }
    }

    /// Converts a template file whose header has to give the key.
    ///
    /// As [`Snippet::parse`], but a header without `key` is refused, with the
    /// name of the field that is missing.
    pub fn parse_strict(src: &str) -> (r: Result<Converted<Snippet>, Error>)
        ensures
            match separator_from(lines(src@), 0) {
                None => r matches Err(Error::ParseError(m)) && m@
                    == "No metadata separator found"@,
                Some(i) => match header_value(lines(src@), i as nat, "key"@) {
                    None => r matches Err(Error::MissingField(f)) && f@ == "key"@,
                    Some(k) => r matches Ok(c) && {
                        &&& c.result.description@ == field_or(
                            header_value(lines(src@), i as nat, "description"@),
                            Seq::empty(),
                        )
                        &&& c.result.prefix@ == k
                        &&& strings(c.result.body@) == converted_lines(
                            body_text(lines(src@), i),
                        )
                        &&& c.warnings@ == conversion_warnings(body_text(lines(src@), i))
                    },
                },
            },
    {
        match split_template(src) {
            None => Err(Error::ParseError(String::from_str("No metadata separator found"))),
            Some((description, key, body)) => {
                match key {
                    None => Err(Error::MissingField(String::from_str("key"))),
                    Some(prefix) => {
                        let (body, warnings) = validate(body);
                        let description = match description {
                            Some(d) => d,
                            None => String::new(),
                        };
                        Ok(Converted { result: Snippet { prefix, body, description }, warnings })
                    },
                }
            },
        }
    }
}

} // verus!

//! The forms in which the program prints what it knows.

use vstd::prelude::*;

use crate::text::{debug_quoted, debug_text, same_text};

verus! {

/// How data is printed.
#[derive(Debug, Clone, Copy, PartialEq, Eq, Structural)]
pub enum OutputFormat {
    /// For people.
    Human,
    /// As JSON.
    Json,
    /// As YAML.
    Yaml,
}

impl Default for OutputFormat {
    fn default() -> (r: Self)
        ensures
            r == OutputFormat::Human,
    {
        OutputFormat::Human
    }
}

/// The name of a format.
pub open spec fn format_name(format: OutputFormat) -> Seq<char> {
    match format {
        OutputFormat::Human => "human"@,
        OutputFormat::Json => "json"@,
        OutputFormat::Yaml => "yaml"@,
    }
}

/// The format that a text names.
pub open spec fn named_format(value: Seq<char>) -> Option<OutputFormat> {
    if value == "human"@ || value == "text"@ {
        Some(OutputFormat::Human)
    } else if value == "json"@ {
        Some(OutputFormat::Json)
    } else if value == "yaml"@ || value == "yml"@ {
        Some(OutputFormat::Yaml)
    } else {
        None
    }
}

impl OutputFormat {
    /// The name of the format.
    pub fn name(&self) -> (r: &'static str)
        ensures
            r@ == format_name(*self),
    {
        match self {
            OutputFormat::Human => "human",
            OutputFormat::Json => "json",
            OutputFormat::Yaml => "yaml",
        }
    }

    /// The format that a text names.
    pub fn named(value: &str) -> (r: Result<OutputFormat, String>)
        ensures
            match r {
                Ok(format) => named_format(value@) == Some(format),
                Err(message) => named_format(value@) is None && message@
                    == "unknown output format "@ + debug_quoted(value@),
            },
    {
        if same_text(value, "human") || same_text(value, "text") {
            Ok(OutputFormat::Human)
        } else if same_text(value, "json") {
            Ok(OutputFormat::Json)
        } else if same_text(value, "yaml") || same_text(value, "yml") {
            Ok(OutputFormat::Yaml)
        } else {
            let mut message = "unknown output format ".to_owned();
            message.push_str(debug_text(value).as_str());
            Err(message)
        }
    }
}

/// The name of a format names it.
pub proof fn names_are_read_back(format: OutputFormat)
    ensures
        named_format(format_name(format)) == Some(format),
{
    reveal_strlit("human");
    reveal_strlit("text");
    reveal_strlit("json");
    reveal_strlit("yaml");
    reveal_strlit("yml");
    assert("json"@[0] == 'j');
    assert("yaml"@[0] == 'y');
    assert("human"@[0] == 'h');
    assert("text"@[0] == 't');
}

} // verus!

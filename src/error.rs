//! Errors of the conversion.

use vstd::prelude::*;

verus! {

/// A column of a `Dialogue:` line that the converter reads.
#[derive(Debug, Clone, Copy, PartialEq, Eq, Structural)]
pub enum Field {
    Start,
    End,
    Text,
    Effect,
}

impl Field {
    /// The column's name in a `Format:` line, lower-cased.
    pub open spec fn spec_name(self) -> Seq<char> {
        match self {
            Field::Start => seq!['s', 't', 'a', 'r', 't'],
            Field::End => seq!['e', 'n', 'd'],
            Field::Text => seq!['t', 'e', 'x', 't'],
            Field::Effect => seq!['e', 'f', 'f', 'e', 'c', 't'],
        }
    }

    pub fn name(&self) -> (r: &'static str)
        ensures
            r@ == self.spec_name(),
    {
        match self {
            Field::Start => {
                proof {
                    reveal_strlit("start");
                }
                "start"
            },
            Field::End => {
                proof {
                    reveal_strlit("end");
                }
                "end"
            },
            Field::Text => {
                proof {
                    reveal_strlit("text");
                }
                "text"
            },
            Field::Effect => {
                proof {
                    reveal_strlit("effect");
                }
                "effect"
            },
        }
    }
}

/// A structural failure in the ASS text.
#[derive(Debug, Clone, PartialEq, Eq)]
pub enum FormatError {
    /// No `Format:` line in the `[Events]` section.
    NoFormatLine,
    /// The `Format:` line lacks a required column.
    NoFormatLineField(Field),
    /// A `Dialogue:` line lacks a required column.
    NoField(Field),
    /// A time that is not `h:mm:ss.cc`; holds the text as found.
    Time(String),
}

} // verus!

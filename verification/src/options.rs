//! The read-only settings that builders and the printer consult.

use vstd::prelude::*;

verus! {

/// Whether a lone arrow-function parameter keeps its parentheses.
#[derive(Clone, Copy, Debug, PartialEq, Eq, Structural)]
pub enum ArrowParens {
    Always,
    Avoid,
}

impl ArrowParens {
    pub open spec fn spec_is_always(self) -> bool {
        self == ArrowParens::Always
    }

    #[verifier::when_used_as_spec(spec_is_always)]
    pub fn is_always(self) -> (always: bool)
        ensures
            always == self.spec_is_always(),
    {
        match self {
            ArrowParens::Always => true,
            ArrowParens::Avoid => false,
        }
    }
}

/// Where trailing separators are written when a list breaks.
#[derive(Clone, Copy, Debug, PartialEq, Eq, Structural)]
pub enum TrailingComma {
    /// Wherever the language allows one.
    All,
    /// Where the fifth edition of the language allows one.
    Es5,
    /// Nowhere.
    Never,
}

impl TrailingComma {
    pub open spec fn spec_should_print_es5(self) -> bool {
        self == TrailingComma::All || self == TrailingComma::Es5
    }

    /// Whether a trailing separator is written where the fifth edition
    /// allows one.
    #[verifier::when_used_as_spec(spec_should_print_es5)]
    pub fn should_print_es5(self) -> (print: bool)
        ensures
            print == self.spec_should_print_es5(),
    {
        match self {
            TrailingComma::All => true,
            TrailingComma::Es5 => true,
            TrailingComma::Never => false,
        }
    }

    pub open spec fn spec_should_print_all(self) -> bool {
        self == TrailingComma::All
    }

    /// Whether a trailing separator is written wherever one is allowed.
    #[verifier::when_used_as_spec(spec_should_print_all)]
    pub fn should_print_all(self) -> (print: bool)
        ensures
            print == self.spec_should_print_all(),
    {
        match self {
            TrailingComma::All => true,
            TrailingComma::Es5 => false,
            TrailingComma::Never => false,
        }
    }
}

/// The settings of one formatting run.
#[derive(Clone, Copy, Debug, PartialEq, Eq, Structural)]
pub struct FormatOptions {
    /// The column that lines should not run past.
    pub print_width: usize,
    /// Whether braces are padded with a space on the inside.
    pub bracket_spacing: bool,
    /// Whether statements, and members of type literals, end in `;`.
    pub semicolons: bool,
    pub arrow_parens: ArrowParens,
    pub trailing_comma: TrailingComma,
    /// Whether a parameter list leaves its grouping to its caller.
    pub expand_first_argument: bool,
}

impl FormatOptions {
    /// The settings a run has when nothing is configured.
    pub open spec fn standard() -> FormatOptions {
        FormatOptions {
            print_width: 80,
            bracket_spacing: true,
            semicolons: true,
            arrow_parens: ArrowParens::Always,
            trailing_comma: TrailingComma::All,
            expand_first_argument: false,
        }
    }
}

impl Default for FormatOptions {
    fn default() -> (options: FormatOptions)
        ensures
            options == FormatOptions::standard(),
    {
        FormatOptions {
            print_width: 80,
            bracket_spacing: true,
            semicolons: true,
            arrow_parens: ArrowParens::Always,
            trailing_comma: TrailingComma::All,
            expand_first_argument: false,
        }
    }
}

} // verus!

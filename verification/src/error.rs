//! The local taxonomy of selector-compilation failures.
//!
//! The pattern-grammar parser is an external collaborator; its failures are
//! translated at the edge into this taxonomy, with offending tokens carried
//! as plain rendered text. Compilation failures abort only the single
//! compilation call and never touch shared state.

use vstd::prelude::*;

use crate::strutil::escape_default;
use crate::strutil::escaped;

verus! {

/// Why compiling a selector failed.
#[derive(Clone, Debug)]
pub enum SelectorErrorKind {
    /// A token was not expected; the rendered token text is carried.
    UnexpectedToken(String),
    /// The input ended where more was expected.
    EndOfLine,
    /// An at-rule is invalid; the rule's name is carried.
    InvalidAtRule(String),
    /// The body of an at-rule is invalid.
    InvalidAtRuleBody,
    /// The qualified rule is invalid.
    QualRuleInvalid,
    /// A colon was expected to introduce a pseudo-element; the rendered
    /// offending token is carried.
    ExpectedColonOnPseudoElement(String),
    /// An identifier was expected for a pseudo-element; the rendered
    /// offending token is carried.
    ExpectedIdentityOnPseudoElement(String),
    /// A grammar-parser failure this taxonomy does not name specifically;
    /// its rendered description is carried.
    UnexpectedSelectorParseError(String),
}

impl SelectorErrorKind {
    /// The human-readable message of this failure: the fixed wording of the
    /// variant, with any carried text escaped and quoted.
    pub open spec fn message_spec(self) -> Seq<char> {
        match self {
            SelectorErrorKind::UnexpectedToken(t) => "Token \""@ + escaped(t@)
                + "\" was not expected"@,
            SelectorErrorKind::EndOfLine => "Unexpected EOL"@,
            SelectorErrorKind::InvalidAtRule(r) => "Invalid @-rule \""@ + escaped(r@) + "\""@,
            SelectorErrorKind::InvalidAtRuleBody => "The body of an @-rule was invalid"@,
            SelectorErrorKind::QualRuleInvalid => "The qualified name was invalid"@,
            SelectorErrorKind::ExpectedColonOnPseudoElement(t) => {
                "Expected a ':' token for pseudoelement, got \""@ + escaped(t@) + "\" instead"@
            },
            SelectorErrorKind::ExpectedIdentityOnPseudoElement(t) => {
                "Expected identity for pseudoelement, got \""@ + escaped(t@) + "\" instead"@
            },
            SelectorErrorKind::UnexpectedSelectorParseError(d) => {
                "Unexpected selector parse error: \""@ + escaped(d@) + "\""@
            },
        }
    }

    /// Renders the failure as a human-readable message.
    pub fn message(&self) -> (r: String)
        ensures
            r@ == self.message_spec(),
    {
        let mut out = String::new();
        match self {
            SelectorErrorKind::UnexpectedToken(t) => {
                proof {
                    reveal_strlit("Token \"");
                    reveal_strlit("\" was not expected");
                }
                out.append("Token \"");
                let e = escape_default(t.as_str());
                out.append(e.as_str());
                out.append("\" was not expected");
            },
            SelectorErrorKind::EndOfLine => {
                proof {
                    reveal_strlit("Unexpected EOL");
                }
                out.append("Unexpected EOL");
            },
            SelectorErrorKind::InvalidAtRule(rule) => {
                proof {
                    reveal_strlit("Invalid @-rule \"");
                    reveal_strlit("\"");
                }
                out.append("Invalid @-rule \"");
                let e = escape_default(rule.as_str());
                out.append(e.as_str());
                out.append("\"");
            },
            SelectorErrorKind::InvalidAtRuleBody => {
                proof {
                    reveal_strlit("The body of an @-rule was invalid");
                }
                out.append("The body of an @-rule was invalid");
            },
            SelectorErrorKind::QualRuleInvalid => {
                proof {
                    reveal_strlit("The qualified name was invalid");
                }
                out.append("The qualified name was invalid");
            },
            SelectorErrorKind::ExpectedColonOnPseudoElement(t) => {
                proof {
                    reveal_strlit("Expected a ':' token for pseudoelement, got \"");
                    reveal_strlit("\" instead");
                }
                out.append("Expected a ':' token for pseudoelement, got \"");
                let e = escape_default(t.as_str());
                out.append(e.as_str());
                out.append("\" instead");
            },
            SelectorErrorKind::ExpectedIdentityOnPseudoElement(t) => {
                proof {
                    reveal_strlit("Expected identity for pseudoelement, got \"");
                    reveal_strlit("\" instead");
                }
                out.append("Expected identity for pseudoelement, got \"");
                let e = escape_default(t.as_str());
                out.append(e.as_str());
                out.append("\" instead");
            },
            SelectorErrorKind::UnexpectedSelectorParseError(d) => {
                proof {
                    reveal_strlit("Unexpected selector parse error: \"");
                    reveal_strlit("\"");
                }
                out.append("Unexpected selector parse error: \"");
                let e = escape_default(d.as_str());
                out.append(e.as_str());
                out.append("\"");
            },
        }
        out
    }
}

} // verus!

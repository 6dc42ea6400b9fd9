//! The types a structural pattern engine is instantiated with.
//!
//! The pattern grammar and the matching algorithm themselves are external
//! collaborators; these types fix the vocabulary they work over: plain
//! strings for attribute values and names, and no non-tree-structural
//! pseudo-classes or pseudo-elements, since the tree holds no interaction
//! state.

use vstd::prelude::*;

verus! {

/// The instantiation marker for the structural pattern engine: string-valued
/// names, no pseudo-classes, no pseudo-elements.
#[derive(Clone, Copy, Debug, PartialEq, Eq, Structural)]
pub struct Simple;

/// An attribute value as the pattern engine sees it.
#[derive(Clone, Debug)]
pub struct CssString {
    /// The characters of the value.
    pub text: String,
}

impl CssString {
    /// The characters of the value.
    pub open spec fn view(&self) -> Seq<char> {
        self.text@
    }

    /// Wraps a plain string.
    pub fn new(text: String) -> (r: CssString)
        ensures
            r@ == text@,
    {
        CssString { text }
    }
}

/// A local (unqualified) name as the pattern engine sees it.
#[derive(Clone, Debug)]
pub struct CssLocalName {
    /// The characters of the name.
    pub text: String,
}

impl CssLocalName {
    /// The characters of the name.
    pub open spec fn view(&self) -> Seq<char> {
        self.text@
    }

    /// Wraps a plain string.
    pub fn new(text: String) -> (r: CssLocalName)
        ensures
            r@ == text@,
    {
        CssLocalName { text }
    }
}

/// The marker for non-tree-structural pseudo-classes. The tree records no
/// interaction state, so the engine is instantiated with none and never
/// consults a value of this type.
#[derive(Clone, Copy, Debug, PartialEq, Eq, Structural)]
pub struct NonTSPseudoClass;

/// The marker for pseudo-elements. None are supported, and the engine never
/// consults a value of this type.
#[derive(Clone, Copy, Debug, PartialEq, Eq, Structural)]
pub struct PseudoElement;

} // verus!

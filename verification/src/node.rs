//! The closed set of node variants a markup tree holds.

use vstd::prelude::*;

verus! {

/// A qualified name: a namespace and a local name, both plain strings.
#[derive(Clone, Debug)]
pub struct QualName {
    /// The namespace part (empty for no namespace).
    pub ns: String,
    /// The local part.
    pub local: String,
}

/// One attribute of an element: a qualified name and a value.
#[derive(Clone, Debug)]
pub struct Attribute {
    /// The attribute's qualified name.
    pub name: QualName,
    /// The attribute's value.
    pub value: String,
}

/// A doctype: name, public identifier and system identifier.
#[derive(Clone, Debug)]
pub struct Doctype {
    /// The doctype name.
    pub name: String,
    /// The doctype public identifier.
    pub public_id: String,
    /// The doctype system identifier.
    pub system_id: String,
}

/// A comment node's text.
#[derive(Clone, Debug)]
pub struct Comment {
    /// The comment text.
    pub comment: String,
}

/// A text node's content, mutable in place so that adjacent insertions can
/// be merged into one node.
#[derive(Clone, Debug)]
pub struct Text {
    /// The text.
    pub text: String,
}

/// An element: a qualified tag name, its attributes, and the identifier and
/// class list derived from them once at creation time.
#[derive(Clone, Debug)]
pub struct Element {
    /// The element's qualified tag name.
    pub name: QualName,
    /// The value of the `id` attribute, fixed at creation time.
    pub id: Option<String>,
    /// The class tokens of the `class` attribute, fixed at creation time.
    pub classes: Vec<String>,
    /// The attributes, a mapping with pairwise distinct names.
    pub attrs: Vec<Attribute>,
}

/// A processing instruction: a target and its data.
#[derive(Clone, Debug)]
pub struct ProcessingInstruction {
    /// The instruction's target.
    pub target: String,
    /// The instruction's data.
    pub data: String,
}

/// A node of the markup tree.
#[derive(Clone, Debug)]
pub enum Node {
    /// The document root.
    Document,
    /// The fragment root.
    Fragment,
    /// A doctype.
    Doctype(Doctype),
    /// A comment.
    Comment(Comment),
    /// Text.
    Text(Text),
    /// An element.
    Element(Element),
    /// A processing instruction.
    ProcessingInstruction(ProcessingInstruction),
}

impl Node {
    /// Returns true if the node is the document root.
    pub fn is_document(&self) -> (r: bool)
        ensures
            r == (self is Document),
    {
        match self {
            Node::Document => true,
            _ => false,
        }
    }

    /// Returns true if the node is the fragment root.
    pub fn is_fragment(&self) -> (r: bool)
        ensures
            r == (self is Fragment),
    {
        match self {
            Node::Fragment => true,
            _ => false,
        }
    }

    /// Returns true if the node is a doctype.
    pub fn is_doctype(&self) -> (r: bool)
        ensures
            r == (self is Doctype),
    {
        match self {
            Node::Doctype(_) => true,
            _ => false,
        }
    }

    /// Returns true if the node is a comment.
    pub fn is_comment(&self) -> (r: bool)
        ensures
            r == (self is Comment),
    {
        match self {
            Node::Comment(_) => true,
            _ => false,
        }
    }

    /// Returns true if the node is text.
    pub fn is_text(&self) -> (r: bool)
        ensures
            r == (self is Text),
    {
        match self {
            Node::Text(_) => true,
            _ => false,
        }
    }

    /// Returns true if the node is an element.
    pub fn is_element(&self) -> (r: bool)
        ensures
            r == (self is Element),
    {
        match self {
            Node::Element(_) => true,
            _ => false,
        }
    }

    /// Returns the node as a doctype, if it is one.
    pub fn as_doctype(&self) -> (r: Option<&Doctype>)
        ensures
            match r {
                Some(d) => self matches Node::Doctype(d0) && d0 == *d,
                None => !(self is Doctype),
            },
    {
        match self {
            Node::Doctype(d) => Some(d),
            _ => None,
        }
    }

    /// Returns the node as a comment, if it is one.
    pub fn as_comment(&self) -> (r: Option<&Comment>)
        ensures
            match r {
                Some(c) => self matches Node::Comment(c0) && c0 == *c,
                None => !(self is Comment),
            },
    {
        match self {
            Node::Comment(c) => Some(c),
            _ => None,
        }
    }

    /// Returns the node as text, if it is one.
    pub fn as_text(&self) -> (r: Option<&Text>)
        ensures
            match r {
                Some(t) => self matches Node::Text(t0) && t0 == *t,
                None => !(self is Text),
            },
    {
        match self {
            Node::Text(t) => Some(t),
            _ => None,
        }
    }

    /// Returns the node as an element, if it is one.
    pub fn as_element(&self) -> (r: Option<&Element>)
        ensures
            match r {
                Some(e) => self matches Node::Element(e0) && e0 == *e,
                None => !(self is Element),
            },
    {
        match self {
            Node::Element(e) => Some(e),
            _ => None,
        }
    }

    /// Returns the node as a processing instruction, if it is one.
    pub fn as_processing_instruction(&self) -> (r: Option<&ProcessingInstruction>)
        ensures
            match r {
                Some(p) => self matches Node::ProcessingInstruction(p0) && p0 == *p,
                None => !(self is ProcessingInstruction),
            },
    {
        match self {
            Node::ProcessingInstruction(p) => Some(p),
            _ => None,
        }
    }
}

/// The value of the first attribute with the given namespace-free name, the
/// way a plain attribute lookup reads an element.
pub open spec fn attr_lookup(attrs: Seq<Attribute>, local: Seq<char>) -> Option<Seq<char>>
    decreases attrs.len(),
{
    if attrs.len() == 0 {
        None
    } else if attrs[0].name.ns@ == Seq::<char>::empty() && attrs[0].name.local@ == local {
        Some(attrs[0].value@)
    } else {
        attr_lookup(attrs.drop_first(), local)
    }
}

impl Element {
    /// The element's local tag name.
    pub fn name(&self) -> (r: &String)
        ensures
            r@ == self.name.local@,
    {
        &self.name.local
    }

    /// The value of the `id` attribute as derived at creation time.
    pub fn id(&self) -> (r: &Option<String>)
        ensures
            *r == self.id,
    {
        &self.id
    }

    /// The value of the first attribute whose name has no namespace and the
    /// given local part, or `None` if the element has no such attribute.
    pub fn attr(&self, local: &str) -> (r: Option<&String>)
        ensures
            match r {
                Some(v) => attr_lookup(self.attrs@, local@) == Some(v@),
                None => attr_lookup(self.attrs@, local@) == None::<Seq<char>>,
            },
    {
        let n = self.attrs.len();
        let mut i: usize = 0;
        proof {
            assert(self.attrs@.subrange(0, n as int) =~= self.attrs@);
        }
        while i < n
            invariant
                n == self.attrs@.len(),
                0 <= i <= n,
                attr_lookup(self.attrs@, local@) == attr_lookup(
                    self.attrs@.subrange(i as int, n as int),
                    local@,
                ),
            decreases n - i,
        {
            let a = &self.attrs[i];
            let ghost rest = self.attrs@.subrange(i as int, n as int);
            proof {
                assert(rest[0] == self.attrs@[i as int]);
            }
            if a.name.ns.as_str().is_empty() && string_eq_str(&a.name.local, local) {
                proof {
                    assert(a.name.ns@ =~= Seq::<char>::empty());
                }
                return Some(&a.value);
            }
            proof {
                assert(!(rest[0].name.ns@ == Seq::<char>::empty() && rest[0].name.local@
                    == local@));
                assert(rest.drop_first() =~= self.attrs@.subrange(i + 1, n as int));
            }
            i = i + 1;
        }
        proof {
            assert(self.attrs@.subrange(n as int, n as int) =~= Seq::<Attribute>::empty());
        }
        None
    }

    /// Returns true if one of the element's class tokens is exactly the
    /// given name.
    pub fn has_class(&self, class: &str) -> (r: bool)
        ensures
            r == self.classes@.map_values(|c: String| c@).contains(class@),
    {
        let n = self.classes.len();
        let mut i: usize = 0;
        let ghost views = self.classes@.map_values(|c: String| c@);
        while i < n
            invariant
                n == self.classes@.len(),
                0 <= i <= n,
                views == self.classes@.map_values(|c: String| c@),
                forall|j: int| 0 <= j < i ==> #[trigger] views[j] != class@,
            decreases n - i,
        {
            if string_eq_str(&self.classes[i], class) {
                proof {
                    assert(views[i as int] == class@);
                }
                return true;
            }
            i = i + 1;
        }
        proof {
            if views.contains(class@) {
                let j = choose|j: int| 0 <= j < views.len() && views[j] == class@;
                assert(views[j] != class@);
            }
        }
        false
    }
}

/// The whitespace characters that separate class tokens (the selector
/// grammar's whitespace set: space, tab, line feed, carriage return and form
/// feed).
pub open spec fn is_space(c: char) -> bool {
    c == ' ' || c == '\t' || c == '\n' || c == '\r' || c == '\u{c}'
}

/// The number of leading non-whitespace characters of `s`.
pub open spec fn token_len(s: Seq<char>) -> int
    decreases s.len(),
{
    if s.len() == 0 || is_space(s[0]) {
        0
    } else {
        1 + token_len(s.drop_first())
    }
}

/// The token length is at most the string's length.
pub proof fn lemma_token_len_bounds(s: Seq<char>)
    ensures
        0 <= token_len(s) <= s.len(),
    decreases s.len(),
{
    if s.len() > 0 && !is_space(s[0]) {
        lemma_token_len_bounds(s.drop_first());
    }
}

/// The whitespace-separated tokens of `s`, in order, each non-empty.
pub open spec fn split_spaces(s: Seq<char>) -> Seq<Seq<char>>
    decreases s.len(),
{
    if s.len() == 0 {
        Seq::empty()
    } else if is_space(s[0]) {
        split_spaces(s.drop_first())
    } else {
        proof {
            lemma_token_len_bounds(s);
            lemma_token_len_bounds(s.drop_first());
            assert(token_len(s) == 1 + token_len(s.drop_first()));
        }
        seq![s.subrange(0, token_len(s))] + split_spaces(s.subrange(token_len(s), s.len() as int))
    }
}

/// Decides the whitespace set of `is_space`.
pub fn is_space_char(c: char) -> (r: bool)
    ensures
        r == is_space(c),
{
    c == ' ' || c == '\t' || c == '\n' || c == '\r' || c == '\u{c}'
}

/// The number of leading non-whitespace characters of `s`.
fn token_len_str(s: &str) -> (r: usize)
    ensures
        r == token_len(s@),
    decreases s@.len(),
{
    let n = s.unicode_len();
    if n == 0 {
        return 0;
    }
    let c = s.get_char(0);
    if is_space_char(c) {
        0
    } else {
        let rest = token_len_str(s.substring_char(1, n));
        proof {
            assert(s@.subrange(1, n as int) =~= s@.drop_first());
            lemma_token_len_bounds(s@.drop_first());
        }
        1 + rest
    }
}

/// Splits a string at whitespace into its non-empty tokens, in order.
pub fn split_whitespace_tokens(s: &str) -> (r: Vec<String>)
    ensures
        r@.map_values(|t: String| t@) == split_spaces(s@),
    decreases s@.len(),
{
    let n = s.unicode_len();
    if n == 0 {
        let v: Vec<String> = Vec::new();
        proof {
            assert(v@.map_values(|t: String| t@) =~= split_spaces(s@));
        }
        return v;
    }
    let c = s.get_char(0);
    if is_space_char(c) {
        let r = split_whitespace_tokens(s.substring_char(1, n));
        proof {
            assert(s@.subrange(1, n as int) =~= s@.drop_first());
        }
        r
    } else {
        let tl = token_len_str(s);
        proof {
            lemma_token_len_bounds(s@);
            lemma_token_len_bounds(s@.drop_first());
            assert(token_len(s@) == 1 + token_len(s@.drop_first()));
            assert(tl >= 1);
        }
        let tok = s.substring_char(0, tl).to_owned();
        let mut rest = split_whitespace_tokens(s.substring_char(tl, n));
        let mut v: Vec<String> = Vec::new();
        v.push(tok);
        v.append(&mut rest);
        proof {
            assert(v@.map_values(|t: String| t@) =~= seq![s@.subrange(0, token_len(s@))]
                + split_spaces(s@.subrange(token_len(s@), s@.len() as int)));
        }
        v
    }
}

/// The value of the first attribute whose local name is `local`, in any
/// namespace: the rule the id and class derivations follow.
pub open spec fn first_local(attrs: Seq<Attribute>, local: Seq<char>) -> Option<Seq<char>>
    decreases attrs.len(),
{
    if attrs.len() == 0 {
        None
    } else if attrs[0].name.local@ == local {
        Some(attrs[0].value@)
    } else {
        first_local(attrs.drop_first(), local)
    }
}

/// True iff some attribute of `attrs` has exactly the qualified name `name`.
pub open spec fn has_attr_name(attrs: Seq<Attribute>, name: QualName) -> bool {
    exists|i: int|
        0 <= i < attrs.len() && (#[trigger] attrs[i].name).ns@ == name.ns@
            && attrs[i].name.local@ == name.local@
}

/// The attribute list `cur` extended by each incoming attribute whose
/// qualified name is not present yet: the first writer of a name wins.
pub open spec fn add_missing(cur: Seq<Attribute>, incoming: Seq<Attribute>) -> Seq<Attribute>
    decreases incoming.len(),
{
    if incoming.len() == 0 {
        cur
    } else {
        add_missing(
            if has_attr_name(cur, incoming[0].name) {
                cur
            } else {
                cur.push(incoming[0])
            },
            incoming.drop_first(),
        )
    }
}

/// Finds the value of the first attribute with the given local name.
fn find_local<'a>(attrs: &'a Vec<Attribute>, local: &str) -> (r: Option<&'a String>)
    ensures
        match r {
            Some(v) => first_local(attrs@, local@) == Some(v@),
            None => first_local(attrs@, local@) == None::<Seq<char>>,
        },
{
    let n = attrs.len();
    let mut i: usize = 0;
    proof {
        assert(attrs@.subrange(0, n as int) =~= attrs@);
    }
    while i < n
        invariant
            n == attrs@.len(),
            0 <= i <= n,
            first_local(attrs@, local@) == first_local(
                attrs@.subrange(i as int, n as int),
                local@,
            ),
        decreases n - i,
    {
        let a = &attrs[i];
        let ghost rest = attrs@.subrange(i as int, n as int);
        proof {
            assert(rest[0] == attrs@[i as int]);
        }
        if string_eq_str(&a.name.local, local) {
            return Some(&a.value);
        }
        proof {
            assert(rest.drop_first() =~= attrs@.subrange(i + 1, n as int));
        }
        i = i + 1;
    }
    proof {
        assert(attrs@.subrange(n as int, n as int) =~= Seq::<Attribute>::empty());
    }
    None
}

/// True iff the list already holds an attribute with this qualified name.
fn attr_name_present(attrs: &Vec<Attribute>, name: &QualName) -> (r: bool)
    ensures
        r == has_attr_name(attrs@, *name),
{
    let n = attrs.len();
    let mut i: usize = 0;
    while i < n
        invariant
            n == attrs@.len(),
            0 <= i <= n,
            forall|j: int|
                0 <= j < i ==> !((#[trigger] attrs@[j].name).ns@ == name.ns@
                    && attrs@[j].name.local@ == name.local@),
        decreases n - i,
    {
        let a = &attrs[i];
        if string_eq_str(&a.name.ns, name.ns.as_str()) && string_eq_str(
            &a.name.local,
            name.local.as_str(),
        ) {
            proof {
                assert(attrs@[i as int].name.ns@ == name.ns@ && attrs@[i as int].name.local@
                    == name.local@);
            }
            return true;
        }
        i = i + 1;
    }
    proof {
        if has_attr_name(attrs@, *name) {
            let j = choose|j: int|
                0 <= j < attrs@.len() && (#[trigger] attrs@[j].name).ns@ == name.ns@
                    && attrs@[j].name.local@ == name.local@;
            assert(!(attrs@[j].name.ns@ == name.ns@ && attrs@[j].name.local@ == name.local@));
        }
    }
    false
}

/// Extends `attrs` with each incoming attribute whose qualified name is not
/// present yet: the earliest value of each name wins.
pub fn push_missing_attrs(attrs: &mut Vec<Attribute>, incoming: Vec<Attribute>)
    ensures
        final(attrs)@ == add_missing(old(attrs)@, incoming@),
{
    let n = incoming.len();
    let mut i: usize = 0;
    let ghost inc = incoming@;
    proof {
        assert(inc.subrange(0, n as int) =~= inc);
    }
    let mut rest = incoming;
    while i < n
        invariant
            n == inc.len(),
            0 <= i <= n,
            rest@ == inc.subrange(i as int, n as int),
            add_missing(old(attrs)@, inc) == add_missing(attrs@, inc.subrange(i as int, n as int)),
        decreases n - i,
    {
        let a = rest.remove(0);
        proof {
            assert(inc.subrange(i as int, n as int)[0] == a);
            assert(rest@ =~= inc.subrange(i + 1, n as int));
            assert(inc.subrange(i as int, n as int).drop_first() =~= inc.subrange(
                i + 1,
                n as int,
            ));
        }
        if !attr_name_present(attrs, &a.name) {
            attrs.push(a);
        }
        i = i + 1;
    }
    proof {
        assert(add_missing(attrs@, inc.subrange(n as int, n as int)) == attrs@);
    }
}

/// What `Element::new` builds from a tag name and raw attributes: the id is
/// the first `id` value, the class tokens are the split of the first `class`
/// value, and the attribute list keeps the earliest value of each name.
pub open spec fn built_from(e: Element, name: QualName, attrs: Seq<Attribute>) -> bool {
    &&& e.name == name
    &&& (match e.id {
        Some(v) => first_local(attrs, "id"@) == Some(v@),
        None => first_local(attrs, "id"@) == None::<Seq<char>>,
    })
    &&& e.classes@.map_values(|t: String| t@) == (match first_local(attrs, "class"@) {
        Some(v) => split_spaces(v),
        None => Seq::<Seq<char>>::empty(),
    })
    &&& e.attrs@ == add_missing(Seq::<Attribute>::empty(), attrs)
}

impl Element {
    /// Validity of the derived fields' container shape: attribute names are
    /// pairwise distinct, so the attribute list reads as a mapping, and the
    /// class tokens are the split of a single attribute value.
    pub open spec fn names_distinct(attrs: Seq<Attribute>) -> bool {
        forall|i: int, j: int|
            0 <= i < j < attrs.len() ==> !((#[trigger] attrs[i].name).ns@
                == (#[trigger] attrs[j].name).ns@ && attrs[i].name.local@ == attrs[j].name.local@)
    }

    /// Builds an element from a tag name and its attributes. The `id` is the
    /// value of the first attribute whose local name is `id`; the class
    /// tokens are the whitespace-split of the first `class` value; attribute
    /// names are kept pairwise distinct, the earliest value of each name
    /// winning.
    pub fn new(name: QualName, attrs: Vec<Attribute>) -> (e: Element)
        ensures
            built_from(e, name, attrs@),
    {
        let id: Option<String> = match find_local(&attrs, "id") {
            Some(v) => Some(v.clone()),
            None => None,
        };
        let classes: Vec<String> = match find_local(&attrs, "class") {
            Some(v) => split_whitespace_tokens(v.as_str()),
            None => {
                let empty_classes: Vec<String> = Vec::new();
                proof {
                    assert(empty_classes@.map_values(|t: String| t@) =~= Seq::<Seq<char>>::empty());
                }
                empty_classes
            },
        };
        let mut kept: Vec<Attribute> = Vec::new();
        push_missing_attrs(&mut kept, attrs);
        Element { name, id, classes, attrs: kept }
    }
}

/// Compares an owned string with a borrowed one, character for character.
pub fn string_eq_str(a: &String, b: &str) -> (r: bool)
    ensures
        r == (a@ == b@),
{
    let an = a.as_str().unicode_len();
    let bn = b.unicode_len();
    if an != bn {
        proof {
            assert(a@ != b@);
        }
        return false;
    }
    let mut i: usize = 0;
    while i < an
        invariant
            an == a@.len(),
            bn == b@.len(),
            an == bn,
            0 <= i <= an,
            forall|j: int| 0 <= j < i ==> a@[j] == b@[j],
        decreases an - i,
    {
        if a.as_str().get_char(i) != b.get_char(i) {
            proof {
                assert(a@[i as int] != b@[i as int]);
            }
            return false;
        }
        i = i + 1;
    }
    proof {
        assert(a@ =~= b@);
    }
    true
}

} // verus!

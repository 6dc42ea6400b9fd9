//! The construction protocol: the mutation contract a push-based external
//! parser drives to build and repair the tree.
//!
//! Markup-level errors never abort construction: they are accumulated in an
//! ordered log while the tree is completed best-effort. Text insertions are
//! coalesced so the tree never gains two adjacent text siblings through this
//! protocol.

use vstd::prelude::*;

use crate::node::built_from;
use crate::node::Attribute;
use crate::node::Comment;
use crate::node::Doctype;
use crate::node::Element;
use crate::node::Node;
use crate::node::ProcessingInstruction;
use crate::node::QualName;
use crate::node::Text;
use crate::node::push_missing_attrs;
use crate::node::add_missing;
use crate::tree::lemma_ancestors_members;
use crate::tree::lemma_ancestors_same;
use crate::tree::lemma_root_parentless;
use crate::tree::lemma_wf_links;
use crate::tree::append_rel;
use crate::tree::detach_rel;
use crate::tree::insert_rel;
use crate::tree::NodeId;
use crate::tree::Tree;

verus! {

/// The document-wide parsing-compatibility flag; the last write wins.
#[derive(Clone, Copy, Debug, PartialEq, Eq, Structural)]
pub enum QuirksMode {
    /// Standard behaviour.
    NoQuirks,
    /// A small set of compatibility behaviours.
    LimitedQuirks,
    /// Full compatibility behaviour.
    Quirks,
}

/// What the parser hands to an insertion operation: an existing node, or a
/// run of text to be coalesced into the tree.
#[derive(Clone, Debug)]
pub enum NodeOrText {
    /// An existing node, created earlier by this protocol.
    AppendNode(NodeId),
    /// A run of text.
    AppendText(String),
}

/// No two adjacent siblings are both text nodes: the coalescing invariant.
pub open spec fn no_adjacent_text(t: Tree<Node>) -> bool {
    forall|p: int, k: int|
        t.ok(p) && 0 <= k && k + 1 < t.kids_of(p).len() ==> !((t.value_at(
            #[trigger] t.kids_of(p)[k],
        ) is Text) && (t.value_at(t.kids_of(p)[k + 1]) is Text))
}

/// A fresh orphan node: one more slot, holding `v`, with no links, and the
/// rest of the arena untouched.
pub open spec fn fresh_orphan(t0: Tree<Node>, t1: Tree<Node>, id: int, v: Node) -> bool {
    &&& t1.len() == t0.len() + 1
    &&& id == t0.len()
    &&& t1.value_at(id) == v
    &&& t1.parent_of(id) == None::<int>
    &&& t1.kids_of(id) == Seq::<int>::empty()
    &&& (forall|i: int| t0.ok(i) ==> #[trigger] t1.value_at(i) == t0.value_at(i))
    &&& (forall|i: int| t0.ok(i) ==> #[trigger] t1.kids_of(i) == t0.kids_of(i))
    &&& (forall|i: int| t0.ok(i) ==> #[trigger] t1.parent_of(i) == t0.parent_of(i))
}

/// How appending a run of text under `p` relates the tree before to the tree
/// after: if `p`'s last child is a text node the run is concatenated onto it
/// and no node is created; otherwise a fresh text node is appended.
pub open spec fn appended_text(t0: Tree<Node>, t1: Tree<Node>, p: int, s: Seq<char>) -> bool {
    if t0.last_of(p).is_some() && (t0.value_at(t0.last_of(p)->0) is Text) {
        let l = t0.last_of(p)->0;
        &&& t1.len() == t0.len()
        &&& (forall|i: int| t0.ok(i) ==> #[trigger] t1.kids_of(i) == t0.kids_of(i))
        &&& (forall|i: int| t0.ok(i) ==> #[trigger] t1.parent_of(i) == t0.parent_of(i))
        &&& (forall|i: int| t0.ok(i) && i != l ==> #[trigger] t1.value_at(i) == t0.value_at(i))
        &&& (match (t0.value_at(l), t1.value_at(l)) {
            (Node::Text(a), Node::Text(b)) => b.text@ == a.text@ + s,
            _ => false,
        })
    } else {
        &&& t1.len() == t0.len() + 1
        &&& t1.kids_of(p) == t0.kids_of(p).push(t0.len())
        &&& t1.parent_of(t0.len()) == Some(p)
        &&& (match t1.value_at(t0.len()) {
            Node::Text(b) => b.text@ == s,
            _ => false,
        })
        &&& t1.kids_of(t0.len()) == Seq::<int>::empty()
        &&& (forall|i: int| t0.ok(i) ==> #[trigger] t1.value_at(i) == t0.value_at(i))
        &&& (forall|i: int| t0.ok(i) && i != p ==> #[trigger] t1.kids_of(i) == t0.kids_of(i))
        &&& (forall|i: int| t0.ok(i) ==> #[trigger] t1.parent_of(i) == t0.parent_of(i))
    }
}

/// How inserting a run of text immediately before the attached node `s`
/// relates the tree before to the tree after: if `s`'s previous sibling is a
/// text node the run is concatenated onto it; otherwise a fresh text node is
/// linked in just before `s`.
pub open spec fn inserted_text(t0: Tree<Node>, t1: Tree<Node>, s: int, txt: Seq<char>) -> bool {
    if t0.prev_of(s).is_some() && (t0.value_at(t0.prev_of(s)->0) is Text) {
        let l = t0.prev_of(s)->0;
        &&& t1.len() == t0.len()
        &&& (forall|i: int| t0.ok(i) ==> #[trigger] t1.kids_of(i) == t0.kids_of(i))
        &&& (forall|i: int| t0.ok(i) ==> #[trigger] t1.parent_of(i) == t0.parent_of(i))
        &&& (forall|i: int| t0.ok(i) && i != l ==> #[trigger] t1.value_at(i) == t0.value_at(i))
        &&& (match (t0.value_at(l), t1.value_at(l)) {
            (Node::Text(a), Node::Text(b)) => b.text@ == a.text@ + txt,
            _ => false,
        })
    } else {
        let p = t0.parent_of(s)->0;
        let k = t0.child_index(p, s);
        &&& t1.len() == t0.len() + 1
        &&& t0.kids_of(p)[k] == s
        &&& 0 <= k < t0.kids_of(p).len()
        &&& t1.kids_of(p) == t0.kids_of(p).insert(k, t0.len())
        &&& t1.parent_of(t0.len()) == Some(p)
        &&& (match t1.value_at(t0.len()) {
            Node::Text(b) => b.text@ == txt,
            _ => false,
        })
        &&& (forall|i: int| t0.ok(i) ==> #[trigger] t1.value_at(i) == t0.value_at(i))
        &&& (forall|i: int| t0.ok(i) && i != p ==> #[trigger] t1.kids_of(i) == t0.kids_of(i))
        &&& (forall|i: int| t0.ok(i) ==> #[trigger] t1.parent_of(i) == t0.parent_of(i))
    }
}

/// True iff the qualified name denotes a template element.
pub open spec fn is_template_name(n: QualName) -> bool {
    n.ns@ == "http://www.w3.org/1999/xhtml"@ && n.local@ == "template"@
}

/// Changing one node's payload without changing whether it is text keeps the
/// coalescing invariant.
proof fn lemma_coalesce_value_change(t0: Tree<Node>, t1: Tree<Node>, l: int)
    requires
        t0.wf(),
        no_adjacent_text(t0),
        t1.len() == t0.len(),
        forall|i: int| t0.ok(i) ==> #[trigger] t1.kids_of(i) == t0.kids_of(i),
        forall|i: int| t0.ok(i) && i != l ==> #[trigger] t1.value_at(i) == t0.value_at(i),
        (t1.value_at(l) is Text) == (t0.value_at(l) is Text),
    ensures
        no_adjacent_text(t1),
{
    assert forall|p: int, k: int|
        t1.ok(p) && 0 <= k && k + 1 < t1.kids_of(p).len() implies !((t1.value_at(
        #[trigger] t1.kids_of(p)[k],
    ) is Text) && (t1.value_at(t1.kids_of(p)[k + 1]) is Text)) by {
        lemma_wf_links(t0, p);
        assert(t0.kids_of(p)[k] == t1.kids_of(p)[k]);
        assert(t0.kids_of(p)[k + 1] == t1.kids_of(p)[k + 1]);
        let a = t0.kids_of(p)[k];
        let b = t0.kids_of(p)[k + 1];
        assert(t0.ok(a) && t0.ok(b));
        assert((t1.value_at(a) is Text) == (t0.value_at(a) is Text));
        assert((t1.value_at(b) is Text) == (t0.value_at(b) is Text));
    }
}

/// Appending a node at the end of a child list keeps the coalescing
/// invariant, as long as it does not put two text nodes side by side.
proof fn lemma_coalesce_append(t0: Tree<Node>, t1: Tree<Node>, p: int, c: int)
    requires
        t0.wf(),
        no_adjacent_text(t0),
        t0.ok(p),
        t0.ok(c) ==> t0.parent_of(c) == None::<int>,
        t1.kids_of(p) == t0.kids_of(p).push(c),
        forall|i: int| t0.ok(i) && i != p ==> #[trigger] t1.kids_of(i) == t0.kids_of(i),
        forall|i: int| t0.ok(i) ==> #[trigger] t1.value_at(i) == t0.value_at(i),
        forall|i: int|
            t1.ok(i) && !t0.ok(i) ==> #[trigger] t1.kids_of(i) == Seq::<int>::empty(),
        t0.kids_of(p).len() > 0 ==> !((t0.value_at(t0.kids_of(p)[t0.kids_of(p).len() - 1]) is Text)
            && (t1.value_at(c) is Text)),
    ensures
        no_adjacent_text(t1),
{
    assert forall|p2: int, k: int|
        t1.ok(p2) && 0 <= k && k + 1 < t1.kids_of(p2).len() implies !((t1.value_at(
        #[trigger] t1.kids_of(p2)[k],
    ) is Text) && (t1.value_at(t1.kids_of(p2)[k + 1]) is Text)) by {
        if t0.ok(p2) {
            lemma_wf_links(t0, p2);
            if p2 == p {
                let ks0 = t0.kids_of(p);
                if k + 1 < ks0.len() {
                    assert(t1.kids_of(p)[k] == ks0[k]);
                    assert(t1.kids_of(p)[k + 1] == ks0[k + 1]);
                    assert(t0.ok(ks0[k]) && t0.ok(ks0[k + 1]));
                } else {
                    assert(k + 1 == ks0.len());
                    assert(t1.kids_of(p)[k] == ks0[ks0.len() - 1]);
                    assert(t1.kids_of(p)[k + 1] == c);
                    assert(t0.ok(ks0[k]));
                    assert(t1.value_at(ks0[k]) == t0.value_at(ks0[k]));
                }
            } else {
                assert(t1.kids_of(p2) == t0.kids_of(p2));
                let a = t0.kids_of(p2)[k];
                let b = t0.kids_of(p2)[k + 1];
                assert(t0.ok(a) && t0.ok(b));
            }
        } else {
            assert(t1.kids_of(p2) == Seq::<int>::empty());
        }
    }
}

/// Inserting a node into a child list keeps the coalescing invariant, as
/// long as it is not a text node set down beside another text node.
proof fn lemma_coalesce_insert(t0: Tree<Node>, t1: Tree<Node>, p: int, k: int, c: int)
    requires
        t0.wf(),
        no_adjacent_text(t0),
        t0.ok(p),
        0 <= k < t0.kids_of(p).len(),
        t1.kids_of(p) == t0.kids_of(p).insert(k, c),
        forall|i: int| t0.ok(i) && i != p ==> #[trigger] t1.kids_of(i) == t0.kids_of(i),
        forall|i: int| t0.ok(i) ==> #[trigger] t1.value_at(i) == t0.value_at(i),
        forall|i: int|
            t1.ok(i) && !t0.ok(i) ==> #[trigger] t1.kids_of(i) == Seq::<int>::empty(),
        !(t1.value_at(c) is Text) || ((k > 0 ==> !(t0.value_at(t0.kids_of(p)[k - 1]) is Text))
            && !(t0.value_at(t0.kids_of(p)[k]) is Text)),
    ensures
        no_adjacent_text(t1),
{
    let ks0 = t0.kids_of(p);
    assert(ks0.insert(k, c).len() == ks0.len() + 1) by {
        ks0.insert_ensures(k, c);
    }
    assert forall|p2: int, j: int|
        t1.ok(p2) && 0 <= j && j + 1 < t1.kids_of(p2).len() implies !((t1.value_at(
        #[trigger] t1.kids_of(p2)[j],
    ) is Text) && (t1.value_at(t1.kids_of(p2)[j + 1]) is Text)) by {
        if t0.ok(p2) {
            lemma_wf_links(t0, p2);
            if p2 == p {
                ks0.insert_ensures(k, c);
                let a = t1.kids_of(p)[j];
                let b = t1.kids_of(p)[j + 1];
                if j + 1 < k {
                    assert(a == ks0[j] && b == ks0[j + 1]);
                    assert(t0.ok(a) && t0.ok(b));
                } else if j + 1 == k {
                    assert(a == ks0[j] && b == c);
                    assert(t0.ok(a));
                    assert(a == ks0[k - 1]);
                } else if j == k {
                    assert(a == c && b == ks0[k]);
                    assert(t0.ok(b));
                } else {
                    assert(a == ks0[j - 1] && b == ks0[j]);
                    assert(t0.ok(a) && t0.ok(b));
                }
            } else {
                let a = t0.kids_of(p2)[j];
                let b = t0.kids_of(p2)[j + 1];
                assert(t0.ok(a) && t0.ok(b));
            }
        } else {
            assert(t1.kids_of(p2) == Seq::<int>::empty());
        }
    }
}

/// Allocating an orphan keeps the coalescing invariant.
proof fn lemma_coalesce_orphan(t0: Tree<Node>, t1: Tree<Node>)
    requires
        t0.wf(),
        no_adjacent_text(t0),
        t1.len() == t0.len() + 1,
        t1.kids_of(t0.len()) == Seq::<int>::empty(),
        forall|i: int| t0.ok(i) ==> #[trigger] t1.kids_of(i) == t0.kids_of(i),
        forall|i: int| t0.ok(i) ==> #[trigger] t1.value_at(i) == t0.value_at(i),
    ensures
        no_adjacent_text(t1),
{
    assert forall|p: int, k: int|
        t1.ok(p) && 0 <= k && k + 1 < t1.kids_of(p).len() implies !((t1.value_at(
        #[trigger] t1.kids_of(p)[k],
    ) is Text) && (t1.value_at(t1.kids_of(p)[k + 1]) is Text)) by {
        if t0.ok(p) {
            lemma_wf_links(t0, p);
            let a = t0.kids_of(p)[k];
            let b = t0.kids_of(p)[k + 1];
            assert(t0.ok(a) && t0.ok(b));
        } else {
            assert(p == t0.len());
            assert(t1.kids_of(p).len() == 0);
        }
    }
}

/// Text runs appended at the same insertion point coalesce in call order:
/// appending `s1` where the last child is not yet a text node and then `s2`
/// at the same parent creates exactly one text node, holding `s1 + s2`.
pub proof fn lemma_text_append_order(
    t0: Tree<Node>,
    t1: Tree<Node>,
    t2: Tree<Node>,
    p: int,
    s1: Seq<char>,
    s2: Seq<char>,
)
    requires
        t0.wf(),
        t1.wf(),
        t0.ok(p),
        !(t0.last_of(p).is_some() && (t0.value_at(t0.last_of(p)->0) is Text)),
        appended_text(t0, t1, p, s1),
        appended_text(t1, t2, p, s2),
    ensures
        t2.len() == t0.len() + 1,
        t2.kids_of(p) == t0.kids_of(p).push(t0.len()),
        (match t2.value_at(t0.len()) {
            Node::Text(b) => b.text@ == s1 + s2,
            _ => false,
        }),
{
    let c = t0.len();
    assert(t1.kids_of(p) == t0.kids_of(p).push(c));
    lemma_wf_links(t1, p);
    assert(t1.kids_of(p)[t1.kids_of(p).len() - 1] == c);
    assert(t1.last_of(p) == Some(c));
    assert(t1.value_at(c) is Text);
    assert(t2.kids_of(p) == t1.kids_of(p));
    assert(match (t1.value_at(c), t2.value_at(c)) {
        (Node::Text(a), Node::Text(b)) => b.text@ == a.text@ + s2,
        _ => false,
    });
}

/// The element nodes among a sequence of slot indices, in order.
pub open spec fn element_ids(t: Tree<Node>, s: Seq<int>) -> Seq<int>
    decreases s.len(),
{
    if s.len() == 0 {
        Seq::empty()
    } else {
        (if t.value_at(s[0]) is Element {
            seq![s[0]]
        } else {
            Seq::<int>::empty()
        }) + element_ids(t, s.drop_first())
    }
}

/// The contents of the text nodes among a sequence of slot indices, in order.
pub open spec fn text_runs(t: Tree<Node>, s: Seq<int>) -> Seq<Seq<char>>
    decreases s.len(),
{
    if s.len() == 0 {
        Seq::empty()
    } else {
        (match t.value_at(s[0]) {
            Node::Text(x) => seq![x.text@],
            _ => Seq::<Seq<char>>::empty(),
        }) + text_runs(t, s.drop_first())
    }
}

/// Filtering one more index appends that index's contribution.
proof fn lemma_element_ids_snoc(t: Tree<Node>, s: Seq<int>, i: int)
    requires
        0 <= i < s.len(),
    ensures
        element_ids(t, s.subrange(0, i + 1)) == element_ids(t, s.subrange(0, i)) + (if t.value_at(
            s[i],
        ) is Element {
            seq![s[i]]
        } else {
            Seq::<int>::empty()
        }),
    decreases i,
{
    if i == 0 {
        assert(s.subrange(0, 1) =~= seq![s[0]]);
        assert(s.subrange(0, 1).drop_first() =~= Seq::<int>::empty());
        assert(s.subrange(0, 0) =~= Seq::<int>::empty());
        assert(element_ids(t, s.subrange(0, 1)) =~= element_ids(t, s.subrange(0, 0)) + (if
        t.value_at(s[0]) is Element {
            seq![s[0]]
        } else {
            Seq::<int>::empty()
        }));
    } else {
        let r = s.drop_first();
        lemma_element_ids_snoc(t, r, i - 1);
        assert(s.subrange(0, i + 1).drop_first() =~= r.subrange(0, i));
        assert(s.subrange(0, i).drop_first() =~= r.subrange(0, i - 1));
        assert(s.subrange(0, i + 1)[0] == s[0]);
        assert(s.subrange(0, i)[0] == s[0]);
        assert(r[i - 1] == s[i]);
        assert(element_ids(t, s.subrange(0, i + 1)) =~= element_ids(t, s.subrange(0, i)) + (if
        t.value_at(s[i]) is Element {
            seq![s[i]]
        } else {
            Seq::<int>::empty()
        }));
    }
}

/// Extracting one more index appends that index's contribution.
proof fn lemma_text_runs_snoc(t: Tree<Node>, s: Seq<int>, i: int)
    requires
        0 <= i < s.len(),
    ensures
        text_runs(t, s.subrange(0, i + 1)) == text_runs(t, s.subrange(0, i)) + (match t.value_at(
            s[i],
        ) {
            Node::Text(x) => seq![x.text@],
            _ => Seq::<Seq<char>>::empty(),
        }),
    decreases i,
{
    if i == 0 {
        assert(s.subrange(0, 1) =~= seq![s[0]]);
        assert(s.subrange(0, 1).drop_first() =~= Seq::<int>::empty());
        assert(s.subrange(0, 0) =~= Seq::<int>::empty());
        assert(text_runs(t, s.subrange(0, 1)) =~= text_runs(t, s.subrange(0, 0)) + (match
        t.value_at(s[0]) {
            Node::Text(x) => seq![x.text@],
            _ => Seq::<Seq<char>>::empty(),
        }));
    } else {
        let r = s.drop_first();
        lemma_text_runs_snoc(t, r, i - 1);
        assert(s.subrange(0, i + 1).drop_first() =~= r.subrange(0, i));
        assert(s.subrange(0, i).drop_first() =~= r.subrange(0, i - 1));
        assert(s.subrange(0, i + 1)[0] == s[0]);
        assert(s.subrange(0, i)[0] == s[0]);
        assert(r[i - 1] == s[i]);
        assert(text_runs(t, s.subrange(0, i + 1)) =~= text_runs(t, s.subrange(0, i)) + (match
        t.value_at(s[i]) {
            Node::Text(x) => seq![x.text@],
            _ => Seq::<Seq<char>>::empty(),
        }));
    }
}

/// A lazy, finite, not restartable walk over the candidate elements of one
/// query: the descendant elements of the scope, in document order, the scope
/// itself excluded. An external matcher filters what this cursor yields.
pub struct Select {
    /// The candidate elements still to be yielded, in document order.
    items: Vec<NodeId>,
    /// How many candidates have been yielded already.
    pos: usize,
}

impl Select {
    /// The candidates not yet yielded, in document order.
    pub closed spec fn remaining(self) -> Seq<int> {
        if self.pos as int <= self.items@.len() {
            crate::tree::ids(self.items@).subrange(self.pos as int, self.items@.len() as int)
        } else {
            Seq::empty()
        }
    }

    /// Yields the next candidate element, or `None` when the walk is done.
    pub fn next(&mut self) -> (r: Option<NodeId>)
        ensures
            old(self).remaining().len() == 0 ==> r == None::<NodeId> && final(self).remaining()
                == old(self).remaining(),
            old(self).remaining().len() > 0 ==> (r matches Some(id) && id@ == old(
                self,
            ).remaining()[0] && final(self).remaining() == old(self).remaining().drop_first()),
    {
        if self.pos < self.items.len() {
            let id = self.items[self.pos];
            self.pos = self.pos + 1;
            proof {
                assert(crate::tree::ids(self.items@)[old(self).pos as int] == id@);
                assert(final(self).remaining() =~= old(self).remaining().drop_first());
            }
            Some(id)
        } else {
            proof {
                assert(old(self).remaining().len() == 0);
            }
            None
        }
    }
}

/// A markup document or fragment under construction: the node tree, the
/// ordered log of parse errors, and the quirks mode.
///
/// Parsing never fails hard: errors are logged and construction always
/// completes a best-effort tree.
pub struct Html {
    /// The ordered parse-error log.
    pub errors: Vec<String>,
    /// The quirks mode; the last write wins.
    pub quirks_mode: QuirksMode,
    /// The node tree. Slot 0 holds the document or fragment root.
    pub tree: Tree<Node>,
}

impl Html {
    /// Validity: the arena is well formed and slot 0 is a root marker.
    pub open spec fn wf(self) -> bool {
        &&& self.tree.wf()
        &&& (self.tree.value_at(0) is Document || self.tree.value_at(0) is Fragment)
    }

    /// Creates an empty document.
    pub fn new_document() -> (h: Html)
        ensures
            h.wf(),
            h.tree.len() == 1,
            h.tree.value_at(0) is Document,
            h.tree.kids_of(0) =~= Seq::<int>::empty(),
            h.errors@ =~= Seq::<String>::empty(),
            h.quirks_mode == QuirksMode::NoQuirks,
            no_adjacent_text(h.tree),
    {
        let h = Html {
            errors: Vec::new(),
            quirks_mode: QuirksMode::NoQuirks,
            tree: Tree::new(Node::Document),
        };
        proof {
            assert forall|p: int, k: int|
                h.tree.ok(p) && 0 <= k && k + 1 < h.tree.kids_of(p).len() implies !((h.tree.value_at(
                #[trigger] h.tree.kids_of(p)[k],
            ) is Text) && (h.tree.value_at(h.tree.kids_of(p)[k + 1]) is Text)) by {
                assert(h.tree.kids_of(0) =~= Seq::<int>::empty());
            }
        }
        h
    }

    /// Creates an empty fragment.
    pub fn new_fragment() -> (h: Html)
        ensures
            h.wf(),
            h.tree.len() == 1,
            h.tree.value_at(0) is Fragment,
            h.tree.kids_of(0) =~= Seq::<int>::empty(),
            h.errors@ =~= Seq::<String>::empty(),
            h.quirks_mode == QuirksMode::NoQuirks,
            no_adjacent_text(h.tree),
    {
        let h = Html {
            errors: Vec::new(),
            quirks_mode: QuirksMode::NoQuirks,
            tree: Tree::new(Node::Fragment),
        };
        proof {
            assert forall|p: int, k: int|
                h.tree.ok(p) && 0 <= k && k + 1 < h.tree.kids_of(p).len() implies !((h.tree.value_at(
                #[trigger] h.tree.kids_of(p)[k],
            ) is Text) && (h.tree.value_at(h.tree.kids_of(p)[k + 1]) is Text)) by {
                assert(h.tree.kids_of(0) =~= Seq::<int>::empty());
            }
        }
        h
    }

    /// Appends a markup-level error to the ordered log. Never aborts
    /// construction.
    pub fn parse_error(&mut self, msg: String)
        ensures
            final(self).errors@ == old(self).errors@.push(msg),
            final(self).quirks_mode == old(self).quirks_mode,
            final(self).tree == old(self).tree,
    {
        self.errors.push(msg);
    }

    /// The handle of the pre-existing root.
    pub fn get_document(&self) -> (id: NodeId)
        ensures
            id@ == 0,
    {
        self.tree.root()
    }

    /// Records the quirks mode; the last write wins.
    pub fn set_quirks_mode(&mut self, mode: QuirksMode)
        ensures
            final(self).quirks_mode == mode,
            final(self).errors == old(self).errors,
            final(self).tree == old(self).tree,
    {
        self.quirks_mode = mode;
    }

    /// Returns true iff the handles refer to the same node.
    pub fn same_node(&self, x: NodeId, y: NodeId) -> (r: bool)
        ensures
            r == (x@ == y@),
    {
        self.tree.same(x, y)
    }

    /// Marking a script as started is a no-op: no scripting is executed.
    pub fn mark_script_already_started(&mut self, node: NodeId)
        ensures
            *final(self) == *old(self),
    {
        let _ = node;
    }

    /// Allocates an orphan comment node.
    pub fn create_comment(&mut self, text: String) -> (id: NodeId)
        requires
            old(self).wf(),
        ensures
            final(self).wf(),
            final(self).errors == old(self).errors,
            final(self).quirks_mode == old(self).quirks_mode,
            fresh_orphan(
                old(self).tree,
                final(self).tree,
                id@,
                Node::Comment(Comment { comment: text }),
            ),
            no_adjacent_text(old(self).tree) ==> no_adjacent_text(final(self).tree),
    {
        proof {
            lemma_root_parentless(old(self).tree);
        }
        let id = self.tree.orphan(Node::Comment(Comment { comment: text }));
        proof {
            if no_adjacent_text(old(self).tree) {
                lemma_coalesce_orphan(old(self).tree, self.tree);
            }
        }
        id
    }

    /// Allocates an orphan processing-instruction node.
    pub fn create_pi(&mut self, target: String, data: String) -> (id: NodeId)
        requires
            old(self).wf(),
        ensures
            final(self).wf(),
            final(self).errors == old(self).errors,
            final(self).quirks_mode == old(self).quirks_mode,
            fresh_orphan(
                old(self).tree,
                final(self).tree,
                id@,
                Node::ProcessingInstruction(ProcessingInstruction { target, data }),
            ),
            no_adjacent_text(old(self).tree) ==> no_adjacent_text(final(self).tree),
    {
        proof {
            lemma_root_parentless(old(self).tree);
        }
        let id = self.tree.orphan(
            Node::ProcessingInstruction(ProcessingInstruction { target, data }),
        );
        proof {
            if no_adjacent_text(old(self).tree) {
                lemma_coalesce_orphan(old(self).tree, self.tree);
            }
        }
        id
    }

    /// Allocates an orphan element. Its id and class tokens are derived from
    /// the attributes once, here. When the name denotes a template element, a
    /// fragment root is also allocated and attached beneath it as the
    /// template contents, retrievable through `get_template_contents`.
    pub fn create_element(&mut self, name: QualName, attrs: Vec<Attribute>) -> (id: NodeId)
        requires
            old(self).wf(),
        ensures
            final(self).wf(),
            final(self).errors == old(self).errors,
            final(self).quirks_mode == old(self).quirks_mode,
            id@ == old(self).tree.len(),
            final(self).tree.ok(id@),
            final(self).tree.parent_of(id@) == None::<int>,
            (match final(self).tree.value_at(id@) {
                Node::Element(e) => built_from(e, name, attrs@),
                _ => false,
            }),
            !is_template_name(name) ==> {
                &&& final(self).tree.len() == old(self).tree.len() + 1
                &&& final(self).tree.kids_of(id@) == Seq::<int>::empty()
            },
            is_template_name(name) ==> {
                &&& final(self).tree.len() == old(self).tree.len() + 2
                &&& final(self).tree.kids_of(id@) == seq![id@ + 1]
                &&& final(self).tree.value_at(id@ + 1) is Fragment
                &&& final(self).tree.parent_of(id@ + 1) == Some(id@)
                &&& final(self).tree.first_of(id@) == Some(id@ + 1)
            },
            forall|i: int|
                old(self).tree.ok(i) ==> #[trigger] final(self).tree.value_at(i) == old(
                    self,
                ).tree.value_at(i),
            forall|i: int|
                old(self).tree.ok(i) ==> #[trigger] final(self).tree.kids_of(i) == old(
                    self,
                ).tree.kids_of(i),
            forall|i: int|
                old(self).tree.ok(i) ==> #[trigger] final(self).tree.parent_of(i) == old(
                    self,
                ).tree.parent_of(i),
            no_adjacent_text(old(self).tree) ==> no_adjacent_text(final(self).tree),
    {
        let is_template = crate::node::string_eq_str(
            &name.ns,
            "http://www.w3.org/1999/xhtml",
        ) && crate::node::string_eq_str(&name.local, "template");
        let element = Element::new(name, attrs);
        let ghost t0 = self.tree;
        proof {
            lemma_root_parentless(t0);
        }
        let id = self.tree.orphan(Node::Element(element));
        let ghost t1 = self.tree;
        proof {
            if no_adjacent_text(t0) {
                lemma_coalesce_orphan(t0, t1);
            }
        }
        if is_template {
            let frag = self.tree.orphan(Node::Fragment);
            let ghost t2 = self.tree;
            proof {
                if no_adjacent_text(t0) {
                    lemma_coalesce_orphan(t1, t2);
                }
            }
            self.tree.append_id(id, frag);
            proof {
                if no_adjacent_text(t0) {
                    lemma_coalesce_append(t2, self.tree, id@, frag@);
                }
                lemma_root_parentless(t2);
            }
        }
        id
    }

    /// Appends a doctype node to the true document root, regardless of the
    /// current insertion point.
    pub fn append_doctype_to_document(&mut self, name: String, public_id: String, system_id: String)
        requires
            old(self).wf(),
        ensures
            final(self).wf(),
            final(self).errors == old(self).errors,
            final(self).quirks_mode == old(self).quirks_mode,
            final(self).tree.len() == old(self).tree.len() + 1,
            final(self).tree.kids_of(0) == old(self).tree.kids_of(0).push(old(self).tree.len()),
            (match final(self).tree.value_at(old(self).tree.len()) {
                Node::Doctype(d) => d.name@ == name@ && d.public_id@ == public_id@ && d.system_id@
                    == system_id@,
                _ => false,
            }),
            forall|i: int|
                old(self).tree.ok(i) ==> #[trigger] final(self).tree.value_at(i) == old(
                    self,
                ).tree.value_at(i),
            forall|i: int|
                old(self).tree.ok(i) && i != 0 ==> #[trigger] final(self).tree.kids_of(i) == old(
                    self,
                ).tree.kids_of(i),
            no_adjacent_text(old(self).tree) ==> no_adjacent_text(final(self).tree),
    {
        let ghost t0 = self.tree;
        proof {
            lemma_root_parentless(t0);
        }
        let id = self.tree.orphan(Node::Doctype(Doctype { name, public_id, system_id }));
        let ghost t1 = self.tree;
        proof {
            if no_adjacent_text(t0) {
                lemma_coalesce_orphan(t0, t1);
            }
        }
        let root = self.tree.root();
        self.tree.append_id(root, id);
        proof {
            if no_adjacent_text(t0) {
                lemma_coalesce_append(t1, self.tree, 0, id@);
            }
        }
    }

    /// Appends a node or a run of text as the last child of `parent`. Text
    /// is coalesced onto `parent`'s last child when that child is already a
    /// text node, so this never produces two adjacent text siblings.
    ///
    /// A node handed in must currently be an orphan and must not sit above
    /// `parent`.
    pub fn append(&mut self, parent: NodeId, child: NodeOrText)
        requires
            old(self).wf(),
            old(self).tree.ok(parent@),
            (child matches NodeOrText::AppendNode(id) ==> old(self).tree.ok(id@) && old(
                self,
            ).tree.parent_of(id@) == None::<int> && id@ != 0 && !old(self).tree.ancestors(
                parent@,
            ).contains(id@)),
        ensures
            final(self).wf(),
            final(self).errors == old(self).errors,
            final(self).quirks_mode == old(self).quirks_mode,
            (child matches NodeOrText::AppendNode(id) ==> append_rel(
                old(self).tree,
                final(self).tree,
                parent@,
                id@,
            ) && (no_adjacent_text(old(self).tree) && !(old(self).tree.value_at(id@) is Text)
                ==> no_adjacent_text(final(self).tree))),
            (child matches NodeOrText::AppendText(s) ==> appended_text(
                old(self).tree,
                final(self).tree,
                parent@,
                s@,
            ) && (no_adjacent_text(old(self).tree) ==> no_adjacent_text(final(self).tree))),
    {
        let ghost t0 = self.tree;
        match child {
            NodeOrText::AppendNode(id) => {
                self.tree.append_id(parent, id);
                proof {
                    lemma_root_parentless(t0);
                    if no_adjacent_text(t0) && !(t0.value_at(id@) is Text) {
                        lemma_wf_links(t0, parent@);
                        lemma_coalesce_append(t0, self.tree, parent@, id@);
                    }
                }
            },
            NodeOrText::AppendText(s) => {
                self.append_text_last(parent, s);
            },
        }
    }

    /// The text arm of `append`: coalesces onto a trailing text child or
    /// appends a fresh text node.
    fn append_text_last(&mut self, parent: NodeId, s: String)
        requires
            old(self).wf(),
            old(self).tree.ok(parent@),
        ensures
            final(self).wf(),
            final(self).errors == old(self).errors,
            final(self).quirks_mode == old(self).quirks_mode,
            appended_text(old(self).tree, final(self).tree, parent@, s@),
            no_adjacent_text(old(self).tree) ==> no_adjacent_text(final(self).tree),
    {
        let ghost t0 = self.tree;
        let lastv = self.tree.last_child(parent);
        match lastv {
            Some(l) => {
                let is_txt = match self.tree.get(l) {
                    Node::Text(_) => true,
                    _ => false,
                };
                if is_txt {
                    proof {
                        lemma_wf_links(t0, parent@);
                        assert(t0.kids_of(parent@).len() > 0);
                        assert(t0.kids_of(parent@)[t0.kids_of(parent@).len() - 1] == l@);
                        assert(t0.parent_of(l@) == Some(parent@));
                        lemma_root_parentless(t0);
                        assert(l@ != 0);
                    }
                    let prior = self.tree.replace_value(l, Node::Document);
                    match prior {
                        Node::Text(mut t) => {
                            t.text.append(s.as_str());
                            self.tree.set_value(l, Node::Text(t));
                            proof {
                                if no_adjacent_text(t0) {
                                    lemma_coalesce_value_change(t0, self.tree, l@);
                                }
                            }
                        },
                        _ => {
                            proof {
                                assert(false);
                            }
                        },
                    }
                } else {
                    self.push_text_child(parent, s);
                }
            },
            None => {
                self.push_text_child(parent, s);
            },
        }
    }

    /// Appends a fresh text node; the caller has ruled out coalescing.
    fn push_text_child(&mut self, parent: NodeId, s: String)
        requires
            old(self).wf(),
            old(self).tree.ok(parent@),
            !(old(self).tree.last_of(parent@).is_some() && (old(self).tree.value_at(
                old(self).tree.last_of(parent@)->0,
            ) is Text)),
        ensures
            final(self).wf(),
            final(self).errors == old(self).errors,
            final(self).quirks_mode == old(self).quirks_mode,
            appended_text(old(self).tree, final(self).tree, parent@, s@),
            no_adjacent_text(old(self).tree) ==> no_adjacent_text(final(self).tree),
    {
        let ghost t0 = self.tree;
        let id = self.tree.orphan(Node::Text(Text { text: s }));
        let ghost t1 = self.tree;
        proof {
            if no_adjacent_text(t0) {
                lemma_coalesce_orphan(t0, t1);
            }
        }
        self.tree.append_id(parent, id);
        proof {
            lemma_root_parentless(t0);
            if no_adjacent_text(t0) {
                lemma_wf_links(t0, parent@);
                lemma_coalesce_append(t1, self.tree, parent@, id@);
            }
        }
    }

    /// Detaches `target` from its parent; a no-op on a root or an already
    /// detached node.
    pub fn remove_from_parent(&mut self, target: NodeId)
        requires
            old(self).wf(),
            old(self).tree.ok(target@),
        ensures
            final(self).wf(),
            final(self).errors == old(self).errors,
            final(self).quirks_mode == old(self).quirks_mode,
            old(self).tree.parent_of(target@) == None::<int> ==> final(self).tree == old(
                self,
            ).tree,
            final(self).tree.parent_of(target@) == None::<int>,
            old(self).tree.parent_of(target@).is_some() ==> detach_rel(
                old(self).tree,
                final(self).tree,
                target@,
                old(self).tree.parent_of(target@)->0,
                old(self).tree.child_index(old(self).tree.parent_of(target@)->0, target@),
            ),
    {
        self.tree.detach(target);
    }

    /// Appends a node or a run of text immediately before `sibling`. Fails
    /// with the rejected payload, changing nothing, if `sibling` has no
    /// parent. On success an incoming node is first detached from any prior
    /// parent, and text is coalesced onto `sibling`'s previous sibling when
    /// that is already a text node.
    ///
    /// An incoming node must not be `sibling` itself and must not sit above
    /// `sibling`.
    pub fn append_before_sibling(&mut self, sibling: NodeId, new_node: NodeOrText) -> (r: Result<
        (),
        NodeOrText,
    >)
        requires
            old(self).wf(),
            old(self).tree.ok(sibling@),
            (new_node matches NodeOrText::AppendNode(id) ==> old(self).tree.ok(id@) && id@ != 0
                && id@ != sibling@ && !old(self).tree.ancestors(sibling@).contains(id@)),
        ensures
            final(self).wf(),
            final(self).errors == old(self).errors,
            final(self).quirks_mode == old(self).quirks_mode,
            (r is Err) == (old(self).tree.parent_of(sibling@) == None::<int>),
            r matches Err(n) ==> *final(self) == *old(self) && n == new_node,
            r is Ok && new_node is AppendNode ==> (exists|mid: Tree<Node>|
                {
                    let id = new_node->AppendNode_0;
                    &&& #[trigger] mid.wf()
                    &&& (if old(self).tree.parent_of(id@).is_some() {
                        detach_rel(
                            old(self).tree,
                            mid,
                            id@,
                            old(self).tree.parent_of(id@)->0,
                            old(self).tree.child_index(old(self).tree.parent_of(id@)->0, id@),
                        )
                    } else {
                        mid == old(self).tree
                    })
                    &&& insert_rel(
                        mid,
                        final(self).tree,
                        sibling@,
                        id@,
                        mid.parent_of(sibling@)->0,
                        mid.child_index(mid.parent_of(sibling@)->0, sibling@),
                    )
                }),
            r is Ok ==> (new_node matches NodeOrText::AppendText(s) ==> inserted_text(
                old(self).tree,
                final(self).tree,
                sibling@,
                s@,
            ) && (no_adjacent_text(old(self).tree) && !(old(self).tree.value_at(
                sibling@,
            ) is Text) ==> no_adjacent_text(final(self).tree))),
    {
        let ghost t0 = self.tree;
        match self.tree.parent(sibling) {
            None => {
                return Err(new_node);
            },
            Some(_) => {},
        }
        match new_node {
            NodeOrText::AppendNode(id) => {
                self.tree.detach(id);
                let ghost mid = self.tree;
                proof {
                    lemma_ancestors_same(t0, mid, sibling@, Set::<int>::empty().insert(id@));
                    assert(mid.ancestors(sibling@) == t0.ancestors(sibling@));
                    lemma_root_parentless(t0);
                }
                self.tree.insert_id_before(sibling, id);
                proof {
                    assert((if t0.parent_of(id@).is_some() {
                        detach_rel(
                            t0,
                            mid,
                            id@,
                            t0.parent_of(id@)->0,
                            t0.child_index(t0.parent_of(id@)->0, id@),
                        )
                    } else {
                        mid == t0
                    }) && mid.wf() && insert_rel(
                        mid,
                        self.tree,
                        sibling@,
                        id@,
                        mid.parent_of(sibling@)->0,
                        mid.child_index(mid.parent_of(sibling@)->0, sibling@),
                    ));
                }
                Ok(())
            },
            NodeOrText::AppendText(s) => {
                self.insert_text_before(sibling, s);
                Ok(())
            },
        }
    }

    /// The text arm of `append_before_sibling`: coalesces onto the previous
    /// sibling or links a fresh text node in before `sibling`.
    fn insert_text_before(&mut self, sibling: NodeId, s: String)
        requires
            old(self).wf(),
            old(self).tree.ok(sibling@),
            old(self).tree.parent_of(sibling@).is_some(),
        ensures
            final(self).wf(),
            final(self).errors == old(self).errors,
            final(self).quirks_mode == old(self).quirks_mode,
            inserted_text(old(self).tree, final(self).tree, sibling@, s@),
            no_adjacent_text(old(self).tree) && !(old(self).tree.value_at(sibling@) is Text)
                ==> no_adjacent_text(final(self).tree),
    {
        let ghost t0 = self.tree;
        let prevv = self.tree.prev_sibling(sibling);
        let ghost p = t0.parent_of(sibling@)->0;
        let ghost k = t0.child_index(p, sibling@);
        proof {
            crate::tree::lemma_parent_ok(t0, sibling@);
            assert(t0.kids_of(p).contains(sibling@));
            let k0 = choose|k0: int|
                0 <= k0 < t0.kids_of(p).len() && t0.kids_of(p)[k0] == sibling@;
            assert(0 <= k < t0.kids_of(p).len() && t0.kids_of(p)[k] == sibling@);
            lemma_wf_links(t0, p);
        }
        let mut merged = false;
        match prevv {
            Some(l) => {
                let is_txt = match self.tree.get(l) {
                    Node::Text(_) => true,
                    _ => false,
                };
                if is_txt {
                    proof {
                        assert(t0.prev_of(sibling@) == Some(l@));
                        assert(k > 0 && t0.kids_of(p)[k - 1] == l@);
                        assert(t0.parent_of(l@) == Some(p));
                        lemma_root_parentless(t0);
                        assert(l@ != 0);
                    }
                    let prior = self.tree.replace_value(l, Node::Document);
                    match prior {
                        Node::Text(mut t) => {
                            t.text.append(s.as_str());
                            self.tree.set_value(l, Node::Text(t));
                            proof {
                                if no_adjacent_text(t0) {
                                    lemma_coalesce_value_change(t0, self.tree, l@);
                                }
                            }
                        },
                        _ => {
                            proof {
                                assert(false);
                            }
                        },
                    }
                    merged = true;
                }
            },
            None => {},
        }
        if !merged {
            proof {
                if k > 0 {
                    assert(t0.prev_of(sibling@) == Some(t0.kids_of(p)[k - 1]));
                }
            }
            let ghost tpre = self.tree;
            let id = self.tree.orphan(Node::Text(Text { text: s }));
            let ghost t1 = self.tree;
            proof {
                if no_adjacent_text(t0) {
                    lemma_coalesce_orphan(t0, t1);
                }
                lemma_root_parentless(t0);
            }
            self.tree.insert_id_before(sibling, id);
            proof {
                assert(insert_rel(t1, self.tree, sibling@, id@, p, k)) by {
                    assert(t1.parent_of(sibling@) == t0.parent_of(sibling@));
                    assert(t1.kids_of(p) == t0.kids_of(p));
                }
                if no_adjacent_text(t0) && !(t0.value_at(sibling@) is Text) {
                    lemma_coalesce_insert(t1, self.tree, p, k, id@);
                }
            }
        }
    }

    /// Replaces the attributes of the element at `target` by the same list
    /// extended with each incoming attribute whose name is not present yet:
    /// the earliest value of each qualified name wins. The derived id and
    /// class fields are not recomputed.
    pub fn add_attrs_if_missing(&mut self, target: NodeId, attrs: Vec<Attribute>)
        requires
            old(self).wf(),
            old(self).tree.ok(target@),
            old(self).tree.value_at(target@) is Element,
        ensures
            final(self).wf(),
            final(self).errors == old(self).errors,
            final(self).quirks_mode == old(self).quirks_mode,
            final(self).tree.len() == old(self).tree.len(),
            forall|i: int|
                old(self).tree.ok(i) ==> #[trigger] final(self).tree.kids_of(i) == old(
                    self,
                ).tree.kids_of(i),
            forall|i: int|
                old(self).tree.ok(i) ==> #[trigger] final(self).tree.parent_of(i) == old(
                    self,
                ).tree.parent_of(i),
            forall|i: int|
                old(self).tree.ok(i) && i != target@ ==> #[trigger] final(self).tree.value_at(i)
                    == old(self).tree.value_at(i),
            (match (old(self).tree.value_at(target@), final(self).tree.value_at(target@)) {
                (Node::Element(e0), Node::Element(e1)) => {
                    &&& e1.attrs@ == add_missing(e0.attrs@, attrs@)
                    &&& e1.name == e0.name
                    &&& e1.id == e0.id
                    &&& e1.classes == e0.classes
                },
                _ => false,
            }),
            no_adjacent_text(old(self).tree) ==> no_adjacent_text(final(self).tree),
    {
        let ghost t0 = self.tree;
        proof {
            lemma_root_parentless(t0);
        }
        let prior = self.tree.replace_value(target, Node::Document);
        match prior {
            Node::Element(mut e) => {
                push_missing_attrs(&mut e.attrs, attrs);
                self.tree.set_value(target, Node::Element(e));
                proof {
                    if no_adjacent_text(t0) {
                        lemma_coalesce_value_change(t0, self.tree, target@);
                    }
                    if target@ == 0 {
                        assert(t0.value_at(0) is Element);
                        assert(false);
                    }
                }
            },
            _ => {
                proof {
                    assert(false);
                }
            },
        }
    }

    /// The template contents of the template element at `target`: the
    /// fragment root created alongside it, stored as its first child.
    /// Calling this on anything else is a contract violation.
    pub fn get_template_contents(&self, target: NodeId) -> (r: NodeId)
        requires
            self.wf(),
            self.tree.ok(target@),
            self.tree.value_at(target@) is Element,
            self.tree.first_of(target@).is_some(),
        ensures
            r@ == self.tree.first_of(target@)->0,
            self.tree.ok(r@),
    {
        let first = self.tree.first_child(target);
        match first {
            Some(f) => f,
            None => {
                proof {
                    assert(false);
                }
                target
            },
        }
    }

    /// The subtree of `root` in document order: `root` itself first, then,
    /// child by child, each child's whole subtree.
    pub fn descendants(&self, root: NodeId) -> (r: Vec<NodeId>)
        requires
            self.wf(),
            self.tree.ok(root@),
        ensures
            crate::tree::ids(r@) == self.tree.subtree(root@),
    {
        self.tree.descendants(root)
    }

    /// The candidate elements of one query: the descendant elements of
    /// `scope` in document order, the scope itself excluded. Every result of
    /// a query is drawn from this sequence, in this order; the external
    /// matcher only filters it.
    pub fn select_candidates(&self, scope: NodeId) -> (r: Vec<NodeId>)
        requires
            self.wf(),
            self.tree.ok(scope@),
        ensures
            crate::tree::ids(r@) == element_ids(
                self.tree,
                self.tree.subtree(scope@).drop_first(),
            ),
    {
        let all = self.tree.descendants(scope);
        let ghost rest = self.tree.subtree(scope@).drop_first();
        let n = all.len();
        let mut out: Vec<NodeId> = Vec::new();
        let mut i: usize = 1;
        proof {
            crate::tree::lemma_subtree_unfold(self.tree, scope@);
            assert(self.tree.subtree(scope@)[0] == scope@);
            assert(rest.subrange(0, 0) =~= Seq::<int>::empty());
            assert(crate::tree::ids(out@) =~= element_ids(self.tree, rest.subrange(0, 0)));
        }
        while i < n
            invariant
                self.wf(),
                self.tree.ok(scope@),
                n == all@.len(),
                crate::tree::ids(all@) == self.tree.subtree(scope@),
                rest == self.tree.subtree(scope@).drop_first(),
                1 <= i <= n,
                n >= 1,
                crate::tree::ids(out@) == element_ids(self.tree, rest.subrange(0, i - 1)),
            decreases n - i,
        {
            let id = all[i];
            proof {
                assert(crate::tree::ids(all@)[i as int] == id@);
                assert(rest[i - 1] == id@);
                crate::tree::lemma_subtree_members(self.tree, scope@);
                assert(self.tree.subtree(scope@).contains(self.tree.subtree(scope@)[i as int]));
                assert(self.tree.ok(id@));
            }
            let is_elem = match self.tree.get(id) {
                Node::Element(_) => true,
                _ => false,
            };
            if is_elem {
                out.push(id);
            }
            proof {
                lemma_element_ids_snoc(self.tree, rest, i - 1);
                assert(crate::tree::ids(out@) =~= element_ids(self.tree, rest.subrange(0, i as int)));
            }
            i = i + 1;
        }
        proof {
            assert(rest.subrange(0, n - 1) =~= rest);
        }
        out
    }

    /// Starts a query walk over the descendant elements of `scope`.
    pub fn select(&self, scope: NodeId) -> (r: Select)
        requires
            self.wf(),
            self.tree.ok(scope@),
        ensures
            r.remaining() == element_ids(self.tree, self.tree.subtree(scope@).drop_first()),
    {
        let items = self.select_candidates(scope);
        let ghost v = crate::tree::ids(items@);
        let r = Select { items, pos: 0 };
        proof {
            assert(r.remaining() =~= v);
        }
        r
    }

    /// The contents of the text nodes under `root` (itself included), in
    /// document order: the descendant text of the subtree.
    pub fn text_fragments(&self, root: NodeId) -> (r: Vec<String>)
        requires
            self.wf(),
            self.tree.ok(root@),
        ensures
            r@.map_values(|t: String| t@) == text_runs(self.tree, self.tree.subtree(root@)),
    {
        let all = self.tree.descendants(root);
        let ghost whole = self.tree.subtree(root@);
        let n = all.len();
        let mut out: Vec<String> = Vec::new();
        let mut i: usize = 0;
        proof {
            assert(whole.subrange(0, 0) =~= Seq::<int>::empty());
            assert(out@.map_values(|t: String| t@) =~= text_runs(self.tree, whole.subrange(0, 0)));
        }
        while i < n
            invariant
                self.wf(),
                self.tree.ok(root@),
                n == all@.len(),
                crate::tree::ids(all@) == whole,
                whole == self.tree.subtree(root@),
                0 <= i <= n,
                out@.map_values(|t: String| t@) == text_runs(self.tree, whole.subrange(0, i as int)),
            decreases n - i,
        {
            let id = all[i];
            proof {
                assert(crate::tree::ids(all@)[i as int] == id@);
                crate::tree::lemma_subtree_members(self.tree, root@);
                assert(whole.contains(whole[i as int]));
                assert(self.tree.ok(id@));
            }
            match self.tree.get(id) {
                Node::Text(t) => {
                    let piece = t.text.clone();
                    out.push(piece);
                },
                _ => {},
            }
            proof {
                lemma_text_runs_snoc(self.tree, whole, i as int);
                assert(out@.map_values(|t: String| t@) =~= text_runs(
                    self.tree,
                    whole.subrange(0, i + 1),
                ));
            }
            i = i + 1;
        }
        proof {
            assert(whole.subrange(0, n as int) =~= whole);
        }
        out
    }

    /// The qualified name of the element at `target`. Calling this on a
    /// non-element node is a contract violation.
    pub fn elem_name(&self, target: NodeId) -> (r: QualName)
        requires
            self.wf(),
            self.tree.ok(target@),
            self.tree.value_at(target@) is Element,
        ensures
            (match self.tree.value_at(target@) {
                Node::Element(e) => r.ns@ == e.name.ns@ && r.local@ == e.name.local@,
                _ => false,
            }),
    {
        match self.tree.get(target) {
            Node::Element(e) => QualName { ns: e.name.ns.clone(), local: e.name.local.clone() },
            _ => {
                proof {
                    assert(false);
                }
                QualName { ns: String::new(), local: String::new() }
            },
        }
    }
}

} // verus!

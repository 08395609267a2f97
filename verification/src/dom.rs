//! The document tree: an arena of nodes addressed by index.
//!
//! Nodes are stored in creation order; a well-formed tree only links a
//! node to children created after it, which makes every walk down the
//! tree well-founded.

use vstd::prelude::*;

verus! {

broadcast use vstd::string::to_string_from_display_ensures_for_str;

/// A qualified name: namespace URL plus local name.
#[derive(Debug, PartialEq, Eq)]
pub struct QualName {
    pub ns: String,
    pub local: String,
}

/// Mathematical model of a qualified name.
pub struct NameModel {
    pub ns: Seq<char>,
    pub local: Seq<char>,
}

impl View for QualName {
    type V = NameModel;

    open spec fn view(&self) -> NameModel {
        NameModel { ns: self.ns@, local: self.local@ }
    }
}

/// An attribute: a qualified name and a string value.
#[derive(Debug, PartialEq, Eq)]
pub struct Attribute {
    pub name: QualName,
    pub value: String,
}

/// Mathematical model of an attribute.
pub struct AttrModel {
    pub name: NameModel,
    pub value: Seq<char>,
}

impl View for Attribute {
    type V = AttrModel;

    open spec fn view(&self) -> AttrModel {
        AttrModel { name: self.name@, value: self.value@ }
    }
}

/// The type tag of a node: the fixed, closed set of node kinds.
#[derive(Clone, Copy, Debug, PartialEq, Eq, Structural)]
pub enum NodeKind {
    Document,
    DocumentFragment,
    DocumentType,
    Element,
    Text,
    Comment,
    ProcessingInstruction,
    Attr,
}

/// One node of the document tree.
///
/// The record is flat: which fields are meaningful depends on `kind`.
/// `name` is the qualified name of an element; a doctype keeps its name
/// and a processing instruction its target in `name.local`. `data` is
/// the character data of text, comment and processing-instruction
/// nodes. `template_contents`, when set, points at the fragment that
/// holds a template element's real content in place of its direct
/// children.
pub struct NodeData {
    pub kind: NodeKind,
    pub name: QualName,
    pub data: String,
    pub attrs: Vec<Attribute>,
    pub template_contents: Option<usize>,
    pub children: Vec<usize>,
}

/// The document tree: nodes addressed by their index, children ordered.
pub struct Dom {
    pub nodes: Vec<NodeData>,
}

impl View for Dom {
    type V = Seq<NodeData>;

    open spec fn view(&self) -> Seq<NodeData> {
        self.nodes@
    }
}

/// One node's links are in bounds and point strictly forward.
pub open spec fn wf_node(nodes: Seq<NodeData>, i: int) -> bool {
    &&& forall|k: int| 0 <= k < nodes[i].children@.len()
            ==> i < #[trigger] nodes[i].children@[k] < nodes.len()
    &&& match nodes[i].template_contents {
            Some(c) => i < c < nodes.len(),
            None => true,
        }
}

/// The whole arena is well-formed: every node's links point strictly
/// forward, so the child relation is well-founded.
pub open spec fn wf(nodes: Seq<NodeData>) -> bool {
    forall|i: int| 0 <= i < nodes.len() ==> #[trigger] wf_node(nodes, i)
}

/// The HTML namespace URL.
pub open spec fn html_ns() -> Seq<char> {
    "http://www.w3.org/1999/xhtml"@
}

/// The fixed set of void element local names: elements whose content
/// model forbids children, per the standard table.
pub open spec fn is_void_local(l: Seq<char>) -> bool {
    ||| l == "area"@
    ||| l == "base"@
    ||| l == "basefont"@
    ||| l == "bgsound"@
    ||| l == "br"@
    ||| l == "col"@
    ||| l == "embed"@
    ||| l == "frame"@
    ||| l == "hr"@
    ||| l == "img"@
    ||| l == "input"@
    ||| l == "keygen"@
    ||| l == "link"@
    ||| l == "meta"@
    ||| l == "param"@
    ||| l == "source"@
    ||| l == "track"@
    ||| l == "wbr"@
}

/// Whether a node is a void element: an HTML-namespace element whose
/// local name is in the fixed void set.
pub open spec fn spec_is_void(nd: NodeData) -> bool {
    &&& nd.kind is Element
    &&& nd.name@.ns == html_ns()
    &&& is_void_local(nd.name@.local)
}

/// Compares a string against a literal.
pub fn str_is(s: &String, t: &str) -> (r: bool)
    ensures
        r == (s@ == t@),
{
    let o: String = t.to_string();
    *s == o
}

/// Whether this node is a void element.
pub fn is_void(nd: &NodeData) -> (r: bool)
    ensures
        r == spec_is_void(*nd),
{
    match nd.kind {
        NodeKind::Element => {
            str_is(&nd.name.ns, "http://www.w3.org/1999/xhtml") && (str_is(
                &nd.name.local,
                "area",
            ) || str_is(&nd.name.local, "base") || str_is(&nd.name.local, "basefont") || str_is(
                &nd.name.local,
                "bgsound",
            ) || str_is(&nd.name.local, "br") || str_is(&nd.name.local, "col") || str_is(
                &nd.name.local,
                "embed",
            ) || str_is(&nd.name.local, "frame") || str_is(&nd.name.local, "hr") || str_is(
                &nd.name.local,
                "img",
            ) || str_is(&nd.name.local, "input") || str_is(&nd.name.local, "keygen") || str_is(
                &nd.name.local,
                "link",
            ) || str_is(&nd.name.local, "meta") || str_is(&nd.name.local, "param") || str_is(
                &nd.name.local,
                "source",
            ) || str_is(&nd.name.local, "track") || str_is(&nd.name.local, "wbr"))
        },
        _ => false,
    }
}

impl Dom {
    /// Well-formedness of the tree held by this arena.
    pub open spec fn wf(&self) -> bool {
        wf(self@)
    }

    /// An empty document tree.
    pub fn new() -> (r: Dom)
        ensures
            r@ =~= Seq::<NodeData>::empty(),
            r.wf(),
    {
        Dom { nodes: Vec::new() }
    }

    /// The number of nodes.
    pub fn len(&self) -> (r: usize)
        ensures
            r == self@.len(),
    {
        self.nodes.len()
    }

    /// Appends a fresh node, without links yet, and returns its index.
    pub fn add_node(&mut self, nd: NodeData) -> (id: usize)
        requires
            old(self).wf(),
            nd.children@.len() == 0,
            nd.template_contents is None,
        ensures
            final(self).wf(),
            id == old(self)@.len(),
            final(self)@ == old(self)@.push(nd),
    {
        let id = self.nodes.len();
        self.nodes.push(nd);
        proof {
            assert forall|i: int| 0 <= i < self@.len() implies #[trigger] wf_node(self@, i) by {
                if i < old(self)@.len() {
                    assert(wf_node(old(self)@, i));
                    assert(self@[i] == old(self)@[i]);
                } else {
                    assert(self@[i] == nd);
                }
            }
        }
        id
    }

    /// Appends `child` to `parent`'s child list. The child must have
    /// been created after the parent, which keeps the tree well-founded.
    pub fn append_child(&mut self, parent: usize, child: usize)
        requires
            old(self).wf(),
            parent < child,
            child < old(self)@.len(),
        ensures
            final(self).wf(),
            final(self)@.len() == old(self)@.len(),
            final(self)@[parent as int].children@ == old(self)@[parent as int].children@.push(child),
            final(self)@[parent as int].kind == old(self)@[parent as int].kind,
            final(self)@[parent as int].name == old(self)@[parent as int].name,
            final(self)@[parent as int].data == old(self)@[parent as int].data,
            final(self)@[parent as int].attrs == old(self)@[parent as int].attrs,
            final(self)@[parent as int].template_contents == old(self)@[parent as int].template_contents,
            forall|j: int| 0 <= j < final(self)@.len() && j != parent ==> final(self)@[j] == old(self)@[j],
    {
        self.nodes[parent].children.push(child);
        proof {
            assert forall|i: int| 0 <= i < self@.len() implies #[trigger] wf_node(self@, i) by {
                assert(wf_node(old(self)@, i));
                if i == parent {
                    assert forall|k: int| 0 <= k < self@[i].children@.len() implies i
                        < #[trigger] self@[i].children@[k] < self@.len() by {
                        if k < old(self)@[i].children@.len() {
                            assert(old(self)@[i].children@[k] == self@[i].children@[k]);
                        } else {
                            assert(self@[i].children@[k] == child);
                        }
                    }
                } else {
                    assert(self@[i] == old(self)@[i]);
                }
            }
        }
    }

    /// Links a template element to the fragment that holds its content.
    /// The fragment must have been created after the element.
    pub fn set_template_contents(&mut self, t: usize, c: usize)
        requires
            old(self).wf(),
            t < c,
            c < old(self)@.len(),
        ensures
            final(self).wf(),
            final(self)@.len() == old(self)@.len(),
            final(self)@[t as int].template_contents == Some(c),
            final(self)@[t as int].kind == old(self)@[t as int].kind,
            final(self)@[t as int].name == old(self)@[t as int].name,
            final(self)@[t as int].data == old(self)@[t as int].data,
            final(self)@[t as int].attrs == old(self)@[t as int].attrs,
            final(self)@[t as int].children == old(self)@[t as int].children,
            forall|j: int| 0 <= j < final(self)@.len() && j != t ==> final(self)@[j] == old(self)@[j],
    {
        self.nodes[t].template_contents = Some(c);
        proof {
            assert forall|i: int| 0 <= i < self@.len() implies #[trigger] wf_node(self@, i) by {
                assert(wf_node(old(self)@, i));
                if i == t {
                    assert(self@[i].children == old(self)@[i].children);
                } else {
                    assert(self@[i] == old(self)@[i]);
                }
            }
        }
    }
}

} // verus!

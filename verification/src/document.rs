//! An XML document held as a vector of nodes: the tree that grex flattens and that
//! ungrex builds.  A node refers to its children by their positions in the vector.
use vstd::prelude::*;
use crate::text::chars_of;

verus! {

/// An element: its name, its attributes in document order, and the positions of its
/// child nodes.
#[derive(Debug)]
pub struct Element {
    pub name: String,
    pub attributes: Vec<(String, String)>,
    pub children: Vec<usize>,
}

/// A node of a document.
#[derive(Debug)]
pub enum XmlNode {
    Element(Element),
    /// A text node, holding its character data (entities already resolved).
    Text(String),
    /// Any other kind of node (comment, CDATA section, processing instruction, ...).
    Other,
}

/// A document: its nodes, and the position of its root element if it has one.
#[derive(Debug)]
pub struct Document {
    pub nodes: Vec<XmlNode>,
    pub root: Option<usize>,
}

/// The mathematical value of an element.
pub struct ElementModel {
    pub name: Seq<char>,
    pub attributes: Seq<(Seq<char>, Seq<char>)>,
    pub children: Seq<usize>,
}

/// The mathematical value of a node.
pub enum NodeModel {
    Element(ElementModel),
    Text(Seq<char>),
    Other,
}

/// The mathematical value of a document.
pub struct DocModel {
    pub nodes: Seq<NodeModel>,
    pub root: Option<usize>,
}

pub open spec fn attr_model(a: (String, String)) -> (Seq<char>, Seq<char>) {
    (a.0@, a.1@)
}

pub open spec fn attrs_model(v: Seq<(String, String)>) -> Seq<(Seq<char>, Seq<char>)> {
    v.map_values(|a: (String, String)| attr_model(a))
}

impl View for Element {
    type V = ElementModel;

    open spec fn view(&self) -> ElementModel {
        ElementModel { name: self.name@, attributes: attrs_model(self.attributes@), children: self.children@ }
    }
}

impl View for XmlNode {
    type V = NodeModel;

    open spec fn view(&self) -> NodeModel {
        match self {
            XmlNode::Element(e) => NodeModel::Element(e@),
            XmlNode::Text(t) => NodeModel::Text(t@),
            XmlNode::Other => NodeModel::Other,
        }
    }
}

impl View for Document {
    type V = DocModel;

    open spec fn view(&self) -> DocModel {
        DocModel { nodes: self.nodes@.map_values(|n: XmlNode| n@), root: self.root }
    }
}

impl DocModel {
    /// Whether position `i` holds an element.
    pub open spec fn is_element(self, i: int) -> bool {
        0 <= i < self.nodes.len() && self.nodes[i] is Element
    }

    /// The element at position `i` (meaningful when `is_element(i)`).
    pub open spec fn element(self, i: int) -> ElementModel {
        self.nodes[i]->Element_0
    }

    /// Children come after their parent, and the root is an element.
    pub open spec fn wf(self) -> bool {
        &&& (self.root matches Some(r) ==> self.is_element(r as int))
        &&& forall|i: int, k: int|
            #![trigger self.element(i).children[k]]
            self.is_element(i) && 0 <= k < self.element(i).children.len() ==> i
                < self.element(i).children[k] < self.nodes.len()
    }
}

/// The position of the first attribute named `name` at or after position `j`.
pub open spec fn attr_position_from(attrs: Seq<(Seq<char>, Seq<char>)>, name: Seq<char>, j: int) -> Option<int>
    decreases attrs.len() - j,
{
    if j < 0 || j >= attrs.len() {
        None
    } else if attrs[j].0 == name {
        Some(j)
    } else {
        attr_position_from(attrs, name, j + 1)
    }
}

/// The attributes after `name` is set to `value`: an attribute of that name keeps its
/// place and takes the new value; otherwise the attribute is added at the end.
pub open spec fn set_attr(attrs: Seq<(Seq<char>, Seq<char>)>, name: Seq<char>, value: Seq<char>) -> Seq<
    (Seq<char>, Seq<char>),
> {
    match attr_position_from(attrs, name, 0) {
        Some(j) => attrs.update(j, (name, value)),
        None => attrs.push((name, value)),
    }
}

impl ElementModel {
    pub open spec fn with_children(self, children: Seq<usize>) -> ElementModel {
        ElementModel { children, ..self }
    }

    pub open spec fn with_attributes(self, attributes: Seq<(Seq<char>, Seq<char>)>) -> ElementModel {
        ElementModel { attributes, ..self }
    }
}

impl DocModel {
    /// The document with `node` added at the end and made the last child of `parent`.
    pub open spec fn add_child(self, parent: int, node: NodeModel) -> DocModel {
        let e = self.element(parent);
        DocModel {
            nodes: self.nodes.update(
                parent,
                NodeModel::Element(e.with_children(e.children.push(self.nodes.len() as usize))),
            ).push(node),
            root: self.root,
        }
    }

    /// The children among `ch` that are not text nodes, in order.
    pub open spec fn non_text(self, ch: Seq<usize>) -> Seq<usize>
        decreases ch.len(),
    {
        if ch.len() == 0 {
            seq![]
        } else {
            self.non_text(ch.drop_last()) + if self.nodes[ch.last() as int] is Text {
                seq![]
            } else {
                seq![ch.last()]
            }
        }
    }

    /// The document with the text of element `i` set to `value`: its text children are
    /// dropped, its other children kept in order, and one new text node holding `value`
    /// becomes its last child.
    pub open spec fn set_text(self, i: int, value: Seq<char>) -> DocModel {
        let e = self.element(i);
        DocModel {
            nodes: self.nodes.update(
                i,
                NodeModel::Element(e.with_children(self.non_text(e.children).push(self.nodes.len() as usize))),
            ).push(NodeModel::Text(value)),
            root: self.root,
        }
    }

    /// The document with a new element named `name` added and made its root.
    pub open spec fn with_root(self, name: Seq<char>) -> DocModel {
        DocModel { nodes: self.nodes.push(bare_element(name)), root: Some(self.nodes.len() as usize) }
    }

    /// The document with attribute `name` of element `i` set to `value`.
    pub open spec fn set_attribute(self, i: int, name: Seq<char>, value: Seq<char>) -> DocModel {
        let e = self.element(i);
        DocModel {
            nodes: self.nodes.update(i, NodeModel::Element(e.with_attributes(set_attr(e.attributes, name, value)))),
            root: self.root,
        }
    }
}

/// Positions of elements stay elements, with the same names, as a document grows.
pub open spec fn grows_from(d2: DocModel, d: DocModel) -> bool {
    &&& d.nodes.len() <= d2.nodes.len()
    &&& forall|i: int| d.is_element(i) ==> #[trigger] d2.is_element(i)
    &&& forall|i: int| d.is_element(i) ==> #[trigger] d2.element(i).name == d.element(i).name
    &&& (d.root is Some ==> d2.root == d.root)
}

pub proof fn lemma_grows_trans(d3: DocModel, d2: DocModel, d1: DocModel)
    requires
        grows_from(d3, d2),
        grows_from(d2, d1),
    ensures
        grows_from(d3, d1),
{
}

pub proof fn lemma_add_child_grows(d: DocModel, parent: int, node: NodeModel)
    requires
        d.is_element(parent),
    ensures
        grows_from(d.add_child(parent, node), d),
{
    let d2 = d.add_child(parent, node);
    assert forall|i: int| d.is_element(i) implies #[trigger] d2.is_element(i) && d2.element(i).name
        == d.element(i).name by {
        assert(d2.nodes[i] == if i == parent { d2.nodes[parent] } else { d.nodes[i] });
    }
}

pub proof fn lemma_set_text_grows(d: DocModel, i: int, value: Seq<char>)
    requires
        d.is_element(i),
    ensures
        grows_from(d.set_text(i, value), d),
{
    let d2 = d.set_text(i, value);
    assert forall|j: int| d.is_element(j) implies #[trigger] d2.is_element(j) && d2.element(j).name
        == d.element(j).name by {
        assert(d2.nodes[j] == if j == i { d2.nodes[i] } else { d.nodes[j] });
    }
}

pub proof fn lemma_set_attribute_grows(d: DocModel, i: int, name: Seq<char>, value: Seq<char>)
    requires
        d.is_element(i),
    ensures
        grows_from(d.set_attribute(i, name, value), d),
{
    let d2 = d.set_attribute(i, name, value);
    assert forall|j: int| d.is_element(j) implies #[trigger] d2.is_element(j) && d2.element(j).name
        == d.element(j).name by {
        assert(d2.nodes[j] == if j == i { d2.nodes[i] } else { d.nodes[j] });
    }
}

pub proof fn lemma_add_child_wf(d: DocModel, parent: int, node: NodeModel)
    requires
        d.wf(),
        d.is_element(parent),
        d.nodes.len() < usize::MAX,
        node matches NodeModel::Element(e) ==> e.children.len() == 0,
    ensures
        d.add_child(parent, node).wf(),
{
    let d2 = d.add_child(parent, node);
    assert forall|i: int, k: int|
        #![trigger d2.element(i).children[k]]
        d2.is_element(i) && 0 <= k < d2.element(i).children.len() implies i < d2.element(i).children[k]
            < d2.nodes.len() by {
        if i != parent && i < d.nodes.len() {
            assert(d2.nodes[i] == d.nodes[i]);
            assert(d2.element(i) == d.element(i));
            assert(d.element(i).children[k] == d2.element(i).children[k]);
        } else if i == parent && k < d.element(i).children.len() {
            assert(d2.element(i).children[k] == d.element(i).children[k]);
        } else if i == d.nodes.len() {
            assert(d2.nodes[i] == node);
        }
    }
}

/// What is kept of the children is among them.
pub proof fn lemma_non_text_among(d: DocModel, ch: Seq<usize>)
    ensures
        forall|k: int|
            0 <= k < d.non_text(ch).len() ==> exists|j: int| 0 <= j < ch.len() && ch[j] == #[trigger] d.non_text(ch)[k],
    decreases ch.len(),
{
    if ch.len() > 0 {
        lemma_non_text_among(d, ch.drop_last());
        let a = d.non_text(ch.drop_last());
        let m = d.non_text(ch);
        assert forall|k: int| 0 <= k < m.len() implies exists|j: int| 0 <= j < ch.len() && ch[j] == #[trigger] m[k] by {
            if k < a.len() {
                assert(m[k] == a[k]);
                let j = choose|j: int| 0 <= j < ch.drop_last().len() && ch.drop_last()[j] == a[k];
                assert(ch[j] == ch.drop_last()[j]);
            } else {
                assert(m[k] == ch[ch.len() - 1]);
            }
        }
    }
}

pub proof fn lemma_set_text_wf(d: DocModel, i: int, value: Seq<char>)
    requires
        d.wf(),
        d.is_element(i),
        d.nodes.len() <= usize::MAX,
    ensures
        d.set_text(i, value).wf(),
{
    let d2 = d.set_text(i, value);
    let kept = d.non_text(d.element(i).children);
    lemma_non_text_among(d, d.element(i).children);
    assert forall|j: int, k: int|
        #![trigger d2.element(j).children[k]]
        d2.is_element(j) && 0 <= k < d2.element(j).children.len() implies j < d2.element(j).children[k]
            < d2.nodes.len() by {
        if j != i && j < d.nodes.len() {
            assert(d2.nodes[j] == d.nodes[j]);
            assert(d2.element(j) == d.element(j));
            assert(d.element(j).children[k] == d2.element(j).children[k]);
        } else if j == i {
            if k < kept.len() {
                let jj = choose|jj: int| 0 <= jj < d.element(i).children.len() && d.element(i).children[jj] == kept[k];
                assert(d2.element(j).children[k] == kept[k]);
            } else {
                assert(d2.element(j).children[k] == d.nodes.len());
            }
        } else {
            assert(d2.nodes[j] == NodeModel::Text(value));
        }
    }
}

pub proof fn lemma_set_attribute_wf(d: DocModel, i: int, name: Seq<char>, value: Seq<char>)
    requires
        d.wf(),
        d.is_element(i),
    ensures
        d.set_attribute(i, name, value).wf(),
{
    let d2 = d.set_attribute(i, name, value);
    assert forall|j: int, k: int|
        #![trigger d2.element(j).children[k]]
        d2.is_element(j) && 0 <= k < d2.element(j).children.len() implies j < d2.element(j).children[k]
            < d2.nodes.len() by {
        assert(d2.element(j).children == d.element(j).children);
    }
}

/// A new element with the given name and nothing else.
pub open spec fn bare_element(name: Seq<char>) -> NodeModel {
    NodeModel::Element(ElementModel { name, attributes: seq![], children: seq![] })
}

impl Document {
    pub open spec fn wf(&self) -> bool {
        self@.wf()
    }

    /// An empty document: no nodes, no root.
    pub fn new() -> (d: Document)
        ensures
            d@.nodes.len() == 0,
            d@.root is None,
            d.wf(),
    {
        Document { nodes: Vec::new(), root: None }
    }

    /// Creates an element named `name` with no attributes and no children, and makes it
    /// the root element.  Returns its position.
    pub fn create_root(&mut self, name: &str) -> (r: usize)
        requires
            old(self).wf(),
        ensures
            final(self).wf(),
            r == old(self)@.nodes.len(),
            final(self)@.nodes == old(self)@.nodes.push(
                NodeModel::Element(ElementModel { name: name@, attributes: seq![], children: seq![] }),
            ),
            final(self)@.root == Some(r),
    {
        let r = self.nodes.len();
        let e = Element { name: name.to_owned(), attributes: Vec::new(), children: Vec::new() };
        assert(attrs_model(e.attributes@) =~= seq![]);
        assert(e.children@ =~= seq![]);
        self.nodes.push(XmlNode::Element(e));
        self.root = Some(r);
        assert(self@.nodes =~= old(self)@.nodes.push(
            NodeModel::Element(ElementModel { name: name@, attributes: seq![], children: seq![] }),
        ));
        assert(self@.wf()) by {
            assert forall|i: int, k: int|
                #![trigger self@.element(i).children[k]]
                self@.is_element(i) && 0 <= k < self@.element(i).children.len() implies i
                    < self@.element(i).children[k] < self@.nodes.len() by {
                assert(old(self)@.element(i) == self@.element(i));
            }
        }
        r
    }

    /// Adds `node` at the end of the document and as the last child of element `parent`.
    fn add_child(&mut self, parent: usize, node: XmlNode) -> (c: usize)
        requires
            old(self).wf(),
            old(self)@.is_element(parent as int),
            node@ matches NodeModel::Element(e) ==> e.children.len() == 0,
        ensures
            final(self).wf(),
            c == old(self)@.nodes.len(),
            final(self)@ == old(self)@.add_child(parent as int, node@),
    {
        let c = self.nodes.len();
        match &mut self.nodes[parent] {
            XmlNode::Element(e) => {
                e.children.push(c);
            },
            _ => {},
        }
        self.nodes.push(node);
        assert(self@.nodes =~= old(self)@.add_child(parent as int, node@).nodes);
        assert(self@.wf()) by {
            assert forall|i: int, k: int|
                #![trigger self@.element(i).children[k]]
                self@.is_element(i) && 0 <= k < self@.element(i).children.len() implies i
                    < self@.element(i).children[k] < self@.nodes.len() by {
                if i != parent && i < c {
                    assert(old(self)@.element(i) == self@.element(i));
                } else if i == parent && k < old(self)@.element(i).children.len() {
                    assert(old(self)@.element(i).children[k] == self@.element(i).children[k]);
                }
            }
        }
        c
    }

    /// Adds a new element named `name`, with no attributes and no children, as the last
    /// child of element `parent`.  Returns its position.
    pub fn append_element(&mut self, parent: usize, name: &str) -> (c: usize)
        requires
            old(self).wf(),
            old(self)@.is_element(parent as int),
        ensures
            final(self).wf(),
            c == old(self)@.nodes.len(),
            final(self)@ == old(self)@.add_child(parent as int, bare_element(name@)),
    {
        let e = Element { name: name.to_owned(), attributes: Vec::new(), children: Vec::new() };
        assert(attrs_model(e.attributes@) =~= seq![]);
        assert(e.children@ =~= seq![]);
        self.add_child(parent, XmlNode::Element(e))
    }

    /// Adds a text node holding `text` as the last child of element `parent`.
    pub fn append_text(&mut self, parent: usize, text: &str) -> (c: usize)
        requires
            old(self).wf(),
            old(self)@.is_element(parent as int),
        ensures
            final(self).wf(),
            c == old(self)@.nodes.len(),
            final(self)@ == old(self)@.add_child(parent as int, NodeModel::Text(text@)),
    {
        self.add_child(parent, XmlNode::Text(text.to_owned()))
    }

    /// Adds a node of another kind (comment, CDATA, ...) as the last child of element
    /// `parent`.
    pub fn append_other(&mut self, parent: usize) -> (c: usize)
        requires
            old(self).wf(),
            old(self)@.is_element(parent as int),
        ensures
            final(self).wf(),
            c == old(self)@.nodes.len(),
            final(self)@ == old(self)@.add_child(parent as int, NodeModel::Other),
    {
        self.add_child(parent, XmlNode::Other)
    }

    /// Sets the text of element `i` to `value`: its text children are dropped, its other
    /// children kept, and a new text node holding `value` is added as its last child.
    pub fn set_text(&mut self, i: usize, value: &str)
        requires
            old(self).wf(),
            old(self)@.is_element(i as int),
        ensures
            final(self).wf(),
            final(self)@ == old(self)@.set_text(i as int, value@),
    {
        let ghost d = self@;
        let t = self.nodes.len();
        let mut children: Vec<usize> = Vec::new();
        match &self.nodes[i] {
            XmlNode::Element(e) => {
                let ghost ch = e.children@;
                assert(ch == d.element(i as int).children);
                let mut k: usize = 0;
                assert(ch.take(0) =~= seq![]);
                while k < e.children.len()
                    invariant
                        d == self@,
                        d.wf(),
                        d.is_element(i as int),
                        ch == e.children@,
                        ch == d.element(i as int).children,
                        k <= ch.len(),
                        children@ == d.non_text(ch.take(k as int)),
                    decreases ch.len() - k,
                {
                    let c = e.children[k];
                    assert(ch[k as int] == d.element(i as int).children[k as int]);
                    assert(c < self.nodes.len());
                    assert(ch.take(k + 1).drop_last() =~= ch.take(k as int));
                    match &self.nodes[c] {
                        XmlNode::Text(_) => {},
                        _ => {
                            children.push(c);
                        },
                    }
                    k = k + 1;
                }
                assert(ch.take(ch.len() as int) =~= ch);
            },
            _ => {},
        }
        children.push(t);
        match &mut self.nodes[i] {
            XmlNode::Element(e) => {
                e.children = children;
            },
            _ => {},
        }
        self.nodes.push(XmlNode::Text(value.to_owned()));
        assert(self@.nodes =~= d.set_text(i as int, value@).nodes);
        proof {
            lemma_set_text_wf(d, i as int, value@);
        }
    }

    /// Sets attribute `name` of element `i` to `value`, in place if the element has an
    /// attribute of that name, else as its last attribute.
    pub fn set_attribute(&mut self, i: usize, name: &str, value: &str)
        requires
            old(self).wf(),
            old(self)@.is_element(i as int),
        ensures
            final(self).wf(),
            final(self)@ == old(self)@.set_attribute(i as int, name@, value@),
    {
        match &mut self.nodes[i] {
            XmlNode::Element(e) => {
                set_attr_in(&mut e.attributes, name, value);
            },
            _ => {},
        }
        assert(self@.nodes =~= old(self)@.set_attribute(i as int, name@, value@).nodes);
        assert(self@.wf()) by {
            assert forall|j: int, k: int|
                #![trigger self@.element(j).children[k]]
                self@.is_element(j) && 0 <= k < self@.element(j).children.len() implies j
                    < self@.element(j).children[k] < self@.nodes.len() by {
                assert(old(self)@.element(j).children == self@.element(j).children);
            }
        }
    }
}

/// Whether two strings hold the same characters.
pub(crate) fn str_eq(a: &str, b: &str) -> (res: bool)
    ensures
        res == (a@ == b@),
{
    let x = chars_of(a);
    let y = chars_of(b);
    if x.len() != y.len() {
        return false;
    }
    let mut i: usize = 0;
    while i < x.len()
        invariant
            x@ == a@,
            y@ == b@,
            x.len() == y.len(),
            i <= x.len(),
            forall|k: int| 0 <= k < i ==> x@[k] == y@[k],
        decreases x.len() - i,
    {
        if x[i] != y[i] {
            assert(a@[i as int] != b@[i as int]);
            return false;
        }
        i = i + 1;
    }
    assert(a@ =~= b@);
    true
}

/// Sets attribute `name` to `value` in an attribute list.
fn set_attr_in(attrs: &mut Vec<(String, String)>, name: &str, value: &str)
    ensures
        attrs_model(final(attrs)@) == set_attr(attrs_model(old(attrs)@), name@, value@),
{
    let ghost m = attrs_model(attrs@);
    let mut j: usize = 0;
    while j < attrs.len()
        invariant
            j <= attrs.len(),
            attrs@ == old(attrs)@,
            m == attrs_model(attrs@),
            attr_position_from(m, name@, 0) == attr_position_from(m, name@, j as int),
        decreases attrs.len() - j,
    {
        if str_eq(attrs[j].0.as_str(), name) {
            attrs.set(j, (name.to_owned(), value.to_owned()));
            assert(attrs_model(attrs@) =~= m.update(j as int, (name@, value@)));
            return;
        }
        j = j + 1;
    }
    attrs.push((name.to_owned(), value.to_owned()));
    assert(attrs_model(attrs@) =~= m.push((name@, value@)));
}

} // verus!

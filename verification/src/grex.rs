//! Flattening a document into grex lines: one line per attribute, one per text-only
//! element, each prefixed by the element's path.
use vstd::prelude::*;
use crate::document::{DocModel, Document, ElementModel, NodeModel, XmlNode, str_eq};
use crate::line::{grex_line, strings_model};
use crate::text::{chars_of, decimal, escape_value, is_blank, is_blank_str, push_char, push_decimal};
use vstd::string::*;

verus! {

/// Whether name `a` sorts strictly before name `b` (character by character, by code
/// point, a proper prefix first).
pub open spec fn name_lt(a: Seq<char>, b: Seq<char>) -> bool
    decreases a.len(),
{
    if b.len() == 0 {
        false
    } else if a.len() == 0 {
        true
    } else if a[0] != b[0] {
        a[0] < b[0]
    } else {
        name_lt(a.skip(1), b.skip(1))
    }
}

/// The attribute order is the lexicographic order of strings by code point: `a` sorts
/// before `b` exactly when, at the first position where they differ, `a` has the
/// smaller character, or `a` is a proper prefix of `b` (so the empty name comes first).
pub proof fn lemma_name_lt_lexicographic(a: Seq<char>, b: Seq<char>)
    ensures
        name_lt(a, b) <==> exists|i: int|
            0 <= i <= a.len() && i < b.len() && #[trigger] a.take(i) == b.take(i) && (i == a.len() || a[i] < b[i]),
    decreases a.len(),
{
    if b.len() == 0 {
    } else if a.len() == 0 {
        assert(a.take(0) =~= b.take(0));
    } else if a[0] != b[0] {
        if a[0] < b[0] {
            assert(a.take(0) =~= b.take(0));
        }
        assert forall|i: int|
            0 <= i <= a.len() && i < b.len() && #[trigger] a.take(i) == b.take(i) && (i == a.len() || a[i] < b[i])
                implies a[0] < b[0] by {
            if i > 0 {
                assert(a.take(i)[0] == b.take(i)[0]);
            }
        }
    } else {
        let a1 = a.skip(1);
        let b1 = b.skip(1);
        lemma_name_lt_lexicographic(a1, b1);
        if name_lt(a1, b1) {
            let i = choose|i: int|
                0 <= i <= a1.len() && i < b1.len() && #[trigger] a1.take(i) == b1.take(i) && (i == a1.len() || a1[i]
                    < b1[i]);
            assert(a.take(i + 1) =~= seq![a[0]] + a1.take(i));
            assert(b.take(i + 1) =~= seq![b[0]] + b1.take(i));
            assert(a.take(i + 1) == b.take(i + 1));
            if i < a1.len() {
                assert(a[i + 1] == a1[i] && b[i + 1] == b1[i]);
            }
        }
        assert forall|i: int|
            0 <= i <= a.len() && i < b.len() && #[trigger] a.take(i) == b.take(i) && (i == a.len() || a[i] < b[i])
                implies name_lt(a1, b1) by {
            assert(i >= 1);
            let j = i - 1;
            assert(a1.take(j) =~= a.take(i).skip(1));
            assert(b1.take(j) =~= b.take(i).skip(1));
            if i < a.len() {
                assert(a[i] == a1[j] && b[i] == b1[j]);
            }
            assert(0 <= j <= a1.len() && j < b1.len() && a1.take(j) == b1.take(j) && (j == a1.len() || a1[j] < b1[j]));
        }
    }
}

/// A name sorts before each of its proper extensions, and never before itself.
pub proof fn lemma_name_lt_prefix(a: Seq<char>, b: Seq<char>)
    requires
        b.len() > 0,
    ensures
        name_lt(a, a + b),
        !name_lt(a + b, a),
        !name_lt(a, a),
{
    lemma_name_lt_lexicographic(a, a + b);
    assert((a + b).take(a.len() as int) =~= a.take(a.len() as int));
    lemma_name_lt_lexicographic(a + b, a);
    lemma_name_lt_irreflexive(a);
    assert forall|i: int|
        0 <= i <= (a + b).len() && i < a.len() && #[trigger] (a + b).take(i) == a.take(i) && (i == (a + b).len()
            || (a + b)[i] < a[i]) implies false by {
        assert((a + b)[i] == a[i]);
    }
}

/// `s` with `a` inserted before the first attribute whose name sorts after `a`'s.
pub open spec fn insert_sorted(s: Seq<(Seq<char>, Seq<char>)>, a: (Seq<char>, Seq<char>)) -> Seq<
    (Seq<char>, Seq<char>),
>
    decreases s.len(),
{
    if s.len() == 0 {
        seq![a]
    } else if name_lt(a.0, s[0].0) {
        seq![a] + s
    } else {
        seq![s[0]] + insert_sorted(s.skip(1), a)
    }
}

/// The attributes ordered by name; attributes of equal name keep their order.
pub open spec fn sort_attrs(s: Seq<(Seq<char>, Seq<char>)>) -> Seq<(Seq<char>, Seq<char>)>
    decreases s.len(),
{
    if s.len() == 0 {
        seq![]
    } else {
        insert_sorted(sort_attrs(s.drop_last()), s.last())
    }
}

/// The path of an element: its parent's path (none for the root), `/`, its name, and
/// `[i]` when it is the `i`-th of several siblings of that name.
pub open spec fn node_path(parent: Option<Seq<char>>, name: Seq<char>, index: Option<usize>) -> Seq<char> {
    let prefix = match parent {
        Some(p) => p,
        None => seq![],
    };
    let suffix = match index {
        Some(i) => seq!['['] + decimal(i as nat) + seq![']'],
        None => seq![],
    };
    prefix + seq!['/'] + name + suffix
}

/// The number of element children among `children[0..upto]` named `name`.
pub open spec fn count_named(d: DocModel, children: Seq<usize>, name: Seq<char>, upto: int) -> nat
    decreases upto,
{
    if upto <= 0 {
        0
    } else {
        let c = children[upto - 1] as int;
        count_named(d, children, name, upto - 1) + if d.is_element(c) && d.element(c).name == name {
            1nat
        } else {
            0nat
        }
    }
}

/// The index shown for child `k`: its position among the element children of its name,
/// counted from 1, when there are several of them.
pub open spec fn sibling_index_of(d: DocModel, children: Seq<usize>, k: int) -> Option<usize> {
    let name = d.element(children[k] as int).name;
    if count_named(d, children, name, children.len() as int) > 1 {
        Some((count_named(d, children, name, k) + 1) as usize)
    } else {
        None
    }
}

/// The character data of the text nodes among `children`, concatenated.
pub open spec fn text_of(d: DocModel, children: Seq<usize>) -> Seq<char>
    decreases children.len(),
{
    if children.len() == 0 {
        seq![]
    } else {
        let c = children.last() as int;
        text_of(d, children.drop_last()) + match d.nodes[c] {
            NodeModel::Text(t) => t,
            _ => seq![],
        }
    }
}

/// Whether some child is an element.
pub open spec fn has_element_child(d: DocModel, children: Seq<usize>) -> bool {
    exists|k: int| 0 <= k < children.len() && d.is_element(#[trigger] children[k] as int)
}

/// One line per attribute, in the order given.
pub open spec fn attribute_lines(path: Seq<char>, attrs: Seq<(Seq<char>, Seq<char>)>) -> Seq<Seq<char>> {
    attrs.map_values(|a: (Seq<char>, Seq<char>)| grex_line(path + seq!['/', '@'] + a.0, a.1))
}

/// The text line of an element: present when the element has no element children and
/// its text is not blank.
pub open spec fn text_lines(d: DocModel, e: ElementModel, path: Seq<char>) -> Seq<Seq<char>> {
    if !has_element_child(d, e.children) && !is_blank(text_of(d, e.children)) {
        seq![grex_line(path + seq!['/', 't', 'e', 'x', 't', '(', ')'], text_of(d, e.children))]
    } else {
        seq![]
    }
}

/// The lines of element `i`, whose path is `path`: its attributes sorted by name, its
/// text, then the lines of its element children in order.
pub open spec fn element_lines(d: DocModel, i: int, path: Seq<char>) -> Seq<Seq<char>>
    decreases d.nodes.len() - i, d.element(i).children.len() + 1,
{
    if !d.is_element(i) {
        seq![]
    } else {
        let e = d.element(i);
        attribute_lines(path, sort_attrs(e.attributes)) + text_lines(d, e, path) + children_lines(
            d,
            i,
            path,
            0,
        )
    }
}

/// The lines of the element children of element `i` from child `k` on.
pub open spec fn children_lines(d: DocModel, i: int, path: Seq<char>, k: int) -> Seq<Seq<char>>
    decreases d.nodes.len() - i, d.element(i).children.len() - k,
{
    let e = d.element(i);
    if !d.is_element(i) || k < 0 || k >= e.children.len() {
        seq![]
    } else {
        let c = e.children[k] as int;
        let here = if d.is_element(c) && i < c {
            element_lines(
                d,
                c,
                node_path(Some(path), d.element(c).name, sibling_index_of(d, e.children, k)),
            )
        } else {
            seq![]
        };
        here + children_lines(d, i, path, k + 1)
    }
}

/// The grex lines of a document: those of its root element, if it has one.
pub open spec fn document_lines(d: DocModel) -> Seq<Seq<char>> {
    match d.root {
        Some(r) => element_lines(d, r as int, node_path(None, d.element(r as int).name, None)),
        None => seq![],
    }
}

pub proof fn lemma_name_lt_irreflexive(a: Seq<char>)
    ensures
        !name_lt(a, a),
    decreases a.len(),
{
    if a.len() > 0 {
        lemma_name_lt_irreflexive(a.skip(1));
    }
}

pub proof fn lemma_name_lt_asymmetric(a: Seq<char>, b: Seq<char>)
    requires
        name_lt(a, b),
    ensures
        !name_lt(b, a),
{
    lemma_name_lt_irreflexive(a);
    if name_lt(b, a) {
        lemma_name_lt_trans(a, b, a);
    }
}

proof fn lemma_name_lt_trans(a: Seq<char>, b: Seq<char>, c: Seq<char>)
    requires
        name_lt(a, b),
        name_lt(b, c),
    ensures
        name_lt(a, c),
    decreases a.len(),
{
    if a.len() > 0 && b.len() > 0 && c.len() > 0 && a[0] == b[0] && b[0] == c[0] {
        lemma_name_lt_trans(a.skip(1), b.skip(1), c.skip(1));
    }
}

proof fn lemma_name_lt_total(a: Seq<char>, b: Seq<char>)
    ensures
        name_lt(a, b) || name_lt(b, a) || a == b,
    decreases a.len(),
{
    if a.len() > 0 && b.len() > 0 && a[0] == b[0] {
        lemma_name_lt_total(a.skip(1), b.skip(1));
        if a.skip(1) == b.skip(1) {
            assert(a =~= seq![a[0]] + a.skip(1));
            assert(b =~= seq![b[0]] + b.skip(1));
        }
    } else if a.len() == 0 && b.len() == 0 {
        assert(a =~= b);
    }
}

/// Whether the attributes are in order of their names.
pub open spec fn sorted_by_name(s: Seq<(Seq<char>, Seq<char>)>) -> bool {
    forall|i: int, j: int| 0 <= i < j < s.len() ==> !name_lt(#[trigger] s[j].0, #[trigger] s[i].0)
}

proof fn lemma_insert_sorted(s: Seq<(Seq<char>, Seq<char>)>, a: (Seq<char>, Seq<char>))
    requires
        sorted_by_name(s),
    ensures
        sorted_by_name(insert_sorted(s, a)),
        insert_sorted(s, a).to_multiset() == s.to_multiset().insert(a),
    decreases s.len(),
{
    broadcast use vstd::seq_lib::group_to_multiset_ensures;

    if s.len() == 0 {
        assert(insert_sorted(s, a) =~= s.insert(0, a));
    } else if name_lt(a.0, s[0].0) {
        let r = insert_sorted(s, a);
        assert(r =~= s.insert(0, a));
        assert forall|i: int, j: int| 0 <= i < j < r.len() implies !name_lt(#[trigger] r[j].0, #[trigger] r[i].0) by {
            if i == 0 {
                if name_lt(r[j].0, a.0) {
                    if j - 1 > 0 {
                        lemma_name_lt_total(s[j - 1].0, s[0].0);
                        if name_lt(s[j - 1].0, s[0].0) {
                        } else if s[j - 1].0 == s[0].0 {
                            lemma_name_lt_trans(a.0, s[0].0, a.0);
                            lemma_name_lt_irreflexive(a.0);
                        } else {
                            lemma_name_lt_trans(s[0].0, s[j - 1].0, a.0);
                            lemma_name_lt_trans(a.0, s[0].0, a.0);
                            lemma_name_lt_irreflexive(a.0);
                        }
                    } else {
                        lemma_name_lt_trans(a.0, s[0].0, a.0);
                        lemma_name_lt_irreflexive(a.0);
                    }
                }
            } else {
                assert(r[i] == s[i - 1] && r[j] == s[j - 1]);
            }
        }
    } else {
        let t = s.skip(1);
        assert(sorted_by_name(t)) by {
            assert forall|i: int, j: int| 0 <= i < j < t.len() implies !name_lt(#[trigger] t[j].0, #[trigger] t[i].0) by {
                assert(t[i] == s[i + 1] && t[j] == s[j + 1]);
            }
        }
        lemma_insert_sorted(t, a);
        let u = insert_sorted(t, a);
        let r = insert_sorted(s, a);
        assert(r == seq![s[0]] + u);
        assert(r.to_multiset() == s.to_multiset().insert(a)) by {
            assert(s =~= seq![s[0]] + t);
            vstd::seq_lib::lemma_multiset_commutative(seq![s[0]], t);
            vstd::seq_lib::lemma_multiset_commutative(seq![s[0]], u);
            assert(t.to_multiset() =~= t.to_multiset());
            assert(r.to_multiset() =~= seq![s[0]].to_multiset().add(u.to_multiset()));
            assert(s.to_multiset() =~= seq![s[0]].to_multiset().add(t.to_multiset()));
            assert(r.to_multiset() =~= s.to_multiset().insert(a));
        }
        assert forall|i: int, j: int| 0 <= i < j < r.len() implies !name_lt(#[trigger] r[j].0, #[trigger] r[i].0) by {
            if i == 0 {
                assert(u.to_multiset().count(r[j]) > 0) by {
                    assert(r[j] == u[j - 1]);
                }
                assert(s.to_multiset().insert(a).count(r[j]) > 0);
                if r[j] == a {
                    lemma_name_lt_total(a.0, s[0].0);
                } else {
                    assert(s.to_multiset().count(r[j]) > 0);
                    let k = choose|k: int| 0 <= k < s.len() && s[k] == r[j];
                    if k > 0 {
                        assert(!name_lt(s[k].0, s[0].0));
                    } else {
                        lemma_name_lt_irreflexive(s[0].0);
                    }
                }
            } else {
                assert(r[i] == u[i - 1] && r[j] == u[j - 1]);
            }
        }
    }
}

/// The lines of an element start with one line per attribute, in ascending order of
/// names and each attribute as often as the element has it, then its text line if it
/// shows one, then the lines of its element children in order.
pub proof fn lemma_element_lines_start(d: DocModel, i: int, path: Seq<char>)
    requires
        d.is_element(i),
    ensures
        element_lines(d, i, path) == attribute_lines(path, sort_attrs(d.element(i).attributes)) + text_lines(
            d,
            d.element(i),
            path,
        ) + children_lines(d, i, path, 0),
        sorted_by_name(sort_attrs(d.element(i).attributes)),
        sort_attrs(d.element(i).attributes).to_multiset() == d.element(i).attributes.to_multiset(),
{
    lemma_sort_attrs(d.element(i).attributes);
}

/// Sorting attributes by name gives them in order of their names, and gives each
/// attribute as often as it was given.
pub proof fn lemma_sort_attrs(s: Seq<(Seq<char>, Seq<char>)>)
    ensures
        sorted_by_name(sort_attrs(s)),
        sort_attrs(s).to_multiset() == s.to_multiset(),
    decreases s.len(),
{
    broadcast use vstd::seq_lib::group_to_multiset_ensures;

    if s.len() > 0 {
        lemma_sort_attrs(s.drop_last());
        lemma_insert_sorted(sort_attrs(s.drop_last()), s.last());
        assert(s =~= s.drop_last().push(s.last()));
    } else {
        assert(sort_attrs(s) =~= s);
    }
}

/// Whether name `a` sorts strictly before name `b`.
fn name_less(a: &str, b: &str) -> (res: bool)
    ensures
        res == name_lt(a@, b@),
        res <==> exists|i: int|
            0 <= i <= a@.len() && i < b@.len() && #[trigger] a@.take(i) == b@.take(i) && (i == a@.len() || a@[i]
                < b@[i]),
{
    proof {
        lemma_name_lt_lexicographic(a@, b@);
    }
    let x = chars_of(a);
    let y = chars_of(b);
    let mut i: usize = 0;
    assert(a@.skip(0) =~= a@);
    assert(b@.skip(0) =~= b@);
    while i < x.len() && i < y.len() && x[i] == y[i]
        invariant
            i <= x.len(),
            i <= y.len(),
            x@ == a@,
            y@ == b@,
            name_lt(a@, b@) == name_lt(a@.skip(i as int), b@.skip(i as int)),
        decreases x.len() - i,
    {
        assert(a@.skip(i as int).skip(1) =~= a@.skip(i + 1));
        assert(b@.skip(i as int).skip(1) =~= b@.skip(i + 1));
        i = i + 1;
    }
    if i == y.len() {
        false
    } else if i == x.len() {
        true
    } else {
        x[i] < y[i]
    }
}

/// The attributes `attrs` taken in the positions listed by `order`.
pub open spec fn attrs_in_order(attrs: Seq<(Seq<char>, Seq<char>)>, order: Seq<usize>) -> Seq<
    (Seq<char>, Seq<char>),
> {
    order.map_values(|j: usize| attrs[j as int])
}

proof fn lemma_insert_sorted_at(s: Seq<(Seq<char>, Seq<char>)>, a: (Seq<char>, Seq<char>), p: int)
    requires
        0 <= p <= s.len(),
        forall|k: int| 0 <= k < p ==> !name_lt(a.0, #[trigger] s[k].0),
        p < s.len() ==> name_lt(a.0, s[p].0),
    ensures
        insert_sorted(s, a) == s.take(p) + seq![a] + s.skip(p),
    decreases p,
{
    if p == 0 {
        assert(s.take(0) + seq![a] + s.skip(0) =~= seq![a] + s);
    } else {
        lemma_insert_sorted_at(s.skip(1), a, p - 1);
        assert(s.take(p) + seq![a] + s.skip(p) =~= seq![s[0]] + (s.skip(1).take(p - 1) + seq![a]
            + s.skip(1).skip(p - 1)));
    }
}

/// The positions of the attributes of `attrs`, ordered by name, keeping the order of
/// equal names.
fn sorted_attribute_order(attrs: &Vec<(String, String)>) -> (order: Vec<usize>)
    ensures
        attrs_in_order(crate::document::attrs_model(attrs@), order@) == sort_attrs(
            crate::document::attrs_model(attrs@),
        ),
        forall|k: int| 0 <= k < order.len() ==> #[trigger] order[k] < attrs.len(),
{
    let ghost m = crate::document::attrs_model(attrs@);
    let mut order: Vec<usize> = Vec::new();
    let mut j: usize = 0;
    assert(attrs_in_order(m, order@) =~= sort_attrs(m.take(0)));
    while j < attrs.len()
        invariant
            j <= attrs.len(),
            m == crate::document::attrs_model(attrs@),
            m.len() == attrs.len(),
            order.len() == j,
            forall|k: int| 0 <= k < order.len() ==> #[trigger] order[k] < j,
            attrs_in_order(m, order@) == sort_attrs(m.take(j as int)),
        decreases attrs.len() - j,
    {
        let ghost s = attrs_in_order(m, order@);
        let mut p: usize = 0;
        while p < order.len() && !name_less(attrs[j].0.as_str(), attrs[order[p]].0.as_str())
            invariant
                p <= order.len(),
                j < attrs.len(),
                m == crate::document::attrs_model(attrs@),
                m.len() == attrs.len(),
                s == attrs_in_order(m, order@),
                forall|k: int| 0 <= k < order.len() ==> #[trigger] order[k] < j,
                forall|k: int| 0 <= k < p ==> !name_lt(m[j as int].0, #[trigger] s[k].0),
            decreases order.len() - p,
        {
            p = p + 1;
        }
        proof {
            lemma_insert_sorted_at(s, m[j as int], p as int);
            assert(m.take(j + 1).drop_last() =~= m.take(j as int));
        }
        order.insert(p, j);
        assert(attrs_in_order(m, order@) =~= s.take(p as int) + seq![m[j as int]] + s.skip(p as int));
        j = j + 1;
    }
    assert(m.take(attrs.len() as int) =~= m);
    order
}

/// The character data of the text children of element `node`, concatenated.
pub fn get_text_content(doc: &Document, node: usize) -> (text: String)
    requires
        doc.wf(),
        doc@.is_element(node as int),
    ensures
        text@ == text_of(doc@, doc@.element(node as int).children),
{
    let mut text = String::new();
    match &doc.nodes[node] {
        XmlNode::Element(e) => {
            let ghost ch = e.children@;
            assert(ch == doc@.element(node as int).children);
            let mut k: usize = 0;
            assert(ch.take(0) =~= seq![]);
            while k < e.children.len()
                invariant
                    doc.wf(),
                    doc@.is_element(node as int),
                    ch == e.children@,
                    ch == doc@.element(node as int).children,
                    k <= ch.len(),
                    text@ == text_of(doc@, ch.take(k as int)),
                decreases ch.len() - k,
            {
                let c = e.children[k];
                assert(ch[k as int] == doc@.element(node as int).children[k as int]);
                assert(c < doc.nodes.len());
                match &doc.nodes[c] {
                    XmlNode::Text(t) => {
                        text.append(t.as_str());
                    },
                    _ => {},
                }
                assert(ch.take(k + 1).drop_last() =~= ch.take(k as int));
                k = k + 1;
            }
            assert(ch.take(ch.len() as int) =~= ch);
        },
        _ => {},
    }
    text
}

/// The number of element children among `children[0..upto]` named `name`.
fn count_named_children(doc: &Document, children: &Vec<usize>, name: &str, upto: usize) -> (n: usize)
    requires
        upto <= children.len(),
        forall|k: int| 0 <= k < children.len() ==> #[trigger] children[k] < doc.nodes.len(),
    ensures
        n == count_named(doc@, children@, name@, upto as int),
        n <= upto,
{
    let mut n: usize = 0;
    let mut k: usize = 0;
    while k < upto
        invariant
            k <= upto <= children.len(),
            forall|k: int| 0 <= k < children.len() ==> #[trigger] children[k] < doc.nodes.len(),
            n == count_named(doc@, children@, name@, k as int),
            n <= k,
        decreases upto - k,
    {
        let c = children[k];
        match &doc.nodes[c] {
            XmlNode::Element(e) => {
                if str_eq(e.name.as_str(), name) {
                    n = n + 1;
                }
            },
            _ => {},
        }
        k = k + 1;
    }
    n
}

/// An element shows a text line exactly when no child of it, at any position, is an
/// element and its text is not blank; with an element child anywhere, its lines are
/// its attribute lines followed by its children's.
pub proof fn lemma_text_line_only_without_element_children(d: DocModel, i: int, path: Seq<char>)
    requires
        d.is_element(i),
    ensures
        (exists|k: int| 0 <= k < d.element(i).children.len() && d.is_element(#[trigger] d.element(i).children[k] as int))
            ==> text_lines(d, d.element(i), path) == Seq::<Seq<char>>::empty() && element_lines(d, i, path)
            == attribute_lines(path, sort_attrs(d.element(i).attributes)) + children_lines(d, i, path, 0),
        (forall|k: int| 0 <= k < d.element(i).children.len() ==> !d.is_element(#[trigger] d.element(i).children[k] as int))
            && !is_blank(text_of(d, d.element(i).children)) ==> text_lines(d, d.element(i), path) == seq![
            grex_line(path + seq!['/', 't', 'e', 'x', 't', '(', ')'], text_of(d, d.element(i).children)),
        ],
{
    let e = d.element(i);
    if exists|k: int| 0 <= k < e.children.len() && d.is_element(#[trigger] e.children[k] as int) {
        assert(has_element_child(d, e.children));
        assert(attribute_lines(path, sort_attrs(e.attributes)) + Seq::<Seq<char>>::empty() =~= attribute_lines(
            path,
            sort_attrs(e.attributes),
        ));
    }
}

/// Whether some child is an element.
fn has_element_children(doc: &Document, children: &Vec<usize>) -> (b: bool)
    requires
        forall|k: int| 0 <= k < children.len() ==> #[trigger] children[k] < doc.nodes.len(),
    ensures
        b == has_element_child(doc@, children@),
        b == exists|k: int| 0 <= k < children.len() && doc@.is_element(#[trigger] children[k] as int),
{
    let mut k: usize = 0;
    while k < children.len()
        invariant
            k <= children.len(),
            forall|k: int| 0 <= k < children.len() ==> #[trigger] children[k] < doc.nodes.len(),
            forall|j: int| 0 <= j < k ==> !doc@.is_element(#[trigger] children@[j] as int),
        decreases children.len() - k,
    {
        match &doc.nodes[children[k]] {
            XmlNode::Element(_) => {
                assert(doc@.is_element(children@[k as int] as int));
                return true;
            },
            _ => {},
        }
        k = k + 1;
    }
    false
}

/// The line `xpath = escaped value`.
fn make_line(xpath: String, value: &str) -> (line: String)
    ensures
        line@ == grex_line(xpath@, value@),
{
    let mut line = xpath;
    let esc = escape_value(value);
    proof {
        reveal_strlit(" = ");
    }
    line.append(" = ");
    line.append(esc.as_str());
    line
}

/// Writes the lines of element `node` to `out`: its attributes sorted by name, its
/// text if it has no element children, then its element children, each child named
/// with its index among same-named siblings when it has any.
pub fn traverse_node(
    doc: &Document,
    node: usize,
    parent_path: Option<&str>,
    sibling_index: Option<usize>,
    out: &mut Vec<String>,
)
    requires
        doc.wf(),
        doc@.is_element(node as int),
    ensures
        strings_model(final(out)@) == strings_model(old(out)@) + element_lines(
            doc@,
            node as int,
            node_path(
                match parent_path {
                    Some(p) => Some(p@),
                    None => None,
                },
                doc@.element(node as int).name,
                sibling_index,
            ),
        ),
    decreases doc.nodes.len() - node,
{
    let ghost d = doc@;
    let e = match &doc.nodes[node] {
        XmlNode::Element(e) => e,
        _ => {
            assert(false);
            return;
        },
    };
    assert(e@ == d.element(node as int));
    let mut path = String::new();
    match parent_path {
        Some(p) => path.append(p),
        None => {},
    }
    push_char(&mut path, '/');
    path.append(e.name.as_str());
    match sibling_index {
        Some(i) => {
            push_char(&mut path, '[');
            push_decimal(&mut path, i);
            push_char(&mut path, ']');
        },
        None => {},
    }
    let ghost p = path@;
    assert(p =~= node_path(
        match parent_path {
            Some(p) => Some(p@),
            None => None,
        },
        d.element(node as int).name,
        sibling_index,
    ));
    let ghost target = strings_model(old(out)@) + element_lines(d, node as int, p);
    let ghost am = crate::document::attrs_model(e.attributes@);
    let order = sorted_attribute_order(&e.attributes);
    let ghost sorted = sort_attrs(am);
    let ghost lines = attribute_lines(p, sorted);
    let mut k: usize = 0;
    while k < order.len()
        invariant
            k <= order.len(),
            path@ == p,
            am == crate::document::attrs_model(e.attributes@),
            attrs_in_order(am, order@) == sorted,
            forall|j: int| 0 <= j < order.len() ==> #[trigger] order[j] < e.attributes.len(),
            lines == attribute_lines(p, sorted),
            strings_model(out@) == strings_model(old(out)@) + lines.take(k as int),
        decreases order.len() - k,
    {
        let a = &e.attributes[order[k]];
        let mut xpath = path.clone();
        proof {
            reveal_strlit("/@");
        }
        xpath.append("/@");
        xpath.append(a.0.as_str());
        let line = make_line(xpath, a.1.as_str());
        assert(sorted[k as int] == am[order[k as int] as int]);
        assert(line@ == lines[k as int]);
        let ghost before = strings_model(out@);
        out.push(line);
        assert(strings_model(out@) =~= before.push(line@));
        assert(lines.take(k + 1) =~= lines.take(k as int).push(lines[k as int]));
        k = k + 1;
    }
    assert(lines.take(k as int) =~= lines);
    let ghost tl = text_lines(d, e@, p);
    let ghost mid = strings_model(out@);
    assert(e@.children == e.children@);
    let has_children = has_element_children(doc, &e.children);
    if !has_children {
        let text = get_text_content(doc, node);
        if !is_blank_str(text.as_str()) {
            let mut xpath = path.clone();
            proof {
                reveal_strlit("/text()");
            }
            xpath.append("/text()");
            assert(xpath@ =~= p + seq!['/', 't', 'e', 'x', 't', '(', ')']);
            let line = make_line(xpath, text.as_str());
            assert(tl == seq![line@]);
            out.push(line);
            assert(strings_model(out@) =~= mid + tl);
        } else {
            assert(tl =~= seq![]);
            assert(strings_model(out@) =~= mid + tl);
        }
    } else {
        assert(tl =~= seq![]);
        assert(strings_model(out@) =~= mid + tl);
    }
    assert(strings_model(out@) =~= strings_model(old(out)@) + lines + text_lines(d, e@, p));
    let mut k: usize = 0;
    while k < e.children.len()
        invariant
            doc.wf(),
            d == doc@,
            d.is_element(node as int),
            e@ == d.element(node as int),
            path@ == p,
            k <= e.children.len(),
            target == strings_model(old(out)@) + element_lines(d, node as int, p),
            target == strings_model(out@) + children_lines(d, node as int, p, k as int),
        decreases e.children.len() - k,
    {
        let c = e.children[k];
        assert(node < c < doc.nodes.len()) by {
            assert(d.element(node as int).children[k as int] == c);
        }
        let ghost here_lines = strings_model(out@);
        match &doc.nodes[c] {
            XmlNode::Element(child) => {
                assert(d.is_element(c as int));
                assert(forall|j: int| 0 <= j < e.children.len() ==> #[trigger] e.children[j] < doc.nodes.len()) by {
                    assert forall|j: int| 0 <= j < e.children.len() implies #[trigger] e.children[j]
                        < doc.nodes.len() by {
                        assert(d.element(node as int).children[j] == e.children[j]);
                    }
                }
                let total = count_named_children(doc, &e.children, child.name.as_str(), e.children.len());
                let index = if total > 1 {
                    let before = count_named_children(doc, &e.children, child.name.as_str(), k);
                    Some(before + 1)
                } else {
                    None
                };
                assert(index == sibling_index_of(d, e.children@, k as int));
                traverse_node(doc, c, Some(path.as_str()), index, out);
            },
            _ => {},
        }
        assert(children_lines(d, node as int, p, k as int) == (if d.is_element(c as int) && node < c {
            element_lines(
                d,
                c as int,
                node_path(Some(p), d.element(c as int).name, sibling_index_of(d, e.children@, k as int)),
            )
        } else {
            seq![]
        }) + children_lines(d, node as int, p, k + 1));
        assert(target =~= strings_model(out@) + children_lines(d, node as int, p, k + 1));
        k = k + 1;
    }
}

/// The grex lines of a document.
pub fn grex_document(doc: &Document) -> (lines: Vec<String>)
    requires
        doc.wf(),
    ensures
        strings_model(lines@) == document_lines(doc@),
{
    let mut lines: Vec<String> = Vec::new();
    match doc.root {
        Some(r) => {
            traverse_node(doc, r, None, None, &mut lines);
            assert(strings_model(lines@) =~= document_lines(doc@));
        },
        None => {
            assert(strings_model(lines@) =~= seq![]);
        },
    }
    lines
}

} // verus!

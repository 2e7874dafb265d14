//! What survives a flatten-and-rebuild: the abstract tree of a document, and the
//! proof that rebuilding a document from its grex lines gives back those lines.
use vstd::prelude::*;
use crate::document::{
    DocModel, ElementModel, NodeModel, attr_position_from, bare_element, grows_from, lemma_add_child_grows,
    lemma_add_child_wf, lemma_grows_trans, lemma_set_text_grows, lemma_set_text_wf,
};
use crate::grex::{
    insert_sorted, lemma_name_lt_asymmetric, lemma_name_lt_irreflexive, name_lt,
    attribute_lines, children_lines, count_named, document_lines, element_lines, has_element_child, node_path,
    sibling_index_of, sort_attrs, text_lines, text_of,
};
use crate::line::{
    grex_line, grex_line_parts, is_plain_line, joined, lemma_grex_line_roundtrip, lemma_lines_of_joined, lines_of,
};
use crate::text::{
    decimal, first_index, first_index_from, is_blank, is_digit, lemma_decimal_digits,
    lemma_first_index_from_bounds, lemma_parse_decimal,
};
use crate::ungrex::{
    UngrexErrorModel, add_children, cache_ok, lemma_add_children, child_step, lemma_cache_ok_grows, lemma_path_key_grows, lookup_spec, matching_children, walk,
    OutcomeModel, apply_spec, empty_doc, ungrex_spec, attr_marker_at, ends_with_text, last_attr_marker, path_key, run_lines,
    step_suffix,
};
use crate::xpath::{
    PathPartModel, XPathErrorModel, prepend_step, split_at_char, step_is_sliceable, step_spec, steps_spec,
    xpath_spec,
};

verus! {

/// The part of an element that its grex lines show: its name, its attributes sorted by
/// name, its text when it is shown, and its element children.
pub struct ATree {
    pub name: Seq<char>,
    pub attrs: Seq<(Seq<char>, Seq<char>)>,
    pub text: Option<Seq<char>>,
    pub children: Seq<ATree>,
}

/// The text an element shows: present when it has no element children and its text
/// is not blank.
pub open spec fn text_part(d: DocModel, e: ElementModel) -> Option<Seq<char>> {
    if !has_element_child(d, e.children) && !is_blank(text_of(d, e.children)) {
        Some(text_of(d, e.children))
    } else {
        None
    }
}

/// The abstract tree of element `i`.
pub open spec fn abstract_tree(d: DocModel, i: int) -> ATree
    decreases d.nodes.len() - i, d.element(i).children.len() + 1,
{
    let e = d.element(i);
    ATree {
        name: e.name,
        attrs: sort_attrs(e.attributes),
        text: text_part(d, e),
        children: if d.is_element(i) { abstract_children(d, i, e.children.len() as int) } else { seq![] },
    }
}

/// The abstract trees of the element children among the first `k` children of `i`.
pub open spec fn abstract_children(d: DocModel, i: int, k: int) -> Seq<ATree>
    decreases d.nodes.len() - i, k,
{
    if !d.is_element(i) || k <= 0 || k > d.element(i).children.len() {
        seq![]
    } else {
        let c = d.element(i).children[k - 1] as int;
        abstract_children(d, i, k - 1) + if d.is_element(c) && i < c {
            seq![abstract_tree(d, c)]
        } else {
            seq![]
        }
    }
}

/// The number of trees among `ts[0..upto]` named `name`.
pub open spec fn count_trees(ts: Seq<ATree>, name: Seq<char>, upto: int) -> nat
    decreases upto,
{
    if upto <= 0 {
        0
    } else {
        count_trees(ts, name, upto - 1) + if ts[upto - 1].name == name {
            1nat
        } else {
            0nat
        }
    }
}

/// The index shown for tree `k` among its siblings `ts`.
pub open spec fn tree_index(ts: Seq<ATree>, k: int) -> Option<usize> {
    let name = ts[k].name;
    if count_trees(ts, name, ts.len() as int) > 1 {
        Some((count_trees(ts, name, k) + 1) as usize)
    } else {
        None
    }
}

/// The text line of a tree, if it shows text.
pub open spec fn text_line_of(path: Seq<char>, text: Option<Seq<char>>) -> Seq<Seq<char>> {
    match text {
        Some(v) => seq![grex_line(path + seq!['/', 't', 'e', 'x', 't', '(', ')'], v)],
        None => seq![],
    }
}

/// The grex lines of a tree whose path is `path`.
pub open spec fn tree_lines(t: ATree, path: Seq<char>) -> Seq<Seq<char>>
    decreases t, 1nat,
{
    attribute_lines(path, t.attrs) + text_line_of(path, t.text) + subtree_lines(t, path, 0)
}

/// The lines of the children of `t` from child `k` on.
pub open spec fn subtree_lines(t: ATree, path: Seq<char>, k: int) -> Seq<Seq<char>>
    decreases t, 0nat, t.children.len() - k,
{
    if k < 0 || k >= t.children.len() {
        seq![]
    } else {
        proof {
            assert(decreases_to!(t => t.children));
        }
        tree_lines(t.children[k], node_path(Some(path), t.children[k].name, tree_index(t.children, k)))
            + subtree_lines(t, path, k + 1)
    }
}

proof fn lemma_abstract_children_len(d: DocModel, i: int, k: int)
    requires
        d.is_element(i),
        0 <= k <= d.element(i).children.len(),
    ensures
        abstract_children(d, i, k).len() <= k,
    decreases k,
{
    if k > 0 {
        lemma_abstract_children_len(d, i, k - 1);
    }
}

/// The abstract children up to `k` are a prefix of those up to `k2`.
proof fn lemma_abstract_children_prefix(d: DocModel, i: int, k: int, k2: int)
    requires
        d.is_element(i),
        0 <= k <= k2 <= d.element(i).children.len(),
    ensures
        abstract_children(d, i, k).len() <= abstract_children(d, i, k2).len(),
        abstract_children(d, i, k2).take(abstract_children(d, i, k).len() as int) == abstract_children(d, i, k),
    decreases k2 - k,
{
    if k < k2 {
        lemma_abstract_children_prefix(d, i, k, k2 - 1);
        let a = abstract_children(d, i, k);
        let b = abstract_children(d, i, k2 - 1);
        let c = abstract_children(d, i, k2);
        assert(c.take(a.len() as int) =~= b.take(a.len() as int));
    } else {
        assert(abstract_children(d, i, k).take(abstract_children(d, i, k).len() as int) =~= abstract_children(d, i, k));
    }
}

proof fn lemma_count_trees_prefix(ts: Seq<ATree>, us: Seq<ATree>, name: Seq<char>, m: int)
    requires
        0 <= m <= ts.len(),
        m <= us.len(),
        ts.take(m) == us.take(m),
    ensures
        count_trees(ts, name, m) == count_trees(us, name, m),
    decreases m,
{
    if m > 0 {
        assert(ts.take(m - 1) =~= ts.take(m).take(m - 1));
        assert(us.take(m - 1) =~= us.take(m).take(m - 1));
        assert(ts[m - 1] == ts.take(m)[m - 1]);
        assert(us[m - 1] == us.take(m)[m - 1]);
        lemma_count_trees_prefix(ts, us, name, m - 1);
    }
}

/// Counting children by name over the document and over the abstract children agree.
proof fn lemma_count_named_abstract(d: DocModel, i: int, name: Seq<char>, k: int)
    requires
        d.wf(),
        d.is_element(i),
        0 <= k <= d.element(i).children.len(),
    ensures
        count_named(d, d.element(i).children, name, k) == count_trees(
            abstract_children(d, i, k),
            name,
            abstract_children(d, i, k).len() as int,
        ),
    decreases k,
{
    if k > 0 {
        lemma_count_named_abstract(d, i, name, k - 1);
        let a = abstract_children(d, i, k - 1);
        let b = abstract_children(d, i, k);
        let c = d.element(i).children[k - 1] as int;
        assert(i < c < d.nodes.len());
        assert(b.take(a.len() as int) =~= a);
        assert(a.take(a.len() as int) =~= a);
        lemma_count_trees_prefix(b, a, name, a.len() as int);
        if d.is_element(c) {
            assert(b == a + seq![abstract_tree(d, c)]);
            assert(b[a.len() as int].name == d.element(c).name);
        } else {
            assert(b =~= a);
        }
    }
}

/// The grex lines of an element are the lines of its abstract tree.
pub proof fn lemma_element_lines_abstract(d: DocModel, i: int, path: Seq<char>)
    requires
        d.wf(),
        d.is_element(i),
    ensures
        element_lines(d, i, path) == tree_lines(abstract_tree(d, i), path),
    decreases d.nodes.len() - i, d.element(i).children.len() + 1,
{
    let e = d.element(i);
    let len = e.children.len() as int;
    lemma_children_lines_abstract(d, i, path, 0);
    lemma_abstract_children_len(d, i, 0);
    assert(text_lines(d, e, path) == text_line_of(path, text_part(d, e)));
}

proof fn lemma_children_lines_abstract(d: DocModel, i: int, path: Seq<char>, k: int)
    requires
        d.wf(),
        d.is_element(i),
        0 <= k <= d.element(i).children.len(),
    ensures
        children_lines(d, i, path, k) == subtree_lines(
            abstract_tree(d, i),
            path,
            abstract_children(d, i, k).len() as int,
        ),
    decreases d.nodes.len() - i, d.element(i).children.len() - k,
{
    let e = d.element(i);
    let len = e.children.len() as int;
    let all = abstract_children(d, i, len);
    let t = abstract_tree(d, i);
    assert(t.children == all);
    lemma_abstract_children_prefix(d, i, k, len);
    let m = abstract_children(d, i, k).len() as int;
    if k == len {
        assert(subtree_lines(t, path, m) == Seq::<Seq<char>>::empty());
    } else {
        lemma_children_lines_abstract(d, i, path, k + 1);
        lemma_abstract_children_prefix(d, i, k + 1, len);
        let c = e.children[k] as int;
        assert(i < c < d.nodes.len());
        let a = abstract_children(d, i, k);
        let b = abstract_children(d, i, k + 1);
        if d.is_element(c) {
            assert(b == a + seq![abstract_tree(d, c)]);
            assert(all[m] == abstract_tree(d, c)) by {
                assert(all.take(b.len() as int)[m] == b[m]);
            }
            lemma_element_lines_abstract(d, c, node_path(Some(path), e.name, None));
            let name = d.element(c).name;
            lemma_count_named_abstract(d, i, name, len);
            lemma_count_named_abstract(d, i, name, k);
            assert(all.take(m) =~= all.take(b.len() as int).take(m));
            assert(b.take(m) =~= a);
            assert(a.take(m) =~= a);
            lemma_count_trees_prefix(all, a, name, m);
            assert(a.take(m) =~= a);
            assert(sibling_index_of(d, e.children, k) == tree_index(all, m));
            lemma_element_lines_abstract(
                d,
                c,
                node_path(Some(path), name, sibling_index_of(d, e.children, k)),
            );
        } else {
            assert(b =~= a);
        }
    }
}

/// A name that can stand in a grex path: without `/`, `[` or space.
pub open spec fn safe_name(n: Seq<char>) -> bool {
    forall|i: int| 0 <= i < n.len() ==> #[trigger] n[i] != '/' && n[i] != '[' && n[i] != ' '
}

/// Whether a name can stand as a step of a path: it holds no `/` and no `[`.
pub open spec fn step_name_ok(n: Seq<char>) -> bool {
    forall|i: int| 0 <= i < n.len() ==> #[trigger] n[i] != '/' && n[i] != '['
}

/// Steps that grex writes: safe names, a root with a name and no index, indices from 1.
pub open spec fn steps_ok(parts: Seq<PathPartModel>) -> bool {
    &&& parts.len() >= 1
    &&& parts[0].index is None
    &&& parts[0].name.len() > 0
    &&& forall|j: int| 0 <= j < parts.len() ==> #[trigger] safe_name(parts[j].name) && (parts[j].index matches Some(
        i,
    ) ==> i >= 1)
}

/// The text of step `j`: its name and, if indexed, `[index]`.
pub open spec fn step_text(p: PathPartModel) -> Seq<char> {
    p.name + step_suffix(p.index)
}

proof fn lemma_first_index_from_concat(x: Seq<char>, y: Seq<char>, c: char, j: int)
    requires
        0 <= j <= x.len(),
    ensures
        first_index_from(x + y, c, j) == match first_index_from(x, c, j) {
            Some(i) => Some(i),
            None => match first_index_from(y, c, 0) {
                Some(i) => Some(i + x.len()),
                None => None::<int>,
            },
        },
    decreases x.len() + y.len() - j,
{
    if j < x.len() {
        lemma_first_index_from_concat(x, y, c, j + 1);
    } else {
        lemma_first_index_shift(x, y, c, 0);
    }
}

proof fn lemma_first_index_shift(x: Seq<char>, y: Seq<char>, c: char, j: int)
    requires
        0 <= j <= y.len(),
    ensures
        first_index_from(x + y, c, x.len() + j) == match first_index_from(y, c, j) {
            Some(i) => Some(i + x.len()),
            None => None::<int>,
        },
    decreases y.len() - j,
{
    if j < y.len() {
        assert((x + y)[x.len() + j] == y[j]);
        lemma_first_index_shift(x, y, c, j + 1);
    }
}

proof fn lemma_no_char(x: Seq<char>, c: char, j: int)
    requires
        0 <= j,
        forall|i: int| 0 <= i < x.len() ==> x[i] != c,
    ensures
        first_index_from(x, c, j) is None,
    decreases x.len() - j,
{
    if j < x.len() {
        lemma_no_char(x, c, j + 1);
    }
}

/// Splitting at `c` a text that ends in `c` and a piece without `c`.
proof fn lemma_split_append(x: Seq<char>, y: Seq<char>, c: char)
    requires
        forall|i: int| 0 <= i < y.len() ==> y[i] != c,
    ensures
        split_at_char(x + seq![c] + y, c) == split_at_char(x, c) + seq![y],
    decreases x.len(),
{
    let z = x + seq![c] + y;
    lemma_first_index_from_concat(x, seq![c] + y, c, 0);
    assert(z =~= x + (seq![c] + y));
    lemma_first_index_from_bounds(x, c, 0);
    lemma_no_char(y, c, 0);
    match first_index(x, c) {
        Some(i) => {
            assert(z.take(i) =~= x.take(i));
            assert(z.skip(i + 1) =~= x.skip(i + 1) + seq![c] + y);
            lemma_split_append(x.skip(i + 1), y, c);
            assert(split_at_char(x, c) == seq![x.take(i)] + split_at_char(x.skip(i + 1), c));
            assert(split_at_char(z, c) =~= split_at_char(x, c) + seq![y]);
        },
        None => {
            assert(first_index_from(seq![c] + y, c, 0) == Some(0int));
            assert(z.take(x.len() as int) =~= x);
            assert(z.skip(x.len() + 1int) =~= y);
            assert(split_at_char(y, c) == seq![y]);
            assert(split_at_char(x, c) == seq![x]);
            assert(split_at_char(z, c) =~= split_at_char(x, c) + seq![y]);
        },
    }
}

proof fn lemma_step_spec(p: PathPartModel)
    requires
        step_name_ok(p.name),
    ensures
        step_is_sliceable(step_text(p)),
        step_spec(step_text(p)) == Ok::<PathPartModel, XPathErrorModel>(p),
        forall|i: int| 0 <= i < step_text(p).len() ==> step_text(p)[i] != '/',
{
    let t = step_text(p);
    lemma_no_char(p.name, '[', 0);
    match p.index {
        None => {
            assert(t =~= p.name);
        },
        Some(i) => {
            let dec = decimal(i as nat);
            lemma_decimal_digits(i as nat);
            lemma_parse_decimal(i);
            assert(t =~= p.name + (seq!['['] + dec + seq![']']));
            lemma_first_index_from_concat(p.name, seq!['['] + dec + seq![']'], '[', 0);
            assert(first_index_from(seq!['['] + dec + seq![']'], '[', 0) == Some(0int));
            assert(t.subrange(p.name.len() + 1int, t.len() - 1) =~= dec);
            assert(t.take(p.name.len() as int) =~= p.name);
            assert forall|k: int| 0 <= k < t.len() implies t[k] != '/' by {
                if k >= p.name.len() + 1 && k < t.len() - 1 {
                    assert(t[k] == dec[k - p.name.len() - 1]);
                    assert(is_digit(dec[k - p.name.len() - 1]));
                }
            }
        },
    }
}

proof fn lemma_steps_spec_append(a: Seq<Seq<char>>, y: Seq<char>, ps: Seq<PathPartModel>, q: PathPartModel)
    requires
        steps_spec(a) == Some(Ok::<Seq<PathPartModel>, XPathErrorModel>(ps)),
        step_is_sliceable(y),
        step_spec(y) == Ok::<PathPartModel, XPathErrorModel>(q),
    ensures
        steps_spec(a + seq![y]) == Some(Ok::<Seq<PathPartModel>, XPathErrorModel>(ps.push(q))),
    decreases a.len(),
{
    if a.len() == 0 {
        assert(a + seq![y] =~= seq![y]);
        assert((a + seq![y]).skip(1) =~= Seq::<Seq<char>>::empty());
        assert(steps_spec(Seq::<Seq<char>>::empty()) == Some(Ok::<Seq<PathPartModel>, XPathErrorModel>(seq![])));
        assert(ps =~= seq![]);
        assert(seq![q] + seq![] =~= ps.push(q));
    } else {
        assert(step_is_sliceable(a[0]));
        let p0 = step_spec(a[0])->Ok_0;
        assert(step_spec(a[0]) == Ok::<PathPartModel, XPathErrorModel>(p0));
        let r = steps_spec(a.skip(1));
        assert(prepend_step(p0, r) == Some(Ok::<Seq<PathPartModel>, XPathErrorModel>(ps)));
        let rest = r->0->Ok_0;
        assert(r == Some(Ok::<Seq<PathPartModel>, XPathErrorModel>(rest)));
        assert(ps == seq![p0] + rest);
        lemma_steps_spec_append(a.skip(1), y, rest, q);
        assert((a + seq![y]).skip(1) =~= a.skip(1) + seq![y]);
        assert((a + seq![y])[0] == a[0]);
        assert(seq![p0] + rest.push(q) =~= ps.push(q));
        assert(steps_spec(a + seq![y]) == prepend_step(p0, steps_spec((a + seq![y]).skip(1))));
    }
}

/// The step texts of the path after its leading `/`.
proof fn lemma_path_key_split(parts: Seq<PathPartModel>, m: int)
    requires
        steps_ok(parts),
        0 <= m < parts.len(),
    ensures
        path_key(parts, m).len() >= 2,
        path_key(parts, m)[0] == '/',
        steps_spec(split_at_char(path_key(parts, m).skip(1), '/')) == Some(
            Ok::<Seq<PathPartModel>, XPathErrorModel>(parts.take(m + 1)),
        ),
    decreases m,
{
    assert(safe_name(parts[m].name));
    lemma_step_spec(parts[m]);
    if m == 0 {
        let body = path_key(parts, 0).skip(1);
        assert(body =~= parts[0].name);
        assert(step_text(parts[0]) =~= parts[0].name);
        lemma_no_char(body, '/', 0);
        assert(split_at_char(body, '/') == seq![body]);
        assert(steps_spec(seq![body]) == prepend_step(parts[0], steps_spec(seq![body].skip(1))));
        assert(seq![body].skip(1) =~= Seq::<Seq<char>>::empty());
        assert(parts.take(1) =~= seq![parts[0]]);
        assert(seq![parts[0]] + Seq::<PathPartModel>::empty() =~= seq![parts[0]]);
    } else {
        lemma_path_key_split(parts, m - 1);
        let prev = path_key(parts, m - 1);
        let body = path_key(parts, m).skip(1);
        assert(body =~= prev.skip(1) + seq!['/'] + step_text(parts[m]));
        lemma_split_append(prev.skip(1), step_text(parts[m]), '/');
        lemma_steps_spec_append(
            split_at_char(prev.skip(1), '/'),
            step_text(parts[m]),
            parts.take(m),
            parts[m],
        );
        assert(parts.take(m).push(parts[m]) =~= parts.take(m + 1));
    }
}

/// A path that grex writes reads back as its steps.
pub proof fn lemma_xpath_of_path_key(parts: Seq<PathPartModel>, m: int)
    requires
        steps_ok(parts),
        0 <= m < parts.len(),
    ensures
        xpath_spec(path_key(parts, m)) == Some(Ok::<Seq<PathPartModel>, XPathErrorModel>(parts.take(m + 1))),
{
    lemma_path_key_split(parts, m);
}

/// The path written for `parts`: `/` before each step's text.
pub open spec fn written_path(parts: Seq<PathPartModel>) -> Seq<char>
    decreases parts.len(),
{
    if parts.len() == 0 {
        seq![]
    } else {
        written_path(parts.drop_last()) + seq!['/'] + step_text(parts.last())
    }
}

proof fn lemma_written_split(parts: Seq<PathPartModel>)
    requires
        parts.len() >= 1,
        forall|j: int| 0 <= j < parts.len() ==> step_name_ok(#[trigger] parts[j].name),
    ensures
        written_path(parts).len() >= 1,
        written_path(parts)[0] == '/',
        steps_spec(split_at_char(written_path(parts).skip(1), '/')) == Some(
            Ok::<Seq<PathPartModel>, XPathErrorModel>(parts),
        ),
    decreases parts.len(),
{
    let last = parts.last();
    assert(step_name_ok(parts[parts.len() - 1].name));
    lemma_step_spec(last);
    let init = parts.drop_last();
    if parts.len() == 1 {
        let body = written_path(parts).skip(1);
        assert(written_path(init) =~= Seq::<char>::empty());
        assert(body =~= step_text(last));
        lemma_no_char(body, '/', 0);
        assert(split_at_char(body, '/') == seq![body]);
        assert(steps_spec(seq![body]) == prepend_step(last, steps_spec(seq![body].skip(1))));
        assert(seq![body].skip(1) =~= Seq::<Seq<char>>::empty());
        assert(seq![last] + Seq::<PathPartModel>::empty() =~= parts);
    } else {
        assert forall|j: int| 0 <= j < init.len() implies step_name_ok(#[trigger] init[j].name) by {
            assert(init[j] == parts[j]);
        }
        lemma_written_split(init);
        let prev = written_path(init);
        let body = written_path(parts).skip(1);
        assert(body =~= prev.skip(1) + seq!['/'] + step_text(last));
        lemma_split_append(prev.skip(1), step_text(last), '/');
        lemma_steps_spec_append(split_at_char(prev.skip(1), '/'), step_text(last), init, last);
        assert(init.push(last) =~= parts);
    }
}

/// Any path written as `/` before each step reads back as those steps, when no name
/// holds `/` or `[` and the path is not `/` alone (which reads as no steps).
pub proof fn lemma_xpath_of_written_path(parts: Seq<PathPartModel>)
    requires
        parts.len() >= 1,
        forall|j: int| 0 <= j < parts.len() ==> step_name_ok(#[trigger] parts[j].name),
        !(parts.len() == 1 && parts[0].name.len() == 0 && parts[0].index is None),
    ensures
        xpath_spec(written_path(parts)) == Some(Ok::<Seq<PathPartModel>, XPathErrorModel>(parts)),
{
    lemma_written_split(parts);
    if parts.len() == 1 {
        assert(written_path(parts.drop_last()) =~= Seq::<char>::empty());
        assert(written_path(parts).len() == 1 + step_text(parts[0]).len());
        if parts[0].index is Some {
            assert(step_text(parts[0]).len() >= 1);
        }
    } else {
        lemma_written_len(parts);
    }
}

proof fn lemma_written_len(parts: Seq<PathPartModel>)
    ensures
        written_path(parts).len() >= parts.len(),
    decreases parts.len(),
{
    if parts.len() > 0 {
        lemma_written_len(parts.drop_last());
    }
}

/// Steps read without error correspond one for one to the pieces they were read from.
proof fn lemma_steps_spec_pieces(cs: Seq<Seq<char>>, ps: Seq<PathPartModel>)
    requires
        steps_spec(cs) == Some(Ok::<Seq<PathPartModel>, XPathErrorModel>(ps)),
    ensures
        ps.len() == cs.len(),
        forall|i: int| 0 <= i < cs.len() ==> step_spec(#[trigger] cs[i]) == Ok::<PathPartModel, XPathErrorModel>(ps[i]),
    decreases cs.len(),
{
    if cs.len() > 0 {
        let p0 = step_spec(cs[0])->Ok_0;
        assert(step_spec(cs[0]) == Ok::<PathPartModel, XPathErrorModel>(p0));
        let r = steps_spec(cs.skip(1));
        let rest = r->0->Ok_0;
        assert(r == Some(Ok::<Seq<PathPartModel>, XPathErrorModel>(rest)));
        assert(ps == seq![p0] + rest);
        lemma_steps_spec_pieces(cs.skip(1), rest);
        assert forall|i: int| 0 <= i < cs.len() implies step_spec(#[trigger] cs[i]) == Ok::<PathPartModel, XPathErrorModel>(ps[i]) by {
            if i > 0 {
                assert(cs[i] == cs.skip(1)[i - 1]);
            }
        }
    } else {
        assert(ps =~= Seq::<PathPartModel>::empty());
    }
}

/// The steps of a path read without error are its pieces between slashes, one for
/// one: a step has an index exactly when its piece holds `[`, and its name is the
/// piece up to its first `[`.
pub proof fn lemma_xpath_steps_are_pieces(path: Seq<char>, parts: Seq<PathPartModel>)
    requires
        path.len() >= 2,
        path[0] == '/',
        xpath_spec(path) == Some(Ok::<Seq<PathPartModel>, XPathErrorModel>(parts)),
    ensures
        parts.len() == split_at_char(path.skip(1), '/').len(),
        forall|i: int|
            0 <= i < parts.len() ==> {
                let piece = #[trigger] split_at_char(path.skip(1), '/')[i];
                &&& (parts[i].index is Some) == (first_index(piece, '[') is Some)
                &&& parts[i].name == match first_index(piece, '[') {
                    Some(b) => piece.take(b),
                    None => piece,
                }
            },
{
    let cs = split_at_char(path.skip(1), '/');
    lemma_steps_spec_pieces(cs, parts);
    assert forall|i: int|
        0 <= i < parts.len() implies {
            let piece = #[trigger] split_at_char(path.skip(1), '/')[i];
            &&& (parts[i].index is Some) == (first_index(piece, '[') is Some)
            &&& parts[i].name == match first_index(piece, '[') {
                Some(b) => piece.take(b),
                None => piece,
            }
        } by {
        assert(step_spec(cs[i]) == Ok::<PathPartModel, XPathErrorModel>(parts[i]));
    }
}

/// The document and cache after applying `lines` in order from `d` and `c`; `None` as
/// soon as a line cannot be read or applied.
pub open spec fn process(lines: Seq<Seq<char>>, d: DocModel, c: Map<Seq<char>, usize>) -> Option<
    (DocModel, Map<Seq<char>, usize>),
>
    decreases lines.len(),
{
    if lines.len() == 0 {
        Some((d, c))
    } else if is_blank(lines[0]) {
        process(lines.skip(1), d, c)
    } else {
        match grex_line_parts(lines[0]) {
            None => None,
            Some((x, v)) => match apply_spec(d, c, x, v) {
                Some(Ok((d2, c2))) => process(lines.skip(1), d2, c2),
                _ => None,
            },
        }
    }
}

proof fn lemma_process_concat(a: Seq<Seq<char>>, b: Seq<Seq<char>>, d: DocModel, c: Map<Seq<char>, usize>)
    ensures
        process(a + b, d, c) == match process(a, d, c) {
            Some((d2, c2)) => process(b, d2, c2),
            None => None,
        },
    decreases a.len(),
{
    if a.len() == 0 {
        assert(a + b =~= b);
    } else {
        assert((a + b)[0] == a[0]);
        assert((a + b).skip(1) =~= a.skip(1) + b);
        if is_blank(a[0]) {
            lemma_process_concat(a.skip(1), b, d, c);
        } else {
            match grex_line_parts(a[0]) {
                None => {},
                Some((x, v)) => match apply_spec(d, c, x, v) {
                    Some(Ok((d2, c2))) => {
                        lemma_process_concat(a.skip(1), b, d2, c2);
                    },
                    _ => {},
                },
            }
        }
    }
}

pub proof fn lemma_process_run(lines: Seq<Seq<char>>, k: int, d: DocModel, c: Map<Seq<char>, usize>)
    requires
        0 <= k <= lines.len(),
        process(lines.skip(k), d, c) is Some,
    ensures
        run_lines(lines, k, d, c) == OutcomeModel::Built((process(lines.skip(k), d, c)->0).0),
    decreases lines.len() - k,
{
    if k < lines.len() {
        assert(lines.skip(k)[0] == lines[k]);
        assert(lines.skip(k).skip(1) =~= lines.skip(k + 1));
        if is_blank(lines[k]) {
            lemma_process_run(lines, k + 1, d, c);
        } else {
            let (x, v) = grex_line_parts(lines[k])->0;
            let (d2, c2) = apply_spec(d, c, x, v)->0->Ok_0;
            lemma_process_run(lines, k + 1, d2, c2);
        }
    } else {
        assert(lines.skip(k) =~= Seq::<Seq<char>>::empty());
    }
}

/// Whether an attribute name can stand after `/@` in a grex path.
pub open spec fn attr_name_ok(a: Seq<char>) -> bool {
    forall|i: int| 0 <= i < a.len() ==> #[trigger] a[i] != '/' && a[i] != ' '
}

proof fn lemma_last_marker_skip(x: Seq<char>, j: int, k: int)
    requires
        k <= j,
        forall|p: int| k < p <= j ==> !attr_marker_at(x, p),
    ensures
        last_attr_marker(x, j) == last_attr_marker(x, k),
    decreases j - k,
{
    if k < j {
        lemma_last_marker_skip(x, j - 1, k);
    }
}

/// An attribute line's xpath splits into its element path and its attribute name.
proof fn lemma_attr_xpath(q: Seq<char>, a: Seq<char>)
    requires
        attr_name_ok(a),
    ensures
        !ends_with_text(q + seq!['/', '@'] + a),
        last_attr_marker(q + seq!['/', '@'] + a, (q + seq!['/', '@'] + a).len() - 2) == Some(q.len() as int),
        (q + seq!['/', '@'] + a).take(q.len() as int) == q,
        (q + seq!['/', '@'] + a).skip(q.len() + 2int) == a,
{
    let x = q + seq!['/', '@'] + a;
    let n = q.len() as int;
    assert(x[n] == '/' && x[n + 1] == '@');
    if x.len() >= 7 {
        let w = x.skip(x.len() - 7);
        if w == seq!['/', 't', 'e', 'x', 't', '(', ')'] {
            if a.len() >= 7 {
                assert(w[0] == a[a.len() - 7]);
            } else {
                let at = n + 1 - (x.len() - 7);
                assert(0 <= at < 7);
                assert(w[at] == x[n + 1]);
            }
        }
    }
    assert forall|p: int| n < p <= x.len() - 2 implies !attr_marker_at(x, p) by {
        if p == n + 1 {
        } else {
            assert(x[p] == a[p - n - 2]);
        }
    }
    lemma_last_marker_skip(x, x.len() - 2, n);
    assert(x.take(n) =~= q);
    assert(x.skip(n + 2) =~= a);
}

/// A text line's xpath ends in `/text()`.
proof fn lemma_text_xpath(q: Seq<char>)
    ensures
        ends_with_text(q + seq!['/', 't', 'e', 'x', 't', '(', ')']),
        (q + seq!['/', 't', 'e', 'x', 't', '(', ')']).take(q.len() as int) == q,
{
    let x = q + seq!['/', 't', 'e', 'x', 't', '(', ')'];
    assert(x.skip(x.len() - 7) =~= seq!['/', 't', 'e', 'x', 't', '(', ')']);
    assert(x.take(q.len() as int) =~= q);
}

/// A grex line is never blank: it holds `=`.
proof fn lemma_grex_line_not_blank(x: Seq<char>, v: Seq<char>)
    ensures
        !is_blank(grex_line(x, v)),
{
    let l = grex_line(x, v);
    assert(l[x.len() + 1int] == '=');
}

/// Whether attribute names strictly increase (so no name occurs twice).
pub open spec fn strictly_sorted(s: Seq<(Seq<char>, Seq<char>)>) -> bool {
    forall|i: int, j: int| 0 <= i < j < s.len() ==> name_lt(#[trigger] s[i].0, #[trigger] s[j].0)
}

/// Whether a tree shows at least one grex line.
pub open spec fn shows(t: ATree) -> bool {
    tree_lines(t, seq![]).len() > 0
}

/// How many children named `name` the rebuild of the trees `ts[0..k]` holds: the shown
/// index of the last of them that shows a line and bears that name, or 0 if none does.
pub open spec fn placed(ts: Seq<ATree>, name: Seq<char>, k: int) -> nat
    decreases k,
{
    if k <= 0 {
        0
    } else if shows(ts[k - 1]) && ts[k - 1].name == name {
        count_trees(ts, name, k)
    } else {
        placed(ts, name, k - 1)
    }
}

/// An element with a name and nothing else, as a rebuild adds to fill a gap in indices.
pub open spec fn placeholder(name: Seq<char>) -> ATree {
    ATree { name, attrs: seq![], text: None, children: seq![] }
}

/// `n` placeholders named `name`.
pub open spec fn placeholders(name: Seq<char>, n: nat) -> Seq<ATree> {
    Seq::new(n, |i: int| placeholder(name))
}

/// How many placeholders the rebuild adds before child `k` of `t`: those for the
/// indices of its name that the rebuild does not hold yet.
pub open spec fn gap(t: ATree, k: int) -> nat {
    (count_trees(t.children, t.children[k].name, k) - placed(t.children, t.children[k].name, k)) as nat
}

/// The tree that the lines of `t` rebuild: children that show no line are left out,
/// and before each child that does, as many placeholders of its name are added as
/// its index asks for.
pub open spec fn rebuilt(t: ATree) -> ATree
    decreases t, 1nat,
{
    ATree { name: t.name, attrs: t.attrs, text: t.text, children: rebuilt_children(t, t.children.len() as int) }
}

/// The rebuilt children of `t` that its first `k` children give.
pub open spec fn rebuilt_children(t: ATree, k: int) -> Seq<ATree>
    decreases t, 0nat, k,
{
    if k <= 0 || k > t.children.len() {
        seq![]
    } else {
        proof {
            assert(decreases_to!(t => t.children));
        }
        let x = t.children[k - 1];
        if shows(x) {
            rebuilt_children(t, k - 1) + placeholders(x.name, gap(t, k - 1)) + seq![rebuilt(x)]
        } else {
            rebuilt_children(t, k - 1)
        }
    }
}

/// Whether every name that occurs more than once among `ts`, and is borne by a tree
/// that shows a line, keeps more than one tree in the rebuild (else the rebuilt name
/// would be written without an index).
pub open spec fn indices_kept(ts: Seq<ATree>) -> bool {
    forall|k: int|
        0 <= k < ts.len() && shows(#[trigger] ts[k]) && count_trees(ts, ts[k].name, ts.len() as int) > 1
            ==> placed(ts, ts[k].name, ts.len() as int) > 1
}

/// The lines of the first `k` children of `t`.
pub open spec fn front_lines(t: ATree, p: Seq<char>, k: int) -> Seq<Seq<char>>
    decreases k,
{
    if k <= 0 || k > t.children.len() {
        seq![]
    } else {
        front_lines(t, p, k - 1) + tree_lines(
            t.children[k - 1],
            node_path(Some(p), t.children[k - 1].name, tree_index(t.children, k - 1)),
        )
    }
}

proof fn lemma_front_lines(t: ATree, p: Seq<char>, k: int)
    requires
        0 <= k <= t.children.len(),
    ensures
        subtree_lines(t, p, 0) == front_lines(t, p, k) + subtree_lines(t, p, k),
    decreases k,
{
    if k == 0 {
        assert(front_lines(t, p, 0) + subtree_lines(t, p, 0) =~= subtree_lines(t, p, 0));
    } else {
        lemma_front_lines(t, p, k - 1);
        assert(subtree_lines(t, p, k - 1) == tree_lines(
            t.children[k - 1],
            node_path(Some(p), t.children[k - 1].name, tree_index(t.children, k - 1)),
        ) + subtree_lines(t, p, k));
        assert(front_lines(t, p, k - 1) + subtree_lines(t, p, k - 1) =~= front_lines(t, p, k) + subtree_lines(
            t,
            p,
            k,
        ));
    }
}

proof fn lemma_count_trees_concat(a: Seq<ATree>, b: Seq<ATree>, name: Seq<char>, j: int)
    requires
        0 <= j <= b.len(),
    ensures
        count_trees(a + b, name, a.len() + j) == count_trees(a, name, a.len() as int) + count_trees(b, name, j),
    decreases j,
{
    if j == 0 {
        assert((a + b).take(a.len() as int) =~= a.take(a.len() as int));
        lemma_count_trees_prefix(a + b, a, name, a.len() as int);
    } else {
        lemma_count_trees_concat(a, b, name, j - 1);
        assert((a + b)[a.len() + j - 1] == b[j - 1]);
    }
}

proof fn lemma_count_placeholders(n: Seq<char>, c: nat, name: Seq<char>, j: int)
    requires
        0 <= j <= c,
    ensures
        count_trees(placeholders(n, c), name, j) == if n == name { j } else { 0 },
    decreases j,
{
    if j > 0 {
        lemma_count_placeholders(n, c, name, j - 1);
    }
}

proof fn lemma_placed_le(ts: Seq<ATree>, name: Seq<char>, k: int)
    requires
        0 <= k <= ts.len(),
    ensures
        placed(ts, name, k) <= count_trees(ts, name, k),
    decreases k,
{
    if k > 0 {
        lemma_placed_le(ts, name, k - 1);
        lemma_count_trees_le(ts, name, k - 1, k);
    }
}

/// How the rebuilt children grow with `k`.
proof fn lemma_rebuilt_step(t: ATree, k: int)
    requires
        0 <= k < t.children.len(),
    ensures
        rebuilt_children(t, k + 1) == if shows(t.children[k]) {
            rebuilt_children(t, k) + placeholders(
                t.children[k].name,
                (count_trees(t.children, t.children[k].name, k) - placed(t.children, t.children[k].name, k)) as nat,
            ) + seq![rebuilt(t.children[k])]
        } else {
            rebuilt_children(t, k)
        },
        placed(t.children, t.children[k].name, k) <= count_trees(t.children, t.children[k].name, k),
{
    lemma_placed_le(t.children, t.children[k].name, k);
}

/// The rebuilt children that the first `k` children give are a prefix of all of them.
proof fn lemma_rebuilt_prefix(t: ATree, k: int, k2: int)
    requires
        0 <= k <= k2 <= t.children.len(),
    ensures
        rebuilt_children(t, k).len() <= rebuilt_children(t, k2).len(),
        rebuilt_children(t, k2).take(rebuilt_children(t, k).len() as int) == rebuilt_children(t, k),
    decreases k2 - k,
{
    if k == k2 {
        assert(rebuilt_children(t, k2).take(rebuilt_children(t, k).len() as int) =~= rebuilt_children(t, k));
    } else {
        lemma_rebuilt_prefix(t, k, k2 - 1);
        lemma_rebuilt_step(t, k2 - 1);
        let a = rebuilt_children(t, k);
        let b = rebuilt_children(t, k2 - 1);
        let c = rebuilt_children(t, k2);
        assert(c.take(b.len() as int) =~= b);
        assert(c.take(a.len() as int) =~= b.take(a.len() as int));
    }
}

/// The rebuilt children hold, of each name, as many trees as `placed` says.
proof fn lemma_rebuilt_count(t: ATree, name: Seq<char>, k: int)
    requires
        0 <= k <= t.children.len(),
    ensures
        count_trees(rebuilt_children(t, k), name, rebuilt_children(t, k).len() as int) == placed(
            t.children,
            name,
            k,
        ),
    decreases k,
{
    if k > 0 {
        lemma_rebuilt_count(t, name, k - 1);
        lemma_rebuilt_step(t, k - 1);
        let x = t.children[k - 1];
        if shows(x) {
            let a = rebuilt_children(t, k - 1);
            let cnt = (count_trees(t.children, x.name, k - 1) - placed(t.children, x.name, k - 1)) as nat;
            let ph = placeholders(x.name, cnt);
            lemma_count_trees_concat(a, ph, name, cnt as int);
            lemma_count_placeholders(x.name, cnt, name, cnt as int);
            lemma_count_trees_concat(a + ph, seq![rebuilt(x)], name, 1);
            assert(count_trees(seq![rebuilt(x)], name, 0) == 0);
            assert(seq![rebuilt(x)][0].name == x.name);
            assert(count_trees(seq![rebuilt(x)], name, 1) == if x.name == name { 1nat } else { 0nat });
            if x.name != name {
                assert(placed(t.children, name, k) == placed(t.children, name, k - 1));
            }
        }
    }
}

/// The lines of a tree of placeholders' kind: none.
proof fn lemma_placeholder_lines(name: Seq<char>, p: Seq<char>)
    ensures
        tree_lines(placeholder(name), p) == Seq::<Seq<char>>::empty(),
{
    let t = placeholder(name);
    assert(subtree_lines(t, p, 0) == Seq::<Seq<char>>::empty());
    assert(attribute_lines(p, t.attrs) =~= Seq::<Seq<char>>::empty());
    assert(tree_lines(t, p) =~= Seq::<Seq<char>>::empty());
}

/// Placeholders add no lines.
proof fn lemma_front_placeholders(r: ATree, p: Seq<char>, a: int, j: int)
    requires
        0 <= a,
        0 <= j,
        a + j <= r.children.len(),
        forall|i: int| a <= i < a + j ==> #[trigger] r.children[i] == placeholder(r.children[i].name),
    ensures
        front_lines(r, p, a + j) == front_lines(r, p, a),
    decreases j,
{
    if j > 0 {
        lemma_front_placeholders(r, p, a, j - 1);
        let x = r.children[a + j - 1];
        lemma_placeholder_lines(x.name, node_path(Some(p), x.name, tree_index(r.children, a + j - 1)));
        assert(front_lines(r, p, a + j) =~= front_lines(r, p, a + j - 1));
    }
}

/// Whether a tree's lines rebuild a tree with the same lines: its names can stand in
/// paths, its attribute names are distinct, shown text is not blank and stands alone,
/// the indices of its shown children survive the rebuild (see `indices_kept`), and
/// each child that shows a line is such a tree too.
pub open spec fn tree_ok(t: ATree) -> bool
    decreases t,
{
    &&& safe_name(t.name)
    &&& strictly_sorted(t.attrs)
    &&& (forall|i: int| 0 <= i < t.attrs.len() ==> attr_name_ok(#[trigger] t.attrs[i].0))
    &&& (t.text matches Some(v) ==> !is_blank(v) && t.children.len() == 0)
    &&& t.children.len() <= usize::MAX
    &&& indices_kept(t.children)
    &&& forall|k: int| 0 <= k < t.children.len() && shows(#[trigger] t.children[k]) ==> tree_ok(t.children[k])
}

/// A tree and its rebuild show the same lines.
proof fn lemma_rebuilt_lines(t: ATree, p: Seq<char>)
    requires
        tree_ok(t),
    ensures
        tree_lines(rebuilt(t), p) == tree_lines(t, p),
    decreases t, 1nat,
{
    let r = rebuilt(t);
    let len = t.children.len() as int;
    lemma_rebuilt_front(t, p, len);
    lemma_front_lines(t, p, len);
    lemma_front_lines(r, p, r.children.len() as int);
    assert(subtree_lines(t, p, len) =~= Seq::<Seq<char>>::empty());
    assert(subtree_lines(r, p, r.children.len() as int) =~= Seq::<Seq<char>>::empty());
    assert(subtree_lines(r, p, 0) =~= subtree_lines(t, p, 0));
}

proof fn lemma_rebuilt_front(t: ATree, p: Seq<char>, k: int)
    requires
        tree_ok(t),
        0 <= k <= t.children.len(),
    ensures
        front_lines(rebuilt(t), p, rebuilt_children(t, k).len() as int) == front_lines(t, p, k),
    decreases t, 0nat, k,
{
    if k > 0 {
        lemma_rebuilt_front(t, p, k - 1);
        let ts = t.children;
        let x = ts[k - 1];
        let r = rebuilt(t);
        let rr = r.children;
        let len = ts.len() as int;
        lemma_rebuilt_step(t, k - 1);
        lemma_rebuilt_prefix(t, k - 1, len);
        lemma_rebuilt_prefix(t, k, len);
        let a = rebuilt_children(t, k - 1);
        let b = rebuilt_children(t, k);
        let xp = node_path(Some(p), x.name, tree_index(ts, k - 1));
        if shows(x) {
            let cnt = (count_trees(ts, x.name, k - 1) - placed(ts, x.name, k - 1)) as nat;
            let ph = placeholders(x.name, cnt);
            let al = a.len() as int;
            let pos = al + cnt;
            assert(b == a + ph + seq![rebuilt(x)]);
            assert forall|i: int| al <= i < al + cnt implies #[trigger] rr[i] == placeholder(rr[i].name) by {
                assert(rr[i] == rr.take(b.len() as int)[i]);
                assert(b[i] == ph[i - al]);
            }
            lemma_front_placeholders(r, p, al, cnt as int);
            assert(rr[pos] == rebuilt(x)) by {
                assert(rr.take(b.len() as int)[pos] == b[pos]);
            }
            lemma_rebuilt_count(t, x.name, k - 1);
            lemma_rebuilt_count(t, x.name, len);
            lemma_count_trees_concat(a, ph, x.name, cnt as int);
            lemma_count_placeholders(x.name, cnt, x.name, cnt as int);
            assert(rr.take(pos) =~= (a + ph).take(pos)) by {
                assert(rr.take(pos) =~= rr.take(b.len() as int).take(pos));
                assert(b.take(pos) =~= (a + ph).take(pos));
            }
            lemma_count_trees_prefix(rr, a + ph, x.name, pos);
            lemma_placed_le(ts, x.name, len);
            lemma_placed_le(ts, x.name, k - 1);
            assert(tree_ok(x));
            assert(tree_index(rr, pos) == tree_index(ts, k - 1)) by {
                if count_trees(ts, x.name, len) > 1 {
                    assert(shows(ts[k - 1]));
                }
            }
            lemma_rebuilt_lines(x, xp);
            assert(b.len() == pos + 1);
            assert(front_lines(r, p, pos + 1) == front_lines(r, p, pos) + tree_lines(
                rr[pos],
                node_path(Some(p), rr[pos].name, tree_index(rr, pos)),
            ));
        } else {
            lemma_lines_len(x, seq![], xp);
            assert(tree_lines(x, xp) =~= Seq::<Seq<char>>::empty());
            assert(front_lines(t, p, k) =~= front_lines(t, p, k - 1));
        }
    }
}

proof fn lemma_lines_len(t: ATree, p: Seq<char>, q: Seq<char>)
    ensures
        tree_lines(t, p).len() == tree_lines(t, q).len(),
    decreases t, 1nat,
{
    lemma_subtree_lines_len(t, p, q, 0);
}

proof fn lemma_subtree_lines_len(t: ATree, p: Seq<char>, q: Seq<char>, k: int)
    ensures
        subtree_lines(t, p, k).len() == subtree_lines(t, q, k).len(),
    decreases t, 0nat, t.children.len() - k,
{
    if 0 <= k < t.children.len() {
        assert(decreases_to!(t => t.children));
        let c = t.children[k];
        lemma_lines_len(
            c,
            node_path(Some(p), c.name, tree_index(t.children, k)),
            node_path(Some(q), c.name, tree_index(t.children, k)),
        );
        lemma_subtree_lines_len(t, p, q, k + 1);
    }
}

/// Sorting attributes that are already strictly in order changes nothing.
proof fn lemma_sort_sorted(s: Seq<(Seq<char>, Seq<char>)>)
    requires
        strictly_sorted(s),
    ensures
        sort_attrs(s) == s,
    decreases s.len(),
{
    if s.len() > 0 {
        let t = s.drop_last();
        assert(strictly_sorted(t)) by {
            assert forall|i: int, j: int| 0 <= i < j < t.len() implies name_lt(#[trigger] t[i].0, #[trigger] t[j].0) by {
                assert(t[i] == s[i] && t[j] == s[j]);
            }
        }
        lemma_sort_sorted(t);
        lemma_insert_last(t, s.last());
        assert(t.push(s.last()) =~= s);
    }
}

proof fn lemma_insert_last(t: Seq<(Seq<char>, Seq<char>)>, a: (Seq<char>, Seq<char>))
    requires
        forall|i: int| 0 <= i < t.len() ==> name_lt(#[trigger] t[i].0, a.0),
    ensures
        insert_sorted(t, a) == t.push(a),
    decreases t.len(),
{
    if t.len() > 0 {
        lemma_name_lt_asymmetric(t[0].0, a.0);
        assert forall|i: int| 0 <= i < t.skip(1).len() implies name_lt(#[trigger] t.skip(1)[i].0, a.0) by {
            assert(t.skip(1)[i] == t[i + 1]);
        }
        lemma_insert_last(t.skip(1), a);
        assert(seq![t[0]] + t.skip(1).push(a) =~= t.push(a));
    } else {
        assert(seq![a] =~= t.push(a));
    }
}

/// Whether key `k` names an element below the element of key `q`.
pub open spec fn below(k: Seq<char>, q: Seq<char>) -> bool {
    k.len() > q.len() && k.take(q.len() + 1int) == q.push('/')
}

/// Whether no cached key lies below `q`.
pub open spec fn none_below(c: Map<Seq<char>, usize>, q: Seq<char>) -> bool {
    forall|k: Seq<char>| #[trigger] c.contains_key(k) ==> !below(k, q)
}

/// The cache holds the keys of steps `0..=m`, the first gives the root, and step `m`'s
/// gives `n`.
pub open spec fn spine_cached(
    d: DocModel,
    c: Map<Seq<char>, usize>,
    parts: Seq<PathPartModel>,
    m: int,
    n: usize,
) -> bool {
    &&& d.root is Some
    &&& c.contains_key(path_key(parts, 0))
    &&& c[path_key(parts, 0)] == d.root->0
    &&& forall|j: int| 0 <= j <= m ==> c.contains_key(#[trigger] path_key(parts, j))
    &&& c[path_key(parts, m)] == n
}

proof fn lemma_path_key_prefix(parts: Seq<PathPartModel>, qarts: Seq<PathPartModel>, j: int)
    requires
        0 <= j,
        j < parts.len(),
        j < qarts.len(),
        parts.take(j + 1) == qarts.take(j + 1),
    ensures
        path_key(parts, j) == path_key(qarts, j),
    decreases j,
{
    assert(parts[j] == parts.take(j + 1)[j]);
    assert(qarts[j] == qarts.take(j + 1)[j]);
    if j > 0 {
        assert(parts.take(j) =~= parts.take(j + 1).take(j));
        assert(qarts.take(j) =~= qarts.take(j + 1).take(j));
        lemma_path_key_prefix(parts, qarts, j - 1);
    }
}

proof fn lemma_key_below(parts: Seq<PathPartModel>, m: int, j: int)
    requires
        0 <= m < j,
    ensures
        below(path_key(parts, j), path_key(parts, m)),
    decreases j,
{
    let q = path_key(parts, m);
    if j == m + 1 {
        assert(path_key(parts, j).take(q.len() + 1int) =~= q.push('/'));
    } else {
        lemma_key_below(parts, m, j - 1);
        let k = path_key(parts, j - 1);
        assert(path_key(parts, j).take(q.len() + 1int) =~= k.take(q.len() + 1int));
    }
}

proof fn lemma_walk_hits(
    d: DocModel,
    c: Map<Seq<char>, usize>,
    parts: Seq<PathPartModel>,
    j: int,
    cur: usize,
    m: int,
)
    requires
        1 <= j <= m < parts.len(),
        forall|i: int| j <= i <= m ==> c.contains_key(#[trigger] path_key(parts, i)),
    ensures
        walk(d, c, parts, j, cur) == walk(d, c, parts, m + 1, c[path_key(parts, m)]),
    decreases m - j,
{
    if j < m {
        lemma_walk_hits(d, c, parts, j + 1, c[path_key(parts, j)], m);
    }
}

proof fn lemma_insert_same(c: Map<Seq<char>, usize>, k: Seq<char>)
    requires
        c.contains_key(k),
    ensures
        c.insert(k, c[k]) == c,
{
    assert(c.insert(k, c[k]) =~= c);
}

proof fn lemma_add_children_root(d: DocModel, parent: int, name: Seq<char>, cnt: nat)
    ensures
        add_children(d, parent, name, cnt).root == d.root,
    decreases cnt,
{
    if cnt > 0 {
        lemma_add_children_root(d, parent, name, (cnt - 1) as nat);
    }
}

proof fn lemma_child_step_root(d: DocModel, parent: int, name: Seq<char>, index: Option<usize>)
    ensures
        child_step(d, parent, name, index).0.root == d.root,
{
    let m = matching_children(d, d.element(parent).children, name);
    match index {
        Some(i) => {
            if i > m.len() {
                lemma_add_children_root(d, parent, name, (i - m.len()) as nat);
            }
        },
        None => {},
    }
}

/// The abstract tree of a bare element is a placeholder.
proof fn lemma_abstract_bare(d: DocModel, i: int, name: Seq<char>)
    requires
        0 <= i < d.nodes.len(),
        d.nodes[i] == bare_element(name),
    ensures
        abstract_tree(d, i) == placeholder(name),
{
    let e = d.element(i);
    assert(e.children =~= Seq::<usize>::empty());
    assert(text_of(d, e.children) =~= Seq::<char>::empty());
    assert(is_blank(Seq::<char>::empty()));
    assert(!has_element_child(d, e.children));
    assert(sort_attrs(e.attributes) =~= Seq::<(Seq<char>, Seq<char>)>::empty());
    assert(abstract_children(d, i, 0) =~= Seq::<ATree>::empty());
    assert(abstract_tree(d, i) =~= placeholder(name));
}

/// Taking the child step `m + 1` (with the placeholders it adds) before looking up a
/// path through it changes nothing: the lookup would take that step just so.
proof fn lemma_lookup_precreate(
    d: DocModel,
    c: Map<Seq<char>, usize>,
    parts: Seq<PathPartModel>,
    m: int,
    n: usize,
)
    requires
        steps_ok(parts),
        0 <= m < parts.len() - 1,
        d.wf(),
        d.is_element(n as int),
        spine_cached(d, c, parts, m, n),
        !c.contains_key(path_key(parts, m + 1)),
        none_below(c, path_key(parts, m + 1)),
    ensures
        lookup_spec(d, c, path_key(parts, parts.len() - 1)) == lookup_spec(
            precreated(d, c, parts, m, n).0,
            precreated(d, c, parts, m, n).1,
            path_key(parts, parts.len() - 1),
        ),
{
    let big_m = parts.len() - 1;
    let q = path_key(parts, big_m);
    let x = parts[m + 1];
    let (d2, nx) = child_step(d, n as int, x.name, x.index);
    let kx = path_key(parts, m + 1);
    let c2 = c.insert(kx, nx);
    let r = d.root->0;
    lemma_xpath_of_path_key(parts, big_m);
    assert(parts.take(big_m + 1) =~= parts);
    assert forall|j: int| m < j <= big_m implies !c.contains_key(#[trigger] path_key(parts, j)) by {
        if j > m + 1 {
            lemma_key_below(parts, m + 1, j);
        }
    }
    assert forall|j: int| 0 <= j <= m implies path_key(parts, j) != kx by {
        if j < m + 1 {
            lemma_path_key_grows(parts, j, m + 1);
        }
    }
    assert(steps_ok(parts));
    assert(safe_name(parts[m + 1].name));
    assert(x.index != Some(0usize));
    lemma_child_step_root(d, n as int, x.name, x.index);
    lemma_insert_same(c, path_key(parts, 0));
    // the walk on the original state goes through the cached steps, then creates step m + 1
    let w1 = walk(d, c, parts, 1, r);
    if m >= 1 {
        lemma_walk_hits(d, c, parts, 1, r, m);
    }
    assert(w1 == walk(d2, c2, parts, m + 2, nx));
    assert(lookup_spec(d, c, q) == Some(Ok::<_, UngrexErrorModel>(w1->0)) || w1 is None && lookup_spec(d, c, q) is None);
    if big_m == m + 1 {
        assert(c2.contains_key(q));
    } else {
        lemma_path_key_grows(parts, m + 1, big_m);
        assert(!c2.contains_key(q));
        assert(d2.root == d.root);
        assert(c2[path_key(parts, 0)] == r);
        lemma_insert_same(c2, path_key(parts, 0));
        let w2 = walk(d2, c2, parts, 1, r);
        assert forall|i: int| 1 <= i <= m + 1 implies c2.contains_key(#[trigger] path_key(parts, i)) by {}
        lemma_walk_hits(d2, c2, parts, 1, r, m + 1);
        assert(w2 == walk(d2, c2, parts, m + 2, nx));
    }
}

/// The path of step `j` holds no space.
proof fn lemma_path_key_no_space(parts: Seq<PathPartModel>, j: int)
    requires
        steps_ok(parts),
        0 <= j < parts.len(),
    ensures
        forall|i: int| 0 <= i < path_key(parts, j).len() ==> #[trigger] path_key(parts, j)[i] != ' ',
    decreases j,
{
    assert(safe_name(parts[j].name));
    lemma_step_spec(parts[j]);
    let k = path_key(parts, j);
    if j == 0 {
        assert forall|i: int| 0 <= i < k.len() implies #[trigger] k[i] != ' ' by {
            if i > 0 {
                assert(k[i] == parts[0].name[i - 1]);
            }
        }
    } else {
        lemma_path_key_no_space(parts, j - 1);
        let prev = path_key(parts, j - 1);
        let st = step_text(parts[j]);
        assert(k =~= prev + seq!['/'] + st);
        assert forall|i: int| 0 <= i < k.len() implies #[trigger] k[i] != ' ' by {
            if i < prev.len() {
                assert(k[i] == prev[i]);
            } else if i > prev.len() {
                let o = i - prev.len() - 1;
                assert(k[i] == st[o]);
                if o >= parts[j].name.len() {
                    match parts[j].index {
                        Some(ix) => {
                            lemma_decimal_digits(ix as nat);
                            let dec = decimal(ix as nat);
                            if o > parts[j].name.len() && o < st.len() - 1 {
                                assert(st[o] == dec[o - parts[j].name.len() - 1]);
                                assert(is_digit(dec[o - parts[j].name.len() - 1]));
                            }
                        },
                        None => {},
                    }
                }
            }
        }
    }
}

/// How an attribute line is applied: its element is looked up, then its attribute set.
proof fn lemma_apply_attr_line(d: DocModel, c: Map<Seq<char>, usize>, p: Seq<char>, a: Seq<char>, v: Seq<char>)
    requires
        forall|i: int| 0 <= i < p.len() ==> #[trigger] p[i] != ' ',
        attr_name_ok(a),
    ensures
        !is_blank(grex_line(p + seq!['/', '@'] + a, v)),
        grex_line_parts(grex_line(p + seq!['/', '@'] + a, v)) == Some((p + seq!['/', '@'] + a, v)),
        apply_spec(d, c, p + seq!['/', '@'] + a, v) == match lookup_spec(d, c, p) {
            None => None,
            Some(Err(e)) => Some(Err(e)),
            Some(Ok((d2, c2, n))) => Some(Ok((d2.set_attribute(n as int, a, v), c2))),
        },
{
    let x = p + seq!['/', '@'] + a;
    lemma_grex_line_not_blank(x, v);
    assert forall|i: int| 0 <= i < x.len() implies x[i] != ' ' by {
        if i >= p.len() + 2 {
            assert(x[i] == a[i - p.len() - 2]);
        }
    }
    lemma_grex_line_roundtrip(x, v);
    lemma_attr_xpath(p, a);
}

/// How a text line is applied: its element is looked up, then its text set.
proof fn lemma_apply_text_line(d: DocModel, c: Map<Seq<char>, usize>, p: Seq<char>, v: Seq<char>)
    requires
        forall|i: int| 0 <= i < p.len() ==> #[trigger] p[i] != ' ',
    ensures
        !is_blank(grex_line(p + seq!['/', 't', 'e', 'x', 't', '(', ')'], v)),
        grex_line_parts(grex_line(p + seq!['/', 't', 'e', 'x', 't', '(', ')'], v)) == Some(
            (p + seq!['/', 't', 'e', 'x', 't', '(', ')'], v),
        ),
        apply_spec(d, c, p + seq!['/', 't', 'e', 'x', 't', '(', ')'], v) == match lookup_spec(d, c, p) {
            None => None,
            Some(Err(e)) => Some(Err(e)),
            Some(Ok((d2, c2, n))) => Some(Ok((d2.set_text(n as int, v), c2))),
        },
{
    let x = p + seq!['/', 't', 'e', 'x', 't', '(', ')'];
    lemma_grex_line_not_blank(x, v);
    assert forall|i: int| 0 <= i < x.len() implies x[i] != ' ' by {
        if i >= p.len() {
            assert(x[i] == seq!['/', 't', 'e', 'x', 't', '(', ')'][i - p.len()]);
        }
    }
    lemma_grex_line_roundtrip(x, v);
    lemma_text_xpath(p);
    assert(x.len() - 7 == p.len());
}

/// The step of child `k` of `t`.
pub open spec fn child_part(t: ATree, k: int) -> PathPartModel {
    PathPartModel { name: t.children[k].name, index: tree_index(t.children, k) }
}

proof fn lemma_count_trees_le(ts: Seq<ATree>, name: Seq<char>, j: int, k: int)
    requires
        0 <= j <= k <= ts.len(),
    ensures
        count_trees(ts, name, j) <= count_trees(ts, name, k),
    decreases k - j,
{
    if j < k {
        lemma_count_trees_le(ts, name, j, k - 1);
    }
}

proof fn lemma_count_trees_bound(ts: Seq<ATree>, name: Seq<char>, k: int)
    requires
        0 <= k,
    ensures
        count_trees(ts, name, k) <= k,
    decreases k,
{
    if k > 0 {
        lemma_count_trees_bound(ts, name, k - 1);
    }
}

/// The steps to child `k` extend the steps to its parent.
proof fn lemma_child_steps(t: ATree, parts: Seq<PathPartModel>, k: int)
    requires
        steps_ok(parts),
        tree_ok(t),
        0 <= k < t.children.len(),
        shows(t.children[k]),
    ensures
        steps_ok(parts.push(child_part(t, k))),
        path_key(parts.push(child_part(t, k)), parts.len() as int) == node_path(
            Some(path_key(parts, parts.len() - 1)),
            t.children[k].name,
            tree_index(t.children, k),
        ),
        forall|j: int| 0 <= j < parts.len() ==> #[trigger] path_key(parts.push(child_part(t, k)), j) == path_key(parts, j),
{
    let q = parts.push(child_part(t, k));
    assert(tree_ok(t.children[k]));
    lemma_count_trees_bound(t.children, t.children[k].name, k);
    assert forall|j: int| 0 <= j < q.len() implies #[trigger] safe_name(q[j].name) && (q[j].index matches Some(
        i,
    ) ==> i >= 1) by {
        if j < parts.len() {
            assert(q[j] == parts[j]);
        }
    }
    assert forall|j: int| 0 <= j < parts.len() implies #[trigger] path_key(q, j) == path_key(parts, j) by {
        assert(q.take(j + 1) =~= parts.take(j + 1));
        lemma_path_key_prefix(q, parts, j);
    }
    assert(path_key(q, parts.len() - 1) == path_key(parts, parts.len() - 1));
    assert(path_key(q, parts.len() as int) =~= node_path(
        Some(path_key(parts, parts.len() - 1)),
        t.children[k].name,
        tree_index(t.children, k),
    ));
}

/// The state after the element of step `m + 1` is found or created under `n` and
/// cached.
pub open spec fn precreated(
    d: DocModel,
    c: Map<Seq<char>, usize>,
    parts: Seq<PathPartModel>,
    m: int,
    n: usize,
) -> (DocModel, Map<Seq<char>, usize>) {
    let (d2, x) = child_step(d, n as int, parts[m + 1].name, parts[m + 1].index);
    (d2, c.insert(path_key(parts, m + 1), x))
}

/// What the lookup lemma asks of the state before step `m + 1` is created.
pub open spec fn ready_for_child(
    d: DocModel,
    c: Map<Seq<char>, usize>,
    parts: Seq<PathPartModel>,
    m: int,
    n: usize,
) -> bool {
    &&& steps_ok(parts)
    &&& 0 <= m < parts.len() - 1
    &&& d.wf()
    &&& d.is_element(n as int)
    &&& spine_cached(d, c, parts, m, n)
    &&& !c.contains_key(path_key(parts, m + 1))
    &&& none_below(c, path_key(parts, m + 1))
    &&& match parts[m + 1].index {
        Some(i) => matching_children(d, d.element(n as int).children, parts[m + 1].name).len() < i,
        None => matching_children(d, d.element(n as int).children, parts[m + 1].name).len() == 0,
    }
}

proof fn lemma_ready_extend(
    d: DocModel,
    c: Map<Seq<char>, usize>,
    parts: Seq<PathPartModel>,
    m: int,
    n: usize,
    t: ATree,
    k: int,
)
    requires
        ready_for_child(d, c, parts, m, n),
        tree_ok(t),
        0 <= k < t.children.len(),
        shows(t.children[k]),
    ensures
        ready_for_child(d, c, parts.push(child_part(t, k)), m, n),
        precreated(d, c, parts.push(child_part(t, k)), m, n) == precreated(d, c, parts, m, n),
        path_key(parts.push(child_part(t, k)), m) == path_key(parts, m),
{
    let q = parts.push(child_part(t, k));
    lemma_child_steps(t, parts, k);
    assert(q[m + 1] == parts[m + 1]);
    assert(path_key(q, m + 1) == path_key(parts, m + 1));
    assert forall|j: int| 0 <= j <= m implies #[trigger] c.contains_key(path_key(q, j)) by {
        assert(path_key(q, j) == path_key(parts, j));
    }
    assert(path_key(q, 0) == path_key(parts, 0));
    assert(path_key(q, m + 1) == path_key(parts, m + 1));
}

/// Processing a block of lines from the state before or after child step `m + 1` is
/// taken ends the same, when every line of the block goes through that step.
proof fn lemma_block_precreate(
    y: ATree,
    d: DocModel,
    c: Map<Seq<char>, usize>,
    parts: Seq<PathPartModel>,
    m: int,
    n: usize,
)
    requires
        ready_for_child(d, c, parts, m, n),
        tree_ok(y),
        tree_lines(y, path_key(parts, parts.len() - 1)).len() > 0,
    ensures
        process(tree_lines(y, path_key(parts, parts.len() - 1)), d, c) == process(
            tree_lines(y, path_key(parts, parts.len() - 1)),
            precreated(d, c, parts, m, n).0,
            precreated(d, c, parts, m, n).1,
        ),
    decreases y, 1nat,
{
    let p = path_key(parts, parts.len() - 1);
    let lines = tree_lines(y, p);
    let (d2, c2) = precreated(d, c, parts, m, n);
    lemma_lookup_precreate(d, c, parts, m, n);
    lemma_path_key_no_space(parts, parts.len() - 1);
    assert(lines =~= seq![lines[0]] + lines.skip(1));
    lemma_process_concat(seq![lines[0]], lines.skip(1), d, c);
    lemma_process_concat(seq![lines[0]], lines.skip(1), d2, c2);
    let one = seq![lines[0]];
    assert(one.skip(1) =~= Seq::<Seq<char>>::empty());
    if y.attrs.len() > 0 {
        let a = y.attrs[0];
        assert(attr_name_ok(a.0));
        assert(lines[0] == attribute_lines(p, y.attrs)[0]);
        assert(lines[0] == grex_line(p + seq!['/', '@'] + a.0, a.1));
        lemma_apply_attr_line(d, c, p, a.0, a.1);
        lemma_apply_attr_line(d2, c2, p, a.0, a.1);
        assert(process(one, d, c) == process(one, d2, c2));
    } else if y.text is Some {
        let v = y.text->0;
        assert(lines[0] == grex_line(p + seq!['/', 't', 'e', 'x', 't', '(', ')'], v));
        lemma_apply_text_line(d, c, p, v);
        lemma_apply_text_line(d2, c2, p, v);
        assert(process(one, d, c) == process(one, d2, c2));
    } else {
        assert(lines == subtree_lines(y, p, 0));
        lemma_forest_precreate(y, d, c, parts, m, n, 0);
    }
}

/// The same for the lines of the children of `y` from child `k` on.
proof fn lemma_forest_precreate(
    y: ATree,
    d: DocModel,
    c: Map<Seq<char>, usize>,
    parts: Seq<PathPartModel>,
    m: int,
    n: usize,
    k: int,
)
    requires
        ready_for_child(d, c, parts, m, n),
        tree_ok(y),
        0 <= k,
        subtree_lines(y, path_key(parts, parts.len() - 1), k).len() > 0,
    ensures
        process(subtree_lines(y, path_key(parts, parts.len() - 1), k), d, c) == process(
            subtree_lines(y, path_key(parts, parts.len() - 1), k),
            precreated(d, c, parts, m, n).0,
            precreated(d, c, parts, m, n).1,
        ),
    decreases y, 0nat, y.children.len() - k,
{
    let p = path_key(parts, parts.len() - 1);
    let (d2, c2) = precreated(d, c, parts, m, n);
    assert(k < y.children.len());
    assert(decreases_to!(y => y.children));
    let ch = y.children[k];
    let pc = node_path(Some(p), ch.name, tree_index(y.children, k));
    assert(subtree_lines(y, p, k) == tree_lines(ch, pc) + subtree_lines(y, p, k + 1));
    lemma_lines_len(ch, seq![], pc);
    if shows(ch) {
        let q = parts.push(child_part(y, k));
        lemma_ready_extend(d, c, parts, m, n, y, k);
        lemma_child_steps(y, parts, k);
        assert(path_key(q, q.len() - 1) == pc);
        lemma_block_precreate(ch, d, c, q, m, n);
        lemma_process_concat(tree_lines(ch, pc), subtree_lines(y, p, k + 1), d, c);
        lemma_process_concat(tree_lines(ch, pc), subtree_lines(y, p, k + 1), d2, c2);
    } else {
        assert(subtree_lines(y, p, k) =~= subtree_lines(y, p, k + 1));
        lemma_forest_precreate(y, d, c, parts, m, n, k + 1);
    }
}

/// The number of nodes that a tree takes: one per element, one per text.
pub open spec fn tree_size(t: ATree) -> nat
    decreases t, 1nat,
{
    1 + (if t.text is Some { 1nat } else { 0nat }) + forest_size(t, t.children.len() as int)
}

/// The number of nodes that the first `k` children of `t` take.
pub open spec fn forest_size(t: ATree, k: int) -> nat
    decreases t, 0nat, k,
{
    if k <= 0 || k > t.children.len() {
        0
    } else {
        proof {
            assert(decreases_to!(t => t.children));
        }
        forest_size(t, k - 1) + tree_size(t.children[k - 1])
    }
}

proof fn lemma_forest_size_le(t: ATree, j: int, k: int)
    requires
        0 <= j <= k <= t.children.len(),
    ensures
        forest_size(t, j) <= forest_size(t, k),
    decreases k - j,
{
    if j < k {
        lemma_forest_size_le(t, j, k - 1);
    }
}

/// Placeholders take one node each.
proof fn lemma_forest_size_placeholders(t: ATree, a: int, j: int)
    requires
        0 <= a,
        0 <= j,
        a + j <= t.children.len(),
        forall|i: int| a <= i < a + j ==> #[trigger] t.children[i] == placeholder(t.children[i].name),
    ensures
        forest_size(t, a + j) == forest_size(t, a) + j,
    decreases j,
{
    if j > 0 {
        lemma_forest_size_placeholders(t, a, j - 1);
        let x = t.children[a + j - 1];
        assert(forest_size(x, 0) == 0);
        assert(tree_size(x) == 1);
    }
}

proof fn lemma_text_of_frame(e1: DocModel, e2: DocModel, ch: Seq<usize>, x: int)
    requires
        forall|j: int| 0 <= j < ch.len() ==> x <= #[trigger] ch[j] < e1.nodes.len(),
        e2.nodes.len() >= e1.nodes.len(),
        forall|i: int| x <= i < e1.nodes.len() ==> #[trigger] e2.nodes[i] == e1.nodes[i],
    ensures
        text_of(e2, ch) == text_of(e1, ch),
        has_element_child(e2, ch) == has_element_child(e1, ch),
    decreases ch.len(),
{
    if ch.len() > 0 {
        lemma_text_of_frame(e1, e2, ch.drop_last(), x);
        assert(ch.last() == ch[ch.len() - 1]);
    }
    assert forall|k: int| 0 <= k < ch.len() implies e2.is_element(#[trigger] ch[k] as int) == e1.is_element(
        ch[k] as int,
    ) by {
        assert(e2.nodes[ch[k] as int] == e1.nodes[ch[k] as int]);
    }
}

/// The abstract tree of `x` depends only on the nodes from `x` on.
proof fn lemma_abstract_frame(e1: DocModel, e2: DocModel, x: int)
    requires
        e1.wf(),
        e1.is_element(x),
        e2.nodes.len() >= e1.nodes.len(),
        forall|i: int| x <= i < e1.nodes.len() ==> #[trigger] e2.nodes[i] == e1.nodes[i],
    ensures
        abstract_tree(e2, x) == abstract_tree(e1, x),
    decreases e1.nodes.len() - x, e1.element(x).children.len() + 1,
{
    assert(e2.nodes[x] == e1.nodes[x]);
    let ch = e1.element(x).children;
    assert forall|j: int| 0 <= j < ch.len() implies x <= #[trigger] ch[j] < e1.nodes.len() by {
        assert(x < e1.element(x).children[j]);
    }
    lemma_text_of_frame(e1, e2, ch, x);
    lemma_abstract_children_frame(e1, e2, x, ch.len() as int);
}

proof fn lemma_abstract_children_frame(e1: DocModel, e2: DocModel, x: int, k: int)
    requires
        e1.wf(),
        e1.is_element(x),
        e2.nodes.len() >= e1.nodes.len(),
        forall|i: int| x <= i < e1.nodes.len() ==> #[trigger] e2.nodes[i] == e1.nodes[i],
        0 <= k <= e1.element(x).children.len(),
    ensures
        abstract_children(e2, x, k) == abstract_children(e1, x, k),
    decreases e1.nodes.len() - x, k,
{
    assert(e2.nodes[x] == e1.nodes[x]);
    if k > 0 {
        lemma_abstract_children_frame(e1, e2, x, k - 1);
        let c = e1.element(x).children[k - 1] as int;
        assert(x < c < e1.nodes.len());
        assert(e2.nodes[c] == e1.nodes[c]);
        if e1.is_element(c) {
            assert forall|i: int| c <= i < e1.nodes.len() implies #[trigger] e2.nodes[i] == e1.nodes[i] by {}
            lemma_abstract_frame(e1, e2, c);
        }
    }
}

/// The abstract children of an element whose first `k` children are elements after it.
proof fn lemma_abstract_children_list(d: DocModel, n: int, k: int)
    requires
        d.is_element(n),
        0 <= k <= d.element(n).children.len(),
        forall|j: int| 0 <= j < k ==> n < #[trigger] d.element(n).children[j] && d.is_element(
            d.element(n).children[j] as int,
        ),
    ensures
        abstract_children(d, n, k) == Seq::new(k as nat, |j: int| abstract_tree(d, d.element(n).children[j] as int)),
    decreases k,
{
    if k > 0 {
        lemma_abstract_children_list(d, n, k - 1);
        assert(n < d.element(n).children[k - 1]);
        assert(abstract_children(d, n, k) =~= Seq::new(
            k as nat,
            |j: int| abstract_tree(d, d.element(n).children[j] as int),
        ));
    } else {
        assert(abstract_children(d, n, k) =~= Seq::new(
            k as nat,
            |j: int| abstract_tree(d, d.element(n).children[j] as int),
        ));
    }
}

/// Counting same-named children of an element whose children are the trees built so far.
proof fn lemma_matching_count(d: DocModel, ch: Seq<usize>, ts: Seq<ATree>, name: Seq<char>, k: int)
    requires
        0 <= k <= ch.len(),
        k <= ts.len(),
        forall|j: int| 0 <= j < k ==> d.is_element(#[trigger] ch[j] as int) && d.element(ch[j] as int).name
            == ts[j].name,
    ensures
        matching_children(d, ch.take(k), name).len() == count_trees(ts, name, k),
    decreases k,
{
    if k > 0 {
        assert(ch.take(k).drop_last() =~= ch.take(k - 1));
        assert(ch.take(k).last() == ch[k - 1]);
        lemma_matching_count(d, ch, ts, name, k - 1);
    }
}

proof fn lemma_below_trans(k: Seq<char>, a: Seq<char>, b: Seq<char>)
    requires
        below(k, a),
        below(a, b),
    ensures
        below(k, b),
{
    assert(k.take(b.len() + 1int) =~= k.take(a.len() + 1int).take(b.len() + 1int));
    assert(a.push('/').take(b.len() + 1int) =~= a.take(b.len() + 1int));
}

/// Keys under two different sibling steps are apart.
proof fn lemma_siblings_apart(q: Seq<char>, a: Seq<char>, b: Seq<char>, k: Seq<char>)
    requires
        a != b,
        forall|i: int| 0 <= i < a.len() ==> a[i] != '/',
        forall|i: int| 0 <= i < b.len() ==> b[i] != '/',
    ensures
        !(below(k, q + seq!['/'] + a) && below(k, q + seq!['/'] + b)),
        !(k == q + seq!['/'] + a && below(k, q + seq!['/'] + b)),
        q + seq!['/'] + a != q + seq!['/'] + b,
{
    let pa = q + seq!['/'] + a;
    let pb = q + seq!['/'] + b;
    let o: int = q.len() + 1int;
    if pa == pb {
        assert(a =~= pa.skip(o));
        assert(b =~= pb.skip(o));
    }
    if below(k, pa) && below(k, pb) {
        // the character after the shorter step is a slash in one reading, a step character in the other
        if a.len() < b.len() {
            assert(k[o + a.len()] == pa.push('/')[o + a.len()]);
            assert(k[o + a.len()] == pb.push('/')[o + a.len()]);
            assert(pb.push('/')[o + a.len()] == b[a.len() as int]);
        } else if b.len() < a.len() {
            assert(k[o + b.len()] == pb.push('/')[o + b.len()]);
            assert(k[o + b.len()] == pa.push('/')[o + b.len()]);
            assert(pa.push('/')[o + b.len()] == a[b.len() as int]);
        } else {
            assert forall|i: int| 0 <= i < a.len() implies a[i] == b[i] by {
                assert(k[o + i] == pa.push('/')[o + i]);
                assert(k[o + i] == pb.push('/')[o + i]);
            }
            assert(a =~= b);
        }
    }
    if k == pa && below(k, pb) {
        assert(k[o + b.len()] == pb.push('/')[o + b.len()]);
        assert(k[o + b.len()] == a[b.len() as int]);
    }
}

proof fn lemma_count_trees_step(ts: Seq<ATree>, name: Seq<char>, j: int, k: int)
    requires
        0 <= j < k <= ts.len(),
        ts[j].name == name,
    ensures
        count_trees(ts, name, k) >= count_trees(ts, name, j) + 1,
{
    lemma_count_trees_le(ts, name, j + 1, k);
}

/// Different children get different step texts.
proof fn lemma_child_texts_distinct(t: ATree, j: int, k: int)
    requires
        tree_ok(t),
        0 <= j < k < t.children.len(),
        shows(t.children[j]),
        shows(t.children[k]),
    ensures
        step_text(child_part(t, j)) != step_text(child_part(t, k)),
{
    let pj = child_part(t, j);
    let pk = child_part(t, k);
    assert(tree_ok(t.children[j]) && tree_ok(t.children[k]));
    lemma_count_trees_bound(t.children, t.children[j].name, j);
    lemma_count_trees_bound(t.children, t.children[k].name, k);
    lemma_step_spec(pj);
    lemma_step_spec(pk);
    if pj.name == pk.name {
        let name = pj.name;
        let len = t.children.len() as int;
        lemma_count_trees_step(t.children, name, j, k);
        lemma_count_trees_step(t.children, name, k, len);
        lemma_count_trees_le(t.children, name, j, len);
        assert(count_trees(t.children, name, len) > 1);
        assert(pj.index != pk.index);
    }
}

/// The document with element `n` replaced by an element named `name` with attributes
/// `attrs` and no children.
pub open spec fn with_attrs(d: DocModel, n: int, name: Seq<char>, attrs: Seq<(Seq<char>, Seq<char>)>) -> DocModel {
    DocModel {
        nodes: d.nodes.update(n, NodeModel::Element(ElementModel { name, attributes: attrs, children: seq![] })),
        root: d.root,
    }
}

proof fn lemma_attr_position_none(s: Seq<(Seq<char>, Seq<char>)>, name: Seq<char>, j: int)
    requires
        0 <= j,
        forall|i: int| j <= i < s.len() ==> #[trigger] s[i].0 != name,
    ensures
        attr_position_from(s, name, j) is None,
    decreases s.len() - j,
{
    if j < s.len() {
        lemma_attr_position_none(s, name, j + 1);
    }
}

/// The attribute lines of a fresh element set its attributes one by one.
proof fn lemma_attrs_phase(
    t: ATree,
    d: DocModel,
    c: Map<Seq<char>, usize>,
    p: Seq<char>,
    n: int,
    k: int,
)
    requires
        d.is_element(n),
        d.element(n) == (ElementModel { name: t.name, attributes: seq![], children: seq![] }),
        c.contains_key(p),
        c[p] == n,
        forall|i: int| 0 <= i < p.len() ==> #[trigger] p[i] != ' ',
        strictly_sorted(t.attrs),
        forall|i: int| 0 <= i < t.attrs.len() ==> attr_name_ok(#[trigger] t.attrs[i].0),
        0 <= k <= t.attrs.len(),
    ensures
        process(attribute_lines(p, t.attrs.take(k)), d, c) == Some((with_attrs(d, n, t.name, t.attrs.take(k)), c)),
    decreases k,
{
    if k == 0 {
        assert(attribute_lines(p, t.attrs.take(0)) =~= Seq::<Seq<char>>::empty());
        assert(t.attrs.take(0) =~= Seq::<(Seq<char>, Seq<char>)>::empty());
        assert(d.nodes[n] == NodeModel::Element(d.element(n)));
        assert(with_attrs(d, n, t.name, t.attrs.take(0)).nodes =~= d.nodes);
        assert(with_attrs(d, n, t.name, t.attrs.take(0)) == d);
        assert(process(Seq::<Seq<char>>::empty(), d, c) == Some((d, c)));
    } else {
        lemma_attrs_phase(t, d, c, p, n, k - 1);
        let a = t.attrs[k - 1];
        let prev = t.attrs.take(k - 1);
        let line = grex_line(p + seq!['/', '@'] + a.0, a.1);
        assert(attribute_lines(p, t.attrs.take(k)) =~= attribute_lines(p, prev) + seq![line]);
        lemma_process_concat(attribute_lines(p, prev), seq![line], d, c);
        let dk = with_attrs(d, n, t.name, prev);
        assert(attr_name_ok(a.0));
        lemma_apply_attr_line(dk, c, p, a.0, a.1);
        assert(dk.is_element(n));
        assert(forall|i: int| 0 <= i < prev.len() ==> #[trigger] prev[i].0 != a.0) by {
            assert forall|i: int| 0 <= i < prev.len() implies #[trigger] prev[i].0 != a.0 by {
                assert(name_lt(t.attrs[i].0, t.attrs[k - 1].0));
                lemma_name_lt_irreflexive(a.0);
            }
        }
        lemma_attr_position_none(prev, a.0, 0);
        assert(prev.push(a) =~= t.attrs.take(k));
        assert(dk.set_attribute(n, a.0, a.1).nodes =~= with_attrs(d, n, t.name, t.attrs.take(k)).nodes);
        assert(seq![line].skip(1) =~= Seq::<Seq<char>>::empty());
        assert(seq![line][0] == line);
        assert(lookup_spec(dk, c, p) == Some(Ok::<_, UngrexErrorModel>((dk, c, n as usize))));
        assert(process(seq![line], dk, c) == process(
            Seq::<Seq<char>>::empty(),
            dk.set_attribute(n, a.0, a.1),
            c,
        ));
    }
}

/// What holds before the lines of tree `t` are applied: its element `n` was just
/// created, empty, as the last node, and is cached under its path `parts`.
pub open spec fn block_ready(t: ATree, parts: Seq<PathPartModel>, d: DocModel, c: Map<Seq<char>, usize>, n: usize) -> bool {
    &&& tree_ok(t)
    &&& steps_ok(parts)
    &&& parts[parts.len() - 1].name == t.name
    &&& d.wf()
    &&& cache_ok(d, c)
    &&& spine_cached(d, c, parts, parts.len() - 1, n)
    &&& none_below(c, path_key(parts, parts.len() - 1))
    &&& n + 1 == d.nodes.len()
    &&& d.is_element(n as int)
    &&& d.element(n as int) == (ElementModel { name: t.name, attributes: seq![], children: seq![] })
    &&& d.nodes.len() + tree_size(rebuilt(t)) <= usize::MAX
}

/// What holds after the lines of tree `t`, at path `p`, were applied from `(d, c)`:
/// the element `n` and the nodes after it hold the rebuild of `t`, nothing before `n`
/// changed, and the cache only gained keys below `p`.
pub open spec fn block_done(
    t: ATree,
    p: Seq<char>,
    d: DocModel,
    c: Map<Seq<char>, usize>,
    n: usize,
    d2: DocModel,
    c2: Map<Seq<char>, usize>,
) -> bool {
    &&& d2.wf()
    &&& cache_ok(d2, c2)
    &&& d2.nodes.len() == d.nodes.len() + tree_size(rebuilt(t)) - 1
    &&& (forall|i: int| 0 <= i < n ==> #[trigger] d2.nodes[i] == d.nodes[i])
    &&& d2.root == d.root
    &&& d2.is_element(n as int)
    &&& abstract_tree(d2, n as int) == rebuilt(t)
    &&& (forall|k: Seq<char>| #[trigger] c.contains_key(k) ==> c2.contains_key(k) && c2[k] == c[k])
    &&& (forall|k: Seq<char>| #[trigger] c2.contains_key(k) && !c.contains_key(k) ==> below(k, p))
}

/// The path of child `k` of `t`, whose own path is step `parts.len() - 1`.
pub open spec fn child_key(t: ATree, parts: Seq<PathPartModel>, k: int) -> Seq<char> {
    path_key(parts.push(child_part(t, k)), parts.len() as int)
}

/// What holds after the lines of the first `k` children of `t` (which has children
/// and no text) were applied from the block's starting state `(d0, c0)`.
pub open spec fn children_inv(
    t: ATree,
    parts: Seq<PathPartModel>,
    n: usize,
    d0: DocModel,
    c0: Map<Seq<char>, usize>,
    k: int,
    e: DocModel,
    cc: Map<Seq<char>, usize>,
) -> bool {
    let p = path_key(parts, parts.len() - 1);
    let rk = rebuilt_children(t, k);
    &&& 0 <= k <= t.children.len()
    &&& e.wf()
    &&& cache_ok(e, cc)
    &&& e.root == d0.root
    &&& (forall|i: int| 0 <= i < n ==> #[trigger] e.nodes[i] == d0.nodes[i])
    &&& e.nodes.len() == d0.nodes.len() + forest_size(rebuilt(t), rk.len() as int)
    &&& e.is_element(n as int)
    &&& e.element(n as int).name == t.name
    &&& e.element(n as int).attributes == t.attrs
    &&& e.element(n as int).children.len() == rk.len()
    &&& (forall|j: int|
        0 <= j < rk.len() ==> {
            &&& n < #[trigger] e.element(n as int).children[j]
            &&& e.is_element(e.element(n as int).children[j] as int)
            &&& abstract_tree(e, e.element(n as int).children[j] as int) == rk[j]
        })
    &&& (forall|key: Seq<char>| #[trigger] c0.contains_key(key) ==> cc.contains_key(key) && cc[key] == c0[key])
    &&& (forall|key: Seq<char>|
        #[trigger] cc.contains_key(key) && !c0.contains_key(key) ==> {
            &&& below(key, p)
            &&& forall|jj: int|
                k <= jj < t.children.len() && shows(t.children[jj]) ==> key != child_key(t, parts, jj) && !below(
                    key,
                    #[trigger] child_key(t, parts, jj),
                )
        })
}

/// The path of child `k` is the parent's path, `/`, and the child's step text, which
/// holds no `/`.
proof fn lemma_child_key(t: ATree, parts: Seq<PathPartModel>, k: int)
    requires
        steps_ok(parts),
        tree_ok(t),
        0 <= k < t.children.len(),
        shows(t.children[k]),
    ensures
        child_key(t, parts, k) == path_key(parts, parts.len() - 1) + seq!['/'] + step_text(child_part(t, k)),
        below(child_key(t, parts, k), path_key(parts, parts.len() - 1)),
        forall|i: int| 0 <= i < step_text(child_part(t, k)).len() ==> step_text(child_part(t, k))[i] != '/',
{
    lemma_child_steps(t, parts, k);
    assert(tree_ok(t.children[k]));
    lemma_count_trees_bound(t.children, t.children[k].name, k);
    lemma_step_spec(child_part(t, k));
    let q = parts.push(child_part(t, k));
    assert(child_key(t, parts, k) =~= path_key(parts, parts.len() - 1) + seq!['/'] + step_text(child_part(t, k)));
    lemma_key_below(q, parts.len() - 1, parts.len() as int);
}

/// The state after the attribute and text lines of `t`.
pub open spec fn head_state(t: ATree, d: DocModel, n: int) -> DocModel {
    let da = with_attrs(d, n, t.name, t.attrs);
    match t.text {
        Some(v) => da.set_text(n, v),
        None => da,
    }
}

proof fn lemma_block_head(t: ATree, parts: Seq<PathPartModel>, d: DocModel, c: Map<Seq<char>, usize>, n: usize)
    requires
        block_ready(t, parts, d, c, n),
    ensures
        process(
            attribute_lines(path_key(parts, parts.len() - 1), t.attrs) + text_line_of(
                path_key(parts, parts.len() - 1),
                t.text,
            ),
            d,
            c,
        ) == Some((head_state(t, d, n as int), c)),
        head_state(t, d, n as int).wf(),
        cache_ok(head_state(t, d, n as int), c),
        head_state(t, d, n as int).root == d.root,
        head_state(t, d, n as int).is_element(n as int),
        head_state(t, d, n as int).element(n as int).name == t.name,
        head_state(t, d, n as int).element(n as int).attributes == t.attrs,
        forall|i: int| 0 <= i < n ==> #[trigger] head_state(t, d, n as int).nodes[i] == d.nodes[i],
        t.text is None ==> head_state(t, d, n as int).element(n as int).children.len() == 0,
        t.text is None ==> head_state(t, d, n as int).nodes.len() == d.nodes.len(),
        t.text matches Some(v) ==> {
            &&& head_state(t, d, n as int).nodes.len() == d.nodes.len() + 1
            &&& head_state(t, d, n as int).element(n as int).children == seq![d.nodes.len() as usize]
            &&& head_state(t, d, n as int).nodes[d.nodes.len() as int] == NodeModel::Text(v)
        },
{
    let m = parts.len() - 1;
    let p = path_key(parts, m);
    let ni = n as int;
    lemma_path_key_no_space(parts, m);
    lemma_attrs_phase(t, d, c, p, ni, t.attrs.len() as int);
    assert(t.attrs.take(t.attrs.len() as int) =~= t.attrs);
    let da = with_attrs(d, ni, t.name, t.attrs);
    let al = attribute_lines(p, t.attrs);
    assert(process(al, d, c) == Some((da, c)));
    assert(da.wf()) by {
        assert forall|i: int, k: int|
            #![trigger da.element(i).children[k]]
            da.is_element(i) && 0 <= k < da.element(i).children.len() implies i < da.element(i).children[k]
                < da.nodes.len() by {
            if i != ni {
                assert(da.nodes[i] == d.nodes[i]);
                assert(d.element(i).children[k] == da.element(i).children[k]);
            }
        }
    }
    assert forall|i: int| #![auto] 0 <= i < d.nodes.len() && d.is_element(i) implies da.is_element(i) by {
        if i != ni {
            assert(da.nodes[i] == d.nodes[i]);
        }
    }
    assert(cache_ok(da, c));
    let tl = text_line_of(p, t.text);
    let db = head_state(t, d, ni);
    assert(process(tl, da, c) == Some((db, c))) by {
        match t.text {
            Some(v) => {
                let x = p + seq!['/', 't', 'e', 'x', 't', '(', ')'];
                lemma_apply_text_line(da, c, p, v);
                assert(tl[0] == grex_line(x, v));
                assert(tl.skip(1) =~= Seq::<Seq<char>>::empty());
                assert(spine_cached(d, c, parts, m, n));
                assert(c.contains_key(p));
                assert(lookup_spec(da, c, p) == Some(Ok::<_, UngrexErrorModel>((da, c, n))));
                assert(apply_spec(da, c, x, v) == Some(Ok::<_, UngrexErrorModel>((db, c))));
                assert(process(tl.skip(1), db, c) == Some((db, c)));
            },
            None => {
                assert(tl =~= Seq::<Seq<char>>::empty());
            },
        }
    }
    lemma_process_concat(al, tl, d, c);
    match t.text {
        Some(v) => {
            lemma_set_text_wf(da, ni, v);
            lemma_set_text_grows(da, ni, v);
            lemma_cache_ok_grows(db, da, c);
            assert((d.nodes.len() as usize) as int == d.nodes.len());
        },
        None => {},
    }
}

/// The lines of a tree rebuild it in a freshly created element.
proof fn lemma_block(t: ATree, parts: Seq<PathPartModel>, d: DocModel, c: Map<Seq<char>, usize>, n: usize)
    requires
        block_ready(t, parts, d, c, n),
    ensures
        process(tree_lines(t, path_key(parts, parts.len() - 1)), d, c) matches Some((d2, c2)) && block_done(
            t,
            path_key(parts, parts.len() - 1),
            d,
            c,
            n,
            d2,
            c2,
        ),
    decreases t, 1nat,
{
    let m = parts.len() - 1;
    let p = path_key(parts, m);
    let al = attribute_lines(p, t.attrs);
    let tl = text_line_of(p, t.text);
    lemma_block_head(t, parts, d, c, n);
    lemma_process_concat(al + tl, subtree_lines(t, p, 0), d, c);
    assert(tree_lines(t, p) == al + tl + subtree_lines(t, p, 0));
    let db = head_state(t, d, n as int);
    if t.children.len() == 0 {
        lemma_block_leaf(t, parts, d, c, n);
    } else {
        lemma_block_parent(t, parts, d, c, n);
    }
}

proof fn lemma_block_leaf(t: ATree, parts: Seq<PathPartModel>, d: DocModel, c: Map<Seq<char>, usize>, n: usize)
    requires
        block_ready(t, parts, d, c, n),
        t.children.len() == 0,
    ensures
        process(subtree_lines(t, path_key(parts, parts.len() - 1), 0), head_state(t, d, n as int), c) == Some(
            (head_state(t, d, n as int), c),
        ),
        block_done(t, path_key(parts, parts.len() - 1), d, c, n, head_state(t, d, n as int), c),
{
    let m = parts.len() - 1;
    let p = path_key(parts, m);
    let ni = n as int;
    lemma_block_head(t, parts, d, c, n);
    let d2 = head_state(t, d, ni);
    assert(subtree_lines(t, p, 0) =~= Seq::<Seq<char>>::empty());
    assert(forest_size(t, 0) == 0);
    let ch = d2.element(ni).children;
    match t.text {
        Some(v) => {
            let tn = d.nodes.len() as int;
            assert(ch.drop_last() =~= Seq::<usize>::empty());
            assert(ch.last() as int == tn);
            assert(text_of(d2, ch.drop_last()) =~= Seq::<char>::empty());
            assert(text_of(d2, ch) =~= v);
            assert(!d2.is_element(tn));
            assert(!has_element_child(d2, ch));
            assert(abstract_children(d2, ni, 1) =~= Seq::<ATree>::empty()) by {
                assert(abstract_children(d2, ni, 0) =~= Seq::<ATree>::empty());
            }
        },
        None => {
            assert(ch =~= Seq::<usize>::empty());
            assert(text_of(d2, ch) =~= Seq::<char>::empty());
            assert(is_blank(Seq::<char>::empty()));
        },
    }
    lemma_sort_sorted(t.attrs);
    assert(abstract_tree(d2, ni).children =~= t.children);
    assert(abstract_tree(d2, ni) =~= t);
    assert(rebuilt_children(t, 0) =~= Seq::<ATree>::empty());
    assert(rebuilt(t) =~= t);
}

proof fn lemma_block_parent(t: ATree, parts: Seq<PathPartModel>, d: DocModel, c: Map<Seq<char>, usize>, n: usize)
    requires
        block_ready(t, parts, d, c, n),
        t.children.len() > 0,
    ensures
        process(subtree_lines(t, path_key(parts, parts.len() - 1), 0), head_state(t, d, n as int), c) matches Some(
            (d2, c2),
        ) && block_done(t, path_key(parts, parts.len() - 1), d, c, n, d2, c2),
    decreases t, 0nat, t.children.len() + 1,
{
    let m = parts.len() - 1;
    let p = path_key(parts, m);
    let ni = n as int;
    lemma_block_head(t, parts, d, c, n);
    let da = head_state(t, d, ni);
    assert(t.text is None);
    assert(children_inv(t, parts, n, d, c, 0, da, c));
    lemma_children_phase(t, parts, n, d, c, 0, da, c);
    let (d2, c2) = process(subtree_lines(t, p, 0), da, c)->0;
    let len = t.children.len() as int;
    assert(children_inv(t, parts, n, d, c, len, d2, c2));
    let rt = rebuilt(t);
    let rl = rt.children.len() as int;
    assert(rt.children == rebuilt_children(t, len));
    lemma_abstract_children_list(d2, ni, rl);
    assert(abstract_children(d2, ni, rl) =~= rt.children);
    lemma_sort_sorted(t.attrs);
    let ch = d2.element(ni).children;
    if rl > 0 {
        assert(has_element_child(d2, ch)) by {
            assert(d2.is_element(ch[0] as int));
        }
    } else {
        assert(ch =~= Seq::<usize>::empty());
        assert(text_of(d2, ch) =~= Seq::<char>::empty());
        assert(is_blank(Seq::<char>::empty()));
    }
    assert(t.text is None);
    assert(abstract_tree(d2, ni) =~= rt);
    assert forall|key: Seq<char>| #[trigger] c2.contains_key(key) && !c.contains_key(key) implies below(key, p) by {}
}

/// The invariant after child `k`, which shows lines, was rebuilt: its placeholders
/// and its own element follow the children before it.
proof fn lemma_phase_next(
    t: ATree,
    parts: Seq<PathPartModel>,
    n: usize,
    d0: DocModel,
    c0: Map<Seq<char>, usize>,
    k: int,
    e: DocModel,
    cc: Map<Seq<char>, usize>,
    e2: DocModel,
    c2: Map<Seq<char>, usize>,
)
    requires
        block_ready(t, parts, d0, c0, n),
        children_inv(t, parts, n, d0, c0, k, e, cc),
        0 <= k < t.children.len(),
        shows(t.children[k]),
        e.nodes.len() + gap(t, k) + 1 <= usize::MAX,
        forest_size(rebuilt(t), (rebuilt_children(t, k).len() + gap(t, k) + 1) as int) == forest_size(
            rebuilt(t),
            rebuilt_children(t, k).len() as int,
        ) + gap(t, k) + tree_size(rebuilt(t.children[k])),
        block_done(
            t.children[k],
            child_key(t, parts, k),
            add_children(e, n as int, t.children[k].name, gap(t, k) + 1),
            cc.insert(child_key(t, parts, k), (e.nodes.len() + gap(t, k)) as usize),
            (e.nodes.len() + gap(t, k)) as usize,
            e2,
            c2,
        ),
    ensures
        children_inv(t, parts, n, d0, c0, k + 1, e2, c2),
{
    let m = parts.len() - 1;
    let p = path_key(parts, m);
    let ni = n as int;
    let ts = t.children;
    let x = ts[k];
    let pk = child_key(t, parts, k);
    let rk = rebuilt_children(t, k);
    let rk1 = rebuilt_children(t, k + 1);
    let rl = rk.len() as int;
    let cnt0 = gap(t, k);
    let cnt = cnt0 + 1;
    let ph = placeholders(x.name, cnt0);
    let nx = (e.nodes.len() + cnt0) as usize;
    let e1 = add_children(e, ni, x.name, cnt);
    let c1 = cc.insert(pk, nx);
    let ch = e.element(ni).children;
    lemma_rebuilt_step(t, k);
    assert(rk1 == rk + ph + seq![rebuilt(x)]);
    lemma_add_children(e, ni, x.name, cnt);
    lemma_child_key(t, parts, k);
    assert(e2.nodes[ni] == e1.nodes[ni]);
    let added = Seq::new(cnt, |i: int| (e.nodes.len() + i) as usize);
    let ch2 = e2.element(ni).children;
    assert(ch2 == ch + added);
    assert forall|i: int| 0 <= i < n implies #[trigger] e2.nodes[i] == d0.nodes[i] by {
        assert(e2.nodes[i] == e1.nodes[i]);
        assert(e1.nodes[i] == e.nodes[i]);
    }
    assert(rk1.len() == rl + cnt);
    assert forall|j: int|
        0 <= j < rk1.len() implies {
            &&& n < #[trigger] e2.element(ni).children[j]
            &&& e2.is_element(e2.element(ni).children[j] as int)
            &&& abstract_tree(e2, e2.element(ni).children[j] as int) == rk1[j]
        } by {
        if j < rl {
            let cj = ch[j] as int;
            assert(ch2[j] == ch[j]);
            assert(rk1[j] == rk[j]);
            assert(n < ch[j] && e.is_element(cj));
            assert(cj < e.nodes.len());
            assert forall|i: int| cj <= i < e.nodes.len() implies #[trigger] e2.nodes[i] == e.nodes[i] by {
                assert(e2.nodes[i] == e1.nodes[i]);
                assert(e1.nodes[i] == e.nodes[i]);
            }
            lemma_abstract_frame(e, e2, cj);
            assert(e2.nodes[cj] == e.nodes[cj]);
        } else if j < rl + cnt0 {
            let cj = e.nodes.len() + (j - rl);
            assert(ch2[j] == added[j - rl]);
            assert(ch2[j] as int == cj);
            assert(e2.nodes[cj] == e1.nodes[cj]);
            assert(e1.nodes[cj] == bare_element(x.name));
            lemma_abstract_bare(e2, cj, x.name);
            assert(rk1[j] == ph[j - rl]);
        } else {
            assert(ch2[j] == added[j - rl]);
            assert(ch2[j] == nx);
            assert(rk1[j] == rebuilt(x));
        }
    }
    assert forall|key: Seq<char>| #[trigger] c0.contains_key(key) implies c2.contains_key(key) && c2[key]
        == c0[key] by {
        assert(cc.contains_key(key));
        assert(c1.contains_key(key) && c1[key] == cc[key]);
    }
    assert forall|key: Seq<char>|
        #[trigger] c2.contains_key(key) && !c0.contains_key(key) implies {
            &&& below(key, p)
            &&& forall|jj: int|
                k + 1 <= jj < t.children.len() && shows(t.children[jj]) ==> key != child_key(t, parts, jj)
                    && !below(key, #[trigger] child_key(t, parts, jj))
        } by {
        if cc.contains_key(key) {
        } else {
            assert(key == pk || below(key, pk)) by {
                if !c1.contains_key(key) {
                }
            }
            if below(key, pk) {
                lemma_below_trans(key, pk, p);
            }
            assert forall|jj: int| k + 1 <= jj < t.children.len() && shows(t.children[jj]) implies key
                != child_key(t, parts, jj) && !below(key, #[trigger] child_key(t, parts, jj)) by {
                lemma_child_texts_distinct(t, k, jj);
                lemma_child_key(t, parts, jj);
                let sa = step_text(child_part(t, k));
                let sb = step_text(child_part(t, jj));
                lemma_siblings_apart(p, sa, sb, key);
                lemma_siblings_apart(p, sb, sa, key);
            }
        }
    }
}

/// Before child `k`, which shows lines, is rebuilt, the state is ready for its
/// creation: its element and the placeholders before it do not exist yet.
proof fn lemma_phase_ready(
    t: ATree,
    parts: Seq<PathPartModel>,
    n: usize,
    d0: DocModel,
    c0: Map<Seq<char>, usize>,
    k: int,
    e: DocModel,
    cc: Map<Seq<char>, usize>,
)
    requires
        block_ready(t, parts, d0, c0, n),
        children_inv(t, parts, n, d0, c0, k, e, cc),
        0 <= k < t.children.len(),
        shows(t.children[k]),
    ensures
        ready_for_child(e, cc, parts.push(child_part(t, k)), parts.len() - 1, n),
        matching_children(e, e.element(n as int).children, t.children[k].name).len() == placed(
            t.children,
            t.children[k].name,
            k,
        ),
        placed(t.children, t.children[k].name, k) <= count_trees(t.children, t.children[k].name, k),
        match child_part(t, k).index {
            Some(i) => i == count_trees(t.children, t.children[k].name, k) + 1,
            None => count_trees(t.children, t.children[k].name, k) == 0,
        },
{
    let m = parts.len() - 1;
    let p = path_key(parts, m);
    let ni = n as int;
    let len = t.children.len() as int;
    let ts = t.children;
    let x = ts[k];
    let q = parts.push(child_part(t, k));
    let pk = child_key(t, parts, k);
    lemma_child_steps(t, parts, k);
    lemma_child_key(t, parts, k);
    let rk = rebuilt_children(t, k);
    let rl = rk.len() as int;
    // the state is ready for the child's creation
    let ch = e.element(ni).children;
    assert(ch.take(rl) =~= ch);
    assert forall|j: int| 0 <= j < rl implies e.is_element(#[trigger] ch[j] as int) && e.element(ch[j] as int).name
        == rk[j].name by {
        assert(abstract_tree(e, ch[j] as int) == rk[j]);
    }
    lemma_matching_count(e, ch, rk, x.name, rl);
    lemma_rebuilt_count(t, x.name, k);
    lemma_placed_le(ts, x.name, k);
    lemma_count_trees_bound(ts, x.name, k);
    lemma_count_trees_step(ts, x.name, k, len);
    assert(count_trees(ts, x.name, k + 1) == count_trees(ts, x.name, k) + 1);
    let mlen = matching_children(e, ch, x.name).len();
    assert(mlen == placed(ts, x.name, k));
    assert(match child_part(t, k).index {
        Some(i) => mlen < i,
        None => mlen == 0,
    });
    assert(block_ready(t, parts, d0, c0, n));
    assert(spine_cached(d0, c0, parts, m, n));
    assert(path_key(q, 0) == path_key(parts, 0));
    assert(path_key(q, m) == path_key(parts, m));
    assert forall|j: int| 0 <= j <= m implies cc.contains_key(#[trigger] path_key(q, j)) by {
        assert(path_key(q, j) == path_key(parts, j));
        assert(c0.contains_key(path_key(parts, j)));
    }
    assert(!cc.contains_key(pk)) by {
        if c0.contains_key(pk) {
            assert(none_below(c0, p));
        }
    }
    assert(none_below(cc, pk)) by {
        assert forall|key: Seq<char>| #[trigger] cc.contains_key(key) implies !below(key, pk) by {
            if c0.contains_key(key) && below(key, pk) {
                lemma_below_trans(key, pk, p);
            }
        }
    }
}

/// The nodes that the rebuild of child `k`, which shows lines, takes.
proof fn lemma_phase_sizes(t: ATree, k: int)
    requires
        0 <= k < t.children.len(),
        shows(t.children[k]),
        t.text is None,
    ensures
        forest_size(rebuilt(t), (rebuilt_children(t, k).len() + gap(t, k) + 1) as int) == forest_size(
            rebuilt(t),
            rebuilt_children(t, k).len() as int,
        ) + gap(t, k) + tree_size(rebuilt(t.children[k])),
        forest_size(rebuilt(t), (rebuilt_children(t, k).len() + gap(t, k) + 1) as int) + 1 <= tree_size(rebuilt(t)),
{
    let len = t.children.len() as int;
    let x = t.children[k];
    let rt = rebuilt(t);
    let rk = rebuilt_children(t, k);
    let rk1 = rebuilt_children(t, k + 1);
    let rl = rk.len() as int;
    let cnt0 = gap(t, k);
    let ph = placeholders(x.name, cnt0);
    lemma_rebuilt_step(t, k);
    assert(rk1 == rk + ph + seq![rebuilt(x)]);
    // room for the new nodes
    lemma_rebuilt_prefix(t, k, len);
    lemma_rebuilt_prefix(t, k + 1, len);
    assert(rt.children == rebuilt_children(t, len));
    assert forall|i: int| rl <= i < rl + cnt0 implies #[trigger] rt.children[i] == placeholder(
        rt.children[i].name,
    ) by {
        assert(rt.children[i] == rt.children.take(rk1.len() as int)[i]);
        assert(rk1[i] == ph[i - rl]);
    }
    lemma_forest_size_placeholders(rt, rl, cnt0 as int);
    assert(rt.children[rl + cnt0] == rebuilt(x)) by {
        assert(rt.children.take(rk1.len() as int)[rl + cnt0] == rk1[rl + cnt0]);
    }
    assert(forest_size(rt, rl + cnt0 + 1) == forest_size(rt, rl + cnt0) + tree_size(rebuilt(x)));
    lemma_forest_size_le(rt, rl + cnt0 + 1, rt.children.len() as int);
    assert(t.text is None);
    assert(tree_size(rt) == 1 + forest_size(rt, rt.children.len() as int));
}

/// Rebuilding the children of `t` from child `k` on, given the first `k` rebuilt.
proof fn lemma_children_phase(
    t: ATree,
    parts: Seq<PathPartModel>,
    n: usize,
    d0: DocModel,
    c0: Map<Seq<char>, usize>,
    k: int,
    e: DocModel,
    cc: Map<Seq<char>, usize>,
)
    requires
        block_ready(t, parts, d0, c0, n),
        t.children.len() > 0,
        children_inv(t, parts, n, d0, c0, k, e, cc),
    ensures
        process(subtree_lines(t, path_key(parts, parts.len() - 1), k), e, cc) matches Some((e2, cc2))
            && children_inv(t, parts, n, d0, c0, t.children.len() as int, e2, cc2),
    decreases t, 0nat, t.children.len() - k,
{
    let m = parts.len() - 1;
    let p = path_key(parts, m);
    let ni = n as int;
    let len = t.children.len() as int;
    if k == len {
        assert(subtree_lines(t, p, k) =~= Seq::<Seq<char>>::empty());
        return;
    }
    assert(decreases_to!(t => t.children));
    let ts = t.children;
    let x = ts[k];
    let px = node_path(Some(p), x.name, tree_index(ts, k));
    assert(subtree_lines(t, p, k) == tree_lines(x, px) + subtree_lines(t, p, k + 1));
    lemma_lines_len(x, seq![], px);
    lemma_rebuilt_step(t, k);
    if !shows(x) {
        // a child without lines leaves the state as it is
        assert(subtree_lines(t, p, k) =~= subtree_lines(t, p, k + 1));
        assert(children_inv(t, parts, n, d0, c0, k + 1, e, cc));
        lemma_children_phase(t, parts, n, d0, c0, k + 1, e, cc);
        return;
    }
    assert(tree_ok(x));
    let q = parts.push(child_part(t, k));
    let pk = child_key(t, parts, k);
    lemma_child_steps(t, parts, k);
    lemma_child_key(t, parts, k);
    assert(path_key(q, q.len() - 1) == pk);
    assert(pk == px);
    let rt = rebuilt(t);
    let rk = rebuilt_children(t, k);
    let rk1 = rebuilt_children(t, k + 1);
    let rl = rk.len() as int;
    let cnt0 = (count_trees(ts, x.name, k) - placed(ts, x.name, k)) as nat;
    let ph = placeholders(x.name, cnt0);
    assert(rk1 == rk + ph + seq![rebuilt(x)]);
    lemma_phase_ready(t, parts, n, d0, c0, k, e, cc);
    assert(ready_for_child(e, cc, q, m, n));
    lemma_block_precreate(x, e, cc, q, m, n);
    let (e1, c1) = precreated(e, cc, q, m, n);
    let cnt = cnt0 + 1;
    let nx = (e.nodes.len() + cnt0) as usize;
    assert(child_step(e, ni, x.name, child_part(t, k).index) == (add_children(e, ni, x.name, cnt), nx)) by {
        match child_part(t, k).index {
            Some(i) => {},
            None => {
                assert(add_children(e, ni, x.name, 1) == add_children(e, ni, x.name, 0).add_child(
                    ni,
                    bare_element(x.name),
                ));
            },
        }
    }
    assert(e1 == add_children(e, ni, x.name, cnt));
    assert(c1 == cc.insert(pk, nx));
    lemma_phase_sizes(t, k);
    assert(tree_size(rebuilt(x)) >= 1);
    assert(e.nodes.len() == d0.nodes.len() + forest_size(rt, rl));
    assert(e.nodes.len() + cnt <= usize::MAX);
    lemma_add_children(e, ni, x.name, cnt);
    lemma_cache_ok_grows(e1, e, cc);
    assert(e1.is_element(nx as int));
    lemma_path_key_grows(q, 0, m + 1);
    assert(path_key(q, m + 1) == pk);
    assert(block_ready(x, q, e1, c1, nx)) by {
        assert forall|j: int| 0 <= j <= m + 1 implies c1.contains_key(#[trigger] path_key(q, j)) by {
            if j <= m {
                assert(cc.contains_key(path_key(q, j)));
            }
        }
        assert(none_below(c1, pk));
        assert(e1.nodes[nx as int] == bare_element(x.name));
        assert(e1.element(nx as int) == (ElementModel { name: x.name, attributes: seq![], children: seq![] }));
        assert(q[q.len() - 1].name == x.name);
    }
    lemma_block(x, q, e1, c1, nx);
    let (e2, c2) = process(tree_lines(x, pk), e1, c1)->0;
    assert(block_done(x, pk, e1, c1, nx, e2, c2));
    lemma_process_concat(tree_lines(x, pk), subtree_lines(t, p, k + 1), e, cc);
    lemma_phase_next(t, parts, n, d0, c0, k, e, cc, e2, c2);
    lemma_children_phase(t, parts, n, d0, c0, k + 1, e2, c2);
}

/// The state once the root named `name` is created and cached.
pub open spec fn root_state(name: Seq<char>) -> (DocModel, Map<Seq<char>, usize>) {
    (empty_doc().with_root(name), Map::<Seq<char>, usize>::empty().insert(seq!['/'] + name, 0usize))
}

/// Creating the root before the first lookup changes nothing: the lookup would create
/// it just so.
proof fn lemma_lookup_root_precreate(parts: Seq<PathPartModel>)
    requires
        steps_ok(parts),
    ensures
        lookup_spec(empty_doc(), Map::empty(), path_key(parts, parts.len() - 1)) == lookup_spec(
            root_state(parts[0].name).0,
            root_state(parts[0].name).1,
            path_key(parts, parts.len() - 1),
        ),
{
    let big_m = parts.len() - 1;
    let q = path_key(parts, big_m);
    let (e1, c1) = root_state(parts[0].name);
    lemma_xpath_of_path_key(parts, big_m);
    assert(parts.take(big_m + 1) =~= parts);
    assert(path_key(parts, 0) == seq!['/'] + parts[0].name);
    assert(e1.root == Some(0usize));
    assert(empty_doc().with_root(parts[0].name) == e1);
    assert(Map::<Seq<char>, usize>::empty().insert(path_key(parts, 0), 0usize) == c1);
    if big_m > 0 {
        lemma_path_key_grows(parts, 0, big_m);
        assert(!c1.contains_key(q));
        lemma_insert_same(c1, path_key(parts, 0));
    }
}

/// Processing the lines of the root's tree from the empty state or from the state with
/// the root created ends the same.
proof fn lemma_block_root_precreate(y: ATree, parts: Seq<PathPartModel>, name: Seq<char>)
    requires
        steps_ok(parts),
        parts[0].name == name,
        tree_ok(y),
        tree_lines(y, path_key(parts, parts.len() - 1)).len() > 0,
    ensures
        process(tree_lines(y, path_key(parts, parts.len() - 1)), empty_doc(), Map::empty()) == process(
            tree_lines(y, path_key(parts, parts.len() - 1)),
            root_state(name).0,
            root_state(name).1,
        ),
    decreases y, 1nat,
{
    let p = path_key(parts, parts.len() - 1);
    let lines = tree_lines(y, p);
    let (d, c) = (empty_doc(), Map::<Seq<char>, usize>::empty());
    let (d2, c2) = root_state(name);
    lemma_lookup_root_precreate(parts);
    lemma_path_key_no_space(parts, parts.len() - 1);
    assert(lines =~= seq![lines[0]] + lines.skip(1));
    lemma_process_concat(seq![lines[0]], lines.skip(1), d, c);
    lemma_process_concat(seq![lines[0]], lines.skip(1), d2, c2);
    let one = seq![lines[0]];
    assert(one.skip(1) =~= Seq::<Seq<char>>::empty());
    if y.attrs.len() > 0 {
        let a = y.attrs[0];
        assert(attr_name_ok(a.0));
        assert(lines[0] == attribute_lines(p, y.attrs)[0]);
        lemma_apply_attr_line(d, c, p, a.0, a.1);
        lemma_apply_attr_line(d2, c2, p, a.0, a.1);
        assert(process(one, d, c) == process(one, d2, c2));
    } else if y.text is Some {
        let v = y.text->0;
        assert(lines[0] == grex_line(p + seq!['/', 't', 'e', 'x', 't', '(', ')'], v));
        lemma_apply_text_line(d, c, p, v);
        lemma_apply_text_line(d2, c2, p, v);
        assert(process(one, d, c) == process(one, d2, c2));
    } else {
        assert(lines == subtree_lines(y, p, 0));
        lemma_forest_root_precreate(y, parts, name, 0);
    }
}

/// The same for the lines of the children of `y` from child `k` on.
proof fn lemma_forest_root_precreate(y: ATree, parts: Seq<PathPartModel>, name: Seq<char>, k: int)
    requires
        steps_ok(parts),
        parts[0].name == name,
        tree_ok(y),
        0 <= k,
        subtree_lines(y, path_key(parts, parts.len() - 1), k).len() > 0,
    ensures
        process(subtree_lines(y, path_key(parts, parts.len() - 1), k), empty_doc(), Map::empty()) == process(
            subtree_lines(y, path_key(parts, parts.len() - 1), k),
            root_state(name).0,
            root_state(name).1,
        ),
    decreases y, 0nat, y.children.len() - k,
{
    let p = path_key(parts, parts.len() - 1);
    let (d, c) = (empty_doc(), Map::<Seq<char>, usize>::empty());
    let (d2, c2) = root_state(name);
    assert(k < y.children.len());
    assert(decreases_to!(y => y.children));
    let ch = y.children[k];
    let pc = node_path(Some(p), ch.name, tree_index(y.children, k));
    assert(subtree_lines(y, p, k) == tree_lines(ch, pc) + subtree_lines(y, p, k + 1));
    lemma_lines_len(ch, seq![], pc);
    if shows(ch) {
        let q = parts.push(child_part(y, k));
        lemma_child_steps(y, parts, k);
        assert(path_key(q, q.len() - 1) == pc);
        assert(q[0] == parts[0]);
        lemma_block_root_precreate(ch, q, name);
        lemma_process_concat(tree_lines(ch, pc), subtree_lines(y, p, k + 1), d, c);
        lemma_process_concat(tree_lines(ch, pc), subtree_lines(y, p, k + 1), d2, c2);
    } else {
        assert(subtree_lines(y, p, k) =~= subtree_lines(y, p, k + 1));
        lemma_forest_root_precreate(y, parts, name, k + 1);
    }
}

/// Whether the grex lines of a document rebuild a document with the same lines: its
/// root has a name if it shows lines (a path `/` names no element), its abstract tree
/// meets `tree_ok`, and the rebuilt document has room for its nodes.
pub open spec fn rebuildable(d: DocModel) -> bool {
    &&& d.wf()
    &&& (d.root matches Some(r) ==> {
        &&& (document_lines(d).len() > 0 ==> d.element(r as int).name.len() > 0)
        &&& tree_ok(abstract_tree(d, r as int))
        &&& tree_size(rebuilt(abstract_tree(d, r as int))) < usize::MAX
    })
}

/// Rebuilding a document from its grex lines, then flattening the result, gives the
/// same lines: the lines determine everything that grex shows of a document.  The
/// rebuilt document is empty when there are no lines; otherwise its root comes first
/// and holds the rebuild of the original root's abstract tree (see `rebuilt`).
pub proof fn lemma_grex_ungrex_roundtrip(d: DocModel)
    requires
        rebuildable(d),
    ensures
        run_lines(document_lines(d), 0, empty_doc(), Map::empty()) matches OutcomeModel::Built(d2) && d2.wf()
            && document_lines(d2) == document_lines(d) && (document_lines(d).len() == 0 ==> d2 == empty_doc()) && (
        document_lines(d).len() > 0 ==> d.root is Some && d2.root == Some(0usize) && abstract_tree(d2, 0)
            == rebuilt(abstract_tree(d, d.root->0 as int))),
{
    let lines = document_lines(d);
    let e0 = empty_doc();
    let c0 = Map::<Seq<char>, usize>::empty();
    assert(lines.skip(0) =~= lines);
    match d.root {
        None => {
            assert(process(lines, e0, c0) == Some((e0, c0)));
            lemma_process_run(lines, 0, e0, c0);
            assert(e0.wf());
            assert(document_lines(e0) == Seq::<Seq<char>>::empty());
        },
        Some(r) => {
            let ri = r as int;
            let t = abstract_tree(d, ri);
            let name = d.element(ri).name;
            let parts = seq![PathPartModel { name, index: None }];
            let p = path_key(parts, 0);
            assert(p == node_path(None, name, None));
            lemma_element_lines_abstract(d, ri, p);
            assert(lines == tree_lines(t, p));
            assert(tree_ok(t));
            assert(t.name == name);
            if lines.len() == 0 {
                assert(process(lines, e0, c0) == Some((e0, c0)));
                lemma_process_run(lines, 0, e0, c0);
                assert(document_lines(e0) == Seq::<Seq<char>>::empty());
            } else {
                assert(steps_ok(parts));
                lemma_block_root_precreate(t, parts, name);
                let (e1, c1) = root_state(name);
                assert(e1.nodes =~= seq![bare_element(name)]);
                assert(e1.wf());
                assert(block_ready(t, parts, e1, c1, 0usize)) by {
                    assert(c1.contains_key(path_key(parts, 0)));
                    assert(none_below(c1, p)) by {
                        assert forall|k: Seq<char>| #[trigger] c1.contains_key(k) implies !below(k, p) by {}
                    }
                    assert(cache_ok(e1, c1));
                    assert(e1.element(0) == (ElementModel { name: t.name, attributes: seq![], children: seq![] }));
                }
                lemma_block(t, parts, e1, c1, 0usize);
                let (d2, c2) = process(lines, e1, c1)->0;
                assert(block_done(t, p, e1, c1, 0usize, d2, c2));
                lemma_process_run(lines, 0, e0, c0);
                assert(d2.root == Some(0usize));
                lemma_element_lines_abstract(d2, 0, node_path(None, d2.element(0).name, None));
                assert(abstract_tree(d2, 0).name == d2.element(0).name);
                lemma_rebuilt_lines(t, p);
                assert(document_lines(d2) == tree_lines(t, p));
            }
        },
    }
}

/// Whether every element below the top of `t` shows at least one line.
pub open spec fn all_shown(t: ATree) -> bool
    decreases t,
{
    forall|k: int| 0 <= k < t.children.len() ==> shows(#[trigger] t.children[k]) && all_shown(t.children[k])
}

/// A tree whose every element below the top shows a line is its own rebuild.
pub proof fn lemma_rebuilt_same(t: ATree)
    requires
        all_shown(t),
    ensures
        rebuilt(t) == t,
    decreases t, 1nat,
{
    let len = t.children.len() as int;
    lemma_rebuilt_children_same(t, len);
    assert(t.children.take(len) =~= t.children);
    assert(rebuilt(t) =~= t);
}

proof fn lemma_rebuilt_children_same(t: ATree, k: int)
    requires
        all_shown(t),
        0 <= k <= t.children.len(),
    ensures
        rebuilt_children(t, k) == t.children.take(k),
        forall|name: Seq<char>| #[trigger] placed(t.children, name, k) == count_trees(t.children, name, k),
    decreases t, 0nat, k,
{
    if k == 0 {
        assert(t.children.take(0) =~= Seq::<ATree>::empty());
    } else {
        assert(decreases_to!(t => t.children));
        lemma_rebuilt_children_same(t, k - 1);
        let x = t.children[k - 1];
        assert(shows(x) && all_shown(x));
        assert(placed(t.children, x.name, k - 1) == count_trees(t.children, x.name, k - 1));
        assert(gap(t, k - 1) == 0);
        lemma_rebuilt_same(x);
        assert(placeholders(x.name, 0) =~= Seq::<ATree>::empty());
        assert(rebuilt_children(t, k) =~= t.children.take(k));
        assert forall|name: Seq<char>| #[trigger] placed(t.children, name, k) == count_trees(t.children, name, k) by {
            assert(placed(t.children, name, k - 1) == count_trees(t.children, name, k - 1));
        }
    }
}

/// When every element below the root shows a line, rebuilding a document from its
/// grex lines gives back its abstract tree itself: the same names, attributes, shown
/// text and element children, in the same order.
pub proof fn lemma_grex_ungrex_same_tree(d: DocModel)
    requires
        rebuildable(d),
        d.root is Some,
        all_shown(abstract_tree(d, d.root->0 as int)),
        document_lines(d).len() > 0,
    ensures
        run_lines(document_lines(d), 0, empty_doc(), Map::empty()) matches OutcomeModel::Built(d2) && d2.wf()
            && d2.root == Some(0usize) && abstract_tree(d2, 0) == abstract_tree(d, d.root->0 as int),
{
    lemma_grex_ungrex_roundtrip(d);
    lemma_rebuilt_same(abstract_tree(d, d.root->0 as int));
}

/// The lines of a text that is empty or ends with a line break, followed by more text,
/// are the lines of the one followed by those of the other.
proof fn lemma_lines_of_concat(a: Seq<char>, b: Seq<char>)
    requires
        a.len() == 0 || a.last() == '\n',
    ensures
        lines_of(a + b) == lines_of(a) + lines_of(b),
    decreases a.len(),
{
    if a.len() == 0 {
        assert(a + b =~= b);
        assert(lines_of(a) + lines_of(b) =~= lines_of(b));
    } else {
        lemma_first_index_from_concat(a, b, '\n', 0);
        lemma_first_index_from_bounds(a, '\n', 0);
        assert(a[a.len() - 1] == '\n');
        let i = first_index(a, '\n')->0;
        let rest = a.skip(i + 1);
        assert((a + b).take(i) =~= a.take(i));
        assert((a + b).skip(i + 1) =~= rest + b);
        if rest.len() > 0 {
            assert(rest.last() == a.last());
        }
        lemma_lines_of_concat(rest, b);
        assert(lines_of(a + b) =~= lines_of(a) + lines_of(b));
    }
}

/// Running lines `k..m` that apply without failure leaves the run at line `m` with the
/// document and cache they built.
proof fn lemma_run_through(lines: Seq<Seq<char>>, k: int, m: int, d: DocModel, c: Map<Seq<char>, usize>)
    requires
        0 <= k <= m <= lines.len(),
        process(lines.subrange(k, m), d, c) is Some,
    ensures
        run_lines(lines, k, d, c) == run_lines(
            lines,
            m,
            (process(lines.subrange(k, m), d, c)->0).0,
            (process(lines.subrange(k, m), d, c)->0).1,
        ),
    decreases m - k,
{
    let s = lines.subrange(k, m);
    if k < m {
        assert(s[0] == lines[k]);
        assert(s.skip(1) =~= lines.subrange(k + 1, m));
        if is_blank(lines[k]) {
            lemma_run_through(lines, k + 1, m, d, c);
        } else {
            let (x, v) = grex_line_parts(lines[k])->0;
            let (d2, c2) = apply_spec(d, c, x, v)->0->Ok_0;
            lemma_run_through(lines, k + 1, m, d2, c2);
        }
    } else {
        assert(s =~= Seq::<Seq<char>>::empty());
    }
}

/// Merging by concatenation: the grex text `a` followed by `b`, where `a` is empty or
/// ends with a line break, is read as the lines of `a` and then those of `b`; when the
/// lines of `a` apply without failure, those of `b` act on the document and cache that
/// they left, and when those apply without failure too, the result is the document
/// that they leave.
pub proof fn lemma_merge_by_concatenation(a: Seq<char>, b: Seq<char>)
    requires
        a.len() == 0 || a.last() == '\n',
    ensures
        lines_of(a + b) == lines_of(a) + lines_of(b),
        process(lines_of(a), empty_doc(), Map::empty()) matches Some((d1, c1)) ==> {
            &&& ungrex_spec(a + b) == run_lines(lines_of(a) + lines_of(b), lines_of(a).len() as int, d1, c1)
            &&& process(lines_of(b), d1, c1) matches Some((d2, c2)) ==> ungrex_spec(a + b) == OutcomeModel::Built(d2)
        },
{
    lemma_lines_of_concat(a, b);
    let la = lines_of(a);
    let l = la + lines_of(b);
    let m = la.len() as int;
    if process(la, empty_doc(), Map::empty()) is Some {
        assert(l.subrange(0, m) =~= la);
        lemma_run_through(l, 0, m, empty_doc(), Map::empty());
        let (d1, c1) = process(la, empty_doc(), Map::empty())->0;
        assert(l.skip(m) =~= lines_of(b));
        if process(lines_of(b), d1, c1) is Some {
            lemma_process_run(l, m, d1, c1);
        }
    }
}

/// A failing line is reported with its number: when the lines before line `n` (counted
/// from 1) of a grex text apply without failure, and line `n` is not blank, ungrex fails
/// at line `n` if that line has no ` = `, or with the error that applying it gives.
pub proof fn lemma_failed_line(input: Seq<char>, n: int)
    requires
        1 <= n <= lines_of(input).len(),
        process(lines_of(input).take(n - 1), empty_doc(), Map::empty()) is Some,
        !is_blank(lines_of(input)[n - 1]),
    ensures
        ({
            let (d, c) = process(lines_of(input).take(n - 1), empty_doc(), Map::empty())->0;
            &&& grex_line_parts(lines_of(input)[n - 1]) is None ==> ungrex_spec(input) == OutcomeModel::Failed(
                n,
                UngrexErrorModel::MalformedLine,
            )
            &&& grex_line_parts(lines_of(input)[n - 1]) matches Some((x, v)) ==> (apply_spec(d, c, x, v) matches Some(
                Err(e),
            ) ==> ungrex_spec(input) == OutcomeModel::Failed(n, e))
        }),
{
    let l = lines_of(input);
    assert(l.subrange(0, n - 1) =~= l.take(n - 1));
    lemma_run_through(l, 0, n - 1, empty_doc(), Map::empty());
}

/// The same, through text: the grex text of a document (each line followed by a
/// newline), read back by ungrex, rebuilds a document whose grex lines are the same,
/// provided each line can stand in a text (no newline in it, no carriage return at its
/// end).
pub proof fn lemma_grex_text_roundtrip(d: DocModel)
    requires
        rebuildable(d),
        forall|k: int| 0 <= k < document_lines(d).len() ==> is_plain_line(#[trigger] document_lines(d)[k]),
    ensures
        ungrex_spec(joined(document_lines(d))) matches OutcomeModel::Built(d2) && d2.wf() && document_lines(d2)
            == document_lines(d),
{
    lemma_lines_of_joined(document_lines(d));
    lemma_grex_ungrex_roundtrip(d);
}

} // verus!

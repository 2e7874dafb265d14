//! Which element a path names in a document, and why the path cache of `ungrex` keeps
//! to it: every cached path names its node, before and after each lookup.
use vstd::prelude::*;
use crate::document::{
    DocModel, NodeModel, attr_position_from, bare_element, lemma_set_attribute_wf, lemma_set_text_wf, set_attr,
};
use crate::grex::text_of;
use crate::roundtrip::{
    lemma_merge_by_concatenation, lemma_process_run, process,
    lemma_xpath_of_written_path, lemma_xpath_steps_are_pieces, step_name_ok, step_text, written_path,
};
use crate::text::{first_index, is_blank, lemma_first_index_from_bounds};
use crate::line::{grex_line_parts, lines_of};
use crate::ungrex::{
    add_children, apply_spec, cache_ok, child_step, ends_with_text, last_attr_marker, lemma_lookup_element, lemma_add_children, lemma_cache_ok_grows, lemma_child_step_appends,
    lemma_matching_append, lemma_matching_elements, lookup_spec, matching_children,
    path_key, steps_weight, walk, OutcomeModel, empty_doc, ungrex_spec,
};
use crate::xpath::{PathPartModel, XPathErrorModel, split_at_char, xpath_spec};

verus! {

/// The child of `cur` that step `p` names: with an index `i`, the `i`-th child of its
/// name; without one, the first; `None` when there is no such child.
pub open spec fn step_to(d: DocModel, cur: usize, p: PathPartModel) -> Option<usize> {
    let m = matching_children(d, d.element(cur as int).children, p.name);
    match p.index {
        Some(i) => if 1 <= i <= m.len() {
            Some(m[i - 1])
        } else {
            None
        },
        None => if m.len() > 0 {
            Some(m[0])
        } else {
            None
        },
    }
}

/// The element reached from `cur` by the steps from `j` on.
pub open spec fn follow(d: DocModel, cur: usize, parts: Seq<PathPartModel>, j: int) -> Option<usize>
    decreases parts.len() - j,
{
    if j < 0 || j >= parts.len() {
        Some(cur)
    } else {
        match step_to(d, cur, parts[j]) {
            Some(x) => follow(d, x, parts, j + 1),
            None => None,
        }
    }
}

/// The element that steps name in a document: from its root (whatever the first step
/// says), each later step in turn.
pub open spec fn resolve(d: DocModel, parts: Seq<PathPartModel>) -> Option<usize> {
    match d.root {
        Some(r) => follow(d, r, parts, 1),
        None => None,
    }
}

/// Whether the path `key` reads as steps that name node `n`.
pub open spec fn names_path(d: DocModel, key: Seq<char>, n: usize) -> bool {
    xpath_spec(key) matches Some(Ok(ps)) && resolve(d, ps) == Some(n)
}

/// Whether every cached path names the node it is cached with.
pub open spec fn cache_consistent(d: DocModel, c: Map<Seq<char>, usize>) -> bool {
    forall|k: Seq<char>| #[trigger] c.contains_key(k) ==> names_path(d, k, c[k])
}

/// The steps with the root's index dropped, as a cache key writes them.
pub open spec fn key_steps(parts: Seq<PathPartModel>) -> Seq<PathPartModel> {
    parts.update(0, PathPartModel { name: parts[0].name, index: None })
}

proof fn lemma_split_pieces(s: Seq<char>, c: char)
    ensures
        forall|i: int, k: int|
            0 <= i < split_at_char(s, c).len() && 0 <= k < split_at_char(s, c)[i].len() ==> #[trigger] split_at_char(
                s,
                c,
            )[i][k] != c,
    decreases s.len(),
{
    lemma_first_index_from_bounds(s, c, 0);
    match first_index(s, c) {
        None => {},
        Some(j) => {
            lemma_split_pieces(s.skip(j + 1), c);
            let sp = split_at_char(s, c);
            let rest = split_at_char(s.skip(j + 1), c);
            assert(sp == seq![s.take(j)] + rest);
            assert forall|i: int, k: int| 0 <= i < sp.len() && 0 <= k < sp[i].len() implies #[trigger] sp[i][k]
                != c by {
                if i > 0 {
                    assert(sp[i] == rest[i - 1]);
                }
            }
        },
    }
}

/// The names of steps read from a path hold no `/` and no `[`.
pub proof fn lemma_xpath_names(path: Seq<char>, parts: Seq<PathPartModel>)
    requires
        xpath_spec(path) == Some(Ok::<Seq<PathPartModel>, XPathErrorModel>(parts)),
    ensures
        forall|j: int| 0 <= j < parts.len() ==> step_name_ok(#[trigger] parts[j].name),
{
    if path.len() >= 2 && path[0] == '/' {
        lemma_xpath_steps_are_pieces(path, parts);
        let cs = split_at_char(path.skip(1), '/');
        lemma_split_pieces(path.skip(1), '/');
        assert forall|j: int| 0 <= j < parts.len() implies step_name_ok(#[trigger] parts[j].name) by {
            let piece = cs[j];
            lemma_first_index_from_bounds(piece, '[', 0);
            assert forall|i: int| 0 <= i < parts[j].name.len() implies #[trigger] parts[j].name[i] != '/'
                && parts[j].name[i] != '[' by {
                assert(cs[j][i] != '/');
            }
        }
    } else {
        assert(parts.len() == 0);
    }
}

/// The cache key of steps `0..=j` is the written path of those steps, root index dropped.
proof fn lemma_path_key_written(parts: Seq<PathPartModel>, j: int)
    requires
        0 <= j < parts.len(),
    ensures
        path_key(parts, j) == written_path(key_steps(parts.take(j + 1))),
    decreases j,
{
    let ks = key_steps(parts.take(j + 1));
    if j == 0 {
        assert(ks.drop_last() =~= Seq::<PathPartModel>::empty());
        assert(written_path(ks.drop_last()) =~= Seq::<char>::empty());
        assert(step_text(ks.last()) =~= parts[0].name);
        assert(path_key(parts, 0) =~= written_path(ks));
    } else {
        lemma_path_key_written(parts, j - 1);
        assert(ks.drop_last() =~= key_steps(parts.take(j)));
        assert(ks.last() == parts[j]);
        assert(path_key(parts, j) =~= written_path(ks));
    }
}

/// Following depends only on the steps from `j` on.
proof fn lemma_follow_tail(d: DocModel, cur: usize, a: Seq<PathPartModel>, b: Seq<PathPartModel>, j: int)
    requires
        1 <= j,
        a.len() == b.len(),
        forall|k: int| j <= k < a.len() ==> a[k] == b[k],
    ensures
        follow(d, cur, a, j) == follow(d, cur, b, j),
    decreases a.len() - j,
{
    if j < a.len() {
        match step_to(d, cur, a[j]) {
            Some(x) => lemma_follow_tail(d, x, a, b, j + 1),
            None => {},
        }
    }
}

/// A cache key of steps read from a path names what those steps name.
proof fn lemma_key_resolves(d: DocModel, parts: Seq<PathPartModel>, j: int)
    requires
        0 <= j < parts.len(),
        forall|k: int| 0 <= k < parts.len() ==> step_name_ok(#[trigger] parts[k].name),
    ensures
        xpath_spec(path_key(parts, j)) matches Some(Ok(qs)) && resolve(d, qs) == resolve(d, parts.take(j + 1)),
{
    lemma_path_key_written(parts, j);
    let ks = key_steps(parts.take(j + 1));
    assert forall|k: int| 0 <= k < ks.len() implies step_name_ok(#[trigger] ks[k].name) by {
        assert(ks[k].name == parts[k].name);
    }
    if j == 0 && parts[0].name.len() == 0 {
        assert(ks.drop_last() =~= Seq::<PathPartModel>::empty());
        assert(written_path(ks.drop_last()) =~= Seq::<char>::empty());
        assert(step_text(ks.last()) =~= Seq::<char>::empty());
        assert(written_path(ks) =~= seq!['/']);
        assert(xpath_spec(seq!['/']) == Some(Ok::<Seq<PathPartModel>, XPathErrorModel>(seq![])));
    } else {
        lemma_xpath_of_written_path(ks);
        match d.root {
            Some(r) => lemma_follow_tail(d, r, ks, parts.take(j + 1), 1),
            None => {},
        }
    }
}

/// Adding children to an element changes no step that already leads somewhere.
proof fn lemma_step_kept(d: DocModel, parent: int, name: Seq<char>, cnt: nat, cur: usize, p: PathPartModel)
    requires
        d.wf(),
        d.is_element(parent),
        d.is_element(cur as int),
        d.nodes.len() + cnt <= usize::MAX,
        step_to(d, cur, p) is Some,
    ensures
        step_to(add_children(d, parent, name, cnt), cur, p) == step_to(d, cur, p),
        d.is_element(step_to(d, cur, p)->0 as int),
{
    let d2 = add_children(d, parent, name, cnt);
    lemma_add_children(d, parent, name, cnt);
    let ch = d.element(cur as int).children;
    lemma_matching_elements(d, ch, p.name);
    assert forall|j: int| 0 <= j < ch.len() implies (d2.is_element(#[trigger] ch[j] as int) == d.is_element(
        ch[j] as int)) && (d.is_element(ch[j] as int) ==> d2.element(ch[j] as int).name == d.element(
        ch[j] as int,
    ).name) by {
        assert(cur < d.element(cur as int).children[j] < d.nodes.len());
        if ch[j] as int != parent {
            assert(d2.nodes[ch[j] as int] == d.nodes[ch[j] as int]);
        }
    }
    lemma_matching_same_names(d, d2, ch, p.name);
    let m = matching_children(d, ch, p.name);
    if cur as int == parent {
        let added = Seq::new(cnt, |j: int| (d.nodes.len() + j) as usize);
        assert(d2.element(parent).children == ch + added);
        if p.name == name {
            lemma_matching_append(d2, ch, p.name, d.nodes.len() as int, cnt);
            let m2 = matching_children(d2, d2.element(parent).children, p.name);
            assert(m2 == m + added);
            assert(forall|j: int| 0 <= j < m.len() ==> m2[j] == m[j]);
        } else {
            lemma_matching_skip(d2, ch, name, p.name, d.nodes.len() as int, cnt);
        }
    } else {
        assert(d2.nodes[cur as int] == d.nodes[cur as int]);
    }
}

/// New elements of another name appended to the children add no matching child.
proof fn lemma_matching_skip(d: DocModel, ch: Seq<usize>, name: Seq<char>, other: Seq<char>, base: int, k: nat)
    requires
        0 <= base,
        base + k <= d.nodes.len(),
        base + k <= usize::MAX + 1,
        name != other,
        forall|j: int| base <= j < base + k ==> #[trigger] d.nodes[j] == bare_element(name),
    ensures
        matching_children(d, ch + Seq::new(k, |j: int| (base + j) as usize), other) == matching_children(d, ch, other),
    decreases k,
{
    let s = ch + Seq::new(k, |j: int| (base + j) as usize);
    if k == 0 {
        assert(s =~= ch);
    } else {
        let k1 = (k - 1) as nat;
        lemma_matching_skip(d, ch, name, other, base, k1);
        assert(s.drop_last() =~= ch + Seq::new(k1, |j: int| (base + j) as usize));
        assert(s.last() as int == base + k1);
        assert(d.nodes[base + k1] == bare_element(name));
    }
}

/// Matching children depend only on which children are elements, and on their names.
proof fn lemma_matching_same_names(d: DocModel, d2: DocModel, ch: Seq<usize>, name: Seq<char>)
    requires
        forall|j: int|
            0 <= j < ch.len() ==> (d2.is_element(#[trigger] ch[j] as int) == d.is_element(ch[j] as int)) && (
            d.is_element(ch[j] as int) ==> d2.element(ch[j] as int).name == d.element(ch[j] as int).name),
    ensures
        matching_children(d2, ch, name) == matching_children(d, ch, name),
    decreases ch.len(),
{
    if ch.len() > 0 {
        assert forall|j: int| 0 <= j < ch.drop_last().len() implies (d2.is_element(
            #[trigger] ch.drop_last()[j] as int,
        ) == d.is_element(ch.drop_last()[j] as int)) && (d.is_element(ch.drop_last()[j] as int) ==> d2.element(
            ch.drop_last()[j] as int,
        ).name == d.element(ch.drop_last()[j] as int).name) by {
            assert(ch.drop_last()[j] == ch[j]);
        }
        lemma_matching_same_names(d, d2, ch.drop_last(), name);
        assert(ch.last() == ch[ch.len() - 1]);
    }
}

/// Adding children to an element changes no path that already leads somewhere.
proof fn lemma_follow_kept(
    d: DocModel,
    parent: int,
    name: Seq<char>,
    cnt: nat,
    cur: usize,
    parts: Seq<PathPartModel>,
    j: int,
)
    requires
        0 <= j,
        d.wf(),
        d.is_element(parent),
        d.is_element(cur as int),
        d.nodes.len() + cnt <= usize::MAX,
        follow(d, cur, parts, j) is Some,
    ensures
        follow(add_children(d, parent, name, cnt), cur, parts, j) == follow(d, cur, parts, j),
    decreases parts.len() - j,
{
    if j < parts.len() {
        lemma_step_kept(d, parent, name, cnt, cur, parts[j]);
        let x = step_to(d, cur, parts[j])->0;
        lemma_follow_kept(d, parent, name, cnt, x, parts, j + 1);
    }
}

/// Following one more step goes on from where the others lead.
proof fn lemma_follow_push(d: DocModel, cur: usize, ps: Seq<PathPartModel>, j: int, p: PathPartModel)
    requires
        0 <= j <= ps.len(),
    ensures
        follow(d, cur, ps.push(p), j) == match follow(d, cur, ps, j) {
            Some(x) => step_to(d, x, p),
            None => None,
        },
    decreases ps.len() - j,
{
    let q = ps.push(p);
    if j == ps.len() {
        assert(q[j] == p);
        match step_to(d, cur, p) {
            Some(x) => {
                assert(follow(d, x, q, j + 1) == Some(x));
            },
            None => {},
        }
    } else {
        assert(q[j] == ps[j]);
        match step_to(d, cur, ps[j]) {
            Some(x) => lemma_follow_push(d, x, ps, j + 1, p),
            None => {},
        }
    }
}

/// Adding children to an element keeps every cached path naming its node.
proof fn lemma_consistent_kept(d: DocModel, c: Map<Seq<char>, usize>, parent: int, name: Seq<char>, cnt: nat)
    requires
        d.wf(),
        d.is_element(parent),
        d.nodes.len() + cnt <= usize::MAX,
        cache_consistent(d, c),
    ensures
        cache_consistent(add_children(d, parent, name, cnt), c),
{
    let d2 = add_children(d, parent, name, cnt);
    lemma_add_children(d, parent, name, cnt);
    assert forall|k: Seq<char>| #[trigger] c.contains_key(k) implies names_path(d2, k, c[k]) by {
        assert(names_path(d, k, c[k]));
        let qs = xpath_spec(k)->0->Ok_0;
        let r = d.root->0;
        lemma_follow_kept(d, parent, name, cnt, r, qs, 1);
    }
}

/// The walk of a lookup keeps every cached path naming its node, and ends at the node
/// that the steps name.
proof fn lemma_walk_names(d: DocModel, c: Map<Seq<char>, usize>, parts: Seq<PathPartModel>, j: int, cur: usize)
    requires
        1 <= j <= parts.len(),
        d.wf(),
        cache_ok(d, c),
        cache_consistent(d, c),
        d.is_element(cur as int),
        resolve(d, parts.take(j)) == Some(cur),
        forall|k: int| 0 <= k < parts.len() ==> step_name_ok(#[trigger] parts[k].name),
        d.nodes.len() + steps_weight(parts, j) <= usize::MAX,
    ensures
        walk(d, c, parts, j, cur) matches Some((d2, c2, n)) ==> cache_consistent(d2, c2) && resolve(d2, parts)
            == Some(n),
    decreases parts.len() - j,
{
    if j == parts.len() {
        assert(parts.take(j) =~= parts);
    } else {
        let key = path_key(parts, j);
        let tj = parts.take(j);
        let r = d.root->0;
        assert(parts.take(j + 1) =~= tj.push(parts[j]));
        lemma_follow_push(d, r, tj, 1, parts[j]);
        lemma_key_resolves(d, parts, j);
        if c.contains_key(key) {
            assert(names_path(d, key, c[key]));
            lemma_walk_names(d, c, parts, j + 1, c[key]);
        } else if parts[j].index != Some(0usize) {
            let name = parts[j].name;
            let m = matching_children(d, d.element(cur as int).children, name);
            let (d2, n) = child_step(d, cur as int, name, parts[j].index);
            let cnt: nat = match parts[j].index {
                Some(i) => if i <= m.len() { 0 } else { (i - m.len()) as nat },
                None => if m.len() > 0 { 0 } else { 1 },
            };
            if cnt > 0 {
                match parts[j].index {
                    Some(i) => {
                        lemma_child_step_appends(d, cur as int, name, i);
                    },
                    None => {
                        lemma_child_step_appends(d, cur as int, name, 1usize);
                        assert(add_children(d, cur as int, name, 1) == add_children(d, cur as int, name, 0).add_child(
                            cur as int,
                            bare_element(name),
                        ));
                    },
                }
                assert(d2 == add_children(d, cur as int, name, cnt));
                lemma_add_children(d, cur as int, name, cnt);
                lemma_cache_ok_grows(d2, d, c);
                lemma_consistent_kept(d, c, cur as int, name, cnt);
                lemma_follow_kept(d, cur as int, name, cnt, r, tj, 1);
            } else {
                assert(d2 == d);
            }
            assert(step_to(d2, cur, parts[j]) == Some(n));
            lemma_follow_push(d2, r, tj, 1, parts[j]);
            lemma_key_resolves(d2, parts, j);
            let c2 = c.insert(key, n);
            lemma_matching_elements(d2, d2.element(cur as int).children, name);
            assert(d2.is_element(n as int));
            assert(cache_consistent(d2, c2)) by {
                assert forall|k: Seq<char>| #[trigger] c2.contains_key(k) implies names_path(d2, k, c2[k]) by {
                    if k != key {
                        assert(c.contains_key(k));
                    }
                }
            }
            lemma_walk_names(d2, c2, parts, j + 1, n);
        }
    }
}

/// A lookup keeps every cached path naming its node, and the node it gives is the one
/// its path names in the document it leaves: from the root, for each later step the
/// child of that name with the step's index, or the first one; provided the document
/// has room for the nodes the lookup may create.
pub proof fn lemma_lookup_names_path(d: DocModel, c: Map<Seq<char>, usize>, path: Seq<char>)
    requires
        d.wf(),
        cache_ok(d, c),
        cache_consistent(d, c),
        xpath_spec(path) matches Some(Ok(ps)) ==> d.nodes.len() + 1 + steps_weight(ps, 1) <= usize::MAX,
    ensures
        lookup_spec(d, c, path) matches Some(Ok((d2, c2, n))) ==> cache_consistent(d2, c2) && names_path(
            d2,
            path,
            n,
        ),
{
    if c.contains_key(path) {
        assert(names_path(d, path, c[path]));
    } else {
        match xpath_spec(path) {
            Some(Ok(parts)) => {
                if parts.len() > 0 {
                    lemma_xpath_names(path, parts);
                    let d1 = if d.root is None { d.with_root(parts[0].name) } else { d };
                    let r = d1.root->0;
                    if d.root is None {
                        assert forall|k: Seq<char>| !c.contains_key(k) by {
                            if c.contains_key(k) {
                                assert(names_path(d, k, c[k]));
                            }
                        }
                        assert(d1.is_element(r as int));
                        assert forall|i: int, k: int|
                            #![trigger d1.element(i).children[k]]
                            d1.is_element(i) && 0 <= k < d1.element(i).children.len() implies i
                                < d1.element(i).children[k] < d1.nodes.len() by {
                            if i < d.nodes.len() {
                                assert(d1.nodes[i] == d.nodes[i]);
                                assert(d.element(i).children[k] == d1.element(i).children[k]);
                            } else {
                                assert(d1.nodes[i] == bare_element(parts[0].name));
                            }
                        }
                    }
                    assert(cache_ok(d1, c)) by {
                        assert forall|k: Seq<char>| #[trigger] c.contains_key(k) implies d1.is_element(c[k] as int) by {
                            if d.root is None {
                            } else {
                                assert(d1 == d);
                            }
                        }
                    }
                    assert(cache_consistent(d1, c)) by {
                        if d.root is Some {
                            assert(d1 == d);
                        }
                    }
                    let key0 = path_key(parts, 0);
                    let c1 = c.insert(key0, r);
                    lemma_key_resolves(d1, parts, 0);
                    assert(resolve(d1, parts.take(1)) == Some(r));
                    assert(cache_consistent(d1, c1)) by {
                        assert forall|k: Seq<char>| #[trigger] c1.contains_key(k) implies names_path(d1, k, c1[k]) by {
                            if k != key0 {
                                assert(c.contains_key(k));
                            }
                        }
                    }
                    lemma_walk_names(d1, c1, parts, 1, r);
                    match walk(d1, c1, parts, 1, r) {
                        Some((d3, c3, n3)) => {
                            assert(names_path(d3, path, n3));
                        },
                        None => {},
                    }
                }
            },
            _ => {},
        }
    }
}

/// Matching children are among the children.
proof fn lemma_matching_in(d: DocModel, ch: Seq<usize>, name: Seq<char>)
    ensures
        forall|k: int|
            0 <= k < matching_children(d, ch, name).len() ==> exists|i: int|
                0 <= i < ch.len() && ch[i] == #[trigger] matching_children(d, ch, name)[k],
    decreases ch.len(),
{
    if ch.len() > 0 {
        lemma_matching_in(d, ch.drop_last(), name);
        let a = matching_children(d, ch.drop_last(), name);
        let m = matching_children(d, ch, name);
        assert forall|k: int| 0 <= k < m.len() implies exists|i: int| 0 <= i < ch.len() && ch[i] == #[trigger] m[k] by {
            if k < a.len() {
                assert(m[k] == a[k]);
                let i = choose|i: int| 0 <= i < ch.drop_last().len() && ch.drop_last()[i] == a[k];
                assert(ch[i] == ch.drop_last()[i]);
            } else {
                assert(m[k] == ch[ch.len() - 1]);
            }
        }
    }
}

/// A step goes to an element child, which comes after its parent.
proof fn lemma_step_after(d: DocModel, cur: usize, p: PathPartModel)
    requires
        d.wf(),
        d.is_element(cur as int),
        step_to(d, cur, p) is Some,
    ensures
        d.is_element(step_to(d, cur, p)->0 as int),
        step_to(d, cur, p)->0 > cur,
        d.element(step_to(d, cur, p)->0 as int).name == p.name,
{
    let ch = d.element(cur as int).children;
    let m = matching_children(d, ch, p.name);
    lemma_matching_elements(d, ch, p.name);
    lemma_matching_in(d, ch, p.name);
    let k: int = match p.index {
        Some(i) => i - 1,
        None => 0,
    };
    assert(m[k] == step_to(d, cur, p)->0);
    let i = choose|i: int| 0 <= i < ch.len() && ch[i] == m[k];
    assert(cur < d.element(cur as int).children[i]);
}

/// Whether two documents agree on which nodes are elements, on their names and on
/// their children.
pub open spec fn same_shape(d: DocModel, d2: DocModel) -> bool {
    &&& d.nodes.len() <= d2.nodes.len()
    &&& forall|i: int| 0 <= i < d.nodes.len() ==> (#[trigger] d2.is_element(i) == d.is_element(i))
    &&& forall|i: int| #[trigger] d.is_element(i) ==> d2.element(i).name == d.element(i).name
        && d2.element(i).children == d.element(i).children
    &&& d2.root == d.root
}

proof fn lemma_follow_same_shape(d: DocModel, d2: DocModel, cur: usize, parts: Seq<PathPartModel>, j: int)
    requires
        0 <= j,
        d.wf(),
        d.is_element(cur as int),
        same_shape(d, d2),
        follow(d, cur, parts, j) is Some,
    ensures
        follow(d2, cur, parts, j) == follow(d, cur, parts, j),
    decreases parts.len() - j,
{
    if j < parts.len() {
        let ch = d.element(cur as int).children;
        assert forall|k: int| 0 <= k < ch.len() implies (d2.is_element(#[trigger] ch[k] as int) == d.is_element(
            ch[k] as int)) && (d.is_element(ch[k] as int) ==> d2.element(ch[k] as int).name == d.element(
            ch[k] as int,
        ).name) by {
            assert(cur < d.element(cur as int).children[k] < d.nodes.len());
        }
        lemma_matching_same_names(d, d2, ch, parts[j].name);
        lemma_step_after(d, cur, parts[j]);
        lemma_follow_same_shape(d, d2, step_to(d, cur, parts[j])->0, parts, j + 1);
    }
}

/// The value of the first attribute named `name`, if any.
pub open spec fn attr_value(attrs: Seq<(Seq<char>, Seq<char>)>, name: Seq<char>) -> Option<Seq<char>> {
    match attr_position_from(attrs, name, 0) {
        Some(j) => Some(attrs[j].1),
        None => None,
    }
}

proof fn lemma_position_update(s: Seq<(Seq<char>, Seq<char>)>, a: Seq<char>, v: Seq<char>, i: int, j: int)
    requires
        0 <= i <= j,
        attr_position_from(s, a, i) == Some(j),
    ensures
        attr_position_from(s.update(j, (a, v)), a, i) == Some(j),
    decreases j - i,
{
    lemma_attr_position_bounds(s, a, i);
    if i < j {
        lemma_position_update(s, a, v, i + 1, j);
    }
}

proof fn lemma_position_push(s: Seq<(Seq<char>, Seq<char>)>, a: Seq<char>, v: Seq<char>, i: int)
    requires
        0 <= i <= s.len(),
        attr_position_from(s, a, i) is None,
    ensures
        attr_position_from(s.push((a, v)), a, i) == Some(s.len() as int),
    decreases s.len() - i,
{
    if i < s.len() {
        lemma_position_push(s, a, v, i + 1);
    }
}

/// Setting an attribute makes it read back as the value set.
pub proof fn lemma_set_attr_value(attrs: Seq<(Seq<char>, Seq<char>)>, name: Seq<char>, value: Seq<char>)
    ensures
        attr_value(set_attr(attrs, name, value), name) == Some(value),
{
    match attr_position_from(attrs, name, 0) {
        Some(j) => {
            lemma_attr_position_bounds(attrs, name, 0);
            lemma_position_update(attrs, name, value, 0, j);
        },
        None => {
            lemma_position_push(attrs, name, value, 0);
        },
    }
}

proof fn lemma_attr_position_bounds(s: Seq<(Seq<char>, Seq<char>)>, name: Seq<char>, i: int)
    requires
        0 <= i,
    ensures
        attr_position_from(s, name, i) matches Some(j) ==> i <= j < s.len() && s[j].0 == name,
    decreases s.len() - i,
{
    if i < s.len() {
        lemma_attr_position_bounds(s, name, i + 1);
    }
}

/// The element path of a grex xpath: before `/text()`, or before its last `/@`.
pub open spec fn element_path(x: Seq<char>) -> Seq<char> {
    if ends_with_text(x) {
        x.take(x.len() - 7)
    } else {
        match last_attr_marker(x, x.len() - 2) {
            Some(p) => x.take(p),
            None => x,
        }
    }
}

/// What applying one grex line leaves: every cached path still names its node, and
/// the node found for the line's element path is the one that path names afterwards
/// and holds the value written: as its text for a `/text()` line, or as the attribute
/// named after the last `/@`; provided the document has room for the nodes the lookup
/// may create.
pub proof fn lemma_apply_line_names(d: DocModel, c: Map<Seq<char>, usize>, x: Seq<char>, v: Seq<char>)
    requires
        d.wf(),
        cache_ok(d, c),
        cache_consistent(d, c),
        xpath_spec(element_path(x)) matches Some(Ok(ps)) ==> d.nodes.len() + 2 + steps_weight(ps, 1)
            <= usize::MAX,
    ensures
        apply_spec(d, c, x, v) matches Some(Ok((d2, c2))) ==> lookup_spec(d, c, element_path(x)) matches Some(
            Ok((d1, c1, n)),
        ) && names_path(d2, element_path(x), n) && cache_consistent(d2, c2) && if ends_with_text(x) {
            text_of(d2, d2.element(n as int).children) == v
        } else {
            attr_value(d2.element(n as int).attributes, x.skip(last_attr_marker(x, x.len() - 2)->0 + 2)) == Some(v)
        },
{
    let e = element_path(x);
    lemma_lookup_element(d, c, e);
    lemma_lookup_names_path(d, c, e);
    match apply_spec(d, c, x, v) {
        Some(Ok((d2, c2))) => {
            let (d1, c1, n) = lookup_spec(d, c, e)->0->Ok_0;
            let ps = xpath_spec(e)->0->Ok_0;
            let r = d1.root->0;
            assert(d1.is_element(r as int));
            if ends_with_text(x) {
                assert(d2 == d1.set_text(n as int, v));
                assert(d1.nodes.len() < usize::MAX);
                assert(d2.nodes[d1.nodes.len() as int] == NodeModel::Text(v));
                let ch = d2.element(n as int).children;
                let kept = d1.non_text(d1.element(n as int).children);
                assert(ch == kept.push(d1.nodes.len() as usize));
                assert forall|j: int| 0 <= j < d1.element(n as int).children.len() implies #[trigger] d1.element(
                    n as int,
                ).children[j] < d1.nodes.len() && d2.nodes[d1.element(n as int).children[j] as int]
                    == d1.nodes[d1.element(n as int).children[j] as int] by {
                    assert(n < d1.element(n as int).children[j]);
                }
                lemma_text_of_non_text(d1, d2, d1.element(n as int).children);
                assert(ch.drop_last() =~= kept);
                assert(ch.last() as int == d1.nodes.len());
                assert(text_of(d2, ch) == text_of(d2, ch.drop_last()) + v);
                assert(text_of(d2, ch) =~= v);
                lemma_set_text_same_matching(d1, n as int, v);
                lemma_follow_same_matching(d1, d2, r, ps, 1);
                assert(cache_consistent(d2, c2)) by {
                    assert forall|k: Seq<char>| #[trigger] c2.contains_key(k) implies names_path(d2, k, c2[k]) by {
                        assert(names_path(d1, k, c1[k]));
                        let qs = xpath_spec(k)->0->Ok_0;
                        lemma_follow_same_matching(d1, d2, r, qs, 1);
                    }
                }
            } else {
                let p = last_attr_marker(x, x.len() - 2)->0;
                let a = x.skip(p + 2);
                assert(d2 == d1.set_attribute(n as int, a, v));
                lemma_set_attr_value(d1.element(n as int).attributes, a, v);
                assert(same_shape(d1, d2)) by {
                    assert forall|i: int| 0 <= i < d1.nodes.len() implies (#[trigger] d2.is_element(i)
                        == d1.is_element(i)) by {
                        if i != n {
                            assert(d2.nodes[i] == d1.nodes[i]);
                        }
                    }
                    assert forall|i: int| #[trigger] d1.is_element(i) implies d2.element(i).name == d1.element(
                        i,
                    ).name && d2.element(i).children == d1.element(i).children by {
                        if i != n {
                            assert(d2.nodes[i] == d1.nodes[i]);
                        }
                    }
                }
                lemma_follow_same_shape(d1, d2, r, ps, 1);
                assert(cache_consistent(d2, c2)) by {
                    assert forall|k: Seq<char>| #[trigger] c2.contains_key(k) implies names_path(d2, k, c2[k]) by {
                        assert(names_path(d1, k, c1[k]));
                        let qs = xpath_spec(k)->0->Ok_0;
                        lemma_follow_same_shape(d1, d2, r, qs, 1);
                    }
                }
            }
        },
        _ => {},
    }
}

/// Children that are not text nodes hold no text.
proof fn lemma_text_of_non_text(d: DocModel, d2: DocModel, ch: Seq<usize>)
    requires
        forall|j: int| 0 <= j < ch.len() ==> #[trigger] ch[j] < d.nodes.len() && d2.nodes[ch[j] as int]
            == d.nodes[ch[j] as int],
    ensures
        text_of(d2, d.non_text(ch)) == Seq::<char>::empty(),
    decreases ch.len(),
{
    if ch.len() > 0 {
        assert forall|j: int| 0 <= j < ch.drop_last().len() implies #[trigger] ch.drop_last()[j] < d.nodes.len()
            && d2.nodes[ch.drop_last()[j] as int] == d.nodes[ch.drop_last()[j] as int] by {
            assert(ch.drop_last()[j] == ch[j]);
        }
        lemma_text_of_non_text(d, d2, ch.drop_last());
        let a = d.non_text(ch.drop_last());
        let x = ch.last();
        assert(x == ch[ch.len() - 1]);
        if !(d.nodes[x as int] is Text) {
            let s = a + seq![x];
            assert(s.drop_last() =~= a);
            assert(text_of(d2, s) =~= Seq::<char>::empty());
        } else {
            assert(d.non_text(ch) =~= a);
        }
    }
}

/// Whether `d2` keeps the element nodes of `d`, their names, and for each name the
/// children of that name.
pub open spec fn same_matching(d: DocModel, d2: DocModel) -> bool {
    &&& d2.root == d.root
    &&& forall|i: int, nm: Seq<char>|
        #![trigger matching_children(d, d.element(i).children, nm)]
        d.is_element(i) ==> d2.is_element(i) && d2.element(i).name == d.element(i).name && matching_children(
            d2,
            d2.element(i).children,
            nm,
        ) == matching_children(d, d.element(i).children, nm)
}

proof fn lemma_follow_same_matching(d: DocModel, d2: DocModel, cur: usize, parts: Seq<PathPartModel>, j: int)
    requires
        0 <= j,
        d.wf(),
        d.is_element(cur as int),
        same_matching(d, d2),
        follow(d, cur, parts, j) is Some,
    ensures
        follow(d2, cur, parts, j) == follow(d, cur, parts, j),
    decreases parts.len() - j,
{
    if j < parts.len() {
        let ch = d.element(cur as int).children;
        assert(matching_children(d2, d2.element(cur as int).children, parts[j].name) == matching_children(
            d,
            ch,
            parts[j].name,
        ));
        lemma_step_after(d, cur, parts[j]);
        lemma_follow_same_matching(d, d2, step_to(d, cur, parts[j])->0, parts, j + 1);
    }
}

/// Dropping text nodes from the children, and appending one, leaves the children of
/// each name as they were.
proof fn lemma_matching_non_text(d: DocModel, d2: DocModel, ch: Seq<usize>, t: usize, nm: Seq<char>)
    requires
        forall|j: int| 0 <= j < ch.len() ==> #[trigger] ch[j] < d.nodes.len() && d2.nodes[ch[j] as int]
            == d.nodes[ch[j] as int],
        d.nodes.len() <= d2.nodes.len(),
        0 <= t < d2.nodes.len(),
        d2.nodes[t as int] is Text,
    ensures
        matching_children(d2, d.non_text(ch).push(t), nm) == matching_children(d, ch, nm),
    decreases ch.len(),
{
    let s = d.non_text(ch).push(t);
    assert(s.drop_last() =~= d.non_text(ch));
    lemma_matching_non_text_kept(d, d2, ch, nm);
}

proof fn lemma_matching_non_text_kept(d: DocModel, d2: DocModel, ch: Seq<usize>, nm: Seq<char>)
    requires
        forall|j: int| 0 <= j < ch.len() ==> #[trigger] ch[j] < d.nodes.len() && d2.nodes[ch[j] as int]
            == d.nodes[ch[j] as int],
        d.nodes.len() <= d2.nodes.len(),
    ensures
        matching_children(d2, d.non_text(ch), nm) == matching_children(d, ch, nm),
    decreases ch.len(),
{
    if ch.len() > 0 {
        assert forall|j: int| 0 <= j < ch.drop_last().len() implies #[trigger] ch.drop_last()[j] < d.nodes.len()
            && d2.nodes[ch.drop_last()[j] as int] == d.nodes[ch.drop_last()[j] as int] by {
            assert(ch.drop_last()[j] == ch[j]);
        }
        lemma_matching_non_text_kept(d, d2, ch.drop_last(), nm);
        let a = d.non_text(ch.drop_last());
        let x = ch.last();
        assert(x == ch[ch.len() - 1]);
        if !(d.nodes[x as int] is Text) {
            let s = a + seq![x];
            assert(s.drop_last() =~= a);
            assert(s.last() == x);
        } else {
            assert(d.non_text(ch) =~= a);
        }
    }
}

/// Setting the text of an element keeps every path naming what it named.
proof fn lemma_set_text_same_matching(d: DocModel, n: int, v: Seq<char>)
    requires
        d.wf(),
        d.is_element(n),
        d.nodes.len() < usize::MAX,
    ensures
        same_matching(d, d.set_text(n, v)),
{
    let d2 = d.set_text(n, v);
    assert forall|i: int, nm: Seq<char>| d.is_element(i) implies d2.is_element(i) && d2.element(i).name
        == d.element(i).name && #[trigger] matching_children(d2, d2.element(i).children, nm) == matching_children(
        d,
        d.element(i).children,
        nm,
    ) by {
        let ch = d.element(i).children;
        if i == n {
            assert forall|j: int| 0 <= j < ch.len() implies #[trigger] ch[j] < d.nodes.len() && d2.nodes[ch[j] as int]
                == d.nodes[ch[j] as int] by {
                assert(n < d.element(n).children[j] < d.nodes.len());
            }
            lemma_matching_non_text(d, d2, ch, d.nodes.len() as usize, nm);
        } else {
            assert(d2.nodes[i] == d.nodes[i]);
            assert forall|j: int| 0 <= j < ch.len() implies (d2.is_element(#[trigger] ch[j] as int) == d.is_element(
                ch[j] as int)) && (d.is_element(ch[j] as int) ==> d2.element(ch[j] as int).name == d.element(
                ch[j] as int,
            ).name) by {
                assert(i < d.element(i).children[j] < d.nodes.len());
                if ch[j] as int != n {
                    assert(d2.nodes[ch[j] as int] == d.nodes[ch[j] as int]);
                }
            }
            lemma_matching_same_names(d, d2, ch, nm);
        }
    }
}

/// Whether `d2` grew from `d` by adding element children only: nodes that are not
/// elements stay as they were, and each element keeps its name, its attributes and its
/// children, after which only new elements may follow.
pub open spec fn extends(d: DocModel, d2: DocModel) -> bool {
    &&& d.nodes.len() <= d2.nodes.len()
    &&& (d.root is Some ==> d2.root == d.root)
    &&& forall|i: int| 0 <= i < d.nodes.len() && !d.is_element(i) ==> #[trigger] d2.nodes[i] == d.nodes[i]
    &&& forall|i: int|
        #[trigger] d.is_element(i) ==> {
            &&& d2.is_element(i)
            &&& d2.element(i).name == d.element(i).name
            &&& d2.element(i).attributes == d.element(i).attributes
            &&& d.element(i).children.len() <= d2.element(i).children.len()
            &&& d2.element(i).children.take(d.element(i).children.len() as int) == d.element(i).children
            &&& forall|k: int|
                d.element(i).children.len() <= k < d2.element(i).children.len() ==> d.nodes.len()
                    <= #[trigger] d2.element(i).children[k] && d2.is_element(d2.element(i).children[k] as int)
        }
}

proof fn lemma_extends_refl(d: DocModel)
    ensures
        extends(d, d),
{
    assert forall|i: int| #[trigger] d.is_element(i) implies d.element(i).children.take(
        d.element(i).children.len() as int,
    ) == d.element(i).children by {
        assert(d.element(i).children.take(d.element(i).children.len() as int) =~= d.element(i).children);
    }
}

proof fn lemma_extends_trans(d: DocModel, d2: DocModel, d3: DocModel)
    requires
        extends(d, d2),
        extends(d2, d3),
    ensures
        extends(d, d3),
{
    assert forall|i: int| 0 <= i < d.nodes.len() && !d.is_element(i) implies #[trigger] d3.nodes[i] == d.nodes[i] by {
        assert(d2.nodes[i] == d.nodes[i]);
        assert(!d2.is_element(i));
    }
    assert forall|i: int| #[trigger] d.is_element(i) implies {
        &&& d3.is_element(i)
        &&& d3.element(i).name == d.element(i).name
        &&& d3.element(i).attributes == d.element(i).attributes
        &&& d.element(i).children.len() <= d3.element(i).children.len()
        &&& d3.element(i).children.take(d.element(i).children.len() as int) == d.element(i).children
        &&& forall|k: int|
            d.element(i).children.len() <= k < d3.element(i).children.len() ==> d.nodes.len()
                <= #[trigger] d3.element(i).children[k] && d3.is_element(d3.element(i).children[k] as int)
    } by {
        assert(d2.is_element(i));
        let c1 = d.element(i).children;
        let c2 = d2.element(i).children;
        let c3 = d3.element(i).children;
        assert(c3.take(c1.len() as int) =~= c3.take(c2.len() as int).take(c1.len() as int));
        assert forall|k: int| c1.len() <= k < c3.len() implies d.nodes.len() <= #[trigger] c3[k] && d3.is_element(
            c3[k] as int,
        ) by {
            if k < c2.len() {
                assert(c3[k] == c3.take(c2.len() as int)[k]);
                assert(c2[k] == c3[k]);
                assert(d2.is_element(c2[k] as int));
            }
        }
    }
}

/// Adding children extends a document.
proof fn lemma_add_children_extends(d: DocModel, parent: int, name: Seq<char>, cnt: nat)
    requires
        d.wf(),
        d.is_element(parent),
        d.nodes.len() + cnt <= usize::MAX,
    ensures
        extends(d, add_children(d, parent, name, cnt)),
{
    let d2 = add_children(d, parent, name, cnt);
    lemma_add_children(d, parent, name, cnt);
    assert forall|i: int| 0 <= i < d.nodes.len() && !d.is_element(i) implies #[trigger] d2.nodes[i] == d.nodes[i] by {}
    assert forall|i: int| #[trigger] d.is_element(i) implies {
        &&& d2.is_element(i)
        &&& d2.element(i).name == d.element(i).name
        &&& d2.element(i).attributes == d.element(i).attributes
        &&& d.element(i).children.len() <= d2.element(i).children.len()
        &&& d2.element(i).children.take(d.element(i).children.len() as int) == d.element(i).children
        &&& forall|k: int|
            d.element(i).children.len() <= k < d2.element(i).children.len() ==> d.nodes.len()
                <= #[trigger] d2.element(i).children[k] && d2.is_element(d2.element(i).children[k] as int)
    } by {
        let c1 = d.element(i).children;
        if i == parent {
            let added = Seq::new(cnt, |j: int| (d.nodes.len() + j) as usize);
            assert(d2.element(i).children == c1 + added);
            assert((c1 + added).take(c1.len() as int) =~= c1);
            assert forall|k: int| c1.len() <= k < d2.element(i).children.len() implies d.nodes.len()
                <= #[trigger] d2.element(i).children[k] && d2.is_element(d2.element(i).children[k] as int) by {
                assert(d2.element(i).children[k] == added[k - c1.len()]);
                assert(d2.nodes[d.nodes.len() + k - c1.len()] == bare_element(name));
            }
        } else {
            assert(d2.nodes[i] == d.nodes[i]);
            assert(c1.take(c1.len() as int) =~= c1);
        }
    }
}

proof fn lemma_matching_concat(d: DocModel, s: Seq<usize>, t: Seq<usize>, nm: Seq<char>)
    ensures
        matching_children(d, s + t, nm) == matching_children(d, s, nm) + matching_children(d, t, nm),
    decreases t.len(),
{
    if t.len() == 0 {
        assert(s + t =~= s);
        assert(matching_children(d, s, nm) + matching_children(d, t, nm) =~= matching_children(d, s, nm));
    } else {
        lemma_matching_concat(d, s, t.drop_last(), nm);
        assert((s + t).drop_last() =~= s + t.drop_last());
        assert((s + t).last() == t.last());
        assert(matching_children(d, s, nm) + matching_children(d, t, nm) =~= matching_children(d, s, nm)
            + matching_children(d, t.drop_last(), nm) + (matching_children(d, s + t, nm).skip(
            matching_children(d, s + t.drop_last(), nm).len() as int,
        )));
    }
}

/// A step that led somewhere leads to the same child once the document is extended.
proof fn lemma_step_extends(d: DocModel, d2: DocModel, cur: usize, p: PathPartModel)
    requires
        d.wf(),
        d.is_element(cur as int),
        extends(d, d2),
        step_to(d, cur, p) is Some,
    ensures
        step_to(d2, cur, p) == step_to(d, cur, p),
{
    let c1 = d.element(cur as int).children;
    let c2 = d2.element(cur as int).children;
    let extra = c2.skip(c1.len() as int);
    assert(c2 =~= c1 + extra);
    assert forall|j: int| 0 <= j < c1.len() implies (d2.is_element(#[trigger] c1[j] as int) == d.is_element(
        c1[j] as int)) && (d.is_element(c1[j] as int) ==> d2.element(c1[j] as int).name == d.element(
        c1[j] as int,
    ).name) by {
        assert(cur < d.element(cur as int).children[j] < d.nodes.len());
        if !d.is_element(c1[j] as int) {
            assert(d2.nodes[c1[j] as int] == d.nodes[c1[j] as int]);
        }
    }
    lemma_matching_same_names(d, d2, c1, p.name);
    lemma_matching_concat(d2, c1, extra, p.name);
}

proof fn lemma_follow_extends(d: DocModel, d2: DocModel, cur: usize, parts: Seq<PathPartModel>, j: int)
    requires
        0 <= j,
        d.wf(),
        d.is_element(cur as int),
        extends(d, d2),
        follow(d, cur, parts, j) is Some,
    ensures
        follow(d2, cur, parts, j) == follow(d, cur, parts, j),
    decreases parts.len() - j,
{
    if j < parts.len() {
        lemma_step_extends(d, d2, cur, parts[j]);
        lemma_step_after(d, cur, parts[j]);
        lemma_follow_extends(d, d2, step_to(d, cur, parts[j])->0, parts, j + 1);
    }
}

/// What extends a document keeps every path naming what it named.
proof fn lemma_resolve_extends(d: DocModel, d2: DocModel, ps: Seq<PathPartModel>)
    requires
        d.wf(),
        extends(d, d2),
        resolve(d, ps) is Some,
    ensures
        resolve(d2, ps) == resolve(d, ps),
{
    lemma_follow_extends(d, d2, d.root->0, ps, 1);
}

proof fn lemma_text_of_concat(d: DocModel, s: Seq<usize>, t: Seq<usize>)
    ensures
        text_of(d, s + t) == text_of(d, s) + text_of(d, t),
    decreases t.len(),
{
    if t.len() == 0 {
        assert(s + t =~= s);
        assert(text_of(d, s) + text_of(d, t) =~= text_of(d, s));
    } else {
        lemma_text_of_concat(d, s, t.drop_last());
        assert((s + t).drop_last() =~= s + t.drop_last());
        assert((s + t).last() == t.last());
    }
}

proof fn lemma_text_of_elements(d: DocModel, t: Seq<usize>)
    requires
        forall|k: int| 0 <= k < t.len() ==> d.is_element(#[trigger] t[k] as int),
    ensures
        text_of(d, t) == Seq::<char>::empty(),
    decreases t.len(),
{
    if t.len() > 0 {
        assert forall|k: int| 0 <= k < t.drop_last().len() implies d.is_element(#[trigger] t.drop_last()[k] as int) by {
            assert(t.drop_last()[k] == t[k]);
        }
        lemma_text_of_elements(d, t.drop_last());
        assert(d.is_element(t[t.len() - 1] as int));
    }
}

/// Text over children whose text nodes stay the same and whose elements stay elements.
proof fn lemma_text_of_same_texts(d: DocModel, d2: DocModel, ch: Seq<usize>)
    requires
        forall|j: int| 0 <= j < ch.len() ==> #[trigger] ch[j] < d.nodes.len(),
        d.nodes.len() <= d2.nodes.len(),
        forall|i: int| 0 <= i < d.nodes.len() && !d.is_element(i) ==> #[trigger] d2.nodes[i] == d.nodes[i],
        forall|i: int| #[trigger] d.is_element(i) ==> d2.is_element(i),
    ensures
        text_of(d2, ch) == text_of(d, ch),
    decreases ch.len(),
{
    if ch.len() > 0 {
        assert forall|j: int| 0 <= j < ch.drop_last().len() implies #[trigger] ch.drop_last()[j] < d.nodes.len() by {
            assert(ch.drop_last()[j] == ch[j]);
        }
        lemma_text_of_same_texts(d, d2, ch.drop_last());
        let x = ch.last() as int;
        assert(x == ch[ch.len() - 1]);
        if d.is_element(x) {
            assert(d2.is_element(x));
        } else {
            assert(d2.nodes[x] == d.nodes[x]);
        }
    }
}

/// Extending a document keeps the text of each element.
proof fn lemma_text_extends(d: DocModel, d2: DocModel, i: int)
    requires
        d.wf(),
        extends(d, d2),
        d.is_element(i),
    ensures
        text_of(d2, d2.element(i).children) == text_of(d, d.element(i).children),
{
    let c1 = d.element(i).children;
    let c2 = d2.element(i).children;
    let extra = c2.skip(c1.len() as int);
    assert(c2 =~= c1 + extra);
    lemma_text_of_concat(d2, c1, extra);
    assert forall|k: int| 0 <= k < extra.len() implies d2.is_element(#[trigger] extra[k] as int) by {
        assert(extra[k] == c2[k + c1.len()]);
    }
    lemma_text_of_elements(d2, extra);
    assert forall|j: int| 0 <= j < c1.len() implies #[trigger] c1[j] < d.nodes.len() by {
        assert(i < d.element(i).children[j] < d.nodes.len());
    }
    lemma_text_of_same_texts(d, d2, c1);
    assert(text_of(d2, c1) + Seq::<char>::empty() =~= text_of(d2, c1));
}

proof fn lemma_walk_extends(d: DocModel, c: Map<Seq<char>, usize>, parts: Seq<PathPartModel>, j: int, cur: usize)
    requires
        1 <= j,
        d.wf(),
        cache_ok(d, c),
        d.is_element(cur as int),
        d.nodes.len() + steps_weight(parts, j) <= usize::MAX,
    ensures
        walk(d, c, parts, j, cur) matches Some((d2, c2, n)) ==> extends(d, d2),
    decreases parts.len() - j,
{
    lemma_extends_refl(d);
    if j < parts.len() {
        let key = path_key(parts, j);
        if c.contains_key(key) {
            lemma_walk_extends(d, c, parts, j + 1, c[key]);
        } else if parts[j].index != Some(0usize) {
            let name = parts[j].name;
            let m = matching_children(d, d.element(cur as int).children, name);
            lemma_matching_elements(d, d.element(cur as int).children, name);
            let (d2, n) = child_step(d, cur as int, name, parts[j].index);
            let cnt: nat = match parts[j].index {
                Some(i) => if i <= m.len() { 0 } else { (i - m.len()) as nat },
                None => if m.len() > 0 { 0 } else { 1 },
            };
            if cnt > 0 {
                lemma_add_children(d, cur as int, name, cnt);
                assert(d2 == add_children(d, cur as int, name, cnt)) by {
                    if parts[j].index is None {
                        assert(add_children(d, cur as int, name, 1) == add_children(d, cur as int, name, 0).add_child(
                            cur as int,
                            bare_element(name),
                        ));
                    }
                }
                lemma_add_children_extends(d, cur as int, name, cnt);
                lemma_cache_ok_grows(d2, d, c);
            } else {
                assert(d2 == d);
                lemma_extends_refl(d);
            }
            assert(d2.is_element(n as int));
            lemma_walk_extends(d2, c.insert(key, n), parts, j + 1, n);
            match walk(d2, c.insert(key, n), parts, j + 1, n) {
                Some((d3, c3, n3)) => {
                    lemma_extends_trans(d, d2, d3);
                },
                None => {},
            }
        }
    }
}

/// A lookup only extends the document.
proof fn lemma_lookup_extends(d: DocModel, c: Map<Seq<char>, usize>, path: Seq<char>)
    requires
        d.wf(),
        cache_ok(d, c),
        xpath_spec(path) matches Some(Ok(ps)) ==> d.nodes.len() + 1 + steps_weight(ps, 1) <= usize::MAX,
    ensures
        lookup_spec(d, c, path) matches Some(Ok((d2, c2, n))) ==> extends(d, d2),
{
    if c.contains_key(path) {
        lemma_extends_refl(d);
    } else {
        match xpath_spec(path) {
            Some(Ok(parts)) => {
                if parts.len() > 0 {
                    let d1 = if d.root is None { d.with_root(parts[0].name) } else { d };
                    let r = d1.root->0;
                    if d.root is None {
                        assert forall|i: int, k: int|
                            #![trigger d1.element(i).children[k]]
                            d1.is_element(i) && 0 <= k < d1.element(i).children.len() implies i
                                < d1.element(i).children[k] < d1.nodes.len() by {
                            if i < d.nodes.len() {
                                assert(d1.nodes[i] == d.nodes[i]);
                                assert(d.element(i).children[k] == d1.element(i).children[k]);
                            } else {
                                assert(d1.nodes[i] == bare_element(parts[0].name));
                            }
                        }
                        assert forall|i: int| #[trigger] d.is_element(i) implies d1.element(i).children.take(
                            d.element(i).children.len() as int,
                        ) == d.element(i).children by {
                            assert(d1.nodes[i] == d.nodes[i]);
                            assert(d.element(i).children.take(d.element(i).children.len() as int) =~= d.element(
                                i,
                            ).children);
                        }
                        assert forall|i: int| #[trigger] d.is_element(i) implies d1.is_element(i) by {
                            assert(d1.nodes[i] == d.nodes[i]);
                        }
                        assert(extends(d, d1));
                    } else {
                        lemma_extends_refl(d);
                    }
                    let c1 = c.insert(path_key(parts, 0), r);
                    assert(cache_ok(d1, c1)) by {
                        assert forall|k: Seq<char>| #[trigger] c1.contains_key(k) implies d1.is_element(c1[k] as int) by {
                            if k != path_key(parts, 0) {
                                assert(d.is_element(c[k] as int));
                            }
                        }
                    }
                    lemma_walk_extends(d1, c1, parts, 1, r);
                    match walk(d1, c1, parts, 1, r) {
                        Some((d3, c3, n3)) => {
                            lemma_extends_trans(d, d1, d3);
                        },
                        None => {},
                    }
                }
            },
            _ => {},
        }
    }
}

proof fn lemma_position_other_update(
    s: Seq<(Seq<char>, Seq<char>)>,
    a: Seq<char>,
    v: Seq<char>,
    b: Seq<char>,
    i: int,
    j: int,
)
    requires
        0 <= i,
        0 <= j < s.len(),
        s[j].0 == a,
        a != b,
    ensures
        attr_position_from(s.update(j, (a, v)), b, i) == attr_position_from(s, b, i),
    decreases s.len() - i,
{
    if i < s.len() {
        lemma_position_other_update(s, a, v, b, i + 1, j);
    }
}

proof fn lemma_position_other_push(s: Seq<(Seq<char>, Seq<char>)>, a: Seq<char>, v: Seq<char>, b: Seq<char>, i: int)
    requires
        0 <= i <= s.len(),
        a != b,
    ensures
        attr_position_from(s.push((a, v)), b, i) == attr_position_from(s, b, i),
    decreases s.len() - i,
{
    if i < s.len() {
        lemma_position_other_push(s, a, v, b, i + 1);
        assert(s.push((a, v))[i] == s[i]);
    } else {
        assert(s.push((a, v))[i] == (a, v));
        assert(attr_position_from(s.push((a, v)), b, i + 1) is None);
    }
}

/// Setting one attribute leaves the others as they were.
pub proof fn lemma_set_attr_other(attrs: Seq<(Seq<char>, Seq<char>)>, name: Seq<char>, value: Seq<char>, other: Seq<char>)
    requires
        name != other,
    ensures
        attr_value(set_attr(attrs, name, value), other) == attr_value(attrs, other),
{
    lemma_attr_position_bounds(attrs, other, 0);
    match attr_position_from(attrs, name, 0) {
        Some(j) => {
            lemma_attr_position_bounds(attrs, name, 0);
            lemma_position_other_update(attrs, name, value, other, 0, j);
        },
        None => {
            lemma_position_other_push(attrs, name, value, other, 0);
        },
    }
}

/// The attribute a grex xpath writes: `None` for a `/text()` line.
pub open spec fn attr_of(x: Seq<char>) -> Option<Seq<char>> {
    if ends_with_text(x) {
        None
    } else {
        match last_attr_marker(x, x.len() - 2) {
            Some(p) => Some(x.skip(p + 2)),
            None => None,
        }
    }
}

/// The node that the element path of a grex xpath names.
pub open spec fn line_node(d: DocModel, x: Seq<char>) -> Option<usize> {
    match xpath_spec(element_path(x)) {
        Some(Ok(ps)) => resolve(d, ps),
        _ => None,
    }
}

/// What element `n` holds at a place: its text for `None`, else that attribute's value.
pub open spec fn place_value(d: DocModel, n: usize, place: Option<Seq<char>>) -> Option<Seq<char>> {
    match place {
        None => Some(text_of(d, d.element(n as int).children)),
        Some(a) => attr_value(d.element(n as int).attributes, a),
    }
}

/// The room a line may take: its new nodes.
pub open spec fn line_weight(x: Seq<char>) -> nat {
    match xpath_spec(element_path(x)) {
        Some(Ok(ps)) => 2 + steps_weight(ps, 1),
        _ => 0,
    }
}

/// What applying one grex line changes, and what it leaves alone.
proof fn lemma_apply_frame(d: DocModel, c: Map<Seq<char>, usize>, x: Seq<char>, v: Seq<char>)
    requires
        d.wf(),
        cache_ok(d, c),
        cache_consistent(d, c),
        d.nodes.len() + line_weight(x) <= usize::MAX,
    ensures
        apply_spec(d, c, x, v) matches Some(Ok((d2, c2))) ==> {
            &&& d2.wf()
            &&& cache_ok(d2, c2)
            &&& cache_consistent(d2, c2)
            &&& d2.nodes.len() <= d.nodes.len() + line_weight(x)
            &&& forall|ps: Seq<PathPartModel>| #[trigger] resolve(d, ps) is Some ==> resolve(d2, ps) == resolve(d, ps)
            &&& line_node(d2, x) matches Some(n) && d2.is_element(n as int) && place_value(d2, n, attr_of(x)) == Some(v)
            &&& forall|m: usize, b: Option<Seq<char>>|
                d.is_element(m as int) && (Some(m) != line_node(d2, x) || b != attr_of(x)) ==> d2.is_element(m as int)
                    && #[trigger] place_value(d2, m, b) == place_value(d, m, b)
        },
{
    let e = element_path(x);
    match apply_spec(d, c, x, v) {
        Some(Ok((d2, c2))) => {
            let (d1, c1, n) = lookup_spec(d, c, e)->0->Ok_0;
            // the element path reads as steps: directly, or as a cached key
            assert(xpath_spec(e) is Some && xpath_spec(e)->0 is Ok) by {
                if c.contains_key(e) {
                    assert(names_path(d, e, c[e]));
                }
            }
            let ps = xpath_spec(e)->0->Ok_0;
            lemma_lookup_element(d, c, e);
            lemma_lookup_names_path(d, c, e);
            lemma_lookup_extends(d, c, e);
            lemma_apply_line_names(d, c, x, v);
            assert(c.contains_key(e) ==> d1 == d);
            let r = d1.root->0;
            assert(d1.is_element(r as int));
            // d1 to d2 keeps every path and every node's kind
            let text_line = ends_with_text(x);
            if text_line {
                assert(d2 == d1.set_text(n as int, v));
                lemma_set_text_same_matching(d1, n as int, v);
                lemma_set_text_wf(d1, n as int, v);
            } else {
                let a = x.skip(last_attr_marker(x, x.len() - 2)->0 + 2);
                assert(d2 == d1.set_attribute(n as int, a, v));
                lemma_set_attribute_wf(d1, n as int, a, v);
            }
            assert forall|i: int| 0 <= i < d1.nodes.len() && !d1.is_element(i) implies #[trigger] d2.nodes[i]
                == d1.nodes[i] by {}
            assert forall|i: int| #[trigger] d1.is_element(i) implies d2.is_element(i) && d2.element(i).name
                == d1.element(i).name && d2.element(i).attributes == (if i == n && !text_line {
                d2.element(i).attributes
            } else {
                d1.element(i).attributes
            }) && (i != n ==> d2.element(i).children == d1.element(i).children) && (i == n && !text_line
                ==> d2.element(i).children == d1.element(i).children) by {
                if i != n {
                    assert(d2.nodes[i] == d1.nodes[i]);
                }
            }
            if !text_line {
                let a = x.skip(last_attr_marker(x, x.len() - 2)->0 + 2);
                assert(same_shape(d1, d2));
            }
            assert forall|ps2: Seq<PathPartModel>| #[trigger] resolve(d, ps2) is Some implies resolve(d2, ps2)
                == resolve(d, ps2) by {
                lemma_resolve_extends(d, d1, ps2);
                if text_line {
                    lemma_follow_same_matching(d1, d2, r, ps2, 1);
                } else {
                    lemma_follow_same_shape(d1, d2, r, ps2, 1);
                }
            }
            assert(line_node(d2, x) == Some(n));
            assert(place_value(d2, n, attr_of(x)) == Some(v));
            assert forall|m: usize, b: Option<Seq<char>>|
                d.is_element(m as int) && (Some(m) != line_node(d2, x) || b != attr_of(x)) implies d2.is_element(
                m as int,
            ) && #[trigger] place_value(d2, m, b) == place_value(d, m, b) by {
                let mi = m as int;
                lemma_text_extends(d, d1, mi);
                assert(d1.is_element(mi));
                assert(place_value(d1, m, b) == place_value(d, m, b));
                let ch = d1.element(mi).children;
                assert forall|j: int| 0 <= j < ch.len() implies #[trigger] ch[j] < d1.nodes.len() by {
                    assert(mi < d1.element(mi).children[j] < d1.nodes.len());
                }
                if m != n || !text_line {
                    lemma_text_of_same_texts(d1, d2, ch);
                    assert(d2.element(mi).children == ch);
                }
                if !text_line && m == n {
                    let a = x.skip(last_attr_marker(x, x.len() - 2)->0 + 2);
                    match b {
                        Some(bb) => {
                            lemma_set_attr_other(d1.element(mi).attributes, a, v, bb);
                        },
                        None => {},
                    }
                }
            }
            lemma_cache_ok_kept(d1, d2, c2);
        },
        _ => {},
    }
}

proof fn lemma_cache_ok_kept(d1: DocModel, d2: DocModel, c: Map<Seq<char>, usize>)
    requires
        cache_ok(d1, c),
        forall|i: int| #[trigger] d1.is_element(i) ==> d2.is_element(i),
    ensures
        cache_ok(d2, c),
{
}

/// The room the lines may take.
pub open spec fn lines_weight(ls: Seq<Seq<char>>) -> nat
    decreases ls.len(),
{
    if ls.len() == 0 {
        0
    } else {
        (match grex_line_parts(ls[0]) {
            Some((x, v)) => line_weight(x),
            None => 0,
        }) + lines_weight(ls.skip(1))
    }
}

/// Whether the line `l` writes place `b` of node `m` of `d`.
pub open spec fn writes(d: DocModel, l: Seq<char>, m: usize, b: Option<Seq<char>>) -> bool {
    &&& !is_blank(l)
    &&& grex_line_parts(l) matches Some((x, v))
    &&& line_node(d, x) == Some(m)
    &&& attr_of(x) == b
}

/// The xpath of a grex line.
pub open spec fn line_xpath(l: Seq<char>) -> Seq<char> {
    match grex_line_parts(l) {
        Some((x, v)) => x,
        None => seq![],
    }
}

/// Whether a line after line `k` writes the place that line `k` writes, in `d`.
pub open spec fn rewritten(d: DocModel, ls: Seq<Seq<char>>, k: int) -> bool {
    exists|k2: int|
        k < k2 < ls.len() && #[trigger] writes(
            d,
            ls[k2],
            line_node(d, line_xpath(ls[k]))->0,
            attr_of(line_xpath(ls[k])),
        )
}

/// Whether the line `l` names a node of `d` that holds what it writes.
pub open spec fn line_holds(d: DocModel, l: Seq<char>) -> bool {
    grex_line_parts(l) matches Some((x, v)) && line_node(d, x) matches Some(n) && place_value(d, n, attr_of(x))
        == Some(v)
}

/// Whether the line `l` names a node of `d`.
pub open spec fn line_named(d: DocModel, l: Seq<char>) -> bool {
    grex_line_parts(l) matches Some((x, v)) && line_node(d, x) is Some
}

proof fn lemma_process_lines(ls: Seq<Seq<char>>, d0: DocModel, c0: Map<Seq<char>, usize>)
    requires
        d0.wf(),
        cache_ok(d0, c0),
        cache_consistent(d0, c0),
        d0.nodes.len() + lines_weight(ls) <= usize::MAX,
        process(ls, d0, c0) is Some,
    ensures
        ({
            let (d, c) = process(ls, d0, c0)->0;
            &&& d.wf()
            &&& cache_ok(d, c)
            &&& cache_consistent(d, c)
            &&& forall|ps: Seq<PathPartModel>| #[trigger] resolve(d0, ps) is Some ==> resolve(d, ps) == resolve(d0, ps)
            &&& forall|m: usize, b: Option<Seq<char>>|
                d0.is_element(m as int) && (forall|k: int| 0 <= k < ls.len() ==> !#[trigger] writes(d, ls[k], m, b))
                    ==> d.is_element(m as int) && #[trigger] place_value(d, m, b) == place_value(d0, m, b)
            &&& forall|k: int|
                0 <= k < ls.len() && !is_blank(#[trigger] ls[k]) ==> line_named(d, ls[k]) && (!rewritten(d, ls, k)
                    ==> line_holds(d, ls[k]))
        }),
    decreases ls.len(),
{
    if ls.len() == 0 {
        return;
    }
    let rest = ls.skip(1);
    let l0 = ls[0];
    let (d, c) = process(ls, d0, c0)->0;
    assert forall|k: int| 0 <= k < rest.len() implies #[trigger] rest[k] == ls[k + 1] by {}
    if is_blank(l0) {
        assert(lines_weight(ls) >= lines_weight(rest)) by {
            match grex_line_parts(ls[0]) {
                Some((x, v)) => {},
                None => {},
            }
        }
        lemma_process_lines(rest, d0, c0);
        assert(process(ls, d0, c0) == process(rest, d0, c0));
        assert forall|m: usize, b: Option<Seq<char>>|
            d0.is_element(m as int) && (forall|k: int| 0 <= k < ls.len() ==> !#[trigger] writes(d, ls[k], m, b))
                implies d.is_element(m as int) && #[trigger] place_value(d, m, b) == place_value(d0, m, b) by {
            assert forall|k: int| 0 <= k < rest.len() implies !#[trigger] writes(d, rest[k], m, b) by {
                assert(!writes(d, ls[k + 1], m, b));
            }
        }
        assert forall|k: int|
            0 <= k < ls.len() && !is_blank(#[trigger] ls[k]) implies line_named(d, ls[k]) && (!rewritten(d, ls, k)
                ==> line_holds(d, ls[k])) by {
            assert(k >= 1);
            assert(rest[k - 1] == ls[k]);
            assert(!is_blank(rest[k - 1]));
            if !rewritten(d, ls, k) {
                if rewritten(d, rest, k - 1) {
                    let k2 = choose|k2: int|
                        k - 1 < k2 < rest.len() && #[trigger] writes(
                            d,
                            rest[k2],
                            line_node(d, line_xpath(rest[k - 1]))->0,
                            attr_of(line_xpath(rest[k - 1])),
                        );
                    assert(writes(
                        d,
                        ls[k2 + 1],
                        line_node(d, line_xpath(ls[k]))->0,
                        attr_of(line_xpath(ls[k])),
                    ));
                }
            }
        }
        return;
    }
    let (x, v) = grex_line_parts(l0)->0;
    let (d1, c1) = apply_spec(d0, c0, x, v)->0->Ok_0;
    assert(process(ls, d0, c0) == process(rest, d1, c1));
    lemma_apply_frame(d0, c0, x, v);
    lemma_process_lines(rest, d1, c1);
    let n = line_node(d1, x)->0;
    assert(line_node(d, x) == Some(n)) by {
        let ps = xpath_spec(element_path(x))->0->Ok_0;
        assert(resolve(d1, ps) is Some);
    }
    assert forall|ps: Seq<PathPartModel>| #[trigger] resolve(d0, ps) is Some implies resolve(d, ps) == resolve(d0, ps) by {
        assert(resolve(d1, ps) is Some);
    }
    assert forall|m: usize, b: Option<Seq<char>>|
        d0.is_element(m as int) && (forall|k: int| 0 <= k < ls.len() ==> !#[trigger] writes(d, ls[k], m, b))
            implies d.is_element(m as int) && #[trigger] place_value(d, m, b) == place_value(d0, m, b) by {
        assert(!writes(d, ls[0], m, b));
        assert(Some(m) != line_node(d1, x) || b != attr_of(x));
        assert(place_value(d1, m, b) == place_value(d0, m, b));
        assert forall|k: int| 0 <= k < rest.len() implies !#[trigger] writes(d, rest[k], m, b) by {
            assert(!writes(d, ls[k + 1], m, b));
        }
    }
    assert forall|k: int|
        0 <= k < ls.len() && !is_blank(#[trigger] ls[k]) implies line_named(d, ls[k]) && (!rewritten(d, ls, k)
            ==> line_holds(d, ls[k])) by {
        if k == 0 {
            if !rewritten(d, ls, 0) {
                assert forall|k2: int| 0 <= k2 < rest.len() implies !#[trigger] writes(d, rest[k2], n, attr_of(x)) by {
                    if writes(d, rest[k2], n, attr_of(x)) {
                        assert(writes(d, ls[k2 + 1], line_node(d, x)->0, attr_of(x)));
                    }
                }
                assert(place_value(d, n, attr_of(x)) == place_value(d1, n, attr_of(x)));
            }
        } else {
            assert(rest[k - 1] == ls[k]);
            assert(!is_blank(rest[k - 1]));
            if !rewritten(d, ls, k) {
                if rewritten(d, rest, k - 1) {
                    let k2 = choose|k2: int|
                        k - 1 < k2 < rest.len() && #[trigger] writes(
                            d,
                            rest[k2],
                            line_node(d, line_xpath(rest[k - 1]))->0,
                            attr_of(line_xpath(rest[k - 1])),
                        );
                    assert(writes(
                        d,
                        ls[k2 + 1],
                        line_node(d, line_xpath(ls[k]))->0,
                        attr_of(line_xpath(ls[k])),
                    ));
                }
            }
        }
    }
}

/// The last write wins: when every line of a grex text applies (and the document has
/// room for the nodes the lines may create), ungrex builds a document in which the
/// element path of each line names a node, and that node holds what the line writes
/// (its text, or the attribute named after the last `/@`) unless a later line writes
/// the same place of the same node.
pub proof fn lemma_last_write_wins(t: Seq<char>)
    requires
        process(lines_of(t), empty_doc(), Map::empty()) is Some,
        lines_weight(lines_of(t)) <= usize::MAX,
    ensures
        ({
            let ls = lines_of(t);
            let (d, c) = process(ls, empty_doc(), Map::empty())->0;
            &&& ungrex_spec(t) == OutcomeModel::Built(d)
            &&& forall|k: int|
                0 <= k < ls.len() && !is_blank(#[trigger] ls[k]) ==> line_named(d, ls[k]) && (!rewritten(d, ls, k)
                    ==> line_holds(d, ls[k]))
        }),
{
    let ls = lines_of(t);
    let e0 = empty_doc();
    let c0 = Map::<Seq<char>, usize>::empty();
    assert(e0.wf());
    lemma_process_lines(ls, e0, c0);
    assert(ls.skip(0) =~= ls);
    lemma_process_run(ls, 0, e0, c0);
}

/// Merging by concatenation, in full: when the lines of grex text `a` (empty or ending
/// with a line break) followed by those of `b` all apply, ungrex of `a + b` builds a
/// document in which every line of either names a node that holds what the line
/// writes, unless a later line writes the same place of the same node.
pub proof fn lemma_merge_last_write_wins(a: Seq<char>, b: Seq<char>)
    requires
        a.len() == 0 || a.last() == '\n',
        process(lines_of(a) + lines_of(b), empty_doc(), Map::empty()) is Some,
        lines_weight(lines_of(a) + lines_of(b)) <= usize::MAX,
    ensures
        ({
            let ls = lines_of(a) + lines_of(b);
            let (d, c) = process(ls, empty_doc(), Map::empty())->0;
            &&& ungrex_spec(a + b) == OutcomeModel::Built(d)
            &&& forall|k: int|
                0 <= k < ls.len() && !is_blank(#[trigger] ls[k]) ==> line_named(d, ls[k]) && (!rewritten(d, ls, k)
                    ==> line_holds(d, ls[k]))
        }),
{
    lemma_merge_by_concatenation(a, b);
    lemma_last_write_wins(a + b);
}

} // verus!

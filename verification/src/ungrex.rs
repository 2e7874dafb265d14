//! Rebuilding a document from grex lines.
use vstd::prelude::*;
use crate::text::{
    IntErrorKind, chars_of, decimal, is_blank, is_blank_str, push_char, push_decimal, string_of,
};
use crate::xpath::{
    PathPart, PathPartModel, XPathError, XPathErrorModel, parse_xpath, parse_xpath_checked, parts_model,
    xpath_spec,
};
use vstd::string::*;
use crate::line::{grex_line_parts, lines_of, parse_grex_line, split_lines, strings_model};
use crate::document::{
    DocModel, Document, XmlNode, bare_element, grows_from, lemma_add_child_grows, lemma_add_child_wf, lemma_grows_trans,
    lemma_set_attribute_grows, lemma_set_text_grows, str_eq,
};

verus! {

broadcast use vstd::map_lib::group_map_properties;

/// The position of the first entry with key `key` at or after position `j`.
pub open spec fn key_position_from(s: Seq<(Seq<char>, usize)>, key: Seq<char>, j: int) -> Option<int>
    decreases s.len() - j,
{
    if j < 0 || j >= s.len() {
        None
    } else if s[j].0 == key {
        Some(j)
    } else {
        key_position_from(s, key, j + 1)
    }
}

proof fn lemma_key_position_bounds(s: Seq<(Seq<char>, usize)>, key: Seq<char>, j: int)
    requires
        0 <= j,
    ensures
        key_position_from(s, key, j) matches Some(i) ==> j <= i < s.len() && s[i].0 == key,
        key_position_from(s, key, j) is None ==> forall|i: int| j <= i < s.len() ==> s[i].0 != key,
    decreases s.len() - j,
{
    if j < s.len() && s[j].0 != key {
        lemma_key_position_bounds(s, key, j + 1);
    }
}

/// The map that a list of entries stands for: each key to the value of its first entry.
pub open spec fn entries_map(s: Seq<(Seq<char>, usize)>) -> Map<Seq<char>, usize> {
    Map::new(
        |k: Seq<char>| key_position_from(s, k, 0) is Some,
        |k: Seq<char>| s[key_position_from(s, k, 0)->0].1,
    )
}

pub open spec fn entry_model(e: (String, usize)) -> (Seq<char>, usize) {
    (e.0@, e.1)
}

pub open spec fn entries_model(v: Seq<(String, usize)>) -> Seq<(Seq<char>, usize)> {
    v.map_values(|e: (String, usize)| entry_model(e))
}

/// The nodes already found for element paths, by path.
#[derive(Debug)]
pub struct PathCache {
    entries: Vec<(String, usize)>,
}

impl View for PathCache {
    type V = Map<Seq<char>, usize>;

    closed spec fn view(&self) -> Map<Seq<char>, usize> {
        entries_map(entries_model(self.entries@))
    }
}

impl PathCache {
    /// An empty cache.
    pub fn new() -> (c: PathCache)
        ensures
            c@ == Map::<Seq<char>, usize>::empty(),
    {
        let c = PathCache { entries: Vec::new() };
        assert(c@ =~= Map::<Seq<char>, usize>::empty());
        c
    }

    /// The node recorded for `key`, if any.
    pub fn get(&self, key: &str) -> (res: Option<usize>)
        ensures
            match res {
                Some(v) => self@.contains_key(key@) && self@[key@] == v,
                None => !self@.contains_key(key@),
            },
    {
        let ghost s = entries_model(self.entries@);
        proof {
            lemma_key_position_bounds(s, key@, 0);
        }
        match self.position(key) {
            Some(j) => {
                assert(s[j as int].1 == self.entries@[j as int].1);
                assert(self@.contains_key(key@));
                Some(self.entries[j].1)
            },
            None => None,
        }
    }

    /// The position of the entry for `key`, if any.
    fn position(&self, key: &str) -> (res: Option<usize>)
        ensures
            res == match key_position_from(entries_model(self.entries@), key@, 0) {
                Some(i) => Some(i as usize),
                None => None::<usize>,
            },
            res matches Some(i) ==> i < self.entries.len(),
    {
        let ghost s = entries_model(self.entries@);
        let mut j: usize = 0;
        while j < self.entries.len()
            invariant
                j <= self.entries.len(),
                s == entries_model(self.entries@),
                key_position_from(s, key@, 0) == key_position_from(s, key@, j as int),
            decreases self.entries.len() - j,
        {
            assert(s[j as int].0 == self.entries@[j as int].0@);
            if str_eq(self.entries[j].0.as_str(), key) {
                return Some(j);
            }
            j = j + 1;
        }
        None
    }

    /// Records `v` for `key`, replacing what was recorded for it.
    pub fn insert(&mut self, key: String, v: usize)
        ensures
            final(self)@ == old(self)@.insert(key@, v),
    {
        let ghost s = entries_model(self.entries@);
        let ghost k = key@;
        proof {
            lemma_key_position_bounds(s, k, 0);
        }
        match self.position(key.as_str()) {
            Some(j) => {
                self.entries.set(j, (key, v));
                let ghost t = entries_model(self.entries@);
                assert(t =~= s.update(j as int, (k, v)));
                assert forall|q: Seq<char>| key_position_from(t, q, 0) == key_position_from(s, q, 0) by {
                    lemma_same_keys(s, t, q, 0);
                }
                assert forall|q: Seq<char>| #[trigger] self@.contains_key(q) == old(self)@.insert(k, v).contains_key(q) by {}
                assert forall|q: Seq<char>| self@.contains_key(q) implies #[trigger] self@[q] == old(self)@.insert(k, v)[q] by {
                    lemma_key_position_bounds(s, q, 0);
                }
                assert(self@ =~= old(self)@.insert(k, v));
            },
            None => {
                self.entries.push((key, v));
                let ghost t = entries_model(self.entries@);
                assert(t =~= s.push((k, v)));
                proof {
                    lemma_key_position_bounds(t, k, 0);
                    assert forall|q: Seq<char>| q != k implies key_position_from(t, q, 0)
                        == key_position_from(s, q, 0) by {
                        lemma_push_other_key(s, t, q, k, v, 0);
                    }
                    lemma_push_new_key(s, t, k, v, 0);
                    assert forall|q: Seq<char>| #[trigger] self@.contains_key(q) == old(self)@.insert(k, v).contains_key(q) by {}
                    assert forall|q: Seq<char>| self@.contains_key(q) implies #[trigger] self@[q] == old(self)@.insert(k, v)[q] by {
                        lemma_key_position_bounds(s, q, 0);
                        lemma_key_position_bounds(t, q, 0);
                    }
                }
                assert(self@ =~= old(self)@.insert(k, v));
            },
        }
    }
}

proof fn lemma_same_keys(s: Seq<(Seq<char>, usize)>, t: Seq<(Seq<char>, usize)>, q: Seq<char>, j: int)
    requires
        s.len() == t.len(),
        forall|i: int| 0 <= i < s.len() ==> s[i].0 == t[i].0,
    ensures
        key_position_from(t, q, j) == key_position_from(s, q, j),
    decreases s.len() - j,
{
    if 0 <= j < s.len() {
        lemma_same_keys(s, t, q, j + 1);
    }
}

proof fn lemma_push_other_key(
    s: Seq<(Seq<char>, usize)>,
    t: Seq<(Seq<char>, usize)>,
    q: Seq<char>,
    k: Seq<char>,
    v: usize,
    j: int,
)
    requires
        t == s.push((k, v)),
        q != k,
        0 <= j,
    ensures
        key_position_from(t, q, j) == key_position_from(s, q, j),
    decreases t.len() - j,
{
    if j < s.len() {
        lemma_push_other_key(s, t, q, k, v, j + 1);
    } else if j == s.len() {
        assert(key_position_from(t, q, j + 1) is None);
    }
}

proof fn lemma_push_new_key(s: Seq<(Seq<char>, usize)>, t: Seq<(Seq<char>, usize)>, k: Seq<char>, v: usize, j: int)
    requires
        t == s.push((k, v)),
        0 <= j <= s.len(),
        forall|i: int| j <= i < s.len() ==> s[i].0 != k,
    ensures
        key_position_from(t, k, j) == Some(s.len() as int),
    decreases t.len() - j,
{
    if j < s.len() {
        lemma_push_new_key(s, t, k, v, j + 1);
    }
}

/// The element children among `children` named `name`, in order.
pub open spec fn matching_children(d: DocModel, children: Seq<usize>, name: Seq<char>) -> Seq<usize>
    decreases children.len(),
{
    if children.len() == 0 {
        seq![]
    } else {
        let c = children.last();
        matching_children(d, children.drop_last(), name) + if d.is_element(c as int) && d.element(
            c as int,
        ).name == name {
            seq![c]
        } else {
            seq![]
        }
    }
}

/// The document with `n` new elements named `name` added as last children of `parent`.
pub open spec fn add_children(d: DocModel, parent: int, name: Seq<char>, n: nat) -> DocModel
    decreases n,
{
    if n == 0 {
        d
    } else {
        add_children(d, parent, name, (n - 1) as nat).add_child(parent, bare_element(name))
    }
}

/// The child of element `parent` that step `name` / `name[index]` leads to, creating it
/// when needed: with an index `i`, the `i`-th child of that name, after adding as many
/// new children of that name as are missing; without one, the first child of that
/// name, or a new one.
pub open spec fn child_step(d: DocModel, parent: int, name: Seq<char>, index: Option<usize>) -> (DocModel, usize) {
    let m = matching_children(d, d.element(parent).children, name);
    match index {
        Some(i) => if i <= m.len() {
            (d, m[i - 1])
        } else {
            (add_children(d, parent, name, (i - m.len()) as nat), (d.nodes.len() + i - m.len() - 1) as usize)
        },
        None => if m.len() > 0 {
            (d, m[0])
        } else {
            (d.add_child(parent, bare_element(name)), d.nodes.len() as usize)
        },
    }
}

/// The element children of `parent` named `name`.
fn matching_child_elements(doc: &Document, parent: usize, name: &str) -> (m: Vec<usize>)
    requires
        doc.wf(),
        doc@.is_element(parent as int),
    ensures
        m@ == matching_children(doc@, doc@.element(parent as int).children, name@),
        forall|k: int| 0 <= k < m.len() ==> doc@.is_element(#[trigger] m[k] as int),
{
    let ghost d = doc@;
    let mut m: Vec<usize> = Vec::new();
    match &doc.nodes[parent] {
        XmlNode::Element(e) => {
            let ghost ch = e.children@;
            assert(ch == d.element(parent as int).children);
            let mut k: usize = 0;
            assert(ch.take(0) =~= seq![]);
            while k < e.children.len()
                invariant
                    d == doc@,
                    d.wf(),
                    d.is_element(parent as int),
                    ch == e.children@,
                    ch == d.element(parent as int).children,
                    k <= ch.len(),
                    m@ == matching_children(d, ch.take(k as int), name@),
                    forall|j: int| 0 <= j < m.len() ==> d.is_element(#[trigger] m[j] as int),
                decreases ch.len() - k,
            {
                let c = e.children[k];
                assert(ch[k as int] == d.element(parent as int).children[k as int]);
                assert(ch.take(k + 1).drop_last() =~= ch.take(k as int));
                match &doc.nodes[c] {
                    XmlNode::Element(ce) => {
                        if str_eq(ce.name.as_str(), name) {
                            m.push(c);
                        }
                    },
                    _ => {},
                }
                k = k + 1;
            }
            assert(ch.take(ch.len() as int) =~= ch);
        },
        _ => {},
    }
    m
}

/// What adding `cnt` new children named `name` to element `parent` does.
pub proof fn lemma_add_children(d: DocModel, parent: int, name: Seq<char>, cnt: nat)
    requires
        d.wf(),
        d.is_element(parent),
        d.nodes.len() + cnt <= usize::MAX,
    ensures
        add_children(d, parent, name, cnt).wf(),
        grows_from(add_children(d, parent, name, cnt), d),
        add_children(d, parent, name, cnt).nodes.len() == d.nodes.len() + cnt,
        add_children(d, parent, name, cnt).root == d.root,
        add_children(d, parent, name, cnt).is_element(parent),
        add_children(d, parent, name, cnt).element(parent) == d.element(parent).with_children(
            d.element(parent).children + Seq::new(cnt, |i: int| (d.nodes.len() + i) as usize),
        ),
        forall|i: int|
            0 <= i < d.nodes.len() && i != parent ==> #[trigger] add_children(d, parent, name, cnt).nodes[i]
                == d.nodes[i],
        forall|i: int|
            d.nodes.len() <= i < d.nodes.len() + cnt ==> #[trigger] add_children(d, parent, name, cnt).nodes[i]
                == bare_element(name),
    decreases cnt,
{
    let e = d.element(parent);
    if cnt == 0 {
        assert(e.children + Seq::new(0, |i: int| (d.nodes.len() + i) as usize) =~= e.children);
        assert(e.with_children(e.children) == e);
    } else {
        let c1 = (cnt - 1) as nat;
        lemma_add_children(d, parent, name, c1);
        let d1 = add_children(d, parent, name, c1);
        lemma_add_child_wf(d1, parent, bare_element(name));
        lemma_add_child_grows(d1, parent, bare_element(name));
        let d2 = d1.add_child(parent, bare_element(name));
        assert(d2 == add_children(d, parent, name, cnt));
        assert(d2.element(parent).children =~= e.children + Seq::new(cnt, |i: int| (d.nodes.len() + i) as usize));
        assert forall|i: int| 0 <= i < d.nodes.len() && i != parent implies #[trigger] d2.nodes[i] == d.nodes[i] by {
            assert(d2.nodes[i] == d1.nodes[i]);
        }
        assert forall|i: int| d.nodes.len() <= i < d.nodes.len() + cnt implies #[trigger] d2.nodes[i] == bare_element(
            name,
        ) by {
            if i < d1.nodes.len() {
                assert(d2.nodes[i] == d1.nodes[i]);
            }
        }
        lemma_grows_trans(d2, d1, d);
    }
}
/// Matching children depend only on the nodes that the children name.
pub proof fn lemma_matching_frame(d: DocModel, d2: DocModel, ch: Seq<usize>, name: Seq<char>)
    requires
        d.nodes.len() <= d2.nodes.len(),
        forall|j: int| 0 <= j < ch.len() ==> #[trigger] ch[j] < d.nodes.len() && d2.nodes[ch[j] as int]
            == d.nodes[ch[j] as int],
    ensures
        matching_children(d2, ch, name) == matching_children(d, ch, name),
    decreases ch.len(),
{
    if ch.len() > 0 {
        assert forall|j: int| 0 <= j < ch.drop_last().len() implies #[trigger] ch.drop_last()[j] < d.nodes.len()
            && d2.nodes[ch.drop_last()[j] as int] == d.nodes[ch.drop_last()[j] as int] by {
            assert(ch.drop_last()[j] == ch[j]);
        }
        lemma_matching_frame(d, d2, ch.drop_last(), name);
        assert(ch.last() == ch[ch.len() - 1]);
    }
}

/// New elements named `name` appended to the children are new matching children.
pub proof fn lemma_matching_append(d: DocModel, ch: Seq<usize>, name: Seq<char>, base: int, k: nat)
    requires
        0 <= base,
        base + k <= d.nodes.len(),
        base + k <= usize::MAX + 1,
        forall|j: int| base <= j < base + k ==> #[trigger] d.nodes[j] == bare_element(name),
    ensures
        matching_children(d, ch + Seq::new(k, |j: int| (base + j) as usize), name) == matching_children(d, ch, name)
            + Seq::new(k, |j: int| (base + j) as usize),
    decreases k,
{
    let s = ch + Seq::new(k, |j: int| (base + j) as usize);
    if k == 0 {
        assert(s =~= ch);
        assert(matching_children(d, ch, name) + Seq::new(0, |j: int| (base + j) as usize) =~= matching_children(d, ch, name));
    } else {
        let k1 = (k - 1) as nat;
        lemma_matching_append(d, ch, name, base, k1);
        assert(s.drop_last() =~= ch + Seq::new(k1, |j: int| (base + j) as usize));
        assert(s.last() as int == base + k1);
        assert(d.nodes[base + k1] == bare_element(name));
        assert(matching_children(d, ch, name) + Seq::new(k, |j: int| (base + j) as usize) =~= matching_children(
            d,
            ch,
            name,
        ) + Seq::new(k1, |j: int| (base + j) as usize) + seq![(base + k1) as usize]);
    }
}

/// Asking for the `i`-th child named `name` of `parent` when it has only `k < i` such
/// children appends `i - k` new elements named `name`, without attributes or children,
/// after its existing children, which stay as they were, as does every other node; the
/// step gives the last of them, which is then the `i`-th child of that name.
pub proof fn lemma_child_step_appends(d: DocModel, parent: int, name: Seq<char>, i: usize)
    requires
        d.wf(),
        d.is_element(parent),
        i > matching_children(d, d.element(parent).children, name).len(),
        d.nodes.len() + i - matching_children(d, d.element(parent).children, name).len() <= usize::MAX,
    ensures
        ({
            let k = matching_children(d, d.element(parent).children, name).len();
            let (d2, c) = child_step(d, parent, name, Some(i));
            let added = Seq::new((i - k) as nat, |j: int| (d.nodes.len() + j) as usize);
            &&& d2.wf()
            &&& d2.root == d.root
            &&& d2.nodes.len() == d.nodes.len() + i - k
            &&& d2.element(parent) == d.element(parent).with_children(d.element(parent).children + added)
            &&& (forall|j: int| 0 <= j < d.nodes.len() && j != parent ==> #[trigger] d2.nodes[j] == d.nodes[j])
            &&& (forall|j: int| d.nodes.len() <= j < d2.nodes.len() ==> #[trigger] d2.nodes[j] == bare_element(name))
            &&& c == d2.nodes.len() - 1
            &&& matching_children(d2, d2.element(parent).children, name) == matching_children(
                d,
                d.element(parent).children,
                name,
            ) + added
            &&& matching_children(d2, d2.element(parent).children, name).len() == i
            &&& matching_children(d2, d2.element(parent).children, name)[i - 1] == c
        }),
{
    let ch = d.element(parent).children;
    let k = matching_children(d, ch, name).len();
    let cnt = (i - k) as nat;
    let added = Seq::new(cnt, |j: int| (d.nodes.len() + j) as usize);
    lemma_add_children(d, parent, name, cnt);
    let d2 = add_children(d, parent, name, cnt);
    assert forall|j: int| 0 <= j < ch.len() implies #[trigger] ch[j] < d.nodes.len() && d2.nodes[ch[j] as int]
        == d.nodes[ch[j] as int] by {
        assert(parent < d.element(parent).children[j]);
    }
    lemma_matching_frame(d, d2, ch, name);
    lemma_matching_append(d2, ch, name, d.nodes.len() as int, cnt);
    let m2 = matching_children(d2, d2.element(parent).children, name);
    assert(m2 == matching_children(d, ch, name) + added);
    assert(m2[i - 1] == added[cnt - 1]);
}

/// Finds, or creates, the child of element `parent` reached by the step `name` (with
/// `index` when the step is written `name[index]`).
pub fn get_or_create_child(doc: &mut Document, parent: usize, name: &str, index: Option<usize>) -> (c: usize)
    requires
        old(doc).wf(),
        old(doc)@.is_element(parent as int),
        index != Some(0usize),
    ensures
        final(doc).wf(),
        (final(doc)@, c) == child_step(old(doc)@, parent as int, name@, index),
        final(doc)@.is_element(c as int),
        grows_from(final(doc)@, old(doc)@),
{
    let ghost d = doc@;
    let matching = matching_child_elements(doc, parent, name);
    let count = matching.len();
    match index {
        Some(idx) => {
            if idx <= count {
                return matching[idx - 1];
            }
            let mut last = parent;
            let mut k = count;
            while k < idx
                invariant
                    count <= k <= idx,
                    doc.wf(),
                    doc@ == add_children(d, parent as int, name@, (k - count) as nat),
                    doc@.nodes.len() == d.nodes.len() + (k - count),
                    doc@.is_element(parent as int),
                    k > count ==> last == doc@.nodes.len() - 1,
                    grows_from(doc@, d),
                decreases idx - k,
            {
                let ghost before = doc@;
                last = doc.append_element(parent, name);
                proof {
                    lemma_add_child_grows(before, parent as int, bare_element(name@));
                    lemma_grows_trans(doc@, before, d);
                }
                k = k + 1;
            }
            last
        },
        None => {
            if count > 0 {
                return matching[0];
            }
            let c = doc.append_element(parent, name);
            proof {
                lemma_add_child_grows(d, parent as int, bare_element(name@));
            }
            c
        },
    }
}

/// Why a grex line cannot be applied.
#[derive(Debug)]
pub enum UngrexError {
    /// The line has no ` = `.
    MalformedLine,
    /// The xpath ends neither in `/text()` nor in `/@name`.
    InvalidXPath,
    /// The element path does not start with `/`.
    MissingLeadingSlash { path: String },
    /// The index of step `part` is not a number.
    InvalidIndex { part: String, kind: IntErrorKind },
    /// The element path is `/` and the document has no root yet.
    EmptyPath,
}

/// The mathematical value of an error.
pub enum UngrexErrorModel {
    MalformedLine,
    InvalidXPath,
    MissingLeadingSlash(Seq<char>),
    InvalidIndex(Seq<char>, IntErrorKind),
    EmptyPath,
}

impl View for UngrexError {
    type V = UngrexErrorModel;

    open spec fn view(&self) -> UngrexErrorModel {
        match self {
            UngrexError::MalformedLine => UngrexErrorModel::MalformedLine,
            UngrexError::InvalidXPath => UngrexErrorModel::InvalidXPath,
            UngrexError::MissingLeadingSlash { path } => UngrexErrorModel::MissingLeadingSlash(path@),
            UngrexError::InvalidIndex { part, kind } => UngrexErrorModel::InvalidIndex(part@, *kind),
            UngrexError::EmptyPath => UngrexErrorModel::EmptyPath,
        }
    }
}

pub open spec fn path_error_model(e: XPathErrorModel) -> UngrexErrorModel {
    match e {
        XPathErrorModel::MissingLeadingSlash(p) => UngrexErrorModel::MissingLeadingSlash(p),
        XPathErrorModel::InvalidIndex(p, k) => UngrexErrorModel::InvalidIndex(p, k),
    }
}

/// `[i]` for a step with index `i`, nothing for a step without one.
pub open spec fn step_suffix(index: Option<usize>) -> Seq<char> {
    match index {
        Some(i) => seq!['['] + decimal(i as nat) + seq![']'],
        None => seq![],
    }
}

/// The cache key of the element reached after steps `0..=j`: `/` and the root's name
/// (its index, if any, is not written), then `/name` or `/name[i]` for each later step.
pub open spec fn path_key(parts: Seq<PathPartModel>, j: int) -> Seq<char>
    decreases j,
{
    if j <= 0 {
        seq!['/'] + parts[0].name
    } else {
        path_key(parts, j - 1) + seq!['/'] + parts[j].name + step_suffix(parts[j].index)
    }
}

/// The walk from step `j` on, starting at element `cur`: each step's key is looked up
/// in the cache; when it is missing, the child is found or created and recorded.
/// `None` when a step with index 0 has to be resolved.
pub open spec fn walk(
    d: DocModel,
    c: Map<Seq<char>, usize>,
    parts: Seq<PathPartModel>,
    j: int,
    cur: usize,
) -> Option<(DocModel, Map<Seq<char>, usize>, usize)>
    decreases parts.len() - j,
{
    if j < 1 || j >= parts.len() {
        Some((d, c, cur))
    } else {
        let key = path_key(parts, j);
        if c.contains_key(key) {
            walk(d, c, parts, j + 1, c[key])
        } else if parts[j].index == Some(0usize) {
            None
        } else {
            let (d2, n) = child_step(d, cur as int, parts[j].name, parts[j].index);
            walk(d2, c.insert(key, n), parts, j + 1, n)
        }
    }
}

/// The element that an element path leads to, with the document and cache after the
/// lookup: a cached path gives its node; otherwise the path is read, the root is created
/// if the document has none (named by the first step), and the walk goes down from the
/// root, whatever the first step's name.  `None` when the lookup has no value: the path
/// holds a step that cannot be sliced, a step with index 0 has to be resolved, or the
/// path is `/` and the document has a root.
pub open spec fn lookup_spec(d: DocModel, c: Map<Seq<char>, usize>, path: Seq<char>) -> Option<
    Result<(DocModel, Map<Seq<char>, usize>, usize), UngrexErrorModel>,
> {
    if c.contains_key(path) {
        Some(Ok((d, c, c[path])))
    } else {
        match xpath_spec(path) {
            None => None,
            Some(Err(e)) => Some(Err(path_error_model(e))),
            Some(Ok(parts)) => if parts.len() == 0 {
                if d.root is None {
                    Some(Err(UngrexErrorModel::EmptyPath))
                } else {
                    None
                }
            } else {
                let d1 = if d.root is None { d.with_root(parts[0].name) } else { d };
                let r = d1.root->0;
                match walk(d1, c.insert(path_key(parts, 0), r), parts, 1, r) {
                    None => None,
                    Some(t) => Some(Ok(t)),
                }
            },
        }
    }
}

/// Every cached node is an element.
pub open spec fn cache_ok(d: DocModel, c: Map<Seq<char>, usize>) -> bool {
    forall|k: Seq<char>| #[trigger] c.contains_key(k) ==> d.is_element(c[k] as int)
}

pub proof fn lemma_cache_ok_grows(d2: DocModel, d: DocModel, c: Map<Seq<char>, usize>)
    requires
        cache_ok(d, c),
        grows_from(d2, d),
    ensures
        cache_ok(d2, c),
{
}

fn convert_path_error(e: XPathError) -> (r: UngrexError)
    ensures
        r@ == path_error_model(e@),
{
    match e {
        XPathError::MissingLeadingSlash { path } => UngrexError::MissingLeadingSlash { path },
        XPathError::InvalidIndex { part, kind } => UngrexError::InvalidIndex { part, kind },
    }
}

/// Appends `/name` and, for an indexed step, `[index]`.
fn push_step(key: &mut String, part: &PathPart)
    ensures
        final(key)@ == old(key)@ + seq!['/'] + part.name@ + step_suffix(part.index),
{
    push_char(key, '/');
    key.append(part.name.as_str());
    match part.index {
        Some(i) => {
            push_char(key, '[');
            push_decimal(key, i);
            push_char(key, ']');
        },
        None => {},
    }
    assert(key@ =~= old(key)@ + seq!['/'] + part.name@ + step_suffix(part.index));
}

/// Matching children are elements of that name.
pub proof fn lemma_matching_elements(d: DocModel, ch: Seq<usize>, name: Seq<char>)
    ensures
        forall|k: int|
            0 <= k < matching_children(d, ch, name).len() ==> d.is_element(
                #[trigger] matching_children(d, ch, name)[k] as int,
            ) && d.element(matching_children(d, ch, name)[k] as int).name == name,
    decreases ch.len(),
{
    if ch.len() > 0 {
        lemma_matching_elements(d, ch.drop_last(), name);
        let a = matching_children(d, ch.drop_last(), name);
        let m = matching_children(d, ch, name);
        assert forall|k: int| 0 <= k < m.len() implies d.is_element(#[trigger] m[k] as int) && d.element(
            m[k] as int,
        ).name == name by {
            if k < a.len() {
                assert(m[k] == a[k]);
            }
        }
    }
}

/// The nodes that steps `j..` of a walk may create at most: the index of each indexed
/// step, one for each other step.
pub open spec fn steps_weight(parts: Seq<PathPartModel>, j: int) -> nat
    decreases parts.len() - j,
{
    if j < 0 || j >= parts.len() {
        0
    } else {
        (match parts[j].index {
            Some(i) => i as nat,
            None => 1nat,
        }) + steps_weight(parts, j + 1)
    }
}

proof fn lemma_walk_element(d: DocModel, c: Map<Seq<char>, usize>, parts: Seq<PathPartModel>, j: int, cur: usize)
    requires
        1 <= j,
        d.wf(),
        cache_ok(d, c),
        d.is_element(cur as int),
        d.nodes.len() + steps_weight(parts, j) <= usize::MAX,
    ensures
        walk(d, c, parts, j, cur) matches Some((d2, c2, n)) ==> d2.wf() && cache_ok(d2, c2) && d2.is_element(
            n as int,
        ) && grows_from(d2, d) && d2.nodes.len() <= d.nodes.len() + steps_weight(parts, j),
    decreases parts.len() - j,
{
    if j < parts.len() {
        let key = path_key(parts, j);
        if c.contains_key(key) {
            lemma_walk_element(d, c, parts, j + 1, c[key]);
        } else if parts[j].index != Some(0usize) {
            let name = parts[j].name;
            let m = matching_children(d, d.element(cur as int).children, name);
            lemma_matching_elements(d, d.element(cur as int).children, name);
            let (d2, n) = child_step(d, cur as int, name, parts[j].index);
            let cnt: nat = match parts[j].index {
                Some(i) => if i <= m.len() { 0 } else { (i - m.len()) as nat },
                None => if m.len() > 0 { 0 } else { 1 },
            };
            if cnt > 0 {
                lemma_add_children(d, cur as int, name, cnt);
                assert(d2 == add_children(d, cur as int, name, cnt)) by {
                    if parts[j].index is None {
                        assert(add_children(d, cur as int, name, 1) == add_children(d, cur as int, name, 0).add_child(
                            cur as int,
                            bare_element(name),
                        ));
                    }
                }
                assert(n == d.nodes.len() + cnt - 1);
                lemma_cache_ok_grows(d2, d, c);
            } else {
                assert(d2 == d);
            }
            assert(d2.is_element(n as int));
            lemma_walk_element(d2, c.insert(key, n), parts, j + 1, n);
            match walk(d2, c.insert(key, n), parts, j + 1, n) {
                Some((d3, c3, n3)) => {
                    lemma_grows_trans(d3, d2, d);
                },
                None => {},
            }
        }
    }
}

/// The node that a lookup gives is an element of the document it leaves, which stays
/// well formed, keeps every cached node an element, and only grows; provided the
/// document has room for the nodes the lookup may create.
pub proof fn lemma_lookup_element(d: DocModel, c: Map<Seq<char>, usize>, path: Seq<char>)
    requires
        d.wf(),
        cache_ok(d, c),
        xpath_spec(path) matches Some(Ok(ps)) ==> d.nodes.len() + 1 + steps_weight(ps, 1) <= usize::MAX,
    ensures
        lookup_spec(d, c, path) matches Some(Ok((d2, c2, n))) ==> d2.wf() && cache_ok(d2, c2) && d2.is_element(
            n as int,
        ) && grows_from(d2, d) && (xpath_spec(path) matches Some(Ok(ps)) ==> d2.nodes.len() <= d.nodes.len() + 1
            + steps_weight(ps, 1)),
{
    if !c.contains_key(path) {
        match xpath_spec(path) {
            Some(Ok(parts)) => {
                if parts.len() > 0 {
                    let d1 = if d.root is None { d.with_root(parts[0].name) } else { d };
                    let r = d1.root->0;
                    if d.root is None {
                        assert(d1.is_element(r as int));
                        assert forall|i: int, k: int|
                            #![trigger d1.element(i).children[k]]
                            d1.is_element(i) && 0 <= k < d1.element(i).children.len() implies i
                                < d1.element(i).children[k] < d1.nodes.len() by {
                            if i < d.nodes.len() {
                                assert(d1.nodes[i] == d.nodes[i]);
                                assert(d.element(i).children[k] == d1.element(i).children[k]);
                            } else {
                                assert(d1.nodes[i] == bare_element(parts[0].name));
                            }
                        }
                        assert(grows_from(d1, d));
                    }
                    let c1 = c.insert(path_key(parts, 0), r);
                    lemma_cache_ok_grows(d1, d, c);
                    lemma_walk_element(d1, c1, parts, 1, r);
                    match walk(d1, c1, parts, 1, r) {
                        Some((d3, c3, n3)) => {
                            lemma_grows_trans(d3, d1, d);
                        },
                        None => {},
                    }
                }
            },
            _ => {},
        }
    }
}

/// Finds the element that `path` leads to, creating the root and the missing elements
/// on the way, and caching each element found by its path.
pub fn get_or_create_node(doc: &mut Document, path: &str, cache: &mut PathCache) -> (res: Result<usize, UngrexError>)
    requires
        old(doc).wf(),
        cache_ok(old(doc)@, old(cache)@),
        lookup_spec(old(doc)@, old(cache)@, path@) is Some,
    ensures
        final(doc).wf(),
        cache_ok(final(doc)@, final(cache)@),
        grows_from(final(doc)@, old(doc)@),
        match (res, lookup_spec(old(doc)@, old(cache)@, path@)->0) {
            (Ok(n), Ok((d, c, m))) => final(doc)@ == d && final(cache)@ == c && n == m
                && final(doc)@.is_element(n as int),
            (Err(e), Err(f)) => e@ == f && final(doc)@ == old(doc)@ && final(cache)@ == old(cache)@,
            _ => false,
        },
{
    let ghost d0 = doc@;
    let ghost c0 = cache@;
    match cache.get(path) {
        Some(n) => {
            return Ok(n);
        },
        None => {},
    }
    let parts = match parse_xpath(path) {
        Ok(p) => p,
        Err(e) => {
            return Err(convert_path_error(e));
        },
    };
    let ghost pm = parts_model(parts@);
    if parts.len() == 0 {
        assert(doc.root is None);
        return Err(UngrexError::EmptyPath);
    }
    assert(pm[0] == parts[0]@);
    let root = match doc.root {
        Some(r) => r,
        None => doc.create_root(parts[0].name.as_str()),
    };
    assert(doc@ == if d0.root is None { d0.with_root(pm[0].name) } else { d0 }) by {
        if d0.root is None {
            assert(doc@.nodes =~= d0.with_root(pm[0].name).nodes);
        }
    }
    assert(grows_from(doc@, d0));
    let mut current = root;
    let mut current_path = String::new();
    push_char(&mut current_path, '/');
    current_path.append(parts[0].name.as_str());
    assert(current_path@ =~= path_key(pm, 0));
    cache.insert(current_path.clone(), current);
    let ghost d1 = doc@;
    let ghost c1 = cache@;
    let mut j: usize = 1;
    while j < parts.len()
        invariant
            1 <= j <= parts.len(),
            pm == parts_model(parts@),
            pm.len() == parts.len(),
            doc.wf(),
            cache_ok(doc@, cache@),
            grows_from(doc@, d0),
            doc@.is_element(current as int),
            current_path@ == path_key(pm, j - 1),
            walk(d1, c1, pm, 1, root) == walk(doc@, cache@, pm, j as int, current),
            walk(d1, c1, pm, 1, root) is Some,
        decreases parts.len() - j,
    {
        let part = &parts[j];
        assert(pm[j as int] == part@);
        push_step(&mut current_path, part);
        assert(current_path@ == path_key(pm, j as int));
        match cache.get(current_path.as_str()) {
            Some(n) => {
                current = n;
            },
            None => {
                let ghost before = doc@;
                current = get_or_create_child(doc, current, part.name.as_str(), part.index);
                proof {
                    lemma_grows_trans(doc@, before, d0);
                    lemma_cache_ok_grows(doc@, before, cache@);
                }
                cache.insert(current_path.clone(), current);
            },
        }
        j = j + 1;
    }
    Ok(current)
}

/// Whether `x` ends in `/text()`.
pub open spec fn ends_with_text(x: Seq<char>) -> bool {
    x.len() >= 7 && x.skip(x.len() - 7) == seq!['/', 't', 'e', 'x', 't', '(', ')']
}

/// Whether `x` holds `/@` at position `p`.
pub open spec fn attr_marker_at(x: Seq<char>, p: int) -> bool {
    0 <= p && p + 2 <= x.len() && x[p] == '/' && x[p + 1] == '@'
}

/// The last position at or before `j` where `x` holds `/@`.
pub open spec fn last_attr_marker(x: Seq<char>, j: int) -> Option<int>
    decreases j + 1,
{
    if j < 0 {
        None
    } else if attr_marker_at(x, j) {
        Some(j)
    } else {
        last_attr_marker(x, j - 1)
    }
}

/// The document and cache after the grex line `xpath = value`: an xpath ending in
/// `/text()` sets the text of the element before it; otherwise the xpath must hold
/// `/@`, and its last `/@` splits it into an element path and an attribute name.
/// `None` when the element lookup has no value (see `lookup_spec`).
pub open spec fn apply_spec(d: DocModel, c: Map<Seq<char>, usize>, xpath: Seq<char>, value: Seq<char>) -> Option<
    Result<(DocModel, Map<Seq<char>, usize>), UngrexErrorModel>,
> {
    if ends_with_text(xpath) {
        match lookup_spec(d, c, xpath.take(xpath.len() - 7)) {
            None => None,
            Some(Err(e)) => Some(Err(e)),
            Some(Ok((d2, c2, n))) => Some(Ok((d2.set_text(n as int, value), c2))),
        }
    } else {
        match last_attr_marker(xpath, xpath.len() - 2) {
            None => Some(Err(UngrexErrorModel::InvalidXPath)),
            Some(p) => match lookup_spec(d, c, xpath.take(p)) {
                None => None,
                Some(Err(e)) => Some(Err(e)),
                Some(Ok((d2, c2, n))) => Some(Ok((d2.set_attribute(n as int, xpath.skip(p + 2), value), c2))),
            },
        }
    }
}

/// Where the element path of `xpath` ends: before `/text()`, or before the last `/@`
/// (whose position is returned as the second value); `None` when there is neither.
fn split_xpath(chars: &Vec<char>) -> (res: Option<(usize, bool)>)
    ensures
        match res {
            None => !ends_with_text(chars@) && last_attr_marker(chars@, chars@.len() - 2) is None,
            Some((p, true)) => ends_with_text(chars@) && p == chars@.len() - 7,
            Some((p, false)) => !ends_with_text(chars@) && last_attr_marker(chars@, chars@.len() - 2)
                == Some(p as int) && p + 2 <= chars@.len(),
        },
{
    let len = chars.len();
    if len >= 7 && chars[len - 7] == '/' && chars[len - 6] == 't' && chars[len - 5] == 'e' && chars[len
        - 4] == 'x' && chars[len - 3] == 't' && chars[len - 2] == '(' && chars[len - 1] == ')' {
        assert(chars@.skip(len - 7) =~= seq!['/', 't', 'e', 'x', 't', '(', ')']);
        return Some((len - 7, true));
    }
    assert(!ends_with_text(chars@)) by {
        if len >= 7 {
            let t = chars@.skip(len - 7);
            if t == seq!['/', 't', 'e', 'x', 't', '(', ')'] {
                assert(t[0] == chars@[len - 7]);
                assert(t[1] == chars@[len - 6]);
                assert(t[2] == chars@[len - 5]);
                assert(t[3] == chars@[len - 4]);
                assert(t[4] == chars@[len - 3]);
                assert(t[5] == chars@[len - 2]);
                assert(t[6] == chars@[len - 1]);
            }
        }
    }
    if len < 2 {
        return None;
    }
    let mut j: usize = len - 1;
    // j counts one past the position being examined
    while j > 0
        invariant
            j <= len - 1,
            len == chars@.len(),
            !ends_with_text(chars@),
            last_attr_marker(chars@, len - 2) == last_attr_marker(chars@, j - 1),
        decreases j,
    {
        if chars[j - 1] == '/' && chars[j] == '@' {
            return Some((j - 1, false));
        }
        j = j - 1;
    }
    None
}

/// Applies the grex line `xpath = value` to the document: sets the text or the
/// attribute that `xpath` names, finding or creating its element.
pub fn apply_grex_line(doc: &mut Document, xpath: &str, value: &str, cache: &mut PathCache) -> (res: Result<(), UngrexError>)
    requires
        old(doc).wf(),
        cache_ok(old(doc)@, old(cache)@),
        apply_spec(old(doc)@, old(cache)@, xpath@, value@) is Some,
    ensures
        final(doc).wf(),
        cache_ok(final(doc)@, final(cache)@),
        match (res, apply_spec(old(doc)@, old(cache)@, xpath@, value@)->0) {
            (Ok(()), Ok((d, c))) => final(doc)@ == d && final(cache)@ == c,
            (Err(e), Err(f)) => e@ == f && final(doc)@ == old(doc)@ && final(cache)@ == old(cache)@,
            _ => false,
        },
{
    let chars = chars_of(xpath);
    match split_xpath(&chars) {
        None => Err(UngrexError::InvalidXPath),
        Some((p, is_text)) => {
            let element_path = string_of(&chars, 0, p);
            assert(element_path@ =~= xpath@.take(p as int));
            let node = get_or_create_node(doc, element_path.as_str(), cache)?;
            let ghost before = doc@;
            if is_text {
                doc.set_text(node, value);
                proof {
                    lemma_set_text_grows(before, node as int, value@);
                    lemma_cache_ok_grows(doc@, before, cache@);
                }
            } else {
                let attr_name = string_of(&chars, p + 2, chars.len());
                assert(attr_name@ =~= xpath@.skip(p + 2));
                doc.set_attribute(node, attr_name.as_str(), value);
                proof {
                    lemma_set_attribute_grows(before, node as int, attr_name@, value@);
                    lemma_cache_ok_grows(doc@, before, cache@);
                }
            }
            Ok(())
        },
    }
}

/// Whether some step from `j` on has index 0 and a key that the cache lacks.
pub open spec fn walk_hits_zero(c: Map<Seq<char>, usize>, parts: Seq<PathPartModel>, j: int) -> bool
    decreases parts.len() - j,
{
    if j < 1 || j >= parts.len() {
        false
    } else {
        (!c.contains_key(path_key(parts, j)) && parts[j].index == Some(0usize)) || walk_hits_zero(
            c,
            parts,
            j + 1,
        )
    }
}

pub proof fn lemma_path_key_grows(parts: Seq<PathPartModel>, i: int, j: int)
    requires
        0 <= i < j,
    ensures
        path_key(parts, i).len() < path_key(parts, j).len(),
    decreases j - i,
{
    if i < j - 1 {
        lemma_path_key_grows(parts, i, j - 1);
    }
}

/// The walk has no value exactly when a step with index 0 is reached uncached; what the
/// walk adds to the cache never covers a later step's key.
proof fn lemma_walk_none(
    d: DocModel,
    c: Map<Seq<char>, usize>,
    c0: Map<Seq<char>, usize>,
    parts: Seq<PathPartModel>,
    j: int,
    cur: usize,
)
    requires
        1 <= j,
        forall|i: int| j <= i < parts.len() ==> (#[trigger] c.contains_key(path_key(parts, i))
            == c0.contains_key(path_key(parts, i))),
    ensures
        (walk(d, c, parts, j, cur) is None) == walk_hits_zero(c0, parts, j),
    decreases parts.len() - j,
{
    if j < parts.len() {
        let key = path_key(parts, j);
        if c.contains_key(key) {
            lemma_walk_none(d, c, c0, parts, j + 1, c[key]);
        } else if parts[j].index != Some(0usize) {
            let (d2, n) = child_step(d, cur as int, parts[j].name, parts[j].index);
            assert forall|i: int| j + 1 <= i < parts.len() implies (#[trigger] c.insert(key, n).contains_key(
                path_key(parts, i),
            ) == c0.contains_key(path_key(parts, i))) by {
                lemma_path_key_grows(parts, j, i);
            }
            lemma_walk_none(d2, c.insert(key, n), c0, parts, j + 1, n);
        }
    }
}

/// Whether `lookup_spec` has no value for `path`.
pub fn lookup_has_no_value(doc: &Document, path: &str, cache: &PathCache) -> (b: bool)
    ensures
        b == (lookup_spec(doc@, cache@, path@) is None),
{
    match cache.get(path) {
        Some(_) => {
            return false;
        },
        None => {},
    }
    let parts = match parse_xpath_checked(path) {
        None => {
            return true;
        },
        Some(Err(_)) => {
            return false;
        },
        Some(Ok(p)) => p,
    };
    let ghost pm = parts_model(parts@);
    if parts.len() == 0 {
        return doc.root.is_some();
    }
    let ghost d = doc@;
    let ghost d1 = if d.root is None { d.with_root(pm[0].name) } else { d };
    let ghost r = d1.root->0;
    proof {
        assert forall|i: int| 1 <= i < pm.len() implies (#[trigger] cache@.insert(path_key(pm, 0), r).contains_key(
            path_key(pm, i),
        ) == cache@.contains_key(path_key(pm, i))) by {
            lemma_path_key_grows(pm, 0, i);
        }
        lemma_walk_none(d1, cache@.insert(path_key(pm, 0), r), cache@, pm, 1, r);
    }
    let mut key = String::new();
    push_char(&mut key, '/');
    key.append(parts[0].name.as_str());
    assert(pm[0] == parts[0]@);
    assert(key@ =~= path_key(pm, 0));
    let mut j: usize = 1;
    while j < parts.len()
        invariant
            1 <= j <= parts.len(),
            pm == parts_model(parts@),
            pm.len() == parts.len(),
            key@ == path_key(pm, j - 1),
            (lookup_spec(doc@, cache@, path@) is None) == walk_hits_zero(cache@, pm, 1),
            walk_hits_zero(cache@, pm, 1) == walk_hits_zero(cache@, pm, j as int),
        decreases parts.len() - j,
    {
        let part = &parts[j];
        assert(pm[j as int] == part@);
        push_step(&mut key, part);
        assert(key@ == path_key(pm, j as int));
        if cache.get(key.as_str()).is_none() && part.index == Some(0usize) {
            return true;
        }
        j = j + 1;
    }
    false
}

/// Whether `apply_spec` has no value for the line `xpath = value`.
pub fn apply_has_no_value(doc: &Document, xpath: &str, value: &str, cache: &PathCache) -> (b: bool)
    ensures
        b == (apply_spec(doc@, cache@, xpath@, value@) is None),
{
    let chars = chars_of(xpath);
    match split_xpath(&chars) {
        None => false,
        Some((p, _)) => {
            let element_path = string_of(&chars, 0, p);
            assert(element_path@ =~= xpath@.take(p as int));
            lookup_has_no_value(doc, element_path.as_str(), cache)
        },
    }
}

/// What rebuilding a document from grex lines gives.
#[derive(Debug)]
pub enum UngrexOutcome {
    /// The document that the lines describe.
    Built(Document),
    /// Line `line` (counted from 1) cannot be applied.
    Failed { line: usize, error: UngrexError },
    /// Line `line` (counted from 1) names an element path that cannot be resolved at
    /// all: a step whose index bracket cannot be cut out, a step with index 0 that is
    /// not cached, or the path `/` once the document has a root.  The command-line tool
    /// treats this as a fatal fault rather than as an input error.
    Aborted { line: usize },
}

/// The mathematical value of an outcome.
pub enum OutcomeModel {
    Built(DocModel),
    Failed(int, UngrexErrorModel),
    Aborted(int),
}

impl View for UngrexOutcome {
    type V = OutcomeModel;

    open spec fn view(&self) -> OutcomeModel {
        match self {
            UngrexOutcome::Built(d) => OutcomeModel::Built(d@),
            UngrexOutcome::Failed { line, error } => OutcomeModel::Failed(*line as int, error@),
            UngrexOutcome::Aborted { line } => OutcomeModel::Aborted(*line as int),
        }
    }
}

/// The document with no nodes.
pub open spec fn empty_doc() -> DocModel {
    DocModel { nodes: seq![], root: None }
}

/// Lines `k..` applied in order to document `d` and cache `c`: blank lines are skipped,
/// and the first line that cannot be read or applied ends the run.
pub open spec fn run_lines(lines: Seq<Seq<char>>, k: int, d: DocModel, c: Map<Seq<char>, usize>) -> OutcomeModel
    decreases lines.len() - k,
{
    if k < 0 || k >= lines.len() {
        OutcomeModel::Built(d)
    } else if is_blank(lines[k]) {
        run_lines(lines, k + 1, d, c)
    } else {
        match grex_line_parts(lines[k]) {
            None => OutcomeModel::Failed(k + 1, UngrexErrorModel::MalformedLine),
            Some((x, v)) => match apply_spec(d, c, x, v) {
                None => OutcomeModel::Aborted(k + 1),
                Some(Err(e)) => OutcomeModel::Failed(k + 1, e),
                Some(Ok((d2, c2))) => run_lines(lines, k + 1, d2, c2),
            },
        }
    }
}

/// The outcome of rebuilding a document from the grex text `input`.
pub open spec fn ungrex_spec(input: Seq<char>) -> OutcomeModel {
    run_lines(lines_of(input), 0, empty_doc(), Map::empty())
}

/// Rebuilds a document from grex text, one line at a time, starting from an empty
/// document; elements found for a path are cached by that path.
pub fn ungrex(input: &str) -> (res: UngrexOutcome)
    ensures
        res@ == ungrex_spec(input@),
        res matches UngrexOutcome::Built(d) ==> d.wf(),
{
    let mut doc = Document::new();
    let mut cache = PathCache::new();
    let lines = split_lines(input);
    assert(doc@.nodes =~= empty_doc().nodes);
    assert(doc@ == empty_doc());
    let mut k: usize = 0;
    while k < lines.len()
        invariant
            k <= lines.len(),
            strings_model(lines@) == lines_of(input@),
            doc.wf(),
            cache_ok(doc@, cache@),
            ungrex_spec(input@) == run_lines(strings_model(lines@), k as int, doc@, cache@),
        decreases lines.len() - k,
    {
        let line = &lines[k];
        assert(strings_model(lines@)[k as int] == line@);
        if !is_blank_str(line.as_str()) {
            match parse_grex_line(line.as_str()) {
                None => {
                    return UngrexOutcome::Failed { line: k + 1, error: UngrexError::MalformedLine };
                },
                Some((xpath, value)) => {
                    if apply_has_no_value(&doc, xpath.as_str(), value.as_str(), &cache) {
                        return UngrexOutcome::Aborted { line: k + 1 };
                    }
                    match apply_grex_line(&mut doc, xpath.as_str(), value.as_str(), &mut cache) {
                        Ok(()) => {},
                        Err(error) => {
                            return UngrexOutcome::Failed { line: k + 1, error };
                        },
                    }
                },
            }
        }
        k = k + 1;
    }
    UngrexOutcome::Built(doc)
}

} // verus!

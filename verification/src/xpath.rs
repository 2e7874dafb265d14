//! The element paths of grex lines: `/name/name[index]/...`.
use vstd::prelude::*;
use crate::text::{
    IntErrorKind, chars_of, find_char, first_index, lemma_first_index_from_bounds, parse_usize,
    parse_usize_spec, string_of,
};

verus! {

/// One step of an element path: an element name and, if the step is written
/// `name[i]`, the index `i` among the siblings of that name.
#[derive(Debug)]
pub struct PathPart {
    pub name: String,
    pub index: Option<usize>,
}

/// The mathematical value of a path step.
pub struct PathPartModel {
    pub name: Seq<char>,
    pub index: Option<usize>,
}

impl View for PathPart {
    type V = PathPartModel;

    open spec fn view(&self) -> PathPartModel {
        PathPartModel { name: self.name@, index: self.index }
    }
}

/// Why a path cannot be read.
#[derive(Debug)]
pub enum XPathError {
    /// The path does not start with `/`.
    MissingLeadingSlash { path: String },
    /// The index of step `part` is not a number.
    InvalidIndex { part: String, kind: IntErrorKind },
}

/// The mathematical value of a path error.
pub enum XPathErrorModel {
    MissingLeadingSlash(Seq<char>),
    InvalidIndex(Seq<char>, IntErrorKind),
}

impl View for XPathError {
    type V = XPathErrorModel;

    open spec fn view(&self) -> XPathErrorModel {
        match self {
            XPathError::MissingLeadingSlash { path } => XPathErrorModel::MissingLeadingSlash(path@),
            XPathError::InvalidIndex { part, kind } => XPathErrorModel::InvalidIndex(part@, *kind),
        }
    }
}

pub open spec fn parts_model(v: Seq<PathPart>) -> Seq<PathPartModel> {
    v.map_values(|p: PathPart| p@)
}

/// The pieces of `s` between occurrences of `c` (one more piece than occurrences).
pub open spec fn split_at_char(s: Seq<char>, c: char) -> Seq<Seq<char>>
    decreases s.len(),
{
    match first_index(s, c) {
        None => seq![s],
        Some(i) => {
            proof {
                lemma_first_index_from_bounds(s, c, 0);
            }
            seq![s.take(i)] + split_at_char(s.skip(i + 1), c)
        },
    }
}

/// Whether the index of a step can be cut out of it: a step with a `[` must go on
/// after its first `[` and end in an ASCII character (the character dropped as the
/// closing bracket).
pub open spec fn step_is_sliceable(part: Seq<char>) -> bool {
    match first_index(part, '[') {
        None => true,
        Some(p) => p < part.len() - 1 && (part.last() as u32) < 128,
    }
}

/// One step read: `name` alone, or `name[digits]` where the character after the
/// digits is taken to be the closing bracket whatever it is.
pub open spec fn step_spec(part: Seq<char>) -> Result<PathPartModel, XPathErrorModel> {
    match first_index(part, '[') {
        None => Ok(PathPartModel { name: part, index: None }),
        Some(p) => match parse_usize_spec(part.subrange(p + 1, part.len() - 1)) {
            Ok(v) => Ok(PathPartModel { name: part.take(p), index: Some(v as usize) }),
            Err(k) => Err(XPathErrorModel::InvalidIndex(part, k)),
        },
    }
}

/// The steps read in order, stopping at the first one in error; `None` when a step that
/// cannot be sliced is reached first.
pub open spec fn steps_spec(parts: Seq<Seq<char>>) -> Option<Result<Seq<PathPartModel>, XPathErrorModel>>
    decreases parts.len(),
{
    if parts.len() == 0 {
        Some(Ok(seq![]))
    } else if !step_is_sliceable(parts[0]) {
        None
    } else {
        match step_spec(parts[0]) {
            Err(e) => Some(Err(e)),
            Ok(p) => prepend_step(p, steps_spec(parts.skip(1))),
        }
    }
}

pub open spec fn prepend_step(
    p: PathPartModel,
    r: Option<Result<Seq<PathPartModel>, XPathErrorModel>>,
) -> Option<Result<Seq<PathPartModel>, XPathErrorModel>> {
    match r {
        Some(Ok(ps)) => Some(Ok(seq![p] + ps)),
        other => other,
    }
}

pub open spec fn append_steps(
    done: Seq<PathPartModel>,
    r: Option<Result<Seq<PathPartModel>, XPathErrorModel>>,
) -> Option<Result<Seq<PathPartModel>, XPathErrorModel>> {
    match r {
        Some(Ok(ps)) => Some(Ok(done + ps)),
        other => other,
    }
}

/// A path read as its steps: it must start with `/`; `/` alone has no steps; otherwise
/// the steps are the pieces between the slashes after the first.  `None` when the path
/// holds a step that cannot be sliced (see `step_is_sliceable`) before any error.
pub open spec fn xpath_spec(path: Seq<char>) -> Option<Result<Seq<PathPartModel>, XPathErrorModel>> {
    if path.len() == 0 || path[0] != '/' {
        Some(Err(XPathErrorModel::MissingLeadingSlash(path)))
    } else if path.len() == 1 {
        Some(Ok(seq![]))
    } else {
        steps_spec(split_at_char(path.skip(1), '/'))
    }
}

pub open spec fn xpath_result_model(r: Result<Vec<PathPart>, XPathError>) -> Result<
    Seq<PathPartModel>,
    XPathErrorModel,
> {
    match r {
        Ok(v) => Ok(parts_model(v@)),
        Err(e) => Err(e@),
    }
}

/// Reads the step `chars[from..to]`; `None` when it cannot be sliced.
fn parse_step(chars: &Vec<char>, from: usize, to: usize) -> (res: Option<Result<PathPart, XPathError>>)
    requires
        from <= to <= chars.len(),
    ensures
        match res {
            None => !step_is_sliceable(chars@.subrange(from as int, to as int)),
            Some(Ok(p)) => step_is_sliceable(chars@.subrange(from as int, to as int)) && step_spec(
                chars@.subrange(from as int, to as int),
            ) == Ok::<PathPartModel, XPathErrorModel>(p@),
            Some(Err(e)) => step_is_sliceable(chars@.subrange(from as int, to as int)) && step_spec(
                chars@.subrange(from as int, to as int),
            ) == Err::<PathPartModel, XPathErrorModel>(e@),
        },
{
    let ghost part = chars@.subrange(from as int, to as int);
    let p = find_char(chars, '[', from, to);
    if p == to {
        return Some(Ok(PathPart { name: string_of(chars, from, to), index: None }));
    }
    if !(p + 1 < to && (chars[to - 1] as u32) < 128) {
        return None;
    }
    assert(part.last() == chars@[to - 1]);
    assert(part.subrange(p - from + 1, part.len() - 1) =~= chars@.subrange(p + 1, to - 1));
    match parse_usize(chars, p + 1, to - 1) {
        Ok(v) => {
            let name = string_of(chars, from, p);
            assert(name@ =~= part.take(p - from));
            Some(Ok(PathPart { name, index: Some(v) }))
        },
        Err(kind) => Some(Err(XPathError::InvalidIndex { part: string_of(chars, from, to), kind })),
    }
}

/// Reads a path into its steps; `None` when `xpath_spec` has no value for it.
pub fn parse_xpath_checked(path: &str) -> (res: Option<Result<Vec<PathPart>, XPathError>>)
    ensures
        match res {
            None => xpath_spec(path@) is None,
            Some(r) => xpath_spec(path@) == Some(xpath_result_model(r)),
        },
{
    let chars = chars_of(path);
    let len = chars.len();
    if len == 0 || chars[0] != '/' {
        return Some(Err(XPathError::MissingLeadingSlash { path: path.to_owned() }));
    }
    let mut parts: Vec<PathPart> = Vec::new();
    if len == 1 {
        assert(parts_model(parts@) =~= seq![]);
        return Some(Ok(parts));
    }
    let mut start: usize = 1;
    assert(chars@.subrange(1, len as int) =~= path@.skip(1));
    assert(parts_model(parts@) =~= seq![]);
    loop
        invariant
            1 <= start <= len == chars.len(),
            chars@ == path@,
            len > 1,
            xpath_spec(path@) == append_steps(
                parts_model(parts@),
                steps_spec(split_at_char(chars@.subrange(start as int, len as int), '/')),
            ),
        decreases len - start,
    {
        let ghost rest = chars@.subrange(start as int, len as int);
        let end = find_char(&chars, '/', start, len);
        let ghost pieces = split_at_char(rest, '/');
        assert(pieces[0] =~= chars@.subrange(start as int, end as int)) by {
            if end < len {
                assert(rest.take(end - start) =~= chars@.subrange(start as int, end as int));
            } else {
                assert(rest =~= chars@.subrange(start as int, end as int));
            }
        }
        match parse_step(&chars, start, end) {
            None => {
                return None;
            },
            Some(Err(e)) => {
                return Some(Err(e));
            },
            Some(Ok(p)) => {
                let ghost prev = parts_model(parts@);
                assert(steps_spec(pieces) == prepend_step(p@, steps_spec(pieces.skip(1))));
                parts.push(p);
                assert(parts_model(parts@) =~= prev.push(p@));
                if end == len {
                    assert(pieces =~= seq![rest]);
                    assert(pieces.skip(1) =~= seq![]);
                    assert(steps_spec(pieces.skip(1)) == Some(Ok::<Seq<PathPartModel>, XPathErrorModel>(seq![])));
                    assert(parts_model(parts@) + seq![] =~= parts_model(parts@));
                    assert(steps_spec(pieces) == Some(Ok::<Seq<PathPartModel>, XPathErrorModel>(seq![p@])));
                    assert(prev + seq![p@] =~= parts_model(parts@));
                    assert(xpath_spec(path@) == Some(Ok::<Seq<PathPartModel>, XPathErrorModel>(parts_model(parts@))));
                    return Some(Ok(parts));
                }
                assert(rest.skip(end - start + 1) =~= chars@.subrange(end + 1, len as int));
                assert(pieces.skip(1) =~= split_at_char(chars@.subrange(end + 1, len as int), '/'));
                assert(seq![p@] + seq![] =~= seq![p@]);
                start = end + 1;
                assert forall|ps: Seq<PathPartModel>| prev + (seq![p@] + ps) =~= parts_model(parts@) + ps by {}
            },
        }
    }
}

/// Reads a path into its steps.
pub fn parse_xpath(path: &str) -> (res: Result<Vec<PathPart>, XPathError>)
    requires
        xpath_spec(path@) is Some,
    ensures
        xpath_spec(path@) == Some(xpath_result_model(res)),
{
    match parse_xpath_checked(path) {
        Some(r) => r,
        None => {
            assert(false);
            Err(XPathError::MissingLeadingSlash { path: path.to_owned() })
        },
    }
}

} // verus!

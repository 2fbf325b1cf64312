//! Normalization and validation of record-relative file paths.

use vstd::prelude::*;

use crate::error::RepositoryError;

verus! {

/// Splits `s` at every `sep`, keeping the finished pieces and the piece under
/// construction apart. Empty pieces are dropped.
pub open spec fn split_acc<A>(s: Seq<A>, sep: A) -> (Seq<Seq<A>>, Seq<A>)
    decreases s.len(),
{
    if s.len() == 0 {
        (Seq::empty(), Seq::empty())
    } else {
        let (done, cur) = split_acc(s.drop_last(), sep);
        if s.last() == sep {
            if cur.len() > 0 {
                (done.push(cur), Seq::empty())
            } else {
                (done, Seq::empty())
            }
        } else {
            (done, cur.push(s.last()))
        }
    }
}

/// The non-empty pieces of `s` between separators, in order.
pub open spec fn segments<A>(s: Seq<A>, sep: A) -> Seq<Seq<A>> {
    let (done, cur) = split_acc(s, sep);
    if cur.len() > 0 {
        done.push(cur)
    } else {
        done
    }
}

pub open spec fn cur_dir() -> Seq<char> {
    seq!['.']
}

pub open spec fn parent_dir() -> Seq<char> {
    seq!['.', '.']
}

/// One step of logical normalization: `.` is dropped, `..` removes the last
/// plain component, or is kept when there is none to remove.
pub open spec fn normalize_step(acc: Seq<Seq<char>>, seg: Seq<char>) -> Seq<Seq<char>> {
    if seg == cur_dir() {
        acc
    } else if seg == parent_dir() {
        if acc.len() == 0 || acc.last() == parent_dir() {
            acc.push(parent_dir())
        } else {
            acc.drop_last()
        }
    } else {
        acc.push(seg)
    }
}

pub open spec fn normalize_segments(segs: Seq<Seq<char>>) -> Seq<Seq<char>>
    decreases segs.len(),
{
    if segs.len() == 0 {
        Seq::empty()
    } else {
        normalize_step(normalize_segments(segs.drop_last()), segs.last())
    }
}

/// The components of the `/`-separated relative path `p` after logical
/// normalization.
pub open spec fn normalized(p: Seq<char>) -> Seq<Seq<char>> {
    normalize_segments(segments(p, '/'))
}

/// A component of a normalized relative path.
#[derive(Debug)]
pub enum PathPart {
    CurDir,
    ParentDir,
    Normal(String),
}

/// `part` is the component written `seg`.
pub open spec fn part_is(part: PathPart, seg: Seq<char>) -> bool {
    match part {
        PathPart::CurDir => seg == cur_dir(),
        PathPart::ParentDir => seg == parent_dir(),
        PathPart::Normal(s) => s@ == seg && seg != cur_dir() && seg != parent_dir(),
    }
}

pub open spec fn parts_are(parts: Seq<PathPart>, segs: Seq<Seq<char>>) -> bool {
    &&& parts.len() == segs.len()
    &&& forall|i: int| 0 <= i < parts.len() ==> part_is(#[trigger] parts[i], segs[i])
}

pub open spec fn part_text(part: PathPart) -> Seq<char> {
    match part {
        PathPart::CurDir => cur_dir(),
        PathPart::ParentDir => parent_dir(),
        PathPart::Normal(s) => s@,
    }
}

/// Relies on `relative_path::RelativePath::normalize` and `components`: the
/// path is split at `/` (empty pieces dropped), `.` is dropped and `..`
/// removes the preceding plain component, or stays when there is none.
#[verifier::external_body]
fn normalized_parts(name: &str) -> (r: Vec<PathPart>)
    ensures
        parts_are(r@, normalized(name@)),
{
    relative_path::RelativePath::new(name).normalize().components().map(|c| match c {
        relative_path::Component::CurDir => PathPart::CurDir,
        relative_path::Component::ParentDir => PathPart::ParentDir,
        relative_path::Component::Normal(s) => PathPart::Normal(s.to_string()),
    }).collect()
}

/// The path stays inside the directory it is relative to: every normalized
/// component is a plain name.
pub open spec fn stays_inside(p: Seq<char>) -> bool {
    forall|i: int|
        0 <= i < normalized(p).len() ==> #[trigger] normalized(p)[i] != parent_dir()
            && normalized(p)[i] != cur_dir()
}

/// Normalizes a record file name into plain path components, refusing names
/// that would escape the record directory. A name that normalizes to no
/// component at all (such as `.`) is returned as an empty list; creating a
/// file there fails.
pub fn sanitize(name: &str) -> (r: Result<Vec<String>, RepositoryError>)
    ensures
        r is Ok <==> stays_inside(name@),
        r is Ok ==> r->Ok_0@.map_values(|s: String| s@) == normalized(name@),
        r is Err ==> r->Err_0 is PathPrefixError,
{
    let parts = normalized_parts(name);
    let mut out: Vec<String> = Vec::new();
    let mut i: usize = 0;
    while i < parts.len()
        invariant
            0 <= i <= parts@.len(),
            parts_are(parts@, normalized(name@)),
            out@.len() == i,
            forall|j: int| 0 <= j < i ==> (#[trigger] out@[j])@ == normalized(name@)[j],
            forall|j: int| 0 <= j < i ==> normalized(name@)[j] != parent_dir()
                && normalized(name@)[j] != cur_dir(),
        decreases parts@.len() - i,
    {
        match &parts[i] {
            PathPart::Normal(s) => {
                out.push(s.clone());
            },
            _ => {
                assert(part_is(parts@[i as int], normalized(name@)[i as int]));
                return Err(RepositoryError::PathPrefixError);
            },
        }
        i = i + 1;
    }
    assert(out@.map_values(|s: String| s@) =~= normalized(name@));
    Ok(out)
}

} // verus!

//! Relative paths, computed on path components without touching the
//! file system.

use crate::wire::same_bytes;
use vstd::prelude::*;
use vstd::slice::*;

verus! {

/// One component of a path.
#[derive(Debug, Clone, PartialEq, Eq)]
pub enum PathComponent {
    /// The root directory, which only opens a path.
    RootDir,
    /// The directory itself, `.`.
    CurDir,
    /// The parent directory, `..`.
    ParentDir,
    /// A name, as bytes.
    Normal(Vec<u8>),
}

/// A path component as a mathematical value.
pub enum Part {
    RootDir,
    CurDir,
    ParentDir,
    Normal(Seq<u8>),
}

impl View for PathComponent {
    type V = Part;

    open spec fn view(&self) -> Part {
        match self {
            PathComponent::RootDir => Part::RootDir,
            PathComponent::CurDir => Part::CurDir,
            PathComponent::ParentDir => Part::ParentDir,
            PathComponent::Normal(name) => Part::Normal(name@),
        }
    }
}

/// The parts of a vector of components, in order.
pub open spec fn parts(components: Seq<PathComponent>) -> Seq<Part> {
    components.map_values(|component: PathComponent| component@)
}

/// A path is absolute if it starts at the root.
pub open spec fn is_absolute(path: Seq<Part>) -> bool {
    path.len() > 0 && path[0] is RootDir
}

/// `n` times the parent directory.
pub open spec fn parents(n: nat) -> Seq<Part> {
    Seq::new(n, |i: int| Part::ParentDir)
}

/// The walk along `path` and `base` from component `i` on, with `found`
/// as the relative path so far.
///
/// While nothing is found yet, equal components are passed over. Where
/// `base` says `.`, the component of `path` is kept. Where `base` says
/// `..`, there is no relative path. At the first other difference the
/// walk ends: one step up for each component that `base` still has, then
/// the rest of `path`. Where `path` ends first, each further component of
/// `base` is one step up; where `base` ends first, the rest of `path`
/// follows.
pub open spec fn walked(path: Seq<Part>, base: Seq<Part>, i: nat, found: Seq<Part>) -> Option<
    Seq<Part>,
>
    decreases path.len() + base.len() - i,
{
    if i >= path.len() && i >= base.len() {
        Some(found)
    } else if i >= base.len() {
        Some(found + path.subrange(i as int, path.len() as int))
    } else if i >= path.len() {
        walked(path, base, i + 1, found.push(Part::ParentDir))
    } else if found.len() == 0 && path[i as int] == base[i as int] {
        walked(path, base, i + 1, found)
    } else if base[i as int] is CurDir {
        walked(path, base, i + 1, found.push(path[i as int]))
    } else if base[i as int] is ParentDir {
        None
    } else {
        Some(found + parents((base.len() - i) as nat) + path.subrange(i as int, path.len() as int))
    }
}

/// The path that leads from `base` to `path`. An absolute path has no
/// relative form from a relative base and is returned as it is; a
/// relative path has none from an absolute base.
pub open spec fn relative_from(path: Seq<Part>, base: Seq<Part>) -> Option<Seq<Part>> {
    if is_absolute(path) != is_absolute(base) {
        if is_absolute(path) {
            Some(path)
        } else {
            None
        }
    } else {
        walked(path, base, 0, Seq::empty())
    }
}

/// The bytes that stand for a component.
pub open spec fn rendered(part: Part) -> Seq<u8> {
    match part {
        Part::RootDir => seq![0x2fu8],
        Part::CurDir => seq![0x2eu8],
        Part::ParentDir => seq![0x2eu8, 0x2eu8],
        Part::Normal(name) => name,
    }
}

/// `buffer` with `piece` pushed onto it as onto a path: a piece that
/// starts with `/` replaces the buffer; else a `/` goes between them,
/// unless the buffer is empty or ends with one.
pub open spec fn pushed(buffer: Seq<u8>, piece: Seq<u8>) -> Seq<u8> {
    if piece.len() > 0 && piece[0] == 0x2f {
        piece
    } else if buffer.len() > 0 && buffer.last() != 0x2f {
        buffer + seq![0x2fu8] + piece
    } else {
        buffer + piece
    }
}

/// The bytes of the path made of the first `n` components.
pub open spec fn path_text(path: Seq<Part>, n: nat) -> Seq<u8>
    decreases n,
{
    if n == 0 {
        Seq::empty()
    } else {
        pushed(path_text(path, (n - 1) as nat), rendered(path[n - 1]))
    }
}

/// An optional path as a mathematical value.
pub open spec fn optional_parts(path: Option<Vec<PathComponent>>) -> Option<Seq<Part>> {
    match path {
        Some(components) => Some(parts(components@)),
        None => None,
    }
}

/// From a base to a path below it leads what the path has more: if
/// `base` opens `path`, the relative path is the rest.
pub proof fn lemma_relative_below(base: Seq<Part>, rest: Seq<Part>)
    ensures
        relative_from(base + rest, base) == Some(rest),
{
    if is_absolute(base + rest) == is_absolute(base) {
        lemma_walk_below(base, rest, 0);
    }
}

/// The walk passes over the components that `base` and `path` share.
proof fn lemma_walk_below(base: Seq<Part>, rest: Seq<Part>, i: nat)
    requires
        i <= base.len(),
    ensures
        walked(base + rest, base, i, Seq::empty()) == Some(rest),
    decreases base.len() - i,
{
    if i < base.len() {
        lemma_walk_below(base, rest, i + 1);
    }
}

impl PathComponent {
    /// Whether two components are the same.
    pub fn same_as(&self, other: &PathComponent) -> (same: bool)
        ensures
            same == (self@ == other@),
    {
        match (self, other) {
            (PathComponent::RootDir, PathComponent::RootDir) => true,
            (PathComponent::CurDir, PathComponent::CurDir) => true,
            (PathComponent::ParentDir, PathComponent::ParentDir) => true,
            (PathComponent::Normal(a), PathComponent::Normal(b)) => same_bytes(
                a.as_slice(),
                b.as_slice(),
            ),
            _ => false,
        }
    }

    /// A copy of the component.
    pub fn duplicate(&self) -> (copy: PathComponent)
        ensures
            copy@ == self@,
    {
        match self {
            PathComponent::RootDir => PathComponent::RootDir,
            PathComponent::CurDir => PathComponent::CurDir,
            PathComponent::ParentDir => PathComponent::ParentDir,
            PathComponent::Normal(name) => PathComponent::Normal(slice_to_vec(name.as_slice())),
        }
    }
}

/// Whether a path starts at the root.
pub fn starts_at_root(path: &Vec<PathComponent>) -> (absolute: bool)
    ensures
        absolute == is_absolute(parts(path@)),
{
    if path.len() == 0 {
        return false;
    }
    match &path[0] {
        PathComponent::RootDir => true,
        _ => false,
    }
}

/// Appends copies of the components of `path` from `from` on.
fn push_rest(found: &mut Vec<PathComponent>, path: &Vec<PathComponent>, from: usize)
    requires
        from <= path.len(),
    ensures
        parts(final(found)@) == parts(old(found)@) + parts(path@).subrange(
            from as int,
            path@.len() as int,
        ),
{
    let count: usize = path.len();
    let mut i: usize = from;
    while i < count
        invariant
            from <= i <= count,
            count == path.len(),
            parts(found@) == parts(old(found)@) + parts(path@).subrange(from as int, i as int),
        decreases count - i,
    {
        let copy = path[i].duplicate();
        let ghost before = found@;
        found.push(copy);
        assert(parts(found@) =~= parts(before).push(copy@));
        i = i + 1;
    }
}

/// Appends `count` steps up.
fn push_parents(found: &mut Vec<PathComponent>, count: usize)
    ensures
        parts(final(found)@) == parts(old(found)@) + parents(count as nat),
{
    let mut i: usize = 0;
    while i < count
        invariant
            i <= count,
            parts(found@) == parts(old(found)@) + parents(i as nat),
        decreases count - i,
    {
        let ghost before = found@;
        found.push(PathComponent::ParentDir);
        assert(parts(found@) =~= parts(before).push(Part::ParentDir));
        i = i + 1;
    }
}

/// Computes the path that leads from `base` to `path`, if there is one.
pub fn relative_path_from(path: &Vec<PathComponent>, base: &Vec<PathComponent>) -> (relative:
    Option<Vec<PathComponent>>)
    ensures
        optional_parts(relative) == relative_from(parts(path@), parts(base@)),
{
    let ghost whole = parts(path@);
    let ghost from = parts(base@);
    let mut found: Vec<PathComponent> = Vec::new();
    if starts_at_root(path) != starts_at_root(base) {
        if starts_at_root(path) {
            push_rest(&mut found, path, 0);
            return Some(found);
        } else {
            return None;
        }
    }
    assert(parts(found@) =~= Seq::<Part>::empty());
    let mut i: usize = 0;
    while i < path.len() || i < base.len()
        invariant
            whole == parts(path@),
            from == parts(base@),
            i <= path.len() || i <= base.len(),
            relative_from(whole, from) == walked(whole, from, i as nat, parts(found@)),
        decreases path.len() + base.len() - i,
    {
        let ghost before = found@;
        if i >= base.len() {
            push_rest(&mut found, path, i);
            return Some(found);
        } else if i >= path.len() {
            found.push(PathComponent::ParentDir);
            assert(parts(found@) =~= parts(before).push(Part::ParentDir));
        } else if found.len() > 0 || !path[i].same_as(&base[i]) {
            match &base[i] {
                PathComponent::CurDir => {
                    let copy = path[i].duplicate();
                    found.push(copy);
                    assert(parts(found@) =~= parts(before).push(whole[i as int]));
                },
                PathComponent::ParentDir => {
                    return None;
                },
                _ => {
                    push_parents(&mut found, base.len() - i);
                    push_rest(&mut found, path, i);
                    return Some(found);
                },
            }
        }
        i = i + 1;
    }
    Some(found)
}

/// Writes a path out: its components, pushed one onto the other.
pub fn join_path(path: &Vec<PathComponent>) -> (text: Vec<u8>)
    ensures
        text@ == path_text(parts(path@), path@.len()),
{
    let ghost whole = parts(path@);
    let mut text: Vec<u8> = Vec::new();
    let count: usize = path.len();
    let mut i: usize = 0;
    while i < count
        invariant
            i <= count,
            count == path.len(),
            whole == parts(path@),
            text@ == path_text(whole, i as nat),
        decreases count - i,
    {
        match &path[i] {
            PathComponent::RootDir => {
                text = Vec::new();
                text.push(0x2f);
            },
            PathComponent::CurDir => {
                if text.len() > 0 && text[text.len() - 1] != 0x2f {
                    text.push(0x2f);
                }
                text.push(0x2e);
            },
            PathComponent::ParentDir => {
                if text.len() > 0 && text[text.len() - 1] != 0x2f {
                    text.push(0x2f);
                }
                text.push(0x2e);
                text.push(0x2e);
            },
            PathComponent::Normal(name) => {
                if name.len() > 0 && name[0] == 0x2f {
                    text = slice_to_vec(name.as_slice());
                } else {
                    if text.len() > 0 && text[text.len() - 1] != 0x2f {
                        text.push(0x2f);
                    }
                    let mut copy = slice_to_vec(name.as_slice());
                    text.append(&mut copy);
                }
            },
        }
        i = i + 1;
    }
    text
}

/// How deep below the root a path is after a component named `name`,
/// if it was `depth` deep before: `..` climbs, `.` and the empty name
/// stay, any other name descends.
pub open spec fn depth_after(name: Seq<u8>, depth: int) -> int {
    if name == seq![0x2eu8, 0x2eu8] {
        depth - 1
    } else if name.len() == 0 || name == seq![0x2eu8] {
        depth
    } else {
        depth + 1
    }
}

/// From byte `i` on, with the current component starting at `start` and
/// the path `depth` deep before it, no component climbs above the root.
pub open spec fn stays_inside(path: Seq<u8>, i: int, start: int, depth: int) -> bool
    decreases path.len() - i,
{
    if i >= path.len() {
        depth_after(path.subrange(start, path.len() as int), depth) >= 0
    } else if path[i] == 0x2f {
        depth_after(path.subrange(start, i), depth) >= 0 && stays_inside(
            path,
            i + 1,
            i + 1,
            depth_after(path.subrange(start, i), depth),
        )
    } else {
        stays_inside(path, i + 1, start, depth)
    }
}

/// A path text is contained: it is not empty, holds no NUL, does not
/// start with `/`, and never climbs above the directory it starts in.
pub open spec fn contained(path: Seq<u8>) -> bool {
    &&& path.len() > 0
    &&& forall|i: int| 0 <= i < path.len() ==> path[i] != 0
    &&& path[0] != 0x2f
    &&& stays_inside(path, 0, 0, 0)
}

/// By how much the component that lies in `path` from `start` to `end`
/// changes the depth: by one down, by nothing, or by one up.
fn depth_change(path: &[u8], start: usize, end: usize) -> (change: i8)
    requires
        start <= end <= path.len(),
    ensures
        -1 <= change <= 1,
        forall|depth: int|
            depth_after(path@.subrange(start as int, end as int), depth) == depth + change,
{
    let ghost name = path@.subrange(start as int, end as int);
    if end - start == 2 && path[start] == 0x2e && path[start + 1] == 0x2e {
        assert(name =~= seq![0x2eu8, 0x2eu8]);
        -1
    } else if end == start {
        0
    } else if end - start == 1 && path[start] == 0x2e {
        assert(name =~= seq![0x2eu8]);
        0
    } else {
        proof {
            if name == seq![0x2eu8] {
                assert(name[0] == path@[start as int]);
            }
        }
        1
    }
}

/// Whether a path text is contained.
pub fn path_is_contained(path: &[u8]) -> (b: bool)
    ensures
        b == contained(path@),
{
    let length: usize = path.len();
    if length == 0 || path[0] == 0x2f {
        return false;
    }
    let mut depth: usize = 0;
    let mut start: usize = 0;
    let mut i: usize = 0;
    while i < length
        invariant
            length == path.len(),
            depth <= start <= i <= length,
            forall|j: int| 0 <= j < i ==> path@[j] != 0,
            stays_inside(path@, 0, 0, 0) == stays_inside(
                path@,
                i as int,
                start as int,
                depth as int,
            ),
        decreases length - i,
    {
        if path[i] == 0 {
            return false;
        }
        if path[i] == 0x2f {
            let change: i8 = depth_change(path, start, i);
            if change < 0 {
                if depth == 0 {
                    return false;
                }
                depth = depth - 1;
            } else if change > 0 {
                depth = depth + 1;
            }
            start = i + 1;
        }
        i = i + 1;
    }
    let change: i8 = depth_change(path, start, length);
    change >= 0 || depth > 0
}

} // verus!

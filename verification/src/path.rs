//! A model of Unix paths as sequences of components.
//!
//! Two paths are equal, or one starts with the other, exactly when their
//! component sequences are equal or one is a prefix of the other: repeated
//! separators, a trailing separator and `.` segments after the first carry no
//! meaning. The parent of a path drops its last component, and its file name
//! is that last component when it is an ordinary name.
use vstd::prelude::*;
use crate::text::{chars_equal, chars_of, copy_chars, lemma_split_nonempty, split_chars, split_from, views_of};

verus! {

/// One component of a path.
pub enum Comp {
    RootDir,
    CurDir,
    ParentDir,
    Normal(Seq<char>),
}

/// One component of a parsed path.
#[derive(Debug, PartialEq, Eq)]
pub enum PathComponent {
    RootDir,
    CurDir,
    ParentDir,
    Normal(Vec<char>),
}

impl View for PathComponent {
    type V = Comp;

    open spec fn view(&self) -> Comp {
        match self {
            PathComponent::RootDir => Comp::RootDir,
            PathComponent::CurDir => Comp::CurDir,
            PathComponent::ParentDir => Comp::ParentDir,
            PathComponent::Normal(name) => Comp::Normal(name@),
        }
    }
}

/// A path given by its components.
#[derive(Debug, PartialEq, Eq)]
pub struct ParsedPath {
    pub components: Vec<PathComponent>,
}

/// The abstract components held by a vector of components.
pub open spec fn comp_views(v: Seq<PathComponent>) -> Seq<Comp> {
    v.map_values(|c: PathComponent| c@)
}

impl View for ParsedPath {
    type V = Seq<Comp>;

    open spec fn view(&self) -> Seq<Comp> {
        comp_views(self.components@)
    }
}

/// The component that a segment between separators stands for: none for an
/// empty segment or `.`, the parent for `..`, else an ordinary name.
pub open spec fn segment_component(seg: Seq<char>) -> Option<Comp> {
    if seg.len() == 0 || seg == seq!['.'] {
        None
    } else if seg == seq!['.', '.'] {
        Some(Comp::ParentDir)
    } else {
        Some(Comp::Normal(seg))
    }
}

/// The components that a run of segments stands for, in order.
pub open spec fn segments_components(segs: Seq<Seq<char>>) -> Seq<Comp>
    decreases segs.len(),
{
    if segs.len() == 0 {
        Seq::empty()
    } else {
        let front = segments_components(segs.drop_last());
        match segment_component(segs.last()) {
            Some(c) => front.push(c),
            None => front,
        }
    }
}

/// The components of a path written as text: a leading `/` is the root; a
/// leading `.` segment of a path without root is the current directory; the
/// other segments between `/` separators follow `segment_component`.
pub open spec fn path_components(p: Seq<char>) -> Seq<Comp> {
    if p.len() > 0 && p[0] == '/' {
        seq![Comp::RootDir] + segments_components(split_chars(p.subrange(1, p.len() as int), '/'))
    } else {
        let segs = split_chars(p, '/');
        if segs[0] == seq!['.'] {
            seq![Comp::CurDir] + segments_components(segs.subrange(1, segs.len() as int))
        } else {
            segments_components(segs)
        }
    }
}

/// The text of a component as the path holds it.
pub open spec fn comp_text(c: Comp) -> Seq<char> {
    match c {
        Comp::RootDir => seq!['/'],
        Comp::CurDir => seq!['.'],
        Comp::ParentDir => seq!['.', '.'],
        Comp::Normal(name) => name,
    }
}

/// Whether the components `base` begin the components `p`.
pub open spec fn comps_start_with(p: Seq<Comp>, base: Seq<Comp>) -> bool {
    base.len() <= p.len() && p.subrange(0, base.len() as int) == base
}

/// The parent of a path: all but its last component, unless the path is
/// empty or ends in the root.
pub open spec fn parent_of(p: Seq<Comp>) -> Option<Seq<Comp>> {
    if p.len() > 0 && p.last() != Comp::RootDir {
        Some(p.drop_last())
    } else {
        None
    }
}

/// The file name of a path: its last component when that is an ordinary name.
pub open spec fn file_name_of(p: Seq<Comp>) -> Option<Seq<char>> {
    if p.len() > 0 && p.last() is Normal {
        Some(p.last()->Normal_0)
    } else {
        None
    }
}

fn is_dot(seg: &Vec<char>) -> (yes: bool)
    ensures
        yes == (seg@ == seq!['.']),
{
    let r = seg.len() == 1 && seg[0] == '.';
    assert(r ==> seg@ =~= seq!['.']);
    r
}

fn is_dot_dot(seg: &Vec<char>) -> (yes: bool)
    ensures
        yes == (seg@ == seq!['.', '.']),
{
    let r = seg.len() == 2 && seg[0] == '.' && seg[1] == '.';
    assert(r ==> seg@ =~= seq!['.', '.']);
    r
}

fn component_of_segment(seg: &Vec<char>) -> (c: Option<PathComponent>)
    ensures
        c matches Some(x) ==> segment_component(seg@) == Some(x@),
        c is None ==> segment_component(seg@) is None,
{
    if seg.len() == 0 || is_dot(seg) {
        None
    } else if is_dot_dot(seg) {
        Some(PathComponent::ParentDir)
    } else {
        Some(PathComponent::Normal(copy_chars(seg)))
    }
}

/// Appends the components of `segs[start..]` to `out`.
fn push_segments(out: &mut Vec<PathComponent>, segs: &Vec<Vec<char>>, start: usize)
    requires
        start <= segs@.len(),
    ensures
        comp_views(final(out)@) == comp_views(old(out)@) + segments_components(
            views_of(segs@).subrange(start as int, segs@.len() as int),
        ),
{
    let ghost base = comp_views(out@);
    let ghost all = views_of(segs@);
    assert(all.subrange(start as int, start as int) =~= Seq::<Seq<char>>::empty());
    assert(comp_views(out@) =~= base + Seq::<Comp>::empty());
    let mut i: usize = start;
    while i < segs.len()
        invariant
            start <= i <= segs@.len(),
            all == views_of(segs@),
            comp_views(out@) == base + segments_components(all.subrange(start as int, i as int)),
        decreases segs@.len() - i,
    {
        let ghost before = out@;
        assert(all.subrange(start as int, i + 1).drop_last() =~= all.subrange(start as int, i as int));
        assert(all.subrange(start as int, i + 1).last() == segs@[i as int]@);
        match component_of_segment(&segs[i]) {
            Some(c) => {
                out.push(c);
                assert(comp_views(out@) =~= comp_views(before).push(c@));
            },
            None => {},
        }
        i = i + 1;
    }
}

/// Parses the text of a path into its components.
pub fn parse_path(s: &str) -> (p: ParsedPath)
    ensures
        p@ == path_components(s@),
{
    let chars = chars_of(s);
    parse_path_chars(&chars)
}

/// Parses a path, given as its characters, into its components.
pub fn parse_path_chars(chars: &Vec<char>) -> (p: ParsedPath)
    ensures
        p@ == path_components(chars@),
{
    let mut out: Vec<PathComponent> = Vec::new();
    if chars.len() > 0 && chars[0] == '/' {
        out.push(PathComponent::RootDir);
        let segs = split_from(chars, 1, '/');
        assert(comp_views(out@) =~= seq![Comp::RootDir]);
        push_segments(&mut out, &segs, 0);
        assert(views_of(segs@).subrange(0, segs@.len() as int) =~= views_of(segs@));
    } else {
        let segs = split_from(chars, 0, '/');
        assert(chars@.subrange(0, chars@.len() as int) =~= chars@);
        proof {
            lemma_split_nonempty(chars@, '/');
        }
        if is_dot(&segs[0]) {
            out.push(PathComponent::CurDir);
            assert(comp_views(out@) =~= seq![Comp::CurDir]);
            push_segments(&mut out, &segs, 1);
        } else {
            assert(comp_views(out@) =~= Seq::<Comp>::empty());
            push_segments(&mut out, &segs, 0);
            assert(views_of(segs@).subrange(0, segs@.len() as int) =~= views_of(segs@));
        }
    }
    ParsedPath { components: out }
}


/// A copy of a component.
pub fn copy_component(c: &PathComponent) -> (out: PathComponent)
    ensures
        out@ == c@,
{
    match c {
        PathComponent::RootDir => PathComponent::RootDir,
        PathComponent::CurDir => PathComponent::CurDir,
        PathComponent::ParentDir => PathComponent::ParentDir,
        PathComponent::Normal(name) => PathComponent::Normal(copy_chars(name)),
    }
}

/// Whether two components are the same.
pub fn component_eq(a: &PathComponent, b: &PathComponent) -> (same: bool)
    ensures
        same == (a@ == b@),
{
    match (a, b) {
        (PathComponent::RootDir, PathComponent::RootDir) => true,
        (PathComponent::CurDir, PathComponent::CurDir) => true,
        (PathComponent::ParentDir, PathComponent::ParentDir) => true,
        (PathComponent::Normal(x), PathComponent::Normal(y)) => chars_equal(x, y),
        _ => false,
    }
}

/// Whether the first `n` components of `p` are those of `base`, where `n` is
/// the number of components of `base`.
pub fn path_starts_with(p: &ParsedPath, base: &ParsedPath) -> (yes: bool)
    ensures
        yes == comps_start_with(p@, base@),
{
    let n = base.components.len();
    if n > p.components.len() {
        return false;
    }
    for i in 0..n
        invariant
            n == base@.len(),
            n <= p@.len(),
            base@.len() == base.components@.len(),
            p@.len() == p.components@.len(),
            forall|j: int| 0 <= j < i ==> p@[j] == base@[j],
    {
        if !component_eq(&p.components[i], &base.components[i]) {
            assert(p@.subrange(0, n as int)[i as int] != base@[i as int]);
            return false;
        }
    }
    assert(p@.subrange(0, n as int) =~= base@);
    true
}

/// Whether two paths are equal.
pub fn path_eq(a: &ParsedPath, b: &ParsedPath) -> (same: bool)
    ensures
        same == (a@ == b@),
{
    if a.components.len() != b.components.len() {
        assert(a@.len() != b@.len());
        return false;
    }
    let r = path_starts_with(a, b);
    assert(r ==> a@ =~= b@) by {
        if r {
            assert(a@.subrange(0, b@.len() as int) =~= a@);
        }
    }
    assert(a@ == b@ ==> a@.subrange(0, b@.len() as int) =~= a@);
    r
}

/// The parent of a path, if it has one.
pub fn parent(p: &ParsedPath) -> (q: Option<ParsedPath>)
    ensures
        q is None <==> parent_of(p@) is None,
        q matches Some(q) ==> parent_of(p@) == Some(q@),
{
    let n = p.components.len();
    if n == 0 {
        return None;
    }
    match &p.components[n - 1] {
        PathComponent::RootDir => {
            return None;
        },
        _ => {},
    }
    let mut out: Vec<PathComponent> = Vec::new();
    for i in 0..n - 1
        invariant
            n == p.components@.len(),
            n > 0,
            comp_views(out@) == p@.subrange(0, i as int),
    {
        let ghost before = out@;
        let c = copy_component(&p.components[i]);
        out.push(c);
        assert(comp_views(out@) =~= comp_views(before).push(p@[i as int]));
        assert(comp_views(out@) =~= p@.subrange(0, i + 1));
    }
    assert(p@.drop_last() =~= p@.subrange(0, n - 1));
    Some(ParsedPath { components: out })
}

/// The file name of a path, if its last component is an ordinary name.
pub fn file_name(p: &ParsedPath) -> (name: Option<Vec<char>>)
    ensures
        name is None <==> file_name_of(p@) is None,
        name matches Some(name) ==> file_name_of(p@) == Some(name@),
{
    let n = p.components.len();
    if n == 0 {
        return None;
    }
    match &p.components[n - 1] {
        PathComponent::Normal(name) => Some(copy_chars(name)),
        _ => None,
    }
}

} // verus!

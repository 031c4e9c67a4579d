//! Paths as sequences of components: the order in which scopes are listed,
//! and whether a directory lies within a scope, both taken component by
//! component as `std::path::Path` compares them.

use vstd::prelude::*;

use crate::text::{lemma_text_lt_irreflexive, lemma_text_lt_total, lemma_text_lt_transitive, text_less, text_lt};

verus! {

/// One component of a path, told apart as `std::path::Component` does. A
/// prefix only occurs on Windows.
pub enum PathPart {
    Prefix(String),
    Root,
    Current,
    Parent,
    Normal(String),
}

impl View for PathPart {
    /// The component's kind, in the order of `Component`'s variants, and its
    /// text (empty for the kinds that carry none).
    type V = (u8, Seq<char>);

    open spec fn view(&self) -> (u8, Seq<char>) {
        match self {
            PathPart::Prefix(t) => (0, t@),
            PathPart::Root => (1, Seq::empty()),
            PathPart::Current => (2, Seq::empty()),
            PathPart::Parent => (3, Seq::empty()),
            PathPart::Normal(t) => (4, t@),
        }
    }
}

/// The views of a list of components.
pub open spec fn parts_view(p: Seq<PathPart>) -> Seq<(u8, Seq<char>)> {
    p.map_values(|c: PathPart| c@)
}

/// The components that `std::path::Path::components` finds in a path.
pub uninterp spec fn components_of(path: Seq<char>) -> Seq<(u8, Seq<char>)>;

/// Relies on `std::path::Path::components`: the components of `path` in
/// order, each converted to its kind and text.
#[verifier::external_body]
pub(crate) fn path_parts(path: &str) -> (r: Vec<PathPart>)
    ensures
        parts_view(r@) == components_of(path@),
{
    std::path::Path::new(path).components().map(|c| match c {
        std::path::Component::Prefix(p) => PathPart::Prefix(p.as_os_str().to_string_lossy().into_owned()),
        std::path::Component::RootDir => PathPart::Root,
        std::path::Component::CurDir => PathPart::Current,
        std::path::Component::ParentDir => PathPart::Parent,
        std::path::Component::Normal(s) => PathPart::Normal(s.to_string_lossy().into_owned()),
    }).collect()
}

/// Component order: by kind, then by text.
pub open spec fn part_lt(a: (u8, Seq<char>), b: (u8, Seq<char>)) -> bool {
    a.0 < b.0 || (a.0 == b.0 && text_lt(a.1, b.1))
}

/// Path order: lexicographic over components, a proper prefix first.
pub open spec fn parts_lt(a: Seq<(u8, Seq<char>)>, b: Seq<(u8, Seq<char>)>) -> bool
    decreases a.len(),
{
    if b.len() == 0 {
        false
    } else if a.len() == 0 {
        true
    } else if a[0] != b[0] {
        part_lt(a[0], b[0])
    } else {
        parts_lt(a.drop_first(), b.drop_first())
    }
}

/// The components of `base` begin those of `path`.
pub open spec fn is_prefix(base: Seq<(u8, Seq<char>)>, path: Seq<(u8, Seq<char>)>) -> bool {
    base.len() <= path.len() && path.subrange(0, base.len() as int) == base
}

pub proof fn lemma_parts_lt_irreflexive(a: Seq<(u8, Seq<char>)>)
    ensures
        !parts_lt(a, a),
    decreases a.len(),
{
    if a.len() > 0 {
        lemma_parts_lt_irreflexive(a.drop_first());
    }
}

pub proof fn lemma_part_lt_total(a: (u8, Seq<char>), b: (u8, Seq<char>))
    requires
        a != b,
    ensures
        part_lt(a, b) || part_lt(b, a),
{
    if a.0 == b.0 {
        lemma_text_lt_total(a.1, b.1);
    }
}

pub proof fn lemma_parts_lt_total(a: Seq<(u8, Seq<char>)>, b: Seq<(u8, Seq<char>)>)
    requires
        a != b,
    ensures
        parts_lt(a, b) || parts_lt(b, a),
    decreases a.len(),
{
    if a.len() > 0 && b.len() > 0 && a[0] == b[0] {
        assert(a.drop_first() != b.drop_first()) by {
            if a.drop_first() == b.drop_first() {
                assert(a =~= seq![a[0]] + a.drop_first());
                assert(b =~= seq![b[0]] + b.drop_first());
            }
        }
        lemma_parts_lt_total(a.drop_first(), b.drop_first());
    } else if a.len() == 0 && b.len() == 0 {
        assert(a =~= b);
    } else if a.len() > 0 && b.len() > 0 {
        lemma_part_lt_total(a[0], b[0]);
    }
}

pub proof fn lemma_parts_lt_transitive(
    a: Seq<(u8, Seq<char>)>,
    b: Seq<(u8, Seq<char>)>,
    c: Seq<(u8, Seq<char>)>,
)
    requires
        parts_lt(a, b),
        parts_lt(b, c),
    ensures
        parts_lt(a, c),
    decreases a.len(),
{
    if a.len() > 0 && b.len() > 0 && c.len() > 0 {
        if a[0] == b[0] && b[0] == c[0] {
            lemma_parts_lt_transitive(a.drop_first(), b.drop_first(), c.drop_first());
        } else if a[0] != b[0] && b[0] != c[0] {
            if a[0].0 == b[0].0 && b[0].0 == c[0].0 {
                lemma_text_lt_transitive(a[0].1, b[0].1, c[0].1);
            }
            if a[0] == c[0] {
                lemma_text_lt_irreflexive(a[0].1);
                if a[0].0 == b[0].0 {
                    lemma_text_lt_transitive(a[0].1, b[0].1, a[0].1);
                }
            }
        }
    }
}

fn part_rank(p: &PathPart) -> (r: u8)
    ensures
        r == p@.0,
{
    match p {
        PathPart::Prefix(_) => 0,
        PathPart::Root => 1,
        PathPart::Current => 2,
        PathPart::Parent => 3,
        PathPart::Normal(_) => 4,
    }
}

fn part_equal(a: &PathPart, b: &PathPart) -> (r: bool)
    ensures
        r == (a@ == b@),
{
    match (a, b) {
        (PathPart::Prefix(x), PathPart::Prefix(y)) => *x == *y,
        (PathPart::Normal(x), PathPart::Normal(y)) => *x == *y,
        _ => part_rank(a) == part_rank(b),
    }
}

fn part_less(a: &PathPart, b: &PathPart) -> (r: bool)
    ensures
        r == part_lt(a@, b@),
{
    let ra = part_rank(a);
    let rb = part_rank(b);
    if ra != rb {
        return ra < rb;
    }
    match (a, b) {
        (PathPart::Prefix(x), PathPart::Prefix(y)) => text_less(x.as_str(), y.as_str()),
        (PathPart::Normal(x), PathPart::Normal(y)) => text_less(x.as_str(), y.as_str()),
        _ => {
            proof {
                lemma_text_lt_irreflexive(Seq::<char>::empty());
            }
            false
        },
    }
}

/// Whether path `a` comes before path `b`, component by component.
pub fn parts_less(a: &Vec<PathPart>, b: &Vec<PathPart>) -> (r: bool)
    ensures
        r == parts_lt(parts_view(a@), parts_view(b@)),
{
    let ghost va = parts_view(a@);
    let ghost vb = parts_view(b@);
    let mut i: usize = 0;
    assert(va.subrange(0, va.len() as int) =~= va);
    assert(vb.subrange(0, vb.len() as int) =~= vb);
    while i < a.len() && i < b.len()
        invariant
            i <= a@.len(),
            i <= b@.len(),
            va == parts_view(a@),
            vb == parts_view(b@),
            parts_lt(va, vb) == parts_lt(va.subrange(i as int, va.len() as int), vb.subrange(i as int, vb.len() as int)),
        decreases a@.len() - i,
    {
        let ghost sa = va.subrange(i as int, va.len() as int);
        let ghost sb = vb.subrange(i as int, vb.len() as int);
        assert(sa[0] == a@[i as int]@ && sb[0] == b@[i as int]@);
        if !part_equal(&a[i], &b[i]) {
            return part_less(&a[i], &b[i]);
        }
        assert(sa.drop_first() =~= va.subrange(i + 1, va.len() as int));
        assert(sb.drop_first() =~= vb.subrange(i + 1, vb.len() as int));
        i = i + 1;
    }
    let ghost sa = va.subrange(i as int, va.len() as int);
    let ghost sb = vb.subrange(i as int, vb.len() as int);
    assert(sa.len() == 0 || sb.len() == 0);
    i < b.len()
}

/// Whether two paths have the same components.
pub fn parts_equal(a: &Vec<PathPart>, b: &Vec<PathPart>) -> (r: bool)
    ensures
        r == (parts_view(a@) == parts_view(b@)),
{
    if a.len() != b.len() {
        return false;
    }
    let mut i: usize = 0;
    while i < a.len()
        invariant
            i <= a@.len(),
            a@.len() == b@.len(),
            forall|j: int| 0 <= j < i ==> (#[trigger] a@[j])@ == b@[j]@,
        decreases a@.len() - i,
    {
        if !part_equal(&a[i], &b[i]) {
            assert(parts_view(a@)[i as int] != parts_view(b@)[i as int]);
            return false;
        }
        i = i + 1;
    }
    assert(parts_view(a@) =~= parts_view(b@));
    true
}

/// Whether the components of `base` begin those of `path`, as
/// `Path::starts_with` asks.
pub fn parts_prefix(base: &Vec<PathPart>, path: &Vec<PathPart>) -> (r: bool)
    ensures
        r == is_prefix(parts_view(base@), parts_view(path@)),
{
    if base.len() > path.len() {
        return false;
    }
    let mut i: usize = 0;
    while i < base.len()
        invariant
            i <= base@.len(),
            base@.len() <= path@.len(),
            forall|j: int| 0 <= j < i ==> (#[trigger] base@[j])@ == path@[j]@,
        decreases base@.len() - i,
    {
        if !part_equal(&base[i], &path[i]) {
            assert(parts_view(path@).subrange(0, base@.len() as int)[i as int] != parts_view(base@)[i as int]);
            return false;
        }
        i = i + 1;
    }
    assert(parts_view(path@).subrange(0, base@.len() as int) =~= parts_view(base@));
    true
}

} // verus!

//! The parts of a Unix path and the order of paths by their parts, as
//! `std::path::Path` defines them: repeated and trailing slashes and inner
//! `.` parts do not count, and paths compare part by part.
use vstd::prelude::*;

use crate::text::{
    lemma_text_lt_asymmetric, lemma_text_lt_irreflexive, lemma_text_lt_transitive,
    lemma_text_trichotomy, chars_less, text_lt,
};

verus! {

/// A part of a path.
pub enum PathPart {
    Root,
    Cur,
    Parent,
    Name(Seq<char>),
}

/// The rank of a kind of part in the order of parts.
pub open spec fn part_rank(p: PathPart) -> int {
    match p {
        PathPart::Root => 0,
        PathPart::Cur => 1,
        PathPart::Parent => 2,
        PathPart::Name(_) => 3,
    }
}

/// The order of parts: the root, then `.`, then `..`, then names by their text.
pub open spec fn part_lt(a: PathPart, b: PathPart) -> bool {
    match (a, b) {
        (PathPart::Name(x), PathPart::Name(y)) => text_lt(x, y),
        _ => part_rank(a) < part_rank(b),
    }
}

/// The pieces of a text between the separator `/`; there is always one.
pub open spec fn split_slash(s: Seq<char>) -> Seq<Seq<char>>
    decreases s.len(),
{
    if s.len() == 0 {
        seq![Seq::<char>::empty()]
    } else {
        let r = split_slash(s.drop_last());
        if s.last() == '/' {
            r.push(Seq::<char>::empty())
        } else {
            r.update(r.len() - 1, r.last().push(s.last()))
        }
    }
}

/// The parts that pieces after the first stand for: empty pieces and `.` do not count.
pub open spec fn inner_parts(pieces: Seq<Seq<char>>) -> Seq<PathPart>
    decreases pieces.len(),
{
    if pieces.len() == 0 {
        Seq::<PathPart>::empty()
    } else {
        let rest = inner_parts(pieces.drop_last());
        let p = pieces.last();
        if p.len() == 0 || p == seq!['.'] {
            rest
        } else if p == seq!['.', '.'] {
            rest.push(PathPart::Parent)
        } else {
            rest.push(PathPart::Name(p))
        }
    }
}

/// The parts of a path: a root for a leading slash, a `.` for a leading
/// `.` piece, then the other pieces.
pub open spec fn parts_of(path: Seq<char>) -> Seq<PathPart> {
    let pieces = split_slash(path);
    if path.len() > 0 && path[0] == '/' {
        seq![PathPart::Root] + inner_parts(pieces.drop_first())
    } else if pieces[0] == seq!['.'] {
        seq![PathPart::Cur] + inner_parts(pieces.drop_first())
    } else {
        inner_parts(pieces)
    }
}

/// Lexicographic order of sequences of parts.
pub open spec fn parts_lt(a: Seq<PathPart>, b: Seq<PathPart>) -> bool
    decreases a.len(),
{
    if a.len() == 0 {
        b.len() > 0
    } else if b.len() == 0 {
        false
    } else if a[0] != b[0] {
        part_lt(a[0], b[0])
    } else {
        parts_lt(a.drop_first(), b.drop_first())
    }
}

/// The order of paths (`Path`'s `Ord`): by their parts.
pub open spec fn path_lt(a: Seq<char>, b: Seq<char>) -> bool {
    parts_lt(parts_of(a), parts_of(b))
}

/// Paths equal by their parts (`Path`'s `==`).
pub open spec fn path_eq(a: Seq<char>, b: Seq<char>) -> bool {
    parts_of(a) == parts_of(b)
}

pub proof fn lemma_part_trichotomy(a: PathPart, b: PathPart)
    ensures
        part_lt(a, b) || a == b || part_lt(b, a),
        !(part_lt(a, b) && part_lt(b, a)),
        !part_lt(a, a),
{
    match (a, b) {
        (PathPart::Name(x), PathPart::Name(y)) => {
            lemma_text_trichotomy(x, y);
            lemma_text_lt_asymmetric(x, y);
            lemma_text_lt_irreflexive(x);
        },
        (PathPart::Name(x), _) => {
            lemma_text_lt_irreflexive(x);
        },
        _ => {
            match b {
                PathPart::Name(y) => {
                    lemma_text_lt_irreflexive(y);
                },
                _ => {},
            }
        },
    }
}

pub proof fn lemma_part_transitive(a: PathPart, b: PathPart, c: PathPart)
    requires
        part_lt(a, b),
        part_lt(b, c),
    ensures
        part_lt(a, c),
{
    match (a, b, c) {
        (PathPart::Name(x), PathPart::Name(y), PathPart::Name(z)) => {
            lemma_text_lt_transitive(x, y, z);
        },
        _ => {},
    }
}

pub proof fn lemma_parts_trichotomy(a: Seq<PathPart>, b: Seq<PathPart>)
    ensures
        parts_lt(a, b) || a == b || parts_lt(b, a),
        !(parts_lt(a, b) && parts_lt(b, a)),
        !parts_lt(a, a),
    decreases a.len(),
{
    if a.len() > 0 && b.len() > 0 {
        lemma_part_trichotomy(a[0], b[0]);
        if a[0] == b[0] {
            lemma_parts_trichotomy(a.drop_first(), b.drop_first());
            if a.drop_first() == b.drop_first() {
                assert(a =~= seq![a[0]] + a.drop_first());
                assert(b =~= seq![b[0]] + b.drop_first());
            }
        }
    } else if a.len() == 0 && b.len() == 0 {
        assert(a =~= b);
    }
    if a.len() > 0 {
        lemma_parts_trichotomy(a.drop_first(), a.drop_first());
    }
}

pub proof fn lemma_parts_transitive(a: Seq<PathPart>, b: Seq<PathPart>, c: Seq<PathPart>)
    requires
        parts_lt(a, b),
        parts_lt(b, c),
    ensures
        parts_lt(a, c),
    decreases a.len(),
{
    if a.len() > 0 && b.len() > 0 && c.len() > 0 {
        lemma_part_trichotomy(a[0], b[0]);
        lemma_part_trichotomy(b[0], c[0]);
        lemma_part_trichotomy(a[0], c[0]);
        if a[0] == b[0] && b[0] == c[0] {
            lemma_parts_transitive(a.drop_first(), b.drop_first(), c.drop_first());
        } else if a[0] != b[0] && b[0] != c[0] {
            lemma_part_transitive(a[0], b[0], c[0]);
        }
    }
}

/// `a` is a proper beginning of `b`: `b` has the parts of `a`, then more.
pub open spec fn parts_inside(a: Seq<PathPart>, b: Seq<PathPart>) -> bool {
    a.len() < b.len() && b.take(a.len() as int) == a
}

/// A path is inside the directory `dir`: its parts are those of `dir`, then more.
pub open spec fn path_inside(dir: Seq<char>, path: Seq<char>) -> bool {
    parts_inside(parts_of(dir), parts_of(path))
}

/// A path is an entry of the directory `dir`: the parts of `dir` and a name.
pub open spec fn path_child(dir: Seq<char>, path: Seq<char>) -> bool {
    exists|n: Seq<char>| parts_of(path) == #[trigger] parts_of(dir).push(PathPart::Name(n))
}

/// Parts followed by more come after them.
pub proof fn lemma_parts_lt_longer(a: Seq<PathPart>, x: Seq<PathPart>)
    requires
        x.len() > 0,
    ensures
        parts_lt(a, a + x),
    decreases a.len(),
{
    if a.len() > 0 {
        lemma_parts_lt_longer(a.drop_first(), x);
        assert((a + x).drop_first() =~= a.drop_first() + x);
        assert((a + x)[0] == a[0]);
    }
}

/// Parts that come before `b` without beginning it stay before `b` when more
/// parts follow them.
pub proof fn lemma_parts_lt_not_prefix(a: Seq<PathPart>, x: Seq<PathPart>, b: Seq<PathPart>)
    requires
        parts_lt(a, b),
        !(a.len() <= b.len() && b.take(a.len() as int) == a),
    ensures
        parts_lt(a + x, b),
    decreases a.len(),
{
    if a.len() == 0 {
        assert(b.take(0) =~= a);
    } else if b.len() > 0 {
        assert((a + x)[0] == a[0]);
        if a[0] == b[0] {
            assert((a + x).drop_first() =~= a.drop_first() + x);
            if a.drop_first().len() <= b.drop_first().len() && b.drop_first().take(
                a.drop_first().len() as int,
            ) == a.drop_first() {
                assert forall|i: int| 0 <= i < a.len() implies b.take(a.len() as int)[i] == a[i] by {
                    if i > 0 {
                        assert(b.drop_first().take(a.drop_first().len() as int)[i - 1] == a.drop_first()[i - 1]);
                    }
                }
                assert(b.take(a.len() as int) =~= a);
            }
            lemma_parts_lt_not_prefix(a.drop_first(), x, b.drop_first());
        }
    }
}

/// An entry of a directory comes after the directory and is inside it; a
/// path after the directory but not inside it comes after all its entries.
pub proof fn lemma_child_order(dir: Seq<char>, e: Seq<char>, s: Seq<char>)
    requires
        path_child(dir, e),
    ensures
        path_lt(dir, e),
        path_inside(dir, e),
        path_lt(dir, s) && !path_inside(dir, s) ==> path_lt(e, s),
{
    let n = choose|n: Seq<char>| parts_of(e) == #[trigger] parts_of(dir).push(PathPart::Name(n));
    let a = parts_of(dir);
    let x = seq![PathPart::Name(n)];
    assert(a.push(PathPart::Name(n)) =~= a + x);
    lemma_parts_lt_longer(a, x);
    assert(parts_of(e).take(a.len() as int) =~= a);
    if path_lt(dir, s) && !path_inside(dir, s) {
        let b = parts_of(s);
        lemma_parts_trichotomy(a, b);
        if a.len() <= b.len() && b.take(a.len() as int) == a {
            assert(a.len() == b.len());
            assert(b =~= b.take(a.len() as int));
        }
        lemma_parts_lt_not_prefix(a, x, b);
    }
}

/// A part of a path, as computed.
pub enum Component {
    RootDir,
    CurDir,
    ParentDir,
    Normal(Vec<char>),
}

/// The part a computed part stands for.
pub open spec fn component_view(c: Component) -> PathPart {
    match c {
        Component::RootDir => PathPart::Root,
        Component::CurDir => PathPart::Cur,
        Component::ParentDir => PathPart::Parent,
        Component::Normal(v) => PathPart::Name(v@),
    }
}

/// The parts computed parts stand for.
pub open spec fn components_view(v: Seq<Component>) -> Seq<PathPart> {
    v.map_values(|c: Component| component_view(c))
}

/// The result of comparing two paths.
#[derive(Clone, Copy, Debug, PartialEq, Eq, Structural)]
pub enum PathOrder {
    Less,
    Equal,
    Greater,
}

/// The pieces of a text between slashes.
fn split_slash_exec(s: &[char]) -> (r: Vec<Vec<char>>)
    ensures
        r@.map_values(|l: Vec<char>| l@) == split_slash(s@),
{
    let mut done: Vec<Vec<char>> = Vec::new();
    let mut cur: Vec<char> = Vec::new();
    let mut i: usize = 0;
    assert(s@.take(0) =~= Seq::<char>::empty());
    assert(done@.map_values(|l: Vec<char>| l@).push(cur@) =~= split_slash(s@.take(0)));
    while i < s.len()
        invariant
            i <= s.len(),
            done@.map_values(|l: Vec<char>| l@).push(cur@) == split_slash(s@.take(i as int)),
        decreases s.len() - i,
    {
        let c = s[i];
        let ghost prev = done@.map_values(|l: Vec<char>| l@).push(cur@);
        assert(s@.take(i + 1).drop_last() =~= s@.take(i as int));
        assert(s@.take(i + 1).last() == c);
        if c == '/' {
            done.push(cur);
            cur = Vec::new();
            assert(done@.map_values(|l: Vec<char>| l@).push(cur@) =~= prev.push(
                Seq::<char>::empty(),
            ));
        } else {
            cur.push(c);
            assert(done@.map_values(|l: Vec<char>| l@).push(cur@) =~= prev.update(
                prev.len() - 1,
                prev.last().push(c),
            ));
        }
        i = i + 1;
    }
    assert(s@.take(s.len() as int) =~= s@);
    done.push(cur);
    done
}

proof fn lemma_split_slash_nonempty(s: Seq<char>)
    ensures
        split_slash(s).len() >= 1,
    decreases s.len(),
{
    if s.len() > 0 {
        lemma_split_slash_nonempty(s.drop_last());
    }
}

fn is_dot(p: &Vec<char>) -> (r: bool)
    ensures
        r == (p@ == seq!['.']),
{
    let r = p.len() == 1 && p[0] == '.';
    assert(r ==> p@ =~= seq!['.']);
    r
}

fn is_dot_dot(p: &Vec<char>) -> (r: bool)
    ensures
        r == (p@ == seq!['.', '.']),
{
    let r = p.len() == 2 && p[0] == '.' && p[1] == '.';
    assert(r ==> p@ =~= seq!['.', '.']);
    r
}

fn copy_chars(v: &Vec<char>) -> (r: Vec<char>)
    ensures
        r@ == v@,
{
    let mut out: Vec<char> = Vec::new();
    let mut i: usize = 0;
    while i < v.len()
        invariant
            i <= v@.len(),
            out@ == v@.take(i as int),
        decreases v.len() - i,
    {
        out.push(v[i]);
        assert(v@.take(i + 1) =~= v@.take(i as int).push(v@[i as int]));
        i = i + 1;
    }
    assert(v@.take(v@.len() as int) =~= v@);
    out
}

/// The parts of the pieces from position `from` on, after the parts in `out`.
fn push_inner_parts(pieces: &Vec<Vec<char>>, from: usize, out: &mut Vec<Component>)
    requires
        from <= pieces@.len(),
    ensures
        components_view(final(out)@) == components_view(old(out)@) + inner_parts(
            pieces@.map_values(|l: Vec<char>| l@).skip(from as int),
        ),
{
    let ghost ps = pieces@.map_values(|l: Vec<char>| l@).skip(from as int);
    let ghost start = components_view(out@);
    let mut i = from;
    assert(ps.take(0) =~= Seq::<Seq<char>>::empty());
    while i < pieces.len()
        invariant
            from <= i <= pieces@.len(),
            ps == pieces@.map_values(|l: Vec<char>| l@).skip(from as int),
            components_view(out@) == start + inner_parts(ps.take(i - from)),
        decreases pieces.len() - i,
    {
        let p = &pieces[i];
        assert(ps[i - from] == p@);
        assert(ps.take(i - from + 1).drop_last() =~= ps.take(i - from));
        assert(ps.take(i - from + 1).last() == p@);
        let ghost prev = out@;
        if p.len() == 0 || is_dot(p) {
        } else if is_dot_dot(p) {
            out.push(Component::ParentDir);
            assert(components_view(out@) =~= components_view(prev).push(PathPart::Parent));
        } else {
            out.push(Component::Normal(copy_chars(p)));
            assert(components_view(out@) =~= components_view(prev).push(PathPart::Name(p@)));
        }
        i = i + 1;
    }
    assert(ps.take(pieces@.len() - from) =~= ps);
}

/// The parts of a path (`Path::components`).
pub fn components(path: &str) -> (r: Vec<Component>)
    ensures
        components_view(r@) == parts_of(path@),
{
    let chars = crate::text::chars_of(path);
    let pieces = split_slash_exec(chars.as_slice());
    proof {
        lemma_split_slash_nonempty(path@);
    }
    let ghost ps = pieces@.map_values(|l: Vec<char>| l@);
    assert(ps.len() >= 1);
    let mut out: Vec<Component> = Vec::new();
    if chars.len() > 0 && chars[0] == '/' {
        out.push(Component::RootDir);
        push_inner_parts(&pieces, 1, &mut out);
        assert(ps.skip(1) =~= ps.drop_first());
    } else if is_dot(&pieces[0]) {
        assert(ps[0] == pieces@[0]@);
        out.push(Component::CurDir);
        push_inner_parts(&pieces, 1, &mut out);
        assert(ps.skip(1) =~= ps.drop_first());
    } else {
        assert(ps[0] == pieces@[0]@);
        push_inner_parts(&pieces, 0, &mut out);
        assert(ps.skip(0) =~= ps);
    }
    out
}

fn chars_equal(a: &Vec<char>, b: &Vec<char>) -> (r: bool)
    ensures
        r == (a@ == b@),
{
    if a.len() != b.len() {
        return false;
    }
    let mut i: usize = 0;
    while i < a.len()
        invariant
            i <= a@.len(),
            a@.len() == b@.len(),
            forall|k: int| 0 <= k < i ==> a@[k] == b@[k],
        decreases a.len() - i,
    {
        if a[i] != b[i] {
            return false;
        }
        i = i + 1;
    }
    assert(a@ =~= b@);
    true
}

fn component_rank(c: &Component) -> (r: u8)
    ensures
        r == part_rank(component_view(*c)),
{
    match c {
        Component::RootDir => 0,
        Component::CurDir => 1,
        Component::ParentDir => 2,
        Component::Normal(_) => 3,
    }
}

/// Compares two parts.
fn compare_components(a: &Component, b: &Component) -> (r: PathOrder)
    ensures
        r == PathOrder::Less <==> part_lt(component_view(*a), component_view(*b)),
        r == PathOrder::Equal <==> component_view(*a) == component_view(*b),
        r == PathOrder::Greater <==> part_lt(component_view(*b), component_view(*a)),
{
    proof {
        lemma_part_trichotomy(component_view(*a), component_view(*b));
    }
    match (a, b) {
        (Component::Normal(x), Component::Normal(y)) => {
            if chars_equal(x, y) {
                PathOrder::Equal
            } else if chars_less(x.as_slice(), y.as_slice()) {
                PathOrder::Less
            } else {
                PathOrder::Greater
            }
        },
        _ => {
            let ra = component_rank(a);
            let rb = component_rank(b);
            if ra < rb {
                PathOrder::Less
            } else if ra > rb {
                PathOrder::Greater
            } else {
                PathOrder::Equal
            }
        },
    }
}

/// Compares two paths by their parts (`Path`'s `Ord`).
pub fn compare_paths(a: &str, b: &str) -> (r: PathOrder)
    ensures
        r == PathOrder::Less <==> path_lt(a@, b@),
        r == PathOrder::Equal <==> path_eq(a@, b@),
        r == PathOrder::Greater <==> path_lt(b@, a@),
{
    let ca = components(a);
    let cb = components(b);
    let ghost pa = components_view(ca@);
    let ghost pb = components_view(cb@);
    proof {
        lemma_parts_trichotomy(pa, pb);
    }
    let mut i: usize = 0;
    assert(pa.skip(0) =~= pa);
    assert(pb.skip(0) =~= pb);
    while i < ca.len() && i < cb.len()
        invariant
            i <= ca@.len(),
            i <= cb@.len(),
            pa == components_view(ca@),
            pb == components_view(cb@),
            pa == parts_of(a@),
            pb == parts_of(b@),
            parts_lt(pa, pb) == parts_lt(pa.skip(i as int), pb.skip(i as int)),
            parts_lt(pb, pa) == parts_lt(pb.skip(i as int), pa.skip(i as int)),
            pa.take(i as int) == pb.take(i as int),
        decreases ca.len() - i,
    {
        let o = compare_components(&ca[i], &cb[i]);
        assert(pa.skip(i as int)[0] == pa[i as int]);
        assert(pb.skip(i as int)[0] == pb[i as int]);
        match o {
            PathOrder::Equal => {},
            _ => {
                assert(pa != pb) by {
                    assert(pa[i as int] != pb[i as int]);
                }
                return o;
            },
        }
        assert(pa.skip(i as int).drop_first() =~= pa.skip(i + 1));
        assert(pb.skip(i as int).drop_first() =~= pb.skip(i + 1));
        assert(pa.take(i + 1) =~= pa.take(i as int).push(pa[i as int]));
        assert(pb.take(i + 1) =~= pb.take(i as int).push(pb[i as int]));
        i = i + 1;
    }
    if ca.len() == cb.len() {
        assert(pa =~= pa.take(i as int));
        assert(pb =~= pb.take(i as int));
        PathOrder::Equal
    } else if i == ca.len() {
        assert(pa != pb);
        PathOrder::Less
    } else {
        assert(pa != pb);
        PathOrder::Greater
    }
}

} // verus!

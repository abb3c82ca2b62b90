//! Unix paths held as text. A path means the sequence of its components, as
//! `std::path::Path::components` gives them: repeated separators, a trailing
//! separator and `.` after the first component are not components.
use crate::text::{
    chars_equal, chars_of, lemma_text_lt_irreflexive, string_of, text_lt, text_order, Order,
};
use vstd::prelude::*;

verus! {

/// A component of a path, as characters.
pub enum Comp {
    Root,
    Cur,
    Parent,
    Normal(Seq<char>),
}

/// A component of a path.
#[derive(Debug, PartialEq, Eq)]
pub enum Component {
    RootDir,
    CurDir,
    ParentDir,
    Normal(String),
}

impl Component {
    pub open spec fn view(&self) -> Comp {
        match self {
            Component::RootDir => Comp::Root,
            Component::CurDir => Comp::Cur,
            Component::ParentDir => Comp::Parent,
            Component::Normal(s) => Comp::Normal(s@),
        }
    }
}

pub open spec fn comps_view(v: Seq<Component>) -> Seq<Comp> {
    v.map_values(|c: Component| c.view())
}

pub open spec fn dot() -> Seq<char> {
    seq!['.']
}

pub open spec fn dot_dot() -> Seq<char> {
    seq!['.', '.']
}

/// The pieces of `s` between separators.
pub open spec fn segments(s: Seq<char>) -> Seq<Seq<char>>
    decreases s.len(),
{
    if s.len() == 0 {
        seq![Seq::<char>::empty()]
    } else {
        let r = segments(s.drop_last());
        if s.last() == '/' {
            r.push(Seq::<char>::empty())
        } else {
            r.update(r.len() - 1, r.last().push(s.last()))
        }
    }
}

/// The component that the piece `seg`, at position `index`, stands for.
pub open spec fn segment_component(seg: Seq<char>, index: int) -> Seq<Comp> {
    if seg.len() == 0 {
        Seq::empty()
    } else if seg == dot() {
        if index == 0 {
            seq![Comp::Cur]
        } else {
            Seq::empty()
        }
    } else if seg == dot_dot() {
        seq![Comp::Parent]
    } else {
        seq![Comp::Normal(seg)]
    }
}

pub open spec fn segments_components(segs: Seq<Seq<char>>) -> Seq<Comp>
    decreases segs.len(),
{
    if segs.len() == 0 {
        Seq::empty()
    } else {
        segments_components(segs.drop_last()) + segment_component(segs.last(), segs.len() - 1)
    }
}

pub open spec fn is_absolute(s: Seq<char>) -> bool {
    s.len() > 0 && s[0] == '/'
}

/// The components of the path `s`.
pub open spec fn components(s: Seq<char>) -> Seq<Comp> {
    (if is_absolute(s) {
        seq![Comp::Root]
    } else {
        Seq::empty()
    }) + segments_components(segments(s))
}

/// The text of one component.
pub open spec fn comp_text(c: Comp) -> Seq<char> {
    match c {
        Comp::Root => seq!['/'],
        Comp::Cur => dot(),
        Comp::Parent => dot_dot(),
        Comp::Normal(s) => s,
    }
}

/// The path made of the components `c`, as `PathBuf::push` joins them.
pub open spec fn render(c: Seq<Comp>) -> Seq<char>
    decreases c.len(),
{
    if c.len() == 0 {
        Seq::empty()
    } else if c.len() == 1 {
        comp_text(c[0])
    } else if c.len() == 2 && c[0] == Comp::Root {
        seq!['/'] + comp_text(c[1])
    } else {
        render(c.drop_last()) + seq!['/'] + comp_text(c.last())
    }
}

/// `Path::join`: an absolute `p` replaces `base`; otherwise `p` follows `base`
/// after a separator, unless `base` is empty or already ends with one.
pub open spec fn join(base: Seq<char>, p: Seq<char>) -> Seq<char> {
    if is_absolute(p) || base.len() == 0 {
        p
    } else if base.last() == '/' {
        base + p
    } else {
        base + seq!['/'] + p
    }
}

/// Whether the components `b` begin the components `a`.
pub open spec fn comps_prefix(a: Seq<Comp>, b: Seq<Comp>) -> bool {
    b.len() <= a.len() && a.take(b.len() as int) == b
}

/// `Path::starts_with`.
pub open spec fn path_starts_with(path: Seq<char>, base: Seq<char>) -> bool {
    comps_prefix(components(path), components(base))
}

/// `Path::strip_prefix`, the remainder rendered from its components.
pub open spec fn strip_prefix(path: Seq<char>, base: Seq<char>) -> Option<Seq<char>> {
    if path_starts_with(path, base) {
        Some(render(components(path).skip(components(base).len() as int)))
    } else {
        None
    }
}

/// `Path::file_name`.
pub open spec fn file_name(path: Seq<char>) -> Option<Seq<char>> {
    let c = components(path);
    if c.len() > 0 && c.last() is Normal {
        Some(c.last()->Normal_0)
    } else {
        None
    }
}

/// Paths are equal when their components are.
pub open spec fn path_eq(a: Seq<char>, b: Seq<char>) -> bool {
    components(a) == components(b)
}

/// The rank of a component's kind in the order of `std::path::Component`.
pub open spec fn comp_rank(c: Comp) -> int {
    match c {
        Comp::Root => 0,
        Comp::Cur => 1,
        Comp::Parent => 2,
        Comp::Normal(_) => 3,
    }
}

pub open spec fn comp_lt(a: Comp, b: Comp) -> bool {
    if comp_rank(a) != comp_rank(b) {
        comp_rank(a) < comp_rank(b)
    } else {
        match (a, b) {
            (Comp::Normal(x), Comp::Normal(y)) => text_lt(x, y),
            _ => false,
        }
    }
}

/// The order of paths: the lexicographic order of their components.
pub open spec fn comps_lt(a: Seq<Comp>, b: Seq<Comp>) -> bool
    decreases a.len(),
{
    if a.len() == 0 {
        b.len() > 0
    } else if b.len() == 0 {
        false
    } else if a[0] != b[0] {
        comp_lt(a[0], b[0])
    } else {
        comps_lt(a.drop_first(), b.drop_first())
    }
}

pub open spec fn path_lt(a: Seq<char>, b: Seq<char>) -> bool {
    comps_lt(components(a), components(b))
}

/// A name that stands as one ordinary component: not empty, without a
/// separator, and neither `.` nor `..`.
pub open spec fn plain_name(n: Seq<char>) -> bool {
    n.len() > 0 && !n.contains('/') && n != dot() && n != dot_dot()
}

/// Text without a separator is one piece.
pub proof fn lemma_segments_single(n: Seq<char>)
    requires
        !n.contains('/'),
    ensures
        segments(n) == seq![n],
    decreases n.len(),
{
    if n.len() > 0 {
        assert(!n.drop_last().contains('/')) by {
            if n.drop_last().contains('/') {
                let k = choose|k: int| 0 <= k < n.drop_last().len() && n.drop_last()[k] == '/';
                assert(n[k] == '/');
            }
        }
        lemma_segments_single(n.drop_last());
        assert(n.last() != '/') by {
            assert(n[n.len() - 1] == n.last());
        }
        assert(n.drop_last().push(n.last()) =~= n);
        assert(seq![n.drop_last()].update(0, n) =~= seq![n]);
        assert(segments(n) == seq![n.drop_last()].update(0, n.drop_last().push(n.last())));
    } else {
        assert(n =~= Seq::<char>::empty());
    }
}

/// A separator and a piece without one add that piece.
pub proof fn lemma_segments_append(s: Seq<char>, n: Seq<char>)
    requires
        !n.contains('/'),
    ensures
        segments(s + seq!['/'] + n) == segments(s).push(n),
    decreases n.len(),
{
    let t = s + seq!['/'] + n;
    if n.len() == 0 {
        assert(t.drop_last() =~= s);
        assert(t.last() == '/');
        assert(n =~= Seq::<char>::empty());
        assert(segments(t) == segments(t.drop_last()).push(Seq::<char>::empty()));
    } else {
        assert(!n.drop_last().contains('/')) by {
            if n.drop_last().contains('/') {
                let k = choose|k: int| 0 <= k < n.drop_last().len() && n.drop_last()[k] == '/';
                assert(n[k] == '/');
            }
        }
        assert(t.drop_last() =~= s + seq!['/'] + n.drop_last());
        lemma_segments_append(s, n.drop_last());
        assert(t.last() == n.last());
        assert(n.last() != '/') by {
            assert(n[n.len() - 1] == n.last());
        }
        let r = segments(s).push(n.drop_last());
        assert(n.drop_last().push(n.last()) =~= n);
        assert(r.update(r.len() - 1, r.last().push(t.last())) =~= segments(s).push(n));
        assert(segments(t) == r.update(r.len() - 1, r.last().push(t.last())));
    }
}

/// Plain names, as pieces, are ordinary components.
pub proof fn lemma_plain_segments_components(names: Seq<Seq<char>>)
    requires
        forall|i: int| 0 <= i < names.len() ==> plain_name(#[trigger] names[i]),
    ensures
        segments_components(names) == names.map_values(|n: Seq<char>| Comp::Normal(n)),
    decreases names.len(),
{
    if names.len() > 0 {
        lemma_plain_segments_components(names.drop_last());
        assert(plain_name(names[names.len() - 1]));
        assert(names.drop_last().map_values(|n: Seq<char>| Comp::Normal(n)) + seq![
            Comp::Normal(names.last()),
        ] =~= names.map_values(|n: Seq<char>| Comp::Normal(n)));
    }
}

/// A separator between two texts splits their pieces.
pub proof fn lemma_segments_concat(s: Seq<char>, t: Seq<char>)
    ensures
        segments(s + seq!['/'] + t) == segments(s) + segments(t),
    decreases t.len(),
{
    let x = s + seq!['/'] + t;
    if t.len() == 0 {
        assert(x.drop_last() =~= s);
        assert(segments(x) == segments(s).push(Seq::<char>::empty()));
        assert(t =~= Seq::<char>::empty());
        assert(segments(s).push(Seq::<char>::empty()) =~= segments(s) + seq![Seq::<char>::empty()]);
    } else {
        assert(x.drop_last() =~= s + seq!['/'] + t.drop_last());
        lemma_segments_concat(s, t.drop_last());
        lemma_segments_nonempty(t.drop_last());
        assert(x.last() == t.last());
        let a = segments(s);
        let b = segments(t.drop_last());
        if t.last() == '/' {
            assert((a + b).push(Seq::<char>::empty()) =~= a + b.push(Seq::<char>::empty()));
        } else {
            assert((a + b).update((a + b).len() - 1, (a + b).last().push(t.last())) =~= a + b.update(
                b.len() - 1,
                b.last().push(t.last()),
            ));
        }
    }
}

/// An absolute path has an empty first piece and at least two pieces.
pub proof fn lemma_segments_absolute(s: Seq<char>)
    requires
        is_absolute(s),
    ensures
        segments(s).len() >= 2,
        segments(s)[0] == Seq::<char>::empty(),
    decreases s.len(),
{
    if s.len() == 1 {
        assert(s.drop_last() =~= Seq::<char>::empty());
        assert(s.last() == '/');
    } else {
        assert(s.drop_last()[0] == s[0]);
        lemma_segments_absolute(s.drop_last());
    }
}

/// A piece that stands for the same component wherever it is: a plain name
/// or `..`.
pub open spec fn steady_segment(n: Seq<char>) -> bool {
    plain_name(n) || n == dot_dot()
}

/// Steady pieces after other pieces add their own components.
pub proof fn lemma_segments_components_steady_append(a: Seq<Seq<char>>, b: Seq<Seq<char>>)
    requires
        forall|i: int| 0 <= i < b.len() ==> steady_segment(#[trigger] b[i]),
    ensures
        segments_components(a + b) == segments_components(a) + segments_components(b),
    decreases b.len(),
{
    if b.len() == 0 {
        assert(a + b =~= a);
        assert(segments_components(a) + Seq::<Comp>::empty() =~= segments_components(a));
    } else {
        assert((a + b).drop_last() =~= a + b.drop_last());
        lemma_segments_components_steady_append(a, b.drop_last());
        assert((a + b).last() == b.last());
        assert(steady_segment(b[b.len() - 1]));
        assert(segment_component(b.last(), (a + b).len() - 1) == segment_component(
            b.last(),
            b.len() - 1,
        ));
        assert(segments_components(a) + segments_components(b.drop_last()) + segment_component(
            b.last(),
            b.len() - 1,
        ) =~= segments_components(a) + (segments_components(b.drop_last()) + segment_component(
            b.last(),
            b.len() - 1,
        )));
    }
}

/// The component that a steady piece stands for.
pub open spec fn steady_component(n: Seq<char>) -> Comp {
    if n == dot_dot() {
        Comp::Parent
    } else {
        Comp::Normal(n)
    }
}

/// Steady pieces stand for one component each.
pub proof fn lemma_steady_segments_components(names: Seq<Seq<char>>)
    requires
        forall|i: int| 0 <= i < names.len() ==> steady_segment(#[trigger] names[i]),
    ensures
        segments_components(names) == names.map_values(|n: Seq<char>| steady_component(n)),
    decreases names.len(),
{
    if names.len() > 0 {
        assert forall|i: int| 0 <= i < names.drop_last().len() implies steady_segment(
            #[trigger] names.drop_last()[i],
        ) by {
            assert(names.drop_last()[i] == names[i]);
        }
        lemma_steady_segments_components(names.drop_last());
        let n = names.last();
        assert(steady_segment(names[names.len() - 1]));
        if n == dot_dot() {
            assert(n.len() != 0 && n != dot());
        }
        assert(segment_component(n, names.len() - 1) =~= seq![steady_component(n)]);
        assert(names.drop_last().map_values(|n: Seq<char>| steady_component(n)) + seq![
            steady_component(n),
        ] =~= names.map_values(|n: Seq<char>| steady_component(n)));
    } else {
        assert(names.map_values(|n: Seq<char>| steady_component(n)) =~= Seq::<Comp>::empty());
    }
}

/// Components made of pieces hold no root, and no `.` unless the first piece
/// is `.`.
pub proof fn lemma_segments_components_kinds(segs: Seq<Seq<char>>)
    ensures
        forall|i: int|
            0 <= i < segments_components(segs).len() ==> !((#[trigger] segments_components(segs)[i]) is Root),
        segs.len() == 0 || segs[0] != dot() ==> forall|i: int|
            0 <= i < segments_components(segs).len() ==> !((#[trigger] segments_components(segs)[i]) is Cur),
    decreases segs.len(),
{
    if segs.len() > 0 {
        lemma_segments_components_kinds(segs.drop_last());
        let a = segments_components(segs.drop_last());
        let b = segment_component(segs.last(), segs.len() - 1);
        if segs.len() > 1 {
            assert(segs.drop_last()[0] == segs[0]);
        } else {
            assert(segs.last() == segs[0]);
        }
        assert forall|i: int| 0 <= i < segments_components(segs).len() implies !((
        #[trigger] segments_components(segs)[i]) is Root) by {
            if i >= a.len() {
                assert(segments_components(segs)[i] == b[i - a.len()]);
            } else {
                assert(segments_components(segs)[i] == a[i]);
            }
        }
        if segs[0] != dot() {
            assert forall|i: int| 0 <= i < segments_components(segs).len() implies !((
            #[trigger] segments_components(segs)[i]) is Cur) by {
                if i >= a.len() {
                    assert(segments_components(segs)[i] == b[i - a.len()]);
                } else {
                    assert(segments_components(segs)[i] == a[i]);
                }
            }
        }
    }
}

/// An absolute path begins with its root and has no other root and no `.`.
pub proof fn lemma_absolute_components(s: Seq<char>)
    requires
        is_absolute(s),
    ensures
        components(s).len() >= 1,
        components(s)[0] is Root,
        forall|i: int| 1 <= i < components(s).len() ==> !((#[trigger] components(s)[i]) is Root) && !(
        components(s)[i] is Cur),
{
    lemma_segments_absolute(s);
    lemma_segments_components_kinds(segments(s));
    let sc = segments_components(segments(s));
    assert(segments(s)[0] != dot()) by {
        assert(segments(s)[0].len() != dot().len());
    }
    assert forall|i: int| 1 <= i < components(s).len() implies !((#[trigger] components(s)[i]) is Root)
        && !(components(s)[i] is Cur) by {
        assert(components(s)[i] == sc[i - 1]);
    }
}

/// A component that a relative path can hold in any place: a plain name or
/// `..`.
pub open spec fn steady_comp(c: Comp) -> bool {
    (c is Normal && plain_name(c->Normal_0)) || c is Parent
}

/// Steady components rendered one after another come back as themselves.
pub proof fn lemma_render_steady(cs: Seq<Comp>)
    requires
        cs.len() > 0,
        forall|i: int| 0 <= i < cs.len() ==> steady_comp(#[trigger] cs[i]),
    ensures
        segments(render(cs)) == cs.map_values(|c: Comp| comp_text(c)),
        render(cs).len() > 0,
        !is_absolute(render(cs)),
        components(render(cs)) == cs,
    decreases cs.len(),
{
    let texts = cs.map_values(|c: Comp| comp_text(c));
    assert forall|i: int| 0 <= i < texts.len() implies steady_segment(#[trigger] texts[i]) by {
        assert(steady_comp(cs[i]));
        if cs[i] is Parent {
            assert(texts[i] == dot_dot());
        }
    }
    let last = comp_text(cs.last());
    assert(steady_segment(texts[cs.len() - 1]));
    assert(!last.contains('/') && last.len() > 0) by {
        assert(texts[cs.len() - 1] == last);
        if last == dot_dot() {
            assert(!dot_dot().contains('/')) by {
                if dot_dot().contains('/') {
                    let k = choose|k: int| 0 <= k < dot_dot().len() && dot_dot()[k] == '/';
                }
            }
        }
    }
    if cs.len() == 1 {
        lemma_segments_single(last);
        assert(texts =~= seq![last]);
        assert(last[0] != '/') by {
            if last[0] == '/' {
                assert(last.contains('/'));
            }
        }
    } else {
        assert(!(cs[0] is Root)) by {
            assert(steady_comp(cs[0]));
        }
        assert forall|i: int| 0 <= i < cs.drop_last().len() implies steady_comp(
            #[trigger] cs.drop_last()[i],
        ) by {
            assert(cs.drop_last()[i] == cs[i]);
        }
        lemma_render_steady(cs.drop_last());
        lemma_segments_append(render(cs.drop_last()), last);
        assert(render(cs) == render(cs.drop_last()) + seq!['/'] + last);
        assert(cs.drop_last().map_values(|c: Comp| comp_text(c)).push(last) =~= texts);
        assert(render(cs)[0] == render(cs.drop_last())[0]);
    }
    lemma_segments_components_steady_append(Seq::empty(), texts);
    assert(Seq::<Seq<char>>::empty() + texts =~= texts);
    lemma_steady_texts_components(cs);
    assert(components(render(cs)) =~= segments_components(segments(render(cs))));
}

/// The texts of steady components stand for those components.
proof fn lemma_steady_texts_components(cs: Seq<Comp>)
    requires
        forall|i: int| 0 <= i < cs.len() ==> steady_comp(#[trigger] cs[i]),
    ensures
        segments_components(cs.map_values(|c: Comp| comp_text(c))) == cs,
    decreases cs.len(),
{
    if cs.len() > 0 {
        assert forall|i: int| 0 <= i < cs.drop_last().len() implies steady_comp(
            #[trigger] cs.drop_last()[i],
        ) by {
            assert(cs.drop_last()[i] == cs[i]);
        }
        lemma_steady_texts_components(cs.drop_last());
        let texts = cs.map_values(|c: Comp| comp_text(c));
        assert(texts.drop_last() =~= cs.drop_last().map_values(|c: Comp| comp_text(c)));
        assert(steady_comp(cs[cs.len() - 1]));
        assert(texts.last() == comp_text(cs.last()));
        assert(cs.drop_last().push(cs.last()) =~= cs);
        if cs.last() is Parent {
            assert(comp_text(cs.last()) == dot_dot());
            assert(dot_dot() != dot()) by {
                assert(dot_dot().len() != dot().len());
            }
            assert(dot_dot().len() != 0);
        }
    }
    if cs.len() == 0 {
        assert(cs.map_values(|c: Comp| comp_text(c)) =~= Seq::<Seq<char>>::empty());
    }
}

/// Joining a relative path made of steady pieces to an absolute path adds
/// its components.
pub proof fn lemma_join_components(root: Seq<char>, rel: Seq<char>)
    requires
        is_absolute(root),
        !is_absolute(rel),
        rel.len() > 0,
        forall|i: int| 0 <= i < segments(rel).len() ==> steady_segment(#[trigger] segments(rel)[i]),
    ensures
        components(join(root, rel)) == components(root) + components(rel),
{
    let x = join(root, rel);
    let sr = segments(rel);
    if root.last() == '/' {
        let r0 = root.drop_last();
        assert(root =~= r0 + seq!['/']);
        assert(x =~= r0 + seq!['/'] + rel);
        lemma_segments_concat(r0, rel);
        assert(segments(root) == segments(r0).push(Seq::<char>::empty()));
        assert(segments(root).drop_last() =~= segments(r0));
        assert(segments_components(segments(root)) =~= segments_components(segments(r0)));
        lemma_segments_components_steady_append(segments(r0), sr);
    } else {
        assert(x == root + seq!['/'] + rel);
        lemma_segments_concat(root, rel);
        lemma_segments_components_steady_append(segments(root), sr);
    }
    assert(x[0] == '/');
    assert(components(x) =~= components(root) + components(rel));
}

/// No piece holds a separator.
pub proof fn lemma_segments_no_slash(s: Seq<char>)
    ensures
        forall|i: int| 0 <= i < segments(s).len() ==> !(#[trigger] segments(s)[i]).contains('/'),
    decreases s.len(),
{
    if s.len() > 0 {
        lemma_segments_no_slash(s.drop_last());
        lemma_segments_nonempty(s.drop_last());
        let r = segments(s.drop_last());
        if s.last() != '/' {
            let l = r.last().push(s.last());
            assert(!l.contains('/')) by {
                if l.contains('/') {
                    let k = choose|k: int| 0 <= k < l.len() && l[k] == '/';
                    if k < r.last().len() {
                        assert(r[r.len() - 1][k] == '/');
                    }
                }
            }
        } else {
            assert(!Seq::<char>::empty().contains('/'));
        }
    }
}

/// The ordinary components that pieces stand for are plain names.
pub proof fn lemma_segment_normals_plain(segs: Seq<Seq<char>>)
    requires
        forall|i: int| 0 <= i < segs.len() ==> !(#[trigger] segs[i]).contains('/'),
    ensures
        forall|i: int|
            0 <= i < segments_components(segs).len() && (#[trigger] segments_components(segs)[i]) is Normal
                ==> plain_name(segments_components(segs)[i]->Normal_0),
    decreases segs.len(),
{
    if segs.len() > 0 {
        lemma_segment_normals_plain(segs.drop_last());
        let a = segments_components(segs.drop_last());
        let b = segment_component(segs.last(), segs.len() - 1);
        assert(!segs.last().contains('/')) by {
            assert(segs[segs.len() - 1] == segs.last());
        }
        assert forall|i: int|
            0 <= i < segments_components(segs).len() && (#[trigger] segments_components(segs)[i]) is Normal
                implies plain_name(segments_components(segs)[i]->Normal_0) by {
            if i < a.len() {
                assert(segments_components(segs)[i] == a[i]);
            } else {
                assert(segments_components(segs)[i] == b[i - a.len()]);
            }
        }
    }
}

/// The ordinary components of a path are plain names.
pub proof fn lemma_normal_components_plain(s: Seq<char>)
    ensures
        forall|i: int|
            0 <= i < components(s).len() && (#[trigger] components(s)[i]) is Normal
                ==> plain_name(components(s)[i]->Normal_0),
{
    lemma_segments_no_slash(s);
    lemma_segment_normals_plain(segments(s));
    let pre = if is_absolute(s) {
        seq![Comp::Root]
    } else {
        Seq::<Comp>::empty()
    };
    let sc = segments_components(segments(s));
    assert forall|i: int|
        0 <= i < components(s).len() && (#[trigger] components(s)[i]) is Normal
            implies plain_name(components(s)[i]->Normal_0) by {
        assert(components(s)[i] == (pre + sc)[i]);
        if i >= pre.len() {
            assert((pre + sc)[i] == sc[i - pre.len()]);
        }
    }
}

pub proof fn lemma_segments_nonempty(s: Seq<char>)
    ensures
        segments(s).len() >= 1,
    decreases s.len(),
{
    if s.len() > 0 {
        lemma_segments_nonempty(s.drop_last());
    }
}

fn one_component(seg: &[char], index: usize, out: &mut Vec<Component>)
    ensures
        comps_view(final(out)@) == comps_view(old(out)@) + segment_component(seg@, index as int),
{
    let ghost start = out@;
    if seg.len() == 0 {
        assert(comps_view(out@) =~= comps_view(start) + segment_component(seg@, index as int));
        return ;
    }
    let dot_chars: [char; 1] = ['.'];
    let dot_dot_chars: [char; 2] = ['.', '.'];
    assert(dot_chars@ =~= dot());
    assert(dot_dot_chars@ =~= dot_dot());
    if chars_equal(seg, &dot_chars) {
        if index == 0 {
            out.push(Component::CurDir);
        }
    } else if chars_equal(seg, &dot_dot_chars) {
        out.push(Component::ParentDir);
    } else {
        out.push(Component::Normal(string_of(seg)));
    }
    assert(comps_view(out@) =~= comps_view(start) + segment_component(seg@, index as int));
}

/// The components of the path `p`.
pub fn path_components(p: &str) -> (res: Vec<Component>)
    ensures
        comps_view(res@) == components(p@),
{
    let s = chars_of(p);
    let mut out: Vec<Component> = Vec::new();
    let absolute = s.len() > 0 && s[0] == '/';
    if absolute {
        out.push(Component::RootDir);
    }
    let ghost prefix = if absolute {
        seq![Comp::Root]
    } else {
        Seq::<Comp>::empty()
    };
    let mut cur: Vec<char> = Vec::new();
    let mut count: usize = 0;
    let ghost mut done: Seq<Seq<char>> = Seq::empty();
    let mut i: usize = 0;
    assert(s@.take(0) =~= Seq::<char>::empty());
    assert(comps_view(out@) =~= prefix + segments_components(done));
    while i < s.len()
        invariant
            i <= s@.len(),
            s@ == p@,
            count == done.len(),
            count <= i,
            segments(s@.take(i as int)) == done.push(cur@),
            comps_view(out@) == prefix + segments_components(done),
            prefix == (if is_absolute(p@) {
                seq![Comp::Root]
            } else {
                Seq::<Comp>::empty()
            }),
        decreases s@.len() - i,
    {
        let c = s[i];
        assert(s@.take(i + 1).drop_last() =~= s@.take(i as int));
        if c == '/' {
            one_component(cur.as_slice(), count, &mut out);
            proof {
                assert(done.push(cur@).drop_last() =~= done);
                assert(segments_components(done.push(cur@)) == segments_components(done)
                    + segment_component(cur@, count as int));
                assert(comps_view(out@) =~= prefix + segments_components(done.push(cur@)));
                done = done.push(cur@);
            }
            cur = Vec::new();
            count += 1;
            assert(segments(s@.take(i + 1)) =~= done.push(cur@));
        } else {
            cur.push(c);
            assert(segments(s@.take(i + 1)) =~= done.push(cur@));
        }
        i += 1;
    }
    one_component(cur.as_slice(), count, &mut out);
    proof {
        assert(s@.take(i as int) =~= s@);
        assert(done.push(cur@).drop_last() =~= done);
        assert(comps_view(out@) =~= prefix + segments_components(done.push(cur@)));
    }
    out
}

pub fn path_is_absolute(p: &str) -> (res: bool)
    ensures
        res == is_absolute(p@),
{
    let s = chars_of(p);
    s.len() > 0 && s[0] == '/'
}

/// `Path::join`.
pub fn path_join(base: &str, p: &str) -> (res: String)
    ensures
        res@ == join(base@, p@),
{
    let b = chars_of(base);
    let q = chars_of(p);
    let mut res = string_of(b.as_slice());
    if (q.len() > 0 && q[0] == '/') || b.len() == 0 {
        return string_of(q.as_slice());
    }
    if b[b.len() - 1] != '/' {
        crate::text::push_char(&mut res, '/');
    }
    crate::text::append_chars(&mut res, q.as_slice());
    res
}

/// The text of one component.
pub fn component_text(c: &Component) -> (res: String)
    ensures
        res@ == comp_text(c.view()),
{
    match c {
        Component::RootDir => {
            let mut s = String::new();
            crate::text::push_char(&mut s, '/');
            assert(s@ =~= seq!['/']);
            s
        },
        Component::CurDir => {
            let mut s = String::new();
            crate::text::push_char(&mut s, '.');
            assert(s@ =~= dot());
            s
        },
        Component::ParentDir => {
            let mut s = String::new();
            crate::text::push_char(&mut s, '.');
            crate::text::push_char(&mut s, '.');
            assert(s@ =~= dot_dot());
            s
        },
        Component::Normal(n) => n.clone(),
    }
}

/// The path made of the components `c[from..]`.
pub fn render_components(c: &[Component], from: usize) -> (res: String)
    requires
        from <= c@.len(),
    ensures
        res@ == render(comps_view(c@).skip(from as int)),
{
    let mut res = String::new();
    let mut i = from;
    let ghost v = comps_view(c@);
    assert(v.skip(from as int).take(0) =~= Seq::<Comp>::empty());
    while i < c.len()
        invariant
            from <= i <= c@.len(),
            v == comps_view(c@),
            res@ == render(v.skip(from as int).take(i - from)),
        decreases c@.len() - i,
    {
        let t = component_text(&c[i]);
        let ghost part = v.skip(from as int).take(i - from + 1);
        assert(part.drop_last() =~= v.skip(from as int).take(i - from));
        assert(part.last() == c@[i as int].view());
        if i == from {
            res = t;
        } else if i == from + 1 && matches!(c[from], Component::RootDir) {
            crate::text::append_str(&mut res, t.as_str());
            assert(part[0] == Comp::Root);
        } else {
            proof {
                if part.len() == 2 {
                    assert(part[0] == c@[from as int].view());
                    assert(c@[from as int] != Component::RootDir);
                }
            }
            crate::text::push_char(&mut res, '/');
            crate::text::append_str(&mut res, t.as_str());
            assert(res@ =~= render(part.drop_last()) + seq!['/'] + comp_text(part.last()));
        }
        i += 1;
    }
    assert(v.skip(from as int).take(i - from) =~= v.skip(from as int));
    res
}

fn component_equal(a: &Component, b: &Component) -> (res: bool)
    ensures
        res == (a.view() == b.view()),
{
    match (a, b) {
        (Component::RootDir, Component::RootDir) => true,
        (Component::CurDir, Component::CurDir) => true,
        (Component::ParentDir, Component::ParentDir) => true,
        (Component::Normal(x), Component::Normal(y)) => crate::text::str_equal(x.as_str(), y.as_str()),
        _ => false,
    }
}

/// Whether `b` is a prefix of `a`, component by component.
pub fn components_prefix(a: &[Component], b: &[Component]) -> (res: bool)
    ensures
        res == comps_prefix(comps_view(a@), comps_view(b@)),
{
    if b.len() > a.len() {
        return false;
    }
    let mut i: usize = 0;
    while i < b.len()
        invariant
            b@.len() <= a@.len(),
            i <= b@.len(),
            forall|j: int| 0 <= j < i ==> a@[j].view() == b@[j].view(),
        decreases b@.len() - i,
    {
        if !component_equal(&a[i], &b[i]) {
            assert(comps_view(a@).take(b@.len() as int)[i as int] == a@[i as int].view());
            return false;
        }
        i += 1;
    }
    assert(comps_view(a@).take(b@.len() as int) =~= comps_view(b@));
    true
}

/// `Path::starts_with`.
pub fn path_starts_with_exec(path: &str, base: &str) -> (res: bool)
    ensures
        res == path_starts_with(path@, base@),
{
    let a = path_components(path);
    let b = path_components(base);
    components_prefix(a.as_slice(), b.as_slice())
}

/// `Path::strip_prefix`.
pub fn path_strip_prefix(path: &str, base: &str) -> (res: Option<String>)
    ensures
        match res {
            Some(r) => strip_prefix(path@, base@) == Some(r@),
            None => strip_prefix(path@, base@) is None,
        },
{
    let a = path_components(path);
    let b = path_components(base);
    if components_prefix(a.as_slice(), b.as_slice()) {
        Some(render_components(a.as_slice(), b.len()))
    } else {
        None
    }
}

/// `Path::components().count()`.
pub fn component_count(p: &str) -> (res: usize)
    ensures
        res == components(p@).len(),
{
    path_components(p).len()
}

/// `Path::file_name`.
pub fn path_file_name(p: &str) -> (res: Option<String>)
    ensures
        match res {
            Some(r) => file_name(p@) == Some(r@),
            None => file_name(p@) is None,
        },
{
    let c = path_components(p);
    if c.len() == 0 {
        return None;
    }
    match &c[c.len() - 1] {
        Component::Normal(n) => Some(n.clone()),
        _ => None,
    }
}

/// Whether two paths have the same components.
pub fn path_equal(a: &str, b: &str) -> (res: bool)
    ensures
        res == path_eq(a@, b@),
{
    let x = path_components(a);
    let y = path_components(b);
    if x.len() != y.len() {
        return false;
    }
    let r = components_prefix(x.as_slice(), y.as_slice());
    proof {
        if r {
            assert(comps_view(x@).take(comps_view(y@).len() as int) =~= comps_view(x@));
        } else if comps_view(x@) == comps_view(y@) {
            assert(comps_view(x@).take(comps_view(y@).len() as int) =~= comps_view(x@));
        }
    }
    r
}

fn component_order(a: &Component, b: &Component) -> (res: Order)
    ensures
        res == Order::Less <==> comp_lt(a.view(), b.view()),
        res == Order::Equal <==> a.view() == b.view(),
        res == Order::Greater <==> comp_lt(b.view(), a.view()),
{
    let ra: u8 = match a {
        Component::RootDir => 0,
        Component::CurDir => 1,
        Component::ParentDir => 2,
        Component::Normal(_) => 3,
    };
    let rb: u8 = match b {
        Component::RootDir => 0,
        Component::CurDir => 1,
        Component::ParentDir => 2,
        Component::Normal(_) => 3,
    };
    if ra < rb {
        Order::Less
    } else if ra > rb {
        Order::Greater
    } else {
        match (a, b) {
            (Component::Normal(x), Component::Normal(y)) => {
                let xc = chars_of(x.as_str());
                let yc = chars_of(y.as_str());
                text_order(xc.as_slice(), yc.as_slice())
            },
            _ => Order::Equal,
        }
    }
}

/// The order of two paths, component by component (`Path::cmp`).
pub fn path_order(a: &str, b: &str) -> (res: Order)
    ensures
        res == Order::Less <==> path_lt(a@, b@),
        res == Order::Equal <==> path_eq(a@, b@),
        res == Order::Greater <==> path_lt(b@, a@),
{
    let x = path_components(a);
    let y = path_components(b);
    let ghost xv = comps_view(x@);
    let ghost yv = comps_view(y@);
    let mut i: usize = 0;
    assert(xv.skip(0) =~= xv);
    assert(yv.skip(0) =~= yv);
    while i < x.len() && i < y.len()
        invariant
            i <= x@.len(),
            i <= y@.len(),
            xv == comps_view(x@),
            yv == comps_view(y@),
            xv == components(a@),
            yv == components(b@),
            xv.take(i as int) == yv.take(i as int),
            comps_lt(xv, yv) == comps_lt(xv.skip(i as int), yv.skip(i as int)),
            comps_lt(yv, xv) == comps_lt(yv.skip(i as int), xv.skip(i as int)),
        decreases x@.len() - i,
    {
        let o = component_order(&x[i], &y[i]);
        if o != Order::Equal {
            proof {
                assert(xv[i as int] == x@[i as int].view());
                assert(yv[i as int] == y@[i as int].view());
                assert(xv.skip(i as int)[0] == xv[i as int]);
                assert(yv.skip(i as int)[0] == yv[i as int]);
                assert(comps_lt(xv.skip(i as int), yv.skip(i as int)) == comp_lt(xv[i as int], yv[i as int]));
                assert(comps_lt(yv.skip(i as int), xv.skip(i as int)) == comp_lt(yv[i as int], xv[i as int]));
                if xv == yv {
                    assert(xv[i as int] == yv[i as int]);
                }
                lemma_comp_lt_asym(xv[i as int], yv[i as int]);
            }
            return o;
        }
        assert(xv.skip(i as int).drop_first() =~= xv.skip(i + 1));
        assert(yv.skip(i as int).drop_first() =~= yv.skip(i + 1));
        assert(xv.take(i + 1) =~= xv.take(i as int).push(xv[i as int]));
        assert(yv.take(i + 1) =~= yv.take(i as int).push(yv[i as int]));
        i += 1;
    }
    proof {
        lemma_comps_lt_irreflexive(xv);
    }
    if x.len() == y.len() {
        assert(xv =~= xv.take(i as int));
        assert(yv =~= yv.take(i as int));
        Order::Equal
    } else if i == x.len() {
        Order::Less
    } else {
        Order::Greater
    }
}

proof fn lemma_comp_lt_asym(a: Comp, b: Comp)
    ensures
        !(comp_lt(a, b) && comp_lt(b, a)),
        !comp_lt(a, a),
{
    match (a, b) {
        (Comp::Normal(x), Comp::Normal(y)) => {
            lemma_text_lt_irreflexive(x);
            if text_lt(x, y) {
                crate::text::lemma_text_lt_asymmetric(x, y);
            }
        },
        _ => {
            match a {
                Comp::Normal(x) => lemma_text_lt_irreflexive(x),
                _ => {},
            }
        },
    }
}

proof fn lemma_comps_lt_irreflexive(a: Seq<Comp>)
    ensures
        !comps_lt(a, a),
    decreases a.len(),
{
    if a.len() > 0 {
        lemma_comps_lt_irreflexive(a.drop_first());
    }
}

/// The order of components is transitive.
pub proof fn lemma_comp_lt_transitive(a: Comp, b: Comp, c: Comp)
    requires
        comp_lt(a, b),
        comp_lt(b, c),
    ensures
        comp_lt(a, c),
{
    match (a, b, c) {
        (Comp::Normal(x), Comp::Normal(y), Comp::Normal(z)) => {
            crate::text::lemma_text_lt_transitive(x, y, z);
        },
        _ => {},
    }
}

/// Two different components are ordered one way or the other.
pub proof fn lemma_comp_lt_total(a: Comp, b: Comp)
    ensures
        a == b || comp_lt(a, b) || comp_lt(b, a),
{
    match (a, b) {
        (Comp::Normal(x), Comp::Normal(y)) => {
            crate::text::lemma_text_lt_total(x, y);
        },
        _ => {},
    }
}

/// The order of paths is transitive.
pub proof fn lemma_comps_lt_transitive(a: Seq<Comp>, b: Seq<Comp>, c: Seq<Comp>)
    requires
        comps_lt(a, b),
        comps_lt(b, c),
    ensures
        comps_lt(a, c),
    decreases a.len(),
{
    if a.len() == 0 {
    } else if b.len() == 0 {
    } else if c.len() == 0 {
    } else if a[0] != b[0] {
        if b[0] != c[0] {
            lemma_comp_lt_transitive(a[0], b[0], c[0]);
            lemma_comp_lt_asym(a[0], c[0]);
        }
    } else if b[0] != c[0] {
    } else {
        lemma_comps_lt_transitive(a.drop_first(), b.drop_first(), c.drop_first());
    }
}

/// Two paths with different components are ordered one way or the other.
pub proof fn lemma_comps_lt_total(a: Seq<Comp>, b: Seq<Comp>)
    ensures
        a == b || comps_lt(a, b) || comps_lt(b, a),
    decreases a.len(),
{
    if a.len() == 0 && b.len() == 0 {
        assert(a =~= b);
    } else if a.len() > 0 && b.len() > 0 {
        if a[0] != b[0] {
            lemma_comp_lt_total(a[0], b[0]);
        } else {
            lemma_comps_lt_total(a.drop_first(), b.drop_first());
            if a.drop_first() == b.drop_first() {
                assert(a =~= seq![a[0]] + a.drop_first());
                assert(b =~= seq![b[0]] + b.drop_first());
            }
        }
    }
}

/// A path is never before itself, and two paths are not each before the
/// other.
pub proof fn lemma_comps_lt_asymmetric(a: Seq<Comp>, b: Seq<Comp>)
    ensures
        !(comps_lt(a, b) && comps_lt(b, a)),
{
    if comps_lt(a, b) && comps_lt(b, a) {
        lemma_comps_lt_transitive(a, b, a);
        lemma_comps_lt_irreflexive(a);
    }
}

} // verus!

//! Lexical path handling with Unix conventions: splitting into components
//! and taking the parent directory as `std::path` does it on Unix,
//! resolving `.` and `..` against each other without touching the
//! filesystem, and expressing one path relative to another. Paths are plain
//! character sequences here; a path built from components is written with
//! `/` between them.
use vstd::prelude::*;

use crate::text::{find_char, first_index, lemma_first_index_is, push_all, push_char, split_on};

verus! {

/// One component of a path (`std::path::Component` without Windows prefixes).
pub enum Comp {
    Root,
    Cur,
    Parent,
    Normal(Seq<char>),
}

/// The component a `/`-separated piece stands for; empty pieces and `.`
/// inside a path stand for none.
pub open spec fn piece_comp(p: Seq<char>) -> Seq<Comp> {
    if p.len() == 0 || p == seq!['.'] {
        seq![]
    } else if p == seq!['.', '.'] {
        seq![Comp::Parent]
    } else {
        seq![Comp::Normal(p)]
    }
}

pub open spec fn pieces_comps(ps: Seq<Seq<char>>) -> Seq<Comp>
    decreases ps.len(),
{
    if ps.len() == 0 {
        seq![]
    } else {
        piece_comp(ps[0]) + pieces_comps(ps.drop_first())
    }
}

/// The components of `s` (`Path::components`): a leading `/` is the root, a
/// leading `.` followed by `/` or the end is kept as the current directory,
/// and every other empty or `.` piece is skipped.
pub open spec fn components(s: Seq<char>) -> Seq<Comp> {
    if s.len() > 0 && s[0] == '/' {
        seq![Comp::Root] + pieces_comps(split_on(s.drop_first(), '/'))
    } else if s.len() > 0 && s[0] == '.' && (s.len() == 1 || s[1] == '/') {
        seq![Comp::Cur] + pieces_comps(split_on(s.drop_first(), '/'))
    } else {
        pieces_comps(split_on(s, '/'))
    }
}

pub open spec fn has_root(cs: Seq<Comp>) -> bool {
    cs.len() > 0 && cs[0] is Root
}

pub open spec fn comp_text(c: Comp) -> Seq<char> {
    match c {
        Comp::Root => seq!['/'],
        Comp::Cur => seq!['.'],
        Comp::Parent => seq!['.', '.'],
        Comp::Normal(n) => n,
    }
}

/// Components written one after another with `/` between them.
pub open spec fn join(cs: Seq<Comp>) -> Seq<char>
    decreases cs.len(),
{
    if cs.len() == 0 {
        seq![]
    } else if cs.len() == 1 {
        comp_text(cs[0])
    } else {
        join(cs.drop_last()) + seq!['/'] + comp_text(cs.last())
    }
}

/// The text of a path built from `cs` by `PathBuf::push`.
pub open spec fn render(cs: Seq<Comp>) -> Seq<char> {
    if has_root(cs) {
        seq!['/'] + join(cs.drop_first())
    } else {
        join(cs)
    }
}

/// One component added to a normalised path: `.` is dropped, `..` cancels
/// a name before it and is kept otherwise (a `..` never cancels another
/// `..`, nor the root), and the root replaces everything.
pub open spec fn norm_push(acc: Seq<Comp>, c: Comp) -> Seq<Comp> {
    match c {
        Comp::Cur => acc,
        Comp::Parent => if acc.len() > 0 && acc.last() is Normal {
            acc.drop_last()
        } else {
            acc.push(Comp::Parent)
        },
        Comp::Root => seq![Comp::Root],
        Comp::Normal(_) => acc.push(c),
    }
}

pub open spec fn normalize_from(acc: Seq<Comp>, cs: Seq<Comp>) -> Seq<Comp>
    decreases cs.len(),
{
    if cs.len() == 0 {
        acc
    } else {
        normalize_from(norm_push(acc, cs[0]), cs.drop_first())
    }
}

/// `.` and `..` resolved against each other without the filesystem.
pub open spec fn normalize(cs: Seq<Comp>) -> Seq<Comp> {
    normalize_from(seq![], cs)
}

/// How many leading components `a` and `b` share.
pub open spec fn common_len(a: Seq<Comp>, b: Seq<Comp>) -> nat
    decreases a.len(),
{
    if a.len() == 0 || b.len() == 0 || a[0] != b[0] {
        0
    } else {
        1 + common_len(a.drop_first(), b.drop_first())
    }
}

/// `target` relative to `base`, both normalised: a `..` for each component
/// of `base` past the shared ones, then the rest of `target`; `.` when that
/// is nothing. None when one is absolute and the other is not.
pub open spec fn relative(base: Seq<Comp>, target: Seq<Comp>) -> Option<Seq<Comp>> {
    if has_root(base) != has_root(target) {
        None
    } else {
        let k = common_len(base, target);
        let r = Seq::new((base.len() - k) as nat, |i: int| Comp::Parent) + target.skip(k as int);
        Some(
            if r.len() == 0 {
                seq![Comp::Cur]
            } else {
                r
            },
        )
    }
}

/// The directory a path's last component sits in (`Path::parent`), as
/// components; None for the root or an empty path.
pub open spec fn parent_comps(cs: Seq<Comp>) -> Option<Seq<Comp>> {
    if cs.len() > 0 && !(cs.last() is Root) {
        Some(cs.drop_last())
    } else {
        None
    }
}

/// The file name of a path (`Path::file_name`).
pub open spec fn file_name(s: Seq<char>) -> Option<Seq<char>> {
    let cs = components(s);
    if cs.len() > 0 && cs.last() is Normal {
        Some(cs.last()->Normal_0)
    } else {
        None
    }
}

/// An exec path component.
pub enum Part {
    Root,
    Cur,
    Parent,
    Normal(Vec<char>),
}

impl View for Part {
    type V = Comp;

    open spec fn view(&self) -> Comp {
        match self {
            Part::Root => Comp::Root,
            Part::Cur => Comp::Cur,
            Part::Parent => Comp::Parent,
            Part::Normal(n) => Comp::Normal(n@),
        }
    }
}

pub open spec fn parts_view(v: Seq<Part>) -> Seq<Comp> {
    v.map_values(|p: Part| p@)
}

/// A copy of `v[lo..hi]`.
pub fn copy_range(v: &[char], lo: usize, hi: usize) -> (r: Vec<char>)
    requires
        lo <= hi <= v@.len(),
    ensures
        r@ == v@.subrange(lo as int, hi as int),
{
    let mut r: Vec<char> = Vec::new();
    let mut i = lo;
    while i < hi
        invariant
            lo <= i <= hi <= v@.len(),
            r@ == v@.subrange(lo as int, i as int),
        decreases hi - i,
    {
        r.push(v[i]);
        assert(r@ =~= v@.subrange(lo as int, i + 1));
        i = i + 1;
    }
    r
}

fn part_clone(p: &Part) -> (r: Part)
    ensures
        r@ == p@,
{
    match p {
        Part::Root => Part::Root,
        Part::Cur => Part::Cur,
        Part::Parent => Part::Parent,
        Part::Normal(n) => {
            let c = copy_range(n, 0, n.len());
            assert(c@ =~= n@);
            Part::Normal(c)
        },
    }
}

pub(crate) fn chars_eq(a: &[char], b: &[char]) -> (r: bool)
    ensures
        r == (a@ == b@),
{
    if a.len() != b.len() {
        return false;
    }
    let mut i: usize = 0;
    while i < a.len()
        invariant
            a@.len() == b@.len(),
            0 <= i <= a@.len(),
            forall|j: int| 0 <= j < i ==> a@[j] == b@[j],
        decreases a@.len() - i,
    {
        if a[i] != b[i] {
            return false;
        }
        i = i + 1;
    }
    assert(a@ =~= b@);
    true
}

fn part_eq(a: &Part, b: &Part) -> (r: bool)
    ensures
        r == (a@ == b@),
{
    match (a, b) {
        (Part::Root, Part::Root) => true,
        (Part::Cur, Part::Cur) => true,
        (Part::Parent, Part::Parent) => true,
        (Part::Normal(x), Part::Normal(y)) => chars_eq(x, y),
        _ => false,
    }
}

pub fn is_root(p: &Part) -> (r: bool)
    ensures
        r == (p@ is Root),
{
    match p {
        Part::Root => true,
        _ => false,
    }
}

fn is_normal(p: &Part) -> (r: bool)
    ensures
        r == (p@ is Normal),
{
    match p {
        Part::Normal(_) => true,
        _ => false,
    }
}

/// The component list for one piece `v[lo..hi]`, appended to `out`.
fn push_piece(out: &mut Vec<Part>, v: &[char], lo: usize, hi: usize)
    requires
        lo <= hi <= v@.len(),
    ensures
        parts_view(final(out)@) == parts_view(old(out)@) + piece_comp(v@.subrange(lo as int, hi as int)),
{
    let ghost p = v@.subrange(lo as int, hi as int);
    if hi == lo {
        assert(parts_view(out@) =~= parts_view(old(out)@) + piece_comp(p));
    } else if hi - lo == 1 && v[lo] == '.' {
        assert(p =~= seq!['.']);
        assert(parts_view(out@) =~= parts_view(old(out)@) + piece_comp(p));
    } else if hi - lo == 2 && v[lo] == '.' && v[lo + 1] == '.' {
        assert(p =~= seq!['.', '.']);
        out.push(Part::Parent);
        assert(parts_view(out@) =~= parts_view(old(out)@) + piece_comp(p));
    } else {
        assert(p.len() == hi - lo);
        assert(p.len() >= 1 ==> p[0] == v@[lo as int]);
        assert(p.len() >= 2 ==> p[1] == v@[lo + 1]);
        assert(p != seq!['.']) by {
            if p == seq!['.'] {
                assert(p[0] == '.');
            }
        }
        assert(p != seq!['.', '.']) by {
            if p == seq!['.', '.'] {
                assert(p[0] == '.' && p[1] == '.');
            }
        }
        let n = copy_range(v, lo, hi);
        out.push(Part::Normal(n));
        assert(parts_view(out@) =~= parts_view(old(out)@) + piece_comp(p));
    }
}

proof fn lemma_split_at_slash(v: Seq<char>, pos: int, e: int)
    requires
        0 <= pos <= e <= v.len(),
        e - pos == first_index(v.subrange(pos, v.len() as int), '/'),
    ensures
        e < v.len() ==> split_on(v.skip(pos), '/') == seq![v.subrange(pos, e)] + split_on(
            v.skip(e + 1),
            '/',
        ),
        e == v.len() ==> split_on(v.skip(pos), '/') == seq![v.subrange(pos, e)],
{
    let s = v.skip(pos);
    assert(s =~= v.subrange(pos, v.len() as int));
    if e < v.len() {
        assert(s.take(e - pos) =~= v.subrange(pos, e));
        assert(s.skip(e - pos + 1) =~= v.skip(e + 1));
    } else {
        assert(s =~= v.subrange(pos, e));
    }
}

proof fn lemma_pieces_cons(a: Seq<char>, rest: Seq<Seq<char>>)
    ensures
        pieces_comps(seq![a] + rest) == piece_comp(a) + pieces_comps(rest),
{
    assert((seq![a] + rest).drop_first() =~= rest);
}

/// The components of the pieces of `v[start..]`, appended to `out`.
fn push_pieces(out: &mut Vec<Part>, v: &[char], start: usize)
    requires
        start <= v@.len(),
    ensures
        parts_view(final(out)@) == parts_view(old(out)@) + pieces_comps(split_on(v@.skip(start as int), '/')),
{
    let mut pos = start;
    loop
        invariant_except_break
            start <= pos <= v@.len(),
            parts_view(out@) + pieces_comps(split_on(v@.skip(pos as int), '/')) == parts_view(
                old(out)@,
            ) + pieces_comps(split_on(v@.skip(start as int), '/')),
        ensures
            parts_view(out@) == parts_view(old(out)@) + pieces_comps(split_on(v@.skip(start as int), '/')),
        decreases v@.len() - pos,
    {
        let e = find_char(v, pos, v.len(), '/');
        let ghost before = parts_view(out@);
        push_piece(out, v, pos, e);
        proof {
            lemma_split_at_slash(v@, pos as int, e as int);
            let piece = v@.subrange(pos as int, e as int);
            if e < v@.len() {
                lemma_pieces_cons(piece, split_on(v@.skip(e + 1), '/'));
                assert(before + pieces_comps(split_on(v@.skip(pos as int), '/')) =~= parts_view(out@)
                    + pieces_comps(split_on(v@.skip(e + 1), '/')));
            } else {
                lemma_pieces_cons(piece, Seq::empty());
                assert(seq![piece] + Seq::<Seq<char>>::empty() =~= seq![piece]);
                assert(pieces_comps(Seq::<Seq<char>>::empty()) =~= Seq::<Comp>::empty());
                assert(before + pieces_comps(split_on(v@.skip(pos as int), '/')) =~= parts_view(out@));
            }
        }
        if e == v.len() {
            break;
        }
        pos = e + 1;
    }
}

/// The components of the path `v`.
pub fn components_of(v: &[char]) -> (r: Vec<Part>)
    ensures
        parts_view(r@) == components(v@),
{
    let mut r: Vec<Part> = Vec::new();
    if v.len() > 0 && v[0] == '/' {
        r.push(Part::Root);
        push_pieces(&mut r, v, 1);
        assert(v@.skip(1) =~= v@.drop_first());
        assert(parts_view(r@) =~= components(v@));
    } else if v.len() > 0 && v[0] == '.' && (v.len() == 1 || v[1] == '/') {
        r.push(Part::Cur);
        push_pieces(&mut r, v, 1);
        assert(v@.skip(1) =~= v@.drop_first());
        assert(parts_view(r@) =~= components(v@));
    } else {
        push_pieces(&mut r, v, 0);
        assert(v@.skip(0) =~= v@);
        assert(parts_view(r@) =~= components(v@));
    }
    r
}

/// `cs` with `.` and `..` resolved.
pub fn normalize_parts(cs: &Vec<Part>) -> (r: Vec<Part>)
    ensures
        parts_view(r@) == normalize(parts_view(cs@)),
{
    let mut r: Vec<Part> = Vec::new();
    let mut i: usize = 0;
    assert(parts_view(cs@).skip(0) =~= parts_view(cs@));
    assert(parts_view(r@) =~= Seq::<Comp>::empty());
    while i < cs.len()
        invariant
            0 <= i <= cs@.len(),
            normalize_from(parts_view(r@), parts_view(cs@).skip(i as int)) == normalize(
                parts_view(cs@),
            ),
        decreases cs@.len() - i,
    {
        let ghost acc = parts_view(r@);
        let ghost rest = parts_view(cs@).skip(i as int);
        assert(rest.drop_first() =~= parts_view(cs@).skip(i + 1));
        match &cs[i] {
            Part::Cur => {},
            Part::Parent => {
                if r.len() > 0 && is_normal(&r[r.len() - 1]) {
                    r.pop();
                    assert(parts_view(r@) =~= acc.drop_last());
                } else {
                    r.push(Part::Parent);
                    assert(parts_view(r@) =~= acc.push(Comp::Parent));
                }
            },
            Part::Root => {
                r = Vec::new();
                r.push(Part::Root);
                assert(parts_view(r@) =~= seq![Comp::Root]);
            },
            Part::Normal(n) => {
                r.push(Part::Normal(copy_range(n, 0, n.len())));
                assert(n@.subrange(0, n@.len() as int) =~= n@);
                assert(parts_view(r@) =~= acc.push(cs@[i as int]@));
            },
        }
        i = i + 1;
    }
    assert(parts_view(cs@).skip(i as int) =~= Seq::<Comp>::empty());
    r
}

/// `target` relative to `base` (both normalised), or None when exactly one
/// of them is absolute.
pub fn relative_parts(base: &Vec<Part>, target: &Vec<Part>) -> (r: Option<Vec<Part>>)
    ensures
        match relative(parts_view(base@), parts_view(target@)) {
            Some(rel) => r is Some && parts_view(r->0@) == rel,
            None => r is None,
        },
{
    let ghost b = parts_view(base@);
    let ghost t = parts_view(target@);
    let base_root = base.len() > 0 && is_root(&base[0]);
    let target_root = target.len() > 0 && is_root(&target[0]);
    if base_root != target_root {
        return None;
    }
    let mut k: usize = 0;
    assert(b.skip(0) =~= b);
    assert(t.skip(0) =~= t);
    while k < base.len() && k < target.len() && part_eq(&base[k], &target[k])
        invariant
            b == parts_view(base@),
            t == parts_view(target@),
            0 <= k <= base@.len(),
            k <= target@.len(),
            common_len(b, t) == k + common_len(b.skip(k as int), t.skip(k as int)),
        decreases base@.len() - k,
    {
        assert(b.skip(k as int).drop_first() =~= b.skip(k + 1));
        assert(t.skip(k as int).drop_first() =~= t.skip(k + 1));
        k = k + 1;
    }
    assert(common_len(b.skip(k as int), t.skip(k as int)) == 0) by {
        if k < base.len() && k < target.len() {
            assert(b.skip(k as int)[0] == b[k as int]);
            assert(t.skip(k as int)[0] == t[k as int]);
        }
    }
    let mut r: Vec<Part> = Vec::new();
    let mut j = k;
    assert(parts_view(r@) =~= Seq::new(0, |i: int| Comp::Parent));
    while j < base.len()
        invariant
            k <= j <= base@.len(),
            parts_view(r@) == Seq::new((j - k) as nat, |i: int| Comp::Parent),
        decreases base@.len() - j,
    {
        let ghost prev = r@;
        r.push(Part::Parent);
        assert(parts_view(r@) =~= parts_view(prev).push(Comp::Parent));
        assert(parts_view(r@) =~= Seq::new((j + 1 - k) as nat, |i: int| Comp::Parent));
        j = j + 1;
    }
    let ghost ups = parts_view(r@);
    let mut j = k;
    assert(t.subrange(k as int, k as int) =~= Seq::<Comp>::empty());
    while j < target.len()
        invariant
            t == parts_view(target@),
            k <= j <= target@.len(),
            parts_view(r@) == ups + t.subrange(k as int, j as int),
        decreases target@.len() - j,
    {
        let ghost prev = r@;
        let p = part_clone(&target[j]);
        r.push(p);
        assert(parts_view(r@) =~= parts_view(prev).push(t[j as int]));
        assert(parts_view(r@) =~= ups + t.subrange(k as int, j + 1));
        j = j + 1;
    }
    assert(t.subrange(k as int, j as int) =~= t.skip(k as int));
    if r.len() == 0 {
        r.push(Part::Cur);
        assert(parts_view(r@) =~= seq![Comp::Cur]);
    }
    Some(r)
}

fn push_comp_text(out: &mut String, p: &Part)
    ensures
        final(out)@ == old(out)@ + comp_text(p@),
{
    match p {
        Part::Root => push_char(out, '/'),
        Part::Cur => push_char(out, '.'),
        Part::Parent => {
            push_char(out, '.');
            push_char(out, '.');
            assert(out@ =~= old(out)@ + comp_text(p@));
        },
        Part::Normal(n) => push_all(out, n),
    }
}

/// The text of the path with components `cs`.
pub fn render_parts(cs: &Vec<Part>) -> (s: String)
    ensures
        s@ == render(parts_view(cs@)),
{
    let ghost c = parts_view(cs@);
    let mut s = String::new();
    let mut start: usize = 0;
    if cs.len() > 0 && is_root(&cs[0]) {
        push_char(&mut s, '/');
        start = 1;
    }
    let ghost body = c.skip(start as int);
    let ghost head = s@;
    assert(render(c) == head + join(body)) by {
        if start == 1 {
            assert(body =~= c.drop_first());
        } else {
            assert(body =~= c);
        }
    }
    let mut i = start;
    while i < cs.len()
        invariant
            start <= i <= cs@.len(),
            body == c.skip(start as int),
            c == parts_view(cs@),
            s@ == head + join(body.take(i - start)),
        decreases cs@.len() - i,
    {
        if i > start {
            push_char(&mut s, '/');
        }
        push_comp_text(&mut s, &cs[i]);
        assert(body.take(i + 1 - start).drop_last() =~= body.take(i - start));
        assert(body.take(i + 1 - start).last() == c[i as int]);
        assert(s@ =~= head + join(body.take(i + 1 - start)));
        i = i + 1;
    }
    assert(body.take(i - start) =~= body);
    s
}

} // verus!

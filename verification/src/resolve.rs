//! Where a rebased path points: read from the new directory, it names the
//! same place the entry named from the old one.
use vstd::prelude::*;

use crate::paths::{
    common_len, comp_text, components, has_root, join, norm_push, normalize, normalize_from,
    piece_comp, pieces_comps, relative, render, Comp,
};
use crate::playlist::{is_absolute_like_spec, is_url_spec, rebase_spec};
use crate::text::{first_index, lacks, lemma_first_index_is, lemma_first_index_props, split_on};

verus! {

/// A name a path component can carry: not empty, no `/`, not `.` or `..`.
pub open spec fn valid_name(n: Seq<char>) -> bool {
    n.len() > 0 && lacks(n, '/') && n != seq!['.'] && n != seq!['.', '.']
}

/// Every `Normal` component carries a valid name.
pub open spec fn names_valid(cs: Seq<Comp>) -> bool {
    forall|i: int| 0 <= i < cs.len() ==> (#[trigger] cs[i] matches Comp::Normal(n) ==> valid_name(n))
}

/// The shape of a lexically normalised path: an optional root, then `..`
/// components, then names.
pub open spec fn lexical(cs: Seq<Comp>) -> bool {
    &&& names_valid(cs)
    &&& forall|i: int| 0 <= i < cs.len() ==> !(#[trigger] cs[i] is Cur)
    &&& forall|i: int| 0 <= i < cs.len() && (#[trigger] cs[i]) is Root ==> i == 0
    &&& forall|i: int, j: int|
        0 <= i < j < cs.len() && (#[trigger] cs[j]) is Parent ==> !(#[trigger] cs[i] is Normal)
}

/// Components a relative path is written with: `..` and names only.
pub open spec fn plain(cs: Seq<Comp>) -> bool {
    forall|i: int|
        0 <= i < cs.len() ==> (#[trigger] cs[i] is Parent || (cs[i] matches Comp::Normal(n)
            && valid_name(n)))
}

// ---------------------------------------------------------------------------
// Splitting and joining
// ---------------------------------------------------------------------------

proof fn lemma_split_pieces_lack(s: Seq<char>, c: char)
    ensures
        forall|i: int| 0 <= i < split_on(s, c).len() ==> lacks(#[trigger] split_on(s, c)[i], c),
    decreases s.len(),
{
    lemma_first_index_props(s, c);
    let k = first_index(s, c);
    if 0 <= k < s.len() {
        lemma_split_pieces_lack(s.skip(k + 1), c);
        let r = split_on(s, c);
        assert forall|i: int| 0 <= i < r.len() implies lacks(#[trigger] r[i], c) by {
            if i > 0 {
                assert(r[i] == split_on(s.skip(k + 1), c)[i - 1]);
            } else {
                assert forall|j: int| 0 <= j < r[0].len() implies r[0][j] != c by {
                    assert(r[0][j] == s[j]);
                }
            }
        }
    }
}

proof fn lemma_split_concat(a: Seq<char>, c: char, b: Seq<char>)
    ensures
        split_on(a + seq![c] + b, c) == split_on(a, c) + split_on(b, c),
    decreases a.len(),
{
    let s = a + seq![c] + b;
    lemma_first_index_props(a, c);
    let k = first_index(a, c);
    if k == a.len() {
        assert forall|i: int| 0 <= i < a.len() implies a[i] != c by {}
        assert forall|i: int| 0 <= i < k implies s[i] != c by {
            assert(s[i] == a[i]);
        }
        lemma_first_index_is(s, c, k);
        assert(s.take(k) =~= a);
        assert(s.skip(k + 1) =~= b);
        assert(split_on(a, c) == seq![a]);
    } else {
        assert forall|i: int| 0 <= i < k implies s[i] != c by {
            assert(s[i] == a[i]);
        }
        lemma_first_index_is(s, c, k);
        lemma_split_concat(a.skip(k + 1), c, b);
        assert(s.take(k) =~= a.take(k));
        assert(s.skip(k + 1) =~= a.skip(k + 1) + seq![c] + b);
        assert(split_on(s, c) =~= split_on(a, c) + split_on(b, c));
    }
}

proof fn lemma_split_lacking(a: Seq<char>, c: char)
    requires
        lacks(a, c),
    ensures
        split_on(a, c) == seq![a],
{
    lemma_first_index_is(a, c, a.len() as int);
}

proof fn lemma_pieces_concat(a: Seq<Seq<char>>, b: Seq<Seq<char>>)
    ensures
        pieces_comps(a + b) == pieces_comps(a) + pieces_comps(b),
    decreases a.len(),
{
    if a.len() == 0 {
        assert(a + b =~= b);
        assert(pieces_comps(a) =~= Seq::<Comp>::empty());
        assert(pieces_comps(a) + pieces_comps(b) =~= pieces_comps(b));
    } else {
        lemma_pieces_concat(a.drop_first(), b);
        assert((a + b).drop_first() =~= a.drop_first() + b);
        assert(pieces_comps(a + b) =~= pieces_comps(a) + pieces_comps(b));
    }
}

proof fn lemma_pieces_one(p: Seq<char>)
    ensures
        pieces_comps(seq![p]) == piece_comp(p),
{
    assert(seq![p].drop_first() =~= Seq::<Seq<char>>::empty());
    assert(pieces_comps(Seq::<Seq<char>>::empty()) =~= Seq::<Comp>::empty());
    assert(piece_comp(p) + Seq::<Comp>::empty() =~= piece_comp(p));
}

proof fn lemma_piece_of_plain(c: Comp)
    requires
        c is Parent || (c matches Comp::Normal(n) && valid_name(n)),
    ensures
        piece_comp(comp_text(c)) == seq![c],
        lacks(comp_text(c), '/'),
        comp_text(c).len() > 0,
{
    match c {
        Comp::Parent => {
            assert(comp_text(c) =~= seq!['.', '.']);
        },
        _ => {},
    }
}

/// Reading back plain components written with `/` between them gives the
/// components back.
proof fn lemma_pieces_of_join(cs: Seq<Comp>)
    requires
        plain(cs),
    ensures
        pieces_comps(split_on(join(cs), '/')) == cs,
    decreases cs.len(),
{
    if cs.len() == 0 {
        assert(first_index(Seq::<char>::empty(), '/') == 0);
        assert(split_on(join(cs), '/') =~= seq![Seq::<char>::empty()]);
        lemma_pieces_one(Seq::<char>::empty());
    } else if cs.len() == 1 {
        assert(cs[0] == cs[0]);
        lemma_piece_of_plain(cs[0]);
        lemma_split_lacking(comp_text(cs[0]), '/');
        lemma_pieces_one(comp_text(cs[0]));
        assert(cs =~= seq![cs[0]]);
    } else {
        let init = cs.drop_last();
        assert(plain(init)) by {
            assert forall|i: int| 0 <= i < init.len() implies #[trigger] init[i] is Parent || (
            init[i] matches Comp::Normal(n) && valid_name(n)) by {
                assert(init[i] == cs[i]);
            }
        }
        lemma_pieces_of_join(init);
        assert(cs[cs.len() - 1] == cs.last());
        lemma_piece_of_plain(cs.last());
        let t = comp_text(cs.last());
        lemma_split_concat(join(init), '/', t);
        lemma_split_lacking(t, '/');
        lemma_pieces_concat(split_on(join(init), '/'), seq![t]);
        lemma_pieces_one(t);
        assert(cs =~= init + seq![cs.last()]);
    }
}

/// Components whose text parses back to them: `.` alone, or names and `..`
/// after an optional root.
pub open spec fn renderable(cs: Seq<Comp>) -> bool {
    ||| cs == seq![Comp::Cur]
    ||| plain(cs)
    ||| (cs.len() > 0 && cs[0] is Root && plain(cs.drop_first()))
}

proof fn lemma_lexical_renderable(cs: Seq<Comp>)
    requires
        lexical(cs),
    ensures
        renderable(cs),
{
    if cs.len() > 0 && cs[0] is Root {
        let rest = cs.drop_first();
        assert forall|i: int| 0 <= i < rest.len() implies #[trigger] rest[i] is Parent || (
        rest[i] matches Comp::Normal(n) && valid_name(n)) by {
            assert(rest[i] == cs[i + 1]);
        }
    } else {
        assert forall|i: int| 0 <= i < cs.len() implies #[trigger] cs[i] is Parent || (
        cs[i] matches Comp::Normal(n) && valid_name(n)) by {
            if cs[i] is Root {
                assert(i == 0);
            }
        }
    }
}

/// Parsing the text of renderable components gives them back.
proof fn lemma_components_of_render(cs: Seq<Comp>)
    requires
        renderable(cs),
    ensures
        components(render(cs)) == cs,
{
    if cs == seq![Comp::Cur] {
        let s = render(cs);
        assert(join(cs) =~= seq!['.']);
        assert(s.drop_first() =~= Seq::<char>::empty());
        assert(first_index(Seq::<char>::empty(), '/') == 0);
        assert(split_on(Seq::<char>::empty(), '/') =~= seq![Seq::<char>::empty()]);
        lemma_pieces_one(Seq::<char>::empty());
        assert(components(s) =~= cs);
    } else if has_root(cs) {
        let rest = cs.drop_first();
        assert(plain(rest)) by {
            if plain(cs) {
                assert(cs[0] is Parent || cs[0] is Normal);
            }
        }
        lemma_pieces_of_join(rest);
        let s = render(cs);
        assert(s.drop_first() =~= join(rest));
        assert(cs =~= seq![Comp::Root] + rest);
    } else {
        lemma_pieces_of_join(cs);
        let s = render(cs);
        if cs.len() > 0 {
            lemma_join_first(cs);
            assert(cs[0] == cs[0]);
            lemma_piece_of_plain(cs[0]);
            let t = comp_text(cs[0]);
            assert(s[0] == t[0]);
            if t[0] == '.' {
                assert(t.len() >= 2) by {
                    if t.len() == 1 {
                        assert(t =~= seq!['.']);
                    }
                }
                assert(s[1] == t[1]);
                assert(t[1] != '/');
            }
            assert(t[0] != '/');
        } else {
            assert(s =~= Seq::<char>::empty());
        }
    }
}

/// The text of components starts with the text of the first one.
proof fn lemma_join_first(cs: Seq<Comp>)
    requires
        cs.len() > 0,
    ensures
        join(cs).len() >= comp_text(cs[0]).len(),
        forall|i: int| 0 <= i < comp_text(cs[0]).len() ==> join(cs)[i] == comp_text(cs[0])[i],
    decreases cs.len(),
{
    if cs.len() > 1 {
        lemma_join_first(cs.drop_last());
        assert(cs.drop_last()[0] == cs[0]);
    }
}

// ---------------------------------------------------------------------------
// Normalisation
// ---------------------------------------------------------------------------

proof fn lemma_normalize_concat(acc: Seq<Comp>, a: Seq<Comp>, b: Seq<Comp>)
    ensures
        normalize_from(acc, a + b) == normalize_from(normalize_from(acc, a), b),
    decreases a.len(),
{
    if a.len() == 0 {
        assert(a + b =~= b);
    } else {
        assert((a + b).drop_first() =~= a.drop_first() + b);
        lemma_normalize_concat(norm_push(acc, a[0]), a.drop_first(), b);
    }
}

proof fn lemma_pieces_names_valid(ps: Seq<Seq<char>>)
    requires
        forall|i: int| 0 <= i < ps.len() ==> lacks(#[trigger] ps[i], '/'),
    ensures
        names_valid(pieces_comps(ps)),
        forall|i: int| 0 <= i < pieces_comps(ps).len() ==> !(#[trigger] pieces_comps(ps)[i] is Root)
            && !(pieces_comps(ps)[i] is Cur),
    decreases ps.len(),
{
    if ps.len() > 0 {
        let rest = ps.drop_first();
        assert forall|i: int| 0 <= i < rest.len() implies lacks(#[trigger] rest[i], '/') by {
            assert(rest[i] == ps[i + 1]);
        }
        lemma_pieces_names_valid(rest);
        assert(lacks(ps[0], '/'));
        let all = pieces_comps(ps);
        let first = piece_comp(ps[0]);
        assert forall|i: int| 0 <= i < all.len() implies (#[trigger] all[i] matches Comp::Normal(n)
            ==> valid_name(n)) && !(all[i] is Root) && !(all[i] is Cur) by {
            if i < first.len() {
                assert(all[i] == first[i]);
            } else {
                assert(all[i] == pieces_comps(rest)[i - first.len()]);
            }
        }
    }
}

/// Path components carry only valid names, with the root and `.` only first.
pub proof fn lemma_components_names_valid(s: Seq<char>)
    ensures
        names_valid(components(s)),
        forall|i: int| 0 < i < components(s).len() ==> !(#[trigger] components(s)[i] is Root) && !(
        components(s)[i] is Cur),
{
    let t = if s.len() > 0 && (s[0] == '/' || (s[0] == '.' && (s.len() == 1 || s[1] == '/'))) {
        s.drop_first()
    } else {
        s
    };
    lemma_split_pieces_lack(t, '/');
    lemma_pieces_names_valid(split_on(t, '/'));
    let p = pieces_comps(split_on(t, '/'));
    let cs = components(s);
    assert forall|i: int| 0 <= i < cs.len() implies (#[trigger] cs[i] matches Comp::Normal(n)
        ==> valid_name(n)) by {
        if cs.len() > p.len() {
            if i > 0 {
                assert(cs[i] == p[i - 1]);
            }
        } else {
            assert(cs[i] == p[i]);
        }
    }
    assert forall|i: int| 0 < i < cs.len() implies !(#[trigger] cs[i] is Root) && !(cs[i] is Cur) by {
        if cs.len() > p.len() {
            assert(cs[i] == p[i - 1]);
        } else {
            assert(cs[i] == p[i]);
        }
    }
}

proof fn lemma_names_valid_concat(a: Seq<Comp>, b: Seq<Comp>)
    requires
        names_valid(a),
        names_valid(b),
    ensures
        names_valid(a + b),
{
    assert forall|i: int| 0 <= i < (a + b).len() implies (#[trigger] (a + b)[i] matches Comp::Normal(n)
        ==> valid_name(n)) by {
        if i < a.len() {
            assert((a + b)[i] == a[i]);
        } else {
            assert((a + b)[i] == b[i - a.len()]);
        }
    }
}

/// A lexical path that does not end in a name holds no name at all.
proof fn lemma_lexical_no_name(acc: Seq<Comp>)
    requires
        lexical(acc),
        acc.len() > 0 ==> !(acc.last() is Normal),
    ensures
        forall|i: int| 0 <= i < acc.len() ==> !(#[trigger] acc[i] is Normal),
{
    assert forall|i: int| 0 <= i < acc.len() implies !(#[trigger] acc[i] is Normal) by {
        let l = acc.len() - 1;
        if acc[i] is Normal && i < l {
            assert(acc[l] == acc.last());
            if acc[l] is Root {
                assert(l == 0);
            }
            assert(!(acc[l] is Cur));
            assert(acc[l] is Parent);
        }
    }
}

/// Normalising keeps a path lexical.
proof fn lemma_normalize_lexical(acc: Seq<Comp>, cs: Seq<Comp>)
    requires
        lexical(acc),
        names_valid(cs),
    ensures
        lexical(normalize_from(acc, cs)),
    decreases cs.len(),
{
    if cs.len() > 0 {
        let c = cs[0];
        let next = norm_push(acc, c);
        assert(lexical(next)) by {
            match c {
                Comp::Cur => {},
                Comp::Root => {},
                Comp::Parent => {
                    if acc.len() > 0 && acc.last() is Normal {
                        assert forall|i: int| 0 <= i < next.len() implies #[trigger] next[i]
                            == acc[i] by {}
                    } else {
                        lemma_lexical_no_name(acc);
                        assert forall|i: int| 0 <= i < acc.len() implies #[trigger] next[i]
                            == acc[i] by {}
                    }
                },
                Comp::Normal(n) => {
                    assert(valid_name(n));
                    assert forall|i: int| 0 <= i < acc.len() implies #[trigger] next[i] == acc[i] by {}
                },
            }
        }
        let rest = cs.drop_first();
        assert(names_valid(rest)) by {
            assert forall|i: int| 0 <= i < rest.len() implies (#[trigger] rest[i] matches Comp::Normal(n)
                ==> valid_name(n)) by {
                assert(rest[i] == cs[i + 1]);
            }
        }
        lemma_normalize_lexical(next, rest);
    }
}

/// Normalising the rest of a lexical path onto its beginning rebuilds it.
proof fn lemma_normalize_rebuilds(t: Seq<Comp>, k: int)
    requires
        lexical(t),
        0 <= k <= t.len(),
    ensures
        normalize_from(t.take(k), t.skip(k)) == t,
    decreases t.len() - k,
{
    if k == t.len() {
        assert(t.take(k) =~= t);
        assert(t.skip(k) =~= Seq::<Comp>::empty());
    } else {
        let acc = t.take(k);
        let c = t[k];
        assert(t.skip(k)[0] == c);
        assert(t.skip(k).drop_first() =~= t.skip(k + 1));
        assert(norm_push(acc, c) =~= t.take(k + 1)) by {
            match c {
                Comp::Root => {
                    assert(k == 0);
                },
                Comp::Cur => {
                    assert(false);
                },
                Comp::Parent => {
                    if k > 0 {
                        assert(acc.last() == t[k - 1]);
                        assert(!(t[k - 1] is Normal));
                    }
                },
                Comp::Normal(_) => {},
            }
        }
        lemma_normalize_rebuilds(t, k + 1);
    }
}

/// `m` `..` components undo the last `m` components, all of them names.
proof fn lemma_ups(acc: Seq<Comp>, m: nat, rest: Seq<Comp>)
    requires
        m <= acc.len(),
        forall|i: int| acc.len() - m <= i < acc.len() ==> #[trigger] acc[i] is Normal,
    ensures
        normalize_from(acc, Seq::new(m, |i: int| Comp::Parent) + rest) == normalize_from(
            acc.take(acc.len() - m),
            rest,
        ),
    decreases m,
{
    let ups = Seq::new(m, |i: int| Comp::Parent);
    if m == 0 {
        assert(ups + rest =~= rest);
        assert(acc.take(acc.len() as int) =~= acc);
    } else {
        assert((ups + rest)[0] == Comp::Parent);
        assert(acc[acc.len() - 1] == acc.last());
        assert(norm_push(acc, Comp::Parent) == acc.drop_last());
        let shorter = Seq::new((m - 1) as nat, |i: int| Comp::Parent);
        assert((ups + rest).drop_first() =~= shorter + rest);
        lemma_ups(acc.drop_last(), (m - 1) as nat, rest);
        assert(acc.drop_last().take(acc.drop_last().len() - (m - 1)) =~= acc.take(acc.len() - m));
    }
}

proof fn lemma_common_len(a: Seq<Comp>, b: Seq<Comp>)
    ensures
        common_len(a, b) <= a.len(),
        common_len(a, b) <= b.len(),
        a.take(common_len(a, b) as int) == b.take(common_len(a, b) as int),
        a.len() > 0 && b.len() > 0 && a[0] == b[0] ==> common_len(a, b) >= 1,
    decreases a.len(),
{
    if !(a.len() == 0 || b.len() == 0 || a[0] != b[0]) {
        lemma_common_len(a.drop_first(), b.drop_first());
        let k = common_len(a, b);
        assert(a.take(k as int) =~= seq![a[0]] + a.drop_first().take(k - 1));
        assert(b.take(k as int) =~= seq![b[0]] + b.drop_first().take(k - 1));
    } else {
        assert(a.take(0) =~= b.take(0));
    }
}

// ---------------------------------------------------------------------------
// The law
// ---------------------------------------------------------------------------

/// Where `path`, written relative to the directory `dir`, points: the
/// components of `dir` followed by those of `path`, normalised. A path that
/// is itself absolute replaces `dir`.
pub open spec fn resolved(dir: Seq<char>, path: Seq<char>) -> Seq<Comp> {
    normalize(components(dir) + components(path))
}

/// Whether every `..` of the normalised directory `base` is also at the
/// same place at the start of `target`, so that climbing out of `base`
/// passes over names only.
pub open spec fn climbs_shared(base: Seq<Comp>, target: Seq<Comp>) -> bool {
    forall|i: int| common_len(base, target) <= i < base.len() ==> !(#[trigger] base[i] is Parent)
}

/// Whether a relative path rebased from `from_dir` to `to_dir` can still
/// name the same file: it is a relative path and not a URL, `to_dir` is not
/// absolute while the file is only known relative to the working
/// directory, and every `..` that `to_dir` climbs is shared with the way to
/// the file.
pub open spec fn rebase_reaches(path: Seq<char>, from_dir: Seq<char>, to_dir: Seq<char>) -> bool {
    &&& !is_url_spec(path)
    &&& !is_absolute_like_spec(path)
    &&& !(has_root(normalize(components(to_dir))) && !has_root(resolved(from_dir, path)))
    &&& climbs_shared(normalize(components(to_dir)), resolved(from_dir, path))
}

/// A rebased path names, from `to_dir`, the same file that the path it was
/// made from names from `from_dir`. This holds for every relative path that
/// is not a URL, except in two cases where no relative path can do it: when
/// `to_dir` is absolute while the file is only known relative to the
/// working directory, and when `to_dir` climbs with a `..` that the way to
/// the file does not share (from `..`, nothing written leads back into the
/// working directory).
pub proof fn law_rebase_same_target(path: Seq<char>, from_dir: Seq<char>, to_dir: Seq<char>)
    requires
        rebase_reaches(path, from_dir, to_dir),
    ensures
        resolved(to_dir, rebase_spec(path, from_dir, to_dir)) == resolved(from_dir, path),
{
    let target = resolved(from_dir, path);
    let base = normalize(components(to_dir));
    lemma_components_names_valid(from_dir);
    lemma_components_names_valid(path);
    lemma_components_names_valid(to_dir);
    lemma_names_valid_concat(components(from_dir), components(path));
    assert(lexical(Seq::<Comp>::empty()));
    lemma_normalize_lexical(Seq::<Comp>::empty(), components(from_dir) + components(path));
    lemma_normalize_lexical(Seq::<Comp>::empty(), components(to_dir));
    let out = rebase_spec(path, from_dir, to_dir);
    lemma_normalize_concat(Seq::<Comp>::empty(), components(to_dir), components(out));
    if has_root(base) != has_root(target) {
        // `to_dir` is relative and the target absolute: the rebased path is
        // the absolute target, which replaces `to_dir`.
        assert(out == render(target));
        lemma_lexical_renderable(target);
        lemma_components_of_render(target);
        assert(target[0] is Root);
        assert(components(out) =~= seq![target[0]] + target.skip(1));
        lemma_normalize_concat(base, seq![target[0]], target.skip(1));
        assert(normalize_from(base, seq![target[0]]) == seq![Comp::Root]) by {
            assert(seq![target[0]].drop_first() =~= Seq::<Comp>::empty());
            let nb = norm_push(base, target[0]);
            assert(normalize_from(nb, Seq::<Comp>::empty()) == nb);
        }
        assert(target.take(1) =~= seq![Comp::Root]);
        lemma_normalize_rebuilds(target, 1);
    } else {
        let k = common_len(base, target);
        lemma_common_len(base, target);
        let m = (base.len() - k) as nat;
        let r = Seq::new(m, |i: int| Comp::Parent) + target.skip(k as int);
        if has_root(base) {
            assert(k >= 1);
        }
        assert forall|i: int| base.len() - m <= i < base.len() implies #[trigger] base[i] is Normal by {
            if base[i] is Root {
                assert(i == 0);
            }
            assert(!(base[i] is Cur));
            assert(!(base[i] is Parent));
        }
        if r.len() == 0 {
            assert(out == render(seq![Comp::Cur]));
            lemma_components_of_render(seq![Comp::Cur]);
            assert(base.take(k as int) =~= base);
            assert(target.take(k as int) =~= target);
            assert(normalize_from(base, seq![Comp::Cur]) == base) by {
                assert(seq![Comp::Cur].drop_first() =~= Seq::<Comp>::empty());
                assert(normalize_from(base, Seq::<Comp>::empty()) == base);
            }
        } else {
            assert(out == render(r));
            assert(plain(r)) by {
                assert forall|i: int| 0 <= i < r.len() implies #[trigger] r[i] is Parent || (
                r[i] matches Comp::Normal(n) && valid_name(n)) by {
                    if i >= m {
                        assert(r[i] == target[i - m + k]);
                        if target[i - m + k] is Root {
                            assert(i - m + k == 0);
                        }
                        assert(!(target[i - m + k] is Cur));
                    }
                }
            }
            lemma_components_of_render(r);
            lemma_ups(base, m, target.skip(k as int));
            lemma_normalize_rebuilds(target, k as int);
        }
    }
}

/// Rebasing leaves alone every path that is not anchored to the playlist's
/// directory: a URL of any scheme (letters, digits, `+`, `-` and `.` before
/// `://`), an absolute path and a Windows drive-letter path come out exactly
/// as they went in, whatever the two directories.
pub proof fn law_rebase_keeps_unanchored(path: Seq<char>, from_dir: Seq<char>, to_dir: Seq<char>)
    requires
        is_url_spec(path) || is_absolute_like_spec(path),
    ensures
        rebase_spec(path, from_dir, to_dir) == path,
{
}

} // verus!

//! Normal forms: the lists of components that no `..` can shorten any
//! further, and the paths that they spell.

use crate::decompose::{
    as_component, components, index_of, is_component, leading_slashes, lemma_index_of,
    lemma_index_of_is, lemma_leading_slashes, lemma_leading_slashes_is,
    lemma_leading_slashes_push, lemma_parts_hold_no_slash, lemma_parts_skip_slashes, parts,
    root_of,
};
use crate::path::{
    apply_component, climbs, dot, dotdot, dotdot_slash, is_root, join, last_slash,
    leading_dotdots, lemma_last_slash, lexical, needs_separator, parent_path, root_double,
    root_single, slash_dotdot, DOT, SLASH,
};
use vstd::prelude::*;

verus! {

/// Whether `c` is a segment: a component without a slash in it. The
/// segments of a path are `..` and its names.
pub open spec fn is_segment(c: Seq<u8>) -> bool {
    is_component(c) && !c.contains(SLASH)
}

/// Whether `f` is a normal form: a root marker or nothing, then as many
/// `..` as it takes, then names. Behind a root marker, and behind a name,
/// no `..` is left.
pub open spec fn is_normal(f: Seq<Seq<u8>>) -> bool {
    &&& f.len() > 0 ==> is_root(f[0]) || is_segment(f[0])
    &&& forall|i: int| 0 < i < f.len() ==> is_segment(#[trigger] f[i])
    &&& forall|i: int| 0 < i < f.len() && #[trigger] f[i] == dotdot() ==> f[i - 1] == dotdot()
}

/// The normal form `f` with the component `c` applied to it.
pub open spec fn reduce_step(f: Seq<Seq<u8>>, c: Seq<u8>) -> Seq<Seq<u8>> {
    if is_root(c) {
        seq![c]
    } else if c == dotdot() {
        if f.len() == 0 || f.last() == dotdot() {
            f.push(c)
        } else if is_root(f.last()) {
            f
        } else {
            f.drop_last()
        }
    } else {
        f.push(c)
    }
}

/// The normal form `f` with the components `comps` applied to it, one
/// after the other.
pub open spec fn reduce(f: Seq<Seq<u8>>, comps: Seq<Seq<u8>>) -> Seq<Seq<u8>>
    decreases comps.len(),
{
    if comps.len() == 0 {
        f
    } else {
        reduce(reduce_step(f, comps[0]), comps.drop_first())
    }
}

/// The path that the normal form `f` spells.
pub open spec fn text(f: Seq<Seq<u8>>) -> Seq<u8> {
    lexical(Seq::empty(), f)
}

/// Applying one more component at the end is the last step of applying
/// them all.
pub proof fn lemma_lexical_push(out: Seq<u8>, cs: Seq<Seq<u8>>, c: Seq<u8>)
    ensures
        lexical(out, cs.push(c)) == apply_component(lexical(out, cs), c),
    decreases cs.len(),
{
    let all = cs.push(c);
    if cs.len() == 0 {
        assert(all.drop_first() =~= cs);
        assert(all[0] == c);
        assert(lexical(apply_component(out, c), cs) == apply_component(out, c));
    } else {
        assert(all[0] == cs[0]);
        assert(all.drop_first() =~= cs.drop_first().push(c));
        lemma_lexical_push(apply_component(out, cs[0]), cs.drop_first(), c);
    }
}

/// What a root marker looks like.
pub proof fn lemma_root(c: Seq<u8>)
    requires
        is_root(c),
    ensures
        1 <= c.len() <= 2,
        forall|j: int| 0 <= j < c.len() ==> c[j] == SLASH,
        leading_slashes(c) == c.len(),
        components(c) == seq![c],
        parent_path(c) == c,
        !is_segment(c),
        c != dotdot(),
        apply_component(Seq::empty(), c) == c,
{
    assert(root_single().len() == 1 && root_single()[0] == SLASH);
    assert(root_double().len() == 2 && root_double()[0] == SLASH && root_double()[1] == SLASH);
    assert(dotdot()[0] == DOT);
    assert(slash_dotdot().len() == 3);
    let n = c.len() as int;
    lemma_leading_slashes_is(c, n);
    lemma_parts_skip_slashes(c, n);
    assert(c.skip(n).len() == 0);
    assert(parts(c) =~= Seq::<Seq<u8>>::empty());
    assert(components(c) =~= seq![c]);
    assert(c.contains(c[0]));
    // The last slash is the last byte.
    assert(last_slash(c) == n - 1);
    assert(c.take(n) =~= c);
}

/// What a segment looks like.
pub proof fn lemma_segment(c: Seq<u8>)
    requires
        is_segment(c),
    ensures
        !is_root(c),
        c[0] != SLASH,
        c.last() != SLASH,
        index_of(c, SLASH) == c.len(),
        leading_slashes(c) == 0,
        components(c) == seq![c],
        c != dotdot() ==> apply_component(Seq::empty(), c) == c,
        last_slash(c) == -1,
{
    lemma_index_of(c, SLASH);
    let k = index_of(c, SLASH);
    if k < c.len() {
        assert(c.contains(c[k]));
    }
    assert(c.contains(c[0]));
    assert(c.contains(c.last()));
    if is_root(c) {
        assert(root_single()[0] == SLASH);
        assert(root_double()[0] == SLASH);
    }
    assert(parts(c) == as_component(c));
    assert(components(c) =~= seq![c]);
    assert(Seq::<u8>::empty() + c =~= c);
    lemma_last_slash(c);
    if last_slash(c) >= 0 {
        assert(c.contains(c[last_slash(c)]));
    }
}

/// `..` is a segment.
pub proof fn lemma_dotdot()
    ensures
        is_segment(dotdot()),
        dotdot().len() == 2,
        dotdot()[0] == DOT,
        dotdot()[1] == DOT,
        parent_path(Seq::empty()) == dotdot(),
        climbs(dotdot()),
{
    let d = dotdot();
    assert(d.len() == 2 && d[0] == DOT && d[1] == DOT);
    assert(dot().len() == 1);
    if d.contains(SLASH) {
        let j = choose|j: int| 0 <= j < d.len() && d[j] == SLASH;
    }
}

/// Where the last slash of a path with more bytes behind it lies, when
/// those bytes hold no slash.
pub proof fn lemma_last_slash_append(s: Seq<u8>, t: Seq<u8>)
    requires
        !t.contains(SLASH),
    ensures
        last_slash(s + t) == last_slash(s),
    decreases t.len(),
{
    if t.len() == 0 {
        assert(s + t =~= s);
    } else {
        let u = t.drop_last();
        assert(t.contains(t.last()));
        assert((s + t).last() == t.last());
        assert((s + t).drop_last() =~= s + u);
        if u.contains(SLASH) {
            let j = choose|j: int| 0 <= j < u.len() && u[j] == SLASH;
            assert(t[j] == SLASH);
        }
        lemma_last_slash_append(s, u);
    }
}

/// A path with a name joined to it does not climb, whatever the path is.
proof fn lemma_join_climbs_not(t: Seq<u8>, n: Seq<u8>)
    requires
        is_segment(n),
        n != dotdot(),
    ensures
        !climbs(join(t, n)),
        join(t, n).len() > 0,
{
    lemma_segment(n);
    lemma_dotdot();
    let s = join(t, n);
    let m = n.len() as int;
    let len = s.len() as int;
    assert(forall|j: int| 0 <= j < m ==> s[len - m + j] == n[j]);
    assert(slash_dotdot().len() == 3 && slash_dotdot()[0] == SLASH && slash_dotdot()[1] == DOT
        && slash_dotdot()[2] == DOT);
    if s == dotdot() {
        // Two bytes without a slash in front of them: that is the name.
        if t.len() == 0 {
            assert(s =~= n);
        } else if !needs_separator(t) {
            assert(is_root(t));
            lemma_root(t);
            assert(s[0] == t[0]);
        }
        assert(false);
    }
    if slash_dotdot().is_suffix_of(s) {
        let tail = s.skip(len - 3);
        assert(tail[0] == s[len - 3] && tail[1] == s[len - 2] && tail[2] == s[len - 1]);
        if m >= 3 {
            assert(s[len - 3] == n[m - 3]);
            assert(n.contains(n[m - 3]));
        } else if m == 2 {
            assert(s[len - 2] == n[0] && s[len - 1] == n[1]);
            assert(n =~= dotdot());
        } else {
            // One byte of name: the byte before it is a slash.
            assert(s[len - 1] == n[0]);
            if needs_separator(t) {
                assert(s[len - 2] == SLASH);
            } else if t.len() > 0 {
                lemma_root(t);
                assert(s[len - 2] == t[t.len() - 1]);
            }
        }
        assert(false);
    }
}

/// The parent of a path with a name joined to it is the path.
pub proof fn lemma_parent_of_join(t: Seq<u8>, n: Seq<u8>)
    requires
        is_segment(n),
        n != dotdot(),
    ensures
        parent_path(join(t, n)) == t,
{
    lemma_segment(n);
    lemma_join_climbs_not(t, n);
    let s = join(t, n);
    if needs_separator(t) {
        let head = t.push(SLASH);
        lemma_last_slash_append(head, n);
        assert(last_slash(head) == t.len());
        assert(s.take(t.len() as int) =~= t);
        if t.len() == 1 {
            assert(s[0] == t[0]);
            if t[0] == SLASH {
                assert(t =~= root_single());
            }
        }
    } else if t.len() == 0 {
        assert(s =~= n);
    } else {
        lemma_root(t);
        lemma_last_slash_append(t, n);
        assert(s.take(t.len() as int) =~= t);
        assert(s[0] == t[0]);
    }
}

/// The parts of a path with a segment behind it: its own, and the segment.
pub proof fn lemma_parts_push_segment(s: Seq<u8>, c: Seq<u8>)
    requires
        is_segment(c),
    ensures
        parts(s.push(SLASH) + c) == parts(s).push(c),
    decreases s.len(),
{
    lemma_segment(c);
    let t = s.push(SLASH) + c;
    if s.len() == 0 {
        assert(t[0] == SLASH);
        assert(index_of(t, SLASH) == 0);
        assert(t.take(0).len() == 0);
        assert(t.skip(1) =~= c);
        assert(parts(c) == as_component(c));
        assert(parts(s) =~= Seq::<Seq<u8>>::empty());
        assert(parts(t) =~= as_component(t.take(0)) + parts(t.skip(1)));
        assert(parts(t) =~= parts(s).push(c));
    } else {
        lemma_index_of(s, SLASH);
        let k = index_of(s, SLASH);
        assert forall|j: int| 0 <= j < k implies t[j] != SLASH by {
            assert(t[j] == s[j]);
        }
        if k < s.len() {
            assert(t[k] == s[k]);
        } else {
            assert(t[k] == SLASH);
        }
        lemma_index_of_is(t, SLASH, k);
        assert(t.take(k) =~= s.take(k));
        if k < s.len() {
            assert(t.skip(k + 1) =~= s.skip(k + 1).push(SLASH) + c);
            lemma_parts_push_segment(s.skip(k + 1), c);
            assert(parts(t) =~= parts(s).push(c));
        } else {
            assert(s.take(k) =~= s);
            assert(t.skip(k + 1) =~= c);
            assert(parts(c) == as_component(c));
            assert(parts(t) =~= parts(s).push(c));
        }
    }
}

/// Bytes behind a run of slashes that has already ended do not change the
/// run.
pub proof fn lemma_leading_slashes_append(s: Seq<u8>, t: Seq<u8>)
    requires
        leading_slashes(s) < s.len(),
    ensures
        leading_slashes(s + t) == leading_slashes(s),
    decreases t.len(),
{
    if t.len() == 0 {
        assert(s + t =~= s);
    } else {
        lemma_leading_slashes_append(s, t.drop_last());
        lemma_leading_slashes(s + t.drop_last());
        lemma_leading_slashes_push(s + t.drop_last(), t.last());
        assert((s + t.drop_last()).push(t.last()) =~= s + t);
    }
}

/// The front of a normal form is a normal form.
pub proof fn lemma_normal_front(f: Seq<Seq<u8>>)
    requires
        is_normal(f),
        f.len() > 0,
    ensures
        is_normal(f.drop_last()),
{
    let g = f.drop_last();
    assert forall|i: int| 0 < i < g.len() implies is_segment(#[trigger] g[i]) by {
        assert(g[i] == f[i]);
    }
    assert forall|i: int| 0 < i < g.len() && #[trigger] g[i] == dotdot() implies g[i - 1]
        == dotdot() by {
        assert(g[i] == f[i]);
        assert(g[i - 1] == f[i - 1]);
    }
    if g.len() > 0 {
        assert(g[0] == f[0]);
    }
}

/// What the path of a normal form looks like, and that it falls into the
/// components of the form.
pub proof fn lemma_text(f: Seq<Seq<u8>>)
    requires
        is_normal(f),
        f.len() > 0,
    ensures
        components(text(f)) == f,
        text(f).len() > 0,
        f.len() == 1 && is_root(f[0]) ==> text(f) == f[0],
        !(f.len() == 1 && is_root(f[0])) ==> text(f).last() != SLASH && needs_separator(text(f)),
        is_root(f[0]) ==> leading_slashes(text(f)) == f[0].len() && text(f)[0] == SLASH,
        !is_root(f[0]) ==> leading_slashes(text(f)) == 0 && text(f)[0] != SLASH,
        f.last() == dotdot() ==> climbs(text(f)),
        is_segment(f.last()) ==> text(f).last() == f.last().last(),
    decreases f.len(),
{
    let g = f.drop_last();
    let c = f.last();
    assert(g.push(c) =~= f);
    lemma_lexical_push(Seq::empty(), g, c);
    lemma_normal_front(f);
    lemma_dotdot();
    let t = text(f);
    let empty = Seq::<u8>::empty();
    assert(root_single().len() == 1 && root_single()[0] == SLASH);
    assert(root_double().len() == 2 && root_double()[0] == SLASH && root_double()[1] == SLASH);
    if g.len() == 0 {
        assert(text(g) == empty);
        assert(f[0] == c);
        if is_root(c) {
            lemma_root(c);
        } else {
            lemma_segment(c);
            if c == dotdot() {
                assert(t == dotdot());
            } else {
                assert(t == c);
            }
            assert(t == c);
            assert(components(t) =~= f);
            assert(!is_root(t));
        }
        assert(components(t) =~= f);
    } else {
        lemma_text(g);
        let base = text(g);
        assert(is_segment(c));
        assert(f[0] == g[0]);
        lemma_segment(c);
        let rooted = g.len() == 1 && is_root(g[0]);
        if c == dotdot() {
            // Behind a `..` stands another: the path climbs on.
            assert(f[f.len() - 1] == dotdot());
            assert(g.last() == f[f.len() - 2]);
            assert(g.last() == dotdot());
            assert(climbs(base));
            assert(t == base + slash_dotdot());
            assert(slash_dotdot() =~= empty.push(SLASH) + dotdot());
            assert(t =~= base.push(SLASH) + dotdot());
            assert(!rooted) by {
                if rooted {
                    lemma_root(g[0]);
                }
            }
            assert(t.skip(t.len() - 3) =~= slash_dotdot());
        } else {
            assert(t == join(base, c));
            if rooted {
                lemma_root(base);
                let n = base.len() as int;
                assert(t == base + c);
                assert forall|j: int| 0 <= j < n implies t[j] == SLASH by {
                    assert(t[j] == base[j]);
                }
                assert(t[n] == c[0]);
                lemma_leading_slashes_is(t, n);
                lemma_parts_skip_slashes(t, n);
                assert(t.skip(n) =~= c);
                assert(parts(c) == as_component(c));
                assert(components(t) =~= f);
                assert(t.last() == c.last());
                assert(!is_root(t)) by {
                    if is_root(t) {
                        lemma_root(t);
                    }
                }
            } else {
                assert(t == base.push(SLASH) + c);
            }
        }
        if !rooted {
            lemma_parts_push_segment(base, c);
            lemma_leading_slashes(base);
            assert(leading_slashes(base) < base.len()) by {
                if leading_slashes(base) >= base.len() {
                    assert(base.last() == SLASH);
                }
            }
            lemma_leading_slashes_push(base, SLASH);
            lemma_leading_slashes_append(base.push(SLASH), c);
            assert(components(t) =~= components(base).push(c));
            assert(t.last() == c.last());
            assert(t[0] == base[0]);
            assert(!is_root(t)) by {
                if is_root(t) {
                    lemma_root(t);
                }
            }
        }
    }
}

/// A component applied to a normal form leaves a normal form, and the path
/// of that form is the path of the first with the component applied to it.
pub proof fn lemma_reduce_step(f: Seq<Seq<u8>>, c: Seq<u8>)
    requires
        is_normal(f),
        is_root(c) || is_segment(c),
    ensures
        is_normal(reduce_step(f, c)),
        text(reduce_step(f, c)) == apply_component(text(f), c),
{
    let next = reduce_step(f, c);
    lemma_dotdot();
    let empty = Seq::<u8>::empty();
    if is_root(c) {
        lemma_root(c);
        assert(next[0] == c);
        assert(next.drop_first().len() == 0);
        assert(lexical(c, next.drop_first()) == c);
        assert(text(next) == c);
    } else if c == dotdot() {
        if f.len() == 0 || f.last() == dotdot() {
            lemma_lexical_push(empty, f, c);
            assert forall|i: int| 0 < i < next.len() implies is_segment(#[trigger] next[i]) by {
                if i < f.len() {
                    assert(next[i] == f[i]);
                }
            }
            assert forall|i: int| 0 < i < next.len() && #[trigger] next[i] == dotdot() implies {
                next[i - 1] == dotdot()
            } by {
                if i < f.len() {
                    assert(next[i] == f[i]);
                    assert(next[i - 1] == f[i - 1]);
                } else {
                    assert(next[i - 1] == f.last());
                }
            }
            if f.len() > 0 {
                assert(next[0] == f[0]);
            }
        } else if is_root(f.last()) {
            // A root marker stands first and alone.
            if f.len() > 1 {
                assert(is_segment(f[f.len() - 1]));
                lemma_root(f.last());
            }
            lemma_text(f);
            lemma_root(f[0]);
        } else {
            let g = f.drop_last();
            let n = f.last();
            lemma_normal_front(f);
            assert(g.push(n) =~= f);
            lemma_lexical_push(empty, g, n);
            if f.len() > 1 {
                assert(is_segment(f[f.len() - 1]));
            }
            assert(apply_component(text(g), n) == join(text(g), n));
            lemma_parent_of_join(text(g), n);
        }
    } else {
        lemma_lexical_push(empty, f, c);
        assert forall|i: int| 0 < i < next.len() implies is_segment(#[trigger] next[i]) by {
            if i < f.len() {
                assert(next[i] == f[i]);
            }
        }
        assert forall|i: int| 0 < i < next.len() && #[trigger] next[i] == dotdot() implies next[i
            - 1] == dotdot() by {
            if i < f.len() {
                assert(next[i] == f[i]);
                assert(next[i - 1] == f[i - 1]);
            }
        }
        if f.len() > 0 {
            assert(next[0] == f[0]);
        }
    }
}

/// Components applied to a normal form leave a normal form, and the path of
/// that form is the path of the first with the components applied to it.
pub proof fn lemma_reduce(f: Seq<Seq<u8>>, comps: Seq<Seq<u8>>)
    requires
        is_normal(f),
        forall|i: int|
            0 <= i < comps.len() ==> is_root(#[trigger] comps[i]) || is_segment(comps[i]),
    ensures
        is_normal(reduce(f, comps)),
        text(reduce(f, comps)) == lexical(text(f), comps),
    decreases comps.len(),
{
    if comps.len() > 0 {
        lemma_reduce_step(f, comps[0]);
        let rest = comps.drop_first();
        assert forall|i: int| 0 <= i < rest.len() implies is_root(#[trigger] rest[i]) || is_segment(
            rest[i],
        ) by {
            assert(rest[i] == comps[i + 1]);
        }
        lemma_reduce(reduce_step(f, comps[0]), rest);
    }
}

/// The components of a path are a root marker, if any, and segments.
pub proof fn lemma_components_are_pieces(path: Seq<u8>)
    ensures
        forall|i: int|
            0 <= i < components(path).len() ==> is_root(#[trigger] components(path)[i])
                || is_segment(components(path)[i]),
{
    let comps = components(path);
    let head = root_of(path);
    assert forall|i: int| 0 <= i < comps.len() implies is_root(#[trigger] comps[i]) || is_segment(
        comps[i],
    ) by {
        if i < head.len() {
            assert(comps[i] == head[i]);
        } else {
            assert(comps[i] == parts(path)[i - head.len()]);
            lemma_parts_hold_no_slash(path, i - head.len());
        }
    }
}

/// A segment behind a relative path that is not empty stands behind a slash
/// of its own: a name is joined to the path, and a `..` makes the path
/// climb on.
pub proof fn lemma_text_push(g: Seq<Seq<u8>>, c: Seq<u8>)
    requires
        g.len() > 0,
        is_normal(g.push(c)),
        !is_root(g[0]),
    ensures
        text(g.push(c)) == text(g).push(SLASH) + c,
{
    let f = g.push(c);
    assert(f.drop_last() =~= g);
    lemma_normal_front(f);
    lemma_lexical_push(Seq::empty(), g, c);
    let base = text(g);
    assert(text(f) == apply_component(base, c));
    assert(needs_separator(base) && (g.last() == dotdot() ==> climbs(base))) by {
        lemma_text(g);
    }
    assert(is_segment(c) && (c == dotdot() ==> g.last() == dotdot())) by {
        assert(f[f.len() - 1] == c);
        assert(g.last() == f[f.len() - 2]);
    }
    assert(!is_root(c)) by {
        lemma_segment(c);
    }
    if c == dotdot() {
        assert(base + slash_dotdot() =~= base.push(SLASH) + dotdot());
    }
}

/// A relative path of more than one segment is its first segment, a slash,
/// and the path of the other segments.
pub proof fn lemma_text_front(f: Seq<Seq<u8>>)
    requires
        is_normal(f),
        f.len() >= 2,
        !is_root(f[0]),
    ensures
        is_normal(f.drop_first()),
        !is_root(f.drop_first()[0]),
        text(f) == f[0].push(SLASH) + text(f.drop_first()),
    decreases f.len(),
{
    let rest = f.drop_first();
    assert(is_normal(rest)) by {
        assert(is_segment(f[1]));
        assert(rest[0] == f[1]);
        assert forall|i: int| 0 < i < rest.len() implies is_segment(#[trigger] rest[i]) by {
            assert(rest[i] == f[i + 1]);
        }
        assert forall|i: int| 0 < i < rest.len() && #[trigger] rest[i] == dotdot() implies rest[i
            - 1] == dotdot() by {
            assert(rest[i] == f[i + 1]);
            assert(rest[i - 1] == f[i]);
        }
    }
    assert(rest[0] == f[1]);
    lemma_segment(rest[0]);
    let g = f.drop_last();
    let c = f.last();
    assert(g.push(c) =~= f);
    assert(g[0] == f[0]);
    lemma_text_push(g, c);
    if g.len() == 1 {
        // Two segments: the first, a slash, the second.
        lemma_normal_front(f);
        lemma_text(g);
        assert(rest =~= seq![c]);
        let one = seq![c];
        assert(is_normal(one));
        lemma_text(one);
        lemma_segment(c);
        lemma_segment(f[0]);
        lemma_dotdot();
        assert(text(g) == f[0]) by {
            assert(g =~= seq![f[0]]);
            assert(g.drop_first().len() == 0);
            assert(lexical(apply_component(Seq::empty(), f[0]), g.drop_first())
                == apply_component(Seq::empty(), f[0]));
        }
        assert(text(one) == c) by {
            assert(one.drop_first().len() == 0);
            assert(lexical(apply_component(Seq::empty(), c), one.drop_first())
                == apply_component(Seq::empty(), c));
        }
    } else {
        lemma_normal_front(f);
        lemma_text_front(g);
        let inner = g.drop_first();
        assert(inner.push(c) =~= rest);
        assert(inner[0] == rest[0]);
        lemma_text_push(inner, c);
        assert(text(f) =~= f[0].push(SLASH) + text(rest));
    }
}

/// How many `..` the normal form `f` begins with.
pub open spec fn ups(f: Seq<Seq<u8>>) -> nat
    decreases f.len(),
{
    if f.len() > 0 && f[0] == dotdot() {
        1 + ups(f.drop_first())
    } else {
        0
    }
}

/// The `..` at the front of a normal form are the only ones in it.
pub proof fn lemma_ups(f: Seq<Seq<u8>>)
    requires
        is_normal(f),
    ensures
        ups(f) <= f.len(),
        forall|i: int| 0 <= i < ups(f) ==> f[i] == dotdot(),
        forall|i: int| ups(f) <= i < f.len() ==> f[i] != dotdot(),
    decreases f.len(),
{
    if f.len() > 0 {
        let rest = f.drop_first();
        if f[0] == dotdot() {
            if f.len() >= 2 {
                lemma_dotdot();
                assert(!is_root(f[0])) by {
                    if is_root(f[0]) {
                        lemma_root(f[0]);
                    }
                }
                lemma_text_front(f);
            } else {
                assert(is_normal(rest));
            }
            lemma_ups(rest);
            assert forall|i: int| 0 <= i < ups(f) implies f[i] == dotdot() by {
                if i > 0 {
                    assert(rest[i - 1] == f[i]);
                }
            }
            assert forall|i: int| ups(f) <= i < f.len() implies f[i] != dotdot() by {
                assert(rest[i - 1] == f[i]);
            }
        } else {
            // Behind a segment that is no `..` stands none.
            assert forall|i: int| 0 <= i < f.len() implies f[i] != dotdot() by {
                lemma_no_dotdot_behind(f, i);
            }
        }
    }
}

/// Behind a component of a normal form that is no `..` stands none.
pub proof fn lemma_no_dotdot_behind(f: Seq<Seq<u8>>, i: int)
    requires
        is_normal(f),
        f.len() > 0,
        f[0] != dotdot(),
        0 <= i < f.len(),
    ensures
        f[i] != dotdot(),
    decreases i,
{
    if i > 0 {
        lemma_no_dotdot_behind(f, i - 1);
        if f[i] == dotdot() {
            assert(f[i - 1] == dotdot());
        }
    }
}

/// A relative path that begins with a name does not begin with `../`, and
/// is not `..`.
pub proof fn lemma_name_first(f: Seq<Seq<u8>>)
    requires
        is_normal(f),
        f.len() > 0,
        !is_root(f[0]),
        f[0] != dotdot(),
    ensures
        !dotdot_slash().is_prefix_of(text(f)),
        text(f) != dotdot(),
        leading_dotdots(text(f)) == 0,
{
    let t = text(f);
    let n = f[0];
    lemma_segment(n);
    lemma_dotdot();
    let up = dotdot_slash();
    assert(up.len() == 3 && up[0] == DOT && up[1] == DOT && up[2] == SLASH);
    // The path begins with the name, and goes on with a slash if at all.
    if f.len() == 1 {
        lemma_text(f);
        assert(f =~= seq![n]);
        assert(f.drop_first().len() == 0);
        assert(lexical(apply_component(Seq::empty(), n), f.drop_first()) == apply_component(
            Seq::empty(),
            n,
        ));
        assert(t == n);
    } else {
        lemma_text_front(f);
        assert(t == n.push(SLASH) + text(f.drop_first()));
    }
    assert(forall|j: int| 0 <= j < n.len() ==> t[j] == n[j]);
    if f.len() > 1 {
        assert(t[n.len() as int] == SLASH);
    } else {
        assert(t.len() == n.len());
    }
    if up.is_prefix_of(t) {
        let head = t.subrange(0, 3);
        assert(head[0] == t[0] && head[1] == t[1] && head[2] == t[2]);
        if n.len() >= 3 {
            assert(n[2] == SLASH);
            assert(n.contains(n[2]));
        } else if n.len() == 2 {
            assert(n =~= dotdot());
        } else {
            assert(t[1] == SLASH);
        }
        assert(false);
    }
    if t == dotdot() {
        if n.len() >= 2 {
            assert(n =~= dotdot());
        } else {
            assert(f.len() > 1);
            assert(t[1] == SLASH);
        }
        assert(false);
    }
}

/// How a relative path begins: with one `../` for each `..` of its normal
/// form, except that the last `..` of a form of nothing else has no slash
/// behind it. Behind them stands the path of the names.
pub proof fn lemma_leading_dotdots(f: Seq<Seq<u8>>)
    requires
        is_normal(f),
        f.len() > 0,
        !is_root(f[0]),
    ensures
        ups(f) == f.len() ==> leading_dotdots(text(f)) == f.len() - 1 && text(f).skip(
            3 * (f.len() - 1),
        ) == dotdot(),
        ups(f) < f.len() ==> leading_dotdots(text(f)) == ups(f) && text(f).skip(3 * ups(f) as int)
            == text(f.skip(ups(f) as int)),
        (text(f) == dotdot()) == (f.len() == 1 && f[0] == dotdot()),
        dotdot_slash().is_prefix_of(text(f)) == (f.len() >= 2 && f[0] == dotdot()),
    decreases f.len(),
{
    let t = text(f);
    lemma_dotdot();
    lemma_ups(f);
    let up = dotdot_slash();
    assert(up.len() == 3 && up[0] == DOT && up[1] == DOT && up[2] == SLASH);
    if f[0] != dotdot() {
        lemma_name_first(f);
        assert(t.skip(0) =~= t);
        assert(f.skip(0) =~= f);
    } else if f.len() == 1 {
        lemma_text(f);
        assert(f =~= seq![dotdot()]);
        assert(f.drop_first().len() == 0);
        assert(lexical(apply_component(Seq::empty(), f[0]), f.drop_first()) == apply_component(
            Seq::empty(),
            f[0],
        ));
        assert(t == dotdot());
        assert(t.skip(0) =~= t);
        assert(ups(f.drop_first()) == 0);
    } else {
        lemma_text_front(f);
        let rest = f.drop_first();
        let inner = text(rest);
        assert(t == dotdot().push(SLASH) + inner);
        assert(dotdot().push(SLASH) =~= up);
        assert(t.subrange(0, 3) =~= up);
        assert(t.skip(3) =~= inner);
        lemma_leading_dotdots(rest);
        lemma_ups(rest);
        crate::path::lemma_leading_dotdots_bound(inner);
        assert(t.len() >= 3);
        assert(t != dotdot());
        let n = leading_dotdots(inner) as int;
        assert(t.skip(3 + 3 * n) =~= inner.skip(3 * n));
        if ups(rest) < rest.len() {
            assert(f.skip(ups(f) as int) =~= rest.skip(ups(rest) as int));
        }
    }
}

/// Names applied to a path stand behind it, with a slash between the path
/// and the first of them where the path needs one.
pub proof fn lemma_lexical_names(t: Seq<u8>, names: Seq<Seq<u8>>)
    requires
        names.len() > 0,
        is_normal(names),
        !is_root(names[0]),
        names[0] != dotdot(),
    ensures
        needs_separator(t) ==> lexical(t, names) == t.push(SLASH) + text(names),
        !needs_separator(t) ==> lexical(t, names) == t + text(names),
    decreases names.len(),
{
    let g = names.drop_last();
    let c = names.last();
    assert(g.push(c) =~= names);
    lemma_lexical_push(t, g, c);
    lemma_lexical_push(Seq::empty(), g, c);
    lemma_no_dotdot_behind(names, names.len() - 1);
    assert(is_segment(c)) by {
        if names.len() > 1 {
            assert(is_segment(names[names.len() - 1]));
        }
    }
    lemma_segment(c);
    let empty = Seq::<u8>::empty();
    if g.len() == 0 {
        assert(lexical(t, g) == t);
        assert(text(g) == empty);
        assert(apply_component(empty, c) == c);
        assert(apply_component(t, c) == join(t, c));
    } else {
        lemma_normal_front(names);
        assert(g[0] == names[0]);
        lemma_lexical_names(t, g);
        lemma_text(g);
        lemma_text_push(g, c);
        let prefix = if needs_separator(t) {
            t.push(SLASH)
        } else {
            t
        };
        let base = prefix + text(g);
        assert(lexical(t, g) == base);
        // What stands before the name ends with a name: no root, not empty.
        assert(base.last() == text(g).last());
        assert(needs_separator(base)) by {
            if is_root(base) {
                lemma_root(base);
            }
        }
        assert(apply_component(base, c) == base.push(SLASH) + c);
        assert(base.push(SLASH) + c =~= prefix + (text(g).push(SLASH) + c));
    }
}

/// Components can be applied in two goes.
pub proof fn lemma_lexical_add(out: Seq<u8>, a: Seq<Seq<u8>>, b: Seq<Seq<u8>>)
    ensures
        lexical(out, a + b) == lexical(lexical(out, a), b),
    decreases a.len(),
{
    if a.len() == 0 {
        assert(a + b =~= b);
    } else {
        assert((a + b)[0] == a[0]);
        assert((a + b).drop_first() =~= a.drop_first() + b);
        lemma_lexical_add(apply_component(out, a[0]), a.drop_first(), b);
    }
}

/// Applying one more component at the end is the last step of reducing.
pub proof fn lemma_reduce_push(f: Seq<Seq<u8>>, cs: Seq<Seq<u8>>, c: Seq<u8>)
    ensures
        reduce(f, cs.push(c)) == reduce_step(reduce(f, cs), c),
    decreases cs.len(),
{
    let all = cs.push(c);
    if cs.len() == 0 {
        assert(all.drop_first() =~= cs);
        assert(all[0] == c);
        assert(reduce(reduce_step(f, c), cs) == reduce_step(f, c));
    } else {
        assert(all[0] == cs[0]);
        assert(all.drop_first() =~= cs.drop_first().push(c));
        lemma_reduce_push(reduce_step(f, cs[0]), cs.drop_first(), c);
    }
}

/// Components can be reduced on their own first: applied to a normal form,
/// they come to what their own normal form comes to.
pub proof fn lemma_reduce_twice(f: Seq<Seq<u8>>, comps: Seq<Seq<u8>>)
    requires
        forall|i: int| 0 <= i < comps.len() ==> is_segment(#[trigger] comps[i]),
    ensures
        reduce(f, comps) == reduce(f, reduce(Seq::empty(), comps)),
    decreases comps.len(),
{
    let none = Seq::<Seq<u8>>::empty();
    if comps.len() > 0 {
        let cs = comps.drop_last();
        let c = comps.last();
        assert(cs.push(c) =~= comps);
        assert forall|i: int| 0 <= i < cs.len() implies is_segment(#[trigger] cs[i]) by {
            assert(cs[i] == comps[i]);
        }
        lemma_reduce_twice(f, cs);
        lemma_reduce_push(f, cs, c);
        lemma_reduce_push(none, cs, c);
        let g = reduce(none, cs);
        assert(is_segment(comps[comps.len() - 1]));
        lemma_segment(c);
        assert(is_normal(none));
        assert forall|i: int| 0 <= i < cs.len() implies is_root(#[trigger] cs[i]) || is_segment(
            cs[i],
        ) by {
            assert(is_segment(cs[i]));
        }
        lemma_reduce(none, cs);
        lemma_relative_stays(cs);
        if c == dotdot() && g.len() > 0 && g.last() != dotdot() {
            // The `..` takes away a name, before or after the form is applied.
            let h = g.drop_last();
            let n = g.last();
            assert(h.push(n) =~= g);
            lemma_reduce_push(f, h, n);
            assert(!is_root(n) && n != dotdot()) by {
                if g.len() > 1 {
                    assert(is_segment(g[g.len() - 1]));
                    lemma_segment(n);
                }
            }
            let x = reduce(f, h);
            assert(reduce(f, g) == x.push(n));
            assert(x.push(n).drop_last() =~= x);
        } else {
            lemma_reduce_push(f, g, c);
        }
    } else {
        assert(reduce(none, comps) == none);
    }
}

/// Segments alone never make a form absolute.
pub proof fn lemma_relative_stays(comps: Seq<Seq<u8>>)
    requires
        forall|i: int| 0 <= i < comps.len() ==> is_segment(#[trigger] comps[i]),
    ensures
        reduce(Seq::empty(), comps).len() > 0 ==> !is_root(reduce(Seq::empty(), comps)[0]),
        forall|i: int|
            0 <= i < reduce(Seq::empty(), comps).len() ==> is_segment(
                #[trigger] reduce(Seq::empty(), comps)[i],
            ),
    decreases comps.len(),
{
    let none = Seq::<Seq<u8>>::empty();
    if comps.len() > 0 {
        let cs = comps.drop_last();
        let c = comps.last();
        assert(cs.push(c) =~= comps);
        assert forall|i: int| 0 <= i < cs.len() implies is_segment(#[trigger] cs[i]) by {
            assert(cs[i] == comps[i]);
        }
        lemma_relative_stays(cs);
        lemma_reduce_push(none, cs, c);
        assert(is_segment(comps[comps.len() - 1]));
        lemma_segment(c);
        let g = reduce(none, cs);
        let f = reduce_step(g, c);
        assert forall|i: int| 0 <= i < f.len() implies is_segment(#[trigger] f[i]) by {
            if i < g.len() {
                assert(is_segment(g[i]));
            }
        }
        if f.len() > 0 {
            lemma_segment(f[0]);
        }
    } else {
        assert(reduce(none, comps) == none);
    }
}

/// `..`, `n` times.
pub open spec fn dotdots(n: nat) -> Seq<Seq<u8>> {
    Seq::new(n, |i: int| dotdot())
}

/// The parent of the path of an absolute normal form is the path of an
/// absolute normal form, and it is no longer.
pub proof fn lemma_parent_of_absolute(f: Seq<Seq<u8>>)
    requires
        is_normal(f),
        f.len() > 0,
        is_root(f[0]),
    ensures
        is_normal(reduce_step(f, dotdot())),
        reduce_step(f, dotdot()).len() > 0,
        is_root(reduce_step(f, dotdot())[0]),
        text(reduce_step(f, dotdot())) == parent_path(text(f)),
        parent_path(text(f)).len() <= text(f).len(),
{
    lemma_dotdot();
    lemma_reduce_step(f, dotdot());
    lemma_root(f[0]);
    let g = reduce_step(f, dotdot());
    assert(f.last() != dotdot()) by {
        lemma_no_dotdot_behind(f, f.len() - 1);
    }
    if !is_root(f.last()) {
        assert(f.len() > 1);
        assert(g == f.drop_last());
        assert(g[0] == f[0]);
        assert(g.push(f.last()) =~= f);
        lemma_lexical_push(Seq::empty(), g, f.last());
        assert(is_segment(f[f.len() - 1]));
        lemma_segment(f.last());
    }
}

/// Climbing the path of an absolute normal form is applying `..` to it: it
/// never runs out of room, and it leaves the path of an absolute normal
/// form that is no longer.
pub proof fn lemma_climb_absolute_form(f: Seq<Seq<u8>>, n: nat, cap: nat)
    requires
        is_normal(f),
        f.len() > 0,
        is_root(f[0]),
        text(f).len() <= cap,
    ensures
        crate::machine::climb(text(f), n, cap) == Some(lexical(text(f), dotdots(n))),
        lexical(text(f), dotdots(n)).len() <= text(f).len(),
        lexical(text(f), dotdots(n)).len() > 0,
        lexical(text(f), dotdots(n))[0] == SLASH,
    decreases n,
{
    let t = text(f);
    let ds = dotdots(n);
    lemma_text(f);
    if n > 0 {
        lemma_parent_of_absolute(f);
        let g = reduce_step(f, dotdot());
        lemma_dotdot();
        lemma_root(f[0]);
        assert(ds[0] == dotdot());
        assert(ds.drop_first() =~= dotdots((n - 1) as nat));
        assert(apply_component(t, dotdot()) == parent_path(t));
        lemma_climb_absolute_form(g, (n - 1) as nat, cap);
    } else {
        assert(lexical(t, ds) == t);
    }
}

/// Reducing brings no byte into a form: where neither the form nor the
/// components hold the byte `b`, the form that they come to holds none.
pub proof fn lemma_reduce_holds_no(f: Seq<Seq<u8>>, comps: Seq<Seq<u8>>, b: u8)
    requires
        forall|i: int| 0 <= i < f.len() ==> !(#[trigger] f[i]).contains(b),
        forall|i: int| 0 <= i < comps.len() ==> !(#[trigger] comps[i]).contains(b),
    ensures
        forall|i: int|
            0 <= i < reduce(f, comps).len() ==> !(#[trigger] reduce(f, comps)[i]).contains(b),
    decreases comps.len(),
{
    if comps.len() > 0 {
        let c = comps[0];
        let next = reduce_step(f, c);
        assert forall|i: int| 0 <= i < next.len() implies !(#[trigger] next[i]).contains(b) by {
            if is_root(c) {
                assert(next[i] == c);
            } else if i < f.len() {
                assert(next[i] == f[i]);
            } else {
                assert(next[i] == c);
            }
        }
        let rest = comps.drop_first();
        assert forall|i: int| 0 <= i < rest.len() implies !(#[trigger] rest[i]).contains(b) by {
            assert(rest[i] == comps[i + 1]);
        }
        lemma_reduce_holds_no(next, rest, b);
        assert(reduce(f, comps) == reduce(next, rest));
    } else {
        assert(reduce(f, comps) == f);
    }
}

} // verus!

//! What holds of every state of a resolution, whatever the file system
//! answers: the path that is built is in normal form all the way, and the
//! result is a canonical path.

use crate::canonical::{is_canonical, is_name, lemma_canonical_is_normal, spell};
use crate::decompose::{
    after_pop, c_text, components, index_of, leading_slashes, lemma_after_pop_shorter,
    lemma_index_of, lemma_parts_hold_bytes_of_path, link_text, parts, pending, root_of,
    seed_text,
};
use crate::errno::Errno;
use crate::flags::RealpathFlags;
use crate::machine::{asks_for_directory, climb, cwd_prefix, Machine, Step};
use crate::normal::{
    dotdots, is_normal, is_segment, lemma_climb_absolute_form, lemma_components_are_pieces,
    lemma_dotdot, lemma_leading_dotdots, lemma_lexical_names, lemma_name_first,
    lemma_no_dotdot_behind, lemma_reduce, lemma_reduce_step, lemma_root, lemma_segment,
    lemma_text, lemma_ups, reduce, reduce_step, text, ups,
};
use crate::path::{
    apply_component, dotdot, is_root, lemma_last_slash, lexical, needs_separator, slash_dotdot,
    DOT, NUL, SLASH,
};
use crate::plain::{after_plain_answers, law_canonical_is_fixed, lemma_lexical_absolute};
use crate::util::cwd_outcome;
use vstd::prelude::*;

verus! {

/// Whether the path `p` is in normal form: it holds no NUL, and applying
/// its components to nothing gives the path itself. Then the path holds no
/// `.`, no slash behind another except in a root marker, and no `..`
/// behind a name or a root marker.
pub open spec fn is_reduced(p: Seq<u8>) -> bool {
    lexical(Seq::empty(), components(p)) == p && !p.contains(NUL)
}

/// Whether the path `p` is canonical: absolute, and in normal form.
pub open spec fn is_canonical_path(p: Seq<u8>) -> bool {
    p.len() > 0 && p[0] == SLASH && is_reduced(p)
}

/// Whether `c` can be a component of a path that holds no NUL: a root
/// marker or a segment, without a NUL.
pub open spec fn is_piece(c: Seq<u8>) -> bool {
    (is_root(c) || is_segment(c)) && !c.contains(NUL)
}

/// A component applied to a path brings no NUL into it.
pub proof fn lemma_apply_holds_no_nul(out: Seq<u8>, c: Seq<u8>)
    requires
        !out.contains(NUL),
        !c.contains(NUL),
    ensures
        !apply_component(out, c).contains(NUL),
{
    let r = apply_component(out, c);
    lemma_dotdot();
    assert(slash_dotdot().len() == 3 && slash_dotdot()[0] == SLASH && slash_dotdot()[1] == DOT
        && slash_dotdot()[2] == DOT);
    if r.contains(NUL) {
        let j = choose|j: int| 0 <= j < r.len() && r[j] == NUL;
        if is_root(c) {
            // The root marker is all there is.
            assert(c[j] == NUL);
        } else if c == dotdot() {
            lemma_last_slash(out);
            if j < out.len() {
                assert(out[j] == NUL);
                assert(out.contains(NUL));
            }
        } else {
            let off: int = if needs_separator(out) {
                out.len() as int + 1
            } else {
                out.len() as int
            };
            if j < out.len() {
                assert(out[j] == NUL);
                assert(out.contains(NUL));
            } else if j >= off {
                assert(c[j - off] == NUL);
            }
        }
    }
}

/// The components of a path in normal form are a normal form, and the path
/// is what they spell.
pub proof fn lemma_reduced(p: Seq<u8>)
    requires
        is_reduced(p),
    ensures
        is_normal(components(p)),
        text(components(p)) == p,
        forall|i: int| 0 <= i < components(p).len() ==> is_piece(#[trigger] components(p)[i]),
{
    let comps = components(p);
    let none = Seq::<Seq<u8>>::empty();
    lemma_components_are_pieces(p);
    assert(is_normal(none));
    lemma_reduce(none, comps);
    let f = reduce(none, comps);
    if f.len() > 0 {
        lemma_text(f);
    } else {
        assert(text(f) == Seq::<u8>::empty());
        assert(leading_slashes(p) == 0);
        assert(parts(p) =~= none);
        assert(comps =~= none);
    }
    assert(comps == f);
    assert forall|i: int| 0 <= i < comps.len() implies is_piece(#[trigger] comps[i]) by {
        let head = root_of(p);
        if i < head.len() {
            assert(comps[i] == head[i]);
            lemma_root(comps[i]);
            if comps[i].contains(NUL) {
                let j = choose|j: int| 0 <= j < comps[i].len() && comps[i][j] == NUL;
            }
        } else {
            assert(comps[i] == parts(p)[i - head.len()]);
            if comps[i].contains(NUL) {
                lemma_parts_hold_bytes_of_path(p, i - head.len(), NUL);
            }
        }
    }
}

/// The path of a normal form whose components hold no NUL is in normal
/// form.
pub proof fn lemma_text_is_reduced(f: Seq<Seq<u8>>)
    requires
        is_normal(f),
        forall|i: int| 0 <= i < f.len() ==> !(#[trigger] f[i]).contains(NUL),
    ensures
        is_reduced(text(f)),
{
    if f.len() > 0 {
        lemma_text(f);
    } else {
        let p = text(f);
        assert(p == Seq::<u8>::empty());
        assert(leading_slashes(p) == 0);
        assert(components(p) =~= Seq::<Seq<u8>>::empty());
    }
    lemma_lexical_holds_no_nul(Seq::empty(), f);
}

/// Components applied to a path bring no NUL into it.
pub proof fn lemma_lexical_holds_no_nul(out: Seq<u8>, comps: Seq<Seq<u8>>)
    requires
        !out.contains(NUL),
        forall|i: int| 0 <= i < comps.len() ==> !(#[trigger] comps[i]).contains(NUL),
    ensures
        !lexical(out, comps).contains(NUL),
    decreases comps.len(),
{
    if comps.len() > 0 {
        lemma_apply_holds_no_nul(out, comps[0]);
        let rest = comps.drop_first();
        assert forall|i: int| 0 <= i < rest.len() implies !(#[trigger] rest[i]).contains(NUL) by {
            assert(rest[i] == comps[i + 1]);
        }
        lemma_lexical_holds_no_nul(apply_component(out, comps[0]), rest);
    }
}

/// A component applied to a path in normal form leaves a path in normal
/// form.
pub proof fn lemma_apply_reduced(p: Seq<u8>, c: Seq<u8>)
    requires
        is_reduced(p),
        is_piece(c),
    ensures
        is_reduced(apply_component(p, c)),
{
    lemma_reduced(p);
    let f = components(p);
    lemma_reduce_step(f, c);
    let next = reduce_step(f, c);
    assert forall|i: int| 0 <= i < next.len() implies !(#[trigger] next[i]).contains(NUL) by {
        if is_root(c) {
            assert(next[i] == c);
        } else if i < f.len() {
            assert(next[i] == f[i]);
            assert(is_piece(f[i]));
        } else {
            assert(next[i] == c);
        }
    }
    lemma_text_is_reduced(next);
}

/// Components applied to a path in normal form leave a path in normal
/// form.
pub proof fn lemma_lexical_reduced(p: Seq<u8>, comps: Seq<Seq<u8>>)
    requires
        is_reduced(p),
        forall|i: int| 0 <= i < comps.len() ==> is_piece(#[trigger] comps[i]),
    ensures
        is_reduced(lexical(p, comps)),
    decreases comps.len(),
{
    if comps.len() > 0 {
        assert(is_piece(comps[0]));
        lemma_apply_reduced(p, comps[0]);
        let rest = comps.drop_first();
        assert forall|i: int| 0 <= i < rest.len() implies is_piece(#[trigger] rest[i]) by {
            assert(rest[i] == comps[i + 1]);
        }
        lemma_lexical_reduced(apply_component(p, comps[0]), rest);
    }
}

/// Every component that a region holds is a root marker or a segment, and
/// holds no NUL.
pub proof fn lemma_pending_pieces(c: Seq<u8>, i: int)
    requires
        0 <= i < pending(c).len(),
    ensures
        is_piece(pending(c)[i]),
    decreases c.len(),
{
    if c.len() > 0 {
        lemma_index_of(c, NUL);
        let z = index_of(c, NUL);
        let f = if z < c.len() {
            c.take(z)
        } else {
            c
        };
        let head = components(f);
        assert(!f.contains(NUL)) by {
            if f.contains(NUL) {
                let j = choose|j: int| 0 <= j < f.len() && f[j] == NUL;
                assert(c[j] == NUL);
            }
        }
        if i < head.len() {
            assert(pending(c)[i] == head[i]);
            lemma_components_are_pieces(f);
            let roots = root_of(f);
            if i < roots.len() {
                assert(head[i] == roots[i]);
                lemma_root(head[i]);
                if head[i].contains(NUL) {
                    let j = choose|j: int| 0 <= j < head[i].len() && head[i][j] == NUL;
                }
            } else {
                assert(head[i] == parts(f)[i - roots.len()]);
                if head[i].contains(NUL) {
                    lemma_parts_hold_bytes_of_path(f, i - roots.len(), NUL);
                }
            }
        } else {
            assert(z < c.len());
            assert(pending(c)[i] == pending(c.skip(z + 1))[i - head.len()]);
            lemma_pending_pieces(c.skip(z + 1), i - head.len());
        }
    }
}

/// The path that a state is about: what has been built, without the NUL
/// that stands at its end while a question about it is open.
pub open spec fn path_of(m: Machine) -> Seq<u8> {
    if m.step is ReadLink || m.step is Probe || m.step is CheckDir {
        m.out.drop_last()
    } else {
        m.out
    }
}

/// Whether the state `m` is in order: the path that it is about is in
/// normal form; so is what stood before the name that a question is open
/// about; what waits for the current directory in front of it is made of
/// names; and the result of a resolution that is done is a canonical path.
/// Of a resolution that has failed nothing is asked.
pub open spec fn orderly(m: Machine) -> bool {
    m.step is Failed || {
        &&& is_reduced(path_of(m))
        &&& (m.step is ReadLink || m.step is Probe) ==> is_reduced(m.out.take(m.base as int))
        &&& (m.step is GetCwd && !m.direct && m.out.len() > 0) ==> m.out[0] != SLASH
            && components(m.out)[0] != dotdot()
        &&& m.step is Done ==> is_canonical_path(m.out)
    }
}

/// The state that follows when the stack has run empty with a path in
/// normal form built is in order.
pub proof fn lemma_settle_orderly(m: Machine, checked: bool)
    requires
        is_reduced(m.out),
    ensures
        orderly(m.settle(checked)),
{
    let p = m.out;
    let next = m.settle(checked);
    lemma_reduced(p);
    lemma_dotdot();
    let f = components(p);
    assert(is_reduced(Seq::<u8>::empty())) by {
        let e = Seq::<u8>::empty();
        assert(leading_slashes(e) == 0);
        assert(components(e) =~= Seq::<Seq<u8>>::empty());
    }
    assert(p.push(NUL).drop_last() =~= p);
    if p.len() > 0 {
        assert(f.len() > 0) by {
            if f.len() == 0 {
                assert(text(f) == Seq::<u8>::empty());
            }
        }
        lemma_text(f);
        if p[0] != SLASH {
            // A relative path: levels up, and names.
            lemma_leading_dotdots(f);
            lemma_ups(f);
            let k = ups(f);
            if k < f.len() {
                let names = f.skip(k as int);
                assert(names[0] == f[k as int]);
                assert(is_normal(names) && !is_root(names[0])) by {
                    assert(is_segment(f[k as int])) by {
                        if k > 0 {
                            assert(is_segment(f[k as int]));
                        }
                    }
                    lemma_segment(names[0]);
                    assert forall|i: int| 0 < i < names.len() implies is_segment(
                        #[trigger] names[i],
                    ) by {
                        assert(names[i] == f[i + k]);
                    }
                    assert forall|i: int|
                        0 < i < names.len() && #[trigger] names[i] == dotdot() implies names[i - 1]
                        == dotdot() by {
                        assert(names[i] == f[i + k]);
                        assert(names[i - 1] == f[i + k - 1]);
                    }
                }
                assert forall|i: int| 0 <= i < names.len() implies !(#[trigger] names[i]).contains(
                    NUL,
                ) by {
                    assert(names[i] == f[i + k]);
                    assert(is_piece(f[i + k]));
                }
                lemma_text_is_reduced(names);
                lemma_text(names);
                lemma_name_first(names);
                if k == 0 {
                    assert(names =~= f);
                }
            }
        }
    }
}

/// Draining the stack with a path in normal form built leaves a state in
/// order.
pub proof fn lemma_drain_orderly(m: Machine)
    requires
        is_reduced(m.out),
    ensures
        orderly(m.drain()),
    decreases m.stack.len(),
{
    let comps = pending(m.stack);
    let rest = after_pop(m.stack);
    if comps.len() == 0 {
        lemma_settle_orderly(Machine { stack: rest, ..m }, false);
    } else {
        let c = comps[0];
        lemma_pending_pieces(m.stack, 0);
        lemma_apply_reduced(m.out, c);
        let applied = apply_component(m.out, c);
        if is_root(c) || c == dotdot() {
            if applied.len() <= m.out_cap {
                if m.stack.len() > 0 {
                    lemma_after_pop_shorter(m.stack);
                }
                lemma_drain_orderly(Machine { out: applied, stack: rest, ..m });
            }
        } else {
            let asked = applied.push(NUL);
            assert(asked.drop_last() =~= applied);
            assert(asked.take(m.out.len() as int) =~= m.out);
        }
    }
}

/// A resolution starts in order.
pub proof fn law_starts_orderly(
    path: Seq<u8>,
    out_cap: nat,
    stack_cap: nat,
    flags: RealpathFlags,
    limit: nat,
)
    ensures
        orderly(Machine::start(path, out_cap, stack_cap, flags, limit)),
{
    let fresh = Machine {
        out: Seq::empty(),
        out_cap,
        stack: Seq::empty(),
        stack_cap,
        followed: 0,
        limit,
        flags,
        need_dir: asks_for_directory(path) && !flags.allows_missing(),
        step: Step::Done(0),
        base: 0,
        parents: 0,
        direct: false,
    };
    let e = Seq::<u8>::empty();
    assert(leading_slashes(e) == 0);
    assert(components(e) =~= Seq::<Seq<u8>>::empty());
    lemma_drain_orderly(Machine { stack: seed_text(path).push(NUL), ..fresh });
}

/// What a canonical current directory comes to is a canonical path.
proof fn lemma_cwd_prefix_canonical(cwd: Seq<u8>, parents: nat, cap: nat)
    requires
        is_canonical_path(cwd),
        cwd.len() <= cap,
    ensures
        climb(cwd, parents, cap) == Some(lexical(cwd, dotdots(parents))),
        is_canonical_path(lexical(cwd, dotdots(parents))),
{
    lemma_reduced(cwd);
    let form = components(cwd);
    assert(form.len() > 0) by {
        if form.len() == 0 {
            assert(text(form) == Seq::<u8>::empty());
        }
    }
    lemma_text(form);
    assert(is_root(form[0]));
    lemma_climb_absolute_form(form, parents, cap);
    lemma_dotdot();
    let ds = dotdots(parents);
    assert forall|i: int| 0 <= i < ds.len() implies is_piece(#[trigger] ds[i]) by {
        if dotdot().contains(NUL) {
            let j = choose|j: int| 0 <= j < dotdot().len() && dotdot()[j] == NUL;
        }
    }
    lemma_lexical_reduced(cwd, ds);
}

/// Every answer leaves a resolution in order, as long as the current
/// directory that the file system names is a canonical path.
pub proof fn law_stays_orderly(m: Machine, reply: Result<Seq<u8>, Errno>)
    requires
        orderly(m),
        m.step is GetCwd && reply is Ok ==> is_canonical_path(c_text(reply->Ok_0)),
    ensures
        orderly(m.resume(reply)),
{
    let next = m.resume(reply);
    let e = Seq::<u8>::empty();
    assert(is_reduced(e)) by {
        assert(leading_slashes(e) == 0);
        assert(components(e) =~= Seq::<Seq<u8>>::empty());
    }
    match m.step {
        Step::ReadLink { .. } | Step::Probe => {
            match m.link_answer(reply) {
                Ok(()) => {
                    let text = link_text(reply->Ok_0);
                    lemma_drain_orderly(
                        Machine {
                            out: if text.len() > 0 && text[0] == SLASH {
                                Seq::empty()
                            } else {
                                m.out.take(m.base as int)
                            },
                            stack: text.push(NUL) + m.stack,
                            followed: m.followed + 1,
                            ..m
                        },
                    );
                },
                Err(e) => {
                    lemma_drain_orderly(Machine { out: m.out.drop_last(), ..m });
                },
            }
        },
        Step::CheckDir => {
            lemma_settle_orderly(Machine { out: m.out.drop_last(), ..m }, true);
        },
        Step::GetCwd { .. } => {
            let cap = if m.direct {
                m.out_cap
            } else {
                m.stack_cap
            };
            let joined = !m.direct && m.out.len() > 0;
            if cwd_prefix(reply, m.parents, joined, cap) is Ok {
                let cwd = cwd_outcome(reply, cap)->Ok_0;
                assert(is_canonical_path(cwd));
                lemma_cwd_prefix_canonical(cwd, m.parents, cap);
                let top = lexical(cwd, dotdots(m.parents));
                if joined {
                    // The names that waited go behind the directory.
                    lemma_reduced(m.out);
                    let names = components(m.out);
                    assert(names.len() > 0) by {
                        if names.len() == 0 {
                            assert(text(names) == Seq::<u8>::empty());
                        }
                    }
                    lemma_text(names);
                    lemma_lexical_names(top, names);
                    lemma_lexical_reduced(top, names);
                    lemma_lexical_absolute(top, names);
                } else if !m.direct {
                    assert(top + m.out =~= top);
                }
            }
        },
        _ => {},
    }
}

/// The result of a resolution in order is a canonical path: a root marker,
/// and names behind it, one slash between two of them.
pub proof fn law_result_is_canonical(m: Machine) -> (cs: Seq<Seq<u8>>)
    requires
        orderly(m),
        m.step is Done,
    ensures
        is_canonical(cs),
        spell(cs) == m.out,
{
    let p = m.out;
    lemma_reduced(p);
    let f = components(p);
    assert(f.len() > 0) by {
        if f.len() == 0 {
            assert(text(f) == Seq::<u8>::empty());
        }
    }
    lemma_text(f);
    assert(is_root(f[0]));
    lemma_dotdot();
    assert(f[0] != dotdot()) by {
        lemma_root(f[0]);
    }
    assert forall|i: int| 1 <= i < f.len() implies is_name(#[trigger] f[i]) by {
        assert(is_segment(f[i]));
        lemma_no_dotdot_behind(f, i);
        assert(is_piece(f[i]));
    }
    lemma_canonical_is_normal(f);
    f
}

/// Resolution is idempotent: the result of a resolution, resolved again in
/// a file system in which none of its names is a symbolic link, is the
/// result.
///
/// `m` is the state of a resolution that is done, in order as every state
/// of a resolution is where the current directory is a canonical path. The
/// regions of the second resolution have room for the result, the one a
/// byte more, the other two.
pub proof fn law_result_is_fixed(
    m: Machine,
    cwd: Seq<u8>,
    out_cap: nat,
    stack_cap: nat,
    flags: RealpathFlags,
    limit: nat,
)
    requires
        orderly(m),
        m.step is Done,
        m.out.len() < out_cap,
        m.out.len() + 1 < stack_cap,
    ensures
        exists|n: nat|
            {
                let end = #[trigger] after_plain_answers(
                    Machine::start(m.out, out_cap, stack_cap, flags, limit),
                    cwd,
                    n,
                );
                end.step == Step::Done(m.out.len() as usize) && end.out == m.out
            },
{
    let cs = law_result_is_canonical(m);
    law_canonical_is_fixed(cs, cwd, out_cap, stack_cap, flags, limit);
}

} // verus!

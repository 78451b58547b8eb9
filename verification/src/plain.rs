//! Resolution in a file system without symbolic links: there, resolving a
//! path is normalizing it, from the root or from the current directory on.

use crate::canonical::{is_canonical, is_name, lemma_canonical_is_normal, lemma_spell, spell};
use crate::decompose::{
    after_pop, components, index_of, leading_slashes, lemma_after_pop,
    lemma_after_pop_shorter, lemma_index_of, lemma_leading_slashes, lemma_parts_hold_no_slash,
    lemma_pending_push, lemma_seed_components, parts, pending, root_of, seed_text,
};
use crate::errno::Errno;
use crate::flags::RealpathFlags;
use crate::laws::law_normalize_capacity;
use crate::machine::{asks_for_directory, climb, cwd_prefix, Machine, Step};
use crate::normal::{
    dotdots, is_normal, is_segment, lemma_climb_absolute_form, lemma_dotdot,
    lemma_leading_dotdots, lemma_lexical_add, lemma_lexical_names, lemma_name_first,
    lemma_reduce, lemma_reduce_holds_no, lemma_reduce_twice, lemma_relative_stays,
    lemma_segment, lemma_text, lemma_ups, reduce, text, ups,
};
use crate::normalized;
use crate::path::{
    apply_component, dotdot, dotdot_slash, is_root, join, leading_dotdots, lemma_parent_absolute,
    lexical, lexical_fits, needs_separator, root_double, root_single, DOT, NUL, SLASH,
};
use crate::util::cwd_outcome;
use vstd::prelude::*;

verus! {

/// The answer of a file system without symbolic links in which everything
/// that is asked about exists, and whose current directory is `cwd`: a name
/// is there and is no link, and what has to be a directory is one.
pub open spec fn plain_reply(m: Machine, cwd: Seq<u8>) -> Result<Seq<u8>, Errno> {
    if m.step is CheckDir {
        Ok(Seq::empty())
    } else if m.step is GetCwd {
        Ok(cwd)
    } else {
        Err(Errno::InvalidArgument)
    }
}

/// The state of a resolution after `n` of its requests have been answered
/// by a file system without symbolic links.
pub open spec fn after_plain_answers(m: Machine, cwd: Seq<u8>, n: nat) -> Machine
    decreases n,
{
    if n == 0 {
        m
    } else {
        after_plain_answers(m.resume(plain_reply(m, cwd)), cwd, (n - 1) as nat)
    }
}

/// Answers can be counted in two goes.
pub proof fn lemma_answers_add(m: Machine, cwd: Seq<u8>, a: nat, b: nat)
    ensures
        after_plain_answers(m, cwd, a + b) == after_plain_answers(
            after_plain_answers(m, cwd, a),
            cwd,
            b,
        ),
    decreases a,
{
    if a > 0 {
        lemma_answers_add(m.resume(plain_reply(m, cwd)), cwd, (a - 1) as nat, b);
        assert((a + b - 1) as nat == (a - 1) as nat + b);
    }
}

/// The state in which the stack has run empty with the path `out` built,
/// settled for the first time.
spec fn settled(m: Machine, out: Seq<u8>, base: nat) -> Machine {
    (Machine { out, stack: Seq::empty(), base, step: Step::Done(0), ..m }).settle(false)
}

/// A path that fits with all the paths on the way to it fits.
pub proof fn lemma_fits_end(out: Seq<u8>, comps: Seq<Seq<u8>>, cap: nat)
    requires
        lexical_fits(out, comps, cap),
    ensures
        lexical(out, comps).len() <= cap,
    decreases comps.len(),
{
    if comps.len() > 0 {
        lemma_fits_end(apply_component(out, comps[0]), comps.drop_first(), cap);
    }
}

/// The components that wait on the stack are applied to the path that has
/// been built, with one answer for each name among them. Returned are the
/// number of the answers, and where the last name began.
proof fn lemma_walk(m: Machine, comps: Seq<Seq<u8>>, cwd: Seq<u8>) -> (r: (nat, nat))
    requires
        pending(m.stack) == comps,
        m.stack.len() < m.stack_cap,
        m.out_cap > 0,
        lexical_fits(m.out, comps, (m.out_cap - 1) as nat),
    ensures
        after_plain_answers(m.drain(), cwd, r.0) == settled(m, lexical(m.out, comps), r.1),
    decreases comps.len(),
{
    lemma_after_pop(m.stack);
    let rest = after_pop(m.stack);
    if comps.len() == 0 {
        assert(rest =~= Seq::<u8>::empty());
        (0, m.base)
    } else {
        let c = comps[0];
        let later = comps.drop_first();
        lemma_after_pop_shorter(m.stack);
        let applied = apply_component(m.out, c);
        assert(lexical_fits(applied, later, (m.out_cap - 1) as nat));
        assert(applied.len() <= m.out_cap - 1);
        if is_root(c) || c == dotdot() {
            let next = Machine { out: applied, stack: rest, ..m };
            assert(m.drain() == next.drain());
            let r = lemma_walk(next, later, cwd);
            assert(settled(next, lexical(applied, later), r.1) == settled(
                m,
                lexical(m.out, comps),
                r.1,
            ));
            r
        } else {
            let open = m.drain();
            assert(applied == join(m.out, c));
            assert(open.out == applied.push(NUL) && open.stack == rest);
            assert(open.step is Probe || open.step is ReadLink);
            assert(open.tolerates(Errno::InvalidArgument));
            let next = Machine { out: open.out.drop_last(), ..open };
            assert(open.out.drop_last() =~= applied);
            assert(open.resume(plain_reply(open, cwd)) == next.drain());
            let r = lemma_walk(next, later, cwd);
            assert(settled(next, lexical(applied, later), r.1) == settled(
                m,
                lexical(m.out, comps),
                r.1,
            ));
            (r.0 + 1, r.1)
        }
    }
}

/// The state in which the resolution of `path` starts, before the stack is
/// drained for the first time.
spec fn seeded(
    path: Seq<u8>,
    out_cap: nat,
    stack_cap: nat,
    flags: RealpathFlags,
    limit: nat,
) -> Machine {
    Machine {
        out: Seq::empty(),
        out_cap,
        stack: seed_text(path).push(NUL),
        stack_cap,
        followed: 0,
        limit,
        flags,
        need_dir: asks_for_directory(path) && !flags.allows_missing(),
        step: Step::Done(0),
        base: 0,
        parents: 0,
        direct: false,
    }
}

/// The resolution of a path that the stack has room for starts with the
/// components of the path on the stack, and drains them.
proof fn lemma_start(path: Seq<u8>, out_cap: nat, stack_cap: nat, flags: RealpathFlags, limit: nat)
    requires
        path.len() > 0,
        !path.contains(NUL),
        path.len() + 1 < stack_cap,
    ensures
        Machine::start(path, out_cap, stack_cap, flags, limit) == seeded(
            path,
            out_cap,
            stack_cap,
            flags,
            limit,
        ).drain(),
        pending(seeded(path, out_cap, stack_cap, flags, limit).stack) == components(path),
        seeded(path, out_cap, stack_cap, flags, limit).stack.len() < stack_cap,
{
    lemma_seed_components(path);
    let seed = seed_text(path);
    lemma_pending_push(seed, Seq::empty());
    let stack = seed.push(NUL);
    assert(stack + Seq::<u8>::empty() =~= stack);
    assert(pending(Seq::<u8>::empty()) =~= Seq::<Seq<u8>>::empty());
    assert(pending(stack) =~= components(path));
}

/// Where nothing is a symbolic link, resolving an absolute path is
/// normalizing it.
///
/// `path` begins with a slash, and the two regions have room for it: the
/// one for the result holds every path that arises on the way and one byte
/// more, the other the path and two bytes more. Then, when a file system
/// without symbolic links has answered often enough, the resolution is
/// done, and its result is the normal form of `path`.
pub proof fn law_resolution_without_links(
    path: Seq<u8>,
    cwd: Seq<u8>,
    out_cap: nat,
    stack_cap: nat,
    flags: RealpathFlags,
    limit: nat,
)
    requires
        path.len() > 0,
        path[0] == SLASH,
        !path.contains(NUL),
        out_cap > 0,
        lexical_fits(Seq::empty(), components(path), (out_cap - 1) as nat),
        path.len() + 1 < stack_cap,
    ensures
        exists|n: nat|
            {
                let end = #[trigger] after_plain_answers(
                    Machine::start(path, out_cap, stack_cap, flags, limit),
                    cwd,
                    n,
                );
                end.step == Step::Done(normalized(path).len() as usize) && end.out == normalized(
                    path,
                )
            },
{
    let comps = components(path);
    let empty = Seq::<u8>::empty();
    lemma_start(path, out_cap, stack_cap, flags, limit);
    let first = seeded(path, out_cap, stack_cap, flags, limit);
    let started = Machine::start(path, out_cap, stack_cap, flags, limit);
    let r = lemma_walk(first, comps, cwd);
    let out = lexical(empty, comps);
    let halt = after_plain_answers(started, cwd, r.0);
    assert(halt == settled(first, out, r.1));
    // The path begins with its root, so the path that is built is absolute.
    lemma_leading_slashes(path);
    assert(leading_slashes(path) > 0);
    let root = comps[0];
    assert(root == root_of(path)[0]);
    assert(is_root(root));
    assert(root_single().len() == 1 && root_single()[0] == SLASH);
    assert(root_double().len() == 2 && root_double()[0] == SLASH);
    assert(apply_component(empty, root) == root);
    assert(out == lexical(root, comps.drop_first()));
    lemma_lexical_absolute(root, comps.drop_first());
    lemma_fits_end(empty, comps, (out_cap - 1) as nat);
    assert(dotdot()[0] == DOT);
    assert(dotdot_slash()[0] == DOT);
    if dotdot_slash().is_prefix_of(out) {
        assert(out.subrange(0, 3)[0] == out[0]);
    }
    let held = Machine { out, stack: Seq::empty(), base: r.1, step: Step::Done(0), ..first };
    if !is_root(out) && first.need_dir {
        // The result has to be a directory, and it is one.
        let asked = Machine { out: out.push(NUL), step: Step::CheckDir, ..held };
        assert(halt == asked);
        let back = Machine { out: asked.out.drop_last(), ..asked };
        assert(asked.out.drop_last() =~= out);
        assert(asked.resume(plain_reply(asked, cwd)) == back.settle(true));
        assert(back.settle(true) == back.finish());
        lemma_answers_add(started, cwd, r.0, 1);
        assert(after_plain_answers(halt, cwd, 1) == after_plain_answers(
            back.finish(),
            cwd,
            0,
        ));
        let end = after_plain_answers(started, cwd, r.0 + 1);
        assert(end.step == Step::Done(normalized(path).len() as usize) && end.out == normalized(
            path,
        ));
    } else {
        assert(halt == held.finish());
        assert(halt.step == Step::Done(normalized(path).len() as usize) && halt.out
            == normalized(path));
    }
}

/// An absolute path with a component applied to it is absolute.
pub proof fn lemma_absolute_stays(out: Seq<u8>, c: Seq<u8>)
    requires
        out.len() > 0,
        out[0] == SLASH,
    ensures
        apply_component(out, c).len() > 0,
        apply_component(out, c)[0] == SLASH,
{
    assert(root_single().len() == 1 && root_single()[0] == SLASH);
    assert(root_double().len() == 2 && root_double()[0] == SLASH);
    lemma_parent_absolute(out);
}

/// Components that are applied to an absolute path leave an absolute path.
pub proof fn lemma_lexical_absolute(out: Seq<u8>, comps: Seq<Seq<u8>>)
    requires
        out.len() > 0,
        out[0] == SLASH,
    ensures
        lexical(out, comps).len() > 0,
        lexical(out, comps)[0] == SLASH,
    decreases comps.len(),
{
    if comps.len() > 0 {
        lemma_absolute_stays(out, comps[0]);
        lemma_lexical_absolute(apply_component(out, comps[0]), comps.drop_first());
    }
}

/// Resolution is idempotent: a canonical path that is resolved again, in a
/// file system in which none of its names is a symbolic link, results in
/// itself.
///
/// This is what holds of the result of any resolution that followed the
/// links on its way: it is a canonical path, and no name in it is a link.
pub proof fn law_canonical_is_fixed(
    cs: Seq<Seq<u8>>,
    cwd: Seq<u8>,
    out_cap: nat,
    stack_cap: nat,
    flags: RealpathFlags,
    limit: nat,
)
    requires
        is_canonical(cs),
        spell(cs).len() < out_cap,
        spell(cs).len() + 1 < stack_cap,
    ensures
        exists|n: nat|
            {
                let end = #[trigger] after_plain_answers(
                    Machine::start(spell(cs), out_cap, stack_cap, flags, limit),
                    cwd,
                    n,
                );
                end.step == Step::Done(spell(cs).len() as usize) && end.out == spell(cs)
            },
{
    lemma_spell(cs);
    let path = spell(cs);
    assert forall|i: int| 0 <= i < components(path).len() implies #[trigger] components(path)[i]
        != dotdot() by {
        if i > 0 {
            assert(is_name(cs[i]));
        } else {
            assert(root_single()[0] == SLASH);
            assert(root_double()[0] == SLASH);
            assert(dotdot()[0] == DOT);
        }
    }
    law_normalize_capacity(path, (out_cap - 1) as nat);
    law_resolution_without_links(path, cwd, out_cap, stack_cap, flags, limit);
}

/// What is left of a relative normal form behind some of its segments is a
/// relative normal form.
proof fn lemma_normal_skip(f: Seq<Seq<u8>>, k: int)
    requires
        is_normal(f),
        0 <= k < f.len(),
        !is_root(f[0]),
    ensures
        is_normal(f.skip(k)),
        !is_root(f.skip(k)[0]),
{
    let g = f.skip(k);
    assert(g[0] == f[k]);
    assert(is_segment(f[k]));
    lemma_segment(g[0]);
    assert forall|i: int| 0 < i < g.len() implies is_segment(#[trigger] g[i]) by {
        assert(g[i] == f[i + k]);
    }
    assert forall|i: int| 0 < i < g.len() && #[trigger] g[i] == dotdot() implies g[i - 1]
        == dotdot() by {
        assert(g[i] == f[i + k]);
        assert(g[i - 1] == f[i + k - 1]);
    }
}

/// The current directory, as a canonical path, is what the system's answer
/// with it comes to in a region that has room for it and one byte more.
proof fn lemma_cwd_taken(form: Seq<Seq<u8>>, cap: nat)
    requires
        is_canonical(form),
        spell(form).len() < cap,
    ensures
        cwd_outcome(Ok(spell(form)), cap) == Ok::<Seq<u8>, Errno>(spell(form)),
        is_normal(form),
        text(form) == spell(form),
        is_root(form[0]),
{
    lemma_spell(form);
    lemma_canonical_is_normal(form);
    let d = spell(form);
    lemma_index_of(d, NUL);
    let z = index_of(d, NUL);
    if z < d.len() {
        assert(d.contains(d[z]));
    }
    assert(d.take(z) =~= d);
}

/// The end of a resolution whose relative remainder goes behind the
/// current directory: the directory is climbed, and the names are applied
/// to what it comes to.
proof fn lemma_cwd_prepended(y: Machine, form: Seq<Seq<u8>>, names: Seq<Seq<u8>>)
    requires
        y.step is GetCwd,
        !y.direct,
        is_canonical(form),
        spell(form).len() < y.stack_cap,
        names.len() > 0 ==> is_normal(names) && !is_root(names[0]) && names[0] != dotdot(),
        y.out == text(names),
        lexical(lexical(spell(form), dotdots(y.parents)), names).len() <= y.out_cap,
    ensures
        y.resume(Ok(spell(form))).step == Step::Done(
            lexical(lexical(spell(form), dotdots(y.parents)), names).len() as usize,
        ),
        y.resume(Ok(spell(form))).out == lexical(
            lexical(spell(form), dotdots(y.parents)),
            names,
        ),
{
    let d = spell(form);
    let cap = y.stack_cap;
    lemma_cwd_taken(form, cap);
    lemma_climb_absolute_form(form, y.parents, cap);
    let top = lexical(d, dotdots(y.parents));
    assert(climb(d, y.parents, cap) == Some(top));
    let joined = y.out.len() > 0;
    if names.len() > 0 {
        lemma_text(names);
        lemma_lexical_names(top, names);
        assert(joined);
    } else {
        assert(y.out.len() == 0);
        assert(lexical(top, names) == top);
        assert(top + y.out =~= top);
    }
    let prefix = if joined && needs_separator(top) {
        top.push(SLASH)
    } else {
        top
    };
    assert(cwd_prefix(Ok(d), y.parents, joined, cap) == Ok::<Seq<u8>, Errno>(prefix));
    assert(prefix + y.out == lexical(top, names));
}

/// The end of a resolution that has nothing to put behind the current
/// directory: the directory is climbed, and that is the result.
proof fn lemma_cwd_direct(y: Machine, form: Seq<Seq<u8>>)
    requires
        y.step is GetCwd,
        y.direct,
        is_canonical(form),
        spell(form).len() < y.out_cap,
    ensures
        y.resume(Ok(spell(form))).step == Step::Done(
            lexical(spell(form), dotdots(y.parents)).len() as usize,
        ),
        y.resume(Ok(spell(form))).out == lexical(spell(form), dotdots(y.parents)),
{
    let d = spell(form);
    let cap = y.out_cap;
    lemma_cwd_taken(form, cap);
    lemma_climb_absolute_form(form, y.parents, cap);
    let top = lexical(d, dotdots(y.parents));
    assert(climb(d, y.parents, cap) == Some(top));
    assert(cwd_prefix(Ok(d), y.parents, false, cap) == Ok::<Seq<u8>, Errno>(top));
}

/// The components of a relative path are segments. Applied to nothing,
/// they come to the path of a relative normal form; applied to a canonical
/// path, they come to what that normal form comes to.
proof fn lemma_relative_form(path: Seq<u8>, form: Seq<Seq<u8>>)
    requires
        path.len() > 0,
        path[0] != SLASH,
        is_canonical(form),
    ensures
        is_normal(reduce(Seq::empty(), components(path))),
        text(reduce(Seq::empty(), components(path))) == lexical(Seq::empty(), components(path)),
        reduce(Seq::empty(), components(path)).len() > 0 ==> !is_root(
            reduce(Seq::empty(), components(path))[0],
        ),
        lexical(spell(form), components(path)) == lexical(
            spell(form),
            reduce(Seq::empty(), components(path)),
        ),
{
    let comps = components(path);
    let none = Seq::<Seq<u8>>::empty();
    assert forall|i: int| 0 <= i < comps.len() implies is_segment(#[trigger] comps[i]) by {
        assert(leading_slashes(path) == 0);
        assert(root_of(path).len() == 0);
        assert(comps[i] == parts(path)[i]);
        lemma_parts_hold_no_slash(path, i);
    }
    assert forall|i: int| 0 <= i < comps.len() implies is_root(#[trigger] comps[i]) || is_segment(
        comps[i],
    ) by {
        assert(is_segment(comps[i]));
    }
    assert(is_normal(none));
    assert(text(none) == Seq::<u8>::empty());
    lemma_reduce(none, comps);
    lemma_relative_stays(comps);
    let f = reduce(none, comps);
    lemma_canonical_is_normal(form);
    lemma_reduce(form, comps);
    lemma_reduce_twice(form, comps);
    assert forall|i: int| 0 <= i < f.len() implies is_root(#[trigger] f[i]) || is_segment(f[i]) by {
        assert(is_segment(f[i]));
    }
    lemma_reduce(form, f);
}

/// A state in which the stack has run empty for the first time.
spec fn is_halt(held: Machine) -> bool {
    held.stack.len() == 0 && held.out.len() < held.out_cap
}

/// The end of a resolution of which nothing but levels up is left: the
/// current directory, climbed.
proof fn lemma_end_of_ups(held: Machine, f: Seq<Seq<u8>>, form: Seq<Seq<u8>>)
    requires
        is_halt(held),
        is_normal(f),
        f.len() > 0 ==> !is_root(f[0]),
        ups(f) == f.len(),
        held.out == text(f),
        is_canonical(form),
        spell(form).len() < held.out_cap,
        spell(form).len() < held.stack_cap,
    ensures
        held.settle(false).step is GetCwd,
        held.settle(false).resume(Ok(spell(form))).step == Step::Done(
            lexical(spell(form), f).len() as usize,
        ),
        held.settle(false).resume(Ok(spell(form))).out == lexical(spell(form), f),
{
    let d = spell(form);
    let out = held.out;
    let halt = held.settle(false);
    let none = Seq::<Seq<u8>>::empty();
    lemma_dotdot();
    lemma_ups(f);
    let k = ups(f);
    assert(dotdots(k) =~= f);
    lemma_cwd_taken(form, held.out_cap);
    lemma_climb_absolute_form(form, k, held.out_cap);
    if f.len() == 0 {
        assert(out.len() == 0);
        lemma_cwd_direct(halt, form);
    } else {
        lemma_text(f);
        lemma_leading_dotdots(f);
        if f.len() == 1 {
            assert(out == dotdot());
            lemma_cwd_direct(halt, form);
        } else {
            assert(dotdot_slash().is_prefix_of(out));
            assert(out != dotdot());
            assert(halt == Machine {
                out: Seq::empty(),
                step: Step::GetCwd { limit: held.stack_cap as usize },
                parents: leading_dotdots(out) + 1,
                direct: false,
                ..held
            });
            assert(text(none) == Seq::<u8>::empty());
            assert(lexical(lexical(d, dotdots(k)), none) == lexical(d, dotdots(k)));
            lemma_cwd_prepended(halt, form, none);
        }
    }
}

/// The state in which a resolution asks for the current directory to put
/// it in front of the names that are left.
spec fn asking(held: Machine, rest: Seq<u8>, parents: nat) -> Machine {
    Machine {
        out: rest,
        step: Step::GetCwd { limit: held.stack_cap as usize },
        parents,
        direct: false,
        ..held
    }
}

/// What is left to do when names are left of a path, behind levels up if
/// any: a directory check where the path asks for one, and then the
/// question for the current directory.
proof fn lemma_settle_of_names(held: Machine, f: Seq<Seq<u8>>)
    requires
        is_halt(held),
        is_normal(f),
        f.len() > 0,
        !is_root(f[0]),
        ups(f) < f.len(),
        held.out == text(f),
    ensures
        is_normal(f.skip(ups(f) as int)),
        !is_root(f.skip(ups(f) as int)[0]),
        f.skip(ups(f) as int)[0] != dotdot(),
        f == dotdots(ups(f)) + f.skip(ups(f) as int),
        !held.need_dir ==> held.settle(false) == asking(
            held,
            text(f.skip(ups(f) as int)),
            ups(f),
        ),
        held.need_dir ==> held.settle(false) == (Machine {
            out: held.out.push(NUL),
            step: Step::CheckDir,
            ..held
        }),
        (Machine { step: Step::CheckDir, ..held }).settle(true) == asking(
            held,
            text(f.skip(ups(f) as int)),
            ups(f),
        ),
{
    let out = held.out;
    lemma_dotdot();
    lemma_text(f);
    lemma_leading_dotdots(f);
    lemma_ups(f);
    let k = ups(f);
    let names = f.skip(k as int);
    lemma_normal_skip(f, k as int);
    assert(names[0] == f[k as int]);
    lemma_name_first(names);
    let rest = text(names);
    assert(leading_dotdots(out) == k);
    assert(out.skip(3 * k as int) == rest);
    assert(out != dotdot());
    assert(rest != dotdot());
    if !dotdot_slash().is_prefix_of(out) {
        assert(k == 0);
        assert(names =~= f);
        assert(out.skip(0) =~= out);
    }
    assert(f =~= dotdots(k) + names) by {
        assert(f.take(k as int) =~= dotdots(k));
        assert(f =~= f.take(k as int) + f.skip(k as int));
    }
}

/// The end of a resolution of which names are left, behind levels up if
/// any: the current directory, climbed, with the names behind it.
proof fn lemma_end_of_names(held: Machine, f: Seq<Seq<u8>>, form: Seq<Seq<u8>>) -> (n: nat)
    requires
        is_halt(held),
        is_normal(f),
        f.len() > 0,
        !is_root(f[0]),
        ups(f) < f.len(),
        held.out == text(f),
        is_canonical(form),
        spell(form).len() < held.stack_cap,
        lexical(spell(form), f).len() <= held.out_cap,
    ensures
        n >= 1,
        after_plain_answers(held.settle(false), spell(form), n).step == Step::Done(
            lexical(spell(form), f).len() as usize,
        ),
        after_plain_answers(held.settle(false), spell(form), n).out == lexical(spell(form), f),
{
    let d = spell(form);
    let k = ups(f);
    let names = f.skip(k as int);
    let halt = held.settle(false);
    lemma_settle_of_names(held, f);
    lemma_lexical_add(d, dotdots(k), names);
    let ask = asking(held, text(names), k);
    lemma_cwd_prepended(ask, form, names);
    let end = ask.resume(Ok(d));
    assert(after_plain_answers(ask, d, 1) == after_plain_answers(end, d, 0));
    if held.need_dir {
        // The path has to name a directory, and it does.
        let back = Machine { out: halt.out.drop_last(), ..halt };
        assert(halt.out.drop_last() =~= held.out);
        assert(back == Machine { step: Step::CheckDir, ..held });
        assert(halt.resume(plain_reply(halt, d)) == back.settle(true));
        assert(after_plain_answers(halt, d, 2) == after_plain_answers(ask, d, 1));
        2
    } else {
        1
    }
}

/// Where nothing is a symbolic link, resolving a relative path is
/// normalizing it from the current directory on.
///
/// `path` does not begin with a slash, and `form` are the components of the
/// current directory, a canonical path. The two regions have room: the one
/// for the result holds every path that arises on the way and one byte
/// more, the current directory and one byte more, and the result; the
/// other holds the path and two bytes more, and the current directory and
/// one byte more. Then, when a file system without symbolic links has
/// answered often enough, the resolution is done, and its result is the
/// current directory with the components of `path` applied to it.
pub proof fn law_relative_resolution_without_links(
    path: Seq<u8>,
    form: Seq<Seq<u8>>,
    out_cap: nat,
    stack_cap: nat,
    flags: RealpathFlags,
    limit: nat,
)
    requires
        path.len() > 0,
        path[0] != SLASH,
        !path.contains(NUL),
        is_canonical(form),
        out_cap > 0,
        lexical_fits(Seq::empty(), components(path), (out_cap - 1) as nat),
        spell(form).len() < out_cap,
        lexical(spell(form), components(path)).len() <= out_cap,
        path.len() + 1 < stack_cap,
        spell(form).len() < stack_cap,
    ensures
        exists|n: nat|
            {
                let end = #[trigger] after_plain_answers(
                    Machine::start(path, out_cap, stack_cap, flags, limit),
                    spell(form),
                    n,
                );
                end.step == Step::Done(lexical(spell(form), components(path)).len() as usize)
                    && end.out == lexical(spell(form), components(path))
            },
{
    let comps = components(path);
    let d = spell(form);
    lemma_start(path, out_cap, stack_cap, flags, limit);
    let first = seeded(path, out_cap, stack_cap, flags, limit);
    let started = Machine::start(path, out_cap, stack_cap, flags, limit);
    let r = lemma_walk(first, comps, d);
    let out = lexical(Seq::empty(), comps);
    lemma_fits_end(Seq::empty(), comps, (out_cap - 1) as nat);
    lemma_relative_form(path, form);
    let f = reduce(Seq::empty(), comps);
    let held = Machine { out, stack: Seq::empty(), base: r.1, step: Step::Done(0), ..first };
    let halt = held.settle(false);
    assert(after_plain_answers(started, d, r.0) == halt);
    lemma_ups(f);
    let n: nat = if ups(f) == f.len() {
        lemma_end_of_ups(held, f, form);
        assert(after_plain_answers(halt, d, 1) == after_plain_answers(
            halt.resume(plain_reply(halt, d)),
            d,
            0,
        ));
        1
    } else {
        lemma_end_of_names(held, f, form)
    };
    lemma_answers_add(started, d, r.0, n);
    let end = after_plain_answers(started, d, r.0 + n);
    assert(end.step == Step::Done(lexical(d, comps).len() as usize) && end.out == lexical(
        d,
        comps,
    ));
}

/// The normal form of an absolute path without a NUL is a canonical path.
pub proof fn lemma_normal_form_is_canonical(path: Seq<u8>) -> (cs: Seq<Seq<u8>>)
    requires
        path.len() > 0,
        path[0] == SLASH,
        !path.contains(NUL),
    ensures
        is_canonical(cs),
        spell(cs) == normalized(path),
        normalized(path) == lexical(Seq::empty(), components(path)),
{
    let comps = components(path);
    let none = Seq::<Seq<u8>>::empty();
    crate::normal::lemma_components_are_pieces(path);
    assert(is_normal(none));
    lemma_reduce(none, comps);
    let f = reduce(none, comps);
    // The path that the form spells is absolute, so a root stands first.
    lemma_leading_slashes(path);
    let root = comps[0];
    assert(root == root_of(path)[0]);
    assert(is_root(root));
    crate::normal::lemma_root(root);
    assert(lexical(Seq::empty(), comps) == lexical(root, comps.drop_first()));
    lemma_lexical_absolute(root, comps.drop_first());
    assert(text(f) == normalized(path));
    assert(f.len() > 0) by {
        if f.len() == 0 {
            assert(text(f) == Seq::<u8>::empty());
        }
    }
    lemma_text(f);
    assert(is_root(f[0]));
    lemma_dotdot();
    assert(f[0] != dotdot()) by {
        crate::normal::lemma_root(f[0]);
    }
    // No component of the path holds a NUL, so none of the form does.
    assert forall|i: int| 0 <= i < comps.len() implies !(#[trigger] comps[i]).contains(NUL) by {
        if i < root_of(path).len() {
            assert(comps[i] == root);
            if root.contains(NUL) {
                let j = choose|j: int| 0 <= j < root.len() && root[j] == NUL;
            }
        } else {
            let at = i - root_of(path).len();
            assert(comps[i] == parts(path)[at]);
            if parts(path)[at].contains(NUL) {
                crate::decompose::lemma_parts_hold_bytes_of_path(path, at, NUL);
            }
        }
    }
    lemma_reduce_holds_no(none, comps, NUL);
    assert forall|i: int| 1 <= i < f.len() implies is_name(#[trigger] f[i]) by {
        assert(is_segment(f[i]));
        crate::normal::lemma_no_dotdot_behind(f, i);
        assert(!f[i].contains(NUL));
    }
    lemma_canonical_is_normal(f);
    f
}

/// In a file system without symbolic links, resolution is idempotent: the
/// result of resolving an absolute path is a canonical path, and resolving
/// the result again leaves it as it is.
pub proof fn law_idempotent_without_links(
    path: Seq<u8>,
    cwd: Seq<u8>,
    out_cap: nat,
    stack_cap: nat,
    flags: RealpathFlags,
    limit: nat,
)
    requires
        path.len() > 0,
        path[0] == SLASH,
        !path.contains(NUL),
        out_cap > 0,
        lexical_fits(Seq::empty(), components(path), (out_cap - 1) as nat),
        path.len() + 1 < stack_cap,
        normalized(path).len() + 1 < stack_cap,
    ensures
        exists|n: nat|
            {
                let end = #[trigger] after_plain_answers(
                    Machine::start(path, out_cap, stack_cap, flags, limit),
                    cwd,
                    n,
                );
                end.step == Step::Done(normalized(path).len() as usize) && end.out == normalized(
                    path,
                )
            },
        exists|n: nat|
            {
                let end = #[trigger] after_plain_answers(
                    Machine::start(normalized(path), out_cap, stack_cap, flags, limit),
                    cwd,
                    n,
                );
                end.step == Step::Done(normalized(path).len() as usize) && end.out == normalized(
                    path,
                )
            },
{
    law_resolution_without_links(path, cwd, out_cap, stack_cap, flags, limit);
    let cs = lemma_normal_form_is_canonical(path);
    lemma_fits_end(Seq::empty(), components(path), (out_cap - 1) as nat);
    law_canonical_is_fixed(cs, cwd, out_cap, stack_cap, flags, limit);
}

/// A canonical path with the components of a relative path without a NUL
/// applied to it is a canonical path.
pub proof fn lemma_applied_is_canonical(path: Seq<u8>, form: Seq<Seq<u8>>) -> (cs: Seq<Seq<u8>>)
    requires
        path.len() > 0,
        path[0] != SLASH,
        !path.contains(NUL),
        is_canonical(form),
    ensures
        is_canonical(cs),
        spell(cs) == lexical(spell(form), components(path)),
{
    let comps = components(path);
    lemma_canonical_is_normal(form);
    lemma_spell(form);
    assert forall|i: int| 0 <= i < comps.len() implies {
        is_segment(#[trigger] comps[i]) && !comps[i].contains(NUL)
    } by {
        assert(leading_slashes(path) == 0);
        assert(root_of(path).len() == 0);
        assert(comps[i] == parts(path)[i]);
        lemma_parts_hold_no_slash(path, i);
        if parts(path)[i].contains(NUL) {
            crate::decompose::lemma_parts_hold_bytes_of_path(path, i, NUL);
        }
    }
    assert forall|i: int| 0 <= i < comps.len() implies is_root(#[trigger] comps[i]) || is_segment(
        comps[i],
    ) by {
        assert(is_segment(comps[i]));
    }
    lemma_reduce(form, comps);
    let f = reduce(form, comps);
    assert forall|i: int| 0 <= i < form.len() implies !(#[trigger] form[i]).contains(NUL) by {
        if i == 0 {
            crate::normal::lemma_root(form[0]);
            if form[0].contains(NUL) {
                let j = choose|j: int| 0 <= j < form[0].len() && form[0][j] == NUL;
            }
        } else {
            assert(is_name(form[i]));
        }
    }
    lemma_reduce_holds_no(form, comps, NUL);
    // What the form spells is absolute, so a root stands first in it.
    lemma_lexical_absolute(spell(form), comps);
    assert(f.len() > 0) by {
        if f.len() == 0 {
            assert(text(f) == Seq::<u8>::empty());
        }
    }
    lemma_text(f);
    assert(is_root(f[0]));
    lemma_dotdot();
    assert(f[0] != dotdot()) by {
        crate::normal::lemma_root(f[0]);
    }
    assert forall|i: int| 1 <= i < f.len() implies is_name(#[trigger] f[i]) by {
        assert(is_segment(f[i]));
        crate::normal::lemma_no_dotdot_behind(f, i);
        assert(!f[i].contains(NUL));
    }
    lemma_canonical_is_normal(f);
    f
}

/// In a file system without symbolic links, resolution is idempotent for
/// relative paths as well: the result of resolving one is a canonical
/// path, and resolving the result again leaves it as it is.
pub proof fn law_relative_idempotent_without_links(
    path: Seq<u8>,
    form: Seq<Seq<u8>>,
    out_cap: nat,
    stack_cap: nat,
    flags: RealpathFlags,
    limit: nat,
)
    requires
        path.len() > 0,
        path[0] != SLASH,
        !path.contains(NUL),
        is_canonical(form),
        out_cap > 0,
        lexical_fits(Seq::empty(), components(path), (out_cap - 1) as nat),
        spell(form).len() < out_cap,
        lexical(spell(form), components(path)).len() < out_cap,
        path.len() + 1 < stack_cap,
        spell(form).len() < stack_cap,
        lexical(spell(form), components(path)).len() + 1 < stack_cap,
    ensures
        exists|n: nat|
            {
                let end = #[trigger] after_plain_answers(
                    Machine::start(path, out_cap, stack_cap, flags, limit),
                    spell(form),
                    n,
                );
                end.step == Step::Done(lexical(spell(form), components(path)).len() as usize)
                    && end.out == lexical(spell(form), components(path))
            },
        exists|n: nat|
            {
                let end = #[trigger] after_plain_answers(
                    Machine::start(
                        lexical(spell(form), components(path)),
                        out_cap,
                        stack_cap,
                        flags,
                        limit,
                    ),
                    spell(form),
                    n,
                );
                end.step == Step::Done(lexical(spell(form), components(path)).len() as usize)
                    && end.out == lexical(spell(form), components(path))
            },
{
    law_relative_resolution_without_links(path, form, out_cap, stack_cap, flags, limit);
    let cs = lemma_applied_is_canonical(path, form);
    law_canonical_is_fixed(cs, spell(form), out_cap, stack_cap, flags, limit);
}

} // verus!

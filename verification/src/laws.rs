//! What holds of every resolution, whatever the file system answers, and
//! of every normalization.

use crate::decompose::{
    after_pop, as_component, components, leading_slashes, lemma_after_pop_shorter,
    lemma_index_of_is, lemma_parts_hold_no_slash, lemma_pending_push, link_text, parts,
    pending, root_of, seed_text,
};
use crate::errno::Errno;
use crate::flags::RealpathFlags;
use crate::machine::{asks_for_directory, Machine, Step};
use crate::normal::{
    is_normal, lemma_components_are_pieces, lemma_reduce, lemma_text, reduce, text,
};
use crate::path::{
    apply_component, dot, dotdot, is_root, join, lexical, lexical_fits, root_double,
    root_single, DOT, NUL, SLASH,
};
use crate::{normalized, normalizes_within};
use vstd::prelude::*;

verus! {
/// Draining the stack leaves the switches, the counter of links and the
/// sizes of the regions as they are. It fails for want of room only, and it
/// asks for no directory check where the result need not be a directory.
pub proof fn law_drain_frame(m: Machine)
    ensures
        m.drain().flags == m.flags,
        m.drain().need_dir == m.need_dir,
        m.drain().followed == m.followed,
        m.drain().limit == m.limit,
        m.drain().out_cap == m.out_cap,
        m.drain().stack_cap == m.stack_cap,
        m.drain().step is Failed ==> m.drain().step == Step::Failed(Errno::NameTooLong),
        !m.need_dir ==> !(m.drain().step is CheckDir),
    decreases m.stack.len(),
{
    let comps = pending(m.stack);
    let rest = after_pop(m.stack);
    if comps.len() > 0 {
        let c = comps[0];
        if is_root(c) || c == dotdot() {
            let out = apply_component(m.out, c);
            if out.len() <= m.out_cap {
                if m.stack.len() > 0 {
                    lemma_after_pop_shorter(m.stack);
                }
                law_drain_frame(Machine { out, stack: rest, ..m });
            }
        }
    }
}

/// Where `ALLOW_MISSING` is set, no resolution ever asks whether its result
/// is a directory: not at its start, and not after any answer.
pub proof fn law_no_directory_check(
    path: Seq<u8>,
    out_cap: nat,
    stack_cap: nat,
    flags: RealpathFlags,
    limit: nat,
    m: Machine,
    reply: Result<Seq<u8>, Errno>,
)
    requires
        flags.allows_missing(),
    ensures
        !Machine::start(path, out_cap, stack_cap, flags, limit).need_dir,
        !(Machine::start(path, out_cap, stack_cap, flags, limit).step is CheckDir),
        !m.need_dir && !(m.step is CheckDir) ==> !m.resume(reply).need_dir
            && !(m.resume(reply).step is CheckDir),
{
    let fresh = Machine {
        out: Seq::empty(),
        out_cap,
        stack: Seq::empty(),
        stack_cap,
        followed: 0,
        limit,
        flags,
        need_dir: asks_for_directory(path) && !flags.allows_missing(),
        step: Step::Done(0),
        base: 0,
        parents: 0,
        direct: false,
    };
    law_drain_frame(Machine { stack: seed_text(path).push(NUL), ..fresh });
    if !m.need_dir && !(m.step is CheckDir) {
        match m.step {
            Step::ReadLink { .. } | Step::Probe => {
                match m.link_answer(reply) {
                    Ok(()) => {
                        let text = link_text(reply->Ok_0);
                        law_drain_frame(
                            Machine {
                                out: if text.len() > 0 && text[0] == SLASH {
                                    Seq::empty()
                                } else {
                                    m.out.take(m.base as int)
                                },
                                stack: text.push(NUL) + m.stack,
                                followed: m.followed + 1,
                                ..m
                            },
                        );
                    },
                    Err(e) => {
                        law_drain_frame(Machine { out: m.out.drop_last(), ..m });
                    },
                }
            },
            _ => {},
        }
    }
}

/// A result that has to be a directory and is none fails the resolution
/// with not-a-directory, whatever else is set: once the check is open,
/// only the answer that the path names a directory lets the resolution go
/// on, and, with `ALLOW_LAST_MISSING`, the answer that it names nothing.
pub proof fn law_directory_check(m: Machine, e: Errno)
    ensures
        m.on_dir(Err(Errno::NotADirectory)).step == Step::Failed(Errno::NotADirectory),
        !(e == Errno::NoEntry && m.flags.allows_last_missing()) ==> m.on_dir(Err(e)).step
            == Step::Failed(e),
        m.step is CheckDir ==> m.resume(Err(Errno::NotADirectory)).step == Step::Failed(
            Errno::NotADirectory,
        ),
{
}

/// What becomes of a name that the file system does not know.
///
/// With `ALLOW_MISSING` the resolution goes on with the name in place.
/// With `ALLOW_LAST_MISSING` alone it goes on where no component waits
/// behind the name, and fails with no-such-entry where one does. With
/// neither it fails with no-such-entry.
pub proof fn law_missing_name(m: Machine)
    requires
        m.step is ReadLink || m.step is Probe,
    ensures
        m.flags.allows_missing() ==> m.resume(Err(Errno::NoEntry)) == (Machine {
            out: m.out.drop_last(),
            ..m
        }).drain(),
        m.flags.allows_missing() ==> m.resume(Err(Errno::NoEntry)).step != Step::Failed(
            Errno::NoEntry,
        ),
        !m.flags.allows_missing() && m.flags.allows_last_missing() && pending(m.stack).len() == 0
            ==> m.resume(Err(Errno::NoEntry)).step != Step::Failed(Errno::NoEntry),
        !m.flags.allows_missing() && pending(m.stack).len() > 0 ==> m.resume(
            Err(Errno::NoEntry),
        ).step == Step::Failed(Errno::NoEntry),
        !m.flags.allows_missing() && !m.flags.allows_last_missing() ==> m.resume(
            Err(Errno::NoEntry),
        ).step == Step::Failed(Errno::NoEntry),
{
    law_drain_frame(Machine { out: m.out.drop_last(), ..m });
}

/// The limit on symbolic links is exact: a link that is read when as many
/// links as the limit allows have been followed fails the resolution with
/// too-many-links; any link before that is followed and counted, and the
/// resolution does not fail on its account.
pub proof fn law_link_limit(m: Machine, target: Seq<u8>)
    requires
        m.step is ReadLink,
        link_text(target).len() + 1 < m.free(),
    ensures
        m.followed >= m.limit ==> m.resume(Ok(target)).step == Step::Failed(Errno::TooManyLinks),
        m.followed < m.limit ==> m.resume(Ok(target)).followed == m.followed + 1 && m.resume(
            Ok(target),
        ).step != Step::Failed(Errno::TooManyLinks),
{
    let text = link_text(target);
    law_drain_frame(
        Machine {
            out: if text.len() > 0 && text[0] == SLASH {
                Seq::empty()
            } else {
                m.out.take(m.base as int)
            },
            stack: text.push(NUL) + m.stack,
            followed: m.followed + 1,
            ..m
        },
    );
}

/// How far a resolution is from its end, as far as its open request says:
/// a question about a name may be followed by a directory check, and that
/// by the question for the current directory.
pub open spec fn rank(step: Step) -> nat {
    match step {
        Step::ReadLink { .. } | Step::Probe => 3,
        Step::CheckDir => 2,
        Step::GetCwd { .. } => 1,
        Step::Done(_) | Step::Failed(_) => 0,
    }
}

/// Draining takes from the stack: a question about a name leaves the stack
/// shorter than it was, and any other outcome leaves it no longer.
pub proof fn law_drain_shortens(m: Machine)
    ensures
        m.drain().stack.len() <= m.stack.len(),
        m.drain().step is ReadLink || m.drain().step is Probe ==> m.drain().stack.len()
            < m.stack.len(),
    decreases m.stack.len(),
{
    let comps = pending(m.stack);
    let rest = after_pop(m.stack);
    crate::decompose::lemma_after_pop(m.stack);
    if comps.len() > 0 {
        lemma_after_pop_shorter(m.stack);
        let c = comps[0];
        if is_root(c) || c == dotdot() {
            let out = apply_component(m.out, c);
            if out.len() <= m.out_cap {
                law_drain_shortens(Machine { out, stack: rest, ..m });
            }
        }
    }
}

/// Whether the state `next` is nearer to the end of the resolution than
/// the state `m`: a symbolic link more has been followed, of those that
/// the limit leaves; or the stack has become shorter; or the stack is as
/// it was and the open request is one that comes later.
pub open spec fn nearer(next: Machine, m: Machine) -> bool {
    ||| m.followed < m.limit && next.followed == m.followed + 1
    ||| next.followed == m.followed && next.stack.len() < m.stack.len()
    ||| next.followed == m.followed && next.stack.len() == m.stack.len() && rank(next.step)
        < rank(m.step)
}

/// Every answer brings a resolution nearer to its end. So a resolution ends
/// after a number of answers that the limit on symbolic links and the size
/// of the stack bound.
pub proof fn law_progress(m: Machine, reply: Result<Seq<u8>, Errno>)
    requires
        !(m.step is Done),
        !(m.step is Failed),
    ensures
        m.resume(reply).limit == m.limit,
        nearer(m.resume(reply), m),
{
    match m.step {
        Step::ReadLink { .. } | Step::Probe => {
            match m.link_answer(reply) {
                Ok(()) => {
                    let text = link_text(reply->Ok_0);
                    let next = Machine {
                        out: if text.len() > 0 && text[0] == SLASH {
                            Seq::empty()
                        } else {
                            m.out.take(m.base as int)
                        },
                        stack: text.push(NUL) + m.stack,
                        followed: m.followed + 1,
                        ..m
                    };
                    law_drain_frame(next);
                },
                Err(e) => {
                    let next = Machine { out: m.out.drop_last(), ..m };
                    law_drain_frame(next);
                    law_drain_shortens(next);
                },
            }
        },
        _ => {},
    }
}

/// A symbolic link that is followed gives way to its target: the name
/// leaves the path, and the components of the target are the next to be
/// applied, before those that waited already. A target that begins with a
/// slash starts the path anew.
pub proof fn law_link_followed(m: Machine, target: Seq<u8>)
    requires
        m.step is ReadLink,
        m.followed < m.limit,
        link_text(target).len() + 1 < m.free(),
        !link_text(target).contains(NUL),
    ensures
        m.resume(Ok(target)) == (Machine {
            out: if link_text(target).len() > 0 && link_text(target)[0] == SLASH {
                Seq::empty()
            } else {
                m.out.take(m.base as int)
            },
            stack: link_text(target).push(NUL) + m.stack,
            followed: m.followed + 1,
            ..m
        }).drain(),
        pending(link_text(target).push(NUL) + m.stack) == components(link_text(target))
            + pending(m.stack),
{
    lemma_pending_push(link_text(target), m.stack);
}

/// Applying components that are neither `..` nor a root marker only makes
/// a path longer, so all of it fits where its end fits.
pub proof fn lemma_growing_fits(out: Seq<u8>, comps: Seq<Seq<u8>>, cap: nat)
    requires
        forall|i: int| 0 <= i < comps.len() ==> !is_root(#[trigger] comps[i]) && comps[i]
            != dotdot(),
    ensures
        out.len() <= lexical(out, comps).len(),
        lexical_fits(out, comps, cap) == (lexical(out, comps).len() <= cap),
    decreases comps.len(),
{
    if comps.len() > 0 {
        let next = apply_component(out, comps[0]);
        assert(next == join(out, comps[0]));
        let rest = comps.drop_first();
        assert forall|i: int| 0 <= i < rest.len() implies !is_root(#[trigger] rest[i]) && rest[i]
            != dotdot() by {
            assert(rest[i] == comps[i + 1]);
        }
        lemma_growing_fits(next, rest, cap);
    }
}

/// A region that is exactly as large as the normal form of a path has room
/// to build it, and a region one byte smaller has not, as long as the path
/// holds no `..`: that alone makes a path shorter on the way.
pub proof fn law_normalize_capacity(path: Seq<u8>, cap: nat)
    requires
        forall|i: int| 0 <= i < components(path).len() ==> #[trigger] components(path)[i]
            != dotdot(),
    ensures
        normalizes_within(path, cap) == (normalized(path).len() <= cap),
{
    let comps = components(path);
    let tail = parts(path);
    let head = root_of(path);
    assert forall|i: int| 0 <= i < tail.len() implies !is_root(#[trigger] tail[i]) && tail[i]
        != dotdot() by {
        lemma_parts_hold_no_slash(path, i);
        assert(comps[head.len() + i] == tail[i]);
        if is_root(tail[i]) {
            assert(root_single()[0] == SLASH);
            assert(root_double()[0] == SLASH);
            assert(tail[i].contains(tail[i][0]));
        }
    }
    let empty = Seq::<u8>::empty();
    if head.len() == 0 {
        assert(comps =~= tail);
        lemma_growing_fits(empty, tail, cap);
    } else {
        let root = head[0];
        assert(is_root(root));
        assert(comps[0] == root);
        assert(comps.drop_first() =~= tail);
        assert(apply_component(empty, root) == root);
        lemma_growing_fits(root, tail, cap);
        assert(lexical(empty, comps) == lexical(root, tail));
        assert(lexical_fits(empty, comps, cap) == lexical_fits(root, tail, cap));
        assert(root.len() > 0) by {
            assert(root_single().len() == 1);
            assert(root_double().len() == 2);
        }
    }
}

/// Normalizing is idempotent: the normal form of a path is its own normal
/// form.
pub proof fn law_normalize_idempotent(path: Seq<u8>)
    ensures
        normalized(normalized(path)) == normalized(path),
{
    let comps = components(path);
    let empty = Seq::<u8>::empty();
    let none = Seq::<Seq<u8>>::empty();
    lemma_components_are_pieces(path);
    assert(is_normal(none));
    lemma_reduce(none, comps);
    let f = reduce(none, comps);
    assert(text(none) == empty);
    let t = lexical(empty, comps);
    assert(t == text(f));
    if f.len() > 0 {
        lemma_text(f);
    } else {
        // Nothing is left: the normal form is `.`, which has no component.
        let d = dot();
        assert(d.len() == 1 && d[0] == DOT);
        lemma_index_of_is(d, SLASH, 1);
        assert(leading_slashes(d) == 0);
        assert(parts(d) == as_component(d));
        assert(components(d) =~= none);
    }
}

} // verus!

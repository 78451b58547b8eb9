//! Path canonicalization without allocation, verified.
//!
//! The crate resolves a path, given as bytes, into its canonical form: the
//! absolute path that names the same file, with every symbolic link
//! followed and without `.`, `..` or slashes in a row. All work is done in
//! two regions of bytes that the caller owns; nothing is allocated.
//!
//! The library never touches the file system itself. [`realpath_raw`]
//! starts a [`Resolver`], a state machine whose [`Step`] names the system
//! call that it needs next, and [`Resolver::resume`] takes the outcome of
//! that call. What the machine does is defined in [`machine`], in terms of
//! sequences of bytes.
//!
//! What follows from the definition is proved in three modules. [`laws`]
//! holds what is true whatever the file system answers: how the switches
//! work, that the limit on symbolic links is exact, that every answer
//! brings a resolution nearer to its end. [`orderly`] shows that the path
//! under construction stays in normal form and that the result is a
//! canonical path. [`plain`] shows that in a file system without symbolic
//! links resolving a path is normalizing it, from the root or from the
//! current directory on, and that a result resolved again is itself.
//!
//! [`normpath_raw`] is the lexical half alone: it normalizes a path without
//! asking any file system, so a relative path stays relative.

pub mod builder;
pub mod bytes;
pub mod canonical;
pub mod decompose;
pub mod errno;
pub mod flags;
pub mod laws;
pub mod machine;
pub mod normal;
pub mod orderly;
pub mod path;
pub mod plain;
pub mod resolve;
pub mod slicevec;
pub mod util;

pub use crate::builder::{RealpathBuilder, RealpathRawBuilder};
pub use crate::errno::Errno;
pub use crate::flags::RealpathFlags;
pub use crate::machine::Step;
pub use crate::resolve::Resolver;

use crate::bytes::starts_with;
use crate::decompose::components;
use crate::machine::Machine;
use crate::path::{
    apply_component, dot, dotdot_slash, leading_dotdots, lexical, lexical_fits, DOT, NUL, SLASH,
};
use crate::slicevec::SliceVec;
use crate::util::{link_limit, ComponentIter};
use vstd::prelude::*;

verus! {

/// The normal form of the path `path`: its components applied, one after the
/// other, to the empty path, and `.` where nothing is left.
///
/// Slashes in a row count as one, `.` disappears, and `..` takes away the
/// component before it. No file system is asked, so a relative path stays
/// relative.
pub open spec fn normalized(path: Seq<u8>) -> Seq<u8> {
    let t = lexical(Seq::empty(), components(path));
    if t.len() == 0 {
        dot()
    } else {
        t
    }
}

/// Whether a region of `cap` bytes has room for the normal form of `path` and
/// for every path that arises on the way to it.
pub open spec fn normalizes_within(path: Seq<u8>, cap: nat) -> bool {
    lexical_fits(Seq::empty(), components(path), cap) && normalized(path).len() <= cap
}

/// Writes the normal form of `path` to the front of `buf` and returns its
/// length.
///
/// An empty path fails with [`Errno::NoEntry`], one that holds a NUL with
/// [`Errno::InvalidArgument`]. The form is built in `buf` component by
/// component; where it, or a path on the way to it, does not fit, the call
/// fails with [`Errno::NameTooLong`].
#[verifier::loop_isolation(false)]
pub fn normpath_raw(path: &[u8], buf: &mut [u8]) -> (r: Result<usize, Errno>)
    ensures
        final(buf)@.len() == old(buf)@.len(),
        match r {
            Ok(n) => path@.len() > 0 && !path@.contains(NUL) && normalizes_within(
                path@,
                old(buf)@.len(),
            ) && n == normalized(path@).len() && final(buf)@.take(n as int) == normalized(path@),
            Err(e) => if path@.len() == 0 {
                e == Errno::NoEntry
            } else if path@.contains(NUL) {
                e == Errno::InvalidArgument
            } else {
                e == Errno::NameTooLong && !normalizes_within(path@, old(buf)@.len())
            },
        },
{
    let ghost region = final(buf)@;
    let mut out = SliceVec::empty(buf);
    let mut it = match ComponentIter::new(path) {
        Ok(it) => it,
        Err(e) => {
            return Err(e);
        },
    };
    let ghost cap = out.cap();
    loop
        invariant
            out.wf(),
            out.cap() == cap,
            cap == old(buf)@.len(),
            final(out.buf)@ == region,
            lexical(out@, it@) == lexical(Seq::empty(), components(path@)),
            lexical_fits(out@, it@, cap) == lexical_fits(Seq::empty(), components(path@), cap),
        decreases it@.len(),
    {
        let ghost before = it@;
        match it.next() {
            None => {
                proof {
                    assert(lexical(out@, it@) == out@);
                    assert(lexical_fits(out@, it@, cap));
                }
                break ;
            },
            Some(c) => {
                proof {
                    assert(before[0] == c@);
                }
                let ghost held = out@;
                match out.apply(c) {
                    Ok(()) => {},
                    Err(e) => {
                        proof {
                            assert(!lexical_fits(
                                apply_component(held, before[0]),
                                before.drop_first(),
                                cap,
                            ));
                            assert(!lexical_fits(held, before, cap));
                        }
                        return Err(e);
                    },
                }
            },
        }
    }
    if out.is_empty() {
        match out.push(DOT) {
            Ok(()) => {
                assert(out@ =~= dot());
            },
            Err(e) => {
                return Err(e);
            },
        }
    }
    let n = out.len();
    proof {
        assert(out@ =~= out.buf@.take(n as int));
    }
    Ok(n)
}

/// How many times `s` begins with `../`.
pub fn count_leading_dotdot(s: &[u8]) -> (n: usize)
    ensures
        n == leading_dotdots(s@),
        3 * n <= s@.len(),
{
    let up: [u8; 3] = [DOT, DOT, SLASH];
    assert(up@ =~= dotdot_slash());
    let total: usize = s.len();
    let mut n: usize = 0;
    let mut rest = s;
    while starts_with(rest, &up)
        invariant
            up@ == dotdot_slash(),
            total == s@.len(),
            n + leading_dotdots(rest@) == leading_dotdots(s@),
            rest@.len() + 3 * n == s@.len(),
        decreases rest@.len(),
    {
        rest = vstd::slice::slice_subrange(rest, 3, rest.len());
        n += 1;
    }
    n
}

/// Starts the resolution of `path` into `buf`.
///
/// The result is the absolute path that names what `path` names, with
/// every symbolic link followed and without `.`, `..` or slashes in a row.
/// The resolution itself asks nothing of the file system: the
/// [`resolve::Resolver`] that is returned says which system call it needs,
/// and goes on when it is given the outcome.
///
/// `tmp` holds the components that wait and should be somewhat larger than
/// `buf`. `symloop_max` is the number of symbolic links that the system is
/// willing to follow, as the system reports it.
pub fn realpath_raw<'a>(
    path: &[u8],
    buf: &'a mut [u8],
    tmp: &'a mut [u8],
    flags: RealpathFlags,
    symloop_max: i64,
) -> (r: Resolver<'a>)
    ensures
        r.wf(),
        r.buf.cap() == old(buf)@.len(),
        r.stack.cap() == old(tmp)@.len(),
        final(r.buf.buf)@ == final(buf)@,
        final(r.stack.buf)@ == final(tmp)@,
        Machine::start(
            path@,
            old(buf)@.len(),
            old(tmp)@.len(),
            flags,
            link_limit(symloop_max),
        ).met_by(r@),
        orderly::orderly(r@),
{
    Resolver::new(path, buf, tmp, flags, symloop_max)
}

} // verus!

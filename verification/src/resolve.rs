//! Path resolution without a file system of its own.
//!
//! A [`Resolver`] decides and the caller acts: the resolver says which
//! system call it needs, the caller makes the call and hands the outcome to
//! [`Resolver::resume`], until the resolver is done or has failed.

use crate::bytes::{ends_with, equal, starts_with};
use crate::errno::Errno;
use crate::flags::RealpathFlags;
use crate::decompose::c_text;
use crate::machine::{asks_for_directory, climb, cwd_prefix, Machine, Step};
use crate::orderly::{is_canonical_path, law_starts_orderly, law_stays_orderly, orderly};
use crate::path::{
    dotdot, dotdot_slash, is_dotdot, is_root_marker, slash_dot, DOT, NUL, SLASH,
};
use crate::slicevec::SliceVec;
use crate::util::{getcwd, link_limit, reply_view, ComponentStack, SymlinkCounter};
use crate::count_leading_dotdot;
use vstd::prelude::*;
use vstd::slice::slice_subrange;

verus! {

/// Takes the current directory into `v`, climbs it `parents` times, and puts
/// a slash at its end where `joined` says that a name will follow and the
/// directory is no root.
#[verifier::loop_isolation(false)]
fn make_prefix(
    v: &mut SliceVec,
    reply: Result<&[u8], Errno>,
    parents: usize,
    joined: bool,
) -> (r: Result<(), Errno>)
    requires
        old(v).wf(),
    ensures
        final(v).wf(),
        final(v).cap() == old(v).cap(),
        final(final(v).buf)@ == final(old(v).buf)@,
        match r {
            Ok(()) => cwd_prefix(reply_view(reply), parents as nat, joined, old(v).cap()) == Ok::<
                Seq<u8>,
                Errno,
            >(final(v)@),
            Err(e) => cwd_prefix(reply_view(reply), parents as nat, joined, old(v).cap()) == Err::<
                Seq<u8>,
                Errno,
            >(e),
        },
{
    let ghost cap = v.cap();
    match getcwd(v, reply) {
        Ok(()) => {},
        Err(e) => {
            return Err(e);
        },
    }
    let ghost cwd = v@;
    let mut left: usize = parents;
    while left > 0
        invariant
            v.wf(),
            v.cap() == cap,
            final(v.buf)@ == final(old(v).buf)@,
            climb(v@, left as nat, cap) == climb(cwd, parents as nat, cap),
        decreases left,
    {
        let ghost held = v@;
        match v.make_parent_path() {
            Ok(()) => {},
            Err(e) => {
                proof {
                    assert(climb(held, left as nat, cap) is None);
                }
                return Err(e);
            },
        }
        left -= 1;
    }
    if joined && !is_root_marker(v.as_slice()) && !v.is_empty() {
        v.push(SLASH)
    } else {
        Ok(())
    }
}

/// What a resolution keeps in mind besides its two regions.
pub struct Control {
    links: SymlinkCounter,
    flags: RealpathFlags,
    need_dir: bool,
    step: Step,
    base: usize,
    parents: usize,
    direct: bool,
}

impl Control {
    /// How many symbolic links have been followed.
    pub closed spec fn followed(&self) -> nat {
        self.links.followed()
    }

    /// How many symbolic links may be followed.
    pub closed spec fn limit(&self) -> nat {
        self.links.limit()
    }

    /// The switches of the resolution.
    pub closed spec fn flags(&self) -> RealpathFlags {
        self.flags
    }

    /// Whether the result has to name a directory.
    pub closed spec fn need_dir(&self) -> bool {
        self.need_dir
    }

    /// The open request, or the end.
    pub closed spec fn step(&self) -> Step {
        self.step
    }

    /// The length that the path had before the name under question was
    /// added.
    pub closed spec fn base(&self) -> nat {
        self.base as nat
    }

    /// How many levels the current directory has to be climbed.
    pub closed spec fn parents(&self) -> nat {
        self.parents as nat
    }

    /// Whether the current directory goes straight into the result.
    pub closed spec fn direct(&self) -> bool {
        self.direct
    }
}

/// One resolution of a path, from its start to its end.
///
/// The path under construction lives in one region and the components that
/// wait in another; both are the caller's. The resolver holds one open
/// request at a time, [`Resolver::step`], until it ends.
pub struct Resolver<'a> {
    /// The path that has been built so far.
    pub buf: SliceVec<'a>,
    /// The components that wait.
    pub stack: ComponentStack<'a>,
    /// The open request, and what belongs to it.
    pub ctl: Control,
}

impl<'a> Resolver<'a> {
    /// The state of the resolution.
    pub open spec fn view(&self) -> Machine {
        Machine {
            out: self.buf@,
            out_cap: self.buf.cap(),
            stack: self.stack@,
            stack_cap: self.stack.cap(),
            followed: self.ctl.followed(),
            limit: self.ctl.limit(),
            flags: self.ctl.flags(),
            need_dir: self.ctl.need_dir(),
            step: self.ctl.step(),
            base: self.ctl.base(),
            parents: self.ctl.parents(),
            direct: self.ctl.direct(),
        }
    }

    /// The two regions are in order, and the state is one that a resolution
    /// can be in.
    pub open spec fn wf(&self) -> bool {
        self.buf.wf() && self.stack.wf() && self@.coherent()
    }

    /// Ends the resolution with the error `e`.
    fn fail(&mut self, e: Errno) -> (r: Step)
        requires
            old(self).buf.wf(),
            old(self).stack.wf(),
        ensures
            final(self).wf(),
            final(self).buf.cap() == old(self).buf.cap(),
            final(self).stack.cap() == old(self).stack.cap(),
            final(final(self).buf.buf)@ == final(old(self).buf.buf)@,
            final(final(self).stack.buf)@ == final(old(self).stack.buf)@,
            r == Step::Failed(e),
            old(self)@.fail(e).met_by(final(self)@),
    {
        self.ctl.step = Step::Failed(e);
        self.ctl.step
    }

    /// Opens a directory check on the path that has been built.
    fn ask_dir(&mut self) -> (r: Step)
        requires
            old(self).buf.wf(),
            old(self).stack.wf(),
            old(self).stack@.len() == 0,
        ensures
            final(self).wf(),
            final(self).buf.cap() == old(self).buf.cap(),
            final(self).stack.cap() == old(self).stack.cap(),
            final(final(self).buf.buf)@ == final(old(self).buf.buf)@,
            final(final(self).stack.buf)@ == final(old(self).stack.buf)@,
            r == final(self)@.step,
            old(self)@.ask_dir().met_by(final(self)@),
    {
        match self.buf.push(NUL) {
            Ok(()) => {
                self.ctl.step = Step::CheckDir;
                proof {
                    assert(self.buf@.last() == NUL);
                }
                self.ctl.step
            },
            Err(e) => self.fail(e),
        }
    }

    /// Decides what is left to do when the stack has run empty.
    fn settle(&mut self, checked: bool) -> (r: Step)
        requires
            old(self).buf.wf(),
            old(self).stack.wf(),
            old(self).stack@.len() == 0,
        ensures
            final(self).wf(),
            final(self).buf.cap() == old(self).buf.cap(),
            final(self).stack.cap() == old(self).stack.cap(),
            final(final(self).buf.buf)@ == final(old(self).buf.buf)@,
            final(final(self).stack.buf)@ == final(old(self).stack.buf)@,
            r == final(self)@.step,
            old(self)@.settle(checked).met_by(final(self)@),
    {
        let check: bool = self.ctl.need_dir && !checked;
        let up: [u8; 2] = [DOT, DOT];
        let up_slash: [u8; 3] = [DOT, DOT, SLASH];
        assert(up@ =~= dotdot());
        assert(up_slash@ =~= dotdot_slash());
        if self.buf.is_empty() {
            self.ctl.parents = 0;
            self.ctl.direct = true;
            self.ctl.step = Step::GetCwd { limit: self.buf.capacity() };
        } else if equal(self.buf.as_slice(), &up) {
            self.ctl.parents = 1;
            self.ctl.direct = true;
            self.ctl.step = Step::GetCwd { limit: self.buf.capacity() };
        } else if starts_with(self.buf.as_slice(), &up_slash) {
            let n: usize = count_leading_dotdot(self.buf.as_slice());
            let rest = slice_subrange(self.buf.as_slice(), 3 * n, self.buf.len());
            proof {
                assert(rest@ =~= self.buf@.skip(3 * n as int));
            }
            if equal(rest, &up) {
                // Nothing but parents: the last of them counts as well.
                self.buf.clear();
                self.ctl.parents = n + 1;
                self.ctl.direct = false;
                self.ctl.step = Step::GetCwd { limit: self.stack.buf.len() };
                proof {
                    assert(self.buf@ =~= Seq::<u8>::empty());
                }
            } else if check {
                return self.ask_dir();
            } else {
                self.buf.remove_range(0..3 * n);
                self.ctl.parents = n;
                self.ctl.direct = false;
                self.ctl.step = Step::GetCwd { limit: self.stack.buf.len() };
                proof {
                    assert(self.buf@ =~= old(self).buf@.skip(3 * n as int));
                }
            }
        } else if self.buf.as_slice()[0] != SLASH {
            if check {
                return self.ask_dir();
            }
            self.ctl.parents = 0;
            self.ctl.direct = false;
            self.ctl.step = Step::GetCwd { limit: self.stack.buf.len() };
        } else if !is_root_marker(self.buf.as_slice()) && check {
            return self.ask_dir();
        } else {
            self.ctl.step = Step::Done(self.buf.len());
        }
        self.ctl.step
    }

    /// Applies the components on the stack to the path, up to and with the
    /// first name, and opens the question about that name.
    fn drain(&mut self) -> (r: Step)
        requires
            old(self).buf.wf(),
            old(self).stack.wf(),
        ensures
            final(self).wf(),
            final(self).buf.cap() == old(self).buf.cap(),
            final(self).stack.cap() == old(self).stack.cap(),
            final(final(self).buf.buf)@ == final(old(self).buf.buf)@,
            final(final(self).stack.buf)@ == final(old(self).stack.buf)@,
            r == final(self)@.step,
            old(self)@.drain().met_by(final(self)@),
    {
        let ignore: bool = self.ctl.flags.contains(RealpathFlags::ignore_symlinks());
        loop
            invariant
                self.buf.wf(),
                self.stack.wf(),
                ignore == self.ctl.flags.ignores_symlinks(),
                final(self.buf.buf)@ == final(old(self).buf.buf)@,
                final(self.stack.buf)@ == final(old(self).stack.buf)@,
                self@.drain() == old(self)@.drain(),
                self.buf.cap() == old(self).buf.cap(),
                self.stack.cap() == old(self).stack.cap(),
            decreases self.stack@.len(),
        {
            let ghost m = self@;
            proof {
                if self.stack@.len() > 0 {
                    crate::decompose::lemma_after_pop_shorter(self.stack@);
                }
            }
            match self.stack.next() {
                None => {
                    return self.settle(false);
                },
                Some(c) => {
                    if is_root_marker(c) || is_dotdot(c) {
                        match self.buf.apply(c) {
                            Ok(()) => {},
                            Err(e) => {
                                return self.fail(e);
                            },
                        }
                    } else {
                        let base: usize = self.buf.len();
                        match self.buf.append_name(c) {
                            Ok(()) => {},
                            Err(e) => {
                                return self.fail(e);
                            },
                        }
                        match self.buf.push(NUL) {
                            Ok(()) => {},
                            Err(e) => {
                                return self.fail(e);
                            },
                        }
                        self.ctl.base = base;
                        proof {
                            assert(self.buf@.last() == NUL);
                        }
                        if ignore {
                            self.ctl.step = Step::Probe;
                            return self.ctl.step;
                        }
                        let free: usize = self.stack.i;
                        if free == 0 {
                            return self.fail(Errno::NameTooLong);
                        }
                        self.ctl.step = Step::ReadLink { limit: free };
                        return self.ctl.step;
                    }
                },
            }
        }
    }

    /// Starts the resolution of `path`.
    ///
    /// The result is built in `buf`, and `tmp` holds the components that
    /// wait; `tmp` should be somewhat larger than `buf`. `symloop_max` is
    /// the number of symbolic links that the system is willing to follow,
    /// as the system reports it.
    pub fn new(
        path: &[u8],
        buf: &'a mut [u8],
        tmp: &'a mut [u8],
        flags: RealpathFlags,
        symloop_max: i64,
    ) -> (r: Self)
        ensures
            r.wf(),
            r.buf.cap() == old(buf)@.len(),
            r.stack.cap() == old(tmp)@.len(),
            final(r.buf.buf)@ == final(buf)@,
            final(r.stack.buf)@ == final(tmp)@,
            Machine::start(
                path@,
                old(buf)@.len(),
                old(tmp)@.len(),
                flags,
                link_limit(symloop_max),
            ).met_by(r@),
            orderly(r@),
    {
        let slash: [u8; 1] = [SLASH];
        let slash_dot_bytes: [u8; 2] = [SLASH, DOT];
        assert(slash_dot_bytes@ =~= slash_dot());
        let wants_dir: bool = ends_with(path, &slash) || ends_with(path, &slash_dot_bytes);
        proof {
            let one = slash@;
            if path@.len() > 0 {
                assert(path@.skip(path@.len() - 1)[0] == path@.last());
                if path@.last() == SLASH {
                    assert(path@.skip(path@.len() - 1) =~= one);
                }
            }
            assert(one[0] == SLASH);
            assert(wants_dir == asks_for_directory(path@));
        }
        let mut r = Resolver {
            buf: SliceVec::empty(buf),
            stack: ComponentStack::new(tmp),
            ctl: Control {
                links: SymlinkCounter::new(symloop_max),
                flags,
                need_dir: wants_dir && !flags.contains(RealpathFlags::allow_missing()),
                step: Step::Done(0),
                base: 0,
                parents: 0,
                direct: false,
            },
        };
        proof {
            assert(r.buf@ =~= Seq::<u8>::empty());
            assert(r.stack@ =~= Seq::<u8>::empty());
        }
        match r.stack.push(path) {
            Ok(()) => {
                proof {
                    assert(r.stack@ =~= crate::decompose::seed_text(path@).push(NUL));
                }
                r.drain();
            },
            Err(e) => {
                r.fail(e);
            },
        }
        proof {
            law_starts_orderly(
                path@,
                old(buf)@.len(),
                old(tmp)@.len(),
                flags,
                link_limit(symloop_max),
            );
        }
        r
    }

    /// The open request, or how the resolution has ended.
    pub fn step(&self) -> (r: Step)
        ensures
            r == self@.step,
    {
        self.ctl.step
    }

    /// The path that the open request is about, as a C string: while a link
    /// read, a probe or a directory check is open, the last byte is a NUL.
    /// Once the resolution is done, this is the result.
    pub fn path(&self) -> (r: &[u8])
        requires
            self.wf(),
        ensures
            r@ == self@.out,
            self@.step is ReadLink || self@.step is Probe || self@.step is CheckDir ==> r@.len()
                > 0 && r@.last() == NUL,
    {
        self.buf.as_slice()
    }

    /// Takes the answer to a link read or a probe.
    fn on_link(&mut self, reply: Result<&[u8], Errno>) -> (r: Step)
        requires
            old(self).wf(),
            old(self).ctl.step() is ReadLink || old(self).ctl.step() is Probe,
        ensures
            final(self).wf(),
            final(self).buf.cap() == old(self).buf.cap(),
            final(self).stack.cap() == old(self).stack.cap(),
            final(final(self).buf.buf)@ == final(old(self).buf.buf)@,
            final(final(self).stack.buf)@ == final(old(self).stack.buf)@,
            r == final(self)@.step,
            old(self)@.on_link(reply_view(reply)).met_by(final(self)@),
    {
        let probing: bool = match self.ctl.step {
            Step::Probe => true,
            _ => false,
        };
        let mut absolute: bool = false;
        let answer: Result<(), Errno> = match reply {
            Err(e) => Err(e),
            Ok(target) => {
                if probing {
                    Err(Errno::InvalidArgument)
                } else {
                    absolute = target.len() > 0 && target[0] == SLASH;
                    self.stack.push_readlink(target)
                }
            },
        };
        match answer {
            Ok(()) => {
                // A symbolic link: its target now waits on the stack.
                match self.ctl.links.advance() {
                    Ok(()) => {},
                    Err(e) => {
                        return self.fail(e);
                    },
                }
                if absolute {
                    self.buf.clear();
                    proof {
                        assert(self.buf@ =~= Seq::<u8>::empty());
                    }
                } else {
                    self.buf.truncate(self.ctl.base);
                }
            },
            Err(e) => {
                let allow_all: bool = self.ctl.flags.contains(RealpathFlags::allow_missing());
                let allow_last: bool = self.ctl.flags.contains(RealpathFlags::allow_last_missing());
                let stays: bool = match e {
                    Errno::InvalidArgument => true,
                    Errno::NoEntry => allow_all || (allow_last && !self.stack.has_next()),
                    Errno::AccessDenied | Errno::NotADirectory => allow_all,
                    _ => false,
                };
                if !stays {
                    return self.fail(e);
                }
                self.buf.pop();
            },
        }
        self.drain()
    }

    /// Takes the answer to a directory check.
    fn on_dir(&mut self, reply: Result<&[u8], Errno>) -> (r: Step)
        requires
            old(self).wf(),
            old(self).ctl.step() is CheckDir,
        ensures
            final(self).wf(),
            final(self).buf.cap() == old(self).buf.cap(),
            final(self).stack.cap() == old(self).stack.cap(),
            final(final(self).buf.buf)@ == final(old(self).buf.buf)@,
            final(final(self).stack.buf)@ == final(old(self).stack.buf)@,
            r == final(self)@.step,
            old(self)@.on_dir(reply_view(reply)).met_by(final(self)@),
    {
        let allow_last: bool = self.ctl.flags.contains(RealpathFlags::allow_last_missing());
        match reply {
            Err(e) => {
                let forgiven: bool = match e {
                    Errno::NoEntry => allow_last,
                    _ => false,
                };
                if !forgiven {
                    return self.fail(e);
                }
            },
            Ok(_) => {},
        }
        self.buf.pop();
        self.settle(true)
    }

    /// Takes the answer to the question for the current directory.
    fn on_cwd(&mut self, reply: Result<&[u8], Errno>) -> (r: Step)
        requires
            old(self).wf(),
            old(self).ctl.step() is GetCwd,
        ensures
            final(self).wf(),
            final(self).buf.cap() == old(self).buf.cap(),
            final(self).stack.cap() == old(self).stack.cap(),
            final(final(self).buf.buf)@ == final(old(self).buf.buf)@,
            final(final(self).stack.buf)@ == final(old(self).stack.buf)@,
            r == final(self)@.step,
            old(self)@.on_cwd(reply_view(reply)).met_by(final(self)@),
    {
        let parents: usize = self.ctl.parents;
        if self.ctl.direct {
            match make_prefix(&mut self.buf, reply, parents, false) {
                Ok(()) => {},
                Err(e) => {
                    return self.fail(e);
                },
            }
        } else {
            let joined: bool = !self.buf.is_empty();
            let ghost mut text: Seq<u8> = Seq::empty();
            let made: Result<usize, Errno> = {
                let mut scratch = SliceVec::empty(self.stack.clear());
                match make_prefix(&mut scratch, reply, parents, joined) {
                    Ok(()) => {
                        proof {
                            text = scratch@;
                        }
                        Ok(scratch.len())
                    },
                    Err(e) => Err(e),
                }
            };
            proof {
                assert(self.stack@ =~= old(self).stack@);
            }
            match made {
                Ok(n) => {
                    let prefix = slice_subrange(self.stack.buf, 0, n);
                    proof {
                        assert(prefix@ =~= text);
                    }
                    match self.buf.insert_from_slice(0, prefix) {
                        Ok(()) => {
                            proof {
                                assert(old(self).buf@.take(0) + prefix@ + old(self).buf@.skip(0)
                                    =~= prefix@ + old(self).buf@);
                            }
                        },
                        Err(e) => {
                            return self.fail(e);
                        },
                    }
                },
                Err(e) => {
                    return self.fail(e);
                },
            }
        }
        proof {
            crate::machine::lemma_cwd_prefix_absolute(
                reply_view(reply),
                parents as nat,
                if old(self).ctl.direct {
                    false
                } else {
                    old(self).buf@.len() > 0
                },
                if old(self).ctl.direct {
                    old(self).buf.cap()
                } else {
                    old(self).stack.cap()
                },
            );
        }
        self.ctl.step = Step::Done(self.buf.len());
        self.ctl.step
    }

    /// Takes the outcome of the system call that the open request asked
    /// for, and says what is to do next.
    ///
    /// `reply` holds the bytes that the call gave, or its error: the target
    /// of the link after a link read, the directory after the question for
    /// the current directory, and anything after a probe or a directory
    /// check that went well. A resolution that has ended stays as it is.
    ///
    /// The resolution stays in order as long as the current directory that
    /// it is given is a canonical path; its result is a canonical path
    /// then.
    pub fn resume(&mut self, reply: Result<&[u8], Errno>) -> (r: Step)
        requires
            old(self).wf(),
        ensures
            final(self).wf(),
            final(self).buf.cap() == old(self).buf.cap(),
            final(self).stack.cap() == old(self).stack.cap(),
            final(final(self).buf.buf)@ == final(old(self).buf.buf)@,
            final(final(self).stack.buf)@ == final(old(self).stack.buf)@,
            r == final(self)@.step,
            old(self)@.resume(reply_view(reply)).met_by(final(self)@),
            orderly(old(self)@) && (old(self)@.step is GetCwd && reply is Ok ==> is_canonical_path(
                c_text(reply->Ok_0@),
            )) ==> orderly(final(self)@),
    {
        let step = match self.ctl.step {
            Step::ReadLink { .. } | Step::Probe => self.on_link(reply),
            Step::CheckDir => self.on_dir(reply),
            Step::GetCwd { .. } => self.on_cwd(reply),
            Step::Done(_) | Step::Failed(_) => self.ctl.step,
        };
        proof {
            if orderly(old(self)@) && (old(self)@.step is GetCwd && reply is Ok
                ==> is_canonical_path(c_text(reply->Ok_0@))) {
                law_stays_orderly(old(self)@, reply_view(reply));
            }
        }
        step
    }
}

} // verus!

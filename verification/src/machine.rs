//! Path resolution as a state machine, in mathematical terms.
//!
//! A [`Machine`] is the state of one resolution between two system calls.
//! [`Machine::start`] gives the state in which a resolution issues its first
//! request, and [`Machine::resume`] the state that follows when the request
//! has been answered. The request itself is the state's [`Step`].

use crate::decompose::{
    after_pop, lemma_after_pop_shorter, link_text, pending, seed_text,
};
use crate::errno::Errno;
use crate::flags::RealpathFlags;
use crate::path::{
    apply_component, dotdot, dotdot_slash, is_root, join, leading_dotdots, lemma_parent_absolute,
    needs_separator, parent_path, slash_dot, NUL, SLASH,
};
use crate::util::cwd_outcome;
use vstd::prelude::*;

verus! {

/// What a resolution asks of its caller, or how it has ended.
#[derive(Clone, Copy, Debug, PartialEq, Eq, Structural)]
pub enum Step {
    /// Read the symbolic link that the pending path names, into a room of
    /// `limit` bytes.
    ReadLink { limit: usize },
    /// Read the symbolic link that the pending path names into no room at
    /// all, just to learn whether the path exists.
    Probe,
    /// Find out whether the pending path names a directory.
    CheckDir,
    /// Ask for the current directory, into a room of `limit` bytes.
    GetCwd { limit: usize },
    /// The resolution is done; the result has this many bytes.
    Done(usize),
    /// The resolution has failed.
    Failed(Errno),
}

/// The state of a resolution.
pub struct Machine {
    /// The path that has been built so far. While a request about a path is
    /// open, this is that path with a NUL at its end.
    pub out: Seq<u8>,
    /// The size of the region that `out` lives in.
    pub out_cap: nat,
    /// The fragments that still wait on the stack.
    pub stack: Seq<u8>,
    /// The size of the stack's region.
    pub stack_cap: nat,
    /// How many symbolic links have been followed.
    pub followed: nat,
    /// How many symbolic links may be followed.
    pub limit: nat,
    /// The switches of this resolution.
    pub flags: RealpathFlags,
    /// Whether the result has to name a directory.
    pub need_dir: bool,
    /// The open request, or the end.
    pub step: Step,
    /// The length that `out` had before the name under question was added.
    pub base: nat,
    /// How many levels the current directory has to be climbed.
    pub parents: nat,
    /// Whether the current directory goes straight into `out`.
    pub direct: bool,
}

/// The path `s` after its parent has been taken `n` times in a region of
/// `cap` bytes, or nothing where one of the parents does not fit.
pub open spec fn climb(s: Seq<u8>, n: nat, cap: nat) -> Option<Seq<u8>>
    decreases n,
{
    if n == 0 {
        Some(s)
    } else if parent_path(s).len() > cap {
        None
    } else {
        climb(parent_path(s), (n - 1) as nat, cap)
    }
}

/// What the system's answer to the question for the current directory
/// comes to in a region of `cap` bytes: the directory, climbed `parents`
/// times, and with a slash at its end where `joined` says that a name will
/// follow and the directory is no root. Whatever does not fit the region on
/// the way is name-too-long.
pub open spec fn cwd_prefix(
    reply: Result<Seq<u8>, Errno>,
    parents: nat,
    joined: bool,
    cap: nat,
) -> Result<Seq<u8>, Errno> {
    match cwd_outcome(reply, cap) {
        Err(e) => Err(e),
        Ok(cwd) => match climb(cwd, parents, cap) {
            None => Err(Errno::NameTooLong),
            Some(top) => if joined && needs_separator(top) {
                if top.len() + 1 > cap {
                    Err(Errno::NameTooLong)
                } else {
                    Ok(top.push(SLASH))
                }
            } else {
                Ok(top)
            },
        },
    }
}

/// An absolute path that is climbed stays absolute.
pub proof fn lemma_climb_absolute(s: Seq<u8>, n: nat, cap: nat)
    requires
        s.len() > 0,
        s[0] == SLASH,
        climb(s, n, cap) is Some,
    ensures
        climb(s, n, cap)->Some_0.len() > 0,
        climb(s, n, cap)->Some_0[0] == SLASH,
    decreases n,
{
    if n > 0 {
        lemma_parent_absolute(s);
        lemma_climb_absolute(parent_path(s), (n - 1) as nat, cap);
    }
}

/// What the current directory comes to is an absolute path.
pub proof fn lemma_cwd_prefix_absolute(
    reply: Result<Seq<u8>, Errno>,
    parents: nat,
    joined: bool,
    cap: nat,
)
    requires
        cwd_prefix(reply, parents, joined, cap) is Ok,
    ensures
        cwd_prefix(reply, parents, joined, cap)->Ok_0.len() > 0,
        cwd_prefix(reply, parents, joined, cap)->Ok_0[0] == SLASH,
{
    let cwd = cwd_outcome(reply, cap)->Ok_0;
    lemma_climb_absolute(cwd, parents, cap);
}

/// Whether the path `path` asks for a directory: it ends in `/` or in `/.`.
pub open spec fn asks_for_directory(path: Seq<u8>) -> bool {
    (path.len() > 0 && path.last() == SLASH) || slash_dot().is_suffix_of(path)
}

impl Machine {
    /// This state, ended by the error `e`.
    pub open spec fn fail(self, e: Errno) -> Machine {
        Machine { step: Step::Failed(e), ..self }
    }

    /// This state, ended with `out` as the result.
    pub open spec fn finish(self) -> Machine {
        Machine { step: Step::Done(self.out.len() as usize), ..self }
    }

    /// The room that is free on the stack.
    pub open spec fn free(self) -> int {
        self.stack_cap - self.stack.len()
    }

    /// Whether `actual` is what this state calls for. A resolution that has
    /// failed answers for its error alone.
    pub open spec fn met_by(self, actual: Machine) -> bool {
        &&& actual.out_cap == self.out_cap
        &&& actual.stack_cap == self.stack_cap
        &&& actual.step == self.step
        &&& (self.step is Failed || actual == self)
    }

    /// Whether this is a state that a resolution can be in: a question
    /// about a path finds the path with a NUL at its end, a question about
    /// a name knows where the name begins, once the stack has run empty
    /// nothing waits on it, and a resolution that is done has the length of
    /// its result, which is an absolute path.
    pub open spec fn coherent(self) -> bool {
        &&& self.step matches Step::Done(len) ==> len == self.out.len() && len > 0 && self.out[0]
            == SLASH
        &&& (self.step is ReadLink || self.step is Probe) ==> self.base < self.out.len()
        &&& (self.step is ReadLink || self.step is Probe || self.step is CheckDir)
            ==> self.out.len() > 0 && self.out.last() == NUL
        &&& (self.step is CheckDir || self.step is GetCwd) ==> self.stack.len() == 0
    }

    /// The state in which a directory check on `out` is open.
    pub open spec fn ask_dir(self) -> Machine {
        if self.out.len() + 1 > self.out_cap {
            self.fail(Errno::NameTooLong)
        } else {
            Machine { out: self.out.push(NUL), step: Step::CheckDir, ..self }
        }
    }

    /// The state that follows when the stack has run empty: what is left to
    /// do depends on the path that has been built. `checked` says that the
    /// directory check has been made.
    ///
    /// The empty path and `..` call for the current directory in their
    /// place. A path that starts with `../`, or with a name, is relative: it
    /// calls for the current directory in front of it, climbed as often as
    /// the path says. An absolute path is the result as it stands. Where
    /// the result has to name a directory, and is neither a root nor made of
    /// the current directory alone, that is checked first.
    pub open spec fn settle(self, checked: bool) -> Machine {
        let check = self.need_dir && !checked;
        if self.out.len() == 0 {
            Machine {
                step: Step::GetCwd { limit: self.out_cap as usize },
                parents: 0,
                direct: true,
                ..self
            }
        } else if self.out == dotdot() {
            Machine {
                step: Step::GetCwd { limit: self.out_cap as usize },
                parents: 1,
                direct: true,
                ..self
            }
        } else if dotdot_slash().is_prefix_of(self.out) {
            let n = leading_dotdots(self.out);
            if self.out.skip(3 * n as int) == dotdot() {
                Machine {
                    out: Seq::empty(),
                    step: Step::GetCwd { limit: self.stack_cap as usize },
                    parents: n + 1,
                    direct: false,
                    ..self
                }
            } else if check {
                self.ask_dir()
            } else {
                Machine {
                    out: self.out.skip(3 * n as int),
                    step: Step::GetCwd { limit: self.stack_cap as usize },
                    parents: n,
                    direct: false,
                    ..self
                }
            }
        } else if self.out[0] != SLASH {
            if check {
                self.ask_dir()
            } else {
                Machine {
                    step: Step::GetCwd { limit: self.stack_cap as usize },
                    parents: 0,
                    direct: false,
                    ..self
                }
            }
        } else if !is_root(self.out) && check {
            self.ask_dir()
        } else {
            self.finish()
        }
    }

    /// The state that follows when the components on the stack have been
    /// applied to `out`, up to and with the first name.
    ///
    /// A root marker and `..` change `out` and nothing else. A name is joined
    /// to `out`, a NUL is put behind it, and the file system is asked what
    /// the path names: with a probe where links are not followed, else with
    /// a link read into the room that is free on the stack. Where the stack
    /// runs empty first, the path is settled.
    pub open spec fn drain(self) -> Machine
        decreases self.stack.len(),
    {
        let comps = pending(self.stack);
        let rest = after_pop(self.stack);
        if comps.len() == 0 {
            (Machine { stack: rest, ..self }).settle(false)
        } else {
            let c = comps[0];
            if is_root(c) || c == dotdot() {
                let out = apply_component(self.out, c);
                if out.len() > self.out_cap {
                    self.fail(Errno::NameTooLong)
                } else {
                    proof {
                        if self.stack.len() > 0 {
                            lemma_after_pop_shorter(self.stack);
                        }
                    }
                    (Machine { out, stack: rest, ..self }).drain()
                }
            } else {
                let out = join(self.out, c).push(NUL);
                let asked = Machine { out, stack: rest, base: self.out.len(), ..self };
                if out.len() > self.out_cap {
                    self.fail(Errno::NameTooLong)
                } else if self.flags.ignores_symlinks() {
                    Machine { step: Step::Probe, ..asked }
                } else if asked.free() <= 0 {
                    self.fail(Errno::NameTooLong)
                } else {
                    Machine { step: Step::ReadLink { limit: asked.free() as usize }, ..asked }
                }
            }
        }
    }

    /// The state in which a resolution of `path` issues its first request.
    ///
    /// `out_cap` and `stack_cap` are the sizes of the two regions, `limit` is
    /// the number of symbolic links that may be followed. An empty path
    /// fails with no-such-entry, one with a NUL in it with invalid-argument,
    /// and one that the stack has no room for with name-too-long.
    pub open spec fn start(
        path: Seq<u8>,
        out_cap: nat,
        stack_cap: nat,
        flags: RealpathFlags,
        limit: nat,
    ) -> Machine {
        let fresh = Machine {
            out: Seq::empty(),
            out_cap,
            stack: Seq::empty(),
            stack_cap,
            followed: 0,
            limit,
            flags,
            need_dir: asks_for_directory(path) && !flags.allows_missing(),
            step: Step::Done(0),
            base: 0,
            parents: 0,
            direct: false,
        };
        if path.len() == 0 {
            fresh.fail(Errno::NoEntry)
        } else if path.contains(NUL) {
            fresh.fail(Errno::InvalidArgument)
        } else if seed_text(path).len() >= stack_cap {
            fresh.fail(Errno::NameTooLong)
        } else {
            (Machine { stack: seed_text(path).push(NUL), ..fresh }).drain()
        }
    }

    /// Whether the resolution goes on after the file system has answered the
    /// question about a name with the error `e`: the name then stays in the
    /// path as it is.
    ///
    /// Invalid-argument says that the name is no symbolic link. With
    /// `ALLOW_MISSING` a name may be missing, closed, or stand behind
    /// something that is no directory. With `ALLOW_LAST_MISSING` it may be
    /// missing where it is the last: no component waits behind it.
    pub open spec fn tolerates(self, e: Errno) -> bool {
        ||| e == Errno::InvalidArgument
        ||| (self.flags.allows_missing() && (e == Errno::NoEntry || e == Errno::AccessDenied || e
            == Errno::NotADirectory))
        ||| (e == Errno::NoEntry && self.flags.allows_last_missing() && pending(self.stack).len()
            == 0)
    }

    /// What the answer to a link read, or to a probe, comes to: nothing
    /// where the name is a symbolic link whose target has gone on the stack,
    /// else the error that says why not.
    ///
    /// A probe that succeeds has found something; what it is does not
    /// matter, so it counts as no link. A target takes its own length and
    /// two bytes more on the stack.
    pub open spec fn link_answer(self, reply: Result<Seq<u8>, Errno>) -> Result<(), Errno> {
        match reply {
            Err(e) => Err(e),
            Ok(target) => if self.step is Probe {
                Err(Errno::InvalidArgument)
            } else if link_text(target).len() + 1 < self.free() {
                Ok(())
            } else {
                Err(Errno::NameTooLong)
            },
        }
    }

    /// The state that follows the answer to a link read or a probe.
    ///
    /// A symbolic link is counted, and fails the resolution where the limit
    /// is reached. Its target goes on the stack and the name leaves the
    /// path; with a target that begins with a slash everything leaves the
    /// path. Where the name is no link, or is missing and may be, the name
    /// stays and only the NUL behind it leaves. Then the stack is drained
    /// further.
    pub open spec fn on_link(self, reply: Result<Seq<u8>, Errno>) -> Machine {
        match self.link_answer(reply) {
            Ok(()) => {
                let text = link_text(reply->Ok_0);
                if self.followed >= self.limit {
                    self.fail(Errno::TooManyLinks)
                } else {
                    (Machine {
                        out: if text.len() > 0 && text[0] == SLASH {
                            Seq::empty()
                        } else {
                            self.out.take(self.base as int)
                        },
                        stack: text.push(NUL) + self.stack,
                        followed: self.followed + 1,
                        ..self
                    }).drain()
                }
            },
            Err(e) => if self.tolerates(e) {
                (Machine { out: self.out.drop_last(), ..self }).drain()
            } else {
                self.fail(e)
            },
        }
    }

    /// The state that follows the answer to a directory check.
    ///
    /// Where the path names a directory the NUL leaves it and it is settled
    /// further. The same holds where it names nothing and
    /// `ALLOW_LAST_MISSING` is set. Every other answer fails the
    /// resolution; that the path names something else than a directory is
    /// never forgiven here.
    pub open spec fn on_dir(self, reply: Result<Seq<u8>, Errno>) -> Machine {
        match reply {
            Err(e) if !(e == Errno::NoEntry && self.flags.allows_last_missing()) => self.fail(e),
            _ => (Machine { out: self.out.drop_last(), ..self }).settle(true),
        }
    }

    /// The state that follows the answer to the question for the current
    /// directory: the end.
    ///
    /// Where the current directory goes straight into `out`, the climbed
    /// directory is the result. Else it is made ready on the stack's region
    /// and put in front of `out`, with a slash between the two where both
    /// need one.
    pub open spec fn on_cwd(self, reply: Result<Seq<u8>, Errno>) -> Machine {
        if self.direct {
            match cwd_prefix(reply, self.parents, false, self.out_cap) {
                Err(e) => self.fail(e),
                Ok(prefix) => (Machine { out: prefix, ..self }).finish(),
            }
        } else {
            match cwd_prefix(reply, self.parents, self.out.len() > 0, self.stack_cap) {
                Err(e) => self.fail(e),
                Ok(prefix) => if prefix.len() + self.out.len() > self.out_cap {
                    self.fail(Errno::NameTooLong)
                } else {
                    (Machine { out: prefix + self.out, ..self }).finish()
                },
            }
        }
    }

    /// The state that follows when the open request has been answered with
    /// `reply`: the bytes that the system call gave, or its error. Only a
    /// link read and the question for the current directory give bytes that
    /// count. A resolution that has ended stays as it is.
    pub open spec fn resume(self, reply: Result<Seq<u8>, Errno>) -> Machine {
        match self.step {
            Step::ReadLink { .. } | Step::Probe => self.on_link(reply),
            Step::CheckDir => self.on_dir(reply),
            Step::GetCwd { .. } => self.on_cwd(reply),
            Step::Done(_) | Step::Failed(_) => self,
        }
    }
}

} // verus!

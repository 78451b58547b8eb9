//! The pieces that path resolution is built from: the decomposer that walks
//! over a path, the stack of components that still wait, the counter of
//! symbolic links, and the reading of the current directory.

use crate::bytes::{contains, copy_into, find};
use crate::decompose::{
    after_pop, as_component, behind, c_text, components, front, is_component,
    leading_slashes, lemma_index_of, lemma_leading_slashes,
    lemma_leading_slashes_is, lemma_no_slash_behind_slashes, lemma_parts_skip_slashes,
    lemma_parts_split, lemma_pending_step, lemma_tidy_after_pop, lemma_tidy_push,
    lemma_token_len_is, link_text, parts, pending, seed_text, skip_separators, tidy,
    trim_slashes,
};
use crate::slicevec::SliceVec;
use crate::errno::Errno;
use crate::path::{dot, DOT, NUL, SLASH};
use vstd::prelude::*;
use vstd::slice::slice_subrange;

verus! {

/// `s` without the slashes that it begins with.
pub fn strip_leading_slashes(s: &[u8]) -> (r: &[u8])
    ensures
        r@ == s@.skip(leading_slashes(s@)),
{
    let mut k: usize = 0;
    while k < s.len() && s[k] == SLASH
        invariant
            k <= s@.len(),
            forall|j: int| 0 <= j < k ==> s@[j] == SLASH,
        decreases s@.len() - k,
    {
        k += 1;
    }
    proof {
        lemma_leading_slashes_is(s@, k as int);
    }
    slice_subrange(s, k, s.len())
}

/// Walks over the components of a path from left to right.
#[derive(Clone, Copy, Debug)]
pub struct ComponentIter<'a>(&'a [u8]);

impl<'a> ComponentIter<'a> {
    /// The components that are still to come.
    pub closed spec fn view(&self) -> Seq<Seq<u8>> {
        components(self.0@)
    }

    /// A walk over the components of `path`, which must not be empty and must
    /// hold no NUL.
    pub fn new(path: &'a [u8]) -> (r: Result<Self, Errno>)
        ensures
            match r {
                Ok(it) => path@.len() > 0 && !path@.contains(NUL) && it@ == components(path@),
                Err(e) => if path@.len() == 0 {
                    e == Errno::NoEntry
                } else {
                    path@.contains(NUL) && e == Errno::InvalidArgument
                },
            },
    {
        if path.len() == 0 {
            Err(Errno::NoEntry)
        } else if contains(path, NUL) {
            Err(Errno::InvalidArgument)
        } else {
            Ok(ComponentIter(path))
        }
    }

    /// Whether no component is left.
    pub fn is_empty(&self) -> (r: bool)
        ensures
            r == (self@.len() == 0),
    {
        let s: &'a [u8] = self.0;
        if s.len() == 0 {
            proof {
                assert(leading_slashes(s@) == 0);
                assert(components(s@) =~= Seq::<Seq<u8>>::empty());
            }
            true
        } else if s[0] == SLASH {
            proof {
                lemma_leading_slashes(s@);
            }
            false
        } else {
            let mut ahead = ComponentIter(s);
            ahead.next().is_none()
        }
    }

    /// Takes the next component off the front, if one is left.
    pub fn next(&mut self) -> (r: Option<&'a [u8]>)
        ensures
            match r {
                Some(c) => old(self)@.len() > 0 && c@ == old(self)@[0]
                    && final(self)@ == old(self)@.drop_first(),
                None => old(self)@.len() == 0 && final(self)@.len() == 0,
            },
    {
        let s: &'a [u8] = self.0;
        if s.len() == 0 {
            proof {
                assert(leading_slashes(s@) == 0);
                assert(components(s@) =~= Seq::<Seq<u8>>::empty());
            }
            return None;
        }
        if s[0] == SLASH {
            // Trim the slashes; exactly two of them are a root of their own.
            let rest = strip_leading_slashes(slice_subrange(s, 1, s.len()));
            proof {
                lemma_leading_slashes(s@.subrange(1, s@.len() as int));
            }
            let trimmed: usize = s.len() - 1 - rest.len();
            self.0 = rest;
            proof {
                let n = leading_slashes(s@);
                lemma_leading_slashes(s@);
                lemma_leading_slashes(s@.skip(1));
                assert(s@.subrange(1, s@.len() as int) =~= s@.skip(1));
                assert(n == 1 + trimmed);
                assert(rest@ =~= s@.skip(n));
                lemma_no_slash_behind_slashes(s@);
                lemma_parts_skip_slashes(s@, n);
                assert(components(rest@) =~= parts(s@));
                assert(components(s@).drop_first() =~= parts(s@));
            }
            if trimmed == 1 {
                let c = slice_subrange(s, 0, 2);
                assert(c@ =~= crate::path::root_double());
                Some(c)
            } else {
                let c = slice_subrange(s, 0, 1);
                assert(c@ =~= crate::path::root_single());
                Some(c)
            }
        } else {
            let mut cur: &'a [u8] = s;
            loop
                invariant
                    components(cur@) == components(s@),
                    leading_slashes(cur@) == 0,
                    s@ == old(self).0@,
                decreases cur@.len(),
            {
                if cur.len() == 0 {
                    self.0 = cur;
                    proof {
                        assert(components(cur@) =~= Seq::<Seq<u8>>::empty());
                    }
                    return None;
                }
                // Up to the next slash stands one component; `.` is none.
                let index = find(cur, SLASH);
                proof {
                    lemma_index_of(cur@, SLASH);
                }
                let component = slice_subrange(cur, 0, index);
                let rest = strip_leading_slashes(slice_subrange(cur, index, cur.len()));
                proof {
                    let tail = cur@.skip(index as int);
                    lemma_leading_slashes(cur@);
                    lemma_index_of(cur@, SLASH);
                    assert(index > 0);
                    assert(cur@.subrange(index as int, cur@.len() as int) =~= tail);
                    assert(component@ =~= cur@.take(index as int));
                    lemma_parts_split(cur@);
                    lemma_leading_slashes(tail);
                    lemma_parts_skip_slashes(tail, leading_slashes(tail));
                    lemma_no_slash_behind_slashes(tail);
                    assert(components(rest@) =~= parts(rest@));
                    assert(components(cur@) =~= parts(cur@));
                    assert(parts(cur@) == as_component(component@) + parts(rest@));
                }
                if !(component.len() == 1 && component[0] == DOT) {
                    self.0 = rest;
                    proof {
                        assert(component@ != dot()) by {
                            if component@.len() == 1 {
                                assert(dot()[0] == DOT);
                            }
                        }
                        assert((seq![component@] + parts(rest@)).drop_first() =~= parts(rest@));
                    }
                    return Some(component);
                }
                proof {
                    assert(component@ =~= dot());
                    assert(as_component(component@) + parts(rest@) =~= parts(rest@));
                }
                cur = rest;
            }
        }
    }
}

/// The components that still wait to be resolved, as a stack of fragments.
///
/// The fragments lie at the high end of a borrowed region, from index `i` on,
/// each one a piece of a path, with a NUL between one and the next. What was
/// pushed last lies lowest and is taken first. The bytes below `i` are free.
#[derive(Debug)]
pub struct ComponentStack<'a> {
    /// The region that holds the fragments.
    pub buf: &'a mut [u8],
    /// Where the fragments begin.
    pub i: usize,
}

impl<'a> ComponentStack<'a> {
    /// The start of the fragments lies inside the region.
    pub open spec fn wf(&self) -> bool {
        self.i <= self.buf@.len()
    }

    /// The bytes of the fragments, with the NULs between them.
    pub open spec fn view(&self) -> Seq<u8> {
        self.buf@.skip(self.i as int)
    }

    /// The size of the region.
    pub open spec fn cap(&self) -> nat {
        self.buf@.len()
    }

    /// Region and start are those of `other`.
    pub open spec fn same_as(&self, other: &Self) -> bool {
        self.buf@ == other.buf@ && self.i == other.i
    }

    /// An empty stack over the region `buf`.
    pub fn new(buf: &'a mut [u8]) -> (s: Self)
        ensures
            s.wf(),
            s.i == old(buf)@.len(),
            s.buf@ == old(buf)@,
            final(s.buf)@ == final(buf)@,
    {
        let i: usize = buf.len();
        ComponentStack { buf, i }
    }

    /// Whether the stack holds no byte.
    pub fn is_empty(&self) -> (r: bool)
        requires
            self.wf(),
        ensures
            r == (self@.len() == 0),
    {
        self.i == self.buf.len()
    }

    /// Passes over the slashes at the front and says how many there were.
    fn skip_slashes(&mut self) -> (n: usize)
        requires
            old(self).wf(),
        ensures
            final(self).wf(),
            final(self).buf@ == old(self).buf@,
            final(final(self).buf)@ == final(old(self).buf)@,
            n == leading_slashes(old(self)@),
            final(self).i == old(self).i + n,
    {
        let end: usize = self.buf.len();
        let start: usize = self.i;
        while self.i < end && self.buf[self.i] == SLASH
            invariant
                start <= self.i <= end,
                end == self.buf@.len(),
                start == old(self).i,
                self.buf@ == old(self).buf@,
                final(self.buf)@ == final(old(self).buf)@,
                forall|j: int| start <= j < self.i ==> self.buf@[j] == SLASH,
            decreases end - self.i,
        {
            self.i += 1;
        }
        proof {
            let c = old(self)@;
            let n = self.i - start;
            assert forall|j: int| 0 <= j < n implies c[j] == SLASH by {
                assert(c[j] == self.buf@[start + j]);
            }
            if n < c.len() {
                assert(c[n] == self.buf@[start + n]);
            }
            lemma_leading_slashes_is(c, n);
        }
        self.i - start
    }

    /// Passes over what separates one token from the next: slashes, and one
    /// NUL behind them.
    fn skip_slashes_nul(&mut self) -> (n: usize)
        requires
            old(self).wf(),
        ensures
            final(self).wf(),
            final(self).buf@ == old(self).buf@,
            final(final(self).buf)@ == final(old(self).buf)@,
            n == leading_slashes(old(self)@),
            final(self)@ == skip_separators(old(self)@),
    {
        let n = self.skip_slashes();
        proof {
            assert(self@ =~= old(self)@.skip(n as int));
        }
        if self.i < self.buf.len() && self.buf[self.i] == NUL {
            // The fragment is used up; the next one begins behind the NUL.
            self.i += 1;
            proof {
                assert(old(self)@.skip(n as int)[0] == NUL);
                assert(self@ =~= old(self)@.skip(n as int).skip(1));
            }
        } else {
            proof {
                let t = old(self)@.skip(n as int);
                if t.len() > 0 {
                    assert(t[0] == self.buf@[self.i as int]);
                }
            }
        }
        n
    }

    /// Takes the next component off the stack, if one is left.
    pub fn next(&mut self) -> (r: Option<&[u8]>)
        requires
            old(self).wf(),
        ensures
            final(self).wf(),
            final(self).buf@ == old(self).buf@,
            final(final(self).buf)@ == final(old(self).buf)@,
            final(self)@ == after_pop(old(self)@),
            tidy(old(self)@) ==> tidy(final(self)@),
            match r {
                Some(c) => pending(old(self)@).len() > 0 && c@ == pending(old(self)@)[0]
                    && pending(final(self)@) == pending(old(self)@).drop_first(),
                None => pending(old(self)@).len() == 0 && final(self)@.len() == 0,
            },
    {
        proof {
            if tidy(self@) {
                lemma_tidy_after_pop(self@);
            }
        }
        loop
            invariant
                self.wf(),
                self.buf@ == old(self).buf@,
                final(self.buf)@ == final(old(self).buf)@,
                pending(self@) == pending(old(self)@),
                after_pop(self@) == after_pop(old(self)@),
                tidy(old(self)@) ==> tidy(after_pop(old(self)@)),
            decreases self.buf@.len() - self.i,
        {
            let end: usize = self.buf.len();
            let start: usize = self.i;
            let ghost c = self@;
            if start == end {
                // Nothing is left.
                return None;
            }
            proof {
                lemma_pending_step(c);
                crate::decompose::lemma_behind_shorter(c);
                assert(c[0] == self.buf@[start as int]);
            }
            if self.buf[start] == SLASH {
                // The fragment begins with slashes: a root.
                let n = self.skip_slashes_nul();
                let width: usize = if n == 2 {
                    2
                } else {
                    1
                };
                proof {
                    lemma_leading_slashes(c);
                    assert(front(c).len() > 0);
                    assert(front(c)[0] == SLASH);
                    assert(dot()[0] == DOT);
                    assert(is_component(front(c)));
                    assert((seq![front(c)] + pending(behind(c))).drop_first() =~= pending(
                        behind(c),
                    ));
                    assert forall|j: int| start <= j < start + width implies self.buf@[j]
                        == SLASH by {
                        assert(c[j - start] == self.buf@[j]);
                    }
                }
                let component = slice_subrange(self.buf, start, start + width);
                assert(component@ =~= front(c));
                return Some(component);
            }
            // Up to the next slash or NUL stands one token.
            let mut stop: usize = start;
            while stop < end && self.buf[stop] != SLASH && self.buf[stop] != NUL
                invariant
                    start <= stop <= end,
                    end == self.buf@.len(),
                    forall|j: int|
                        start <= j < stop ==> self.buf@[j] != SLASH && self.buf@[j] != NUL,
                decreases end - stop,
            {
                stop += 1;
            }
            let offset: usize = stop - start;
            proof {
                assert forall|j: int| 0 <= j < offset implies c[j] != SLASH && c[j] != NUL by {
                    assert(c[j] == self.buf@[start + j]);
                }
                if offset < c.len() {
                    assert(c[offset as int] == self.buf@[stop as int]);
                }
                lemma_token_len_is(c, offset as int);
            }
            let plain: bool = offset > 0 && !(offset == 1 && self.buf[start] == DOT);
            self.i = stop;
            proof {
                assert(self@ =~= c.skip(offset as int));
            }
            self.skip_slashes_nul();
            proof {
                assert(self@ == behind(c));
                assert(plain == is_component(front(c))) by {
                    assert(dot()[0] == DOT);
                    assert(dot().len() == 1);
                    if offset == 1 && c[0] == DOT {
                        assert(front(c) =~= dot());
                    }
                }
            }
            if plain {
                proof {
                    assert((seq![front(c)] + pending(behind(c))).drop_first() =~= pending(
                        behind(c),
                    ));
                }
                let component = slice_subrange(self.buf, start, stop);
                assert(component@ =~= front(c));
                return Some(component);
            }
            proof {
                assert(as_component(front(c)) + pending(behind(c)) =~= pending(behind(c)));
            }
        }
    }

    /// Puts `text` and a NUL behind it in front of the fragments. This takes
    /// one byte more than `text` is long.
    fn put(&mut self, text: &[u8]) -> (r: Result<(), Errno>)
        requires
            old(self).wf(),
        ensures
            final(self).wf(),
            final(self).cap() == old(self).cap(),
            final(final(self).buf)@ == final(old(self).buf)@,
            text@.len() > 0 && !text@.contains(NUL) && tidy(old(self)@) ==> tidy(final(self)@),
            match r {
                Ok(()) => text@.len() < old(self).i && final(self)@ == text@.push(NUL) + old(self)@,
                Err(e) => e == Errno::NameTooLong && text@.len() >= old(self).i
                    && final(self).same_as(old(self)),
            },
    {
        if text.len() >= self.i {
            return Err(Errno::NameTooLong);
        }
        self.i -= 1;
        self.buf[self.i] = NUL;
        self.i -= text.len();
        copy_into(self.buf, self.i, text);
        proof {
            assert(self@ =~= text@.push(NUL) + old(self)@);
            if text@.len() > 0 && !text@.contains(NUL) && tidy(old(self)@) {
                lemma_tidy_push(text@, old(self)@);
            }
        }
        Ok(())
    }

    /// Puts the path `path` on the stack, so that its components are the
    /// next to be taken. The path must not be empty and must hold no NUL.
    /// It is stored without its trailing slashes.
    pub fn push(&mut self, path: &[u8]) -> (r: Result<(), Errno>)
        requires
            old(self).wf(),
        ensures
            final(self).wf(),
            final(self).cap() == old(self).cap(),
            final(final(self).buf)@ == final(old(self).buf)@,
            tidy(old(self)@) ==> tidy(final(self)@),
            match r {
                Ok(()) => path@.len() > 0 && !path@.contains(NUL)
                    && seed_text(path@).len() < old(self).i
                    && final(self)@ == seed_text(path@).push(NUL) + old(self)@,
                Err(e) => final(self).same_as(old(self)) && if path@.len() == 0 {
                    e == Errno::NoEntry
                } else if path@.contains(NUL) {
                    e == Errno::InvalidArgument
                } else {
                    e == Errno::NameTooLong && seed_text(path@).len() >= old(self).i
                },
            },
    {
        if path.len() == 0 {
            return Err(Errno::NoEntry);
        }
        if contains(path, NUL) {
            return Err(Errno::InvalidArgument);
        }
        let mut len: usize = path.len();
        assert(path@.take(len as int) =~= path@);
        while len > 0 && path[len - 1] == SLASH
            invariant
                len <= path@.len(),
                trim_slashes(path@.take(len as int)) == trim_slashes(path@),
            decreases len,
        {
            proof {
                assert(path@.take(len as int).drop_last() =~= path@.take(len - 1));
            }
            len -= 1;
        }
        let text = if len > 0 {
            slice_subrange(path, 0, len)
        } else if path.len() == 2 {
            // Nothing but slashes: two of them are a root of their own.
            slice_subrange(path, 0, 2)
        } else {
            slice_subrange(path, 0, 1)
        };
        proof {
            let kept = path@.take(len as int);
            assert(trim_slashes(kept) == kept);
            if len == 0 {
                assert(trim_slashes(path@).len() == 0);
                lemma_all_slashes(path@);
                assert(text@ =~= seed_text(path@));
            } else {
                assert(text@ =~= kept);
            }
            crate::decompose::lemma_seed_components(path@);
        }
        self.put(text)
    }

    /// Puts the target of a symbolic link on the stack, so that its
    /// components are the next to be taken. `target` is what the link read
    /// gave; a NUL at its end is not part of it.
    ///
    /// The push takes the target's length and two bytes more: when a link
    /// read fills all the room it was offered, the target may have been cut
    /// short.
    pub fn push_readlink(&mut self, target: &[u8]) -> (r: Result<(), Errno>)
        requires
            old(self).wf(),
        ensures
            final(self).wf(),
            final(self).cap() == old(self).cap(),
            final(final(self).buf)@ == final(old(self).buf)@,
            link_text(target@).len() > 0 && !link_text(target@).contains(NUL) && tidy(old(self)@)
                ==> tidy(final(self)@),
            match r {
                Ok(()) => link_text(target@).len() + 1 < old(self).i && final(self)@ == link_text(
                    target@,
                ).push(NUL) + old(self)@,
                Err(e) => e == Errno::NameTooLong && link_text(target@).len() + 1 >= old(self).i
                    && final(self).same_as(old(self)),
            },
    {
        if self.i == 0 {
            return Err(Errno::NameTooLong);
        }
        let len: usize = if target.len() > 0 && target[target.len() - 1] == NUL {
            target.len() - 1
        } else {
            target.len()
        };
        let text = slice_subrange(target, 0, len);
        proof {
            assert(text@ =~= link_text(target@));
        }
        if len >= self.i - 1 {
            Err(Errno::NameTooLong)
        } else {
            self.put(text)
        }
    }

    /// Whether a component is left on the stack. None is taken.
    pub fn has_next(&mut self) -> (r: bool)
        requires
            old(self).wf(),
        ensures
            final(self).same_as(old(self)),
            final(final(self).buf)@ == final(old(self).buf)@,
            r == (pending(old(self)@).len() > 0),
    {
        let start: usize = self.i;
        let r = self.next().is_some();
        self.i = start;
        r
    }

    /// Empties the stack and hands out its region, to be used for something
    /// else.
    pub fn clear(&mut self) -> (r: &mut [u8])
        ensures
            r@ == old(self).buf@,
            final(self).i == old(self).buf@.len(),
            final(self).buf@ == final(r)@,
            final(final(self).buf)@ == final(old(self).buf)@,
    {
        self.i = self.buf.len();
        &mut *self.buf
    }
}

/// A path that loses all its bytes with its trailing slashes holds nothing
/// but slashes.
proof fn lemma_all_slashes(s: Seq<u8>)
    requires
        trim_slashes(s).len() == 0,
    ensures
        forall|j: int| 0 <= j < s.len() ==> s[j] == SLASH,
    decreases s.len(),
{
    if s.len() > 0 {
        let t = s.drop_last();
        lemma_all_slashes(t);
        assert forall|j: int| 0 <= j < s.len() implies s[j] == SLASH by {
            if j < t.len() {
                assert(t[j] == s[j]);
            }
        }
    }
}

/// The number of symbolic links that a resolution follows when the system
/// names no limit of its own.
pub const DEFAULT_SYMLOOP_MAX: u16 = 40;

/// The limit that holds when the system reports `reported` as its own: that
/// number where it fits 16 bits, else [`DEFAULT_SYMLOOP_MAX`]. A system that
/// names no limit reports a negative number.
pub open spec fn link_limit(reported: i64) -> nat {
    if 0 <= reported <= 0xffff {
        reported as nat
    } else {
        DEFAULT_SYMLOOP_MAX as nat
    }
}

/// Counts the symbolic links that one resolution has followed, up to a limit.
#[derive(Debug)]
pub struct SymlinkCounter {
    max: u16,
    cur: u16,
}

impl SymlinkCounter {
    /// The most links that may be followed.
    pub closed spec fn limit(&self) -> nat {
        self.max as nat
    }

    /// The links that were followed so far.
    pub closed spec fn followed(&self) -> nat {
        self.cur as nat
    }

    /// A counter at zero. `reported` is the limit as the system gave it.
    pub fn new(reported: i64) -> (r: Self)
        ensures
            r.followed() == 0,
            r.limit() == link_limit(reported),
    {
        let max: u16 = if 0 <= reported && reported <= 0xffff {
            reported as u16
        } else {
            DEFAULT_SYMLOOP_MAX
        };
        SymlinkCounter { max, cur: 0 }
    }

    /// Counts one more link. This fails, and counts nothing, once the limit
    /// is reached.
    pub fn advance(&mut self) -> (r: Result<(), Errno>)
        ensures
            final(self).limit() == old(self).limit(),
            match r {
                Ok(()) => old(self).followed() < old(self).limit() && final(self).followed()
                    == old(self).followed() + 1,
                Err(e) => e == Errno::TooManyLinks && old(self).followed() >= old(self).limit()
                    && final(self).followed() == old(self).followed(),
            },
    {
        if self.cur >= self.max {
            Err(Errno::TooManyLinks)
        } else {
            self.cur += 1;
            Ok(())
        }
    }
}

/// The outcome of a system call as a value: the bytes that it gave, or the
/// error.
pub open spec fn reply_view(reply: Result<&[u8], Errno>) -> Result<Seq<u8>, Errno> {
    match reply {
        Ok(bytes) => Ok(bytes@),
        Err(e) => Err(e),
    }
}

/// What becomes of the system's answer to the question for the current
/// directory, when it is to go into a region of `cap` bytes.
///
/// A failure for want of room is name-too-long, whichever of the two codes
/// the system uses for it; any other failure stays what it is. An answer
/// counts up to its first NUL. It needs room for itself and for that NUL,
/// and it has to begin with a slash: one that does not names no directory.
pub open spec fn cwd_outcome(reply: Result<Seq<u8>, Errno>, cap: nat) -> Result<
    Seq<u8>,
    Errno,
> {
    match reply {
        Err(e) => Err(
            if e == Errno::InvalidArgument || e == Errno::OutOfRange {
                Errno::NameTooLong
            } else {
                e
            },
        ),
        Ok(bytes) => {
            let text = c_text(bytes);
            if text.len() >= cap {
                Err(Errno::NameTooLong)
            } else if text.len() == 0 || text[0] != SLASH {
                Err(Errno::NoEntry)
            } else {
                Ok(text)
            }
        },
    }
}

/// Takes the current directory into `buf`. `reply` is what the system
/// answered when it was asked for it.
pub fn getcwd(buf: &mut SliceVec, reply: Result<&[u8], Errno>) -> (r: Result<(), Errno>)
    requires
        old(buf).wf(),
    ensures
        final(buf).wf(),
        final(buf).cap() == old(buf).cap(),
        final(final(buf).buf)@ == final(old(buf).buf)@,
        match r {
            Ok(()) => cwd_outcome(reply_view(reply), old(buf).cap()) == Ok::<Seq<u8>, Errno>(
                final(buf)@,
            ),
            Err(e) => cwd_outcome(reply_view(reply), old(buf).cap()) == Err::<Seq<u8>, Errno>(e)
                && final(buf).same_as(old(buf)),
        },
{
    match reply {
        Err(Errno::InvalidArgument) | Err(Errno::OutOfRange) => Err(Errno::NameTooLong),
        Err(e) => Err(e),
        Ok(bytes) => {
            let len = find(bytes, NUL);
            proof {
                lemma_index_of(bytes@, NUL);
            }
            let text = slice_subrange(bytes, 0, len);
            if len >= buf.capacity() {
                Err(Errno::NameTooLong)
            } else if len == 0 || text[0] != SLASH {
                Err(Errno::NoEntry)
            } else {
                buf.replace(text)
            }
        },
    }
}

} // verus!

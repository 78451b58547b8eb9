//! A byte vector of fixed capacity, laid over a region that the caller owns.

use crate::bytes::{copy_into, ends_with, equal, move_within};
use crate::errno::Errno;
use crate::path::{
    apply_component, dotdot, is_dotdot, is_root_marker, join, last_slash, lemma_last_slash,
    parent_path, slash_dotdot, DOT, SLASH,
};
use vstd::prelude::*;

verus! {

/// A vector of bytes that lives in a borrowed region and never grows beyond
/// it.
///
/// The vector is the first `len` bytes of `buf`; the rest of the region is
/// spare room whose contents mean nothing. Every operation that would need
/// more room than the region has fails with [`Errno::NameTooLong`] and leaves
/// the vector as it was.
pub struct SliceVec<'a> {
    /// The region that holds the bytes.
    pub buf: &'a mut [u8],
    /// How many bytes of the region are in use.
    pub len: usize,
}

impl<'a> SliceVec<'a> {
    /// The length does not exceed the region.
    pub open spec fn wf(&self) -> bool {
        self.len <= self.buf@.len()
    }

    /// The bytes that the vector holds.
    pub open spec fn view(&self) -> Seq<u8> {
        self.buf@.subrange(0, self.len as int)
    }

    /// The size of the region.
    pub open spec fn cap(&self) -> nat {
        self.buf@.len()
    }

    /// Region and length are those of `other`.
    pub open spec fn same_as(&self, other: &Self) -> bool {
        self.buf@ == other.buf@ && self.len == other.len
    }

    /// An empty vector over the region `buf`.
    pub fn empty(buf: &'a mut [u8]) -> (v: Self)
        ensures
            v.wf(),
            v.len == 0,
            v.buf@ == old(buf)@,
            final(v.buf)@ == final(buf)@,
    {
        SliceVec { buf, len: 0 }
    }

    /// The bytes of the vector.
    pub fn as_slice(&self) -> (r: &[u8])
        requires
            self.wf(),
        ensures
            r@ == self@,
    {
        vstd::slice::slice_subrange(self.buf, 0, self.len)
    }

    /// The bytes of the vector.
    pub fn as_ref(&self) -> (r: &[u8])
        requires
            self.wf(),
        ensures
            r@ == self@,
    {
        self.as_slice()
    }

    /// The bytes of the vector, open to change in place.
    pub fn as_mut_slice(&mut self) -> (r: &mut [u8])
        requires
            old(self).wf(),
        ensures
            r@ == old(self)@,
            final(self).len == old(self).len,
            final(self).buf@ == final(r)@ + old(self).buf@.skip(old(self).len as int),
            final(final(self).buf)@ == final(old(self).buf)@,
    {
        let (head, _tail) = self.buf.split_at_mut(self.len);
        head
    }

    /// The number of bytes in the vector.
    pub fn len(&self) -> (r: usize)
        ensures
            r == self.len,
    {
        self.len
    }

    /// Whether the vector holds no byte.
    pub fn is_empty(&self) -> (r: bool)
        ensures
            r == (self.len == 0),
    {
        self.len == 0
    }

    /// The size of the region: the most bytes that the vector can hold.
    pub fn capacity(&self) -> (r: usize)
        ensures
            r == self.cap(),
    {
        self.buf.len()
    }

    /// Declares that the first `new_len` bytes of the region are the vector,
    /// whatever stands there.
    pub fn set_len(&mut self, new_len: usize)
        requires
            new_len <= old(self).cap(),
        ensures
            final(self).wf(),
            final(self).len == new_len,
            final(self).buf@ == old(self).buf@,
            final(final(self).buf)@ == final(old(self).buf)@,
    {
        self.len = new_len;
    }

    /// Keeps the first `max_len` bytes and drops the rest. A vector that is
    /// no longer than that stays as it is.
    pub fn truncate(&mut self, max_len: usize)
        requires
            old(self).wf(),
        ensures
            final(self).wf(),
            final(self).buf@ == old(self).buf@,
            final(final(self).buf)@ == final(old(self).buf)@,
            final(self).len == if max_len < old(self).len {
                max_len
            } else {
                old(self).len
            },
            final(self)@ == if max_len < old(self).len {
                old(self)@.take(max_len as int)
            } else {
                old(self)@
            },
    {
        if max_len < self.len {
            self.len = max_len;
        }
    }

    /// Drops every byte.
    pub fn clear(&mut self)
        ensures
            final(self).wf(),
            final(self).len == 0,
            final(self).buf@ == old(self).buf@,
            final(final(self).buf)@ == final(old(self).buf)@,
    {
        self.len = 0;
    }

    /// Appends one byte.
    pub fn push(&mut self, val: u8) -> (r: Result<(), Errno>)
        requires
            old(self).wf(),
        ensures
            final(self).wf(),
            final(self).cap() == old(self).cap(),
            final(final(self).buf)@ == final(old(self).buf)@,
            match r {
                Ok(()) => old(self).len < old(self).cap() && final(self)@ == old(self)@.push(
                    val,
                ),
                Err(e) => e == Errno::NameTooLong && old(self).len == old(self).cap()
                    && final(self).same_as(old(self)),
            },
    {
        if self.len < self.buf.len() {
            self.buf[self.len] = val;
            self.len = self.len + 1;
            Ok(())
        } else {
            Err(Errno::NameTooLong)
        }
    }

    /// Drops the last byte, if there is one.
    pub fn pop(&mut self)
        requires
            old(self).wf(),
        ensures
            final(self).wf(),
            final(self).buf@ == old(self).buf@,
            final(final(self).buf)@ == final(old(self).buf)@,
            final(self)@ == if old(self).len > 0 {
                old(self)@.drop_last()
            } else {
                old(self)@
            },
    {
        if self.len > 0 {
            self.len = self.len - 1;
        }
    }

    /// Appends the bytes of `src`.
    pub fn extend_from_slice(&mut self, src: &[u8]) -> (r: Result<(), Errno>)
        requires
            old(self).wf(),
        ensures
            final(self).wf(),
            final(self).cap() == old(self).cap(),
            final(final(self).buf)@ == final(old(self).buf)@,
            match r {
                Ok(()) => old(self).len + src@.len() <= old(self).cap() && final(self)@
                    == old(self)@ + src@,
                Err(e) => e == Errno::NameTooLong && old(self).len + src@.len() > old(self).cap()
                    && final(self).same_as(old(self)),
            },
    {
        if src.len() > self.buf.len() - self.len {
            return Err(Errno::NameTooLong);
        }
        copy_into(self.buf, self.len, src);
        self.len = self.len + src.len();
        assert(self@ =~= old(self)@ + src@);
        Ok(())
    }

    /// Makes the bytes of `src` the whole contents.
    pub fn replace(&mut self, src: &[u8]) -> (r: Result<(), Errno>)
        ensures
            final(self).cap() == old(self).cap(),
            final(final(self).buf)@ == final(old(self).buf)@,
            match r {
                Ok(()) => src@.len() <= old(self).cap() && final(self).wf() && final(self)@
                    == src@,
                Err(e) => e == Errno::NameTooLong && src@.len() > old(self).cap()
                    && final(self).same_as(old(self)),
            },
    {
        if src.len() > self.buf.len() {
            return Err(Errno::NameTooLong);
        }
        copy_into(self.buf, 0, src);
        self.len = src.len();
        assert(self@ =~= src@);
        Ok(())
    }

    /// Puts the bytes of `src` in before the byte at index `i`. With an empty
    /// `src` nothing happens, whatever `i` is.
    pub fn insert_from_slice(&mut self, i: usize, src: &[u8]) -> (r: Result<(), Errno>)
        requires
            old(self).wf(),
            src@.len() > 0 ==> i <= old(self).len,
        ensures
            final(self).wf(),
            final(self).cap() == old(self).cap(),
            final(final(self).buf)@ == final(old(self).buf)@,
            match r {
                Ok(()) => if src@.len() == 0 {
                    final(self).same_as(old(self))
                } else {
                    old(self).len + src@.len() <= old(self).cap()
                        && final(self)@ == old(self)@.take(i as int) + src@
                        + old(self)@.skip(i as int)
                },
                Err(e) => e == Errno::NameTooLong && src@.len() > 0 && old(self).len + src@.len()
                    > old(self).cap() && final(self).same_as(old(self)),
            },
    {
        if src.len() > 0 {
            if src.len() > self.buf.len() - self.len {
                return Err(Errno::NameTooLong);
            }
            move_within(self.buf, i, i + src.len(), self.len - i);
            copy_into(self.buf, i, src);
            self.len = self.len + src.len();
            assert(self@ =~= old(self)@.take(i as int) + src@ + old(self)@.skip(i as int));
        }
        Ok(())
    }

    /// Takes out the bytes whose indices lie in `range`.
    pub fn remove_range(&mut self, range: std::ops::Range<usize>)
        requires
            old(self).wf(),
            range.start <= range.end <= old(self).len,
        ensures
            final(self).wf(),
            final(self).cap() == old(self).cap(),
            final(final(self).buf)@ == final(old(self).buf)@,
            final(self)@ == old(self)@.take(range.start as int) + old(self)@.skip(
                range.end as int,
            ),
    {
        let start: usize = range.start;
        let end: usize = range.end;
        move_within(self.buf, end, start, self.len - end);
        self.len = self.len - (end - start);
        assert(self@ =~= old(self)@.take(start as int) + old(self)@.skip(end as int));
    }

    /// The index of the last `/`, if there is one.
    fn find_last_slash(&self) -> (r: Option<usize>)
        requires
            self.wf(),
        ensures
            match r {
                Some(i) => i == last_slash(self@),
                None => last_slash(self@) == -1,
            },
    {
        let mut k: usize = self.len;
        assert(self@.take(k as int) =~= self@);
        while k > 0
            invariant
                k <= self.len,
                self.wf(),
                last_slash(self@) == last_slash(self@.take(k as int)),
            decreases k,
        {
            let ghost prefix = self@.take(k as int);
            k -= 1;
            if self.buf[k] == SLASH {
                assert(prefix.last() == SLASH);
                return Some(k);
            }
            assert(prefix.drop_last() =~= self@.take(k as int));
        }
        assert(self@.take(0).len() == 0);
        None
    }

    /// Replaces the path in the vector by its lexical parent.
    pub fn make_parent_path(&mut self) -> (r: Result<(), Errno>)
        requires
            old(self).wf(),
        ensures
            final(self).wf(),
            final(self).cap() == old(self).cap(),
            final(final(self).buf)@ == final(old(self).buf)@,
            match r {
                Ok(()) => parent_path(old(self)@).len() <= old(self).cap() && final(self)@
                    == parent_path(old(self)@),
                Err(e) => e == Errno::NameTooLong
                    && parent_path(old(self)@).len() > old(self).cap()
                    && final(self).same_as(old(self)),
            },
    {
        let up: [u8; 2] = [DOT, DOT];
        let more: [u8; 3] = [SLASH, DOT, DOT];
        assert(up@ =~= dotdot());
        assert(more@ =~= slash_dotdot());
        if self.len == 0 {
            assert(self@ + up@ =~= up@);
            self.extend_from_slice(&up)
        } else if equal(self.as_slice(), &up) || ends_with(self.as_slice(), &more) {
            self.extend_from_slice(&more)
        } else {
            proof {
                lemma_last_slash(self@);
            }
            match self.find_last_slash() {
                Some(i) => {
                    if i == 0 {
                        self.truncate(1)
                    } else if i == 1 && self.buf[0] == SLASH {
                        self.truncate(2)
                    } else {
                        self.truncate(i)
                    }
                },
                None => {
                    self.clear();
                    assert(self@ =~= Seq::<u8>::empty());
                },
            }
            Ok(())
        }
    }

    /// Appends `name` to the path in the vector as one more component: behind
    /// a slash, unless the path is empty or a root marker.
    pub fn append_name(&mut self, name: &[u8]) -> (r: Result<(), Errno>)
        requires
            old(self).wf(),
        ensures
            final(self).wf(),
            final(self).cap() == old(self).cap(),
            final(final(self).buf)@ == final(old(self).buf)@,
            match r {
                Ok(()) => join(old(self)@, name@).len() <= old(self).cap() && final(self)@
                    == join(old(self)@, name@),
                Err(e) => e == Errno::NameTooLong
                    && join(old(self)@, name@).len() > old(self).cap()
                    && final(self).same_as(old(self)),
            },
    {
        let separate: bool = !(self.is_empty() || is_root_marker(self.as_slice()));
        let room: usize = self.buf.len() - self.len;
        if name.len() > room || (separate && name.len() == room) {
            return Err(Errno::NameTooLong);
        }
        if separate {
            match self.push(SLASH) {
                Ok(()) => {},
                Err(e) => {
                    return Err(e);
                },
            }
        }
        self.extend_from_slice(name)
    }

    /// Applies the component `c` to the path in the vector: a root marker
    /// takes the place of the path, `..` leaves its parent, and a name is
    /// appended.
    pub fn apply(&mut self, c: &[u8]) -> (r: Result<(), Errno>)
        requires
            old(self).wf(),
        ensures
            final(self).wf(),
            final(self).cap() == old(self).cap(),
            final(final(self).buf)@ == final(old(self).buf)@,
            match r {
                Ok(()) => apply_component(old(self)@, c@).len() <= old(self).cap() && final(self)@
                    == apply_component(old(self)@, c@),
                Err(e) => e == Errno::NameTooLong
                    && apply_component(old(self)@, c@).len() > old(self).cap()
                    && final(self).same_as(old(self)),
            },
    {
        if is_root_marker(c) {
            self.replace(c)
        } else if is_dotdot(c) {
            self.make_parent_path()
        } else {
            self.append_name(c)
        }
    }
}

} // verus!

//! Settings for a resolution, gathered step by step.

use crate::errno::Errno;
use crate::flags::RealpathFlags;
use crate::machine::Machine;
use crate::resolve::Resolver;
use crate::util::link_limit;
use vstd::prelude::*;

verus! {

/// How much larger than the region for the result the region for the
/// waiting components is made.
pub const TEMP_MARGIN: usize = 100;

/// The settings of a resolution that finds its own regions and makes them
/// larger as long as the result does not fit.
#[derive(Clone, Copy)]
pub struct RealpathBuilder {
    path_max: usize,
    max_len: usize,
    flags: RealpathFlags,
}

impl RealpathBuilder {
    /// The length of the longest path that the system takes.
    pub closed spec fn spec_path_max(&self) -> usize {
        self.path_max
    }

    /// The length of the longest result that is tried for.
    pub closed spec fn spec_max_len(&self) -> usize {
        self.max_len
    }

    /// The switches that are set.
    pub closed spec fn spec_flags(&self) -> RealpathFlags {
        self.flags
    }

    /// The size of the first region for the result: that of the longest
    /// path that the system takes, unless a result may not be that long.
    pub open spec fn spec_initial_len(&self) -> usize {
        if self.spec_path_max() <= self.spec_max_len() {
            self.spec_path_max()
        } else {
            self.spec_max_len()
        }
    }

    /// The size of the region for the result with which a resolution is
    /// tried again, after one in a region of `len` bytes has ended with
    /// `outcome`: twice the size, up to the longest result that is tried
    /// for. Nothing is tried again but a result that was too long for a
    /// region that may still grow.
    pub open spec fn spec_grown_len(&self, len: usize, outcome: Result<usize, Errno>) -> Option<
        usize,
    > {
        if outcome == Err::<usize, Errno>(Errno::NameTooLong) && len < self.spec_max_len() {
            if 2 * len <= self.spec_max_len() {
                Some((2 * len) as usize)
            } else {
                Some(self.spec_max_len())
            }
        } else {
            None
        }
    }

    /// Settings without any switch. `path_max` is the length of the longest
    /// path that the system takes; no result longer than that is tried for
    /// unless [`RealpathBuilder::max_len`] says so.
    pub fn new(path_max: usize) -> (r: Self)
        ensures
            r.spec_path_max() == path_max,
            r.spec_max_len() == path_max,
            r.spec_flags().bits == 0,
    {
        RealpathBuilder { path_max, max_len: path_max, flags: RealpathFlags::empty() }
    }

    /// Sets the length of the longest result that is tried for.
    pub fn max_len(&mut self, max_len: usize) -> (r: &mut Self)
        ensures
            r.spec_max_len() == max_len,
            r.spec_path_max() == old(self).spec_path_max(),
            r.spec_flags() == old(self).spec_flags(),
            *final(self) == *final(r),
    {
        self.max_len = max_len;
        self
    }

    /// Sets the switches.
    pub fn flags(&mut self, flags: RealpathFlags) -> (r: &mut Self)
        ensures
            r.spec_flags() == flags,
            r.spec_path_max() == old(self).spec_path_max(),
            r.spec_max_len() == old(self).spec_max_len(),
            *final(self) == *final(r),
    {
        self.flags = flags;
        self
    }

    /// The switches that are set.
    pub fn get_flags(&self) -> (r: RealpathFlags)
        ensures
            r == self.spec_flags(),
    {
        self.flags
    }

    /// The size of the first region for the result.
    pub fn initial_len(&self) -> (r: usize)
        ensures
            r == self.spec_initial_len(),
    {
        if self.path_max <= self.max_len {
            self.path_max
        } else {
            self.max_len
        }
    }

    /// The size of the region for the waiting components that goes with a
    /// region of `len` bytes for the result.
    pub fn temp_len(len: usize) -> (r: usize)
        ensures
            r == if len + TEMP_MARGIN <= usize::MAX {
                (len + TEMP_MARGIN) as usize
            } else {
                usize::MAX
            },
    {
        len.saturating_add(TEMP_MARGIN)
    }

    /// The size of the region for the result with which the resolution is
    /// to be tried again, if it is.
    pub fn grown_len(&self, len: usize, outcome: Result<usize, Errno>) -> (r: Option<usize>)
        ensures
            r == self.spec_grown_len(len, outcome),
    {
        match outcome {
            Err(Errno::NameTooLong) => {
                if len < self.max_len {
                    if len <= self.max_len / 2 {
                        Some(2 * len)
                    } else {
                        Some(self.max_len)
                    }
                } else {
                    None
                }
            },
            _ => None,
        }
    }
}

/// The settings of a resolution that writes into regions of the caller: the
/// switches, and the region for the components that wait.
pub struct RealpathRawBuilder<'a> {
    flags: RealpathFlags,
    tmp: Option<&'a mut [u8]>,
}

impl<'a> RealpathRawBuilder<'a> {
    /// The switches that are set.
    pub closed spec fn spec_flags(&self) -> RealpathFlags {
        self.flags
    }

    /// Whether a region for the waiting components has been given.
    pub closed spec fn has_temp_buffer(&self) -> bool {
        self.tmp is Some
    }

    /// The size of the region for the waiting components, where one has
    /// been given.
    pub closed spec fn temp_len(&self) -> nat {
        self.tmp->Some_0@.len()
    }

    /// Settings without any switch and without a region.
    pub fn new() -> (r: Self)
        ensures
            r.spec_flags().bits == 0,
            !r.has_temp_buffer(),
    {
        RealpathRawBuilder { flags: RealpathFlags::empty(), tmp: None }
    }

    /// Sets the switches.
    pub fn flags(&mut self, flags: RealpathFlags) -> (r: &mut Self)
        ensures
            r.spec_flags() == flags,
            r.has_temp_buffer() == old(self).has_temp_buffer(),
            r.has_temp_buffer() ==> r.temp_len() == old(self).temp_len(),
            *final(self) == *final(r),
    {
        self.flags = flags;
        self
    }

    /// Sets the region for the components that wait, or takes it back. It
    /// should be somewhat larger than the region for the result.
    pub fn temp_buffer(&mut self, tmp: Option<&'a mut [u8]>) -> (r: &mut Self)
        ensures
            r.spec_flags() == old(self).spec_flags(),
            r.has_temp_buffer() == (tmp is Some),
            tmp is Some ==> r.temp_len() == tmp->Some_0@.len(),
            *final(self) == *final(r),
    {
        self.tmp = tmp;
        self
    }

    /// Starts the resolution of `path` into `buf` with these settings.
    ///
    /// The components that wait go into the region that was set, and into
    /// `spare` where none was. `symloop_max` is the number of symbolic
    /// links that the system is willing to follow, as the system reports
    /// it.
    pub fn realpath_raw<'b>(
        &'b mut self,
        path: &[u8],
        buf: &'b mut [u8],
        spare: &'b mut [u8],
        symloop_max: i64,
    ) -> (r: Resolver<'b>)
        ensures
            r.wf(),
            r.buf.cap() == old(buf)@.len(),
            final(r.buf.buf)@ == final(buf)@,
            Machine::start(
                path@,
                old(buf)@.len(),
                if old(self).has_temp_buffer() {
                    old(self).temp_len()
                } else {
                    old(spare)@.len()
                },
                old(self).spec_flags(),
                link_limit(symloop_max),
            ).met_by(r@),
            crate::orderly::orderly(r@),
    {
        let flags = self.flags;
        match &mut self.tmp {
            Some(tmp) => Resolver::new(path, buf, tmp, flags, symloop_max),
            None => Resolver::new(path, buf, spare, flags, symloop_max),
        }
    }
}

} // verus!

//! The ring of command buffers: operations are recorded into one after the
//! other, each submitted without waiting once it has enough in it, so that the
//! GPU works on the first while the CPU records the rest. What is to be done
//! to the GPU comes back as actions; their order is that of the fields.
use vstd::prelude::*;

verus! {

/// Command buffers in the ring.
pub const RING: usize = 4;

/// Kernels recorded into a command buffer before it is submitted.
pub const SUBMIT_EVERY: usize = 128;

/// Size of each of the two staging buffers host memory is copied to and from
/// the device through: uploads alternate between them, so that one is filled
/// while the device copies from the other.
pub const STAGING: usize = 0x400_0000;

/// Where recording and submission stand in the ring of command buffers.
#[derive(Debug)]
pub struct Ring {
    /// The command buffer being recorded into, or to record into next.
    pub current: usize,
    /// Whether it is open with commands not yet submitted.
    pub recording: bool,
    /// Which command buffers are submitted and not yet waited for.
    pub in_flight: [bool; 4],
    /// Kernels recorded into the current command buffer.
    pub recorded: usize,
    /// The command buffer of the ring whose submission reads each staging
    /// buffer, if one may still be running, and which buffer the next upload
    /// fills.
    pub staging_slot: [Option<usize>; 2],
    pub staging_next: usize,
}

/// What has to be done before a command can be recorded.
#[derive(Clone, Copy, Debug, PartialEq, Eq)]
pub struct Opening {
    /// Wait for the GPU to finish the command buffer.
    pub wait: bool,
    /// Reset it and begin it.
    pub begin: bool,
    /// Which command buffer.
    pub buffer: usize,
}

/// Which staging buffer an upload fills, and for which command buffer of the
/// ring to wait before that.
#[derive(Clone, Copy, Debug, PartialEq, Eq)]
pub struct Stage {
    pub wait: Option<usize>,
    pub which: usize,
}

/// What a flush does.
#[derive(Clone, Copy, Debug, PartialEq, Eq)]
pub struct Flush {
    /// Submit this command buffer.
    pub submit: Option<usize>,
    /// Wait for these.
    pub wait: [bool; 4],
}

/// Nothing in flight.
pub open spec fn idle(in_flight: Seq<bool>) -> bool {
    forall|i: int| 0 <= i < in_flight.len() ==> !(#[trigger] in_flight[i])
}

impl Ring {
    /// Whether what is said of the ring is of it, and the command buffer that
    /// is open is not with the GPU.
    pub open spec fn wf(&self) -> bool {
        &&& self.current < RING
        &&& self.in_flight@.len() == RING
        &&& self.recording ==> !self.in_flight@[self.current as int]
        &&& self.recording ==> self.recorded < SUBMIT_EVERY
        &&& self.staging_slot@.len() == 2
        &&& self.staging_slot@[0] matches Some(i) ==> i < RING
        &&& self.staging_slot@[1] matches Some(i) ==> i < RING
        &&& self.staging_next < 2
    }

    /// A ring with nothing recorded or submitted.
    pub fn new() -> (ring: Ring)
        ensures
            ring.wf(),
            ring.current == 0,
            !ring.recording,
            ring.recorded == 0,
            idle(ring.in_flight@),
            ring.staging_slot@ == seq![None::<usize>, None::<usize>],
            ring.staging_next == 0,
    {
        let ring = Ring {
            current: 0,
            recording: false,
            in_flight: [false, false, false, false],
            recorded: 0,
            staging_slot: [None, None],
            staging_next: 0,
        };
        assert(ring.staging_slot@ =~= seq![None::<usize>, None::<usize>]);
        ring
    }

    /// Whether the current command buffer has been opened, where it was not.
    pub open spec fn has_opened(&self, before: &Self, o: Opening) -> bool {
        &&& self.recording
        &&& o.buffer == before.current == self.current
        &&& o.begin == !before.recording
        &&& o.wait == (o.begin && before.in_flight@[before.current as int])
        &&& self.recorded == if o.begin {
            0
        } else {
            before.recorded
        }
        &&& self.in_flight@ == if o.wait {
            before.in_flight@.update(before.current as int, false)
        } else {
            before.in_flight@
        }
        &&& self.staging_slot == before.staging_slot
        &&& self.staging_next == before.staging_next
    }

    /// Opens the current command buffer for recording: begun if it is not
    /// open, once the GPU is done with it.
    pub fn open(&mut self) -> (o: Opening)
        requires
            old(self).wf(),
        ensures
            final(self).wf(),
            final(self).has_opened(old(self), o),
    {
        let i: usize = self.current;
        if self.recording {
            return Opening { wait: false, begin: false, buffer: i };
        }
        let wait = self.in_flight[i];
        if wait {
            self.in_flight[i] = false;
        }
        self.recording = true;
        self.recorded = 0;
        Opening { wait, begin: true, buffer: i }
    }

    /// Counts a kernel that was recorded, and tells whether there are enough
    /// for the GPU to get going on: then they are to be submitted.
    pub fn count(&mut self) -> (full: bool)
        requires
            old(self).wf(),
            old(self).recording,
        ensures
            full == (old(self).recorded + 1 >= SUBMIT_EVERY),
            final(self).recorded == old(self).recorded + 1,
            !full ==> final(self).wf(),
            *final(self) == (Ring { recorded: final(self).recorded, ..*old(self) }),
    {
        self.recorded = self.recorded + 1;
        self.recorded >= SUBMIT_EVERY
    }

    /// Whether all but how much is recorded is as it should be.
    pub open spec fn fillable(&self) -> bool {
        Ring { recorded: 0, ..*self }.wf()
    }

    /// Whether what was recorded has been submitted, if anything was.
    pub open spec fn has_submitted(&self, before: &Self, r: Option<usize>) -> bool {
        &&& !self.recording
        &&& r == if before.recording {
            Some(before.current)
        } else {
            None
        }
        &&& self.current == if before.recording {
            (before.current + 1) % 4
        } else {
            before.current as int
        }
        &&& self.in_flight@ == if before.recording {
            before.in_flight@.update(before.current as int, true)
        } else {
            before.in_flight@
        }
        &&& self.recorded == before.recorded
        &&& self.staging_slot == before.staging_slot
        &&& self.staging_next == before.staging_next
    }

    /// Submits what is recorded, if anything is, and moves on to the next
    /// command buffer of the ring.
    pub fn submit(&mut self) -> (r: Option<usize>)
        requires
            old(self).fillable(),
        ensures
            final(self).wf(),
            final(self).has_submitted(old(self), r),
    {
        if !self.recording {
            return None;
        }
        let i: usize = self.current;
        self.in_flight[i] = true;
        self.recording = false;
        self.current = (i + 1) % RING;
        Some(i)
    }

    /// Whether everything recorded has been submitted, and waited for.
    pub open spec fn has_flushed(&self, before: &Self, f: Flush) -> bool {
        &&& !self.recording
        &&& self.current == if before.recording {
            (before.current + 1) % 4
        } else {
            before.current as int
        }
        &&& idle(self.in_flight@)
        &&& self.recorded == before.recorded
        &&& self.staging_slot@ == seq![None::<usize>, None::<usize>]
        &&& self.staging_next == before.staging_next
        &&& f.submit == if before.recording {
            Some(before.current)
        } else {
            None
        }
        &&& f.wait@ == if before.recording {
            before.in_flight@.update(before.current as int, true)
        } else {
            before.in_flight@
        }
    }

    /// Submits everything recorded and waits for all of it to finish.
    pub fn flush(&mut self) -> (f: Flush)
        requires
            old(self).fillable(),
        ensures
            final(self).wf(),
            final(self).has_flushed(old(self), f),
    {
        let submit = self.submit();
        let wait = self.in_flight;
        self.in_flight = [false, false, false, false];
        self.staging_slot = [None, None];
        assert(self.staging_slot@ =~= seq![None::<usize>, None::<usize>]);
        Flush { submit, wait }
    }

    /// Whether the staging buffer that is next has been taken.
    pub open spec fn has_staged(&self, before: &Self, s: Stage) -> bool {
        &&& s.which == before.staging_next
        &&& s.wait == match before.staging_slot@[s.which as int] {
            Some(slot) => if before.in_flight@[slot as int] {
                Some(slot)
            } else {
                None
            },
            None => None,
        }
        &&& self.staging_slot@ == before.staging_slot@.update(s.which as int, None)
        &&& self.in_flight@ == match s.wait {
            Some(slot) => before.in_flight@.update(slot as int, false),
            None => before.in_flight@,
        }
        &&& self.current == before.current
        &&& self.recording == before.recording
        &&& self.recorded == before.recorded
        &&& self.staging_next == before.staging_next
    }

    /// Takes the staging buffer the last upload did not use, once whatever
    /// last read it has finished.
    pub fn stage(&mut self) -> (s: Stage)
        requires
            old(self).wf(),
        ensures
            final(self).wf(),
            final(self).has_staged(old(self), s),
    {
        let which: usize = self.staging_next;
        let slot = self.staging_slot[which];
        self.staging_slot[which] = None;
        let wait = match slot {
            Some(i) => if self.in_flight[i] {
                self.in_flight[i] = false;
                Some(i)
            } else {
                None
            },
            None => None,
        };
        Stage { wait, which }
    }

    /// Whether it has been noted that the submission of a command buffer reads
    /// a staging buffer.
    pub open spec fn has_noted(&self, before: &Self, which: usize, slot: usize) -> bool {
        &&& self.staging_slot@ == before.staging_slot@.update(which as int, Some(slot))
        &&& self.staging_next == 1 - which
        &&& self.current == before.current
        &&& self.recording == before.recording
        &&& self.recorded == before.recorded
        &&& self.in_flight == before.in_flight
    }

    /// Notes that the submission of a command buffer reads a staging buffer,
    /// and has the next upload fill the other.
    pub fn staged(&mut self, which: usize, slot: usize)
        requires
            old(self).wf(),
            which < 2,
            slot < RING,
        ensures
            final(self).wf(),
            final(self).has_noted(old(self), which, slot),
    {
        self.staging_slot[which] = Some(slot);
        self.staging_next = 1 - which;
    }
}

/// Whether of every staging buffer that a command buffer with the GPU reads it
/// is noted that it does; `reads` is which staging buffers each command buffer
/// reads. What is recorded in the one that is open reads none: an upload is
/// submitted at once.
pub open spec fn noted(ring: &Ring, reads: Seq<Set<int>>) -> bool {
    &&& reads.len() == RING
    &&& forall|b: int, w: int|
        0 <= b < RING && 0 <= w < 2 && ring.in_flight@[b] && #[trigger] reads[b].contains(w)
            ==> ring.staging_slot@[w] == Some(b as usize)
    &&& ring.recording ==> reads[ring.current as int] == Set::<int>::empty()
}

/// What is recorded, submitted and waited for keeps all reads noted.
pub proof fn law_reads_stay_noted(
    start: &Ring,
    opened: &Ring,
    o: Opening,
    submitted: &Ring,
    r: Option<usize>,
    flushed: &Ring,
    f: Flush,
    reads: Seq<Set<int>>,
)
    requires
        start.wf(),
        noted(start, reads),
        opened.has_opened(start, o),
        submitted.has_submitted(opened, r),
        flushed.has_flushed(start, f),
    ensures
        ({
            let now = if o.begin {
                reads.update(o.buffer as int, Set::empty())
            } else {
                reads
            };
            &&& noted(opened, now)
            &&& noted(submitted, now)
            &&& noted(flushed, reads)
        }),
{
}

/// A staging buffer is free once an upload has taken it: no command buffer
/// that is with the GPU reads it. And once the upload has been submitted, that
/// it reads the staging buffer is noted.
pub proof fn law_staging_is_free(
    start: &Ring,
    taken: &Ring,
    s: Stage,
    opened: &Ring,
    o: Opening,
    submitted: &Ring,
    r: Option<usize>,
    end: &Ring,
    reads: Seq<Set<int>>,
)
    requires
        start.wf(),
        noted(start, reads),
        taken.has_staged(start, s),
        opened.has_opened(taken, o),
        submitted.has_submitted(opened, r),
        end.has_noted(submitted, s.which, o.buffer),
    ensures
        forall|b: int|
            0 <= b < RING && taken.in_flight@[b] ==> !(#[trigger] reads[b]).contains(
                s.which as int,
            ),
        noted(end, reads.update(o.buffer as int, set![s.which as int])),
        end.staging_next != s.which,
{
    let now = reads.update(o.buffer as int, set![s.which as int]);
    assert forall|b: int, w: int|
        0 <= b < RING && 0 <= w < 2 && end.in_flight@[b] && #[trigger] now[b].contains(
            w,
        ) implies end.staging_slot@[w] == Some(b as usize) by {
        if b != o.buffer {
            assert(reads[b].contains(w));
        }
    }
}

/// Where the chunks of a copy through staging start, and how long they are.
pub open spec fn chunked(len: int, i: int) -> (int, int) {
    let at = i * STAGING;
    (
        at,
        if len - at < STAGING {
            len - at
        } else {
            STAGING as int
        },
    )
}

/// How many chunks a copy of `len` bytes through staging takes.
pub open spec fn chunk_count(len: int) -> int {
    (len + STAGING - 1) / STAGING as int
}

/// The chunks that a copy of `len` bytes goes through staging in.
pub fn chunks(len: usize) -> (list: Vec<(usize, usize)>)
    ensures
        list@.len() == chunk_count(len as int),
        forall|i: int|
            0 <= i < list@.len() ==> (#[trigger] list@[i]).0 == chunked(len as int, i).0
                && list@[i].1 == chunked(len as int, i).1,
{
    let mut list: Vec<(usize, usize)> = Vec::new();
    let mut at: usize = 0;
    while at < len
        invariant
            at <= len,
            at < len ==> at == list@.len() * STAGING,
            at == len ==> list@.len() == chunk_count(len as int),
            forall|i: int|
                0 <= i < list@.len() ==> (#[trigger] list@[i]).0 == chunked(len as int, i).0
                    && list@[i].1 == chunked(len as int, i).1,
        decreases len - at,
    {
        let size: usize = if len - at < STAGING {
            len - at
        } else {
            STAGING
        };
        list.push((at, size));
        at = at + size;
    }
    list
}

/// The chunks of a copy are all of its bytes, in order and each once: each is
/// some bytes, no more than a staging buffer takes; the first starts with the
/// copy, each other where the one before it ends; and the last ends with it.
pub proof fn law_chunks_cover(len: int, i: int)
    requires
        0 <= i < chunk_count(len),
        0 <= len,
    ensures
        chunked(len, 0).0 == 0,
        0 < chunked(len, i).1 <= STAGING,
        i + 1 < chunk_count(len) ==> chunked(len, i).0 + chunked(len, i).1 == chunked(len, i + 1).0,
        i + 1 == chunk_count(len) ==> chunked(len, i).0 + chunked(len, i).1 == len,
{
}

/// A command buffer is never recorded while the GPU has it: one that it has is
/// waited for before it is begun. The others stay with the GPU or do not.
pub proof fn law_ring_waits_before_recording(start: &Ring, opened: &Ring, o: Opening, b: int)
    requires
        start.wf(),
        opened.has_opened(start, o),
        0 <= b < 4,
    ensures
        opened.recording,
        !opened.in_flight@[o.buffer as int],
        start.in_flight@[o.buffer as int] ==> o.wait,
        !start.in_flight@[o.buffer as int] ==> !o.wait,
        b != o.buffer ==> opened.in_flight@[b] == start.in_flight@[b],
        start.recording ==> !o.begin && opened.recorded == start.recorded,
        !start.recording ==> o.begin && opened.recorded == 0,
{
}

/// What is recorded is submitted once, and the command buffers take turns: each
/// of the others is next before one is again.
pub proof fn law_ring_takes_turns(start: &Ring, submitted: &Ring, r: Option<usize>, b: int)
    requires
        start.wf(),
        submitted.has_submitted(start, r),
        0 <= b < 4,
    ensures
        !submitted.recording,
        start.recording ==> r == Some(start.current) && submitted.in_flight@[start.current as int]
            && submitted.current == (if start.current == 3 {
            0
        } else {
            start.current + 1
        }),
        !start.recording ==> r is None && submitted.current == start.current,
        r != Some(b as usize) ==> submitted.in_flight@[b] == start.in_flight@[b],
{
}

/// Once everything has been waited for, the GPU has nothing: what it had, and
/// what was recorded, has been waited for.
pub proof fn law_flush_waits_for_all(start: &Ring, flushed: &Ring, f: Flush, b: int)
    requires
        start.wf(),
        flushed.has_flushed(start, f),
        0 <= b < 4,
    ensures
        start.in_flight@[b] ==> f.wait@[b],
        start.recording ==> f.submit == Some(start.current) && f.wait@[start.current as int],
        !start.recording ==> f.submit is None,
        !flushed.in_flight@[b],
        !flushed.recording,
{
    assert(flushed.in_flight@.len() == 4);
}

} // verus!
